//! Building the tree of collections from the rows of the library's database.
use std::collections::HashMap;

use vstd::prelude::*;

#[allow(unused_imports)]
use crate::lineage::{
    ancestor, is_child, law_climbing_ends_then_descending_ends, tree_wf,
};
#[allow(unused_imports)]
use crate::order::{
    arranged, is_stable_order, item_before, key_views, law_sorting_keeps_items, positions,
    stably_sorted, text_keys,
};
use crate::order::stable_order;
#[allow(unused_imports)]
use crate::seqs::{lemma_filter, lemma_filter_next};
use crate::text::chars_of;
#[allow(unused_imports)]
use crate::text::{lemma_lex_lt_asymmetric, lex_lt};
#[allow(unused_imports)]
use crate::tree::{descends_finitely, lists_all, roots_descend_finitely};
use crate::tree::{collection_ids, CollectionNode};

verus! {

/// A collection as the database lists it.
#[derive(Debug, Clone)]
pub struct CollectionRow {
    pub id: i64,
    pub name: String,
    pub parent: Option<i64>,
}

/// The name of a collection, or nothing where the tree does not hold it.
pub open spec fn name_of(tree: Map<i64, CollectionNode>, id: i64) -> Seq<char> {
    if tree.contains_key(id) {
        tree[id].name@
    } else {
        seq![]
    }
}

/// The keys by which collections sort: their names.
pub open spec fn name_keys(
    tree: Map<i64, CollectionNode>,
    ids: Seq<i64>,
) -> Seq<(usize, Seq<char>)> {
    text_keys(ids.map_values(|id: i64| name_of(tree, id)))
}

/// Whether no later row has the identifier of row `i`.
pub open spec fn is_last_row(rows: Seq<CollectionRow>, i: int) -> bool {
    0 <= i < rows.len() && forall|j: int| i < j < rows.len() ==> (#[trigger] rows[j]).id != rows[i].id
}

/// The collections by name; those with the same name stay in the order in which they stand.
pub fn sort_ids_by_name(tree: &HashMap<i64, CollectionNode>, ids: &Vec<i64>) -> (sorted: Vec<i64>)
    ensures
        stably_sorted(ids@, name_keys(tree@, ids@), sorted@),
{
    let mut keys: Vec<(usize, Vec<char>)> = Vec::new();
    let mut i: usize = 0;
    while i < ids.len()
        invariant
            i <= ids@.len(),
            keys@.len() == i,
            forall|k: int|
                0 <= k < i ==> (#[trigger] keys@[k]).0 == 0 && keys@[k].1@ == name_of(
                    tree@,
                    ids@[k],
                ),
        decreases ids@.len() - i,
    {
        let key: Vec<char> = match tree.get(&ids[i]) {
            Some(node) => chars_of(node.name.as_str()),
            None => Vec::new(),
        };
        keys.push((0, key));
        i += 1;
    }
    let order = stable_order(&keys);
    assert(key_views(keys@) =~= name_keys(tree@, ids@));
    let mut sorted: Vec<i64> = Vec::new();
    let mut i: usize = 0;
    while i < order.len()
        invariant
            i <= order@.len(),
            is_stable_order(positions(order@), name_keys(tree@, ids@)),
            sorted@ == arranged(ids@, positions(order@)).take(i as int),
        decreases order@.len() - i,
    {
        assert(0 <= positions(order@)[i as int] < ids@.len());
        sorted.push(ids[order[i]]);
        i += 1;
    }
    assert(sorted@ =~= arranged(ids@, positions(order@)));
    sorted
}

/// The children of a collection, in the order of `walk`.
spec fn children_in(base: Map<i64, CollectionNode>, walk: Seq<i64>, id: i64) -> Seq<i64> {
    walk.filter(|child: i64| base[child].parent == Some(id))
}

/// Whether two nodes differ in their children at most.
spec fn same_collection(a: CollectionNode, b: CollectionNode) -> bool {
    a.id == b.id && a.name == b.name && a.parent == b.parent
}

spec fn same_collections(a: Map<i64, CollectionNode>, b: Map<i64, CollectionNode>) -> bool {
    a.dom() == b.dom() && forall|id: i64| #[trigger]
        a.contains_key(id) ==> same_collection(a[id], b[id])
}

/// The nodes of the rows, still without children. Of several rows with one identifier the last
/// counts.
fn nodes_of_rows(rows: &Vec<CollectionRow>) -> (tree: HashMap<i64, CollectionNode>)
    ensures
        forall|id: i64| #[trigger]
            tree@.contains_key(id) <==> exists|i: int|
                0 <= i < rows@.len() && (#[trigger] rows@[i]).id == id,
        forall|i: int|
            #![trigger rows@[i]]
            is_last_row(rows@, i) ==> {
                let node = tree@[rows@[i].id];
                node.name@ == rows@[i].name@ && node.parent == rows@[i].parent
            },
        forall|id: i64| #[trigger]
            tree@.contains_key(id) ==> tree@[id].id == id && tree@[id].children@ == Seq::<
                i64,
            >::empty(),
{
    let mut tree: HashMap<i64, CollectionNode> = HashMap::new();
    let mut n: usize = 0;
    while n < rows.len()
        invariant
            n <= rows@.len(),
            forall|id: i64| #[trigger]
                tree@.contains_key(id) <==> exists|i: int|
                    0 <= i < n && (#[trigger] rows@[i]).id == id,
            forall|i: int|
                #![trigger rows@[i]]
                is_last_row(rows@.take(n as int), i) ==> {
                    let node = tree@[rows@[i].id];
                    node.name@ == rows@[i].name@ && node.parent == rows@[i].parent
                },
            forall|id: i64| #[trigger]
                tree@.contains_key(id) ==> tree@[id].id == id && tree@[id].children@ == Seq::<
                    i64,
                >::empty(),
        decreases rows@.len() - n,
    {
        let row = &rows[n];
        let ghost earlier = tree@;
        tree.insert(
            row.id,
            CollectionNode {
                id: row.id,
                name: row.name.clone(),
                parent: row.parent,
                children: Vec::new(),
            },
        );
        proof {
            assert forall|id: i64| #[trigger] tree@.contains_key(id) <==> exists|i: int|
                0 <= i < n + 1 && (#[trigger] rows@[i]).id == id by {
                if earlier.contains_key(id) {
                    let i = choose|i: int| 0 <= i < n && (#[trigger] rows@[i]).id == id;
                    assert(rows@[i].id == id);
                }
                if id == row.id {
                    assert(rows@[n as int].id == id);
                }
            }
            assert forall|i: int|
                #![trigger rows@[i]]
                is_last_row(rows@.take(n + 1), i) implies {
                let node = tree@[rows@[i].id];
                node.name@ == rows@[i].name@ && node.parent == rows@[i].parent
            } by {
                if i < n {
                    assert(rows@.take(n + 1)[n as int].id != rows@[i].id);
                    assert forall|j: int| i < j < n implies (#[trigger] rows@.take(
                        n as int,
                    )[j]).id != rows@.take(n as int)[i].id by {
                        assert(rows@.take(n + 1)[j].id != rows@.take(n + 1)[i].id);
                    }
                    assert(is_last_row(rows@.take(n as int), i));
                }
            }
        }
        n += 1;
    }
    assert(rows@.take(n as int) =~= rows@);
    tree
}

/// Enters each collection among the children of its parent.
fn link_children(tree: &mut HashMap<i64, CollectionNode>, ids: &Vec<i64>)
    requires
        lists_all(ids@, old(tree)@),
        forall|id: i64| #[trigger]
            old(tree)@.contains_key(id) ==> old(tree)@[id].children@ == Seq::<i64>::empty(),
    ensures
        same_collections(final(tree)@, old(tree)@),
        forall|id: i64| #[trigger]
            final(tree)@.contains_key(id) ==> final(tree)@[id].children@ == children_in(
                old(tree)@,
                ids@,
                id,
            ),
{
    let ghost base = tree@;
    let mut n: usize = 0;
    proof {
        reveal(Seq::filter);
        assert(ids@.take(0) =~= seq![]);
    }
    while n < ids.len()
        invariant
            n <= ids@.len(),
            lists_all(ids@, base),
            same_collections(tree@, base),
            forall|id: i64| #[trigger]
                tree@.contains_key(id) ==> tree@[id].children@ == children_in(
                    base,
                    ids@.take(n as int),
                    id,
                ),
        decreases ids@.len() - n,
    {
        let id = ids[n];
        proof {
            assert(ids@.contains(id));
            assert(tree@.contains_key(id));
            assert forall|other: i64| #[trigger] children_in(base, ids@.take(n + 1), other)
                == if base[id].parent == Some(other) {
                children_in(base, ids@.take(n as int), other).push(id)
            } else {
                children_in(base, ids@.take(n as int), other)
            } by {
                lemma_filter_next(ids@, |child: i64| base[child].parent == Some(other), n as int);
            }
        }
        let parent = match tree.get(&id) {
            Some(node) => node.parent,
            None => None,
        };
        if let Some(parent_id) = parent {
            if let Some(mut parent_node) = tree.remove(&parent_id) {
                parent_node.children.push(id);
                tree.insert(parent_id, parent_node);
            }
        }
        assert(tree@.dom() =~= base.dom());
        n += 1;
    }
    assert(ids@.take(n as int) =~= ids@);
}

/// Sorts the children of each collection by name.
fn sort_children(tree: &mut HashMap<i64, CollectionNode>, ids: &Vec<i64>)
    requires
        lists_all(ids@, old(tree)@),
    ensures
        same_collections(final(tree)@, old(tree)@),
        forall|id: i64| #[trigger]
            final(tree)@.contains_key(id) ==> stably_sorted(
                old(tree)@[id].children@,
                name_keys(old(tree)@, old(tree)@[id].children@),
                final(tree)@[id].children@,
            ),
{
    let ghost base = tree@;
    let mut n: usize = 0;
    while n < ids.len()
        invariant
            n <= ids@.len(),
            lists_all(ids@, base),
            same_collections(tree@, base),
            forall|k: int|
                n <= k < ids@.len() ==> tree@[#[trigger] ids@[k]].children@
                    == base[ids@[k]].children@,
            forall|k: int|
                0 <= k < n ==> stably_sorted(
                    base[ids@[k]].children@,
                    name_keys(base, base[ids@[k]].children@),
                    tree@[#[trigger] ids@[k]].children@,
                ),
        decreases ids@.len() - n,
    {
        let id = ids[n];
        assert(ids@.contains(id));
        assert(tree@.contains_key(id));
        if let Some(node) = tree.get(&id) {
            let sorted = sort_ids_by_name(tree, &node.children);
            assert(name_keys(tree@, node.children@) =~= name_keys(base, node.children@));
            if let Some(mut node) = tree.remove(&id) {
                node.children = sorted;
                tree.insert(id, node);
            }
        }
        assert(tree@.dom() =~= base.dom());
        n += 1;
    }
    proof {
        assert forall|id: i64| #[trigger] tree@.contains_key(id) implies stably_sorted(
            base[id].children@,
            name_keys(base, base[id].children@),
            tree@[id].children@,
        ) by {
            assert(ids@.contains(id));
        }
    }
}

/// The tree of the collections that the database lists.
///
/// Of several rows with one identifier the last counts. A collection whose parent is not listed
/// has no place among any children. Siblings with the same name stand in either order.
pub fn load_collection_tree(rows: &Vec<CollectionRow>) -> (tree: HashMap<i64, CollectionNode>)
    ensures
        forall|id: i64| #[trigger]
            tree@.contains_key(id) <==> exists|i: int|
                0 <= i < rows@.len() && (#[trigger] rows@[i]).id == id,
        forall|i: int|
            #![trigger rows@[i]]
            is_last_row(rows@, i) ==> {
                let node = tree@[rows@[i].id];
                node.name@ == rows@[i].name@ && node.parent == rows@[i].parent
            },
        tree_wf(tree@),
        roots_descend_finitely(tree@),
        forall|id: i64| #[trigger] tree@.contains_key(id) ==> tree@[id].id == id,
        forall|id: i64| #[trigger]
            tree@.contains_key(id) ==> tree@[id].children@.no_duplicates(),
        forall|id: i64, child: i64|
            tree@.contains_key(id) ==> (#[trigger] tree@[id].children@.contains(child)
                <==> tree@.contains_key(child) && tree@[child].parent == Some(id)),
        forall|id: i64, i: int, j: int|
            tree@.contains_key(id) && 0 <= i < j < tree@[id].children@.len() ==> !lex_lt(
                tree@[#[trigger] tree@[id].children@[j]].name@,
                tree@[#[trigger] tree@[id].children@[i]].name@,
            ),
{
    let mut tree = nodes_of_rows(rows);
    let ids = collection_ids(&tree);
    let ghost base = tree@;
    link_children(&mut tree, &ids);
    let ghost linked = tree@;
    sort_children(&mut tree, &ids);
    proof {
        assert(tree@.dom() == base.dom());
        assert forall|id: i64| #[trigger] tree@.contains_key(id) implies {
            &&& same_collection(tree@[id], base[id])
            &&& tree@[id].children@.no_duplicates()
            &&& forall|child: i64| #[trigger]
                tree@[id].children@.contains(child) <==> is_child(tree@, child, id)
            &&& forall|i: int, j: int|
                0 <= i < j < tree@[id].children@.len() ==> !lex_lt(
                    tree@[#[trigger] tree@[id].children@[j]].name@,
                    tree@[#[trigger] tree@[id].children@[i]].name@,
                )
        } by {
            assert(linked.contains_key(id));
            lemma_sorted_children(base, linked, tree@, ids@, id);
        }
        assert forall|id: i64, child: i64|
            tree@.contains_key(id) implies (#[trigger] tree@[id].children@.contains(child)
            <==> is_child(tree@, child, id)) by {}
        assert forall|i: int|
            #![trigger rows@[i]]
            is_last_row(rows@, i) implies {
            let node = tree@[rows@[i].id];
            node.name@ == rows@[i].name@ && node.parent == rows@[i].parent
        } by {
            assert(base.contains_key(rows@[i].id));
            assert(tree@.contains_key(rows@[i].id));
        }
        assert(tree_wf(tree@));
        assert forall|id: i64| #[trigger]
            tree@.contains_key(id) && tree@[id].parent is None implies descends_finitely(
            tree@,
            tree@[id].id,
        ) by {
            assert(ancestor(tree@, id, 1) is None);
            law_climbing_ends_then_descending_ends(tree@, id);
        }
    }
    tree
}

/// The children of a collection once they are linked and sorted.
proof fn lemma_sorted_children(
    base: Map<i64, CollectionNode>,
    linked: Map<i64, CollectionNode>,
    tree: Map<i64, CollectionNode>,
    walk: Seq<i64>,
    id: i64,
)
    requires
        lists_all(walk, base),
        same_collections(linked, base),
        same_collections(tree, linked),
        base.contains_key(id),
        linked[id].children@ == children_in(base, walk, id),
        stably_sorted(
            linked[id].children@,
            name_keys(linked, linked[id].children@),
            tree[id].children@,
        ),
    ensures
        same_collection(tree[id], base[id]),
        tree[id].children@.no_duplicates(),
        forall|child: i64| #[trigger]
            tree[id].children@.contains(child) <==> is_child(tree, child, id),
        forall|i: int, j: int|
            0 <= i < j < tree[id].children@.len() ==> !lex_lt(
                tree[#[trigger] tree[id].children@[j]].name@,
                tree[#[trigger] tree[id].children@[i]].name@,
            ),
{
    let input = linked[id].children@;
    let keys = name_keys(linked, input);
    let output = tree[id].children@;
    assert(linked.contains_key(id) && tree.contains_key(id));
    law_sorting_keeps_items(input, keys, output);
    let pred = |child: i64| base[child].parent == Some(id);
    lemma_filter(walk, pred);
    assert forall|child: i64| #[trigger] output.contains(child) <==> is_child(tree, child, id) by {
        assert(walk.contains(child) <==> base.contains_key(child));
        assert(output.contains(child) <==> input.contains(child));
        assert(linked.contains_key(child) == tree.contains_key(child));
        assert(base.contains_key(child) == tree.contains_key(child));
        assert(input.contains(child) <==> walk.contains(child) && pred(child));
    }
    let order = choose|order: Seq<int>| #[trigger]
        is_stable_order(order, keys) && output == arranged(input, order);
    assert forall|i: int, j: int| 0 <= i < j < output.len() implies !lex_lt(
        tree[#[trigger] output[j]].name@,
        tree[#[trigger] output[i]].name@,
    ) by {
        assert(output.contains(output[i]) && output.contains(output[j]));
        assert(linked.contains_key(output[i]) && linked.contains_key(output[j]));
        assert(item_before(keys, order[i], order[j]));
        assert(keys[order[i]].1 == tree[output[i]].name@);
        assert(keys[order[j]].1 == tree[output[j]].name@);
        lemma_lex_lt_asymmetric(tree[output[i]].name@, tree[output[j]].name@);
    }
}

/// A tree whose nodes fit together holds each collection under its identifier, and lists as
/// children of a collection exactly those that name it as their parent, each once and by name.
pub proof fn law_children_are_those_that_name_their_parent(
    tree: Map<i64, CollectionNode>,
    id: i64,
    child: i64,
)
    requires
        tree_wf(tree),
        tree.contains_key(id),
    ensures
        tree[id].id == id,
        tree[id].children@.no_duplicates(),
        tree[id].children@.contains(child) <==> tree.contains_key(child) && tree[child].parent
            == Some(id),
        forall|i: int, j: int|
            0 <= i < j < tree[id].children@.len() ==> !lex_lt(
                tree[#[trigger] tree[id].children@[j]].name@,
                tree[#[trigger] tree[id].children@[i]].name@,
            ),
{
}

/// Collections sort by their names, and by nothing where the tree does not hold them.
pub proof fn law_name_keys(tree: Map<i64, CollectionNode>, ids: Seq<i64>, i: int)
    requires
        0 <= i < ids.len(),
    ensures
        name_keys(tree, ids).len() == ids.len(),
        name_keys(tree, ids)[i].0 == 0,
        tree.contains_key(ids[i]) ==> name_keys(tree, ids)[i].1 == tree[ids[i]].name@,
        !tree.contains_key(ids[i]) ==> name_keys(tree, ids)[i].1.len() == 0,
{
}

/// Every identifier among the rows has one last row, and it is no earlier than any other.
pub proof fn law_every_identifier_has_a_last_row(rows: Seq<CollectionRow>, k: int)
    requires
        0 <= k < rows.len(),
    ensures
        exists|i: int|
            k <= i < rows.len() && rows[i].id == rows[k].id && #[trigger] is_last_row(rows, i),
        is_last_row(rows, k) <==> forall|j: int|
            k < j < rows.len() ==> (#[trigger] rows[j]).id != rows[k].id,
        !is_last_row(rows, rows.len() as int),
    decreases rows.len() - k,
{
    if !is_last_row(rows, k) {
        let j = choose|j: int| k < j < rows.len() && (#[trigger] rows[j]).id == rows[k].id;
        law_every_identifier_has_a_last_row(rows, j);
        let i = choose|i: int|
            j <= i < rows.len() && rows[i].id == rows[j].id && #[trigger] is_last_row(rows, i);
        assert(is_last_row(rows, i));
    }
}

} // verus!
