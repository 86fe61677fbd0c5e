//! The collections as rows of a list, each with its depth and its path of names.
use std::collections::HashMap;

use vstd::prelude::*;

use crate::library::sort_ids_by_name;
#[allow(unused_imports)]
use crate::library::name_keys;
#[allow(unused_imports)]
use crate::lineage::lemma_height_bound;
#[allow(unused_imports)]
use crate::order::{law_sorting_keeps_items, stably_sorted};
#[allow(unused_imports)]
use crate::seqs::{lemma_filter, lemma_filter_next};
use crate::text::clone_strings;
#[allow(unused_imports)]
use crate::text::texts;
#[allow(unused_imports)]
use crate::tree::{
    descends_finitely, height, height_at_most, lemma_child_height, lemma_height, lists_all,
    roots_descend_finitely,
};
use crate::tree::{collection_ids, CollectionNode};

verus! {

/// A collection as a row of the list.
#[derive(Debug)]
pub struct DisplayNode {
    pub id: i64,
    pub depth: usize,
    pub path_parts: Vec<String>,
}

/// What a row of the list shows.
pub struct Row {
    pub id: i64,
    pub depth: int,
    pub path_parts: Seq<Seq<char>>,
}

impl View for DisplayNode {
    type V = Row;

    open spec fn view(&self) -> Row {
        Row { id: self.id, depth: self.depth as int, path_parts: texts(self.path_parts@) }
    }
}

impl Clone for DisplayNode {
    fn clone(&self) -> (copy: DisplayNode)
        ensures
            copy@ == self@,
    {
        DisplayNode {
            id: self.id,
            depth: self.depth,
            path_parts: clone_strings(&self.path_parts),
        }
    }
}

/// The rows that a list of display nodes shows.
pub open spec fn row_views(nodes: Seq<DisplayNode>) -> Seq<Row> {
    nodes.map_values(|node: DisplayNode| node@)
}

/// The rows of the collection `id` and of all below it, where `id` stands at `depth` under the
/// names `prefix`; cut off below `levels` levels.
pub open spec fn rows_within(
    tree: Map<i64, CollectionNode>,
    id: i64,
    depth: int,
    prefix: Seq<Seq<char>>,
    levels: nat,
) -> Seq<Row>
    decreases levels, 0nat,
{
    if levels == 0 || !tree.contains_key(id) {
        seq![]
    } else {
        let path_parts = prefix.push(tree[id].name@);
        seq![Row { id, depth, path_parts }] + all_rows_within(
            tree,
            tree[id].children@,
            depth + 1,
            path_parts,
            (levels - 1) as nat,
        )
    }
}

/// `rows_within` of each of the given collections, one after the other.
pub open spec fn all_rows_within(
    tree: Map<i64, CollectionNode>,
    ids: Seq<i64>,
    depth: int,
    prefix: Seq<Seq<char>>,
    levels: nat,
) -> Seq<Row>
    decreases levels, ids.len(),
{
    if ids.len() == 0 {
        seq![]
    } else {
        all_rows_within(tree, ids.drop_last(), depth, prefix, levels) + rows_within(
            tree,
            ids.last(),
            depth,
            prefix,
            levels,
        )
    }
}

/// The rows of the collection `id` and of all below it.
pub open spec fn branch_rows(
    tree: Map<i64, CollectionNode>,
    id: i64,
    depth: int,
    prefix: Seq<Seq<char>>,
) -> Seq<Row> {
    rows_within(tree, id, depth, prefix, height(tree, id))
}

/// Once all walks end within `levels` levels, no row is cut off.
pub proof fn lemma_rows_within(
    tree: Map<i64, CollectionNode>,
    id: i64,
    depth: int,
    prefix: Seq<Seq<char>>,
    levels: nat,
    more: nat,
)
    requires
        height_at_most(tree, id, levels),
        levels <= more,
    ensures
        rows_within(tree, id, depth, prefix, levels) == rows_within(tree, id, depth, prefix, more),
    decreases levels, 0nat,
{
    if tree.contains_key(id) {
        lemma_all_rows_within(
            tree,
            tree[id].children@,
            depth + 1,
            prefix.push(tree[id].name@),
            (levels - 1) as nat,
            (more - 1) as nat,
        );
    }
}

proof fn lemma_all_rows_within(
    tree: Map<i64, CollectionNode>,
    ids: Seq<i64>,
    depth: int,
    prefix: Seq<Seq<char>>,
    levels: nat,
    more: nat,
)
    requires
        forall|i: int| 0 <= i < ids.len() ==> height_at_most(tree, #[trigger] ids[i], levels),
        levels <= more,
    ensures
        all_rows_within(tree, ids, depth, prefix, levels) == all_rows_within(
            tree,
            ids,
            depth,
            prefix,
            more,
        ),
    decreases levels, ids.len(),
{
    if ids.len() > 0 {
        lemma_rows_within(tree, ids.last(), depth, prefix, levels, more);
        lemma_all_rows_within(tree, ids.drop_last(), depth, prefix, levels, more);
    }
}

/// The rows of a branch, cut off at any number of levels that suffices.
pub proof fn lemma_branch_rows(
    tree: Map<i64, CollectionNode>,
    id: i64,
    depth: int,
    prefix: Seq<Seq<char>>,
    levels: nat,
)
    requires
        height_at_most(tree, id, levels),
    ensures
        branch_rows(tree, id, depth, prefix) == rows_within(tree, id, depth, prefix, levels),
{
    lemma_height(tree, id);
    lemma_rows_within(tree, id, depth, prefix, height(tree, id), levels);
}

proof fn lemma_next_rows(
    tree: Map<i64, CollectionNode>,
    ids: Seq<i64>,
    i: int,
    depth: int,
    prefix: Seq<Seq<char>>,
    levels: nat,
)
    requires
        0 <= i < ids.len(),
    ensures
        all_rows_within(tree, ids.take(i + 1), depth, prefix, levels) == all_rows_within(
            tree,
            ids.take(i),
            depth,
            prefix,
            levels,
        ) + rows_within(tree, ids[i], depth, prefix, levels),
{
    assert(ids.take(i + 1).drop_last() =~= ids.take(i));
}

/// Appends the rows of the collection `id` and of all below it to `out`.
pub fn flatten_from(
    tree: &HashMap<i64, CollectionNode>,
    id: i64,
    depth: usize,
    mut path_parts: Vec<String>,
    out: &mut Vec<DisplayNode>,
)
    requires
        descends_finitely(tree@, id),
        depth + height(tree@, id) - 1 <= usize::MAX,
    ensures
        row_views(final(out)@) == row_views(old(out)@) + branch_rows(
            tree@,
            id,
            depth as int,
            texts(path_parts@),
        ),
    decreases height(tree@, id),
{
    proof {
        lemma_height(tree@, id);
    }
    let ghost levels = (height(tree@, id) - 1) as nat;
    let ghost prefix = texts(path_parts@);
    let ghost before = row_views(out@);
    let node = match tree.get(&id) {
        Some(node) => node,
        None => {
            assert(row_views(out@) =~= before + branch_rows(tree@, id, depth as int, prefix));
            return;
        },
    };
    path_parts.push(node.name.clone());
    let ghost path = texts(path_parts@);
    assert(path =~= prefix.push(node.name@));
    let row = DisplayNode { id, depth, path_parts: clone_strings(&path_parts) };
    let ghost first = row@;
    out.push(row);
    let mut i: usize = 0;
    assert(node.children@.take(0) =~= seq![]);
    assert(row_views(out@) =~= before + (seq![first] + all_rows_within(
        tree@,
        node.children@.take(0),
        depth + 1,
        path,
        levels,
    )));
    while i < node.children.len()
        invariant
            i <= node.children@.len(),
            tree@.contains_key(id),
            tree@[id] == *node,
            descends_finitely(tree@, id),
            levels == height(tree@, id) - 1,
            depth + levels <= usize::MAX,
            path == texts(path_parts@),
            row_views(out@) == before + (seq![first] + all_rows_within(
                tree@,
                node.children@.take(i as int),
                depth + 1,
                path,
                levels,
            )),
        decreases node.children@.len() - i,
    {
        let child = node.children[i];
        proof {
            lemma_child_height(tree@, id, i as int);
            lemma_height(tree@, child);
            lemma_branch_rows(tree@, child, depth + 1, path, levels);
        }
        let ghost shown = row_views(out@);
        flatten_from(tree, child, depth + 1, clone_strings(&path_parts), out);
        proof {
            lemma_next_rows(tree@, node.children@, i as int, depth + 1, path, levels);
            assert(row_views(out@) == shown + rows_within(tree@, child, depth + 1, path, levels));
            assert(row_views(out@) =~= before + (seq![first] + all_rows_within(
                tree@,
                node.children@.take(i + 1),
                depth + 1,
                path,
                levels,
            )));
        }
        i += 1;
    }
    assert(node.children@.take(i as int) =~= node.children@);
}

/// The identifiers of the collections without a parent, in the order of `walk`.
pub open spec fn root_ids(tree: Map<i64, CollectionNode>, walk: Seq<i64>) -> Seq<i64> {
    walk.filter(|key: i64| tree[key].parent is None).map_values(|key: i64| tree[key].id)
}

/// Whether `roots` lists the collections without a parent, sorted by name; those with the same
/// name stand in any order.
pub open spec fn root_order(tree: Map<i64, CollectionNode>, roots: Seq<i64>) -> bool {
    exists|walk: Seq<i64>| #[trigger]
        lists_all(walk, tree) && stably_sorted(
            root_ids(tree, walk),
            name_keys(tree, root_ids(tree, walk)),
            roots,
        )
}

/// The rows of the branches of the given roots, one after the other.
pub open spec fn forest_rows(tree: Map<i64, CollectionNode>, roots: Seq<i64>) -> Seq<Row>
    decreases roots.len(),
{
    if roots.len() == 0 {
        seq![]
    } else {
        forest_rows(tree, roots.drop_last()) + branch_rows(tree, roots.last(), 0, seq![])
    }
}

/// The rows of all collections that hang on a root: roots by name, and each collection followed
/// by what lies below it.
pub fn flatten_tree(tree: &HashMap<i64, CollectionNode>) -> (out: Vec<DisplayNode>)
    requires
        roots_descend_finitely(tree@),
    ensures
        exists|roots: Seq<i64>| #[trigger]
            root_order(tree@, roots) && row_views(out@) == forest_rows(tree@, roots),
{
    let ids = collection_ids(tree);
    let mut roots: Vec<i64> = Vec::new();
    let mut n: usize = 0;
    let ghost parentless = |key: i64| tree@[key].parent is None;
    proof {
        reveal(Seq::filter);
        assert(root_ids(tree@, ids@.take(0)) =~= seq![]);
    }
    while n < ids.len()
        invariant
            n <= ids@.len(),
            lists_all(ids@, tree@),
            parentless == (|key: i64| tree@[key].parent is None),
            roots@ == root_ids(tree@, ids@.take(n as int)),
        decreases ids@.len() - n,
    {
        assert(ids@.contains(ids@[n as int]));
        proof {
            lemma_filter_next(ids@, parentless, n as int);
        }
        if let Some(node) = tree.get(&ids[n]) {
            if node.parent.is_none() {
                roots.push(node.id);
            }
        }
        assert(roots@ =~= root_ids(tree@, ids@.take(n + 1)));
        n += 1;
    }
    assert(ids@.take(n as int) =~= ids@);
    let sorted = sort_ids_by_name(tree, &roots);
    proof {
        assert(root_order(tree@, sorted@));
        law_sorting_keeps_items(roots@, name_keys(tree@, roots@), sorted@);
        lemma_filter(ids@, parentless);
        assert forall|i: int| 0 <= i < sorted@.len() implies descends_finitely(
            tree@,
            #[trigger] sorted@[i],
        ) by {
            assert(roots@.contains(sorted@[i]));
            let k = choose|k: int| 0 <= k < roots@.len() && roots@[k] == sorted@[i];
            let key = ids@.filter(parentless)[k];
            assert(ids@.filter(parentless).contains(key));
            assert(tree@.contains_key(key));
        }
    }
    let total = tree.len();
    let mut out: Vec<DisplayNode> = Vec::new();
    let mut n: usize = 0;
    assert(row_views(out@) =~= forest_rows(tree@, sorted@.take(0)));
    while n < sorted.len()
        invariant
            n <= sorted@.len(),
            total == tree@.len(),
            forall|i: int| 0 <= i < sorted@.len() ==> descends_finitely(tree@, #[trigger] sorted@[i]),
            row_views(out@) == forest_rows(tree@, sorted@.take(n as int)),
        decreases sorted@.len() - n,
    {
        proof {
            lemma_height_bound(tree@, sorted@[n as int]);
            assert(sorted@.take(n + 1).drop_last() =~= sorted@.take(n as int));
        }
        let prefix: Vec<String> = Vec::new();
        assert(texts(prefix@) =~= seq![]);
        flatten_from(tree, sorted[n], 0, prefix, &mut out);
        n += 1;
    }
    assert(sorted@.take(n as int) =~= sorted@);
    out
}

proof fn lemma_all_rows_flattened(
    tree: Map<i64, CollectionNode>,
    ids: Seq<i64>,
    depth: int,
    prefix: Seq<Seq<char>>,
    levels: nat,
)
    requires
        forall|i: int| 0 <= i < ids.len() ==> height_at_most(tree, #[trigger] ids[i], levels),
    ensures
        all_rows_within(tree, ids, depth, prefix, levels) == ids.map_values(
            |child: i64| branch_rows(tree, child, depth, prefix),
        ).flatten_alt(),
    decreases ids.len(),
{
    let branches = ids.map_values(|child: i64| branch_rows(tree, child, depth, prefix));
    if ids.len() > 0 {
        let front = ids.drop_last();
        lemma_all_rows_flattened(tree, front, depth, prefix, levels);
        assert(height_at_most(tree, ids[ids.len() - 1], levels));
        lemma_branch_rows(tree, ids.last(), depth, prefix, levels);
        assert(branches.drop_last() =~= front.map_values(
            |child: i64| branch_rows(tree, child, depth, prefix),
        ));
    }
}

/// The rows of a branch begin with that of its collection, and the rows of the children's
/// branches follow in their order, one level deeper and under its name. What the tree does not
/// hold has no row.
pub proof fn law_rows_in_order(
    tree: Map<i64, CollectionNode>,
    id: i64,
    depth: int,
    prefix: Seq<Seq<char>>,
)
    requires
        descends_finitely(tree, id),
    ensures
        branch_rows(tree, id, depth, prefix) == if tree.contains_key(id) {
            seq![Row { id, depth, path_parts: prefix.push(tree[id].name@) }]
                + tree[id].children@.map_values(
                |child: i64| branch_rows(tree, child, depth + 1, prefix.push(tree[id].name@)),
            ).flatten_alt()
        } else {
            seq![]
        },
{
    lemma_height(tree, id);
    if tree.contains_key(id) {
        lemma_all_rows_flattened(
            tree,
            tree[id].children@,
            depth + 1,
            prefix.push(tree[id].name@),
            (height(tree, id) - 1) as nat,
        );
    }
}

/// The list is made of the branches of the roots, one after the other, each from the top.
pub proof fn law_list_is_made_of_branches(tree: Map<i64, CollectionNode>, roots: Seq<i64>)
    ensures
        forest_rows(tree, roots) == roots.map_values(
            |root: i64| branch_rows(tree, root, 0, seq![]),
        ).flatten_alt(),
    decreases roots.len(),
{
    if roots.len() > 0 {
        law_list_is_made_of_branches(tree, roots.drop_last());
        assert(roots.map_values(|root: i64| branch_rows(tree, root, 0, seq![])).drop_last()
            =~= roots.drop_last().map_values(|root: i64| branch_rows(tree, root, 0, seq![])));
    }
}

/// A row shows the identifier, the depth and the path of its node, and lists are read one by one.
pub proof fn law_rows_show_nodes(nodes: Seq<DisplayNode>, node: DisplayNode)
    ensures
        node@.id == node.id,
        node@.depth == node.depth,
        node@.path_parts.len() == node.path_parts@.len(),
        forall|i: int|
            0 <= i < node.path_parts@.len() ==> #[trigger] node@.path_parts[i]
                == node.path_parts@[i]@,
        row_views(nodes).len() == nodes.len(),
        forall|k: int| 0 <= k < nodes.len() ==> #[trigger] row_views(nodes)[k] == nodes[k]@,
{
}

} // verus!
