//! The tree of collections: nodes by identifier, walked downwards through `children` and upwards
//! through `parent`.
use std::collections::HashMap;

use vstd::prelude::*;
#[allow(unused_imports)]
use vstd::std_specs::iter::IteratorSpec;

verus! {

/// A collection of the library.
#[derive(Debug, Clone)]
pub struct CollectionNode {
    pub id: i64,
    pub name: String,
    pub parent: Option<i64>,
    pub children: Vec<i64>,
}

/// Whether every walk from `id` down through the children takes at most `levels` collections.
pub open spec fn height_at_most(tree: Map<i64, CollectionNode>, id: i64, levels: nat) -> bool
    decreases levels,
{
    &&& levels > 0
    &&& tree.contains_key(id) ==> forall|i: int|
        0 <= i < tree[id].children@.len() ==> height_at_most(
            tree,
            #[trigger] tree[id].children@[i],
            (levels - 1) as nat,
        )
}

/// Whether every walk from `id` down through the children comes to an end.
pub open spec fn descends_finitely(tree: Map<i64, CollectionNode>, id: i64) -> bool {
    exists|levels: nat| height_at_most(tree, id, levels)
}

/// Whether no collection without a parent has an endless walk below it.
pub open spec fn roots_descend_finitely(tree: Map<i64, CollectionNode>) -> bool {
    forall|key: i64| #[trigger]
        tree.contains_key(key) && tree[key].parent is None ==> descends_finitely(
            tree,
            tree[key].id,
        )
}

/// The number of collections on the longest walk from `id` down through the children.
#[verifier::opaque]
pub open spec fn height(tree: Map<i64, CollectionNode>, id: i64) -> nat {
    choose|levels: nat|
        #![trigger height_at_most(tree, id, levels)]
        height_at_most(tree, id, levels) && forall|fewer: nat|
            fewer < levels ==> !height_at_most(tree, id, fewer)
}

/// The collection `id` and all below it, each before the ones below it and siblings in order;
/// cut off below `levels` levels.
pub open spec fn ids_within(tree: Map<i64, CollectionNode>, id: i64, levels: nat) -> Seq<i64>
    decreases levels, 0nat,
{
    if levels == 0 {
        seq![]
    } else if tree.contains_key(id) {
        seq![id] + all_ids_within(tree, tree[id].children@, (levels - 1) as nat)
    } else {
        seq![id]
    }
}

/// `ids_within` of each of the given collections, one after the other.
pub open spec fn all_ids_within(
    tree: Map<i64, CollectionNode>,
    ids: Seq<i64>,
    levels: nat,
) -> Seq<i64>
    decreases levels, ids.len(),
{
    if ids.len() == 0 {
        seq![]
    } else {
        all_ids_within(tree, ids.drop_last(), levels) + ids_within(tree, ids.last(), levels)
    }
}

/// The collection `id` and all below it, each before the ones below it and siblings in order.
pub open spec fn branch_ids(tree: Map<i64, CollectionNode>, id: i64) -> Seq<i64> {
    ids_within(tree, id, height(tree, id))
}

/// A walk that ends within some number of levels ends within any larger number.
pub proof fn lemma_height_at_most_monotone(
    tree: Map<i64, CollectionNode>,
    id: i64,
    levels: nat,
    more: nat,
)
    requires
        height_at_most(tree, id, levels),
        levels <= more,
    ensures
        height_at_most(tree, id, more),
    decreases levels,
{
    if tree.contains_key(id) {
        assert forall|i: int| 0 <= i < tree[id].children@.len() implies height_at_most(
            tree,
            #[trigger] tree[id].children@[i],
            (more - 1) as nat,
        ) by {
            lemma_height_at_most_monotone(
                tree,
                tree[id].children@[i],
                (levels - 1) as nat,
                (more - 1) as nat,
            );
        }
    }
}

proof fn lemma_least_height(tree: Map<i64, CollectionNode>, id: i64, levels: nat) -> (least: nat)
    requires
        height_at_most(tree, id, levels),
    ensures
        least <= levels,
        height_at_most(tree, id, least),
        forall|fewer: nat| fewer < least ==> !height_at_most(tree, id, fewer),
    decreases levels,
{
    if levels > 0 && height_at_most(tree, id, (levels - 1) as nat) {
        lemma_least_height(tree, id, (levels - 1) as nat)
    } else {
        assert forall|fewer: nat| fewer < levels implies !height_at_most(tree, id, fewer) by {
            if height_at_most(tree, id, fewer) {
                lemma_height_at_most_monotone(tree, id, fewer, (levels - 1) as nat);
            }
        }
        levels
    }
}

/// The height is the least number of levels within which all walks end.
pub proof fn lemma_height(tree: Map<i64, CollectionNode>, id: i64)
    requires
        descends_finitely(tree, id),
    ensures
        height(tree, id) > 0,
        height_at_most(tree, id, height(tree, id)),
        forall|levels: nat|
            #![trigger height_at_most(tree, id, levels)]
            height_at_most(tree, id, levels) ==> height(tree, id) <= levels,
{
    reveal(height);
    let levels = choose|levels: nat| height_at_most(tree, id, levels);
    let least = lemma_least_height(tree, id, levels);
    assert(height_at_most(tree, id, least) && forall|fewer: nat|
        fewer < least ==> !height_at_most(tree, id, fewer));
}

/// A child has fewer levels than its parent.
pub proof fn lemma_child_height(tree: Map<i64, CollectionNode>, id: i64, i: int)
    requires
        descends_finitely(tree, id),
        tree.contains_key(id),
        0 <= i < tree[id].children@.len(),
    ensures
        descends_finitely(tree, tree[id].children@[i]),
        height(tree, tree[id].children@[i]) < height(tree, id),
        height_at_most(tree, tree[id].children@[i], (height(tree, id) - 1) as nat),
{
    lemma_height(tree, id);
    let child = tree[id].children@[i];
    assert(height_at_most(tree, child, (height(tree, id) - 1) as nat));
    lemma_height(tree, child);
}

/// Once all walks end within `levels` levels, nothing is cut off.
pub proof fn lemma_ids_within(
    tree: Map<i64, CollectionNode>,
    id: i64,
    levels: nat,
    more: nat,
)
    requires
        height_at_most(tree, id, levels),
        levels <= more,
    ensures
        ids_within(tree, id, levels) == ids_within(tree, id, more),
    decreases levels, 0nat,
{
    if tree.contains_key(id) {
        lemma_all_ids_within(tree, tree[id].children@, (levels - 1) as nat, (more - 1) as nat);
    }
}

proof fn lemma_all_ids_within(
    tree: Map<i64, CollectionNode>,
    ids: Seq<i64>,
    levels: nat,
    more: nat,
)
    requires
        forall|i: int| 0 <= i < ids.len() ==> height_at_most(tree, #[trigger] ids[i], levels),
        levels <= more,
    ensures
        all_ids_within(tree, ids, levels) == all_ids_within(tree, ids, more),
    decreases levels, ids.len(),
{
    if ids.len() > 0 {
        lemma_ids_within(tree, ids.last(), levels, more);
        lemma_all_ids_within(tree, ids.drop_last(), levels, more);
    }
}

/// The branch of a collection, cut off at any number of levels that suffices.
pub proof fn lemma_branch_ids(tree: Map<i64, CollectionNode>, id: i64, levels: nat)
    requires
        height_at_most(tree, id, levels),
    ensures
        branch_ids(tree, id) == ids_within(tree, id, levels),
{
    lemma_height(tree, id);
    lemma_ids_within(tree, id, height(tree, id), levels);
}

proof fn lemma_next_branch(tree: Map<i64, CollectionNode>, ids: Seq<i64>, i: int, levels: nat)
    requires
        0 <= i < ids.len(),
    ensures
        all_ids_within(tree, ids.take(i + 1), levels) == all_ids_within(tree, ids.take(i), levels)
            + ids_within(tree, ids[i], levels),
{
    assert(ids.take(i + 1).drop_last() =~= ids.take(i));
}

/// The selected collection and all its subcollections, in the order in which they are exported.
pub fn gather_descendants(tree: &HashMap<i64, CollectionNode>, root: i64) -> (out: Vec<i64>)
    requires
        descends_finitely(tree@, root),
    ensures
        out@ == branch_ids(tree@, root),
{
    let mut out: Vec<i64> = Vec::new();
    gather_descendants_inner(tree, root, &mut out);
    assert(out@ =~= branch_ids(tree@, root));
    out
}

/// Appends the collection `id` and all below it to `out`.
pub fn gather_descendants_inner(
    tree: &HashMap<i64, CollectionNode>,
    id: i64,
    out: &mut Vec<i64>,
)
    requires
        descends_finitely(tree@, id),
    ensures
        final(out)@ == old(out)@ + branch_ids(tree@, id),
    decreases height(tree@, id),
{
    proof {
        lemma_height(tree@, id);
    }
    let ghost levels = (height(tree@, id) - 1) as nat;
    out.push(id);
    if let Some(node) = tree.get(&id) {
        let mut i: usize = 0;
        assert(node.children@.take(0) =~= seq![]);
        while i < node.children.len()
            invariant
                i <= node.children@.len(),
                tree@.contains_key(id),
                tree@[id] == *node,
                descends_finitely(tree@, id),
                levels == height(tree@, id) - 1,
                out@ == old(out)@ + (seq![id] + all_ids_within(
                    tree@,
                    node.children@.take(i as int),
                    levels,
                )),
            decreases node.children@.len() - i,
        {
            let child = node.children[i];
            proof {
                lemma_child_height(tree@, id, i as int);
                lemma_branch_ids(tree@, child, levels);
            }
            let ghost gathered = out@;
            gather_descendants_inner(tree, child, out);
            proof {
                lemma_next_branch(tree@, node.children@, i as int, levels);
                assert(out@ == gathered + ids_within(tree@, child, levels));
                assert(out@ =~= old(out)@ + (seq![id] + all_ids_within(
                    tree@,
                    node.children@.take(i + 1),
                    levels,
                )));
            }
            i += 1;
        }
        assert(node.children@.take(i as int) =~= node.children@);
    }
    assert(out@ =~= old(out)@ + branch_ids(tree@, id));
}

/// Whether `walk` lists the collections, each once.
pub open spec fn lists_all(walk: Seq<i64>, tree: Map<i64, CollectionNode>) -> bool {
    walk.no_duplicates() && forall|id: i64| #[trigger] walk.contains(id) <==> tree.contains_key(id)
}

/// The identifiers of the collections, in the order in which the map is walked.
pub fn collection_ids(tree: &HashMap<i64, CollectionNode>) -> (ids: Vec<i64>)
    ensures
        lists_all(ids@, tree@),
{
    let keys = tree.keys();
    let ghost walk = keys.remaining();
    let mut ids: Vec<i64> = Vec::new();
    for id in iter: keys
        invariant
            iter.seq() == walk,
            ids@ == walk.unref().take(iter.index() as int),
    {
        ids.push(*id);
    }
    proof {
        assert(ids@ =~= walk.unref());
        assert forall|id: i64| #[trigger] ids@.contains(id) <==> tree@.contains_key(id) by {
            assert(ids@.to_set().contains(id) <==> ids@.contains(id));
        }
        assert forall|i: int, j: int| 0 <= i < j < ids@.len() implies ids@[i] != ids@[j] by {
            assert(walk[i] != walk[j]);
        }
    }
    ids
}

proof fn lemma_all_ids_flattened(tree: Map<i64, CollectionNode>, ids: Seq<i64>, levels: nat)
    requires
        forall|i: int| 0 <= i < ids.len() ==> height_at_most(tree, #[trigger] ids[i], levels),
    ensures
        all_ids_within(tree, ids, levels) == ids.map_values(
            |child: i64| branch_ids(tree, child),
        ).flatten_alt(),
    decreases ids.len(),
{
    let branches = ids.map_values(|child: i64| branch_ids(tree, child));
    if ids.len() > 0 {
        let front = ids.drop_last();
        lemma_all_ids_flattened(tree, front, levels);
        assert(height_at_most(tree, ids[ids.len() - 1], levels));
        lemma_branch_ids(tree, ids.last(), levels);
        assert(branches.drop_last() =~= front.map_values(|child: i64| branch_ids(tree, child)));
    }
}

/// A branch begins with its collection, and the branches of the children follow in their order.
/// What the tree does not hold has no more than itself.
pub proof fn law_branch_in_order(tree: Map<i64, CollectionNode>, id: i64)
    requires
        descends_finitely(tree, id),
    ensures
        branch_ids(tree, id) == if tree.contains_key(id) {
            seq![id] + tree[id].children@.map_values(
                |child: i64| branch_ids(tree, child),
            ).flatten_alt()
        } else {
            seq![id]
        },
{
    lemma_height(tree, id);
    if tree.contains_key(id) {
        lemma_all_ids_flattened(tree, tree[id].children@, (height(tree, id) - 1) as nat);
    }
}

proof fn lemma_common_height(tree: Map<i64, CollectionNode>, ids: Seq<i64>) -> (levels: nat)
    requires
        forall|i: int| 0 <= i < ids.len() ==> descends_finitely(tree, #[trigger] ids[i]),
    ensures
        forall|i: int| 0 <= i < ids.len() ==> height_at_most(tree, #[trigger] ids[i], levels),
    decreases ids.len(),
{
    if ids.len() == 0 {
        0
    } else {
        let front = ids.drop_last();
        assert forall|i: int| 0 <= i < front.len() implies descends_finitely(
            tree,
            #[trigger] front[i],
        ) by {
            assert(front[i] == ids[i]);
        }
        let fewer = lemma_common_height(tree, front);
        assert(descends_finitely(tree, ids[ids.len() - 1]));
        lemma_height(tree, ids.last());
        let last = height(tree, ids.last());
        let levels = if fewer >= last {
            fewer
        } else {
            last
        };
        assert forall|i: int| 0 <= i < ids.len() implies height_at_most(
            tree,
            #[trigger] ids[i],
            levels,
        ) by {
            if i < front.len() {
                assert(height_at_most(tree, front[i], fewer));
                lemma_height_at_most_monotone(tree, ids[i], fewer, levels);
            } else {
                lemma_height_at_most_monotone(tree, ids[i], last, levels);
            }
        }
        levels
    }
}

/// The walks down from a collection end exactly where those from all its children do.
pub proof fn law_descending_ends_where_it_does_for_children(
    tree: Map<i64, CollectionNode>,
    id: i64,
)
    ensures
        descends_finitely(tree, id) <==> (tree.contains_key(id) ==> forall|i: int|
            0 <= i < tree[id].children@.len() ==> descends_finitely(
                tree,
                #[trigger] tree[id].children@[i],
            )),
{
    if descends_finitely(tree, id) && tree.contains_key(id) {
        assert forall|i: int| 0 <= i < tree[id].children@.len() implies descends_finitely(
            tree,
            #[trigger] tree[id].children@[i],
        ) by {
            lemma_child_height(tree, id, i);
        }
    }
    if !tree.contains_key(id) {
        assert(height_at_most(tree, id, 1));
    } else if forall|i: int|
        0 <= i < tree[id].children@.len() ==> descends_finitely(
            tree,
            #[trigger] tree[id].children@[i],
        ) {
        let levels = lemma_common_height(tree, tree[id].children@);
        assert(height_at_most(tree, id, levels + 1));
    }
}

} // verus!
