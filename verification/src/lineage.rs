//! Parents and children: what holds of a tree whose two directions agree.
use vstd::prelude::*;

#[allow(unused_imports)]
use crate::seqs::lemma_join_distinct;
#[allow(unused_imports)]
use crate::text::lex_lt;
use crate::tree::CollectionNode;
#[allow(unused_imports)]
use crate::tree::{
    all_ids_within, branch_ids, descends_finitely, height, height_at_most, ids_within,
    lemma_branch_ids, lemma_child_height, lemma_height, lemma_height_at_most_monotone,
};

verus! {

/// Whether the nodes of a tree fit together: each stands under its own identifier, and the
/// children of a node are the collections that name it as their parent, each once and sorted
/// by name.
pub open spec fn tree_wf(tree: Map<i64, CollectionNode>) -> bool {
    &&& tree.dom().finite()
    &&& forall|id: i64| #[trigger] tree.contains_key(id) ==> tree[id].id == id
    &&& forall|id: i64|
        #[trigger] tree.contains_key(id) ==> tree[id].children@.no_duplicates()
    &&& forall|id: i64, child: i64|
        tree.contains_key(id) ==> (#[trigger] tree[id].children@.contains(child)
            <==> is_child(tree, child, id))
    &&& forall|id: i64, i: int, j: int|
        tree.contains_key(id) && 0 <= i < j < tree[id].children@.len() ==> !lex_lt(
            tree[#[trigger] tree[id].children@[j]].name@,
            tree[#[trigger] tree[id].children@[i]].name@,
        )
}

/// Whether `child` is a collection of the tree that names `id` as its parent.
pub open spec fn is_child(tree: Map<i64, CollectionNode>, child: i64, id: i64) -> bool {
    tree.contains_key(child) && tree[child].parent == Some(id)
}

/// The collection `steps` levels above `id`, where there is one.
pub open spec fn ancestor(tree: Map<i64, CollectionNode>, id: i64, steps: nat) -> Option<i64>
    decreases steps,
{
    if steps == 0 {
        Some(id)
    } else if tree.contains_key(id) {
        match tree[id].parent {
            Some(parent) => ancestor(tree, parent, (steps - 1) as nat),
            None => None,
        }
    } else {
        None
    }
}

/// Whether `id` is `top` or lies somewhere below it.
pub open spec fn is_within(tree: Map<i64, CollectionNode>, id: i64, top: i64) -> bool {
    exists|steps: nat| #[trigger] ancestor(tree, id, steps) == Some(top)
}

/// Whether the walk from `id` up through the parents comes to an end.
pub open spec fn climbs_finitely(tree: Map<i64, CollectionNode>, id: i64) -> bool {
    exists|steps: nat| #[trigger] ancestor(tree, id, steps) is None
}

/// Whether `id` is a collection of the tree without a parent.
pub open spec fn is_root(tree: Map<i64, CollectionNode>, id: i64) -> bool {
    tree.contains_key(id) && tree[id].parent is None
}

/// Climbing some steps and then some more.
pub proof fn lemma_ancestor_steps(
    tree: Map<i64, CollectionNode>,
    id: i64,
    first: nat,
    second: nat,
)
    ensures
        ancestor(tree, id, first + second) == match ancestor(tree, id, first) {
            Some(middle) => ancestor(tree, middle, second),
            None => None,
        },
    decreases first,
{
    if first > 0 && tree.contains_key(id) {
        if let Some(parent) = tree[id].parent {
            lemma_ancestor_steps(tree, parent, (first - 1) as nat, second);
        }
    }
}

/// What lies some steps below a collection has that many levels fewer.
pub proof fn lemma_ancestor_height(
    tree: Map<i64, CollectionNode>,
    id: i64,
    top: i64,
    steps: nat,
)
    requires
        tree_wf(tree),
        tree.contains_key(top),
        descends_finitely(tree, top),
        ancestor(tree, id, steps) == Some(top),
    ensures
        tree.contains_key(id),
        descends_finitely(tree, id),
        height(tree, id) + steps <= height(tree, top),
    decreases steps,
{
    if steps > 0 {
        let parent = tree[id].parent->0;
        lemma_ancestor_height(tree, parent, top, (steps - 1) as nat);
        assert(is_child(tree, id, parent));
        assert(tree[parent].children@.contains(id));
        let i = choose|i: int|
            0 <= i < tree[parent].children@.len() && tree[parent].children@[i] == id;
        lemma_child_height(tree, parent, i);
    }
}

/// The branch of a collection holds the collection itself and exactly what lies below it,
/// each once.
pub proof fn law_branch_is_everything_within(tree: Map<i64, CollectionNode>, top: i64)
    requires
        tree_wf(tree),
        tree.contains_key(top),
        descends_finitely(tree, top),
    ensures
        branch_ids(tree, top).no_duplicates(),
        forall|id: i64| #[trigger]
            branch_ids(tree, top).contains(id) <==> is_within(tree, id, top),
    decreases height(tree, top),
{
    lemma_height(tree, top);
    let levels = (height(tree, top) - 1) as nat;
    let children = tree[top].children@;
    assert forall|i: int| 0 <= i < children.len() implies {
        &&& is_child(tree, #[trigger] children[i], top)
        &&& ids_within(tree, children[i], levels).no_duplicates()
        &&& forall|id: i64| #[trigger]
            ids_within(tree, children[i], levels).contains(id) <==> is_within(
                tree,
                id,
                children[i],
            )
    } by {
        assert(children.contains(children[i]));
        lemma_child_height(tree, top, i);
        law_branch_is_everything_within(tree, children[i]);
        lemma_branch_ids(tree, children[i], levels);
    }
    lemma_sibling_branches(tree, top, children.len() as int);
    assert(children.take(children.len() as int) =~= children);
    let below = all_ids_within(tree, children, levels);
    assert(branch_ids(tree, top) == seq![top] + below);
    assert forall|id: i64| #[trigger] branch_ids(tree, top).contains(id) <==> is_within(
        tree,
        id,
        top,
    ) by {
        lemma_within_step(tree, id, top);
        if id == top {
            assert(branch_ids(tree, top)[0] == id);
        } else if below.contains(id) {
            let k = choose|k: int| 0 <= k < below.len() && below[k] == id;
            assert(branch_ids(tree, top)[k + 1] == id);
        } else if branch_ids(tree, top).contains(id) {
            let k = choose|k: int| 0 <= k < branch_ids(tree, top).len() && branch_ids(tree, top)[k] == id;
            assert(below[k - 1] == id);
        }
        if is_within(tree, id, top) && id != top {
            let child = choose|child: i64|
                #![trigger is_child(tree, child, top)]
                is_child(tree, child, top) && is_within(tree, id, child);
            assert(children.contains(child));
        }
        if below.contains(id) {
            let i = choose|i: int|
                0 <= i < children.len() && is_within(tree, id, #[trigger] children[i]);
            assert(is_child(tree, children[i], top));
        }
    }
    if below.contains(top) {
        let i = choose|i: int|
            0 <= i < children.len() && is_within(tree, top, #[trigger] children[i]);
        let steps = choose|steps: nat| #[trigger]
            ancestor(tree, top, steps) == Some(children[i]);
        lemma_child_height(tree, top, i);
        lemma_ancestor_height(tree, top, children[i], steps);
    }
    assert forall|i: int, j: int|
        0 <= i < j < branch_ids(tree, top).len() implies branch_ids(tree, top)[i] != branch_ids(
        tree,
        top,
    )[j] by {
        assert(branch_ids(tree, top)[j] == below[j - 1]);
        assert(below.contains(below[j - 1]));
    }
}

/// Being within a collection is being it or being within one of its children.
pub proof fn lemma_within_step(tree: Map<i64, CollectionNode>, id: i64, top: i64)
    ensures
        is_within(tree, id, top) <==> id == top || exists|child: i64|
            #![trigger is_child(tree, child, top)]
            is_child(tree, child, top) && is_within(tree, id, child),
{
    if id == top {
        assert(ancestor(tree, id, 0) == Some(top));
    }
    if is_within(tree, id, top) && id != top {
        let steps = choose|steps: nat| #[trigger] ancestor(tree, id, steps) == Some(top);
        lemma_ancestor_steps(tree, id, (steps - 1) as nat, 1);
        let child = ancestor(tree, id, (steps - 1) as nat)->0;
        reveal_with_fuel(ancestor, 2);
        assert(is_child(tree, child, top));
        assert(is_within(tree, id, child));
    }
    if exists|child: i64|
        #![trigger is_child(tree, child, top)]
        is_child(tree, child, top) && is_within(tree, id, child) {
        let child = choose|child: i64|
            #![trigger is_child(tree, child, top)]
            is_child(tree, child, top) && is_within(tree, id, child);
        let steps = choose|steps: nat| #[trigger] ancestor(tree, id, steps) == Some(child);
        lemma_ancestor_steps(tree, id, steps, 1);
        reveal_with_fuel(ancestor, 2);
        assert(ancestor(tree, id, steps + 1) == Some(top));
    }
}

/// The branches of the first `n` children of a collection have nothing in common.
proof fn lemma_sibling_branches(tree: Map<i64, CollectionNode>, top: i64, n: int)
    requires
        tree_wf(tree),
        tree.contains_key(top),
        descends_finitely(tree, top),
        0 <= n <= tree[top].children@.len(),
        forall|i: int|
            0 <= i < tree[top].children@.len() ==> {
                let levels = (height(tree, top) - 1) as nat;
                &&& is_child(tree, #[trigger] tree[top].children@[i], top)
                &&& ids_within(tree, tree[top].children@[i], levels).no_duplicates()
                &&& forall|id: i64| #[trigger]
                    ids_within(tree, tree[top].children@[i], levels).contains(id) <==> is_within(
                        tree,
                        id,
                        tree[top].children@[i],
                    )
            },
    ensures
        all_ids_within(
            tree,
            tree[top].children@.take(n),
            (height(tree, top) - 1) as nat,
        ).no_duplicates(),
        forall|id: i64| #[trigger]
            all_ids_within(
                tree,
                tree[top].children@.take(n),
                (height(tree, top) - 1) as nat,
            ).contains(id) <==> exists|i: int|
                0 <= i < n && is_within(tree, id, #[trigger] tree[top].children@[i]),
    decreases n,
{
    let children = tree[top].children@;
    let levels = (height(tree, top) - 1) as nat;
    if n > 0 {
        lemma_sibling_branches(tree, top, n - 1);
        assert(children.take(n).drop_last() =~= children.take(n - 1));
        let first = all_ids_within(tree, children.take(n - 1), levels);
        let second = ids_within(tree, children[n - 1], levels);
        assert(all_ids_within(tree, children.take(n), levels) == first + second);
        assert forall|id: i64| !(#[trigger] first.contains(id) && second.contains(id)) by {
            if first.contains(id) && second.contains(id) {
                let i = choose|i: int|
                    0 <= i < n - 1 && is_within(tree, id, #[trigger] children[i]);
                lemma_siblings_apart(tree, top, i, n - 1, id);
            }
        }
        lemma_join_distinct(first, second);
    }
}

/// Nothing lies within two children of the same collection.
proof fn lemma_siblings_apart(
    tree: Map<i64, CollectionNode>,
    top: i64,
    i: int,
    j: int,
    id: i64,
)
    requires
        tree_wf(tree),
        tree.contains_key(top),
        descends_finitely(tree, top),
        0 <= i < tree[top].children@.len(),
        0 <= j < tree[top].children@.len(),
        i != j,
    ensures
        !(is_within(tree, id, tree[top].children@[i]) && is_within(
            tree,
            id,
            tree[top].children@[j],
        )),
{
    let a = tree[top].children@[i];
    let b = tree[top].children@[j];
    if is_within(tree, id, a) && is_within(tree, id, b) {
        let m = choose|steps: nat| #[trigger] ancestor(tree, id, steps) == Some(a);
        let n = choose|steps: nat| #[trigger] ancestor(tree, id, steps) == Some(b);
        if m <= n {
            lemma_ordered_siblings_apart(tree, top, i, j, id, m, n);
        } else {
            lemma_ordered_siblings_apart(tree, top, j, i, id, n, m);
        }
    }
}

proof fn lemma_ordered_siblings_apart(
    tree: Map<i64, CollectionNode>,
    top: i64,
    i: int,
    j: int,
    id: i64,
    m: nat,
    n: nat,
)
    requires
        tree_wf(tree),
        tree.contains_key(top),
        descends_finitely(tree, top),
        0 <= i < tree[top].children@.len(),
        0 <= j < tree[top].children@.len(),
        i != j,
        ancestor(tree, id, m) == Some(tree[top].children@[i]),
        m <= n,
    ensures
        ancestor(tree, id, n) != Some(tree[top].children@[j]),
{
    let a = tree[top].children@[i];
    let b = tree[top].children@[j];
    lemma_ancestor_steps(tree, id, m, (n - m) as nat);
    assert(tree[top].children@.contains(a));
    assert(is_child(tree, a, top));
    if m < n && ancestor(tree, id, n) == Some(b) {
        // One step above `a` is `top`, so `top` would lie within its own child `b`.
        assert(ancestor(tree, top, (n - m - 1) as nat) == Some(b));
        assert(tree[top].children@.contains(b));
        lemma_child_height(tree, top, j);
        lemma_ancestor_height(tree, top, b, (n - m - 1) as nat);
    }
}

/// A collection that lies above itself has no end of parents.
proof fn lemma_cycle_never_ends(tree: Map<i64, CollectionNode>, id: i64, round: nat, steps: nat)
    requires
        round > 0,
        ancestor(tree, id, round) == Some(id),
    ensures
        ancestor(tree, id, steps) is Some,
    decreases steps,
{
    if steps < round {
        lemma_ancestor_steps(tree, id, steps, (round - steps) as nat);
    } else {
        lemma_cycle_never_ends(tree, id, round, (steps - round) as nat);
        lemma_ancestor_steps(tree, id, round, (steps - round) as nat);
    }
}

proof fn lemma_descends(tree: Map<i64, CollectionNode>, id: i64, above: Set<i64>)
    requires
        tree_wf(tree),
        tree.contains_key(id),
        climbs_finitely(tree, id),
        above.subset_of(tree.dom()),
        forall|x: i64| #[trigger]
            above.contains(x) ==> exists|steps: nat|
                steps > 0 && #[trigger] ancestor(tree, id, steps) == Some(x),
    ensures
        above.len() <= tree.dom().len(),
        height_at_most(tree, id, (tree.dom().len() - above.len()) as nat),
    decreases tree.dom().len() - above.len(),
{
    vstd::set_lib::lemma_len_subset(above, tree.dom());
    if above.contains(id) {
        let round = choose|steps: nat|
            steps > 0 && #[trigger] ancestor(tree, id, steps) == Some(id);
        let end = choose|steps: nat| #[trigger] ancestor(tree, id, steps) is None;
        lemma_cycle_never_ends(tree, id, round, end);
    }
    let further = above.insert(id);
    vstd::set_lib::lemma_len_subset(further, tree.dom());
    let levels = (tree.dom().len() - above.len()) as nat;
    assert forall|i: int| 0 <= i < tree[id].children@.len() implies height_at_most(
        tree,
        #[trigger] tree[id].children@[i],
        (levels - 1) as nat,
    ) by {
        let child = tree[id].children@[i];
        assert(tree[id].children@.contains(child));
        assert(is_child(tree, child, id));
        let end = choose|steps: nat| #[trigger] ancestor(tree, id, steps) is None;
        assert(ancestor(tree, child, end + 1) is None);
        assert forall|x: i64| #[trigger] further.contains(x) implies exists|steps: nat|
            steps > 0 && #[trigger] ancestor(tree, child, steps) == Some(x) by {
            if x == id {
                reveal_with_fuel(ancestor, 2);
                assert(ancestor(tree, child, 1) == Some(x));
            } else {
                let steps = choose|steps: nat|
                    steps > 0 && #[trigger] ancestor(tree, id, steps) == Some(x);
                assert(ancestor(tree, child, steps + 1) == Some(x));
            }
        }
        lemma_descends(tree, child, further);
    }
}

/// A collection whose parents come to an end has no endless walk down either: everything below
/// it can be gathered.
pub proof fn law_climbing_ends_then_descending_ends(tree: Map<i64, CollectionNode>, id: i64)
    requires
        tree_wf(tree),
        tree.contains_key(id),
        climbs_finitely(tree, id),
    ensures
        descends_finitely(tree, id),
{
    lemma_descends(tree, id, Set::empty());
}

/// Everything within a root climbs to an end and descends to an end.
pub proof fn law_within_root_ends(tree: Map<i64, CollectionNode>, id: i64, root: i64)
    requires
        tree_wf(tree),
        is_root(tree, root),
        is_within(tree, id, root),
    ensures
        tree.contains_key(id),
        climbs_finitely(tree, id),
        descends_finitely(tree, id),
{
    let steps = choose|steps: nat| #[trigger] ancestor(tree, id, steps) == Some(root);
    lemma_ancestor_steps(tree, id, steps, 1);
    assert(ancestor(tree, id, steps + 1) is None);
    assert(tree.contains_key(id));
    law_climbing_ends_then_descending_ends(tree, id);
}

proof fn lemma_longest_walk(tree: Map<i64, CollectionNode>, id: i64) -> (walk: Set<i64>)
    requires
        descends_finitely(tree, id),
    ensures
        walk.finite(),
        walk.subset_of(tree.dom()),
        height(tree, id) <= walk.len() + 1,
        forall|x: i64| #[trigger]
            walk.contains(x) ==> descends_finitely(tree, x) && height(tree, x) <= height(tree, id),
    decreases height(tree, id),
{
    lemma_height(tree, id);
    let levels = height(tree, id);
    if levels == 1 {
        Set::empty()
    } else {
        let shorter = (levels - 1) as nat;
        assert(!height_at_most(tree, id, shorter));
        let i = choose|i: int|
            0 <= i < tree[id].children@.len() && !height_at_most(
                tree,
                #[trigger] tree[id].children@[i],
                (shorter - 1) as nat,
            );
        let child = tree[id].children@[i];
        lemma_child_height(tree, id, i);
        lemma_height(tree, child);
        if height(tree, child) <= shorter - 1 {
            lemma_height_at_most_monotone(tree, child, height(tree, child), (shorter - 1) as nat);
        }
        let below = lemma_longest_walk(tree, child);
        below.insert(id)
    }
}

/// No walk down takes more steps than there are collections.
pub proof fn lemma_height_bound(tree: Map<i64, CollectionNode>, id: i64)
    requires
        tree.dom().finite(),
        descends_finitely(tree, id),
    ensures
        height(tree, id) <= tree.dom().len() + 1,
{
    let walk = lemma_longest_walk(tree, id);
    vstd::set_lib::lemma_len_subset(walk, tree.dom());
}

/// What lies within a collection is the collection itself, or has a parent that lies within it.
pub proof fn law_within_by_parents(tree: Map<i64, CollectionNode>, id: i64, top: i64)
    ensures
        is_within(tree, id, top) <==> id == top || (tree.contains_key(id) && (
        tree[id].parent matches Some(parent) && is_within(tree, parent, top))),
{
    if is_within(tree, id, top) && id != top {
        let steps = choose|steps: nat| #[trigger] ancestor(tree, id, steps) == Some(top);
        assert(ancestor(tree, tree[id].parent->0, (steps - 1) as nat) == Some(top));
    }
    if id == top {
        assert(ancestor(tree, id, 0) == Some(top));
    }
    if tree.contains_key(id) {
        if let Some(parent) = tree[id].parent {
            if is_within(tree, parent, top) {
                let steps = choose|steps: nat| #[trigger]
                    ancestor(tree, parent, steps) == Some(top);
                assert(ancestor(tree, id, steps + 1) == Some(top));
            }
        }
    }
}

/// The walk up from a collection ends exactly where it has no parent or the walk up from the
/// parent ends.
pub proof fn law_climbing_ends_where_it_does_for_the_parent(
    tree: Map<i64, CollectionNode>,
    id: i64,
)
    ensures
        climbs_finitely(tree, id) <==> (tree.contains_key(id) ==> (
        tree[id].parent matches Some(parent) ==> climbs_finitely(tree, parent))),
{
    if climbs_finitely(tree, id) && tree.contains_key(id) {
        if let Some(parent) = tree[id].parent {
            let steps = choose|steps: nat| #[trigger] ancestor(tree, id, steps) is None;
            assert(ancestor(tree, parent, (steps - 1) as nat) is None);
        }
    }
    if !tree.contains_key(id) || tree[id].parent is None {
        assert(ancestor(tree, id, 1) is None);
    } else {
        let parent = tree[id].parent->0;
        if climbs_finitely(tree, parent) {
            let steps = choose|steps: nat| #[trigger] ancestor(tree, parent, steps) is None;
            assert(ancestor(tree, id, steps + 1) is None);
        }
    }
}

} // verus!
