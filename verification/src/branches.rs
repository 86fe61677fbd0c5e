//! How the rows of the list, the branches of the tree and the export directories fit together.
use vstd::prelude::*;

#[allow(unused_imports)]
use crate::display::{
    all_rows_within, branch_rows, forest_rows, root_ids, root_order, rows_within, Row,
};
#[allow(unused_imports)]
use crate::library::name_keys;
#[allow(unused_imports)]
use crate::lineage::{
    ancestor, climbs_finitely, is_child, is_root, is_within, law_branch_is_everything_within,
    law_within_by_parents, law_within_root_ends, lemma_ancestor_height, lemma_ancestor_steps,
    tree_wf,
};
#[allow(unused_imports)]
use crate::nesting::{
    follows_parent, is_parent_row, law_rows_are_as_deep_as_their_paths,
    law_rows_follow_their_parents, lemma_parent_row_joined, stands_under,
};
#[allow(unused_imports)]
use crate::order::{
    arranged, is_stable_order, item_before, law_sorting_keeps_items, stably_sorted,
};
#[allow(unused_imports)]
use crate::paths::{
    climb_length, components, full_names, full_path, has_full_path, lemma_climb_length, names_up,
    relative_path, sanitized,
};
#[allow(unused_imports)]
use crate::seqs::{lemma_filter, lemma_join_distinct};
#[allow(unused_imports)]
use crate::text::{lemma_lex_lt_asymmetric, lex_lt};
use crate::tree::CollectionNode;
#[allow(unused_imports)]
use crate::tree::{
    all_ids_within, branch_ids, descends_finitely, height, ids_within, lists_all,
};

verus! {

/// The collections that rows show.
pub open spec fn ids_of_rows(rows: Seq<Row>) -> Seq<i64> {
    rows.map_values(|row: Row| row.id)
}

/// Whether the tree holds everything that a list of collections names.
pub open spec fn all_in_tree(tree: Map<i64, CollectionNode>, ids: Seq<i64>) -> bool {
    forall|id: i64| #[trigger] ids.contains(id) ==> tree.contains_key(id)
}

proof fn lemma_parts_in_tree(tree: Map<i64, CollectionNode>, first: Seq<i64>, second: Seq<i64>)
    requires
        all_in_tree(tree, first + second),
    ensures
        all_in_tree(tree, first),
        all_in_tree(tree, second),
{
    let whole = first + second;
    assert forall|id: i64| #[trigger] first.contains(id) implies tree.contains_key(id) by {
        let i = choose|i: int| 0 <= i < first.len() && first[i] == id;
        assert(whole[i] == id);
        assert(whole.contains(id));
    }
    assert forall|id: i64| #[trigger] second.contains(id) implies tree.contains_key(id) by {
        let i = choose|i: int| 0 <= i < second.len() && second[i] == id;
        assert(whole[first.len() + i] == id);
        assert(whole.contains(id));
    }
}

proof fn lemma_ids_of_rows_within(
    tree: Map<i64, CollectionNode>,
    id: i64,
    depth: int,
    prefix: Seq<Seq<char>>,
    levels: nat,
)
    requires
        all_in_tree(tree, ids_within(tree, id, levels)),
    ensures
        ids_of_rows(rows_within(tree, id, depth, prefix, levels)) == ids_within(tree, id, levels),
    decreases levels, 0nat,
{
    if levels > 0 {
        assert(ids_within(tree, id, levels)[0] == id);
        assert(ids_within(tree, id, levels).contains(id));
        let children = tree[id].children@;
        let path_parts = prefix.push(tree[id].name@);
        lemma_parts_in_tree(
            tree,
            seq![id],
            all_ids_within(tree, children, (levels - 1) as nat),
        );
        lemma_ids_of_all_rows_within(tree, children, depth + 1, path_parts, (levels - 1) as nat);
    }
    assert(ids_of_rows(rows_within(tree, id, depth, prefix, levels)) =~= ids_within(
        tree,
        id,
        levels,
    ));
}

proof fn lemma_ids_of_all_rows_within(
    tree: Map<i64, CollectionNode>,
    ids: Seq<i64>,
    depth: int,
    prefix: Seq<Seq<char>>,
    levels: nat,
)
    requires
        all_in_tree(tree, all_ids_within(tree, ids, levels)),
    ensures
        ids_of_rows(all_rows_within(tree, ids, depth, prefix, levels)) == all_ids_within(
            tree,
            ids,
            levels,
        ),
    decreases levels, ids.len(),
{
    if ids.len() > 0 {
        lemma_parts_in_tree(
            tree,
            all_ids_within(tree, ids.drop_last(), levels),
            ids_within(tree, ids.last(), levels),
        );
        lemma_ids_of_rows_within(tree, ids.last(), depth, prefix, levels);
        lemma_ids_of_all_rows_within(tree, ids.drop_last(), depth, prefix, levels);
    }
    assert(ids_of_rows(all_rows_within(tree, ids, depth, prefix, levels)) =~= all_ids_within(
        tree,
        ids,
        levels,
    ));
}

/// Where the tree holds all of a branch, its rows show the collections that an export of it
/// takes, in the same order, each under the names of the top and as deep as its path is long.
pub proof fn law_rows_are_the_branch(
    tree: Map<i64, CollectionNode>,
    id: i64,
    depth: int,
    prefix: Seq<Seq<char>>,
)
    requires
        descends_finitely(tree, id),
        all_in_tree(tree, branch_ids(tree, id)),
    ensures
        ids_of_rows(branch_rows(tree, id, depth, prefix)) == branch_ids(tree, id),
        forall|k: int|
            0 <= k < branch_rows(tree, id, depth, prefix).len() ==> stands_under(
                #[trigger] branch_rows(tree, id, depth, prefix)[k],
                depth,
                prefix.push(tree[id].name@),
            ),
{
    lemma_ids_of_rows_within(tree, id, depth, prefix, height(tree, id));
    law_rows_are_as_deep_as_their_paths(tree, id, depth, prefix);
}

/// A tree whose nodes fit together holds all of a branch.
pub proof fn lemma_branch_in_tree(tree: Map<i64, CollectionNode>, id: i64)
    requires
        tree_wf(tree),
        tree.contains_key(id),
        descends_finitely(tree, id),
    ensures
        all_in_tree(tree, branch_ids(tree, id)),
{
    law_branch_is_everything_within(tree, id);
    assert forall|below: i64| #[trigger] branch_ids(tree, id).contains(
        below,
    ) implies tree.contains_key(below) by {
        let steps = choose|steps: nat| #[trigger] ancestor(tree, below, steps) == Some(id);
        lemma_ancestor_height(tree, below, id, steps);
    }
}

/// Whether a row shows a collection `steps` levels below `top`, whose own row stands at `depth`
/// under the names `prefix`.
pub open spec fn row_below(
    tree: Map<i64, CollectionNode>,
    row: Row,
    top: i64,
    depth: int,
    prefix: Seq<Seq<char>>,
    steps: nat,
) -> bool {
    &&& ancestor(tree, row.id, steps) == Some(top)
    &&& row.depth == depth + steps
    &&& row.path_parts == prefix + names_up(tree, row.id, steps + 1)
}

/// Whether a row shows a collection that is `top` or lies somewhere below it.
pub open spec fn is_row_below(
    tree: Map<i64, CollectionNode>,
    row: Row,
    top: i64,
    depth: int,
    prefix: Seq<Seq<char>>,
) -> bool {
    exists|steps: nat| #[trigger] row_below(tree, row, top, depth, prefix, steps)
}

/// Every row of a branch lies as deep as its collection lies below the top of the branch, and
/// its path names the collections on the way.
pub proof fn law_rows_name_their_lineage(
    tree: Map<i64, CollectionNode>,
    top: i64,
    depth: int,
    prefix: Seq<Seq<char>>,
)
    requires
        tree_wf(tree),
        tree.contains_key(top),
    ensures
        forall|i: int|
            0 <= i < branch_rows(tree, top, depth, prefix).len() ==> is_row_below(
                tree,
                #[trigger] branch_rows(tree, top, depth, prefix)[i],
                top,
                depth,
                prefix,
            ),
{
    lemma_rows_below(tree, top, depth, prefix, height(tree, top));
}

proof fn lemma_rows_below(
    tree: Map<i64, CollectionNode>,
    top: i64,
    depth: int,
    prefix: Seq<Seq<char>>,
    levels: nat,
)
    requires
        tree_wf(tree),
        tree.contains_key(top),
    ensures
        forall|i: int|
            0 <= i < rows_within(tree, top, depth, prefix, levels).len() ==> is_row_below(
                tree,
                #[trigger] rows_within(tree, top, depth, prefix, levels)[i],
                top,
                depth,
                prefix,
            ),
    decreases levels, 0nat,
{
    let rows = rows_within(tree, top, depth, prefix, levels);
    if levels > 0 {
        let children = tree[top].children@;
        let path_parts = prefix.push(tree[top].name@);
        let below = all_rows_within(tree, children, depth + 1, path_parts, (levels - 1) as nat);
        assert forall|i: int| 0 <= i < children.len() implies is_child(
            tree,
            #[trigger] children[i],
            top,
        ) by {
            assert(children.contains(children[i]));
        }
        lemma_all_rows_below(tree, top, children, depth, prefix, (levels - 1) as nat);
        assert forall|i: int| 0 <= i < rows.len() implies is_row_below(
            tree,
            #[trigger] rows[i],
            top,
            depth,
            prefix,
        ) by {
            if i == 0 {
                reveal_with_fuel(names_up, 2);
                assert(rows[0].path_parts =~= prefix + names_up(tree, top, 1)) by {
                    assert(names_up(tree, top, 1) =~= seq![tree[top].name@]);
                }
                assert(row_below(tree, rows[0], top, depth, prefix, 0));
            } else {
                assert(rows[i] == below[i - 1]);
            }
        }
    }
}

proof fn lemma_all_rows_below(
    tree: Map<i64, CollectionNode>,
    top: i64,
    ids: Seq<i64>,
    depth: int,
    prefix: Seq<Seq<char>>,
    levels: nat,
)
    requires
        tree_wf(tree),
        tree.contains_key(top),
        forall|i: int| 0 <= i < ids.len() ==> is_child(tree, #[trigger] ids[i], top),
    ensures
        ({
            let rows = all_rows_within(
                tree,
                ids,
                depth + 1,
                prefix.push(tree[top].name@),
                levels,
            );
            forall|i: int|
                0 <= i < rows.len() ==> is_row_below(
                    tree,
                    #[trigger] rows[i],
                    top,
                    depth,
                    prefix,
                )
        }),
    decreases levels, ids.len(),
{
    let path_parts = prefix.push(tree[top].name@);
    let rows = all_rows_within(tree, ids, depth + 1, path_parts, levels);
    if ids.len() > 0 {
        let child = ids.last();
        let first = all_rows_within(tree, ids.drop_last(), depth + 1, path_parts, levels);
        let second = rows_within(tree, child, depth + 1, path_parts, levels);
        lemma_all_rows_below(tree, top, ids.drop_last(), depth, prefix, levels);
        lemma_rows_below(tree, child, depth + 1, path_parts, levels);
        assert(is_child(tree, child, top));
        assert forall|i: int| 0 <= i < rows.len() implies is_row_below(
            tree,
            #[trigger] rows[i],
            top,
            depth,
            prefix,
        ) by {
            if i < first.len() {
                assert(rows[i] == first[i]);
            } else {
                let row = second[i - first.len()];
                assert(is_row_below(tree, row, child, depth + 1, path_parts));
                let steps = choose|steps: nat| #[trigger]
                    row_below(tree, row, child, depth + 1, path_parts, steps);
                lemma_ancestor_steps(tree, row.id, steps, 1);
                reveal_with_fuel(ancestor, 2);
                assert(ancestor(tree, row.id, steps + 1) == Some(top));
                lemma_names_up_split(tree, row.id, steps + 1, 1);
                reveal_with_fuel(names_up, 2);
                assert(names_up(tree, top, 1) =~= seq![tree[top].name@]);
                assert(row.path_parts =~= prefix + names_up(tree, row.id, steps + 2));
                assert(row_below(tree, row, top, depth, prefix, steps + 1));
                assert(rows[i] == row);
            }
        }
    }
}

/// The names on the way up, split at the collection `steps` levels above.
pub proof fn lemma_names_up_split(
    tree: Map<i64, CollectionNode>,
    id: i64,
    steps: nat,
    more: nat,
)
    requires
        ancestor(tree, id, steps) is Some,
    ensures
        names_up(tree, id, steps + more) == names_up(tree, ancestor(tree, id, steps)->0, more)
            + names_up(tree, id, steps),
    decreases steps,
{
    if steps == 0 {
        assert(names_up(tree, id, 0) =~= seq![]);
        assert(names_up(tree, id, more) =~= names_up(tree, id, more) + names_up(tree, id, 0));
    } else {
        let parent = tree[id].parent->0;
        let top = ancestor(tree, id, steps)->0;
        lemma_names_up_split(tree, parent, (steps - 1) as nat, more);
        assert(names_up(tree, id, steps + more) =~= names_up(tree, top, more) + names_up(
            tree,
            id,
            steps,
        ));
    }
}

/// The full names of a collection are those of any collection above it and the names between.
pub proof fn lemma_full_names_split(
    tree: Map<i64, CollectionNode>,
    id: i64,
    top: i64,
    steps: nat,
)
    requires
        climbs_finitely(tree, top),
        ancestor(tree, id, steps) == Some(top),
    ensures
        climbs_finitely(tree, id),
        full_names(tree, id) == full_names(tree, top) + names_up(tree, id, steps),
{
    lemma_climb_length(tree, top);
    let length = climb_length(tree, top);
    lemma_ancestor_steps(tree, id, steps, length);
    assert(ancestor(tree, top, length) is None);
    assert(ancestor(tree, id, steps + length) is None);
    lemma_climb_length(tree, id);
    lemma_ancestor_steps(tree, id, steps, (length - 1) as nat);
    assert(ancestor(tree, top, (length - 1) as nat) is Some);
    assert(ancestor(tree, id, (steps + length - 1) as nat) is Some);
    assert(climb_length(tree, id) == steps + length);
    lemma_names_up_split(tree, id, steps, length);
}

/// Joining further parts to a path keeps its components.
pub proof fn lemma_components_prefix(parts: Seq<Seq<char>>, further: Seq<Seq<char>>)
    ensures
        components(parts).is_prefix_of(components(parts + further)),
    decreases further.len(),
{
    let joined = parts + further;
    if further.len() == 0 {
        assert(joined =~= parts);
    } else {
        lemma_components_prefix(parts, further.drop_last());
        assert(joined.drop_last() =~= parts + further.drop_last());
        let shorter = components(joined.drop_last());
        let longer = components(joined);
        assert(components(parts) =~= shorter.subrange(0, components(parts).len() as int));
        assert(components(parts) =~= longer.subrange(0, components(parts).len() as int));
    }
}

/// Whether each of the parts is a path component of its own: not empty and not `.`.
pub open spec fn all_proper(parts: Seq<Seq<char>>) -> bool {
    forall|i: int|
        0 <= i < parts.len() ==> (#[trigger] parts[i]).len() > 0 && parts[i] != seq!['.']
}

/// Proper parts are the components of the path that joins them.
pub proof fn lemma_components_of_proper(parts: Seq<Seq<char>>)
    requires
        all_proper(parts),
    ensures
        components(parts) == parts,
    decreases parts.len(),
{
    if parts.len() > 0 {
        lemma_components_of_proper(parts.drop_last());
        assert(parts =~= parts.drop_last().push(parts.last()));
    } else {
        assert(parts =~= seq![]);
    }
}

/// The directories of an export hang under the selected collection: the path of anything within
/// it starts with the path of the selected collection, and where the names are proper components
/// the export directory is made of the names from the selected collection down.
pub proof fn law_export_directory_starts_at_selection(
    tree: Map<i64, CollectionNode>,
    selected: i64,
    target: i64,
    steps: nat,
)
    requires
        climbs_finitely(tree, selected),
        tree.contains_key(selected),
        ancestor(tree, target, steps) == Some(selected),
    ensures
        full_path(tree, selected).is_prefix_of(full_path(tree, target)),
        all_proper(full_names(tree, target)) ==> relative_path(
            full_path(tree, target),
            full_path(tree, selected),
        ) == names_up(tree, target, steps + 1).map_values(|name: Seq<char>| sanitized(name)),
{
    let clean = |name: Seq<char>| sanitized(name);
    lemma_full_names_split(tree, target, selected, steps);
    let above = full_names(tree, selected).map_values(clean);
    let between = names_up(tree, target, steps).map_values(clean);
    let whole = full_names(tree, target).map_values(clean);
    assert(whole =~= above + between);
    lemma_components_prefix(above, between);
    if all_proper(full_names(tree, target)) {
        assert forall|i: int| 0 <= i < whole.len() implies (#[trigger] whole[i]).len() > 0
            && whole[i] != seq!['.'] by {
            let name = full_names(tree, target)[i];
            assert(name.len() > 0 && name != seq!['.']);
            lemma_sanitized_dot(name);
        }
        assert forall|i: int| 0 <= i < above.len() implies (#[trigger] above[i]).len() > 0
            && above[i] != seq!['.'] by {
            assert(whole[i] == above[i]);
        }
        lemma_components_of_proper(whole);
        lemma_components_of_proper(above);
        lemma_climb_length(tree, selected);
        assert(above.len() > 0);
        lemma_names_up_split(tree, target, steps, 1);
        reveal_with_fuel(names_up, 2);
        assert(names_up(tree, selected, 1) =~= seq![tree[selected].name@]);
        assert(full_names(tree, selected).last() == tree[selected].name@);
        assert(whole.skip(above.len() - 1) =~= names_up(tree, target, steps + 1).map_values(clean));
    }
}

proof fn lemma_sanitized_dot(name: Seq<char>)
    ensures
        sanitized(name) == seq!['.'] ==> name == seq!['.'],
{
    if sanitized(name) == seq!['.'] {
        assert(sanitized(name)[0] == '.');
        assert(name =~= seq!['.']);
    }
}

/// The list begins with the roots of the library: all of them, each once, sorted by name.
pub proof fn law_root_order(tree: Map<i64, CollectionNode>, roots: Seq<i64>)
    requires
        tree_wf(tree),
        root_order(tree, roots),
    ensures
        roots.no_duplicates(),
        forall|id: i64| #[trigger] roots.contains(id) <==> is_root(tree, id),
        forall|i: int, j: int|
            0 <= i < j < roots.len() ==> !lex_lt(
                tree[#[trigger] roots[j]].name@,
                tree[#[trigger] roots[i]].name@,
            ),
{
    let walk = choose|walk: Seq<i64>| #[trigger]
        lists_all(walk, tree) && stably_sorted(
            root_ids(tree, walk),
            name_keys(tree, root_ids(tree, walk)),
            roots,
        );
    let parentless = |key: i64| tree[key].parent is None;
    let input = root_ids(tree, walk);
    lemma_filter(walk, parentless);
    assert(input =~= walk.filter(parentless)) by {
        assert forall|i: int| 0 <= i < input.len() implies input[i] == walk.filter(
            parentless,
        )[i] by {
            assert(walk.filter(parentless).contains(walk.filter(parentless)[i]));
        }
    }
    let keys = name_keys(tree, input);
    law_sorting_keeps_items(input, keys, roots);
    assert forall|id: i64| #[trigger] roots.contains(id) <==> is_root(tree, id) by {
        assert(roots.contains(id) <==> input.contains(id));
        assert(input.contains(id) <==> walk.contains(id) && parentless(id));
    }
    let order = choose|order: Seq<int>| #[trigger]
        is_stable_order(order, keys) && roots == arranged(input, order);
    assert forall|i: int, j: int| 0 <= i < j < roots.len() implies !lex_lt(
        tree[#[trigger] roots[j]].name@,
        tree[#[trigger] roots[i]].name@,
    ) by {
        assert(roots.contains(roots[i]) && roots.contains(roots[j]));
        assert(item_before(keys, order[i], order[j]));
        lemma_lex_lt_asymmetric(tree[roots[i]].name@, tree[roots[j]].name@);
    }
}

/// Whether a row shows a collection with its full names and the depth that goes with them.
pub open spec fn is_full_row(tree: Map<i64, CollectionNode>, row: Row) -> bool {
    &&& row.path_parts == full_names(tree, row.id)
    &&& row.depth + 1 == row.path_parts.len()
}

/// Whether `id` is a root or lies somewhere below one.
pub open spec fn is_rooted(tree: Map<i64, CollectionNode>, id: i64) -> bool {
    exists|root: i64| #[trigger] is_root(tree, root) && is_within(tree, id, root)
}

proof fn lemma_forest_rows(tree: Map<i64, CollectionNode>, roots: Seq<i64>)
    requires
        tree_wf(tree),
        roots.no_duplicates(),
        forall|i: int| 0 <= i < roots.len() ==> is_root(tree, #[trigger] roots[i]),
    ensures
        ids_of_rows(forest_rows(tree, roots)).no_duplicates(),
        forall|id: i64| #[trigger]
            ids_of_rows(forest_rows(tree, roots)).contains(id) <==> exists|i: int|
                0 <= i < roots.len() && is_within(tree, id, #[trigger] roots[i]),
        forall|k: int|
            0 <= k < forest_rows(tree, roots).len() ==> is_full_row(
                tree,
                #[trigger] forest_rows(tree, roots)[k],
            ),
    decreases roots.len(),
{
    if roots.len() > 0 {
        let front = roots.drop_last();
        let root = roots.last();
        lemma_forest_rows(tree, front);
        assert(is_root(tree, root));
        assert(ancestor(tree, root, 0) == Some(root));
        law_within_root_ends(tree, root, root);
        lemma_branch_in_tree(tree, root);
        law_rows_are_the_branch(tree, root, 0, seq![]);
        law_branch_is_everything_within(tree, root);
        let first = ids_of_rows(forest_rows(tree, front));
        let second = ids_of_rows(branch_rows(tree, root, 0, seq![]));
        assert(ids_of_rows(forest_rows(tree, roots)) =~= first + second);
        assert forall|id: i64| !(#[trigger] first.contains(id) && second.contains(id)) by {
            if first.contains(id) && second.contains(id) {
                let i = choose|i: int|
                    0 <= i < front.len() && is_within(tree, id, #[trigger] front[i]);
                assert(roots[i] == front[i]);
                lemma_one_root(tree, id, front[i], root);
            }
        }
        lemma_join_distinct(first, second);
        assert forall|id: i64| #[trigger] ids_of_rows(forest_rows(tree, roots)).contains(id)
            <==> exists|i: int|
            0 <= i < roots.len() && is_within(tree, id, #[trigger] roots[i]) by {
            if first.contains(id) {
                let i = choose|i: int|
                    0 <= i < front.len() && is_within(tree, id, #[trigger] front[i]);
                assert(is_within(tree, id, roots[i]));
            }
            if second.contains(id) {
                assert(is_within(tree, id, roots[roots.len() - 1]));
            }
            if exists|i: int| 0 <= i < roots.len() && is_within(tree, id, #[trigger] roots[i]) {
                let i = choose|i: int|
                    0 <= i < roots.len() && is_within(tree, id, #[trigger] roots[i]);
                if i < front.len() {
                    assert(is_within(tree, id, front[i]));
                }
            }
        }
        law_rows_name_their_lineage(tree, root, 0, seq![]);
        let branch = branch_rows(tree, root, 0, seq![]);
        assert forall|k: int| 0 <= k < forest_rows(tree, roots).len() implies is_full_row(
            tree,
            #[trigger] forest_rows(tree, roots)[k],
        ) by {
            let earlier = forest_rows(tree, front).len();
            if k < earlier {
                assert(forest_rows(tree, roots)[k] == forest_rows(tree, front)[k]);
            } else {
                let row = branch[k - earlier];
                assert(is_row_below(tree, row, root, 0, seq![]));
                let steps = choose|steps: nat| #[trigger]
                    row_below(tree, row, root, 0, seq![], steps);
                lemma_full_row(tree, row, root, steps);
            }
        }
    }
}

proof fn lemma_full_row(tree: Map<i64, CollectionNode>, row: Row, root: i64, steps: nat)
    requires
        is_root(tree, root),
        row_below(tree, row, root, 0, seq![], steps),
    ensures
        is_full_row(tree, row),
{
    assert(ancestor(tree, root, 1) is None);
    lemma_full_names_split(tree, row.id, root, steps);
    lemma_climb_length(tree, root);
    assert(ancestor(tree, root, 0) is Some);
    assert(climb_length(tree, root) == 1);
    lemma_names_up_split(tree, row.id, steps, 1);
    assert(row.path_parts =~= names_up(tree, row.id, steps + 1));
    lemma_climb_length(tree, row.id);
    lemma_names_up_len(tree, row.id, steps);
    reveal_with_fuel(names_up, 2);
    assert(names_up(tree, root, 1).len() == 1);
}

proof fn lemma_names_up_len(tree: Map<i64, CollectionNode>, id: i64, steps: nat)
    requires
        ancestor(tree, id, steps) is Some,
    ensures
        names_up(tree, id, steps).len() == steps,
    decreases steps,
{
    if steps > 0 {
        lemma_names_up_len(tree, tree[id].parent->0, (steps - 1) as nat);
    }
}

/// Nothing lies below two roots.
proof fn lemma_one_root(tree: Map<i64, CollectionNode>, id: i64, a: i64, b: i64)
    requires
        is_root(tree, a),
        is_root(tree, b),
        is_within(tree, id, a),
        is_within(tree, id, b),
    ensures
        a == b,
{
    let m = choose|steps: nat| #[trigger] ancestor(tree, id, steps) == Some(a);
    let n = choose|steps: nat| #[trigger] ancestor(tree, id, steps) == Some(b);
    if m <= n {
        lemma_ancestor_steps(tree, id, m, (n - m) as nat);
    } else {
        lemma_ancestor_steps(tree, id, n, (m - n) as nat);
    }
}

/// The list shows every collection that hangs on a root, each once, at its depth and with its
/// full names.
pub proof fn law_list_shows_every_rooted_collection(
    tree: Map<i64, CollectionNode>,
    roots: Seq<i64>,
)
    requires
        tree_wf(tree),
        root_order(tree, roots),
    ensures
        ids_of_rows(forest_rows(tree, roots)).no_duplicates(),
        forall|id: i64| #[trigger]
            ids_of_rows(forest_rows(tree, roots)).contains(id) <==> is_rooted(tree, id),
        forall|k: int|
            0 <= k < forest_rows(tree, roots).len() ==> is_full_row(
                tree,
                #[trigger] forest_rows(tree, roots)[k],
            ),
{
    law_root_order(tree, roots);
    assert forall|i: int| 0 <= i < roots.len() implies is_root(tree, #[trigger] roots[i]) by {
        assert(roots.contains(roots[i]));
    }
    lemma_forest_rows(tree, roots);
    assert forall|id: i64| #[trigger] ids_of_rows(forest_rows(tree, roots)).contains(id)
        <==> is_rooted(tree, id) by {
        if is_rooted(tree, id) {
            let root = choose|root: i64| #[trigger]
                is_root(tree, root) && is_within(tree, id, root);
            assert(roots.contains(root));
        }
        if exists|i: int| 0 <= i < roots.len() && is_within(tree, id, #[trigger] roots[i]) {
            let i = choose|i: int|
                0 <= i < roots.len() && is_within(tree, id, #[trigger] roots[i]);
            assert(is_root(tree, roots[i]));
        }
    }
}

/// Every row of the list stands for a collection of the tree whose branch can be gathered, and
/// all of that branch is on the list, too.
pub proof fn law_list_holds_whole_branches(
    tree: Map<i64, CollectionNode>,
    roots: Seq<i64>,
    row: Row,
)
    requires
        tree_wf(tree),
        root_order(tree, roots),
        forest_rows(tree, roots).contains(row),
    ensures
        tree.contains_key(row.id),
        is_rooted(tree, row.id),
        climbs_finitely(tree, row.id),
        descends_finitely(tree, row.id),
        forall|id: i64| #[trigger]
            branch_ids(tree, row.id).contains(id) ==> ids_of_rows(
                forest_rows(tree, roots),
            ).contains(id),
{
    let rows = forest_rows(tree, roots);
    law_list_shows_every_rooted_collection(tree, roots);
    let k = choose|k: int| 0 <= k < rows.len() && rows[k] == row;
    assert(ids_of_rows(rows)[k] == row.id);
    assert(ids_of_rows(rows).contains(row.id));
    let root = choose|root: i64| #[trigger] is_root(tree, root) && is_within(tree, row.id, root);
    law_within_root_ends(tree, row.id, root);
    law_branch_is_everything_within(tree, row.id);
    let m = choose|steps: nat| #[trigger] ancestor(tree, row.id, steps) == Some(root);
    assert forall|id: i64| #[trigger] branch_ids(tree, row.id).contains(id) implies ids_of_rows(
        rows,
    ).contains(id) by {
        let n = choose|steps: nat| #[trigger] ancestor(tree, id, steps) == Some(row.id);
        lemma_ancestor_steps(tree, id, n, m);
        assert(ancestor(tree, id, n + m) == Some(root));
        assert(is_root(tree, root) && is_within(tree, id, root));
        assert(is_rooted(tree, id));
    }
}

proof fn lemma_forest_follows_parents(tree: Map<i64, CollectionNode>, roots: Seq<i64>)
    ensures
        forall|k: int|
            0 <= k < forest_rows(tree, roots).len() ==> (#[trigger] forest_rows(
                tree,
                roots,
            )[k]).depth >= 0 && (forest_rows(tree, roots)[k].depth > 0 ==> follows_parent(
                tree,
                forest_rows(tree, roots),
                k,
            )),
    decreases roots.len(),
{
    if roots.len() > 0 {
        let rows = forest_rows(tree, roots);
        let first = forest_rows(tree, roots.drop_last());
        let second = branch_rows(tree, roots.last(), 0, seq![]);
        lemma_forest_follows_parents(tree, roots.drop_last());
        law_rows_follow_their_parents(tree, roots.last(), 0, seq![]);
        assert forall|k: int| 0 <= k < rows.len() implies (#[trigger] rows[k]).depth >= 0 && (
        rows[k].depth > 0 ==> follows_parent(tree, rows, k)) by {
            if k < first.len() {
                assert(rows[k] == first[k]);
                lemma_parent_row_joined(tree, first, second, k);
            } else {
                assert(rows[k] == second[k - first.len()]);
                lemma_parent_row_joined(tree, first, second, k - first.len());
            }
        }
    }
}

/// On the list the nearest earlier row one level higher is the row of the parent, and every row
/// below the top level has one; its path is that of the row without the last name.
pub proof fn law_nearest_higher_row_is_the_parent(
    tree: Map<i64, CollectionNode>,
    roots: Seq<i64>,
    k: int,
)
    requires
        tree_wf(tree),
        root_order(tree, roots),
        0 <= k < forest_rows(tree, roots).len(),
        forest_rows(tree, roots)[k].depth > 0,
    ensures
        ({
            let rows = forest_rows(tree, roots);
            &&& exists|j: int| is_parent_row(tree, rows, k, j)
            &&& forall|j: int|
                0 <= j < k && (#[trigger] rows[j]).depth + 1 == rows[k].depth && (forall|m: int|
                    j < m < k ==> (#[trigger] rows[m]).depth + 1 != rows[k].depth)
                    ==> tree[rows[k].id].parent == Some(rows[j].id) && rows[j].path_parts
                    == rows[k].path_parts.drop_last()
        }),
{
    let rows = forest_rows(tree, roots);
    lemma_forest_follows_parents(tree, roots);
    assert(follows_parent(tree, rows, k));
    let p = choose|p: int| is_parent_row(tree, rows, k, p);
    assert(is_child(tree, rows[k].id, rows[p].id));
    assert forall|j: int|
        0 <= j < k && (#[trigger] rows[j]).depth + 1 == rows[k].depth && (forall|m: int|
            j < m < k ==> (#[trigger] rows[m]).depth + 1 != rows[k].depth) implies tree[rows[k].id].parent
        == Some(rows[j].id) && rows[j].path_parts == rows[k].path_parts.drop_last() by {
        if j < p {
            assert(rows[p].depth + 1 == rows[k].depth);
        } else if j > p {
            assert(rows[j].depth >= rows[k].depth);
        }
    }
}

/// Every collection on the list can be exported: everything below it can be gathered, and each
/// collection gathered has an export directory.
pub proof fn law_listed_collections_can_be_exported(
    tree: Map<i64, CollectionNode>,
    selected: i64,
    target: i64,
)
    requires
        tree_wf(tree),
        is_rooted(tree, selected),
        branch_ids(tree, selected).contains(target),
    ensures
        descends_finitely(tree, selected),
        climbs_finitely(tree, selected),
        climbs_finitely(tree, target),
        has_full_path(tree, selected),
        has_full_path(tree, target),
{
    let root = choose|root: i64| #[trigger] is_root(tree, root) && is_within(tree, selected, root);
    law_within_root_ends(tree, selected, root);
    law_branch_is_everything_within(tree, selected);
    assert(is_within(tree, target, selected));
    let m = choose|steps: nat| #[trigger] ancestor(tree, selected, steps) == Some(root);
    let n = choose|steps: nat| #[trigger] ancestor(tree, target, steps) == Some(selected);
    lemma_ancestor_steps(tree, target, n, m);
    assert(ancestor(tree, target, n + m) == Some(root));
    law_within_root_ends(tree, target, root);
    lemma_rooted_has_full_path(tree, selected, root, m);
    lemma_rooted_has_full_path(tree, target, root, n + m);
}

proof fn lemma_rooted_has_full_path(
    tree: Map<i64, CollectionNode>,
    id: i64,
    root: i64,
    steps: nat,
)
    requires
        is_root(tree, root),
        ancestor(tree, id, steps) == Some(root),
    ensures
        has_full_path(tree, id),
{
    assert forall|above: i64| #[trigger] is_within(tree, id, above) implies tree.contains_key(
        above,
    ) by {
        let n = choose|n: nat| #[trigger] ancestor(tree, id, n) == Some(above);
        if n <= steps {
            lemma_ancestor_steps(tree, id, n, (steps - n) as nat);
        } else {
            lemma_ancestor_steps(tree, id, steps, (n - steps) as nat);
        }
    }
}

/// The roots of the list are exactly the collections of the tree that name no parent, each once,
/// and no name comes before an earlier one.
pub proof fn law_roots_name_no_parent(tree: Map<i64, CollectionNode>, roots: Seq<i64>)
    requires
        tree_wf(tree),
        root_order(tree, roots),
    ensures
        roots.no_duplicates(),
        forall|id: i64| #[trigger]
            roots.contains(id) <==> tree.contains_key(id) && tree[id].parent is None,
        forall|i: int, j: int|
            0 <= i < j < roots.len() ==> !lex_lt(
                tree[#[trigger] roots[j]].name@,
                tree[#[trigger] roots[i]].name@,
            ),
{
    law_root_order(tree, roots);
    assert forall|id: i64| #[trigger] roots.contains(id) <==> tree.contains_key(id)
        && tree[id].parent is None by {
        assert(roots.contains(id) <==> is_root(tree, id));
    }
}

/// The list shows a collection of the tree exactly where it has no parent or its parent is shown,
/// too.
pub proof fn law_list_shows_what_hangs_on_it(
    tree: Map<i64, CollectionNode>,
    roots: Seq<i64>,
    id: i64,
)
    requires
        tree_wf(tree),
        root_order(tree, roots),
    ensures
        ids_of_rows(forest_rows(tree, roots)).contains(id) <==> tree.contains_key(id) && (
        tree[id].parent matches Some(parent) ==> ids_of_rows(forest_rows(tree, roots)).contains(
            parent,
        )),
{
    law_list_shows_every_rooted_collection(tree, roots);
    if is_rooted(tree, id) {
        let root = choose|root: i64| #[trigger] is_root(tree, root) && is_within(tree, id, root);
        law_within_root_ends(tree, id, root);
        law_within_by_parents(tree, id, root);
        if let Some(parent) = tree[id].parent {
            assert(is_root(tree, root) && is_within(tree, parent, root));
            assert(is_rooted(tree, parent));
        }
    }
    if tree.contains_key(id) {
        match tree[id].parent {
            Some(parent) => {
                if is_rooted(tree, parent) {
                    let root = choose|root: i64| #[trigger]
                        is_root(tree, root) && is_within(tree, parent, root);
                    law_within_by_parents(tree, id, root);
                    assert(is_root(tree, root) && is_within(tree, id, root));
                }
            },
            None => {
                assert(ancestor(tree, id, 0) == Some(id));
                assert(is_root(tree, id) && is_within(tree, id, id));
            },
        }
    }
}

} // verus!
