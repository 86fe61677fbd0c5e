//! Choosing a collection: by its path, among those that a tag filter leaves, and by completion.
use std::collections::{HashMap, HashSet};

use vstd::prelude::*;

use crate::display::{flatten_tree, DisplayNode};
#[allow(unused_imports)]
use crate::display::{forest_rows, root_order, row_views, Row};
#[allow(unused_imports)]
use crate::lineage::{
    ancestor, is_within, law_branch_is_everything_within, lemma_ancestor_height,
    lemma_ancestor_steps, tree_wf,
};
#[allow(unused_imports)]
use crate::seqs::{
    is_sublist, is_subsequence, lemma_filter, lemma_filter_all, lemma_filter_is_sublist,
    lemma_filter_narrows, lemma_filter_next, lemma_sublist_empty, lemma_sublist_step,
};
use crate::tags::lowercase_strings;
#[allow(unused_imports)]
use crate::tags::lowercase_all;
use crate::text::{join, same_texts, split_segments, starts_with, to_lowercase};
#[allow(unused_imports)]
use crate::text::{joined, law_split_undoes_join, lowercase, segments, separable, texts};
#[allow(unused_imports)]
use crate::tree::{branch_ids, descends_finitely, lemma_height, roots_descend_finitely};
use crate::tree::{gather_descendants, CollectionNode};

verus! {

/// What is to be exported, and how.
#[derive(Debug, Clone)]
pub struct ExportSelection {
    pub node: DisplayNode,
    pub force_export_all: bool,
    pub tags: Vec<String>,
}

/// A path that names no collection of the list.
#[derive(Debug, Clone)]
pub struct CollectionNotFound {
    pub path: String,
}

impl CollectionNotFound {
    /// The message for the user.
    pub fn message(&self) -> (message: String)
        ensures
            message@ == "collection not found: "@ + self.path@
                + ". Use forward slashes between collection names, for example \"Parent/Subcollection Name\""@,
    {
        let mut message = "collection not found: ".to_owned();
        message.append(self.path.as_str());
        message.append(
            ". Use forward slashes between collection names, for example \"Parent/Subcollection Name\"",
        );
        message
    }
}

/// The names in a slash-delimited collection path; empty ones do not count.
pub fn normalize_collection_path(collection_path: &str) -> (parts: Vec<String>)
    ensures
        texts(parts@) == segments(collection_path@, '/'),
{
    split_segments(collection_path, '/')
}

/// The first row from `from` on with the given path.
pub open spec fn row_with_path(rows: Seq<Row>, path: Seq<Seq<char>>, from: int) -> Option<int>
    decreases rows.len() - from,
{
    if from >= rows.len() {
        None
    } else if rows[from].path_parts == path {
        Some(from)
    } else {
        row_with_path(rows, path, from + 1)
    }
}

/// Selects the first collection of the list that has the given path.
pub fn resolve_collection_selection(
    nodes: &[DisplayNode],
    collection_path: &str,
    force_export_all: bool,
    tags: Vec<String>,
) -> (result: Result<ExportSelection, CollectionNotFound>)
    ensures
        match row_with_path(row_views(nodes@), segments(collection_path@, '/'), 0) {
            Some(i) => result matches Ok(selection) && selection.node@ == nodes@[i]@
                && selection.force_export_all == force_export_all && selection.tags == tags,
            None => result matches Err(error) && error.path@ == collection_path@,
        },
        result matches Ok(selection) ==> texts(selection.node.path_parts@) == segments(
            collection_path@,
            '/',
        ),
        result is Err <==> forall|j: int|
            0 <= j < nodes@.len() ==> texts((#[trigger] nodes@[j]).path_parts@) != segments(
                collection_path@,
                '/',
            ),
{
    let normalized = normalize_collection_path(collection_path);
    let ghost rows = row_views(nodes@);
    let ghost path = segments(collection_path@, '/');
    proof {
        law_selected_row_has_the_path(rows, path);
        assert forall|j: int| 0 <= j < nodes@.len() implies rows[j].path_parts == texts(
            (#[trigger] nodes@[j]).path_parts@,
        ) by {}
    }
    let mut i: usize = 0;
    while i < nodes.len()
        invariant
            i <= nodes@.len(),
            rows == row_views(nodes@),
            path == segments(collection_path@, '/'),
            texts(normalized@) == path,
            row_with_path(rows, path, 0) == row_with_path(rows, path, i as int),
        decreases nodes@.len() - i,
    {
        assert(rows[i as int] == nodes@[i as int]@);
        if same_texts(&nodes[i].path_parts, &normalized) {
            return Ok(ExportSelection { node: nodes[i].clone(), force_export_all, tags });
        }
        i += 1;
    }
    Err(CollectionNotFound { path: collection_path.to_owned() })
}

/// Whether the branch of a collection holds one of the given collections.
pub open spec fn branch_matches(
    tree: Map<i64, CollectionNode>,
    id: i64,
    matching: Set<i64>,
) -> bool {
    exists|i: int|
        0 <= i < branch_ids(tree, id).len() && matching.contains(
            #[trigger] branch_ids(tree, id)[i],
        )
}

/// The rows that a tag filter leaves: all without tags, else those whose branch holds a
/// collection with a matching item.
pub open spec fn filtered_rows(
    tree: Map<i64, CollectionNode>,
    rows: Seq<Row>,
    has_tags: bool,
    matching: Set<i64>,
) -> Seq<Row> {
    if has_tags {
        rows.filter(|row: Row| branch_matches(tree, row.id, matching))
    } else {
        rows
    }
}

/// Whether the branch of a collection holds one of the given collections.
fn has_match(
    tree: &HashMap<i64, CollectionNode>,
    id: i64,
    matching: &HashSet<i64>,
) -> (found: bool)
    requires
        descends_finitely(tree@, id),
    ensures
        found == branch_matches(tree@, id, matching@),
{
    let descendants = gather_descendants(tree, id);
    let mut i: usize = 0;
    while i < descendants.len()
        invariant
            i <= descendants@.len(),
            descendants@ == branch_ids(tree@, id),
            forall|k: int| 0 <= k < i ==> !matching@.contains(#[trigger] descendants@[k]),
        decreases descendants@.len() - i,
    {
        if matching.contains(&descendants[i]) {
            assert(matching@.contains(branch_ids(tree@, id)[i as int]));
            return true;
        }
        i += 1;
    }
    false
}

/// The collections that a tag filter leaves on the list. `matching` holds the collections with
/// an item that has all the tags.
pub fn filter_display_nodes_by_tags(
    tree: &HashMap<i64, CollectionNode>,
    nodes: &[DisplayNode],
    tags: &[String],
    matching: &HashSet<i64>,
) -> (out: Vec<DisplayNode>)
    requires
        tags@.len() > 0 ==> forall|i: int|
            0 <= i < nodes@.len() ==> descends_finitely(tree@, (#[trigger] nodes@[i]).id),
    ensures
        row_views(out@) == filtered_rows(
            tree@,
            row_views(nodes@),
            tags@.len() > 0,
            matching@,
        ),
{
    let ghost rows = row_views(nodes@);
    let ghost kept = |row: Row| branch_matches(tree@, row.id, matching@);
    let filtering = tags.len() > 0;
    let mut out: Vec<DisplayNode> = Vec::new();
    let mut i: usize = 0;
    proof {
        reveal(Seq::filter);
        assert(row_views(out@) =~= rows.take(0).filter(kept));
        assert(row_views(out@) =~= rows.take(0));
    }
    while i < nodes.len()
        invariant
            i <= nodes@.len(),
            rows == row_views(nodes@),
            kept == (|row: Row| branch_matches(tree@, row.id, matching@)),
            filtering ==> forall|k: int|
                0 <= k < nodes@.len() ==> descends_finitely(tree@, (#[trigger] nodes@[k]).id),
            row_views(out@) == if filtering {
                rows.take(i as int).filter(kept)
            } else {
                rows.take(i as int)
            },
        decreases nodes@.len() - i,
    {
        let node = &nodes[i];
        proof {
            lemma_filter_next(rows, kept, i as int);
            assert(rows.take(i + 1) =~= rows.take(i as int).push(node@));
        }
        if !filtering || has_match(tree, node.id, matching) {
            let ghost earlier = out@;
            out.push(node.clone());
            assert(row_views(out@) =~= row_views(earlier).push(node@));
        }
        i += 1;
    }
    assert(rows.take(i as int) =~= rows);
    out
}

/// A filter that leaves a row on the list leaves every row whose branch holds its collection.
pub proof fn law_filter_keeps_collections_above(
    tree: Map<i64, CollectionNode>,
    rows: Seq<Row>,
    has_tags: bool,
    matching: Set<i64>,
    row: Row,
    above: Row,
)
    requires
        tree_wf(tree),
        filtered_rows(tree, rows, has_tags, matching).contains(row),
        rows.contains(above),
        descends_finitely(tree, above.id),
        branch_ids(tree, above.id).contains(row.id),
    ensures
        filtered_rows(tree, rows, has_tags, matching).contains(above),
{
    let kept = |row: Row| branch_matches(tree, row.id, matching);
    lemma_filter(rows, kept);
    if has_tags {
        assert(rows.filter(kept).contains(row));
        assert(kept(row));
        lemma_height(tree, above.id);
        if tree.contains_key(above.id) {
            lemma_branch_within_branch(tree, row.id, above.id, matching);
        } else {
            assert(branch_ids(tree, above.id) =~= seq![above.id]);
        }
        assert(kept(above));
    }
}

proof fn lemma_branch_within_branch(
    tree: Map<i64, CollectionNode>,
    id: i64,
    above: i64,
    matching: Set<i64>,
)
    requires
        tree_wf(tree),
        tree.contains_key(above),
        descends_finitely(tree, above),
        branch_ids(tree, above).contains(id),
        branch_matches(tree, id, matching),
    ensures
        branch_matches(tree, above, matching),
{
    let i = choose|i: int|
        0 <= i < branch_ids(tree, id).len() && matching.contains(
            #[trigger] branch_ids(tree, id)[i],
        );
    let found = branch_ids(tree, id)[i];
    law_branch_is_everything_within(tree, above);
    let n = choose|steps: nat| #[trigger] ancestor(tree, id, steps) == Some(above);
    lemma_ancestor_height(tree, id, above, n);
    law_branch_is_everything_within(tree, id);
    assert(branch_ids(tree, id).contains(found));
    let m = choose|steps: nat| #[trigger] ancestor(tree, found, steps) == Some(id);
    lemma_ancestor_steps(tree, found, m, n);
    assert(is_within(tree, found, above));
    assert(branch_ids(tree, above).contains(found));
}

/// Where fewer collections hold a matching item, the filter leaves a subsequence of the rows; so
/// does any filter of the list without one.
pub proof fn law_fewer_matches_narrow_the_list(
    tree: Map<i64, CollectionNode>,
    rows: Seq<Row>,
    has_tags: bool,
    fewer: Set<i64>,
    matching: Set<i64>,
)
    requires
        fewer.subset_of(matching),
    ensures
        is_subsequence(
            filtered_rows(tree, rows, has_tags, matching),
            filtered_rows(tree, rows, true, fewer),
        ),
{
    let strict = |row: Row| branch_matches(tree, row.id, fewer);
    if has_tags {
        let wide = |row: Row| branch_matches(tree, row.id, matching);
        assert forall|row: Row| #[trigger] strict(row) implies wide(row) by {
            let i = choose|i: int|
                0 <= i < branch_ids(tree, row.id).len() && fewer.contains(
                    #[trigger] branch_ids(tree, row.id)[i],
                );
            assert(matching.contains(branch_ids(tree, row.id)[i]));
        }
        lemma_filter_narrows(rows, strict, wide);
    } else {
        let all = |row: Row| true;
        lemma_filter_narrows(rows, strict, all);
        lemma_filter_all(rows, all);
    }
}

/// The slash-delimited path of a row.
pub open spec fn row_path(row: Row) -> Seq<char> {
    joined(row.path_parts, "/"@)
}

/// The paths of rows that start with the given text.
pub open spec fn completed_paths(rows: Seq<Row>, prefix: Seq<char>) -> Seq<Seq<char>> {
    rows.map_values(|row: Row| row_path(row)).filter(|path: Seq<char>| prefix.is_prefix_of(path))
}

/// The paths of the collections that complete what has been typed.
pub fn collection_path_completer(
    tree: &HashMap<i64, CollectionNode>,
    current: &str,
) -> (candidates: Vec<String>)
    requires
        roots_descend_finitely(tree@),
    ensures
        exists|roots: Seq<i64>| #[trigger]
            root_order(tree@, roots) && texts(candidates@) == completed_paths(
                forest_rows(tree@, roots),
                current@,
            ),
{
    let nodes = flatten_tree(tree);
    let ghost rows = row_views(nodes@);
    let ghost paths = rows.map_values(|row: Row| row_path(row));
    let ghost fits = |path: Seq<char>| current@.is_prefix_of(path);
    let mut candidates: Vec<String> = Vec::new();
    let mut i: usize = 0;
    proof {
        reveal(Seq::filter);
        assert(texts(candidates@) =~= paths.take(0).filter(fits));
    }
    while i < nodes.len()
        invariant
            i <= nodes@.len(),
            rows == row_views(nodes@),
            paths == rows.map_values(|row: Row| row_path(row)),
            fits == (|path: Seq<char>| current@.is_prefix_of(path)),
            texts(candidates@) == paths.take(i as int).filter(fits),
        decreases nodes@.len() - i,
    {
        let path = join(&nodes[i].path_parts, "/");
        proof {
            assert(paths[i as int] == path@);
            lemma_filter_next(paths, fits, i as int);
        }
        if starts_with(path.as_str(), current) {
            let ghost earlier = candidates@;
            let ghost text = path@;
            candidates.push(path);
            assert(texts(candidates@) =~= texts(earlier).push(text));
        }
        i += 1;
    }
    assert(paths.take(i as int) =~= paths);
    candidates
}

/// A path offered by completion selects a collection with that path, where its names are not
/// empty and hold no slash.
pub proof fn law_completed_path_selects(rows: Seq<Row>, i: int)
    requires
        0 <= i < rows.len(),
        separable(rows[i].path_parts, '/'),
    ensures
        row_with_path(rows, segments(row_path(rows[i]), '/'), 0) matches Some(k) && 0 <= k <= i
            && rows[k].path_parts == rows[i].path_parts,
{
    reveal_strlit("/");
    assert("/"@ =~= seq!['/']);
    law_split_undoes_join(rows[i].path_parts, '/');
    lemma_row_with_path(rows, i, 0);
}

proof fn lemma_row_with_path(rows: Seq<Row>, i: int, from: int)
    requires
        0 <= from <= i < rows.len(),
    ensures
        row_with_path(rows, rows[i].path_parts, from) matches Some(k) && from <= k <= i
            && rows[k].path_parts == rows[i].path_parts,
    decreases i - from,
{
    if rows[from].path_parts != rows[i].path_parts {
        lemma_row_with_path(rows, i, from + 1);
    }
}

/// The items at the places where `lowered` starts with `prefix`.
pub open spec fn with_prefix(
    items: Seq<Seq<char>>,
    lowered: Seq<Seq<char>>,
    prefix: Seq<char>,
) -> Seq<Seq<char>>
    decreases items.len(),
{
    if items.len() == 0 {
        seq![]
    } else {
        let front = with_prefix(items.drop_last(), lowered.drop_last(), prefix);
        if prefix.is_prefix_of(lowered.last()) {
            front.push(items.last())
        } else {
            front
        }
    }
}

/// The items at the places where `lowered` starts with `prefix`.
pub fn items_with_prefix(
    items: &[String],
    lowered: &Vec<String>,
    prefix: &str,
) -> (kept: Vec<String>)
    requires
        items@.len() == lowered@.len(),
    ensures
        texts(kept@) == with_prefix(texts(items@), texts(lowered@), prefix@),
{
    let mut kept: Vec<String> = Vec::new();
    let mut i: usize = 0;
    assert(texts(kept@) =~= with_prefix(texts(items@).take(0), texts(lowered@).take(0), prefix@));
    while i < items.len()
        invariant
            i <= items@.len() == lowered@.len(),
            texts(kept@) == with_prefix(
                texts(items@).take(i as int),
                texts(lowered@).take(i as int),
                prefix@,
            ),
        decreases items@.len() - i,
    {
        proof {
            assert(texts(items@).take(i + 1).drop_last() =~= texts(items@).take(i as int));
            assert(texts(lowered@).take(i + 1).drop_last() =~= texts(lowered@).take(i as int));
        }
        if starts_with(lowered[i].as_str(), prefix) {
            let ghost earlier = kept@;
            kept.push(items[i].clone());
            assert(texts(kept@) =~= texts(earlier).push(items@[i as int]@));
        }
        i += 1;
    }
    proof {
        assert(texts(items@).take(i as int) =~= texts(items@));
        assert(texts(lowered@).take(i as int) =~= texts(lowered@));
    }
    kept
}

/// The tags that complete what has been typed, whatever the case.
pub fn tag_completer(tag_names: &Vec<String>, current: &str) -> (candidates: Vec<String>)
    ensures
        texts(candidates@) == with_prefix(
            texts(tag_names@),
            lowercase_all(texts(tag_names@)),
            lowercase(current@),
        ),
{
    let prefix = to_lowercase(current);
    let lowered = lowercase_strings(tag_names);
    items_with_prefix(tag_names.as_slice(), &lowered, prefix.as_str())
}

/// What is selected has the path asked for and is the first row that has it; nothing is selected
/// exactly where no row has it.
pub proof fn law_selected_row_has_the_path(rows: Seq<Row>, path: Seq<Seq<char>>)
    ensures
        row_with_path(rows, path, 0) matches Some(k) ==> 0 <= k < rows.len() && rows[k].path_parts
            == path && forall|j: int| 0 <= j < k ==> (#[trigger] rows[j]).path_parts != path,
        row_with_path(rows, path, 0) is None <==> forall|j: int|
            0 <= j < rows.len() ==> (#[trigger] rows[j]).path_parts != path,
{
    lemma_first_row_with_path(rows, path, 0);
}

proof fn lemma_first_row_with_path(rows: Seq<Row>, path: Seq<Seq<char>>, from: int)
    requires
        0 <= from,
    ensures
        row_with_path(rows, path, from) matches Some(k) ==> from <= k < rows.len()
            && rows[k].path_parts == path && forall|j: int|
            from <= j < k ==> (#[trigger] rows[j]).path_parts != path,
        row_with_path(rows, path, from) is None ==> forall|j: int|
            from <= j < rows.len() ==> (#[trigger] rows[j]).path_parts != path,
    decreases rows.len() - from,
{
    if from < rows.len() && rows[from].path_parts != path {
        lemma_first_row_with_path(rows, path, from + 1);
    }
}

/// Whether a collection with a matching item lies within `id`.
pub open spec fn match_within(
    tree: Map<i64, CollectionNode>,
    id: i64,
    matching: Set<i64>,
) -> bool {
    exists|found: i64| #[trigger] matching.contains(found) && is_within(tree, found, id)
}

/// A filter leaves exactly the rows within whose collection one with a matching item lies, the
/// collection itself included, in their order; without tags it leaves all.
pub proof fn law_filter_leaves_rows_with_a_match(
    tree: Map<i64, CollectionNode>,
    rows: Seq<Row>,
    matching: Set<i64>,
)
    requires
        tree_wf(tree),
        forall|k: int|
            0 <= k < rows.len() ==> tree.contains_key((#[trigger] rows[k]).id)
                && descends_finitely(tree, rows[k].id),
    ensures
        filtered_rows(tree, rows, false, matching) == rows,
        is_sublist(
            rows,
            filtered_rows(tree, rows, true, matching),
            |k: int| match_within(tree, rows[k].id, matching),
        ),
        forall|row: Row| #[trigger]
            filtered_rows(tree, rows, true, matching).contains(row) <==> rows.contains(row)
                && match_within(tree, row.id, matching),
        forall|row: Row|
            rows.contains(row) && matching.contains(row.id) ==> #[trigger] filtered_rows(
                tree,
                rows,
                true,
                matching,
            ).contains(row),
{
    let left = |row: Row| branch_matches(tree, row.id, matching);
    let kept = |k: int| match_within(tree, rows[k].id, matching);
    assert forall|k: int| 0 <= k < rows.len() implies #[trigger] kept(k) == left(rows[k]) by {
        lemma_match_within(tree, rows[k].id, matching);
    }
    lemma_filter_is_sublist(rows, left, kept);
    lemma_filter(rows, left);
    assert forall|row: Row| #[trigger]
        filtered_rows(tree, rows, true, matching).contains(row) <==> rows.contains(row)
            && match_within(tree, row.id, matching) by {
        assert(rows.filter(left).contains(row) <==> rows.contains(row) && left(row));
        if rows.contains(row) {
            let k = choose|k: int| 0 <= k < rows.len() && rows[k] == row;
            assert(kept(k) == left(rows[k]));
        }
    }
    assert forall|row: Row| rows.contains(row) && matching.contains(row.id) implies #[trigger] filtered_rows(
        tree,
        rows,
        true,
        matching,
    ).contains(row) by {
        assert(ancestor(tree, row.id, 0) == Some(row.id));
        assert(is_within(tree, row.id, row.id));
        assert(match_within(tree, row.id, matching));
    }
}

proof fn lemma_match_within(tree: Map<i64, CollectionNode>, id: i64, matching: Set<i64>)
    requires
        tree_wf(tree),
        tree.contains_key(id),
        descends_finitely(tree, id),
    ensures
        branch_matches(tree, id, matching) <==> match_within(tree, id, matching),
{
    law_branch_is_everything_within(tree, id);
    let ids = branch_ids(tree, id);
    if branch_matches(tree, id, matching) {
        let i = choose|i: int| 0 <= i < ids.len() && matching.contains(#[trigger] ids[i]);
        assert(ids.contains(ids[i]));
        assert(matching.contains(ids[i]) && is_within(tree, ids[i], id));
    }
    if match_within(tree, id, matching) {
        let found = choose|found: i64| #[trigger]
            matching.contains(found) && is_within(tree, found, id);
        assert(ids.contains(found));
        let i = choose|i: int| 0 <= i < ids.len() && ids[i] == found;
        assert(matching.contains(ids[i]));
    }
}

/// Completion offers the slash-delimited paths of exactly the rows whose path starts with what
/// was typed, in their order.
pub proof fn law_completion_offers_what_starts_alike(rows: Seq<Row>, prefix: Seq<char>)
    ensures
        is_sublist(
            Seq::new(rows.len(), |k: int| joined(rows[k].path_parts, "/"@)),
            completed_paths(rows, prefix),
            |k: int|
                prefix.len() <= joined(rows[k].path_parts, "/"@).len() && joined(
                    rows[k].path_parts,
                    "/"@,
                ).take(prefix.len() as int) == prefix,
        ),
{
    let paths = rows.map_values(|row: Row| row_path(row));
    let fits = |path: Seq<char>| prefix.is_prefix_of(path);
    let kept = |k: int|
        prefix.len() <= joined(rows[k].path_parts, "/"@).len() && joined(
            rows[k].path_parts,
            "/"@,
        ).take(prefix.len() as int) == prefix;
    assert(paths =~= Seq::new(rows.len(), |k: int| joined(rows[k].path_parts, "/"@)));
    assert forall|k: int| 0 <= k < paths.len() implies #[trigger] kept(k) == fits(paths[k]) by {
        let path = joined(rows[k].path_parts, "/"@);
        assert(paths[k] == path);
        if prefix.len() <= path.len() {
            assert(path.take(prefix.len() as int) =~= path.subrange(0, prefix.len() as int));
        }
    }
    lemma_filter_is_sublist(paths, fits, kept);
}

/// Completion of tags keeps exactly the items at whose place the lowercase text starts with the
/// lowercase text typed, in their order.
pub proof fn law_tag_completion_keeps_what_starts_alike(
    items: Seq<Seq<char>>,
    lowered: Seq<Seq<char>>,
    prefix: Seq<char>,
)
    requires
        items.len() == lowered.len(),
    ensures
        is_sublist(
            items,
            with_prefix(items, lowered, prefix),
            |i: int|
                prefix.len() <= lowered[i].len() && lowered[i].take(prefix.len() as int) == prefix,
        ),
    decreases items.len(),
{
    let kept = |i: int|
        prefix.len() <= lowered[i].len() && lowered[i].take(prefix.len() as int) == prefix;
    if items.len() == 0 {
        lemma_sublist_empty(items, with_prefix(items, lowered, prefix), kept);
    } else {
        let front = lowered.drop_last();
        let narrow = |i: int|
            prefix.len() <= front[i].len() && front[i].take(prefix.len() as int) == prefix;
        law_tag_completion_keeps_what_starts_alike(items.drop_last(), front, prefix);
        lemma_sublist_step(
            items.drop_last(),
            with_prefix(items.drop_last(), front, prefix),
            narrow,
            kept,
            items.last(),
        );
        assert(items.drop_last().push(items.last()) =~= items);
        let last = lowered.last();
        if prefix.len() <= last.len() {
            assert(last.take(prefix.len() as int) =~= last.subrange(0, prefix.len() as int));
        }
    }
}

/// In any tree a filter with tags leaves exactly the rows whose branch holds a collection with a
/// matching item, in their order.
pub proof fn law_filter_leaves_rows_whose_branch_matches(
    tree: Map<i64, CollectionNode>,
    rows: Seq<Row>,
    matching: Set<i64>,
)
    ensures
        is_sublist(
            rows,
            filtered_rows(tree, rows, true, matching),
            |k: int|
                exists|found: i64| #[trigger]
                    matching.contains(found) && branch_ids(tree, rows[k].id).contains(found),
        ),
{
    let left = |row: Row| branch_matches(tree, row.id, matching);
    let kept = |k: int|
        exists|found: i64| #[trigger]
            matching.contains(found) && branch_ids(tree, rows[k].id).contains(found);
    assert forall|k: int| 0 <= k < rows.len() implies #[trigger] kept(k) == left(rows[k]) by {
        let ids = branch_ids(tree, rows[k].id);
        if left(rows[k]) {
            let i = choose|i: int| 0 <= i < ids.len() && matching.contains(#[trigger] ids[i]);
            assert(matching.contains(ids[i]) && ids.contains(ids[i]));
        }
        if kept(k) {
            let found = choose|found: i64| #[trigger]
                matching.contains(found) && ids.contains(found);
            let i = choose|i: int| 0 <= i < ids.len() && ids[i] == found;
            assert(matching.contains(ids[i]));
        }
    }
    lemma_filter_is_sublist(rows, left, kept);
}

} // verus!
