//! The directories of an export: one for each collection of the selected branch.
use std::collections::HashMap;

use vstd::prelude::*;

#[allow(unused_imports)]
use crate::lineage::{
    ancestor, climbs_finitely, is_within, law_branch_is_everything_within,
    law_climbing_ends_then_descending_ends, lemma_ancestor_steps, tree_wf,
};
use crate::paths::{build_relative_path_from_selected, MissingCollection};
#[allow(unused_imports)]
use crate::paths::{full_path, has_full_path, law_relative_path_completes, relative_path};
#[allow(unused_imports)]
use crate::text::texts;
#[allow(unused_imports)]
use crate::tree::branch_ids;
use crate::tree::{gather_descendants, CollectionNode};

verus! {

/// A collection and the components of the directory for its files.
#[derive(Debug)]
pub struct ExportDirectory {
    pub id: i64,
    pub path: Vec<String>,
}

/// Whether a directory is that of the collection `id` in an export of `selected`.
pub open spec fn is_directory_of(
    tree: Map<i64, CollectionNode>,
    selected: i64,
    id: i64,
    directory: ExportDirectory,
) -> bool {
    &&& directory.id == id
    &&& texts(directory.path@) == relative_path(full_path(tree, id), full_path(tree, selected))
}

/// What lies within `selected` climbs to an end as `selected` does, and lacks a parent only where
/// `selected` does.
proof fn lemma_climb_within(tree: Map<i64, CollectionNode>, selected: i64, id: i64)
    requires
        tree.contains_key(selected),
        climbs_finitely(tree, selected),
        is_within(tree, id, selected),
    ensures
        climbs_finitely(tree, id),
        forall|above: i64| #[trigger]
            is_within(tree, id, above) && !tree.contains_key(above) ==> is_within(
                tree,
                selected,
                above,
            ),
        has_full_path(tree, selected) ==> has_full_path(tree, id),
{
    let n = choose|steps: nat| #[trigger] ancestor(tree, id, steps) == Some(selected);
    let m = choose|steps: nat| #[trigger] ancestor(tree, selected, steps) is None;
    lemma_ancestor_steps(tree, id, n, m);
    assert(ancestor(tree, id, n + m) is None);
    assert forall|above: i64| #[trigger]
        is_within(tree, id, above) && !tree.contains_key(above) implies is_within(
        tree,
        selected,
        above,
    ) by {
        let k = choose|steps: nat| #[trigger] ancestor(tree, id, steps) == Some(above);
        if k < n {
            lemma_ancestor_steps(tree, id, k, (n - k) as nat);
        } else {
            lemma_ancestor_steps(tree, id, n, (k - n) as nat);
            assert(ancestor(tree, selected, (k - n) as nat) == Some(above));
        }
    }
}

/// Plans the export of a collection and everything below it: the directories in the order in
/// which they are filled, the selected collection first.
pub fn plan_export(
    tree: &HashMap<i64, CollectionNode>,
    selected: i64,
) -> (result: Result<Vec<ExportDirectory>, MissingCollection>)
    requires
        tree_wf(tree@),
        tree@.contains_key(selected),
        climbs_finitely(tree@, selected),
    ensures
        result is Ok <==> has_full_path(tree@, selected),
        match result {
            Ok(directories) => directories@.len() == branch_ids(tree@, selected).len()
                && forall|i: int|
                0 <= i < directories@.len() ==> is_directory_of(
                    tree@,
                    selected,
                    branch_ids(tree@, selected)[i],
                    #[trigger] directories@[i],
                ),
            Err(missing) => is_within(tree@, selected, missing.id) && !tree@.contains_key(
                missing.id,
            ),
        },
{
    proof {
        law_climbing_ends_then_descending_ends(tree@, selected);
        law_branch_is_everything_within(tree@, selected);
        assert(ancestor(tree@, selected, 0) == Some(selected));
        assert(branch_ids(tree@, selected).contains(selected));
    }
    let descendants = gather_descendants(tree, selected);
    let mut directories: Vec<ExportDirectory> = Vec::new();
    let mut i: usize = 0;
    while i < descendants.len()
        invariant
            i <= descendants@.len(),
            i == directories@.len(),
            descendants@ == branch_ids(tree@, selected),
            tree@.contains_key(selected),
            climbs_finitely(tree@, selected),
            forall|id: i64| #[trigger]
                descendants@.contains(id) <==> is_within(tree@, id, selected),
            i > 0 ==> has_full_path(tree@, selected),
            forall|k: int|
                0 <= k < directories@.len() ==> is_directory_of(
                    tree@,
                    selected,
                    branch_ids(tree@, selected)[k],
                    #[trigger] directories@[k],
                ),
        decreases descendants@.len() - i,
    {
        let id = descendants[i];
        proof {
            assert(descendants@.contains(id));
            lemma_climb_within(tree@, selected, id);
        }
        match build_relative_path_from_selected(tree, selected, id) {
            Ok(path) => {
                directories.push(ExportDirectory { id, path });
            },
            Err(missing) => {
                return Err(missing);
            },
        }
        i += 1;
    }
    Ok(directories)
}

/// The directory of a collection in an export has the components of its path from the selected
/// collection on: put behind the directory of the selected collection it gives the full path. It is
/// the full path itself where that does not lie under the selected collection's.
pub proof fn law_directories_complete_the_path(
    tree: Map<i64, CollectionNode>,
    selected: i64,
    id: i64,
    directory: ExportDirectory,
)
    requires
        is_directory_of(tree, selected, id, directory),
    ensures
        directory.id == id,
        full_path(tree, selected).len() > 0 && full_path(tree, selected).is_prefix_of(
            full_path(tree, id),
        ) ==> full_path(tree, selected).drop_last() + texts(directory.path@) == full_path(tree, id),
        full_path(tree, selected).len() == 0 || !full_path(tree, selected).is_prefix_of(
            full_path(tree, id),
        ) ==> texts(directory.path@) == full_path(tree, id),
{
    law_relative_path_completes(full_path(tree, id), full_path(tree, selected));
}

} // verus!
