//! How the rows of a branch are nested: each under the row of its parent.
use vstd::prelude::*;

#[allow(unused_imports)]
use crate::display::{all_rows_within, branch_rows, rows_within, Row};
#[allow(unused_imports)]
use crate::tree::height;
use crate::tree::CollectionNode;

verus! {

/// Whether the path of a row starts with the names `path`, and the row stands as many levels
/// below `depth` as its path has further names.
pub open spec fn stands_under(row: Row, depth: int, path: Seq<Seq<char>>) -> bool {
    &&& path.is_prefix_of(row.path_parts)
    &&& row.depth - depth == row.path_parts.len() - path.len()
}

proof fn lemma_stands_under(
    tree: Map<i64, CollectionNode>,
    id: i64,
    depth: int,
    prefix: Seq<Seq<char>>,
    levels: nat,
)
    ensures
        forall|k: int|
            0 <= k < rows_within(tree, id, depth, prefix, levels).len() ==> stands_under(
                #[trigger] rows_within(tree, id, depth, prefix, levels)[k],
                depth,
                prefix.push(tree[id].name@),
            ),
    decreases levels, 0nat,
{
    let rows = rows_within(tree, id, depth, prefix, levels);
    if levels > 0 && tree.contains_key(id) {
        let path = prefix.push(tree[id].name@);
        let children = tree[id].children@;
        let below = all_rows_within(tree, children, depth + 1, path, (levels - 1) as nat);
        lemma_all_stand_under(tree, children, depth + 1, path, (levels - 1) as nat);
        assert forall|k: int| 0 <= k < rows.len() implies stands_under(
            #[trigger] rows[k],
            depth,
            path,
        ) by {
            if k > 0 {
                assert(rows[k] == below[k - 1]);
            }
        }
    }
}

proof fn lemma_all_stand_under(
    tree: Map<i64, CollectionNode>,
    ids: Seq<i64>,
    depth: int,
    prefix: Seq<Seq<char>>,
    levels: nat,
)
    ensures
        forall|k: int|
            0 <= k < all_rows_within(tree, ids, depth, prefix, levels).len() ==> stands_under(
                #[trigger] all_rows_within(tree, ids, depth, prefix, levels)[k],
                depth - 1,
                prefix,
            ) && all_rows_within(tree, ids, depth, prefix, levels)[k].depth >= depth,
    decreases levels, ids.len(),
{
    let rows = all_rows_within(tree, ids, depth, prefix, levels);
    if ids.len() > 0 {
        let first = all_rows_within(tree, ids.drop_last(), depth, prefix, levels);
        let second = rows_within(tree, ids.last(), depth, prefix, levels);
        let path = prefix.push(tree[ids.last()].name@);
        lemma_all_stand_under(tree, ids.drop_last(), depth, prefix, levels);
        lemma_stands_under(tree, ids.last(), depth, prefix, levels);
        assert forall|k: int| 0 <= k < rows.len() implies stands_under(
            #[trigger] rows[k],
            depth - 1,
            prefix,
        ) && rows[k].depth >= depth by {
            if k < first.len() {
                assert(rows[k] == first[k]);
            } else {
                let row = second[k - first.len()];
                assert(rows[k] == row);
                assert(stands_under(row, depth, path));
                assert(path.is_prefix_of(row.path_parts));
                assert(prefix =~= row.path_parts.subrange(0, prefix.len() as int)) by {
                    assert(path =~= row.path_parts.subrange(0, path.len() as int));
                    assert forall|i: int| 0 <= i < prefix.len() implies prefix[i]
                        == row.path_parts[i] by {
                        assert(path[i] == row.path_parts.subrange(0, path.len() as int)[i]);
                    }
                }
            }
        }
    }
}

/// Every row of a branch stands under the names of the top of the branch, as deep as its path is
/// long.
pub proof fn law_rows_are_as_deep_as_their_paths(
    tree: Map<i64, CollectionNode>,
    id: i64,
    depth: int,
    prefix: Seq<Seq<char>>,
)
    ensures
        forall|k: int|
            0 <= k < branch_rows(tree, id, depth, prefix).len() ==> stands_under(
                #[trigger] branch_rows(tree, id, depth, prefix)[k],
                depth,
                prefix.push(tree[id].name@),
            ),
{
    lemma_stands_under(tree, id, depth, prefix, height(tree, id));
}

/// Whether row `j` is the nearest row before row `k` that stands one level higher, and shows a
/// collection that has the one of row `k` as a child, with its path.
pub open spec fn is_parent_row(
    tree: Map<i64, CollectionNode>,
    rows: Seq<Row>,
    k: int,
    j: int,
) -> bool {
    &&& 0 <= j < k < rows.len()
    &&& rows[j].depth + 1 == rows[k].depth
    &&& forall|m: int| j < m < k ==> (#[trigger] rows[m]).depth >= rows[k].depth
    &&& tree.contains_key(rows[j].id)
    &&& tree[rows[j].id].children@.contains(rows[k].id)
    &&& rows[k].path_parts.len() > 0
    &&& rows[j].path_parts == rows[k].path_parts.drop_last()
}

/// Whether row `k` follows the row of its parent.
pub open spec fn follows_parent(tree: Map<i64, CollectionNode>, rows: Seq<Row>, k: int) -> bool {
    exists|j: int| is_parent_row(tree, rows, k, j)
}

/// Further rows before or behind change nothing for a row that follows its parent's.
pub proof fn lemma_parent_row_joined(
    tree: Map<i64, CollectionNode>,
    first: Seq<Row>,
    second: Seq<Row>,
    k: int,
)
    ensures
        follows_parent(tree, first, k) ==> follows_parent(tree, first + second, k),
        follows_parent(tree, second, k) ==> follows_parent(
            tree,
            first + second,
            k + first.len(),
        ),
{
    let rows = first + second;
    let n = first.len() as int;
    if follows_parent(tree, first, k) {
        let j = choose|j: int| is_parent_row(tree, first, k, j);
        assert forall|m: int| j < m < k implies (#[trigger] rows[m]).depth >= rows[k].depth by {
            assert(rows[m] == first[m]);
        }
        assert(is_parent_row(tree, rows, k, j));
    }
    if follows_parent(tree, second, k) {
        let j = choose|j: int| is_parent_row(tree, second, k, j);
        assert forall|m: int| j + n < m < k + n implies (#[trigger] rows[m]).depth >= rows[k
            + n].depth by {
            assert(rows[m] == second[m - n]);
        }
        assert(is_parent_row(tree, rows, k + n, j + n));
    }
}

proof fn lemma_follow_parents(
    tree: Map<i64, CollectionNode>,
    id: i64,
    depth: int,
    prefix: Seq<Seq<char>>,
    levels: nat,
)
    ensures
        ({
            let rows = rows_within(tree, id, depth, prefix, levels);
            &&& rows.len() > 0 ==> rows[0] == (Row {
                id,
                depth,
                path_parts: prefix.push(tree[id].name@),
            })
            &&& forall|k: int|
                0 < k < rows.len() ==> (#[trigger] rows[k]).depth > depth && follows_parent(
                    tree,
                    rows,
                    k,
                )
        }),
    decreases levels, 0nat,
{
    let rows = rows_within(tree, id, depth, prefix, levels);
    if levels > 0 && tree.contains_key(id) {
        let path = prefix.push(tree[id].name@);
        let children = tree[id].children@;
        let top = seq![Row { id, depth, path_parts: path }];
        let below = all_rows_within(tree, children, depth + 1, path, (levels - 1) as nat);
        lemma_all_follow_parents(tree, children, depth + 1, path, (levels - 1) as nat);
        assert(rows == top + below);
        assert forall|k: int| 0 < k < rows.len() implies (#[trigger] rows[k]).depth > depth
            && follows_parent(tree, rows, k) by {
            let row = below[k - 1];
            assert(rows[k] == row);
            if row.depth == depth + 1 {
                assert forall|m: int| 0 < m < k implies (#[trigger] rows[m]).depth
                    >= rows[k].depth by {
                    assert(rows[m] == below[m - 1]);
                }
                assert(row.path_parts.drop_last() =~= path);
                assert(is_parent_row(tree, rows, k, 0));
            } else {
                lemma_parent_row_joined(tree, top, below, k - 1);
            }
        }
    }
}

proof fn lemma_all_follow_parents(
    tree: Map<i64, CollectionNode>,
    ids: Seq<i64>,
    depth: int,
    prefix: Seq<Seq<char>>,
    levels: nat,
)
    ensures
        ({
            let rows = all_rows_within(tree, ids, depth, prefix, levels);
            forall|k: int|
                0 <= k < rows.len() ==> (#[trigger] rows[k]).depth >= depth && if rows[k].depth
                    == depth {
                    ids.contains(rows[k].id) && rows[k].path_parts == prefix.push(
                        tree[rows[k].id].name@,
                    )
                } else {
                    follows_parent(tree, rows, k)
                }
        }),
    decreases levels, ids.len(),
{
    let rows = all_rows_within(tree, ids, depth, prefix, levels);
    if ids.len() > 0 {
        let front = ids.drop_last();
        let id = ids.last();
        let first = all_rows_within(tree, front, depth, prefix, levels);
        let second = rows_within(tree, id, depth, prefix, levels);
        lemma_all_follow_parents(tree, front, depth, prefix, levels);
        lemma_follow_parents(tree, id, depth, prefix, levels);
        assert forall|k: int| 0 <= k < rows.len() implies (#[trigger] rows[k]).depth >= depth
            && if rows[k].depth == depth {
            ids.contains(rows[k].id) && rows[k].path_parts == prefix.push(tree[rows[k].id].name@)
        } else {
            follows_parent(tree, rows, k)
        } by {
            if k < first.len() {
                assert(rows[k] == first[k]);
                if rows[k].depth == depth {
                    let i = choose|i: int| 0 <= i < front.len() && front[i] == rows[k].id;
                    assert(ids[i] == rows[k].id);
                } else {
                    lemma_parent_row_joined(tree, first, second, k);
                }
            } else {
                let n = k - first.len();
                assert(rows[k] == second[n]);
                if n == 0 {
                    assert(ids[ids.len() - 1] == rows[k].id);
                } else {
                    lemma_parent_row_joined(tree, first, second, n);
                }
            }
        }
    }
}

/// In a branch every row but the first follows the row of its parent: the nearest earlier row
/// that stands one level higher.
pub proof fn law_rows_follow_their_parents(
    tree: Map<i64, CollectionNode>,
    id: i64,
    depth: int,
    prefix: Seq<Seq<char>>,
)
    ensures
        ({
            let rows = branch_rows(tree, id, depth, prefix);
            &&& rows.len() > 0 ==> rows[0].id == id && rows[0].depth == depth
            &&& forall|k: int|
                0 < k < rows.len() ==> (#[trigger] rows[k]).depth > depth && follows_parent(
                    tree,
                    rows,
                    k,
                )
        }),
{
    lemma_follow_parents(tree, id, depth, prefix, height(tree, id));
}

} // verus!
