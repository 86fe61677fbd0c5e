//! Directories for collections: a path is the list of its components, one for each name.
use std::collections::HashMap;

use vstd::prelude::*;

#[allow(unused_imports)]
use crate::lineage::{
    ancestor, climbs_finitely, is_within, law_climbing_ends_where_it_does_for_the_parent,
    law_within_by_parents, lemma_ancestor_steps,
};
use crate::numbers::push_signed_decimal;
#[allow(unused_imports)]
use crate::numbers::signed_decimal;
use crate::text::chars_of;
#[allow(unused_imports)]
use crate::text::texts;
use crate::tree::CollectionNode;

verus! {

/// A parent that the tree does not hold.
#[derive(Debug, Clone, Copy, PartialEq, Eq)]
pub struct MissingCollection {
    pub id: i64,
}

impl MissingCollection {
    /// The message for the user.
    pub fn message(&self) -> (message: String)
        ensures
            message@ == "collection ID "@ + signed_decimal(self.id as int) + " not found"@,
    {
        let mut message = "collection ID ".to_owned();
        push_signed_decimal(&mut message, self.id);
        message.append(" not found");
        message
    }
}

/// A character of a directory name: the separators give way to an underscore.
pub open spec fn sanitized_char(c: char) -> char {
    if c == '/' || c == '\\' {
        '_'
    } else {
        c
    }
}

/// A collection's name as a directory name.
pub open spec fn sanitized(name: Seq<char>) -> Seq<char> {
    name.map_values(|c: char| sanitized_char(c))
}

/// The names of `id` and of the collections above it, topmost first, at most `steps` of them.
pub open spec fn names_up(
    tree: Map<i64, CollectionNode>,
    id: i64,
    steps: nat,
) -> Seq<Seq<char>>
    decreases steps,
{
    if steps == 0 || !tree.contains_key(id) {
        seq![]
    } else {
        let above = match tree[id].parent {
            Some(parent) => names_up(tree, parent, (steps - 1) as nat),
            None => seq![],
        };
        above.push(tree[id].name@)
    }
}

/// The number of steps after which the walk from `id` up through the parents has ended.
#[verifier::opaque]
pub open spec fn climb_length(tree: Map<i64, CollectionNode>, id: i64) -> nat {
    choose|steps: nat|
        #![trigger ancestor(tree, id, steps)]
        ancestor(tree, id, steps) is None && forall|fewer: nat|
            fewer < steps ==> #[trigger] ancestor(tree, id, fewer) is Some
}

/// The names from the topmost collection down to `id`.
pub open spec fn full_names(tree: Map<i64, CollectionNode>, id: i64) -> Seq<Seq<char>> {
    names_up(tree, id, climb_length(tree, id))
}

/// Whether the tree holds `id` and every parent above it.
pub open spec fn has_full_path(tree: Map<i64, CollectionNode>, id: i64) -> bool {
    forall|above: i64| #[trigger] is_within(tree, id, above) ==> tree.contains_key(above)
}

/// The components of the path that joins the given parts: empty parts vanish, and so does `.`
/// except at the front. Every other part is one
/// component, also one that looks like a drive.
pub open spec fn components(parts: Seq<Seq<char>>) -> Seq<Seq<char>>
    decreases parts.len(),
{
    if parts.len() == 0 {
        seq![]
    } else {
        let front = components(parts.drop_last());
        let last = parts.last();
        if last.len() == 0 || (last == seq!['.'] && front.len() > 0) {
            front
        } else {
            front.push(last)
        }
    }
}

/// The path of a collection from the top of the library.
pub open spec fn full_path(tree: Map<i64, CollectionNode>, id: i64) -> Seq<Seq<char>> {
    components(full_names(tree, id).map_values(|name: Seq<char>| sanitized(name)))
}

/// The path `full` seen from the directory that holds the last component of `root`; where `full`
/// does not lie under `root`, `full` itself.
pub open spec fn relative_path(full: Seq<Seq<char>>, root: Seq<Seq<char>>) -> Seq<Seq<char>> {
    if root.is_prefix_of(full) && root.len() > 0 {
        full.skip(root.len() - 1)
    } else {
        full
    }
}

/// The directory name for a collection's name.
pub fn sanitize_name(name: &str) -> (clean: String)
    ensures
        clean@ == sanitized(name@),
{
    let mut clean = String::new();
    for c in iter: name.chars()
        invariant
            iter.seq() == name@,
            clean@ == sanitized(name@).take(iter.index() as int),
    {
        clean.push(if c == '/' || c == '\\' { '_' } else { c });
        assert(clean@ =~= sanitized(name@).take(iter.index() + 1));
    }
    assert(clean@ =~= sanitized(name@));
    clean
}

proof fn lemma_least_climb(tree: Map<i64, CollectionNode>, id: i64, steps: nat) -> (least: nat)
    requires
        ancestor(tree, id, steps) is None,
    ensures
        ancestor(tree, id, least) is None,
        forall|fewer: nat| fewer < least ==> #[trigger] ancestor(tree, id, fewer) is Some,
    decreases steps,
{
    if steps > 0 && ancestor(tree, id, (steps - 1) as nat) is None {
        lemma_least_climb(tree, id, (steps - 1) as nat)
    } else {
        assert forall|fewer: nat| fewer < steps implies #[trigger] ancestor(
            tree,
            id,
            fewer,
        ) is Some by {
            lemma_ancestor_steps(tree, id, fewer, (steps - 1 - fewer) as nat);
        }
        steps
    }
}

/// The walk up has ended after `climb_length` steps and not before.
pub proof fn lemma_climb_length(tree: Map<i64, CollectionNode>, id: i64)
    requires
        climbs_finitely(tree, id),
    ensures
        climb_length(tree, id) > 0,
        forall|steps: nat| #[trigger]
            ancestor(tree, id, steps) is Some <==> steps < climb_length(tree, id),
{
    reveal(climb_length);
    let steps = choose|steps: nat| #[trigger] ancestor(tree, id, steps) is None;
    let least = lemma_least_climb(tree, id, steps);
    assert(ancestor(tree, id, least) is None);
    let length = climb_length(tree, id);
    assert(ancestor(tree, id, 0) is Some);
    assert forall|steps: nat| #[trigger] ancestor(tree, id, steps) is Some <==> steps
        < length by {
        if steps >= length {
            lemma_ancestor_steps(tree, id, length, (steps - length) as nat);
        }
    }
}

/// The names on the way up, one by one.
pub proof fn lemma_names_up(tree: Map<i64, CollectionNode>, id: i64, steps: nat)
    requires
        forall|n: nat|
            n < steps ==> (#[trigger] ancestor(tree, id, n) matches Some(above)
                && tree.contains_key(above)),
    ensures
        names_up(tree, id, steps).len() == steps,
        forall|i: int|
            0 <= i < steps ==> #[trigger] names_up(tree, id, steps)[i] == tree[ancestor(
                tree,
                id,
                (steps - 1 - i) as nat,
            )->0].name@,
    decreases steps,
{
    if steps > 0 {
        assert(ancestor(tree, id, 0) == Some(id));
        if steps > 1 {
            let parent = tree[id].parent->0;
            assert(ancestor(tree, id, 1) is Some);
            assert(tree[id].parent is Some);
            assert forall|n: nat| n < steps - 1 implies (#[trigger] ancestor(
                tree,
                parent,
                n,
            ) matches Some(above) && tree.contains_key(above)) by {
                assert(ancestor(tree, id, n + 1) == ancestor(tree, parent, n));
            }
            lemma_names_up(tree, parent, (steps - 1) as nat);
            assert forall|i: int| 0 <= i < steps implies #[trigger] names_up(tree, id, steps)[i]
                == tree[ancestor(tree, id, (steps - 1 - i) as nat)->0].name@ by {
                if i < steps - 1 {
                    assert(names_up(tree, id, steps)[i] == names_up(
                        tree,
                        parent,
                        (steps - 1) as nat,
                    )[i]);
                    assert(ancestor(tree, id, (steps - 1 - i) as nat) == ancestor(
                        tree,
                        parent,
                        (steps - 2 - i) as nat,
                    ));
                }
            }
        } else {
            match tree[id].parent {
                Some(parent) => {
                    assert(names_up(tree, parent, 0) =~= seq![]);
                },
                None => {},
            }
        }
    }
}

/// The components of the path that joins the given parts.
fn path_components(parts: &Vec<String>) -> (path: Vec<String>)
    ensures
        texts(path@) == components(texts(parts@)),
{
    let mut path: Vec<String> = Vec::new();
    let mut i: usize = 0;
    assert(texts(path@) =~= components(texts(parts@).take(0)));
    while i < parts.len()
        invariant
            i <= parts@.len(),
            texts(path@) == components(texts(parts@).take(i as int)),
        decreases parts@.len() - i,
    {
        let part = &parts[i];
        proof {
            assert(texts(parts@).take(i + 1).drop_last() =~= texts(parts@).take(i as int));
            assert(texts(parts@).take(i + 1).last() == part@);
        }
        let dot = is_dot(part.as_str());
        let ghost earlier = path@;
        if !part.as_str().is_empty() && !(dot && path.len() > 0) {
            path.push(part.clone());
            assert(texts(path@) =~= texts(earlier).push(part@));
        }
        i += 1;
    }
    assert(texts(parts@).take(i as int) =~= texts(parts@));
    path
}

fn is_dot(part: &str) -> (dot: bool)
    ensures
        dot == (part@ == seq!['.']),
{
    let chars = chars_of(part);
    let dot = chars.len() == 1 && chars[0] == '.';
    assert(dot ==> part@ =~= seq!['.']);
    dot
}

/// Whether `name` is the directory name of the collection `steps` levels above `id`.
spec fn names_ancestor(
    tree: Map<i64, CollectionNode>,
    id: i64,
    steps: nat,
    name: Seq<char>,
) -> bool {
    match ancestor(tree, id, steps) {
        Some(above) => tree.contains_key(above) && name == sanitized(tree[above].name@),
        None => false,
    }
}

/// The path of a collection from the top of the library.
pub fn build_full_path(
    tree: &HashMap<i64, CollectionNode>,
    col_id: i64,
) -> (result: Result<Vec<String>, MissingCollection>)
    requires
        climbs_finitely(tree@, col_id),
    ensures
        result is Ok <==> has_full_path(tree@, col_id),
        match result {
            Ok(path) => texts(path@) == full_path(tree@, col_id),
            Err(missing) => is_within(tree@, col_id, missing.id) && !tree@.contains_key(missing.id),
        },
{
    let mut upward: Vec<String> = Vec::new();
    let mut current = Some(col_id);
    let ghost length = climb_length(tree@, col_id);
    proof {
        lemma_climb_length(tree@, col_id);
        assert(ancestor(tree@, col_id, 0) == Some(col_id));
    }
    while current.is_some()
        invariant
            length == climb_length(tree@, col_id),
            forall|steps: nat| #[trigger]
                ancestor(tree@, col_id, steps) is Some <==> steps < length,
            upward@.len() <= length,
            current == ancestor(tree@, col_id, upward@.len()),
            forall|n: int|
                0 <= n < upward@.len() ==> names_ancestor(
                    tree@,
                    col_id,
                    n as nat,
                    (#[trigger] upward@[n])@,
                ),
        decreases length - upward@.len(),
    {
        if let Some(id) = current {
            let ghost climbed = upward@.len();
            match tree.get(&id) {
                Some(node) => {
                    proof {
                        lemma_ancestor_steps(tree@, col_id, climbed, 1);
                        reveal_with_fuel(ancestor, 2);
                        assert(ancestor(tree@, col_id, climbed + 1) == node.parent);
                    }
                    let ghost earlier = upward@;
                    upward.push(sanitize_name(node.name.as_str()));
                    proof {
                        assert forall|n: int| 0 <= n < upward@.len() implies names_ancestor(
                            tree@,
                            col_id,
                            n as nat,
                            (#[trigger] upward@[n])@,
                        ) by {
                            if n < climbed {
                                assert(upward@[n] == earlier[n]);
                            }
                        }
                    }
                    current = node.parent;
                },
                None => {
                    assert(is_within(tree@, col_id, id));
                    return Err(MissingCollection { id });
                },
            }
        }
    }
    proof {
        assert forall|n: nat| n < length implies (#[trigger] ancestor(
            tree@,
            col_id,
            n,
        ) matches Some(above) && tree@.contains_key(above)) by {
            assert(names_ancestor(tree@, col_id, n, upward@[n as int]@));
        }
        lemma_names_up(tree@, col_id, length);
        assert(has_full_path(tree@, col_id));
    }
    let mut parts: Vec<String> = Vec::new();
    let mut left = upward.len();
    let ghost names = full_names(tree@, col_id).map_values(|name: Seq<char>| sanitized(name));
    assert(texts(parts@) =~= names.take(0));
    while left > 0
        invariant
            left <= upward@.len(),
            names.len() == upward@.len(),
            forall|i: int|
                0 <= i < names.len() ==> #[trigger] names[i] == upward@[names.len() - 1 - i]@,
            texts(parts@) == names.take(upward@.len() - left),
        decreases left,
    {
        left -= 1;
        let ghost earlier = parts@;
        parts.push(upward[left].clone());
        proof {
            assert(texts(parts@) =~= texts(earlier).push(upward@[left as int]@));
            assert(texts(parts@) =~= names.take(upward@.len() - left));
        }
    }
    assert(names.take(upward@.len() as int) =~= names);
    Ok(path_components(&parts))
}

/// The directory of the collection `target` for an export that starts at `selected_root`: its
/// path from the selected collection on, whose own name comes first.
///
/// Of two collections without a full path, that of `target` is reported.
pub fn build_relative_path_from_selected(
    tree: &HashMap<i64, CollectionNode>,
    selected_root: i64,
    target: i64,
) -> (result: Result<Vec<String>, MissingCollection>)
    requires
        climbs_finitely(tree@, selected_root),
        climbs_finitely(tree@, target),
    ensures
        result is Ok <==> has_full_path(tree@, target) && has_full_path(tree@, selected_root),
        match result {
            Ok(path) => texts(path@) == relative_path(
                full_path(tree@, target),
                full_path(tree@, selected_root),
            ),
            Err(missing) => {
                let origin = if has_full_path(tree@, target) {
                    selected_root
                } else {
                    target
                };
                is_within(tree@, origin, missing.id) && !tree@.contains_key(missing.id)
            },
        },
{
    let full = match build_full_path(tree, target) {
        Ok(path) => path,
        Err(missing) => return Err(missing),
    };
    let root = match build_full_path(tree, selected_root) {
        Ok(path) => path,
        Err(missing) => return Err(missing),
    };
    if root.len() == 0 || !starts_with_path(&full, &root) {
        return Ok(full);
    }
    let mut path: Vec<String> = Vec::new();
    let start = root.len() - 1;
    let mut i = start;
    assert(texts(path@) =~= texts(full@).skip(start as int).take(0));
    while i < full.len()
        invariant
            start <= i <= full@.len(),
            texts(path@) == texts(full@).skip(start as int).take(i - start),
        decreases full@.len() - i,
    {
        let ghost earlier = path@;
        path.push(full[i].clone());
        proof {
            assert(texts(path@) =~= texts(earlier).push(full@[i as int]@));
            assert(texts(path@) =~= texts(full@).skip(start as int).take(i + 1 - start));
        }
        i += 1;
    }
    assert(texts(path@) =~= texts(full@).skip(start as int));
    Ok(path)
}

/// Whether one path is another or lies under it.
fn starts_with_path(path: &Vec<String>, base: &Vec<String>) -> (starts: bool)
    ensures
        starts == texts(base@).is_prefix_of(texts(path@)),
{
    if base.len() > path.len() {
        return false;
    }
    let mut i: usize = 0;
    while i < base.len()
        invariant
            i <= base@.len() <= path@.len(),
            forall|k: int| 0 <= k < i ==> #[trigger] texts(base@)[k] == texts(path@)[k],
        decreases base@.len() - i,
    {
        if path[i] != base[i] {
            proof {
                assert(texts(path@)[i as int] != texts(base@)[i as int]);
                assert(texts(path@).subrange(0, base@.len() as int)[i as int] != texts(
                    base@,
                )[i as int]);
            }
            return false;
        }
        assert(texts(path@)[i as int] == texts(base@)[i as int]);
        i += 1;
    }
    assert(texts(base@) =~= texts(path@).subrange(0, base@.len() as int));
    true
}

/// A directory name is as long as the collection's name: separators become underscores, and every
/// other character stays.
pub proof fn law_sanitized_by_character(name: Seq<char>)
    ensures
        sanitized(name).len() == name.len(),
        forall|i: int|
            0 <= i < name.len() ==> #[trigger] sanitized(name)[i] == (if name[i] == '/' || name[i]
                == '\\' {
                '_'
            } else {
                name[i]
            }),
{
}

/// The tree holds a collection and all above it exactly where it holds the collection and, if it
/// has a parent, the parent and all above that.
pub proof fn law_full_path_by_parents(tree: Map<i64, CollectionNode>, id: i64)
    ensures
        has_full_path(tree, id) <==> tree.contains_key(id) && (
        tree[id].parent matches Some(parent) ==> has_full_path(tree, parent)),
{
    assert(ancestor(tree, id, 0) == Some(id));
    assert(is_within(tree, id, id));
    if tree.contains_key(id) {
        match tree[id].parent {
            Some(parent) => {
                assert forall|above: i64| #[trigger] is_within(
                    tree,
                    parent,
                    above,
                ) implies is_within(tree, id, above) by {
                    law_within_by_parents(tree, id, above);
                }
                if has_full_path(tree, parent) {
                    assert forall|above: i64| #[trigger] is_within(
                        tree,
                        id,
                        above,
                    ) implies tree.contains_key(above) by {
                        law_within_by_parents(tree, id, above);
                    }
                }
            },
            None => {
                assert forall|above: i64| #[trigger] is_within(
                    tree,
                    id,
                    above,
                ) implies tree.contains_key(above) by {
                    law_within_by_parents(tree, id, above);
                }
            },
        }
    }
}

/// The names down to a collection are those down to its parent and its own.
pub proof fn law_full_names_grow_by_the_name(tree: Map<i64, CollectionNode>, id: i64)
    requires
        climbs_finitely(tree, id),
        tree.contains_key(id),
    ensures
        full_names(tree, id) == (match tree[id].parent {
            Some(parent) => full_names(tree, parent),
            None => seq![],
        }).push(tree[id].name@),
{
    lemma_climb_length(tree, id);
    let length = climb_length(tree, id);
    match tree[id].parent {
        Some(parent) => {
            law_climbing_ends_where_it_does_for_the_parent(tree, id);
            lemma_climb_length(tree, parent);
            let above = climb_length(tree, parent);
            assert(ancestor(tree, id, above + 1) == ancestor(tree, parent, above));
            assert(ancestor(tree, id, above) is Some) by {
                assert(ancestor(tree, parent, (above - 1) as nat) is Some);
                assert(ancestor(tree, id, above) == ancestor(tree, parent, (above - 1) as nat));
            }
            assert(length == above + 1);
        },
        None => {
            assert(ancestor(tree, id, 1) is None);
            assert(length == 1);
        },
    }
}

/// The path of a collection is that of its parent and its own directory name; a root stands at
/// the top. An empty name adds nothing, and neither does `.` but at the front.
pub proof fn law_path_grows_by_the_name(tree: Map<i64, CollectionNode>, id: i64)
    requires
        climbs_finitely(tree, id),
        tree.contains_key(id),
    ensures
        ({
            let above: Seq<Seq<char>> = match tree[id].parent {
                Some(parent) => full_path(tree, parent),
                None => seq![],
            };
            let name = sanitized(tree[id].name@);
            full_path(tree, id) == if name.len() == 0 || (name == seq!['.'] && above.len() > 0) {
                above
            } else {
                above.push(name)
            }
        }),
{
    law_full_names_grow_by_the_name(tree, id);
    let clean = |name: Seq<char>| sanitized(name);
    let earlier: Seq<Seq<char>> = match tree[id].parent {
        Some(parent) => full_names(tree, parent),
        None => seq![],
    };
    let whole = full_names(tree, id).map_values(clean);
    assert(whole.drop_last() =~= earlier.map_values(clean));
    assert(whole.last() == sanitized(tree[id].name@));
    assert(whole.len() > 0);
    let front = components(earlier.map_values(clean));
    match tree[id].parent {
        Some(parent) => {
            assert(front == full_path(tree, parent));
        },
        None => {
            assert(earlier.map_values(clean) =~= seq![]);
            assert(front =~= seq![]);
        },
    }
    let name = sanitized(tree[id].name@);
    assert(components(whole) == if name.len() == 0 || (name == seq!['.'] && front.len() > 0) {
        front
    } else {
        front.push(name)
    });
    assert(full_path(tree, id) == components(whole));
}

/// Where a path lies under another that is not empty, it is the directory of the other and then
/// the relative path; elsewhere the relative path is the path itself.
pub proof fn law_relative_path_completes(full: Seq<Seq<char>>, root: Seq<Seq<char>>)
    ensures
        root.len() > 0 && root.is_prefix_of(full) ==> root.drop_last() + relative_path(full, root)
            == full,
        root.len() == 0 || !root.is_prefix_of(full) ==> relative_path(full, root) == full,
{
    if root.len() > 0 && root.is_prefix_of(full) {
        assert forall|i: int| 0 <= i < root.len() implies root[i] == full[i] by {
            assert(root[i] == full.subrange(0, root.len() as int)[i]);
        }
        assert(root.drop_last() + relative_path(full, root) =~= full);
    }
}

} // verus!
