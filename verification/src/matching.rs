//! Which collections hold matching items, a model of the database's answers, and what more tags do
//! to the list.
use std::collections::HashSet;

use vstd::prelude::*;
#[allow(unused_imports)]
use vstd::set_lib::{lemma_len_subset, lemma_subset_equality};

#[allow(unused_imports)]
use crate::display::Row;
#[allow(unused_imports)]
use crate::selection::{filtered_rows, law_fewer_matches_narrow_the_list};
#[allow(unused_imports)]
use crate::seqs::is_subsequence;
#[allow(unused_imports)]
use crate::tags::{distinct_tags, law_lowering_keeps_tags_distinct, lowercase_all};
#[allow(unused_imports)]
use crate::text::{
    ascii_lowered, ascii_lowered_all, ascii_matches, law_ascii_lowering, lowercase,
};
#[allow(unused_imports)]
use crate::tree::CollectionNode;

verus! {

/// The collections with an item among the answers, each given with the items found in it.
pub fn matching_collections(answers: &Vec<(i64, Vec<i64>)>) -> (matching: HashSet<i64>)
    ensures
        forall|id: i64| #[trigger]
            matching@.contains(id) <==> exists|i: int|
                0 <= i < answers@.len() && (#[trigger] answers@[i]).0 == id
                    && answers@[i].1@.len() > 0,
{
    let mut matching: HashSet<i64> = HashSet::new();
    let mut n: usize = 0;
    while n < answers.len()
        invariant
            n <= answers@.len(),
            forall|id: i64| #[trigger]
                matching@.contains(id) <==> exists|i: int|
                    0 <= i < n && (#[trigger] answers@[i]).0 == id && answers@[i].1@.len() > 0,
        decreases answers@.len() - n,
    {
        let ghost earlier = matching@;
        if answers[n].1.len() > 0 {
            matching.insert(answers[n].0);
        }
        assert forall|id: i64| #[trigger] matching@.contains(id) <==> exists|i: int|
            0 <= i < n + 1 && (#[trigger] answers@[i]).0 == id && answers@[i].1@.len() > 0 by {
            if earlier.contains(id) {
                let i = choose|i: int|
                    0 <= i < n && (#[trigger] answers@[i]).0 == id && answers@[i].1@.len() > 0;
                assert(answers@[i].0 == id);
            }
            if matching@.contains(id) && !earlier.contains(id) {
                assert(answers@[n as int].0 == id);
            }
        }
        n += 1;
    }
    matching
}

/// Whether an item with the tags `names` has one that the database's `lower` turns into `key`.
pub open spec fn has_key(names: Set<Seq<char>>, key: Seq<char>) -> bool {
    exists|name: Seq<char>| #[trigger] names.contains(name) && ascii_lowered(name) == key
}

/// Whether the keys are all different and an item with the tags `names` has one for each.
pub open spec fn has_every_key(names: Set<Seq<char>>, keys: Seq<Seq<char>>) -> bool {
    keys.no_duplicates() && forall|i: int| 0 <= i < keys.len() ==> has_key(names, #[trigger] keys[i])
}

/// Whether an item with the tags `names` has the tag, whatever the case of ASCII letters.
pub open spec fn has_tag(names: Set<Seq<char>>, tag: Seq<char>) -> bool {
    exists|name: Seq<char>| #[trigger] names.contains(name) && ascii_matches(name, tag)
}

/// Whether an item with the tags `names` has every tag.
pub open spec fn has_every_tag(names: Set<Seq<char>>, tags: Seq<Seq<char>>) -> bool {
    forall|i: int| 0 <= i < tags.len() ==> has_tag(names, #[trigger] tags[i])
}

/// The different names that the query counts for an item with the tags `names`.
pub open spec fn names_counted(
    names: Set<Seq<char>>,
    keys: Seq<Seq<char>>,
) -> Set<Seq<char>> {
    names.map(|name: Seq<char>| ascii_lowered(name)).intersect(keys.to_set())
}

/// A model of the database: whether it answers the query for the items of a collection with an
/// item that has the tags `names`. Without tags it answers with every item, else with those whose
/// count of different names is full for the lowercase tags or for those without ASCII capitals.
pub open spec fn answers(names: Set<Seq<char>>, tags: Seq<Seq<char>>) -> bool {
    ||| tags.len() == 0
    ||| names_counted(names, lowercase_all(tags)).len() == tags.len()
    ||| names_counted(names, ascii_lowered_all(tags)).len() == tags.len()
}

proof fn lemma_key_counted(names: Set<Seq<char>>, keys: Seq<Seq<char>>, i: int)
    requires
        0 <= i < keys.len(),
    ensures
        has_key(names, keys[i]) <==> names_counted(names, keys).contains(keys[i]),
{
    let low = |name: Seq<char>| ascii_lowered(name);
    assert(keys.contains(keys[i]));
    if has_key(names, keys[i]) {
        let name = choose|name: Seq<char>| #[trigger]
            names.contains(name) && ascii_lowered(name) == keys[i];
        assert(names.contains(name) && keys[i] == low(name));
    }
    if names.map(low).contains(keys[i]) {
        let name = choose|name: Seq<char>| names.contains(name) && keys[i] == low(name);
        assert(names.contains(name));
    }
}

/// The count is full exactly where the keys are all different and the item has each of them.
pub proof fn lemma_full_count(names: Set<Seq<char>>, keys: Seq<Seq<char>>)
    ensures
        names_counted(names, keys).len() == keys.len() <==> has_every_key(names, keys),
{
    let wanted = keys.to_set();
    let counted = names_counted(names, keys);
    vstd::seq_lib::seq_to_set_is_finite(keys);
    keys.lemma_cardinality_of_set();
    assert(counted.subset_of(wanted));
    lemma_len_subset(counted, wanted);
    if counted.len() == keys.len() {
        keys.lemma_no_dup_set_cardinality();
        lemma_subset_equality(counted, wanted);
        assert forall|i: int| 0 <= i < keys.len() implies has_key(names, #[trigger] keys[i]) by {
            assert(keys.contains(keys[i]));
            lemma_key_counted(names, keys, i);
        }
    }
    if has_every_key(names, keys) {
        keys.unique_seq_to_set();
        assert forall|key: Seq<char>| #[trigger] wanted.contains(key) implies counted.contains(
            key,
        ) by {
            let i = choose|i: int| 0 <= i < keys.len() && keys[i] == key;
            assert(has_key(names, keys[i]));
            lemma_key_counted(names, keys, i);
        }
        assert(counted =~= wanted);
    }
}

proof fn lemma_tags_as_keys(names: Set<Seq<char>>, tags: Seq<Seq<char>>)
    ensures
        has_every_key(names, ascii_lowered_all(tags)) <==> distinct_tags(tags) && has_every_tag(
            names,
            tags,
        ),
{
    let keys = ascii_lowered_all(tags);
    law_lowering_keeps_tags_distinct(tags);
    assert forall|i: int| 0 <= i < tags.len() implies (has_tag(names, #[trigger] tags[i])
        <==> has_key(names, keys[i])) by {
        if has_tag(names, tags[i]) {
            let name = choose|name: Seq<char>| #[trigger]
                names.contains(name) && ascii_matches(name, tags[i]);
            law_ascii_lowering(name, tags[i]);
            assert(names.contains(name) && ascii_lowered(name) == keys[i]);
        }
        if has_key(names, keys[i]) {
            let name = choose|name: Seq<char>| #[trigger]
                names.contains(name) && ascii_lowered(name) == keys[i];
            law_ascii_lowering(name, tags[i]);
            assert(names.contains(name) && ascii_matches(name, tags[i]));
        }
    }
    if has_every_key(names, keys) {
        assert forall|i: int| 0 <= i < tags.len() implies has_tag(names, #[trigger] tags[i]) by {
            assert(has_key(names, keys[i]));
        }
    }
    if has_every_tag(names, tags) {
        assert forall|i: int| 0 <= i < keys.len() implies has_key(names, #[trigger] keys[i]) by {
            assert(has_tag(names, tags[i]));
        }
    }
}

/// Of distinct tags, the query answers with every item that has them all. Beyond those it answers
/// only with items that have the lowercase equivalents of all the tags, where these are different.
pub proof fn law_answers_have_every_tag(names: Set<Seq<char>>, tags: Seq<Seq<char>>)
    ensures
        distinct_tags(tags) && has_every_tag(names, tags) ==> answers(names, tags),
        answers(names, tags) ==> has_every_tag(names, tags) || has_every_key(
            names,
            lowercase_all(tags),
        ),
        lowercase_all(tags) == ascii_lowered_all(tags) && distinct_tags(tags) ==> (answers(
            names,
            tags,
        ) <==> has_every_tag(names, tags)),
{
    lemma_full_count(names, lowercase_all(tags));
    lemma_full_count(names, ascii_lowered_all(tags));
    lemma_tags_as_keys(names, tags);
}

/// The collections with an item that the query answers with. `library` holds, for each
/// collection, the tags of each of its items.
pub open spec fn collections_with_answer(
    library: Map<i64, Set<Set<Seq<char>>>>,
    tags: Seq<Seq<char>>,
) -> Set<i64> {
    Set::new(
        |id: i64|
            library.contains_key(id) && exists|names: Set<Seq<char>>| #[trigger]
                library[id].contains(names) && answers(names, tags),
    )
}

/// The rows that the filter with the given tags leaves.
pub open spec fn rows_with_tags(
    tree: Map<i64, CollectionNode>,
    rows: Seq<Row>,
    library: Map<i64, Set<Set<Seq<char>>>>,
    tags: Seq<Seq<char>>,
) -> Seq<Row> {
    filtered_rows(tree, rows, tags.len() > 0, collections_with_answer(library, tags))
}

proof fn lemma_fewer_keys(names: Set<Seq<char>>, keys: Seq<Seq<char>>, further: Seq<char>)
    requires
        has_every_key(names, keys.push(further)),
    ensures
        has_every_key(names, keys),
{
    let longer = keys.push(further);
    assert forall|i: int, j: int| 0 <= i < keys.len() && 0 <= j < keys.len() && i != j implies keys[i]
        != keys[j] by {
        assert(longer[i] != longer[j]);
    }
    assert forall|i: int| 0 <= i < keys.len() implies has_key(names, #[trigger] keys[i]) by {
        assert(has_key(names, longer[i]));
    }
}

/// One more tag leaves a subsequence of the rows: tags are matched with AND.
pub proof fn law_more_tags_narrow_the_list(
    tree: Map<i64, CollectionNode>,
    rows: Seq<Row>,
    library: Map<i64, Set<Set<Seq<char>>>>,
    tags: Seq<Seq<char>>,
    further: Seq<char>,
)
    ensures
        is_subsequence(
            rows_with_tags(tree, rows, library, tags),
            rows_with_tags(tree, rows, library, tags.push(further)),
        ),
{
    let longer = tags.push(further);
    assert(lowercase_all(longer) =~= lowercase_all(tags).push(lowercase(further)));
    assert(ascii_lowered_all(longer) =~= ascii_lowered_all(tags).push(ascii_lowered(further)));
    let fewer = collections_with_answer(library, longer);
    let matching = collections_with_answer(library, tags);
    assert forall|id: i64| #[trigger] fewer.contains(id) implies matching.contains(id) by {
        let names = choose|names: Set<Seq<char>>| #[trigger]
            library[id].contains(names) && answers(names, longer);
        lemma_full_count(names, lowercase_all(longer));
        lemma_full_count(names, ascii_lowered_all(longer));
        lemma_full_count(names, lowercase_all(tags));
        lemma_full_count(names, ascii_lowered_all(tags));
        if has_every_key(names, lowercase_all(longer)) {
            lemma_fewer_keys(names, lowercase_all(tags), lowercase(further));
        } else {
            lemma_fewer_keys(names, ascii_lowered_all(tags), ascii_lowered(further));
        }
        assert(library[id].contains(names) && answers(names, tags));
    }
    law_fewer_matches_narrow_the_list(tree, rows, tags.len() > 0, fewer, matching);
}

} // verus!
