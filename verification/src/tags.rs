//! Tag filters: cleaning what was passed, and switching single tags on and off.
use vstd::hash_set::StringHashSet;
use vstd::prelude::*;

use crate::order::stable_order;
#[allow(unused_imports)]
use crate::order::{
    arranged, is_stable_order, item_before, key_views, law_sorted_items_stand_in_order,
    law_sorting_keeps_items, law_stable_order_by_keys, law_stable_order_unique,
    lemma_item_before_total, positions, stably_sorted, text_keys,
};
#[allow(unused_imports)]
use crate::seqs::{
    is_sublist, lemma_filter, lemma_filter_all, lemma_filter_next, lemma_push_members,
    lemma_sublist_empty, lemma_sublist_step,
};
use crate::text::{chars_of, clone_strings, eq_ignore_ascii_case, to_lowercase, trim};
#[allow(unused_imports)]
use crate::text::{
    ascii_lowered_all, ascii_matches, law_ascii_lowering, law_trimmed,
    lemma_lex_lt_asymmetric, lex_lt, lowercase, texts, trimmed,
};

verus! {

/// The items whose key no earlier item has.
pub open spec fn first_per_key<T>(items: Seq<T>, keys: Seq<Seq<char>>) -> Seq<T>
    decreases items.len(),
{
    if items.len() == 0 {
        seq![]
    } else {
        let front = first_per_key(items.drop_last(), keys.drop_last());
        if keys.drop_last().contains(keys.last()) {
            front
        } else {
            front.push(items.last())
        }
    }
}

/// The given tags without the white space at their ends, without the blank ones.
pub open spec fn shown_tags(tags: Seq<Seq<char>>) -> Seq<Seq<char>> {
    tags.map_values(|tag: Seq<char>| trimmed(tag)).filter(|tag: Seq<char>| tag.len() > 0)
}

/// The lowercase equivalents of texts.
pub open spec fn lowercase_all(items: Seq<Seq<char>>) -> Seq<Seq<char>> {
    items.map_values(|item: Seq<char>| lowercase(item))
}

/// The tags that a filter uses: trimmed, not blank, and only the first of those that differ in
/// case alone.
pub open spec fn normalized_tags(tags: Seq<Seq<char>>) -> Seq<Seq<char>> {
    first_per_key(shown_tags(tags), lowercase_all(shown_tags(tags)))
}

/// The items whose key no earlier item has.
pub fn keep_first_per_key(items: &Vec<String>, keys: &Vec<String>) -> (kept: Vec<String>)
    requires
        items@.len() == keys@.len(),
    ensures
        texts(kept@) == first_per_key(texts(items@), texts(keys@)),
{
    let mut kept: Vec<String> = Vec::new();
    let mut seen = StringHashSet::new();
    let mut i: usize = 0;
    assert(texts(kept@) =~= first_per_key(texts(items@).take(0), texts(keys@).take(0)));
    while i < items.len()
        invariant
            i <= items@.len() == keys@.len(),
            forall|key: Seq<char>| #[trigger]
                seen@.contains(key) <==> texts(keys@).take(i as int).contains(key),
            texts(kept@) == first_per_key(
                texts(items@).take(i as int),
                texts(keys@).take(i as int),
            ),
        decreases items@.len() - i,
    {
        let ghost shorter = texts(keys@).take(i as int);
        let ghost longer = texts(keys@).take(i + 1);
        proof {
            assert(longer =~= shorter.push(keys@[i as int]@));
            assert(longer.drop_last() =~= shorter);
            assert(texts(items@).take(i + 1).drop_last() =~= texts(items@).take(i as int));
            lemma_push_members(shorter, keys@[i as int]@);
        }
        if !seen.contains(keys[i].as_str()) {
            seen.insert(keys[i].clone());
            let ghost earlier = kept@;
            kept.push(items[i].clone());
            assert(texts(kept@) =~= texts(earlier).push(items@[i as int]@));
        }
        i += 1;
    }
    proof {
        assert(texts(items@).take(i as int) =~= texts(items@));
        assert(texts(keys@).take(i as int) =~= texts(keys@));
    }
    kept
}

/// The lowercase equivalents of texts.
pub fn lowercase_strings(items: &Vec<String>) -> (keys: Vec<String>)
    ensures
        keys@.len() == items@.len(),
        texts(keys@) == lowercase_all(texts(items@)),
{
    let mut keys: Vec<String> = Vec::new();
    let mut i: usize = 0;
    assert(texts(keys@) =~= lowercase_all(texts(items@)).take(0));
    while i < items.len()
        invariant
            i <= items@.len(),
            texts(keys@) == lowercase_all(texts(items@)).take(i as int),
        decreases items@.len() - i,
    {
        let ghost earlier = keys@;
        keys.push(to_lowercase(items[i].as_str()));
        proof {
            assert(texts(keys@) =~= texts(earlier).push(lowercase(items@[i as int]@)));
            assert(texts(keys@) =~= lowercase_all(texts(items@)).take(i + 1));
        }
        i += 1;
    }
    assert(texts(keys@) =~= lowercase_all(texts(items@)));
    assert(keys@.len() == texts(keys@).len());
    keys
}

/// The tags that a filter uses: trimmed, not blank, and only the first of those that differ in
/// case alone.
pub fn normalize_tags(tags: Vec<String>) -> (out: Vec<String>)
    ensures
        texts(out@) == normalized_tags(texts(tags@)),
{
    let ghost clean = texts(tags@).map_values(|tag: Seq<char>| trimmed(tag));
    let ghost visible = |tag: Seq<char>| tag.len() > 0;
    let mut shown: Vec<String> = Vec::new();
    let mut i: usize = 0;
    proof {
        reveal(Seq::filter);
        assert(texts(shown@) =~= clean.take(0).filter(visible));
    }
    while i < tags.len()
        invariant
            i <= tags@.len(),
            clean == texts(tags@).map_values(|tag: Seq<char>| trimmed(tag)),
            visible == (|tag: Seq<char>| tag.len() > 0),
            texts(shown@) == clean.take(i as int).filter(visible),
        decreases tags@.len() - i,
    {
        let tag = trim(tags[i].as_str());
        proof {
            lemma_filter_next(clean, visible, i as int);
            assert(clean[i as int] == tag@);
        }
        let ghost earlier = shown@;
        let ghost text = tag@;
        if !tag.as_str().is_empty() {
            shown.push(tag);
            assert(texts(shown@) =~= texts(earlier).push(text));
        }
        i += 1;
    }
    assert(clean.take(i as int) =~= clean);
    let keys = lowercase_strings(&shown);
    keep_first_per_key(&shown, &keys)
}

/// The position of the first tag that is `name` but for the case of ASCII letters.
pub open spec fn selected_position(tags: Seq<Seq<char>>, name: Seq<char>) -> Option<int>
    decreases tags.len(),
{
    if tags.len() == 0 {
        None
    } else {
        match selected_position(tags.drop_last(), name) {
            Some(i) => Some(i),
            None => if ascii_matches(tags.last(), name) {
                Some(tags.len() - 1)
            } else {
                None
            },
        }
    }
}

/// Whether toggling `name` leads from the tags `before` to the tags `after`: a selected tag goes,
/// another one joins and the tags are sorted without regard to case.
pub open spec fn toggled(
    before: Seq<Seq<char>>,
    name: Seq<char>,
    after: Seq<Seq<char>>,
) -> bool {
    match selected_position(before, name) {
        Some(i) => after == before.remove(i),
        None => stably_sorted(
            before.push(name),
            text_keys(lowercase_all(before.push(name))),
            after,
        ),
    }
}

/// The items in the order of their keys; items with the same key stay in the order in which they
/// stand.
pub fn sort_by_keys(items: &Vec<String>, keys: &Vec<String>) -> (sorted: Vec<String>)
    requires
        items@.len() == keys@.len(),
    ensures
        stably_sorted(texts(items@), text_keys(texts(keys@)), texts(sorted@)),
{
    let mut sort_keys: Vec<(usize, Vec<char>)> = Vec::new();
    let mut i: usize = 0;
    while i < keys.len()
        invariant
            i <= keys@.len(),
            sort_keys@.len() == i,
            forall|k: int|
                0 <= k < i ==> (#[trigger] sort_keys@[k]).0 == 0 && sort_keys@[k].1@ == keys@[k]@,
        decreases keys@.len() - i,
    {
        sort_keys.push((0, chars_of(keys[i].as_str())));
        i += 1;
    }
    let order = stable_order(&sort_keys);
    assert(key_views(sort_keys@) =~= text_keys(texts(keys@)));
    let mut sorted: Vec<String> = Vec::new();
    let mut i: usize = 0;
    assert(texts(sorted@) =~= arranged(texts(items@), positions(order@)).take(0));
    while i < order.len()
        invariant
            i <= order@.len(),
            items@.len() == keys@.len(),
            is_stable_order(positions(order@), text_keys(texts(keys@))),
            texts(sorted@) == arranged(texts(items@), positions(order@)).take(i as int),
        decreases order@.len() - i,
    {
        assert(0 <= positions(order@)[i as int] < items@.len());
        let ghost earlier = sorted@;
        sorted.push(items[order[i]].clone());
        proof {
            assert(texts(sorted@) =~= texts(earlier).push(items@[order@[i as int] as int]@));
            assert(texts(sorted@) =~= arranged(texts(items@), positions(order@)).take(i + 1));
        }
        i += 1;
    }
    assert(texts(sorted@) =~= arranged(texts(items@), positions(order@)));
    sorted
}

/// The position of the first tag that is `name` but for the case of ASCII letters.
pub fn find_tag(tags: &Vec<String>, name: &str) -> (position: Option<usize>)
    ensures
        match position {
            Some(i) => selected_position(texts(tags@), name@) == Some(i as int) && i < tags@.len(),
            None => selected_position(texts(tags@), name@) is None,
        },
{
    let mut i: usize = 0;
    while i < tags.len()
        invariant
            i <= tags@.len(),
            selected_position(texts(tags@).take(i as int), name@) is None,
        decreases tags@.len() - i,
    {
        assert(texts(tags@).take(i + 1).drop_last() =~= texts(tags@).take(i as int));
        if eq_ignore_ascii_case(tags[i].as_str(), name) {
            proof {
                assert(selected_position(texts(tags@).take(i + 1), name@) == Some(i as int));
                lemma_selected_position_prefix(texts(tags@), name@, i + 1);
            }
            return Some(i);
        }
        i += 1;
    }
    assert(texts(tags@).take(i as int) =~= texts(tags@));
    None
}

proof fn lemma_selected_position_prefix(tags: Seq<Seq<char>>, name: Seq<char>, n: int)
    requires
        0 <= n <= tags.len(),
        selected_position(tags.take(n), name) is Some,
    ensures
        selected_position(tags, name) == selected_position(tags.take(n), name),
    decreases tags.len() - n,
{
    if n < tags.len() {
        assert(tags.take(n + 1).drop_last() =~= tags.take(n));
        lemma_selected_position_prefix(tags, name, n + 1);
    } else {
        assert(tags.take(n) =~= tags);
    }
}

/// Switches a tag of the filter: a selected tag goes, another one joins and the tags are sorted
/// without regard to case.
pub fn toggle_tag(tags: &mut Vec<String>, tag_name: &str)
    ensures
        toggled(texts(old(tags)@), tag_name@, texts(final(tags)@)),
{
    let ghost before = texts(tags@);
    match find_tag(tags, tag_name) {
        Some(index) => {
            tags.remove(index);
            assert(texts(tags@) =~= before.remove(index as int));
        },
        None => {
            let mut joined = clone_strings(tags);
            let ghost earlier = joined@;
            joined.push(tag_name.to_owned());
            assert(texts(joined@) =~= texts(earlier).push(tag_name@));
            let keys = lowercase_strings(&joined);
            *tags = sort_by_keys(&joined, &keys);
        },
    }
}

/// What is kept has different keys, comes from the items, and represents every key.
proof fn lemma_first_per_key(items: Seq<Seq<char>>, keys: Seq<Seq<char>>)
    requires
        keys == lowercase_all(items),
    ensures
        lowercase_all(first_per_key(items, keys)).no_duplicates(),
        forall|tag: Seq<char>| #[trigger]
            first_per_key(items, keys).contains(tag) ==> items.contains(tag),
        forall|key: Seq<char>| #[trigger]
            lowercase_all(first_per_key(items, keys)).contains(key) <==> keys.contains(key),
    decreases items.len(),
{
    let kept = first_per_key(items, keys);
    if items.len() > 0 {
        let front = first_per_key(items.drop_last(), keys.drop_last());
        assert(keys.drop_last() =~= lowercase_all(items.drop_last()));
        lemma_first_per_key(items.drop_last(), keys.drop_last());
        assert(items =~= items.drop_last().push(items.last()));
        assert(keys =~= keys.drop_last().push(keys.last()));
        lemma_push_members(items.drop_last(), items.last());
        lemma_push_members(keys.drop_last(), keys.last());
        if !keys.drop_last().contains(keys.last()) {
            lemma_push_members(front, items.last());
            assert(lowercase_all(kept) =~= lowercase_all(front).push(keys.last()));
            lemma_push_members(lowercase_all(front), keys.last());
            assert(!lowercase_all(front).contains(keys.last()));
        }
    } else {
        assert(lowercase_all(kept) =~= seq![]);
        assert(keys =~= seq![]);
    }
}

/// The tags of a filter are trimmed and not blank, no two of them differ in case alone, and every
/// tag passed that is not blank is among them, whatever its case.
pub proof fn law_normalized_tags(tags: Seq<Seq<char>>)
    ensures
        forall|tag: Seq<char>| #[trigger]
            normalized_tags(tags).contains(tag) ==> tag.len() > 0 && trimmed(tag) == tag,
        lowercase_all(normalized_tags(tags)).no_duplicates(),
        forall|i: int|
            0 <= i < tags.len() && trimmed(#[trigger] tags[i]).len() > 0 ==> lowercase_all(
                normalized_tags(tags),
            ).contains(lowercase(trimmed(tags[i]))),
{
    let clean = tags.map_values(|tag: Seq<char>| trimmed(tag));
    let visible = |tag: Seq<char>| tag.len() > 0;
    let shown = shown_tags(tags);
    lemma_filter(clean, visible);
    lemma_first_per_key(shown, lowercase_all(shown));
    assert forall|tag: Seq<char>| #[trigger] normalized_tags(tags).contains(tag) implies tag.len()
        > 0 && trimmed(tag) == tag by {
        assert(shown.contains(tag));
        assert(clean.contains(tag) && visible(tag));
        let i = choose|i: int| 0 <= i < clean.len() && clean[i] == tag;
        law_trimmed(tags[i]);
    }
    assert forall|i: int|
        0 <= i < tags.len() && trimmed(#[trigger] tags[i]).len() > 0 implies lowercase_all(
        normalized_tags(tags),
    ).contains(lowercase(trimmed(tags[i]))) by {
        assert(clean[i] == trimmed(tags[i]));
        assert(clean.contains(clean[i]));
        assert(shown.contains(clean[i]));
        let k = choose|k: int| 0 <= k < shown.len() && shown[k] == clean[i];
        assert(lowercase_all(shown)[k] == lowercase(clean[i]));
    }
}

/// Items with different keys are all kept.
proof fn lemma_all_kept(items: Seq<Seq<char>>, keys: Seq<Seq<char>>)
    requires
        items.len() == keys.len(),
        keys.no_duplicates(),
    ensures
        first_per_key(items, keys) == items,
    decreases items.len(),
{
    if items.len() > 0 {
        assert(keys.drop_last().no_duplicates());
        lemma_all_kept(items.drop_last(), keys.drop_last());
        if keys.drop_last().contains(keys.last()) {
            let i = choose|i: int|
                0 <= i < keys.drop_last().len() && keys.drop_last()[i] == keys.last();
            assert(keys[i] == keys[keys.len() - 1]);
        }
        assert(items =~= items.drop_last().push(items.last()));
    } else {
        assert(items =~= seq![]);
    }
}

/// Normalizing tags again changes nothing.
pub proof fn law_normalize_idempotent(tags: Seq<Seq<char>>)
    ensures
        normalized_tags(normalized_tags(tags)) == normalized_tags(tags),
{
    let once = normalized_tags(tags);
    law_normalized_tags(tags);
    let clean = once.map_values(|tag: Seq<char>| trimmed(tag));
    assert forall|i: int| 0 <= i < once.len() implies once[i].len() > 0 && trimmed(
        #[trigger] once[i],
    ) == once[i] by {
        assert(once.contains(once[i]));
    }
    assert(clean =~= once);
    lemma_filter_all(once, |tag: Seq<char>| tag.len() > 0);
    assert(shown_tags(once) == once);
    lemma_all_kept(once, lowercase_all(once));
}

/// Where the first match lies, and what no match means.
pub proof fn lemma_selected_position(tags: Seq<Seq<char>>, name: Seq<char>)
    ensures
        match selected_position(tags, name) {
            Some(i) => 0 <= i < tags.len() && ascii_matches(tags[i], name) && forall|k: int|
                0 <= k < i ==> !ascii_matches(#[trigger] tags[k], name),
            None => forall|k: int|
                0 <= k < tags.len() ==> !ascii_matches(#[trigger] tags[k], name),
        },
    decreases tags.len(),
{
    if tags.len() > 0 {
        let front = tags.drop_last();
        lemma_selected_position(front, name);
        assert forall|k: int| 0 <= k < front.len() implies front[k] == #[trigger] tags[k] by {}
    }
}

/// Switching on a tag and off again leaves the other tags, sorted without regard to case.
pub proof fn law_toggle_twice(
    before: Seq<Seq<char>>,
    name: Seq<char>,
    between: Seq<Seq<char>>,
    after: Seq<Seq<char>>,
)
    requires
        selected_position(before, name) is None,
        toggled(before, name, between),
        toggled(between, name, after),
    ensures
        stably_sorted(before, text_keys(lowercase_all(before)), after),
{
    let joined = before.push(name);
    let joined_keys = text_keys(lowercase_all(joined));
    let keys = text_keys(lowercase_all(before));
    let n = before.len() as int;
    let order = choose|order: Seq<int>| #[trigger]
        is_stable_order(order, joined_keys) && between == arranged(joined, order);
    assert(order.contains(n));
    let place = choose|k: int| 0 <= k < order.len() && order[k] == n;
    assert forall|i: int, j: int| 0 <= i < j < order.len() implies order[i] != order[j] by {
        lemma_item_before_total(joined_keys, order[i], order[i]);
        assert(item_before(joined_keys, order[i], order[j]));
    }
    lemma_selected_position(before, name);
    lemma_selected_position(between, name);
    assert(ascii_matches(between[place], name));
    assert forall|k: int| 0 <= k < between.len() && k != place implies !ascii_matches(
        #[trigger] between[k],
        name,
    ) by {
        assert(order[k] != n);
        assert(between[k] == before[order[k]]);
    }
    assert(selected_position(between, name) == Some(place));
    let rest = order.remove(place);
    assert forall|i: int| 0 <= i < rest.len() implies 0 <= #[trigger] rest[i] < n by {
        if i < place {
            assert(rest[i] == order[i]);
        } else {
            assert(rest[i] == order[i + 1]);
        }
    }
    assert forall|k: int| 0 <= k < n implies #[trigger] rest.contains(k) by {
        assert(order.contains(k));
        let i = choose|i: int| 0 <= i < order.len() && order[i] == k;
        if i < place {
            assert(rest[i] == k);
        } else {
            assert(rest[i - 1] == k);
        }
    }
    assert forall|i: int, j: int| 0 <= i < j < rest.len() implies item_before(
        keys,
        #[trigger] rest[i],
        #[trigger] rest[j],
    ) by {
        let a = if i < place { i } else { i + 1 };
        let b = if j < place { j } else { j + 1 };
        assert(rest[i] == order[a] && rest[j] == order[b]);
        assert(item_before(joined_keys, order[a], order[b]));
        assert(keys[rest[i]] == joined_keys[rest[i]]);
        assert(keys[rest[j]] == joined_keys[rest[j]]);
    }
    assert(is_stable_order(rest, keys));
    assert(after =~= arranged(before, rest)) by {
        assert(after == between.remove(place));
    }
}

/// Whether no two tags are the same but for the case of ASCII letters.
pub open spec fn distinct_tags(tags: Seq<Seq<char>>) -> bool {
    forall|i: int, j: int|
        0 <= i < tags.len() && 0 <= j < tags.len() && i != j ==> !ascii_matches(
            #[trigger] tags[i],
            #[trigger] tags[j],
        )
}

/// Toggling switches the tag, keeps the other tags, and keeps the tags distinct.
pub proof fn law_toggle_switches(
    before: Seq<Seq<char>>,
    name: Seq<char>,
    after: Seq<Seq<char>>,
)
    requires
        distinct_tags(before),
        toggled(before, name, after),
    ensures
        selected_position(after, name) is None <==> selected_position(before, name) is Some,
        distinct_tags(after),
        forall|tag: Seq<char>|
            !ascii_matches(tag, name) ==> (#[trigger] after.contains(tag) <==> before.contains(tag)),
{
    lemma_selected_position(before, name);
    lemma_selected_position(after, name);
    match selected_position(before, name) {
        Some(place) => {
            assert forall|k: int| 0 <= k < after.len() implies #[trigger] after[k] == before[if k
                < place {
                k
            } else {
                k + 1
            }] by {}
            assert forall|k: int| 0 <= k < after.len() implies !ascii_matches(
                #[trigger] after[k],
                name,
            ) by {
                let i = if k < place { k } else { k + 1 };
                assert(!ascii_matches(before[i], before[place]));
            }
            assert forall|tag: Seq<char>| !ascii_matches(tag, name) implies (
            #[trigger] after.contains(tag) <==> before.contains(tag)) by {
                if before.contains(tag) {
                    let i = choose|i: int| 0 <= i < before.len() && before[i] == tag;
                    assert(after[if i < place { i } else { i - 1 }] == tag);
                }
                if after.contains(tag) {
                    let k = choose|k: int| 0 <= k < after.len() && after[k] == tag;
                    assert(before[if k < place { k } else { k + 1 }] == tag);
                }
            }
        },
        None => {
            let joined = before.push(name);
            let keys = text_keys(lowercase_all(joined));
            law_sorting_keeps_items(joined, keys, after);
            lemma_push_members(before, name);
            assert(joined.contains(name));
            assert(after.contains(name));
            let k = choose|k: int| 0 <= k < after.len() && after[k] == name;
            assert(ascii_matches(after[k], name));
            let order = choose|order: Seq<int>| #[trigger]
                is_stable_order(order, keys) && after == arranged(joined, order);
            assert forall|i: int, j: int|
                0 <= i < joined.len() && 0 <= j < joined.len() && i != j implies !ascii_matches(
                #[trigger] joined[i],
                #[trigger] joined[j],
            ) by {
                if i == before.len() {
                    assert(!ascii_matches(before[j], name));
                } else if j == before.len() {
                    assert(!ascii_matches(before[i], name));
                } else {
                    assert(!ascii_matches(before[i], before[j]));
                }
            }
            assert forall|i: int, j: int|
                0 <= i < after.len() && 0 <= j < after.len() && i != j implies !ascii_matches(
                #[trigger] after[i],
                #[trigger] after[j],
            ) by {
                lemma_item_before_total(keys, order[i], order[i]);
                if i < j {
                    assert(item_before(keys, order[i], order[j]));
                } else {
                    assert(item_before(keys, order[j], order[i]));
                }
                assert(!ascii_matches(joined[order[i]], joined[order[j]]));
            }
        },
    }
}

/// Tags are distinct exactly where they stay different once the ASCII capitals are turned into
/// small letters.
pub proof fn law_lowering_keeps_tags_distinct(tags: Seq<Seq<char>>)
    ensures
        distinct_tags(tags) <==> ascii_lowered_all(tags).no_duplicates(),
{
    let lowered = ascii_lowered_all(tags);
    assert forall|i: int, j: int| 0 <= i < tags.len() && 0 <= j < tags.len() implies (
    ascii_matches(#[trigger] tags[i], #[trigger] tags[j]) <==> lowered[i] == lowered[j]) by {
        law_ascii_lowering(tags[i], tags[j]);
    }
    if lowered.no_duplicates() {
        assert forall|i: int, j: int|
            0 <= i < tags.len() && 0 <= j < tags.len() && i != j implies !ascii_matches(
            #[trigger] tags[i],
            #[trigger] tags[j],
        ) by {
            assert(lowered[i] != lowered[j]);
        }
    }
    if distinct_tags(tags) {
        assert forall|i: int, j: int|
            0 <= i < lowered.len() && 0 <= j < lowered.len() && i != j implies lowered[i]
            != lowered[j] by {
            assert(!ascii_matches(tags[i], tags[j]));
        }
    }
}

/// Normalized tags are distinct, provided that texts which differ in the case of ASCII letters
/// alone have the same lowercase equivalent.
pub proof fn law_normalized_tags_are_distinct(tags: Seq<Seq<char>>)
    ensures
        (forall|a: Seq<char>, b: Seq<char>| #[trigger]
            ascii_matches(a, b) ==> lowercase(a) == lowercase(b)) ==> distinct_tags(
            normalized_tags(tags),
        ),
{
    let kept = normalized_tags(tags);
    law_normalized_tags(tags);
    if forall|a: Seq<char>, b: Seq<char>| #[trigger]
        ascii_matches(a, b) ==> lowercase(a) == lowercase(b) {
        assert forall|i: int, j: int|
            0 <= i < kept.len() && 0 <= j < kept.len() && i != j implies !ascii_matches(
            #[trigger] kept[i],
            #[trigger] kept[j],
        ) by {
            assert(lowercase_all(kept)[i] != lowercase_all(kept)[j]);
        }
    }
}

/// Whether tags are sorted without regard to case.
pub open spec fn sorted_tags(tags: Seq<Seq<char>>) -> bool {
    forall|i: int, j: int|
        0 <= i < j < tags.len() ==> !lex_lt(
            lowercase(#[trigger] tags[j]),
            lowercase(#[trigger] tags[i]),
        )
}

/// Switching on a tag sorts the tags, and switching it off again gives sorted tags back
/// unchanged.
pub proof fn law_toggle_back_restores_sorted_tags(
    before: Seq<Seq<char>>,
    name: Seq<char>,
    between: Seq<Seq<char>>,
    after: Seq<Seq<char>>,
)
    requires
        selected_position(before, name) is None,
        toggled(before, name, between),
        toggled(between, name, after),
    ensures
        sorted_tags(between),
        sorted_tags(before) ==> after == before,
{
    let joined = before.push(name);
    let joined_keys = text_keys(lowercase_all(joined));
    let joined_order = choose|order: Seq<int>| #[trigger]
        is_stable_order(order, joined_keys) && between == arranged(joined, order);
    assert forall|i: int, j: int| 0 <= i < j < between.len() implies !lex_lt(
        lowercase(#[trigger] between[j]),
        lowercase(#[trigger] between[i]),
    ) by {
        assert(item_before(joined_keys, joined_order[i], joined_order[j]));
        lemma_lex_lt_asymmetric(lowercase(between[i]), lowercase(between[j]));
    }
    law_toggle_twice(before, name, between, after);
    if sorted_tags(before) {
        let keys = text_keys(lowercase_all(before));
        let order = choose|order: Seq<int>| #[trigger]
            is_stable_order(order, keys) && after == arranged(before, order);
        let as_it_is = Seq::new(before.len(), |i: int| i);
        assert forall|k: int| 0 <= k < keys.len() implies #[trigger] as_it_is.contains(k) by {
            assert(as_it_is[k] == k);
        }
        assert forall|i: int, j: int| 0 <= i < j < as_it_is.len() implies item_before(
            keys,
            #[trigger] as_it_is[i],
            #[trigger] as_it_is[j],
        ) by {
            assert(!lex_lt(lowercase(before[j]), lowercase(before[i])));
        }
        law_stable_order_unique(order, as_it_is, keys);
        assert(after =~= before);
    }
}

/// Lists of texts are turned into lowercase one by one.
pub proof fn law_lowercase_all(items: Seq<Seq<char>>)
    ensures
        lowercase_all(items).len() == items.len(),
        forall|i: int|
            0 <= i < items.len() ==> #[trigger] lowercase_all(items)[i] == lowercase(items[i]),
{
}

/// Whether the tag passed at `i` is not blank and no earlier one that is not blank differs from
/// it in case alone.
pub open spec fn is_first_spelling(tags: Seq<Seq<char>>, i: int) -> bool {
    &&& trimmed(tags[i]).len() > 0
    &&& forall|j: int|
        0 <= j < i && trimmed(#[trigger] tags[j]).len() > 0 ==> lowercase(trimmed(tags[j]))
            != lowercase(trimmed(tags[i]))
}

/// The tags of a filter are the trimmed tags passed, in order: exactly those that are not blank
/// and spelled out for the first time.
pub proof fn law_first_spellings_are_kept(tags: Seq<Seq<char>>)
    ensures
        is_sublist(
            tags.map_values(|tag: Seq<char>| trimmed(tag)),
            normalized_tags(tags),
            |i: int| is_first_spelling(tags, i),
        ),
    decreases tags.len(),
{
    let trim_one = |tag: Seq<char>| trimmed(tag);
    let visible = |tag: Seq<char>| tag.len() > 0;
    let clean = tags.map_values(trim_one);
    let kept = |i: int| is_first_spelling(tags, i);
    let shown = shown_tags(tags);
    reveal(Seq::filter);
    if tags.len() == 0 {
        assert(shown =~= seq![]);
        lemma_sublist_empty(clean, normalized_tags(tags), kept);
    } else {
        let front = tags.drop_last();
        let n = front.len() as int;
        let narrow = |i: int| is_first_spelling(front, i);
        law_first_spellings_are_kept(front);
        assert(clean.drop_last() =~= front.map_values(trim_one));
        assert forall|i: int| 0 <= i < n implies #[trigger] narrow(i) == kept(i) by {
            assert forall|j: int| 0 <= j < n implies #[trigger] front[j] == tags[j] by {}
            assert(front[i] == tags[i]);
            if narrow(i) {
                assert forall|j: int| 0 <= j < i && trimmed(#[trigger] tags[j]).len() > 0 implies lowercase(
                trimmed(tags[j])) != lowercase(trimmed(tags[i])) by {
                    assert(front[j] == tags[j]);
                }
            }
            if kept(i) {
                assert forall|j: int| 0 <= j < i && trimmed(#[trigger] front[j]).len() > 0 implies lowercase(
                trimmed(front[j])) != lowercase(trimmed(front[i])) by {
                    assert(front[j] == tags[j]);
                }
            }
        }
        lemma_sublist_step(clean.drop_last(), normalized_tags(front), narrow, kept, clean.last());
        assert(clean.drop_last().push(clean.last()) =~= clean);
        let tag = clean.last();
        let earlier = shown_tags(front);
        lemma_filter(clean.drop_last(), visible);
        if tag.len() > 0 {
            assert(shown == earlier.push(tag));
            let keys = lowercase_all(shown);
            assert(shown.drop_last() =~= earlier);
            assert(keys.drop_last() =~= lowercase_all(earlier));
            assert(keys.last() == lowercase(tag));
            if lowercase_all(earlier).contains(lowercase(tag)) {
                let k = choose|k: int|
                    0 <= k < earlier.len() && lowercase_all(earlier)[k] == lowercase(tag);
                assert(earlier.contains(earlier[k]));
                assert(clean.drop_last().contains(earlier[k]));
                let j = choose|j: int|
                    0 <= j < clean.drop_last().len() && clean.drop_last()[j] == earlier[k];
                assert(trimmed(tags[j]) == earlier[k]);
                assert(!kept(n));
            } else {
                assert forall|j: int|
                    0 <= j < n && trimmed(#[trigger] tags[j]).len() > 0 implies lowercase(
                trimmed(tags[j])) != lowercase(trimmed(tags[n])) by {
                    assert(clean.drop_last()[j] == trimmed(tags[j]));
                    assert(clean.drop_last().contains(trimmed(tags[j])));
                    assert(earlier.contains(trimmed(tags[j])));
                    let k = choose|k: int|
                        0 <= k < earlier.len() && earlier[k] == trimmed(tags[j]);
                    assert(lowercase_all(earlier)[k] == lowercase(trimmed(tags[j])));
                    assert(lowercase_all(earlier).contains(lowercase(trimmed(tags[j]))));
                }
                assert(kept(n));
            }
        } else {
            assert(shown == earlier);
            assert(!kept(n));
        }
    }
}

/// Whether `after` holds the tags `joined`, each once, sorted without regard to case, where those
/// that tie stand in the order of `joined`; `order` tells where each comes from.
pub open spec fn sorted_from(
    joined: Seq<Seq<char>>,
    after: Seq<Seq<char>>,
    order: Seq<int>,
) -> bool {
    &&& after.len() == joined.len() == order.len()
    &&& order.no_duplicates()
    &&& forall|i: int|
        0 <= i < order.len() ==> 0 <= #[trigger] order[i] < joined.len() && after[i]
            == joined[order[i]]
    &&& forall|i: int, j: int|
        0 <= i < j < order.len() ==> {
            let (a, b) = (
                lowercase(joined[#[trigger] order[i]]),
                lowercase(joined[#[trigger] order[j]]),
            );
            lex_lt(a, b) || (a == b && order[i] < order[j])
        }
}

/// Toggling a tag that is selected takes out its first occurrence and nothing else; toggling any
/// other tag adds it and sorts.
pub proof fn law_toggle_takes_out_or_adds(
    before: Seq<Seq<char>>,
    name: Seq<char>,
    after: Seq<Seq<char>>,
)
    requires
        toggled(before, name, after),
    ensures
        forall|i: int|
            0 <= i < before.len() && ascii_matches(#[trigger] before[i], name) && (forall|j: int|
                0 <= j < i ==> !ascii_matches(#[trigger] before[j], name)) ==> after
                == before.take(i) + before.skip(i + 1),
        (forall|i: int| 0 <= i < before.len() ==> !ascii_matches(#[trigger] before[i], name))
            ==> exists|order: Seq<int>| sorted_from(before.push(name), after, order),
{
    lemma_selected_position(before, name);
    match selected_position(before, name) {
        Some(place) => {
            assert(before.remove(place) =~= before.take(place) + before.skip(place + 1));
            assert forall|i: int|
                0 <= i < before.len() && ascii_matches(#[trigger] before[i], name) && (forall|j: int|
                    0 <= j < i ==> !ascii_matches(#[trigger] before[j], name)) implies after
                == before.take(i) + before.skip(i + 1) by {
                if i < place {
                    assert(!ascii_matches(before[i], name));
                } else if i > place {
                    assert(!ascii_matches(before[place], name));
                }
            }
        },
        None => {
            let joined = before.push(name);
            let keys = text_keys(lowercase_all(joined));
            law_sorted_items_stand_in_order(joined, keys, after);
            let order = choose|order: Seq<int>|
                #![trigger is_stable_order(order, keys)]
                is_stable_order(order, keys) && after.len() == order.len() && forall|i: int|
                    0 <= i < order.len() ==> #[trigger] after[i] == joined[order[i]];
            law_stable_order_by_keys(order, keys);
            assert forall|i: int, j: int| 0 <= i < j < order.len() implies {
                let (a, b) = (
                    lowercase(joined[#[trigger] order[i]]),
                    lowercase(joined[#[trigger] order[j]]),
                );
                lex_lt(a, b) || (a == b && order[i] < order[j])
            } by {
                assert(keys[order[i]].1 == lowercase(joined[order[i]]));
                assert(keys[order[j]].1 == lowercase(joined[order[j]]));
            }
            assert(sorted_from(joined, after, order));
        },
    }
}

} // verus!
