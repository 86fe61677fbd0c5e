//! Fuzzy search among tags.
use vstd::prelude::*;

use crate::order::stable_order;
#[allow(unused_imports)]
use crate::order::{
    arranged, is_stable_order, item_before, key_views, law_sorting_keeps_items,
    law_stable_order_by_keys, positions, stably_sorted,
};
#[allow(unused_imports)]
use crate::seqs::{is_subsequence, lemma_push_members, stands_at, total};
use crate::text::{byte_offsets, chars_of, to_lowercase, trim};
#[allow(unused_imports)]
use crate::text::{
    byte_len, byte_offset, lemma_byte_offset, lemma_lex_lt_asymmetric, lex_lt, lowercase, texts,
    trimmed,
};

verus! {

/// The most tags that a search lists.
pub const MAX_TAG_MATCHES: usize = 200;

/// A tag that a search found; the lower the score, the better the match.
#[derive(Debug)]
pub struct TagMatch {
    pub name: String,
    pub score: usize,
}

impl View for TagMatch {
    type V = (Seq<char>, usize);

    open spec fn view(&self) -> (Seq<char>, usize) {
        (self.name@, self.score)
    }
}

/// The tags found, with their scores.
pub open spec fn match_views(matches: Seq<TagMatch>) -> Seq<(Seq<char>, usize)> {
    matches.map_values(|found: TagMatch| found@)
}

/// A score that is too large to be represented.
#[derive(Debug, Clone, Copy, PartialEq, Eq)]
pub struct ScoreOverflow;

/// Whether `query` stands in `candidate` at the character `i`.
pub open spec fn occurs_at(candidate: Seq<char>, query: Seq<char>, i: int) -> bool {
    &&& 0 <= i
    &&& i + query.len() <= candidate.len()
    &&& candidate.subrange(i, i + query.len()) == query
}

/// The first character from `from` on at which `query` stands in `candidate`.
pub open spec fn first_occurrence(
    candidate: Seq<char>,
    query: Seq<char>,
    from: int,
) -> Option<int>
    decreases candidate.len() - from + 1,
{
    if from + query.len() > candidate.len() {
        None
    } else if occurs_at(candidate, query, from) {
        Some(from)
    } else {
        first_occurrence(candidate, query, from + 1)
    }
}

/// The first place of the character `c` in `candidate` from `from` on.
pub open spec fn next_position(candidate: Seq<char>, c: char, from: int) -> Option<int>
    decreases candidate.len() - from,
{
    if from >= candidate.len() {
        None
    } else if candidate[from] == c {
        Some(from)
    } else {
        next_position(candidate, c, from + 1)
    }
}

/// The places at which the characters of `query` are found in `candidate`, each at the first
/// place after the one before; the search ends at the first character that is not found.
pub open spec fn found_positions(candidate: Seq<char>, query: Seq<char>) -> Seq<int>
    decreases query.len(),
{
    if query.len() == 0 {
        seq![]
    } else {
        let front = found_positions(candidate, query.drop_last());
        if front.len() < query.len() - 1 {
            front
        } else {
            let from = if front.len() == 0 {
                0
            } else {
                front.last() + 1
            };
            match next_position(candidate, query.last(), from) {
                Some(i) => front.push(i),
                None => front,
            }
        }
    }
}

/// The cost of matched characters: the byte at which each stands, and the bytes between it and
/// the one before.
pub open spec fn match_cost(candidate: Seq<char>, found: Seq<int>) -> int
    decreases found.len(),
{
    if found.len() == 0 {
        0
    } else {
        let at = byte_offset(candidate, found.last()) as int;
        let gap = if found.len() == 1 {
            0
        } else {
            at - byte_offset(candidate, found[found.len() - 2]) - 1
        };
        match_cost(candidate, found.drop_last()) + at + gap
    }
}

/// The score of a lowercase candidate for a lowercase query: where the query stands in the
/// candidate, the byte at which it first does; where only its characters stand there one after
/// the other, their cost and the length of the candidate.
pub open spec fn lowered_score(candidate: Seq<char>, query: Seq<char>) -> Option<int> {
    match first_occurrence(candidate, query, 0) {
        Some(i) => Some(byte_offset(candidate, i) as int),
        None => {
            let found = found_positions(candidate, query);
            if found.len() == query.len() {
                Some(match_cost(candidate, found) + byte_len(candidate))
            } else {
                None
            }
        },
    }
}

/// Whether all numbers that scoring comes upon can be represented.
pub open spec fn score_fits(candidate: Seq<char>, query: Seq<char>) -> bool {
    match first_occurrence(candidate, query, 0) {
        Some(i) => byte_offset(candidate, i) <= usize::MAX,
        None => {
            let found = found_positions(candidate, query);
            let total = match_cost(candidate, found) + if found.len() == query.len() {
                byte_len(candidate)
            } else {
                0
            };
            total <= usize::MAX
        },
    }
}

/// The score of a tag for a query: every tag matches the empty query.
pub open spec fn fuzzy(candidate: Seq<char>, query: Seq<char>) -> Option<int> {
    if query.len() == 0 {
        Some((usize::MAX / 2) as int)
    } else {
        lowered_score(lowercase(candidate), lowercase(query))
    }
}

/// Whether the score of a tag for a query can be computed.
pub open spec fn fuzzy_fits(candidate: Seq<char>, query: Seq<char>) -> bool {
    query.len() == 0 || score_fits(lowercase(candidate), lowercase(query))
}

/// Whether `result` is the score `score`.
pub open spec fn is_score(result: Option<usize>, score: Option<int>) -> bool {
    match result {
        Some(n) => score == Some(n as int),
        None => score is None,
    }
}

fn find_text(candidate: &Vec<char>, query: &Vec<char>) -> (at: Option<usize>)
    ensures
        is_score(at, first_occurrence(candidate@, query@, 0)),
        at matches Some(i) ==> i + query@.len() <= candidate@.len(),
{
    if query.len() > candidate.len() {
        return None;
    }
    let total = candidate.len();
    let last = total - query.len();
    let mut i: usize = 0;
    loop
        invariant
            i <= last == candidate@.len() - query@.len(),
            total == candidate@.len(),
            first_occurrence(candidate@, query@, 0) == first_occurrence(
                candidate@,
                query@,
                i as int,
            ),
        decreases last - i,
    {
        let mut k: usize = 0;
        while k < query.len() && candidate[i + k] == query[k]
            invariant
                i <= last == candidate@.len() - query@.len(),
                total == candidate@.len(),
                k <= query@.len(),
                forall|n: int| 0 <= n < k ==> candidate@[i + n] == #[trigger] query@[n],
            decreases query@.len() - k,
        {
            k += 1;
        }
        if k == query.len() {
            assert(candidate@.subrange(i as int, i + query@.len()) =~= query@);
            return Some(i);
        }
        assert(candidate@.subrange(i as int, i + query@.len())[k as int] != query@[k as int]);
        if i == last {
            assert(first_occurrence(candidate@, query@, i + 1) is None);
            return None;
        }
        i += 1;
    }
}

fn find_char(candidate: &Vec<char>, c: char, from: usize) -> (at: Option<usize>)
    ensures
        is_score(at, next_position(candidate@, c, from as int)),
        at matches Some(i) ==> from <= i < candidate@.len(),
{
    let mut i = from;
    while i < candidate.len()
        invariant
            from <= i,
            next_position(candidate@, c, from as int) == next_position(candidate@, c, i as int),
        decreases candidate@.len() - i,
    {
        if candidate[i] == c {
            return Some(i);
        }
        i += 1;
    }
    None
}

/// The places found lie in the candidate, each after the one before.
pub proof fn lemma_found_positions(candidate: Seq<char>, query: Seq<char>)
    ensures
        found_positions(candidate, query).len() <= query.len(),
        forall|k: int|
            0 <= k < found_positions(candidate, query).len() ==> 0 <= #[trigger] found_positions(
                candidate,
                query,
            )[k] < candidate.len() && candidate[found_positions(candidate, query)[k]] == query[k],
        forall|j: int, k: int|
            0 <= j < k < found_positions(candidate, query).len() ==> #[trigger] found_positions(
                candidate,
                query,
            )[j] < #[trigger] found_positions(candidate, query)[k],
    decreases query.len(),
{
    if query.len() > 0 {
        let front = found_positions(candidate, query.drop_last());
        lemma_found_positions(candidate, query.drop_last());
        if front.len() == query.len() - 1 {
            let from = if front.len() == 0 {
                0
            } else {
                front.last() + 1
            };
            lemma_next_position(candidate, query.last(), from);
        }
    }
}

/// The next place of a character is the first one.
pub proof fn lemma_next_position(candidate: Seq<char>, c: char, from: int)
    requires
        0 <= from,
    ensures
        match next_position(candidate, c, from) {
            Some(i) => from <= i < candidate.len() && candidate[i] == c && forall|k: int|
                from <= k < i ==> #[trigger] candidate[k] != c,
            None => forall|k: int| from <= k < candidate.len() ==> #[trigger] candidate[k] != c,
        },
    decreases candidate.len() - from,
{
    if from < candidate.len() && candidate[from] != c {
        lemma_next_position(candidate, c, from + 1);
    }
}

/// Each character found adds to the cost, never less than nothing.
proof fn lemma_match_cost_step(candidate: Seq<char>, found: Seq<int>)
    requires
        found.len() > 0,
        forall|k: int| 0 <= k < found.len() ==> 0 <= #[trigger] found[k] < candidate.len(),
        forall|j: int, k: int|
            0 <= j < k < found.len() ==> #[trigger] found[j] < #[trigger] found[k],
    ensures
        match_cost(candidate, found.drop_last()) <= match_cost(candidate, found),
        found.len() > 1 ==> byte_offset(candidate, found[found.len() - 2]) + 1 <= byte_offset(
            candidate,
            found.last(),
        ),
        byte_offset(candidate, found.last()) <= byte_len(candidate),
{
    lemma_byte_offset(candidate, found.last(), found.last());
    if found.len() > 1 {
        lemma_byte_offset(candidate, found[found.len() - 2], found.last());
    }
}

/// Where the search ends early, further characters of the query change nothing.
proof fn lemma_search_ended(candidate: Seq<char>, query: Seq<char>, n: int)
    requires
        0 <= n <= query.len(),
        found_positions(candidate, query.take(n)).len() < n,
    ensures
        found_positions(candidate, query) == found_positions(candidate, query.take(n)),
    decreases query.len() - n,
{
    if n < query.len() {
        assert(query.take(n + 1).drop_last() =~= query.take(n));
        lemma_search_ended(candidate, query, n + 1);
    } else {
        assert(query.take(n) =~= query);
    }
}

/// What has been found of the first characters of the query costs at most what all costs.
proof fn lemma_cost_grows(candidate: Seq<char>, query: Seq<char>, n: int)
    requires
        0 <= n <= query.len(),
    ensures
        match_cost(candidate, found_positions(candidate, query.take(n))) <= match_cost(
            candidate,
            found_positions(candidate, query),
        ),
    decreases query.len() - n,
{
    if n < query.len() {
        assert(query.take(n + 1).drop_last() =~= query.take(n));
        let longer = found_positions(candidate, query.take(n + 1));
        let shorter = found_positions(candidate, query.take(n));
        lemma_found_positions(candidate, query.take(n + 1));
        lemma_found_positions(candidate, query.take(n));
        if longer.len() > shorter.len() {
            lemma_match_cost_step(candidate, longer);
            assert(longer.drop_last() =~= shorter);
        }
        lemma_cost_grows(candidate, query, n + 1);
    } else {
        assert(query.take(n) =~= query);
    }
}

/// The score of a lowercase candidate for a lowercase query, unless it is too large.
pub fn score_lowered(
    candidate: &str,
    query: &str,
) -> (result: Result<Option<usize>, ScoreOverflow>)
    ensures
        match result {
            Ok(score) => score_fits(candidate@, query@) && is_score(
                score,
                lowered_score(candidate@, query@),
            ),
            Err(_) => !score_fits(candidate@, query@),
        },
{
    let text = chars_of(candidate);
    let pattern = chars_of(query);
    let offsets = byte_offsets(candidate);
    if let Some(at) = find_text(&text, &pattern) {
        return Ok(Some(offsets[at]));
    }
    let length = text.len();
    let mut cost: usize = 0;
    let mut from: usize = 0;
    let mut last: Option<usize> = None;
    let mut n: usize = 0;
    assert(found_positions(text@, pattern@.take(0)) =~= seq![]);
    while n < pattern.len()
        invariant
            n <= pattern@.len(),
            text@ == candidate@,
            pattern@ == query@,
            length == text@.len(),
            offsets@.len() == text@.len() + 1,
            forall|i: int| 0 <= i <= text@.len() ==> #[trigger] offsets@[i] == byte_offset(text@, i),
            first_occurrence(text@, pattern@, 0) is None,
            from <= text@.len(),
            ({
                let found = found_positions(text@, pattern@.take(n as int));
                &&& found.len() == n
                &&& cost == match_cost(text@, found)
                &&& from == if n == 0 {
                    0
                } else {
                    found.last() + 1
                }
                &&& match last {
                    Some(at) => n > 0 && at == byte_offset(text@, found.last()),
                    None => n == 0,
                }
            }),
        decreases pattern@.len() - n,
    {
        let ghost found = found_positions(text@, pattern@.take(n as int));
        let ghost longer = found_positions(text@, pattern@.take(n + 1));
        proof {
            assert(pattern@.take(n + 1).drop_last() =~= pattern@.take(n as int));
            assert(pattern@.take(n + 1).last() == pattern@[n as int]);
        }
        match find_char(&text, pattern[n], from) {
            None => {
                proof {
                    lemma_search_ended(text@, pattern@, n + 1);
                }
                return Ok(None);
            },
            Some(i) => {
                proof {
                    assert(longer == found.push(i as int));
                    assert(longer.drop_last() =~= found);
                    lemma_found_positions(text@, pattern@.take(n + 1));
                    lemma_match_cost_step(text@, longer);
                    lemma_cost_grows(text@, pattern@, n + 1);
                    if n > 0 {
                        assert(longer[longer.len() - 2] == found.last());
                    }
                }
                let at = offsets[i];
                let gap = match last {
                    Some(before) => at - before - 1,
                    None => 0,
                };
                assert(match_cost(text@, longer) == cost + at + gap);
                let with_offset = match cost.checked_add(at) {
                    Some(sum) => sum,
                    None => {
                        return Err(ScoreOverflow);
                    },
                };
                cost = match with_offset.checked_add(gap) {
                    Some(sum) => sum,
                    None => {
                        return Err(ScoreOverflow);
                    },
                };
                last = Some(at);
                from = i + 1;
            },
        }
        n += 1;
    }
    assert(pattern@.take(n as int) =~= pattern@);
    let total = offsets[length];
    assert(text@.take(text@.len() as int) =~= text@);
    match cost.checked_add(total) {
        Some(score) => Ok(Some(score)),
        None => Err(ScoreOverflow),
    }
}

/// Whether the score of a tag for a query can be computed.
pub fn score_in_range(candidate: &str, query: &str) -> (fits: bool)
    ensures
        fits == fuzzy_fits(candidate@, query@),
{
    if query.is_empty() {
        return true;
    }
    let candidate_lower = to_lowercase(candidate);
    let query_lower = to_lowercase(query);
    score_lowered(candidate_lower.as_str(), query_lower.as_str()).is_ok()
}

/// The score of a tag for a query, the lower the better; none where the tag does not match.
pub fn fuzzy_score(candidate: &str, query: &str) -> (score: Option<usize>)
    requires
        fuzzy_fits(candidate@, query@),
    ensures
        is_score(score, fuzzy(candidate@, query@)),
{
    if query.is_empty() {
        return Some(usize::MAX / 2);
    }
    let candidate_lower = to_lowercase(candidate);
    let query_lower = to_lowercase(query);
    match score_lowered(candidate_lower.as_str(), query_lower.as_str()) {
        Ok(score) => score,
        Err(_) => None,
    }
}

/// The score of a tag for a query, unless it is too large to be represented.
pub fn checked_fuzzy_score(
    candidate: &str,
    query: &str,
) -> (result: Result<Option<usize>, ScoreOverflow>)
    ensures
        match result {
            Ok(score) => fuzzy_fits(candidate@, query@) && is_score(
                score,
                fuzzy(candidate@, query@),
            ),
            Err(_) => !fuzzy_fits(candidate@, query@),
        },
{
    if score_in_range(candidate, query) {
        Ok(fuzzy_score(candidate, query))
    } else {
        Err(ScoreOverflow)
    }
}

/// The tags that match a query, with their scores, in the order of the tags.
pub open spec fn scored(names: Seq<Seq<char>>, query: Seq<char>) -> Seq<(Seq<char>, usize)>
    decreases names.len(),
{
    if names.len() == 0 {
        seq![]
    } else {
        let front = scored(names.drop_last(), query);
        match fuzzy(names.last(), query) {
            Some(score) => front.push((names.last(), score as usize)),
            None => front,
        }
    }
}

/// Whether `listed` is the head of `found`, sorted by score and then by `lowered`, the lowercase
/// names.
pub open spec fn ranked(
    found: Seq<(Seq<char>, usize)>,
    lowered: Seq<Seq<char>>,
    listed: Seq<(Seq<char>, usize)>,
) -> bool {
    exists|sorted: Seq<(Seq<char>, usize)>| #[trigger]
        stably_sorted(found, rank_keys(found, lowered), sorted) && listed == sorted.take(
            if sorted.len() <= MAX_TAG_MATCHES {
                sorted.len() as int
            } else {
                MAX_TAG_MATCHES as int
            },
        )
}

/// The keys by which the tags found are sorted.
pub open spec fn rank_keys(
    found: Seq<(Seq<char>, usize)>,
    lowered: Seq<Seq<char>>,
) -> Seq<(usize, Seq<char>)> {
    Seq::new(found.len(), |i: int| (found[i].1, lowered[i]))
}

/// The lowercase names of the tags found.
pub open spec fn lowered_names(found: Seq<(Seq<char>, usize)>) -> Seq<Seq<char>> {
    found.map_values(|m: (Seq<char>, usize)| lowercase(m.0))
}

/// The best of the tags found: sorted by score and then by `lowered`, their lowercase names.
pub fn rank_matches(found: &Vec<TagMatch>, lowered: &Vec<String>) -> (listed: Vec<TagMatch>)
    requires
        found@.len() == lowered@.len(),
    ensures
        ranked(match_views(found@), texts(lowered@), match_views(listed@)),
{
    let ghost views = match_views(found@);
    let ghost all_keys = rank_keys(views, texts(lowered@));
    let mut keys: Vec<(usize, Vec<char>)> = Vec::new();
    let mut i: usize = 0;
    while i < found.len()
        invariant
            i <= found@.len() == lowered@.len(),
            keys@.len() == i,
            forall|k: int|
                0 <= k < i ==> (#[trigger] keys@[k]).0 == found@[k].score && keys@[k].1@
                    == lowered@[k]@,
        decreases found@.len() - i,
    {
        keys.push((found[i].score, chars_of(lowered[i].as_str())));
        i += 1;
    }
    let order = stable_order(&keys);
    assert(key_views(keys@) =~= all_keys);
    let ghost sorted = arranged(views, positions(order@));
    let count = if order.len() <= MAX_TAG_MATCHES {
        order.len()
    } else {
        MAX_TAG_MATCHES
    };
    let mut listed: Vec<TagMatch> = Vec::new();
    let mut i: usize = 0;
    assert(match_views(listed@) =~= sorted.take(0));
    while i < count
        invariant
            i <= count <= order@.len(),
            views == match_views(found@),
            all_keys.len() == found@.len(),
            is_stable_order(positions(order@), all_keys),
            sorted == arranged(views, positions(order@)),
            match_views(listed@) == sorted.take(i as int),
        decreases count - i,
    {
        assert(0 <= positions(order@)[i as int] < found@.len());
        let best = &found[order[i]];
        let ghost earlier = listed@;
        listed.push(TagMatch { name: best.name.clone(), score: best.score });
        proof {
            assert(match_views(listed@) =~= match_views(earlier).push(best@));
            assert(match_views(listed@) =~= sorted.take(i + 1));
        }
        i += 1;
    }
    assert(stably_sorted(views, all_keys, sorted));
    listed
}

/// The tags that match a query, best match first and by name among equals, at most
/// [`MAX_TAG_MATCHES`] of them.
pub fn fuzzy_tag_matches(tag_names: &[String], query: &str) -> (matches: Vec<TagMatch>)
    requires
        forall|i: int|
            0 <= i < tag_names@.len() ==> fuzzy_fits(
                (#[trigger] tag_names@[i])@,
                trimmed(query@),
            ),
    ensures
        ({
            let found = scored(texts(tag_names@), trimmed(query@));
            ranked(found, lowered_names(found), match_views(matches@))
        }),
{
    let query = trim(query);
    let ghost names = texts(tag_names@);
    let mut found: Vec<TagMatch> = Vec::new();
    let mut lowered: Vec<String> = Vec::new();
    let mut i: usize = 0;
    proof {
        assert(match_views(found@) =~= scored(names.take(0), query@));
        assert(texts(lowered@) =~= lowered_names(match_views(found@)));
    }
    while i < tag_names.len()
        invariant
            i <= tag_names@.len(),
            names == texts(tag_names@),
            forall|k: int|
                0 <= k < tag_names@.len() ==> fuzzy_fits((#[trigger] tag_names@[k])@, query@),
            match_views(found@) == scored(names.take(i as int), query@),
            texts(lowered@) == lowered_names(match_views(found@)),
        decreases tag_names@.len() - i,
    {
        let tag = &tag_names[i];
        proof {
            assert(names.take(i + 1).drop_last() =~= names.take(i as int));
            assert(names.take(i + 1).last() == tag@);
        }
        if let Some(score) = fuzzy_score(tag.as_str(), query.as_str()) {
            let ghost earlier = found@;
            let ghost earlier_lowered = lowered@;
            found.push(TagMatch { name: tag.clone(), score });
            lowered.push(to_lowercase(tag.as_str()));
            proof {
                assert(match_views(found@) =~= match_views(earlier).push((tag@, score)));
                assert(texts(lowered@) =~= texts(earlier_lowered).push(lowercase(tag@)));
                assert(lowered_names(match_views(found@)) =~= lowered_names(
                    match_views(earlier),
                ).push(lowercase(tag@)));
            }
        }
        i += 1;
    }
    proof {
        assert(names.take(i as int) =~= names);
        assert(found@.len() == match_views(found@).len());
        assert(lowered@.len() == texts(lowered@).len());
    }
    rank_matches(&found, &lowered)
}

/// The tags that match a query, as [`fuzzy_tag_matches`] lists them, unless a score is too large
/// to be represented.
pub fn checked_fuzzy_tag_matches(
    tag_names: &[String],
    query: &str,
) -> (result: Result<Vec<TagMatch>, ScoreOverflow>)
    ensures
        result is Ok <==> forall|i: int|
            0 <= i < tag_names@.len() ==> fuzzy_fits(
                (#[trigger] tag_names@[i])@,
                trimmed(query@),
            ),
        result matches Ok(matches) ==> {
            let found = scored(texts(tag_names@), trimmed(query@));
            ranked(found, lowered_names(found), match_views(matches@))
        },
{
    let clean = trim(query);
    let mut i: usize = 0;
    while i < tag_names.len()
        invariant
            i <= tag_names@.len(),
            clean@ == trimmed(query@),
            forall|k: int|
                0 <= k < i ==> fuzzy_fits((#[trigger] tag_names@[k])@, trimmed(query@)),
        decreases tag_names@.len() - i,
    {
        if !score_in_range(tag_names[i].as_str(), clean.as_str()) {
            return Err(ScoreOverflow);
        }
        i += 1;
    }
    Ok(fuzzy_tag_matches(tag_names, query))
}

/// The search finds the query wherever its characters stand in order, and finds each character
/// as early as can be.
proof fn lemma_search_complete(candidate: Seq<char>, query: Seq<char>, at: Seq<int>)
    requires
        stands_at(candidate, query, at),
    ensures
        found_positions(candidate, query).len() == query.len(),
        query.len() > 0 ==> found_positions(candidate, query).last() <= at.last(),
    decreases query.len(),
{
    if query.len() > 0 {
        let front = found_positions(candidate, query.drop_last());
        assert(stands_at(candidate, query.drop_last(), at.drop_last()));
        lemma_search_complete(candidate, query.drop_last(), at.drop_last());
        let from = if front.len() == 0 {
            0
        } else {
            front.last() + 1
        };
        lemma_found_positions(candidate, query.drop_last());
        if front.len() > 0 {
            assert(at.drop_last().last() == at[at.len() - 2]);
            assert(at[at.len() - 2] < at[at.len() - 1]);
        }
        lemma_next_position(candidate, query.last(), from);
        assert(candidate[at.last()] == query.last());
    }
}

proof fn lemma_first_occurrence(candidate: Seq<char>, query: Seq<char>, from: int)
    requires
        0 <= from,
    ensures
        first_occurrence(candidate, query, from) matches Some(i) ==> from <= i && occurs_at(
            candidate,
            query,
            i,
        ),
    decreases candidate.len() - from + 1,
{
    if from + query.len() <= candidate.len() && !occurs_at(candidate, query, from) {
        lemma_first_occurrence(candidate, query, from + 1);
    }
}

/// A text matches exactly where the characters of the query stand in it one after the other, and
/// no score is below that of a text that starts with the query.
pub proof fn law_match_is_subsequence(candidate: Seq<char>, query: Seq<char>)
    ensures
        lowered_score(candidate, query) is Some <==> is_subsequence(candidate, query),
        lowered_score(candidate, query) matches Some(score) ==> score >= 0,
        query.is_prefix_of(candidate) ==> lowered_score(candidate, query) == Some(0int),
{
    let found = found_positions(candidate, query);
    lemma_found_positions(candidate, query);
    match first_occurrence(candidate, query, 0) {
        Some(i) => {
            lemma_first_occurrence(candidate, query, 0);
            let at = Seq::new(query.len(), |k: int| i + k);
            assert forall|k: int| 0 <= k < at.len() implies 0 <= #[trigger] at[k]
                < candidate.len() && candidate[at[k]] == query[k] by {
                assert(candidate.subrange(i, i + query.len())[k] == query[k]);
            }
            assert(stands_at(candidate, query, at));
        },
        None => {
            if is_subsequence(candidate, query) {
                let at = choose|at: Seq<int>| stands_at(candidate, query, at);
                lemma_search_complete(candidate, query, at);
            }
            if found.len() == query.len() {
                assert(stands_at(candidate, query, found));
            }
            lemma_cost_grows(candidate, query, 0);
            assert(query.take(0) =~= seq![]);
        },
    }
    if query.is_prefix_of(candidate) {
        assert(candidate.subrange(0, query.len() as int) == query);
        assert(occurs_at(candidate, query, 0));
        assert(candidate.take(0) =~= seq![]);
    }
}

proof fn lemma_scored(names: Seq<Seq<char>>, query: Seq<char>)
    requires
        forall|i: int| 0 <= i < names.len() ==> fuzzy_fits(#[trigger] names[i], query),
    ensures
        forall|m: (Seq<char>, usize)| #[trigger]
            scored(names, query).contains(m) <==> names.contains(m.0) && fuzzy(m.0, query) == Some(
                m.1 as int,
            ),
    decreases names.len(),
{
    if names.len() > 0 {
        let front = scored(names.drop_last(), query);
        let name = names.last();
        assert forall|i: int| 0 <= i < names.drop_last().len() implies fuzzy_fits(
            #[trigger] names.drop_last()[i],
            query,
        ) by {
            assert(names.drop_last()[i] == names[i]);
        }
        lemma_scored(names.drop_last(), query);
        assert(names =~= names.drop_last().push(name));
        lemma_push_members(names.drop_last(), name);
        assert(fuzzy_fits(names[names.len() - 1], query));
        if let Some(score) = fuzzy(name, query) {
            law_match_is_subsequence(lowercase(name), lowercase(query));
            lemma_push_members(front, (name, score as usize));
        }
    }
}

/// The tags listed are tags that match, each with its score, best match first and by lowercase
/// name among equals; where no more than [`MAX_TAG_MATCHES`] tags match, all of them are listed.
pub proof fn law_listed_tags(
    names: Seq<Seq<char>>,
    query: Seq<char>,
    listed: Seq<(Seq<char>, usize)>,
)
    requires
        forall|i: int| 0 <= i < names.len() ==> fuzzy_fits(#[trigger] names[i], query),
        ranked(scored(names, query), lowered_names(scored(names, query)), listed),
    ensures
        listed.len() <= MAX_TAG_MATCHES,
        forall|i: int|
            0 <= i < listed.len() ==> names.contains((#[trigger] listed[i]).0) && fuzzy(
                listed[i].0,
                query,
            ) == Some(listed[i].1 as int),
        forall|i: int, j: int|
            0 <= i < j < listed.len() ==> {
                let (a, b) = (#[trigger] listed[i], #[trigger] listed[j]);
                a.1 < b.1 || (a.1 == b.1 && !lex_lt(lowercase(b.0), lowercase(a.0)))
            },
        scored(names, query).len() <= MAX_TAG_MATCHES ==> forall|i: int|
            0 <= i < names.len() && fuzzy(#[trigger] names[i], query) is Some
                ==> listed.contains((names[i], fuzzy(names[i], query)->0 as usize)),
{
    let found = scored(names, query);
    let keys = rank_keys(found, lowered_names(found));
    let sorted = choose|sorted: Seq<(Seq<char>, usize)>| #[trigger]
        stably_sorted(found, keys, sorted) && listed == sorted.take(
            if sorted.len() <= MAX_TAG_MATCHES {
                sorted.len() as int
            } else {
                MAX_TAG_MATCHES as int
            },
        );
    lemma_scored(names, query);
    law_sorting_keeps_items(found, keys, sorted);
    assert forall|i: int| 0 <= i < listed.len() implies names.contains((#[trigger] listed[i]).0)
        && fuzzy(listed[i].0, query) == Some(listed[i].1 as int) by {
        assert(sorted.contains(sorted[i]));
        assert(found.contains(listed[i]));
    }
    let order = choose|order: Seq<int>| #[trigger]
        is_stable_order(order, keys) && sorted == arranged(found, order);
    assert forall|i: int, j: int| 0 <= i < j < listed.len() implies {
        let (a, b) = (#[trigger] listed[i], #[trigger] listed[j]);
        a.1 < b.1 || (a.1 == b.1 && !lex_lt(lowercase(b.0), lowercase(a.0)))
    } by {
        assert(item_before(keys, order[i], order[j]));
        assert(listed[i] == found[order[i]] && listed[j] == found[order[j]]);
        lemma_lex_lt_asymmetric(lowercase(listed[i].0), lowercase(listed[j].0));
    }
    if found.len() <= MAX_TAG_MATCHES {
        assert(listed =~= sorted);
        assert forall|i: int|
            0 <= i < names.len() && fuzzy(#[trigger] names[i], query) is Some implies listed.contains(
        (names[i], fuzzy(names[i], query)->0 as usize)) by {
            law_match_is_subsequence(lowercase(names[i]), lowercase(query));
            assert(names.contains(names[i]));
            assert(found.contains((names[i], fuzzy(names[i], query)->0 as usize)));
        }
    }
}

/// The search finds each character no later than any other placement has it.
proof fn lemma_found_earliest(candidate: Seq<char>, query: Seq<char>, at: Seq<int>)
    requires
        stands_at(candidate, query, at),
    ensures
        found_positions(candidate, query).len() == query.len(),
        forall|k: int|
            0 <= k < query.len() ==> #[trigger] found_positions(candidate, query)[k] <= at[k],
    decreases query.len(),
{
    lemma_search_complete(candidate, query, at);
    if query.len() > 0 {
        assert(stands_at(candidate, query.drop_last(), at.drop_last()));
        lemma_found_earliest(candidate, query.drop_last(), at.drop_last());
        let found = found_positions(candidate, query);
        let front = found_positions(candidate, query.drop_last());
        assert forall|k: int| 0 <= k < query.len() implies #[trigger] found[k] <= at[k] by {
            if k < query.len() - 1 {
                assert(found[k] == front[k]);
                assert(front[k] <= at.drop_last()[k]);
            } else {
                assert(found[k] == found.last());
            }
        }
    }
}

/// The cost of characters without the gaps: the byte at which each but the first stands.
spec fn later_offsets(candidate: Seq<char>, at: Seq<int>) -> int
    decreases at.len(),
{
    if at.len() <= 1 {
        0
    } else {
        later_offsets(candidate, at.drop_last()) + byte_offset(candidate, at.last())
    }
}

/// The gaps add up to the way from the first character to the last, so that the first counts no
/// more.
proof fn lemma_match_cost_sum(candidate: Seq<char>, at: Seq<int>)
    requires
        at.len() > 0,
    ensures
        match_cost(candidate, at) == later_offsets(candidate, at) + byte_offset(
            candidate,
            at.last(),
        ) - (at.len() - 1),
    decreases at.len(),
{
    if at.len() > 1 {
        lemma_match_cost_sum(candidate, at.drop_last());
        assert(at.drop_last().last() == at[at.len() - 2]);
    } else {
        assert(match_cost(candidate, at.drop_last()) == 0);
    }
}

proof fn lemma_later_offsets(candidate: Seq<char>, a: Seq<int>, b: Seq<int>)
    requires
        a.len() == b.len(),
        forall|k: int|
            0 <= k < a.len() ==> 0 <= #[trigger] a[k] <= b[k] && b[k] < candidate.len(),
    ensures
        later_offsets(candidate, a) <= later_offsets(candidate, b),
    decreases a.len(),
{
    if a.len() > 1 {
        assert forall|k: int| 0 <= k < a.len() - 1 implies 0 <= #[trigger] a.drop_last()[k]
            <= b.drop_last()[k] && b.drop_last()[k] < candidate.len() by {
            assert(a.drop_last()[k] == a[k] && b.drop_last()[k] == b[k]);
        }
        lemma_later_offsets(candidate, a.drop_last(), b.drop_last());
        assert(a[a.len() - 1] <= b[a.len() - 1]);
        lemma_byte_offset(candidate, a.last(), b.last());
    }
}

/// No other placement of the query's characters scores lower.
pub proof fn law_no_placement_scores_lower(
    candidate: Seq<char>,
    query: Seq<char>,
    at: Seq<int>,
)
    requires
        stands_at(candidate, query, at),
    ensures
        lowered_score(candidate, query) matches Some(score) && score <= match_cost(candidate, at)
            + byte_len(candidate),
        match_cost(candidate, found_positions(candidate, query)) <= match_cost(candidate, at),
{
    let found = found_positions(candidate, query);
    lemma_found_earliest(candidate, query, at);
    lemma_found_positions(candidate, query);
    if query.len() > 0 {
        assert forall|k: int| 0 <= k < found.len() implies 0 <= #[trigger] found[k] <= at[k]
            && at[k] < candidate.len() by {}
        lemma_later_offsets(candidate, found, at);
        lemma_match_cost_sum(candidate, found);
        lemma_match_cost_sum(candidate, at);
        assert(found[found.len() - 1] <= at[found.len() - 1]);
        assert(at[at.len() - 1] < candidate.len());
        lemma_byte_offset(candidate, found.last(), at.last());
    }
    lemma_cost_grows(candidate, query, 0);
    assert(query.take(0) =~= seq![]);
    lemma_first_occurrence(candidate, query, 0);
    if let Some(i) = first_occurrence(candidate, query, 0) {
        lemma_byte_offset(candidate, i, i);
    }
}

/// Every tag matches the empty query. Any other query matches exactly the tags in whose lowercase
/// text its lowercase characters stand in order, and those that start with it best.
pub proof fn law_tag_matches_where_the_query_stands_in_it(candidate: Seq<char>, query: Seq<char>)
    ensures
        query.len() == 0 ==> fuzzy(candidate, query) == Some((usize::MAX / 2) as int),
        query.len() > 0 ==> (fuzzy(candidate, query) is Some <==> is_subsequence(
            lowercase(candidate),
            lowercase(query),
        )),
        query.len() > 0 && lowercase(query).is_prefix_of(lowercase(candidate)) ==> fuzzy(
            candidate,
            query,
        ) == Some(0int),
{
    law_match_is_subsequence(lowercase(candidate), lowercase(query));
}

proof fn lemma_least_occurrence(candidate: Seq<char>, query: Seq<char>, from: int)
    requires
        0 <= from,
    ensures
        match first_occurrence(candidate, query, from) {
            Some(i) => from <= i && occurs_at(candidate, query, i) && forall|j: int|
                from <= j < i ==> !#[trigger] occurs_at(candidate, query, j),
            None => forall|j: int| from <= j ==> !#[trigger] occurs_at(candidate, query, j),
        },
    decreases candidate.len() - from + 1,
{
    if from + query.len() <= candidate.len() && !occurs_at(candidate, query, from) {
        lemma_least_occurrence(candidate, query, from + 1);
    }
}

/// Where the lowercase query stands in the lowercase tag as a whole, the score is the byte at
/// which it first does.
pub proof fn law_score_of_a_whole_match(candidate: Seq<char>, query: Seq<char>, i: int)
    requires
        query.len() > 0,
        0 <= i,
        i + lowercase(query).len() <= lowercase(candidate).len(),
        lowercase(candidate).subrange(i, i + lowercase(query).len()) == lowercase(query),
        forall|j: int|
            0 <= j < i ==> #[trigger] lowercase(candidate).subrange(j, j + lowercase(query).len())
                != lowercase(query),
    ensures
        fuzzy(candidate, query) == Some(byte_offset(lowercase(candidate), i) as int),
{
    let (text, pattern) = (lowercase(candidate), lowercase(query));
    lemma_least_occurrence(text, pattern, 0);
    assert(occurs_at(text, pattern, i));
    match first_occurrence(text, pattern, 0) {
        Some(k) => {
            if k < i {
                assert(text.subrange(k, k + pattern.len()) != pattern);
            } else if k > i {
                assert(!occurs_at(text, pattern, i));
            }
        },
        None => {},
    }
}

/// The bytes at which characters stand.
pub open spec fn offsets_of(text: Seq<char>, at: Seq<int>) -> Seq<int> {
    Seq::new(at.len(), |k: int| byte_offset(text, at[k]) as int)
}

proof fn lemma_match_cost_total(text: Seq<char>, at: Seq<int>)
    requires
        at.len() > 0,
    ensures
        match_cost(text, at) == total(offsets_of(text, at)) + offsets_of(text, at).last()
            - offsets_of(text, at)[0] - (at.len() - 1),
    decreases at.len(),
{
    let offsets = offsets_of(text, at);
    assert(offsets.drop_last() =~= offsets_of(text, at.drop_last()));
    if at.len() > 1 {
        lemma_match_cost_total(text, at.drop_last());
        assert(at.drop_last().last() == at[at.len() - 2]);
    } else {
        assert(match_cost(text, at.drop_last()) == 0);
        assert(total(offsets.drop_last()) == 0);
    }
}

/// Where the lowercase query stands in the lowercase tag in pieces only, the score adds the bytes
/// at which its characters stand as early as can be, the bytes between them, and the length of the
/// tag.
pub proof fn law_score_of_a_match_in_pieces(candidate: Seq<char>, query: Seq<char>, at: Seq<int>)
    requires
        query.len() > 0,
        lowercase(query).len() > 0,
        forall|i: int|
            0 <= i <= lowercase(candidate).len() - lowercase(query).len() ==> #[trigger] lowercase(
                candidate,
            ).subrange(i, i + lowercase(query).len()) != lowercase(query),
        stands_at(lowercase(candidate), lowercase(query), at),
        forall|other: Seq<int>, k: int|
            #[trigger] stands_at(lowercase(candidate), lowercase(query), other) && 0 <= k
                < at.len() ==> #[trigger] at[k] <= other[k],
    ensures
        ({
            let offsets = offsets_of(lowercase(candidate), at);
            fuzzy(candidate, query) == Some(
                total(offsets) + (offsets.last() - offsets[0] - (offsets.len() - 1)) + byte_len(
                    lowercase(candidate),
                ),
            )
        }),
{
    let (text, pattern) = (lowercase(candidate), lowercase(query));
    lemma_least_occurrence(text, pattern, 0);
    if let Some(i) = first_occurrence(text, pattern, 0) {
        assert(text.subrange(i, i + pattern.len()) != pattern);
    }
    let found = found_positions(text, pattern);
    lemma_found_earliest(text, pattern, at);
    lemma_found_positions(text, pattern);
    assert(stands_at(text, pattern, found));
    assert forall|k: int| 0 <= k < at.len() implies at[k] == found[k] by {
        assert(at[k] <= found[k]);
    }
    assert(found =~= at);
    lemma_match_cost_total(text, at);
}

/// There is always a placement of a query that matches that has each character as early as can be.
pub proof fn law_an_earliest_placement_exists(candidate: Seq<char>, query: Seq<char>)
    requires
        is_subsequence(candidate, query),
    ensures
        exists|at: Seq<int>| #[trigger] stands_at(candidate, query, at) && forall|other: Seq<int>, k: int|
            #[trigger] stands_at(candidate, query, other) && 0 <= k < at.len() ==> #[trigger] at[k]
                <= other[k],
{
    let at = choose|at: Seq<int>| stands_at(candidate, query, at);
    let found = found_positions(candidate, query);
    lemma_found_earliest(candidate, query, at);
    lemma_found_positions(candidate, query);
    assert(stands_at(candidate, query, found));
    assert forall|other: Seq<int>, k: int|
        #[trigger] stands_at(candidate, query, other) && 0 <= k < found.len() implies #[trigger] found[k]
        <= other[k] by {
        lemma_found_earliest(candidate, query, other);
    }
}

proof fn lemma_cost_bound(text: Seq<char>, found: Seq<int>)
    requires
        forall|k: int| 0 <= k < found.len() ==> 0 <= #[trigger] found[k] < text.len(),
    ensures
        match_cost(text, found) <= 2 * found.len() * byte_len(text),
    decreases found.len(),
{
    if found.len() > 0 {
        let front = found.drop_last();
        assert forall|k: int| 0 <= k < front.len() implies 0 <= #[trigger] front[k]
            < text.len() by {
            assert(front[k] == found[k]);
        }
        lemma_cost_bound(text, front);
        assert(0 <= found[found.len() - 1] < text.len());
        lemma_byte_offset(text, found.last(), found.last());
        assert(2 * front.len() * byte_len(text) + 2 * byte_len(text) == 2 * found.len() * byte_len(
            text,
        )) by (nonlinear_arith)
            requires
                found.len() == front.len() + 1,
        ;
    } else {
        assert(2 * found.len() * byte_len(text) == 0) by (nonlinear_arith)
            requires
                found.len() == 0,
        ;
    }
}

/// Scores can be represented unless the tag and the query are immense.
pub proof fn law_ordinary_scores_can_be_represented(candidate: Seq<char>, query: Seq<char>)
    requires
        (2 * lowercase(query).len() + 1) * byte_len(lowercase(candidate)) <= usize::MAX,
    ensures
        fuzzy_fits(candidate, query),
{
    let (text, pattern) = (lowercase(candidate), lowercase(query));
    let n = pattern.len();
    let size = byte_len(text);
    let found = found_positions(text, pattern);
    lemma_found_positions(text, pattern);
    lemma_cost_bound(text, found);
    assert(2 * found.len() * size + size <= (2 * n + 1) * size) by (nonlinear_arith)
        requires
            found.len() <= n,
    ;
    assert(size <= (2 * n + 1) * size) by (nonlinear_arith);
    lemma_first_occurrence(text, pattern, 0);
    if let Some(i) = first_occurrence(text, pattern, 0) {
        lemma_byte_offset(text, i, i);
    }
}

/// Whether the tag at `i` matches a query.
pub open spec fn tag_matches(names: Seq<Seq<char>>, query: Seq<char>, i: int) -> bool {
    query.len() == 0 || is_subsequence(lowercase(names[i]), lowercase(query))
}

/// Whether a tag at `i` with the score `a` is listed before one at `j` with the score `b`: the
/// lower score first, then the lowercase name, then the order of the tags.
pub open spec fn listed_before(
    names: Seq<Seq<char>>,
    a: int,
    i: int,
    b: int,
    j: int,
) -> bool {
    ||| a < b
    ||| a == b && lex_lt(lowercase(names[i]), lowercase(names[j]))
    ||| a == b && lowercase(names[i]) == lowercase(names[j]) && i < j
}

/// Whether `listed` shows the tags at the places `at`, each once with its score, in order.
pub open spec fn shows_tags(
    names: Seq<Seq<char>>,
    query: Seq<char>,
    listed: Seq<(Seq<char>, usize)>,
    at: Seq<int>,
) -> bool {
    &&& at.len() == listed.len()
    &&& at.no_duplicates()
    &&& forall|k: int|
        0 <= k < at.len() ==> 0 <= #[trigger] at[k] < names.len() && listed[k].0 == names[at[k]]
            && tag_matches(names, query, at[k]) && fuzzy(names[at[k]], query) == Some(
            listed[k].1 as int,
        )
    &&& forall|k: int, m: int|
        0 <= k < m < at.len() ==> listed_before(
            names,
            listed[k].1 as int,
            #[trigger] at[k],
            listed[m].1 as int,
            #[trigger] at[m],
        )
}

/// Whether each tag that matches but is not shown would come behind a full list.
pub open spec fn leaves_out_the_worst(
    names: Seq<Seq<char>>,
    query: Seq<char>,
    listed: Seq<(Seq<char>, usize)>,
    at: Seq<int>,
) -> bool {
    forall|i: int|
        0 <= i < names.len() && #[trigger] tag_matches(names, query, i) && !at.contains(i)
            ==> listed.len() == MAX_TAG_MATCHES && forall|k: int|
            0 <= k < at.len() ==> listed_before(
                names,
                listed[k].1 as int,
                #[trigger] at[k],
                fuzzy(names[i], query)->0,
                i,
            )
}

proof fn lemma_scored_places(names: Seq<Seq<char>>, query: Seq<char>) -> (places: Seq<int>)
    requires
        forall|i: int| 0 <= i < names.len() ==> fuzzy_fits(#[trigger] names[i], query),
    ensures
        places.len() == scored(names, query).len(),
        forall|m: int|
            0 <= m < places.len() ==> 0 <= #[trigger] places[m] < names.len() && scored(
                names,
                query,
            )[m].0 == names[places[m]] && fuzzy(names[places[m]], query) == Some(
                scored(names, query)[m].1 as int,
            ),
        forall|m: int, n: int|
            0 <= m < n < places.len() ==> #[trigger] places[m] < #[trigger] places[n],
        forall|i: int|
            0 <= i < names.len() && fuzzy(#[trigger] names[i], query) is Some ==> places.contains(
                i,
            ),
    decreases names.len(),
{
    if names.len() == 0 {
        seq![]
    } else {
        let front = names.drop_last();
        let n = front.len() as int;
        assert forall|i: int| 0 <= i < front.len() implies fuzzy_fits(
            #[trigger] front[i],
            query,
        ) by {
            assert(front[i] == names[i]);
        }
        let earlier = lemma_scored_places(front, query);
        assert(fuzzy_fits(names[n], query));
        law_match_is_subsequence(lowercase(names.last()), lowercase(query));
        let places = if fuzzy(names.last(), query) is Some {
            earlier.push(n)
        } else {
            earlier
        };
        lemma_push_members(earlier, n);
        let all = scored(names, query);
        assert forall|m: int| 0 <= m < places.len() implies 0 <= #[trigger] places[m] < names.len()
            && all[m].0 == names[places[m]] && fuzzy(names[places[m]], query) == Some(
            all[m].1 as int,
        ) by {
            if m < earlier.len() {
                assert(places[m] == earlier[m]);
                assert(front[earlier[m]] == names[places[m]]);
                assert(all[m] == scored(front, query)[m]);
            }
        }
        assert forall|i: int|
            0 <= i < names.len() && fuzzy(#[trigger] names[i], query) is Some implies places.contains(
            i,
        ) by {
            if i < n {
                assert(front[i] == names[i]);
                assert(earlier.contains(i));
            }
        }
        places
    }
}

/// The tag list shows tags that match, each once with its score, best first; whatever else matches
/// would come behind the last place of a full list.
pub proof fn law_tag_list_shows_the_best_matches(
    names: Seq<Seq<char>>,
    query: Seq<char>,
    listed: Seq<(Seq<char>, usize)>,
)
    requires
        forall|i: int| 0 <= i < names.len() ==> fuzzy_fits(#[trigger] names[i], query),
        ranked(scored(names, query), lowered_names(scored(names, query)), listed),
    ensures
        listed.len() <= MAX_TAG_MATCHES,
        exists|at: Seq<int>|
            shows_tags(names, query, listed, at) && leaves_out_the_worst(names, query, listed, at),
{
    let found = scored(names, query);
    let keys = rank_keys(found, lowered_names(found));
    let places = lemma_scored_places(names, query);
    let sorted = choose|sorted: Seq<(Seq<char>, usize)>| #[trigger]
        stably_sorted(found, keys, sorted) && listed == sorted.take(
            if sorted.len() <= MAX_TAG_MATCHES {
                sorted.len() as int
            } else {
                MAX_TAG_MATCHES as int
            },
        );
    let order = choose|order: Seq<int>| #[trigger]
        is_stable_order(order, keys) && sorted == arranged(found, order);
    law_stable_order_by_keys(order, keys);
    let at = Seq::new(listed.len(), |k: int| places[order[k]]);
    assert forall|k: int| 0 <= k < at.len() implies 0 <= #[trigger] at[k] < names.len()
        && listed[k].0 == names[at[k]] && tag_matches(names, query, at[k]) && fuzzy(
        names[at[k]],
        query,
    ) == Some(listed[k].1 as int) by {
        assert(0 <= order[k] < keys.len());
        assert(listed[k] == found[order[k]]);
        assert(places[order[k]] == at[k]);
        law_tag_matches_where_the_query_stands_in_it(names[at[k]], query);
    }
    assert forall|k: int, m: int| 0 <= k < m < sorted.len() implies listed_before(
        names,
        sorted[k].1 as int,
        places[#[trigger] order[k]],
        sorted[m].1 as int,
        places[#[trigger] order[m]],
    ) by {
        let (i, j) = (order[k], order[m]);
        assert(sorted[k] == found[i] && sorted[m] == found[j]);
        assert(found[i].0 == names[places[i]] && found[j].0 == names[places[j]]);
        assert(keys[i] == (found[i].1, lowercase(found[i].0)));
        assert(keys[j] == (found[j].1, lowercase(found[j].0)));
    }
    assert forall|k: int, m: int| 0 <= k < m < at.len() implies listed_before(
        names,
        listed[k].1 as int,
        #[trigger] at[k],
        listed[m].1 as int,
        #[trigger] at[m],
    ) by {
        assert(listed[k] == sorted[k] && listed[m] == sorted[m]);
        assert(at[k] == places[order[k]] && at[m] == places[order[m]]);
    }
    assert forall|k: int, m: int|
        0 <= k < at.len() && 0 <= m < at.len() && k != m implies at[k] != at[m] by {
        assert(order[k] != order[m]);
        assert(at[k] == places[order[k]] && at[m] == places[order[m]]);
        if order[k] < order[m] {
            assert(places[order[k]] < places[order[m]]);
        } else {
            assert(places[order[m]] < places[order[k]]);
        }
    }
    assert(shows_tags(names, query, listed, at));
    assert forall|i: int|
        0 <= i < names.len() && #[trigger] tag_matches(names, query, i) && !at.contains(
            i,
        ) implies listed.len() == MAX_TAG_MATCHES && forall|k: int|
        0 <= k < at.len() ==> listed_before(
            names,
            listed[k].1 as int,
            #[trigger] at[k],
            fuzzy(names[i], query)->0,
            i,
        ) by {
        law_tag_matches_where_the_query_stands_in_it(names[i], query);
        assert(fuzzy(names[i], query) is Some);
        assert(places.contains(i));
        let m = choose|m: int| 0 <= m < places.len() && places[m] == i;
        assert(order.contains(m));
        let r = choose|r: int| 0 <= r < order.len() && order[r] == m;
        if r < at.len() {
            assert(at[r] == i);
        }
        assert forall|k: int| 0 <= k < at.len() implies listed_before(
            names,
            listed[k].1 as int,
            #[trigger] at[k],
            fuzzy(names[i], query)->0,
            i,
        ) by {
            assert(listed[k] == sorted[k]);
            assert(sorted[r] == found[m]);
            assert(listed_before(
                names,
                sorted[k].1 as int,
                places[order[k]],
                sorted[r].1 as int,
                places[order[r]],
            ));
        }
    }
    assert(leaves_out_the_worst(names, query, listed, at));
}

/// The tags found are read one by one.
pub proof fn law_match_views(matches: Seq<TagMatch>)
    ensures
        match_views(matches).len() == matches.len(),
        forall|k: int|
            0 <= k < matches.len() ==> (#[trigger] match_views(matches)[k]).0 == matches[k].name@
                && match_views(matches)[k].1 == matches[k].score,
{
}

/// A result stands for a score exactly where it is that number, or nothing for no score.
pub proof fn law_results_are_scores(result: Option<usize>, score: Option<int>)
    ensures
        is_score(result, score) <==> match (result, score) {
            (Some(n), Some(s)) => n == s,
            (None, None) => true,
            _ => false,
        },
{
}

/// Tags found sort by their scores and the texts given for them.
pub proof fn law_rank_keys(found: Seq<(Seq<char>, usize)>, lowered: Seq<Seq<char>>)
    ensures
        rank_keys(found, lowered).len() == found.len(),
        forall|i: int|
            0 <= i < found.len() ==> (#[trigger] rank_keys(found, lowered)[i]).0 == found[i].1
                && rank_keys(found, lowered)[i].1 == lowered[i],
        lowered_names(found).len() == found.len(),
        forall|i: int|
            0 <= i < found.len() ==> #[trigger] lowered_names(found)[i] == lowercase(found[i].0),
{
}

/// What is listed of the tags found is a stable sort by their keys, cut off behind the last place.
pub proof fn law_ranking_sorts_and_cuts(
    found: Seq<(Seq<char>, usize)>,
    lowered: Seq<Seq<char>>,
    listed: Seq<(Seq<char>, usize)>,
)
    requires
        ranked(found, lowered, listed),
    ensures
        exists|sorted: Seq<(Seq<char>, usize)>| #[trigger]
            stably_sorted(found, rank_keys(found, lowered), sorted) && listed.is_prefix_of(sorted)
                && (listed.len() == sorted.len() || listed.len() == MAX_TAG_MATCHES)
                && listed.len() <= MAX_TAG_MATCHES,
{
    let sorted = choose|sorted: Seq<(Seq<char>, usize)>| #[trigger]
        stably_sorted(found, rank_keys(found, lowered), sorted) && listed == sorted.take(
            if sorted.len() <= MAX_TAG_MATCHES {
                sorted.len() as int
            } else {
                MAX_TAG_MATCHES as int
            },
        );
    assert(listed =~= sorted.subrange(0, listed.len() as int));
}

} // verus!
