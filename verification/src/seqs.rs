//! Facts about sequences.
use vstd::prelude::*;

verus! {

/// Filtering keeps what fits, and keeps it distinct.
pub proof fn lemma_filter<A>(s: Seq<A>, pred: spec_fn(A) -> bool)
    ensures
        forall|x: A| #[trigger] s.filter(pred).contains(x) <==> s.contains(x) && pred(x),
        s.no_duplicates() ==> s.filter(pred).no_duplicates(),
    decreases s.len(),
{
    reveal(Seq::filter);
    if s.len() > 0 {
        let front = s.drop_last();
        lemma_filter(front, pred);
        assert(s =~= front.push(s.last()));
        lemma_push_members(front, s.last());
        lemma_push_members(front.filter(pred), s.last());
        if s.no_duplicates() {
            assert(front.no_duplicates());
            if front.contains(s.last()) {
                let i = choose|i: int| 0 <= i < front.len() && front[i] == s.last();
                assert(s[i] == s[s.len() - 1]);
            }
            assert(!front.filter(pred).contains(s.last()));
        }
    }
}

/// What a sequence with one more element holds.
pub proof fn lemma_push_members<A>(s: Seq<A>, x: A)
    ensures
        forall|y: A| #[trigger] s.push(x).contains(y) <==> s.contains(y) || y == x,
{
    assert forall|y: A| #[trigger] s.push(x).contains(y) <==> s.contains(y) || y == x by {
        if s.push(x).contains(y) {
            let i = choose|i: int| 0 <= i < s.push(x).len() && s.push(x)[i] == y;
            if i < s.len() {
                assert(s[i] == y);
            }
        }
        if s.contains(y) {
            let i = choose|i: int| 0 <= i < s.len() && s[i] == y;
            assert(s.push(x)[i] == y);
        }
        assert(s.push(x)[s.len() as int] == x);
    }
}

/// Filtering one more element.
pub proof fn lemma_filter_next<A>(s: Seq<A>, pred: spec_fn(A) -> bool, n: int)
    requires
        0 <= n < s.len(),
    ensures
        s.take(n + 1).filter(pred) == if pred(s[n]) {
            s.take(n).filter(pred).push(s[n])
        } else {
            s.take(n).filter(pred)
        },
{
    reveal(Seq::filter);
    assert(s.take(n + 1).drop_last() =~= s.take(n));
}

/// Joining two sequences that have nothing in common.
pub proof fn lemma_join_distinct<A>(first: Seq<A>, second: Seq<A>)
    requires
        first.no_duplicates(),
        second.no_duplicates(),
        forall|id: A| !(#[trigger] first.contains(id) && second.contains(id)),
    ensures
        (first + second).no_duplicates(),
        forall|id: A| #[trigger]
            (first + second).contains(id) <==> first.contains(id) || second.contains(id),
{
    let both = first + second;
    assert forall|id: A| #[trigger] both.contains(id) <==> first.contains(id)
        || second.contains(id) by {
        if both.contains(id) {
            let k = choose|k: int| 0 <= k < both.len() && both[k] == id;
            if k < first.len() {
                assert(first[k] == id);
            } else {
                assert(second[k - first.len()] == id);
            }
        }
        if first.contains(id) {
            let k = choose|k: int| 0 <= k < first.len() && first[k] == id;
            assert(both[k] == id);
        }
        if second.contains(id) {
            let k = choose|k: int| 0 <= k < second.len() && second[k] == id;
            assert(both[k + first.len()] == id);
        }
    }
    assert forall|i: int, j: int| 0 <= i < j < both.len() implies both[i] != both[j] by {
        if i < first.len() && j >= first.len() {
            assert(first.contains(both[i]));
            assert(second.contains(second[j - first.len()]));
        }
    }
}

/// Items that all fit are all kept by a filter.
pub proof fn lemma_filter_all<A>(items: Seq<A>, pred: spec_fn(A) -> bool)
    requires
        forall|i: int| 0 <= i < items.len() ==> pred(#[trigger] items[i]),
    ensures
        items.filter(pred) == items,
    decreases items.len(),
{
    reveal(Seq::filter);
    if items.len() > 0 {
        lemma_filter_all(items.drop_last(), pred);
        assert(items =~= items.drop_last().push(items.last()));
    } else {
        assert(items =~= seq![]);
    }
}

/// Whether the items of `part` stand in `whole` at the places `at`, each after the one before.
pub open spec fn stands_at<A>(whole: Seq<A>, part: Seq<A>, at: Seq<int>) -> bool {
    &&& at.len() == part.len()
    &&& forall|k: int|
        0 <= k < at.len() ==> 0 <= #[trigger] at[k] < whole.len() && whole[at[k]] == part[k]
    &&& forall|j: int, k: int| 0 <= j < k < at.len() ==> #[trigger] at[j] < #[trigger] at[k]
}

/// Whether the items of `part` stand in `whole` one after the other.
pub open spec fn is_subsequence<A>(whole: Seq<A>, part: Seq<A>) -> bool {
    exists|at: Seq<int>| stands_at(whole, part, at)
}

proof fn lemma_subsequence_push<A>(whole: Seq<A>, part: Seq<A>, x: A)
    requires
        is_subsequence(whole, part),
    ensures
        is_subsequence(whole.push(x), part),
        is_subsequence(whole.push(x), part.push(x)),
{
    let at = choose|at: Seq<int>| stands_at(whole, part, at);
    assert(stands_at(whole.push(x), part, at));
    assert(stands_at(whole.push(x), part.push(x), at.push(whole.len() as int)));
}

/// A stricter filter leaves a subsequence.
pub proof fn lemma_filter_narrows<A>(
    s: Seq<A>,
    strict: spec_fn(A) -> bool,
    wide: spec_fn(A) -> bool,
)
    requires
        forall|x: A| #[trigger] strict(x) ==> wide(x),
    ensures
        is_subsequence(s.filter(wide), s.filter(strict)),
    decreases s.len(),
{
    reveal(Seq::filter);
    if s.len() == 0 {
        assert(stands_at(s.filter(wide), s.filter(strict), seq![]));
    } else {
        let front = s.drop_last();
        lemma_filter_narrows(front, strict, wide);
        lemma_subsequence_push(front.filter(wide), front.filter(strict), s.last());
    }
}

/// Whether `at` holds exactly the places below `len` that are kept.
pub open spec fn holds_kept(at: Seq<int>, len: nat, kept: spec_fn(int) -> bool) -> bool {
    forall|i: int| 0 <= i < len ==> (#[trigger] at.contains(i) <==> kept(i))
}

/// Whether `part` is what is left of `whole` where exactly the places that are kept stay, in
/// order.
pub open spec fn is_sublist<A>(whole: Seq<A>, part: Seq<A>, kept: spec_fn(int) -> bool) -> bool {
    exists|at: Seq<int>| stands_at(whole, part, at) && holds_kept(at, whole.len(), kept)
}

/// Nothing is left of an empty list.
pub proof fn lemma_sublist_empty<A>(whole: Seq<A>, part: Seq<A>, kept: spec_fn(int) -> bool)
    requires
        whole.len() == 0,
        part.len() == 0,
    ensures
        is_sublist(whole, part, kept),
{
    assert(stands_at(whole, part, seq![]) && holds_kept(seq![], whole.len(), kept));
}

/// One more item is left exactly where its place is kept.
pub proof fn lemma_sublist_step<A>(
    whole: Seq<A>,
    part: Seq<A>,
    kept: spec_fn(int) -> bool,
    wider: spec_fn(int) -> bool,
    x: A,
)
    requires
        is_sublist(whole, part, kept),
        forall|i: int| 0 <= i < whole.len() ==> #[trigger] kept(i) == wider(i),
    ensures
        is_sublist(
            whole.push(x),
            if wider(whole.len() as int) {
                part.push(x)
            } else {
                part
            },
            wider,
        ),
{
    let n = whole.len() as int;
    let at = choose|at: Seq<int>|
        stands_at(whole, part, at) && holds_kept(at, whole.len(), kept);
    lemma_push_members(at, n);
    assert(!at.contains(n)) by {
        if at.contains(n) {
            let k = choose|k: int| 0 <= k < at.len() && at[k] == n;
            assert(0 <= at[k] < whole.len());
        }
    }
    if wider(n) {
        let longer = at.push(n);
        assert(stands_at(whole.push(x), part.push(x), longer));
        assert forall|i: int| 0 <= i < n + 1 implies (#[trigger] longer.contains(i)
            <==> wider(i)) by {
            assert(longer.contains(i) <==> at.contains(i) || i == n);
            if i < n {
                assert(at.contains(i) <==> kept(i));
            }
        }
        assert(holds_kept(longer, whole.push(x).len(), wider));
    } else {
        assert(stands_at(whole.push(x), part, at));
        assert forall|i: int| 0 <= i < n + 1 implies (#[trigger] at.contains(i) <==> wider(i)) by {
            if i < n {
                assert(at.contains(i) <==> kept(i));
            }
        }
        assert(holds_kept(at, whole.push(x).len(), wider));
    }
}

/// Filtering leaves exactly what fits, in order.
pub proof fn lemma_filter_is_sublist<A>(
    s: Seq<A>,
    pred: spec_fn(A) -> bool,
    kept: spec_fn(int) -> bool,
)
    requires
        forall|i: int| 0 <= i < s.len() ==> #[trigger] kept(i) == pred(s[i]),
    ensures
        is_sublist(s, s.filter(pred), kept),
    decreases s.len(),
{
    reveal(Seq::filter);
    if s.len() == 0 {
        lemma_sublist_empty(s, s.filter(pred), kept);
    } else {
        let front = s.drop_last();
        assert forall|i: int| 0 <= i < front.len() implies #[trigger] kept(i) == pred(
            front[i],
        ) by {
            assert(front[i] == s[i]);
        }
        lemma_filter_is_sublist(front, pred, kept);
        lemma_sublist_step(front, front.filter(pred), kept, kept, s.last());
        assert(front.push(s.last()) =~= s);
        assert(kept(s.len() - 1) == pred(s[s.len() - 1]));
    }
}

/// The sum of numbers.
pub open spec fn total(numbers: Seq<int>) -> int
    decreases numbers.len(),
{
    if numbers.len() == 0 {
        0
    } else {
        total(numbers.drop_last()) + numbers.last()
    }
}

} // verus!
