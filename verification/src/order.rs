//! Stable sorting by a number and a text.
use vstd::prelude::*;

use crate::text::text_before;
#[allow(unused_imports)]
use crate::text::{lemma_lex_lt_asymmetric, lemma_lex_lt_total, lemma_lex_lt_transitive, lex_lt};

verus! {

/// Whether the key `a` sorts strictly before the key `b`: the numbers decide, then the texts.
pub open spec fn key_before(a: (usize, Seq<char>), b: (usize, Seq<char>)) -> bool {
    a.0 < b.0 || (a.0 == b.0 && lex_lt(a.1, b.1))
}

/// Whether item `i` comes before item `j` in a stable sort by `keys`: its key sorts before,
/// or the keys tie and it stood first.
pub open spec fn item_before(keys: Seq<(usize, Seq<char>)>, i: int, j: int) -> bool {
    key_before(keys[i], keys[j]) || (!key_before(keys[j], keys[i]) && i < j)
}

/// Whether `order` lists the positions of `keys`, each once, as a stable sort arranges them.
pub open spec fn is_stable_order(order: Seq<int>, keys: Seq<(usize, Seq<char>)>) -> bool {
    &&& order.len() == keys.len()
    &&& forall|i: int| 0 <= i < order.len() ==> 0 <= #[trigger] order[i] < keys.len()
    &&& forall|k: int| 0 <= k < keys.len() ==> #[trigger] order.contains(k)
    &&& forall|i: int, j: int|
        0 <= i < j < order.len() ==> item_before(keys, #[trigger] order[i], #[trigger] order[j])
}

/// The positions that an executable order lists.
pub open spec fn positions(order: Seq<usize>) -> Seq<int> {
    order.map_values(|i: usize| i as int)
}

/// The items at the given positions.
pub open spec fn arranged<T>(items: Seq<T>, order: Seq<int>) -> Seq<T> {
    order.map_values(|i: int| items[i])
}

/// Whether `output` is what a stable sort makes of `input`, whose item `i` has the key `keys[i]`.
pub open spec fn stably_sorted<T>(
    input: Seq<T>,
    keys: Seq<(usize, Seq<char>)>,
    output: Seq<T>,
) -> bool {
    &&& input.len() == keys.len()
    &&& exists|order: Seq<int>| #[trigger]
        is_stable_order(order, keys) && output == arranged(input, order)
}

/// The keys of sortable items.
pub open spec fn key_views(keys: Seq<(usize, Vec<char>)>) -> Seq<(usize, Seq<char>)> {
    keys.map_values(|k: (usize, Vec<char>)| (k.0, k.1@))
}

/// The keys of items that sort by a text alone.
pub open spec fn text_keys(texts: Seq<Seq<char>>) -> Seq<(usize, Seq<char>)> {
    texts.map_values(|t: Seq<char>| (0usize, t))
}

/// Of two different items exactly one comes before the other.
pub proof fn lemma_item_before_total(keys: Seq<(usize, Seq<char>)>, i: int, j: int)
    ensures
        i != j ==> item_before(keys, i, j) != item_before(keys, j, i),
        !item_before(keys, i, i),
{
    lemma_lex_lt_asymmetric(keys[i].1, keys[j].1);
    lemma_lex_lt_asymmetric(keys[i].1, keys[i].1);
}

/// The order of items is transitive.
pub proof fn lemma_item_before_transitive(keys: Seq<(usize, Seq<char>)>, i: int, j: int, k: int)
    requires
        item_before(keys, i, j),
        item_before(keys, j, k),
    ensures
        item_before(keys, i, k),
{
    let (a, b, c) = (keys[i], keys[j], keys[k]);
    lemma_lex_lt_total(a.1, b.1);
    lemma_lex_lt_total(b.1, c.1);
    lemma_lex_lt_asymmetric(a.1, b.1);
    lemma_lex_lt_asymmetric(b.1, c.1);
    lemma_lex_lt_asymmetric(a.1, c.1);
    if lex_lt(a.1, b.1) && lex_lt(b.1, c.1) {
        lemma_lex_lt_transitive(a.1, b.1, c.1);
    }
}

/// A stable sort has one outcome: the keys alone decide the order.
pub proof fn law_stable_order_unique(
    p: Seq<int>,
    q: Seq<int>,
    keys: Seq<(usize, Seq<char>)>,
)
    requires
        is_stable_order(p, keys),
        is_stable_order(q, keys),
    ensures
        p == q,
{
    assert forall|n: int| 0 <= n <= p.len() implies #[trigger] p.take(n) == q.take(n) by {
        lemma_stable_order_prefix(p, q, keys, n as nat);
    }
    assert(p.take(p.len() as int) =~= p);
    assert(q.take(p.len() as int) =~= q);
}

proof fn lemma_stable_order_prefix(
    p: Seq<int>,
    q: Seq<int>,
    keys: Seq<(usize, Seq<char>)>,
    n: nat,
)
    requires
        is_stable_order(p, keys),
        is_stable_order(q, keys),
        n <= p.len(),
    ensures
        p.take(n as int) == q.take(n as int),
    decreases n,
{
    if n > 0 {
        let m = n - 1;
        lemma_stable_order_prefix(p, q, keys, m as nat);
        lemma_not_earlier(p, q, keys, m);
        lemma_not_earlier(q, p, keys, m);
        if p[m] != q[m] {
            lemma_item_before_total(keys, p[m], q[m]);
        }
        assert(p.take(n as int) =~= p.take(m).push(p[m]));
        assert(q.take(n as int) =~= q.take(m).push(q[m]));
    } else {
        assert(p.take(0) =~= q.take(0));
    }
}

/// Where two stable orders agree before position `m`, the second has nothing at `m` that
/// comes before what the first has there.
proof fn lemma_not_earlier(p: Seq<int>, q: Seq<int>, keys: Seq<(usize, Seq<char>)>, m: int)
    requires
        is_stable_order(p, keys),
        is_stable_order(q, keys),
        0 <= m < p.len(),
        p.take(m) == q.take(m),
    ensures
        !item_before(keys, q[m], p[m]),
{
    assert(p.contains(q[m]));
    let j = choose|j: int| 0 <= j < p.len() && p[j] == q[m];
    if j < m {
        assert(p.take(m)[j] == p[j] && q.take(m)[j] == q[j]);
        lemma_item_before_total(keys, q[j], q[m]);
    } else {
        lemma_item_before_total(keys, p[m], p[j]);
        lemma_item_before_total(keys, p[m], p[m]);
    }
}

/// Sorting keeps the items: none is lost, none is made up and none is doubled.
pub proof fn law_sorting_keeps_items<T>(
    input: Seq<T>,
    keys: Seq<(usize, Seq<char>)>,
    output: Seq<T>,
)
    requires
        stably_sorted(input, keys, output),
    ensures
        output.len() == input.len(),
        forall|x: T| #[trigger] output.contains(x) <==> input.contains(x),
        input.no_duplicates() ==> output.no_duplicates(),
{
    let order = choose|order: Seq<int>| #[trigger]
        is_stable_order(order, keys) && output == arranged(input, order);
    assert forall|x: T| #[trigger] output.contains(x) <==> input.contains(x) by {
        if output.contains(x) {
            let i = choose|i: int| 0 <= i < output.len() && output[i] == x;
            assert(input[order[i]] == x);
        }
        if input.contains(x) {
            let k = choose|k: int| 0 <= k < input.len() && input[k] == x;
            assert(order.contains(k));
            let i = choose|i: int| 0 <= i < order.len() && order[i] == k;
            assert(output[i] == x);
        }
    }
    if input.no_duplicates() {
        assert forall|i: int, j: int| 0 <= i < j < output.len() implies output[i] != output[j] by {
            lemma_item_before_total(keys, order[i], order[i]);
            assert(item_before(keys, order[i], order[j]));
        }
    }
}

/// Whether one key sorts strictly before another.
fn key_sorts_before(a: &(usize, Vec<char>), b: &(usize, Vec<char>)) -> (before: bool)
    ensures
        before == key_before((a.0, a.1@), (b.0, b.1@)),
{
    a.0 < b.0 || (a.0 == b.0 && text_before(a.1.as_slice(), b.1.as_slice()))
}

/// Whether `order` lists the positions from `lo` up to `hi`, each once and in sorted order.
spec fn sorted_range(order: Seq<usize>, keys: Seq<(usize, Seq<char>)>, lo: int, hi: int) -> bool {
    &&& order.len() == hi - lo
    &&& forall|i: int| 0 <= i < order.len() ==> lo <= #[trigger] order[i] < hi
    &&& forall|k: usize| lo <= k < hi ==> #[trigger] order.contains(k)
    &&& forall|i: int, j: int|
        0 <= i < j < order.len() ==> item_before(
            keys,
            #[trigger] order[i] as int,
            #[trigger] order[j] as int,
        )
}

/// Merges the sorted positions of two neighbouring ranges.
fn merge(
    keys: &Vec<(usize, Vec<char>)>,
    left: &Vec<usize>,
    right: &Vec<usize>,
    Ghost(lo): Ghost<int>,
    Ghost(mid): Ghost<int>,
    Ghost(hi): Ghost<int>,
) -> (order: Vec<usize>)
    requires
        0 <= lo <= mid <= hi <= keys@.len(),
        sorted_range(left@, key_views(keys@), lo, mid),
        sorted_range(right@, key_views(keys@), mid, hi),
    ensures
        sorted_range(order@, key_views(keys@), lo, hi),
{
    let ghost views = key_views(keys@);
    let mut order: Vec<usize> = Vec::new();
    let mut i: usize = 0;
    let mut j: usize = 0;
    while i < left.len() || j < right.len()
        invariant
            0 <= lo <= mid <= hi <= keys@.len(),
            views == key_views(keys@),
            sorted_range(left@, views, lo, mid),
            sorted_range(right@, views, mid, hi),
            i <= left@.len(),
            j <= right@.len(),
            order@.len() == i + j,
            forall|k: int| 0 <= k < order@.len() ==> lo <= #[trigger] order@[k] < hi,
            forall|k: int| 0 <= k < i ==> order@.contains(#[trigger] left@[k]),
            forall|k: int| 0 <= k < j ==> order@.contains(#[trigger] right@[k]),
            forall|a: int, b: int|
                0 <= a < b < order@.len() ==> item_before(
                    views,
                    #[trigger] order@[a] as int,
                    #[trigger] order@[b] as int,
                ),
            forall|a: int, b: int|
                0 <= a < order@.len() && i <= b < left@.len() ==> item_before(
                    views,
                    #[trigger] order@[a] as int,
                    #[trigger] left@[b] as int,
                ),
            forall|a: int, b: int|
                0 <= a < order@.len() && j <= b < right@.len() ==> item_before(
                    views,
                    #[trigger] order@[a] as int,
                    #[trigger] right@[b] as int,
                ),
        decreases left@.len() - i + right@.len() - j,
    {
        let take_right = if i >= left.len() {
            true
        } else if j >= right.len() {
            false
        } else {
            key_sorts_before(&keys[right[j]], &keys[left[i]])
        };
        let ghost before = order@;
        if take_right {
            let next = right[j];
            proof {
                assert forall|b: int| i <= b < left@.len() implies item_before(
                    views,
                    next as int,
                    #[trigger] left@[b] as int,
                ) by {
                    assert(item_before(views, next as int, left@[i as int] as int));
                    if b > i {
                        lemma_item_before_transitive(
                            views,
                            next as int,
                            left@[i as int] as int,
                            left@[b] as int,
                        );
                    }
                }
            }
            order.push(next);
            j += 1;
        } else {
            let next = left[i];
            proof {
                assert forall|b: int| j <= b < right@.len() implies item_before(
                    views,
                    next as int,
                    #[trigger] right@[b] as int,
                ) by {
                    assert(item_before(views, next as int, right@[j as int] as int));
                    if b > j {
                        lemma_item_before_transitive(
                            views,
                            next as int,
                            right@[j as int] as int,
                            right@[b] as int,
                        );
                    }
                }
            }
            order.push(next);
            i += 1;
        }
        proof {
            lemma_push_keeps_members(before, order@.last());
        }
    }
    proof {
        assert forall|k: usize| lo <= k < hi implies #[trigger] order@.contains(k) by {
            if k < mid {
                assert(left@.contains(k));
            } else {
                assert(right@.contains(k));
            }
        }
    }
    order
}

proof fn lemma_push_keeps_members(s: Seq<usize>, x: usize)
    ensures
        s.push(x).contains(x),
        forall|k: usize| s.contains(k) ==> #[trigger] s.push(x).contains(k),
{
    assert(s.push(x)[s.len() as int] == x);
    assert forall|k: usize| s.contains(k) implies #[trigger] s.push(x).contains(k) by {
        let i = choose|i: int| 0 <= i < s.len() && s[i] == k;
        assert(s.push(x)[i] == k);
    }
}

fn sort_range(keys: &Vec<(usize, Vec<char>)>, lo: usize, hi: usize) -> (order: Vec<usize>)
    requires
        lo <= hi <= keys@.len(),
    ensures
        sorted_range(order@, key_views(keys@), lo as int, hi as int),
    decreases hi - lo,
{
    let mut order: Vec<usize> = Vec::new();
    if lo == hi {
        return order;
    }
    if hi - lo == 1 {
        order.push(lo);
        assert(order@[0] == lo);
        return order;
    }
    let mid = lo + (hi - lo) / 2;
    let left = sort_range(keys, lo, mid);
    let right = sort_range(keys, mid, hi);
    merge(keys, &left, &right, Ghost(lo as int), Ghost(mid as int), Ghost(hi as int))
}

/// The positions of the keys in the order in which a stable sort arranges them.
pub fn stable_order(keys: &Vec<(usize, Vec<char>)>) -> (order: Vec<usize>)
    ensures
        is_stable_order(positions(order@), key_views(keys@)),
{
    let order = sort_range(keys, 0, keys.len());
    proof {
        let listed = positions(order@);
        assert forall|k: int| 0 <= k < keys@.len() implies #[trigger] listed.contains(k) by {
            assert(order@.contains(k as usize));
            let i = choose|i: int| 0 <= i < order@.len() && order@[i] == k as usize;
            assert(listed[i] == k);
        }
    }
    order
}

/// A stable order lists every place once; the numbers of the keys grow, then the texts, and what
/// ties keeps its order.
pub proof fn law_stable_order_by_keys(order: Seq<int>, keys: Seq<(usize, Seq<char>)>)
    requires
        is_stable_order(order, keys),
    ensures
        order.len() == keys.len(),
        order.no_duplicates(),
        forall|i: int| 0 <= i < order.len() ==> 0 <= #[trigger] order[i] < keys.len(),
        forall|i: int, j: int|
            0 <= i < j < order.len() ==> {
                let (a, b) = (keys[#[trigger] order[i]], keys[#[trigger] order[j]]);
                a.0 < b.0 || (a.0 == b.0 && (lex_lt(a.1, b.1) || (a.1 == b.1 && order[i]
                    < order[j])))
            },
{
    assert forall|i: int, j: int| 0 <= i < j < order.len() implies {
        let (a, b) = (keys[#[trigger] order[i]], keys[#[trigger] order[j]]);
        a.0 < b.0 || (a.0 == b.0 && (lex_lt(a.1, b.1) || (a.1 == b.1 && order[i] < order[j])))
    } by {
        assert(item_before(keys, order[i], order[j]));
        lemma_lex_lt_total(keys[order[i]].1, keys[order[j]].1);
        lemma_lex_lt_asymmetric(keys[order[i]].1, keys[order[j]].1);
    }
    assert forall|i: int, j: int|
        0 <= i < order.len() && 0 <= j < order.len() && i != j implies order[i] != order[j] by {
        lemma_item_before_total(keys, order[i], order[i]);
        if i < j {
            assert(item_before(keys, order[i], order[j]));
        } else {
            assert(item_before(keys, order[j], order[i]));
        }
    }
}

/// A stable sort rearranges the items: each stands once at its place in a stable order.
pub proof fn law_sorted_items_stand_in_order<T>(
    input: Seq<T>,
    keys: Seq<(usize, Seq<char>)>,
    output: Seq<T>,
)
    requires
        stably_sorted(input, keys, output),
    ensures
        input.len() == keys.len(),
        exists|order: Seq<int>|
            #![trigger is_stable_order(order, keys)]
            is_stable_order(order, keys) && output.len() == order.len() && forall|i: int|
                0 <= i < order.len() ==> #[trigger] output[i] == input[order[i]],
{
    let order = choose|order: Seq<int>| #[trigger]
        is_stable_order(order, keys) && output == arranged(input, order);
    assert(is_stable_order(order, keys) && output.len() == order.len() && forall|i: int|
        0 <= i < order.len() ==> #[trigger] output[i] == input[order[i]]);
}

/// Positions and keys are read off one by one.
pub proof fn law_sort_views(
    order: Seq<usize>,
    keys: Seq<(usize, Vec<char>)>,
    items: Seq<Seq<char>>,
)
    ensures
        positions(order).len() == order.len(),
        forall|i: int| 0 <= i < order.len() ==> #[trigger] positions(order)[i] == order[i] as int,
        key_views(keys).len() == keys.len(),
        forall|i: int|
            0 <= i < keys.len() ==> (#[trigger] key_views(keys)[i]).0 == keys[i].0 && key_views(
                keys,
            )[i].1 == keys[i].1@,
        text_keys(items).len() == items.len(),
        forall|i: int|
            0 <= i < items.len() ==> (#[trigger] text_keys(items)[i]).0 == 0 && text_keys(
                items,
            )[i].1 == items[i],
{
}

} // verus!
