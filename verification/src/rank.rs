//! Ranking: the order in which the positions of a list of keys come when the
//! largest key goes first and equal keys keep the order they had.

use vstd::prelude::*;
use vstd::relations::total_ordering;
use vstd::seq_lib::lemma_multiset_commutative;

verus! {

/// The positions `lo`, `lo + 1`, up to `hi - 1`.
pub open spec fn span(lo: int, hi: int) -> Seq<usize> {
    Seq::new((hi - lo) as nat, |i: int| (lo + i) as usize)
}

/// `order` holds each of the positions `0` to `n - 1` once, and nothing else.
pub open spec fn is_permutation(order: Seq<usize>, n: nat) -> bool {
    &&& order.len() == n
    &&& forall|i: int| 0 <= i < order.len() ==> order[i] < n
    &&& order.no_duplicates()
    &&& forall|k: usize| k < n ==> order.contains(k)
}

/// Position `a` comes no later than position `b`: its key is larger, or the
/// keys are equal and `a` is not behind `b`.
pub open spec fn precedes(keys: Seq<u64>, a: int, b: int) -> bool {
    keys[a] > keys[b] || (keys[a] == keys[b] && a <= b)
}

/// Each position of `order` comes no later than those behind it.
pub open spec fn is_sorted(order: Seq<usize>, keys: Seq<u64>) -> bool {
    forall|i: int, j: int|
        0 <= i < j < order.len() ==> precedes(keys, order[i] as int, order[j] as int)
}

/// `order` ranks the positions of `keys`: all of them, by falling key, those
/// of equal keys by rising position.
pub open spec fn is_ranking(order: Seq<usize>, keys: Seq<u64>) -> bool {
    is_permutation(order, keys.len()) && is_sorted(order, keys)
}

/// The ranking of the positions of `keys`. There is exactly one.
pub open spec fn ranking(keys: Seq<u64>) -> Seq<usize> {
    choose|order: Seq<usize>| is_ranking(order, keys)
}

/// The items at the positions that `order` lists, in that order.
pub open spec fn arranged<T>(items: Seq<T>, order: Seq<usize>) -> Seq<T> {
    Seq::new(order.len(), |i: int| items[order[i] as int])
}

/// A list with the same members as `span(0, n)` is a permutation of the
/// positions below `n`.
pub proof fn lemma_permutation(order: Seq<usize>, n: nat)
    requires
        n <= usize::MAX,
        order.to_multiset() == span(0, n as int).to_multiset(),
    ensures
        is_permutation(order, n),
{
    broadcast use vstd::seq_lib::group_to_multiset_ensures;

    let all = span(0, n as int);
    order.to_multiset_ensures();
    all.to_multiset_ensures();
    assert(all.no_duplicates());
    all.lemma_multiset_has_no_duplicates();
    order.lemma_multiset_has_no_duplicates_conv();
    assert forall|i: int| 0 <= i < order.len() implies order[i] < n by {
        assert(order.contains(order[i]));
        assert(order.to_multiset().count(order[i]) > 0);
        assert(all.to_multiset().count(order[i]) > 0);
        assert(all.contains(order[i]));
    }
    assert forall|k: usize| k < n implies order.contains(k) by {
        assert(all[k as int] == k);
        assert(all.contains(k));
        assert(all.to_multiset().count(k) > 0);
        assert(order.to_multiset().count(k) > 0);
    }
}

/// Two rankings of the same keys agree on their first `upto` places.
proof fn lemma_rankings_agree(a: Seq<usize>, b: Seq<usize>, keys: Seq<u64>, upto: int)
    requires
        is_ranking(a, keys),
        is_ranking(b, keys),
        0 <= upto <= keys.len(),
    ensures
        forall|i: int| 0 <= i < upto ==> a[i] == b[i],
    decreases upto,
{
    if upto > 0 {
        let n = upto - 1;
        lemma_rankings_agree(a, b, keys, n);
        if a[n] != b[n] {
            assert(b.contains(a[n]));
            let j = choose|j: int| 0 <= j < b.len() && b[j] == a[n];
            assert(a.contains(b[n]));
            let k = choose|k: int| 0 <= k < a.len() && a[k] == b[n];
            if j < n {
                assert(a[j] == b[j]);
            }
            if k < n {
                assert(b[k] == a[k]);
            }
            assert(precedes(keys, a[n] as int, a[k] as int));
            assert(precedes(keys, b[n] as int, b[j] as int));
        }
    }
}

/// The keys have one ranking only.
pub proof fn lemma_ranking_unique(a: Seq<usize>, keys: Seq<u64>)
    requires
        is_ranking(a, keys),
    ensures
        a == ranking(keys),
{
    let b = ranking(keys);
    lemma_rankings_agree(a, b, keys, keys.len() as int);
    assert(a =~= b);
}

/// Every list of keys has a ranking, so `ranking` is one.
pub proof fn lemma_ranking_exists(keys: Seq<u64>)
    requires
        keys.len() <= usize::MAX,
    ensures
        is_ranking(ranking(keys), keys),
{
    let leq = |a: usize, b: usize| precedes(keys, a as int, b as int);
    assert(total_ordering(leq));
    let all = span(0, keys.len() as int);
    let order = all.sort_by(leq);
    all.lemma_sort_by_ensures(leq);
    lemma_permutation(order, keys.len());
    assert forall|i: int, j: int| 0 <= i < j < order.len() implies precedes(
        keys,
        order[i] as int,
        order[j] as int,
    ) by {
        assert(leq(order[i], order[j]));
    }
    assert(is_ranking(order, keys));
}

/// What is arranged by a permutation has as many places as there are items:
/// every item is there, and every place holds an item.
pub proof fn lemma_arranged<T>(items: Seq<T>, order: Seq<usize>)
    requires
        items.len() <= usize::MAX,
        is_permutation(order, items.len()),
    ensures
        arranged(items, order).len() == items.len(),
        forall|k: int| 0 <= k < items.len() ==> arranged(items, order).contains(#[trigger] items[k]),
        forall|i: int|
            0 <= i < items.len() ==> items.contains(#[trigger] arranged(items, order)[i]),
{
    assert forall|k: int| 0 <= k < items.len() implies arranged(items, order).contains(
        #[trigger] items[k],
    ) by {
        assert(order.contains(k as usize));
        let i = choose|i: int| 0 <= i < order.len() && order[i] == k as usize;
        assert(arranged(items, order)[i] == items[k]);
    }
    assert forall|i: int| 0 <= i < items.len() implies items.contains(
        #[trigger] arranged(items, order)[i],
    ) by {
        assert(items[order[i] as int] == arranged(items, order)[i]);
    }
}

/// Merges two sorted runs of positions into one.
fn merge(left: &Vec<usize>, right: &Vec<usize>, keys: &Vec<u64>) -> (out: Vec<usize>)
    requires
        is_sorted(left@, keys@),
        is_sorted(right@, keys@),
        forall|i: int| 0 <= i < left.len() ==> left[i] < keys.len(),
        forall|i: int| 0 <= i < right.len() ==> right[i] < keys.len(),
        left.len() + right.len() <= usize::MAX,
    ensures
        is_sorted(out@, keys@),
        out@.to_multiset() == left@.to_multiset().add(right@.to_multiset()),
        forall|i: int| 0 <= i < out.len() ==> out[i] < keys.len(),
{
    broadcast use vstd::seq_lib::group_to_multiset_ensures;

    let mut out: Vec<usize> = Vec::new();
    let mut i: usize = 0;
    let mut j: usize = 0;
    assert(left@.subrange(0, 0) =~= Seq::<usize>::empty());
    assert(right@.subrange(0, 0) =~= Seq::<usize>::empty());
    while i < left.len() || j < right.len()
        invariant
            i <= left.len(),
            j <= right.len(),
            is_sorted(left@, keys@),
            is_sorted(right@, keys@),
            is_sorted(out@, keys@),
            forall|k: int| 0 <= k < left.len() ==> left[k] < keys.len(),
            forall|k: int| 0 <= k < right.len() ==> right[k] < keys.len(),
            forall|k: int| 0 <= k < out.len() ==> out[k] < keys.len(),
            forall|k: int, m: int|
                0 <= k < out.len() && i <= m < left.len() ==> precedes(
                    keys@,
                    out[k] as int,
                    left[m] as int,
                ),
            forall|k: int, m: int|
                0 <= k < out.len() && j <= m < right.len() ==> precedes(
                    keys@,
                    out[k] as int,
                    right[m] as int,
                ),
            out@.to_multiset() == left@.subrange(0, i as int).to_multiset().add(
                right@.subrange(0, j as int).to_multiset(),
            ),
        decreases left.len() - i + right.len() - j,
    {
        let take_left = if i >= left.len() {
            false
        } else if j >= right.len() {
            true
        } else {
            let a = left[i];
            let b = right[j];
            keys[a] > keys[b] || (keys[a] == keys[b] && a <= b)
        };
        let ghost before = out@;
        let ghost done_left = left@.subrange(0, i as int);
        let ghost done_right = right@.subrange(0, j as int);
        if take_left {
            let a = left[i];
            proof {
                assert(left@.subrange(0, i + 1) =~= done_left.push(a));
                before.to_multiset_ensures();
                done_left.to_multiset_ensures();
                assert(before.push(a).to_multiset() =~= done_left.push(a).to_multiset().add(
                    done_right.to_multiset(),
                ));
                assert forall|m: int| j <= m < right.len() implies precedes(
                    keys@,
                    a as int,
                    right[m] as int,
                ) by {
                    if m > j {
                        assert(precedes(keys@, right[j as int] as int, right[m] as int));
                    }
                }
                assert forall|m: int| i < m < left.len() implies precedes(
                    keys@,
                    a as int,
                    left[m] as int,
                ) by {
                    assert(precedes(keys@, left[i as int] as int, left[m] as int));
                }
            }
            out.push(a);
            i += 1;
        } else {
            let b = right[j];
            proof {
                assert(right@.subrange(0, j + 1) =~= done_right.push(b));
                before.to_multiset_ensures();
                done_right.to_multiset_ensures();
                assert(before.push(b).to_multiset() =~= done_left.to_multiset().add(
                    done_right.push(b).to_multiset(),
                ));
                assert forall|m: int| i <= m < left.len() implies precedes(
                    keys@,
                    b as int,
                    left[m] as int,
                ) by {
                    if m > i {
                        assert(precedes(keys@, left[i as int] as int, left[m] as int));
                    }
                }
                assert forall|m: int| j < m < right.len() implies precedes(
                    keys@,
                    b as int,
                    right[m] as int,
                ) by {
                    assert(precedes(keys@, right[j as int] as int, right[m] as int));
                }
            }
            out.push(b);
            j += 1;
        }
    }
    assert(left@.subrange(0, i as int) =~= left@);
    assert(right@.subrange(0, j as int) =~= right@);
    out
}

/// Ranks the positions `lo` to `hi - 1` among themselves.
fn rank_span(keys: &Vec<u64>, lo: usize, hi: usize) -> (out: Vec<usize>)
    requires
        lo <= hi <= keys.len(),
    ensures
        is_sorted(out@, keys@),
        out@.to_multiset() == span(lo as int, hi as int).to_multiset(),
        out.len() == hi - lo,
        forall|i: int| 0 <= i < out.len() ==> out[i] < keys.len(),
    decreases hi - lo,
{
    broadcast use vstd::seq_lib::group_to_multiset_ensures;

    if hi - lo == 0 {
        let out: Vec<usize> = Vec::new();
        assert(out@ =~= span(lo as int, hi as int));
        out
    } else if hi - lo == 1 {
        let mut out: Vec<usize> = Vec::new();
        out.push(lo);
        assert(out@ =~= span(lo as int, hi as int));
        out
    } else {
        let mid = lo + (hi - lo) / 2;
        let left = rank_span(keys, lo, mid);
        let right = rank_span(keys, mid, hi);
        let out = merge(&left, &right, keys);
        proof {
            let a = span(lo as int, mid as int);
            let b = span(mid as int, hi as int);
            assert(a + b =~= span(lo as int, hi as int));
            lemma_multiset_commutative(a, b);
            out@.to_multiset_ensures();
            span(lo as int, hi as int).to_multiset_ensures();
        }
        out
    }
}

/// The ranking of the positions of `keys`: the position of the largest key
/// first, positions of equal keys in rising order.
pub fn rank_order(keys: &Vec<u64>) -> (order: Vec<usize>)
    ensures
        order@ == ranking(keys@),
        is_ranking(order@, keys@),
{
    let order = rank_span(keys, 0, keys.len());
    proof {
        lemma_permutation(order@, keys@.len());
        lemma_ranking_unique(order@, keys@);
    }
    order
}

} // verus!
