//! The reasoning behind quicksort: why sorting the two sides of a pivot
//! sorts the whole.

use vstd::prelude::*;
use crate::order::{computes, sorted, strict_weak_order_on, lemma_not_less_transitive};
use crate::rearrange::{lemma_same_elements, swapped};

verus! {

/// `s` is split at `at`: the elements before it go before the element that
/// stands there, and none of the elements behind it does.
pub open spec fn split_at<T>(s: Seq<T>, lt: spec_fn(T, T) -> bool, at: int) -> bool {
    &&& 0 <= at < s.len()
    &&& forall|p: int| 0 <= p < at ==> lt(#[trigger] s[p], s[at])
    &&& forall|p: int| at < p < s.len() ==> !lt(#[trigger] s[p], s[at])
}

/// Rearranging each side of a split keeps the multiset of the elements.
pub proof fn lemma_sides_rearranged<T>(s: Seq<T>, at: int, ls: Seq<T>, rs: Seq<T>)
    requires
        0 <= at < s.len(),
        ls.to_multiset() == s.take(at).to_multiset(),
        rs.to_multiset() == s.skip(at + 1).to_multiset(),
    ensures
        (ls + (seq![s[at]] + rs)).to_multiset() == s.to_multiset(),
{
    let mid = seq![s[at]];
    assert(s =~= s.take(at) + (mid + s.skip(at + 1)));
    vstd::seq_lib::lemma_multiset_commutative(s.take(at), mid + s.skip(at + 1));
    vstd::seq_lib::lemma_multiset_commutative(mid, s.skip(at + 1));
    vstd::seq_lib::lemma_multiset_commutative(ls, mid + rs);
    vstd::seq_lib::lemma_multiset_commutative(mid, rs);
}

/// Under a strict weak ordering, sorting each side of a split sorts the
/// whole.
pub proof fn lemma_sorted_sides<T>(
    s: Seq<T>,
    lt: spec_fn(T, T) -> bool,
    at: int,
    ls: Seq<T>,
    rs: Seq<T>,
)
    requires
        strict_weak_order_on(lt, s.to_set()),
        split_at(s, lt, at),
        ls.to_multiset() == s.take(at).to_multiset(),
        rs.to_multiset() == s.skip(at + 1).to_multiset(),
        sorted(ls, lt),
        sorted(rs, lt),
    ensures
        sorted(ls + (seq![s[at]] + rs), lt),
{
    let dom = s.to_set();
    let pivot = s[at];
    let t = ls + (seq![pivot] + rs);
    let front = s.take(at);
    let back = s.skip(at + 1);
    lemma_same_elements(ls, front);
    lemma_same_elements(rs, back);
    assert(s.contains(pivot));
    assert forall|p: int| 0 <= p < ls.len() implies dom.contains(#[trigger] ls[p]) && lt(
        ls[p],
        pivot,
    ) by {
        assert(ls.contains(ls[p]));
        assert(front.to_set().contains(ls[p]));
        let k = choose|k: int| 0 <= k < front.len() && #[trigger] front[k] == ls[p];
        assert(s[k] == ls[p]);
    }
    assert forall|p: int| 0 <= p < rs.len() implies dom.contains(#[trigger] rs[p]) && !lt(
        rs[p],
        pivot,
    ) by {
        assert(rs.contains(rs[p]));
        assert(back.to_set().contains(rs[p]));
        let k = choose|k: int| 0 <= k < back.len() && #[trigger] back[k] == rs[p];
        assert(s[at + 1 + k] == rs[p]);
    }
    assert forall|i: int, j: int| 0 <= i < j < t.len() implies !lt(
        #[trigger] t[j],
        #[trigger] t[i],
    ) by {
        if j < at {
            assert(t[i] == ls[i] && t[j] == ls[j]);
        } else if i > at {
            assert(t[i] == rs[i - at - 1] && t[j] == rs[j - at - 1]);
        } else if i == at {
            assert(t[i] == pivot && t[j] == rs[j - at - 1]);
        } else if j == at {
            assert(t[j] == pivot && t[i] == ls[i]);
        } else {
            assert(t[i] == ls[i] && t[j] == rs[j - at - 1]);
            lemma_not_less_transitive(lt, dom, t[i], pivot, t[j]);
        }
    }
}

/// The state of the scan of a partition: the elements before `i` go before
/// the pivot, and none of those from `i` up to `j` does.
pub open spec fn scanned<T>(
    s: Seq<T>,
    lt: spec_fn(T, T) -> bool,
    pivot: T,
    i: int,
    j: int,
) -> bool {
    &&& forall|p: int| 0 <= p < i ==> lt(#[trigger] s[p], pivot)
    &&& forall|p: int| i <= p < j ==> !lt(#[trigger] s[p], pivot)
}

/// What the scan of a partition leaves when it goes on from `j` up to
/// `end` with `i` elements gathered at the front: each element that goes
/// before the pivot is exchanged with the first element behind those
/// gathered. The result is the sequence and the number gathered.
pub open spec fn gathered<T>(
    s: Seq<T>,
    lt: spec_fn(T, T) -> bool,
    pivot: T,
    i: int,
    j: int,
    end: int,
) -> (Seq<T>, int)
    decreases end - j,
{
    if j >= end {
        (s, i)
    } else if lt(s[j], pivot) {
        gathered(swapped(s, i, j), lt, pivot, i + 1, j + 1, end)
    } else {
        gathered(s, lt, pivot, i, j + 1, end)
    }
}

/// `s` partitioned around its element at `chosen`, and the index at which
/// that element then stands: the pivot is exchanged with the last element,
/// the elements that go before it are gathered at the front, and the pivot
/// is exchanged into the place behind them.
pub open spec fn partitioned<T>(s: Seq<T>, lt: spec_fn(T, T) -> bool, chosen: int) -> (
    Seq<T>,
    int,
) {
    let end = s.len() - 1;
    let scan = gathered(swapped(s, chosen, end), lt, s[chosen], 0, 0, end);
    (swapped(scan.0, scan.1, end), scan.1)
}

/// `after` and `split` are what a partition of `before` around its element
/// at `chosen` gives, under every relation that the comparison function
/// computes on the elements.
pub open spec fn partitions_at<T, C: Fn(&T, &T) -> bool>(
    f: &C,
    before: Seq<T>,
    after: Seq<T>,
    split: int,
    chosen: int,
) -> bool {
    forall|lt: spec_fn(T, T) -> bool| #[trigger]
        computes(f, lt, before.to_set()) ==> (after, split) == partitioned(before, lt, chosen)
}

/// `s` with the elements at `i` and `j` exchanged if `answer` holds.
pub open spec fn exchanged_at<T>(s: Seq<T>, i: int, j: int, answer: bool) -> Seq<T> {
    if answer {
        swapped(s, i, j)
    } else {
        s
    }
}

} // verus!
