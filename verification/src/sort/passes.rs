//! The reasoning behind the sorts that work by comparing two elements and
//! exchanging them: what one comparison, and the exchange that may follow
//! it, does to the order that a pass has reached.

use vstd::prelude::*;
use crate::order::{
    class_of, orders, presorted, sorted, sorted_between, stable, strict_weak_order_on,
    lemma_less_separates_class, lemma_not_less_transitive, lemma_presorted_answer,
};
use crate::rearrange::{
    lemma_same_elements, lemma_swapped_multiset, lemma_swapped_neighbours_filter, swapped,
};

verus! {

/// Every element of `s` is an element of `dom`.
pub open spec fn within<T>(s: Seq<T>, dom: Set<T>) -> bool {
    forall|k: int| 0 <= k < s.len() ==> dom.contains(#[trigger] s[k])
}

/// `s` after its neighbours at `j` and `j + 1` were compared: exchanged if
/// the answer was that the second goes before the first, as it was if not.
pub open spec fn exchanged<T>(s: Seq<T>, j: int, answer: bool) -> Seq<T> {
    if answer {
        swapped(s, j, j + 1)
    } else {
        s
    }
}

/// The elements outside the window from `lo` to `hi` have their places: of
/// two elements of which the first stands before `lo` or the second behind
/// `hi`, the second does not go before the first.
pub open spec fn settled<T>(s: Seq<T>, lt: spec_fn(T, T) -> bool, lo: int, hi: int) -> bool {
    forall|p: int, q: int|
        0 <= p < q < s.len() && (p < lo || hi < q) ==> !lt(#[trigger] s[q], #[trigger] s[p])
}

/// The element at `j` goes before none of the elements from `lo` up to it.
pub open spec fn rising<T>(s: Seq<T>, lt: spec_fn(T, T) -> bool, lo: int, j: int) -> bool {
    forall|p: int| lo <= p < j ==> !lt(s[j], #[trigger] s[p])
}

/// None of the elements behind `k` up to `hi` goes before the element at `k`.
pub open spec fn falling<T>(s: Seq<T>, lt: spec_fn(T, T) -> bool, k: int, hi: int) -> bool {
    forall|q: int| k < q <= hi ==> !lt(#[trigger] s[q], s[k])
}

/// The elements up to `i` are sorted but for the one at `j`, which none of
/// those behind it goes before.
pub open spec fn inserting<T>(s: Seq<T>, lt: spec_fn(T, T) -> bool, j: int, i: int) -> bool {
    &&& sorted_between(s, lt, 0, j)
    &&& sorted_between(s, lt, j, i + 1)
    &&& forall|p: int, q: int| 0 <= p < j < q <= i ==> !lt(#[trigger] s[q], #[trigger] s[p])
}

/// A pass upwards: comparing the neighbours at `j` and `j + 1`, and
/// exchanging them where the second goes before the first, carries up to
/// `j + 1` an element that goes before none from `lo` on.
pub proof fn lemma_pass_up<T>(
    s: Seq<T>,
    lt: spec_fn(T, T) -> bool,
    dom: Set<T>,
    lo: int,
    hi: int,
    j: int,
    answer: bool,
)
    requires
        strict_weak_order_on(lt, dom),
        within(s, dom),
        0 <= lo <= j < hi < s.len(),
        settled(s, lt, lo, hi),
        rising(s, lt, lo, j),
        answer == lt(s[j + 1], s[j]),
    ensures
        settled(exchanged(s, j, answer), lt, lo, hi),
        rising(exchanged(s, j, answer), lt, lo, j + 1),
        !answer && sorted_between(s, lt, lo, j + 1) ==> sorted_between(s, lt, lo, j + 2),
{
    let t = exchanged(s, j, answer);
    assert forall|p: int| lo <= p < j + 1 implies !lt(t[j + 1], #[trigger] t[p]) by {
        if !answer && p < j {
            lemma_not_less_transitive(lt, dom, s[p], s[j], s[j + 1]);
        }
    }
    assert forall|p: int, q: int| 0 <= p < q < t.len() && (p < lo || hi < q) implies !lt(
        #[trigger] t[q],
        #[trigger] t[p],
    ) by {
        let was_p = if answer && p == j {
            j + 1
        } else if answer && p == j + 1 {
            j
        } else {
            p
        };
        let was_q = if answer && q == j {
            j + 1
        } else if answer && q == j + 1 {
            j
        } else {
            q
        };
        assert(t[p] == s[was_p] && t[q] == s[was_q]);
        assert(!lt(s[was_q], s[was_p]));
    }
}

/// A pass downwards: comparing the neighbours at `j` and `j + 1`, and
/// exchanging them where the second goes before the first, carries down to
/// `j` an element that none up to `hi` goes before.
pub proof fn lemma_pass_down<T>(
    s: Seq<T>,
    lt: spec_fn(T, T) -> bool,
    dom: Set<T>,
    lo: int,
    hi: int,
    j: int,
    answer: bool,
)
    requires
        strict_weak_order_on(lt, dom),
        within(s, dom),
        0 <= lo <= j < hi < s.len(),
        settled(s, lt, lo, hi),
        falling(s, lt, j + 1, hi),
        answer == lt(s[j + 1], s[j]),
    ensures
        settled(exchanged(s, j, answer), lt, lo, hi),
        falling(exchanged(s, j, answer), lt, j, hi),
{
    let t = exchanged(s, j, answer);
    assert forall|q: int| j < q <= hi implies !lt(#[trigger] t[q], t[j]) by {
        if !answer && q > j + 1 {
            lemma_not_less_transitive(lt, dom, s[j], s[j + 1], s[q]);
        }
    }
    assert forall|p: int, q: int| 0 <= p < q < t.len() && (p < lo || hi < q) implies !lt(
        #[trigger] t[q],
        #[trigger] t[p],
    ) by {
        let was_p = if answer && p == j {
            j + 1
        } else if answer && p == j + 1 {
            j
        } else {
            p
        };
        let was_q = if answer && q == j {
            j + 1
        } else if answer && q == j + 1 {
            j
        } else {
            q
        };
        assert(t[p] == s[was_p] && t[q] == s[was_q]);
        assert(!lt(s[was_q], s[was_p]));
    }
}

/// An element at the upper end of the window that goes before none in the
/// window has its place.
pub proof fn lemma_settle_top<T>(s: Seq<T>, lt: spec_fn(T, T) -> bool, lo: int, hi: int)
    requires
        settled(s, lt, lo, hi),
        rising(s, lt, lo, hi),
        0 <= lo,
        hi < s.len(),
    ensures
        settled(s, lt, lo, hi - 1),
{
}

/// An element at the lower end of the window that none in the window goes
/// before has its place.
pub proof fn lemma_settle_bottom<T>(s: Seq<T>, lt: spec_fn(T, T) -> bool, lo: int, hi: int)
    requires
        settled(s, lt, lo, hi),
        falling(s, lt, lo, hi),
        0 <= lo,
        hi < s.len(),
    ensures
        settled(s, lt, lo + 1, hi),
{
}

/// A sequence whose elements outside a window have their places, and whose
/// window is sorted, is sorted.
pub proof fn lemma_settled_is_sorted<T>(s: Seq<T>, lt: spec_fn(T, T) -> bool, lo: int, hi: int)
    requires
        settled(s, lt, lo, hi),
        sorted_between(s, lt, lo, hi + 1),
    ensures
        sorted(s, lt),
{
}

/// Comparing two neighbours, and exchanging them where the second goes
/// before the first, keeps equivalent elements in their order.
pub proof fn lemma_exchange_stable<T>(
    origin: Seq<T>,
    s: Seq<T>,
    lt: spec_fn(T, T) -> bool,
    j: int,
    answer: bool,
)
    requires
        strict_weak_order_on(lt, origin.to_set()),
        s.to_multiset() == origin.to_multiset(),
        stable(origin, s, lt),
        0 <= j,
        j + 1 < s.len(),
        answer == lt(s[j + 1], s[j]),
    ensures
        stable(origin, exchanged(s, j, answer), lt),
{
    if answer {
        lemma_same_elements(s, origin);
        assert(s.contains(s[j]) && s.contains(s[j + 1]));
        assert(origin.to_set().contains(s[j]) && origin.to_set().contains(s[j + 1]));
        assert forall|x: T| origin.contains(x) implies #[trigger] swapped(s, j, j + 1).filter(
            class_of(lt, x),
        ) == origin.filter(class_of(lt, x)) by {
            assert(origin.to_set().contains(x));
            lemma_less_separates_class(lt, origin.to_set(), x, s[j + 1], s[j]);
            lemma_swapped_neighbours_filter(s, j, class_of(lt, x));
        }
    }
}

/// A step of an insertion: comparing the element that is being carried
/// down, at `j`, with the one before it, and exchanging them where it goes
/// before that one.
pub proof fn lemma_insert_step<T>(
    s: Seq<T>,
    lt: spec_fn(T, T) -> bool,
    dom: Set<T>,
    j: int,
    i: int,
    answer: bool,
)
    requires
        strict_weak_order_on(lt, dom),
        within(s, dom),
        1 <= j <= i < s.len(),
        inserting(s, lt, j, i),
        answer == lt(s[j], s[j - 1]),
    ensures
        inserting(exchanged(s, j - 1, answer), lt, j - 1, i),
{
    let t = exchanged(s, j - 1, answer);
    assert forall|p: int, q: int| 0 <= p < j - 1 < q <= i implies !lt(
        #[trigger] t[q],
        #[trigger] t[p],
    ) by {
        if !answer && q == j {
            lemma_not_less_transitive(lt, dom, s[p], s[j - 1], s[j]);
        }
    }
    assert(sorted_between(t, lt, 0, j - 1));
    assert forall|p: int, q: int| j - 1 <= p < q < i + 1 implies !lt(
        #[trigger] t[q],
        #[trigger] t[p],
    ) by {
        if answer {
            if p == j - 1 && q > j {
                assert(!lt(s[q], s[j]));
            } else if p == j {
                assert(!lt(s[q], s[j - 1]));
            }
        }
    }
}

/// The element at `m` is one that none of the elements from `i` up to `j`
/// goes before.
pub open spec fn least_from<T>(
    s: Seq<T>,
    lt: spec_fn(T, T) -> bool,
    i: int,
    j: int,
    m: int,
) -> bool {
    forall|q: int| i <= q < j ==> !lt(#[trigger] s[q], s[m])
}

/// A step of a search for a least element: comparing the element at `j`
/// with the least one so far, and taking it for the least where it goes
/// before that one.
pub proof fn lemma_least_step<T>(
    s: Seq<T>,
    lt: spec_fn(T, T) -> bool,
    dom: Set<T>,
    i: int,
    j: int,
    m: int,
    answer: bool,
)
    requires
        strict_weak_order_on(lt, dom),
        within(s, dom),
        0 <= i <= m < j < s.len(),
        least_from(s, lt, i, j, m),
        answer == lt(s[j], s[m]),
    ensures
        least_from(s, lt, i, j + 1, if answer { j } else { m }),
{
    if answer {
        assert forall|q: int| i <= q < j + 1 implies !lt(#[trigger] s[q], s[j]) by {
            if q < j && lt(s[q], s[j]) {
                assert(lt(s[q], s[m]));
            }
        }
    }
}

/// Exchanging a least element of the elements from `i` on into the place
/// `i` gives that place its element.
pub proof fn lemma_select<T>(s: Seq<T>, lt: spec_fn(T, T) -> bool, i: int, m: int)
    requires
        0 <= i <= m < s.len(),
        settled(s, lt, i, s.len() - 1),
        least_from(s, lt, i, s.len() as int, m),
    ensures
        settled(swapped(s, i, m), lt, i + 1, s.len() - 1),
{
    let t = swapped(s, i, m);
    assert forall|p: int, q: int| 0 <= p < q < t.len() && p < i + 1 implies !lt(
        #[trigger] t[q],
        #[trigger] t[p],
    ) by {
        let was_q = if q == m {
            i
        } else if q == i {
            m
        } else {
            q
        };
        assert(t[q] == s[was_q]);
        if p < i {
            assert(t[p] == s[p]);
            assert(!lt(s[was_q], s[p]));
        } else {
            assert(t[p] == s[m]);
            assert(!lt(s[was_q], s[m]));
        }
    }
}

/// The index of the first of the least elements of `s` from `i` up to `j`:
/// the index that a scan from `i` holds when it has reached `j`, if it takes
/// a later element for the least only where that element goes before the
/// one it holds.
pub open spec fn first_least<T>(s: Seq<T>, lt: spec_fn(T, T) -> bool, i: int, j: int) -> int
    decreases j - i,
{
    if j <= i + 1 {
        i
    } else {
        let m = first_least(s, lt, i, j - 1);
        if lt(s[j - 1], s[m]) {
            j - 1
        } else {
            m
        }
    }
}

/// `s`, a sequence of `n` elements, after a selection sort of its part from
/// `i` on: each place in turn has had the first of the least elements from
/// that place on exchanged into it.
pub open spec fn selected<T>(s: Seq<T>, lt: spec_fn(T, T) -> bool, i: int, n: int) -> Seq<T>
    decreases n - i,
{
    if i < 0 || i >= n {
        s
    } else {
        selected(swapped(s, i, first_least(s, lt, i, n)), lt, i + 1, n)
    }
}

/// What comparing two neighbours, and exchanging them where the answer was
/// that the second goes before the first, keeps of a rearrangement of
/// `origin`: the elements, the order of equivalent elements, and the whole
/// where `origin` was sorted. For every relation that the comparison
/// function computes, the answer is what the relation says.
pub proof fn lemma_exchange_keeps<T, C: Fn(&T, &T) -> bool>(
    f: &C,
    origin: Seq<T>,
    before: Seq<T>,
    after: Seq<T>,
    j: int,
    answer: bool,
)
    requires
        0 <= j,
        j + 1 < before.len(),
        before.to_multiset() == origin.to_multiset(),
        call_ensures(*f, (&before[j + 1], &before[j]), answer),
        after == exchanged(before, j, answer),
        presorted(f, origin) ==> before == origin,
        forall|lt: spec_fn(T, T) -> bool| #[trigger]
            orders(f, lt, origin.to_set()) ==> stable(origin, before, lt),
    ensures
        after.len() == before.len(),
        after.to_multiset() == origin.to_multiset(),
        within(after, origin.to_set()),
        within(before, origin.to_set()),
        presorted(f, origin) ==> after == origin,
        forall|lt: spec_fn(T, T) -> bool| #[trigger]
            orders(f, lt, origin.to_set()) ==> stable(origin, after, lt) && answer == lt(
                before[j + 1],
                before[j],
            ),
{
    lemma_same_elements(before, origin);
    if answer {
        lemma_swapped_multiset(before, j, j + 1);
    }
    lemma_same_elements(after, origin);
    assert forall|k: int| 0 <= k < after.len() implies origin.to_set().contains(
        #[trigger] after[k],
    ) by {
        assert(after.contains(after[k]));
    }
    assert forall|k: int| 0 <= k < before.len() implies origin.to_set().contains(
        #[trigger] before[k],
    ) by {
        assert(before.contains(before[k]));
    }
    if presorted(f, origin) && answer {
        lemma_presorted_answer(f, origin, j, j + 1);
    }
    assert forall|lt: spec_fn(T, T) -> bool| #[trigger]
        orders(f, lt, origin.to_set()) implies stable(origin, after, lt) && answer == lt(
        before[j + 1],
        before[j],
    ) by {
        lemma_exchange_stable(origin, before, lt, j, answer);
    }
}

/// Every element of a rearrangement of `origin` is an element of `origin`.
pub proof fn lemma_rearranged_within<T>(origin: Seq<T>, s: Seq<T>)
    requires
        s.to_multiset() == origin.to_multiset(),
    ensures
        within(s, origin.to_set()),
        s.to_set() == origin.to_set(),
        s.len() == origin.len(),
{
    lemma_same_elements(s, origin);
    assert forall|k: int| 0 <= k < s.len() implies origin.to_set().contains(#[trigger] s[k]) by {
        assert(s.contains(s[k]));
    }
}

/// A sequence keeps the order of its own equivalent elements.
pub proof fn lemma_stable_start<T>(s: Seq<T>)
    ensures
        forall|lt: spec_fn(T, T) -> bool| #[trigger] stable(s, s, lt),
{
}

} // verus!
