//! Comparison sorts that work in place on a slice, each ordering the slice
//! by a comparison function that the caller supplies.
//!
//! The function is called with two elements and answers whether the first
//! goes before the second. What a sort promises of the order of its result,
//! it promises for every relation that the function computes and that is a
//! strict weak ordering of the elements; that the result holds the elements
//! of the slice, each as often as the slice did, it promises whatever the
//! function answers.

pub mod heaps;
pub mod merging;
pub mod partitioning;
pub mod passes;

use vstd::prelude::*;
use crate::order::{
    callable_on, computes, orders, presorted, presorted_apart, sorted, sorted_between, sorted_by,
    stable, stable_by, strict_total_order_on, lemma_function_on_subset, lemma_not_less_transitive,
    lemma_presorted_answer,
};
use crate::rearrange::{
    swapped, lemma_concat_elements, lemma_same_elements, lemma_short_rearrangement,
    lemma_swapped_multiset,
};
use crate::unique::lemma_sorted_unique;
use self::heaps::{
    covers_children, drained, heap_except, heap_from, heap_ordered_at, heap_sorted, heaped,
    inner_nodes, sift_target, sifted, lemma_exchanged_heap, lemma_leaves_are_heaps,
    lemma_root_on_top, lemma_sift_step, lemma_sift_stop,
};
use self::merging::{
    merging, taken, lemma_merge_of_sorted_halves, lemma_merging_done, lemma_merging_start,
    lemma_merging_take_left, lemma_merging_take_right, lemma_sorted_parts, lemma_taken_all,
    lemma_taken_left, lemma_taken_right, lemma_taken_start,
};
use self::partitioning::{
    exchanged_at, gathered, partitions_at, scanned, split_at, lemma_sides_rearranged,
    lemma_sorted_sides,
};
use self::passes::{
    falling, first_least, inserting, least_from, rising, selected, settled, within,
    lemma_exchange_keeps, lemma_insert_step, lemma_least_step, lemma_pass_down, lemma_pass_up,
    lemma_rearranged_within, lemma_select, lemma_settle_bottom, lemma_settle_top,
    lemma_settled_is_sorted, lemma_stable_start,
};

verus! {

/// `<[T]>::swap` exchanges the elements at the two indices and leaves the
/// others alone; it panics on an index out of bounds, which the
/// precondition rules out.
pub assume_specification<V>[ <[V]>::swap ](slice: &mut [V], a: usize, b: usize)
    requires
        a < old(slice)@.len(),
        b < old(slice)@.len(),
    ensures
        final(slice)@ == old(slice)@.update(a as int, old(slice)@[b as int]).update(
            b as int,
            old(slice)@[a as int],
        ),
;

/// Selection sort: for each position in turn, finds the first of the least
/// elements from that position on and exchanges it into the position.
///
/// The slice is rearranged, never resized, and the result is sorted.
/// Elements that are equivalent may change their order, in the way that the
/// exchanges bring about. A slice that is sorted already is left as it is.
pub fn selection<T: Ord, C: Fn(&T, &T) -> bool>(a: &mut [T], less_than: &C)
    requires
        callable_on(less_than, old(a)@.to_set()),
    ensures
        final(a)@.to_multiset() == old(a)@.to_multiset(),
        sorted_by(less_than, old(a)@, final(a)@),
        forall|lt: spec_fn(T, T) -> bool| #[trigger]
            computes(less_than, lt, old(a)@.to_set()) ==> final(a)@ == selected(
                old(a)@,
                lt,
                0,
                old(a)@.len() as int,
            ),
        presorted(less_than, old(a)@) ==> final(a)@ == old(a)@,
        old(a)@.len() <= 1 ==> final(a)@ == old(a)@,
{
    let n: usize = a.len();
    let ghost dom = a@.to_set();
    proof {
        lemma_rearranged_within(old(a)@, a@);
    }
    let mut i: usize = 0;
    while i < n
        invariant
            i <= n,
            a@.len() == n,
            dom == old(a)@.to_set(),
            callable_on(less_than, dom),
            within(a@, dom),
            a@.to_multiset() == old(a)@.to_multiset(),
            forall|lt: spec_fn(T, T) -> bool| #[trigger]
                orders(less_than, lt, dom) ==> settled(a@, lt, i as int, n - 1),
            forall|lt: spec_fn(T, T) -> bool| #[trigger]
                computes(less_than, lt, dom) ==> selected(a@, lt, i as int, n as int) == selected(
                    old(a)@,
                    lt,
                    0,
                    n as int,
                ),
            presorted(less_than, old(a)@) ==> a@ == old(a)@,
        decreases n - i,
    {
        let mut i_min: usize = i;
        let mut j: usize = i + 1;
        while j < n
            invariant
                i <= i_min < j <= n,
                a@.len() == n,
                dom == old(a)@.to_set(),
                callable_on(less_than, dom),
                within(a@, dom),
                forall|lt: spec_fn(T, T) -> bool| #[trigger]
                    orders(less_than, lt, dom) ==> least_from(
                        a@,
                        lt,
                        i as int,
                        j as int,
                        i_min as int,
                    ),
                forall|lt: spec_fn(T, T) -> bool| #[trigger]
                    computes(less_than, lt, dom) ==> i_min == first_least(
                        a@,
                        lt,
                        i as int,
                        j as int,
                    ),
                presorted(less_than, old(a)@) ==> a@ == old(a)@ && i_min == i,
            decreases n - j,
        {
            let answer: bool = less_than(&a[j], &a[i_min]);
            proof {
                assert forall|lt: spec_fn(T, T) -> bool| #[trigger]
                    computes(less_than, lt, dom) implies (if answer {
                    j as int
                } else {
                    i_min as int
                }) == first_least(a@, lt, i as int, j + 1) by {
                    assert(answer == lt(a@[j as int], a@[i_min as int]));
                }
                assert forall|lt: spec_fn(T, T) -> bool| #[trigger]
                    orders(less_than, lt, dom) implies least_from(
                    a@,
                    lt,
                    i as int,
                    j + 1,
                    if answer {
                        j as int
                    } else {
                        i_min as int
                    },
                ) by {
                    lemma_least_step(a@, lt, dom, i as int, j as int, i_min as int, answer);
                }
                if presorted(less_than, old(a)@) && answer {
                    lemma_presorted_answer(less_than, old(a)@, i as int, j as int);
                }
            }
            if answer {
                i_min = j;
            }
            j += 1;
        }
        let ghost before = a@;
        if i_min != i {
            a.swap(i_min, i);
        }
        proof {
            assert(a@ =~= swapped(before, i as int, i_min as int));
            lemma_swapped_multiset(before, i as int, i_min as int);
            lemma_rearranged_within(old(a)@, a@);
            assert forall|lt: spec_fn(T, T) -> bool| #[trigger]
                orders(less_than, lt, dom) implies settled(a@, lt, i + 1, n - 1) by {
                lemma_select(before, lt, i as int, i_min as int);
            }
            assert forall|lt: spec_fn(T, T) -> bool| #[trigger]
                computes(less_than, lt, dom) implies selected(a@, lt, i + 1, n as int) == selected(
                old(a)@,
                lt,
                0,
                n as int,
            ) by {
                assert(selected(before, lt, i as int, n as int) == selected(
                    a@,
                    lt,
                    i + 1,
                    n as int,
                ));
            }
        }
        i += 1;
    }
    proof {
        assert forall|lt: spec_fn(T, T) -> bool| #[trigger]
            orders(less_than, lt, dom) implies sorted(a@, lt) by {
            assert(settled(a@, lt, n as int, n - 1));
        }
        if n <= 1 {
            lemma_short_rearrangement(old(a)@, a@);
        }
    }
}

/// Bubble sort: passes over a shrinking front part of the slice, each
/// exchanging the neighbours that stand in the wrong order, so that each pass
/// carries the last of the greatest elements of that part to its end.
///
/// The slice is rearranged, never resized; the result is sorted, and
/// elements that are equivalent keep the order in which they stood. A slice
/// that is sorted already is left as it is.
pub fn bubble<T: Ord, C: Fn(&T, &T) -> bool>(a: &mut [T], less_than: &C)
    requires
        callable_on(less_than, old(a)@.to_set()),
    ensures
        final(a)@.to_multiset() == old(a)@.to_multiset(),
        sorted_by(less_than, old(a)@, final(a)@),
        stable_by(less_than, old(a)@, final(a)@),
        presorted(less_than, old(a)@) ==> final(a)@ == old(a)@,
        old(a)@.len() <= 1 ==> final(a)@ == old(a)@,
{
    let n: usize = a.len();
    let ghost dom = a@.to_set();
    proof {
        lemma_rearranged_within(old(a)@, a@);
        lemma_stable_start(old(a)@);
    }
    let mut i: usize = n;
    while i > 0
        invariant
            i <= n,
            a@.len() == n,
            dom == old(a)@.to_set(),
            callable_on(less_than, dom),
            within(a@, dom),
            a@.to_multiset() == old(a)@.to_multiset(),
            forall|lt: spec_fn(T, T) -> bool| #[trigger]
                orders(less_than, lt, dom) ==> settled(a@, lt, 0, i - 1) && stable(
                    old(a)@,
                    a@,
                    lt,
                ),
            presorted(less_than, old(a)@) ==> a@ == old(a)@,
        decreases i,
    {
        i -= 1;
        let mut j: usize = 0;
        while j < i
            invariant
                j <= i < n,
                a@.len() == n,
                dom == old(a)@.to_set(),
                callable_on(less_than, dom),
                within(a@, dom),
                a@.to_multiset() == old(a)@.to_multiset(),
                forall|lt: spec_fn(T, T) -> bool| #[trigger]
                    orders(less_than, lt, dom) ==> settled(a@, lt, 0, i as int) && rising(
                        a@,
                        lt,
                        0,
                        j as int,
                    ) && stable(old(a)@, a@, lt),
                presorted(less_than, old(a)@) ==> a@ == old(a)@,
            decreases i - j,
        {
            let ghost before = a@;
            let answer: bool = less_than(&a[j + 1], &a[j]);
            if answer {
                a.swap(j, j + 1);
            }
            proof {
                lemma_exchange_keeps(less_than, old(a)@, before, a@, j as int, answer);
                assert forall|lt: spec_fn(T, T) -> bool| #[trigger]
                    orders(less_than, lt, dom) implies settled(a@, lt, 0, i as int) && rising(
                    a@,
                    lt,
                    0,
                    j + 1,
                ) by {
                    lemma_pass_up(before, lt, dom, 0, i as int, j as int, answer);
                }
            }
            j += 1;
        }
        proof {
            assert forall|lt: spec_fn(T, T) -> bool| #[trigger]
                orders(less_than, lt, dom) implies settled(a@, lt, 0, i - 1) by {
                lemma_settle_top(a@, lt, 0, i as int);
            }
        }
    }
    proof {
        assert forall|lt: spec_fn(T, T) -> bool| #[trigger]
            orders(less_than, lt, dom) implies sorted(a@, lt) by {
            assert(settled(a@, lt, 0, -1));
        }
        if n <= 1 {
            lemma_short_rearrangement(old(a)@, a@);
        }
    }
}

/// Cocktail sort: a bubble sort that runs in both directions by turns. A
/// forward pass carries the last of the greatest elements of the window to
/// its upper end, a backward pass the first of the least to its lower end,
/// and the window shrinks by one at each end. A forward pass that exchanges
/// nothing ends the sort.
///
/// The slice is rearranged, never resized; the result is sorted, and
/// elements that are equivalent keep the order in which they stood. A slice
/// that is sorted already is left as it is.
pub fn cocktail<T: Ord, C: Fn(&T, &T) -> bool>(a: &mut [T], less_than: &C)
    requires
        callable_on(less_than, old(a)@.to_set()),
    ensures
        final(a)@.to_multiset() == old(a)@.to_multiset(),
        sorted_by(less_than, old(a)@, final(a)@),
        stable_by(less_than, old(a)@, final(a)@),
        presorted(less_than, old(a)@) ==> final(a)@ == old(a)@,
        old(a)@.len() <= 1 ==> final(a)@ == old(a)@,
{
    let n: usize = a.len();
    proof {
        lemma_stable_start(old(a)@);
    }
    if n == 0 {
        return ;
    }
    let ghost dom = a@.to_set();
    proof {
        lemma_rearranged_within(old(a)@, a@);
    }
    let mut changed: bool = true;
    let mut start: usize = 0;
    let mut end: usize = n - 1;
    while changed
        invariant
            start <= end + 1 <= n,
            a@.len() == n,
            dom == old(a)@.to_set(),
            callable_on(less_than, dom),
            within(a@, dom),
            a@.to_multiset() == old(a)@.to_multiset(),
            forall|lt: spec_fn(T, T) -> bool| #[trigger]
                orders(less_than, lt, dom) ==> settled(a@, lt, start as int, end as int) && stable(
                    old(a)@,
                    a@,
                    lt,
                ),
            presorted(less_than, old(a)@) ==> a@ == old(a)@,
            !changed ==> sorted_by(less_than, old(a)@, a@),
        ensures
            sorted_by(less_than, old(a)@, a@),
        decreases end + 1 - start,
    {
        changed = false;
        let mut i: usize = start;
        while i < end
            invariant
                start <= end + 1 <= n,
                start <= i,
                i <= end || i == start,
                a@.len() == n,
                dom == old(a)@.to_set(),
                callable_on(less_than, dom),
                within(a@, dom),
                a@.to_multiset() == old(a)@.to_multiset(),
                forall|lt: spec_fn(T, T) -> bool| #[trigger]
                    orders(less_than, lt, dom) ==> settled(a@, lt, start as int, end as int)
                        && rising(a@, lt, start as int, i as int) && stable(old(a)@, a@, lt) && (
                    !changed ==> sorted_between(a@, lt, start as int, i + 1)),
                changed ==> start < end,
                presorted(less_than, old(a)@) ==> a@ == old(a)@,
            decreases end - i,
        {
            let ghost before = a@;
            let answer: bool = less_than(&a[i + 1], &a[i]);
            if answer {
                a.swap(i, i + 1);
                changed = true;
            }
            proof {
                lemma_exchange_keeps(less_than, old(a)@, before, a@, i as int, answer);
                assert forall|lt: spec_fn(T, T) -> bool| #[trigger]
                    orders(less_than, lt, dom) implies settled(a@, lt, start as int, end as int)
                    && rising(a@, lt, start as int, i + 1) && (!changed ==> sorted_between(
                    a@,
                    lt,
                    start as int,
                    i + 2,
                )) by {
                    lemma_pass_up(before, lt, dom, start as int, end as int, i as int, answer);
                }
            }
            i += 1;
        }
        if !changed {
            proof {
                assert forall|lt: spec_fn(T, T) -> bool| #[trigger]
                    orders(less_than, lt, dom) implies sorted(a@, lt) by {
                    lemma_settled_is_sorted(a@, lt, start as int, end as int);
                }
            }
            break ;
        }
        proof {
            assert forall|lt: spec_fn(T, T) -> bool| #[trigger]
                orders(less_than, lt, dom) implies settled(a@, lt, start as int, end - 1) by {
                lemma_settle_top(a@, lt, start as int, end as int);
            }
        }
        end -= 1;

        changed = true;
        let mut k: usize = end;
        proof {
            assert forall|lt: spec_fn(T, T) -> bool| #[trigger]
                orders(less_than, lt, dom) implies falling(a@, lt, k as int, end as int) by {
            }
        }
        while k > start
            invariant
                start <= k <= end,
                end + 1 < n,
                a@.len() == n,
                dom == old(a)@.to_set(),
                callable_on(less_than, dom),
                within(a@, dom),
                a@.to_multiset() == old(a)@.to_multiset(),
                forall|lt: spec_fn(T, T) -> bool| #[trigger]
                    orders(less_than, lt, dom) ==> settled(a@, lt, start as int, end as int)
                        && falling(a@, lt, k as int, end as int) && stable(old(a)@, a@, lt),
                presorted(less_than, old(a)@) ==> a@ == old(a)@,
            decreases k,
        {
            k -= 1;
            let ghost before = a@;
            let answer: bool = less_than(&a[k + 1], &a[k]);
            if answer {
                a.swap(k, k + 1);
            }
            proof {
                lemma_exchange_keeps(less_than, old(a)@, before, a@, k as int, answer);
                assert forall|lt: spec_fn(T, T) -> bool| #[trigger]
                    orders(less_than, lt, dom) implies settled(a@, lt, start as int, end as int)
                    && falling(a@, lt, k as int, end as int) by {
                    lemma_pass_down(before, lt, dom, start as int, end as int, k as int, answer);
                }
            }
        }
        proof {
            assert forall|lt: spec_fn(T, T) -> bool| #[trigger]
                orders(less_than, lt, dom) implies settled(a@, lt, start + 1, end as int) by {
                lemma_settle_bottom(a@, lt, start as int, end as int);
            }
        }
        start += 1;
    }
    proof {
        if n <= 1 {
            lemma_short_rearrangement(old(a)@, a@);
        }
    }
}

/// Insertion sort: for each position from the second on, carries the element
/// that stands there down past the elements that it goes before, by a pass
/// that exchanges neighbours standing in the wrong order from that position
/// down to the start.
///
/// The slice is rearranged, never resized; the result is sorted, and
/// elements that are equivalent keep the order in which they stood. A slice
/// that is sorted already is left as it is.
pub fn insection<T: Ord, C: Fn(&T, &T) -> bool>(a: &mut [T], less_than: &C)
    requires
        callable_on(less_than, old(a)@.to_set()),
    ensures
        final(a)@.to_multiset() == old(a)@.to_multiset(),
        sorted_by(less_than, old(a)@, final(a)@),
        stable_by(less_than, old(a)@, final(a)@),
        presorted(less_than, old(a)@) ==> final(a)@ == old(a)@,
        old(a)@.len() <= 1 ==> final(a)@ == old(a)@,
{
    let n: usize = a.len();
    let ghost dom = a@.to_set();
    proof {
        lemma_rearranged_within(old(a)@, a@);
        lemma_stable_start(old(a)@);
    }
    let mut i: usize = 1;
    while i < n
        invariant
            1 <= i,
            i <= n || n == 0,
            a@.len() == n,
            dom == old(a)@.to_set(),
            callable_on(less_than, dom),
            within(a@, dom),
            a@.to_multiset() == old(a)@.to_multiset(),
            forall|lt: spec_fn(T, T) -> bool| #[trigger]
                orders(less_than, lt, dom) ==> sorted_between(a@, lt, 0, i as int) && stable(
                    old(a)@,
                    a@,
                    lt,
                ),
            presorted(less_than, old(a)@) ==> a@ == old(a)@,
        decreases n - i,
    {
        let mut j: usize = i;
        while j > 0
            invariant
                j <= i < n,
                a@.len() == n,
                dom == old(a)@.to_set(),
                callable_on(less_than, dom),
                within(a@, dom),
                a@.to_multiset() == old(a)@.to_multiset(),
                forall|lt: spec_fn(T, T) -> bool| #[trigger]
                    orders(less_than, lt, dom) ==> inserting(a@, lt, j as int, i as int) && stable(
                        old(a)@,
                        a@,
                        lt,
                    ),
                presorted(less_than, old(a)@) ==> a@ == old(a)@,
            decreases j,
        {
            j -= 1;
            let ghost before = a@;
            let answer: bool = less_than(&a[j + 1], &a[j]);
            if answer {
                a.swap(j, j + 1);
            }
            proof {
                lemma_exchange_keeps(less_than, old(a)@, before, a@, j as int, answer);
                assert forall|lt: spec_fn(T, T) -> bool| #[trigger]
                    orders(less_than, lt, dom) implies inserting(a@, lt, j as int, i as int) by {
                    lemma_insert_step(before, lt, dom, j + 1, i as int, answer);
                }
            }
        }
        i += 1;
    }
    proof {
        assert forall|lt: spec_fn(T, T) -> bool| #[trigger]
            orders(less_than, lt, dom) implies sorted(a@, lt) by {
            if n > 0 {
                assert(sorted_between(a@, lt, 0, n as int));
            }
        }
        if n <= 1 {
            lemma_short_rearrangement(old(a)@, a@);
        }
    }
}

/// Merge sort: sorts each half of the slice, then merges the two halves
/// through a buffer of the slice's length.
///
/// The slice is rearranged, never resized; the result is sorted, and
/// elements that are equivalent keep the order in which they stood. A slice
/// that is sorted already is left as it is.
pub fn merge<T: Copy + Ord, C: Fn(&T, &T) -> bool>(a: &mut [T], less_than: &C)
    requires
        callable_on(less_than, old(a)@.to_set()),
    ensures
        final(a)@.to_multiset() == old(a)@.to_multiset(),
        sorted_by(less_than, old(a)@, final(a)@),
        stable_by(less_than, old(a)@, final(a)@),
        presorted(less_than, old(a)@) ==> final(a)@ == old(a)@,
        old(a)@.len() <= 1 ==> final(a)@ == old(a)@,
    decreases old(a)@.len(),
{
    let mid: usize = a.len() / 2;
    let end: usize = a.len();
    if end <= 1 {
        proof {
            lemma_stable_start(old(a)@);
        }
        return ;
    }
    let ghost l = a@.subrange(0, mid as int);
    let ghost r = a@.subrange(mid as int, end as int);
    let ghost dom = a@.to_set();
    proof {
        assert(a@ =~= l + r);
        lemma_concat_elements(l, r);
        lemma_function_on_subset(less_than, dom, l.to_set());
        lemma_function_on_subset(less_than, dom, r.to_set());
    }
    let (left, right) = a.split_at_mut(mid);
    merge(left, less_than);
    merge(right, less_than);
    let ghost ls = left@;
    let ghost rs = right@;
    proof {
        lemma_same_elements(l, ls);
        lemma_same_elements(r, rs);
    }
    let mut o: Vec<T> = vstd::slice::slice_to_vec(a);
    proof {
        assert(a@ == ls + rs);
        assert(a@.subrange(0, mid as int) =~= ls);
        assert(a@.subrange(mid as int, end as int) =~= rs);
        vstd::seq_lib::lemma_multiset_commutative(l, r);
        vstd::seq_lib::lemma_multiset_commutative(ls, rs);
        lemma_same_elements(l + r, ls + rs);
        if presorted(less_than, l + r) {
            let lt = choose|lt: spec_fn(T, T) -> bool| #[trigger]
                computes(less_than, lt, dom) && sorted(l + r, lt);
            lemma_sorted_parts(l, r, lt);
            assert(computes(less_than, lt, l.to_set()));
            assert(computes(less_than, lt, r.to_set()));
        }
    }
    combine(&a[0..mid], &a[mid..end], o.as_mut_slice(), less_than);
    proof {
        assert forall|lt: spec_fn(T, T) -> bool| #[trigger]
            orders(less_than, lt, dom) implies sorted(o@, lt) && stable(l + r, o@, lt) by {
            assert(orders(less_than, lt, l.to_set()));
            assert(orders(less_than, lt, r.to_set()));
            assert(orders(less_than, lt, (ls + rs).to_set()));
            lemma_merge_of_sorted_halves(l, r, ls, rs, o@, lt);
        }
    }
    let mut k: usize = 0;
    while k < end
        invariant
            k <= end,
            a@.len() == end,
            o@.len() == end,
            forall|p: int| 0 <= p < k ==> a@[p] == o@[p],
        decreases end - k,
    {
        a[k] = o[k];
        k += 1;
    }
    proof {
        assert(a@ =~= o@);
    }
}

/// Merges the runs `l` and `r` into `o`, which has room for exactly the two:
/// while both runs have elements left, the next element of `r` is taken if
/// it goes before the next element of `l`, and the next element of `l`
/// otherwise; what is left of the other run follows.
///
/// `o` receives the elements of both runs. Of two sorted runs the result is
/// sorted and keeps equivalent elements in their order, those of `l` before
/// those of `r`; of two runs that are sorted when joined it is the two
/// joined.
pub fn combine<T: Copy + PartialOrd, C: Fn(&T, &T) -> bool>(
    l: &[T],
    r: &[T],
    o: &mut [T],
    less_than: &C,
)
    requires
        l@.len() + r@.len() == old(o)@.len(),
        callable_on(less_than, (l@ + r@).to_set()),
    ensures
        final(o)@.len() == old(o)@.len(),
        final(o)@.to_multiset() == (l@ + r@).to_multiset(),
        forall|lt: spec_fn(T, T) -> bool| #[trigger]
            orders(less_than, lt, (l@ + r@).to_set()) && sorted(l@, lt) && sorted(r@, lt)
                ==> sorted(final(o)@, lt) && stable(l@ + r@, final(o)@, lt),
        presorted(less_than, l@ + r@) ==> final(o)@ == l@ + r@,
{
    let ghost dom = (l@ + r@).to_set();
    let mut i: usize = 0;
    let mut j: usize = 0;
    let mut k: usize = 0;
    proof {
        lemma_concat_elements(l@, r@);
        lemma_taken_start(l@, r@);
        assert(o@.take(0) =~= Seq::<T>::empty());
        assert forall|lt: spec_fn(T, T) -> bool| #[trigger]
            computes(less_than, lt, dom) implies merging(l@, r@, o@.take(0), lt, 0, 0) by {
            lemma_merging_start(l@, r@, lt);
        }
    }
    while i < l.len() && j < r.len()
        invariant
            k == i + j,
            o@.len() == l@.len() + r@.len(),
            dom == (l@ + r@).to_set(),
            callable_on(less_than, dom),
            forall|p: int| 0 <= p < l@.len() ==> dom.contains(#[trigger] l@[p]),
            forall|p: int| 0 <= p < r@.len() ==> dom.contains(#[trigger] r@[p]),
            taken(l@, r@, o@.take(k as int), i as int, j as int),
            forall|lt: spec_fn(T, T) -> bool| #[trigger]
                computes(less_than, lt, dom) ==> merging(
                    l@,
                    r@,
                    o@.take(k as int),
                    lt,
                    i as int,
                    j as int,
                ),
        decreases l@.len() + r@.len() - k,
    {
        let ghost out = o@.take(k as int);
        if less_than(&r[j], &l[i]) {
            o[k] = r[j];
            proof {
                assert(o@.take(k + 1) =~= out.push(r@[j as int]));
                lemma_taken_right(l@, r@, out, i as int, j as int);
                assert forall|lt: spec_fn(T, T) -> bool| #[trigger]
                    computes(less_than, lt, dom) implies merging(
                    l@,
                    r@,
                    o@.take(k + 1),
                    lt,
                    i as int,
                    j + 1,
                ) by {
                    lemma_merging_take_right(l@, r@, out, lt, i as int, j as int);
                }
            }
            k += 1;
            j += 1;
        } else {
            o[k] = l[i];
            proof {
                assert(o@.take(k + 1) =~= out.push(l@[i as int]));
                lemma_taken_left(l@, r@, out, i as int, j as int);
                assert forall|lt: spec_fn(T, T) -> bool| #[trigger]
                    computes(less_than, lt, dom) implies merging(
                    l@,
                    r@,
                    o@.take(k + 1),
                    lt,
                    i + 1,
                    j as int,
                ) by {
                    lemma_merging_take_left(l@, r@, out, lt, i as int, j as int);
                }
            }
            k += 1;
            i += 1;
        }
    }
    while i < l.len()
        invariant
            k == i + j,
            o@.len() == l@.len() + r@.len(),
            dom == (l@ + r@).to_set(),
            i < l@.len() ==> j == r@.len(),
            taken(l@, r@, o@.take(k as int), i as int, j as int),
            forall|lt: spec_fn(T, T) -> bool| #[trigger]
                computes(less_than, lt, dom) ==> merging(
                    l@,
                    r@,
                    o@.take(k as int),
                    lt,
                    i as int,
                    j as int,
                ),
        decreases l@.len() - i,
    {
        let ghost out = o@.take(k as int);
        o[k] = l[i];
        proof {
            assert(o@.take(k + 1) =~= out.push(l@[i as int]));
            lemma_taken_left(l@, r@, out, i as int, j as int);
            assert forall|lt: spec_fn(T, T) -> bool| #[trigger]
                computes(less_than, lt, dom) implies merging(
                l@,
                r@,
                o@.take(k + 1),
                lt,
                i + 1,
                j as int,
            ) by {
                lemma_merging_take_left(l@, r@, out, lt, i as int, j as int);
            }
        }
        k += 1;
        i += 1;
    }
    while j < r.len()
        invariant
            k == i + j,
            o@.len() == l@.len() + r@.len(),
            dom == (l@ + r@).to_set(),
            i == l@.len(),
            taken(l@, r@, o@.take(k as int), i as int, j as int),
            forall|lt: spec_fn(T, T) -> bool| #[trigger]
                computes(less_than, lt, dom) ==> merging(
                    l@,
                    r@,
                    o@.take(k as int),
                    lt,
                    i as int,
                    j as int,
                ),
        decreases r@.len() - j,
    {
        let ghost out = o@.take(k as int);
        o[k] = r[j];
        proof {
            assert(o@.take(k + 1) =~= out.push(r@[j as int]));
            lemma_taken_right(l@, r@, out, i as int, j as int);
            assert forall|lt: spec_fn(T, T) -> bool| #[trigger]
                computes(less_than, lt, dom) implies merging(
                l@,
                r@,
                o@.take(k + 1),
                lt,
                i as int,
                j + 1,
            ) by {
                lemma_merging_take_right(l@, r@, out, lt, i as int, j as int);
            }
        }
        k += 1;
        j += 1;
    }
    proof {
        assert(o@.take(k as int) =~= o@);
        lemma_taken_all(l@, r@, o@);
        assert forall|lt: spec_fn(T, T) -> bool| #[trigger]
            orders(less_than, lt, dom) && sorted(l@, lt) && sorted(r@, lt) implies sorted(o@, lt)
            && stable(l@ + r@, o@, lt) by {
            lemma_merging_done(l@, r@, o@, lt);
        }
        if presorted(less_than, l@ + r@) {
            let lt = choose|lt: spec_fn(T, T) -> bool| #[trigger]
                computes(less_than, lt, dom) && sorted(l@ + r@, lt);
            lemma_merging_done(l@, r@, o@, lt);
        }
    }
}

/// Quicksort: partitions the slice around an element picked at random, then
/// sorts the part before the pivot and the part behind it.
///
/// Whichever elements are picked, the slice is rearranged, never resized,
/// and the result is sorted. Elements that are equivalent may come out in
/// any order; a slice that is sorted already, and in which no two different
/// elements are equivalent, is left as it is.
pub fn quick<T: Copy + Ord, C: Fn(&T, &T) -> bool>(a: &mut [T], less_than: &C)
    requires
        callable_on(less_than, old(a)@.to_set()),
    ensures
        final(a)@.to_multiset() == old(a)@.to_multiset(),
        sorted_by(less_than, old(a)@, final(a)@),
        presorted_apart(less_than, old(a)@) ==> final(a)@ == old(a)@,
        old(a)@.len() <= 1 ==> final(a)@ == old(a)@,
    decreases old(a)@.len(),
{
    let end: usize = a.len();
    if end <= 1 {
        return ;
    }
    let mid: usize = partition(a, less_than);
    let ghost arranged = a@;
    let ghost dom = arranged.to_set();
    let ghost front = arranged.take(mid as int);
    let ghost back = arranged.skip(mid + 1);
    proof {
        lemma_same_elements(old(a)@, arranged);
        assert(arranged =~= front + arranged.skip(mid as int));
        lemma_concat_elements(front, arranged.skip(mid as int));
        assert(arranged.skip(mid as int) =~= seq![arranged[mid as int]] + back);
        lemma_concat_elements(seq![arranged[mid as int]], back);
        lemma_function_on_subset(less_than, dom, front.to_set());
        lemma_function_on_subset(less_than, dom, back.to_set());
    }
    let (left, rest) = a.split_at_mut(mid);
    let (pivot, right) = rest.split_at_mut(1);
    quick(left, less_than);
    quick(right, less_than);
    let ghost ls = left@;
    let ghost rs = right@;
    proof {
        assert(pivot@ =~= seq![arranged[mid as int]]);
        assert(arranged.subrange(0, mid as int) =~= front);
        assert(arranged.skip(mid as int).subrange(1, end - mid) =~= back);
        lemma_sides_rearranged(arranged, mid as int, ls, rs);
        assert forall|lt: spec_fn(T, T) -> bool| #[trigger]
            orders(less_than, lt, dom) implies sorted(a@, lt) by {
            assert(orders(less_than, lt, front.to_set()));
            assert(orders(less_than, lt, back.to_set()));
            lemma_sorted_sides(arranged, lt, mid as int, ls, rs);
        }
        if presorted_apart(less_than, old(a)@) {
            let lt = choose|lt: spec_fn(T, T) -> bool| #[trigger]
                computes(less_than, lt, dom) && strict_total_order_on(lt, dom) && sorted(
                    old(a)@,
                    lt,
                );
            assert(orders(less_than, lt, dom));
            lemma_sorted_unique(old(a)@, a@, lt);
        }
    }
}

/// Partitions the slice around one of its elements, picked at random, and
/// returns the index at which that element then stands; an empty slice has
/// nothing to pick, and the index is 0.
///
/// Whichever element is picked, the slice is rearranged, never resized; the
/// elements before the returned index go before the pivot, and none of the
/// elements behind it does.
pub fn partition<T: Copy + Ord, C: Fn(&T, &T) -> bool>(a: &mut [T], less_than: &C) -> (split:
    usize)
    requires
        callable_on(less_than, old(a)@.to_set()),
    ensures
        final(a)@.to_multiset() == old(a)@.to_multiset(),
        old(a)@.len() == 0 ==> split == 0,
        old(a)@.len() > 0 ==> split < old(a)@.len(),
        old(a)@.len() > 0 ==> forall|lt: spec_fn(T, T) -> bool| #[trigger]
            computes(less_than, lt, old(a)@.to_set()) ==> split_at(final(a)@, lt, split as int),
        old(a)@.len() > 0 ==> exists|chosen: int|
            0 <= chosen < old(a)@.len() && #[trigger] partitions_at(
                less_than,
                old(a)@,
                final(a)@,
                split as int,
                chosen,
            ),
{
    if a.len() == 0 {
        return 0;
    }
    let chosen: usize = random_index(0, a.len());
    let split: usize = partition_at(a, less_than, chosen);
    proof {
        assert(partitions_at(less_than, old(a)@, a@, split as int, chosen as int));
    }
    split
}

/// `rand::Rng::gen_range` on the generator of `rand::thread_rng`: an index
/// from `low` up to, not including, `high`, which one being left to chance.
/// The call panics unless `low` is below `high`; it also panics where the
/// generator of the thread cannot be seeded from the system.
#[verifier::external_body]
fn random_index(low: usize, high: usize) -> (index: usize)
    requires
        low < high,
    ensures
        low <= index < high,
{
    rand::Rng::gen_range(&mut rand::thread_rng(), low, high)
}

/// Partitions the slice around the element at `chosen` and returns the index
/// at which that element then stands. The pivot is first exchanged with the
/// last element; a scan then gathers at the front the elements that go
/// before the pivot; at last the pivot is exchanged into the place behind
/// them.
///
/// The slice is rearranged, never resized; the elements before the returned
/// index go before the pivot, and none of the elements behind it does.
pub fn partition_at<T: Copy + Ord, C: Fn(&T, &T) -> bool>(
    a: &mut [T],
    less_than: &C,
    chosen: usize,
) -> (split: usize)
    requires
        chosen < old(a)@.len(),
        callable_on(less_than, old(a)@.to_set()),
    ensures
        final(a)@.to_multiset() == old(a)@.to_multiset(),
        split < old(a)@.len(),
        final(a)@[split as int] == old(a)@[chosen as int],
        forall|lt: spec_fn(T, T) -> bool| #[trigger]
            computes(less_than, lt, old(a)@.to_set()) ==> split_at(final(a)@, lt, split as int),
        partitions_at(less_than, old(a)@, final(a)@, split as int, chosen as int),
{
    let ghost dom = a@.to_set();
    let n: usize = a.len();
    let end: usize = n - 1;
    let pivot: T = a[chosen];
    proof {
        assert(a@.contains(pivot));
        lemma_swapped_multiset(a@, chosen as int, end as int);
    }
    a.swap(chosen, end);
    proof {
        lemma_rearranged_within(old(a)@, a@);
    }
    let mut i: usize = 0;
    let mut j: usize = 0;
    while j < end
        invariant
            i <= j <= end,
            end + 1 == n,
            a@.len() == n,
            dom == old(a)@.to_set(),
            dom.contains(pivot),
            callable_on(less_than, dom),
            within(a@, dom),
            a@.to_multiset() == old(a)@.to_multiset(),
            a@[end as int] == pivot,
            forall|lt: spec_fn(T, T) -> bool| #[trigger]
                computes(less_than, lt, dom) ==> scanned(a@, lt, pivot, i as int, j as int),
            forall|lt: spec_fn(T, T) -> bool| #[trigger]
                computes(less_than, lt, dom) ==> gathered(
                    a@,
                    lt,
                    pivot,
                    i as int,
                    j as int,
                    end as int,
                ) == gathered(
                    swapped(old(a)@, chosen as int, end as int),
                    lt,
                    pivot,
                    0,
                    0,
                    end as int,
                ),
        decreases end - j,
    {
        let ghost before = a@;
        let answer: bool = less_than(&a[j], &pivot);
        if answer {
            a.swap(i, j);
        }
        proof {
            if answer {
                lemma_swapped_multiset(before, i as int, j as int);
            }
            lemma_rearranged_within(old(a)@, a@);
            assert forall|lt: spec_fn(T, T) -> bool| #[trigger]
                computes(less_than, lt, dom) implies scanned(
                a@,
                lt,
                pivot,
                if answer {
                    i + 1
                } else {
                    i as int
                },
                j + 1,
            ) by {
                assert(scanned(before, lt, pivot, i as int, j as int));
                assert(answer == lt(before[j as int], pivot));
            }
            assert forall|lt: spec_fn(T, T) -> bool| #[trigger]
                computes(less_than, lt, dom) implies gathered(
                a@,
                lt,
                pivot,
                if answer {
                    i + 1
                } else {
                    i as int
                },
                j + 1,
                end as int,
            ) == gathered(
                swapped(old(a)@, chosen as int, end as int),
                lt,
                pivot,
                0,
                0,
                end as int,
            ) by {
                assert(answer == lt(before[j as int], pivot));
                assert(a@ == exchanged_at(before, i as int, j as int, answer));
            }
        }
        if answer {
            i += 1;
        }
        j += 1;
    }
    let ghost before = a@;
    a.swap(i, end);
    proof {
        lemma_swapped_multiset(before, i as int, end as int);
        assert forall|lt: spec_fn(T, T) -> bool| #[trigger]
            computes(less_than, lt, dom) implies split_at(a@, lt, i as int) by {
            assert(scanned(before, lt, pivot, i as int, end as int));
        }
    }
    i
}

/// Sifts the element at `aux` down: if a child goes after it, it is
/// exchanged with the child that no other of the three goes after, and the
/// sifting goes on from that child. The children of the node at `k` are the
/// nodes at `2k` and `2k + 1`. An index that is not in the slice, or that of
/// a node without children, leaves the slice as it is.
///
/// The slice is rearranged, never resized, and the elements before `aux`
/// stay where they are. If from some node on no node but the one at `aux`
/// goes before a child of its own, nor the parent of `aux` before a child of
/// `aux`, then from that node on no node goes before a child of its own
/// afterwards.
pub fn heapify<T: Copy + Ord, C: Fn(&T, &T) -> bool>(a: &mut [T], less_than: &C, aux: usize)
    requires
        callable_on(less_than, old(a)@.to_set()),
    ensures
        final(a)@.to_multiset() == old(a)@.to_multiset(),
        final(a)@.len() == old(a)@.len(),
        forall|k: int| 0 <= k < aux && k < old(a)@.len() ==> final(a)@[k] == old(a)@[k],
        forall|lt: spec_fn(T, T) -> bool| #[trigger]
            computes(less_than, lt, old(a)@.to_set()) ==> final(a)@ == sifted(
                old(a)@,
                lt,
                aux as int,
            ),
        forall|lt: spec_fn(T, T) -> bool, lo: int|
            orders(less_than, lt, old(a)@.to_set()) && 0 <= lo <= aux && #[trigger] heap_except(
                old(a)@,
                lt,
                lo,
                aux as int,
            ) ==> heap_from(final(a)@, lt, lo),
    decreases old(a)@.len() - aux,
{
    let end: usize = a.len();
    if aux >= end {
        return ;
    }
    let ghost dom = a@.to_set();
    proof {
        lemma_rearranged_within(old(a)@, a@);
    }
    let mut root: usize = aux;
    if aux < end - aux {
        let left_child: usize = 2 * aux;
        if less_than(&a[root], &a[left_child]) {
            root = left_child;
        }
    }
    if aux + 1 < end - aux {
        let right_child: usize = 2 * aux + 1;
        if less_than(&a[root], &a[right_child]) {
            root = right_child;
        }
    }
    proof {
        assert forall|lt: spec_fn(T, T) -> bool| #[trigger]
            computes(less_than, lt, dom) implies root == sift_target(a@, lt, aux as int) by {
        }
    }
    if root != aux {
        let ghost before = a@;
        proof {
            lemma_swapped_multiset(before, aux as int, root as int);
            lemma_same_elements(before, swapped(before, aux as int, root as int));
            assert forall|lt: spec_fn(T, T) -> bool| #[trigger]
                orders(less_than, lt, dom) implies !lt(before[root as int], before[aux as int])
                && covers_children(before, lt, root as int, aux as int) by {
                if root == 2 * aux + 1 && aux < 2 * aux {
                    if lt(before[aux as int], before[2 * aux]) {
                        assert(lt(before[2 * aux], before[root as int]));
                    } else {
                        lemma_not_less_transitive(
                            lt,
                            dom,
                            before[2 * aux],
                            before[aux as int],
                            before[root as int],
                        );
                    }
                }
            }
        }
        a.swap(aux, root);
        heapify(a, less_than, root);
        proof {
            assert forall|lt: spec_fn(T, T) -> bool, lo: int|
                orders(less_than, lt, dom) && 0 <= lo <= aux && #[trigger] heap_except(
                    before,
                    lt,
                    lo,
                    aux as int,
                ) implies heap_from(a@, lt, lo) by {
                lemma_sift_step(before, lt, lo, aux as int, root as int);
            }
        }
    } else {
        proof {
            assert forall|lt: spec_fn(T, T) -> bool, lo: int|
                orders(less_than, lt, dom) && 0 <= lo <= aux && #[trigger] heap_except(
                    a@,
                    lt,
                    lo,
                    aux as int,
                ) implies heap_from(a@, lt, lo) by {
                assert(heap_ordered_at(a@, lt, aux as int));
                lemma_sift_stop(a@, lt, lo, aux as int);
            }
        }
    }
}

/// Heap sort: makes the slice a heap, sifting down each node that has a
/// child, from the last of them to the root; then, as long as the heap has
/// elements, exchanges its root with its last element, which leaves the
/// heap, and sifts the new root down.
///
/// The slice is rearranged, never resized, and the result is sorted.
/// Elements that are equivalent may change their order; a slice that is
/// sorted already, and in which no two different elements are equivalent, is
/// left as it is.
pub fn heap<T: Copy + Ord, C: Fn(&T, &T) -> bool>(a: &mut [T], less_than: &C)
    requires
        callable_on(less_than, old(a)@.to_set()),
    ensures
        final(a)@.to_multiset() == old(a)@.to_multiset(),
        sorted_by(less_than, old(a)@, final(a)@),
        forall|lt: spec_fn(T, T) -> bool| #[trigger]
            computes(less_than, lt, old(a)@.to_set()) ==> final(a)@ == heap_sorted(old(a)@, lt),
        presorted_apart(less_than, old(a)@) ==> final(a)@ == old(a)@,
        old(a)@.len() <= 1 ==> final(a)@ == old(a)@,
{
    let end: usize = a.len();
    let ghost dom = a@.to_set();
    let mut i: usize = if end == 0 {
        0
    } else {
        (end - 1) / 2 + 1
    };
    proof {
        assert forall|lt: spec_fn(T, T) -> bool| #[trigger]
            orders(less_than, lt, dom) implies heap_from(a@, lt, i as int) by {
            lemma_leaves_are_heaps(a@, lt, i as int);
        }
    }
    while i > 0
        invariant
            i <= end,
            a@.len() == end,
            a@.to_set() == dom,
            dom == old(a)@.to_set(),
            callable_on(less_than, dom),
            a@.to_multiset() == old(a)@.to_multiset(),
            forall|lt: spec_fn(T, T) -> bool| #[trigger]
                orders(less_than, lt, dom) ==> heap_from(a@, lt, i as int),
            forall|lt: spec_fn(T, T) -> bool| #[trigger]
                computes(less_than, lt, dom) ==> heaped(a@, lt, i as int) == heaped(
                    old(a)@,
                    lt,
                    inner_nodes(end as int),
                ),
        decreases i,
    {
        i -= 1;
        let ghost before = a@;
        heapify(a, less_than, i);
        proof {
            lemma_same_elements(before, a@);
            assert forall|lt: spec_fn(T, T) -> bool| #[trigger]
                computes(less_than, lt, dom) implies heaped(a@, lt, i as int) == heaped(
                old(a)@,
                lt,
                inner_nodes(end as int),
            ) by {
                assert(heaped(before, lt, i + 1) == heaped(a@, lt, i as int));
            }
            assert forall|lt: spec_fn(T, T) -> bool| #[trigger]
                orders(less_than, lt, dom) implies heap_from(a@, lt, i as int) by {
                assert(heap_except(before, lt, i as int, i as int));
            }
        }
    }
    proof {
        assert(a@.take(end as int) =~= a@);
    }
    let mut i: usize = end;
    while i > 0
        invariant
            i <= end,
            a@.len() == end,
            a@.to_set() == dom,
            dom == old(a)@.to_set(),
            callable_on(less_than, dom),
            a@.to_multiset() == old(a)@.to_multiset(),
            forall|lt: spec_fn(T, T) -> bool| #[trigger]
                orders(less_than, lt, dom) ==> heap_from(a@.take(i as int), lt, 0) && settled(
                    a@,
                    lt,
                    0,
                    i - 1,
                ),
            forall|lt: spec_fn(T, T) -> bool| #[trigger]
                computes(less_than, lt, dom) ==> drained(a@, lt, i as int) == heap_sorted(
                    old(a)@,
                    lt,
                ),
        decreases i,
    {
        let ghost full = a@;
        i -= 1;
        proof {
            lemma_swapped_multiset(full, 0, i as int);
            lemma_same_elements(full, swapped(full, 0, i as int));
        }
        a.swap(0, i);
        let ghost exchanged = a@;
        let ghost front = exchanged.take(i as int);
        let ghost back = exchanged.skip(i as int);
        proof {
            assert(exchanged =~= front + back);
            lemma_concat_elements(front, back);
            lemma_function_on_subset(less_than, dom, front.to_set());
        }
        let (heap_part, _) = a.split_at_mut(i);
        heapify(heap_part, less_than, 0);
        let ghost sifted = heap_part@;
        proof {
            assert(exchanged.subrange(0, i as int) =~= front);
            assert(exchanged.subrange(i as int, end as int) =~= back);
            assert(a@ == sifted + back);
            assert(a@.take(i as int) =~= sifted);
            vstd::seq_lib::lemma_multiset_commutative(front, back);
            vstd::seq_lib::lemma_multiset_commutative(sifted, back);
            lemma_same_elements(exchanged, a@);
            lemma_same_elements(front, sifted);
            assert forall|lt: spec_fn(T, T) -> bool| #[trigger]
                computes(less_than, lt, dom) implies drained(a@, lt, i as int) == heap_sorted(
                old(a)@,
                lt,
            ) by {
                assert(computes(less_than, lt, front.to_set()));
                assert(exchanged == swapped(full, 0, i as int));
                assert(drained(full, lt, i + 1) == drained(a@, lt, i as int));
            }
            assert forall|lt: spec_fn(T, T) -> bool| #[trigger]
                orders(less_than, lt, dom) implies heap_from(a@.take(i as int), lt, 0) && settled(
                a@,
                lt,
                0,
                i - 1,
            ) by {
                assert(orders(less_than, lt, front.to_set()));
                lemma_root_on_top(full, lt, i + 1);
                lemma_exchanged_heap(full, lt, i as int);
                assert(heap_except(front, lt, 0, 0));
                assert forall|p: int, q: int| 0 <= p < q < end && i - 1 < q implies !lt(
                    #[trigger] a@[q],
                    #[trigger] a@[p],
                ) by {
                    assert(a@[q] == exchanged[q]);
                    if p < i {
                        assert(sifted.contains(sifted[p]));
                        assert(front.to_set().contains(sifted[p]));
                        let k = choose|k: int| 0 <= k < front.len() && #[trigger] front[k] == a@[p];
                        assert(exchanged[k] == a@[p]);
                    } else {
                        assert(a@[p] == exchanged[p]);
                    }
                }
            }
        }
    }
    proof {
        assert forall|lt: spec_fn(T, T) -> bool| #[trigger]
            orders(less_than, lt, dom) implies sorted(a@, lt) by {
            assert(settled(a@, lt, 0, -1));
        }
        if end <= 1 {
            lemma_short_rearrangement(old(a)@, a@);
        }
        if presorted_apart(less_than, old(a)@) {
            let lt = choose|lt: spec_fn(T, T) -> bool| #[trigger]
                computes(less_than, lt, dom) && strict_total_order_on(lt, dom) && sorted(
                    old(a)@,
                    lt,
                );
            assert(orders(less_than, lt, dom));
            lemma_sorted_unique(old(a)@, a@, lt);
        }
    }
}

} // verus!
