//! The vocabulary in which the sorting contracts are written: what it means
//! for a comparison function to compute a relation, for that relation to be
//! a strict weak ordering, and for a sequence to be sorted under it or to be
//! a stable rearrangement of another.
//!
//! A relation is a `spec_fn(T, T) -> bool` that says of two elements whether
//! the first goes before the second.

use vstd::prelude::*;

verus! {

/// The comparison function may be called on every pair of elements of `dom`.
pub open spec fn callable_on<T, C: Fn(&T, &T) -> bool>(f: &C, dom: Set<T>) -> bool {
    forall|x: T, y: T|
        dom.contains(x) && dom.contains(y) ==> #[trigger] call_requires(*f, (&x, &y))
}

/// On the elements of `dom` the comparison function computes the relation
/// `lt`: whatever it answers on a pair is what `lt` says of the pair.
pub open spec fn computes<T, C: Fn(&T, &T) -> bool>(
    f: &C,
    lt: spec_fn(T, T) -> bool,
    dom: Set<T>,
) -> bool {
    forall|x: T, y: T, answer: bool|
        dom.contains(x) && dom.contains(y) && #[trigger] call_ensures(*f, (&x, &y), answer)
            ==> answer == lt(x, y)
}

/// Neither of `x` and `y` goes before the other.
pub open spec fn equivalent<T>(lt: spec_fn(T, T) -> bool, x: T, y: T) -> bool {
    !lt(x, y) && !lt(y, x)
}

/// The relation is a strict weak ordering of the elements of `dom`: nothing
/// goes before itself, of two elements at most one goes before the other,
/// going before is transitive, and so is being equivalent.
pub open spec fn strict_weak_order_on<T>(lt: spec_fn(T, T) -> bool, dom: Set<T>) -> bool {
    &&& forall|x: T| dom.contains(x) ==> !#[trigger] lt(x, x)
    &&& forall|x: T, y: T| dom.contains(x) && dom.contains(y) && #[trigger] lt(x, y) ==> !lt(y, x)
    &&& forall|x: T, y: T, z: T|
        dom.contains(x) && dom.contains(y) && dom.contains(z) && #[trigger] lt(x, y)
            && #[trigger] lt(y, z) ==> lt(x, z)
    &&& forall|x: T, y: T, z: T|
        dom.contains(x) && dom.contains(y) && dom.contains(z) && #[trigger] equivalent(lt, x, y)
            && #[trigger] equivalent(lt, y, z) ==> equivalent(lt, x, z)
}

/// The relation is a strict weak ordering of the elements of `dom` under
/// which no two different elements are equivalent.
pub open spec fn strict_total_order_on<T>(lt: spec_fn(T, T) -> bool, dom: Set<T>) -> bool {
    &&& strict_weak_order_on(lt, dom)
    &&& forall|x: T, y: T|
        dom.contains(x) && dom.contains(y) && #[trigger] equivalent(lt, x, y) ==> x == y
}

/// The comparison function computes `lt` on the elements of `dom`, and `lt`
/// is a strict weak ordering of them.
pub open spec fn orders<T, C: Fn(&T, &T) -> bool>(
    f: &C,
    lt: spec_fn(T, T) -> bool,
    dom: Set<T>,
) -> bool {
    computes(f, lt, dom) && strict_weak_order_on(lt, dom)
}

/// From `lo` up to `hi`, no element of `s` goes before an element that
/// stands earlier.
pub open spec fn sorted_between<T>(s: Seq<T>, lt: spec_fn(T, T) -> bool, lo: int, hi: int) -> bool {
    forall|i: int, j: int| lo <= i < j < hi ==> !lt(#[trigger] s[j], #[trigger] s[i])
}

/// No element of `s` goes before an element that stands earlier in `s`.
pub open spec fn sorted<T>(s: Seq<T>, lt: spec_fn(T, T) -> bool) -> bool {
    sorted_between(s, lt, 0, s.len() as int)
}

/// No element of `s` goes before its left neighbour.
pub open spec fn adjacent_sorted<T>(s: Seq<T>, lt: spec_fn(T, T) -> bool) -> bool {
    forall|i: int| 0 <= i && i + 1 < s.len() ==> !lt(s[i + 1], #[trigger] s[i])
}

/// The elements equivalent to `x`, as a predicate.
pub open spec fn class_of<T>(lt: spec_fn(T, T) -> bool, x: T) -> spec_fn(T) -> bool {
    |y: T| equivalent(lt, x, y)
}

/// `t` keeps the elements of `s` that are equivalent to one another in the
/// order in which they stand in `s`: for each element of `s`, the elements
/// equivalent to it form the same subsequence in `s` and in `t`.
pub open spec fn stable<T>(s: Seq<T>, t: Seq<T>, lt: spec_fn(T, T) -> bool) -> bool {
    forall|x: T|
        s.contains(x) ==> #[trigger] t.filter(class_of(lt, x)) == s.filter(class_of(lt, x))
}

/// `after` is sorted under every strict weak ordering of the elements of
/// `before` that the comparison function computes.
pub open spec fn sorted_by<T, C: Fn(&T, &T) -> bool>(f: &C, before: Seq<T>, after: Seq<T>) -> bool {
    forall|lt: spec_fn(T, T) -> bool| #[trigger]
        orders(f, lt, before.to_set()) ==> sorted(after, lt)
}

/// `after` keeps equivalent elements in the order in which they stand in
/// `before`, under every strict weak ordering of the elements of `before`
/// that the comparison function computes.
pub open spec fn stable_by<T, C: Fn(&T, &T) -> bool>(f: &C, before: Seq<T>, after: Seq<T>) -> bool {
    forall|lt: spec_fn(T, T) -> bool| #[trigger]
        orders(f, lt, before.to_set()) ==> stable(before, after, lt)
}

/// `s` is sorted under a relation that the comparison function computes on
/// its elements.
pub open spec fn presorted<T, C: Fn(&T, &T) -> bool>(f: &C, s: Seq<T>) -> bool {
    exists|lt: spec_fn(T, T) -> bool| #[trigger] computes(f, lt, s.to_set()) && sorted(s, lt)
}

/// `s` is sorted under a relation that the comparison function computes on
/// its elements and that is a strict weak ordering of them under which no
/// two different elements are equivalent.
pub open spec fn presorted_apart<T, C: Fn(&T, &T) -> bool>(f: &C, s: Seq<T>) -> bool {
    exists|lt: spec_fn(T, T) -> bool| #[trigger]
        computes(f, lt, s.to_set()) && strict_total_order_on(lt, s.to_set()) && sorted(s, lt)
}

/// Under a strict weak ordering, "does not go before" is transitive.
pub proof fn lemma_not_less_transitive<T>(lt: spec_fn(T, T) -> bool, dom: Set<T>, x: T, y: T, z: T)
    requires
        strict_weak_order_on(lt, dom),
        dom.contains(x),
        dom.contains(y),
        dom.contains(z),
        !lt(y, x),
        !lt(z, y),
    ensures
        !lt(z, x),
{
    if lt(z, x) {
        if lt(y, z) {
            assert(lt(y, x));
        } else if lt(x, y) {
            assert(lt(z, y));
        } else {
            assert(equivalent(lt, z, y));
            assert(equivalent(lt, y, x));
            assert(equivalent(lt, z, x));
        }
    }
}

/// Under a strict weak ordering, of two elements of which one goes before
/// the other, at most one is equivalent to a given third.
pub proof fn lemma_less_separates_class<T>(lt: spec_fn(T, T) -> bool, dom: Set<T>, x: T, u: T, v: T)
    requires
        strict_weak_order_on(lt, dom),
        dom.contains(x),
        dom.contains(u),
        dom.contains(v),
        lt(u, v),
    ensures
        !(equivalent(lt, x, u) && equivalent(lt, x, v)),
{
    if equivalent(lt, x, u) && equivalent(lt, x, v) {
        assert(equivalent(lt, u, x));
        assert(equivalent(lt, u, v));
    }
}

/// In a sorted sequence no element goes before its left neighbour.
pub proof fn lemma_sorted_is_adjacent_sorted<T>(s: Seq<T>, lt: spec_fn(T, T) -> bool)
    requires
        sorted(s, lt),
    ensures
        adjacent_sorted(s, lt),
{
}

/// Under a strict weak ordering, a sequence in which no element goes before
/// its left neighbour is sorted.
pub proof fn lemma_adjacent_sorted_is_sorted<T>(s: Seq<T>, lt: spec_fn(T, T) -> bool)
    requires
        strict_weak_order_on(lt, s.to_set()),
        adjacent_sorted(s, lt),
    ensures
        sorted(s, lt),
{
    assert forall|i: int, j: int| 0 <= i < j < s.len() implies !lt(
        #[trigger] s[j],
        #[trigger] s[i],
    ) by {
        lemma_adjacent_sorted_pair(s, lt, i, j);
    }
}

proof fn lemma_adjacent_sorted_pair<T>(s: Seq<T>, lt: spec_fn(T, T) -> bool, i: int, j: int)
    requires
        strict_weak_order_on(lt, s.to_set()),
        adjacent_sorted(s, lt),
        0 <= i < j < s.len(),
    ensures
        !lt(s[j], s[i]),
    decreases j - i,
{
    assert(s.contains(s[i]) && s.contains(s[j]) && s.contains(s[j - 1]));
    if i + 1 < j {
        lemma_adjacent_sorted_pair(s, lt, i, j - 1);
        assert(!lt(s[j - 1 + 1], s[j - 1]));
        lemma_not_less_transitive(lt, s.to_set(), s[i], s[j - 1], s[j]);
    } else {
        assert(!lt(s[i + 1], s[i]));
    }
}

/// A strict weak ordering of a set is one of each part of it.
pub proof fn lemma_relation_on_subset<T>(lt: spec_fn(T, T) -> bool, dom: Set<T>, part: Set<T>)
    requires
        part.subset_of(dom),
    ensures
        strict_weak_order_on(lt, dom) ==> strict_weak_order_on(lt, part),
        strict_total_order_on(lt, dom) ==> strict_total_order_on(lt, part),
{
}

/// What holds of a comparison function on a set holds on each part of it.
pub proof fn lemma_function_on_subset<T, C: Fn(&T, &T) -> bool>(f: &C, dom: Set<T>, part: Set<T>)
    requires
        part.subset_of(dom),
    ensures
        callable_on(f, dom) ==> callable_on(f, part),
        forall|lt: spec_fn(T, T) -> bool| #[trigger]
            computes(f, lt, dom) ==> computes(f, lt, part),
        forall|lt: spec_fn(T, T) -> bool| #[trigger] orders(f, lt, dom) ==> orders(f, lt, part),
{
}

/// A comparison function cannot answer that an element of a sequence goes
/// before one that stands earlier, if the sequence is sorted under a
/// relation that the function computes.
pub proof fn lemma_presorted_answer<T, C: Fn(&T, &T) -> bool>(f: &C, s: Seq<T>, i: int, j: int)
    requires
        presorted(f, s),
        0 <= i < j < s.len(),
    ensures
        !call_ensures(*f, (&s[j], &s[i]), true),
{
    let lt = choose|lt: spec_fn(T, T) -> bool| #[trigger]
        computes(f, lt, s.to_set()) && sorted(s, lt);
    assert(s.contains(s[i]) && s.contains(s[j]));
    assert(!lt(s[j], s[i]));
}

/// Of the result of a sort, the comparison function cannot answer that an
/// element goes before its left neighbour, provided that it computes a
/// strict weak ordering of the elements.
pub proof fn lemma_sorted_by_answer<T, C: Fn(&T, &T) -> bool>(
    f: &C,
    lt: spec_fn(T, T) -> bool,
    before: Seq<T>,
    after: Seq<T>,
    i: int,
)
    requires
        orders(f, lt, before.to_set()),
        after.to_set() == before.to_set(),
        sorted_by(f, before, after),
        0 <= i,
        i + 1 < after.len(),
    ensures
        !call_ensures(*f, (&after[i + 1], &after[i]), true),
{
    assert(sorted(after, lt));
    assert(after.contains(after[i]) && after.contains(after[i + 1]));
    assert(before.to_set().contains(after[i]) && before.to_set().contains(after[i + 1]));
    assert(!lt(after[i + 1], after[i]));
}

} // verus!
