//! When the outcome of a sort is the only one there can be: a sorted
//! arrangement is unique where no two different elements are equivalent, and
//! a sorted arrangement that keeps equivalent elements in their order is
//! unique under every strict weak ordering.

use vstd::prelude::*;
use crate::order::{
    class_of, computes, equivalent, orders, sorted, sorted_by, stable, stable_by,
    strict_total_order_on, strict_weak_order_on, lemma_relation_on_subset,
};
use crate::rearrange::lemma_same_elements;

verus! {

/// The last elements of two sorted arrangements of the same elements are
/// equivalent.
proof fn lemma_last_elements_equivalent<T>(s: Seq<T>, t: Seq<T>, lt: spec_fn(T, T) -> bool)
    requires
        s.len() > 0,
        s.to_multiset() == t.to_multiset(),
        strict_weak_order_on(lt, s.to_set()),
        sorted(s, lt),
        sorted(t, lt),
    ensures
        t.len() == s.len(),
        s.to_set().contains(s.last()),
        s.to_set().contains(t.last()),
        equivalent(lt, s.last(), t.last()),
{
    lemma_same_elements(s, t);
    let a = s.last();
    let b = t.last();
    assert(s.contains(a));
    assert(t.contains(b));
    assert(s.to_set().contains(b));
    assert(t.to_set().contains(a));
    let i = choose|i: int| 0 <= i < s.len() && s[i] == b;
    let j = choose|j: int| 0 <= j < t.len() && t[j] == a;
    if i < s.len() - 1 {
        assert(!lt(s[s.len() - 1], s[i]));
    }
    if j < t.len() - 1 {
        assert(!lt(t[t.len() - 1], t[j]));
    }
}

/// Taking the last element off two arrangements of the same elements that
/// end alike leaves arrangements of the same elements, sorted if the two
/// were.
proof fn lemma_drop_last_alike<T>(s: Seq<T>, t: Seq<T>, lt: spec_fn(T, T) -> bool)
    requires
        s.len() > 0,
        t.len() == s.len(),
        s.to_multiset() == t.to_multiset(),
        s.last() == t.last(),
    ensures
        s.drop_last().to_multiset() == t.drop_last().to_multiset(),
        s.drop_last().to_set().subset_of(s.to_set()),
        sorted(s, lt) ==> sorted(s.drop_last(), lt),
        sorted(t, lt) ==> sorted(t.drop_last(), lt),
{
    let last = s.len() - 1;
    assert(s.remove(last) =~= s.drop_last());
    assert(t.remove(last) =~= t.drop_last());
    vstd::seq_lib::to_multiset_remove(s, last);
    vstd::seq_lib::to_multiset_remove(t, last);
    assert forall|x: T| s.drop_last().to_set().contains(x) implies s.to_set().contains(x) by {
        let k = choose|k: int| 0 <= k < s.drop_last().len() && s.drop_last()[k] == x;
        assert(s[k] == x);
    }
    if sorted(s, lt) {
        assert forall|i: int, j: int| 0 <= i < j < s.drop_last().len() implies !lt(
            #[trigger] s.drop_last()[j],
            #[trigger] s.drop_last()[i],
        ) by {
            assert(s.drop_last()[i] == s[i] && s.drop_last()[j] == s[j]);
        }
    }
    if sorted(t, lt) {
        assert forall|i: int, j: int| 0 <= i < j < t.drop_last().len() implies !lt(
            #[trigger] t.drop_last()[j],
            #[trigger] t.drop_last()[i],
        ) by {
            assert(t.drop_last()[i] == t[i] && t.drop_last()[j] == t[j]);
        }
    }
}

/// Where no two different elements are equivalent, a sequence has one sorted
/// arrangement only: two sorted sequences of the same elements are the same.
pub proof fn lemma_sorted_unique<T>(s: Seq<T>, t: Seq<T>, lt: spec_fn(T, T) -> bool)
    requires
        strict_total_order_on(lt, s.to_set()),
        s.to_multiset() == t.to_multiset(),
        sorted(s, lt),
        sorted(t, lt),
    ensures
        s == t,
    decreases s.len(),
{
    lemma_same_elements(s, t);
    if s.len() > 0 {
        lemma_last_elements_equivalent(s, t, lt);
        lemma_drop_last_alike(s, t, lt);
        lemma_relation_on_subset(lt, s.to_set(), s.drop_last().to_set());
        lemma_sorted_unique(s.drop_last(), t.drop_last(), lt);
        assert(s =~= s.drop_last().push(s.last()));
        assert(t =~= t.drop_last().push(t.last()));
    } else {
        assert(s =~= t);
    }
}

/// Two sorted arrangements of the same elements in which, for each element
/// of a set that is ordered and holds them all, the elements equivalent to
/// it form the same subsequence, are the same.
proof fn lemma_same_classes_unique<T>(
    s: Seq<T>,
    t: Seq<T>,
    lt: spec_fn(T, T) -> bool,
    dom: Set<T>,
)
    requires
        strict_weak_order_on(lt, dom),
        s.to_set().subset_of(dom),
        s.to_multiset() == t.to_multiset(),
        sorted(s, lt),
        sorted(t, lt),
        forall|x: T| #![trigger class_of(lt, x)]
            dom.contains(x) ==> s.filter(class_of(lt, x)) == t.filter(class_of(lt, x)),
    ensures
        s == t,
    decreases s.len(),
{
    lemma_same_elements(s, t);
    if s.len() > 0 {
        lemma_relation_on_subset(lt, dom, s.to_set());
        lemma_last_elements_equivalent(s, t, lt);
        let a = s.last();
        let b = t.last();
        let front = s.drop_last();
        let tfront = t.drop_last();
        assert(s =~= front.push(a));
        assert(t =~= tfront.push(b));
        assert(a == b) by {
            let c = class_of(lt, a);
            front.lemma_filter_push(a, c);
            tfront.lemma_filter_push(b, c);
            assert(c(a) && c(b));
            assert(s.filter(c).last() == a);
            assert(t.filter(c).last() == b);
        }
        lemma_drop_last_alike(s, t, lt);
        assert forall|x: T| #![trigger class_of(lt, x)] dom.contains(x) implies front.filter(
            class_of(lt, x),
        ) == tfront.filter(class_of(lt, x)) by {
            let c = class_of(lt, x);
            front.lemma_filter_push(a, c);
            tfront.lemma_filter_push(b, c);
            if c(a) {
                assert(front.filter(c) =~= front.filter(c).push(a).drop_last());
                assert(tfront.filter(c) =~= tfront.filter(c).push(a).drop_last());
            }
        }
        lemma_same_classes_unique(front, tfront, lt, dom);
    } else {
        assert(s =~= t);
    }
}

/// Under a strict weak ordering a sequence has one arrangement only that is
/// sorted and keeps equivalent elements in the order in which they stand:
/// two such arrangements of one sequence are the same. A sort that promises
/// such an arrangement therefore gives the same result whenever it is given
/// the same sequence and the same comparison function.
pub proof fn lemma_stable_sorted_unique<T>(
    s: Seq<T>,
    t: Seq<T>,
    u: Seq<T>,
    lt: spec_fn(T, T) -> bool,
)
    requires
        strict_weak_order_on(lt, s.to_set()),
        t.to_multiset() == s.to_multiset(),
        u.to_multiset() == s.to_multiset(),
        sorted(t, lt),
        sorted(u, lt),
        stable(s, t, lt),
        stable(s, u, lt),
    ensures
        t == u,
{
    lemma_same_elements(s, t);
    lemma_same_elements(s, u);
    assert forall|x: T| #![trigger class_of(lt, x)] s.to_set().contains(x) implies t.filter(
        class_of(lt, x),
    ) == u.filter(class_of(lt, x)) by {
        assert(s.contains(x));
        assert(t.filter(class_of(lt, x)) == s.filter(class_of(lt, x)));
        assert(u.filter(class_of(lt, x)) == s.filter(class_of(lt, x)));
    }
    lemma_same_classes_unique(t, u, lt, s.to_set());
}

/// Under a strict weak ordering, an arrangement of a sorted sequence that
/// is sorted and keeps equivalent elements in their order is the sequence
/// itself.
pub proof fn lemma_stable_sort_of_sorted<T>(s: Seq<T>, t: Seq<T>, lt: spec_fn(T, T) -> bool)
    requires
        strict_weak_order_on(lt, s.to_set()),
        t.to_multiset() == s.to_multiset(),
        sorted(s, lt),
        sorted(t, lt),
        stable(s, t, lt),
    ensures
        t == s,
{
    lemma_stable_sorted_unique(s, t, s, lt);
}

/// A sort that promises a sorted arrangement which keeps equivalent elements
/// in their order gives the same result whenever it is given the same
/// sequence and the same comparison function: two arrangements of `s` that
/// both meet the promise are the same, provided that the function computes a
/// strict weak ordering of the elements.
pub proof fn lemma_stable_sort_determined<T, C: Fn(&T, &T) -> bool>(
    f: &C,
    lt: spec_fn(T, T) -> bool,
    s: Seq<T>,
    t: Seq<T>,
    u: Seq<T>,
)
    requires
        orders(f, lt, s.to_set()),
        t.to_multiset() == s.to_multiset(),
        u.to_multiset() == s.to_multiset(),
        sorted_by(f, s, t),
        sorted_by(f, s, u),
        stable_by(f, s, t),
        stable_by(f, s, u),
    ensures
        t == u,
{
    lemma_stable_sorted_unique(s, t, u, lt);
}

/// A sort that promises a sorted arrangement gives the same result whenever
/// it is given the same sequence and the same comparison function, where no
/// two different elements are equivalent: two arrangements of `s` that both
/// meet the promise are the same, provided that the function computes a
/// strict weak ordering of the elements under which no two different
/// elements are equivalent.
pub proof fn lemma_sort_determined_apart<T, C: Fn(&T, &T) -> bool>(
    f: &C,
    lt: spec_fn(T, T) -> bool,
    s: Seq<T>,
    t: Seq<T>,
    u: Seq<T>,
)
    requires
        computes(f, lt, s.to_set()),
        strict_total_order_on(lt, s.to_set()),
        t.to_multiset() == s.to_multiset(),
        u.to_multiset() == s.to_multiset(),
        sorted_by(f, s, t),
        sorted_by(f, s, u),
    ensures
        t == u,
{
    assert(orders(f, lt, s.to_set()));
    lemma_same_elements(s, t);
    lemma_sorted_unique(t, u, lt);
}

} // verus!
