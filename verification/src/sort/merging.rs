//! The reasoning behind merging two sorted runs: what holds of the output
//! built so far, and why taking the next element from either run keeps it.

use vstd::prelude::*;
use crate::order::{
    class_of, equivalent, sorted, stable, strict_weak_order_on, lemma_less_separates_class,
    lemma_not_less_transitive,
};
use crate::rearrange::{
    lemma_concat_elements, lemma_filter_agree, lemma_filter_none, lemma_same_elements,
};

verus! {

/// `out` holds the first `i` elements of `l` and the first `j` of `r`.
pub open spec fn taken<T>(l: Seq<T>, r: Seq<T>, out: Seq<T>, i: int, j: int) -> bool {
    &&& 0 <= i <= l.len()
    &&& 0 <= j <= r.len()
    &&& out.len() == i + j
    &&& out.to_multiset() == l.take(i).to_multiset().add(r.take(j).to_multiset())
}

/// Nothing is taken at the start.
pub proof fn lemma_taken_start<T>(l: Seq<T>, r: Seq<T>)
    ensures
        taken(l, r, Seq::<T>::empty(), 0, 0),
{
    let out = Seq::<T>::empty();
    assert(l.take(0) =~= out);
    assert(r.take(0) =~= out);
    vstd::seq_lib::lemma_multiset_commutative(out, out);
    assert(out + out =~= out);
}

/// Taking the next element of the left run.
pub proof fn lemma_taken_left<T>(l: Seq<T>, r: Seq<T>, out: Seq<T>, i: int, j: int)
    requires
        taken(l, r, out, i, j),
        i < l.len(),
    ensures
        taken(l, r, out.push(l[i]), i + 1, j),
{
    broadcast use vstd::multiset::group_multiset_axioms;

    assert(l.take(i + 1) =~= l.take(i).push(l[i]));
    vstd::seq_lib::to_multiset_build(out, l[i]);
    vstd::seq_lib::to_multiset_build(l.take(i), l[i]);
    assert(out.push(l[i]).to_multiset() =~= l.take(i + 1).to_multiset().add(
        r.take(j).to_multiset(),
    ));
}

/// Taking the next element of the right run.
pub proof fn lemma_taken_right<T>(l: Seq<T>, r: Seq<T>, out: Seq<T>, i: int, j: int)
    requires
        taken(l, r, out, i, j),
        j < r.len(),
    ensures
        taken(l, r, out.push(r[j]), i, j + 1),
{
    broadcast use vstd::multiset::group_multiset_axioms;

    assert(r.take(j + 1) =~= r.take(j).push(r[j]));
    vstd::seq_lib::to_multiset_build(out, r[j]);
    vstd::seq_lib::to_multiset_build(r.take(j), r[j]);
    assert(out.push(r[j]).to_multiset() =~= l.take(i).to_multiset().add(
        r.take(j + 1).to_multiset(),
    ));
}

/// With everything taken, `out` holds the elements of both runs.
pub proof fn lemma_taken_all<T>(l: Seq<T>, r: Seq<T>, out: Seq<T>)
    requires
        taken(l, r, out, l.len() as int, r.len() as int),
    ensures
        out.to_multiset() == (l + r).to_multiset(),
{
    assert(l.take(l.len() as int) =~= l);
    assert(r.take(r.len() as int) =~= r);
    vstd::seq_lib::lemma_multiset_commutative(l, r);
}

/// The order that a merge of `l` and `r` has reached when it has taken the
/// first `i` elements of `l` and the first `j` of `r` into `out`.
pub open spec fn merging<T>(
    l: Seq<T>,
    r: Seq<T>,
    out: Seq<T>,
    lt: spec_fn(T, T) -> bool,
    i: int,
    j: int,
) -> bool {
    &&& 0 <= i <= l.len()
    &&& 0 <= j <= r.len()
    &&& out.len() == i + j
    &&& sorted(l + r, lt) ==> out == (l + r).take(i + j) && (j > 0 ==> i == l.len())
    &&& strict_weak_order_on(lt, (l + r).to_set()) && sorted(l, lt) && sorted(r, lt) ==> {
        &&& sorted(out, lt)
        &&& forall|p: int, k: int|
            0 <= p < out.len() && i <= k < l.len() ==> !lt(#[trigger] l[k], #[trigger] out[p])
        &&& forall|p: int, k: int|
            0 <= p < out.len() && j <= k < r.len() ==> !lt(#[trigger] r[k], #[trigger] out[p])
        &&& forall|p: int, k: int|
            0 <= p < j && i <= k < l.len() ==> lt(#[trigger] r[p], #[trigger] l[k])
        &&& forall|x: T| #![trigger class_of(lt, x)]
            (l + r).to_set().contains(x) ==> out.filter(class_of(lt, x)) == l.take(i).filter(
                class_of(lt, x),
            ) + r.take(j).filter(class_of(lt, x))
    }
}

/// A merge may start with nothing taken.
pub proof fn lemma_merging_start<T>(l: Seq<T>, r: Seq<T>, lt: spec_fn(T, T) -> bool)
    ensures
        merging(l, r, Seq::<T>::empty(), lt, 0, 0),
{
    let out = Seq::<T>::empty();
    assert(l.take(0) =~= out);
    assert(r.take(0) =~= out);
    assert((l + r).take(0) =~= out);
    assert forall|x: T| #![trigger class_of(lt, x)]
        out.filter(class_of(lt, x)) == out.filter(class_of(lt, x)) + out.filter(
            class_of(lt, x),
        ) by {
        lemma_filter_none(out, class_of(lt, x));
        assert(out + out =~= out);
    }
}

/// The next element of the left run may be taken when the right run is used
/// up, or when the next element of the right run does not go before it.
pub proof fn lemma_merging_take_left<T>(
    l: Seq<T>,
    r: Seq<T>,
    out: Seq<T>,
    lt: spec_fn(T, T) -> bool,
    i: int,
    j: int,
)
    requires
        merging(l, r, out, lt, i, j),
        i < l.len(),
        j < r.len() ==> !lt(r[j], l[i]),
    ensures
        merging(l, r, out.push(l[i]), lt, i + 1, j),
{
    let next = out.push(l[i]);
    let dom = (l + r).to_set();
    lemma_concat_elements(l, r);
    assert(l.take(i + 1) =~= l.take(i).push(l[i]));
    if sorted(l + r, lt) {
        assert(j == 0);
        assert((l + r)[i] == l[i]);
        assert(next =~= (l + r).take(i + 1 + j));
    }
    if strict_weak_order_on(lt, dom) && sorted(l, lt) && sorted(r, lt) {
        assert(forall|p: int| 0 <= p < out.len() ==> next[p] == out[p]);
        assert(sorted(next, lt));
        assert forall|p: int, k: int| 0 <= p < next.len() && j <= k < r.len() implies !lt(
            #[trigger] r[k],
            #[trigger] next[p],
        ) by {
            if p == out.len() {
                assert(!lt(r[j], l[i]));
                if k > j {
                    lemma_not_less_transitive(lt, dom, l[i], r[j], r[k]);
                }
            } else {
                assert(next[p] == out[p]);
            }
        }
        assert forall|p: int, k: int| 0 <= p < j && i + 1 <= k < l.len() implies lt(
            #[trigger] r[p],
            #[trigger] l[k],
        ) by {
            assert(lt(r[p], l[i]));
            if !lt(r[p], l[k]) {
                lemma_not_less_transitive(lt, dom, l[i], l[k], r[p]);
            }
        }
        assert forall|x: T| #![trigger class_of(lt, x)] dom.contains(x) implies next.filter(
            class_of(lt, x),
        ) == l.take(i + 1).filter(class_of(lt, x)) + r.take(j).filter(class_of(lt, x)) by {
            let c = class_of(lt, x);
            out.lemma_filter_push(l[i], c);
            l.take(i).lemma_filter_push(l[i], c);
            if c(l[i]) {
                assert forall|p: int| 0 <= p < r.take(j).len() implies !c(
                    #[trigger] r.take(j)[p],
                ) by {
                    assert(lt(r[p], l[i]));
                    lemma_less_separates_class(lt, dom, x, r[p], l[i]);
                }
                lemma_filter_none(r.take(j), c);
                assert(next.filter(c) =~= l.take(i + 1).filter(c) + r.take(j).filter(c));
            }
        }
    }
}

/// The next element of the right run may be taken when the left run is used
/// up, or when it goes before the next element of the left run.
pub proof fn lemma_merging_take_right<T>(
    l: Seq<T>,
    r: Seq<T>,
    out: Seq<T>,
    lt: spec_fn(T, T) -> bool,
    i: int,
    j: int,
)
    requires
        merging(l, r, out, lt, i, j),
        j < r.len(),
        i < l.len() ==> lt(r[j], l[i]),
    ensures
        merging(l, r, out.push(r[j]), lt, i, j + 1),
{
    let next = out.push(r[j]);
    let dom = (l + r).to_set();
    lemma_concat_elements(l, r);
    assert(r.take(j + 1) =~= r.take(j).push(r[j]));
    if sorted(l + r, lt) {
        if i < l.len() {
            assert((l + r)[i] == l[i]);
            assert((l + r)[l.len() + j] == r[j]);
            assert(false);
        }
        assert((l + r)[i + j] == r[j]);
        assert(next =~= (l + r).take(i + j + 1));
    }
    if strict_weak_order_on(lt, dom) && sorted(l, lt) && sorted(r, lt) {
        assert(forall|p: int| 0 <= p < out.len() ==> next[p] == out[p]);
        assert(sorted(next, lt));
        assert forall|p: int, k: int| 0 <= p < next.len() && i <= k < l.len() implies !lt(
            #[trigger] l[k],
            #[trigger] next[p],
        ) by {
            if p == out.len() {
                assert(lt(r[j], l[i]));
                if k > i {
                    lemma_not_less_transitive(lt, dom, r[j], l[i], l[k]);
                }
            } else {
                assert(next[p] == out[p]);
            }
        }
        assert forall|p: int, k: int| 0 <= p < j + 1 && i <= k < l.len() implies lt(
            #[trigger] r[p],
            #[trigger] l[k],
        ) by {
            if p == j {
                assert(lt(r[j], l[i]));
                if !lt(r[j], l[k]) {
                    lemma_not_less_transitive(lt, dom, l[i], l[k], r[j]);
                }
            }
        }
        assert forall|x: T| #![trigger class_of(lt, x)] dom.contains(x) implies next.filter(
            class_of(lt, x),
        ) == l.take(i).filter(class_of(lt, x)) + r.take(j + 1).filter(class_of(lt, x)) by {
            let c = class_of(lt, x);
            out.lemma_filter_push(r[j], c);
            r.take(j).lemma_filter_push(r[j], c);
            assert(next.filter(c) =~= l.take(i).filter(c) + r.take(j + 1).filter(c));
        }
    }
}

/// A merge that has taken everything: of two
/// sorted runs it is sorted and keeps equivalent elements in their order,
/// those of the left run first; and of two runs that are sorted when joined
/// it is the two joined.
pub proof fn lemma_merging_done<T>(l: Seq<T>, r: Seq<T>, out: Seq<T>, lt: spec_fn(T, T) -> bool)
    requires
        merging(l, r, out, lt, l.len() as int, r.len() as int),
    ensures
        strict_weak_order_on(lt, (l + r).to_set()) && sorted(l, lt) && sorted(r, lt) ==> sorted(
            out,
            lt,
        ) && stable(l + r, out, lt),
        sorted(l + r, lt) ==> out == l + r,
{
    assert(l.take(l.len() as int) =~= l);
    assert(r.take(r.len() as int) =~= r);
    assert((l + r).take((l.len() + r.len()) as int) =~= l + r);
    if strict_weak_order_on(lt, (l + r).to_set()) && sorted(l, lt) && sorted(r, lt) {
        assert forall|x: T| (l + r).contains(x) implies #[trigger] out.filter(class_of(lt, x)) == (l
            + r).filter(class_of(lt, x)) by {
            let c = class_of(lt, x);
            Seq::filter_distributes_over_add(l, r, c);
        }
    }
}

/// A rearrangement that keeps equivalent elements in their order does so
/// for the elements equivalent to any element of the set that is ordered,
/// whether it stands in the sequence or not.
pub proof fn lemma_stable_for_any<T>(
    s: Seq<T>,
    t: Seq<T>,
    lt: spec_fn(T, T) -> bool,
    dom: Set<T>,
    x: T,
)
    requires
        strict_weak_order_on(lt, dom),
        s.to_set().subset_of(dom),
        s.to_multiset() == t.to_multiset(),
        stable(s, t, lt),
        dom.contains(x),
    ensures
        t.filter(class_of(lt, x)) == s.filter(class_of(lt, x)),
{
    lemma_same_elements(s, t);
    let c = class_of(lt, x);
    if exists|k: int| 0 <= k < s.len() && c(s[k]) {
        let k = choose|k: int| 0 <= k < s.len() && c(s[k]);
        let e = s[k];
        let d = class_of(lt, e);
        assert(s.contains(e));
        assert(dom.contains(e));
        assert(equivalent(lt, x, e));
        assert forall|p: int| 0 <= p < s.len() implies c(#[trigger] s[p]) == d(s[p]) by {
            assert(s.contains(s[p]));
            assert(dom.contains(s[p]));
            assert(equivalent(lt, e, x));
            if equivalent(lt, x, s[p]) {
                assert(equivalent(lt, e, s[p]));
            }
            if equivalent(lt, e, s[p]) {
                assert(equivalent(lt, x, s[p]));
            }
        }
        assert forall|p: int| 0 <= p < t.len() implies c(#[trigger] t[p]) == d(t[p]) by {
            assert(t.contains(t[p]));
            assert(s.to_set().contains(t[p]));
            assert(dom.contains(t[p]));
            assert(equivalent(lt, e, x));
            if equivalent(lt, x, t[p]) {
                assert(equivalent(lt, e, t[p]));
            }
            if equivalent(lt, e, t[p]) {
                assert(equivalent(lt, x, t[p]));
            }
        }
        lemma_filter_agree(s, c, d);
        lemma_filter_agree(t, c, d);
    } else {
        assert forall|p: int| 0 <= p < t.len() implies !c(#[trigger] t[p]) by {
            assert(t.contains(t[p]));
            assert(s.to_set().contains(t[p]));
            assert(s.contains(t[p]));
        }
        lemma_filter_none(s, c);
        lemma_filter_none(t, c);
    }
}

/// Sorting the two halves of a sequence, each keeping equivalent elements in
/// their order, and merging them in the same way, sorts the sequence and
/// keeps equivalent elements in their order.
pub proof fn lemma_merge_of_sorted_halves<T>(
    l: Seq<T>,
    r: Seq<T>,
    ls: Seq<T>,
    rs: Seq<T>,
    out: Seq<T>,
    lt: spec_fn(T, T) -> bool,
)
    requires
        ls.to_multiset() == l.to_multiset(),
        rs.to_multiset() == r.to_multiset(),
        out.to_multiset() == (ls + rs).to_multiset(),
        strict_weak_order_on(lt, (l + r).to_set()),
        stable(l, ls, lt),
        stable(r, rs, lt),
        stable(ls + rs, out, lt),
    ensures
        stable(l + r, out, lt),
{
    let dom = (l + r).to_set();
    lemma_concat_elements(l, r);
    vstd::seq_lib::lemma_multiset_commutative(l, r);
    vstd::seq_lib::lemma_multiset_commutative(ls, rs);
    lemma_same_elements(l + r, ls + rs);
    assert forall|x: T| (l + r).contains(x) implies #[trigger] out.filter(class_of(lt, x)) == (l
        + r).filter(class_of(lt, x)) by {
        let c = class_of(lt, x);
        assert(dom.contains(x));
        assert((ls + rs).to_set().contains(x));
        assert((ls + rs).contains(x));
        lemma_stable_for_any(l, ls, lt, dom, x);
        lemma_stable_for_any(r, rs, lt, dom, x);
        Seq::filter_distributes_over_add(l, r, c);
        Seq::filter_distributes_over_add(ls, rs, c);
    }
}

/// The two parts of a sorted sequence are sorted.
pub proof fn lemma_sorted_parts<T>(l: Seq<T>, r: Seq<T>, lt: spec_fn(T, T) -> bool)
    ensures
        sorted(l + r, lt) ==> sorted(l, lt) && sorted(r, lt),
{
    if sorted(l + r, lt) {
        assert forall|i: int, j: int| 0 <= i < j < l.len() implies !lt(
            #[trigger] l[j],
            #[trigger] l[i],
        ) by {
            assert(l[i] == (l + r)[i] && l[j] == (l + r)[j]);
        }
        assert forall|i: int, j: int| 0 <= i < j < r.len() implies !lt(
            #[trigger] r[j],
            #[trigger] r[i],
        ) by {
            assert(r[i] == (l + r)[l.len() + i] && r[j] == (l + r)[l.len() + j]);
        }
    }
}

} // verus!
