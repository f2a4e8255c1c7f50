//! Facts about rearranging a sequence: what exchanging two elements does to
//! the multiset of its elements and to the subsequences that a predicate
//! selects.

use vstd::prelude::*;

verus! {

/// `s` with the elements at `i` and `j` exchanged.
pub open spec fn swapped<T>(s: Seq<T>, i: int, j: int) -> Seq<T> {
    s.update(i, s[j]).update(j, s[i])
}

/// Exchanging two elements keeps the multiset of the elements.
pub proof fn lemma_swapped_multiset<T>(s: Seq<T>, i: int, j: int)
    requires
        0 <= i < s.len(),
        0 <= j < s.len(),
    ensures
        swapped(s, i, j).to_multiset() == s.to_multiset(),
{
    broadcast use vstd::multiset::group_multiset_axioms;

    let s1 = s.update(i, s[j]);
    vstd::seq_lib::to_multiset_update(s, i, s[j]);
    vstd::seq_lib::to_multiset_update(s1, j, s[i]);
    vstd::seq_lib::to_multiset_contains(s, s[i]);
    vstd::seq_lib::to_multiset_contains(s, s[j]);
    assert(s.contains(s[i]));
    assert(s.contains(s[j]));
    assert(s1[j] == s[j]);
    assert(swapped(s, i, j).to_multiset() =~= s.to_multiset());
}

/// Two sequences with the same multiset of elements have the same set of
/// elements.
pub proof fn lemma_same_elements<T>(s: Seq<T>, t: Seq<T>)
    requires
        s.to_multiset() == t.to_multiset(),
    ensures
        s.to_set() == t.to_set(),
        s.len() == t.len(),
{
    broadcast use vstd::seq_lib::to_multiset_contains;

    vstd::seq_lib::to_multiset_len(s);
    vstd::seq_lib::to_multiset_len(t);
    assert forall|x: T| s.to_set().contains(x) == t.to_set().contains(x) by {
        assert(s.contains(x) <==> s.to_multiset().count(x) > 0);
        assert(t.contains(x) <==> t.to_multiset().count(x) > 0);
    }
    assert(s.to_set() =~= t.to_set());
}

/// A sequence of at most one element has no other arrangement.
pub proof fn lemma_short_rearrangement<T>(s: Seq<T>, t: Seq<T>)
    requires
        s.to_multiset() == t.to_multiset(),
        s.len() <= 1,
    ensures
        t == s,
{
    lemma_same_elements(s, t);
    if s.len() == 1 {
        assert(t.contains(t[0]));
        assert(s.to_set().contains(t[0]));
        assert(s.contains(t[0]));
    }
    assert(t =~= s);
}

/// Exchanging two neighbours of which the predicate selects at most one
/// keeps the subsequence that it selects.
pub proof fn lemma_swapped_neighbours_filter<T>(s: Seq<T>, j: int, p: spec_fn(T) -> bool)
    requires
        0 <= j,
        j + 1 < s.len(),
        !(p(s[j]) && p(s[j + 1])),
    ensures
        swapped(s, j, j + 1).filter(p) == s.filter(p),
{
    let front = s.take(j);
    let back = s.skip(j + 2);
    let pair = seq![s[j], s[j + 1]];
    let riap = seq![s[j + 1], s[j]];
    assert(s =~= front + pair + back);
    assert(swapped(s, j, j + 1) =~= front + riap + back);
    Seq::filter_distributes_over_add(front + pair, back, p);
    Seq::filter_distributes_over_add(front, pair, p);
    Seq::filter_distributes_over_add(front + riap, back, p);
    Seq::filter_distributes_over_add(front, riap, p);
    assert(pair.filter(p) =~= riap.filter(p)) by {
        reveal_with_fuel(Seq::filter, 3);
        assert(pair.drop_last() =~= seq![s[j]]);
        assert(riap.drop_last() =~= seq![s[j + 1]]);
        assert(seq![s[j]].drop_last() =~= Seq::<T>::empty());
        assert(seq![s[j + 1]].drop_last() =~= Seq::<T>::empty());
    }
}

/// A predicate that holds of no element selects nothing.
pub proof fn lemma_filter_none<T>(s: Seq<T>, p: spec_fn(T) -> bool)
    requires
        forall|i: int| 0 <= i < s.len() ==> !p(#[trigger] s[i]),
    ensures
        s.filter(p) == Seq::<T>::empty(),
    decreases s.len(),
{
    reveal(Seq::filter);
    if s.len() > 0 {
        assert forall|i: int| 0 <= i < s.drop_last().len() implies !p(
            #[trigger] s.drop_last()[i],
        ) by {
            assert(s.drop_last()[i] == s[i]);
        }
        lemma_filter_none(s.drop_last(), p);
    }
}

/// Two predicates that agree on the elements of a sequence select the same
/// subsequence of it.
pub proof fn lemma_filter_agree<T>(s: Seq<T>, p: spec_fn(T) -> bool, q: spec_fn(T) -> bool)
    requires
        forall|i: int| 0 <= i < s.len() ==> p(#[trigger] s[i]) == q(s[i]),
    ensures
        s.filter(p) == s.filter(q),
    decreases s.len(),
{
    reveal(Seq::filter);
    if s.len() > 0 {
        assert forall|i: int| 0 <= i < s.drop_last().len() implies p(
            #[trigger] s.drop_last()[i],
        ) == q(s.drop_last()[i]) by {
            assert(s.drop_last()[i] == s[i]);
        }
        lemma_filter_agree(s.drop_last(), p, q);
        assert(p(s.last()) == q(s.last()));
    }
}

/// The elements of two sequences are elements of the two joined.
pub proof fn lemma_concat_elements<T>(l: Seq<T>, r: Seq<T>)
    ensures
        forall|i: int| 0 <= i < l.len() ==> (l + r).to_set().contains(#[trigger] l[i]),
        forall|j: int| 0 <= j < r.len() ==> (l + r).to_set().contains(#[trigger] r[j]),
        l.to_set().subset_of((l + r).to_set()),
        r.to_set().subset_of((l + r).to_set()),
{
    assert forall|i: int| 0 <= i < l.len() implies (l + r).to_set().contains(#[trigger] l[i]) by {
        assert((l + r)[i] == l[i]);
    }
    assert forall|j: int| 0 <= j < r.len() implies (l + r).to_set().contains(#[trigger] r[j]) by {
        assert((l + r)[l.len() + j] == r[j]);
    }
}

} // verus!
