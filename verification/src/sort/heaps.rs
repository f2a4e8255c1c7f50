//! The reasoning behind heap sort. A slice is read as a tree in which the
//! node at index `k` has its children at `2k` and `2k + 1`; the node at 0
//! has the node at 1 for its only child.

use vstd::prelude::*;
use crate::order::{strict_weak_order_on, lemma_not_less_transitive, lemma_relation_on_subset};
use crate::rearrange::{lemma_concat_elements, swapped};

verus! {

/// The element at `top` does not go before either child of the node `k`.
pub open spec fn covers_children<T>(
    s: Seq<T>,
    lt: spec_fn(T, T) -> bool,
    top: int,
    k: int,
) -> bool {
    &&& k < 2 * k < s.len() ==> !lt(s[top], s[2 * k])
    &&& 2 * k + 1 < s.len() ==> !lt(s[top], s[2 * k + 1])
}

/// The node `k` does not go before either of its children.
pub open spec fn heap_ordered_at<T>(s: Seq<T>, lt: spec_fn(T, T) -> bool, k: int) -> bool {
    covers_children(s, lt, k, k)
}

/// From the node `lo` on, no node goes before a child of its own.
pub open spec fn heap_from<T>(s: Seq<T>, lt: spec_fn(T, T) -> bool, lo: int) -> bool {
    forall|k: int| lo <= k < s.len() ==> #[trigger] heap_ordered_at(s, lt, k)
}

/// From the node `lo` on, no node but the one at `hole` goes before a child
/// of its own, and the parent of `hole`, if it is among these nodes, does not
/// go before a child of `hole` either.
pub open spec fn heap_except<T>(
    s: Seq<T>,
    lt: spec_fn(T, T) -> bool,
    lo: int,
    hole: int,
) -> bool {
    &&& forall|k: int| lo <= k < s.len() && k != hole ==> #[trigger] heap_ordered_at(s, lt, k)
    &&& 1 <= hole && lo <= hole / 2 ==> covers_children(s, lt, hole / 2, hole)
}

/// A node that does not go before its children closes the hole.
pub proof fn lemma_sift_stop<T>(s: Seq<T>, lt: spec_fn(T, T) -> bool, lo: int, hole: int)
    requires
        heap_except(s, lt, lo, hole),
        heap_ordered_at(s, lt, hole),
    ensures
        heap_from(s, lt, lo),
{
}

/// Exchanging the node at `hole` with a child that neither the node nor the
/// other child goes after moves the hole down to that child.
pub proof fn lemma_sift_step<T>(
    s: Seq<T>,
    lt: spec_fn(T, T) -> bool,
    lo: int,
    hole: int,
    child: int,
)
    requires
        strict_weak_order_on(lt, s.to_set()),
        heap_except(s, lt, lo, hole),
        0 <= lo <= hole < child < s.len(),
        child == 2 * hole || child == 2 * hole + 1,
        !lt(s[child], s[hole]),
        covers_children(s, lt, child, hole),
    ensures
        heap_except(swapped(s, hole, child), lt, lo, child),
{
    let t = swapped(s, hole, child);
    assert(heap_ordered_at(s, lt, child));
    assert forall|k: int| lo <= k < t.len() && k != child implies #[trigger] heap_ordered_at(
        t,
        lt,
        k,
    ) by {
        if k == hole {
        } else {
            assert(heap_ordered_at(s, lt, k));
            if 1 <= hole && k == hole / 2 {
                assert(covers_children(s, lt, hole / 2, hole));
            }
        }
    }
    assert(child / 2 == hole);
    assert(covers_children(t, lt, hole, child));
}

/// In a heap no element goes after the root.
pub proof fn lemma_root_is_greatest<T>(s: Seq<T>, lt: spec_fn(T, T) -> bool, k: int)
    requires
        strict_weak_order_on(lt, s.to_set()),
        heap_from(s, lt, 0),
        0 <= k < s.len(),
    ensures
        !lt(s[0], s[k]),
    decreases k,
{
    assert(s.contains(s[0]) && s.contains(s[k]));
    if k > 0 {
        let p = k / 2;
        assert(s.contains(s[p]));
        lemma_root_is_greatest(s, lt, p);
        assert(heap_ordered_at(s, lt, p));
        lemma_not_less_transitive(lt, s.to_set(), s[k], s[p], s[0]);
    }
}

/// A slice is a heap from its second half on: those nodes have no children.
pub proof fn lemma_leaves_are_heaps<T>(s: Seq<T>, lt: spec_fn(T, T) -> bool, lo: int)
    requires
        s.len() <= 2 * lo,
    ensures
        heap_from(s, lt, lo),
{
}

/// The node with which a sift exchanges the node at `k`: the child at `2k`
/// if the node at `k` goes before it, and then the child at `2k + 1` if the
/// one chosen so far goes before that; the node itself if neither holds.
pub open spec fn sift_target<T>(s: Seq<T>, lt: spec_fn(T, T) -> bool, k: int) -> int {
    let first = if 2 * k < s.len() && lt(s[k], s[2 * k]) {
        2 * k
    } else {
        k
    };
    if 2 * k + 1 < s.len() && lt(s[first], s[2 * k + 1]) {
        2 * k + 1
    } else {
        first
    }
}

/// `s` after the node at `k` was sifted down.
pub open spec fn sifted<T>(s: Seq<T>, lt: spec_fn(T, T) -> bool, k: int) -> Seq<T>
    decreases s.len() - k,
{
    if k < 0 || k >= s.len() {
        s
    } else {
        let child = sift_target(s, lt, k);
        if child != k {
            sifted(swapped(s, k, child), lt, child)
        } else {
            s
        }
    }
}

/// `s` after the nodes before `i` were sifted down, from the last of them to
/// the root.
pub open spec fn heaped<T>(s: Seq<T>, lt: spec_fn(T, T) -> bool, i: int) -> Seq<T>
    decreases i,
{
    if i <= 0 {
        s
    } else {
        heaped(sifted(s, lt, i - 1), lt, i - 1)
    }
}

/// `s`, which begins with a heap of `i` elements, after the heap was
/// drained: its root exchanged with its last element, the rest sifted from
/// the root down, and so on until nothing is left of the heap.
pub open spec fn drained<T>(s: Seq<T>, lt: spec_fn(T, T) -> bool, i: int) -> Seq<T>
    decreases i,
{
    if i <= 0 || i > s.len() {
        s
    } else {
        let t = swapped(s, 0, i - 1);
        drained(sifted(t.take(i - 1), lt, 0) + t.skip(i - 1), lt, i - 1)
    }
}

/// The number of nodes of a tree of `len` nodes that may have a child.
pub open spec fn inner_nodes(len: int) -> int {
    if len <= 0 {
        0
    } else {
        (len - 1) / 2 + 1
    }
}

/// `s` after a heap sort.
pub open spec fn heap_sorted<T>(s: Seq<T>, lt: spec_fn(T, T) -> bool) -> Seq<T> {
    drained(heaped(s, lt, inner_nodes(s.len() as int)), lt, s.len() as int)
}

/// No element of a slice that begins with a heap of `len` elements goes
/// after the root of that heap, if it stands in the heap.
pub proof fn lemma_root_on_top<T>(s: Seq<T>, lt: spec_fn(T, T) -> bool, len: int)
    requires
        strict_weak_order_on(lt, s.to_set()),
        0 < len <= s.len(),
        heap_from(s.take(len), lt, 0),
    ensures
        forall|p: int| 0 <= p < len ==> !lt(s[0], #[trigger] s[p]),
{
    let h = s.take(len);
    assert(s =~= h + s.skip(len));
    lemma_concat_elements(h, s.skip(len));
    lemma_relation_on_subset(lt, s.to_set(), h.to_set());
    assert forall|p: int| 0 <= p < len implies !lt(s[0], #[trigger] s[p]) by {
        lemma_root_is_greatest(h, lt, p);
        assert(h[0] == s[0] && h[p] == s[p]);
    }
}

/// Taking the last element out of a heap and putting it in the place of
/// the root leaves a heap with a hole at the root.
pub proof fn lemma_exchanged_heap<T>(s: Seq<T>, lt: spec_fn(T, T) -> bool, last: int)
    requires
        0 <= last < s.len(),
        heap_from(s.take(last + 1), lt, 0),
    ensures
        heap_except(swapped(s, 0, last).take(last), lt, 0, 0),
{
    let h = s.take(last + 1);
    let t = swapped(s, 0, last).take(last);
    assert forall|k: int| 0 <= k < t.len() && k != 0 implies #[trigger] heap_ordered_at(
        t,
        lt,
        k,
    ) by {
        assert(heap_ordered_at(h, lt, k));
    }
}

} // verus!
