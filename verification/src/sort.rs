//! In-place quicksort over vectors of 32-bit integers, in a recursive and an
//! iterative variant, both built on the shared Lomuto partition step. Both
//! variants are proved to produce a sorted permutation of their input, so
//! they always agree with each other.

use vstd::prelude::*;

verus! {

use vstd::multiset::Multiset;
use vstd::seq_lib::lemma_multiset_commutative;
use vstd::seq_lib::group_to_multiset_ensures;

/// The slice of `s` between positions `lo` and `hi` inclusive is ascending.
pub open spec fn sorted_between(s: Seq<i32>, lo: int, hi: int) -> bool {
    forall|x: int, y: int| lo <= x <= y <= hi ==> #[trigger] s[x] <= #[trigger] s[y]
}

/// The whole sequence is ascending.
pub open spec fn sorted(s: Seq<i32>) -> bool {
    sorted_between(s, 0, s.len() - 1)
}

/// `s1` and `s2` have the same length and agree everywhere outside the
/// inclusive index range `[lo, hi]`.
pub open spec fn same_outside(s1: Seq<i32>, s2: Seq<i32>, lo: int, hi: int) -> bool {
    s1.len() == s2.len() && forall|k: int|
        0 <= k < s1.len() && !(lo <= k <= hi) ==> s1[k] == s2[k]
}

/// The multiset of values held in the inclusive index range `[lo, hi]`.
pub open spec fn seg_multiset(s: Seq<i32>, lo: int, hi: int) -> Multiset<i32> {
    s.subrange(lo, hi + 1).to_multiset()
}

/// Exchanging two positions of a sequence preserves its multiset of values.
proof fn lemma_swap_multiset(t: Seq<i32>, u: int, v: int)
    requires
        0 <= u < t.len(),
        0 <= v < t.len(),
    ensures
        t.update(u, t[v]).update(v, t[u]).to_multiset() == t.to_multiset(),
{
    broadcast use group_to_multiset_ensures;
    broadcast use vstd::seq_lib::to_multiset_update;

    let t1 = t.update(u, t[v]);
    let t2 = t1.update(v, t[u]);
    if u == v {
        assert(t2 =~= t);
    } else {
        assert(t1[v] == t[v]);
        assert(t1.to_multiset() == t.to_multiset().insert(t[v]).remove(t[u]));
        assert(t2.to_multiset() == t1.to_multiset().insert(t[u]).remove(t[v]));
        assert(t.to_multiset().contains(t[u]));
        assert(t2.to_multiset() =~= t.to_multiset());
    }
}

/// Exchanging two positions inside `[lo, hi]` preserves the multiset of that
/// segment.
proof fn lemma_swap_seg_multiset(s: Seq<i32>, lo: int, hi: int, u: int, v: int)
    requires
        0 <= lo <= u <= hi < s.len(),
        lo <= v <= hi,
    ensures
        seg_multiset(s.update(u, s[v]).update(v, s[u]), lo, hi) == seg_multiset(s, lo, hi),
{
    let s2 = s.update(u, s[v]).update(v, s[u]);
    let t = s.subrange(lo, hi + 1);
    assert(s2.subrange(lo, hi + 1) =~= t.update(u - lo, t[v - lo]).update(v - lo, t[u - lo]));
    lemma_swap_multiset(t, u - lo, v - lo);
}

/// Exchanges the values at positions `u` and `v`.
fn swap_elems(a: &mut Vec<i32>, u: usize, v: usize)
    requires
        u < old(a)@.len(),
        v < old(a)@.len(),
    ensures
        final(a)@ == old(a)@.update(u as int, old(a)@[v as int]).update(
            v as int,
            old(a)@[u as int],
        ),
{
    let x = a[u];
    let y = a[v];
    a.set(u, y);
    a.set(v, x);
}

/// Lomuto partition over the inclusive range `[low, high]`: the last element
/// is the pivot; afterwards it stands at the returned index `p`, everything
/// left of `p` within the range is at most the pivot, and everything right
/// of `p` within the range is strictly greater. Only `[low, high]` is
/// touched, and its multiset of values is preserved.
pub fn partition(a: &mut Vec<i32>, low: i32, high: i32) -> (p: i32)
    requires
        0 <= low <= high < old(a)@.len(),
        old(a)@.len() <= i32::MAX,
    ensures
        low <= p <= high,
        final(a)@.len() == old(a)@.len(),
        same_outside(old(a)@, final(a)@, low as int, high as int),
        seg_multiset(final(a)@, low as int, high as int) == seg_multiset(
            old(a)@,
            low as int,
            high as int,
        ),
        final(a)@[p as int] == old(a)@[high as int],
        forall|k: int| low <= k < p ==> final(a)@[k] <= final(a)@[p as int],
        forall|k: int| p < k <= high ==> final(a)@[k] > final(a)@[p as int],
{
    let ghost orig: Seq<i32> = a@;
    let mut i: i32 = low - 1;
    let pivot: i32 = a[high as usize];
    let mut j: i32 = low;
    while j < high
        invariant
            0 <= low <= high < a@.len() <= i32::MAX,
            low <= j <= high,
            low - 1 <= i < j,
            a@.len() == orig.len(),
            a@[high as int] == pivot,
            orig[high as int] == pivot,
            same_outside(orig, a@, low as int, high as int),
            seg_multiset(a@, low as int, high as int) == seg_multiset(
                orig,
                low as int,
                high as int,
            ),
            forall|k: int| low <= k <= i ==> a@[k] <= pivot,
            forall|k: int| i < k < j ==> a@[k] > pivot,
        decreases high - j,
    {
        if a[j as usize] <= pivot {
            i = i + 1;
            proof {
                lemma_swap_seg_multiset(a@, low as int, high as int, i as int, j as int);
            }
            swap_elems(a, i as usize, j as usize);
        }
        j = j + 1;
    }
    proof {
        lemma_swap_seg_multiset(a@, low as int, high as int, (i + 1) as int, high as int);
    }
    swap_elems(a, (i + 1) as usize, high as usize);
    i + 1
}

/// Two sequences with the same multiset of values satisfy the same
/// per-element predicates.
proof fn lemma_multiset_pred(t1: Seq<i32>, t2: Seq<i32>, pred: spec_fn(i32) -> bool)
    requires
        t1.to_multiset() == t2.to_multiset(),
        forall|k: int| 0 <= k < t1.len() ==> pred(#[trigger] t1[k]),
    ensures
        forall|k: int| 0 <= k < t2.len() ==> pred(#[trigger] t2[k]),
{
    broadcast use group_to_multiset_ensures;

    assert forall|k: int| 0 <= k < t2.len() implies pred(t2[k]) by {
        assert(t2.contains(t2[k]));
        assert(t1.to_multiset().count(t2[k]) > 0);
        assert(t1.contains(t2[k]));
        let idx = choose|i: int| 0 <= i < t1.len() && t1[i] == t2[k];
        assert(pred(t1[idx]));
    }
}

/// A change confined to the inner range `[l2, h2]` that preserves the inner
/// multiset also preserves the multiset of any enclosing range `[lo, hi]`.
proof fn lemma_seg_widen(s1: Seq<i32>, s2: Seq<i32>, lo: int, hi: int, l2: int, h2: int)
    requires
        0 <= lo <= l2,
        l2 <= h2 + 1,
        h2 <= hi < s1.len(),
        s1.len() == s2.len(),
        same_outside(s1, s2, l2, h2),
        seg_multiset(s1, l2, h2) == seg_multiset(s2, l2, h2),
    ensures
        same_outside(s1, s2, lo, hi),
        seg_multiset(s1, lo, hi) == seg_multiset(s2, lo, hi),
{
    let a1 = s1.subrange(lo, l2);
    let m1 = s1.subrange(l2, h2 + 1);
    let b1 = s1.subrange(h2 + 1, hi + 1);
    let a2 = s2.subrange(lo, l2);
    let m2 = s2.subrange(l2, h2 + 1);
    let b2 = s2.subrange(h2 + 1, hi + 1);
    assert(s1.subrange(lo, hi + 1) =~= (a1 + m1) + b1);
    assert(s2.subrange(lo, hi + 1) =~= (a2 + m2) + b2);
    assert(a1 =~= a2);
    assert(b1 =~= b2);
    lemma_multiset_commutative(a1 + m1, b1);
    lemma_multiset_commutative(a1, m1);
    lemma_multiset_commutative(a2 + m2, b2);
    lemma_multiset_commutative(a2, m2);
}

/// A change confined to `[l2, h2]` that preserves the inner multiset
/// preserves the multiset of the whole sequence.
proof fn lemma_whole_multiset(s1: Seq<i32>, s2: Seq<i32>, l2: int, h2: int)
    requires
        0 <= l2,
        l2 <= h2 + 1,
        h2 < s1.len(),
        s1.len() == s2.len(),
        same_outside(s1, s2, l2, h2),
        seg_multiset(s1, l2, h2) == seg_multiset(s2, l2, h2),
    ensures
        s1.to_multiset() == s2.to_multiset(),
{
    lemma_seg_widen(s1, s2, 0, s1.len() - 1, l2, h2);
    assert(s1.subrange(0, s1.len() as int) =~= s1);
    assert(s2.subrange(0, s2.len() as int) =~= s2);
}

/// Recursive quicksort over the inclusive range `[low, high]`: afterwards
/// that range is sorted, holds the same multiset of values as before, and
/// nothing outside it has moved. Ranges of at most one element are left
/// alone.
pub fn real_quicksort_rec(a: &mut Vec<i32>, low: i32, high: i32)
    requires
        0 <= low,
        high < old(a)@.len(),
        old(a)@.len() <= i32::MAX,
    ensures
        final(a)@.len() == old(a)@.len(),
        same_outside(old(a)@, final(a)@, low as int, high as int),
        seg_multiset(final(a)@, low as int, high as int) == seg_multiset(
            old(a)@,
            low as int,
            high as int,
        ),
        sorted_between(final(a)@, low as int, high as int),
    decreases high - low + 1,
{
    if low < high {
        let ghost a0 = a@;
        let p = partition(a, low, high);
        let ghost a1 = a@;
        let ghost piv: i32 = a1[p as int];
        real_quicksort_rec(a, low, p - 1);
        let ghost a2 = a@;
        real_quicksort_rec(a, p + 1, high);
        let ghost a3 = a@;
        proof {
            let pi = p as int;
            let lo = low as int;
            let hi = high as int;

            // The left segment keeps only values at most the pivot.
            let lseg1 = a1.subrange(lo, pi);
            let lseg2 = a2.subrange(lo, pi);
            assert(forall|k: int| 0 <= k < lseg1.len() ==> #[trigger] lseg1[k] <= piv);
            lemma_multiset_pred(lseg1, lseg2, |v: i32| v <= piv);

            // The right segment was untouched by the left recursion and then
            // keeps only values above the pivot.
            let rseg2 = a2.subrange(pi + 1, hi + 1);
            let rseg3 = a3.subrange(pi + 1, hi + 1);
            assert(rseg2 =~= a1.subrange(pi + 1, hi + 1));
            assert(forall|k: int| 0 <= k < rseg2.len() ==> #[trigger] rseg2[k] > piv);
            lemma_multiset_pred(rseg2, rseg3, |v: i32| v > piv);

            // The pivot position is outside both recursion ranges.
            assert(a3[pi] == piv);
            assert(forall|k: int| lo <= k < pi ==> #[trigger] a3[k] == a2[k]);
            assert forall|k: int| lo <= k < pi implies #[trigger] a3[k] <= piv by {
                assert(a2[k] == lseg2[k - lo]);
            }
            assert forall|k: int| pi < k <= hi implies #[trigger] a3[k] > piv by {
                assert(a3[k] == rseg3[k - (pi + 1)]);
            }

            assert forall|x: int, y: int| lo <= x <= y <= hi implies a3[x] <= a3[y] by {
                if y < pi {
                    assert(a2[x] <= a2[y]);
                } else if x > pi {
                    assert(a3[x] <= a3[y]);
                } else if x < pi && y == pi {
                    assert(a3[x] <= piv);
                } else if x < pi && y > pi {
                    assert(a3[x] <= piv && piv < a3[y]);
                }
            }

            lemma_seg_widen(a1, a2, lo, hi, lo, pi - 1);
            lemma_seg_widen(a2, a3, lo, hi, pi + 1, hi);
        }
    }
}

/// Sorts the whole vector in place with recursive quicksort: the result is
/// ascending and a permutation of the input.
pub fn quicksort_rec(a: &mut Vec<i32>)
    requires
        old(a)@.len() <= i32::MAX,
    ensures
        final(a)@.len() == old(a)@.len(),
        final(a)@.to_multiset() == old(a)@.to_multiset(),
        sorted(final(a)@),
{
    let n = a.len();
    let hi = n as i32 - 1;
    real_quicksort_rec(a, 0, hi);
    proof {
        lemma_whole_multiset(old(a)@, a@, 0, old(a)@.len() - 1);
    }
}

/// The number of elements an inclusive work-stack range holds.
pub open spec fn range_size(r: (i32, i32)) -> int {
    r.1 - r.0 + 1
}

/// Total number of elements still covered by pending work-stack ranges; the
/// termination measure of the iterative sort.
pub open spec fn stack_sizes(st: Seq<(i32, i32)>) -> int
    decreases st.len(),
{
    if st.len() == 0 {
        0
    } else {
        stack_sizes(st.drop_last()) + range_size(st.last())
    }
}

/// Some pending range contains both positions `x` and `y`.
pub open spec fn covered(st: Seq<(i32, i32)>, x: int, y: int) -> bool {
    exists|r: int| 0 <= r < st.len() && (#[trigger] st[r]).0 <= x && y <= st[r].1
}

/// Pending ranges are within bounds, hold at least two elements each, and
/// stand in strictly ascending position order (so they are disjoint).
pub open spec fn stack_wf(st: Seq<(i32, i32)>, len: int) -> bool {
    &&& forall|r: int| 0 <= r < st.len() ==> 0 <= (#[trigger] st[r]).0 < st[r].1 < len
    &&& forall|r1: int, r2: int|
        0 <= r1 < r2 < st.len() ==> (#[trigger] st[r1]).1 < (#[trigger] st[r2]).0
}

/// Every pair of positions that no single pending range contains is already
/// in order. With an empty stack this is sortedness of the whole sequence.
pub open spec fn fenced(s: Seq<i32>, st: Seq<(i32, i32)>) -> bool {
    forall|x: int, y: int| 0 <= x < y < s.len() && !covered(st, x, y) ==> s[x] <= s[y]
}

/// Appending a range adds its size to the measure.
proof fn lemma_stack_sizes_push(st: Seq<(i32, i32)>, r: (i32, i32))
    ensures
        stack_sizes(st.push(r)) == stack_sizes(st) + range_size(r),
{
    assert(st.push(r).drop_last() =~= st);
    assert(st.push(r).last() == r);
}

/// The measure of a well-formed stack is never negative.
proof fn lemma_stack_sizes_nonneg(st: Seq<(i32, i32)>)
    requires
        forall|r: int| 0 <= r < st.len() ==> (#[trigger] st[r]).0 <= st[r].1,
    ensures
        stack_sizes(st) >= 0,
    decreases st.len(),
{
    if st.len() > 0 {
        lemma_stack_sizes_nonneg(st.drop_last());
    }
}

/// Sorts the whole vector in place with an explicit work stack instead of
/// recursion: the result is ascending and a permutation of the input.
pub fn quicksort_iter(a: &mut Vec<i32>)
    requires
        old(a)@.len() <= i32::MAX,
    ensures
        final(a)@.len() == old(a)@.len(),
        final(a)@.to_multiset() == old(a)@.to_multiset(),
        sorted(final(a)@),
{
    let ghost orig: Seq<i32> = a@;
    let mut stack: Vec<(i32, i32)> = Vec::new();
    let n = a.len();
    let start: i32 = 0;
    let end: i32 = n as i32 - 1;

    if end > start {
        stack.push((start, end));
    }
    proof {
        if end > start {
            assert forall|x: int, y: int| 0 <= x < y < a@.len() implies covered(stack@, x, y) by {
                assert(stack@[0].0 <= x && y <= stack@[0].1);
            }
        } else {
            assert(a@.len() <= 1);
        }
    }

    while !stack.is_empty()
        invariant
            a@.len() == orig.len(),
            a@.len() <= i32::MAX,
            a@.to_multiset() == orig.to_multiset(),
            stack_wf(stack@, a@.len() as int),
            fenced(a@, stack@),
        decreases stack_sizes(stack@),
    {
        let ghost st0: Seq<(i32, i32)> = stack@;
        let ghost a0: Seq<i32> = a@;

        let top = stack.pop().unwrap();
        let low: i32 = top.0;
        let high: i32 = top.1;
        let ghost st1: Seq<(i32, i32)> = stack@;
        let ghost lo: int = low as int;
        let ghost hi: int = high as int;
        proof {
            assert(st1 =~= st0.drop_last());
        }

        let p = partition(a, low, high);
        let ghost a1: Seq<i32> = a@;
        let ghost pi: int = p as int;
        let ghost piv: i32 = a1[pi];

        let pushed_left: bool = p - 1 > low;
        if pushed_left {
            stack.push((low, p - 1));
        }
        let pushed_right: bool = p + 1 < high;
        if pushed_right {
            stack.push((p + 1, high));
        }
        let ghost st2: Seq<(i32, i32)> = stack@;
        let ghost left_idx: int = st1.len() as int;
        let ghost right_idx: int = st1.len() + (if pushed_left { 1int } else { 0int });

        proof {
            let len = a1.len() as int;

            // Permutation of the whole array.
            lemma_whole_multiset(a0, a1, lo, hi);

            // Positions of the pushed children.
            if pushed_left {
                assert(st2[left_idx] == (low, (p - 1) as i32));
            }
            if pushed_right {
                assert(st2[right_idx] == ((p + 1) as i32, high));
            }
            assert(forall|r: int| 0 <= r < st1.len() ==> st2[r] == #[trigger] st1[r]);
            assert(forall|r: int| 0 <= r < st1.len() ==> st1[r] == #[trigger] st0[r]);

            // Entries below the popped one end before its range starts.
            assert(forall|r: int| 0 <= r < st1.len() ==> (#[trigger] st1[r]).1 < lo);

            // The stack stays well formed.
            assert(stack_wf(st2, len));

            // The measure shrinks.
            assert(stack_sizes(st0) == stack_sizes(st1) + range_size(top));
            if pushed_left {
                lemma_stack_sizes_push(st1, (low, (p - 1) as i32));
            }
            if pushed_right {
                lemma_stack_sizes_push(
                    if pushed_left { st1.push((low, (p - 1) as i32)) } else { st1 },
                    ((p + 1) as i32, high),
                );
            }
            assert(forall|r: int| 0 <= r < st2.len() ==> (#[trigger] st2[r]).0 <= st2[r].1);
            lemma_stack_sizes_nonneg(st2);
            assert(stack_sizes(st2) < stack_sizes(st0));

            // The fence holds again: any pair no pending range contains is
            // in order.
            let t0 = a0.subrange(lo, hi + 1);
            let t1 = a1.subrange(lo, hi + 1);
            assert forall|x: int, y: int|
                0 <= x < y < len && !covered(st2, x, y) implies a1[x] <= a1[y] by {
                if lo <= x && y <= hi {
                    // Both inside the popped range.
                    if y <= pi - 1 {
                        if pushed_left {
                            assert(st2[left_idx].0 <= x && y <= st2[left_idx].1);
                            assert(covered(st2, x, y));
                        } else {
                            assert(y <= lo);
                        }
                        assert(false);
                    } else if x >= pi + 1 {
                        if pushed_right {
                            assert(st2[right_idx].0 <= x && y <= st2[right_idx].1);
                            assert(covered(st2, x, y));
                        } else {
                            assert(x >= hi);
                        }
                        assert(false);
                    } else {
                        // The pair straddles the pivot position.
                        assert(x <= pi <= y);
                        if x < pi {
                            assert(a1[x] <= piv);
                        }
                        if y > pi {
                            assert(a1[y] > piv);
                        }
                    }
                } else if (x < lo || x > hi) && (y < lo || y > hi) {
                    // Both outside: values unchanged, and the pair was
                    // already uncovered before the pop.
                    assert(!covered(st0, x, y));
                    assert(a1[x] == a0[x] && a1[y] == a0[y]);
                } else if x < lo {
                    // x outside on the left, y inside the popped range.
                    assert(lo <= y <= hi);
                    assert forall|k: int| 0 <= k < t0.len() implies a0[x] <= #[trigger] t0[k] by {
                        let z = lo + k;
                        assert(!covered(st0, x, z));
                        assert(t0[k] == a0[z]);
                    }
                    lemma_multiset_pred(t0, t1, |v: i32| a0[x] <= v);
                    assert(a1[y] == t1[y - lo]);
                    assert(a1[x] == a0[x]);
                } else {
                    // y outside on the right, x inside the popped range.
                    assert(lo <= x <= hi && y > hi);
                    assert forall|k: int| 0 <= k < t0.len() implies #[trigger] t0[k] <= a0[y] by {
                        let z = lo + k;
                        assert(!covered(st0, z, y));
                        assert(t0[k] == a0[z]);
                    }
                    lemma_multiset_pred(t0, t1, |v: i32| v <= a0[y]);
                    assert(a1[x] == t1[x - lo]);
                    assert(a1[y] == a0[y]);
                }
            }
        }
    }

    proof {
        assert forall|x: int, y: int| 0 <= x <= y <= a@.len() - 1 implies a@[x] <= a@[y] by {
            if x < y {
                assert(!covered(stack@, x, y));
            }
        }
    }
}

/// Ascending sequences holding the same multiset of values are equal. Both
/// quicksort variants turn a vector into an ascending permutation of it, so
/// by this law they always produce the identical result.
pub proof fn lemma_sorted_unique(s1: Seq<i32>, s2: Seq<i32>)
    requires
        sorted(s1),
        sorted(s2),
        s1.to_multiset() == s2.to_multiset(),
    ensures
        s1 == s2,
    decreases s1.len(),
{
    broadcast use group_to_multiset_ensures;

    assert(s1.len() == s1.to_multiset().len());
    assert(s2.len() == s2.to_multiset().len());
    if s1.len() == 0 {
        assert(s1 =~= s2);
    } else {
        assert(s1.contains(s1[0]));
        assert(s2.to_multiset().count(s1[0]) > 0);
        assert(s2.contains(s1[0]));
        let i2 = choose|i: int| 0 <= i < s2.len() && s2[i] == s1[0];
        assert(s2[0] <= s2[i2]);
        assert(s2.contains(s2[0]));
        assert(s1.to_multiset().count(s2[0]) > 0);
        assert(s1.contains(s2[0]));
        let i1 = choose|i: int| 0 <= i < s1.len() && s1[i] == s2[0];
        assert(s1[0] <= s1[i1]);
        assert(s1[0] == s2[0]);

        let t1 = s1.drop_first();
        let t2 = s2.drop_first();
        assert(t1 =~= s1.remove(0));
        assert(t2 =~= s2.remove(0));
        assert(t1.to_multiset() == s1.to_multiset().remove(s1[0]));
        assert(t2.to_multiset() == s2.to_multiset().remove(s2[0]));
        assert forall|x: int, y: int| 0 <= x <= y <= t1.len() - 1 implies t1[x] <= t1[y] by {
            assert(s1[x + 1] <= s1[y + 1]);
        }
        assert forall|x: int, y: int| 0 <= x <= y <= t2.len() - 1 implies t2[x] <= t2[y] by {
            assert(s2[x + 1] <= s2[y + 1]);
        }
        lemma_sorted_unique(t1, t2);
        assert forall|k: int| 0 <= k < s1.len() implies s1[k] == s2[k] by {
            if k > 0 {
                assert(s1[k] == t1[k - 1] && s2[k] == t2[k - 1]);
            }
        }
        assert(s1 =~= s2);
    }
}

} // verus!
