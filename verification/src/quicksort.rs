//! Quicksort: partition around the middle element, then sort the two
//! sides recursively.

use vstd::prelude::*;
use crate::test_utils::{sorted, sorted_range};

verus! {

broadcast use vstd::seq_lib::group_to_multiset_ensures;

pub struct QuickSort;

/// Exchange two entries of a buffer.
fn swap_entries(v: &mut Vec<u32>, i: usize, j: usize)
    requires
        i < old(v).len(),
        j < old(v).len(),
    ensures
        final(v)@ == old(v)@.update(i as int, old(v)@[j as int]).update(
            j as int,
            old(v)@[i as int],
        ),
{
    let a = v[i];
    let b = v[j];
    v.set(i, b);
    v.set(j, a);
}

impl QuickSort {
    /// Move everything in `buf[lo..hi)` smaller than the middle element to
    /// its left, returning the pivot's final position.
    #[verifier::loop_isolation(false)]
    pub fn partition(buf: &mut Vec<u32>, lo: usize, hi: usize) -> (p: usize)
        requires
            lo < hi <= old(buf).len(),
        ensures
            lo <= p < hi,
            final(buf)@.len() == old(buf)@.len(),
            final(buf)@.subrange(lo as int, hi as int).to_multiset() == old(buf)@.subrange(
                lo as int,
                hi as int,
            ).to_multiset(),
            forall|k: int|
                0 <= k < old(buf)@.len() && !(lo <= k < hi) ==> final(buf)@[k] == old(buf)@[k],
            forall|k: int| lo <= k < p ==> final(buf)@[k] < final(buf)@[p as int],
            forall|k: int| p < k < hi ==> final(buf)@[k] >= final(buf)@[p as int],
    {
        let ghost s0 = buf@;
        let mid = lo + (hi - lo) / 2;
        let pivot = buf[mid];
        let ghost s_pre = buf@;
        swap_entries(buf, lo, mid);
        proof {
            crate::insertion_sort::lemma_swap_submultiset(
                s_pre,
                lo as int,
                hi as int,
                lo as int,
                mid as int,
            );
        }
        let mut last_small = lo;
        let mut i = lo + 1;
        while i < hi
            invariant
                lo <= last_small < i <= hi,
                buf@.len() == s0.len(),
                buf@[lo as int] == pivot,
                forall|k: int| lo < k <= last_small ==> buf@[k] < pivot,
                forall|k: int| last_small < k < i ==> buf@[k] >= pivot,
                buf@.subrange(lo as int, hi as int).to_multiset() == s0.subrange(
                    lo as int,
                    hi as int,
                ).to_multiset(),
                forall|k: int| 0 <= k < s0.len() && !(lo <= k < hi) ==> buf@[k] == s0[k],
            decreases hi - i,
        {
            if buf[i] < pivot {
                last_small = last_small + 1;
                let ghost s_cur = buf@;
                swap_entries(buf, last_small, i);
                proof {
                    crate::insertion_sort::lemma_swap_submultiset(
                        s_cur,
                        lo as int,
                        hi as int,
                        last_small as int,
                        i as int,
                    );
                }
            }
            i = i + 1;
        }
        let ghost s_mid = buf@;
        swap_entries(buf, lo, last_small);
        proof {
            crate::insertion_sort::lemma_swap_submultiset(
                s_mid,
                lo as int,
                hi as int,
                lo as int,
                last_small as int,
            );
            assert(buf@[last_small as int] == pivot);
            assert forall|k: int| lo <= k < last_small implies buf@[k] < buf@[last_small as int] by {
                if k == lo {
                    assert(buf@[k] == s_mid[last_small as int]);
                } else {
                    assert(buf@[k] == s_mid[k]);
                }
            }
        }
        last_small
    }

    /// Sort `buf[lo..hi)` in place, leaving the rest alone.
    pub fn sort_range(buf: &mut Vec<u32>, lo: usize, hi: usize)
        requires
            lo <= hi <= old(buf).len(),
        ensures
            final(buf)@.len() == old(buf)@.len(),
            sorted_range(final(buf)@, lo as int, hi as int),
            final(buf)@.subrange(lo as int, hi as int).to_multiset() == old(buf)@.subrange(
                lo as int,
                hi as int,
            ).to_multiset(),
            forall|k: int|
                0 <= k < old(buf)@.len() && !(lo <= k < hi) ==> final(buf)@[k] == old(buf)@[k],
        decreases hi - lo,
    {
        if hi - lo < 2 {
            return;
        }
        let ghost s0 = buf@;
        let p = Self::partition(buf, lo, hi);
        let ghost s1 = buf@;
        let ghost pivot = s1[p as int];
        Self::sort_range(buf, lo, p);
        let ghost s2 = buf@;
        Self::sort_range(buf, p + 1, hi);
        let ghost s3 = buf@;
        proof {
            assert(s3[p as int] == pivot);
            assert(s2.subrange(lo as int, p as int).to_multiset() == s1.subrange(
                lo as int,
                p as int,
            ).to_multiset());
            assert(s3.subrange(lo as int, p as int) =~= s2.subrange(lo as int, p as int));
            assert(s2.subrange(p + 1, hi as int) =~= s1.subrange(p + 1, hi as int));
            assert forall|k: int| lo <= k < p implies s3[k] < pivot by {
                let left = s3.subrange(lo as int, p as int);
                assert(left[k - lo] == s3[k]);
                assert(left.contains(s3[k])) by {
                    assert(left[k - lo] == s3[k]);
                }
                assert(left.to_multiset().contains(s3[k]));
                assert(s1.subrange(lo as int, p as int).to_multiset().contains(s3[k]));
                assert(s1.subrange(lo as int, p as int).contains(s3[k]));
                let j = choose|j: int|
                    0 <= j < p - lo && #[trigger] s1.subrange(lo as int, p as int)[j] == s3[k];
                assert(s1[lo + j] == s3[k]);
            }
            assert forall|k: int| p < k < hi implies s3[k] >= pivot by {
                let right = s3.subrange(p + 1, hi as int);
                assert(right[k - p - 1] == s3[k]);
                assert(right.to_multiset().contains(s3[k]));
                assert(s1.subrange(p + 1, hi as int).to_multiset().contains(s3[k]));
                assert(s1.subrange(p + 1, hi as int).contains(s3[k]));
                let j = choose|j: int|
                    0 <= j < hi - p - 1 && #[trigger] s1.subrange(p + 1, hi as int)[j] == s3[k];
                assert(s1[p + 1 + j] == s3[k]);
            }
            assert forall|a: int, b: int| lo <= a <= b < hi implies s3[a] <= s3[b] by {
                if a < p && b == p {
                } else if a == p && b > p {
                } else if a < p && b > p {
                    assert(s3[a] < pivot);
                    assert(s3[b] >= pivot);
                }
            }
            assert(s1.subrange(lo as int, hi as int) =~= s1.subrange(lo as int, p as int) + seq![
                s1[p as int],
            ] + s1.subrange(p + 1, hi as int));
            assert(s3.subrange(lo as int, hi as int) =~= s3.subrange(lo as int, p as int) + seq![
                s3[p as int],
            ] + s3.subrange(p + 1, hi as int));
            lemma_three_part_multiset(
                s1.subrange(lo as int, p as int),
                s1[p as int],
                s1.subrange(p + 1, hi as int),
                s3.subrange(lo as int, p as int),
                s3.subrange(p + 1, hi as int),
            );
        }
    }

    /// Sort the whole buffer in place.
    pub fn sort(buf: &mut Vec<u32>)
        ensures
            final(buf)@.len() == old(buf)@.len(),
            sorted(final(buf)@),
            final(buf)@.to_multiset() == old(buf)@.to_multiset(),
    {
        let n = buf.len();
        let ghost s0 = buf@;
        Self::sort_range(buf, 0, n);
        proof {
            assert(buf@.subrange(0, n as int) =~= buf@);
            assert(s0.subrange(0, n as int) =~= s0);
        }
    }
}

/// Concatenations of multiset-equal parts around a shared pivot have equal
/// multisets.
proof fn lemma_three_part_multiset(a1: Seq<u32>, x: u32, b1: Seq<u32>, a2: Seq<u32>, b2: Seq<u32>)
    requires
        a1.to_multiset() == a2.to_multiset(),
        b1.to_multiset() == b2.to_multiset(),
    ensures
        (a2 + seq![x] + b2).to_multiset() == (a1 + seq![x] + b1).to_multiset(),
{
    vstd::seq_lib::lemma_multiset_commutative(a1 + seq![x], b1);
    vstd::seq_lib::lemma_multiset_commutative(a2 + seq![x], b2);
    vstd::seq_lib::lemma_multiset_commutative(a1, seq![x]);
    vstd::seq_lib::lemma_multiset_commutative(a2, seq![x]);
    assert((a1 + seq![x] + b1).to_multiset() =~= (a2 + seq![x] + b2).to_multiset());
}

} // verus!
