//! Merge sort, with the merge step in three flavours: plain, with a
//! caller-provided auxiliary buffer, and instrumented to count key
//! comparisons.
//!
//! # Time Complexity
//! - Best Case: O(nlgn)
//! - Worst Case: O(nlgn)
//!
//! # Space Complexity
//! - O(n) since an auxiliary vector stores the merged run

use vstd::prelude::*;
use crate::test_utils::{sorted, sorted_range};

verus! {

broadcast use vstd::seq_lib::group_to_multiset_ensures;

pub struct MergeSort;

/// How many comparisons merging two sorted runs makes: one per loop
/// iteration while both runs still have elements.
pub open spec fn merge_count(l: Seq<u32>, r: Seq<u32>) -> nat
    decreases l.len() + r.len(),
{
    if l.len() == 0 || r.len() == 0 {
        0
    } else if l[0] < r[0] {
        (1 + merge_count(l.drop_first(), r)) as nat
    } else {
        (1 + merge_count(l, r.drop_first())) as nat
    }
}

/// Merging never compares more often than the two runs are long.
pub proof fn lemma_merge_count_bound(l: Seq<u32>, r: Seq<u32>)
    ensures
        merge_count(l, r) <= l.len() + r.len(),
    decreases l.len() + r.len(),
{
    if l.len() > 0 && r.len() > 0 {
        if l[0] < r[0] {
            lemma_merge_count_bound(l.drop_first(), r);
        } else {
            lemma_merge_count_bound(l, r.drop_first());
        }
    }
}

impl MergeSort {
    /// Merge the sorted runs `buf[lo..mid)` and `buf[mid..hi)` in place,
    /// reusing `aux_buf` as scratch space.
    #[verifier::loop_isolation(false)]
    pub fn merge_prealloc(buf: &mut Vec<u32>, lo: usize, mid: usize, hi: usize, aux_buf: &mut Vec<
        u32,
    >)
        requires
            lo <= mid <= hi <= old(buf).len(),
            sorted_range(old(buf)@, lo as int, mid as int),
            sorted_range(old(buf)@, mid as int, hi as int),
        ensures
            final(buf)@.len() == old(buf)@.len(),
            sorted_range(final(buf)@, lo as int, hi as int),
            final(buf)@.subrange(lo as int, hi as int).to_multiset() == old(buf)@.subrange(
                lo as int,
                hi as int,
            ).to_multiset(),
            forall|k: int|
                0 <= k < old(buf)@.len() && !(lo <= k < hi) ==> final(buf)@[k] == old(buf)@[k],
    {
        aux_buf.clear();
        let ghost s0 = buf@;
        let mut l_i = lo;
        let mut r_i = mid;
        while l_i < mid && r_i < hi
            invariant
                lo <= l_i <= mid,
                mid <= r_i <= hi,
                buf@ == s0,
                aux_buf@.len() == (l_i - lo) + (r_i - mid),
                sorted(aux_buf@),
                aux_buf@.to_multiset() == s0.subrange(lo as int, l_i as int).to_multiset().add(
                    s0.subrange(mid as int, r_i as int).to_multiset(),
                ),
                forall|k: int|
                    0 <= k < aux_buf@.len() && l_i < mid ==> #[trigger] aux_buf@[k] <= s0[l_i as int],
                forall|k: int|
                    0 <= k < aux_buf@.len() && r_i < hi ==> #[trigger] aux_buf@[k] <= s0[r_i as int],
            decreases (mid - l_i) + (hi - r_i),
        {
            let ghost a0 = aux_buf@;
            if buf[l_i] < buf[r_i] {
                aux_buf.push(buf[l_i]);
                proof {
                    assert(s0.subrange(lo as int, l_i + 1) =~= s0.subrange(
                        lo as int,
                        l_i as int,
                    ).push(s0[l_i as int]));
                    assert(aux_buf@.to_multiset() =~= s0.subrange(
                        lo as int,
                        l_i + 1,
                    ).to_multiset().add(s0.subrange(mid as int, r_i as int).to_multiset()));
                }
                l_i = l_i + 1;
            } else {
                aux_buf.push(buf[r_i]);
                proof {
                    assert(s0.subrange(mid as int, r_i + 1) =~= s0.subrange(
                        mid as int,
                        r_i as int,
                    ).push(s0[r_i as int]));
                    assert(aux_buf@.to_multiset() =~= s0.subrange(
                        lo as int,
                        l_i as int,
                    ).to_multiset().add(s0.subrange(mid as int, r_i + 1).to_multiset()));
                }
                r_i = r_i + 1;
            }
        }
        while l_i < mid
            invariant
                lo <= l_i <= mid,
                mid <= r_i <= hi,
                l_i < mid ==> r_i == hi,
                buf@ == s0,
                aux_buf@.len() == (l_i - lo) + (r_i - mid),
                sorted(aux_buf@),
                aux_buf@.to_multiset() == s0.subrange(lo as int, l_i as int).to_multiset().add(
                    s0.subrange(mid as int, r_i as int).to_multiset(),
                ),
                forall|k: int|
                    0 <= k < aux_buf@.len() && l_i < mid ==> #[trigger] aux_buf@[k] <= s0[l_i as int],
                forall|k: int|
                    0 <= k < aux_buf@.len() && r_i < hi ==> #[trigger] aux_buf@[k] <= s0[r_i as int],
            decreases mid - l_i,
        {
            aux_buf.push(buf[l_i]);
            proof {
                assert(s0.subrange(lo as int, l_i + 1) =~= s0.subrange(lo as int, l_i as int).push(
                    s0[l_i as int],
                ));
                assert(aux_buf@.to_multiset() =~= s0.subrange(lo as int, l_i + 1).to_multiset().add(
                    s0.subrange(mid as int, r_i as int).to_multiset(),
                ));
            }
            l_i = l_i + 1;
        }
        while r_i < hi
            invariant
                l_i == mid,
                mid <= r_i <= hi,
                buf@ == s0,
                aux_buf@.len() == (mid - lo) + (r_i - mid),
                sorted(aux_buf@),
                aux_buf@.to_multiset() == s0.subrange(lo as int, mid as int).to_multiset().add(
                    s0.subrange(mid as int, r_i as int).to_multiset(),
                ),
                forall|k: int|
                    0 <= k < aux_buf@.len() && r_i < hi ==> #[trigger] aux_buf@[k] <= s0[r_i as int],
            decreases hi - r_i,
        {
            aux_buf.push(buf[r_i]);
            proof {
                assert(s0.subrange(mid as int, r_i + 1) =~= s0.subrange(mid as int, r_i as int).push(
                    s0[r_i as int],
                ));
                assert(aux_buf@.to_multiset() =~= s0.subrange(lo as int, mid as int).to_multiset().add(
                    s0.subrange(mid as int, r_i + 1).to_multiset(),
                ));
            }
            r_i = r_i + 1;
        }
        let merged = aux_buf.len();
        let mut aux_i: usize = 0;
        while aux_i < merged
            invariant
                merged == aux_buf@.len(),
                merged == hi - lo,
                aux_i <= merged,
                buf@.len() == s0.len(),
                forall|k: int| 0 <= k < aux_i ==> buf@[lo + k] == aux_buf@[k],
                forall|k: int| 0 <= k < s0.len() && !(lo <= k < lo + aux_i) ==> buf@[k] == s0[k],
            decreases merged - aux_i,
        {
            buf.set(lo + aux_i, aux_buf[aux_i]);
            aux_i = aux_i + 1;
        }
        proof {
            assert(buf@.subrange(lo as int, hi as int) =~= aux_buf@);
            assert(s0.subrange(lo as int, mid as int).to_multiset().add(
                s0.subrange(mid as int, hi as int).to_multiset(),
            ) =~= s0.subrange(lo as int, hi as int).to_multiset()) by {
                assert(s0.subrange(lo as int, hi as int) =~= s0.subrange(lo as int, mid as int)
                    + s0.subrange(mid as int, hi as int));
                vstd::seq_lib::lemma_multiset_commutative(
                    s0.subrange(lo as int, mid as int),
                    s0.subrange(mid as int, hi as int),
                );
            }
            assert forall|a: int, b: int| lo <= a <= b < hi implies buf@[a] <= buf@[b] by {
                assert(buf@[a] == aux_buf@[a - lo]);
                assert(buf@[b] == aux_buf@[b - lo]);
            }
        }
    }

    /// Merge the sorted runs `buf[lo..mid)` and `buf[mid..hi)` in place.
    pub fn merge(buf: &mut Vec<u32>, lo: usize, mid: usize, hi: usize)
        requires
            lo <= mid <= hi <= old(buf).len(),
            sorted_range(old(buf)@, lo as int, mid as int),
            sorted_range(old(buf)@, mid as int, hi as int),
        ensures
            final(buf)@.len() == old(buf)@.len(),
            sorted_range(final(buf)@, lo as int, hi as int),
            final(buf)@.subrange(lo as int, hi as int).to_multiset() == old(buf)@.subrange(
                lo as int,
                hi as int,
            ).to_multiset(),
            forall|k: int|
                0 <= k < old(buf)@.len() && !(lo <= k < hi) ==> final(buf)@[k] == old(buf)@[k],
    {
        let mut aux_buf: Vec<u32> = Vec::new();
        Self::merge_prealloc(buf, lo, mid, hi, &mut aux_buf);
    }

    /// Merge the sorted runs `buf[lo..mid)` and `buf[mid..hi)` in place,
    /// adding one to the counter for every key comparison made.
    #[verifier::loop_isolation(false)]
    pub fn merge_key_cmp(buf: &mut Vec<u32>, lo: usize, mid: usize, hi: usize, key_cmp: &mut u64)
        requires
            lo <= mid <= hi <= old(buf).len(),
            sorted_range(old(buf)@, lo as int, mid as int),
            sorted_range(old(buf)@, mid as int, hi as int),
            *old(key_cmp) + (hi - lo) <= u64::MAX,
        ensures
            final(buf)@.len() == old(buf)@.len(),
            sorted_range(final(buf)@, lo as int, hi as int),
            final(buf)@.subrange(lo as int, hi as int).to_multiset() == old(buf)@.subrange(
                lo as int,
                hi as int,
            ).to_multiset(),
            forall|k: int|
                0 <= k < old(buf)@.len() && !(lo <= k < hi) ==> final(buf)@[k] == old(buf)@[k],
            *final(key_cmp) == *old(key_cmp) + merge_count(
                old(buf)@.subrange(lo as int, mid as int),
                old(buf)@.subrange(mid as int, hi as int),
            ),
    {
        let ghost s0 = buf@;
        let ghost total = merge_count(
            s0.subrange(lo as int, mid as int),
            s0.subrange(mid as int, hi as int),
        );
        proof {
            lemma_merge_count_bound(
                s0.subrange(lo as int, mid as int),
                s0.subrange(mid as int, hi as int),
            );
        }
        let mut aux_buf: Vec<u32> = Vec::new();
        let mut l_i = lo;
        let mut r_i = mid;
        while l_i < mid && r_i < hi
            invariant
                lo <= l_i <= mid,
                mid <= r_i <= hi,
                buf@ == s0,
                aux_buf@.len() == (l_i - lo) + (r_i - mid),
                sorted(aux_buf@),
                aux_buf@.to_multiset() == s0.subrange(lo as int, l_i as int).to_multiset().add(
                    s0.subrange(mid as int, r_i as int).to_multiset(),
                ),
                forall|k: int|
                    0 <= k < aux_buf@.len() && l_i < mid ==> #[trigger] aux_buf@[k] <= s0[l_i as int],
                forall|k: int|
                    0 <= k < aux_buf@.len() && r_i < hi ==> #[trigger] aux_buf@[k] <= s0[r_i as int],
                *key_cmp + merge_count(
                    s0.subrange(l_i as int, mid as int),
                    s0.subrange(r_i as int, hi as int),
                ) == *old(key_cmp) + total,
                *key_cmp - *old(key_cmp) == (l_i - lo) + (r_i - mid),
            decreases (mid - l_i) + (hi - r_i),
        {
            let ghost a0 = aux_buf@;
            let ghost lrun = s0.subrange(l_i as int, mid as int);
            let ghost rrun = s0.subrange(r_i as int, hi as int);
            proof {
                assert(lrun[0] == s0[l_i as int]);
                assert(rrun[0] == s0[r_i as int]);
            }
            *key_cmp = *key_cmp + 1;
            if buf[l_i] < buf[r_i] {
                aux_buf.push(buf[l_i]);
                proof {
                    assert(lrun.drop_first() =~= s0.subrange(l_i + 1, mid as int));
                    assert(s0.subrange(lo as int, l_i + 1) =~= s0.subrange(
                        lo as int,
                        l_i as int,
                    ).push(s0[l_i as int]));
                    assert(aux_buf@.to_multiset() =~= s0.subrange(
                        lo as int,
                        l_i + 1,
                    ).to_multiset().add(s0.subrange(mid as int, r_i as int).to_multiset()));
                }
                l_i = l_i + 1;
            } else {
                aux_buf.push(buf[r_i]);
                proof {
                    assert(rrun.drop_first() =~= s0.subrange(r_i + 1, hi as int));
                    assert(s0.subrange(mid as int, r_i + 1) =~= s0.subrange(
                        mid as int,
                        r_i as int,
                    ).push(s0[r_i as int]));
                    assert(aux_buf@.to_multiset() =~= s0.subrange(
                        lo as int,
                        l_i as int,
                    ).to_multiset().add(s0.subrange(mid as int, r_i + 1).to_multiset()));
                }
                r_i = r_i + 1;
            }
        }
        proof {
            assert(merge_count(
                s0.subrange(l_i as int, mid as int),
                s0.subrange(r_i as int, hi as int),
            ) == 0);
            assert(*key_cmp == *old(key_cmp) + total);
        }
        while l_i < mid
            invariant
                lo <= l_i <= mid,
                mid <= r_i <= hi,
                l_i < mid ==> r_i == hi,
                buf@ == s0,
                *key_cmp == *old(key_cmp) + total,
                aux_buf@.len() == (l_i - lo) + (r_i - mid),
                sorted(aux_buf@),
                aux_buf@.to_multiset() == s0.subrange(lo as int, l_i as int).to_multiset().add(
                    s0.subrange(mid as int, r_i as int).to_multiset(),
                ),
                forall|k: int|
                    0 <= k < aux_buf@.len() && l_i < mid ==> #[trigger] aux_buf@[k] <= s0[l_i as int],
                forall|k: int|
                    0 <= k < aux_buf@.len() && r_i < hi ==> #[trigger] aux_buf@[k] <= s0[r_i as int],
            decreases mid - l_i,
        {
            aux_buf.push(buf[l_i]);
            proof {
                assert(s0.subrange(lo as int, l_i + 1) =~= s0.subrange(lo as int, l_i as int).push(
                    s0[l_i as int],
                ));
                assert(aux_buf@.to_multiset() =~= s0.subrange(lo as int, l_i + 1).to_multiset().add(
                    s0.subrange(mid as int, r_i as int).to_multiset(),
                ));
            }
            l_i = l_i + 1;
        }
        while r_i < hi
            invariant
                l_i == mid,
                mid <= r_i <= hi,
                buf@ == s0,
                *key_cmp == *old(key_cmp) + total,
                aux_buf@.len() == (mid - lo) + (r_i - mid),
                sorted(aux_buf@),
                aux_buf@.to_multiset() == s0.subrange(lo as int, mid as int).to_multiset().add(
                    s0.subrange(mid as int, r_i as int).to_multiset(),
                ),
                forall|k: int|
                    0 <= k < aux_buf@.len() && r_i < hi ==> #[trigger] aux_buf@[k] <= s0[r_i as int],
            decreases hi - r_i,
        {
            aux_buf.push(buf[r_i]);
            proof {
                assert(s0.subrange(mid as int, r_i + 1) =~= s0.subrange(mid as int, r_i as int).push(
                    s0[r_i as int],
                ));
                assert(aux_buf@.to_multiset() =~= s0.subrange(lo as int, mid as int).to_multiset().add(
                    s0.subrange(mid as int, r_i + 1).to_multiset(),
                ));
            }
            r_i = r_i + 1;
        }
        let merged = aux_buf.len();
        let mut aux_i: usize = 0;
        while aux_i < merged
            invariant
                merged == aux_buf@.len(),
                merged == hi - lo,
                aux_i <= merged,
                buf@.len() == s0.len(),
                *key_cmp == *old(key_cmp) + total,
                forall|k: int| 0 <= k < aux_i ==> buf@[lo + k] == aux_buf@[k],
                forall|k: int| 0 <= k < s0.len() && !(lo <= k < lo + aux_i) ==> buf@[k] == s0[k],
            decreases merged - aux_i,
        {
            buf.set(lo + aux_i, aux_buf[aux_i]);
            aux_i = aux_i + 1;
        }
        proof {
            assert(buf@.subrange(lo as int, hi as int) =~= aux_buf@);
            assert(s0.subrange(lo as int, mid as int).to_multiset().add(
                s0.subrange(mid as int, hi as int).to_multiset(),
            ) =~= s0.subrange(lo as int, hi as int).to_multiset()) by {
                assert(s0.subrange(lo as int, hi as int) =~= s0.subrange(lo as int, mid as int)
                    + s0.subrange(mid as int, hi as int));
                vstd::seq_lib::lemma_multiset_commutative(
                    s0.subrange(lo as int, mid as int),
                    s0.subrange(mid as int, hi as int),
                );
            }
            assert forall|a: int, b: int| lo <= a <= b < hi implies buf@[a] <= buf@[b] by {
                assert(buf@[a] == aux_buf@[a - lo]);
                assert(buf@[b] == aux_buf@[b - lo]);
            }
        }
    }

    /// Sort `buf[lo..hi)` in place by recursive halving, leaving the rest
    /// alone.
    pub fn sort_range(buf: &mut Vec<u32>, lo: usize, hi: usize)
        requires
            lo <= hi <= old(buf).len(),
        ensures
            final(buf)@.len() == old(buf)@.len(),
            sorted_range(final(buf)@, lo as int, hi as int),
            final(buf)@.subrange(lo as int, hi as int).to_multiset() == old(buf)@.subrange(
                lo as int,
                hi as int,
            ).to_multiset(),
            forall|k: int|
                0 <= k < old(buf)@.len() && !(lo <= k < hi) ==> final(buf)@[k] == old(buf)@[k],
        decreases hi - lo,
    {
        if hi - lo <= 1 {
            return;
        }
        let mid = lo + (hi - lo) / 2;
        let ghost s0 = buf@;
        Self::sort_range(buf, lo, mid);
        let ghost s1 = buf@;
        Self::sort_range(buf, mid, hi);
        let ghost s2 = buf@;
        proof {
            assert(s2.subrange(lo as int, mid as int) =~= s1.subrange(lo as int, mid as int));
            assert(s1.subrange(mid as int, hi as int) =~= s0.subrange(mid as int, hi as int));
        }
        Self::merge(buf, lo, mid, hi);
        proof {
            assert(s2.subrange(lo as int, hi as int) =~= s2.subrange(lo as int, mid as int)
                + s2.subrange(mid as int, hi as int));
            vstd::seq_lib::lemma_multiset_commutative(
                s2.subrange(lo as int, mid as int),
                s2.subrange(mid as int, hi as int),
            );
            assert(s2.subrange(lo as int, mid as int).to_multiset() == s0.subrange(
                lo as int,
                mid as int,
            ).to_multiset());
            assert(s2.subrange(mid as int, hi as int).to_multiset() == s0.subrange(
                mid as int,
                hi as int,
            ).to_multiset());
            lemma_split_multiset(s0, buf@, lo as int, mid as int, hi as int);
        }
    }

    /// Sort the whole buffer in place.
    pub fn sort(buf: &mut Vec<u32>)
        ensures
            final(buf)@.len() == old(buf)@.len(),
            sorted(final(buf)@),
            final(buf)@.to_multiset() == old(buf)@.to_multiset(),
    {
        let n = buf.len();
        let ghost s0 = buf@;
        Self::sort_range(buf, 0, n);
        proof {
            assert(buf@.subrange(0, n as int) =~= buf@);
            assert(s0.subrange(0, n as int) =~= s0);
        }
    }
}

/// Multiset bookkeeping for the two halves of a merge-sorted range.
proof fn lemma_split_multiset(s0: Seq<u32>, s3: Seq<u32>, lo: int, mid: int, hi: int)
    requires
        0 <= lo <= mid <= hi <= s0.len(),
        s0.len() == s3.len(),
        s3.subrange(lo, hi).to_multiset() == s0.subrange(lo, mid).to_multiset().add(
            s0.subrange(mid, hi).to_multiset(),
        ),
    ensures
        s3.subrange(lo, hi).to_multiset() == s0.subrange(lo, hi).to_multiset(),
{
    assert(s0.subrange(lo, hi) =~= s0.subrange(lo, mid) + s0.subrange(mid, hi));
    vstd::seq_lib::lemma_multiset_commutative(s0.subrange(lo, mid), s0.subrange(mid, hi));
}

} // verus!
