//! The hybrid sort: merge sort that switches to insertion sort once a
//! range is no longer than the threshold `s`, plus the instrumented
//! variant that counts key comparisons.

use vstd::prelude::*;
use vstd::relations::{sorted_by, total_ordering};
use vstd::seq_lib::lemma_sorted_unique;
use crate::insertion_sort::{InsertionSort, insertion_run, lemma_insertion_run_facts};
use crate::merge_sort::{MergeSort, lemma_merge_count_bound, merge_count};
use crate::test_utils::{sorted, sorted_range};

verus! {

broadcast use vstd::seq_lib::group_to_multiset_ensures;

/// # Type parameter
///
/// * `s` - Threshold at or under which a range is insertion-sorted
pub struct InsertionMergeSort;

/// A sequence with `[lo, hi)` replaced by `part`.
pub open spec fn splice(s: Seq<u32>, lo: int, hi: int, part: Seq<u32>) -> Seq<u32> {
    s.take(lo) + part + s.skip(hi)
}

/// The ascending order the sorts agree on.
pub open spec fn u32_le(a: u32, b: u32) -> bool {
    a <= b
}

/// The hybrid run over `[lo, hi)`: the resulting contents and the number
/// of key comparisons — insertion comparisons in ranges at or under the
/// threshold, merge comparisons above it.
pub open spec fn hybrid_run(s: Seq<u32>, lo: int, hi: int, t: int) -> (Seq<u32>, nat)
    decreases hi - lo,
{
    if hi - lo <= t || hi - lo <= 1 {
        let p = insertion_run(s.subrange(lo, hi), hi - lo);
        (splice(s, lo, hi, p.0), p.1)
    } else {
        let mid = lo + (hi - lo) / 2;
        let a = hybrid_run(s, lo, mid, t);
        let b = hybrid_run(a.0, mid, hi, t);
        let left = b.0.subrange(lo, mid);
        let right = b.0.subrange(mid, hi);
        let merged = (left + right).sort_by(|x: u32, y: u32| u32_le(x, y));
        (splice(b.0, lo, hi, merged), (a.1 + b.1 + merge_count(left, right)) as nat)
    }
}

impl InsertionMergeSort {
    /// Sort `buf[lo..hi)` in place, insertion-sorting once the range is at
    /// or under the threshold `s`, leaving the rest alone.
    pub fn sort_range(buf: &mut Vec<u32>, lo: usize, hi: usize, s: usize)
        requires
            lo <= hi <= old(buf).len(),
        ensures
            final(buf)@.len() == old(buf)@.len(),
            sorted_range(final(buf)@, lo as int, hi as int),
            final(buf)@.subrange(lo as int, hi as int).to_multiset() == old(buf)@.subrange(
                lo as int,
                hi as int,
            ).to_multiset(),
            forall|k: int|
                0 <= k < old(buf)@.len() && !(lo <= k < hi) ==> final(buf)@[k] == old(buf)@[k],
        decreases hi - lo,
    {
        let sz = hi - lo;
        if sz <= s || sz <= 1 {
            InsertionSort::sort_range(buf, lo, hi);
            return;
        }
        let mid = lo + (hi - lo) / 2;
        let ghost s0 = buf@;
        Self::sort_range(buf, lo, mid, s);
        let ghost s1 = buf@;
        Self::sort_range(buf, mid, hi, s);
        let ghost s2 = buf@;
        proof {
            assert(s2.subrange(lo as int, mid as int) =~= s1.subrange(lo as int, mid as int));
            assert(s1.subrange(mid as int, hi as int) =~= s0.subrange(mid as int, hi as int));
        }
        MergeSort::merge(buf, lo, mid, hi);
        proof {
            assert(s2.subrange(lo as int, hi as int) =~= s2.subrange(lo as int, mid as int)
                + s2.subrange(mid as int, hi as int));
            vstd::seq_lib::lemma_multiset_commutative(
                s2.subrange(lo as int, mid as int),
                s2.subrange(mid as int, hi as int),
            );
            assert(s0.subrange(lo as int, hi as int) =~= s0.subrange(lo as int, mid as int)
                + s0.subrange(mid as int, hi as int));
            vstd::seq_lib::lemma_multiset_commutative(
                s0.subrange(lo as int, mid as int),
                s0.subrange(mid as int, hi as int),
            );
        }
    }

    /// Sort the whole buffer in place, insertion-sorting ranges at or
    /// under the threshold `s`.
    pub fn sort(buf: &mut Vec<u32>, s: usize)
        ensures
            final(buf)@.len() == old(buf)@.len(),
            sorted(final(buf)@),
            final(buf)@.to_multiset() == old(buf)@.to_multiset(),
    {
        let n = buf.len();
        let ghost s0 = buf@;
        Self::sort_range(buf, 0, n, s);
        proof {
            assert(buf@.subrange(0, n as int) =~= buf@);
            assert(s0.subrange(0, n as int) =~= s0);
        }
    }

    /// Sort `buf[lo..hi)` in place as `sort_range` does, adding one to the
    /// counter for every key comparison made; the run and the count are
    /// pinned by `hybrid_run`.
    pub fn sort_key_cmp_range(buf: &mut Vec<u32>, lo: usize, hi: usize, s: usize, key_cmp: &mut u64)
        requires
            lo <= hi <= old(buf).len(),
            *old(key_cmp) + (hi - lo) * (hi - lo) <= u64::MAX,
        ensures
            final(buf)@ == hybrid_run(old(buf)@, lo as int, hi as int, s as int).0,
            *final(key_cmp) == *old(key_cmp) + hybrid_run(
                old(buf)@,
                lo as int,
                hi as int,
                s as int,
            ).1,
            final(buf)@.len() == old(buf)@.len(),
            sorted_range(final(buf)@, lo as int, hi as int),
            final(buf)@.subrange(lo as int, hi as int).to_multiset() == old(buf)@.subrange(
                lo as int,
                hi as int,
            ).to_multiset(),
            forall|k: int|
                0 <= k < old(buf)@.len() && !(lo <= k < hi) ==> final(buf)@[k] == old(buf)@[k],
        decreases hi - lo,
    {
        let ghost s0 = buf@;
        let ghost t = s as int;
        let sz = hi - lo;
        if sz <= s || sz <= 1 {
            let mut tmp: Vec<u32> = Vec::new();
            let mut k = lo;
            while k < hi
                invariant
                    lo <= k <= hi <= buf@.len(),
                    buf@ == s0,
                    tmp@ =~= s0.subrange(lo as int, k as int),
                decreases hi - k,
            {
                tmp.push(buf[k]);
                proof {
                    assert(tmp@ =~= s0.subrange(lo as int, k + 1));
                }
                k = k + 1;
            }
            proof {
                assert(tmp@ =~= s0.subrange(lo as int, hi as int));
                assert((hi - lo) * (hi - lo) == tmp@.len() * tmp@.len());
            }
            InsertionSort::sort_key_cmp(&mut tmp, key_cmp);
            let mut w: usize = 0;
            let ghost srt = tmp@;
            while w < sz
                invariant
                    w <= sz,
                    sz == hi - lo,
                    lo <= hi <= buf@.len(),
                    buf@.len() == s0.len(),
                    srt == tmp@,
                    srt.len() == sz,
                    forall|k2: int| 0 <= k2 < w ==> buf@[lo + k2] == srt[k2],
                    forall|k2: int|
                        0 <= k2 < s0.len() && !(lo <= k2 < lo + w) ==> buf@[k2] == s0[k2],
                decreases sz - w,
            {
                buf.set(lo + w, tmp[w]);
                w = w + 1;
            }
            proof {
                assert(buf@ =~= splice(s0, lo as int, hi as int, srt));
                assert(buf@.subrange(lo as int, hi as int) =~= srt);
                assert forall|a: int, b: int| lo <= a <= b < hi implies buf@[a] <= buf@[b] by {
                    assert(buf@[a] == srt[a - lo]);
                    assert(buf@[b] == srt[b - lo]);
                }
            }
            return;
        }
        let mid = lo + (hi - lo) / 2;
        proof {
            lemma_square_mono(mid - lo, hi - lo);
            lemma_square_mono(hi - mid, hi - lo);
        }
        Self::sort_key_cmp_range(buf, lo, mid, s, key_cmp);
        let ghost s1 = buf@;
        proof {
            lemma_hybrid_count_bound(s0, lo as int, mid as int, t);
            lemma_square_sum(mid - lo, hi - mid, hi - lo);
        }
        Self::sort_key_cmp_range(buf, mid, hi, s, key_cmp);
        let ghost s2 = buf@;
        proof {
            assert(s2 == hybrid_run(s1, mid as int, hi as int, t).0);
            assert(s2.subrange(lo as int, mid as int) =~= s1.subrange(lo as int, mid as int));
            assert(s1.subrange(mid as int, hi as int) =~= s0.subrange(mid as int, hi as int));
            lemma_hybrid_count_bound(s1, mid as int, hi as int, t);
            assert(*key_cmp + (hi - lo) <= u64::MAX) by {
                lemma_merge_budget(mid - lo, hi - mid, hi - lo);
            }
        }
        MergeSort::merge_key_cmp(buf, lo, mid, hi, key_cmp);
        proof {
            let leq = |x: u32, y: u32| u32_le(x, y);
            let left = s2.subrange(lo as int, mid as int);
            let right = s2.subrange(mid as int, hi as int);
            let merged = (left + right).sort_by(leq);
            (left + right).lemma_sort_by_ensures(leq);
            assert(sorted_by(buf@.subrange(lo as int, hi as int), leq)) by {
                assert(sorted_range(buf@, lo as int, hi as int));
                assert forall|a: int, b: int|
                    0 <= a < b < buf@.subrange(lo as int, hi as int).len() implies leq(
                    buf@.subrange(lo as int, hi as int)[a],
                    buf@.subrange(lo as int, hi as int)[b],
                ) by {
                    assert(buf@[lo + a] <= buf@[lo + b]);
                }
            }
            assert(buf@.subrange(lo as int, hi as int).to_multiset() == (left
                + right).to_multiset()) by {
                vstd::seq_lib::lemma_multiset_commutative(left, right);
                assert(s2.subrange(lo as int, hi as int) =~= left + right);
            }
            lemma_sorted_unique(buf@.subrange(lo as int, hi as int), merged, leq);
            assert(buf@ =~= splice(s2, lo as int, hi as int, merged));
            assert(buf@ == hybrid_run(s0, lo as int, hi as int, t).0);
            assert(s0.subrange(lo as int, hi as int) =~= s0.subrange(lo as int, mid as int)
                + s0.subrange(mid as int, hi as int));
            vstd::seq_lib::lemma_multiset_commutative(
                s0.subrange(lo as int, mid as int),
                s0.subrange(mid as int, hi as int),
            );
            vstd::seq_lib::lemma_multiset_commutative(left, right);
        }
    }

    /// Sort the whole buffer in place, counting key comparisons.
    pub fn sort_key_cmp(buf: &mut Vec<u32>, s: usize, key_cmp: &mut u64)
        requires
            *old(key_cmp) + old(buf)@.len() * old(buf)@.len() <= u64::MAX,
        ensures
            final(buf)@ == hybrid_run(old(buf)@, 0, old(buf)@.len() as int, s as int).0,
            *final(key_cmp) == *old(key_cmp) + hybrid_run(
                old(buf)@,
                0,
                old(buf)@.len() as int,
                s as int,
            ).1,
            final(buf)@.len() == old(buf)@.len(),
            sorted(final(buf)@),
            final(buf)@.to_multiset() == old(buf)@.to_multiset(),
    {
        let n = buf.len();
        let ghost s0 = buf@;
        Self::sort_key_cmp_range(buf, 0, n, s, key_cmp);
        proof {
            assert(buf@.subrange(0, n as int) =~= buf@);
            assert(s0.subrange(0, n as int) =~= s0);
        }
    }
}

/// Squares grow with their argument.
proof fn lemma_square_mono(a: int, b: int)
    requires
        0 <= a <= b,
    ensures
        a * a <= b * b,
{
    assert(a * a <= b * b) by (nonlinear_arith)
        requires
            0 <= a <= b,
    ;
}

/// Two half squares fit in the whole square.
proof fn lemma_square_sum(a: int, b: int, c: int)
    requires
        0 <= a,
        0 <= b,
        a + b == c,
    ensures
        a * a + b * b <= c * c,
{
    assert(a * a + b * b <= c * c) by (nonlinear_arith)
        requires
            0 <= a,
            0 <= b,
            a + b == c,
    ;
}

/// Two half squares plus the whole still fit in the whole square when the
/// range splits properly.
proof fn lemma_merge_budget(a: int, b: int, c: int)
    requires
        1 <= a,
        1 <= b,
        a + b == c,
    ensures
        a * a + b * b + c <= c * c,
{
    assert(a * a + b * b + c <= c * c) by (nonlinear_arith)
        requires
            1 <= a,
            1 <= b,
            a + b == c,
    ;
}

/// The hybrid run's comparison count is at most the square of the range
/// length, and the run touches only `[lo, hi)`, keeping its multiset.
proof fn lemma_hybrid_count_bound(s: Seq<u32>, lo: int, hi: int, t: int)
    requires
        0 <= lo <= hi <= s.len(),
    ensures
        hybrid_run(s, lo, hi, t).1 <= (hi - lo) * (hi - lo),
        hybrid_run(s, lo, hi, t).0.len() == s.len(),
        hybrid_run(s, lo, hi, t).0.subrange(lo, hi).to_multiset() == s.subrange(
            lo,
            hi,
        ).to_multiset(),
        forall|k: int| 0 <= k < s.len() && !(lo <= k < hi) ==> hybrid_run(s, lo, hi, t).0[k] == s[k],
    decreases hi - lo,
{
    lemma_insertion_run_facts(s.subrange(lo, hi), hi - lo);
    if hi - lo <= t || hi - lo <= 1 {
        let p = insertion_run(s.subrange(lo, hi), hi - lo);
        assert(hybrid_run(s, lo, hi, t).0.subrange(lo, hi) =~= p.0);
        assert((hi - lo) * (hi - lo) >= p.1) by (nonlinear_arith)
            requires
                p.1 <= (hi - lo) * s.subrange(lo, hi).len(),
                s.subrange(lo, hi).len() == hi - lo,
                hi - lo >= 0,
        ;
    } else {
        let mid = lo + (hi - lo) / 2;
        lemma_hybrid_count_bound(s, lo, mid, t);
        let a = hybrid_run(s, lo, mid, t);
        lemma_hybrid_count_bound(a.0, mid, hi, t);
        let b = hybrid_run(a.0, mid, hi, t);
        let left = b.0.subrange(lo, mid);
        let right = b.0.subrange(mid, hi);
        let leq = |x: u32, y: u32| u32_le(x, y);
        let merged = (left + right).sort_by(leq);
        lemma_merge_count_bound(left, right);
        lemma_merge_budget(mid - lo, hi - mid, hi - lo);
        (left + right).lemma_sort_by_ensures(leq);
        let r = hybrid_run(s, lo, hi, t);
        assert(merged.len() == hi - lo) by {
            assert((left + right).to_multiset().len() == merged.to_multiset().len());
        }
        assert(r.0 =~= splice(b.0, lo, hi, merged));
        assert(r.0.subrange(lo, hi) =~= merged);
        assert(r.0.subrange(lo, hi).to_multiset() == s.subrange(lo, hi).to_multiset()) by {
            vstd::seq_lib::lemma_multiset_commutative(left, right);
            assert(b.0.subrange(lo, hi) =~= left + right);
            assert(left =~= a.0.subrange(lo, mid));
            assert(a.0.subrange(mid, hi) =~= s.subrange(mid, hi));
            assert(b.0.subrange(lo, hi).to_multiset() == s.subrange(lo, hi).to_multiset()) by {
                vstd::seq_lib::lemma_multiset_commutative(
                    a.0.subrange(lo, mid),
                    a.0.subrange(mid, hi),
                );
                assert(a.0.subrange(lo, hi) =~= a.0.subrange(lo, mid) + a.0.subrange(mid, hi));
                assert(s.subrange(lo, hi) =~= s.subrange(lo, mid) + s.subrange(mid, hi));
                vstd::seq_lib::lemma_multiset_commutative(
                    s.subrange(lo, mid),
                    s.subrange(mid, hi),
                );
                assert(b.0.subrange(lo, mid).to_multiset() == a.0.subrange(lo, mid).to_multiset());
                assert(b.0.subrange(mid, hi).to_multiset() == a.0.subrange(mid, hi).to_multiset());
                assert(a.0.subrange(lo, mid).to_multiset() == s.subrange(lo, mid).to_multiset());
            }
        }
    }
}

} // verus!
