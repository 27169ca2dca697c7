//! Insertion sort, plus the instrumented variant that counts key
//! comparisons.
//!
//! # Time Complexity
//! - Best Case: O(n)
//! - Worst Case: O(n^2)
//!
//! # Space Complexity
//! - O(1) since no auxiliary data structures are used

use vstd::prelude::*;
use crate::test_utils::{sorted, sorted_range};

verus! {

broadcast use vstd::seq_lib::group_to_multiset_ensures;

pub struct InsertionSort;

/// One bubbling pass from position `j` down: swap while the moved entry
/// beats its predecessor, counting one comparison per step taken or
/// refused.  Returns the rearranged sequence and the comparison count.
pub open spec fn shift_pass(s: Seq<u32>, j: int) -> (Seq<u32>, nat)
    decreases j,
{
    if j <= 0 || j >= s.len() {
        (s, 0)
    } else if s[j] < s[j - 1] {
        let s2 = s.update(j, s[j - 1]).update(j - 1, s[j]);
        let r = shift_pass(s2, j - 1);
        (r.0, (r.1 + 1) as nat)
    } else {
        (s, 1)
    }
}

/// The state after inserting elements `1..i` in turn, with the total
/// comparison count.
pub open spec fn insertion_run(s: Seq<u32>, i: int) -> (Seq<u32>, nat)
    decreases i,
{
    if i <= 1 {
        (s, 0)
    } else {
        let p = insertion_run(s, i - 1);
        let q = shift_pass(p.0, i - 1);
        (q.0, (p.1 + q.1) as nat)
    }
}

/// A pass makes at most `j` comparisons and keeps length and multiset.
proof fn lemma_shift_pass_facts(s: Seq<u32>, j: int)
    ensures
        shift_pass(s, j).1 <= if j >= 0 {
            j
        } else {
            0
        },
        shift_pass(s, j).0.len() == s.len(),
        shift_pass(s, j).0.to_multiset() == s.to_multiset(),
    decreases j,
{
    if 0 < j < s.len() && s[j] < s[j - 1] {
        let s2 = s.update(j, s[j - 1]).update(j - 1, s[j]);
        assert(s2.to_multiset() == s.to_multiset()) by {
            let t = s.update(j, s[j - 1]);
            assert(t.to_multiset() == s.to_multiset().insert(s[j - 1]).remove(s[j]));
            assert(t.to_multiset().insert(s[j]).remove(t[j - 1]) =~= s.to_multiset());
        }
        lemma_shift_pass_facts(s2, j - 1);
    }
}

/// A run makes at most `i * len` comparisons and keeps length and
/// multiset.
pub proof fn lemma_insertion_run_facts(s: Seq<u32>, i: int)
    ensures
        insertion_run(s, i).1 <= if i >= 0 {
            i * s.len()
        } else {
            0
        },
        insertion_run(s, i).0.len() == s.len(),
        insertion_run(s, i).0.to_multiset() == s.to_multiset(),
    decreases i,
{
    if i > 1 {
        lemma_insertion_run_facts(s, i - 1);
        let p = insertion_run(s, i - 1);
        lemma_shift_pass_facts(p.0, i - 1);
        assert((i - 1) * s.len() + s.len() == i * s.len()) by (nonlinear_arith);
        assert(i - 1 <= s.len() ==> insertion_run(s, i).1 <= i * s.len()) by (nonlinear_arith)
            requires
                insertion_run(s, i).1 <= (i - 1) * s.len() + (i - 1),
                s.len() >= 0,
        ;
        if i - 1 > s.len() {
            assert(shift_pass(p.0, i - 1).1 == 0) by {
                assert(i - 1 >= p.0.len());
            }
            assert(insertion_run(s, i).1 <= (i - 1) * s.len());
            assert((i - 1) * s.len() <= i * s.len()) by (nonlinear_arith)
                requires
                    s.len() >= 0,
                    i >= 1,
            ;
        }
    } else {
        if i >= 0 {
            assert(i * s.len() >= 0) by (nonlinear_arith)
                requires
                    i >= 0,
                    s.len() >= 0,
            ;
        }
    }
}

impl InsertionSort {
    /// Sort `buf[lo..hi)` in place, leaving the rest alone.
    pub fn sort_range(buf: &mut Vec<u32>, lo: usize, hi: usize)
        requires
            lo <= hi <= old(buf).len(),
        ensures
            final(buf)@.len() == old(buf)@.len(),
            sorted_range(final(buf)@, lo as int, hi as int),
            final(buf)@.subrange(lo as int, hi as int).to_multiset() == old(buf)@.subrange(
                lo as int,
                hi as int,
            ).to_multiset(),
            forall|k: int|
                0 <= k < old(buf)@.len() && !(lo <= k < hi) ==> final(buf)@[k] == old(buf)@[k],
    {
        if hi - lo < 2 {
            return;
        }
        let ghost s0 = buf@;
        let mut i = lo + 1;
        while i < hi
            invariant
                lo <= i <= hi <= buf@.len(),
                buf@.len() == s0.len(),
                hi - lo >= 2,
                sorted_range(buf@, lo as int, i as int),
                buf@.subrange(lo as int, hi as int).to_multiset() == s0.subrange(
                    lo as int,
                    hi as int,
                ).to_multiset(),
                forall|k: int| 0 <= k < s0.len() && !(lo <= k < hi) ==> buf@[k] == s0[k],
            decreases hi - i,
        {
            let mut j = i;
            loop
                invariant_except_break
                    lo <= j <= i < hi <= buf@.len(),
                    buf@.len() == s0.len(),
                    forall|a: int, b: int|
                        lo <= a <= b <= i && a != j && b != j ==> buf@[a] <= buf@[b],
                    forall|b: int| j < b <= i ==> buf@[j as int] <= #[trigger] buf@[b],
                    buf@.subrange(lo as int, hi as int).to_multiset() == s0.subrange(
                        lo as int,
                        hi as int,
                    ).to_multiset(),
                    forall|k: int| 0 <= k < s0.len() && !(lo <= k < hi) ==> buf@[k] == s0[k],
                ensures
                    lo <= j <= i < hi <= buf@.len(),
                    buf@.len() == s0.len(),
                    sorted_range(buf@, lo as int, i + 1),
                    buf@.subrange(lo as int, hi as int).to_multiset() == s0.subrange(
                        lo as int,
                        hi as int,
                    ).to_multiset(),
                    forall|k: int| 0 <= k < s0.len() && !(lo <= k < hi) ==> buf@[k] == s0[k],
                decreases j,
            {
                if j == lo {
                    proof {
                        assert forall|a: int, b: int| lo <= a <= b <= i implies buf@[a]
                            <= buf@[b] by {
                            if a == j && b != j {
                                assert(buf@[j as int] <= buf@[b]);
                            }
                        }
                    }
                    break;
                }
                if buf[j] >= buf[j - 1] {
                    proof {
                        assert forall|a: int, b: int| lo <= a <= b <= i implies buf@[a]
                            <= buf@[b] by {
                            if a == j && b != j {
                                assert(buf@[j - 1] <= buf@[b]);
                            } else if b == j && a != j {
                                assert(buf@[a] <= buf@[j - 1]);
                            }
                        }
                    }
                    break;
                }
                let ghost s = buf@;
                let x = buf[j - 1];
                let y = buf[j];
                buf.set(j - 1, y);
                buf.set(j, x);
                proof {
                    lemma_swap_submultiset(s, lo as int, hi as int, j - 1, j as int);
                    assert forall|a: int, b: int|
                        lo <= a <= b <= i && a != j - 1 && b != j - 1 implies buf@[a]
                        <= buf@[b] by {
                        if a == j && b != j {
                            assert(s[j - 1] <= s[b]);
                        } else if b == j && a != j {
                            assert(s[a] <= s[j - 1]);
                        }
                    }
                    assert forall|b: int| j - 1 < b <= i implies buf@[j - 1] <= #[trigger] buf@[b] by {
                        if b != j {
                            assert(s[j as int] <= s[b]);
                        }
                    }
                }
                j = j - 1;
            }
            i = i + 1;
        }
    }

    /// Sort the whole buffer in place.
    pub fn sort(buf: &mut Vec<u32>)
        ensures
            final(buf)@.len() == old(buf)@.len(),
            sorted(final(buf)@),
            final(buf)@.to_multiset() == old(buf)@.to_multiset(),
    {
        let n = buf.len();
        let ghost s0 = buf@;
        Self::sort_range(buf, 0, n);
        proof {
            assert(buf@.subrange(0, n as int) =~= buf@);
            assert(s0.subrange(0, n as int) =~= s0);
        }
    }

    /// Sort the whole buffer in place, adding one to the counter for every
    /// key comparison the bubbling passes make.
    pub fn sort_key_cmp(buf: &mut Vec<u32>, key_cmp: &mut u64)
        requires
            *old(key_cmp) + old(buf)@.len() * old(buf)@.len() <= u64::MAX,
        ensures
            final(buf)@ == insertion_run(old(buf)@, old(buf)@.len() as int).0,
            *final(key_cmp) == *old(key_cmp) + insertion_run(old(buf)@, old(buf)@.len() as int).1,
            final(buf)@.len() == old(buf)@.len(),
            sorted(final(buf)@),
            final(buf)@.to_multiset() == old(buf)@.to_multiset(),
    {
        let ghost s0 = buf@;
        let n = buf.len();
        if n < 2 {
            proof {
                lemma_insertion_run_facts(s0, n as int);
            }
            return;
        }
        for i in 1..n
            invariant
                n == buf@.len(),
                n == s0.len(),
                *old(key_cmp) + s0.len() * s0.len() <= u64::MAX,
                buf@ == insertion_run(s0, i as int).0,
                *key_cmp == *old(key_cmp) + insertion_run(s0, i as int).1,
                sorted_range(buf@, 0, i as int),
                buf@.to_multiset() == s0.to_multiset(),
        {
            proof {
                lemma_insertion_run_facts(s0, i as int);
                lemma_ile_bound(i as int, n as int);
            }
            let ghost run_i = insertion_run(s0, i as int);
            let mut j = i;
            loop
                invariant_except_break
                    0 < i < n,
                    j <= i,
                    n == buf@.len(),
                    n == s0.len(),
                    *old(key_cmp) + s0.len() * s0.len() <= u64::MAX,
                    run_i == insertion_run(s0, i as int),
                    run_i.1 <= i * n,
                    i * n + i <= n * n,
                    *key_cmp == *old(key_cmp) + run_i.1 + (i - j),
                    shift_pass(buf@, j as int).0 == shift_pass(run_i.0, i as int).0,
                    shift_pass(buf@, j as int).1 + (i - j) == shift_pass(run_i.0, i as int).1,
                    forall|a: int, b: int|
                        0 <= a <= b <= i && a != j && b != j ==> buf@[a] <= buf@[b],
                    forall|b: int| j < b <= i ==> buf@[j as int] <= #[trigger] buf@[b],
                ensures
                    n == buf@.len(),
                    n == s0.len(),
                    buf@ == shift_pass(run_i.0, i as int).0,
                    *key_cmp == *old(key_cmp) + run_i.1 + shift_pass(run_i.0, i as int).1,
                    sorted_range(buf@, 0, i + 1),
                decreases j,
            {
                if j == 0 {
                    proof {
                        assert(shift_pass(buf@, 0) == (buf@, 0nat));
                        assert forall|a: int, b: int| 0 <= a <= b <= i implies buf@[a]
                            <= buf@[b] by {
                            if a == j && b != j {
                                assert(buf@[j as int] <= buf@[b]);
                            }
                        }
                    }
                    break;
                }
                *key_cmp = *key_cmp + 1;
                if buf[j] < buf[j - 1] {
                    let ghost s = buf@;
                    let x = buf[j - 1];
                    let y = buf[j];
                    buf.set(j - 1, y);
                    buf.set(j, x);
                    proof {
                        assert(buf@ =~= s.update(j as int, s[j - 1]).update(j - 1, s[j as int]));
                        assert(shift_pass(s, j as int) == (
                            shift_pass(buf@, j - 1).0,
                            (shift_pass(buf@, j - 1).1 + 1) as nat,
                        ));
                        assert forall|a: int, b: int|
                            0 <= a <= b <= i && a != j - 1 && b != j - 1 implies buf@[a]
                            <= buf@[b] by {
                            if a == j && b != j {
                                assert(s[j - 1] <= s[b]);
                            } else if b == j && a != j {
                                assert(s[a] <= s[j - 1]);
                            }
                        }
                        assert forall|b: int| j - 1 < b <= i implies buf@[j - 1]
                            <= #[trigger] buf@[b] by {
                            if b != j {
                                assert(s[j as int] <= s[b]);
                            }
                        }
                    }
                    j = j - 1;
                } else {
                    proof {
                        assert(shift_pass(buf@, j as int) == (buf@, 1nat));
                        assert forall|a: int, b: int| 0 <= a <= b <= i implies buf@[a]
                            <= buf@[b] by {
                            if a == j && b != j {
                                assert(buf@[j - 1] <= buf@[b]);
                            } else if b == j && a != j {
                                assert(buf@[a] <= buf@[j - 1]);
                            }
                        }
                    }
                    break;
                }
            }
            proof {
                assert(insertion_run(s0, i + 1).0 == shift_pass(run_i.0, i as int).0);
                assert(insertion_run(s0, i + 1).1 == run_i.1 + shift_pass(run_i.0, i as int).1);
                lemma_insertion_run_facts(s0, i + 1);
            }
        }
    }
}

/// `i <= n` lets `i * n + i` fit under `n * n` when `i < n`.
proof fn lemma_ile_bound(i: int, n: int)
    requires
        0 < i < n,
    ensures
        i * n + i <= n * n,
{
    assert(i * n + i <= n * n) by (nonlinear_arith)
        requires
            0 < i < n,
    ;
}

/// Exchanging two entries inside `[lo, hi)` leaves the subrange multiset
/// alone and everything outside untouched.
pub proof fn lemma_swap_submultiset(s: Seq<u32>, lo: int, hi: int, x: int, y: int)
    requires
        0 <= lo <= x < hi <= s.len(),
        lo <= y < hi,
    ensures
        s.update(x, s[y]).update(y, s[x]).subrange(lo, hi).to_multiset() == s.subrange(
            lo,
            hi,
        ).to_multiset(),
    decreases 0int,
{
    let t = s.update(x, s[y]).update(y, s[x]);
    let a = s.subrange(lo, hi);
    let b = t.subrange(lo, hi);
    assert(b =~= a.update(x - lo, a[y - lo]).update(y - lo, a[x - lo]));
    let t1 = a.update(x - lo, a[y - lo]);
    assert(t1.to_multiset() == a.to_multiset().insert(a[y - lo]).remove(a[x - lo]));
    assert(b.to_multiset() == t1.to_multiset().insert(a[x - lo]).remove(t1[y - lo]));
    if x == y {
        assert(b.to_multiset() =~= a.to_multiset());
    } else {
        assert(t1[y - lo] == a[y - lo]);
        assert(b.to_multiset() =~= a.to_multiset());
    }
}

} // verus!
