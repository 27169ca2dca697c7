//! Longest common subsequence length, computed bottom-up over the dynamic
//! programming table.

use vstd::prelude::*;
use vstd::string::StringSliceAdditionalSpecFns;

verus! {

/// The length of the longest common subsequence of the first `i` bytes of
/// `x` and the first `j` bytes of `y`.
pub open spec fn lcs_len(x: Seq<u8>, y: Seq<u8>, i: int, j: int) -> nat
    decreases i + j,
{
    if i <= 0 || j <= 0 || i > x.len() || j > y.len() {
        0
    } else if x[i - 1] == y[j - 1] {
        lcs_len(x, y, i - 1, j - 1) + 1
    } else if lcs_len(x, y, i - 1, j) > lcs_len(x, y, i, j - 1) {
        lcs_len(x, y, i - 1, j)
    } else {
        lcs_len(x, y, i, j - 1)
    }
}

/// A common subsequence never outgrows either prefix.
proof fn lemma_lcs_len_bound(x: Seq<u8>, y: Seq<u8>, i: int, j: int)
    ensures
        lcs_len(x, y, i, j) <= i || i < 0,
        lcs_len(x, y, i, j) <= j || j < 0,
    decreases i + j,
{
    if 0 < i <= x.len() && 0 < j <= y.len() {
        lemma_lcs_len_bound(x, y, i - 1, j - 1);
        lemma_lcs_len_bound(x, y, i - 1, j);
        lemma_lcs_len_bound(x, y, i, j - 1);
    }
}

/// The longest-common-subsequence length of two byte strings, bottom-up.
#[verifier::loop_isolation(false)]
pub fn lcs_bottom_up(x: &str, y: &str) -> (r: usize)
    requires
        x.spec_bytes().len() < usize::MAX,
        y.spec_bytes().len() < usize::MAX,
    ensures
        r == lcs_len(x.spec_bytes(), y.spec_bytes(), x.spec_bytes().len() as int, y.spec_bytes().len() as int),
{
    let xb = x.as_bytes();
    let yb = y.as_bytes();
    let n = xb.len();
    let m = yb.len();
    let ghost xs = x.spec_bytes();
    let ghost ys = y.spec_bytes();
    let mut buf: Vec<Vec<usize>> = Vec::new();
    let mut row0: Vec<usize> = Vec::new();
    for j in 0..(m + 1)
        invariant
            row0@.len() == j,
            forall|b: int| 0 <= b < j ==> (#[trigger] row0@[b]) == 0usize,
    {
        row0.push(0);
    }
    buf.push(row0);
    for i in 1..(n + 1)
        invariant
            buf@.len() == i,
            forall|a: int| 0 <= a < i ==> (#[trigger] buf@[a])@.len() == m + 1,
            forall|a: int, b: int|
                0 <= a < i && 0 <= b < m + 1 ==> (#[trigger] buf@[a]@[b]) == lcs_len(
                    xs,
                    ys,
                    a,
                    b,
                ),
    {
        let mut row: Vec<usize> = Vec::new();
        row.push(0);
        for j in 1..(m + 1)
            invariant
                buf@.len() == i,
                forall|a: int| 0 <= a < i ==> (#[trigger] buf@[a])@.len() == m + 1,
                forall|a: int, b: int|
                    0 <= a < i && 0 <= b < m + 1 ==> (#[trigger] buf@[a]@[b]) == lcs_len(
                        xs,
                        ys,
                        a,
                        b,
                    ),
                row@.len() == j,
                forall|b: int| 0 <= b < j ==> (#[trigger] row@[b]) == lcs_len(xs, ys, i as int, b),
        {
            proof {
                lemma_lcs_len_bound(xs, ys, i - 1, j - 1);
                lemma_lcs_len_bound(xs, ys, i - 1, j as int);
                lemma_lcs_len_bound(xs, ys, i as int, j - 1);
            }
            let val: usize = if xb[i - 1] == yb[j - 1] {
                buf[i - 1][j - 1] + 1
            } else if buf[i - 1][j] > row[j - 1] {
                buf[i - 1][j]
            } else {
                row[j - 1]
            };
            row.push(val);
        }
        buf.push(row);
    }
    buf[n][m]
}

} // verus!
