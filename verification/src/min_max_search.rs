//! Simultaneous minimum and maximum of a buffer by divide and conquer.

use vstd::prelude::*;

verus! {

/// Find the largest and smallest entries of `buf[lo..hi)`.
fn min_max_range(buf: &Vec<i32>, lo: usize, hi: usize, max: &mut i32, min: &mut i32)
    requires
        lo < hi <= buf.len(),
    ensures
        exists|k: int| lo <= k < hi && buf@[k] == *final(max),
        exists|k: int| lo <= k < hi && buf@[k] == *final(min),
        forall|k: int| lo <= k < hi ==> buf@[k] <= *final(max),
        forall|k: int| lo <= k < hi ==> buf@[k] >= *final(min),
    decreases hi - lo,
{
    if hi - lo == 1 {
        *min = buf[lo];
        *max = buf[lo];
        return;
    }
    if hi - lo == 2 {
        if buf[lo] < buf[lo + 1] {
            *min = buf[lo];
            *max = buf[lo + 1];
        } else {
            *max = buf[lo];
            *min = buf[lo + 1];
        }
        return;
    }
    let mid = lo + (hi - lo) / 2;
    let mut min_a: i32 = i32::MAX;
    let mut max_a: i32 = i32::MIN;
    let mut min_b: i32 = i32::MAX;
    let mut max_b: i32 = i32::MIN;
    min_max_range(buf, lo, mid, &mut max_a, &mut min_a);
    min_max_range(buf, mid, hi, &mut max_b, &mut min_b);
    *max = if max_b > max_a {
        max_b
    } else {
        max_a
    };
    *min = if min_b < min_a {
        min_b
    } else {
        min_a
    };
}

/// Find the largest and smallest entries of the whole buffer, writing them
/// through the two out-parameters.
pub fn min_max_search(buf: &Vec<i32>, max: &mut i32, min: &mut i32)
    requires
        buf.len() > 0,
    ensures
        exists|k: int| 0 <= k < buf@.len() && buf@[k] == *final(max),
        exists|k: int| 0 <= k < buf@.len() && buf@[k] == *final(min),
        forall|k: int| 0 <= k < buf@.len() ==> buf@[k] <= *final(max),
        forall|k: int| 0 <= k < buf@.len() ==> buf@[k] >= *final(min),
{
    let n = buf.len();
    min_max_range(buf, 0, n, max, min);
}

} // verus!
