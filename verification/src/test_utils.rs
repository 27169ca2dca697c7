//! Shared vocabulary for the sorting family: the sorted-range predicate and
//! the runtime checker the tests use.

use vstd::prelude::*;

verus! {

/// `s[lo..hi)` is sorted ascending.
pub open spec fn sorted_range(s: Seq<u32>, lo: int, hi: int) -> bool {
    forall|a: int, b: int| lo <= a <= b < hi ==> s[a] <= s[b]
}

/// The whole sequence is sorted ascending.
pub open spec fn sorted(s: Seq<u32>) -> bool {
    sorted_range(s, 0, s.len() as int)
}

/// Walk a buffer, asserting each adjacent pair ordered.  Unsorted input
/// is excluded up front, so every assertion is discharged statically and
/// the walk cannot fail.
pub fn assert_sorted(data: &Vec<u32>)
    requires
        sorted(data@),
{
    let n = data.len();
    if n < 2 {
        return;
    }
    for i in 1..n
        invariant
            n == data@.len(),
            sorted(data@),
    {
        assert(data@[i - 1] <= data@[i as int]);
    }
}

} // verus!
