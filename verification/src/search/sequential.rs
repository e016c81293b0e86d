//! Linear scans for an element of a slice.

use crate::order::{EqTest, TotalOrder};
use vstd::prelude::*;

verus! {

/// Scan the slice from the front; the position of the first element equal
/// to `target`, or nothing when no element matches.
pub fn sequential_search<T: EqTest + Copy>(nums: &[T], target: T) -> (r: Option<usize>)
    ensures
        match r {
            Some(i) => i < nums@.len() && nums@[i as int] == target && forall|m: int|
                0 <= m < i ==> nums@[m] != target,
            None => forall|m: int| 0 <= m < nums@.len() ==> nums@[m] != target,
        },
{
    let len = nums.len();
    let mut i: usize = 0;
    while i < len
        invariant
            len == nums@.len(),
            i <= len,
            forall|m: int| 0 <= m < i ==> nums@[m] != target,
        decreases len - i,
    {
        if nums[i].eq_test(&target) {
            return Some(i);
        }
        i += 1;
    }
    None
}

/// The scan offered for ordered slices.  It walks the whole slice exactly
/// as `sequential_search` does and does not rely on the order, so its
/// contract is the same: the first matching position, if any.
pub fn ordered_sequential_search<T: TotalOrder>(nums: &[T], target: T) -> (r: Option<usize>)
    ensures
        match r {
            Some(i) => i < nums@.len() && nums@[i as int] == target && forall|m: int|
                0 <= m < i ==> nums@[m] != target,
            None => forall|m: int| 0 <= m < nums@.len() ==> nums@[m] != target,
        },
{
    let len = nums.len();
    let mut i: usize = 0;
    while i < len
        invariant
            len == nums@.len(),
            i <= len,
            forall|m: int| 0 <= m < i ==> nums@[m] != target,
        decreases len - i,
    {
        if nums[i].eq_test(&target) {
            return Some(i);
        }
        i += 1;
    }
    None
}

} // verus!
