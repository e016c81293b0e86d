//! In-place sorting routines over mutable slices.
//!
//! Every routine ends with the slice sorted (with respect to the element
//! type's `TotalOrder`) and holding the same multiset of elements it
//! started with.

pub mod bubble;
pub mod heap;
pub mod merge;
pub mod insertion;
pub mod quick;
pub mod selection;
pub mod shell;

use crate::order::lemma_swap_preserves_multiset;
use vstd::prelude::*;

verus! {

/// Exchange the elements at positions `i` and `j`.
pub(crate) fn swap_at<T: Copy>(nums: &mut [T], i: usize, j: usize)
    requires
        i < old(nums)@.len(),
        j < old(nums)@.len(),
    ensures
        final(nums)@ == old(nums)@.update(i as int, old(nums)@[j as int]).update(
            j as int,
            old(nums)@[i as int],
        ),
        final(nums)@.to_multiset() == old(nums)@.to_multiset(),
        final(nums)@.len() == old(nums)@.len(),
{
    let a = nums[i];
    let b = nums[j];
    nums[i] = b;
    nums[j] = a;
    proof {
        lemma_swap_preserves_multiset(old(nums)@, i as int, j as int);
    }
}

} // verus!
