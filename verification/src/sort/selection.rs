//! Selection sort: repeatedly pick the smallest remaining element and move
//! it to the front of the unsorted region.

use crate::order::{
    lemma_swap_keeps_prefix_dominated, lt_exec, prefix_dominated, sorted, TotalOrder,
};
use crate::sort::swap_at;
use vstd::prelude::*;

verus! {

/// For each position, find the minimum of the remaining region and swap it
/// into place.
pub fn selection_sort<T: TotalOrder>(nums: &mut [T])
    ensures
        sorted(final(nums)@),
        final(nums)@.to_multiset() == old(nums)@.to_multiset(),
{
    let len = nums.len();
    for i in 0..len
        invariant
            len == nums@.len(),
            nums@.to_multiset() == old(nums)@.to_multiset(),
            prefix_dominated(nums@, i as int),
    {
        let mut min_idx: usize = i;
        let mut j: usize = i + 1;
        proof {
            T::lemma_le_total(nums@[i as int], nums@[i as int]);
        }
        while j < len
            invariant
                len == nums@.len(),
                i < len,
                i <= min_idx < len,
                i < j <= len,
                min_idx < j,
                nums@.to_multiset() == old(nums)@.to_multiset(),
                prefix_dominated(nums@, i as int),
                forall|k: int| i <= k < j ==> #[trigger] T::le(nums@[min_idx as int], nums@[k]),
            decreases len - j,
        {
            if lt_exec(&nums[j], &nums[min_idx]) {
                proof {
                    let v = nums@[j as int];
                    T::lemma_le_total(v, v);
                    assert forall|k: int| i <= k < j + 1 implies #[trigger] T::le(v, nums@[k]) by {
                        if k < j {
                            T::lemma_le_transitive(v, nums@[min_idx as int], nums@[k]);
                        }
                    }
                }
                min_idx = j;
            } else {
                proof {
                    let a = nums@[min_idx as int];
                    let b = nums@[j as int];
                    T::lemma_le_total(a, b);
                    T::lemma_le_total(a, a);
                    assert(T::le(a, b));
                }
            }
            j += 1;
        }
        let ghost s0 = nums@;
        swap_at(nums, i, min_idx);
        proof {
            lemma_swap_keeps_prefix_dominated(s0, i as int, min_idx as int, i as int);
            assert forall|x: int, y: int|
                0 <= x < y < len && x < i + 1 implies #[trigger] T::le(nums@[x], nums@[y]) by {
                if x == i {
                    assert(nums@[x] == s0[min_idx as int]);
                    if y == min_idx {
                        assert(nums@[y] == s0[i as int]);
                        assert(T::le(s0[min_idx as int], s0[i as int]));
                    } else {
                        assert(nums@[y] == s0[y]);
                        assert(T::le(s0[min_idx as int], s0[y]));
                    }
                }
            }
            assert(prefix_dominated(nums@, i + 1));
        }
    }
}

} // verus!
