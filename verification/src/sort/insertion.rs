//! Insertion sorts: the classic adjacent-exchange form and a variant that
//! finds each insertion point by binary search before shifting.

use crate::order::{lt_exec, sorted, TotalOrder};
use crate::sort::swap_at;
use vstd::prelude::*;

verus! {

/// Grow a sorted prefix by sinking each next element to its place with
/// adjacent exchanges.
pub fn insertion_sort<T: TotalOrder>(nums: &mut [T])
    ensures
        sorted(final(nums)@),
        final(nums)@.to_multiset() == old(nums)@.to_multiset(),
{
    let len = nums.len();
    if len <= 1 {
        return ;
    }
    for i in 1..len
        invariant
            len == nums@.len(),
            nums@.to_multiset() == old(nums)@.to_multiset(),
            forall|a: int, b: int| 0 <= a < b < i ==> #[trigger] T::le(nums@[a], nums@[b]),
    {
        let mut j: usize = i;
        while j > 0 && lt_exec(&nums[j], &nums[j - 1])
            invariant
                len == nums@.len(),
                i < len,
                j <= i,
                nums@.to_multiset() == old(nums)@.to_multiset(),
                forall|a: int, b: int|
                    0 <= a < b <= i && b != j ==> #[trigger] T::le(nums@[a], nums@[b]),
            decreases j,
        {
            let ghost s0 = nums@;
            swap_at(nums, j, j - 1);
            proof {
                assert forall|a: int, b: int|
                    0 <= a < b <= i && b != j - 1 implies #[trigger] T::le(nums@[a], nums@[b]) by {
                    if b == j {
                        assert(nums@[b] == s0[j as int - 1]);
                        if a == j - 1 {
                            assert(nums@[a] == s0[j as int]);
                        } else {
                            assert(nums@[a] == s0[a]);
                            assert(T::le(s0[a], s0[j as int - 1]));
                        }
                    } else if b > j {
                        assert(nums@[b] == s0[b]);
                        if a == j - 1 {
                            assert(nums@[a] == s0[j as int]);
                            assert(T::le(s0[j as int], s0[b]));
                        } else if a == j {
                            assert(nums@[a] == s0[j as int - 1]);
                            assert(T::le(s0[j as int - 1], s0[b]));
                        } else {
                            assert(nums@[a] == s0[a]);
                            assert(T::le(s0[a], s0[b]));
                        }
                    } else {
                        assert(nums@[a] == s0[a]);
                        assert(nums@[b] == s0[b]);
                        assert(T::le(s0[a], s0[b]));
                    }
                }
            }
            j -= 1;
        }
        proof {
            assert forall|a: int, b: int|
                0 <= a < b < i + 1 implies #[trigger] T::le(nums@[a], nums@[b]) by {
                if b == j {
                    if j > 0 {
                        let x = nums@[j as int];
                        let y = nums@[j as int - 1];
                        T::lemma_le_total(y, x);
                        T::lemma_le_total(y, y);
                        assert(T::le(y, x));
                        if a < j - 1 {
                            assert(T::le(nums@[a], y));
                            T::lemma_le_transitive(nums@[a], y, x);
                        }
                    }
                }
            }
        }
    }
}

/// Insertion sort that locates each insertion point by binary search on the
/// already-sorted prefix, then shifts the tail of the prefix one step right.
pub fn binary_insertion_sort<T: TotalOrder>(nums: &mut [T])
    ensures
        sorted(final(nums)@),
        final(nums)@.to_multiset() == old(nums)@.to_multiset(),
{
    broadcast use vstd::seq_lib::group_to_multiset_ensures;
    broadcast use vstd::multiset::group_multiset_axioms;

    let len = nums.len();
    if len <= 1 {
        return ;
    }
    for i in 1..len
        invariant
            len == nums@.len(),
            nums@.to_multiset() == old(nums)@.to_multiset(),
            forall|a: int, b: int| 0 <= a < b < i ==> #[trigger] T::le(nums@[a], nums@[b]),
    {
        let mut left: usize = 0;
        let mut right: usize = i;
        let temp = nums[i];
        while left < right
            invariant
                len == nums@.len(),
                i < len,
                left <= right <= i,
                temp == nums@[i as int],
                forall|a: int, b: int| 0 <= a < b < i ==> #[trigger] T::le(nums@[a], nums@[b]),
                forall|m: int| 0 <= m < left ==> #[trigger] T::le(nums@[m], temp),
                forall|m: int| right <= m < i ==> #[trigger] T::le(temp, nums@[m]),
            decreases right - left,
        {
            let mid = left + (right - left) / 2;
            if lt_exec(&temp, &nums[mid]) {
                right = mid;
                proof {
                    assert forall|m: int| mid <= m < i implies #[trigger] T::le(temp, nums@[m]) by {
                        if m > mid {
                            assert(T::le(nums@[mid as int], nums@[m]));
                            T::lemma_le_transitive(temp, nums@[mid as int], nums@[m]);
                        }
                    }
                }
            } else {
                proof {
                    let x = nums@[mid as int];
                    T::lemma_le_total(x, temp);
                    T::lemma_le_total(x, x);
                    assert(T::le(x, temp));
                    assert forall|m: int| 0 <= m < mid + 1 implies #[trigger] T::le(
                        nums@[m],
                        temp,
                    ) by {
                        if m < mid {
                            assert(T::le(nums@[m], x));
                            T::lemma_le_transitive(nums@[m], x, temp);
                        }
                    }
                }
                left = mid + 1;
            }
        }
        // shift the tail of the prefix one step to the right
        let ghost s0 = nums@;
        let mut k: usize = i;
        while k > left
            invariant
                len == nums@.len(),
                i < len,
                left <= k <= i,
                forall|m: int| 0 <= m <= k ==> nums@[m] == s0[m],
                forall|m: int| k < m <= i ==> nums@[m] == s0[m - 1],
                forall|m: int| i < m < len ==> nums@[m] == s0[m],
            decreases k,
        {
            let v = nums[k - 1];
            nums[k] = v;
            k -= 1;
        }
        nums[left] = temp;
        proof {
            assert(nums@ =~= s0.remove(i as int).insert(left as int, temp));
            vstd::seq_lib::to_multiset_remove(s0, i as int);
            vstd::seq_lib::to_multiset_insert(s0.remove(i as int), left as int, temp);
            assert(s0.contains(temp));
            vstd::seq_lib::to_multiset_contains(s0, temp);
            assert(s0.to_multiset().count(temp) > 0);
            assert(nums@.to_multiset() =~= s0.to_multiset());
            assert forall|a: int, b: int|
                0 <= a < b < i + 1 implies #[trigger] T::le(nums@[a], nums@[b]) by {
                let l = left as int;
                if b < l {
                    assert(nums@[a] == s0[a] && nums@[b] == s0[b]);
                } else if b == l {
                    assert(nums@[b] == temp);
                    assert(T::le(s0[a], temp));
                } else {
                    assert(nums@[b] == s0[b - 1]);
                    if a < l {
                        assert(nums@[a] == s0[a]);
                        if a < b - 1 {
                            assert(T::le(s0[a], s0[b - 1]));
                        } else {
                            assert(T::le(temp, s0[b - 1]));
                            assert(T::le(s0[a], temp));
                            T::lemma_le_transitive(s0[a], temp, s0[b - 1]);
                        }
                    } else if a == l {
                        assert(nums@[a] == temp);
                        assert(T::le(temp, s0[b - 1]));
                    } else {
                        assert(nums@[a] == s0[a - 1]);
                        assert(T::le(s0[a - 1], s0[b - 1]));
                    }
                }
            }
        }
    }
}

} // verus!
