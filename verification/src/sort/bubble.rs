//! The bubble-sort family: plain bubble sort and the exchange sorts that
//! sweep the slice comparing one fixed position against the rest.

use crate::order::{
    lemma_adjacent_implies_sorted, lemma_swap_keeps_prefix_dominated,
    lemma_swap_keeps_suffix_dominating, lt_exec, prefix_dominated, sorted, sorted_desc,
    suffix_dominating, TotalOrder,
};
use crate::sort::swap_at;
use vstd::prelude::*;

verus! {

/// Repeatedly sweep the slice, exchanging adjacent elements that are out
/// of order, until a sweep makes no exchange.
pub fn bubble_sort<T: TotalOrder>(nums: &mut [T])
    ensures
        sorted(final(nums)@),
        final(nums)@.to_multiset() == old(nums)@.to_multiset(),
{
    let len = nums.len();
    if len <= 1 {
        return ;
    }
    let mut pass: usize = 0;
    let mut compare = true;
    while pass < len && compare
        invariant
            len == nums@.len(),
            1 < len,
            pass <= len,
            nums@.to_multiset() == old(nums)@.to_multiset(),
            suffix_dominating(nums@, len - pass),
            !compare ==> sorted(nums@),
        decreases len - pass,
    {
        compare = false;
        let mut j: usize = 0;
        while j < len - 1
            invariant
                len == nums@.len(),
                1 < len,
                pass < len,
                j <= len - 1,
                nums@.to_multiset() == old(nums)@.to_multiset(),
                suffix_dominating(nums@, len - pass),
                forall|k: int| 0 <= k < j ==> #[trigger] T::le(nums@[k], nums@[j as int]),
                len - pass - 1 <= j ==> suffix_dominating(nums@, len - pass - 1),
                !compare ==> forall|k: int| 0 <= k < j ==> #[trigger] T::le(nums@[k], nums@[k + 1]),
            decreases len - 1 - j,
        {
            let ghost s0 = nums@;
            let a = nums[j];
            let b = nums[j + 1];
            if lt_exec(&b, &a) {
                swap_at(nums, j, j + 1);
                compare = true;
                proof {
                    if len - pass <= j + 1 {
                        // the suffix dominates position j, so no exchange can happen here
                        assert(T::le(s0[j as int], s0[j as int + 1]));
                        T::lemma_le_antisymmetric(a, b);
                    }
                    lemma_swap_keeps_suffix_dominating(s0, j as int, j as int + 1, len - pass);
                    assert forall|k: int| 0 <= k < j + 1 implies #[trigger] T::le(
                        nums@[k],
                        nums@[j as int + 1],
                    ) by {
                        if k < j {
                            assert(nums@[k] == s0[k]);
                            assert(T::le(s0[k], s0[j as int]));
                        }
                    }
                }
            } else {
                proof {
                    T::lemma_le_total(a, b);
                    T::lemma_le_total(a, a);
                    assert(T::le(a, b));
                    assert forall|k: int| 0 <= k < j + 1 implies #[trigger] T::le(
                        nums@[k],
                        nums@[j as int + 1],
                    ) by {
                        if k < j {
                            T::lemma_le_transitive(nums@[k], nums@[j as int], nums@[j as int + 1]);
                        }
                    }
                }
            }
            proof {
                if len - pass - 1 <= j + 1 {
                    assert forall|x: int, y: int|
                        0 <= x < y < len && len - pass - 1 <= y implies #[trigger] T::le(
                        nums@[x],
                        nums@[y],
                    ) by {
                        if y < len - pass {
                            assert(y == len - pass - 1);
                            if j + 1 == len - pass - 1 {
                                assert(T::le(nums@[x], nums@[j as int + 1]));
                            } else {
                                assert(nums@ == s0);
                            }
                        }
                    }
                    assert(suffix_dominating(nums@, len - pass - 1));
                }
            }
            j += 1;
        }
        proof {
            if !compare {
                lemma_adjacent_implies_sorted(nums@);
            }
            assert(suffix_dominating(nums@, len - pass - 1));
        }
        pass += 1;
    }
    proof {
        if compare {
            assert(suffix_dominating(nums@, 0));
        }
    }
}

/// Alternate a forward sweep that carries the largest remaining element to
/// the right end with a backward sweep that carries the smallest to the
/// left end, shrinking the unsorted middle from both sides.
pub fn cocktail_sort<T: TotalOrder>(nums: &mut [T])
    ensures
        sorted(final(nums)@),
        final(nums)@.to_multiset() == old(nums)@.to_multiset(),
{
    let len = nums.len();
    if len <= 1 {
        return ;
    }
    let mut i: usize = 0;
    let mut bubble = true;
    while i < len / 2 && bubble
        invariant
            len == nums@.len(),
            1 < len,
            i <= len / 2,
            nums@.to_multiset() == old(nums)@.to_multiset(),
            prefix_dominated(nums@, i as int),
            suffix_dominating(nums@, len - i),
            !bubble ==> sorted(nums@),
        decreases len / 2 - i,
    {
        bubble = false;
        // forward sweep over the unsorted middle
        let mut j: usize = i;
        while j < len - i - 1
            invariant
                len == nums@.len(),
                1 < len,
                i < len / 2,
                i <= j <= len - i - 1,
                nums@.to_multiset() == old(nums)@.to_multiset(),
                prefix_dominated(nums@, i as int),
                suffix_dominating(nums@, len - i),
                forall|k: int| i <= k < j ==> #[trigger] T::le(nums@[k], nums@[j as int]),
                !bubble ==> forall|k: int| i <= k < j ==> #[trigger] T::le(nums@[k], nums@[k + 1]),
            decreases len - i - 1 - j,
        {
            let ghost s0 = nums@;
            let a = nums[j];
            let b = nums[j + 1];
            if lt_exec(&b, &a) {
                swap_at(nums, j, j + 1);
                bubble = true;
                proof {
                    lemma_swap_keeps_prefix_dominated(s0, j as int, j as int + 1, i as int);
                    lemma_swap_keeps_suffix_dominating(s0, j as int, j as int + 1, len - i);
                    assert forall|k: int| i <= k < j + 1 implies #[trigger] T::le(
                        nums@[k],
                        nums@[j as int + 1],
                    ) by {
                        if k < j {
                            assert(nums@[k] == s0[k]);
                            assert(T::le(s0[k], s0[j as int]));
                        }
                    }
                }
            } else {
                proof {
                    T::lemma_le_total(a, b);
                    T::lemma_le_total(a, a);
                    assert(T::le(a, b));
                    assert forall|k: int| i <= k < j + 1 implies #[trigger] T::le(
                        nums@[k],
                        nums@[j as int + 1],
                    ) by {
                        if k < j {
                            T::lemma_le_transitive(nums@[k], nums@[j as int], nums@[j as int + 1]);
                        }
                    }
                }
            }
            j += 1;
        }
        proof {
            // the forward sweep has left the largest middle element at the top
            assert forall|x: int, y: int|
                0 <= x < y < len && len - i - 1 <= y implies #[trigger] T::le(nums@[x], nums@[y]) by {
                if y == len - i - 1 {
                    if x < i {
                        assert(T::le(nums@[x], nums@[y]));
                    } else {
                        assert(T::le(nums@[x], nums@[j as int]));
                    }
                }
            }
            assert(suffix_dominating(nums@, len - i - 1));
        }
        let ghost fwd = nums@;
        // backward sweep over the rest of the middle
        let mut m: usize = len - i - 2;
        while m > i
            invariant
                len == nums@.len(),
                1 < len,
                i < len / 2,
                i <= m <= len - i - 2,
                nums@.to_multiset() == old(nums)@.to_multiset(),
                prefix_dominated(nums@, i as int),
                suffix_dominating(nums@, len - i - 1),
                forall|k: int| m < k < len - i - 1 ==> #[trigger] T::le(nums@[m as int], nums@[k]),
                !bubble ==> nums@ == fwd,
                !bubble ==> forall|k: int|
                    i <= k < len - i - 2 ==> #[trigger] T::le(nums@[k], nums@[k + 1]),
            decreases m,
        {
            m -= 1;
            let ghost s0 = nums@;
            let a = nums[m];
            let b = nums[m + 1];
            if lt_exec(&b, &a) {
                swap_at(nums, m, m + 1);
                bubble = true;
                proof {
                    lemma_swap_keeps_prefix_dominated(s0, m as int, m as int + 1, i as int);
                    lemma_swap_keeps_suffix_dominating(s0, m as int, m as int + 1, len - i - 1);
                    assert forall|k: int| m < k < len - i - 1 implies #[trigger] T::le(
                        nums@[m as int],
                        nums@[k],
                    ) by {
                        assert(nums@[m as int] == s0[m as int + 1]);
                        if k == m + 1 {
                            assert(nums@[k] == s0[m as int]);
                        } else {
                            assert(nums@[k] == s0[k]);
                            assert(T::le(s0[m as int + 1], s0[k]));
                        }
                    }
                }
            } else {
                proof {
                    T::lemma_le_total(a, b);
                    T::lemma_le_total(a, a);
                    assert(T::le(a, b));
                    assert forall|k: int| m < k < len - i - 1 implies #[trigger] T::le(
                        nums@[m as int],
                        nums@[k],
                    ) by {
                        if k > m + 1 {
                            T::lemma_le_transitive(nums@[m as int], nums@[m as int + 1], nums@[k]);
                        }
                    }
                }
            }
        }
        proof {
            // the backward sweep has left the smallest middle element at the bottom
            assert forall|x: int, y: int|
                0 <= x < y < len && x < i + 1 implies #[trigger] T::le(nums@[x], nums@[y]) by {
                if x == i {
                    if y < len - i - 1 {
                        assert(T::le(nums@[m as int], nums@[y]));
                    }
                }
            }
            assert(prefix_dominated(nums@, i + 1));
            if !bubble {
                assert forall|k: int| 0 <= k < len - 1 implies #[trigger] T::le(
                    nums@[k],
                    nums@[k + 1],
                ) by {
                    if k < i {
                        assert(T::le(nums@[k], nums@[k + 1]));
                    } else if k >= len - i - 2 {
                        assert(T::le(nums@[k], nums@[k + 1]));
                    }
                }
                lemma_adjacent_implies_sorted(nums@);
            }
        }
        i += 1;
    }
    proof {
        if bubble {
            let half = (len / 2) as int;
            assert forall|x: int, y: int| 0 <= x < y < len implies #[trigger] T::le(
                nums@[x],
                nums@[y],
            ) by {
                if x >= half {
                    assert(len - len / 2 <= y);
                }
            }
        }
    }
}

/// Sweep with a shrinking gap, comparing elements a gap apart; once the gap
/// reaches one, finish with plain adjacent exchanges.
pub fn comb_sort<T: TotalOrder>(nums: &mut [T])
    ensures
        sorted(final(nums)@),
        final(nums)@.to_multiset() == old(nums)@.to_multiset(),
{
    let len = nums.len();
    if len <= 1 {
        return ;
    }
    let mut gap: usize = len;
    while gap > 1
        invariant
            len == nums@.len(),
            1 < len,
            1 <= gap <= len,
            nums@.to_multiset() == old(nums)@.to_multiset(),
        decreases gap,
    {
        // shrink the gap by the classic 13/10 factor
        let wide: u128 = (gap as u128) * 10 / 13;
        proof {
            assert(wide <= gap as u128);
        }
        let mut next: usize = wide as usize;
        if next <= 1 {
            next = 1;
        }
        gap = next;
        let mut i: usize = 0;
        while i < len - gap
            invariant
                len == nums@.len(),
                1 <= gap <= len,
                i <= len - gap,
                nums@.to_multiset() == old(nums)@.to_multiset(),
            decreases len - gap - i,
        {
            let a = nums[i];
            let b = nums[i + gap];
            if lt_exec(&b, &a) {
                swap_at(nums, i, i + gap);
            }
            i += 1;
        }
    }
    // the gap has reached one: finish with adjacent sweeps
    bubble_sort(nums);
}

/// One sweep comparing position `i` with every later position, keeping the
/// smaller value at `i`; the prefix grows sorted from the left.
pub fn cant_believe_it_can_sort_asc<T: TotalOrder>(nums: &mut [T])
    ensures
        sorted(final(nums)@),
        final(nums)@.to_multiset() == old(nums)@.to_multiset(),
{
    let len = nums.len();
    for i in 0..len
        invariant
            len == nums@.len(),
            nums@.to_multiset() == old(nums)@.to_multiset(),
            prefix_dominated(nums@, i as int),
    {
        for j in (i + 1)..len
            invariant
                len == nums@.len(),
                i < len,
                i < j,
                nums@.to_multiset() == old(nums)@.to_multiset(),
                prefix_dominated(nums@, i as int),
                forall|k: int| i < k < j ==> #[trigger] T::le(nums@[i as int], nums@[k]),
        {
            let ghost s0 = nums@;
            let a = nums[i];
            let b = nums[j];
            if lt_exec(&b, &a) {
                swap_at(nums, i, j);
                proof {
                    lemma_swap_keeps_prefix_dominated(s0, i as int, j as int, i as int);
                    assert forall|k: int| i < k < j + 1 implies #[trigger] T::le(
                        nums@[i as int],
                        nums@[k],
                    ) by {
                        if k < j {
                            assert(nums@[k] == s0[k]);
                            assert(T::le(s0[i as int], s0[k]));
                            T::lemma_le_transitive(nums@[i as int], s0[i as int], s0[k]);
                        }
                    }
                }
            } else {
                proof {
                    T::lemma_le_total(a, b);
                    T::lemma_le_total(a, a);
                    assert(T::le(a, b));
                }
            }
        }
        proof {
            assert forall|x: int, y: int|
                0 <= x < y < len && x < i + 1 implies #[trigger] T::le(nums@[x], nums@[y]) by {
                if x == i {
                    assert(T::le(nums@[i as int], nums@[y]));
                }
            }
            assert(prefix_dominated(nums@, i + 1));
        }
    }
}

/// The descending twin: the larger value is kept at position `i`, so the
/// slice ends ordered from largest to smallest.
pub fn cant_believe_it_can_sort_desc<T: TotalOrder>(nums: &mut [T])
    ensures
        sorted_desc(final(nums)@),
        final(nums)@.to_multiset() == old(nums)@.to_multiset(),
{
    let len = nums.len();
    for i in 0..len
        invariant
            len == nums@.len(),
            nums@.to_multiset() == old(nums)@.to_multiset(),
            forall|x: int, y: int|
                0 <= x < y < len && x < i ==> #[trigger] T::le(nums@[y], nums@[x]),
    {
        for j in (i + 1)..len
            invariant
                len == nums@.len(),
                i < len,
                i < j,
                nums@.to_multiset() == old(nums)@.to_multiset(),
                forall|x: int, y: int|
                    0 <= x < y < len && x < i ==> #[trigger] T::le(nums@[y], nums@[x]),
                forall|k: int| i < k < j ==> #[trigger] T::le(nums@[k], nums@[i as int]),
        {
            let ghost s0 = nums@;
            let a = nums[i];
            let b = nums[j];
            if lt_exec(&a, &b) {
                swap_at(nums, i, j);
                proof {
                    assert forall|x: int, y: int|
                        0 <= x < y < len && x < i implies #[trigger] T::le(nums@[y], nums@[x]) by {
                        assert(nums@[x] == s0[x]);
                        if y == i as int {
                            assert(nums@[y] == s0[j as int]);
                            assert(T::le(s0[j as int], s0[x]));
                        } else if y == j as int {
                            assert(nums@[y] == s0[i as int]);
                            assert(T::le(s0[i as int], s0[x]));
                        } else {
                            assert(nums@[y] == s0[y]);
                        }
                    }
                    assert forall|k: int| i < k < j + 1 implies #[trigger] T::le(
                        nums@[k],
                        nums@[i as int],
                    ) by {
                        if k < j {
                            assert(nums@[k] == s0[k]);
                            assert(T::le(s0[k], s0[i as int]));
                            T::lemma_le_transitive(s0[k], s0[i as int], nums@[i as int]);
                        }
                    }
                }
            } else {
                proof {
                    T::lemma_le_total(b, a);
                    T::lemma_le_total(b, b);
                    assert(T::le(b, a));
                }
            }
        }
        proof {
            assert forall|x: int, y: int|
                0 <= x < y < len && x < i + 1 implies #[trigger] T::le(nums@[y], nums@[x]) by {
                if x == i {
                    assert(T::le(nums@[y], nums@[i as int]));
                }
            }
        }
    }
}

} // verus!
