//! Shell sort: gapped insertion passes with a halving gap sequence.

use crate::order::{lt_exec, sorted, TotalOrder};
use crate::sort::swap_at;
use vstd::prelude::*;

verus! {

/// Run gapped insertion passes, halving the gap until it reaches one; the
/// final gap-one pass is a plain insertion sort and leaves the slice sorted.
pub fn shell_sort<T: TotalOrder>(nums: &mut [T])
    ensures
        sorted(final(nums)@),
        final(nums)@.to_multiset() == old(nums)@.to_multiset(),
{
    let len = nums.len();
    let mut gap: usize = len / 2;
    while gap > 0
        invariant
            len == nums@.len(),
            2 * gap <= len,
            nums@.to_multiset() == old(nums)@.to_multiset(),
            gap == 0 ==> sorted(nums@),
        decreases gap,
    {
        let mut start: usize = 0;
        while start < gap
            invariant
                len == nums@.len(),
                1 <= gap,
                2 * gap <= len,
                start <= gap,
                nums@.to_multiset() == old(nums)@.to_multiset(),
                gap == 1 && start == 1 ==> sorted(nums@),
            decreases gap - start,
        {
            insertion_sort_gap(nums, start, gap);
            start += 1;
        }
        gap /= 2;
    }
}

/// One gapped insertion pass over the positions `start`, `start + gap`,
/// `start + 2 * gap`, and so on.  With a gap of one starting at zero this
/// is exactly an insertion sort, and the contract says so.
fn insertion_sort_gap<T: TotalOrder>(nums: &mut [T], start: usize, gap: usize)
    requires
        start < gap,
        2 * gap <= old(nums)@.len(),
    ensures
        final(nums)@.len() == old(nums)@.len(),
        final(nums)@.to_multiset() == old(nums)@.to_multiset(),
        gap == 1 && start == 0 ==> sorted(final(nums)@),
{
    let ghost plain = gap == 1 && start == 0;
    let len = nums.len();
    let mut i: usize = start + gap;
    while i < len
        invariant
            len == nums@.len(),
            start < gap,
            2 * gap <= len,
            start + gap <= i,
            nums@.to_multiset() == old(nums)@.to_multiset(),
            plain == (gap == 1 && start == 0),
            plain ==> forall|a: int, b: int| 0 <= a < b < i ==> #[trigger] T::le(nums@[a], nums@[b]),
        decreases len - i,
    {
        let curr = nums[i];
        let mut pos: usize = i;
        while pos >= gap && lt_exec(&nums[pos], &nums[pos - gap])
            invariant
                len == nums@.len(),
                1 <= gap,
                pos <= i,
                i < len,
                nums@.to_multiset() == old(nums)@.to_multiset(),
                nums@[pos as int] == curr,
                plain == (gap == 1 && start == 0),
                plain ==> forall|a: int, b: int|
                    0 <= a < b <= i && b != pos ==> #[trigger] T::le(nums@[a], nums@[b]),
            decreases pos,
        {
            let ghost s0 = nums@;
            swap_at(nums, pos, pos - gap);
            proof {
                if plain {
                    assert forall|a: int, b: int|
                        0 <= a < b <= i && b != pos - 1 implies #[trigger] T::le(
                        nums@[a],
                        nums@[b],
                    ) by {
                        if b == pos {
                            assert(nums@[b] == s0[pos as int - 1]);
                            if a == pos - 1 {
                                assert(nums@[a] == s0[pos as int]);
                            } else {
                                assert(nums@[a] == s0[a]);
                                assert(T::le(s0[a], s0[pos as int - 1]));
                            }
                        } else if b > pos {
                            assert(nums@[b] == s0[b]);
                            if a == pos - 1 {
                                assert(nums@[a] == s0[pos as int]);
                                assert(T::le(s0[pos as int], s0[b]));
                            } else if a == pos {
                                assert(nums@[a] == s0[pos as int - 1]);
                                assert(T::le(s0[pos as int - 1], s0[b]));
                            } else {
                                assert(nums@[a] == s0[a]);
                                assert(T::le(s0[a], s0[b]));
                            }
                        } else {
                            assert(nums@[a] == s0[a]);
                            assert(nums@[b] == s0[b]);
                            assert(T::le(s0[a], s0[b]));
                        }
                    }
                }
            }
            pos -= gap;
        }
        let ghost before = nums@;
        nums[pos] = curr;
        proof {
            assert(nums@ =~= before);
            if plain {
                assert forall|a: int, b: int|
                    0 <= a < b < i + 1 implies #[trigger] T::le(nums@[a], nums@[b]) by {
                    if b == pos {
                        if pos >= 1 {
                            let x = nums@[pos as int];
                            let y = nums@[pos as int - 1];
                            T::lemma_le_total(y, x);
                            T::lemma_le_total(y, y);
                            assert(T::le(y, x));
                            if a < pos - 1 {
                                assert(T::le(nums@[a], y));
                                T::lemma_le_transitive(nums@[a], y, x);
                            }
                        }
                    }
                }
            }
        }
        if i < len - gap {
            i += gap;
        } else {
            i = len;
        }
    }
}

} // verus!
