//! Quicksort with a middle-element pivot moved to the end for the
//! partitioning sweep.

use crate::order::{
    lemma_bounded_above_permutation, lemma_bounded_below_permutation, sorted, TotalOrder,
};
use crate::sort::swap_at;
use vstd::prelude::*;

verus! {

/// Partition around a pivot, then sort the two sides recursively.
pub fn quick_sort<T: TotalOrder>(nums: &mut [T])
    ensures
        sorted(final(nums)@),
        final(nums)@.len() == old(nums)@.len(),
        final(nums)@.to_multiset() == old(nums)@.to_multiset(),
    decreases old(nums)@.len(),
{
    broadcast use vstd::seq_lib::lemma_multiset_commutative;
    broadcast use vstd::multiset::group_multiset_axioms;

    let len = nums.len();
    if len <= 1 {
        return ;
    }
    let pivot_index = partition(nums);
    let ghost sp = nums@;
    let ghost piv = sp[pivot_index as int];
    let (left, rest) = nums.split_at_mut(pivot_index);
    let (pivot_part, right) = rest.split_at_mut(1);
    quick_sort(left);
    quick_sort(right);
    proof {
        let l = final(left)@;
        let m = final(pivot_part)@;
        let r = final(right)@;
        let p = pivot_index as int;
        assert(nums@ =~= l + (m + r));
        assert(sp.subrange(p, len as int).subrange(0, 1) =~= sp.subrange(p, p + 1));
        assert(sp.subrange(p, len as int).subrange(1, len - p) =~= sp.subrange(p + 1, len as int));
        assert(m =~= seq![piv]);
        assert(l.len() == p);
        assert(l.to_multiset() == sp.subrange(0, pivot_index as int).to_multiset());
        assert(r.to_multiset() == sp.subrange(pivot_index as int + 1, len as int).to_multiset());
        assert(sp =~= sp.subrange(0, pivot_index as int) + (sp.subrange(
            pivot_index as int,
            pivot_index as int + 1,
        ) + sp.subrange(pivot_index as int + 1, len as int)));
        assert(sp.subrange(pivot_index as int, pivot_index as int + 1) =~= seq![piv]);
        assert(nums@.to_multiset() =~= sp.to_multiset());
        lemma_bounded_above_permutation(sp.subrange(0, pivot_index as int), l, piv);
        lemma_bounded_below_permutation(sp.subrange(pivot_index as int + 1, len as int), r, piv);
        assert forall|a: int, b: int| 0 <= a < b < nums@.len() implies #[trigger] T::le(
            nums@[a],
            nums@[b],
        ) by {
            if a < p {
                assert(nums@[a] == l[a]);
                if b < p {
                    assert(nums@[b] == l[b]);
                } else if b == p {
                    assert(nums@[b] == piv);
                    assert(T::le(l[a], piv));
                } else {
                    assert(nums@[b] == r[b - p - 1]);
                    assert(T::le(l[a], piv));
                    assert(T::le(piv, r[b - p - 1]));
                    T::lemma_le_transitive(l[a], piv, r[b - p - 1]);
                }
            } else if a == p {
                assert(nums@[a] == piv);
                assert(nums@[b] == r[b - p - 1]);
                assert(T::le(piv, r[b - p - 1]));
            } else {
                assert(nums@[a] == r[a - p - 1]);
                assert(nums@[b] == r[b - p - 1]);
            }
        }
    }
}

/// Move the middle element to the end, sweep everything not above it to
/// the left, and put that pivot back between the two classes; returns its
/// position.  Everything left of the pivot is `le` it, and everything
/// right of it is strictly above it.
fn partition<T: TotalOrder>(nums: &mut [T]) -> (p: usize)
    requires
        old(nums)@.len() >= 1,
    ensures
        p < old(nums)@.len(),
        final(nums)@.len() == old(nums)@.len(),
        final(nums)@.to_multiset() == old(nums)@.to_multiset(),
        final(nums)@[p as int] == old(nums)@[(old(nums)@.len() / 2) as int],
        forall|m: int| 0 <= m < p ==> #[trigger] T::le(final(nums)@[m], final(nums)@[p as int]),
        forall|m: int|
            p < m < final(nums)@.len() ==> #[trigger] T::le(
                final(nums)@[p as int],
                final(nums)@[m],
            ),
        forall|m: int|
            p < m < final(nums)@.len() ==> (#[trigger] final(nums)@[m]) != final(nums)@[p as int],
    decreases old(nums)@.len(),
{
    let len = nums.len();
    let pivot_index = len / 2;
    swap_at(nums, pivot_index, len - 1);
    let mut i: usize = 0;
    let mut j: usize = 0;
    while j < len - 1
        invariant
            len == nums@.len(),
            1 <= len,
            i <= j <= len - 1,
            nums@.to_multiset() == old(nums)@.to_multiset(),
            nums@[len - 1] == old(nums)@[(len / 2) as int],
            forall|m: int| 0 <= m < i ==> #[trigger] T::le(nums@[m], nums@[len - 1]),
            forall|m: int| i <= m < j ==> #[trigger] T::le(nums@[len - 1], nums@[m]),
            forall|m: int| i <= m < j ==> (#[trigger] nums@[m]) != nums@[len - 1],
        decreases len - 1 - j,
    {
        let ghost s0 = nums@;
        let a = nums[j];
        let piv = nums[len - 1];
        if a.le_exec(&piv) {
            swap_at(nums, i, j);
            proof {
                assert(nums@[len - 1] == s0[len - 1]);
                assert forall|m: int| 0 <= m < i + 1 implies #[trigger] T::le(
                    nums@[m],
                    nums@[len - 1],
                ) by {
                    if m == i {
                        assert(nums@[m] == s0[j as int]);
                    } else {
                        assert(nums@[m] == s0[m]);
                        assert(T::le(s0[m], s0[len - 1]));
                    }
                }
                assert forall|m: int| i + 1 <= m < j + 1 implies #[trigger] T::le(
                    nums@[len - 1],
                    nums@[m],
                ) by {
                    if m == j && i < j {
                        assert(nums@[m] == s0[i as int]);
                        assert(T::le(s0[len - 1], s0[i as int]));
                    } else if m < j {
                        assert(nums@[m] == s0[m]);
                        assert(T::le(s0[len - 1], s0[m]));
                    }
                }
                assert forall|m: int| i + 1 <= m < j + 1 implies (#[trigger] nums@[m]) != nums@[len
                    - 1] by {
                    if m == j && i < j {
                        assert(nums@[m] == s0[i as int]);
                        assert(s0[i as int] != s0[len - 1]);
                    } else if m < j {
                        assert(nums@[m] == s0[m]);
                        assert(s0[m] != s0[len - 1]);
                    }
                }
            }
            i += 1;
        } else {
            proof {
                T::lemma_le_total(piv, a);
                T::lemma_le_total(piv, piv);
                assert(T::le(piv, a));
                assert(a != piv);
            }
        }
        j += 1;
    }
    let ghost s1 = nums@;
    swap_at(nums, i, len - 1);
    proof {
        assert forall|m: int| 0 <= m < i implies #[trigger] T::le(nums@[m], nums@[i as int]) by {
            assert(nums@[m] == s1[m]);
            assert(nums@[i as int] == s1[len - 1]);
            assert(T::le(s1[m], s1[len - 1]));
        }
        assert forall|m: int| i < m < len implies #[trigger] T::le(nums@[i as int], nums@[m]) by {
            assert(nums@[i as int] == s1[len - 1]);
            if m == len - 1 {
                assert(nums@[m] == s1[i as int]);
                assert(T::le(s1[len - 1], s1[i as int]));
            } else {
                assert(nums@[m] == s1[m]);
                assert(T::le(s1[len - 1], s1[m]));
            }
        }
        assert forall|m: int| i < m < len implies (#[trigger] nums@[m]) != nums@[i as int] by {
            assert(nums@[i as int] == s1[len - 1]);
            if m == len - 1 {
                assert(nums@[m] == s1[i as int]);
                assert(s1[i as int] != s1[len - 1]);
            } else {
                assert(nums@[m] == s1[m]);
                assert(s1[m] != s1[len - 1]);
            }
        }
    }
    i
}

} // verus!
