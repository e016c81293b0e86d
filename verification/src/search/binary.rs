//! Binary searches over sorted slices: an iterative form, a recursive
//! form, and an exponential (galloping) form that first grows a window.

use crate::order::{lt_exec, sorted, EqTest, TotalOrder};
use vstd::prelude::*;

verus! {

/// Narrow an inclusive window around `target` by halving; the position of
/// some element equal to `target`, or nothing when no element matches.
pub fn binary_search_iterative<T: TotalOrder>(nums: &[T], target: T) -> (r: Option<usize>)
    requires
        sorted(nums@),
    ensures
        match r {
            Some(i) => i < nums@.len() && nums@[i as int] == target,
            None => forall|m: int| 0 <= m < nums@.len() ==> nums@[m] != target,
        },
{
    let len = nums.len();
    if len == 0 {
        return None;
    }
    let mut low: usize = 0;
    let mut high: usize = len - 1;
    let mut mid: usize = 0;
    let mut found = false;
    while low <= high && !found
        invariant
            len == nums@.len(),
            1 <= len,
            low <= len,
            high < len,
            sorted(nums@),
            found ==> mid < len && nums@[mid as int] == target,
            forall|m: int| 0 <= m < low ==> nums@[m] != target,
            forall|m: int| high < m < len ==> nums@[m] != target,
        decreases (if found {
            0int
        } else {
            high - low + 2
        }),
    {
        mid = low + (high - low) / 2;
        let t = &nums[mid];
        if target.eq_test(t) {
            found = true;
        } else if lt_exec(&target, t) {
            if mid == 0 {
                proof {
                    assert forall|m: int| 0 <= m < len implies nums@[m] != target by {
                        if nums@[m] == target {
                            if m > 0 {
                                assert(T::le(nums@[0], nums@[m]));
                            }
                            T::lemma_le_antisymmetric(target, nums@[0]);
                        }
                    }
                }
                return None;
            }
            proof {
                assert forall|m: int| mid - 1 < m < len implies nums@[m] != target by {
                    if nums@[m] == target {
                        if m > mid {
                            assert(T::le(nums@[mid as int], nums@[m]));
                        }
                        T::lemma_le_antisymmetric(target, nums@[mid as int]);
                    }
                }
            }
            high = mid - 1;
        } else {
            proof {
                T::lemma_le_total(target, nums@[mid as int]);
                assert(T::le(nums@[mid as int], target));
                assert forall|m: int| 0 <= m < mid + 1 implies nums@[m] != target by {
                    if nums@[m] == target {
                        if m < mid {
                            assert(T::le(nums@[m], nums@[mid as int]));
                        }
                        T::lemma_le_antisymmetric(target, nums@[mid as int]);
                    }
                }
            }
            low = mid + 1;
        }
    }
    if found {
        Some(mid)
    } else {
        None
    }
}

/// The same search written recursively over ever smaller subslices; a
/// match found in the upper half is translated back to a position in the
/// whole slice.
pub fn binary_search_recursive<T: TotalOrder>(nums: &[T], target: T) -> (r: Option<usize>)
    requires
        sorted(nums@),
    ensures
        match r {
            Some(i) => i < nums@.len() && nums@[i as int] == target,
            None => forall|m: int| 0 <= m < nums@.len() ==> nums@[m] != target,
        },
    decreases nums@.len(),
{
    let len = nums.len();
    if len == 0 {
        return None;
    }
    let mid = len / 2;
    let t = &nums[mid];
    if target.eq_test(t) {
        Some(mid)
    } else if lt_exec(&target, t) {
        let sub = &nums[0..mid];
        proof {
            assert(sorted(sub@));
        }
        let r = binary_search_recursive(sub, target);
        match r {
            Some(i) => Some(i),
            None => {
                proof {
                    assert forall|m: int| 0 <= m < len implies nums@[m] != target by {
                        if nums@[m] == target {
                            if m < mid {
                                assert(sub@[m] != target);
                            } else {
                                if m > mid {
                                    assert(T::le(nums@[mid as int], nums@[m]));
                                }
                                T::lemma_le_antisymmetric(target, nums@[mid as int]);
                            }
                        }
                    }
                }
                None
            },
        }
    } else {
        let sub = &nums[mid + 1..len];
        proof {
            T::lemma_le_total(target, nums@[mid as int]);
            assert(T::le(nums@[mid as int], target));
            assert(sorted(sub@)) by {
                assert forall|a: int, b: int| 0 <= a < b < sub@.len() implies #[trigger] T::le(
                    sub@[a],
                    sub@[b],
                ) by {
                    assert(T::le(nums@[mid + 1 + a], nums@[mid + 1 + b]));
                }
            }
        }
        let r = binary_search_recursive(sub, target);
        match r {
            Some(i) => {
                proof {
                    assert(sub@[i as int] == nums@[mid + 1 + i]);
                }
                Some(mid + 1 + i)
            },
            None => {
                proof {
                    assert forall|m: int| 0 <= m < len implies nums@[m] != target by {
                        if nums@[m] == target {
                            if m > mid {
                                assert(sub@[m - mid - 1] != target);
                            } else {
                                if m < mid {
                                    assert(T::le(nums@[m], nums@[mid as int]));
                                }
                                T::lemma_le_antisymmetric(target, nums@[mid as int]);
                            }
                        }
                    }
                }
                None
            },
        }
    }
}

/// Grow a window by doubling its upper bound until it passes `target`,
/// then search the window; the window is widened to the whole slice end
/// when the doubling overshoots.
pub fn binary_search_exponential<T: TotalOrder>(nums: &[T], target: T) -> (r: Option<usize>)
    requires
        sorted(nums@),
    ensures
        match r {
            Some(i) => i < nums@.len() && nums@[i as int] == target,
            None => forall|m: int| 0 <= m < nums@.len() ==> nums@[m] != target,
        },
{
    let len = nums.len();
    if len == 0 {
        return None;
    }
    let mut low: usize = 0;
    let mut high: usize = 1;
    while high < len && lt_exec(&nums[high], &target)
        invariant
            len == nums@.len(),
            1 <= len,
            sorted(nums@),
            1 <= high,
            low < len,
            low < high,
            low == 0 || (T::le(nums@[low as int], target) && nums@[low as int] != target),
        decreases (if high >= len {
            0int
        } else {
            len - high
        }),
    {
        low = high;
        if high <= usize::MAX / 2 {
            high = high * 2;
        } else {
            high = usize::MAX;
        }
    }
    let upper = if high >= len {
        len
    } else {
        high + 1
    };
    let sub = &nums[low..upper];
    proof {
        assert(sorted(sub@)) by {
            assert forall|a: int, b: int| 0 <= a < b < sub@.len() implies #[trigger] T::le(
                sub@[a],
                sub@[b],
            ) by {
                assert(T::le(nums@[low + a], nums@[low + b]));
            }
        }
    }
    let r = binary_search_iterative(sub, target);
    match r {
        Some(i) => {
            proof {
                assert(sub@[i as int] == nums@[low + i]);
            }
            Some(low + i)
        },
        None => {
            proof {
                assert forall|m: int| 0 <= m < len implies nums@[m] != target by {
                    if nums@[m] == target {
                        if low <= m < upper {
                            assert(sub@[m - low] != target);
                        } else if m < low {
                            assert(T::le(nums@[m], nums@[low as int]));
                            T::lemma_le_antisymmetric(nums@[low as int], target);
                        } else {
                            // m lies past the window, so the doubling stopped
                            // because the element at `high` reached `target`
                            assert(high < len && upper == high + 1);
                            let hv = nums@[high as int];
                            assert(sub@[high - low] != target);
                            T::lemma_le_total(target, hv);
                            assert(T::le(target, hv));
                            assert(T::le(hv, nums@[m]));
                            T::lemma_le_antisymmetric(target, hv);
                        }
                    }
                }
            }
            None
        },
    }
}

} // verus!
