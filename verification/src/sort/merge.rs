//! Merge sort: sort each half recursively, then merge them through a
//! temporary buffer.

use crate::order::{lt_exec, sorted, TotalOrder};
use vstd::prelude::*;

verus! {

/// Split the slice in the middle, sort both halves, and merge.
pub fn merge_sort<T: TotalOrder>(nums: &mut [T])
    ensures
        sorted(final(nums)@),
        final(nums)@.len() == old(nums)@.len(),
        final(nums)@.to_multiset() == old(nums)@.to_multiset(),
    decreases old(nums)@.len(),
{
    broadcast use vstd::seq_lib::lemma_multiset_commutative;
    broadcast use vstd::multiset::group_multiset_axioms;

    if nums.len() > 1 {
        let len = nums.len();
        let mid = len / 2;
        let ghost s0 = nums@;
        let (a, b) = nums.split_at_mut(mid);
        merge_sort(a);
        merge_sort(b);
        proof {
            let l = final(a)@;
            let r = final(b)@;
            assert(nums@ =~= l + r);
            assert(nums@.subrange(0, mid as int) =~= l);
            assert(nums@.subrange(mid as int, len as int) =~= r);
            assert(nums@.to_multiset() =~= s0.to_multiset()) by {
                assert(s0 =~= s0.subrange(0, mid as int) + s0.subrange(mid as int, len as int));
            }
        }
        merge(nums, mid);
    }
}

/// Merge the two sorted halves of the slice, separated at `mid`, back into
/// the slice through a temporary vector.
fn merge<T: TotalOrder>(nums: &mut [T], mid: usize)
    requires
        mid <= old(nums)@.len(),
        sorted(old(nums)@.subrange(0, mid as int)),
        sorted(old(nums)@.subrange(mid as int, old(nums)@.len() as int)),
    ensures
        sorted(final(nums)@),
        final(nums)@.len() == old(nums)@.len(),
        final(nums)@.to_multiset() == old(nums)@.to_multiset(),
{
    broadcast use vstd::seq_lib::group_to_multiset_ensures;
    broadcast use vstd::seq_lib::lemma_multiset_commutative;
    broadcast use vstd::multiset::group_multiset_axioms;

    let len = nums.len();
    let mut i: usize = 0;
    let mut k: usize = mid;
    let mut temp: Vec<T> = Vec::new();
    proof {
        assert(temp@.to_multiset() =~= (nums@.subrange(0, 0) + nums@.subrange(
            mid as int,
            mid as int,
        )).to_multiset());
    }
    while i < mid && k < len
        invariant
            len == nums@.len(),
            mid <= len,
            i <= mid,
            mid <= k <= len,
            nums@ == old(nums)@,
            sorted(nums@.subrange(0, mid as int)),
            sorted(nums@.subrange(mid as int, len as int)),
            temp@.len() == i + k - mid,
            sorted(temp@),
            temp@.to_multiset() == (nums@.subrange(0, i as int) + nums@.subrange(
                mid as int,
                k as int,
            )).to_multiset(),
            i < mid ==> forall|m: int|
                0 <= m < temp@.len() ==> #[trigger] T::le(temp@[m], nums@[i as int]),
            k < len ==> forall|m: int|
                0 <= m < temp@.len() ==> #[trigger] T::le(temp@[m], nums@[k as int]),
        decreases (mid - i) + (len - k),
    {
        let ghost t0 = temp@;
        if lt_exec(&nums[i], &nums[k]) {
            let x = nums[i];
            temp.push(x);
            proof {
                assert(temp@ == t0.push(x));
                assert(nums@.subrange(0, i as int + 1) =~= nums@.subrange(0, i as int).push(x));
                assert(temp@.to_multiset() =~= (nums@.subrange(0, i as int + 1) + nums@.subrange(
                    mid as int,
                    k as int,
                )).to_multiset()) by {
                    let pa = nums@.subrange(0, i as int);
                    let pb = nums@.subrange(mid as int, k as int);
                    vstd::seq_lib::to_multiset_build(t0, x);
                    vstd::seq_lib::to_multiset_build(pa, x);
                    vstd::seq_lib::lemma_multiset_commutative(pa.push(x), pb);
                    vstd::seq_lib::lemma_multiset_commutative(pa, pb);
                    assert(temp@.to_multiset() =~= t0.to_multiset().insert(x));
                    assert((pa.push(x) + pb).to_multiset() =~= (pa + pb).to_multiset().insert(x));
                }
                assert forall|m: int| 0 <= m < temp@.len() - 1 implies #[trigger] T::le(
                    temp@[m],
                    temp@[temp@.len() - 1],
                ) by {
                    assert(T::le(t0[m], nums@[i as int]));
                }
                assert(sorted(temp@)) by {
                    assert forall|p: int, q: int|
                        0 <= p < q < temp@.len() implies #[trigger] T::le(temp@[p], temp@[q]) by {
                        if q < temp@.len() - 1 {
                            assert(T::le(t0[p], t0[q]));
                        } else {
                            assert(T::le(temp@[p], temp@[temp@.len() - 1]));
                        }
                    }
                }
                if i + 1 < mid {
                    assert forall|m: int| 0 <= m < temp@.len() implies #[trigger] T::le(
                        temp@[m],
                        nums@[i as int + 1],
                    ) by {
                        let ss = nums@.subrange(0, mid as int);
                        assert(T::le(ss[i as int], ss[i as int + 1]));
                        if m < temp@.len() - 1 {
                            assert(T::le(t0[m], nums@[i as int]));
                            T::lemma_le_transitive(temp@[m], nums@[i as int], nums@[i as int + 1]);
                        }
                    }
                }
                assert forall|m: int| 0 <= m < temp@.len() implies #[trigger] T::le(
                    temp@[m],
                    nums@[k as int],
                ) by {
                    if m < temp@.len() - 1 {
                        assert(T::le(t0[m], nums@[k as int]));
                    }
                }
            }
            i += 1;
        } else {
            let x = nums[k];
            proof {
                let a = nums@[i as int];
                let b = nums@[k as int];
                T::lemma_le_total(b, a);
                T::lemma_le_total(b, b);
                assert(T::le(b, a));
            }
            temp.push(x);
            proof {
                assert(temp@ == t0.push(x));
                assert(nums@.subrange(mid as int, k as int + 1) =~= nums@.subrange(
                    mid as int,
                    k as int,
                ).push(x));
                assert(temp@.to_multiset() =~= (nums@.subrange(0, i as int) + nums@.subrange(
                    mid as int,
                    k as int + 1,
                )).to_multiset()) by {
                    let pa = nums@.subrange(0, i as int);
                    let pb = nums@.subrange(mid as int, k as int);
                    vstd::seq_lib::to_multiset_build(t0, x);
                    vstd::seq_lib::to_multiset_build(pb, x);
                    vstd::seq_lib::lemma_multiset_commutative(pa, pb.push(x));
                    vstd::seq_lib::lemma_multiset_commutative(pa, pb);
                    assert(temp@.to_multiset() =~= t0.to_multiset().insert(x));
                    assert((pa + pb.push(x)).to_multiset() =~= (pa + pb).to_multiset().insert(x));
                }
                assert forall|m: int| 0 <= m < temp@.len() - 1 implies #[trigger] T::le(
                    temp@[m],
                    temp@[temp@.len() - 1],
                ) by {
                    assert(T::le(t0[m], nums@[k as int]));
                }
                assert(sorted(temp@)) by {
                    assert forall|p: int, q: int|
                        0 <= p < q < temp@.len() implies #[trigger] T::le(temp@[p], temp@[q]) by {
                        if q < temp@.len() - 1 {
                            assert(T::le(t0[p], t0[q]));
                        } else {
                            assert(T::le(temp@[p], temp@[temp@.len() - 1]));
                        }
                    }
                }
                if k + 1 < len {
                    assert forall|m: int| 0 <= m < temp@.len() implies #[trigger] T::le(
                        temp@[m],
                        nums@[k as int + 1],
                    ) by {
                        let ss = nums@.subrange(mid as int, len as int);
                        assert(T::le(ss[k - mid], ss[k - mid + 1]));
                        if m < temp@.len() - 1 {
                            assert(T::le(t0[m], nums@[k as int]));
                            T::lemma_le_transitive(temp@[m], nums@[k as int], nums@[k as int + 1]);
                        }
                    }
                }
                assert forall|m: int| 0 <= m < temp@.len() implies #[trigger] T::le(
                    temp@[m],
                    nums@[i as int],
                ) by {
                    if m < temp@.len() - 1 {
                        assert(T::le(t0[m], nums@[i as int]));
                    }
                }
            }
            k += 1;
        }
    }
    // drain whichever half still has elements
    while i < mid
        invariant
            len == nums@.len(),
            mid <= len,
            i <= mid,
            mid <= k <= len,
            i < mid ==> k == len,
            nums@ == old(nums)@,
            sorted(nums@.subrange(0, mid as int)),
            sorted(nums@.subrange(mid as int, len as int)),
            temp@.len() == i + k - mid,
            sorted(temp@),
            temp@.to_multiset() == (nums@.subrange(0, i as int) + nums@.subrange(
                mid as int,
                k as int,
            )).to_multiset(),
            i < mid ==> forall|m: int|
                0 <= m < temp@.len() ==> #[trigger] T::le(temp@[m], nums@[i as int]),
            k < len ==> forall|m: int|
                0 <= m < temp@.len() ==> #[trigger] T::le(temp@[m], nums@[k as int]),
        decreases mid - i,
    {
        let ghost t0 = temp@;
        let x = nums[i];
        temp.push(x);
        proof {
            assert(temp@ == t0.push(x));
            assert(nums@.subrange(0, i as int + 1) =~= nums@.subrange(0, i as int).push(x));
            assert(temp@.to_multiset() =~= (nums@.subrange(0, i as int + 1) + nums@.subrange(
                mid as int,
                k as int,
            )).to_multiset()) by {
                let pa = nums@.subrange(0, i as int);
                let pb = nums@.subrange(mid as int, k as int);
                vstd::seq_lib::to_multiset_build(t0, x);
                vstd::seq_lib::to_multiset_build(pa, x);
                vstd::seq_lib::lemma_multiset_commutative(pa.push(x), pb);
                vstd::seq_lib::lemma_multiset_commutative(pa, pb);
                assert(temp@.to_multiset() =~= t0.to_multiset().insert(x));
                assert((pa.push(x) + pb).to_multiset() =~= (pa + pb).to_multiset().insert(x));
            }
            assert(sorted(temp@)) by {
                assert forall|p: int, q: int|
                    0 <= p < q < temp@.len() implies #[trigger] T::le(temp@[p], temp@[q]) by {
                    if q < temp@.len() - 1 {
                        assert(T::le(t0[p], t0[q]));
                    } else {
                        assert(T::le(t0[p], nums@[i as int]));
                    }
                }
            }
            if i + 1 < mid {
                assert forall|m: int| 0 <= m < temp@.len() implies #[trigger] T::le(
                    temp@[m],
                    nums@[i as int + 1],
                ) by {
                    let ss = nums@.subrange(0, mid as int);
                    assert(T::le(ss[i as int], ss[i as int + 1]));
                    if m < temp@.len() - 1 {
                        assert(T::le(t0[m], nums@[i as int]));
                        T::lemma_le_transitive(temp@[m], nums@[i as int], nums@[i as int + 1]);
                    } else {
                        T::lemma_le_total(nums@[i as int], nums@[i as int]);
                    }
                }
            }
        }
        i += 1;
    }
    while k < len
        invariant
            len == nums@.len(),
            mid <= len,
            i == mid,
            mid <= k <= len,
            nums@ == old(nums)@,
            sorted(nums@.subrange(mid as int, len as int)),
            temp@.len() == i + k - mid,
            sorted(temp@),
            temp@.to_multiset() == (nums@.subrange(0, i as int) + nums@.subrange(
                mid as int,
                k as int,
            )).to_multiset(),
            k < len ==> forall|m: int|
                0 <= m < temp@.len() ==> #[trigger] T::le(temp@[m], nums@[k as int]),
        decreases len - k,
    {
        let ghost t0 = temp@;
        let x = nums[k];
        temp.push(x);
        proof {
            assert(temp@ == t0.push(x));
            assert(nums@.subrange(mid as int, k as int + 1) =~= nums@.subrange(
                mid as int,
                k as int,
            ).push(x));
            assert(temp@.to_multiset() =~= (nums@.subrange(0, i as int) + nums@.subrange(
                mid as int,
                k as int + 1,
            )).to_multiset()) by {
                let pa = nums@.subrange(0, i as int);
                let pb = nums@.subrange(mid as int, k as int);
                vstd::seq_lib::to_multiset_build(t0, x);
                vstd::seq_lib::to_multiset_build(pb, x);
                vstd::seq_lib::lemma_multiset_commutative(pa, pb.push(x));
                vstd::seq_lib::lemma_multiset_commutative(pa, pb);
                assert(temp@.to_multiset() =~= t0.to_multiset().insert(x));
                assert((pa + pb.push(x)).to_multiset() =~= (pa + pb).to_multiset().insert(x));
            }
            assert(sorted(temp@)) by {
                assert forall|p: int, q: int|
                    0 <= p < q < temp@.len() implies #[trigger] T::le(temp@[p], temp@[q]) by {
                    if q < temp@.len() - 1 {
                        assert(T::le(t0[p], t0[q]));
                    } else {
                        assert(T::le(t0[p], nums@[k as int]));
                    }
                }
            }
            if k + 1 < len {
                assert forall|m: int| 0 <= m < temp@.len() implies #[trigger] T::le(
                    temp@[m],
                    nums@[k as int + 1],
                ) by {
                    let ss = nums@.subrange(mid as int, len as int);
                    assert(T::le(ss[k - mid], ss[k - mid + 1]));
                    if m < temp@.len() - 1 {
                        assert(T::le(t0[m], nums@[k as int]));
                        T::lemma_le_transitive(temp@[m], nums@[k as int], nums@[k as int + 1]);
                    } else {
                        T::lemma_le_total(nums@[k as int], nums@[k as int]);
                    }
                }
            }
        }
        k += 1;
    }
    proof {
        assert(old(nums)@ =~= nums@.subrange(0, mid as int) + nums@.subrange(mid as int, len as int));
    }
    // write the merged order back into the slice
    let ghost tv = temp@;
    let mut j: usize = 0;
    while j < len
        invariant
            len == nums@.len(),
            j <= len,
            temp@ == tv,
            tv.len() == len,
            forall|m: int| 0 <= m < j ==> nums@[m] == tv[m],
            forall|m: int| j <= m < len ==> nums@[m] == old(nums)@[m],
        decreases len - j,
    {
        let v = temp[j];
        nums[j] = v;
        j += 1;
    }
    proof {
        assert(nums@ =~= tv);
    }
}

} // verus!
