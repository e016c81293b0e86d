//! Heap sort: build a max-heap in place, then repeatedly move the root to
//! the end of the shrinking heap region and repair the heap.

use crate::order::{
    lemma_suffix_dominating_permuted_prefix, lemma_swap_preserves_multiset, lt_exec, sorted,
    suffix_dominating, TotalOrder,
};
use crate::sort::swap_at;
use vstd::prelude::*;

verus! {

/// The max-heap condition at one node: each child inside the region is
/// `le` its parent.
spec fn heap_node<T: TotalOrder>(s: Seq<T>, p: int, max: int) -> bool {
    &&& (2 * p + 1 < max ==> T::le(s[2 * p + 1], s[p]))
    &&& (2 * p + 2 < max ==> T::le(s[2 * p + 2], s[p]))
}

/// `p` is a downward path of parent-to-child steps starting at `lo`, and
/// every position inside `[lo, max)` where `t` differs from `s` lies on
/// it: the repair walked one root-to-leaf line and touched nothing else.
spec fn changes_on_path<T>(s: Seq<T>, t: Seq<T>, p: Seq<int>, lo: int, max: int) -> bool {
    &&& p.len() > 0
    &&& p[0] == lo
    &&& forall|k: int|
        0 <= k < p.len() - 1 ==> (#[trigger] p[k + 1]) == 2 * p[k] + 1 || p[k + 1] == 2 * p[k] + 2
    &&& forall|k: int| 0 <= k < p.len() ==> lo <= #[trigger] p[k] < max
    &&& forall|m: int| lo <= m < max && !p.contains(m) ==> #[trigger] t[m] == s[m]
}

/// In a region that satisfies the heap condition everywhere, the root
/// dominates every position.
proof fn lemma_heap_root_max<T: TotalOrder>(s: Seq<T>, max: int, k: int)
    requires
        max <= s.len(),
        forall|p: int| 0 <= p < max ==> heap_node(s, p, max),
        0 <= k < max,
    ensures
        T::le(s[k], s[0]),
    decreases k,
{
    if k == 0 {
        T::lemma_le_total(s[0], s[0]);
    } else {
        let p = (k - 1) / 2;
        assert(k == 2 * p + 1 || k == 2 * p + 2);
        assert(heap_node(s, p, max));
        assert(T::le(s[k], s[p]));
        lemma_heap_root_max(s, max, p);
        T::lemma_le_transitive(s[k], s[p], s[0]);
    }
}

/// Build a max-heap over the whole slice, then repeatedly swap the root
/// with the last element of the heap region and sift the new root down.
pub fn heap_sort<T: TotalOrder>(nums: &mut [T])
    ensures
        sorted(final(nums)@),
        final(nums)@.len() == old(nums)@.len(),
        final(nums)@.to_multiset() == old(nums)@.to_multiset(),
{
    let len = nums.len();
    if len <= 1 {
        return ;
    }
    // build the heap from the last parent upwards
    let mut i: usize = len / 2;
    while i > 0
        invariant
            len == nums@.len(),
            i <= len / 2,
            nums@.to_multiset() == old(nums)@.to_multiset(),
            forall|p: int| i <= p < len ==> heap_node(nums@, p, len as int),
        decreases i,
    {
        i -= 1;
        sift_down(nums, i, len);
    }
    // extract the maximum one position at a time
    let mut end: usize = len;
    while end > 1
        invariant
            len == nums@.len(),
            1 <= end <= len,
            nums@.to_multiset() == old(nums)@.to_multiset(),
            forall|p: int| 0 <= p < end ==> heap_node(nums@, p, end as int),
            suffix_dominating(nums@, end as int),
        decreases end,
    {
        end -= 1;
        let ghost s0 = nums@;
        proof {
            assert forall|k: int| 0 <= k < end + 1 implies T::le(s0[k], s0[0]) by {
                lemma_heap_root_max(s0, end as int + 1, k);
            }
        }
        swap_at(nums, 0, end);
        let ghost s1 = nums@;
        proof {
            assert forall|p: int| 0 < p < end implies heap_node(s1, p, end as int) by {
                assert(heap_node(s0, p, end as int + 1));
                assert(s1[p] == s0[p]);
                if 2 * p + 1 < end {
                    assert(s1[2 * p + 1] == s0[2 * p + 1]);
                }
                if 2 * p + 2 < end {
                    assert(s1[2 * p + 2] == s0[2 * p + 2]);
                }
            }
            assert forall|x: int, y: int|
                0 <= x < y < s1.len() && end <= y implies #[trigger] T::le(s1[x], s1[y]) by {
                if y == end {
                    assert(s1[y] == s0[0]);
                    if x == 0 {
                        assert(s1[x] == s0[end as int]);
                        assert(T::le(s0[end as int], s0[0]));
                    } else {
                        assert(s1[x] == s0[x]);
                        assert(T::le(s0[x], s0[0]));
                    }
                } else {
                    assert(s1[y] == s0[y]);
                    if x == 0 {
                        assert(s1[x] == s0[end as int]);
                        assert(T::le(s0[end as int], s0[y]));
                    } else if x == end {
                        assert(s1[x] == s0[0]);
                        assert(T::le(s0[0], s0[y]));
                    } else {
                        assert(s1[x] == s0[x]);
                        assert(T::le(s0[x], s0[y]));
                    }
                }
            }
            assert(suffix_dominating(s1, end as int));
        }
        sift_down(nums, 0, end);
        proof {
            lemma_suffix_dominating_permuted_prefix(s1, nums@, end as int);
        }
    }
    proof {
        assert forall|x: int, y: int| 0 <= x < y < nums@.len() implies #[trigger] T::le(
            nums@[x],
            nums@[y],
        ) by {
            assert(suffix_dominating(nums@, 1));
        }
    }
}

/// Restore the heap condition in `[parent, max)` by walking the value at
/// `parent` down, swapping it with its larger child until neither child is
/// larger; everything at or past `max`, and before `parent`, is untouched.
fn sift_down<T: TotalOrder>(nums: &mut [T], parent: usize, max: usize)
    requires
        parent < max,
        max <= old(nums)@.len(),
        forall|p: int| parent < p < max ==> heap_node(old(nums)@, p, max as int),
    ensures
        final(nums)@.len() == old(nums)@.len(),
        forall|p: int| parent <= p < max ==> heap_node(final(nums)@, p, max as int),
        forall|m: int| 0 <= m < parent ==> final(nums)@[m] == old(nums)@[m],
        forall|m: int| max <= m < old(nums)@.len() ==> final(nums)@[m] == old(nums)@[m],
        final(nums)@.subrange(0, max as int).to_multiset() == old(nums)@.subrange(
            0,
            max as int,
        ).to_multiset(),
        final(nums)@.to_multiset() == old(nums)@.to_multiset(),
        exists|p: Seq<int>|
            changes_on_path(old(nums)@, final(nums)@, p, parent as int, max as int),
{
    let len = nums.len();
    let mut cur = parent;
    let ghost mut path: Seq<int> = seq![parent as int];
    let mut done = false;
    while !done && cur < max / 2
        invariant
            len == nums@.len(),
            parent <= cur < max,
            max <= len,
            nums@.to_multiset() == old(nums)@.to_multiset(),
            nums@.subrange(0, max as int).to_multiset() == old(nums)@.subrange(
                0,
                max as int,
            ).to_multiset(),
            forall|m: int| 0 <= m < parent ==> nums@[m] == old(nums)@[m],
            forall|m: int| max <= m < len ==> nums@[m] == old(nums)@[m],
            !done ==> forall|p: int|
                parent <= p < max && p != cur ==> heap_node(nums@, p, max as int),
            !done && cur != parent ==> {
                let q = (cur as int - 1) / 2;
                &&& (2 * cur + 1 < max ==> T::le(nums@[2 * cur as int + 1], nums@[q]))
                &&& (2 * cur + 2 < max ==> T::le(nums@[2 * cur as int + 2], nums@[q]))
            },
            done ==> forall|p: int| parent <= p < max ==> heap_node(nums@, p, max as int),
            path.len() > 0,
            path[0] == parent as int,
            path.last() == cur as int,
            forall|k: int|
                0 <= k < path.len() - 1 ==> (#[trigger] path[k + 1]) == 2 * path[k] + 1 || path[k
                    + 1] == 2 * path[k] + 2,
            forall|k: int| 0 <= k < path.len() ==> parent <= #[trigger] path[k] < max,
            forall|m: int|
                parent <= m < max && !path.contains(m) ==> #[trigger] nums@[m] == old(nums)@[m],
        decreases 2 * (max as int - cur as int) + (if done { 0int } else { 1int }),
    {
        let left = 2 * cur + 1;
        let right = left + 1;
        let mut largest = cur;
        if lt_exec(&nums[largest], &nums[left]) {
            largest = left;
        }
        if right < max && lt_exec(&nums[largest], &nums[right]) {
            largest = right;
        }
        if largest == cur {
            proof {
                let s = nums@;
                let c = cur as int;
                T::lemma_le_total(s[2 * c + 1], s[c]);
                if 2 * c + 2 < max {
                    T::lemma_le_total(s[2 * c + 2], s[c]);
                }
                assert(heap_node(s, c, max as int));
                assert forall|p: int| parent <= p < max implies heap_node(s, p, max as int) by {
                }
            }
            done = true;
        } else {
            let ghost s0 = nums@;
            let ghost c = cur as int;
            let ghost g = largest as int;
            proof {
                // the chosen child exceeds the parent and dominates its sibling
                let lval = s0[2 * c + 1];
                let cval = s0[c];
                if largest == left {
                    assert(T::le(cval, lval));
                    if right < max {
                        let rval = s0[2 * c + 2];
                        T::lemma_le_total(rval, lval);
                        assert(T::le(rval, lval));
                    }
                } else {
                    let rval = s0[2 * c + 2];
                    if T::le(cval, lval) && cval != lval {
                        assert(T::le(lval, rval));
                        T::lemma_le_transitive(cval, lval, rval);
                    } else {
                        T::lemma_le_total(lval, cval);
                        assert(T::le(lval, cval));
                        T::lemma_le_transitive(lval, cval, rval);
                    }
                    assert(T::le(cval, rval));
                    assert(T::le(lval, rval));
                }
            }
            swap_at(nums, cur, largest);
            proof {
                let s1 = nums@;
                assert(s1[c] == s0[g] && s1[g] == s0[c]);
                // the sibling of the chosen child is below the new parent
                assert(2 * c + 1 < max ==> T::le(s1[2 * c + 1], s1[c])) by {
                    if g == 2 * c + 1 {
                    } else {
                        assert(s1[2 * c + 1] == s0[2 * c + 1]);
                    }
                }
                assert(2 * c + 2 < max ==> T::le(s1[2 * c + 2], s1[c])) by {
                    if 2 * c + 2 < max {
                        if g == 2 * c + 2 {
                        } else {
                            assert(s1[2 * c + 2] == s0[2 * c + 2]);
                        }
                    }
                }
                assert(heap_node(s1, c, max as int));
                assert forall|p: int|
                    parent <= p < max && p != g implies heap_node(s1, p, max as int) by {
                    if p == c {
                    } else {
                        assert(heap_node(s0, p, max as int));
                        assert(s1[p] == s0[p]);
                        if 2 * p + 1 < max {
                            if 2 * p + 1 == c {
                                // the edge into the repaired position
                                assert(cur != parent);
                                assert(p == (c - 1) / 2);
                                assert(T::le(s0[g], s0[p]));
                            } else {
                                assert(s1[2 * p + 1] == s0[2 * p + 1]);
                            }
                        }
                        if 2 * p + 2 < max {
                            if 2 * p + 2 == c {
                                assert(cur != parent);
                                assert(p == (c - 1) / 2);
                                assert(T::le(s0[g], s0[p]));
                            } else {
                                assert(s1[2 * p + 2] == s0[2 * p + 2]);
                            }
                        }
                    }
                }
                // the grandchildren stay below the value that moved down
                assert((g - 1) / 2 == c);
                if 2 * g + 1 < max {
                    assert(heap_node(s0, g, max as int));
                    assert(s1[2 * g + 1] == s0[2 * g + 1]);
                    assert(T::le(s0[2 * g + 1], s0[g]));
                    assert(T::le(s1[2 * g + 1], s1[c]));
                }
                if 2 * g + 2 < max {
                    assert(heap_node(s0, g, max as int));
                    assert(s1[2 * g + 2] == s0[2 * g + 2]);
                    assert(T::le(s0[2 * g + 2], s0[g]));
                    assert(T::le(s1[2 * g + 2], s1[c]));
                }
                // multiset of the heap region is preserved
                assert(s1.subrange(0, max as int) =~= s0.subrange(0, max as int).update(
                    c,
                    s0.subrange(0, max as int)[g],
                ).update(g, s0.subrange(0, max as int)[c]));
                lemma_swap_preserves_multiset(s0.subrange(0, max as int), c, g);
                // extend the recorded path by the child that was entered
                let path0 = path;
                path = path.push(g);
                assert(path[path.len() - 1] == g);
                assert(path.contains(g));
                assert(path0[path0.len() - 1] == c);
                assert forall|k: int|
                    0 <= k < path.len() - 1 implies (#[trigger] path[k + 1]) == 2 * path[k] + 1
                    || path[k + 1] == 2 * path[k] + 2 by {
                    if k < path0.len() - 1 {
                        assert(path[k] == path0[k]);
                        assert(path[k + 1] == path0[k + 1]);
                    } else {
                        assert(path[k] == c);
                        assert(path[k + 1] == g);
                    }
                }
                assert forall|k: int| 0 <= k < path.len() implies parent <= #[trigger] path[k]
                    < max by {
                    if k < path0.len() {
                        assert(path[k] == path0[k]);
                    } else {
                        assert(path[k] == g);
                    }
                }
                assert forall|m: int|
                    parent <= m < max && !path.contains(m) implies #[trigger] s1[m] == old(
                    nums,
                )@[m] by {
                    if path0.contains(m) {
                        let k = choose|k: int| 0 <= k < path0.len() && path0[k] == m;
                        assert(path[k] == m);
                        assert(path.contains(m));
                    }
                    assert(!path0.contains(m));
                    assert(path0.contains(c));
                    assert(m != c && m != g);
                    assert(s1[m] == s0[m]);
                }
            }
            cur = largest;
        }
    }
    proof {
        if !done {
            let s = nums@;
            let c = cur as int;
            assert(2 * c + 1 >= max);
            assert(heap_node(s, c, max as int));
            assert forall|p: int| parent <= p < max implies heap_node(s, p, max as int) by {
            }
        }
        assert(changes_on_path(old(nums)@, nums@, path, parent as int, max as int));
    }
}

} // verus!
