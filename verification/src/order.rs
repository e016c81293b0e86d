//! Comparison interfaces shared by the searching and sorting routines.
//!
//! The routines in `search` and `sort` are generic over the element type.
//! `EqTest` supplies an executable equality test that agrees with logical
//! equality, and `TotalOrder` supplies an executable comparison together
//! with the laws that make it a total order.  Implementations are provided
//! for the integer types and `char`.

use vstd::prelude::*;

verus! {

/// Executable equality that agrees with logical equality.
pub trait EqTest: Sized {
    fn eq_test(&self, other: &Self) -> (r: bool)
        ensures
            r == (self == other),
    ;
}

/// A total order on `Self` together with an executable comparison.
///
/// `le` is the ordering relation used in all specifications; the three
/// lemmas state that it is total, antisymmetric and transitive, and
/// `le_exec` decides it at run time.
pub trait TotalOrder: EqTest + Copy {
    spec fn le(self, other: Self) -> bool;

    proof fn lemma_le_total(a: Self, b: Self)
        ensures
            Self::le(a, b) || Self::le(b, a),
    ;

    proof fn lemma_le_antisymmetric(a: Self, b: Self)
        requires
            Self::le(a, b),
            Self::le(b, a),
        ensures
            a == b,
    ;

    proof fn lemma_le_transitive(a: Self, b: Self, c: Self)
        requires
            Self::le(a, b),
            Self::le(b, c),
        ensures
            Self::le(a, c),
    ;

    fn le_exec(&self, other: &Self) -> (r: bool)
        ensures
            r == Self::le(*self, *other),
    ;
}

/// Strict comparison derived from the trait's `le`.
pub fn lt_exec<T: TotalOrder>(a: &T, b: &T) -> (r: bool)
    ensures
        r == (T::le(*a, *b) && *a != *b),
{
    let le_ab = a.le_exec(b);
    let le_ba = b.le_exec(a);
    proof {
        T::lemma_le_total(*a, *a);
        if le_ab && le_ba {
            T::lemma_le_antisymmetric(*a, *b);
        }
    }
    le_ab && !le_ba
}

impl EqTest for i32 {
    fn eq_test(&self, other: &Self) -> bool {
        *self == *other
    }
}

impl TotalOrder for i32 {
    open spec fn le(self, other: Self) -> bool {
        self <= other
    }

    proof fn lemma_le_total(a: Self, b: Self) {
    }

    proof fn lemma_le_antisymmetric(a: Self, b: Self) {
    }

    proof fn lemma_le_transitive(a: Self, b: Self, c: Self) {
    }

    fn le_exec(&self, other: &Self) -> bool {
        *self <= *other
    }
}

impl EqTest for i64 {
    fn eq_test(&self, other: &Self) -> bool {
        *self == *other
    }
}

impl TotalOrder for i64 {
    open spec fn le(self, other: Self) -> bool {
        self <= other
    }

    proof fn lemma_le_total(a: Self, b: Self) {
    }

    proof fn lemma_le_antisymmetric(a: Self, b: Self) {
    }

    proof fn lemma_le_transitive(a: Self, b: Self, c: Self) {
    }

    fn le_exec(&self, other: &Self) -> bool {
        *self <= *other
    }
}

impl EqTest for u64 {
    fn eq_test(&self, other: &Self) -> bool {
        *self == *other
    }
}

impl TotalOrder for u64 {
    open spec fn le(self, other: Self) -> bool {
        self <= other
    }

    proof fn lemma_le_total(a: Self, b: Self) {
    }

    proof fn lemma_le_antisymmetric(a: Self, b: Self) {
    }

    proof fn lemma_le_transitive(a: Self, b: Self, c: Self) {
    }

    fn le_exec(&self, other: &Self) -> bool {
        *self <= *other
    }
}

impl EqTest for usize {
    fn eq_test(&self, other: &Self) -> bool {
        *self == *other
    }
}

impl TotalOrder for usize {
    open spec fn le(self, other: Self) -> bool {
        self <= other
    }

    proof fn lemma_le_total(a: Self, b: Self) {
    }

    proof fn lemma_le_antisymmetric(a: Self, b: Self) {
    }

    proof fn lemma_le_transitive(a: Self, b: Self, c: Self) {
    }

    fn le_exec(&self, other: &Self) -> bool {
        *self <= *other
    }
}

impl EqTest for char {
    fn eq_test(&self, other: &Self) -> bool {
        *self == *other
    }
}

impl TotalOrder for char {
    open spec fn le(self, other: Self) -> bool {
        self as u32 <= other as u32
    }

    proof fn lemma_le_total(a: Self, b: Self) {
    }

    proof fn lemma_le_antisymmetric(a: Self, b: Self) {
        vstd::utf8::char_u32_cast(a, a as u32);
        vstd::utf8::char_u32_cast(b, b as u32);
    }

    proof fn lemma_le_transitive(a: Self, b: Self, c: Self) {
    }

    fn le_exec(&self, other: &Self) -> bool {
        (*self as u32) <= (*other as u32)
    }
}

/// The sequence is ordered by `le`: every element is `le` every later one.
pub open spec fn sorted<T: TotalOrder>(s: Seq<T>) -> bool {
    forall|i: int, j: int| 0 <= i < j < s.len() ==> #[trigger] T::le(s[i], s[j])
}

/// The sequence is ordered the other way round: every element dominates
/// every later one.
pub open spec fn sorted_desc<T: TotalOrder>(s: Seq<T>) -> bool {
    forall|i: int, j: int| 0 <= i < j < s.len() ==> #[trigger] T::le(s[j], s[i])
}

/// `le` spans from `s[i]` to `s[j]` whenever every adjacent pair of the
/// stretch between them is ordered.
proof fn lemma_le_span<T: TotalOrder>(s: Seq<T>, i: int, j: int)
    requires
        forall|k: int| 0 <= k < s.len() - 1 ==> #[trigger] T::le(s[k], s[k + 1]),
        0 <= i <= j < s.len(),
    ensures
        T::le(s[i], s[j]),
    decreases j - i,
{
    if i == j {
        T::lemma_le_total(s[i], s[i]);
    } else {
        lemma_le_span(s, i, j - 1);
        assert(T::le(s[j - 1], s[j - 1 + 1]));
        T::lemma_le_transitive(s[i], s[j - 1], s[j]);
    }
}

/// A sequence whose adjacent pairs are ordered is sorted.
pub proof fn lemma_adjacent_implies_sorted<T: TotalOrder>(s: Seq<T>)
    requires
        forall|k: int| 0 <= k < s.len() - 1 ==> #[trigger] T::le(s[k], s[k + 1]),
    ensures
        sorted(s),
{
    assert forall|i: int, j: int| 0 <= i < j < s.len() implies #[trigger] T::le(s[i], s[j]) by {
        lemma_le_span(s, i, j);
    }
}

/// Every position before `cut` is `le` every later position.
pub open spec fn prefix_dominated<T: TotalOrder>(s: Seq<T>, cut: int) -> bool {
    forall|x: int, y: int| 0 <= x < y < s.len() && x < cut ==> #[trigger] T::le(s[x], s[y])
}

/// Every position at or past `cut` dominates every earlier position.
pub open spec fn suffix_dominating<T: TotalOrder>(s: Seq<T>, cut: int) -> bool {
    forall|x: int, y: int| 0 <= x < y < s.len() && cut <= y ==> #[trigger] T::le(s[x], s[y])
}

/// Swapping two positions at or past `cut` cannot break prefix domination.
pub proof fn lemma_swap_keeps_prefix_dominated<T: TotalOrder>(s: Seq<T>, i: int, j: int, cut: int)
    requires
        prefix_dominated(s, cut),
        0 <= cut,
        cut <= i < s.len(),
        cut <= j < s.len(),
    ensures
        prefix_dominated(s.update(i, s[j]).update(j, s[i]), cut),
{
    let t = s.update(i, s[j]).update(j, s[i]);
    assert forall|x: int, y: int| 0 <= x < y < t.len() && x < cut implies #[trigger] T::le(
        t[x],
        t[y],
    ) by {
        assert(t[x] == s[x]);
        if y == j {
            assert(t[y] == s[i]);
        } else if y == i {
            assert(t[y] == s[j]);
        } else {
            assert(t[y] == s[y]);
        }
    }
}

/// Swapping two positions below `cut` cannot break suffix domination.
pub proof fn lemma_swap_keeps_suffix_dominating<T: TotalOrder>(s: Seq<T>, i: int, j: int, cut: int)
    requires
        suffix_dominating(s, cut),
        0 <= i < cut,
        0 <= j < cut,
        cut <= s.len(),
    ensures
        suffix_dominating(s.update(i, s[j]).update(j, s[i]), cut),
{
    let t = s.update(i, s[j]).update(j, s[i]);
    assert forall|x: int, y: int| 0 <= x < y < t.len() && cut <= y implies #[trigger] T::le(
        t[x],
        t[y],
    ) by {
        assert(t[y] == s[y]);
        if x == j {
            assert(t[x] == s[i]);
        } else if x == i {
            assert(t[x] == s[j]);
        } else {
            assert(t[x] == s[x]);
        }
    }
}

/// Each element of `t` also occurs in `s` when the two hold the same multiset.
pub proof fn lemma_permutation_element_source<T>(s: Seq<T>, t: Seq<T>, x: int)
    requires
        s.to_multiset() == t.to_multiset(),
        0 <= x < t.len(),
    ensures
        exists|m: int| 0 <= m < s.len() && s[m] == t[x],
{
    broadcast use vstd::seq_lib::group_to_multiset_ensures;

    assert(t.contains(t[x]));
    assert(t.to_multiset().count(t[x]) > 0);
    assert(s.to_multiset().count(t[x]) > 0);
    assert(s.contains(t[x]));
    let m = choose|m: int| 0 <= m < s.len() && s[m] == t[x];
    assert(0 <= m < s.len() && s[m] == t[x]);
}

/// An upper bound on every element survives any permutation.
pub proof fn lemma_bounded_above_permutation<T: TotalOrder>(s: Seq<T>, t: Seq<T>, bound: T)
    requires
        s.to_multiset() == t.to_multiset(),
        forall|m: int| 0 <= m < s.len() ==> T::le(s[m], bound),
    ensures
        forall|m: int| 0 <= m < t.len() ==> T::le(t[m], bound),
{
    assert forall|m: int| 0 <= m < t.len() implies T::le(t[m], bound) by {
        lemma_permutation_element_source(s, t, m);
        let k = choose|k: int| 0 <= k < s.len() && s[k] == t[m];
        assert(T::le(s[k], bound));
    }
}

/// A lower bound on every element survives any permutation.
pub proof fn lemma_bounded_below_permutation<T: TotalOrder>(s: Seq<T>, t: Seq<T>, bound: T)
    requires
        s.to_multiset() == t.to_multiset(),
        forall|m: int| 0 <= m < s.len() ==> T::le(bound, s[m]),
    ensures
        forall|m: int| 0 <= m < t.len() ==> T::le(bound, t[m]),
{
    assert forall|m: int| 0 <= m < t.len() implies T::le(bound, t[m]) by {
        lemma_permutation_element_source(s, t, m);
        let k = choose|k: int| 0 <= k < s.len() && s[k] == t[m];
        assert(T::le(bound, s[k]));
    }
}

/// Suffix domination survives a permutation of the region before `cut`.
pub proof fn lemma_suffix_dominating_permuted_prefix<T: TotalOrder>(s: Seq<T>, t: Seq<T>, cut: int)
    requires
        s.len() == t.len(),
        0 <= cut <= s.len(),
        suffix_dominating(s, cut),
        s.subrange(0, cut).to_multiset() == t.subrange(0, cut).to_multiset(),
        forall|m: int| cut <= m < s.len() ==> s[m] == t[m],
    ensures
        suffix_dominating(t, cut),
{
    assert forall|x: int, y: int| 0 <= x < y < t.len() && cut <= y implies #[trigger] T::le(
        t[x],
        t[y],
    ) by {
        assert(t[y] == s[y]);
        if x >= cut {
            assert(t[x] == s[x]);
        } else {
            assert(t.subrange(0, cut)[x] == t[x]);
            lemma_permutation_element_source(s.subrange(0, cut), t.subrange(0, cut), x);
            let m = choose|m: int|
                0 <= m < s.subrange(0, cut).len() && s.subrange(0, cut)[m] == t.subrange(0, cut)[x];
            assert(s[m] == t[x]);
            assert(T::le(s[m], s[y]));
        }
    }
}

/// Exchanging two positions of a sequence leaves its multiset unchanged.
pub proof fn lemma_swap_preserves_multiset<T>(s: Seq<T>, i: int, j: int)
    requires
        0 <= i < s.len(),
        0 <= j < s.len(),
    ensures
        s.update(i, s[j]).update(j, s[i]).to_multiset() == s.to_multiset(),
{
    broadcast use vstd::seq_lib::group_seq_properties;

    let t = s.update(i, s[j]).update(j, s[i]);
    vstd::seq_lib::to_multiset_update(s, i, s[j]);
    vstd::seq_lib::to_multiset_update(s.update(i, s[j]), j, s[i]);
    assert(t.to_multiset() =~= s.to_multiset());
}

} // verus!
