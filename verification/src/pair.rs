//! The product clock: a pair of timestamps that advance independently.

use vstd::prelude::*;
use crate::lattice::Lattice;

verus! {

/// A pair of timestamps, partially ordered by the product order: one pair is
/// before another when both of its coordinates are. Two pairs may be
/// incomparable.
#[derive(Debug, Hash, Default, Clone, Copy, Eq, PartialEq, Ord, PartialOrd)]
pub struct Pair<S, T> {
    pub first: S,
    pub second: T,
}

impl<S, T> Pair<S, T> {
    /// Create a new pair.
    pub fn new(first: S, second: T) -> (r: Self)
        ensures
            r == (Pair { first, second }),
    {
        Pair { first, second }
    }
}

impl<S: Lattice, T: Lattice> Lattice for Pair<S, T> {
    open spec fn le(self, other: Self) -> bool {
        self.first.le(other.first) && self.second.le(other.second)
    }

    open spec fn sup(self, other: Self) -> Self {
        Pair { first: self.first.sup(other.first), second: self.second.sup(other.second) }
    }

    open spec fn inf(self, other: Self) -> Self {
        Pair { first: self.first.inf(other.first), second: self.second.inf(other.second) }
    }

    open spec fn bottom() -> Self {
        Pair { first: S::bottom(), second: T::bottom() }
    }

    open spec fn top() -> Self {
        Pair { first: S::top(), second: T::top() }
    }

    proof fn lemma_reflexive(a: Self) {
        S::lemma_reflexive(a.first);
        T::lemma_reflexive(a.second);
    }

    proof fn lemma_antisymmetric(a: Self, b: Self) {
        S::lemma_antisymmetric(a.first, b.first);
        T::lemma_antisymmetric(a.second, b.second);
    }

    proof fn lemma_transitive(a: Self, b: Self, c: Self) {
        S::lemma_transitive(a.first, b.first, c.first);
        T::lemma_transitive(a.second, b.second, c.second);
    }

    proof fn lemma_sup_is_upper_bound(a: Self, b: Self) {
        S::lemma_sup_is_upper_bound(a.first, b.first);
        T::lemma_sup_is_upper_bound(a.second, b.second);
    }

    proof fn lemma_sup_is_least(a: Self, b: Self, c: Self) {
        S::lemma_sup_is_least(a.first, b.first, c.first);
        T::lemma_sup_is_least(a.second, b.second, c.second);
    }

    proof fn lemma_inf_is_lower_bound(a: Self, b: Self) {
        S::lemma_inf_is_lower_bound(a.first, b.first);
        T::lemma_inf_is_lower_bound(a.second, b.second);
    }

    proof fn lemma_inf_is_greatest(a: Self, b: Self, c: Self) {
        S::lemma_inf_is_greatest(a.first, b.first, c.first);
        T::lemma_inf_is_greatest(a.second, b.second, c.second);
    }

    proof fn lemma_extremes(a: Self) {
        S::lemma_extremes(a.first);
        T::lemma_extremes(a.second);
    }

    fn less_equal(&self, other: &Self) -> (r: bool) {
        self.first.less_equal(&other.first) && self.second.less_equal(&other.second)
    }

    fn join(&self, other: &Self) -> (r: Self) {
        Pair {
            first: self.first.join(&other.first),
            second: self.second.join(&other.second),
        }
    }

    fn meet(&self, other: &Self) -> (r: Self) {
        Pair {
            first: self.first.meet(&other.first),
            second: self.second.meet(&other.second),
        }
    }

    fn minimum() -> (r: Self) {
        Pair { first: S::minimum(), second: T::minimum() }
    }

    fn maximum() -> (r: Self) {
        Pair { first: S::maximum(), second: T::maximum() }
    }
}

/// Over totally ordered coordinates, two pairs are incomparable exactly when
/// each is strictly ahead of the other in one coordinate.
pub proof fn lemma_incomparable_pairs(a: Pair<usize, usize>, b: Pair<usize, usize>)
    ensures
        (!a.le(b) && !b.le(a)) <==> ((a.first < b.first && b.second < a.second) || (b.first
            < a.first && a.second < b.second)),
{
}

} // verus!
