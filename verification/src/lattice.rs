//! Bounded lattices: partially ordered timestamps with least upper bounds,
//! greatest lower bounds, a least and a greatest element.

use vstd::prelude::*;

verus! {

/// A partially ordered type with a join, a meet, a least and a greatest element.
///
/// The order is `le`; the remaining spec functions name the results of the
/// executable operations. An implementation proves that `le` is a partial
/// order, that `sup` is the least upper bound, that `inf` is the greatest
/// lower bound, and that `bottom` and `top` bound every element.
pub trait Lattice: Sized + Copy {
    /// The partial order.
    spec fn le(self, other: Self) -> bool;

    /// The least upper bound of two elements.
    spec fn sup(self, other: Self) -> Self;

    /// The greatest lower bound of two elements.
    spec fn inf(self, other: Self) -> Self;

    /// The least element.
    spec fn bottom() -> Self;

    /// The greatest element.
    spec fn top() -> Self;

    proof fn lemma_reflexive(a: Self)
        ensures
            a.le(a),
    ;

    proof fn lemma_antisymmetric(a: Self, b: Self)
        requires
            a.le(b),
            b.le(a),
        ensures
            a == b,
    ;

    proof fn lemma_transitive(a: Self, b: Self, c: Self)
        requires
            a.le(b),
            b.le(c),
        ensures
            a.le(c),
    ;

    proof fn lemma_sup_is_upper_bound(a: Self, b: Self)
        ensures
            a.le(a.sup(b)),
            b.le(a.sup(b)),
    ;

    proof fn lemma_sup_is_least(a: Self, b: Self, c: Self)
        requires
            a.le(c),
            b.le(c),
        ensures
            a.sup(b).le(c),
    ;

    proof fn lemma_inf_is_lower_bound(a: Self, b: Self)
        ensures
            a.inf(b).le(a),
            a.inf(b).le(b),
    ;

    proof fn lemma_inf_is_greatest(a: Self, b: Self, c: Self)
        requires
            c.le(a),
            c.le(b),
        ensures
            c.le(a.inf(b)),
    ;

    proof fn lemma_extremes(a: Self)
        ensures
            Self::bottom().le(a),
            a.le(Self::top()),
    ;

    /// Whether `self` is before or equal to `other`.
    fn less_equal(&self, other: &Self) -> (r: bool)
        ensures
            r == self.le(*other),
    ;

    /// The least element that is after or equal to both arguments.
    fn join(&self, other: &Self) -> (r: Self)
        ensures
            r == self.sup(*other),
    ;

    /// The greatest element that is before or equal to both arguments.
    fn meet(&self, other: &Self) -> (r: Self)
        ensures
            r == self.inf(*other),
    ;

    /// The least element of the type.
    fn minimum() -> (r: Self)
        ensures
            r == Self::bottom(),
    ;

    /// The greatest element of the type.
    fn maximum() -> (r: Self)
        ensures
            r == Self::top(),
    ;
}

/// `a` is strictly before `b`.
pub open spec fn lt<L: Lattice>(a: L, b: L) -> bool {
    a.le(b) && a != b
}

/// Whether `a` is strictly before `b`.
pub fn less_than<L: Lattice>(a: &L, b: &L) -> (r: bool)
    ensures
        r == lt(*a, *b),
{
    let forth = a.less_equal(b);
    let back = b.less_equal(a);
    proof {
        if forth && back {
            L::lemma_antisymmetric(*a, *b);
        }
        if *a == *b {
            L::lemma_reflexive(*a);
        }
    }
    forth && !back
}

impl Lattice for usize {
    open spec fn le(self, other: Self) -> bool {
        self <= other
    }

    open spec fn sup(self, other: Self) -> Self {
        if self <= other {
            other
        } else {
            self
        }
    }

    open spec fn inf(self, other: Self) -> Self {
        if self <= other {
            self
        } else {
            other
        }
    }

    open spec fn bottom() -> Self {
        0
    }

    open spec fn top() -> Self {
        usize::MAX
    }

    proof fn lemma_reflexive(a: Self) {
    }

    proof fn lemma_antisymmetric(a: Self, b: Self) {
    }

    proof fn lemma_transitive(a: Self, b: Self, c: Self) {
    }

    proof fn lemma_sup_is_upper_bound(a: Self, b: Self) {
    }

    proof fn lemma_sup_is_least(a: Self, b: Self, c: Self) {
    }

    proof fn lemma_inf_is_lower_bound(a: Self, b: Self) {
    }

    proof fn lemma_inf_is_greatest(a: Self, b: Self, c: Self) {
    }

    proof fn lemma_extremes(a: Self) {
    }

    fn less_equal(&self, other: &Self) -> (r: bool) {
        *self <= *other
    }

    fn join(&self, other: &Self) -> (r: Self) {
        if *self <= *other {
            *other
        } else {
            *self
        }
    }

    fn meet(&self, other: &Self) -> (r: Self) {
        if *self <= *other {
            *self
        } else {
            *other
        }
    }

    fn minimum() -> (r: Self) {
        0
    }

    fn maximum() -> (r: Self) {
        usize::MAX
    }
}

impl Lattice for u64 {
    open spec fn le(self, other: Self) -> bool {
        self <= other
    }

    open spec fn sup(self, other: Self) -> Self {
        if self <= other {
            other
        } else {
            self
        }
    }

    open spec fn inf(self, other: Self) -> Self {
        if self <= other {
            self
        } else {
            other
        }
    }

    open spec fn bottom() -> Self {
        0
    }

    open spec fn top() -> Self {
        u64::MAX
    }

    proof fn lemma_reflexive(a: Self) {
    }

    proof fn lemma_antisymmetric(a: Self, b: Self) {
    }

    proof fn lemma_transitive(a: Self, b: Self, c: Self) {
    }

    proof fn lemma_sup_is_upper_bound(a: Self, b: Self) {
    }

    proof fn lemma_sup_is_least(a: Self, b: Self, c: Self) {
    }

    proof fn lemma_inf_is_lower_bound(a: Self, b: Self) {
    }

    proof fn lemma_inf_is_greatest(a: Self, b: Self, c: Self) {
    }

    proof fn lemma_extremes(a: Self) {
    }

    fn less_equal(&self, other: &Self) -> (r: bool) {
        *self <= *other
    }

    fn join(&self, other: &Self) -> (r: Self) {
        if *self <= *other {
            *other
        } else {
            *self
        }
    }

    fn meet(&self, other: &Self) -> (r: Self) {
        if *self <= *other {
            *self
        } else {
            *other
        }
    }

    fn minimum() -> (r: Self) {
        0
    }

    fn maximum() -> (r: Self) {
        u64::MAX
    }
}

/// Join is commutative.
pub proof fn lemma_join_commutative<L: Lattice>(a: L, b: L)
    ensures
        a.sup(b) == b.sup(a),
{
    L::lemma_sup_is_upper_bound(a, b);
    L::lemma_sup_is_upper_bound(b, a);
    L::lemma_sup_is_least(a, b, b.sup(a));
    L::lemma_sup_is_least(b, a, a.sup(b));
    L::lemma_antisymmetric(a.sup(b), b.sup(a));
}

/// Join is associative.
pub proof fn lemma_join_associative<L: Lattice>(a: L, b: L, c: L)
    ensures
        a.sup(b).sup(c) == a.sup(b.sup(c)),
{
    let left = a.sup(b).sup(c);
    let right = a.sup(b.sup(c));
    L::lemma_sup_is_upper_bound(a, b);
    L::lemma_sup_is_upper_bound(a.sup(b), c);
    L::lemma_sup_is_upper_bound(b, c);
    L::lemma_sup_is_upper_bound(a, b.sup(c));
    // Each of a, b, c is before `right`, so `left` is.
    L::lemma_transitive(b, b.sup(c), right);
    L::lemma_transitive(c, b.sup(c), right);
    L::lemma_sup_is_least(a, b, right);
    L::lemma_sup_is_least(a.sup(b), c, right);
    // Each of a, b, c is before `left`, so `right` is.
    L::lemma_transitive(a, a.sup(b), left);
    L::lemma_transitive(b, a.sup(b), left);
    L::lemma_sup_is_least(b, c, left);
    L::lemma_sup_is_least(a, b.sup(c), left);
    L::lemma_antisymmetric(left, right);
}

/// Join is idempotent.
pub proof fn lemma_join_idempotent<L: Lattice>(a: L)
    ensures
        a.sup(a) == a,
{
    L::lemma_reflexive(a);
    L::lemma_sup_is_upper_bound(a, a);
    L::lemma_sup_is_least(a, a, a);
    L::lemma_antisymmetric(a.sup(a), a);
}

/// Meet is commutative.
pub proof fn lemma_meet_commutative<L: Lattice>(a: L, b: L)
    ensures
        a.inf(b) == b.inf(a),
{
    L::lemma_inf_is_lower_bound(a, b);
    L::lemma_inf_is_lower_bound(b, a);
    L::lemma_inf_is_greatest(a, b, b.inf(a));
    L::lemma_inf_is_greatest(b, a, a.inf(b));
    L::lemma_antisymmetric(a.inf(b), b.inf(a));
}

/// Meet is associative.
pub proof fn lemma_meet_associative<L: Lattice>(a: L, b: L, c: L)
    ensures
        a.inf(b).inf(c) == a.inf(b.inf(c)),
{
    let left = a.inf(b).inf(c);
    let right = a.inf(b.inf(c));
    L::lemma_inf_is_lower_bound(a, b);
    L::lemma_inf_is_lower_bound(a.inf(b), c);
    L::lemma_inf_is_lower_bound(b, c);
    L::lemma_inf_is_lower_bound(a, b.inf(c));
    // `right` is before each of a, b, c, so it is before `left`.
    L::lemma_transitive(right, b.inf(c), b);
    L::lemma_transitive(right, b.inf(c), c);
    L::lemma_inf_is_greatest(a, b, right);
    L::lemma_inf_is_greatest(a.inf(b), c, right);
    // `left` is before each of a, b, c, so it is before `right`.
    L::lemma_transitive(left, a.inf(b), a);
    L::lemma_transitive(left, a.inf(b), b);
    L::lemma_inf_is_greatest(b, c, left);
    L::lemma_inf_is_greatest(a, b.inf(c), left);
    L::lemma_antisymmetric(left, right);
}

/// Meet is idempotent.
pub proof fn lemma_meet_idempotent<L: Lattice>(a: L)
    ensures
        a.inf(a) == a,
{
    L::lemma_reflexive(a);
    L::lemma_inf_is_lower_bound(a, a);
    L::lemma_inf_is_greatest(a, a, a);
    L::lemma_antisymmetric(a.inf(a), a);
}

/// Join and meet absorb each other.
pub proof fn lemma_absorption<L: Lattice>(a: L, b: L)
    ensures
        a.sup(a.inf(b)) == a,
        a.inf(a.sup(b)) == a,
{
    L::lemma_reflexive(a);
    L::lemma_inf_is_lower_bound(a, b);
    L::lemma_sup_is_upper_bound(a, a.inf(b));
    L::lemma_sup_is_least(a, a.inf(b), a);
    L::lemma_antisymmetric(a.sup(a.inf(b)), a);
    L::lemma_sup_is_upper_bound(a, b);
    L::lemma_inf_is_lower_bound(a, a.sup(b));
    L::lemma_inf_is_greatest(a, a.sup(b), a);
    L::lemma_antisymmetric(a.inf(a.sup(b)), a);
}

/// Every element lies between the least and the greatest one.
pub proof fn lemma_bounded<L: Lattice>(x: L)
    ensures
        L::bottom().le(x),
        x.le(L::top()),
{
    L::lemma_extremes(x);
}

/// The order is the one that join and meet induce: `a` is before `b` exactly
/// when their join is `b`, and exactly when their meet is `a`.
pub proof fn lemma_order_by_join_and_meet<L: Lattice>(a: L, b: L)
    ensures
        a.le(b) <==> a.sup(b) == b,
        a.le(b) <==> a.inf(b) == a,
{
    L::lemma_reflexive(a);
    L::lemma_reflexive(b);
    L::lemma_sup_is_upper_bound(a, b);
    L::lemma_inf_is_lower_bound(a, b);
    if a.le(b) {
        L::lemma_sup_is_least(a, b, b);
        L::lemma_antisymmetric(a.sup(b), b);
        L::lemma_inf_is_greatest(a, b, a);
        L::lemma_antisymmetric(a.inf(b), a);
    }
}

} // verus!
