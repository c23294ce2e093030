//! Frontiers: the minimal times at which something is still outstanding, and
//! the questions that a consumer asks of them.

use vstd::prelude::*;
use crate::lattice::{less_than, lt, Lattice};

verus! {

/// No two different elements of `s` are comparable.
pub open spec fn antichain<T: Lattice>(s: Set<T>) -> bool {
    forall|a: T, b: T| s.contains(a) && s.contains(b) && #[trigger] a.le(b) ==> a == b
}

/// The elements of `s` that no other element of `s` is before.
pub open spec fn minimal<T: Lattice>(s: Set<T>) -> Set<T> {
    Set::new(|a: T| s.contains(a) && forall|b: T| s.contains(b) && #[trigger] b.le(a) ==> b == a)
}

/// Some element of `s` is before or equal to `time`.
pub open spec fn reaches<T: Lattice>(s: Set<T>, time: T) -> bool {
    exists|e: T| s.contains(e) && #[trigger] e.le(time)
}

/// Some element of `s` is strictly before `time`.
pub open spec fn precedes<T: Lattice>(s: Set<T>, time: T) -> bool {
    exists|e: T| s.contains(e) && #[trigger] lt(e, time)
}

/// The elements of `s` that `time` is not before or equal to.
pub open spec fn undominated<T: Lattice>(s: Set<T>, time: T) -> Set<T> {
    s.filter(|e: T| !time.le(e))
}

/// Adding a time that some element of an antichain is before or equal to
/// leaves the minimal elements as they were.
pub proof fn lemma_minimal_with_dominated<T: Lattice>(s: Set<T>, time: T)
    requires
        antichain(s),
        reaches(s, time),
    ensures
        minimal(s.insert(time)) == s,
{
    let e = choose|e: T| s.contains(e) && #[trigger] e.le(time);
    let all = s.insert(time);
    assert forall|a: T| minimal(all).contains(a) == s.contains(a) by {
        if s.contains(a) {
            assert forall|b: T| all.contains(b) && #[trigger] b.le(a) implies b == a by {
                if !s.contains(b) {
                    T::lemma_transitive(e, time, a);
                    assert(e == a);
                    T::lemma_antisymmetric(e, time);
                }
            }
        } else if a == time {
            if minimal(all).contains(a) {
                assert(all.contains(e) && e.le(a));
            }
        }
    }
    assert(minimal(all) =~= s);
}

/// Adding a time that no element of an antichain is before or equal to
/// keeps that time and the elements that it is not before.
pub proof fn lemma_minimal_with_undominated<T: Lattice>(s: Set<T>, time: T)
    requires
        antichain(s),
        !reaches(s, time),
    ensures
        minimal(s.insert(time)) == undominated(s, time).insert(time),
{
    let all = s.insert(time);
    let kept = undominated(s, time).insert(time);
    T::lemma_reflexive(time);
    assert forall|a: T| minimal(all).contains(a) == kept.contains(a) by {
        if a == time {
            assert forall|b: T| all.contains(b) && #[trigger] b.le(a) implies b == a by {}
        } else if s.contains(a) {
            if time.le(a) {
                assert(all.contains(time) && time.le(a));
            } else {
                assert forall|b: T| all.contains(b) && #[trigger] b.le(a) implies b == a by {}
            }
        }
    }
    assert(minimal(all) =~= kept);
}

/// The minimal elements of an antichain with one more time form an
/// antichain, and are before or equal to exactly the times that the
/// antichain or the new time is before or equal to.
pub proof fn lemma_minimal_after_insert<T: Lattice>(s: Set<T>, time: T, query: T)
    requires
        antichain(s),
    ensures
        antichain(minimal(s.insert(time))),
        reaches(minimal(s.insert(time)), query) <==> (reaches(s, query) || time.le(query)),
{
    let next = minimal(s.insert(time));
    if reaches(s, time) {
        lemma_minimal_with_dominated(s, time);
        if time.le(query) {
            let e = choose|e: T| s.contains(e) && #[trigger] e.le(time);
            T::lemma_transitive(e, time, query);
            assert(s.contains(e) && e.le(query));
        }
    } else {
        lemma_minimal_with_undominated(s, time);
        assert forall|a: T, b: T| next.contains(a) && next.contains(b) && #[trigger] a.le(
            b,
        ) implies a == b by {}
        if reaches(s, query) {
            let e = choose|e: T| s.contains(e) && #[trigger] e.le(query);
            if time.le(e) {
                T::lemma_transitive(time, e, query);
                assert(next.contains(time) && time.le(query));
            } else {
                assert(next.contains(e) && e.le(query));
            }
        } else if time.le(query) {
            assert(next.contains(time) && time.le(query));
        }
        if reaches(next, query) {
            let e = choose|e: T| next.contains(e) && #[trigger] e.le(query);
            if e != time {
                assert(s.contains(e) && e.le(query));
            }
        }
    }
}

/// An antichain inside `s` that is before or equal to every element of `s`
/// is the set of minimal elements of `s`.
pub proof fn lemma_minimal_characterised<T: Lattice>(f: Set<T>, s: Set<T>)
    requires
        antichain(f),
        f.subset_of(s),
        forall|x: T| s.contains(x) ==> reaches(f, x),
    ensures
        f == minimal(s),
{
    assert forall|a: T| f.contains(a) == minimal(s).contains(a) by {
        if f.contains(a) {
            assert forall|b: T| s.contains(b) && #[trigger] b.le(a) implies b == a by {
                let e = choose|e: T| f.contains(e) && #[trigger] e.le(b);
                T::lemma_transitive(e, b, a);
                assert(e == a);
                T::lemma_antisymmetric(a, b);
            }
        }
        if minimal(s).contains(a) {
            let e = choose|e: T| f.contains(e) && #[trigger] e.le(a);
            assert(s.contains(e));
            assert(e == a);
        }
    }
    assert(f =~= minimal(s));
}

/// A frontier: a set of pairwise incomparable times, the earliest at which
/// something is still outstanding.
#[derive(Debug)]
pub struct Frontier<T: Lattice> {
    elements: Vec<T>,
}

impl<T: Lattice> View for Frontier<T> {
    type V = Set<T>;

    closed spec fn view(&self) -> Set<T> {
        self.elements@.to_set()
    }
}

/// No element of `elements` is before or equal to one at another index.
spec fn incomparable<T: Lattice>(elements: Seq<T>) -> bool {
    forall|i: int, j: int|
        0 <= i < elements.len() && 0 <= j < elements.len() && i != j ==> !(#[trigger] elements[i]).le(
            #[trigger] elements[j],
        )
}

proof fn lemma_incomparable_is_antichain<T: Lattice>(elements: Seq<T>)
    requires
        incomparable(elements),
    ensures
        antichain(elements.to_set()),
        elements.no_duplicates(),
{
    let s = elements.to_set();
    assert forall|a: T, b: T| s.contains(a) && s.contains(b) && #[trigger] a.le(b) implies a
        == b by {
        let i = choose|i: int| 0 <= i < elements.len() && elements[i] == a;
        let j = choose|j: int| 0 <= j < elements.len() && elements[j] == b;
        assert(elements[i].le(elements[j]));
    }
    assert forall|i: int, j: int|
        0 <= i < elements.len() && 0 <= j < elements.len() && i != j implies elements[i]
        != elements[j] by {
        if elements[i] == elements[j] {
            T::lemma_reflexive(elements[i]);
            assert(elements[i].le(elements[j]));
        }
    }
}

impl<T: Lattice> Frontier<T> {
    #[verifier::type_invariant]
    spec fn well_formed(self) -> bool {
        incomparable(self.elements@)
    }

    /// The empty frontier: nothing is outstanding.
    pub fn new() -> (r: Self)
        ensures
            r@ == Set::<T>::empty(),
            antichain(r@),
    {
        let r = Frontier { elements: Vec::new() };
        proof {
            assert(r@ =~= Set::<T>::empty());
        }
        r
    }

    /// The frontier of one time.
    pub fn from_elem(element: T) -> (r: Self)
        ensures
            r@ == set![element],
            antichain(r@),
    {
        let mut elements: Vec<T> = Vec::new();
        elements.push(element);
        let r = Frontier { elements };
        proof {
            assert(r.elements@[0] == element);
            assert(r@ =~= set![element]);
        }
        r
    }

    /// Adds `element` unless some time of the frontier is before or equal to
    /// it, and drops the times that `element` is before. Says whether it was
    /// added. The frontier becomes the set of minimal times among its own and
    /// `element`.
    pub fn insert(&mut self, element: T) -> (added: bool)
        ensures
            added == !reaches(old(self)@, element),
            final(self)@ == minimal(old(self)@.insert(element)),
            added ==> final(self)@ == undominated(old(self)@, element).insert(element),
            !added ==> final(self)@ == old(self)@,
            antichain(final(self)@),
    {
        proof {
            use_type_invariant(&*self);
            lemma_incomparable_is_antichain(self.elements@);
            lemma_minimal_after_insert(self@, element, element);
        }
        let n = self.elements.len();
        let mut i: usize = 0;
        while i < n
            invariant
                i <= n,
                n == self.elements@.len(),
                *self == *old(self),
                antichain(self@),
                forall|j: int| 0 <= j < i ==> !(#[trigger] self.elements@[j]).le(element),
            decreases n - i,
        {
            if self.elements[i].less_equal(&element) {
                proof {
                    assert(self@.contains(self.elements@[i as int]) && self.elements@[i as int].le(
                        element,
                    ));
                    lemma_minimal_with_dominated(self@, element);
                }
                return false;
            }
            i = i + 1;
        }
        proof {
            if reaches(self@, element) {
                let e = choose|e: T| self@.contains(e) && #[trigger] e.le(element);
                let j = choose|j: int| 0 <= j < self.elements@.len() && self.elements@[j] == e;
                assert(self.elements@[j].le(element));
            }
            lemma_minimal_with_undominated(self@, element);
        }
        let mut kept: Vec<T> = Vec::new();
        let ghost mut origin: Seq<int> = Seq::empty();
        let mut k: usize = 0;
        while k < n
            invariant
                k <= n,
                n == self.elements@.len(),
                *self == *old(self),
                incomparable(self.elements@),
                origin.len() == kept@.len(),
                forall|m: int|
                    0 <= m < origin.len() ==> 0 <= #[trigger] origin[m] < k && kept@[m]
                        == self.elements@[origin[m]] && !element.le(kept@[m]),
                forall|m1: int, m2: int|
                    0 <= m1 < m2 < origin.len() ==> #[trigger] origin[m1] < #[trigger] origin[m2],
                forall|j: int|
                    0 <= j < k && !element.le(#[trigger] self.elements@[j]) ==> kept@.contains(
                        self.elements@[j],
                    ),
            decreases n - k,
        {
            let e = self.elements[k];
            if !element.less_equal(&e) {
                let ghost prior = kept@;
                kept.push(e);
                proof {
                    origin = origin.push(k as int);
                    assert forall|j: int|
                        0 <= j < k + 1 && !element.le(
                            #[trigger] self.elements@[j],
                        ) implies kept@.contains(self.elements@[j]) by {
                        if j < k {
                            let m = choose|m: int|
                                0 <= m < prior.len() && prior[m] == self.elements@[j];
                            assert(kept@[m] == self.elements@[j]);
                        } else {
                            assert(kept@[prior.len() as int] == e);
                        }
                    }
                }
            }
            k = k + 1;
        }
        let ghost kept_before = kept@;
        kept.push(element);
        proof {
            assert forall|a: int, b: int|
                0 <= a < kept@.len() && 0 <= b < kept@.len() && a != b implies !(
            #[trigger] kept@[a]).le(#[trigger] kept@[b]) by {
                if a < kept_before.len() && b < kept_before.len() {
                    assert(origin[a] != origin[b]) by {
                        if a < b {
                            assert(origin[a] < origin[b]);
                        } else {
                            assert(origin[b] < origin[a]);
                        }
                    }
                    assert(kept@[a] == self.elements@[origin[a]]);
                    assert(kept@[b] == self.elements@[origin[b]]);
                } else if a < kept_before.len() {
                    assert(kept@[a] == self.elements@[origin[a]]);
                } else {
                    assert(kept@[b] == kept_before[b]);
                }
            }
            let target = undominated(self@, element).insert(element);
            assert forall|x: T| kept@.to_set().contains(x) == target.contains(x) by {
                if kept@.to_set().contains(x) {
                    let m = choose|m: int| 0 <= m < kept@.len() && kept@[m] == x;
                    if m < kept_before.len() {
                        assert(kept@[m] == self.elements@[origin[m]]);
                        assert(self.elements@.contains(x));
                    }
                }
                if target.contains(x) {
                    if x == element {
                        assert(kept@[kept_before.len() as int] == x);
                    } else {
                        let j = choose|j: int|
                            0 <= j < self.elements@.len() && self.elements@[j] == x;
                        assert(kept_before.contains(self.elements@[j]));
                        let m = choose|m: int| 0 <= m < kept_before.len() && kept_before[m] == x;
                        assert(kept@[m] == x);
                    }
                }
            }
            assert(kept@.to_set() =~= target);
            lemma_incomparable_is_antichain(kept@);
        }
        self.elements = kept;
        true
    }

    /// Whether the frontier holds a time that is not after `time`: one that
    /// is before or equal to it. While it does, results at times not after
    /// `time` may still change.
    pub fn less_than(&self, time: &T) -> (r: bool)
        ensures
            r == reaches(self@, *time),
    {
        let mut i: usize = 0;
        while i < self.elements.len()
            invariant
                i <= self.elements@.len(),
                forall|j: int| 0 <= j < i ==> !(#[trigger] self.elements@[j]).le(*time),
            decreases self.elements@.len() - i,
        {
            if self.elements[i].less_equal(time) {
                proof {
                    assert(self@.contains(self.elements@[i as int]) && self.elements@[i as int].le(
                        *time,
                    ));
                }
                return true;
            }
            i = i + 1;
        }
        proof {
            if reaches(self@, *time) {
                let e = choose|e: T| self@.contains(e) && #[trigger] e.le(*time);
                let j = choose|j: int| 0 <= j < self.elements@.len() && self.elements@[j] == e;
                assert(self.elements@[j].le(*time));
            }
        }
        false
    }

    /// Whether some time of the frontier is strictly before `time`, and not
    /// `time` itself: whether something is outstanding that a capability for
    /// `time` does not account for. One who holds such a capability waits
    /// while this holds, and the wait can end though the capability is kept.
    pub fn strictly_before(&self, time: &T) -> (r: bool)
        ensures
            r == precedes(self@, *time),
    {
        let mut i: usize = 0;
        while i < self.elements.len()
            invariant
                i <= self.elements@.len(),
                forall|j: int| 0 <= j < i ==> !lt(#[trigger] self.elements@[j], *time),
            decreases self.elements@.len() - i,
        {
            if less_than(&self.elements[i], time) {
                proof {
                    assert(self@.contains(self.elements@[i as int]) && lt(
                        self.elements@[i as int],
                        *time,
                    ));
                }
                return true;
            }
            i = i + 1;
        }
        proof {
            if precedes(self@, *time) {
                let e = choose|e: T| self@.contains(e) && #[trigger] lt(e, *time);
                let j = choose|j: int| 0 <= j < self.elements@.len() && self.elements@[j] == e;
                assert(lt(self.elements@[j], *time));
            }
        }
        false
    }

    /// Whether nothing is outstanding.
    pub fn done(&self) -> (r: bool)
        ensures
            r == (self@ == Set::<T>::empty()),
    {
        let empty = self.elements.len() == 0;
        proof {
            if empty {
                assert(self@ =~= Set::<T>::empty());
            } else {
                assert(self@.contains(self.elements@[0]));
            }
        }
        empty
    }

    /// The times of the frontier, each once.
    pub fn elements(&self) -> (r: &Vec<T>)
        ensures
            r@.to_set() == self@,
            r@.no_duplicates(),
            antichain(self@),
    {
        proof {
            use_type_invariant(self);
            lemma_incomparable_is_antichain(self.elements@);
        }
        &self.elements
    }

    /// The frontier of a collection of outstanding times: its minimal times.
    pub fn of(times: &Vec<T>) -> (r: Self)
        ensures
            r@ == minimal(times@.to_set()),
            antichain(r@),
    {
        let mut frontier = Frontier::new();
        let mut i: usize = 0;
        while i < times.len()
            invariant
                i <= times.len(),
                antichain(frontier@),
                forall|e: T| frontier@.contains(e) ==> times@.contains(e),
                forall|j: int| 0 <= j < i ==> reaches(frontier@, #[trigger] times@[j]),
            decreases times.len() - i,
        {
            let ghost before = frontier@;
            let time = times[i];
            frontier.insert(time);
            proof {
                assert forall|j: int| 0 <= j < i + 1 implies reaches(
                    frontier@,
                    #[trigger] times@[j],
                ) by {
                    lemma_minimal_after_insert(before, time, times@[j]);
                    if j == i {
                        T::lemma_reflexive(time);
                    }
                }
                assert forall|e: T| frontier@.contains(e) implies times@.contains(e) by {
                    if e == time {
                        assert(times@[i as int] == e);
                    }
                }
            }
            i = i + 1;
        }
        proof {
            assert forall|x: T| times@.to_set().contains(x) implies reaches(frontier@, x) by {
                let j = choose|j: int| 0 <= j < times@.len() && times@[j] == x;
                assert(reaches(frontier@, times@[j]));
            }
            assert(frontier@.subset_of(times@.to_set()));
            lemma_minimal_characterised(frontier@, times@.to_set());
        }
        frontier
    }
}

} // verus!
