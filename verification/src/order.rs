//! Total orders, and sorting by them.

use vstd::prelude::*;

verus! {

/// A totally ordered type.
pub trait Ordered: Sized {
    /// `self` comes before `other` or is equal to it.
    spec fn before(self, other: Self) -> bool;

    proof fn lemma_total_order(a: Self, b: Self, c: Self)
        ensures
            a.before(a),
            a.before(b) || b.before(a),
            a.before(b) && b.before(a) ==> a == b,
            a.before(b) && b.before(c) ==> a.before(c),
    ;

    /// Whether `self` comes before `other` or is equal to it.
    fn not_after(&self, other: &Self) -> (r: bool)
        ensures
            r == self.before(*other),
    ;
}

impl Ordered for usize {
    open spec fn before(self, other: Self) -> bool {
        self <= other
    }

    proof fn lemma_total_order(a: Self, b: Self, c: Self) {
    }

    fn not_after(&self, other: &Self) -> (r: bool) {
        *self <= *other
    }
}

impl Ordered for u64 {
    open spec fn before(self, other: Self) -> bool {
        self <= other
    }

    proof fn lemma_total_order(a: Self, b: Self, c: Self) {
    }

    fn not_after(&self, other: &Self) -> (r: bool) {
        *self <= *other
    }
}

impl Ordered for i64 {
    open spec fn before(self, other: Self) -> bool {
        self <= other
    }

    proof fn lemma_total_order(a: Self, b: Self, c: Self) {
    }

    fn not_after(&self, other: &Self) -> (r: bool) {
        *self <= *other
    }
}

/// Pairs are ordered by their first parts, and by their second parts where
/// the first are equal.
impl<A: Ordered, B: Ordered> Ordered for (A, B) {
    open spec fn before(self, other: Self) -> bool {
        (self.0.before(other.0) && self.0 != other.0) || (self.0 == other.0 && self.1.before(
            other.1,
        ))
    }

    proof fn lemma_total_order(a: Self, b: Self, c: Self) {
        A::lemma_total_order(a.0, b.0, c.0);
        A::lemma_total_order(b.0, a.0, c.0);
        A::lemma_total_order(a.0, c.0, b.0);
        A::lemma_total_order(b.0, c.0, a.0);
        B::lemma_total_order(a.1, b.1, c.1);
        B::lemma_total_order(b.1, a.1, c.1);
    }

    fn not_after(&self, other: &Self) -> (r: bool) {
        proof {
            A::lemma_total_order(self.0, other.0, self.0);
        }
        if self.0.not_after(&other.0) {
            if other.0.not_after(&self.0) {
                self.1.not_after(&other.1)
            } else {
                true
            }
        } else {
            false
        }
    }
}

/// No item of `items` comes after a later one.
pub open spec fn ascending<K: Ordered>(items: Seq<K>) -> bool {
    forall|i: int, j: int| 0 <= i < j < items.len() ==> (#[trigger] items[i]).before(#[trigger] items[j])
}

proof fn lemma_insert_to_multiset<K>(items: Seq<K>, at: int, item: K)
    requires
        0 <= at <= items.len(),
    ensures
        items.insert(at, item).to_multiset() == items.to_multiset().insert(item),
{
    broadcast use vstd::seq_lib::group_to_multiset_ensures;

    let longer = items.insert(at, item);
    assert(longer.remove(at) =~= items);
    assert(longer[at] == item);
    assert(longer.remove(at).to_multiset() =~= longer.to_multiset().remove(item));
    assert(longer.contains(item));
    assert(longer.to_multiset() =~= items.to_multiset().insert(item));
}

/// The items in ascending order.
pub fn sort<K: Ordered + Copy>(items: &Vec<K>) -> (r: Vec<K>)
    ensures
        ascending(r@),
        r@.to_multiset() == items@.to_multiset(),
{
    let mut sorted: Vec<K> = Vec::new();
    let mut i: usize = 0;
    proof {
        assert(items@.take(0) =~= sorted@);
    }
    while i < items.len()
        invariant
            i <= items.len(),
            ascending(sorted@),
            sorted@.to_multiset() == items@.take(i as int).to_multiset(),
        decreases items.len() - i,
    {
        let item = items[i];
        let mut at: usize = 0;
        while at < sorted.len() && sorted[at].not_after(&item)
            invariant
                at <= sorted.len(),
                forall|j: int| 0 <= j < at ==> (#[trigger] sorted@[j]).before(item),
            decreases sorted.len() - at,
        {
            at = at + 1;
        }
        let ghost prior = sorted@;
        sorted.insert(at, item);
        proof {
            broadcast use vstd::seq_lib::group_to_multiset_ensures;

            lemma_insert_to_multiset(prior, at as int, item);
            assert(items@.take(i + 1) =~= items@.take(i as int).push(item));
            assert forall|a: int, b: int| 0 <= a < b < sorted@.len() implies (
            #[trigger] sorted@[a]).before(#[trigger] sorted@[b]) by {
                if b < at {
                    assert(sorted@[a] == prior[a] && sorted@[b] == prior[b]);
                } else if b == at {
                    assert(sorted@[a] == prior[a]);
                } else if a < at {
                    assert(sorted@[a] == prior[a] && sorted@[b] == prior[b - 1]);
                } else if a == at {
                    assert(sorted@[b] == prior[b - 1]);
                    K::lemma_total_order(prior[at as int], item, prior[b - 1]);
                    K::lemma_total_order(item, prior[at as int], prior[b - 1]);
                    if b - 1 > at {
                        assert(prior[at as int].before(prior[b - 1]));
                    }
                } else {
                    assert(sorted@[a] == prior[a - 1] && sorted@[b] == prior[b - 1]);
                }
            }
        }
        i = i + 1;
    }
    proof {
        assert(items@.take(i as int) =~= items@);
    }
    sorted
}

} // verus!
