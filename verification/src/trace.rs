//! Traces: the accumulated history of a collection, which its producer
//! extends and compacts and which other computations import.

use vstd::prelude::*;
use crate::changes::{contribution, multiplicity, present, Change};
use crate::lattice::Lattice;

verus! {

/// The time to which `time` is advanced under the floor `floor`: the meet,
/// over the times of the floor, of the join of `time` with each of them; the
/// greatest time under an empty floor.
pub open spec fn advanced<T: Lattice>(time: T, floor: Seq<T>) -> T
    decreases floor.len(),
{
    if floor.len() == 0 {
        T::top()
    } else if floor.len() == 1 {
        time.sup(floor[0])
    } else {
        advanced(time, floor.drop_last()).inf(time.sup(floor.last()))
    }
}

/// `time` is in the future of the floor: after or equal to one of its times.
pub open spec fn beyond<T: Lattice>(floor: Seq<T>, time: T) -> bool {
    exists|i: int| 0 <= i < floor.len() && (#[trigger] floor[i]).le(time)
}

/// The changes of a history with every time advanced under `floor`.
pub open spec fn compacted<D, T: Lattice>(changes: Seq<Change<D, T>>, floor: Seq<T>) -> Seq<
    Change<D, T>,
> {
    Seq::new(
        changes.len(),
        |i: int|
            Change {
                datum: changes[i].datum,
                time: advanced(changes[i].time, floor),
                weight: changes[i].weight,
            },
    )
}

/// A time is before or equal to the time it is advanced to, and that time
/// is before or equal to the join of the time with each time of the floor.
pub proof fn lemma_advanced_bounds<T: Lattice>(time: T, floor: Seq<T>, i: int)
    ensures
        time.le(advanced(time, floor)),
        0 <= i < floor.len() ==> advanced(time, floor).le(time.sup(floor[i])),
    decreases floor.len(),
{
    if floor.len() == 0 {
        T::lemma_extremes(time);
    } else if floor.len() == 1 {
        T::lemma_sup_is_upper_bound(time, floor[0]);
        T::lemma_reflexive(time.sup(floor[0]));
    } else {
        let rest = floor.drop_last();
        let before = advanced(time, rest);
        let last = time.sup(floor.last());
        lemma_advanced_bounds(time, rest, i);
        T::lemma_sup_is_upper_bound(time, floor.last());
        T::lemma_inf_is_greatest(before, last, time);
        T::lemma_inf_is_lower_bound(before, last);
        if 0 <= i < rest.len() {
            assert(rest[i] == floor[i]);
            T::lemma_transitive(before.inf(last), before, time.sup(floor[i]));
        }
    }
}

/// A time and the time it is advanced to cannot be told apart from the
/// future of the floor: each is before or equal to exactly the same times
/// there.
pub proof fn lemma_advanced_is_indistinguishable<T: Lattice>(time: T, floor: Seq<T>, query: T)
    requires
        beyond(floor, query),
    ensures
        advanced(time, floor).le(query) <==> time.le(query),
{
    let i = choose|i: int| 0 <= i < floor.len() && (#[trigger] floor[i]).le(query);
    lemma_advanced_bounds(time, floor, i);
    if advanced(time, floor).le(query) {
        T::lemma_transitive(time, advanced(time, floor), query);
    }
    if time.le(query) {
        T::lemma_sup_is_least(time, floor[i], query);
        T::lemma_transitive(advanced(time, floor), time.sup(floor[i]), query);
    }
}

/// Compaction keeps every multiplicity at every time in the future of the
/// floor.
pub proof fn lemma_compaction_keeps_multiplicity<D, T: Lattice>(
    changes: Seq<Change<D, T>>,
    floor: Seq<T>,
    datum: D,
    at: T,
)
    requires
        beyond(floor, at),
    ensures
        multiplicity(compacted(changes, floor), datum, at) == multiplicity(changes, datum, at),
    decreases changes.len(),
{
    if changes.len() > 0 {
        let rest = changes.drop_last();
        assert(compacted(changes, floor).drop_last() =~= compacted(rest, floor));
        lemma_compaction_keeps_multiplicity(rest, floor, datum, at);
        lemma_advanced_is_indistinguishable(changes.last().time, floor, at);
        assert(contribution(compacted(changes, floor).last(), datum, at) == contribution(
            changes.last(),
            datum,
            at,
        ));
    }
}

/// Import fidelity: what is present in an imported history, at any time in
/// the future of the floor under which it was compacted, is what is present
/// in the stream of changes that the history was built from. Whatever is
/// computed from what is present is therefore the same from either.
pub proof fn lemma_import_fidelity<D, T: Lattice>(source: Seq<Change<D, T>>, floor: Seq<T>, at: T)
    requires
        beyond(floor, at),
    ensures
        present(compacted(source, floor), at) == present(source, at),
{
    assert forall|datum: D|
        present(compacted(source, floor), at).contains(datum) == present(source, at).contains(
            datum,
        ) by {
        lemma_compaction_keeps_multiplicity(source, floor, datum, at);
    }
    assert(present(compacted(source, floor), at) =~= present(source, at));
}

/// Under the floor of the least time alone, no time moves.
pub proof fn lemma_least_floor_keeps_times<D, T: Lattice>(changes: Seq<Change<D, T>>)
    ensures
        compacted(changes, seq![T::bottom()]) == changes,
{
    let floor = seq![T::bottom()];
    assert forall|i: int| 0 <= i < changes.len() implies compacted(changes, floor)[i]
        == changes[i] by {
        let time = changes[i].time;
        T::lemma_extremes(time);
        T::lemma_reflexive(time);
        T::lemma_sup_is_least(time, T::bottom(), time);
        T::lemma_sup_is_upper_bound(time, T::bottom());
        T::lemma_antisymmetric(time.sup(T::bottom()), time);
    }
    assert(compacted(changes, floor) =~= changes);
}

/// The time to which `time` is advanced under `floor`.
pub fn advance_by<T: Lattice>(time: &T, floor: &Vec<T>) -> (r: T)
    ensures
        r == advanced(*time, floor@),
{
    if floor.len() == 0 {
        return T::maximum();
    }
    let mut result = time.join(&floor[0]);
    let mut i: usize = 1;
    proof {
        assert(floor@.take(1).len() == 1);
    }
    while i < floor.len()
        invariant
            1 <= i <= floor.len(),
            result == advanced(*time, floor@.take(i as int)),
        decreases floor.len() - i,
    {
        proof {
            assert(floor@.take(i + 1).drop_last() =~= floor@.take(i as int));
            assert(floor@.take(i + 1).last() == floor@[i as int]);
        }
        let joined = time.join(&floor[i]);
        result = result.meet(&joined);
        i = i + 1;
    }
    proof {
        assert(floor@.take(i as int) =~= floor@);
    }
    result
}

/// The accumulated history of a collection.
#[derive(Debug)]
pub struct Trace<D, T> {
    changes: Vec<Change<D, T>>,
}

impl<D, T> View for Trace<D, T> {
    type V = Seq<Change<D, T>>;

    closed spec fn view(&self) -> Seq<Change<D, T>> {
        self.changes@
    }
}

impl<D: Copy, T: Lattice> Clone for Trace<D, T> {
    /// A second handle, which reads the same history.
    fn clone(&self) -> (r: Self)
        ensures
            r@ == self@,
    {
        Trace { changes: copy_of(&self.changes) }
    }
}

/// A copy of `changes`.
fn copy_of<D: Copy, T: Copy>(changes: &Vec<Change<D, T>>) -> (r: Vec<Change<D, T>>)
    ensures
        r@ == changes@,
{
    let mut copy: Vec<Change<D, T>> = Vec::new();
    let mut i: usize = 0;
    while i < changes.len()
        invariant
            i <= changes.len(),
            copy@ == changes@.take(i as int),
        decreases changes.len() - i,
    {
        copy.push(changes[i]);
        proof {
            assert(changes@.take(i + 1) =~= changes@.take(i as int).push(changes@[i as int]));
        }
        i = i + 1;
    }
    proof {
        assert(changes@.take(i as int) =~= changes@);
    }
    copy
}

impl<D: Copy, T: Lattice> Trace<D, T> {
    /// The history of a collection to which nothing has happened.
    pub fn new() -> (r: Self)
        ensures
            r@ == Seq::<Change<D, T>>::empty(),
    {
        Trace { changes: Vec::new() }
    }

    /// Extends the history by the changes of `batch`, in their order.
    pub fn append(&mut self, batch: &Vec<Change<D, T>>)
        ensures
            final(self)@ == old(self)@ + batch@,
    {
        let mut i: usize = 0;
        while i < batch.len()
            invariant
                i <= batch.len(),
                self@ == old(self)@ + batch@.take(i as int),
            decreases batch.len() - i,
        {
            self.changes.push(batch[i]);
            proof {
                assert(batch@.take(i + 1) =~= batch@.take(i as int).push(batch@[i as int]));
                assert(self@ =~= old(self)@ + batch@.take(i + 1));
            }
            i = i + 1;
        }
        proof {
            assert(batch@.take(i as int) =~= batch@);
        }
    }

    /// Compacts the history under `floor`: every time is advanced under it.
    /// The history then still says what was present at each time in the
    /// future of `floor`, and no longer at the others: a floor must not be
    /// ahead of a time that an importer still asks about.
    pub fn advance_by(&mut self, floor: &Vec<T>)
        ensures
            final(self)@ == compacted(old(self)@, floor@),
    {
        let mut moved: Vec<Change<D, T>> = Vec::new();
        let mut i: usize = 0;
        while i < self.changes.len()
            invariant
                i <= self.changes.len(),
                *self == *old(self),
                moved@ == compacted(self@, floor@).take(i as int),
            decreases self.changes.len() - i,
        {
            let change = self.changes[i];
            let time = advance_by(&change.time, floor);
            moved.push(Change { datum: change.datum, time, weight: change.weight });
            proof {
                assert(compacted(self@, floor@).take(i + 1) =~= compacted(self@, floor@).take(
                    i as int,
                ).push(compacted(self@, floor@)[i as int]));
            }
            i = i + 1;
        }
        proof {
            assert(compacted(self@, floor@).take(i as int) =~= compacted(self@, floor@));
        }
        self.changes = moved;
    }

    /// The history as a fresh stream of changes for another computation.
    pub fn import(&self) -> (r: Vec<Change<D, T>>)
        ensures
            r@ == self@,
    {
        copy_of(&self.changes)
    }
}

} // verus!
