//! Capabilities: the right to introduce changes at a time and at the times
//! after it, and the input feed that they guard.

use vstd::prelude::*;
use crate::changes::Change;
use crate::lattice::Lattice;

verus! {

/// A capability was asked for a time that is not after or equal to the time
/// it holds.
#[derive(Debug, Clone, Copy, PartialEq, Eq)]
pub struct CapabilityViolation<T> {
    /// The time that the capability held.
    pub held: T,
    /// The time that was asked of it.
    pub requested: T,
}

/// The time that a capability holds after it was asked to move to `to`: the
/// new time where that advances it, the old one where the request is refused.
pub open spec fn downgraded<T: Lattice>(held: T, to: T) -> T {
    if held.le(to) {
        to
    } else {
        held
    }
}

/// The time that a capability holds after a sequence of requests to move,
/// each of them granted or refused on its own.
pub open spec fn after_downgrades<T: Lattice>(held: T, requests: Seq<T>) -> T
    decreases requests.len(),
{
    if requests.len() == 0 {
        held
    } else {
        downgraded(after_downgrades(held, requests.drop_last()), requests.last())
    }
}

/// The right to introduce changes at one time and at every time after it.
///
/// A capability is not cloned: it moves forward with `downgrade`, and
/// `delayed` makes a second one for a later time.
#[derive(Debug)]
pub struct Capability<T: Lattice> {
    time: T,
}

impl<T: Lattice> View for Capability<T> {
    type V = T;

    closed spec fn view(&self) -> T {
        self.time
    }
}

impl<T: Lattice> Capability<T> {
    /// A fresh capability for `time`.
    pub fn new(time: T) -> (r: Self)
        ensures
            r@ == time,
    {
        Capability { time }
    }

    /// The time that the capability holds.
    pub fn time(&self) -> (r: T)
        ensures
            r == self@,
    {
        self.time
    }

    /// Whether the capability allows a change at `time`.
    pub fn permits(&self, time: &T) -> (r: bool)
        ensures
            r == self@.le(*time),
    {
        self.time.less_equal(time)
    }

    /// Moves the capability forward to `new_time`, giving up the times that
    /// are not after or equal to it. A `new_time` that is not after or equal
    /// to the held time is refused, and the capability stays as it was.
    pub fn downgrade(&mut self, new_time: &T) -> (r: Result<(), CapabilityViolation<T>>)
        ensures
            final(self)@ == downgraded(old(self)@, *new_time),
            old(self)@.le(*new_time) ==> r is Ok,
            !old(self)@.le(*new_time) ==> r == Err::<(), CapabilityViolation<T>>(
                (CapabilityViolation { held: old(self)@, requested: *new_time }),
            ),
    {
        if self.time.less_equal(new_time) {
            self.time = *new_time;
            Ok(())
        } else {
            Err(CapabilityViolation { held: self.time, requested: *new_time })
        }
    }

    /// A second capability, for `new_time`, which is independent of this one
    /// and leaves it as it is. A `new_time` that is not after or equal to the
    /// held time is refused.
    pub fn delayed(&self, new_time: &T) -> (r: Result<Capability<T>, CapabilityViolation<T>>)
        ensures
            self@.le(*new_time) ==> r is Ok && r->Ok_0@ == *new_time,
            !self@.le(*new_time) ==> r is Err && r->Err_0 == (CapabilityViolation {
                held: self@,
                requested: *new_time,
            }),
    {
        if self.time.less_equal(new_time) {
            Ok(Capability { time: *new_time })
        } else {
            Err(CapabilityViolation { held: self.time, requested: *new_time })
        }
    }
}

/// A capability that was moved forward holds a time after or equal to the
/// one it held, whether each request was granted or refused.
pub proof fn lemma_downgrades_advance<T: Lattice>(held: T, requests: Seq<T>)
    ensures
        held.le(after_downgrades(held, requests)),
    decreases requests.len(),
{
    if requests.len() == 0 {
        T::lemma_reflexive(held);
    } else {
        let before = after_downgrades(held, requests.drop_last());
        lemma_downgrades_advance(held, requests.drop_last());
        if before.le(requests.last()) {
            T::lemma_transitive(held, before, requests.last());
        }
    }
}

/// Capability monotonicity: once a capability has been downgraded to `to`,
/// whatever further requests to move it follow, every time that it then
/// permits is after or equal to `to`.
pub proof fn lemma_capability_monotone<T: Lattice>(held: T, to: T, later: Seq<T>, time: T)
    requires
        held.le(to),
        after_downgrades(downgraded(held, to), later).le(time),
    ensures
        to.le(time),
{
    lemma_downgrades_advance(to, later);
    T::lemma_transitive(to, after_downgrades(to, later), time);
}

/// The changes that a batch of data and weights stands for when every one of
/// them is stamped with `time`.
pub open spec fn stamped<D, T>(batch: Seq<(D, i64)>, time: T) -> Seq<Change<D, T>> {
    Seq::new(batch.len(), |i: int| Change { datum: batch[i].0, time, weight: batch[i].1 })
}

/// An input to a computation: the changes introduced so far, in the order in
/// which they were given.
#[derive(Debug)]
pub struct InputFeed<D, T> {
    changes: Vec<Change<D, T>>,
}

impl<D, T> View for InputFeed<D, T> {
    type V = Seq<Change<D, T>>;

    closed spec fn view(&self) -> Seq<Change<D, T>> {
        self.changes@
    }
}

impl<D: Copy, T: Lattice> InputFeed<D, T> {
    /// An input to which nothing has been given.
    pub fn new() -> (r: Self)
        ensures
            r@ == Seq::<Change<D, T>>::empty(),
    {
        InputFeed { changes: Vec::new() }
    }

    /// Introduces every item of `batch`, stamped with the time that the
    /// capability holds.
    pub fn session(&mut self, capability: &Capability<T>, batch: &Vec<(D, i64)>)
        ensures
            final(self)@ == old(self)@ + stamped(batch@, capability@),
    {
        let time = capability.time();
        let mut i: usize = 0;
        while i < batch.len()
            invariant
                i <= batch.len(),
                time == capability@,
                self@ == old(self)@ + stamped(batch@, time).take(i as int),
            decreases batch.len() - i,
        {
            let item = batch[i];
            self.changes.push(Change { datum: item.0, time, weight: item.1 });
            proof {
                assert(stamped(batch@, time).take(i + 1) =~= stamped(batch@, time).take(
                    i as int,
                ).push(stamped(batch@, time)[i as int]));
            }
            i = i + 1;
        }
        proof {
            assert(stamped(batch@, time).take(i as int) =~= stamped(batch@, time));
        }
    }

    /// Introduces one change at its own time, which the capability must
    /// permit. A change at a time that is not after or equal to the time that
    /// the capability holds is refused, and the input stays as it was.
    pub fn give(&mut self, capability: &Capability<T>, change: Change<D, T>) -> (r: Result<
        (),
        CapabilityViolation<T>,
    >)
        ensures
            capability@.le(change.time) ==> r is Ok && final(self)@ == old(self)@.push(change),
            !capability@.le(change.time) ==> final(self)@ == old(self)@ && r == Err::<
                (),
                CapabilityViolation<T>,
            >((CapabilityViolation { held: capability@, requested: change.time })),
    {
        if capability.permits(&change.time) {
            self.changes.push(change);
            Ok(())
        } else {
            Err(CapabilityViolation { held: capability.time(), requested: change.time })
        }
    }

    /// The changes introduced so far.
    pub fn changes(&self) -> (r: &Vec<Change<D, T>>)
        ensures
            r@ == self@,
    {
        &self.changes
    }

    /// Closes the input: it takes nothing more, and hands over the changes
    /// that were introduced, in their order.
    pub fn close(self) -> (r: Vec<Change<D, T>>)
        ensures
            r@ == self@,
    {
        self.changes
    }
}

/// No emission before a downgrade: a capability that was downgraded to `to`
/// permits no time that is not after or equal to `to`, whatever further
/// requests to move it have followed. An input accepts a change exactly at
/// the times that the capability permits, so it accepts none at such a time.
pub proof fn lemma_no_emission_before_downgrade<T: Lattice>(
    held: T,
    to: T,
    later: Seq<T>,
    time: T,
)
    requires
        held.le(to),
        !to.le(time),
    ensures
        !after_downgrades(downgraded(held, to), later).le(time),
{
    if after_downgrades(downgraded(held, to), later).le(time) {
        lemma_capability_monotone(held, to, later, time);
    }
}

} // verus!
