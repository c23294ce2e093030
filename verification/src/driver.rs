//! The driver of a bitemporal experiment: the order in which one worker
//! introduces its changes, moves its capabilities forward and waits for the
//! computation to settle.
//!
//! Times are pairs of a revision and an event time. The driver loads a
//! graph at revision 0, churns it through a number of rounds of event time,
//! and then revises it three times, at revisions 1, 2 and 3. It decides; its
//! surroundings carry out each step on the running computation.

use vstd::prelude::*;
use crate::capability::Capability;
use crate::frontier::{minimal, precedes, Frontier};
use crate::lattice::Lattice;
use crate::pair::Pair;

verus! {

/// A time of the experiment: a revision and an event time.
pub type Time = Pair<usize, usize>;

/// What a worker introduces in one step.
#[derive(Debug, Clone, Copy, PartialEq, Eq)]
pub enum Batch {
    /// The worker's share of the initial edges, each inserted.
    Initial,
    /// The worker's share of a round: insertions and removals in turn.
    Churn,
    /// The worker's share of a round, each inserted.
    Additions,
}

/// One step that the driver asks of its surroundings.
#[derive(Debug, Clone, Copy, PartialEq, Eq)]
pub enum Step {
    /// Introduce the root at `time` and give up the root capability.
    Root { time: Time },
    /// Introduce a batch of edge changes at `time`.
    Feed { time: Time, batch: Batch },
    /// Set a second edge capability aside for `time`.
    Reserve { time: Time },
    /// Move the edge capability forward to `time`.
    Downgrade { time: Time },
    /// Let the computation run while its frontier is strictly before `time`.
    Await { time: Time },
    /// Replace the edge capability by the one that was set aside.
    Adopt,
    /// Nothing is left to do.
    Finished,
}

/// Where the driver stands: the step that it takes next.
#[derive(Debug, Clone, Copy, PartialEq, Eq)]
pub enum Stage {
    Root,
    Initial,
    Reserve,
    Advance { round: usize },
    Wait { round: usize },
    Churn { round: usize },
    Adopt,
    Revise { revision: usize },
    Seal { revision: usize },
    Settle { revision: usize },
    Finished,
}

/// The times of the capabilities that a worker holds.
pub struct Holdings {
    /// The root capability, until the root has been introduced.
    pub root: Option<Time>,
    /// The edge capability.
    pub held: Time,
    /// The edge capability that was set aside, until it is adopted.
    pub reserved: Option<Time>,
}

/// What a driver is, to its contracts.
pub struct DriverView {
    pub rounds: usize,
    pub stage: Stage,
    pub holdings: Holdings,
}

/// The times at which the worker can still introduce changes.
pub open spec fn outstanding(holdings: Holdings) -> Set<Time> {
    Set::new(
        |time: Time|
            holdings.held == time || holdings.reserved == Some(time) || holdings.root == Some(
                time,
            ),
    )
}

/// The number of the last round of event time: at least one round is run.
pub open spec fn last_round(rounds: usize) -> usize {
    if rounds == 0 {
        1
    } else {
        rounds
    }
}

/// The time at which a revision introduces its edges.
pub open spec fn revision_time(revision: usize) -> Time {
    if revision == 1 {
        Pair { first: 1, second: 0 }
    } else if revision == 2 {
        Pair { first: 2, second: 3 }
    } else {
        Pair { first: 3, second: 1 }
    }
}

/// The step that is taken at a stage.
pub open spec fn step_at(stage: Stage, rounds: usize) -> Step {
    match stage {
        Stage::Root => Step::Root { time: Pair { first: 0, second: 0 } },
        Stage::Initial => Step::Feed {
            time: Pair { first: 0, second: 0 },
            batch: Batch::Initial,
        },
        Stage::Reserve => Step::Reserve { time: Pair { first: 1, second: 0 } },
        Stage::Advance { round } => Step::Downgrade { time: Pair { first: 0, second: round } },
        Stage::Wait { round } => Step::Await { time: Pair { first: 0, second: round } },
        Stage::Churn { round } => Step::Feed {
            time: Pair { first: 0, second: round },
            batch: Batch::Churn,
        },
        Stage::Adopt => Step::Adopt,
        Stage::Revise { revision } => Step::Feed {
            time: revision_time(revision),
            batch: Batch::Additions,
        },
        Stage::Seal { revision } => Step::Downgrade {
            time: Pair { first: (revision + 1) as usize, second: 0 },
        },
        Stage::Settle { revision } => Step::Await {
            time: Pair { first: revision, second: (rounds + 1) as usize },
        },
        Stage::Finished => Step::Finished,
    }
}

/// The stage that follows a stage.
pub open spec fn stage_after(stage: Stage, rounds: usize) -> Stage {
    match stage {
        Stage::Root => Stage::Initial,
        Stage::Initial => Stage::Reserve,
        Stage::Reserve => Stage::Advance { round: 1 },
        Stage::Advance { round } => Stage::Wait { round },
        Stage::Wait { round } => if round < rounds {
            Stage::Churn { round }
        } else {
            Stage::Adopt
        },
        Stage::Churn { round } => Stage::Advance { round: (round + 1) as usize },
        Stage::Adopt => Stage::Revise { revision: 1 },
        Stage::Revise { revision } => Stage::Seal { revision },
        Stage::Seal { revision } => Stage::Settle { revision },
        Stage::Settle { revision } => if revision < 3 {
            Stage::Revise { revision: (revision + 1) as usize }
        } else {
            Stage::Finished
        },
        Stage::Finished => Stage::Finished,
    }
}

/// The capabilities that a worker holds when it comes to a stage.
pub open spec fn holdings_at(stage: Stage, rounds: usize) -> Holdings {
    let origin: Time = Pair { first: 0, second: 0 };
    let next: Time = Pair { first: 1, second: 0 };
    match stage {
        Stage::Root => Holdings { root: Some(origin), held: origin, reserved: None },
        Stage::Initial => Holdings { root: None, held: origin, reserved: None },
        Stage::Reserve => Holdings { root: None, held: origin, reserved: None },
        Stage::Advance { round } => Holdings {
            root: None,
            held: Pair { first: 0, second: (round - 1) as usize },
            reserved: Some(next),
        },
        Stage::Wait { round } => Holdings {
            root: None,
            held: Pair { first: 0, second: round },
            reserved: Some(next),
        },
        Stage::Churn { round } => Holdings {
            root: None,
            held: Pair { first: 0, second: round },
            reserved: Some(next),
        },
        Stage::Adopt => Holdings {
            root: None,
            held: Pair { first: 0, second: last_round(rounds) },
            reserved: Some(next),
        },
        Stage::Revise { revision } => Holdings {
            root: None,
            held: Pair { first: revision, second: 0 },
            reserved: None,
        },
        Stage::Seal { revision } => Holdings {
            root: None,
            held: Pair { first: revision, second: 0 },
            reserved: None,
        },
        Stage::Settle { revision } => Holdings {
            root: None,
            held: Pair { first: (revision + 1) as usize, second: 0 },
            reserved: None,
        },
        Stage::Finished => Holdings {
            root: None,
            held: Pair { first: 4, second: 0 },
            reserved: None,
        },
    }
}

/// The stages that a run of `rounds` rounds passes through.
pub open spec fn stage_in_run(stage: Stage, rounds: usize) -> bool {
    match stage {
        Stage::Advance { round } => 1 <= round <= last_round(rounds),
        Stage::Wait { round } => 1 <= round <= last_round(rounds),
        Stage::Churn { round } => 1 <= round < rounds,
        Stage::Revise { revision } => 1 <= revision <= 3,
        Stage::Seal { revision } => 1 <= revision <= 3,
        Stage::Settle { revision } => 1 <= revision <= 3,
        _ => true,
    }
}

/// The number of steps that are left at a stage, the last one included.
pub open spec fn steps_left(stage: Stage, rounds: usize) -> int {
    let last = last_round(rounds);
    match stage {
        Stage::Root => 15 + 3 * (last - 1),
        Stage::Initial => 14 + 3 * (last - 1),
        Stage::Reserve => 13 + 3 * (last - 1),
        Stage::Advance { round } => 12 + 3 * (last - round),
        Stage::Wait { round } => 11 + 3 * (last - round),
        Stage::Churn { round } => 10 + 3 * (last - round),
        Stage::Adopt => 10,
        Stage::Revise { revision } => 12 - 3 * revision,
        Stage::Seal { revision } => 11 - 3 * revision,
        Stage::Settle { revision } => 10 - 3 * revision,
        Stage::Finished => 0,
    }
}

/// A run comes to its end: at every stage of a run some steps are left,
/// and none is left only when the run is over.
pub proof fn lemma_steps_left(stage: Stage, rounds: usize)
    requires
        stage_in_run(stage, rounds),
    ensures
        steps_left(stage, rounds) >= 0,
        steps_left(stage, rounds) == 0 <==> stage == Stage::Finished,
{
}

/// A step is admissible when the capabilities held before it allow it:
/// changes are introduced only at times that a held capability permits, a
/// capability moves or is made only for a time after or equal to its own,
/// and a wait is only for a time that no capability still held is strictly
/// before, so that the wait ends once the computation has settled.
pub open spec fn admissible(step: Step, before: Holdings, after: Holdings) -> bool {
    match step {
        Step::Root { time } => before.root is Some && before.root->Some_0.le(time) && after == (
        Holdings { root: None, ..before }),
        Step::Feed { time, batch } => before.held.le(time) && after == before,
        Step::Reserve { time } => before.held.le(time) && before.reserved is None && after == (
        Holdings { reserved: Some(time), ..before }),
        Step::Downgrade { time } => before.held.le(time) && after == (Holdings {
            held: time,
            ..before
        }),
        Step::Await { time } => after == before && !precedes(outstanding(after), time),
        Step::Adopt => before.reserved is Some && after == (Holdings {
            held: before.reserved->Some_0,
            reserved: None,
            ..before
        }),
        Step::Finished => after == before,
    }
}

/// The driver of one worker.
#[derive(Debug)]
pub struct Driver {
    rounds: usize,
    stage: Stage,
    root: Option<Capability<Time>>,
    held: Capability<Time>,
    reserved: Option<Capability<Time>>,
}

/// The time of a capability that may be there.
pub open spec fn time_of(capability: Option<Capability<Time>>) -> Option<Time> {
    match capability {
        Some(c) => Some(c@),
        None => None,
    }
}

impl View for Driver {
    type V = DriverView;

    closed spec fn view(&self) -> DriverView {
        DriverView {
            rounds: self.rounds,
            stage: self.stage,
            holdings: Holdings {
                root: time_of(self.root),
                held: self.held@,
                reserved: time_of(self.reserved),
            },
        }
    }
}

impl Driver {
    /// The driver is at a stage of its run and holds what it holds there.
    pub open spec fn wf(&self) -> bool {
        &&& self@.rounds < usize::MAX
        &&& stage_in_run(self@.stage, self@.rounds)
        &&& self@.holdings == holdings_at(self@.stage, self@.rounds)
    }

    /// A driver at the start of a run of `rounds` rounds of event time.
    pub fn new(rounds: usize) -> (r: Self)
        requires
            rounds < usize::MAX,
        ensures
            r.wf(),
            r@.rounds == rounds,
            r@.stage == Stage::Root,
    {
        Driver {
            rounds,
            stage: Stage::Root,
            root: Some(Capability::new(Pair::new(0, 0))),
            held: Capability::new(Pair::new(0, 0)),
            reserved: None,
        }
    }

    /// The number of rounds of event time.
    pub fn rounds(&self) -> (r: usize)
        ensures
            r == self@.rounds,
    {
        self.rounds
    }

    /// The stage at which the driver stands.
    pub fn stage(&self) -> (r: Stage)
        ensures
            r == self@.stage,
    {
        self.stage
    }

    /// Whether the run is over.
    pub fn finished(&self) -> (r: bool)
        ensures
            r == (self@.stage == Stage::Finished),
    {
        match self.stage {
            Stage::Finished => true,
            _ => false,
        }
    }

    /// The frontier that the worker's own capabilities leave once the
    /// computation has settled: the minimal times that it still holds.
    pub fn frontier(&self) -> (r: Frontier<Time>)
        ensures
            r@ == minimal(outstanding(self@.holdings)),
    {
        let mut times: Vec<Time> = Vec::new();
        times.push(self.held.time());
        match &self.reserved {
            Some(c) => {
                times.push(c.time());
            },
            None => {},
        }
        match &self.root {
            Some(c) => {
                times.push(c.time());
            },
            None => {},
        }
        proof {
            let all = outstanding(self@.holdings);
            assert forall|t: Time| times@.to_set().contains(t) == all.contains(t) by {
                if all.contains(t) {
                    if self@.holdings.held == t {
                        assert(times@[0] == t);
                    } else if self@.holdings.reserved == Some(t) {
                        assert(times@[1] == t);
                    } else {
                        assert(times@[times@.len() - 1] == t);
                    }
                }
            }
            assert(times@.to_set() =~= all);
        }
        Frontier::of(&times)
    }

    /// Takes the next step: says what is to be done, and moves the driver's
    /// own capabilities as that step moves the worker's. Each step is
    /// admissible, and one step fewer is left after it.
    pub fn next(&mut self) -> (step: Step)
        requires
            old(self).wf(),
        ensures
            final(self).wf(),
            final(self)@.rounds == old(self)@.rounds,
            step == step_at(old(self)@.stage, old(self)@.rounds),
            final(self)@.stage == stage_after(old(self)@.stage, old(self)@.rounds),
            admissible(step, old(self)@.holdings, final(self)@.holdings),
            old(self)@.stage != Stage::Finished ==> steps_left(
                final(self)@.stage,
                old(self)@.rounds,
            ) == steps_left(old(self)@.stage, old(self)@.rounds) - 1,
    {
        let rounds = self.rounds;
        match self.stage {
            Stage::Root => {
                let _ = self.root.take();
                self.stage = Stage::Initial;
                Step::Root { time: Pair::new(0, 0) }
            },
            Stage::Initial => {
                self.stage = Stage::Reserve;
                Step::Feed { time: Pair::new(0, 0), batch: Batch::Initial }
            },
            Stage::Reserve => {
                let time: Time = Pair::new(1, 0);
                match self.held.delayed(&time) {
                    Ok(c) => {
                        self.reserved = Some(c);
                    },
                    Err(_) => {},
                }
                self.stage = Stage::Advance { round: 1 };
                Step::Reserve { time }
            },
            Stage::Advance { round } => {
                let time: Time = Pair::new(0, round);
                let _ = self.held.downgrade(&time);
                self.stage = Stage::Wait { round };
                Step::Downgrade { time }
            },
            Stage::Wait { round } => {
                let time: Time = Pair::new(0, round);
                proof {
                    assert forall|c: Time| outstanding(self@.holdings).contains(c) implies !(
                    #[trigger] crate::lattice::lt(c, time)) by {}
                }
                if round < rounds {
                    self.stage = Stage::Churn { round };
                } else {
                    self.stage = Stage::Adopt;
                }
                Step::Await { time }
            },
            Stage::Churn { round } => {
                self.stage = Stage::Advance { round: round + 1 };
                Step::Feed { time: Pair::new(0, round), batch: Batch::Churn }
            },
            Stage::Adopt => {
                match self.reserved.take() {
                    Some(c) => {
                        self.held = c;
                    },
                    None => {},
                }
                self.stage = Stage::Revise { revision: 1 };
                Step::Adopt
            },
            Stage::Revise { revision } => {
                let time: Time = if revision == 1 {
                    Pair::new(1, 0)
                } else if revision == 2 {
                    Pair::new(2, 3)
                } else {
                    Pair::new(3, 1)
                };
                self.stage = Stage::Seal { revision };
                Step::Feed { time, batch: Batch::Additions }
            },
            Stage::Seal { revision } => {
                let time: Time = Pair::new(revision + 1, 0);
                let _ = self.held.downgrade(&time);
                self.stage = Stage::Settle { revision };
                Step::Downgrade { time }
            },
            Stage::Settle { revision } => {
                let time: Time = Pair::new(revision, rounds + 1);
                proof {
                    assert forall|c: Time| outstanding(self@.holdings).contains(c) implies !(
                    #[trigger] crate::lattice::lt(c, time)) by {}
                }
                if revision < 3 {
                    self.stage = Stage::Revise { revision: revision + 1 };
                } else {
                    self.stage = Stage::Finished;
                }
                Step::Await { time }
            },
            Stage::Finished => Step::Finished,
        }
    }
}

/// The share of `total` items that falls to the worker `index` of `peers`.
pub open spec fn share(total: usize, peers: usize, index: usize) -> int {
    total / peers + if index < total % peers {
        1int
    } else {
        0int
    }
}

/// The sum of the shares of the first `workers` workers.
pub open spec fn shares(total: usize, peers: usize, workers: nat) -> int
    decreases workers,
{
    if workers == 0 {
        0
    } else {
        shares(total, peers, (workers - 1) as nat) + share(total, peers, (workers - 1) as usize)
    }
}

/// The share of `total` items that falls to the worker `index` of `peers`:
/// the items are dealt out as evenly as they go, the first workers taking
/// what is left over.
pub fn worker_share(total: usize, peers: usize, index: usize) -> (r: usize)
    requires
        peers > 0,
    ensures
        r == share(total, peers, index),
{
    let base = total / peers;
    let extra = total % peers;
    if index < extra {
        proof {
            assert(base < usize::MAX) by (nonlinear_arith)
                requires
                    base == total / peers,
                    0 < total % peers,
                    peers > 0,
                    total <= usize::MAX,
            ;
        }
        base + 1
    } else {
        base
    }
}

proof fn lemma_shares_prefix(total: usize, peers: usize, workers: nat)
    requires
        peers > 0,
        workers <= peers,
    ensures
        shares(total, peers, workers) == workers * (total / peers) + if workers <= total % peers {
            workers as int
        } else {
            (total % peers) as int
        },
    decreases workers,
{
    let quotient = (total / peers) as int;
    if workers == 0 {
        assert(0 * quotient == 0);
    } else {
        lemma_shares_prefix(total, peers, (workers - 1) as nat);
        assert(workers * quotient == (workers - 1) * quotient + quotient) by (nonlinear_arith);
        assert((workers - 1) as usize == workers - 1);
    }
}

/// The shares of all the workers add up to the total: every item falls to
/// exactly one of them.
pub proof fn lemma_shares_cover(total: usize, peers: usize)
    requires
        peers > 0,
    ensures
        shares(total, peers, peers as nat) == total,
{
    lemma_shares_prefix(total, peers, peers as nat);
    vstd::arithmetic::div_mod::lemma_fundamental_div_mod(total as int, peers as int);
    vstd::arithmetic::div_mod::lemma_mod_bound(total as int, peers as int);
}

} // verus!
