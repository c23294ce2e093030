//! Capture: the changes that a computation produced, gathered at one
//! place, drained once, and laid out time by time for comparison.

use vstd::prelude::*;
use crate::changes::{weight_bound, Change, Datum};
use crate::order::{ascending, sort, Ordered};

verus! {

/// The worker at which every worker's results are gathered.
pub const COLLECTOR: u64 = 0;

/// The changes gathered so far, in the order in which they arrived.
#[derive(Debug)]
pub struct Capture<D, T> {
    events: Vec<Change<D, T>>,
}

impl<D, T> View for Capture<D, T> {
    type V = Seq<Change<D, T>>;

    closed spec fn view(&self) -> Seq<Change<D, T>> {
        self.events@
    }
}

impl<D, T> Capture<D, T> {
    /// A capture to which nothing has arrived.
    pub fn new() -> (r: Self)
        ensures
            r@ == Seq::<Change<D, T>>::empty(),
    {
        Capture { events: Vec::new() }
    }

    /// Takes in one change.
    pub fn record(&mut self, change: Change<D, T>)
        ensures
            final(self)@ == old(self)@.push(change),
    {
        self.events.push(change);
    }

    /// Drains the capture: hands out everything that has arrived, in the
    /// order of arrival, and leaves nothing behind.
    pub fn extract(&mut self) -> (r: Vec<Change<D, T>>)
        ensures
            r@ == old(self)@,
            final(self)@ == Seq::<Change<D, T>>::empty(),
    {
        let mut drained: Vec<Change<D, T>> = Vec::new();
        std::mem::swap(&mut drained, &mut self.events);
        drained
    }
}

/// Each change as a time and what happened at it.
pub open spec fn keyed<D>(captured: Seq<Change<D, usize>>) -> Seq<(usize, (D, i64))> {
    Seq::new(captured.len(), |i: int| (captured[i].time, (captured[i].datum, captured[i].weight)))
}

/// The items of one group, each with the group's time.
pub open spec fn tagged<D>(time: usize, group: Seq<(D, i64)>) -> Seq<(usize, (D, i64))> {
    Seq::new(group.len(), |i: int| (time, group[i]))
}

/// The items of all the groups of a table, in the table's order, each with
/// its group's time.
pub open spec fn entries<D>(table: Seq<(usize, Vec<(D, i64)>)>) -> Seq<(usize, (D, i64))>
    decreases table.len(),
{
    if table.len() == 0 {
        Seq::empty()
    } else {
        entries(table.drop_last()) + tagged(table.last().0, table.last().1@)
    }
}

/// The captured changes time by time: one group for each time at which
/// something was captured, the times ascending, and in each group the data
/// and weights captured at that time, ascending by datum and then by weight.
/// Nothing is added, dropped or merged.
pub fn by_time<D: Ordered + Copy>(captured: &Vec<Change<D, usize>>) -> (table: Vec<
    (usize, Vec<(D, i64)>),
>)
    ensures
        ascending(entries(table@)),
        entries(table@).to_multiset() == keyed(captured@).to_multiset(),
        forall|i: int, j: int|
            0 <= i < j < table@.len() ==> (#[trigger] table@[i]).0 < (#[trigger] table@[j]).0,
        forall|i: int| 0 <= i < table@.len() ==> (#[trigger] table@[i]).1@.len() > 0,
{
    let mut keys: Vec<(usize, (D, i64))> = Vec::new();
    let mut k: usize = 0;
    while k < captured.len()
        invariant
            k <= captured.len(),
            keys@ == keyed(captured@).take(k as int),
        decreases captured.len() - k,
    {
        let change = captured[k];
        keys.push((change.time, (change.datum, change.weight)));
        proof {
            assert(keyed(captured@).take(k + 1) =~= keyed(captured@).take(k as int).push(
                keyed(captured@)[k as int],
            ));
        }
        k = k + 1;
    }
    proof {
        assert(keyed(captured@).take(k as int) =~= keyed(captured@));
    }
    let sorted = sort(&keys);
    let mut table: Vec<(usize, Vec<(D, i64)>)> = Vec::new();
    if sorted.len() == 0 {
        proof {
            broadcast use vstd::seq_lib::group_to_multiset_ensures;

            assert(sorted@ =~= Seq::empty());
            assert(keys@.to_multiset().len() == 0);
            assert(keys@ =~= Seq::empty());
        }
        return table;
    }
    let mut time = sorted[0].0;
    let mut group: Vec<(D, i64)> = Vec::new();
    group.push(sorted[0].1);
    let mut i: usize = 1;
    proof {
        assert(entries(table@) + tagged(time, group@) =~= sorted@.take(1));
    }
    while i < sorted.len()
        invariant
            1 <= i <= sorted.len(),
            ascending(sorted@),
            group@.len() > 0,
            time == sorted@[i - 1].0,
            entries(table@) + tagged(time, group@) == sorted@.take(i as int),
            forall|a: int, b: int|
                0 <= a < b < table@.len() ==> (#[trigger] table@[a]).0 < (#[trigger] table@[b]).0,
            forall|a: int| 0 <= a < table@.len() ==> (#[trigger] table@[a]).0 < time,
            forall|a: int| 0 <= a < table@.len() ==> (#[trigger] table@[a]).1@.len() > 0,
        decreases sorted.len() - i,
    {
        let entry = sorted[i];
        proof {
            assert(sorted@.take(i + 1) =~= sorted@.take(i as int).push(entry));
            assert(sorted@[i - 1].before(sorted@[i as int]));
        }
        if entry.0 == time {
            let ghost before = group@;
            group.push(entry.1);
            proof {
                assert(tagged(time, group@) =~= tagged(time, before).push(entry));
                assert(entries(table@) + tagged(time, group@) =~= (entries(table@) + tagged(
                    time,
                    before,
                )).push(entry));
            }
        } else {
            let ghost closed = table@;
            let ghost finished = group@;
            let ghost earlier = time;
            table.push((time, group));
            group = Vec::new();
            group.push(entry.1);
            time = entry.0;
            proof {
                assert(table@.drop_last() =~= closed);
                assert(entries(table@) == entries(closed) + tagged(earlier, finished));
                assert(tagged(time, group@) =~= seq![entry]);
                assert(entries(table@) + tagged(time, group@) =~= sorted@.take(i as int).push(
                    entry,
                ));
            }
        }
        i = i + 1;
    }
    let ghost closed = table@;
    let ghost finished = group@;
    table.push((time, group));
    proof {
        assert(table@.drop_last() =~= closed);
        assert(entries(table@) == entries(closed) + tagged(time, finished));
        assert(sorted@.take(i as int) =~= sorted@);
    }
    table
}

/// The net weight of `datum` in one group: the sum of the weights that the
/// group lists for it.
pub open spec fn net<D>(group: Seq<(D, i64)>, datum: D) -> int
    decreases group.len(),
{
    if group.len() == 0 {
        0
    } else {
        net(group.drop_last(), datum) + if group.last().0 == datum {
            group.last().1 as int
        } else {
            0
        }
    }
}

/// The net weight of `datum` in one group.
pub fn net_weight<D: Datum + Copy>(group: &Vec<(D, i64)>, datum: &D) -> (r: i128)
    ensures
        r == net(group@, *datum),
{
    let mut total: i128 = 0;
    let mut i: usize = 0;
    while i < group.len()
        invariant
            i <= group.len(),
            total == net(group@.take(i as int), *datum),
            -weight_bound(i as int) <= total <= weight_bound(i as int),
        decreases group.len() - i,
    {
        let item = group[i];
        proof {
            assert(group@.take(i + 1).drop_last() =~= group@.take(i as int));
            assert(group@.take(i + 1).last() == item);
        }
        if item.0.same(datum) {
            total = total + item.1 as i128;
        }
        i = i + 1;
    }
    proof {
        assert(group@.take(i as int) =~= group@);
    }
    total
}

} // verus!
