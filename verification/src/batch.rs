//! Batches of random edge changes, as a worker of the experiment introduces
//! them: drawn from a generator that is seeded by the worker's index.

use rand::{Rng, SeedableRng, StdRng};
use vstd::prelude::*;
use crate::changes::Change;

verus! {

#[verifier::external_type_specification]
#[verifier::external_body]
pub struct ExStdRng(rand::StdRng);

/// Calls rand's `SeedableRng::from_seed` for `StdRng` on a slice of `usize`:
/// a generator whose draws follow from the seed. Nothing is claimed of the
/// generator that comes back.
#[verifier::external_body]
fn seeded(seed: &Vec<usize>) -> (r: StdRng) {
    SeedableRng::from_seed(seed.as_slice())
}

/// Calls rand's `Rng::gen_range` on a `StdRng`. rand panics unless `low` is
/// below `high`, and otherwise gives a value from `low` up to, but not
/// including, `high`. Which one is not claimed.
#[verifier::external_body]
fn draw(rng: &mut StdRng, low: usize, high: usize) -> (r: usize)
    requires
        low < high,
    ensures
        low <= r < high,
{
    rng.gen_range(low, high)
}

/// The seed of the worker `index`.
pub fn worker_seed(index: usize) -> (r: Vec<usize>)
    ensures
        r@ == seq![1usize, 2usize, 3usize, index],
{
    let mut seed: Vec<usize> = Vec::new();
    seed.push(1);
    seed.push(2);
    seed.push(3);
    seed.push(index);
    proof {
        assert(seed@ =~= seq![1usize, 2usize, 3usize, index]);
    }
    seed
}

/// A generator for the worker `index`, seeded with `worker_seed(index)`.
/// The experiment gives each worker two of them, one to draw the edges it
/// inserts and one to draw the edges it removes. Nothing is stated of the
/// generator itself: it is rand's.
pub fn worker_rng(index: usize) -> (r: StdRng) {
    let seed = worker_seed(index);
    seeded(&seed)
}

/// Both ends of `edge` are nodes of a graph of `nodes` nodes.
pub open spec fn within(edge: (usize, usize), nodes: usize) -> bool {
    edge.0 < nodes && edge.1 < nodes
}

/// A random edge between two of `nodes` nodes: the source is drawn first.
pub fn random_edge(rng: &mut StdRng, nodes: usize) -> (r: (usize, usize))
    requires
        nodes > 0,
    ensures
        within(r, nodes),
{
    let source = draw(rng, 0, nodes);
    let target = draw(rng, 0, nodes);
    (source, target)
}

/// The change that inserts `edge` at `time`: one more of it is there from
/// `time` on.
pub open spec fn insertion_of<T>(edge: (usize, usize), time: T) -> Change<(usize, usize), T> {
    Change { datum: edge, time, weight: 1i64 }
}

/// The change that removes `edge` at `time`: one fewer of it is there from
/// `time` on.
pub open spec fn removal_of<T>(edge: (usize, usize), time: T) -> Change<(usize, usize), T> {
    Change { datum: edge, time, weight: -1i64 }
}

/// The change that inserts `edge` at `time`.
pub fn insertion<T>(edge: (usize, usize), time: T) -> (r: Change<(usize, usize), T>)
    ensures
        r == insertion_of(edge, time),
{
    Change { datum: edge, time, weight: 1 }
}

/// The change that removes `edge` at `time`.
pub fn removal<T>(edge: (usize, usize), time: T) -> (r: Change<(usize, usize), T>)
    ensures
        r == removal_of(edge, time),
{
    Change { datum: edge, time, weight: -1 }
}

/// The batch that inserts each of `edges` once at `time`, in their order.
pub fn additions_of<T: Copy>(edges: &Vec<(usize, usize)>, time: T) -> (r: Vec<
    Change<(usize, usize), T>,
>)
    ensures
        r@.len() == edges@.len(),
        forall|i: int|
            0 <= i < edges@.len() ==> r@[i] == insertion_of(#[trigger] edges@[i], time),
{
    let mut batch: Vec<Change<(usize, usize), T>> = Vec::new();
    let mut i: usize = 0;
    while i < edges.len()
        invariant
            i <= edges@.len(),
            batch@.len() == i,
            forall|j: int| 0 <= j < i ==> batch@[j] == insertion_of(#[trigger] edges@[j], time),
        decreases edges@.len() - i,
    {
        batch.push(insertion(edges[i], time));
        i = i + 1;
    }
    batch
}

/// The batch of a round of churn at `time`: for each pair of `pairs`, in
/// their order, the insertion of its first edge and then the removal of its
/// second.
pub fn churn_of<T: Copy>(pairs: &Vec<((usize, usize), (usize, usize))>, time: T) -> (r: Vec<
    Change<(usize, usize), T>,
>)
    ensures
        r@.len() == 2 * pairs@.len(),
        forall|i: int|
            0 <= i < pairs@.len() ==> r@[2 * i] == insertion_of((#[trigger] pairs@[i]).0, time)
                && r@[2 * i + 1] == removal_of(pairs@[i].1, time),
{
    let mut batch: Vec<Change<(usize, usize), T>> = Vec::new();
    let mut i: usize = 0;
    while i < pairs.len()
        invariant
            i <= pairs@.len(),
            batch@.len() == 2 * i,
            forall|j: int|
                0 <= j < i ==> batch@[2 * j] == insertion_of((#[trigger] pairs@[j]).0, time)
                    && batch@[2 * j + 1] == removal_of(pairs@[j].1, time),
        decreases pairs@.len() - i,
    {
        let pair = pairs[i];
        batch.push(insertion(pair.0, time));
        batch.push(removal(pair.1, time));
        i = i + 1;
    }
    batch
}

/// `count` random edges among `nodes` nodes, each inserted once at `time`.
/// Nothing is drawn where `count` is zero.
pub fn additions<T: Copy>(rng: &mut StdRng, count: usize, nodes: usize, time: T) -> (r: Vec<
    Change<(usize, usize), T>,
>)
    requires
        count > 0 ==> nodes > 0,
    ensures
        r@.len() == count,
        forall|i: int|
            0 <= i < count ==> (#[trigger] r@[i]).time == time && r@[i].weight == 1 && within(
                r@[i].datum,
                nodes,
            ),
{
    let mut edges: Vec<(usize, usize)> = Vec::new();
    let mut i: usize = 0;
    while i < count
        invariant
            i <= count,
            count > 0 ==> nodes > 0,
            edges@.len() == i,
            forall|j: int| 0 <= j < i ==> within(#[trigger] edges@[j], nodes),
        decreases count - i,
    {
        let edge = random_edge(rng, nodes);
        edges.push(edge);
        i = i + 1;
    }
    let batch = additions_of(&edges, time);
    proof {
        assert forall|j: int| 0 <= j < count implies (#[trigger] batch@[j]).time == time
            && batch@[j].weight == 1 && within(batch@[j].datum, nodes) by {
            assert(batch@[j] == insertion_of(edges@[j], time));
        }
    }
    batch
}

/// `count` random insertions and as many random removals among `nodes`
/// nodes, in turn, all at `time`: each inserted edge is drawn from
/// `insertions`, and after it the edge to remove from `removals`. Nothing is
/// drawn where `count` is zero.
pub fn churn<T: Copy>(
    insertions: &mut StdRng,
    removals: &mut StdRng,
    count: usize,
    nodes: usize,
    time: T,
) -> (r: Vec<Change<(usize, usize), T>>)
    requires
        count > 0 ==> nodes > 0,
    ensures
        r@.len() == 2 * count,
        forall|i: int|
            0 <= i < 2 * count ==> (#[trigger] r@[i]).time == time && within(r@[i].datum, nodes)
                && r@[i].weight == if i % 2 == 0 {
                1i64
            } else {
                -1i64
            },
{
    let mut pairs: Vec<((usize, usize), (usize, usize))> = Vec::new();
    let mut i: usize = 0;
    while i < count
        invariant
            i <= count,
            count > 0 ==> nodes > 0,
            pairs@.len() == i,
            forall|j: int|
                0 <= j < i ==> within((#[trigger] pairs@[j]).0, nodes) && within(
                    pairs@[j].1,
                    nodes,
                ),
        decreases count - i,
    {
        let inserted = random_edge(insertions, nodes);
        let removed = random_edge(removals, nodes);
        pairs.push((inserted, removed));
        i = i + 1;
    }
    let batch = churn_of(&pairs, time);
    proof {
        assert forall|k: int| 0 <= k < 2 * count implies (#[trigger] batch@[k]).time == time
            && within(batch@[k].datum, nodes) && batch@[k].weight == if k % 2 == 0 {
            1i64
        } else {
            -1i64
        } by {
            let j = k / 2;
            assert(within(pairs@[j].0, nodes) && within(pairs@[j].1, nodes));
            if k % 2 == 0 {
                assert(k == 2 * j);
            } else {
                assert(k == 2 * j + 1);
            }
        }
    }
    batch
}

} // verus!
