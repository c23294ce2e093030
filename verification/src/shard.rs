//! Sharding: which worker a key falls to, and the part of a collection
//! that a worker holds.

use vstd::prelude::*;
use crate::changes::{contribution, multiplicity, Change};
use crate::lattice::Lattice;

verus! {

/// The worker to which `key` falls among `peers` workers: the remainder of
/// the key by the number of workers.
pub open spec fn owner_of(key: u64, peers: usize) -> int {
    key as int % peers as int
}

/// The changes that fall to the worker `index` of `peers`, in their order:
/// those whose key falls to it.
pub open spec fn shard_of<V, T>(changes: Seq<Change<(u64, V), T>>, peers: usize, index: usize)
    -> Seq<Change<(u64, V), T>>
    decreases changes.len(),
{
    if changes.len() == 0 {
        Seq::empty()
    } else {
        let rest = shard_of(changes.drop_last(), peers, index);
        if owner_of(changes.last().datum.0, peers) == index {
            rest.push(changes.last())
        } else {
            rest
        }
    }
}

/// The worker to which `key` falls among `peers` workers.
pub fn owner(key: u64, peers: usize) -> (r: usize)
    requires
        peers > 0,
    ensures
        r == owner_of(key, peers),
        r < peers,
{
    (key % (peers as u64)) as usize
}

/// The changes that fall to the worker `index` of `peers`, in their order.
pub fn shard<V: Copy, T: Copy>(changes: &Vec<Change<(u64, V), T>>, peers: usize, index: usize)
    -> (r: Vec<Change<(u64, V), T>>)
    requires
        peers > 0,
    ensures
        r@ == shard_of(changes@, peers, index),
{
    let mut part: Vec<Change<(u64, V), T>> = Vec::new();
    let mut i: usize = 0;
    while i < changes.len()
        invariant
            i <= changes.len(),
            peers > 0,
            part@ == shard_of(changes@.take(i as int), peers, index),
        decreases changes.len() - i,
    {
        let change = changes[i];
        proof {
            assert(changes@.take(i + 1).drop_last() =~= changes@.take(i as int));
            assert(changes@.take(i + 1).last() == change);
        }
        if owner(change.datum.0, peers) == index {
            part.push(change);
        }
        i = i + 1;
    }
    proof {
        assert(changes@.take(i as int) =~= changes@);
    }
    part
}

/// All the changes to a datum are with the worker to which its key falls:
/// that worker's shard gives the datum the multiplicity that the whole
/// collection gives it, and every other shard gives it none.
pub proof fn lemma_shard_keeps_multiplicity<V, T: Lattice>(
    changes: Seq<Change<(u64, V), T>>,
    peers: usize,
    index: usize,
    datum: (u64, V),
    at: T,
)
    ensures
        multiplicity(shard_of(changes, peers, index), datum, at) == if owner_of(datum.0, peers)
            == index {
            multiplicity(changes, datum, at)
        } else {
            0
        },
    decreases changes.len(),
{
    if changes.len() > 0 {
        let rest = shard_of(changes.drop_last(), peers, index);
        lemma_shard_keeps_multiplicity(changes.drop_last(), peers, index, datum, at);
        if owner_of(changes.last().datum.0, peers) == index {
            assert(rest.push(changes.last()).drop_last() =~= rest);
            assert(rest.push(changes.last()).last() == changes.last());
        } else {
            assert(contribution(changes.last(), datum, at) == 0 || owner_of(datum.0, peers)
                != index);
        }
    }
}

} // verus!
