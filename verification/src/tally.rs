//! Counting by key: for a collection of keys and values that changes from
//! epoch to epoch, the number of values under each key, as changes.

use vstd::prelude::*;
use crate::changes::{
    accumulate, contains, indicator, lemma_concat_contains, lemma_multiplicity_concat,
    lemma_multiplicity_within, weights_within,
    lemma_multiplicity_of_later, lemma_multiplicity_of_one, lemma_multiplicity_settled,
    lemma_multiplicity_support, lemma_push_contains, multiplicity, weight_bound, Change, Datum,
};
use crate::lattice::Lattice;
use crate::trace::{beyond, compacted, lemma_compaction_keeps_multiplicity};

verus! {

/// The changes with each datum reduced to its key.
pub open spec fn keys_of<K, V, T>(changes: Seq<Change<(K, V), T>>) -> Seq<Change<K, T>> {
    Seq::new(
        changes.len(),
        |i: int|
            Change { datum: changes[i].datum.0, time: changes[i].time, weight: changes[i].weight },
    )
}

/// Some value under `key` has a multiplicity other than zero at time `at`.
pub open spec fn live<K, V, T: Lattice>(changes: Seq<Change<(K, V), T>>, key: K, at: T) -> bool {
    exists|value: V| multiplicity(changes, (key, value), at) != 0
}

/// The count under `key` at time `at`: the sum of the multiplicities of the
/// values under it, where one of them is not zero, and nothing otherwise.
pub open spec fn count_at<K, V, T: Lattice>(changes: Seq<Change<(K, V), T>>, key: K, at: T)
    -> Option<int> {
    if live(changes, key, at) {
        Some(multiplicity(keys_of(changes), key, at))
    } else {
        None
    }
}

/// The count under `key` just before `epoch`: nothing before the first epoch.
pub open spec fn count_before<K, V>(changes: Seq<Change<(K, V), usize>>, key: K, epoch: usize)
    -> Option<int> {
    if epoch == 0 {
        None
    } else {
        count_at(changes, key, (epoch - 1) as usize)
    }
}

/// The count under `key` at time `at` is a 64-bit number.
pub open spec fn fits<K, V, T: Lattice>(changes: Seq<Change<(K, V), T>>, key: K, at: T) -> bool {
    i64::MIN <= multiplicity(keys_of(changes), key, at) <= i64::MAX
}

/// Counts fit where the weights are small: if no weight is larger in size
/// than `bound`, and the number of changes times `bound` is a 64-bit number,
/// then so is the count under every key at every time.
pub proof fn lemma_small_weights_fit<K, V, T: Lattice>(
    changes: Seq<Change<(K, V), T>>,
    bound: int,
    key: K,
    at: T,
)
    requires
        weights_within(changes, bound),
        changes.len() * bound <= i64::MAX,
    ensures
        fits(changes, key, at),
{
    let projected = keys_of(changes);
    assert forall|i: int| 0 <= i < projected.len() implies -bound <= (
    #[trigger] projected[i]).weight <= bound by {
        assert(projected[i].weight == changes[i].weight);
    }
    lemma_multiplicity_within(projected, bound, key, at);
}

/// `out` is one of the changes of the counts: at its epoch the count under
/// its key changes, and `out` either retracts the count that held before or
/// asserts the count that holds from then on.
pub open spec fn counted<K, V>(
    changes: Seq<Change<(K, V), usize>>,
    out: Change<(K, i64), usize>,
) -> bool {
    let before = count_before(changes, out.datum.0, out.time);
    let after = count_at(changes, out.datum.0, out.time);
    before != after && ((out.weight == 1 && after == Some(out.datum.1 as int)) || (out.weight
        == -1 && before == Some(out.datum.1 as int)))
}

/// Import fidelity for counts: at any time in the future of the floor, the
/// count under a key in a collection that was imported from a compacted
/// history is the count under it in the changes that the history was built
/// from.
pub proof fn lemma_import_keeps_counts<K, V, T: Lattice>(
    changes: Seq<Change<(K, V), T>>,
    floor: Seq<T>,
    key: K,
    at: T,
)
    requires
        beyond(floor, at),
    ensures
        count_at(compacted(changes, floor), key, at) == count_at(changes, key, at),
{
    assert(keys_of(compacted(changes, floor)) =~= compacted(keys_of(changes), floor));
    lemma_compaction_keeps_multiplicity(keys_of(changes), floor, key, at);
    assert forall|value: V|
        multiplicity(compacted(changes, floor), (key, value), at) == multiplicity(
            changes,
            (key, value),
            at,
        ) by {
        lemma_compaction_keeps_multiplicity(changes, floor, (key, value), at);
    }
    if live(changes, key, at) {
        let value = choose|value: V| multiplicity(changes, (key, value), at) != 0;
        assert(multiplicity(compacted(changes, floor), (key, value), at) != 0);
    }
    if live(compacted(changes, floor), key, at) {
        let value = choose|value: V|
            multiplicity(compacted(changes, floor), (key, value), at) != 0;
        assert(multiplicity(changes, (key, value), at) != 0);
    }
}

/// The count under `key` at time `at`.
pub fn count<K: Datum + Copy, V: Datum + Copy, T: Lattice>(
    changes: &Vec<Change<(K, V), T>>,
    key: &K,
    at: &T,
) -> (r: Option<i64>)
    requires
        fits(changes@, *key, *at),
    ensures
        match r {
            Some(c) => count_at(changes@, *key, *at) == Some(c as int),
            None => count_at(changes@, *key, *at) == None::<int>,
        },
{
    let mut alive = false;
    let mut total: i128 = 0;
    let mut i: usize = 0;
    while i < changes.len()
        invariant
            i <= changes.len(),
            alive <==> exists|j: int|
                0 <= j < i && (#[trigger] changes@[j]).datum.0 == *key && multiplicity(
                    changes@,
                    changes@[j].datum,
                    *at,
                ) != 0,
            total == multiplicity(keys_of(changes@).take(i as int), *key, *at),
            -weight_bound(i as int) <= total <= weight_bound(i as int),
        decreases changes.len() - i,
    {
        let change = changes[i];
        let ghost was = alive;
        proof {
            assert(keys_of(changes@).take(i + 1).drop_last() =~= keys_of(changes@).take(i as int));
            assert(keys_of(changes@).take(i + 1).last() == keys_of(changes@)[i as int]);
        }
        if change.datum.0.same(key) {
            if change.time.less_equal(at) {
                total = total + change.weight as i128;
            }
            let weight = accumulate(changes, &change.datum, at);
            if weight != 0 {
                alive = true;
            }
        }
        proof {
            if alive {
                if was {
                    let j = choose|j: int|
                        0 <= j < i && (#[trigger] changes@[j]).datum.0 == *key && multiplicity(
                            changes@,
                            changes@[j].datum,
                            *at,
                        ) != 0;
                    assert(0 <= j < i + 1 && changes@[j].datum.0 == *key && multiplicity(
                        changes@,
                        changes@[j].datum,
                        *at,
                    ) != 0);
                } else {
                    assert(changes@[i as int].datum.0 == *key && multiplicity(
                        changes@,
                        changes@[i as int].datum,
                        *at,
                    ) != 0);
                }
            } else {
                assert forall|j: int| 0 <= j < i + 1 implies !((#[trigger] changes@[j]).datum.0
                    == *key && multiplicity(changes@, changes@[j].datum, *at) != 0) by {}
            }
        }
        i = i + 1;
    }
    proof {
        assert(keys_of(changes@).take(i as int) =~= keys_of(changes@));
        if alive {
            let j = choose|j: int|
                0 <= j < i && (#[trigger] changes@[j]).datum.0 == *key && multiplicity(
                    changes@,
                    changes@[j].datum,
                    *at,
                ) != 0;
            assert(changes@[j].datum == (*key, changes@[j].datum.1));
            assert(multiplicity(changes@, (*key, changes@[j].datum.1), *at) != 0);
        }
        if live(changes@, *key, *at) {
            let value = choose|value: V| multiplicity(changes@, (*key, value), *at) != 0;
            lemma_multiplicity_support(changes@, (*key, value), *at);
            let j = choose|j: int|
                0 <= j < changes@.len() && (#[trigger] changes@[j]).datum == (*key, value);
            assert(changes@[j].datum.0 == *key && multiplicity(changes@, changes@[j].datum, *at)
                != 0);
        }
    }
    if alive {
        Some(total as i64)
    } else {
        None
    }
}

/// The keys of `changes`, each once.
pub fn keys<K: Datum + Copy, V: Copy, T: Copy>(changes: &Vec<Change<(K, V), T>>) -> (r: Vec<K>)
    ensures
        r@.no_duplicates(),
        forall|key: K|
            r@.contains(key) <==> exists|i: int|
                0 <= i < changes@.len() && (#[trigger] changes@[i]).datum.0 == key,
{
    let mut found: Vec<K> = Vec::new();
    let mut i: usize = 0;
    while i < changes.len()
        invariant
            i <= changes.len(),
            found@.no_duplicates(),
            forall|key: K|
                found@.contains(key) <==> exists|j: int|
                    0 <= j < i && (#[trigger] changes@[j]).datum.0 == key,
        decreases changes.len() - i,
    {
        let key = changes[i].datum.0;
        let ghost before = found@;
        if !contains(&found, &key) {
            found.push(key);
        }
        proof {
            assert forall|k: K|
                found@.contains(k) <==> exists|j: int|
                    0 <= j < i + 1 && (#[trigger] changes@[j]).datum.0 == k by {
                if found@.contains(k) {
                    let m = choose|m: int| 0 <= m < found@.len() && found@[m] == k;
                    if m < before.len() {
                        assert(before[m] == k);
                        assert(before.contains(k));
                        let j = choose|j: int|
                            0 <= j < i && (#[trigger] changes@[j]).datum.0 == k;
                        assert(0 <= j < i + 1 && changes@[j].datum.0 == k);
                    } else {
                        assert(changes@[i as int].datum.0 == k);
                    }
                }
                if exists|j: int| 0 <= j < i + 1 && (#[trigger] changes@[j]).datum.0 == k {
                    let j = choose|j: int|
                        0 <= j < i + 1 && (#[trigger] changes@[j]).datum.0 == k;
                    if j < i {
                        assert(before.contains(k));
                        let m = choose|m: int| 0 <= m < before.len() && before[m] == k;
                        assert(found@[m] == k);
                    } else if before.contains(k) {
                        let m = choose|m: int| 0 <= m < before.len() && before[m] == k;
                        assert(found@[m] == k);
                    } else {
                        assert(found@[before.len() as int] == k);
                    }
                }
            }
        }
        i = i + 1;
    }
    found
}

/// A key whose count is something at some time is the key of a change.
proof fn lemma_counted_key_occurs<K, V, T: Lattice>(
    changes: Seq<Change<(K, V), T>>,
    key: K,
    at: T,
)
    requires
        count_at(changes, key, at) is Some,
    ensures
        exists|i: int| 0 <= i < changes.len() && (#[trigger] changes[i]).datum.0 == key,
{
    let value = choose|value: V| multiplicity(changes, (key, value), at) != 0;
    lemma_multiplicity_support(changes, (key, value), at);
    let i = choose|i: int| 0 <= i < changes.len() && (#[trigger] changes[i]).datum == (key, value);
    assert(changes[i].datum.0 == key);
}

/// The changes of the counts at one epoch: for each key whose count at
/// `epoch` is not what it was just before, the retraction of the old count,
/// if there was one, and the assertion of the new count, if there is one.
pub fn counts_at<K: Datum + Copy, V: Datum + Copy>(
    changes: &Vec<Change<(K, V), usize>>,
    epoch: usize,
) -> (r: Vec<Change<(K, i64), usize>>)
    requires
        forall|key: K, at: usize|
            (at == epoch || at + 1 == epoch) ==> #[trigger] fits(changes@, key, at),
    ensures
        r@.no_duplicates(),
        forall|out: Change<(K, i64), usize>|
            r@.contains(out) <==> out.time == epoch && counted(changes@, out),
{
    let all = keys(changes);
    let mut outs: Vec<Change<(K, i64), usize>> = Vec::new();
    let mut i: usize = 0;
    while i < all.len()
        invariant
            i <= all.len(),
            all@.no_duplicates(),
            forall|key: K, at: usize|
                (at == epoch || at + 1 == epoch) ==> #[trigger] fits(changes@, key, at),
            outs@.no_duplicates(),
            forall|out: Change<(K, i64), usize>|
                outs@.contains(out) <==> out.time == epoch && counted(changes@, out) && all@.take(
                    i as int,
                ).contains(out.datum.0),
        decreases all.len() - i,
    {
        let key = all[i];
        let before = if epoch == 0 {
            None
        } else {
            count(changes, &key, &(epoch - 1))
        };
        let after = count(changes, &key, &epoch);
        let ghost prior = outs@;
        let differ = match (before, after) {
            (None, None) => false,
            (Some(b), Some(a)) => b != a,
            _ => true,
        };
        if differ {
            match before {
                Some(b) => {
                    outs.push(Change { datum: (key, b), time: epoch, weight: -1 });
                },
                None => {},
            }
            match after {
                Some(a) => {
                    outs.push(Change { datum: (key, a), time: epoch, weight: 1 });
                },
                None => {},
            }
        }
        proof {
            assert(all@.take(i + 1) =~= all@.take(i as int).push(key));
            assert(!all@.take(i as int).contains(key)) by {
                if all@.take(i as int).contains(key) {
                    let m = choose|m: int| 0 <= m < i && all@.take(i as int)[m] == key;
                    assert(all@[m] == all@[i as int]);
                }
            }
            let retract = Change { datum: (key, before.unwrap_or(0)), time: epoch, weight: -1i64 };
            let assert_ = Change { datum: (key, after.unwrap_or(0)), time: epoch, weight: 1i64 };
            let added: Seq<Change<(K, i64), usize>> = if !differ {
                Seq::empty()
            } else if before is Some && after is Some {
                seq![retract, assert_]
            } else if before is Some {
                seq![retract]
            } else {
                seq![assert_]
            };
            assert(outs@ =~= prior + added);
            assert forall|out: Change<(K, i64), usize>|
                outs@.contains(out) <==> out.time == epoch && counted(changes@, out) && all@.take(
                    i + 1,
                ).contains(out.datum.0) by {
                lemma_concat_contains(prior, added, out);
                lemma_push_contains(all@.take(i as int), key, out.datum.0);
                if added.contains(out) {
                    let m = choose|m: int| 0 <= m < added.len() && added[m] == out;
                    assert(out.datum.0 == key);
                }
                if out.time == epoch && counted(changes@, out) && out.datum.0 == key {
                    if out.weight == 1 {
                        assert(out == assert_);
                        assert(added[added.len() - 1] == out);
                    } else {
                        assert(out == retract);
                        assert(added[0] == out);
                    }
                }
            }
            assert forall|a: int, b: int|
                0 <= a < outs@.len() && 0 <= b < outs@.len() && a != b implies outs@[a]
                != outs@[b] by {
                if a >= prior.len() && b < prior.len() {
                    assert(prior.contains(outs@[b]));
                    assert(outs@[a].datum.0 == key);
                } else if b >= prior.len() && a < prior.len() {
                    assert(prior.contains(outs@[a]));
                    assert(outs@[b].datum.0 == key);
                }
            }
        }
        i = i + 1;
    }
    proof {
        assert(all@.take(i as int) =~= all@);
        assert forall|out: Change<(K, i64), usize>|
            out.time == epoch && counted(changes@, out) implies all@.contains(out.datum.0) by {
            if count_at(changes@, out.datum.0, epoch) is Some {
                lemma_counted_key_occurs(changes@, out.datum.0, epoch);
            } else {
                lemma_counted_key_occurs(changes@, out.datum.0, (epoch - 1) as usize);
            }
        }
    }
    outs
}

/// The changes of the counts over the epochs before `epochs`, epoch by
/// epoch: each change of a count once, and nothing else. At every epoch
/// the changes so far add up to one for each key with its count at that
/// epoch, and to nothing for every other key and number.
pub fn count_by_key<K: Datum + Copy, V: Datum + Copy>(
    changes: &Vec<Change<(K, V), usize>>,
    epochs: usize,
) -> (r: Vec<Change<(K, i64), usize>>)
    requires
        forall|key: K, at: usize| at < epochs ==> #[trigger] fits(changes@, key, at),
    ensures
        r@.no_duplicates(),
        forall|out: Change<(K, i64), usize>|
            r@.contains(out) <==> out.time < epochs && counted(changes@, out),
        forall|key: K, number: i64, at: usize|
            at < epochs ==> #[trigger] multiplicity(r@, (key, number), at) == indicator(
                count_at(changes@, key, at) == Some(number as int),
            ),
{
    let mut outs: Vec<Change<(K, i64), usize>> = Vec::new();
    let mut epoch: usize = 0;
    while epoch < epochs
        invariant
            epoch <= epochs,
            forall|key: K, at: usize| at < epochs ==> #[trigger] fits(changes@, key, at),
            outs@.no_duplicates(),
            forall|out: Change<(K, i64), usize>|
                outs@.contains(out) <==> out.time < epoch && counted(changes@, out),
            forall|key: K, number: i64, at: usize|
                at < epoch ==> #[trigger] multiplicity(outs@, (key, number), at) == indicator(
                    count_at(changes@, key, at) == Some(number as int),
                ),
        decreases epochs - epoch,
    {
        let ghost prior = outs@;
        let mut step = counts_at(changes, epoch);
        let ghost added = step@;
        outs.append(&mut step);
        proof {
            assert(outs@ =~= prior + added);
            assert forall|i: int| 0 <= i < prior.len() implies (#[trigger] prior[i]).time
                < epoch by {
                assert(prior.contains(prior[i]));
            }
            assert forall|i: int| 0 <= i < added.len() implies (#[trigger] added[i]).time == epoch
                && counted(changes@, added[i]) by {
                assert(added.contains(added[i]));
            }
            assert forall|out: Change<(K, i64), usize>|
                outs@.contains(out) <==> out.time < epoch + 1 && counted(changes@, out) by {
                lemma_concat_contains(prior, added, out);
            }
            assert forall|a: int, b: int|
                0 <= a < outs@.len() && 0 <= b < outs@.len() && a != b implies outs@[a]
                != outs@[b] by {
                if a >= prior.len() && b >= prior.len() {
                    assert(added[a - prior.len()] != added[b - prior.len()]);
                } else if a >= prior.len() {
                    assert(added[a - prior.len()].time == epoch);
                } else if b >= prior.len() {
                    assert(added[b - prior.len()].time == epoch);
                }
            }
            assert forall|key: K, number: i64, at: usize| at < epoch + 1 implies #[trigger] multiplicity(
                outs@,
                (key, number),
                at,
            ) == indicator(count_at(changes@, key, at) == Some(number as int)) by {
                lemma_multiplicity_concat(prior, added, (key, number), at);
                if at < epoch {
                    assert forall|i: int| 0 <= i < added.len() implies !(#[trigger] added[i]).time.le(
                        at,
                    ) by {}
                    lemma_multiplicity_of_later(added, (key, number), at);
                } else {
                    let was = count_before(changes@, key, epoch);
                    let is = count_at(changes@, key, epoch);
                    if epoch == 0 {
                        assert(prior.len() == 0) by {
                            if prior.len() > 0 {
                                assert(prior[0].time < epoch);
                            }
                        }
                    } else {
                        let earlier = (epoch - 1) as usize;
                        assert forall|i: int| 0 <= i < prior.len() implies (
                        #[trigger] prior[i]).time.le(earlier) by {}
                        lemma_multiplicity_settled(prior, (key, number), earlier, at);
                    }
                    assert(multiplicity(prior, (key, number), at) == indicator(
                        was == Some(number as int),
                    ));
                    let weight: i64 = if is == Some(number as int) {
                        1i64
                    } else {
                        -1i64
                    };
                    let only = Change { datum: (key, number), time: epoch, weight };
                    assert forall|i: int|
                        0 <= i < added.len() && (#[trigger] added[i]).datum
                            == only.datum implies added[i] == only by {}
                    lemma_multiplicity_of_one(added, only, at);
                    assert(added.contains(only) <==> counted(changes@, only));
                }
            }
        }
        epoch = epoch + 1;
    }
    outs
}

} // verus!
