//! Change sets: collections described by signed changes of multiplicity at
//! partially ordered times.

use vstd::prelude::*;
use crate::lattice::Lattice;

verus! {

/// A payload that can be compared for equality.
pub trait Datum: Sized {
    /// Whether the two payloads are the same value.
    fn same(&self, other: &Self) -> (r: bool)
        ensures
            r == (*self == *other),
    ;
}

impl Datum for u64 {
    fn same(&self, other: &Self) -> (r: bool) {
        *self == *other
    }
}

impl Datum for usize {
    fn same(&self, other: &Self) -> (r: bool) {
        *self == *other
    }
}

impl Datum for i64 {
    fn same(&self, other: &Self) -> (r: bool) {
        *self == *other
    }
}

impl<A: Datum, B: Datum> Datum for (A, B) {
    fn same(&self, other: &Self) -> (r: bool) {
        self.0.same(&other.0) && self.1.same(&other.1)
    }
}

/// A change of `weight` in the multiplicity of `datum`, effective from `time` on.
#[derive(Debug, Clone, Copy, PartialEq, Eq)]
pub struct Change<D, T> {
    pub datum: D,
    pub time: T,
    pub weight: i64,
}

/// What one change adds to the multiplicity of `datum` at time `at`.
pub open spec fn contribution<D, T: Lattice>(change: Change<D, T>, datum: D, at: T) -> int {
    if change.datum == datum && change.time.le(at) {
        change.weight as int
    } else {
        0
    }
}

/// The multiplicity of `datum` at time `at`: the sum of the weights of all
/// changes to it at times before or equal to `at`.
pub open spec fn multiplicity<D, T: Lattice>(changes: Seq<Change<D, T>>, datum: D, at: T) -> int
    decreases changes.len(),
{
    if changes.len() == 0 {
        0
    } else {
        multiplicity(changes.drop_last(), datum, at) + contribution(changes.last(), datum, at)
    }
}

/// The data present at time `at`: those of positive multiplicity.
pub open spec fn present<D, T: Lattice>(changes: Seq<Change<D, T>>, at: T) -> Set<D> {
    Set::new(|datum: D| multiplicity(changes, datum, at) > 0)
}

/// One where `holds`, nothing where not.
pub open spec fn indicator(holds: bool) -> int {
    if holds {
        1
    } else {
        0
    }
}

/// Multiplicities add over concatenation.
pub proof fn lemma_multiplicity_concat<D, T: Lattice>(
    a: Seq<Change<D, T>>,
    b: Seq<Change<D, T>>,
    datum: D,
    at: T,
)
    ensures
        multiplicity(a + b, datum, at) == multiplicity(a, datum, at) + multiplicity(b, datum, at),
    decreases b.len(),
{
    if b.len() == 0 {
        assert(a + b =~= a);
    } else {
        assert((a + b).drop_last() =~= a + b.drop_last());
        assert((a + b).last() == b.last());
        lemma_multiplicity_concat(a, b.drop_last(), datum, at);
    }
}

/// The multiplicity of a single change is its contribution.
pub proof fn lemma_multiplicity_single<D, T: Lattice>(change: Change<D, T>, datum: D, at: T)
    ensures
        multiplicity(seq![change], datum, at) == contribution(change, datum, at),
{
    let s = seq![change];
    assert(s.drop_last() =~= Seq::<Change<D, T>>::empty());
    assert(multiplicity(s.drop_last(), datum, at) == 0);
    assert(s.last() == change);
}

/// A datum of non-zero multiplicity is the datum of some change.
pub proof fn lemma_multiplicity_support<D, T: Lattice>(
    changes: Seq<Change<D, T>>,
    datum: D,
    at: T,
)
    requires
        multiplicity(changes, datum, at) != 0,
    ensures
        exists|i: int| 0 <= i < changes.len() && (#[trigger] changes[i]).datum == datum,
    decreases changes.len(),
{
    if changes.len() > 0 {
        if changes.last().datum == datum {
            assert(changes[changes.len() - 1].datum == datum);
        } else {
            lemma_multiplicity_support(changes.drop_last(), datum, at);
            let i = choose|i: int|
                0 <= i < changes.drop_last().len() && (#[trigger] changes.drop_last()[i]).datum
                    == datum;
            assert(changes[i].datum == datum);
        }
    }
}

/// Retraction symmetry: a change and a later or earlier change of the
/// opposite weight to the same datum, wherever the two stand among other
/// changes, add nothing to any multiplicity at a time that both have reached.
pub proof fn lemma_retraction_cancels<D, T: Lattice>(
    before: Seq<Change<D, T>>,
    between: Seq<Change<D, T>>,
    after: Seq<Change<D, T>>,
    inserted: Change<D, T>,
    retracted: Change<D, T>,
    datum: D,
    at: T,
)
    requires
        inserted.datum == retracted.datum,
        inserted.weight + retracted.weight == 0,
        inserted.time.le(at),
        retracted.time.le(at),
    ensures
        multiplicity(before + seq![inserted] + between + seq![retracted] + after, datum, at)
            == multiplicity(before + between + after, datum, at),
{
    let i = seq![inserted];
    let r = seq![retracted];
    lemma_multiplicity_concat(before + i + between + r, after, datum, at);
    lemma_multiplicity_concat(before + i + between, r, datum, at);
    lemma_multiplicity_concat(before + i, between, datum, at);
    lemma_multiplicity_concat(before, i, datum, at);
    lemma_multiplicity_concat(before + between, after, datum, at);
    lemma_multiplicity_concat(before, between, datum, at);
    lemma_multiplicity_single(inserted, datum, at);
    lemma_multiplicity_single(retracted, datum, at);
}

/// Retraction symmetry for what is present: the pair of opposite changes
/// leaves the set of data present at such a time as it was.
pub proof fn lemma_retraction_keeps_present<D, T: Lattice>(
    before: Seq<Change<D, T>>,
    between: Seq<Change<D, T>>,
    after: Seq<Change<D, T>>,
    inserted: Change<D, T>,
    retracted: Change<D, T>,
    at: T,
)
    requires
        inserted.datum == retracted.datum,
        inserted.weight + retracted.weight == 0,
        inserted.time.le(at),
        retracted.time.le(at),
    ensures
        present(before + seq![inserted] + between + seq![retracted] + after, at) == present(
            before + between + after,
            at,
        ),
{
    let with = before + seq![inserted] + between + seq![retracted] + after;
    let without = before + between + after;
    assert forall|datum: D| present(with, at).contains(datum) == present(without, at).contains(
        datum,
    ) by {
        lemma_retraction_cancels(before, between, after, inserted, retracted, datum, at);
    }
    assert(present(with, at) =~= present(without, at));
}

/// No weight of `changes` is larger in size than `bound`.
pub open spec fn weights_within<D, T>(changes: Seq<Change<D, T>>, bound: int) -> bool {
    forall|i: int| 0 <= i < changes.len() ==> -bound <= (#[trigger] changes[i]).weight <= bound
}

/// A multiplicity is no larger in size than the number of changes times
/// the size of the largest weight.
pub proof fn lemma_multiplicity_within<D, T: Lattice>(
    changes: Seq<Change<D, T>>,
    bound: int,
    datum: D,
    at: T,
)
    requires
        weights_within(changes, bound),
    ensures
        -(changes.len() * bound) <= multiplicity(changes, datum, at) <= changes.len() * bound,
    decreases changes.len(),
{
    if changes.len() == 0 {
        assert(changes.len() * bound == 0) by (nonlinear_arith)
            requires
                changes.len() == 0,
        ;
    } else {
        let rest = changes.drop_last();
        assert(-bound <= changes[changes.len() - 1].weight <= bound);
        assert forall|i: int| 0 <= i < rest.len() implies -bound <= (#[trigger] rest[i]).weight
            <= bound by {
            assert(rest[i] == changes[i]);
        }
        lemma_multiplicity_within(rest, bound, datum, at);
        assert(changes.len() * bound == rest.len() * bound + bound) by (nonlinear_arith)
            requires
                changes.len() == rest.len() + 1,
        ;
    }
}

/// Changes at times that are not before or equal to `at` add nothing to a
/// multiplicity at `at`.
pub proof fn lemma_multiplicity_of_later<D, T: Lattice>(
    changes: Seq<Change<D, T>>,
    datum: D,
    at: T,
)
    requires
        forall|i: int| 0 <= i < changes.len() ==> !(#[trigger] changes[i]).time.le(at),
    ensures
        multiplicity(changes, datum, at) == 0,
    decreases changes.len(),
{
    if changes.len() > 0 {
        let rest = changes.drop_last();
        assert(!changes[changes.len() - 1].time.le(at));
        assert forall|i: int| 0 <= i < rest.len() implies !(#[trigger] rest[i]).time.le(at) by {
            assert(rest[i] == changes[i]);
        }
        lemma_multiplicity_of_later(rest, datum, at);
    }
}

/// Changes at times before or equal to `from` count at every time after
/// `from` as they count at `from`.
pub proof fn lemma_multiplicity_settled<D, T: Lattice>(
    changes: Seq<Change<D, T>>,
    datum: D,
    from: T,
    at: T,
)
    requires
        from.le(at),
        forall|i: int| 0 <= i < changes.len() ==> (#[trigger] changes[i]).time.le(from),
    ensures
        multiplicity(changes, datum, at) == multiplicity(changes, datum, from),
    decreases changes.len(),
{
    if changes.len() > 0 {
        let rest = changes.drop_last();
        assert(changes[changes.len() - 1].time.le(from));
        T::lemma_transitive(changes.last().time, from, at);
        assert forall|i: int| 0 <= i < rest.len() implies (#[trigger] rest[i]).time.le(from) by {
            assert(rest[i] == changes[i]);
        }
        lemma_multiplicity_settled(rest, datum, from, at);
    }
}

/// Where `only` is the one change to its datum that may occur among
/// `changes`, and none occurs twice, the multiplicity of that datum is what
/// `only` adds if it occurs, and nothing if it does not.
pub proof fn lemma_multiplicity_of_one<D, T: Lattice>(
    changes: Seq<Change<D, T>>,
    only: Change<D, T>,
    at: T,
)
    requires
        changes.no_duplicates(),
        forall|i: int|
            0 <= i < changes.len() && (#[trigger] changes[i]).datum == only.datum ==> changes[i]
                == only,
    ensures
        multiplicity(changes, only.datum, at) == if changes.contains(only) {
            contribution(only, only.datum, at)
        } else {
            0
        },
    decreases changes.len(),
{
    if changes.len() > 0 {
        let rest = changes.drop_last();
        let last = changes.last();
        assert forall|i: int|
            0 <= i < rest.len() && (#[trigger] rest[i]).datum == only.datum implies rest[i]
            == only by {
            assert(rest[i] == changes[i]);
        }
        lemma_multiplicity_of_one(rest, only, at);
        lemma_push_contains(rest, last, only);
        assert(rest.push(last) =~= changes);
        if last.datum == only.datum {
            assert(changes[changes.len() - 1] == only);
            if rest.contains(only) {
                let i = choose|i: int| 0 <= i < rest.len() && rest[i] == only;
                assert(changes[i] == changes[changes.len() - 1]);
            }
        }
    }
}

/// What a sequence with one more item at its end contains.
pub proof fn lemma_push_contains<A>(s: Seq<A>, last: A, x: A)
    ensures
        s.push(last).contains(x) <==> s.contains(x) || x == last,
{
    lemma_concat_contains(s, seq![last], x);
    assert(s.push(last) =~= s + seq![last]);
    if x == last {
        assert(seq![last][0] == x);
    }
}

/// What two sequences put together contain.
pub proof fn lemma_concat_contains<A>(a: Seq<A>, b: Seq<A>, x: A)
    ensures
        (a + b).contains(x) <==> a.contains(x) || b.contains(x),
{
    if a.contains(x) {
        let i = choose|i: int| 0 <= i < a.len() && a[i] == x;
        assert((a + b)[i] == x);
    }
    if b.contains(x) {
        let i = choose|i: int| 0 <= i < b.len() && b[i] == x;
        assert((a + b)[a.len() + i] == x);
    }
    if (a + b).contains(x) {
        let i = choose|i: int| 0 <= i < (a + b).len() && (a + b)[i] == x;
        if i < a.len() {
            assert(a[i] == x);
        } else {
            assert(b[i - a.len()] == x);
        }
    }
}

/// The union of two change sets: the changes of both.
pub fn concatenate<D, T>(first: Vec<Change<D, T>>, second: Vec<Change<D, T>>) -> (r: Vec<Change<D, T>>)
    ensures
        r@ == first@ + second@,
{
    let mut all = first;
    let mut rest = second;
    all.append(&mut rest);
    all
}

/// The largest magnitude that `count` weights can sum to.
pub open spec fn weight_bound(count: int) -> int {
    count * 0x8000_0000_0000_0000
}

/// The multiplicity of `datum` at time `at`.
pub fn accumulate<D: Datum + Copy, T: Lattice>(changes: &Vec<Change<D, T>>, datum: &D, at: &T) -> (r:
    i128)
    ensures
        r == multiplicity(changes@, *datum, *at),
{
    let mut total: i128 = 0;
    let mut i: usize = 0;
    while i < changes.len()
        invariant
            i <= changes.len(),
            total == multiplicity(changes@.take(i as int), *datum, *at),
            -weight_bound(i as int) <= total <= weight_bound(i as int),
        decreases changes.len() - i,
    {
        let change = changes[i];
        proof {
            assert(changes@.take(i + 1).drop_last() =~= changes@.take(i as int));
            assert(changes@.take(i + 1).last() == change);
        }
        if change.datum.same(datum) && change.time.less_equal(at) {
            total = total + change.weight as i128;
        }
        i = i + 1;
    }
    proof {
        assert(changes@.take(i as int) =~= changes@);
    }
    total
}

/// Whether `datum` occurs in `data`.
pub fn contains<D: Datum + Copy>(data: &Vec<D>, datum: &D) -> (r: bool)
    ensures
        r == data@.contains(*datum),
{
    let mut i: usize = 0;
    while i < data.len()
        invariant
            i <= data.len(),
            forall|j: int| 0 <= j < i ==> data@[j] != *datum,
        decreases data.len() - i,
    {
        if data[i].same(datum) {
            return true;
        }
        i = i + 1;
    }
    false
}

/// The data present at time `at`, each once: a datum is listed exactly when
/// its multiplicity at `at` is positive.
pub fn distinct<D: Datum + Copy, T: Lattice>(changes: &Vec<Change<D, T>>, at: &T) -> (r: Vec<D>)
    ensures
        r@.no_duplicates(),
        r@.to_set() == present(changes@, *at),
{
    let mut found: Vec<D> = Vec::new();
    let mut i: usize = 0;
    while i < changes.len()
        invariant
            i <= changes.len(),
            found@.no_duplicates(),
            forall|d: D| found@.contains(d) ==> multiplicity(changes@, d, *at) > 0,
            forall|j: int|
                0 <= j < i && multiplicity(changes@, (#[trigger] changes@[j]).datum, *at) > 0
                    ==> found@.contains(changes@[j].datum),
        decreases changes.len() - i,
    {
        let datum = changes[i].datum;
        if !contains(&found, &datum) {
            let weight = accumulate(changes, &datum, at);
            if weight > 0 {
                let ghost prior = found@;
                found.push(datum);
                proof {
                    assert forall|d: D| found@.contains(d) implies multiplicity(
                        changes@,
                        d,
                        *at,
                    ) > 0 by {
                        let k = choose|k: int| 0 <= k < found@.len() && found@[k] == d;
                        if k < prior.len() {
                            assert(prior[k] == d);
                            assert(prior.contains(d));
                        }
                    }
                    assert forall|j: int|
                        0 <= j < i + 1 && multiplicity(
                            changes@,
                            (#[trigger] changes@[j]).datum,
                            *at,
                        ) > 0 implies found@.contains(changes@[j].datum) by {
                        if j < i {
                            let k = choose|k: int|
                                0 <= k < prior.len() && prior[k] == changes@[j].datum;
                            assert(found@[k] == changes@[j].datum);
                        } else {
                            assert(found@[prior.len() as int] == datum);
                        }
                    }
                }
            }
        }
        i = i + 1;
    }
    proof {
        assert forall|d: D| found@.to_set().contains(d) == present(changes@, *at).contains(
            d,
        ) by {
            if multiplicity(changes@, d, *at) > 0 {
                lemma_multiplicity_support(changes@, d, *at);
                let j = choose|j: int| 0 <= j < changes@.len() && (#[trigger] changes@[j]).datum == d;
                assert(found@.contains(changes@[j].datum));
            }
        }
        assert(found@.to_set() =~= present(changes@, *at));
    }
    found
}

} // verus!
