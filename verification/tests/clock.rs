use bitemporal::lattice::less_than;
use bitemporal::{Lattice, Pair};

fn samples() -> Vec<Pair<usize, usize>> {
    let mut all = Vec::new();
    for first in [0usize, 1, 2, 7, usize::MAX] {
        for second in [0usize, 1, 3, usize::MAX] {
            all.push(Pair::new(first, second));
        }
    }
    all
}

#[test]
fn new_keeps_both_coordinates() {
    let pair = Pair::new(3usize, 7u64);
    assert_eq!(pair.first, 3);
    assert_eq!(pair.second, 7);
    assert_eq!(pair, Pair { first: 3usize, second: 7u64 });
}

#[test]
fn less_equal_needs_both_coordinates() {
    assert!(Pair::new(1usize, 2usize).less_equal(&Pair::new(1, 2)));
    assert!(Pair::new(1usize, 2usize).less_equal(&Pair::new(2, 3)));
    assert!(!Pair::new(1usize, 2usize).less_equal(&Pair::new(2, 1)));
    assert!(!Pair::new(2usize, 1usize).less_equal(&Pair::new(1, 2)));
}

#[test]
fn the_default_pair_is_that_of_its_coordinates() {
    assert_eq!(Pair::<usize, u64>::default(), Pair::new(0usize, 0u64));
}

#[test]
fn pairs_can_be_incomparable() {
    let a = Pair::new(1usize, 0usize);
    let b = Pair::new(0usize, 1usize);
    assert!(!a.less_equal(&b));
    assert!(!b.less_equal(&a));
    assert!(!less_than(&a, &b));
    assert!(!less_than(&b, &a));
}

#[test]
fn less_than_is_strict() {
    let a = Pair::new(0usize, 1usize);
    assert!(!less_than(&a, &a));
    assert!(less_than(&a, &Pair::new(0, 2)));
    assert!(less_than(&a, &Pair::new(1, 1)));
}

#[test]
fn join_and_meet_work_by_coordinate() {
    let a = Pair::new(3usize, 7usize);
    let b = Pair::new(4usize, 6usize);
    assert_eq!(a.join(&b), Pair::new(4, 7));
    assert_eq!(a.meet(&b), Pair::new(3, 6));
}

#[test]
fn extremes_are_those_of_the_coordinates() {
    assert_eq!(<Pair<usize, u64> as Lattice>::minimum(), Pair::new(0usize, 0u64));
    assert_eq!(<Pair<usize, u64> as Lattice>::maximum(), Pair::new(usize::MAX, u64::MAX));
    assert_eq!(<usize as Lattice>::minimum(), 0);
    assert_eq!(<u64 as Lattice>::maximum(), u64::MAX);
}

#[test]
fn integers_join_to_the_larger_and_meet_to_the_smaller() {
    assert_eq!(3usize.join(&5), 5);
    assert_eq!(3usize.meet(&5), 3);
    assert_eq!(9u64.join(&5), 9);
    assert_eq!(9u64.meet(&5), 5);
    assert!(3u64.less_equal(&3));
    assert!(!4usize.less_equal(&3));
}

#[test]
fn lattice_laws_hold_on_sampled_triples() {
    let all = samples();
    let least = <Pair<usize, usize> as Lattice>::minimum();
    let greatest = <Pair<usize, usize> as Lattice>::maximum();
    for a in all.iter() {
        assert_eq!(a.join(a), *a);
        assert_eq!(a.meet(a), *a);
        assert!(least.less_equal(a));
        assert!(a.less_equal(&greatest));
        for b in all.iter() {
            assert_eq!(a.join(b), b.join(a));
            assert_eq!(a.meet(b), b.meet(a));
            assert_eq!(a.join(&a.meet(b)), *a);
            assert_eq!(a.meet(&a.join(b)), *a);
            assert_eq!(a.less_equal(b), a.join(b) == *b);
            assert_eq!(a.less_equal(b), a.meet(b) == *a);
            for c in all.iter() {
                assert_eq!(a.join(b).join(c), a.join(&b.join(c)));
                assert_eq!(a.meet(b).meet(c), a.meet(&b.meet(c)));
            }
        }
    }
}
