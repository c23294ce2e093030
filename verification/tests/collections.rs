use bitemporal::capture::{by_time, net_weight, COLLECTOR};
use bitemporal::changes::{accumulate, concatenate, contains, distinct};
use bitemporal::order::sort;
use bitemporal::reach::{changes_between, reachability, reachable_at, reachable_nodes, round};
use bitemporal::shard::{owner, shard};
use bitemporal::tally::{count, counts_at, keys};
use bitemporal::trace::advance_by;
use bitemporal::{Capture, Change, Datum, Ordered, Pair, Trace};

fn at(first: usize, second: usize) -> Pair<usize, usize> {
    Pair::new(first, second)
}

fn change<D>(datum: D, time: Pair<usize, usize>, weight: i64) -> Change<D, Pair<usize, usize>> {
    Change { datum, time, weight }
}

fn sorted<K: Ord>(mut items: Vec<K>) -> Vec<K> {
    items.sort();
    items
}

#[test]
fn data_compare_by_value() {
    assert!(3u64.same(&3));
    assert!(!3u64.same(&4));
    assert!((1u64, 2u64).same(&(1, 2)));
    assert!(!(1u64, 2u64).same(&(1, 3)));
    assert!(!(0usize, 2i64).same(&(1, 2)));
}

#[test]
fn multiplicity_sums_the_weights_up_to_a_time() {
    let changes = vec![
        change(7u64, at(0, 0), 1),
        change(7u64, at(0, 2), 2),
        change(8u64, at(0, 1), 5),
        change(7u64, at(1, 0), -1),
    ];
    assert_eq!(accumulate(&changes, &7, &at(0, 0)), 1);
    assert_eq!(accumulate(&changes, &7, &at(0, 2)), 3);
    assert_eq!(accumulate(&changes, &7, &at(1, 1)), 0);
    assert_eq!(accumulate(&changes, &7, &at(1, 2)), 2);
    assert_eq!(accumulate(&changes, &8, &at(0, 0)), 0);
    assert_eq!(accumulate(&changes, &9, &at(9, 9)), 0);
}

#[test]
fn multiplicity_does_not_overflow() {
    let changes = vec![
        Change { datum: 1u64, time: 0usize, weight: i64::MAX },
        Change { datum: 1u64, time: 0usize, weight: i64::MAX },
        Change { datum: 1u64, time: 1usize, weight: i64::MIN },
    ];
    assert_eq!(accumulate(&changes, &1, &0), 2 * (i64::MAX as i128));
    assert_eq!(accumulate(&changes, &1, &1), i64::MAX as i128 - 1);
}

#[test]
fn concatenation_keeps_both_in_order() {
    let first = vec![change(1u64, at(0, 0), 1)];
    let second = vec![change(2u64, at(0, 1), -1), change(1u64, at(0, 0), 1)];
    assert_eq!(
        concatenate(first, second),
        vec![change(1u64, at(0, 0), 1), change(2u64, at(0, 1), -1), change(1u64, at(0, 0), 1)]
    );
}

#[test]
fn distinct_lists_what_is_present_once() {
    let changes = vec![
        change(5u64, at(0, 0), 2),
        change(6u64, at(0, 0), 1),
        change(5u64, at(0, 1), 1),
        change(6u64, at(0, 1), -1),
        change(7u64, at(1, 0), -3),
    ];
    assert_eq!(distinct(&changes, &at(0, 0)), vec![5, 6]);
    assert_eq!(distinct(&changes, &at(0, 1)), vec![5]);
    assert_eq!(distinct(&changes, &at(1, 1)), vec![5]);
    assert!(contains(&vec![5u64, 6], &6));
    assert!(!contains(&vec![5u64, 6], &7));
}

#[test]
fn insertion_and_retraction_cancel() {
    let base = vec![change((1u64, 2u64), at(0, 0), 1), change((2u64, 3u64), at(0, 0), 1)];
    let mut with = base.clone();
    with.insert(1, change((3u64, 4u64), at(0, 1), 1));
    with.push(change((3u64, 4u64), at(0, 2), -1));
    let roots = vec![change(1u64, at(0, 0), 1), change(3u64, at(0, 0), 1)];
    for time in [at(0, 2), at(0, 3), at(1, 2)] {
        assert_eq!(accumulate(&with, &(3, 4), &time), 0);
        assert_eq!(distinct(&with, &time), distinct(&base, &time));
        assert_eq!(reachable_at(&roots, &with, &time), reachable_at(&roots, &base, &time));
    }
    assert_eq!(accumulate(&with, &(3, 4), &at(0, 1)), 1);
    assert_eq!(sorted(reachable_at(&roots, &with, &at(0, 1))), vec![1, 2, 3, 4]);
    assert_eq!(sorted(reachable_at(&roots, &with, &at(0, 2))), vec![1, 2, 3]);
}

#[test]
fn one_round_adds_the_successors() {
    let roots = vec![0u64, 0];
    let edges = vec![(0u64, 1u64), (1, 2), (2, 3), (5, 6)];
    assert_eq!(round(&roots, &edges, &vec![]), vec![0]);
    assert_eq!(round(&roots, &edges, &vec![0]), vec![0, 1]);
    assert_eq!(round(&roots, &edges, &vec![0, 1]), vec![0, 1, 2]);
    assert_eq!(round(&roots, &edges, &vec![5]), vec![0, 6]);
}

#[test]
fn reachability_is_that_of_the_graph() {
    let edges = vec![(0u64, 1u64), (1, 2), (2, 0), (2, 3), (4, 5), (5, 4), (6, 0)];
    assert_eq!(sorted(reachable_nodes(&vec![0], &edges)), vec![0, 1, 2, 3]);
    assert_eq!(sorted(reachable_nodes(&vec![4], &edges)), vec![4, 5]);
    assert_eq!(sorted(reachable_nodes(&vec![6, 4], &edges)), vec![0, 1, 2, 3, 4, 5, 6]);
    assert_eq!(sorted(reachable_nodes(&vec![3], &edges)), vec![3]);
    assert_eq!(reachable_nodes(&vec![], &edges), Vec::<u64>::new());
    assert_eq!(reachable_nodes(&vec![9u64], &vec![]), vec![9]);
}

#[test]
fn retraction_makes_nodes_unreachable() {
    let roots = vec![change(0usize, at(0, 0), 1)];
    let edges = vec![
        change((0usize, 1usize), at(0, 0), 1),
        change((1, 2), at(0, 0), 1),
        change((1, 2), at(0, 1), -1),
        change((0, 2), at(1, 0), 1),
        change((2, 3), at(1, 1), 1),
    ];
    assert_eq!(sorted(reachable_at(&roots, &edges, &at(0, 0))), vec![0, 1, 2]);
    assert_eq!(sorted(reachable_at(&roots, &edges, &at(0, 1))), vec![0, 1]);
    assert_eq!(sorted(reachable_at(&roots, &edges, &at(1, 0))), vec![0, 1, 2]);
    assert_eq!(sorted(reachable_at(&roots, &edges, &at(1, 1))), vec![0, 1, 2, 3]);
    let gone = vec![change(0usize, at(0, 0), 1), change(0usize, at(0, 2), -1)];
    assert_eq!(reachable_at(&gone, &edges, &at(0, 2)), Vec::<usize>::new());
}

#[test]
fn advancing_a_time_keeps_what_the_future_sees() {
    let time = at(3, 7);
    let floor = vec![at(4, 8), at(5, 3)];
    let advanced = advance_by(&time, &floor);
    assert_eq!(advanced, at(4, 7));
    for i in 0..10 {
        for j in 0..10 {
            let test = at(i, j);
            if floor.iter().any(|t| bitemporal::Lattice::less_equal(t, &test)) {
                assert_eq!(
                    bitemporal::Lattice::less_equal(&time, &test),
                    bitemporal::Lattice::less_equal(&advanced, &test)
                );
            }
        }
    }
    assert_eq!(advance_by(&time, &vec![]), at(usize::MAX, usize::MAX));
    assert_eq!(advance_by(&time, &vec![at(0, 0)]), time);
    assert_eq!(advance_by(&2usize, &vec![5]), 5);
}

#[test]
fn trace_is_extended_compacted_and_imported() {
    let mut trace: Trace<u64, Pair<usize, usize>> = Trace::new();
    assert!(trace.import().is_empty());
    trace.append(&vec![change(1u64, at(0, 0), 1), change(2u64, at(0, 3), 1)]);
    trace.append(&vec![change(1u64, at(1, 1), -1)]);
    let source = trace.import();
    assert_eq!(
        source,
        vec![change(1u64, at(0, 0), 1), change(2u64, at(0, 3), 1), change(1u64, at(1, 1), -1)]
    );
    let reader = trace.clone();
    trace.advance_by(&vec![at(0, 2), at(1, 0)]);
    assert_eq!(reader.import(), source);
    let imported = trace.import();
    assert_eq!(
        imported,
        vec![change(1u64, at(0, 0), 1), change(2u64, at(0, 3), 1), change(1u64, at(1, 1), -1)]
    );
    trace.advance_by(&vec![at(1, 2)]);
    let imported = trace.import();
    assert_eq!(
        imported,
        vec![change(1u64, at(1, 2), 1), change(2u64, at(1, 3), 1), change(1u64, at(1, 2), -1)]
    );
    for time in [at(1, 2), at(1, 3), at(2, 2), at(5, 9)] {
        assert_eq!(distinct(&imported, &time), distinct(&source, &time));
        assert_eq!(accumulate(&imported, &1, &time), accumulate(&source, &1, &time));
    }
}

#[test]
fn capture_is_drained_once() {
    assert_eq!(COLLECTOR, 0);
    let mut capture: Capture<u64, usize> = Capture::new();
    capture.record(Change { datum: 4, time: 1, weight: 1 });
    capture.record(Change { datum: 3, time: 0, weight: -1 });
    assert_eq!(
        capture.extract(),
        vec![Change { datum: 4, time: 1, weight: 1 }, Change { datum: 3, time: 0, weight: -1 }]
    );
    assert!(capture.extract().is_empty());
}

#[test]
fn captured_changes_are_grouped_by_time() {
    let captured = vec![
        Change { datum: (2u64, 1i64), time: 3usize, weight: 1 },
        Change { datum: (1, 2), time: 0, weight: 1 },
        Change { datum: (1, 1), time: 3, weight: -1 },
        Change { datum: (1, 1), time: 0, weight: 1 },
        Change { datum: (1, 1), time: 3, weight: -2 },
        Change { datum: (1, 1), time: 3, weight: -1 },
    ];
    assert_eq!(
        by_time(&captured),
        vec![
            (0, vec![((1, 1), 1), ((1, 2), 1)]),
            (3, vec![((1, 1), -2), ((1, 1), -1), ((1, 1), -1), ((2, 1), 1)]),
        ]
    );
    assert!(by_time(&Vec::<Change<u64, usize>>::new()).is_empty());
    let table = by_time(&captured);
    assert_eq!(net_weight(&table[1].1, &(1, 1)), -4);
    assert_eq!(net_weight(&table[1].1, &(2, 1)), 1);
    assert_eq!(net_weight(&table[1].1, &(9, 9)), 0);
}

#[test]
fn sort_orders_pairs_by_first_then_second() {
    assert_eq!(sort(&vec![3u64, 1, 2, 1]), vec![1, 1, 2, 3]);
    assert_eq!(
        sort(&vec![(2usize, -1i64), (1, 5), (2, -3), (0, 9), (1, 5)]),
        vec![(0, 9), (1, 5), (1, 5), (2, -3), (2, -1)]
    );
    assert!((1u64, 9i64).not_after(&(2, 0)));
    assert!(!(2u64, 0i64).not_after(&(1, 9)));
    assert!((2u64, 0i64).not_after(&(2, 0)));
    assert!(sort(&Vec::<i64>::new()).is_empty());
}

#[test]
fn counts_follow_the_values_under_a_key() {
    let changes = vec![
        Change { datum: (1u64, 10u64), time: 0usize, weight: 1 },
        Change { datum: (1, 11), time: 0, weight: 1 },
        Change { datum: (2, 10), time: 1, weight: 1 },
        Change { datum: (1, 10), time: 2, weight: -1 },
        Change { datum: (1, 11), time: 2, weight: -1 },
        Change { datum: (3, 1), time: 2, weight: 1 },
        Change { datum: (3, 2), time: 2, weight: -1 },
    ];
    assert_eq!(keys(&changes), vec![1, 2, 3]);
    assert_eq!(count(&changes, &1, &0), Some(2));
    assert_eq!(count(&changes, &2, &0), None);
    assert_eq!(count(&changes, &2, &1), Some(1));
    assert_eq!(count(&changes, &1, &2), None);
    assert_eq!(count(&changes, &3, &2), Some(0));
    assert_eq!(counts_at(&changes, 0), vec![Change { datum: (1, 2), time: 0, weight: 1 }]);
    assert_eq!(counts_at(&changes, 1), vec![Change { datum: (2, 1), time: 1, weight: 1 }]);
    assert_eq!(
        counts_at(&changes, 2),
        vec![
            Change { datum: (1, 2), time: 2, weight: -1 },
            Change { datum: (3, 0), time: 2, weight: 1 },
        ]
    );
    assert!(counts_at(&changes, 3).is_empty());
}

#[test]
fn changes_between_two_sets_of_nodes() {
    let before = vec![1u64, 2, 3];
    let after = vec![3u64, 4, 1, 4];
    assert_eq!(
        changes_between(&before, &after, 7usize),
        vec![Change { datum: 2, time: 7, weight: -1 }, Change { datum: 4, time: 7, weight: 1 }]
    );
    assert!(changes_between(&before, &before, 0usize).is_empty());
    assert_eq!(
        changes_between(&vec![], &vec![5u64], at(1, 2)),
        vec![change(5u64, at(1, 2), 1)]
    );
}

#[test]
fn reachability_changes_add_up_to_what_can_be_reached() {
    let roots = vec![Change { datum: 0u64, time: 0usize, weight: 1 }];
    let edges = vec![
        Change { datum: (0u64, 1u64), time: 0usize, weight: 1 },
        Change { datum: (1, 2), time: 0, weight: 1 },
        Change { datum: (1, 2), time: 1, weight: -1 },
        Change { datum: (2, 3), time: 1, weight: 1 },
        Change { datum: (0, 2), time: 3, weight: 1 },
        Change { datum: (5, 6), time: 3, weight: 1 },
    ];
    let out = reachability(&roots, &edges, 5);
    assert_eq!(
        by_time(&out),
        vec![
            (0, vec![(0, 1), (1, 1), (2, 1)]),
            (1, vec![(2, -1)]),
            (3, vec![(2, 1), (3, 1)]),
        ]
    );
    for epoch in 0..5usize {
        let reached = reachable_at(&roots, &edges, &epoch);
        for node in 0..8u64 {
            let expected = if reached.contains(&node) { 1 } else { 0 };
            assert_eq!(accumulate(&out, &node, &epoch), expected);
        }
    }
    assert!(reachability(&roots, &edges, 0).is_empty());
}

#[test]
fn every_key_falls_to_one_worker() {
    assert_eq!(owner(10, 4), 2);
    assert_eq!(owner(3, 4), 3);
    assert_eq!(owner(u64::MAX, 1), 0);
    let changes = vec![
        Change { datum: (2u64, 0u64), time: 0usize, weight: 1 },
        Change { datum: (1, 0), time: 0, weight: 1 },
        Change { datum: (5, 3), time: 1, weight: -1 },
        Change { datum: (4, 2), time: 1, weight: 1 },
    ];
    assert_eq!(shard(&changes, 4, 1), vec![changes[1], changes[2]]);
    assert_eq!(shard(&changes, 4, 0), vec![changes[3]]);
    assert_eq!(shard(&changes, 4, 2), vec![changes[0]]);
    assert!(shard(&changes, 4, 3).is_empty());
    assert_eq!(shard(&changes, 1, 0), changes);
    let total: usize = (0..4).map(|index| shard(&changes, 4, index).len()).sum();
    assert_eq!(total, changes.len());
}
