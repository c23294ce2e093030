use bitemporal::batch::{
    additions, additions_of, churn, churn_of, insertion, random_edge, removal, worker_rng,
    worker_seed,
};
use bitemporal::driver::{worker_share, Batch, Driver, Stage, Step};
use bitemporal::frontier::Frontier;
use bitemporal::{Capability, CapabilityViolation, Change, InputFeed, Pair};

fn at(first: usize, second: usize) -> Pair<usize, usize> {
    Pair::new(first, second)
}

#[test]
fn capability_holds_its_time() {
    let capability = Capability::new(at(0, 1));
    assert_eq!(capability.time(), at(0, 1));
    assert!(capability.permits(&at(0, 1)));
    assert!(capability.permits(&at(2, 1)));
    assert!(!capability.permits(&at(1, 0)));
}

#[test]
fn downgrade_moves_forward_only() {
    let mut capability = Capability::new(at(0, 1));
    assert_eq!(capability.downgrade(&at(0, 2)), Ok(()));
    assert_eq!(capability.time(), at(0, 2));
    assert_eq!(capability.downgrade(&at(0, 2)), Ok(()));
    assert_eq!(
        capability.downgrade(&at(1, 0)),
        Err(CapabilityViolation { held: at(0, 2), requested: at(1, 0) })
    );
    assert_eq!(capability.time(), at(0, 2));
    assert_eq!(
        capability.downgrade(&at(0, 1)),
        Err(CapabilityViolation { held: at(0, 2), requested: at(0, 1) })
    );
}

#[test]
fn delayed_leaves_the_first_alone() {
    let mut capability = Capability::new(at(0, 0));
    let later = capability.delayed(&at(1, 0)).unwrap();
    assert_eq!(later.time(), at(1, 0));
    assert_eq!(capability.time(), at(0, 0));
    assert_eq!(capability.downgrade(&at(0, 5)), Ok(()));
    assert_eq!(later.time(), at(1, 0));
    let refused = later.delayed(&at(0, 9));
    assert_eq!(
        refused.map(|c| c.time()),
        Err(CapabilityViolation { held: at(1, 0), requested: at(0, 9) })
    );
}

#[test]
fn nothing_is_emitted_before_a_downgrade() {
    let mut input: InputFeed<(usize, usize), Pair<usize, usize>> = InputFeed::new();
    let mut capability = Capability::new(at(0, 0));
    assert!(input.give(&capability, Change { datum: (1, 2), time: at(0, 0), weight: 1 }).is_ok());
    assert_eq!(capability.downgrade(&at(0, 3)), Ok(()));
    for time in [at(0, 0), at(0, 2), at(1, 0), at(7, 2)] {
        let refused = input.give(&capability, Change { datum: (1, 2), time, weight: 1 });
        assert_eq!(refused, Err(CapabilityViolation { held: at(0, 3), requested: time }));
    }
    assert_eq!(capability.downgrade(&at(0, 1)).is_err(), true);
    assert!(input.give(&capability, Change { datum: (1, 2), time: at(0, 2), weight: 1 }).is_err());
    assert!(input.give(&capability, Change { datum: (2, 3), time: at(0, 3), weight: -1 }).is_ok());
    assert!(input.give(&capability, Change { datum: (2, 4), time: at(1, 3), weight: 1 }).is_ok());
    assert_eq!(
        input.changes(),
        &vec![
            Change { datum: (1, 2), time: at(0, 0), weight: 1 },
            Change { datum: (2, 3), time: at(0, 3), weight: -1 },
            Change { datum: (2, 4), time: at(1, 3), weight: 1 },
        ]
    );
}

#[test]
fn session_stamps_with_the_capability_time() {
    let mut input: InputFeed<u64, usize> = InputFeed::new();
    let mut capability = Capability::new(2usize);
    input.session(&capability, &vec![(7, 1), (8, -1)]);
    input.session(&capability, &vec![]);
    assert_eq!(capability.downgrade(&5), Ok(()));
    input.session(&capability, &vec![(9, 2)]);
    assert_eq!(
        input.changes(),
        &vec![
            Change { datum: 7, time: 2, weight: 1 },
            Change { datum: 8, time: 2, weight: -1 },
            Change { datum: 9, time: 5, weight: 2 },
        ]
    );
}

#[test]
fn frontier_keeps_the_minimal_times() {
    let mut frontier = Frontier::new();
    assert!(frontier.done());
    assert!(frontier.insert(at(1, 1)));
    assert!(!frontier.insert(at(1, 1)));
    assert!(!frontier.insert(at(2, 1)));
    assert!(frontier.insert(at(0, 2)));
    assert_eq!(frontier.elements(), &vec![at(1, 1), at(0, 2)]);
    assert!(frontier.insert(at(0, 0)));
    assert_eq!(frontier.elements(), &vec![at(0, 0)]);
    assert!(!frontier.done());
}

#[test]
fn frontier_answers_probes() {
    let frontier = Frontier::of(&vec![at(1, 0), at(0, 3), at(1, 4), at(0, 3)]);
    assert_eq!(frontier.elements(), &vec![at(1, 0), at(0, 3)]);
    assert!(frontier.less_than(&at(0, 3)));
    assert!(!frontier.strictly_before(&at(0, 3)));
    assert!(frontier.less_than(&at(0, 4)));
    assert!(frontier.strictly_before(&at(0, 4)));
    assert!(frontier.strictly_before(&at(1, 1)));
    assert!(frontier.less_than(&at(1, 0)));
    assert!(!frontier.strictly_before(&at(1, 0)));
    assert!(!frontier.less_than(&at(0, 2)));
    assert!(!frontier.strictly_before(&at(0, 2)));
    let single = Frontier::from_elem(4usize);
    assert!(single.less_than(&5));
    assert!(single.strictly_before(&5));
    assert!(single.less_than(&4));
    assert!(!single.strictly_before(&4));
    assert!(!single.less_than(&3));
    let empty: Frontier<usize> = Frontier::of(&vec![]);
    assert!(empty.done());
    assert!(!empty.less_than(&usize::MAX));
    assert!(!empty.strictly_before(&usize::MAX));
}

#[test]
fn a_frontier_of_one_time_probed_at_that_time() {
    let frontier = Frontier::from_elem(at(0, 1));
    assert!(frontier.less_than(&at(0, 1)));
    assert!(!frontier.strictly_before(&at(0, 1)));
    assert!(!frontier.less_than(&at(1, 0)));
}

fn run(rounds: usize) -> Vec<Step> {
    let mut driver = Driver::new(rounds);
    let mut steps = Vec::new();
    while !driver.finished() {
        let before = driver.frontier();
        let step = driver.next();
        match step {
            Step::Await { time } => {
                assert!(!driver.frontier().strictly_before(&time));
            }
            Step::Feed { time, .. } | Step::Downgrade { time } | Step::Reserve { time } => {
                assert!(before.less_than(&time));
            }
            _ => {}
        }
        steps.push(step);
    }
    assert_eq!(driver.next(), Step::Finished);
    assert_eq!(driver.stage(), Stage::Finished);
    assert_eq!(driver.rounds(), rounds);
    steps
}

#[test]
fn driver_runs_the_experiment_in_order() {
    let steps = run(3);
    assert_eq!(
        steps,
        vec![
            Step::Root { time: at(0, 0) },
            Step::Feed { time: at(0, 0), batch: Batch::Initial },
            Step::Reserve { time: at(1, 0) },
            Step::Downgrade { time: at(0, 1) },
            Step::Await { time: at(0, 1) },
            Step::Feed { time: at(0, 1), batch: Batch::Churn },
            Step::Downgrade { time: at(0, 2) },
            Step::Await { time: at(0, 2) },
            Step::Feed { time: at(0, 2), batch: Batch::Churn },
            Step::Downgrade { time: at(0, 3) },
            Step::Await { time: at(0, 3) },
            Step::Adopt,
            Step::Feed { time: at(1, 0), batch: Batch::Additions },
            Step::Downgrade { time: at(2, 0) },
            Step::Await { time: at(1, 4) },
            Step::Feed { time: at(2, 3), batch: Batch::Additions },
            Step::Downgrade { time: at(3, 0) },
            Step::Await { time: at(2, 4) },
            Step::Feed { time: at(3, 1), batch: Batch::Additions },
            Step::Downgrade { time: at(4, 0) },
            Step::Await { time: at(3, 4) },
        ]
    );
}

#[test]
fn driver_without_rounds_still_loads_and_revises() {
    for rounds in [0usize, 1] {
        let steps = run(rounds);
        assert_eq!(steps.len(), 15);
        assert_eq!(steps[3], Step::Downgrade { time: at(0, 1) });
        assert_eq!(steps[4], Step::Await { time: at(0, 1) });
        assert_eq!(steps[5], Step::Adopt);
        assert_eq!(steps[8], Step::Await { time: at(1, rounds + 1) });
        assert_eq!(steps[14], Step::Await { time: at(3, rounds + 1) });
    }
    assert_eq!(run(10).len(), 15 + 3 * 9);
}

#[test]
fn driver_frontier_follows_its_capabilities() {
    let mut driver = Driver::new(2);
    assert_eq!(driver.stage(), Stage::Root);
    assert_eq!(driver.frontier().elements(), &vec![at(0, 0)]);
    for _ in 0..4 {
        driver.next();
    }
    assert_eq!(driver.stage(), Stage::Wait { round: 1 });
    assert_eq!(driver.frontier().elements(), &vec![at(0, 1), at(1, 0)]);
}

#[test]
fn shares_are_even_and_cover_the_total() {
    assert_eq!(worker_share(10, 4, 0), 3);
    assert_eq!(worker_share(10, 4, 1), 3);
    assert_eq!(worker_share(10, 4, 2), 2);
    assert_eq!(worker_share(10, 4, 3), 2);
    assert_eq!(worker_share(0, 3, 0), 0);
    assert_eq!(worker_share(usize::MAX, 1, 0), usize::MAX);
    for total in 0..40usize {
        for peers in 1..7usize {
            let sum: usize = (0..peers).map(|index| worker_share(total, peers, index)).sum();
            assert_eq!(sum, total);
        }
    }
}

#[test]
fn worker_seed_names_the_worker() {
    assert_eq!(worker_seed(0), vec![1, 2, 3, 0]);
    assert_eq!(worker_seed(5), vec![1, 2, 3, 5]);
}

#[test]
fn random_edges_stay_within_the_graph() {
    let mut rng = worker_rng(0);
    let mut seen_other_than_zero = false;
    for _ in 0..200 {
        let (source, target) = random_edge(&mut rng, 5);
        assert!(source < 5 && target < 5);
        seen_other_than_zero = seen_other_than_zero || source != 0 || target != 0;
    }
    assert!(seen_other_than_zero);
    assert_eq!(random_edge(&mut rng, 1), (0, 0));
}

#[test]
fn two_generators_of_one_worker_agree() {
    let mut first = worker_rng(3);
    let mut second = worker_rng(3);
    let inserted = additions(&mut first, 50, 1000, at(0, 0));
    let replayed = additions(&mut second, 50, 1000, at(0, 0));
    assert_eq!(inserted, replayed);
    let mut other = worker_rng(4);
    assert_ne!(additions(&mut other, 50, 1000, at(0, 0)), inserted);
}

#[test]
fn additions_insert_at_the_given_time() {
    let mut rng = worker_rng(1);
    let batch = additions(&mut rng, 17, 10, at(2, 3));
    assert_eq!(batch.len(), 17);
    for change in batch.iter() {
        assert_eq!(change.time, at(2, 3));
        assert_eq!(change.weight, 1);
        assert!(change.datum.0 < 10 && change.datum.1 < 10);
    }
    assert!(additions(&mut rng, 0, 10, at(0, 0)).is_empty());
}

#[test]
fn churn_removes_what_was_inserted_first() {
    let mut insertions = worker_rng(2);
    let mut removals = worker_rng(2);
    let initial = additions(&mut insertions, 6, 100, at(0, 0));
    let batch = churn(&mut insertions, &mut removals, 4, 100, at(0, 1));
    assert_eq!(batch.len(), 8);
    for (i, change) in batch.iter().enumerate() {
        assert_eq!(change.time, at(0, 1));
        assert_eq!(change.weight, if i % 2 == 0 { 1 } else { -1 });
        assert!(change.datum.0 < 100 && change.datum.1 < 100);
    }
    for i in 0..4 {
        assert_eq!(batch[2 * i + 1].datum, initial[i].datum);
    }
}

#[test]
fn closing_an_input_hands_over_its_changes() {
    let mut input: InputFeed<u64, usize> = InputFeed::new();
    let capability = Capability::new(1usize);
    input.session(&capability, &vec![(7, 1)]);
    assert!(input.give(&capability, Change { datum: 8, time: 0, weight: 1 }).is_err());
    assert_eq!(input.close(), vec![Change { datum: 7, time: 1, weight: 1 }]);
}

#[test]
fn a_drawn_edge_becomes_an_insertion_or_a_removal() {
    assert_eq!(insertion((3, 4), at(0, 2)), Change { datum: (3, 4), time: at(0, 2), weight: 1 });
    assert_eq!(removal((3, 4), at(1, 0)), Change { datum: (3, 4), time: at(1, 0), weight: -1 });
    assert_eq!(insertion((0, 0), 7usize), Change { datum: (0, 0), time: 7usize, weight: 1 });
}

#[test]
fn batches_are_built_from_the_drawn_edges_in_order() {
    assert_eq!(
        additions_of(&vec![(1, 2), (3, 4)], at(0, 0)),
        vec![insertion((1, 2), at(0, 0)), insertion((3, 4), at(0, 0))]
    );
    assert_eq!(
        churn_of(&vec![((1, 2), (3, 4)), ((5, 6), (7, 8))], at(0, 1)),
        vec![
            Change { datum: (1, 2), time: at(0, 1), weight: 1 },
            Change { datum: (3, 4), time: at(0, 1), weight: -1 },
            Change { datum: (5, 6), time: at(0, 1), weight: 1 },
            Change { datum: (7, 8), time: at(0, 1), weight: -1 },
        ]
    );
    assert!(additions_of(&vec![], 0usize).is_empty());
    assert!(churn_of(&vec![], 0usize).is_empty());
}

#[test]
fn nothing_is_drawn_for_an_empty_batch() {
    let mut insertions = worker_rng(0);
    let mut removals = worker_rng(0);
    assert!(additions(&mut insertions, 0, 0, at(0, 0)).is_empty());
    assert!(churn(&mut insertions, &mut removals, 0, 0, at(0, 1)).is_empty());
    let mut untouched = worker_rng(0);
    assert_eq!(random_edge(&mut insertions, 50), random_edge(&mut untouched, 50));
}
