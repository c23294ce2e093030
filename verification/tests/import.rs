use bitemporal::capture::by_time;
use bitemporal::shard::shard;
use bitemporal::tally::count_by_key;
use bitemporal::{Capability, Capture, Change, InputFeed, Trace};

type Captured = Vec<Change<(u64, i64), usize>>;

fn input_epochs() -> Vec<Vec<((u64, u64), i64)>> {
    vec![
        vec![((2, 0), 1), ((1, 0), 1), ((1, 3), 1), ((4, 2), 1)],
        vec![((2, 0), -1), ((1, 0), -1)],
        vec![((2, 0), 1), ((1, 3), -1)],
        vec![((1, 0), 1), ((1, 3), 1), ((2, 0), -1), ((4, 2), -1)],
        vec![((2, 0), 1), ((4, 2), 1), ((1, 3), -1)],
        vec![((1, 3), 1), ((4, 2), -1)],
    ]
}

fn run_test<T>(test: T, expected: Vec<(usize, Vec<((u64, i64), i64)>)>)
where
    T: FnOnce(Vec<Vec<((u64, u64), i64)>>) -> Captured,
{
    let captured = (test)(input_epochs());
    let out = by_time(&captured);
    assert_eq!(out, expected);
}

/// What one worker feeds: the changes whose source falls to it, epoch by epoch.
fn feed_worker(
    input_epochs: &Vec<Vec<((u64, u64), i64)>>,
    peers: usize,
    index: usize,
) -> InputFeed<(u64, u64), usize> {
    let mut input: InputFeed<(u64, u64), usize> = InputFeed::new();
    let mut capability = Capability::new(0usize);
    for (t, changes) in input_epochs.iter().enumerate() {
        if t != capability.time() {
            assert!(capability.downgrade(&t).is_ok());
        }
        let time = capability.time();
        let stamped: Vec<Change<(u64, u64), usize>> =
            changes.iter().map(|&(edge, w)| Change { datum: edge, time, weight: w }).collect();
        for change in shard(&stamped, peers, index) {
            assert_eq!((change.datum.0 as usize) % peers, index);
            assert!(input.give(&capability, change).is_ok());
        }
    }
    input
}

fn expected_counts() -> Vec<(usize, Vec<((u64, i64), i64)>)> {
    vec![
        (0, vec![((1, 2), 1), ((2, 1), 1), ((4, 1), 1)]),
        (1, vec![((1, 1), 1), ((1, 2), -1), ((2, 1), -1)]),
        (2, vec![((1, 1), -1), ((2, 1), 1)]),
        (3, vec![((1, 2), 1), ((2, 1), -1), ((4, 1), -1)]),
        (4, vec![((1, 1), 1), ((1, 2), -1), ((2, 1), 1), ((4, 1), 1)]),
        (5, vec![((1, 1), -1), ((1, 2), 1), ((4, 1), -1)]),
    ]
}

#[test]
fn test_import() {
    run_test(
        |input_epochs| {
            let peers = 4;
            let mut captured: Capture<(u64, i64), usize> = Capture::new();
            for index in 0..peers {
                let mut trace: Trace<(u64, u64), usize> = Trace::new();
                let reader = trace.clone();
                assert!(reader.import().is_empty());
                let input = feed_worker(&input_epochs, peers, index);
                trace.append(input.changes());
                let handle = trace.clone();
                std::mem::drop(trace);
                let imported = handle.import();
                for change in count_by_key(&imported, input_epochs.len()) {
                    captured.record(change);
                }
            }
            captured.extract()
        },
        expected_counts(),
    );
}

#[test]
fn test_import_completed_dataflow() {
    // Runs the first stage to completion before the second one is built.
    run_test(
        |input_epochs| {
            let peers = 4;
            let mut traces: Vec<Trace<(u64, u64), usize>> = Vec::new();
            for index in 0..peers {
                let input = feed_worker(&input_epochs, peers, index);
                let mut trace = Trace::new();
                trace.append(&input.close());
                traces.push(trace);
            }
            let mut captured: Capture<(u64, i64), usize> = Capture::new();
            for trace in traces {
                let imported = trace.import();
                std::mem::drop(trace);
                for change in count_by_key(&imported, input_epochs.len()) {
                    captured.record(change);
                }
            }
            captured.extract()
        },
        expected_counts(),
    );
}

#[test]
fn import_skewed() {
    let peers = 4usize;
    let mut captured: Capture<(u64, i64), usize> = Capture::new();
    for index in 0..peers {
        let mut input: InputFeed<(u64, i64), usize> = InputFeed::new();
        let capability = Capability::new(0usize);
        assert!(input
            .give(&capability, Change { datum: (index as u64, 1), time: index, weight: 1 })
            .is_ok());
        let mut trace = Trace::new();
        trace.append(input.changes());
        trace.advance_by(&vec![peers - index]);
        for change in trace.import() {
            captured.record(change);
        }
    }
    // Worker `index` sent `index` at time `index`, but advanced its trace to `peers - index`:
    // `index` is present from time `max(index, peers - index)` on.
    let out = by_time(&captured.extract());
    assert_eq!(
        out,
        vec![
            (2, vec![((2, 1), 1)]),
            (3, vec![((1, 1), 1), ((3, 1), 1)]),
            (4, vec![((0, 1), 1)]),
        ]
    );
}

#[test]
fn counts_of_the_first_and_last_epoch() {
    let mut all: Vec<Change<(u64, u64), usize>> = Vec::new();
    for (t, changes) in input_epochs().iter().enumerate() {
        for &(edge, w) in changes.iter() {
            all.push(Change { datum: edge, time: t, weight: w });
        }
    }
    let table = by_time(&count_by_key(&all, 6));
    assert_eq!(table[0], (0, vec![((1, 2), 1), ((2, 1), 1), ((4, 1), 1)]));
    assert_eq!(table[5], (5, vec![((1, 1), -1), ((1, 2), 1), ((4, 1), -1)]));
    assert_eq!(table.len(), 6);
}
