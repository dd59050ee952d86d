use autonomous_execution::base_types::{ObjectID, SuiAddress};
use autonomous_execution::ev_struct_mod::{
    insert_row, CheckpointData, CheckpointTransaction, EvStructMod, Event, StoredEvStructMod,
    BATCH_SIZE, CHUNK_SIZE, MAX_PENDING_SIZE, NAME,
};
use autonomous_execution::utils::{wait_step, WaitStep, APPLICATION_JSON, RETRY_INTERVAL_MS};
use autonomous_execution::wire::bytes_come_before;
use std::collections::BTreeSet;

fn event(package: u128, module: &str, sender: u128) -> Event {
    Event { package: ObjectID(package), module: module.as_bytes().to_vec(), sender: SuiAddress(sender) }
}

fn row(package: u128, module: &str, number: i64, sender: u128) -> StoredEvStructMod {
    StoredEvStructMod {
        package: ObjectID(package),
        module: module.as_bytes().to_vec(),
        tx_sequence_number: number,
        sender: SuiAddress(sender),
    }
}

#[test]
fn the_rows_of_a_checkpoint_rise_and_none_is_twice() {
    let checkpoint = CheckpointData {
        network_total_transactions: 103,
        transactions: vec![
            CheckpointTransaction {
                events: Some(vec![event(2, "coin", 7), event(2, "coin", 7), event(1, "zebra", 7)]),
            },
            CheckpointTransaction { events: None },
            CheckpointTransaction {
                events: Some(vec![
                    event(2, "coin", 8),
                    event(2, "bag", 8),
                    event(2, "coins", 8),
                    event(2, "co", 8),
                ]),
            },
        ],
    };
    let rows = EvStructMod::handle(&checkpoint).unwrap();
    assert_eq!(
        rows,
        vec![
            row(1, "zebra", 100, 7),
            row(2, "bag", 102, 8),
            row(2, "co", 102, 8),
            row(2, "coin", 100, 7),
            row(2, "coin", 102, 8),
            row(2, "coins", 102, 8),
        ]
    );
    // as an ordered set has them
    let set: BTreeSet<StoredEvStructMod> = vec![
        row(2, "coin", 100, 7),
        row(2, "coin", 100, 7),
        row(1, "zebra", 100, 7),
        row(2, "coin", 102, 8),
        row(2, "bag", 102, 8),
        row(2, "coins", 102, 8),
        row(2, "co", 102, 8),
    ]
    .into_iter()
    .collect();
    assert_eq!(rows, set.into_iter().collect::<Vec<_>>());
}

#[test]
fn a_checkpoint_must_fit_the_count_of_the_network() {
    let one = |total: u64, count: usize| CheckpointData {
        network_total_transactions: total,
        transactions: (0..count)
            .map(|_| CheckpointTransaction { events: Some(vec![event(1, "m", 1)]) })
            .collect(),
    };
    assert_eq!(EvStructMod::handle(&one(0, 0)), Some(vec![]));
    assert_eq!(EvStructMod::handle(&one(5, 0)), Some(vec![]));
    assert_eq!(EvStructMod::handle(&one(1, 1)), Some(vec![row(1, "m", 0, 1)]));
    assert_eq!(
        EvStructMod::handle(&one(10, 2)),
        Some(vec![row(1, "m", 8, 1), row(1, "m", 9, 1)])
    );
    assert_eq!(EvStructMod::handle(&one(1, 2)), None);
    assert_eq!(EvStructMod::handle(&one(i64::MAX as u64 + 1, 1)), None);
    assert_eq!(
        EvStructMod::handle(&one(i64::MAX as u64, 1)),
        Some(vec![row(1, "m", i64::MAX - 1, 1)])
    );
    assert_eq!(NAME, "ev_struct_mod");
    assert_eq!((BATCH_SIZE, CHUNK_SIZE, MAX_PENDING_SIZE), (100, 1000, 10000));
}

#[test]
fn rows_are_ordered_field_by_field() {
    let rows = vec![
        row(1, "a", 0, 0),
        row(1, "a", 0, 1),
        row(1, "a", 1, 0),
        row(1, "ab", -5, 0),
        row(1, "b", -9, 0),
        row(2, "", i64::MIN, 0),
        row(2, "", -1, u128::MAX),
        row(2, "", 0, 0),
    ];
    for (i, a) in rows.iter().enumerate() {
        for (j, b) in rows.iter().enumerate() {
            assert_eq!(a.comes_before(b), i < j, "{} and {}", i, j);
            assert_eq!(a.comes_before(b), a < b);
        }
    }
    for (a, b) in [("", ""), ("", "a"), ("a", ""), ("a", "b"), ("ab", "b"), ("b", "ab"), ("ab", "abc")]
    {
        assert_eq!(
            bytes_come_before(&a.as_bytes().to_vec(), &b.as_bytes().to_vec()),
            a < b,
            "{:?} and {:?}",
            a,
            b
        );
    }
    // a row goes to its place, and is not put in twice
    let mut sorted = vec![row(1, "a", 0, 0), row(1, "c", 0, 0)];
    insert_row(&mut sorted, row(1, "b", 0, 0));
    insert_row(&mut sorted, row(0, "z", 0, 0));
    insert_row(&mut sorted, row(9, "", 0, 0));
    insert_row(&mut sorted, row(1, "b", 0, 0));
    assert_eq!(
        sorted,
        vec![row(0, "z", 0, 0), row(1, "a", 0, 0), row(1, "b", 0, 0), row(1, "c", 0, 0), row(9, "", 0, 0)]
    );
}

#[test]
fn waiting_ends_when_the_server_is_up_or_the_time_is_over() {
    assert_eq!(wait_step(true, 0, 0), WaitStep::Ready);
    assert_eq!(wait_step(true, 100, 5), WaitStep::Ready);
    assert_eq!(wait_step(false, 0, 5), WaitStep::Retry);
    assert_eq!(wait_step(false, 5, 5), WaitStep::Retry);
    assert_eq!(wait_step(false, 6, 5), WaitStep::TimedOut);
    assert_eq!(wait_step(false, 0, 0), WaitStep::Retry);
    assert_eq!(wait_step(false, u64::MAX, u64::MAX), WaitStep::Retry);
    assert_eq!(wait_step(false, 1, 0), WaitStep::TimedOut);
    assert_eq!(APPLICATION_JSON, "application/json");
    assert_eq!(RETRY_INTERVAL_MS, 100);
}
