use std::sync::atomic::{AtomicUsize, Ordering};
use std::sync::Arc;

use dcsbridge::fanout::{Capabilities, Capacities, Class, Commit, ConnectionId, Numbered};
use dcsbridge::ring::Push;
use dcsbridge::writer::{Dropped, Writer, RECORDS_PER_PASS};

/// A capacity no test here fills, so a drop means the fan-out lost a record
/// rather than a ring evicted one.
const ROOMY: usize = 4096;

/// The capability number every record here needs, and one more, so a token
/// can be narrowed to `READ` alone.
const READ: u32 = 1;
const COMMAND: u32 = 2;

fn all() -> Capabilities {
    Capabilities::none().with(READ).with(COMMAND)
}

/// A writer over a roomy commit ring.
fn spawn<T: Clone>() -> (Writer<T>, Commit<T>) {
    (Writer::new(64), Commit::new(ROOMY))
}

/// Attach a connection and report it authenticated with every capability.
fn attached<T: Clone>(writer: &mut Writer<T>, capacity: usize) -> ConnectionId {
    let id = writer.attach(Capacities::each(capacity), None);
    writer.authenticated(id, all());
    id
}

/// Fan out everything committed.
fn fanned<T: Clone>(writer: &mut Writer<T>, commit: &mut Commit<T>) {
    while writer.pass(commit) > 0 {}
}

/// Pop `count` records for `id`, with their numbers.
fn drain_numbered<T: Clone>(writer: &mut Writer<T>, id: ConnectionId, count: usize) -> Vec<Numbered<T>> {
    let mut arrived = Vec::new();
    while arrived.len() < count {
        match writer.pop(id) {
            Some(record) => arrived.push(record),
            None => panic!("only {} of {count} records arrived", arrived.len()),
        }
    }
    arrived
}

/// Pop `count` records for `id`, the records alone.
fn drain_until<T: Clone>(writer: &mut Writer<T>, id: ConnectionId, count: usize) -> Vec<T> {
    drain_numbered(writer, id, count)
        .into_iter()
        .map(|numbered| numbered.record)
        .collect()
}

#[test]
fn every_consumer_sees_every_record_in_order() {
    let pushes: u32 = 2_000;
    let (mut writer, mut commit) = spawn::<u32>();
    let ids: Vec<ConnectionId> = (0..4).map(|_| attached(&mut writer, ROOMY)).collect();

    for value in 0..pushes {
        assert_eq!(
            commit.push(READ, Class::Durable, value),
            Push::Stored,
            "{value} found no room"
        );
    }
    fanned(&mut writer, &mut commit);

    let expected: Vec<u32> = (0..pushes).collect();
    for id in ids {
        let arrived = drain_until(&mut writer, id, pushes as usize);
        assert_eq!(arrived, expected, "a consumer missed or reordered records");
        assert_eq!(writer.dropped_from(id), Some(0), "a roomy ring turned a record away");
    }
    assert_eq!(commit.dropped(), 0, "the commit ring turned a record away");
}

#[test]
fn a_stalled_consumer_loses_only_its_own_records_and_sees_the_gap() {
    let (mut writer, mut commit) = spawn::<u32>();
    let stalled = attached(&mut writer, 4);
    let reading = attached(&mut writer, ROOMY);

    for value in 0..10u32 {
        commit.push(READ, Class::Durable, value);
    }
    fanned(&mut writer, &mut commit);

    let arrived = drain_numbered(&mut writer, reading, 10);
    let records: Vec<u32> = arrived.iter().map(|n| n.record).collect();
    let seqs: Vec<u64> = arrived.iter().map(|n| n.seq).collect();
    assert_eq!(records, (0..10).collect::<Vec<_>>(), "the reader lost records");
    assert_eq!(seqs, (1..=10).collect::<Vec<_>>(), "the reader's seq skipped");
    assert_eq!(writer.dropped_from(reading), Some(0), "a roomy ring turned a record away");

    assert_eq!(writer.dropped_from(stalled), Some(6), "six evictions were not counted as six");
    let survivors: Vec<Numbered<u32>> = std::iter::from_fn(|| writer.pop(stalled)).collect();
    let records: Vec<u32> = survivors.iter().map(|n| n.record).collect();
    let seqs: Vec<u64> = survivors.iter().map(|n| n.seq).collect();
    assert_eq!(records, [6, 7, 8, 9], "the wrong records survived the stall");
    assert_eq!(
        seqs,
        [7, 8, 9, 10],
        "the evictions did not leave a gap of six before the survivors"
    );
}

#[test]
fn attach_and_detach_take_effect_mid_stream() {
    let (mut writer, mut commit) = spawn::<u32>();
    let first = attached(&mut writer, ROOMY);

    for value in 0..5u32 {
        commit.push(READ, Class::Durable, value);
    }
    fanned(&mut writer, &mut commit);
    assert_eq!(drain_until(&mut writer, first, 5), (0..5).collect::<Vec<_>>());

    let second = attached(&mut writer, ROOMY);
    assert!(second > first, "ids did not rise: {first:?} then {second:?}");

    for value in 5..10u32 {
        commit.push(READ, Class::Durable, value);
    }
    fanned(&mut writer, &mut commit);
    let on_first = drain_numbered(&mut writer, first, 5);
    let on_second = drain_numbered(&mut writer, second, 5);
    for (arrived, what) in [(&on_first, "first"), (&on_second, "second")] {
        let records: Vec<u32> = arrived.iter().map(|n| n.record).collect();
        assert_eq!(records, (5..10).collect::<Vec<_>>(), "on the {what} connection");
    }
    let seqs = |arrived: &[Numbered<u32>]| arrived.iter().map(|n| n.seq).collect::<Vec<_>>();
    assert_eq!(seqs(&on_first), (6..=10).collect::<Vec<_>>());
    assert_eq!(seqs(&on_second), (1..=5).collect::<Vec<_>>());

    writer.detach(second);
    for value in 10..15u32 {
        commit.push(READ, Class::Durable, value);
    }
    fanned(&mut writer, &mut commit);
    assert_eq!(drain_until(&mut writer, first, 5), (10..15).collect::<Vec<_>>());

    let third = attached(&mut writer, ROOMY);
    assert!(third > second, "a detached id was reused: {second:?} then {third:?}");

    let late: Vec<u32> = std::iter::from_fn(|| writer.pop(second).map(|n| n.record)).collect();
    assert!(
        late.len() <= 5 && late.iter().zip(10..).all(|(got, want)| *got == want),
        "a detached connection received out of order: {late:?}"
    );
}

#[test]
fn an_addressed_record_reaches_one_connection_and_moves_no_other_seq() {
    let (mut writer, mut commit) = spawn::<u32>();
    let first = attached(&mut writer, ROOMY);
    let second = attached(&mut writer, ROOMY);

    commit.push(READ, Class::Durable, 0u32);
    commit.push_to(first, Class::Durable, 1);
    commit.push_to(first, Class::Durable, 2);
    commit.push(READ, Class::Durable, 3);
    fanned(&mut writer, &mut commit);

    let on_first = drain_numbered(&mut writer, first, 4);
    let on_second = drain_numbered(&mut writer, second, 2);
    assert_eq!(
        on_first,
        vec![
            Numbered { seq: 1, record: 0 },
            Numbered { seq: 2, record: 1 },
            Numbered { seq: 3, record: 2 },
            Numbered { seq: 4, record: 3 },
        ],
        "the addressed connection did not receive its records in sequence"
    );
    assert_eq!(
        on_second,
        vec![Numbered { seq: 1, record: 0 }, Numbered { seq: 2, record: 3 }],
        "the other connection saw the addressed records, or a gap for them"
    );
    assert_eq!(writer.unaddressed(), 0, "a delivered record was counted lost");
}

#[test]
fn the_first_record_rides_the_attach_ahead_of_a_continuous_commit() {
    let attaches: u32 = 500;
    let (mut writer, mut commit) = spawn::<u32>();
    let mut n = 1_000_000u32;

    for greeting in 0..attaches {
        for _ in 0..16 {
            commit.push(READ, Class::Durable, n);
            n = n.wrapping_add(1);
        }
        writer.pass(&mut commit);
        let id = writer.attach(Capacities::each(1 << 16), Some(greeting));
        writer.authenticated(id, all());
        for _ in 0..16 {
            commit.push(READ, Class::Durable, n);
            n = n.wrapping_add(1);
        }
        writer.pass(&mut commit);
        let first = drain_numbered(&mut writer, id, 1);
        assert_eq!(
            first,
            vec![Numbered { seq: 1, record: greeting }],
            "a fanned-out record came before the attach's own"
        );
        writer.detach(id);
        writer.release(id);
    }
}

#[test]
fn fan_out_withholds_from_an_unauthenticated_connection_without_a_gap() {
    let (mut writer, mut commit) = spawn::<u32>();
    let pending = writer.attach(Capacities::each(ROOMY), None);
    let trusted = attached(&mut writer, ROOMY);

    commit.push(READ, Class::Durable, 0u32);
    fanned(&mut writer, &mut commit);
    writer.answer(pending, 1);
    assert_eq!(
        drain_numbered(&mut writer, pending, 1),
        vec![Numbered { seq: 1, record: 1 }],
        "the unauthenticated connection received a fanned record, or a gap"
    );
    assert_eq!(drain_numbered(&mut writer, trusted, 1), vec![Numbered { seq: 1, record: 0 }]);

    writer.authenticated(pending, all());
    commit.push(READ, Class::Durable, 2);
    fanned(&mut writer, &mut commit);
    assert_eq!(
        drain_numbered(&mut writer, pending, 1),
        vec![Numbered { seq: 2, record: 2 }],
        "the first record after authentication did not follow the answer"
    );
    assert_eq!(drain_numbered(&mut writer, trusted, 1), vec![Numbered { seq: 2, record: 2 }]);
    assert_eq!(writer.filtered(), 0, "an unauthenticated connection was counted as filtered");
}

#[test]
fn fan_out_withholds_a_record_the_capabilities_do_not_cover_without_a_gap() {
    let (mut writer, mut commit) = spawn::<u32>();
    let reader = writer.attach(Capacities::each(ROOMY), None);
    writer.authenticated(reader, Capabilities::none().with(READ));
    let trusted = attached(&mut writer, ROOMY);

    commit.push(READ, Class::Durable, 0u32);
    commit.push(COMMAND, Class::Durable, 1);
    fanned(&mut writer, &mut commit);
    assert_eq!(drain_numbered(&mut writer, reader, 1), vec![Numbered { seq: 1, record: 0 }]);
    writer.answer(reader, 2);
    assert_eq!(
        drain_numbered(&mut writer, reader, 1),
        vec![Numbered { seq: 2, record: 2 }],
        "the read-only connection saw the command record, or a gap"
    );
    commit.push(READ, Class::Durable, 3);
    fanned(&mut writer, &mut commit);
    assert_eq!(
        drain_numbered(&mut writer, reader, 1),
        vec![Numbered { seq: 3, record: 3 }],
        "the record after the withheld one did not take the next number"
    );
    assert_eq!(
        drain_numbered(&mut writer, trusted, 3),
        vec![
            Numbered { seq: 1, record: 0 },
            Numbered { seq: 2, record: 1 },
            Numbered { seq: 3, record: 3 },
        ],
        "the trusted connection did not receive every record"
    );
    assert_eq!(writer.filtered(), 1, "one connection was withheld from once");
    assert_eq!(writer.dropped_from(reader), Some(0), "a withheld record counted as dropped");
    assert_eq!(commit.dropped(), 0, "a withheld record counted as dropped");
}

#[test]
fn an_addressed_record_is_not_filtered() {
    let (mut writer, mut commit) = spawn::<u32>();
    let id = writer.attach(Capacities::each(ROOMY), None);
    writer.authenticated(id, Capabilities::none());

    commit.push(READ, Class::Durable, 0u32);
    commit.push_to(id, Class::Durable, 1);
    fanned(&mut writer, &mut commit);
    assert_eq!(
        drain_numbered(&mut writer, id, 1),
        vec![Numbered { seq: 1, record: 1 }],
        "the addressed record was withheld, or the fanned one was not"
    );
    assert_eq!(writer.filtered(), 1);
}

#[test]
fn a_retained_push_fans_out_as_a_plain_one_does() {
    let (mut writer, mut commit) = spawn::<u32>();
    let reader = writer.attach(Capacities::each(ROOMY), None);
    writer.authenticated(reader, Capabilities::none().with(READ));
    let trusted = attached(&mut writer, ROOMY);

    commit.push(READ, Class::Durable, 0u32);
    commit.push_retained(READ, 0, 1);
    commit.push_retained(COMMAND, 1, 2);
    commit.push(READ, Class::Durable, 3);
    fanned(&mut writer, &mut commit);

    assert_eq!(
        drain_numbered(&mut writer, trusted, 4),
        vec![
            Numbered { seq: 1, record: 0 },
            Numbered { seq: 2, record: 1 },
            Numbered { seq: 3, record: 2 },
            Numbered { seq: 4, record: 3 },
        ]
    );
    assert_eq!(
        drain_numbered(&mut writer, reader, 3),
        vec![
            Numbered { seq: 1, record: 0 },
            Numbered { seq: 2, record: 1 },
            Numbered { seq: 3, record: 3 },
        ],
        "the retained record the token does not cover reached it, or left a gap"
    );
    assert_eq!(writer.filtered(), 1);
    assert_eq!(writer.lifecycle_disconnects(), 0);
}

#[test]
fn the_retained_set_replays_latest_per_slot_in_emit_order() {
    let (mut writer, mut commit) = spawn::<u32>();
    let early = attached(&mut writer, ROOMY);

    commit.push_retained(READ, 0, 10u32);
    commit.push_retained(READ, 1, 11);
    commit.push_retained(READ, 0, 12);
    fanned(&mut writer, &mut commit);
    assert_eq!(drain_until(&mut writer, early, 3), vec![10, 11, 12]);

    let late = attached(&mut writer, ROOMY);
    commit.push(READ, Class::Durable, 13);
    fanned(&mut writer, &mut commit);
    assert_eq!(
        drain_numbered(&mut writer, late, 3),
        vec![
            Numbered { seq: 1, record: 11 },
            Numbered { seq: 2, record: 12 },
            Numbered { seq: 3, record: 13 },
        ],
        "the replay is not the latest per slot in emit order, ahead of the live record"
    );
    assert_eq!(drain_until(&mut writer, early, 1), vec![13]);
    assert_eq!(writer.replayed(), 2);
    assert_eq!(writer.lifecycle_disconnects(), 0);
    assert_eq!(writer.dropped_from(late), Some(0));
}

#[test]
fn the_replay_withholds_what_the_capabilities_do_not_cover() {
    let (mut writer, mut commit) = spawn::<u32>();
    let early = attached(&mut writer, ROOMY);
    commit.push_retained(COMMAND, 0, 0u32);
    fanned(&mut writer, &mut commit);
    assert_eq!(drain_until(&mut writer, early, 1), vec![0]);

    let reader = writer.attach(Capacities::each(ROOMY), None);
    writer.authenticated(reader, Capabilities::none().with(READ));
    commit.push(READ, Class::Durable, 1);
    fanned(&mut writer, &mut commit);

    assert_eq!(
        drain_numbered(&mut writer, reader, 1),
        vec![Numbered { seq: 1, record: 1 }],
        "the withheld replay reached the connection, or left a gap"
    );
    assert_eq!(writer.filtered(), 1);
    assert_eq!(writer.replayed(), 0);
}

#[test]
fn a_record_fanned_out_before_authentication_arrives_once_by_replay() {
    let (mut writer, mut commit) = spawn::<u32>();
    let pending = writer.attach(Capacities::each(ROOMY), None);

    commit.push_retained(READ, 0, 0u32);
    fanned(&mut writer, &mut commit);
    let early = attached(&mut writer, ROOMY);
    commit.push_retained(READ, 1, 1);
    fanned(&mut writer, &mut commit);
    assert_eq!(drain_until(&mut writer, early, 2), vec![0, 1]);

    writer.authenticated(pending, all());
    commit.push(READ, Class::Durable, 2);
    fanned(&mut writer, &mut commit);
    assert_eq!(
        drain_numbered(&mut writer, pending, 3),
        vec![
            Numbered { seq: 1, record: 0 },
            Numbered { seq: 2, record: 1 },
            Numbered { seq: 3, record: 2 },
        ],
        "a record was replayed twice, or missed"
    );
    assert_eq!(writer.pop(pending), None);
}

#[test]
fn a_full_replay_fits_the_lifecycle_ring() {
    let slots: u32 = 64;
    let mut writer: Writer<u32> = Writer::new(slots as usize);
    let mut commit: Commit<u32> = Commit::new(ROOMY);
    for slot in 0..slots {
        commit.push_retained(READ, slot, slot);
    }
    fanned(&mut writer, &mut commit);
    let early = attached(&mut writer, ROOMY);
    commit.push(READ, Class::Durable, u32::MAX);
    fanned(&mut writer, &mut commit);
    assert_eq!(drain_until(&mut writer, early, slots as usize + 1).last(), Some(&u32::MAX));

    let before = writer.replayed();
    let late = writer.attach(Capacities { lossy: 4, durable: 4, lifecycle: 256 }, None);
    writer.authenticated(late, all());
    let replayed = drain_numbered(&mut writer, late, slots as usize);
    assert_eq!(
        replayed.iter().map(|n| n.record).collect::<Vec<_>>(),
        (0..slots).collect::<Vec<_>>()
    );
    assert_eq!(replayed.last().map(|n| n.seq), Some(u64::from(slots)));
    assert_eq!(writer.replayed() - before, u64::from(slots));
    assert_eq!(writer.lifecycle_disconnects(), 0);
}

#[test]
fn an_answer_is_numbered_in_order_and_wakes_a_parked_writer() {
    let (mut writer, mut commit) = spawn::<u32>();
    let first = attached(&mut writer, ROOMY);
    let second = attached(&mut writer, ROOMY);

    commit.push(READ, Class::Durable, 0u32);
    fanned(&mut writer, &mut commit);
    assert_eq!(drain_numbered(&mut writer, second, 1), vec![Numbered { seq: 1, record: 0 }]);
    writer.answer(first, 1);
    assert_eq!(
        drain_numbered(&mut writer, first, 2),
        vec![Numbered { seq: 1, record: 0 }, Numbered { seq: 2, record: 1 }],
        "the answer did not follow the record before it"
    );

    commit.push(READ, Class::Durable, 2);
    fanned(&mut writer, &mut commit);
    assert_eq!(
        drain_numbered(&mut writer, first, 1),
        vec![Numbered { seq: 3, record: 2 }],
        "the record after the answer did not take the next number"
    );
    assert_eq!(
        drain_numbered(&mut writer, second, 1),
        vec![Numbered { seq: 2, record: 2 }],
        "the other connection saw the answer, or a gap for it"
    );
    assert_eq!(writer.unaddressed(), 0, "a delivered answer was counted lost");
}

#[test]
fn a_lossy_flood_evicts_no_durable_no_lifecycle_and_no_answer() {
    const HANDSHAKE: u32 = 1000;
    const PONG: u32 = 3000;
    let (mut writer, mut commit) = spawn::<u32>();
    let id = writer.attach(Capacities::each(4), Some(HANDSHAKE));
    writer.authenticated(id, all());

    commit.push(READ, Class::Durable, 10);
    commit.push(READ, Class::Lifecycle, 20);
    fanned(&mut writer, &mut commit);
    writer.answer(id, PONG);
    for value in 0..100 {
        commit.push(READ, Class::Lossy, value);
    }
    commit.push(READ, Class::Lifecycle, 21);
    fanned(&mut writer, &mut commit);

    let kept = [(1, HANDSHAKE), (2, 10), (3, 20), (4, PONG)]
        .into_iter()
        .chain((101..=104).zip(96..100))
        .chain([(105, 21)])
        .map(|(seq, record)| Numbered { seq, record })
        .collect::<Vec<_>>();
    assert_eq!(drain_numbered(&mut writer, id, kept.len()), kept);
    assert_eq!(writer.pop(id), None);
    assert_eq!(writer.dropped_from(id), Some(96), "something but the flood was lost");
    assert_eq!(writer.dropped(), Dropped { lossy: 96, ..Dropped::default() });
}

#[test]
fn a_durable_flood_evicts_only_durable() {
    let (mut writer, mut commit) = spawn::<u32>();
    let stalled = attached(&mut writer, 4);

    commit.push(READ, Class::Lossy, 100u32);
    commit.push(READ, Class::Lifecycle, 200);
    for value in 0..10 {
        commit.push(READ, Class::Durable, value);
    }
    fanned(&mut writer, &mut commit);

    let kept = [(1, 100), (2, 200)]
        .into_iter()
        .chain((9..=12).zip(6..10))
        .map(|(seq, record)| Numbered { seq, record })
        .collect::<Vec<_>>();
    assert_eq!(drain_numbered(&mut writer, stalled, kept.len()), kept);
    assert_eq!(writer.dropped_from(stalled), Some(6));
    assert_eq!(writer.dropped(), Dropped { durable: 6, ..Dropped::default() });
}

#[test]
fn an_evicted_broker_answer_is_counted_apart() {
    const PONG: u32 = 3000;
    let (mut writer, mut commit) = spawn::<u32>();
    let id = attached(&mut writer, 4);

    writer.answer(id, PONG);
    for value in 0..4 {
        commit.push(READ, Class::Durable, value);
    }
    fanned(&mut writer, &mut commit);
    assert_eq!(
        writer.dropped(),
        Dropped { broker_answer: 1, ..Dropped::default() },
        "the fourth record evicts the answer"
    );

    commit.push(READ, Class::Durable, 4);
    fanned(&mut writer, &mut commit);
    assert_eq!(writer.dropped(), Dropped { durable: 1, broker_answer: 1, ..Dropped::default() });
    assert_eq!(drain_until(&mut writer, id, 4), [1, 2, 3, 4]);
}

#[test]
fn a_full_lifecycle_ring_closes_the_connection_and_no_other() {
    let (mut writer, mut commit) = spawn::<u32>();
    let stalled = writer.attach(Capacities::each(4), None);
    writer.authenticated(stalled, all());
    let reading = attached(&mut writer, ROOMY);

    for value in 0..4u32 {
        commit.push(READ, Class::Lifecycle, value);
    }
    fanned(&mut writer, &mut commit);
    assert!(writer.is_live(stalled), "a ring that fits closed");
    assert_eq!(writer.lifecycle_disconnects(), 0);

    commit.push(READ, Class::Lifecycle, 4);
    commit.push(READ, Class::Lifecycle, 5);
    commit.push(READ, Class::Durable, 6);
    fanned(&mut writer, &mut commit);

    assert!(!writer.is_live(stalled), "the full ring did not close its connection");
    assert_eq!(writer.lifecycle_disconnects(), 1);
    assert_eq!(drain_until(&mut writer, stalled, 4), [0, 1, 2, 3]);
    assert_eq!(writer.pop(stalled), None, "a closed connection was sent more");
    assert_eq!(drain_until(&mut writer, reading, 7), [0, 1, 2, 3, 4, 5, 6]);
    assert_eq!(writer.dropped_from(reading), Some(0));

    // An answer to the closed connection finds it gone, as it would after a
    // detach, and the late detach its thread sends is a no-op.
    writer.answer(stalled, 99);
    writer.detach(stalled);
    assert_eq!(writer.unaddressed(), 1);
}

#[test]
fn a_lossy_or_durable_flood_closes_nothing() {
    let (mut writer, mut commit) = spawn::<u32>();
    let stalled = writer.attach(Capacities::each(4), None);
    writer.authenticated(stalled, all());

    for value in 0..50u32 {
        commit.push(READ, Class::Lossy, value);
        commit.push(READ, Class::Durable, value);
    }
    fanned(&mut writer, &mut commit);

    assert!(writer.is_live(stalled));
    assert_eq!(writer.lifecycle_disconnects(), 0);
    assert_eq!(writer.dropped_from(stalled), Some(92));
    assert_eq!(writer.dropped(), Dropped { lossy: 46, durable: 46, broker_answer: 0 });
}

#[test]
fn an_addressed_record_to_a_missing_connection_is_counted_and_reaches_nobody() {
    let (mut writer, mut commit) = spawn::<u32>();
    let gone = attached(&mut writer, ROOMY);
    let staying = attached(&mut writer, ROOMY);
    writer.detach(gone);
    writer.release(gone);

    commit.push_to(gone, Class::Durable, 0u32);
    commit.push_to(ConnectionId::from_raw(u64::MAX), Class::Durable, 1);
    commit.push(READ, Class::Durable, 2);
    fanned(&mut writer, &mut commit);

    assert_eq!(
        drain_numbered(&mut writer, staying, 1),
        vec![Numbered { seq: 1, record: 2 }],
        "a record addressed elsewhere reached the staying connection"
    );
    assert_eq!(writer.pop(staying), None);
    assert_eq!(writer.unaddressed(), 2, "two records with nowhere to go were not counted as two");
}

#[test]
fn a_record_with_no_connection_is_dropped_off_the_logic_thread() {
    struct Counted(Arc<AtomicUsize>);
    impl Clone for Counted {
        fn clone(&self) -> Self {
            Self(Arc::clone(&self.0))
        }
    }
    impl Drop for Counted {
        fn drop(&mut self) {
            self.0.fetch_add(1, Ordering::Relaxed);
        }
    }

    let drops = Arc::new(AtomicUsize::new(0));
    let mut writer: Writer<Counted> = Writer::new(64);
    let mut commit: Commit<Counted> = Commit::new(ROOMY);

    for _ in 0..5 {
        let _ = commit.push(READ, Class::Durable, Counted(Arc::clone(&drops)));
    }
    fanned(&mut writer, &mut commit);
    assert_eq!(
        drops.load(Ordering::Relaxed),
        5,
        "the writer kept records nobody could receive"
    );
}

#[test]
fn dropping_the_writer_stops_the_thread_and_keeps_what_was_delivered() {
    let (mut writer, mut commit) = spawn::<u32>();
    let consumer = attached(&mut writer, ROOMY);

    for value in 0..3u32 {
        commit.push(READ, Class::Durable, value);
    }
    fanned(&mut writer, &mut commit);
    assert_eq!(drain_until(&mut writer, consumer, 3), vec![0, 1, 2]);

    // With no further pass, nothing committed is delivered, and a commit
    // neither blocks nor fails.
    assert_eq!(writer.pop(consumer), None, "a record arrived with no pass");
    assert_eq!(
        commit.push(READ, Class::Durable, 3),
        Push::Stored,
        "a commit with no writer pass was refused"
    );
    assert_eq!(writer.pop(consumer), None, "a record was delivered with no pass");

    let orphan = attached(&mut writer, ROOMY);
    assert_eq!(writer.pop(orphan), None, "an attachment with no pass received");
}

#[test]
fn a_pass_takes_at_most_a_batch() {
    let (mut writer, mut commit) = spawn::<u32>();
    let id = attached(&mut writer, ROOMY);
    for value in 0..(RECORDS_PER_PASS as u32 + 10) {
        commit.push(READ, Class::Durable, value);
    }
    assert_eq!(writer.pass(&mut commit), RECORDS_PER_PASS);
    assert_eq!(commit.len(), 10);
    assert_eq!(writer.pass(&mut commit), 10);
    assert_eq!(writer.pass(&mut commit), 0);
    let arrived = drain_numbered(&mut writer, id, RECORDS_PER_PASS + 10);
    assert_eq!(arrived.last(), Some(&Numbered { seq: RECORDS_PER_PASS as u64 + 10, record: RECORDS_PER_PASS as u32 + 9 }));
}

#[test]
fn a_released_connection_holds_nothing_and_its_id_is_not_reused() {
    let (mut writer, _commit) = spawn::<u32>();
    let id = writer.attach(Capacities::each(4), Some(7));
    assert!(!writer.is_empty(id));
    writer.release(id);
    assert!(writer.is_empty(id));
    assert_eq!(writer.pop(id), None);
    assert_eq!(writer.dropped_from(id), None);
    let next = writer.attach(Capacities::each(4), None);
    assert_eq!(next.get(), id.get() + 1);
    assert_eq!(writer.last_id(), next.get());
}

#[test]
fn ids_run_one_two_three_across_detaches_and_releases() {
    let mut writer: Writer<u64> = Writer::new(4);
    let mut handed = Vec::new();
    for round in 0..6 {
        let id = writer.attach(Capacities::each(4), None);
        handed.push(id.0);
        if round % 2 == 0 {
            writer.detach(id);
        }
        if round % 3 == 0 {
            writer.release(id);
        }
    }
    assert_eq!(handed, [1, 2, 3, 4, 5, 6]);
    assert_eq!(writer.last_id(), 6);
}
