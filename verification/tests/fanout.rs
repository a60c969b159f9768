use dcsbridge::fanout::{
    outbound, Capabilities, Capacities, Class, Commit, ConnectionId, Drain, Lost, Numbered,
};
use dcsbridge::ring::Push;

/// The one capability the records here need.
const READ: u32 = 1;

#[test]
fn a_lifecycle_record_the_commit_ring_evicts_is_counted() {
    let mut commit: Commit<u32> = Commit::new(2);

    assert!(matches!(commit.push_retained(READ, 0, 0), Push::Stored));
    assert!(matches!(commit.push(READ, Class::Durable, 1), Push::Stored));
    assert!(matches!(commit.push(READ, Class::Durable, 2), Push::Evicted(0)));
    assert_eq!(commit.lifecycle_evicted(), 1);
    assert!(matches!(commit.push_retained(READ, 1, 3), Push::Evicted(1)));
    assert_eq!(
        commit.lifecycle_evicted(),
        1,
        "an evicted plain record counted as a lifecycle one"
    );
    assert_eq!(commit.dropped(), 2);
}

#[test]
fn a_capability_set_covers_what_was_added_and_nothing_past_the_mask() {
    let all = Capabilities::none().with(READ);
    let set = Capabilities::none().with(1).with(49);
    assert!(set.covers(1));
    assert!(set.covers(49));
    assert!(!set.covers(2));
    assert!(!set.covers(0));
    assert!(!Capabilities::none().covers(1));

    let past = Capabilities::none().with(64).with(u32::MAX);
    assert_eq!(past, Capabilities::none());
    assert!(!past.covers(64));
    assert!(!all.covers(64));
}

#[test]
fn a_commit_ring_hands_records_to_the_writer_in_order_with_their_address() {
    let mut commit: Commit<u32> = Commit::new(4);
    assert!(commit.is_empty());
    assert!(matches!(commit.push(READ, Class::Lossy, 10), Push::Stored));
    assert!(matches!(commit.push_to(ConnectionId::from_raw(7), Class::Durable, 11), Push::Stored));
    assert_eq!(commit.len(), 2);

    let first = commit.pop().expect("two were pushed");
    assert_eq!(first.to, None);
    assert_eq!(first.need, READ);
    assert_eq!(first.class, Class::Lossy);
    assert_eq!(first.record, 10);
    let second = commit.pop().expect("one is left");
    assert_eq!(second.to, Some(ConnectionId::from_raw(7)));
    assert_eq!(second.to.map(ConnectionId::get), Some(7));
    assert_eq!(second.record, 11);
    assert!(commit.pop().is_none());
    assert_eq!(commit.dropped(), 0);
}

/// Push `seq` into the ring `class` names, as the writer thread would have
/// numbered it.
fn numbered(drain: &mut Drain<u64>, class: Class, seq: u64) -> Lost {
    drain.push(class, false, Numbered { seq, record: seq })
}

/// Everything the drain holds, as the `seq` of each record in the order it
/// came out.
fn drained(drain: &mut Drain<u64>) -> Vec<u64> {
    std::iter::from_fn(|| drain.pop()).map(|record| record.seq).collect()
}

#[test]
fn the_drain_merges_three_rings_on_seq() {
    let mut drain = outbound(Capacities::each(8));
    let classes = [
        Class::Durable,
        Class::Lossy,
        Class::Lossy,
        Class::Lifecycle,
        Class::Durable,
        Class::Lifecycle,
        Class::Lossy,
    ];
    for (seq, class) in (1..).zip(classes) {
        assert_eq!(numbered(&mut drain, class, seq), Lost::Nothing);
    }

    assert!(!drain.is_empty());
    assert_eq!(drained(&mut drain), [1, 2, 3, 4, 5, 6, 7]);
    assert!(drain.is_empty());
}

#[test]
fn an_eviction_leaves_a_gap_and_no_reorder() {
    let mut drain = outbound(Capacities::each(2));
    assert_eq!(numbered(&mut drain, Class::Lossy, 1), Lost::Nothing);
    assert_eq!(numbered(&mut drain, Class::Durable, 2), Lost::Nothing);
    assert_eq!(numbered(&mut drain, Class::Lossy, 3), Lost::Nothing);
    assert_eq!(numbered(&mut drain, Class::Lifecycle, 4), Lost::Nothing);
    assert_eq!(numbered(&mut drain, Class::Lossy, 5), Lost::Lossy);

    assert_eq!(drained(&mut drain), [2, 3, 4, 5]);
    assert_eq!(drain.dropped(), 1);
}

#[test]
fn a_held_record_survives_a_flood_of_its_ring() {
    let mut drain = outbound(Capacities::each(2));
    assert_eq!(numbered(&mut drain, Class::Durable, 1), Lost::Nothing);
    assert_eq!(numbered(&mut drain, Class::Lossy, 2), Lost::Nothing);

    // Popping 1 looks at every ring, and leaves 2 held.
    assert_eq!(drain.pop().map(|record| record.seq), Some(1));
    assert!(!drain.is_empty(), "a held record read as nothing to do");

    for seq in 3..=6 {
        let _ = numbered(&mut drain, Class::Lossy, seq);
    }
    assert_eq!(drained(&mut drain), [2, 5, 6]);
}

#[test]
fn the_lifecycle_ring_refuses_and_never_evicts() {
    let mut drain = outbound(Capacities::each(2));
    assert_eq!(numbered(&mut drain, Class::Lifecycle, 1), Lost::Nothing);
    assert_eq!(numbered(&mut drain, Class::Lifecycle, 2), Lost::Nothing);
    assert_eq!(numbered(&mut drain, Class::Lifecycle, 3), Lost::Boundary);

    assert_eq!(drained(&mut drain), [1, 2]);
}

#[test]
fn an_evicted_answer_is_counted_apart() {
    let mut drain = outbound(Capacities::each(1));
    assert_eq!(drain.push(Class::Durable, true, Numbered { seq: 1, record: 1u64 }), Lost::Nothing);
    assert_eq!(drain.push(Class::Durable, false, Numbered { seq: 2, record: 2 }), Lost::BrokerAnswer);
    assert_eq!(drain.push(Class::Durable, false, Numbered { seq: 3, record: 3 }), Lost::Durable);
    assert_eq!(drained(&mut drain), [3]);
    assert_eq!(drain.dropped(), 2);
}

#[test]
fn the_capacities_add_up() {
    let c = Capacities { lossy: 3, durable: 4, lifecycle: 5 };
    assert_eq!(c.total(), 12);
    assert_eq!(Capacities::each(2).total(), 6);
}

#[test]
fn pops_between_floods_hand_records_out_rising() {
    // Records numbered one by one into all three rings, with floods that
    // overrun the small rings and pops in between.
    let mut drain = outbound(Capacities::each(2));
    let classes = [Class::Lossy, Class::Durable, Class::Lifecycle];
    let mut popped = Vec::new();
    let mut pushed = Vec::new();
    for seq in 1..=60u64 {
        let class = classes[(seq * 7 % 5 % 3) as usize];
        let _ = numbered(&mut drain, class, seq);
        pushed.push(seq);
        if seq % 4 == 0 {
            popped.extend(drain.pop().map(|record| record.seq));
        }
        if seq % 9 == 0 {
            popped.extend(drain.pop().map(|record| record.seq));
            popped.extend(drain.pop().map(|record| record.seq));
        }
    }
    popped.extend(drained(&mut drain));

    assert!(popped.windows(2).all(|pair| pair[0] < pair[1]), "a pop went back: {popped:?}");
    assert!(popped.iter().all(|seq| pushed.contains(seq)), "a pop gave a record never pushed");
    assert!(popped.len() < pushed.len(), "the floods lost nothing");
    assert_eq!(
        pushed.len() as u64,
        popped.len() as u64 + drain.dropped(),
        "a record went missing without being counted"
    );
}
