use dcsbridge::ring::{Push, Ring};

/// A record that remembers how often it was dropped.
struct Counted {
    value: u32,
    drops: std::rc::Rc<std::cell::Cell<usize>>,
}

impl Drop for Counted {
    fn drop(&mut self) {
        self.drops.set(self.drops.get() + 1);
    }
}

#[test]
fn fills_to_capacity_and_drains_in_order() {
    let mut ring = Ring::new(4);

    for value in 0..4u32 {
        assert_eq!(ring.push(value), Push::Stored, "{value} found no room");
    }
    assert_eq!(ring.len(), 4, "a filled ring reports the wrong depth");

    for value in 0..4u32 {
        assert_eq!(ring.pop(), Some(value), "the ring reordered its records");
    }
    assert_eq!(ring.pop(), None, "a drained ring gave up a fifth record");
    assert_eq!(ring.dropped(), 0, "a ring that never filled turned something away");
}

#[test]
fn overflow_evicts_the_oldest_and_counts_it() {
    let mut ring = Ring::new(4);

    for value in 0..4u32 {
        assert_eq!(ring.push(value), Push::Stored, "{value} found no room");
    }
    for value in 4..7u32 {
        assert_eq!(ring.push(value), Push::Evicted(value - 4), "{value} evicted the wrong record");
    }

    assert_eq!(ring.dropped(), 3, "three evictions were not counted as three");
    assert_eq!(ring.len(), 4, "the ring grew past its capacity");

    let survivors: Vec<u32> = std::iter::from_fn(|| ring.pop()).collect();
    assert_eq!(survivors, vec![3, 4, 5, 6], "the wrong records survived a flood");
}

#[test]
fn wraps_without_losing_order() {
    let mut ring = Ring::new(3);
    let mut popped = Vec::new();

    for value in 0..10u32 {
        ring.push(value);
        if value % 2 == 1 {
            popped.push(ring.pop().expect("a push preceded this pop"));
        }
    }
    while let Some(value) = ring.pop() {
        popped.push(value);
    }

    assert!(
        popped.windows(2).all(|pair| pair[0] < pair[1]),
        "records came out of order across a wrap: {popped:?}"
    );
    assert_eq!(
        popped.len() as u64 + ring.dropped(),
        10,
        "records neither arrived nor were counted as turned away"
    );
}

#[test]
fn a_ring_of_one_holds_the_newest_record() {
    let mut ring = Ring::new(1);

    assert_eq!(ring.push(1u32), Push::Stored, "the first record found no room");
    assert_eq!(ring.push(2), Push::Evicted(1), "the second record evicted the wrong one");
    assert_eq!(ring.pop(), Some(2), "the ring kept the older record");
    assert_eq!(ring.dropped(), 1, "the eviction was not counted");
}

#[test]
fn an_evicted_record_comes_back_whole() {
    let drops = std::rc::Rc::new(std::cell::Cell::new(0usize));
    let counted = |value: u32| Counted { value, drops: drops.clone() };
    let mut ring = Ring::new(2);

    ring.push(counted(1));
    ring.push(counted(2));

    let Push::Evicted(evicted) = ring.push(counted(3)) else {
        panic!("a push into a full ring did not evict");
    };

    assert_eq!(evicted.value, 1, "the ring evicted the wrong record");
    assert_eq!(drops.get(), 0, "the ring dropped a record it had handed back");
}

#[test]
fn an_offer_into_a_full_ring_comes_back_and_keeps_the_queue() {
    let mut ring = Ring::new(2);
    assert_eq!(ring.offer(1u32), Push::Stored);
    assert_eq!(ring.offer(2), Push::Stored);
    assert_eq!(ring.offer(3), Push::Refused(3));
    assert_eq!(ring.dropped(), 1);
    assert_eq!(ring.capacity(), 2);
    assert_eq!(ring.pop(), Some(1));
    assert_eq!(ring.pop(), Some(2));
    assert!(ring.is_empty());
}

#[test]
fn every_record_is_dropped_exactly_once() {
    let drops = std::rc::Rc::new(std::cell::Cell::new(0usize));
    let counted = |value: u32| Counted { value, drops: drops.clone() };
    {
        let mut ring = Ring::new(4);
        for value in 0..7 {
            // The three evicted records are dropped here, as they come back.
            let _ = ring.push(counted(value));
        }
        assert_eq!(drops.get(), 3, "the three evicted records were not dropped when they came back");

        let held = ring.pop().expect("the ring holds four records");
        assert_eq!(held.value, 3, "the wrong record survived");
        drop(held);
        assert_eq!(drops.get(), 4, "a record its reader let go of was not dropped");
    }
    assert_eq!(drops.get(), 7, "the ring did not drop the three records it still held");
}

#[test]
fn a_run_of_pushes_keeps_the_last_capacity_and_counts_the_rest() {
    for capacity in 1..=5usize {
        for pushes in 0..=12u32 {
            let mut ring = Ring::new(capacity);
            for value in 0..pushes {
                let expected = if (value as usize) < capacity {
                    Push::Stored
                } else {
                    Push::Evicted(value - capacity as u32)
                };
                assert_eq!(ring.push(value), expected, "push {value} into {capacity}");
            }
            let kept = (pushes as usize).min(capacity) as u32;
            assert_eq!(ring.dropped(), u64::from(pushes - kept));
            assert_eq!(ring.len(), kept as usize);
            let survivors: Vec<u32> = std::iter::from_fn(|| ring.pop()).collect();
            assert_eq!(survivors, (pushes - kept..pushes).collect::<Vec<u32>>());
        }
    }
}
