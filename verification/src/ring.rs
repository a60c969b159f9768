//! A fixed-size ring with drop-oldest.
//!
//! The ring is allocated once, at the size it is given, and never grows. A
//! push into a full ring evicts the oldest record and counts it, so a
//! consumer that stops reading costs its own records and never the
//! producer's progress. Push neither waits nor allocates.
//!
//! The other drop rule a ring of pending commands wants, turning the newest
//! record away and leaving the queue alone, is [`Ring::offer`]: the same
//! ring, claiming a free slot, and giving the record back if there is none.
//!
//! A record the ring does not keep comes back to the caller rather than
//! being destroyed inside it: the ring knows nothing about what a record is,
//! so a caller that counts its losses by kind is the only one that can.

use vstd::prelude::*;
use crate::count::{wrapping_inc, next_count};

verus! {

/// What a push did with the record it was given.
#[derive(Clone, Copy, Debug, Eq, PartialEq)]
pub enum Push<T> {
    /// The ring had room and now holds the record.
    Stored,
    /// The ring was full, so the oldest record was evicted to make room, and
    /// comes back here.
    Evicted(T),
    /// The ring was full and keeps what it holds, so the pushed record comes
    /// back here instead.
    Refused(T),
}

/// A ring of records, oldest first, and a count of the records it turned
/// away.
#[derive(Debug)]
pub struct Ring<T> {
    slots: Vec<Option<T>>,
    /// Where the oldest record is.
    head: usize,
    /// How many records are held.
    len: usize,
    dropped: u64,
}

impl<T> Ring<T> {
    /// The slot the `i`th oldest record sits in.
    closed spec fn slot_of(&self, i: int) -> int {
        if self.head + i < self.slots@.len() {
            self.head + i
        } else {
            self.head + i - self.slots@.len()
        }
    }

    /// The records held, oldest first.
    pub closed spec fn records(&self) -> Seq<T> {
        Seq::new(self.len as nat, |i: int| self.slots@[self.slot_of(i)]->0)
    }

    /// How many records the ring was built to hold.
    pub closed spec fn cap(&self) -> nat {
        self.slots@.len()
    }

    /// How many records the ring has turned away, modulo 2^64.
    pub closed spec fn drops(&self) -> u64 {
        self.dropped
    }

    /// The ring's invariant: a slot per record of capacity, the oldest
    /// inside them, and every held record's slot full.
    pub closed spec fn wf(&self) -> bool {
        &&& self.slots@.len() > 0
        &&& self.head < self.slots@.len()
        &&& self.len <= self.slots@.len()
        &&& forall|i: int| 0 <= i < self.len ==> (#[trigger] self.slots@[self.slot_of(i)]) is Some
    }

    /// A sound ring holds no more than its capacity, which is at least one.
    pub proof fn lemma_bounds(&self)
        requires
            self.wf(),
        ensures
            self.records().len() <= self.cap(),
            self.cap() > 0,
    {
    }

    /// A ring of `capacity` records.
    ///
    /// A ring that can hold nothing would turn away every record it was ever
    /// given, which is a misconfiguration rather than a backpressure policy,
    /// so `capacity` is at least one.
    pub fn new(capacity: usize) -> (ring: Self)
        requires
            capacity > 0,
        ensures
            ring.wf(),
            ring.cap() == capacity,
            ring.records() == Seq::<T>::empty(),
            ring.drops() == 0,
    {
        let mut slots: Vec<Option<T>> = Vec::with_capacity(capacity);
        let mut i: usize = 0;
        while i < capacity
            invariant
                0 <= i <= capacity,
                slots@.len() == i,
            decreases capacity - i,
        {
            slots.push(None);
            i = i + 1;
        }
        let ring = Ring { slots, head: 0, len: 0, dropped: 0 };
        proof {
            assert(ring.records() =~= Seq::<T>::empty());
        }
        ring
    }

    /// What pushing `value` does: appended when there is room, and
    /// otherwise appended with the oldest evicted, handed back and counted.
    pub open spec fn pushed(self, next: Self, value: T, p: Push<T>) -> bool {
        &&& next.cap() == self.cap()
        &&& if self.records().len() < self.cap() {
            &&& p == Push::<T>::Stored
            &&& next.records() == self.records().push(value)
            &&& next.drops() == self.drops()
        } else {
            &&& p == Push::Evicted(self.records()[0])
            &&& next.records() == self.records().drop_first().push(value)
            &&& next.drops() == next_count(self.drops())
        }
    }

    /// Push a record, evicting the oldest if the ring is full.
    ///
    /// Never waits and never grows the ring. An evicted record comes back,
    /// and is counted.
    pub fn push(&mut self, value: T) -> (pushed: Push<T>)
        requires
            old(self).wf(),
        ensures
            final(self).wf(),
            old(self).pushed(*final(self), value, pushed),
            final(self).cap() == old(self).cap(),
            old(self).records().len() < old(self).cap() ==> {
                &&& pushed == Push::<T>::Stored
                &&& final(self).records() == old(self).records().push(value)
                &&& final(self).drops() == old(self).drops()
            },
            old(self).records().len() == old(self).cap() ==> {
                &&& pushed == Push::Evicted(old(self).records()[0])
                &&& final(self).records() == old(self).records().drop_first().push(value)
                &&& final(self).drops() == next_count(old(self).drops())
            },
    {
        let cap = self.slots.len();
        if self.len < cap {
            let at = if self.len < cap - self.head {
                self.head + self.len
            } else {
                self.len - (cap - self.head)
            };
            let ghost before = self.records();
            self.slots.set(at, Some(value));
            self.len = self.len + 1;
            proof {
                assert forall|i: int| 0 <= i < self.len implies (#[trigger] self.slots@[self.slot_of(i)]) is Some by {
                    assert(self.slot_of(i) == old(self).slot_of(i));
                    if i < self.len - 1 {
                        assert(self.slot_of(i) != at);
                        assert(old(self).slots@[old(self).slot_of(i)] is Some);
                    }
                }
                assert forall|i: int| 0 <= i < self.len implies #[trigger] self.records()[i]
                    == before.push(value)[i] by {
                    assert(self.slot_of(i) == old(self).slot_of(i));
                    if i < self.len - 1 {
                        assert(self.slot_of(i) != at);
                    }
                }
                assert(self.records() =~= before.push(value));
            }
            Push::Stored
        } else {
            let ghost before = self.records();
            let mut out: Option<T> = Some(value);
            self.slots.set_and_swap(self.head, &mut out);
            self.head = if self.head + 1 < cap {
                self.head + 1
            } else {
                0
            };
            self.dropped = wrapping_inc(self.dropped);
            proof {
                assert(old(self).slot_of(0) == old(self).head);
                assert forall|i: int| 0 <= i < self.len implies (#[trigger] self.slots@[self.slot_of(i)]) is Some by {
                    if i < self.len - 1 {
                        assert(self.slot_of(i) == old(self).slot_of(i + 1));
                    }
                }
                assert forall|i: int| 0 <= i < self.len implies #[trigger] self.records()[i]
                    == before.drop_first().push(value)[i] by {
                    if i < self.len - 1 {
                        assert(self.slot_of(i) == old(self).slot_of(i + 1));
                    }
                }
                assert(self.records() =~= before.drop_first().push(value));
            }
            match out {
                Some(evicted) => Push::Evicted(evicted),
                None => Push::Stored,
            }
        }
    }

    /// Offer a record: store it if there is room, and give it back otherwise,
    /// leaving what the ring holds as it was. A refusal is counted as an
    /// eviction is.
    pub fn offer(&mut self, value: T) -> (pushed: Push<T>)
        requires
            old(self).wf(),
        ensures
            final(self).wf(),
            final(self).cap() == old(self).cap(),
            old(self).records().len() < old(self).cap() ==> {
                &&& pushed == Push::<T>::Stored
                &&& final(self).records() == old(self).records().push(value)
                &&& final(self).drops() == old(self).drops()
            },
            old(self).records().len() == old(self).cap() ==> {
                &&& pushed == Push::Refused(value)
                &&& final(self).records() == old(self).records()
                &&& final(self).drops() == next_count(old(self).drops())
            },
    {
        if self.len < self.slots.len() {
            self.push(value)
        } else {
            self.dropped = wrapping_inc(self.dropped);
            proof {
                assert forall|i: int| 0 <= i < self.len implies (#[trigger] self.slots@[self.slot_of(i)]) is Some by {
                    assert(self.slot_of(i) == old(self).slot_of(i));
                    assert(old(self).slots@[old(self).slot_of(i)] is Some);
                }
                assert(self.records() =~= old(self).records());
            }
            Push::Refused(value)
        }
    }

    /// Take the oldest record, or nothing if the ring is empty.
    pub fn pop(&mut self) -> (popped: Option<T>)
        requires
            old(self).wf(),
        ensures
            final(self).wf(),
            final(self).cap() == old(self).cap(),
            final(self).drops() == old(self).drops(),
            old(self).records().len() == 0 ==> popped is None && final(self).records()
                == old(self).records(),
            old(self).records().len() > 0 ==> popped == Some(old(self).records()[0])
                && final(self).records() == old(self).records().drop_first(),
    {
        if self.len == 0 {
            return None;
        }
        let cap = self.slots.len();
        let ghost before = self.records();
        let mut out: Option<T> = None;
        self.slots.set_and_swap(self.head, &mut out);
        self.head = if self.head + 1 < cap {
            self.head + 1
        } else {
            0
        };
        self.len = self.len - 1;
        proof {
            assert(old(self).slot_of(0) == old(self).head);
            assert forall|i: int| 0 <= i < self.len implies (#[trigger] self.slots@[self.slot_of(i)]) is Some by {
                assert(self.slot_of(i) == old(self).slot_of(i + 1));
            }
            assert forall|i: int| 0 <= i < self.len implies #[trigger] self.records()[i]
                == before.drop_first()[i] by {
                assert(self.slot_of(i) == old(self).slot_of(i + 1));
            }
            assert(self.records() =~= before.drop_first());
        }
        out
    }

    /// How many records the ring has turned away: evicted and refused alike,
    /// each a record that went into the ring's care and did not come out of
    /// the far end.
    pub fn dropped(&self) -> (n: u64)
        ensures
            n == self.drops(),
    {
        self.dropped
    }

    /// How many records the ring was built to hold.
    pub fn capacity(&self) -> (n: usize)
        requires
            self.wf(),
        ensures
            n == self.cap(),
    {
        self.slots.len()
    }

    /// How many records the ring holds.
    pub fn len(&self) -> (n: usize)
        requires
            self.wf(),
        ensures
            n == self.records().len(),
    {
        self.len
    }

    /// Whether the ring holds nothing.
    pub fn is_empty(&self) -> (b: bool)
        requires
            self.wf(),
        ensures
            b == (self.records().len() == 0),
    {
        self.len == 0
    }
}

/// The records `values[from..to]` of a run, the last `cap` of them when
/// there are more: what a ring of `cap` holds after they are pushed.
pub open spec fn last_of<T>(values: Seq<T>, to: int, cap: nat) -> Seq<T> {
    values.subrange(if to > cap { to - cap } else { 0 }, to)
}

/// After the first `k` pushes of a run into an empty ring, the ring holds
/// the last of them, has counted the rest, and each push so far did what
/// its place in the run says.
proof fn lemma_ring_run<T>(rings: Seq<Ring<T>>, values: Seq<T>, results: Seq<Push<T>>, k: int)
    requires
        rings.len() == values.len() + 1,
        results.len() == values.len(),
        values.len() < u64::MAX,
        rings[0].wf(),
        rings[0].records().len() == 0,
        rings[0].drops() == 0,
        forall|i: int| 0 <= i < values.len() ==> #[trigger] rings[i].pushed(rings[i + 1], values[i], results[i]),
        0 <= k <= values.len(),
    ensures
        rings[k].cap() == rings[0].cap(),
        rings[k].records() == last_of(values, k, rings[0].cap()),
        rings[k].drops() == if k > rings[0].cap() {
            k - rings[0].cap()
        } else {
            0
        },
        forall|i: int|
            0 <= i < k ==> #[trigger] results[i] == if i < rings[0].cap() {
                Push::<T>::Stored
            } else {
                Push::Evicted(values[i - rings[0].cap()])
            },
    decreases k,
{
    let cap = rings[0].cap();
    rings[0].lemma_bounds();
    if k == 0 {
        assert(rings[0].records() =~= last_of(values, 0, cap));
    } else {
        let j = k - 1;
        lemma_ring_run(rings, values, results, j);
        assert(rings[j].pushed(rings[j + 1], values[j], results[j]));
        if j < cap {
            assert(rings[k].records() =~= last_of(values, k, cap));
        } else {
            assert(rings[j].records()[0] == values[j - cap]);
            assert(rings[k].records() =~= last_of(values, k, cap));
        }
    }
}

/// A ring keeps the newest records pushed into it, in the order pushed, and
/// counts the rest. From an empty ring that has turned nothing away,
/// through any run of pushes of `values` with nothing taken out between
/// them, each push below the capacity stores its record and each one past
/// it hands back the record pushed a capacity's worth of pushes before; the
/// ring then holds the last capacity's worth of records pushed (all of
/// them, when there are fewer), oldest first, and has counted every other
/// as turned away.
pub proof fn law_a_ring_keeps_the_newest<T>(rings: Seq<Ring<T>>, values: Seq<T>, results: Seq<Push<T>>)
    requires
        rings.len() == values.len() + 1,
        results.len() == values.len(),
        values.len() < u64::MAX,
        rings[0].wf(),
        rings[0].records().len() == 0,
        rings[0].drops() == 0,
        forall|i: int| 0 <= i < values.len() ==> #[trigger] rings[i].pushed(rings[i + 1], values[i], results[i]),
    ensures
        forall|i: int|
            0 <= i < values.len() ==> #[trigger] results[i] == if i < rings[0].cap() {
                Push::<T>::Stored
            } else {
                Push::Evicted(values[i - rings[0].cap()])
            },
        rings.last().records() == last_of(values, values.len() as int, rings[0].cap()),
        rings.last().drops() == if values.len() > rings[0].cap() {
            values.len() - rings[0].cap()
        } else {
            0
        },
{
    lemma_ring_run(rings, values, results, values.len() as int);
}

} // verus!
