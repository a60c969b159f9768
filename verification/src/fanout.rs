//! The per-connection outbound queues, the commit ring, and the writer's
//! decisions about who receives what.
//!
//! A connection's queue is three rings, one per class, so that what a record
//! may evict is decided by which ring it is in: `LOSSY` evicts `LOSSY`,
//! `DURABLE` evicts `DURABLE`, and `LIFECYCLE` evicts nothing. The drain
//! merges the three back into `seq` order.
//!
//! Each connection has its own `seq`, rising by one per record from one,
//! assigned before the push and so before the ring decides whether the
//! record stays. A record a ring evicts took its number with it, and the
//! consumer reads the loss as a gap.

use vstd::prelude::*;
use crate::count::{next_count, wrapping_inc};
use crate::ring::{Push, Ring};

verus! {

/// Names one connection for the life of the process, and is never reused.
#[derive(Clone, Copy, Debug, Eq, Hash, Ord, PartialEq, PartialOrd, Structural)]
pub struct ConnectionId(pub u64);

impl ConnectionId {
    /// The id behind a number the writer handed out.
    pub fn from_raw(n: u64) -> (id: Self)
        ensures
            id.0 == n,
    {
        ConnectionId(n)
    }

    /// The number behind the id.
    pub fn get(self) -> (n: u64)
        ensures
            n == self.0,
    {
        self.0
    }
}

/// The capabilities one connection's token grants: bit `n` set for
/// capability number `n`. A number past 63 is neither added nor covered, so
/// a record needing one is withheld from everyone rather than disclosed.
#[derive(Clone, Copy, Debug, Default, Eq, PartialEq, Structural)]
pub struct Capabilities(pub u64);

/// Whether the mask `bits` has bit `number`.
pub open spec fn has_bit(bits: u64, number: u32) -> bool {
    number < 64 && (bits & (1u64 << (number as u64))) != 0
}

impl Capabilities {
    /// No capability at all.
    pub fn none() -> (set: Self)
        ensures
            set.0 == 0,
            forall|m: u32| !(#[trigger] set.has(m)),
    {
        let set = Capabilities(0);
        proof {
            assert forall|m: u32| !(#[trigger] set.has(m)) by {
                let k = m as u64;
                assert((0u64 & (1u64 << k)) == 0) by (bit_vector);
            }
        }
        set
    }

    /// Whether the set covers capability `number`.
    pub open spec fn has(self, number: u32) -> bool {
        has_bit(self.0, number)
    }

    /// This set with capability `number` added.
    pub fn with(self, number: u32) -> (set: Self)
        ensures
            number < 64 ==> set.0 == self.0 | (1u64 << (number as u64)),
            number >= 64 ==> set == self,
            forall|m: u32| #[trigger] set.has(m) == (self.has(m) || (m == number && number < 64)),
    {
        if number < 64 {
            let set = Capabilities(self.0 | (1u64 << (number as u64)));
            proof {
                assert forall|m: u32| #[trigger] set.has(m) == (self.has(m) || (m == number)) by {
                    let x = self.0;
                    let n = number as u64;
                    let k = m as u64;
                    assert(n < 64 ==> ((k < 64 && ((x | (1u64 << n)) & (1u64 << k)) != 0) == ((k < 64
                        && (x & (1u64 << k)) != 0) || k == n))) by (bit_vector);
                }
            }
            set
        } else {
            self
        }
    }

    /// Whether a record needing capability `number` may be received.
    pub fn covers(self, number: u32) -> (b: bool)
        ensures
            b == self.has(number),
    {
        number < 64 && (self.0 & (1u64 << (number as u64))) != 0
    }
}

/// Which of a connection's rings a record belongs in, and so what it may
/// evict and what may evict it.
#[derive(Clone, Copy, Debug, Eq, PartialEq, Structural)]
pub enum Class {
    /// Discarded freely under pressure, oldest first.
    Lossy,
    /// Evicted only by another `Durable` record.
    Durable,
    /// Never evicted. A connection with no room for one is closed.
    Lifecycle,
}

/// A record as the commit ring carries it: for every connection, or for one.
#[derive(Clone, Copy, Debug, Eq, PartialEq)]
pub struct Addressed<T> {
    /// The one connection the record is for, or every connection.
    pub to: Option<ConnectionId>,
    /// The number of the capability a connection needs to receive the
    /// record. Consulted at fan-out and never for an addressed record.
    pub need: u32,
    /// The ring the record takes in each connection it reaches.
    pub class: Class,
    /// The slot of the retained set the record replaces, for a `LIFECYCLE`
    /// record on a registered topic.
    pub slot: Option<u32>,
    /// The record itself.
    pub record: T,
}

/// A record as one connection receives it: numbered in that connection's
/// sequence.
#[derive(Clone, Copy, Debug, Eq, PartialEq)]
pub struct Numbered<T> {
    /// The record's place in this connection's stream.
    pub seq: u64,
    /// The record itself.
    pub record: T,
}

/// A numbered record as a connection's ring holds it, with whether it was a
/// broker answer, which is counted apart when it is lost.
#[derive(Clone, Copy, Debug, Eq, PartialEq)]
pub struct Queued<T> {
    /// Whether the record is a broker answer or the handshake.
    pub answer: bool,
    /// The numbered record.
    pub numbered: Numbered<T>,
}

/// What a push cost the connection it was for.
#[derive(Clone, Copy, Debug, Eq, PartialEq, Structural)]
pub enum Lost {
    /// Nothing: the ring had room.
    Nothing,
    /// A `LOSSY` record.
    Lossy,
    /// A `DURABLE` record that was not a broker answer.
    Durable,
    /// A broker answer, or the handshake.
    BrokerAnswer,
    /// A boundary record found its ring full: the connection is to be
    /// closed and not counted against.
    Boundary,
}

/// Whether the records of `q` rise strictly in `seq`.
pub open spec fn rising<T>(q: Seq<Queued<T>>) -> bool {
    forall|i: int, j: int| 0 <= i < j < q.len() ==> #[trigger] q[i].numbered.seq < #[trigger] q[j].numbered.seq
}

/// What a class's queue holds in `seq` order: the record held out of its
/// ring, if any, then the ring's records.
pub open spec fn queue_of<T>(held: Option<Numbered<T>>, ring: Seq<Queued<T>>) -> Seq<Numbered<T>> {
    let rest = ring.map_values(|q: Queued<T>| q.numbered);
    match held {
        Some(h) => seq![h] + rest,
        None => rest,
    }
}

/// The connection's outbound queue: three rings, and the record popped from
/// each and not yet handed on. A record held here is out of its ring, so
/// nothing evicts it.
#[derive(Debug)]
pub struct Drain<T> {
    lossy: Ring<Queued<T>>,
    durable: Ring<Queued<T>>,
    lifecycle: Ring<Queued<T>>,
    held_lossy: Option<Numbered<T>>,
    held_durable: Option<Numbered<T>>,
    held_lifecycle: Option<Numbered<T>>,
}

/// How many records each of a connection's three rings holds.
#[derive(Clone, Copy, Debug, Eq, PartialEq, Structural)]
pub struct Capacities {
    /// The `LOSSY` ring.
    pub lossy: usize,
    /// The `DURABLE` ring, which broker answers share.
    pub durable: usize,
    /// The `LIFECYCLE` ring. Filling it closes the connection.
    pub lifecycle: usize,
}

impl Capacities {
    /// Every ring at `records`.
    pub fn each(records: usize) -> (c: Self)
        ensures
            c.lossy == records,
            c.durable == records,
            c.lifecycle == records,
    {
        Capacities { lossy: records, durable: records, lifecycle: records }
    }

    /// The three together.
    pub fn total(self) -> (n: usize)
        requires
            self.lossy + self.durable + self.lifecycle <= usize::MAX,
        ensures
            n == self.lossy + self.durable + self.lifecycle,
    {
        self.lossy + self.durable + self.lifecycle
    }

    /// Whether every ring has room for at least one record.
    pub open spec fn usable(self) -> bool {
        self.lossy > 0 && self.durable > 0 && self.lifecycle > 0
    }
}

/// A connection's outbound queue, empty, with a ring per class.
pub fn outbound<T>(capacities: Capacities) -> (drain: Drain<T>)
    requires
        capacities.usable(),
    ensures
        drain.wf(),
        drain.ring(Class::Lossy).len() == 0,
        drain.ring(Class::Durable).len() == 0,
        drain.ring(Class::Lifecycle).len() == 0,
        drain.held(Class::Lossy) is None,
        drain.held(Class::Durable) is None,
        drain.held(Class::Lifecycle) is None,
        drain.room(Class::Lossy) == capacities.lossy,
        drain.room(Class::Durable) == capacities.durable,
        drain.room(Class::Lifecycle) == capacities.lifecycle,
        drain.lanes() == Lanes::<T>::empty(capacities),
{
    Drain {
        lossy: Ring::new(capacities.lossy),
        durable: Ring::new(capacities.durable),
        lifecycle: Ring::new(capacities.lifecycle),
        held_lossy: None,
        held_durable: None,
        held_lifecycle: None,
    }
}

impl<T> Drain<T> {
    /// The records in the ring of `class`, oldest first.
    pub closed spec fn ring(&self, class: Class) -> Seq<Queued<T>> {
        match class {
            Class::Lossy => self.lossy.records(),
            Class::Durable => self.durable.records(),
            Class::Lifecycle => self.lifecycle.records(),
        }
    }

    /// How many records the ring of `class` holds at most.
    pub closed spec fn room(&self, class: Class) -> nat {
        match class {
            Class::Lossy => self.lossy.cap(),
            Class::Durable => self.durable.cap(),
            Class::Lifecycle => self.lifecycle.cap(),
        }
    }

    /// How many records the ring of `class` has turned away.
    pub closed spec fn drops(&self, class: Class) -> u64 {
        match class {
            Class::Lossy => self.lossy.drops(),
            Class::Durable => self.durable.drops(),
            Class::Lifecycle => self.lifecycle.drops(),
        }
    }

    /// The record of `class` popped from its ring and not yet handed on.
    pub closed spec fn held(&self, class: Class) -> Option<Numbered<T>> {
        match class {
            Class::Lossy => self.held_lossy,
            Class::Durable => self.held_durable,
            Class::Lifecycle => self.held_lifecycle,
        }
    }

    /// What the queue of `class` holds, in `seq` order.
    pub open spec fn queue(&self, class: Class) -> Seq<Numbered<T>> {
        queue_of(self.held(class), self.ring(class))
    }

    /// Whether the next record of `class`, if it has one, is held out of
    /// its ring, where no flood of the ring can evict it.
    pub open spec fn holds_head(&self, class: Class) -> bool {
        self.held(class) is Some || self.ring(class).len() == 0
    }

    /// The whole queue as a value.
    pub open spec fn lanes(&self) -> Lanes<T> {
        Lanes {
            lossy: Lane {
                ring: self.ring(Class::Lossy),
                held: self.held(Class::Lossy),
                room: self.room(Class::Lossy),
                drops: self.drops(Class::Lossy),
            },
            durable: Lane {
                ring: self.ring(Class::Durable),
                held: self.held(Class::Durable),
                room: self.room(Class::Durable),
                drops: self.drops(Class::Durable),
            },
            lifecycle: Lane {
                ring: self.ring(Class::Lifecycle),
                held: self.held(Class::Lifecycle),
                room: self.room(Class::Lifecycle),
                drops: self.drops(Class::Lifecycle),
            },
        }
    }

    /// Every record queued or held is numbered below `seq`.
    pub open spec fn below(&self, seq: u64) -> bool {
        forall|c: Class, i: int| 0 <= i < self.queue(c).len() ==> #[trigger] self.queue(c)[i].seq < seq
    }

    /// Every lane of a sound queue has room for a record, and holds no more
    /// than its room.
    pub proof fn lemma_lanes_sound(&self)
        requires
            self.wf(),
        ensures
            forall|c: Class| #[trigger] self.lanes().lane(c).room > 0,
            forall|c: Class| #[trigger] self.lanes().lane(c).ring.len() <= self.lanes().lane(c).room,
    {
        self.lossy.lemma_bounds();
        self.durable.lemma_bounds();
        self.lifecycle.lemma_bounds();
    }

    /// The drain's invariant: three sound rings, each rising in `seq`, a
    /// held record below everything still in its ring, and no number queued
    /// in two classes.
    pub closed spec fn wf(&self) -> bool {
        &&& self.lossy.wf()
        &&& self.durable.wf()
        &&& self.lifecycle.wf()
        &&& forall|c: Class| rising(#[trigger] self.ring(c))
        &&& forall|c: Class, i: int|
            #![trigger self.held(c), self.ring(c)[i]]
            self.held(c) is Some && 0 <= i < self.ring(c).len() ==> self.held(c)->0.seq < self.ring(c)[i].numbered.seq
        &&& self.apart()
    }

    /// No number is queued in two classes.
    pub open spec fn apart(&self) -> bool {
        forall|c: Class, d: Class, i: int, j: int|
            c != d && 0 <= i < self.queue(c).len() && 0 <= j < self.queue(d).len() ==> #[trigger] self.queue(c)[i].seq
                != #[trigger] self.queue(d)[j].seq
    }
}

/// One class's part of a connection's queue, as a value: its ring, the
/// record held out of it, how many records the ring holds at most, and how
/// many it has turned away.
pub struct Lane<T> {
    /// The ring's records, oldest first.
    pub ring: Seq<Queued<T>>,
    /// The record popped from the ring and not yet handed on.
    pub held: Option<Numbered<T>>,
    /// The ring's capacity.
    pub room: nat,
    /// The records the ring has turned away, modulo 2^64.
    pub drops: u64,
}

impl<T> Lane<T> {
    /// What the lane holds in `seq` order.
    pub open spec fn queue(self) -> Seq<Numbered<T>> {
        queue_of(self.held, self.ring)
    }

    /// Whether the lane's next record, if it has one, is held out of its
    /// ring, where no flood of the ring can evict it.
    pub open spec fn holds_head(self) -> bool {
        self.held is Some || self.ring.len() == 0
    }

    /// What a push into this lane, of class `class`, costs.
    pub open spec fn loses(self, class: Class) -> Lost {
        if self.ring.len() < self.room {
            Lost::Nothing
        } else {
            match class {
                Class::Lossy => Lost::Lossy,
                Class::Durable => if self.ring[0].answer {
                    Lost::BrokerAnswer
                } else {
                    Lost::Durable
                },
                Class::Lifecycle => Lost::Boundary,
            }
        }
    }

    /// The lane after `q` is pushed into it as a record of class `class`:
    /// appended when there is room, otherwise appended with the oldest
    /// evicted, or, for `LIFECYCLE`, refused.
    pub open spec fn after(self, class: Class, q: Queued<T>) -> Lane<T> {
        if self.ring.len() < self.room {
            Lane { ring: self.ring.push(q), held: self.held, room: self.room, drops: self.drops }
        } else {
            Lane {
                ring: match class {
                    Class::Lifecycle => self.ring,
                    _ => self.ring.drop_first().push(q),
                },
                held: self.held,
                room: self.room,
                drops: next_count(self.drops),
            }
        }
    }
}

/// A queue below `bound` has its ring below `bound`.
pub proof fn lemma_ring_below<T>(held: Option<Numbered<T>>, ring: Seq<Queued<T>>, bound: u64)
    requires
        forall|i: int| 0 <= i < queue_of(held, ring).len() ==> #[trigger] queue_of(held, ring)[i].seq < bound,
    ensures
        forall|j: int| 0 <= j < ring.len() ==> #[trigger] ring[j].numbered.seq < bound,
{
    let q = queue_of(held, ring);
    let off: int = if held is Some { 1 } else { 0 };
    assert forall|j: int| 0 <= j < ring.len() implies #[trigger] ring[j].numbered.seq < bound by {
        assert(q[j + off] == ring[j].numbered);
        assert(q[j + off].seq < bound);
    }
}

/// A ring below `bound`, and a held record below it, make a queue below it.
pub proof fn lemma_queue_below<T>(held: Option<Numbered<T>>, ring: Seq<Queued<T>>, bound: u64)
    requires
        held is Some ==> held->0.seq < bound,
        forall|j: int| 0 <= j < ring.len() ==> #[trigger] ring[j].numbered.seq < bound,
    ensures
        forall|i: int| 0 <= i < queue_of(held, ring).len() ==> #[trigger] queue_of(held, ring)[i].seq < bound,
{
    let q = queue_of(held, ring);
    let off: int = if held is Some { 1 } else { 0 };
    assert forall|i: int| 0 <= i < q.len() implies #[trigger] q[i].seq < bound by {
        if held is Some && i == 0 {
            assert(q[0] == held->0);
        } else {
            assert(q[i] == ring[i - off].numbered);
        }
    }
}

impl<T> Lane<T> {
    /// A push of a record below `bound` keeps a lane below `bound`.
    pub proof fn lemma_after_below(self, class: Class, q: Queued<T>, bound: u64)
        requires
            forall|i: int| 0 <= i < self.queue().len() ==> #[trigger] self.queue()[i].seq < bound,
            q.numbered.seq < bound,
            self.room > 0,
        ensures
            forall|i: int| 0 <= i < self.after(class, q).queue().len() ==> #[trigger] self.after(
                class,
                q,
            ).queue()[i].seq < bound,
    {
        let a = self.after(class, q);
        assert(a.held == self.held);
        assert forall|i: int| 0 <= i < queue_of(self.held, self.ring).len() implies #[trigger] queue_of(
            self.held,
            self.ring,
        )[i].seq < bound by {
            assert(self.queue()[i].seq < bound);
        }
        lemma_ring_below(self.held, self.ring, bound);
        if self.held is Some {
            assert(self.queue()[0] == self.held->0);
        }
        assert forall|j: int| 0 <= j < a.ring.len() implies #[trigger] a.ring[j].numbered.seq < bound by {
            if self.ring.len() < self.room {
                if j < self.ring.len() {
                    assert(a.ring[j] == self.ring[j]);
                } else {
                    assert(a.ring[j] == q);
                }
            } else if class != Class::Lifecycle {
                if j < a.ring.len() - 1 {
                    assert(a.ring[j] == self.ring[j + 1]);
                } else {
                    assert(a.ring[j] == q);
                }
            } else {
                assert(a.ring[j] == self.ring[j]);
            }
        }
        lemma_queue_below(a.held, a.ring, bound);
    }
}

/// A queued record with its payload left out: its number, and whether it
/// was a broker answer.
pub open spec fn queued_shape<T>(q: Queued<T>) -> Queued<()> {
    Queued { answer: q.answer, numbered: Numbered { seq: q.numbered.seq, record: () } }
}

impl<T> Lane<T> {
    /// The lane with every record's payload left out: what a push does to
    /// a lane, and what it costs, depends on this alone.
    pub open spec fn shape(self) -> Lane<()> {
        Lane {
            ring: self.ring.map_values(|q: Queued<T>| queued_shape(q)),
            held: match self.held {
                Some(n) => Some(Numbered { seq: n.seq, record: () }),
                None => None,
            },
            room: self.room,
            drops: self.drops,
        }
    }

    /// Two lanes of one shape, each pushed a record of one shape, cost the
    /// same and stay of one shape.
    pub proof fn lemma_after_shape(self, other: Lane<T>, class: Class, q: Queued<T>, p: Queued<T>)
        requires
            self.shape() == other.shape(),
            queued_shape(q) == queued_shape(p),
        ensures
            self.after(class, q).shape() == other.after(class, p).shape(),
            self.loses(class) == other.loses(class),
    {
        let r1 = self.ring;
        let r2 = other.ring;
        assert(r1.len() == self.shape().ring.len());
        assert(r2.len() == other.shape().ring.len());
        assert forall|i: int| 0 <= i < r1.len() implies #[trigger] queued_shape(r1[i]) == queued_shape(r2[i]) by {
            assert(self.shape().ring[i] == queued_shape(r1[i]));
            assert(other.shape().ring[i] == queued_shape(r2[i]));
        }
        if r1.len() > 0 {
            assert(queued_shape(r1[0]) == queued_shape(r2[0]));
        }
        let a1 = self.after(class, q);
        let a2 = other.after(class, p);
        if r1.len() == 0 {
            assert(r1 =~= r2);
        }
        assert(a1.shape().ring =~= a2.shape().ring) by {
            assert(a1.ring.len() == a2.ring.len());
            assert forall|i: int| 0 <= i < a1.ring.len() implies queued_shape(a1.ring[i]) == queued_shape(a2.ring[i]) by {
                if r1.len() < self.room {
                    if i < r1.len() {
                        assert(a1.ring[i] == r1[i]);
                        assert(a2.ring[i] == r2[i]);
                    }
                } else if class == Class::Lifecycle {
                } else if r1.len() > 0 {
                    if i < a1.ring.len() - 1 {
                        assert(a1.ring[i] == r1[i + 1]);
                        assert(a2.ring[i] == r2[i + 1]);
                    }
                }
            }
        }
    }
}

impl<T> Lanes<T> {
    /// The lanes with every record's payload left out.
    pub open spec fn shape(self) -> Lanes<()> {
        Lanes { lossy: self.lossy.shape(), durable: self.durable.shape(), lifecycle: self.lifecycle.shape() }
    }

    /// Two queues of one shape, each pushed a record of one number, cost
    /// the same and stay of one shape.
    pub proof fn lemma_after_shape(self, other: Lanes<T>, class: Class, answer: bool, n: Numbered<T>, m: Numbered<T>)
        requires
            self.shape() == other.shape(),
            n.seq == m.seq,
        ensures
            self.after(class, answer, n).shape() == other.after(class, answer, m).shape(),
            self.loses(class) == other.loses(class),
    {
        assert(self.lane(class).shape() == other.lane(class).shape());
        self.lane(class).lemma_after_shape(other.lane(class), class, Queued { answer, numbered: n }, Queued { answer, numbered: m });
    }
}

/// Whether the records of `q` rise strictly in `seq`.
pub open spec fn in_order<T>(q: Seq<Numbered<T>>) -> bool {
    forall|i: int, j: int| 0 <= i < j < q.len() ==> #[trigger] q[i].seq < #[trigger] q[j].seq
}

impl<T> Lane<T> {
    /// After a push, each record of the lane is the one pushed, or one the
    /// lane held before; and a lane in `seq` order stays in order when the
    /// record pushed is above everything it held.
    pub proof fn lemma_after_queue(self, class: Class, q: Queued<T>)
        requires
            self.room > 0,
        ensures
            forall|i: int| 0 <= i < self.after(class, q).queue().len() ==> #[trigger] self.after(
                class,
                q,
            ).queue()[i] == q.numbered || exists|j: int|
                0 <= j < self.queue().len() && self.after(class, q).queue()[i] == #[trigger] self.queue()[j],
            in_order(self.queue()) && (forall|j: int| 0 <= j < self.queue().len() ==> #[trigger] self.queue()[j].seq
                < q.numbered.seq) ==> in_order(self.after(class, q).queue()),
    {
        let o = self.queue();
        let l = self.after(class, q);
        let a = l.queue();
        let off: int = if self.held is Some { 1 } else { 0 };
        assert forall|j: int| 0 <= j < self.ring.len() implies #[trigger] o[j + off] == self.ring[j].numbered by {}
        assert(o.len() == self.ring.len() + off);
        if self.held is Some {
            assert(o[0] == self.held->0);
        }
        if self.ring.len() < self.room {
            // Appended: the old queue, then the record.
            assert(a =~= o.push(q.numbered)) by {
                assert forall|i: int| 0 <= i < a.len() implies a[i] == o.push(q.numbered)[i] by {
                    if self.held is Some && i == 0 {
                    } else if i < o.len() {
                        assert(l.ring[i - off] == self.ring[i - off]);
                    } else {
                        assert(l.ring[i - off] == q);
                    }
                }
            }
            assert forall|i: int| 0 <= i < a.len() implies #[trigger] a[i] == q.numbered || exists|j: int|
                0 <= j < o.len() && a[i] == #[trigger] o[j] by {
                if i < o.len() {
                    assert(a[i] == o[i]);
                }
            }
        } else if class == Class::Lifecycle {
            // Refused: the queue as it was.
            assert(a =~= o);
            assert forall|i: int| 0 <= i < a.len() implies #[trigger] a[i] == q.numbered || exists|j: int|
                0 <= j < o.len() && a[i] == #[trigger] o[j] by {
                assert(a[i] == o[i]);
            }
        } else {
            // The ring's oldest gone: what stays keeps its order, the record last.
            assert(a.len() == o.len());
            assert forall|i: int| 0 <= i < a.len() - 1 implies #[trigger] a[i] == o[if self.held is Some && i == 0 {
                0
            } else {
                i + 1
            }] by {
                if self.held is Some && i == 0 {
                } else {
                    assert(l.ring[i - off] == self.ring[i - off + 1]);
                }
            }
            assert(a[a.len() - 1] == q.numbered) by {
                assert(l.ring[l.ring.len() - 1] == q);
                assert(a[a.len() - 1] == l.ring[l.ring.len() - 1].numbered);
            }
            assert forall|i: int| 0 <= i < a.len() implies #[trigger] a[i] == q.numbered || exists|j: int|
                0 <= j < o.len() && a[i] == #[trigger] o[j] by {
                if i < a.len() - 1 {
                    let j = if self.held is Some && i == 0 {
                        0
                    } else {
                        i + 1
                    };
                    assert(a[i] == o[j]);
                }
            }
            if in_order(o) && (forall|j: int| 0 <= j < o.len() ==> #[trigger] o[j].seq < q.numbered.seq) {
                assert forall|i: int, k: int| 0 <= i < k < a.len() implies #[trigger] a[i].seq < #[trigger] a[k].seq by {
                    let si = if self.held is Some && i == 0 {
                        0
                    } else {
                        i + 1
                    };
                    assert(a[i] == o[si]);
                    if k < a.len() - 1 {
                        let sk = if self.held is Some && k == 0 {
                            0
                        } else {
                            k + 1
                        };
                        assert(a[k] == o[sk]);
                        assert(o[si].seq < o[sk].seq);
                    } else {
                        assert(o[si].seq < q.numbered.seq);
                    }
                }
            }
        }
    }
}

/// A connection's whole queue, as a value: one lane per class.
pub struct Lanes<T> {
    /// The `LOSSY` lane.
    pub lossy: Lane<T>,
    /// The `DURABLE` lane.
    pub durable: Lane<T>,
    /// The `LIFECYCLE` lane.
    pub lifecycle: Lane<T>,
}

impl<T> Lanes<T> {
    /// The lane of `class`.
    pub open spec fn lane(self, class: Class) -> Lane<T> {
        match class {
            Class::Lossy => self.lossy,
            Class::Durable => self.durable,
            Class::Lifecycle => self.lifecycle,
        }
    }

    /// These lanes with the lane of `class` replaced by `lane`.
    pub open spec fn with_lane(self, class: Class, lane: Lane<T>) -> Lanes<T> {
        match class {
            Class::Lossy => Lanes { lossy: lane, durable: self.durable, lifecycle: self.lifecycle },
            Class::Durable => Lanes { lossy: self.lossy, durable: lane, lifecycle: self.lifecycle },
            Class::Lifecycle => Lanes { lossy: self.lossy, durable: self.durable, lifecycle: lane },
        }
    }

    /// What pushing a record of `class` costs.
    pub open spec fn loses(self, class: Class) -> Lost {
        self.lane(class).loses(class)
    }

    /// The lanes after `numbered` is pushed as a record of `class`.
    pub open spec fn after(self, class: Class, answer: bool, numbered: Numbered<T>) -> Lanes<T> {
        self.with_lane(class, self.lane(class).after(class, Queued { answer, numbered }))
    }

    /// What popping the next record in `seq` order does: the lowest-numbered
    /// record at the head of any lane comes out of that lane, every other
    /// lane's queue stays with its next record held out of its ring, and no
    /// room or count moves; with nothing queued, nothing comes out and no
    /// queue moves.
    pub open spec fn popped(self, next: Lanes<T>, popped: Option<Numbered<T>>) -> bool {
        &&& forall|c: Class| #[trigger] next.lane(c).room == self.lane(c).room
        &&& forall|c: Class| #[trigger] next.lane(c).drops == self.lane(c).drops
        &&& popped is None <==> self.is_empty()
        &&& popped is None ==> forall|c: Class| #[trigger] next.lane(c).queue() == self.lane(c).queue()
        &&& popped matches Some(n) ==> exists|c: Class| {
            &&& #[trigger] self.lane(c).queue().len() > 0
            &&& n == self.lane(c).queue()[0]
            &&& next.lane(c).queue() == self.lane(c).queue().drop_first()
            &&& forall|d: Class| d != c ==> #[trigger] next.lane(d).queue() == self.lane(d).queue()
            &&& forall|d: Class| d != c ==> #[trigger] next.lane(d).holds_head()
            &&& forall|d: Class| #[trigger] self.lane(d).queue().len() > 0 ==> n.seq <= self.lane(d).queue()[0].seq
        }
    }

    /// Every lane empty, with the rooms `capacities` gives and nothing
    /// turned away.
    pub open spec fn empty(capacities: Capacities) -> Lanes<T> {
        Lanes {
            lossy: Lane { ring: Seq::empty(), held: None, room: capacities.lossy as nat, drops: 0 },
            durable: Lane { ring: Seq::empty(), held: None, room: capacities.durable as nat, drops: 0 },
            lifecycle: Lane { ring: Seq::empty(), held: None, room: capacities.lifecycle as nat, drops: 0 },
        }
    }

    /// Nothing queued or held in any lane.
    pub open spec fn is_empty(self) -> bool {
        forall|c: Class| #[trigger] self.lane(c).queue().len() == 0
    }
}

/// One step of a run on a connection's queue: a numbered record pushed
/// into its class's ring, or a pop and what it gave.
pub enum Step<T> {
    /// A push of a record of this class, a broker answer or not.
    Push(Class, bool, Numbered<T>),
    /// A pop, and the record it handed out, if any.
    Pop(Option<Numbered<T>>),
}

/// The record step `i` of `steps` pushed, if it was a push.
pub open spec fn pushed_at<T>(steps: Seq<Step<T>>, i: int) -> Option<Numbered<T>> {
    match steps[i] {
        Step::Push(_, _, n) => Some(n),
        Step::Pop(_) => None,
    }
}

/// The record step `i` of `steps` popped, if it was a pop that gave one.
pub open spec fn popped_at<T>(steps: Seq<Step<T>>, i: int) -> Option<Numbered<T>> {
    match steps[i] {
        Step::Push(_, _, _) => None,
        Step::Pop(p) => p,
    }
}

/// Whether `x` is a record that one of the first `k` steps pushed.
pub open spec fn pushed_before<T>(steps: Seq<Step<T>>, k: int, x: Numbered<T>) -> bool {
    exists|i: int| 0 <= i < k && #[trigger] pushed_at(steps, i) == Some(x)
}

/// Whether the queues `lanes` pass through are what `steps` make of them,
/// one after another.
pub open spec fn runs<T>(lanes: Seq<Lanes<T>>, steps: Seq<Step<T>>) -> bool {
    &&& lanes.len() == steps.len() + 1
    &&& forall|i: int| 0 <= i < steps.len() ==> match #[trigger] steps[i] {
        Step::Push(class, answer, numbered) => lanes[i + 1] == lanes[i].after(class, answer, numbered),
        Step::Pop(p) => lanes[i].popped(lanes[i + 1], p),
    }
}

/// Whether the records `steps` push are numbered strictly rising, as a
/// writer numbers a connection's records.
pub open spec fn pushes_rise<T>(steps: Seq<Step<T>>) -> bool {
    forall|i: int, j: int|
        0 <= i < j < steps.len() && #[trigger] pushed_at(steps, i) is Some && #[trigger] pushed_at(steps, j) is Some
            ==> pushed_at(steps, i)->0.seq < pushed_at(steps, j)->0.seq
}

/// What holds of the queue `l` after the first `k` steps of a run.
spec fn run_inv<T>(l: Lanes<T>, steps: Seq<Step<T>>, k: int) -> bool {
    &&& forall|c: Class| #[trigger] l.lane(c).room > 0
    &&& forall|c: Class| in_order(#[trigger] l.lane(c).queue())
    &&& forall|c: Class, d: Class, i: int, j: int|
        c != d && 0 <= i < l.lane(c).queue().len() && 0 <= j < l.lane(d).queue().len() ==> #[trigger] l.lane(
            c,
        ).queue()[i].seq != #[trigger] l.lane(d).queue()[j].seq
    &&& forall|c: Class, i: int| 0 <= i < l.lane(c).queue().len() ==> pushed_before(steps, k, #[trigger] l.lane(c).queue()[i])
    &&& forall|c: Class, i: int, m: int|
        0 <= i < l.lane(c).queue().len() && 0 <= m < k && #[trigger] popped_at(steps, m) is Some ==> popped_at(
            steps,
            m,
        )->0.seq < #[trigger] l.lane(c).queue()[i].seq
    &&& forall|m1: int, m2: int|
        0 <= m1 < m2 < k && #[trigger] popped_at(steps, m1) is Some && #[trigger] popped_at(steps, m2) is Some
            ==> popped_at(steps, m1)->0.seq < popped_at(steps, m2)->0.seq
    &&& forall|m: int| 0 <= m < k && #[trigger] popped_at(steps, m) is Some ==> pushed_before(steps, m, popped_at(steps, m)->0)
}

/// A record pushed before `k` is pushed before any later step.
proof fn lemma_pushed_before_grows<T>(steps: Seq<Step<T>>, k: int, k2: int, x: Numbered<T>)
    requires
        pushed_before(steps, k, x),
        k <= k2,
    ensures
        pushed_before(steps, k2, x),
{
    let i = choose|i: int| 0 <= i < k && #[trigger] pushed_at(steps, i) == Some(x);
    assert(pushed_at(steps, i) == Some(x));
}

/// A push keeps what holds of a run's queue.
#[verifier::rlimit(60)]
#[verifier::spinoff_prover]
proof fn lemma_run_push<T>(
    o: Lanes<T>,
    n: Lanes<T>,
    steps: Seq<Step<T>>,
    k: int,
    e: Class,
    answer: bool,
    numbered: Numbered<T>,
)
    requires
        pushes_rise(steps),
        0 <= k < steps.len(),
        pushed_at(steps, k) == Some(numbered),
        popped_at(steps, k) is None,
        n == o.after(e, answer, numbered),
        run_inv(o, steps, k),
    ensures
        run_inv(n, steps, k + 1),
{
    assert forall|x: Numbered<T>| pushed_before(steps, k, x) implies pushed_before(steps, k + 1, x) by {
        lemma_pushed_before_grows(steps, k, k + 1, x);
    }
    let q = Queued { answer, numbered };
    // Everything queued was pushed earlier, so lies below the new record.
    assert forall|c: Class, i: int| 0 <= i < o.lane(c).queue().len() implies #[trigger] o.lane(c).queue()[i].seq
        < numbered.seq by {
        let x = o.lane(c).queue()[i];
        let w = choose|w: int| 0 <= w < k && #[trigger] pushed_at(steps, w) == Some(x);
        assert(pushed_at(steps, w) is Some && pushed_at(steps, k) is Some);
    }
    o.lane(e).lemma_after_queue(e, q);
    assert forall|c: Class| #[trigger] n.lane(c) == if c == e {
        o.lane(e).after(e, q)
    } else {
        o.lane(c)
    } by {}
    assert forall|c: Class| #[trigger] n.lane(c).room > 0 by {}
    assert forall|c: Class| in_order(#[trigger] n.lane(c).queue()) by {}
    // Each record now queued was queued before, or is the new one.
    assert forall|c: Class, i: int| 0 <= i < n.lane(c).queue().len() implies #[trigger] n.lane(c).queue()[i]
        == numbered || (c == e && exists|j: int|
        0 <= j < o.lane(c).queue().len() && n.lane(c).queue()[i] == #[trigger] o.lane(c).queue()[j]) || (c
        != e && n.lane(c).queue()[i] == o.lane(c).queue()[i]) by {}
    assert forall|c: Class, d: Class, i: int, j: int|
        c != d && 0 <= i < n.lane(c).queue().len() && 0 <= j < n.lane(d).queue().len() implies #[trigger] n.lane(
        c,
    ).queue()[i].seq != #[trigger] n.lane(d).queue()[j].seq by {
        let x = n.lane(c).queue()[i];
        let y = n.lane(d).queue()[j];
        if x == numbered {
            if d == e {
            } else {
                assert(y == o.lane(d).queue()[j]);
            }
        } else if y == numbered {
            if c == e {
            } else {
                assert(x == o.lane(c).queue()[i]);
            }
        } else {
            let xi = if c == e {
                choose|t: int| 0 <= t < o.lane(c).queue().len() && x == #[trigger] o.lane(c).queue()[t]
            } else {
                i
            };
            let yj = if d == e {
                choose|t: int| 0 <= t < o.lane(d).queue().len() && y == #[trigger] o.lane(d).queue()[t]
            } else {
                j
            };
            assert(x == o.lane(c).queue()[xi]);
            assert(y == o.lane(d).queue()[yj]);
        }
    }
    assert forall|c: Class, i: int| 0 <= i < n.lane(c).queue().len() implies pushed_before(
        steps,
        k + 1,
        #[trigger] n.lane(c).queue()[i],
    ) by {
        let x = n.lane(c).queue()[i];
        if x == numbered {
        } else if c == e {
            let t = choose|t: int| 0 <= t < o.lane(c).queue().len() && x == #[trigger] o.lane(c).queue()[t];
            assert(pushed_before(steps, k, o.lane(c).queue()[t]));
        } else {
            assert(pushed_before(steps, k, o.lane(c).queue()[i]));
        }
    }
    assert forall|c: Class, i: int, m: int|
        0 <= i < n.lane(c).queue().len() && 0 <= m < k + 1 && #[trigger] popped_at(steps, m) is Some implies popped_at(
        steps,
        m,
    )->0.seq < #[trigger] n.lane(c).queue()[i].seq by {
        let x = n.lane(c).queue()[i];
        let p = popped_at(steps, m)->0;
        if x == numbered {
            // The pop gave a record pushed before it, hence before this push.
            assert(pushed_before(steps, m, p));
            let w = choose|w: int| 0 <= w < m && #[trigger] pushed_at(steps, w) == Some(p);
            assert(pushed_at(steps, w) is Some && pushed_at(steps, k) is Some);
        } else if c == e {
            let t = choose|t: int| 0 <= t < o.lane(c).queue().len() && x == #[trigger] o.lane(c).queue()[t];
            assert(p.seq < o.lane(c).queue()[t].seq);
        } else {
            assert(p.seq < o.lane(c).queue()[i].seq);
        }
    }
    assert forall|m1: int, m2: int|
        0 <= m1 < m2 < k + 1 && #[trigger] popped_at(steps, m1) is Some && #[trigger] popped_at(steps, m2) is Some
            implies popped_at(steps, m1)->0.seq < popped_at(steps, m2)->0.seq by {}
    assert forall|m: int| 0 <= m < k + 1 && #[trigger] popped_at(steps, m) is Some implies pushed_before(
        steps,
        m,
        popped_at(steps, m)->0,
    ) by {}
}

/// A pop that gives nothing keeps what holds of a run's queue.
proof fn lemma_run_pop_none<T>(o: Lanes<T>, n: Lanes<T>, steps: Seq<Step<T>>, k: int)
    requires
        0 <= k < steps.len(),
        pushed_at(steps, k) is None,
        popped_at(steps, k) is None,
        o.popped(n, None),
        run_inv(o, steps, k),
    ensures
        run_inv(n, steps, k + 1),
{
    assert forall|x: Numbered<T>| pushed_before(steps, k, x) implies pushed_before(steps, k + 1, x) by {
        lemma_pushed_before_grows(steps, k, k + 1, x);
    }
    assert forall|c: Class| #[trigger] n.lane(c).queue() == o.lane(c).queue() by {}
    assert forall|c: Class| #[trigger] n.lane(c).room > 0 by {
        assert(n.lane(c).room == o.lane(c).room);
    }
    assert forall|c: Class| in_order(#[trigger] n.lane(c).queue()) by {}
    assert forall|c: Class, i: int| 0 <= i < n.lane(c).queue().len() implies pushed_before(
        steps,
        k + 1,
        #[trigger] n.lane(c).queue()[i],
    ) by {
        assert(pushed_before(steps, k, o.lane(c).queue()[i]));
    }
    assert forall|c: Class, i: int, m: int|
        0 <= i < n.lane(c).queue().len() && 0 <= m < k + 1 && #[trigger] popped_at(steps, m) is Some implies popped_at(
        steps,
        m,
    )->0.seq < #[trigger] n.lane(c).queue()[i].seq by {
        assert(o.lane(c).queue()[i] == n.lane(c).queue()[i]);
    }
}

/// A pop that gives `x` from the lane of `c` keeps what holds of a run's
/// queue.
#[verifier::rlimit(60)]
#[verifier::spinoff_prover]
proof fn lemma_run_pop_some<T>(o: Lanes<T>, n: Lanes<T>, steps: Seq<Step<T>>, k: int, x: Numbered<T>, c: Class)
    requires
        0 <= k < steps.len(),
        pushed_at(steps, k) is None,
        popped_at(steps, k) == Some(x),
        o.lane(c).queue().len() > 0,
        x == o.lane(c).queue()[0],
        n.lane(c).queue() == o.lane(c).queue().drop_first(),
        forall|d: Class| d != c ==> #[trigger] n.lane(d).queue() == o.lane(d).queue(),
        forall|d: Class| #[trigger] o.lane(d).queue().len() > 0 ==> x.seq <= o.lane(d).queue()[0].seq,
        forall|d: Class| #[trigger] n.lane(d).room == o.lane(d).room,
        run_inv(o, steps, k),
    ensures
        run_inv(n, steps, k + 1),
{
    assert forall|x: Numbered<T>| pushed_before(steps, k, x) implies pushed_before(steps, k + 1, x) by {
        lemma_pushed_before_grows(steps, k, k + 1, x);
    }
        // Each record still queued was queued just before, one place on in its lane.
    assert forall|d: Class, i: int| 0 <= i < n.lane(d).queue().len() implies #[trigger] n.lane(d).queue()[i]
        == o.lane(d).queue()[if d == c {
        i + 1
    } else {
        i
    }] by {}
    assert forall|d: Class| #[trigger] n.lane(d).room > 0 by {
        assert(n.lane(d).room == o.lane(d).room);
    }
    assert forall|d: Class| in_order(#[trigger] n.lane(d).queue()) by {
        assert forall|i: int, j: int| 0 <= i < j < n.lane(d).queue().len() implies #[trigger] n.lane(
            d,
        ).queue()[i].seq < #[trigger] n.lane(d).queue()[j].seq by {
            let s = if d == c {
                1int
            } else {
                0int
            };
            assert(n.lane(d).queue()[i] == o.lane(d).queue()[i + s]);
            assert(n.lane(d).queue()[j] == o.lane(d).queue()[j + s]);
        }
    }
    assert forall|d1: Class, d2: Class, i: int, j: int|
        d1 != d2 && 0 <= i < n.lane(d1).queue().len() && 0 <= j < n.lane(d2).queue().len() implies #[trigger] n.lane(
        d1,
    ).queue()[i].seq != #[trigger] n.lane(d2).queue()[j].seq by {
        let s1 = if d1 == c {
            1int
        } else {
            0int
        };
        let s2 = if d2 == c {
            1int
        } else {
            0int
        };
        assert(n.lane(d1).queue()[i] == o.lane(d1).queue()[i + s1]);
        assert(n.lane(d2).queue()[j] == o.lane(d2).queue()[j + s2]);
    }
    assert forall|d: Class, i: int| 0 <= i < n.lane(d).queue().len() implies pushed_before(
        steps,
        k + 1,
        #[trigger] n.lane(d).queue()[i],
    ) by {
        let s = if d == c {
            1int
        } else {
            0int
        };
        assert(pushed_before(steps, k, o.lane(d).queue()[i + s]));
    }
    // Everything still queued lies above the record handed out.
    assert forall|d: Class, i: int, m: int|
        0 <= i < n.lane(d).queue().len() && 0 <= m < k + 1 && #[trigger] popped_at(steps, m) is Some implies popped_at(
        steps,
        m,
    )->0.seq < #[trigger] n.lane(d).queue()[i].seq by {
        let s = if d == c {
            1int
        } else {
            0int
        };
        let y = o.lane(d).queue()[i + s];
        assert(n.lane(d).queue()[i] == y);
        if m < k {
            assert(popped_at(steps, m)->0.seq < y.seq);
        } else if d == c {
            assert(o.lane(c).queue()[0].seq < y.seq);
        } else {
            assert(x.seq <= o.lane(d).queue()[0].seq);
            if i > 0 {
                assert(o.lane(d).queue()[0].seq < y.seq);
            }
            assert(o.lane(c).queue()[0].seq != y.seq);
        }
    }
    assert forall|m1: int, m2: int|
        0 <= m1 < m2 < k + 1 && #[trigger] popped_at(steps, m1) is Some && #[trigger] popped_at(
            steps,
            m2,
        ) is Some implies popped_at(steps, m1)->0.seq < popped_at(steps, m2)->0.seq by {
        if m2 == k {
            assert(popped_at(steps, m1)->0.seq < o.lane(c).queue()[0].seq);
        }
    }
    assert forall|m: int| 0 <= m < k + 1 && #[trigger] popped_at(steps, m) is Some implies pushed_before(
        steps,
        m,
        popped_at(steps, m)->0,
    ) by {
        if m == k {
            assert(pushed_before(steps, k, o.lane(c).queue()[0]));
        }
    }
}

/// A pop keeps what holds of a run's queue.
proof fn lemma_run_pop<T>(lanes: Seq<Lanes<T>>, steps: Seq<Step<T>>, k: int, p: Option<Numbered<T>>)
    requires
        runs(lanes, steps),
        0 <= k < steps.len(),
        steps[k] == Step::<T>::Pop(p),
        run_inv(lanes[k], steps, k),
    ensures
        run_inv(lanes[k + 1], steps, k + 1),
{
    let o = lanes[k];
    let n = lanes[k + 1];
    assert(o.popped(n, p));
    assert(pushed_at(steps, k) is None);
    assert(popped_at(steps, k) == p);
    match p {
        None => lemma_run_pop_none(o, n, steps, k),
        Some(x) => {
            let c = choose|c: Class| {
                &&& #[trigger] o.lane(c).queue().len() > 0
                &&& x == o.lane(c).queue()[0]
                &&& n.lane(c).queue() == o.lane(c).queue().drop_first()
                &&& forall|d: Class| d != c ==> #[trigger] n.lane(d).queue() == o.lane(d).queue()
                &&& forall|d: Class| d != c ==> #[trigger] n.lane(d).holds_head()
                &&& forall|d: Class| #[trigger] o.lane(d).queue().len() > 0 ==> x.seq <= o.lane(d).queue()[0].seq
            };
            lemma_run_pop_some(o, n, steps, k, x, c);
        },
    }
}

/// One step of a run keeps what holds of its queue.
proof fn lemma_run_step<T>(lanes: Seq<Lanes<T>>, steps: Seq<Step<T>>, k: int)
    requires
        runs(lanes, steps),
        pushes_rise(steps),
        0 <= k < steps.len(),
        run_inv(lanes[k], steps, k),
    ensures
        run_inv(lanes[k + 1], steps, k + 1),
{
    match steps[k] {
        Step::Push(e, answer, numbered) => {
            assert(lanes[k + 1] == lanes[k].after(e, answer, numbered));
            assert(pushed_at(steps, k) == Some(numbered));
            lemma_run_push(lanes[k], lanes[k + 1], steps, k, e, answer, numbered);
        },
        Step::Pop(p) => lemma_run_pop(lanes, steps, k, p),
    }
}

/// The queue's first `k` states keep what holds of it.
proof fn lemma_run_prefix<T>(lanes: Seq<Lanes<T>>, steps: Seq<Step<T>>, k: int)
    requires
        runs(lanes, steps),
        pushes_rise(steps),
        lanes[0].is_empty(),
        forall|c: Class| #[trigger] lanes[0].lane(c).room > 0,
        0 <= k <= steps.len(),
    ensures
        run_inv(lanes[k], steps, k),
    decreases k,
{
    if k == 0 {
        let l = lanes[0];
        assert forall|c: Class| #[trigger] l.lane(c).queue().len() == 0 by {}
    } else {
        lemma_run_prefix(lanes, steps, k - 1);
        lemma_run_step(lanes, steps, k - 1);
    }
}

/// A connection's queue hands its records out in the order they were
/// numbered. From an empty queue whose rings each have room, through any
/// run of pushes numbered strictly rising and pops in between, the records
/// the pops give rise strictly in `seq`, and each is one pushed before it:
/// a record lost to a full ring leaves a gap, never a reorder.
pub proof fn law_the_drain_hands_out_rising<T>(lanes: Seq<Lanes<T>>, steps: Seq<Step<T>>)
    requires
        runs(lanes, steps),
        pushes_rise(steps),
        lanes[0].is_empty(),
        forall|c: Class| #[trigger] lanes[0].lane(c).room > 0,
    ensures
        forall|i: int, j: int|
            0 <= i < j < steps.len() && #[trigger] popped_at(steps, i) is Some && #[trigger] popped_at(steps, j) is Some
                ==> popped_at(steps, i)->0.seq < popped_at(steps, j)->0.seq,
        forall|j: int| 0 <= j < steps.len() && #[trigger] popped_at(steps, j) is Some ==> pushed_before(steps, j, popped_at(steps, j)->0),
{
    lemma_run_prefix(lanes, steps, steps.len() as int);
}

/// The logic thread's end of the commit ring: what it pushes, and the
/// writer's end that pops it. Nothing in here waits or allocates.
#[derive(Debug)]
pub struct Commit<T> {
    producer: Ring<Addressed<T>>,
    /// `LIFECYCLE` records the commit ring evicted before the writer kept
    /// them: each is a boundary the retained set never held.
    lifecycle_evicted: u64,
}

impl<T> Commit<T> {
    /// The records committed and not yet taken by the writer, oldest first.
    pub closed spec fn records(&self) -> Seq<Addressed<T>> {
        self.producer.records()
    }

    /// How many records the commit ring holds at most.
    pub closed spec fn cap(&self) -> nat {
        self.producer.cap()
    }

    /// How many records the commit ring turned away, modulo 2^64.
    pub closed spec fn drops(&self) -> u64 {
        self.producer.drops()
    }

    /// How many retained records the commit ring evicted, modulo 2^64.
    pub closed spec fn evicted_boundaries(&self) -> u64 {
        self.lifecycle_evicted
    }

    /// The commit ring's invariant.
    pub closed spec fn wf(&self) -> bool {
        self.producer.wf()
    }

    /// A commit ring of `capacity` records.
    pub fn new(capacity: usize) -> (commit: Self)
        requires
            capacity > 0,
        ensures
            commit.wf(),
            commit.cap() == capacity,
            commit.records() == Seq::<Addressed<T>>::empty(),
            commit.drops() == 0,
            commit.evicted_boundaries() == 0,
    {
        Commit { producer: Ring::new(capacity), lifecycle_evicted: 0 }
    }

    /// What pushing `a` does: appended when there is room, and otherwise
    /// appended with the oldest evicted, handed back as the record alone,
    /// and counted as a lost boundary when it carried a retained slot.
    pub open spec fn pushed(self, next: Self, a: Addressed<T>, r: Push<T>) -> bool {
        &&& next.wf()
        &&& next.cap() == self.cap()
        &&& if self.records().len() < self.cap() {
            &&& r == Push::<T>::Stored
            &&& next.records() == self.records().push(a)
            &&& next.drops() == self.drops()
            &&& next.evicted_boundaries() == self.evicted_boundaries()
        } else {
            &&& r == Push::<T>::Evicted(self.records()[0].record)
            &&& next.records() == self.records().drop_first().push(a)
            &&& next.drops() == next_count(self.drops())
            &&& next.evicted_boundaries() == if self.records()[0].slot is Some {
                next_count(self.evicted_boundaries())
            } else {
                self.evicted_boundaries()
            }
        }
    }

    /// Commit a record for every connection whose capabilities cover
    /// capability number `need`. A full ring evicts its oldest record, which
    /// comes back here rather than being destroyed inside the ring.
    pub fn push(&mut self, need: u32, class: Class, value: T) -> (r: Push<T>)
        requires
            old(self).wf(),
        ensures
            old(self).pushed(
                *final(self),
                Addressed { to: None, need, class, slot: None, record: value },
                r,
            ),
    {
        self.push_addressed(None, need, class, None, value)
    }

    /// Commit a `LIFECYCLE` record for every connection whose capabilities
    /// cover `need`, and keep it in `slot` of the retained set for the
    /// connections that authenticate later.
    pub fn push_retained(&mut self, need: u32, slot: u32, value: T) -> (r: Push<T>)
        requires
            old(self).wf(),
        ensures
            old(self).pushed(
                *final(self),
                Addressed { to: None, need, class: Class::Lifecycle, slot: Some(slot), record: value },
                r,
            ),
    {
        self.push_addressed(None, need, Class::Lifecycle, Some(slot), value)
    }

    /// Commit a record for one connection and no other. It is queued whether
    /// or not `to` is still attached: the writer is the one that knows.
    pub fn push_to(&mut self, to: ConnectionId, class: Class, value: T) -> (r: Push<T>)
        requires
            old(self).wf(),
        ensures
            old(self).pushed(
                *final(self),
                Addressed { to: Some(to), need: 0, class, slot: None, record: value },
                r,
            ),
    {
        self.push_addressed(Some(to), 0, class, None, value)
    }

    /// Push with an address, and hand back what the ring turned away as the
    /// record alone.
    fn push_addressed(
        &mut self,
        to: Option<ConnectionId>,
        need: u32,
        class: Class,
        slot: Option<u32>,
        record: T,
    ) -> (r: Push<T>)
        requires
            old(self).wf(),
        ensures
            old(self).pushed(*final(self), Addressed { to, need, class, slot, record }, r),
    {
        proof {
            self.producer.lemma_bounds();
        }
        match self.producer.push(Addressed { to, need, class, slot, record }) {
            Push::Stored => Push::Stored,
            Push::Evicted(lost) => {
                if lost.slot.is_some() {
                    self.lifecycle_evicted = wrapping_inc(self.lifecycle_evicted);
                }
                Push::Evicted(lost.record)
            },
            Push::Refused(lost) => Push::Refused(lost.record),
        }
    }

    /// Take the oldest committed record: the writer's end of the ring.
    pub fn pop(&mut self) -> (popped: Option<Addressed<T>>)
        requires
            old(self).wf(),
        ensures
            final(self).wf(),
            final(self).cap() == old(self).cap(),
            final(self).drops() == old(self).drops(),
            final(self).evicted_boundaries() == old(self).evicted_boundaries(),
            old(self).records().len() == 0 ==> popped is None && final(self).records()
                == old(self).records(),
            old(self).records().len() > 0 ==> popped == Some(old(self).records()[0])
                && final(self).records() == old(self).records().drop_first(),
    {
        self.producer.pop()
    }

    /// How many records the commit ring has turned away.
    pub fn dropped(&self) -> (n: u64)
        ensures
            n == self.drops(),
    {
        self.producer.dropped()
    }

    /// How many `LIFECYCLE` records the commit ring evicted before the
    /// writer could keep them.
    pub fn lifecycle_evicted(&self) -> (n: u64)
        ensures
            n == self.evicted_boundaries(),
    {
        self.lifecycle_evicted
    }

    /// How many records the commit ring holds, as a gauge.
    pub fn len(&self) -> (n: usize)
        requires
            self.wf(),
        ensures
            n == self.records().len(),
    {
        self.producer.len()
    }

    /// Whether the commit ring holds nothing.
    pub fn is_empty(&self) -> (b: bool)
        requires
            self.wf(),
        ensures
            b == (self.records().len() == 0),
    {
        self.producer.is_empty()
    }
}

/// How many of the first `k` steps pushed a record.
pub open spec fn push_count<T>(steps: Seq<Step<T>>, k: int) -> nat
    decreases k,
{
    if k <= 0 {
        0
    } else {
        push_count(steps, k - 1) + if pushed_at(steps, k - 1) is Some {
            1nat
        } else {
            0nat
        }
    }
}

/// How many of the first `k` steps popped a record.
pub open spec fn pop_count<T>(steps: Seq<Step<T>>, k: int) -> nat
    decreases k,
{
    if k <= 0 {
        0
    } else {
        pop_count(steps, k - 1) + if popped_at(steps, k - 1) is Some {
            1nat
        } else {
            0nat
        }
    }
}

impl<T> Lanes<T> {
    /// How many records the three lanes hold, held ones included.
    pub open spec fn queued(self) -> nat {
        self.lossy.queue().len() + self.durable.queue().len() + self.lifecycle.queue().len()
    }

    /// How many records the three rings have turned away, added up.
    pub open spec fn turned_away(self) -> nat {
        self.lossy.drops as nat + self.durable.drops as nat + self.lifecycle.drops as nat
    }
}

impl<T> Lane<T> {
    /// A push into a lane with room for a record, whose count has not
    /// reached the top, either keeps the record or counts one turned away.
    proof fn lemma_after_counts(self, class: Class, q: Queued<T>)
        requires
            self.room > 0,
            self.drops < u64::MAX,
        ensures
            self.after(class, q).queue().len() + self.after(class, q).drops == self.queue().len() + self.drops + 1,
            self.after(class, q).room == self.room,
    {
        let off: int = if self.held is Some { 1 } else { 0 };
        assert(self.queue().len() == self.ring.len() + off);
        assert(self.after(class, q).queue().len() == self.after(class, q).ring.len() + off);
    }
}

/// What the first `k` steps of a run have done with the records pushed:
/// each is popped, still queued, or counted as turned away; and no count
/// has passed the number of pushes.
spec fn count_inv<T>(l: Lanes<T>, steps: Seq<Step<T>>, k: int) -> bool {
    &&& push_count(steps, k) == pop_count(steps, k) + l.turned_away() + l.queued()
    &&& forall|c: Class| #[trigger] l.lane(c).drops <= push_count(steps, k)
    &&& forall|c: Class| #[trigger] l.lane(c).room > 0
}

/// One step of a run keeps its records accounted for.
proof fn lemma_count_step<T>(lanes: Seq<Lanes<T>>, steps: Seq<Step<T>>, k: int)
    requires
        runs(lanes, steps),
        steps.len() < u64::MAX,
        0 <= k < steps.len(),
        count_inv(lanes[k], steps, k),
    ensures
        count_inv(lanes[k + 1], steps, k + 1),
{
    let o = lanes[k];
    let n = lanes[k + 1];
    assert(match steps[k] {
        Step::Push(class, answer, numbered) => n == o.after(class, answer, numbered),
        Step::Pop(p) => o.popped(n, p),
    });
    assert(push_count(steps, k) <= k) by {
        lemma_push_count_bound(steps, k);
    }
    match steps[k] {
        Step::Push(e, answer, numbered) => {
            assert(pushed_at(steps, k) is Some);
            assert(popped_at(steps, k) is None);
            assert(o.lane(e).drops < u64::MAX);
            o.lane(e).lemma_after_counts(e, Queued { answer, numbered });
            assert forall|c: Class| #[trigger] n.lane(c) == if c == e {
                o.lane(e).after(e, Queued { answer, numbered })
            } else {
                o.lane(c)
            } by {}
        },
        Step::Pop(p) => {
            assert(pushed_at(steps, k) is None);
            assert(popped_at(steps, k) == p);
            assert forall|c: Class| #[trigger] n.lane(c).drops == o.lane(c).drops && n.lane(c).room == o.lane(c).room by {}
            match p {
                None => {
                    assert forall|c: Class| #[trigger] n.lane(c).queue() == o.lane(c).queue() by {}
                    assert(n.queued() == o.queued()) by {
                        assert(n.lane(Class::Lossy).queue() == o.lane(Class::Lossy).queue());
                        assert(n.lane(Class::Durable).queue() == o.lane(Class::Durable).queue());
                        assert(n.lane(Class::Lifecycle).queue() == o.lane(Class::Lifecycle).queue());
                    }
                },
                Some(x) => {
                    let c = choose|c: Class| {
                        &&& #[trigger] o.lane(c).queue().len() > 0
                        &&& x == o.lane(c).queue()[0]
                        &&& n.lane(c).queue() == o.lane(c).queue().drop_first()
                        &&& forall|d: Class| d != c ==> #[trigger] n.lane(d).queue() == o.lane(d).queue()
                        &&& forall|d: Class| d != c ==> #[trigger] n.lane(d).holds_head()
                        &&& forall|d: Class| #[trigger] o.lane(d).queue().len() > 0 ==> x.seq <= o.lane(d).queue()[0].seq
                    };
                    assert(n.queued() + 1 == o.queued()) by {
                        assert(n.lane(Class::Lossy).queue().len() + if c == Class::Lossy { 1int } else { 0int }
                            == o.lane(Class::Lossy).queue().len());
                        assert(n.lane(Class::Durable).queue().len() + if c == Class::Durable { 1int } else { 0int }
                            == o.lane(Class::Durable).queue().len());
                        assert(n.lane(Class::Lifecycle).queue().len() + if c == Class::Lifecycle { 1int } else { 0int }
                            == o.lane(Class::Lifecycle).queue().len());
                    }
                },
            }
        },
    }
}

/// No more of the first `k` steps pushed than there are steps.
proof fn lemma_push_count_bound<T>(steps: Seq<Step<T>>, k: int)
    ensures
        push_count(steps, k) <= if k > 0 { k } else { 0 },
    decreases k,
{
    if k > 0 {
        lemma_push_count_bound(steps, k - 1);
    }
}

/// The first `k` steps of a run keep their records accounted for.
proof fn lemma_count_prefix<T>(lanes: Seq<Lanes<T>>, steps: Seq<Step<T>>, k: int)
    requires
        runs(lanes, steps),
        steps.len() < u64::MAX,
        lanes[0].is_empty(),
        forall|c: Class| #[trigger] lanes[0].lane(c).room > 0,
        forall|c: Class| #[trigger] lanes[0].lane(c).drops == 0,
        0 <= k <= steps.len(),
    ensures
        count_inv(lanes[k], steps, k),
    decreases k,
{
    if k == 0 {
        let l = lanes[0];
        assert(l.lane(Class::Lossy).queue().len() == 0);
        assert(l.lane(Class::Durable).queue().len() == 0);
        assert(l.lane(Class::Lifecycle).queue().len() == 0);
        assert(l.lane(Class::Lossy).drops == 0);
        assert(l.lane(Class::Durable).drops == 0);
        assert(l.lane(Class::Lifecycle).drops == 0);
    } else {
        lemma_count_prefix(lanes, steps, k - 1);
        lemma_count_step(lanes, steps, k - 1);
    }
}

/// A connection's queue loses no record without counting it. From an
/// empty queue whose rings each have room and have turned nothing away,
/// through any run of pushes and pops shorter than the counters' range,
/// every record pushed has been popped, is still queued, or is counted as
/// turned away by its ring; so once the pushes stop and a pop finds nothing,
/// every record pushed was either handed out or counted.
pub proof fn law_the_drain_counts_what_it_loses<T>(lanes: Seq<Lanes<T>>, steps: Seq<Step<T>>)
    requires
        runs(lanes, steps),
        steps.len() < u64::MAX,
        lanes[0].is_empty(),
        forall|c: Class| #[trigger] lanes[0].lane(c).room > 0,
        forall|c: Class| #[trigger] lanes[0].lane(c).drops == 0,
    ensures
        push_count(steps, steps.len() as int) == pop_count(steps, steps.len() as int) + lanes.last().turned_away()
            + lanes.last().queued(),
        steps.len() > 0 && steps.last() == Step::<T>::Pop(None) ==> push_count(steps, steps.len() as int) == pop_count(
            steps,
            steps.len() as int,
        ) + lanes.last().turned_away(),
{
    let n = steps.len() as int;
    lemma_count_prefix(lanes, steps, n);
    assert(lanes.last() == lanes[n]);
    if n > 0 && steps.last() == Step::<T>::Pop(None) {
        assert(steps[n - 1] == Step::<T>::Pop(None));
        assert(lanes[n - 1].popped(lanes[n], None));
        let o = lanes[n - 1];
        let l = lanes[n];
        assert(o.is_empty());
        assert(l.lane(Class::Lossy).queue() == o.lane(Class::Lossy).queue());
        assert(l.lane(Class::Durable).queue() == o.lane(Class::Durable).queue());
        assert(l.lane(Class::Lifecycle).queue() == o.lane(Class::Lifecycle).queue());
        assert(o.lane(Class::Lossy).queue().len() == 0);
        assert(o.lane(Class::Durable).queue().len() == 0);
        assert(o.lane(Class::Lifecycle).queue().len() == 0);
    }
}

/// A push into the commit ring counts what it loses, one at a time: with
/// room in both counters, a push that evicts adds one to the records turned
/// away, and one to the boundaries lost when the evicted record carried a
/// retained slot; a push that stores moves neither.
pub proof fn law_a_commit_counts_what_it_evicts<T>(c: Commit<T>, next: Commit<T>, a: Addressed<T>, r: Push<T>)
    requires
        c.pushed(next, a, r),
        c.drops() < u64::MAX,
        c.evicted_boundaries() < u64::MAX,
    ensures
        r !is Refused,
        next.drops() == c.drops() + if r is Evicted {
            1nat
        } else {
            0nat
        },
        next.evicted_boundaries() == c.evicted_boundaries() + if r is Evicted && c.records()[0].slot is Some {
            1nat
        } else {
            0nat
        },
{
}

/// The pop's effect on the queues, as it reads on the lanes.
proof fn lemma_lanes_popped<T>(o0: Drain<T>, n0: Drain<T>, popped: Option<Numbered<T>>)
    requires
        forall|c: Class| #[trigger] n0.room(c) == o0.room(c),
        forall|c: Class| #[trigger] n0.drops(c) == o0.drops(c),
        popped is None <==> forall|c: Class| #[trigger] o0.queue(c).len() == 0,
        popped is None ==> forall|c: Class| #[trigger] n0.queue(c) == o0.queue(c),
        popped matches Some(n) ==> exists|c: Class| {
            &&& #[trigger] o0.queue(c).len() > 0
            &&& n == o0.queue(c)[0]
            &&& n0.queue(c) == o0.queue(c).drop_first()
            &&& forall|d: Class| d != c ==> #[trigger] n0.queue(d) == o0.queue(d)
            &&& forall|d: Class| d != c ==> #[trigger] n0.holds_head(d)
            &&& forall|d: Class| #[trigger] o0.queue(d).len() > 0 ==> n.seq <= o0.queue(d)[0].seq
        },
    ensures
        o0.lanes().popped(n0.lanes(), popped),
{
    assert forall|c: Class| #[trigger] o0.lanes().lane(c).queue() == o0.queue(c) by {}
    assert forall|c: Class| #[trigger] n0.lanes().lane(c).queue() == n0.queue(c) by {}
    let o = o0.lanes();
    let n = n0.lanes();
    assert forall|c: Class| #[trigger] n.lane(c).room == o.lane(c).room by {
        assert(n0.room(c) == o0.room(c));
    }
    assert forall|c: Class| #[trigger] n.lane(c).drops == o.lane(c).drops by {
        assert(n0.drops(c) == o0.drops(c));
    }
    if popped is None {
        assert forall|c: Class| #[trigger] n.lane(c).queue() == o.lane(c).queue() by {
            assert(n0.queue(c) == o0.queue(c));
        }
        assert(o.is_empty());
    } else {
        let c = choose|c: Class| {
            &&& #[trigger] o0.queue(c).len() > 0
            &&& popped->0 == o0.queue(c)[0]
            &&& n0.queue(c) == o0.queue(c).drop_first()
            &&& forall|d: Class| d != c ==> #[trigger] n0.queue(d) == o0.queue(d)
            &&& forall|d: Class| d != c ==> #[trigger] n0.holds_head(d)
            &&& forall|d: Class| #[trigger] o0.queue(d).len() > 0 ==> popped->0.seq <= o0.queue(d)[0].seq
        };
        assert(o.lane(c).queue().len() > 0);
        assert(!o.is_empty());
        assert forall|d: Class| d != c implies #[trigger] n.lane(d).queue() == o.lane(d).queue() by {
            assert(n0.queue(d) == o0.queue(d));
        }
        assert forall|d: Class| d != c implies #[trigger] n.lane(d).holds_head() by {
            assert(n0.holds_head(d));
        }
        assert forall|d: Class| #[trigger] o.lane(d).queue().len() > 0 implies popped->0.seq <= o.lane(
            d,
        ).queue()[0].seq by {
            assert(o0.queue(d).len() > 0);
        }
    }
}

/// A record above everything in a rising queue keeps it rising.
proof fn lemma_rising_push<T>(o: Seq<Queued<T>>, q: Queued<T>)
    requires
        rising(o),
        forall|i: int| 0 <= i < o.len() ==> #[trigger] o[i].numbered.seq < q.numbered.seq,
    ensures
        rising(o.push(q)),
{
    let r = o.push(q);
    assert forall|i: int, j: int| 0 <= i < j < r.len() implies #[trigger] r[i].numbered.seq
        < #[trigger] r[j].numbered.seq by {
        if j < o.len() {
            assert(o[i].numbered.seq < o[j].numbered.seq);
        } else {
            assert(r[i] == o[i]);
        }
    }
}

/// Evicting the oldest to make room for a record above everything keeps a
/// queue rising.
proof fn lemma_rising_evict<T>(o: Seq<Queued<T>>, q: Queued<T>)
    requires
        rising(o),
        o.len() > 0,
        forall|i: int| 0 <= i < o.len() ==> #[trigger] o[i].numbered.seq < q.numbered.seq,
    ensures
        rising(o.drop_first().push(q)),
{
    let r = o.drop_first().push(q);
    assert forall|i: int, j: int| 0 <= i < j < r.len() implies #[trigger] r[i].numbered.seq
        < #[trigger] r[j].numbered.seq by {
        assert(r[i] == o[i + 1]);
        if j < r.len() - 1 {
            assert(r[j] == o[j + 1]);
            assert(o[i + 1].numbered.seq < o[j + 1].numbered.seq);
        }
    }
}

impl<T> Drain<T> {
    /// A class's queue without its held record is its ring, mapped.
    proof fn lemma_queue_split(&self, c: Class)
        ensures
            self.queue(c) == (match self.held(c) {
                Some(h) => seq![h],
                None => Seq::<Numbered<T>>::empty(),
            }) + self.ring(c).map_values(|q: Queued<T>| q.numbered),
    {
        match self.held(c) {
            Some(h) => {},
            None => {
                assert(self.queue(c) =~= Seq::<Numbered<T>>::empty() + self.ring(c).map_values(
                    |q: Queued<T>| q.numbered,
                ));
            },
        }
    }

    /// Move the oldest record of each ring nothing is held from into its
    /// held place. Every class's queue stays as it was; after it, a class
    /// with nothing held has an empty ring.
    #[verifier::rlimit(30)]
    #[verifier::spinoff_prover]
    fn refill(&mut self)
        requires
            old(self).wf(),
        ensures
            final(self).wf(),
            forall|c: Class| #[trigger] final(self).queue(c) == old(self).queue(c),
            forall|c: Class| #[trigger] final(self).room(c) == old(self).room(c),
            forall|c: Class| #[trigger] final(self).drops(c) == old(self).drops(c),
            forall|c: Class| #[trigger] final(self).held(c) is None ==> final(self).ring(c).len() == 0,
    {
        proof {
            self.lemma_queue_split(Class::Lossy);
            self.lemma_queue_split(Class::Durable);
            self.lemma_queue_split(Class::Lifecycle);
        }
        if self.held_lossy.is_none() {
            self.held_lossy = match self.lossy.pop() {
                Some(q) => Some(q.numbered),
                None => None,
            };
        }
        if self.held_durable.is_none() {
            self.held_durable = match self.durable.pop() {
                Some(q) => Some(q.numbered),
                None => None,
            };
        }
        if self.held_lifecycle.is_none() {
            self.held_lifecycle = match self.lifecycle.pop() {
                Some(q) => Some(q.numbered),
                None => None,
            };
        }
        proof {
            assert forall|c: Class| #[trigger] self.queue(c) == old(self).queue(c) by {
                self.lemma_queue_split(c);
                old(self).lemma_queue_split(c);
                let o = old(self).ring(c);
                if old(self).held(c) is None && o.len() > 0 {
                    assert(self.ring(c) == o.drop_first());
                    assert(self.queue(c) =~= old(self).queue(c));
                }
            }
            assert forall|c: Class| rising(#[trigger] self.ring(c)) by {
                let o = old(self).ring(c);
                if old(self).held(c) is None && o.len() > 0 {
                    assert forall|i: int, j: int| 0 <= i < j < self.ring(c).len() implies #[trigger] self.ring(
                        c,
                    )[i].numbered.seq < #[trigger] self.ring(c)[j].numbered.seq by {
                        assert(self.ring(c)[i] == o[i + 1]);
                        assert(self.ring(c)[j] == o[j + 1]);
                        assert(o[i + 1].numbered.seq < o[j + 1].numbered.seq);
                    }
                } else {
                    assert(self.ring(c) == o);
                }
            }
            assert forall|c: Class, i: int|
                #![trigger self.held(c), self.ring(c)[i]]
                self.held(c) is Some && 0 <= i < self.ring(c).len() implies self.held(c)->0.seq
                < self.ring(c)[i].numbered.seq by {
                let o = old(self).ring(c);
                if old(self).held(c) is None && o.len() > 0 {
                    assert(self.held(c)->0 == o[0].numbered);
                    assert(self.ring(c)[i] == o[i + 1]);
                    assert(o[0].numbered.seq < o[i + 1].numbered.seq);
                } else {
                    assert(self.ring(c) == o);
                    assert(old(self).held(c) == self.held(c));
                    assert(old(self).ring(c)[i] == self.ring(c)[i]);
                }
            }
        }
    }

    /// The next record in `seq` order, or `None` when nothing is queued.
    ///
    /// Every ring nothing is held from gives up its oldest record first;
    /// then the lowest held `seq` is the lowest queued anywhere, since each
    /// ring rises and each held record is below its ring.
    fn next_in_order(&mut self) -> (popped: Option<Numbered<T>>)
        requires
            old(self).wf(),
        ensures
            final(self).wf(),
            forall|c: Class| #[trigger] final(self).room(c) == old(self).room(c),
            forall|c: Class| #[trigger] final(self).drops(c) == old(self).drops(c),
            popped is None <==> forall|c: Class| #[trigger] old(self).queue(c).len() == 0,
            popped is None ==> forall|c: Class| #[trigger] final(self).queue(c) == old(self).queue(c),
            popped matches Some(n) ==> exists|c: Class| {
                &&& #[trigger] old(self).queue(c).len() > 0
                &&& n == old(self).queue(c)[0]
                &&& final(self).queue(c) == old(self).queue(c).drop_first()
                &&& forall|d: Class| d != c ==> #[trigger] final(self).queue(d) == old(self).queue(d)
                &&& forall|d: Class| d != c ==> #[trigger] final(self).holds_head(d)
                &&& forall|d: Class| #[trigger] old(self).queue(d).len() > 0 ==> n.seq <= old(self).queue(d)[0].seq
            },
    {
        self.refill();
        let ghost mid = *self;
        let pick: Option<Class> = match (&self.held_lossy, &self.held_durable, &self.held_lifecycle) {
            (None, None, None) => None,
            (Some(a), None, None) => Some(Class::Lossy),
            (None, Some(b), None) => Some(Class::Durable),
            (None, None, Some(c)) => Some(Class::Lifecycle),
            (Some(a), Some(b), None) => if a.seq <= b.seq {
                Some(Class::Lossy)
            } else {
                Some(Class::Durable)
            },
            (Some(a), None, Some(c)) => if a.seq <= c.seq {
                Some(Class::Lossy)
            } else {
                Some(Class::Lifecycle)
            },
            (None, Some(b), Some(c)) => if b.seq <= c.seq {
                Some(Class::Durable)
            } else {
                Some(Class::Lifecycle)
            },
            (Some(a), Some(b), Some(c)) => if a.seq <= b.seq && a.seq <= c.seq {
                Some(Class::Lossy)
            } else if b.seq <= c.seq {
                Some(Class::Durable)
            } else {
                Some(Class::Lifecycle)
            },
        };
        let popped = match pick {
            None => None,
            Some(Class::Lossy) => self.held_lossy.take(),
            Some(Class::Durable) => self.held_durable.take(),
            Some(Class::Lifecycle) => self.held_lifecycle.take(),
        };
        proof {
            mid.lemma_queue_split(Class::Lossy);
            mid.lemma_queue_split(Class::Durable);
            mid.lemma_queue_split(Class::Lifecycle);
            self.lemma_queue_split(Class::Lossy);
            self.lemma_queue_split(Class::Durable);
            self.lemma_queue_split(Class::Lifecycle);
            assert forall|c: Class| #[trigger] self.ring(c) == mid.ring(c) by {}
            assert forall|c: Class| #[trigger] self.room(c) == old(self).room(c) by {
                assert(mid.room(c) == old(self).room(c));
            }
            assert forall|c: Class| #[trigger] self.drops(c) == old(self).drops(c) by {
                assert(mid.drops(c) == old(self).drops(c));
            }
            match pick {
                None => {
                    assert forall|c: Class| #[trigger] old(self).queue(c).len() == 0 by {
                        assert(mid.queue(c) == old(self).queue(c));
                    }
                },
                Some(c) => {
                    assert(mid.queue(c)[0] == popped->0);
                    assert(self.queue(c) =~= mid.queue(c).drop_first());
                    assert forall|d: Class| #[trigger] old(self).queue(d).len() > 0 implies popped->0.seq
                        <= old(self).queue(d)[0].seq by {
                        assert(mid.queue(d) == old(self).queue(d));
                        assert(mid.held(d) is Some);
                    }
                    assert forall|d: Class| d != c implies #[trigger] self.queue(d) == old(self).queue(d) by {
                        assert(mid.queue(d) == old(self).queue(d));
                        assert(self.held(d) == mid.held(d));
                    }
                    assert forall|d: Class| d != c implies #[trigger] self.holds_head(d) by {
                        assert(self.held(d) == mid.held(d));
                        assert(mid.held(d) is None ==> mid.ring(d).len() == 0);
                    }
                    assert(old(self).queue(c).len() > 0);
                },
            }
        }
        popped
    }

    /// The next record in `seq` order, or `None` when nothing is queued:
    /// the lowest `seq` at the head of any class's queue.
    pub fn pop(&mut self) -> (popped: Option<Numbered<T>>)
        requires
            old(self).wf(),
        ensures
            final(self).wf(),
            forall|c: Class| #[trigger] final(self).room(c) == old(self).room(c),
            forall|c: Class| #[trigger] final(self).drops(c) == old(self).drops(c),
            popped is None <==> forall|c: Class| #[trigger] old(self).queue(c).len() == 0,
            popped is None ==> forall|c: Class| #[trigger] final(self).queue(c) == old(self).queue(c),
            popped matches Some(n) ==> exists|c: Class| {
                &&& #[trigger] old(self).queue(c).len() > 0
                &&& n == old(self).queue(c)[0]
                &&& final(self).queue(c) == old(self).queue(c).drop_first()
                &&& forall|d: Class| d != c ==> #[trigger] final(self).queue(d) == old(self).queue(d)
                &&& forall|d: Class| d != c ==> #[trigger] final(self).holds_head(d)
                &&& forall|d: Class| #[trigger] old(self).queue(d).len() > 0 ==> n.seq <= old(self).queue(d)[0].seq
            },
            old(self).lanes().popped(final(self).lanes(), popped),
            popped matches Some(n) ==> forall|c: Class, i: int|
                0 <= i < old(self).queue(c).len() ==> n.seq <= #[trigger] old(self).queue(c)[i].seq,
            popped matches Some(n) ==> forall|c: Class, i: int|
                0 <= i < final(self).queue(c).len() ==> n.seq < #[trigger] final(self).queue(c)[i].seq,
    {
        let popped = self.next_in_order();
        proof {
            lemma_lanes_popped(*old(self), *self, popped);
            old(self).lemma_queue_rising();
            if popped is Some {
                let n = popped->0;
                assert forall|c: Class, i: int| 0 <= i < old(self).queue(c).len() implies n.seq
                    <= #[trigger] old(self).queue(c)[i].seq by {
                    assert(old(self).queue(c).len() > 0);
                    if i > 0 {
                        assert(old(self).queue(c)[0].seq < old(self).queue(c)[i].seq);
                    }
                }
                let c = choose|c: Class| {
                    &&& #[trigger] old(self).queue(c).len() > 0
                    &&& n == old(self).queue(c)[0]
                    &&& self.queue(c) == old(self).queue(c).drop_first()
                    &&& forall|d: Class| d != c ==> #[trigger] self.queue(d) == old(self).queue(d)
                    &&& forall|d: Class| d != c ==> #[trigger] self.holds_head(d)
                    &&& forall|d: Class| #[trigger] old(self).queue(d).len() > 0 ==> n.seq <= old(self).queue(d)[0].seq
                };
                // What is left of its class lies above it, and no other class
                // holds its number.
                assert forall|d: Class, i: int| 0 <= i < self.queue(d).len() implies n.seq < #[trigger] self.queue(
                    d,
                )[i].seq by {
                    if d == c {
                        assert(self.queue(d)[i] == old(self).queue(c)[i + 1]);
                        assert(old(self).queue(c)[0].seq < old(self).queue(c)[i + 1].seq);
                    } else {
                        assert(self.queue(d)[i] == old(self).queue(d)[i]);
                        assert(n.seq <= old(self).queue(d)[i].seq);
                        assert(old(self).queue(c)[0].seq != old(self).queue(d)[i].seq);
                    }
                }
            }
        }
        popped
    }

    /// Each class's queue rises in `seq`: the held record, then its ring.
    pub proof fn lemma_queue_rising(&self)
        requires
            self.wf(),
        ensures
            forall|c: Class, i: int, j: int|
                0 <= i < j < self.queue(c).len() ==> #[trigger] self.queue(c)[i].seq < #[trigger] self.queue(
                    c,
                )[j].seq,
    {
        assert forall|c: Class, i: int, j: int| 0 <= i < j < self.queue(c).len() implies #[trigger] self.queue(
            c,
        )[i].seq < #[trigger] self.queue(c)[j].seq by {
            let q = self.queue(c);
            let r = self.ring(c);
            assert(rising(r));
            if self.held(c) is Some {
                if i == 0 {
                    assert(q[0] == self.held(c)->0);
                    assert(q[j] == r[j - 1].numbered);
                } else {
                    assert(q[i] == r[i - 1].numbered);
                    assert(q[j] == r[j - 1].numbered);
                }
            } else {
                assert(q[i] == r[i].numbered);
                assert(q[j] == r[j].numbered);
            }
        }
    }

    /// Whether nothing is queued or held. What a draining thread asks
    /// before it parks.
    pub fn is_empty(&self) -> (b: bool)
        requires
            self.wf(),
        ensures
            b <==> forall|c: Class| #[trigger] self.queue(c).len() == 0,
            b == self.lanes().is_empty(),
    {
        proof {
            self.lemma_queue_split(Class::Lossy);
            self.lemma_queue_split(Class::Durable);
            self.lemma_queue_split(Class::Lifecycle);
        }
        let b = self.held_lossy.is_none() && self.held_durable.is_none() && self.held_lifecycle.is_none()
            && self.lossy.is_empty() && self.durable.is_empty() && self.lifecycle.is_empty();
        proof {
            assert forall|c: Class| #[trigger] self.lanes().lane(c).queue() == self.queue(c) by {}
            if !b {
                if self.held_lossy is Some || self.lossy.records().len() > 0 {
                    assert(self.queue(Class::Lossy).len() > 0);
                    assert(self.lanes().lane(Class::Lossy).queue().len() > 0);
                } else if self.held_durable is Some || self.durable.records().len() > 0 {
                    assert(self.queue(Class::Durable).len() > 0);
                    assert(self.lanes().lane(Class::Durable).queue().len() > 0);
                } else {
                    assert(self.queue(Class::Lifecycle).len() > 0);
                    assert(self.lanes().lane(Class::Lifecycle).queue().len() > 0);
                }
            }
        }
        b
    }

    /// How many records the three rings have turned away, modulo 2^64.
    pub fn dropped(&self) -> (n: u64)
        ensures
            n as int == (self.drops(Class::Lossy) + self.drops(Class::Durable) + self.drops(
                Class::Lifecycle,
            )) % 0x1_0000_0000_0000_0000,
    {
        let a = self.lossy.dropped();
        let b = self.durable.dropped();
        let c = self.lifecycle.dropped();
        let ab = a.wrapping_add(b);
        let abc = ab.wrapping_add(c);
        proof {
            assert(ab as int == (a + b) % 0x1_0000_0000_0000_0000);
            assert(abc as int == (ab + c) % 0x1_0000_0000_0000_0000);
            assert((((a + b) % 0x1_0000_0000_0000_0000) + c) % 0x1_0000_0000_0000_0000 == (a + b + c)
                % 0x1_0000_0000_0000_0000) by (nonlinear_arith);
        }
        abc
    }

    /// What a push into the ring of `class` costs: nothing when it has
    /// room, and otherwise what its oldest record was, or the boundary for
    /// a full `LIFECYCLE` ring, which evicts nothing.
    pub open spec fn loses(self, class: Class) -> Lost {
        let ring = self.ring(class);
        if ring.len() < self.room(class) {
            Lost::Nothing
        } else {
            match class {
                Class::Lossy => Lost::Lossy,
                Class::Durable => if ring[0].answer {
                    Lost::BrokerAnswer
                } else {
                    Lost::Durable
                },
                Class::Lifecycle => Lost::Boundary,
            }
        }
    }

    /// What pushing `numbered` into the ring of `class` leaves: appended
    /// when there is room, and otherwise appended with the oldest evicted,
    /// or, for a full `LIFECYCLE` ring, refused; every other ring, every
    /// held record and every room as it was.
    pub open spec fn pushed(self, next: Drain<T>, class: Class, answer: bool, numbered: Numbered<T>) -> bool {
        let q = Queued { answer, numbered };
        let ring = self.ring(class);
        &&& forall|c: Class| #[trigger] next.room(c) == self.room(c)
        &&& forall|c: Class| #[trigger] next.held(c) == self.held(c)
        &&& forall|c: Class| c != class ==> #[trigger] next.ring(c) == self.ring(c) && next.drops(c)
            == self.drops(c)
        &&& if ring.len() < self.room(class) {
            &&& next.ring(class) == ring.push(q)
            &&& next.drops(class) == self.drops(class)
        } else {
            &&& next.drops(class) == next_count(self.drops(class))
            &&& next.ring(class) == match class {
                Class::Lifecycle => ring,
                _ => ring.drop_first().push(q),
            }
        }
    }

    /// Queue a numbered record in its class's ring, and say what the ring
    /// turned away to do it. `answer` marks a broker answer, which is
    /// `Durable`.
    ///
    /// A `Lossy` record evicts the oldest `Lossy` and a `Durable` one the
    /// oldest `Durable`, so a flood in one class costs the others nothing.
    /// The `Lifecycle` ring never evicts: a full one refuses the record,
    /// which means the consumer is past saving. An eviction is counted as
    /// what the evicted record was.
    pub fn push(&mut self, class: Class, answer: bool, numbered: Numbered<T>) -> (lost: Lost)
        requires
            old(self).wf(),
            old(self).below(numbered.seq),
        ensures
            final(self).wf(),
            old(self).pushed(*final(self), class, answer, numbered),
            lost == old(self).loses(class),
            final(self).lanes() == old(self).lanes().after(class, answer, numbered),
    {
        let queued = Queued { answer, numbered };
        let ghost seq = numbered.seq;
        proof {
            self.lossy.lemma_bounds();
            self.durable.lemma_bounds();
            self.lifecycle.lemma_bounds();
            assert forall|i: int| 0 <= i < old(self).ring(class).len() implies #[trigger] old(self).ring(
                class,
            )[i].numbered.seq < seq by {
                old(self).lemma_queue_split(class);
                let k = if old(self).held(class) is Some { i + 1 } else { i };
                assert(old(self).queue(class)[k] == old(self).ring(class)[i].numbered);
            }
        }
        let lost = match class {
            Class::Lossy => match self.lossy.push(queued) {
                Push::Stored => Lost::Nothing,
                Push::Evicted(_) | Push::Refused(_) => Lost::Lossy,
            },
            Class::Durable => match self.durable.push(queued) {
                Push::Stored => Lost::Nothing,
                Push::Evicted(gone) | Push::Refused(gone) => if gone.answer {
                    Lost::BrokerAnswer
                } else {
                    Lost::Durable
                },
            },
            Class::Lifecycle => match self.lifecycle.offer(queued) {
                Push::Stored => Lost::Nothing,
                Push::Evicted(_) | Push::Refused(_) => Lost::Boundary,
            },
        };
        proof {
            let o = old(self).ring(class);
            if o.len() < old(self).room(class) {
                lemma_rising_push(o, queued);
            } else if class != Class::Lifecycle {
                lemma_rising_evict(o, queued);
            }
            assert forall|c: Class| rising(#[trigger] self.ring(c)) by {
                if c != class {
                    assert(self.ring(c) == old(self).ring(c));
                }
            }
            assert forall|c: Class, i: int|
                #![trigger self.held(c), self.ring(c)[i]]
                self.held(c) is Some && 0 <= i < self.ring(c).len() implies self.held(c)->0.seq
                < self.ring(c)[i].numbered.seq by {
                let h = self.held(c)->0;
                let o = old(self).ring(c);
                if c == class {
                    old(self).lemma_queue_split(c);
                    assert(old(self).queue(c)[0] == h);
                    if o.len() < old(self).room(c) {
                        if i < o.len() {
                            assert(h.seq < o[i].numbered.seq);
                        } else {
                            assert(self.ring(c)[i] == queued);
                        }
                    } else if c != Class::Lifecycle {
                        if i < self.ring(c).len() - 1 {
                            assert(self.ring(c)[i] == o[i + 1]);
                            assert(h.seq < o[i + 1].numbered.seq);
                        } else {
                            assert(self.ring(c)[i] == queued);
                        }
                    } else {
                        assert(old(self).held(c) == self.held(c));
                        assert(old(self).ring(c)[i] == self.ring(c)[i]);
                        assert(h.seq < o[i].numbered.seq);
                    }
                } else {
                    assert(old(self).held(c) == self.held(c));
                    assert(old(self).ring(c)[i] == self.ring(c)[i]);
                    assert(h.seq < o[i].numbered.seq);
                }
            }
        }
        proof {
            let ol = old(self).lanes();
            assert(self.lanes() == ol.after(class, answer, numbered));
            old(self).lemma_lanes_sound();
            assert(ol.lane(class).room > 0);
            ol.lane(class).lemma_after_queue(class, queued);
            assert forall|c: Class| #[trigger] old(self).queue(c) == ol.lane(c).queue() by {}
            assert forall|c: Class| #[trigger] self.queue(c) == if c == class {
                ol.lane(class).after(class, queued).queue()
            } else {
                ol.lane(c).queue()
            } by {
                assert(self.queue(c) == self.lanes().lane(c).queue());
            }
            // Everything queued before lies below the record pushed.
            assert forall|c: Class, i: int| 0 <= i < old(self).queue(c).len() implies #[trigger] old(self).queue(
                c,
            )[i].seq < seq by {}
            assert forall|c: Class, d: Class, i: int, j: int|
                c != d && 0 <= i < self.queue(c).len() && 0 <= j < self.queue(d).len() implies #[trigger] self.queue(
                c,
            )[i].seq != #[trigger] self.queue(d)[j].seq by {
                let x = self.queue(c)[i];
                let y = self.queue(d)[j];
                if c == class {
                    assert(y == old(self).queue(d)[j]);
                    if x != numbered {
                        let t = choose|t: int| 0 <= t < ol.lane(c).queue().len() && x == #[trigger] ol.lane(c).queue()[t];
                        assert(x == old(self).queue(c)[t]);
                    }
                } else if d == class {
                    assert(x == old(self).queue(c)[i]);
                    if y != numbered {
                        let t = choose|t: int| 0 <= t < ol.lane(d).queue().len() && y == #[trigger] ol.lane(d).queue()[t];
                        assert(y == old(self).queue(d)[t]);
                    }
                } else {
                    assert(x == old(self).queue(c)[i]);
                    assert(y == old(self).queue(d)[j]);
                }
            }
        }
        lost
    }
}

} // verus!
