//! The writer's decisions: which connection each record reaches, the number
//! it takes there, what each connection's queue turns away, and the retained
//! set replayed to a connection as it authenticates.
//!
//! The writer holds one queue per connection. A record fanned out reaches
//! every connection that has authenticated under a token covering the
//! capability it needs; a record addressed to one connection reaches that
//! connection alone, authenticated or not. Each connection numbers what it
//! receives from one, one by one, before its queue decides whether the
//! record stays, so a record the queue evicts leaves a gap its consumer can
//! see, and a record a connection was never sent leaves none.
//!
//! The thread that runs the writer, parks it and wakes the connections'
//! threads is the caller's; everything it decides is here.

use vstd::prelude::*;
use crate::count::{next_count, wrapping_inc};
use crate::fanout::{
    outbound, Addressed, Capabilities, Capacities, Class, Commit, ConnectionId, Drain, Lanes, Lost,
    Numbered, Queued,
};

verus! {

/// `records_dropped_total` across every connection, by label.
///
/// The classes fill and drop independently, so a `lossy` count says nothing
/// about `durable`. A boundary record is never dropped: the connection it had
/// no room in is closed, and counted in `lifecycle_disconnects`.
#[derive(Clone, Copy, Debug, Default, Eq, PartialEq, Structural)]
pub struct Dropped {
    /// `LOSSY` records evicted by newer ones.
    pub lossy: u64,
    /// `DURABLE` records evicted by newer ones, broker answers apart.
    pub durable: u64,
    /// Broker answers and handshakes lost from the `DURABLE` ring.
    pub broker_answer: u64,
}

/// What the writer counts. Every count wraps, as a 64-bit atomic does.
#[derive(Clone, Copy, Debug, Default, Eq, PartialEq, Structural)]
pub struct Counts {
    /// Records addressed to a connection that was gone when the writer
    /// reached them.
    pub unaddressed: u64,
    /// Records withheld at fan-out from an authenticated connection whose
    /// capabilities did not cover them, one per connection per record.
    pub filtered: u64,
    /// Connections closed because their `LIFECYCLE` ring was full.
    pub lifecycle_disconnects: u64,
    /// Retained records pushed to a connection at its authentication.
    pub replayed: u64,
    /// Records a connection's ring turned away, by what was lost.
    pub dropped: Dropped,
}

impl Counts {
    /// Nothing counted yet.
    pub open spec fn zero() -> Counts {
        Counts {
            unaddressed: 0,
            filtered: 0,
            lifecycle_disconnects: 0,
            replayed: 0,
            dropped: Dropped { lossy: 0, durable: 0, broker_answer: 0 },
        }
    }

    /// The counts after a push that cost `lost`.
    pub open spec fn lost(self, lost: Lost) -> Counts {
        let d = self.dropped;
        match lost {
            Lost::Nothing => self,
            Lost::Lossy => Counts {
                dropped: Dropped { lossy: next_count(d.lossy), durable: d.durable, broker_answer: d.broker_answer },
                ..self
            },
            Lost::Durable => Counts {
                dropped: Dropped { lossy: d.lossy, durable: next_count(d.durable), broker_answer: d.broker_answer },
                ..self
            },
            Lost::BrokerAnswer => Counts {
                dropped: Dropped { lossy: d.lossy, durable: d.durable, broker_answer: next_count(d.broker_answer) },
                ..self
            },
            Lost::Boundary => Counts { lifecycle_disconnects: next_count(self.lifecycle_disconnects), ..self },
        }
    }

    /// The counts with one more record withheld.
    pub open spec fn filtered_one(self) -> Counts {
        Counts { filtered: next_count(self.filtered), ..self }
    }

    /// The counts with one more record replayed.
    pub open spec fn replayed_one(self) -> Counts {
        Counts { replayed: next_count(self.replayed), ..self }
    }

    /// The counts with one more record that had nowhere to go.
    pub open spec fn unaddressed_one(self) -> Counts {
        Counts { unaddressed: next_count(self.unaddressed), ..self }
    }

    /// Count what a push cost.
    fn count_lost(&mut self, lost: Lost)
        ensures
            *final(self) == old(self).lost(lost),
    {
        match lost {
            Lost::Nothing => {},
            Lost::Lossy => self.dropped.lossy = wrapping_inc(self.dropped.lossy),
            Lost::Durable => self.dropped.durable = wrapping_inc(self.dropped.durable),
            Lost::BrokerAnswer => self.dropped.broker_answer = wrapping_inc(self.dropped.broker_answer),
            Lost::Boundary => self.lifecycle_disconnects = wrapping_inc(self.lifecycle_disconnects),
        }
    }
}

/// One connection as the writer holds it, as a value.
pub struct Link<T> {
    /// The connection's id.
    pub id: ConnectionId,
    /// The `seq` the next record pushed here takes.
    pub next_seq: u64,
    /// What its token grants, once it has authenticated.
    pub caps: Option<Capabilities>,
    /// Whether records still reach it: neither detached nor closed.
    pub live: bool,
    /// Its queue.
    pub lanes: Lanes<T>,
}

impl<T> Link<T> {
    /// The connection after a record of `class` is numbered and pushed to
    /// it, and what the push cost.
    ///
    /// The number is taken before the push, so a record the queue turns
    /// away still moves `seq`. A `LIFECYCLE` record its ring has no room for
    /// closes the connection. So does a record when the numbers are spent,
    /// which a connection reaches only after 2^64 - 2 records.
    pub open spec fn take(self, class: Class, answer: bool, record: T) -> (Link<T>, Lost) {
        if self.next_seq == u64::MAX {
            (Link { live: false, ..self }, Lost::Boundary)
        } else {
            let lost = self.lanes.loses(class);
            (
                Link {
                    next_seq: (self.next_seq + 1) as u64,
                    live: self.live && lost != Lost::Boundary,
                    lanes: self.lanes.after(class, answer, Numbered { seq: self.next_seq, record }),
                    ..self
                },
                lost,
            )
        }
    }

    /// Whether a record fanned out with `need` reaches this connection: it
    /// is live and has authenticated under capabilities covering `need`.
    pub open spec fn receives(self, need: u32) -> bool {
        self.live && self.caps is Some && self.caps->0.has(need)
    }

    /// Whether a record fanned out with `need` is withheld from this
    /// connection: it is live and authenticated, under capabilities that do
    /// not cover `need`.
    pub open spec fn withholds(self, need: u32) -> bool {
        self.live && self.caps is Some && !self.caps->0.has(need)
    }
}

/// One connection as the writer holds it.
#[derive(Debug)]
pub struct Connection<T> {
    id: ConnectionId,
    drain: Drain<T>,
    next_seq: u64,
    caps: Option<Capabilities>,
    live: bool,
}

impl<T> Connection<T> {
    /// The connection as a value.
    pub closed spec fn view(&self) -> Link<T> {
        Link { id: self.id, next_seq: self.next_seq, caps: self.caps, live: self.live, lanes: self.drain.lanes() }
    }

    /// Its invariant: a sound queue, every record in it numbered below the
    /// next number, and numbers that start at one.
    pub closed spec fn wf(&self) -> bool {
        &&& self.drain.wf()
        &&& self.drain.below(self.next_seq)
        &&& self.next_seq >= 1
    }

    /// Number a record and push it into its class's ring, whether or not the
    /// ring keeps it.
    fn push(&mut self, class: Class, answer: bool, record: T) -> (lost: Lost)
        requires
            old(self).wf(),
        ensures
            final(self).wf(),
            (final(self).view(), lost) == old(self).view().take(class, answer, record),
    {
        if self.next_seq == u64::MAX {
            self.live = false;
            return Lost::Boundary;
        }
        let seq = self.next_seq;
        let lost = self.drain.push(class, answer, Numbered { seq, record });
        self.next_seq = seq + 1;
        if lost == Lost::Boundary {
            self.live = false;
        }
        proof {
            old(self).drain.lemma_lanes_sound();
            assert forall|c: Class, i: int| 0 <= i < self.drain.queue(c).len() implies #[trigger] self.drain.queue(
                c,
            )[i].seq < self.next_seq by {
                let o = old(self).drain.lanes().lane(c);
                assert(old(self).drain.queue(c) == o.queue());
                assert(self.drain.queue(c) == self.drain.lanes().lane(c).queue());
                assert forall|k: int| 0 <= k < o.queue().len() implies #[trigger] o.queue()[k].seq < self.next_seq by {
                    assert(old(self).drain.queue(c)[k].seq < seq);
                }
                if c == class {
                    o.lemma_after_below(class, Queued { answer, numbered: Numbered { seq, record } }, self.next_seq);
                }
            }
        }
        lost
    }
}

/// Whether cloning a `T` gives a value equal to the one cloned, as it does
/// for a plain value. For such a `T` the writer's contracts fix its whole
/// state; for every `T` they fix its shape, which leaves out only what each
/// record's clone holds.
pub open spec fn clones_equal<T: Clone>() -> bool {
    forall|a: T, b: T| #[trigger] cloned(a, b) ==> a == b
}

/// `order` with `slot` moved to the back: taken out where it was, if it was
/// there, and appended.
pub open spec fn moved_last(order: Seq<u32>, slot: u32) -> Seq<u32> {
    if order.contains(slot) {
        order.remove(order.index_of(slot)).push(slot)
    } else {
        order.push(slot)
    }
}

/// The retained set: the latest `LIFECYCLE` record per slot, with the
/// capability number it needs, and the occupied slots in emit order.
#[derive(Debug)]
pub struct Retained<T> {
    slots: Vec<Option<(u32, T)>>,
    order: Vec<u32>,
}

impl<T> Retained<T> {
    /// The set by slot.
    pub closed spec fn slots(&self) -> Seq<Option<(u32, T)>> {
        self.slots@
    }

    /// The occupied slots, oldest emit first.
    pub closed spec fn order(&self) -> Seq<u32> {
        self.order@
    }

    /// Its invariant: the order names each occupied slot once, and nothing
    /// else.
    pub closed spec fn wf(&self) -> bool {
        sound_retained(self.slots@, self.order@)
    }

    /// An empty set of `slots` entries.
    fn new(slots: usize) -> (set: Self)
        ensures
            set.wf(),
            set.slots() == Seq::new(slots as nat, |i: int| None::<(u32, T)>),
            set.order() == Seq::<u32>::empty(),
    {
        let mut v: Vec<Option<(u32, T)>> = Vec::new();
        let mut i: usize = 0;
        while i < slots
            invariant
                i <= slots,
                v@ == Seq::new(i as nat, |k: int| None::<(u32, T)>),
            decreases slots - i,
        {
            v.push(None);
            i = i + 1;
            proof {
                assert(v@ =~= Seq::new(i as nat, |k: int| None::<(u32, T)>));
            }
        }
        let set = Retained { slots: v, order: Vec::new() };
        proof {
            assert(sound_retained(set.slots@, set.order@));
        }
        set
    }

    /// Keep `record` as the latest of its slot, after every other slot in
    /// the order. A slot past the set is nothing the registry could have
    /// bound, so it is not kept.
    fn keep(&mut self, slot: u32, need: u32, record: T)
        requires
            old(self).wf(),
        ensures
            final(self).wf(),
            (final(self).slots(), final(self).order()) == kept(old(self).slots(), old(self).order(), slot, need, record),
    {
        let s = slot as usize;
        if s >= self.slots.len() {
            return;
        }
        if self.slots[s].is_some() {
            let mut i: usize = 0;
            while i < self.order.len() && self.order[i] != slot
                invariant
                    i <= self.order@.len(),
                    forall|k: int| 0 <= k < i ==> self.order@[k] != slot,
                decreases self.order@.len() - i,
            {
                i = i + 1;
            }
            proof {
                assert(self.order@.contains(slot));
                assert(i < self.order@.len());
                assert(self.order@.index_of(slot) == i);
            }
            self.order.remove(i);
        } else {
            proof {
                assert(!self.order@.contains(slot));
            }
        }
        self.slots.set(s, Some((need, record)));
        self.order.push(slot);
        proof {
            let o = old(self).order@;
            let n = self.order@;
            assert(n == moved_last(o, slot));
            assert forall|a: int, b: int| 0 <= a < n.len() && 0 <= b < n.len() && a != b implies n[a] != n[b] by {
                if o.contains(slot) {
                    let k = o.index_of(slot);
                    if a < n.len() - 1 && b < n.len() - 1 {
                        let a0 = if a < k { a } else { a + 1 };
                        let b0 = if b < k { b } else { b + 1 };
                        assert(n[a] == o[a0] && n[b] == o[b0]);
                    } else if a < n.len() - 1 {
                        let a0 = if a < k { a } else { a + 1 };
                        assert(n[a] == o[a0]);
                    } else {
                        let b0 = if b < k { b } else { b + 1 };
                        assert(n[b] == o[b0]);
                    }
                } else {
                    if a < n.len() - 1 && b < n.len() - 1 {
                        assert(n[a] == o[a] && n[b] == o[b]);
                    } else if a < n.len() - 1 {
                        assert(n[a] == o[a]);
                    } else {
                        assert(n[b] == o[b]);
                    }
                }
            }
            assert forall|k: int| 0 <= k < n.len() implies #[trigger] n[k] < self.slots@.len()
                && self.slots@[n[k] as int] is Some by {
                if k < n.len() - 1 {
                    if o.contains(slot) {
                        let x = o.index_of(slot);
                        let k0 = if k < x { k } else { k + 1 };
                        assert(n[k] == o[k0]);
                    } else {
                        assert(n[k] == o[k]);
                    }
                }
            }
            assert forall|i: int| 0 <= i < self.slots@.len() && #[trigger] self.slots@[i] is Some implies i
                <= u32::MAX && n.contains(i as u32) by {
                if i == s {
                    assert(n[n.len() - 1] == slot);
                } else {
                    assert(old(self).slots@[i] is Some);
                    let k = choose|k: int| 0 <= k < o.len() && o[k] == i as u32;
                    if o.contains(slot) {
                        let x = o.index_of(slot);
                        assert(k != x);
                        let k1 = if k < x { k } else { k - 1 };
                        assert(n[k1] == o[k]);
                    } else {
                        assert(n[k] == o[k]);
                    }
                }
            }
        }
    }
}

/// Whether `order` names each occupied slot of `slots` once, and nothing
/// else.
pub open spec fn sound_retained<T>(slots: Seq<Option<(u32, T)>>, order: Seq<u32>) -> bool {
    &&& order.no_duplicates()
    &&& forall|k: int| 0 <= k < order.len() ==> #[trigger] order[k] < slots.len() && slots[order[k] as int] is Some
    &&& forall|i: int| 0 <= i < slots.len() && #[trigger] slots[i] is Some ==> i <= u32::MAX && order.contains(i as u32)
}

/// The set after `record` is kept in `slot` with the capability number
/// `need`: the slot replaced and moved to the back of the order, or, for a
/// slot past the set, nothing.
pub open spec fn kept<T>(slots: Seq<Option<(u32, T)>>, order: Seq<u32>, slot: u32, need: u32, record: T) -> (
    Seq<Option<(u32, T)>>,
    Seq<u32>,
) {
    if slot >= slots.len() {
        (slots, order)
    } else {
        (slots.update(slot as int, Some((need, record))), moved_last(order, slot))
    }
}

/// Whether connection `i` of `links` is live and named `id`.
pub open spec fn live_at<T>(links: Seq<Link<T>>, id: ConnectionId, i: int) -> bool {
    0 <= i < links.len() && links[i].id == id && links[i].live
}

/// Whether a live connection is named `id`.
pub open spec fn reaches<T>(links: Seq<Link<T>>, id: ConnectionId) -> bool {
    exists|i: int| #[trigger] live_at(links, id, i)
}

/// Where the live connection named `id` is.
pub open spec fn live_index<T>(links: Seq<Link<T>>, id: ConnectionId) -> int {
    choose|i: int| #[trigger] live_at(links, id, i)
}

/// Whether some connection, live or not, is named `id`.
pub open spec fn holds<T>(links: Seq<Link<T>>, id: ConnectionId) -> bool {
    exists|i: int| 0 <= i < links.len() && #[trigger] links[i].id == id
}

/// Where the connection named `id` is.
pub open spec fn index_of<T>(links: Seq<Link<T>>, id: ConnectionId) -> int {
    choose|i: int| 0 <= i < links.len() && #[trigger] links[i].id == id
}

/// What the writer counts as a record fanned out with `need` is walked over
/// `links`, first to last: each receiver's push, and each withholding.
pub open spec fn spread_counts<T>(links: Seq<Link<T>>, need: u32, class: Class, record: T, c: Counts) -> Counts
    decreases links.len(),
{
    if links.len() == 0 {
        c
    } else {
        let before = spread_counts(links.drop_last(), need, class, record, c);
        let l = links.last();
        if l.receives(need) {
            before.lost(l.take(class, false, record).1)
        } else if l.withholds(need) {
            before.filtered_one()
        } else {
            before
        }
    }
}

/// A connection after a record fanned out with `need` has passed it.
pub open spec fn spread_link<T>(l: Link<T>, need: u32, class: Class, record: T) -> Link<T> {
    if l.receives(need) {
        l.take(class, false, record).0
    } else {
        l
    }
}

/// The connection and the counts after the retained `entries` are replayed
/// to it in order, under `caps`: a record `caps` do not cover is withheld
/// and counted, every other is pushed as `LIFECYCLE` and counted replayed,
/// and the replay stops at a connection that is no longer live.
pub open spec fn replay<T>(l: Link<T>, c: Counts, entries: Seq<(u32, T)>, caps: Capabilities) -> (Link<T>, Counts)
    decreases entries.len(),
{
    if entries.len() == 0 || !l.live {
        (l, c)
    } else {
        let (need, record) = entries[0];
        if !caps.has(need) {
            replay(l, c.filtered_one(), entries.drop_first(), caps)
        } else {
            let (next, lost) = l.take(Class::Lifecycle, false, record);
            replay(next, c.lost(lost).replayed_one(), entries.drop_first(), caps)
        }
    }
}

/// Everything the writer holds, as a value.
pub struct State<T> {
    /// The connections, in the order they attached.
    pub links: Seq<Link<T>>,
    /// What it has counted.
    pub counts: Counts,
    /// The retained set by slot.
    pub slots: Seq<Option<(u32, T)>>,
    /// The retained set's occupied slots, oldest emit first.
    pub order: Seq<u32>,
    /// The last connection id handed out.
    pub last_id: u64,
}

impl<T> State<T> {
    /// The retained records in emit order, each with the capability number
    /// it needs.
    pub open spec fn entries(self) -> Seq<(u32, T)> {
        self.order.map_values(|s: u32| self.slots[s as int]->0)
    }

    /// The state after a connection with queues of `capacities` attaches,
    /// with `first`, if any, pushed to it as its first record, a broker
    /// answer.
    pub open spec fn attached(self, capacities: Capacities, first: Option<T>) -> State<T> {
        let fresh = Link {
            id: ConnectionId((self.last_id + 1) as u64),
            next_seq: 1,
            caps: None,
            live: true,
            lanes: Lanes::empty(capacities),
        };
        match first {
            None => State { links: self.links.push(fresh), last_id: (self.last_id + 1) as u64, ..self },
            Some(r) => {
                let (l, lost) = fresh.take(Class::Durable, true, r);
                State {
                    links: self.links.push(l),
                    counts: self.counts.lost(lost),
                    last_id: (self.last_id + 1) as u64,
                    ..self
                }
            },
        }
    }

    /// The state after the connection `id` detaches: nothing further
    /// reaches it.
    pub open spec fn detached(self, id: ConnectionId) -> State<T> {
        State {
            links: self.links.map_values(
                |l: Link<T>|
                    if l.id == id {
                        Link { live: false, ..l }
                    } else {
                        l
                    },
            ),
            ..self
        }
    }

    /// The state after `record` is pushed to the live connection `id` alone
    /// as a record of `class`, or, with no such connection, counted as
    /// having nowhere to go.
    pub open spec fn addressed(self, id: ConnectionId, class: Class, answer: bool, record: T) -> State<T> {
        if reaches(self.links, id) {
            let i = live_index(self.links, id);
            let (l, lost) = self.links[i].take(class, answer, record);
            State { links: self.links.update(i, l), counts: self.counts.lost(lost), ..self }
        } else {
            State { counts: self.counts.unaddressed_one(), ..self }
        }
    }

    /// The state after `record` is fanned out with `need` as a record of
    /// `class`: pushed to every connection that receives it, withheld and
    /// counted from every authenticated one whose capabilities do not cover
    /// it, and passed over by the rest.
    pub open spec fn spread(self, need: u32, class: Class, record: T) -> State<T> {
        State {
            links: self.links.map_values(|l: Link<T>| spread_link(l, need, class, record)),
            counts: spread_counts(self.links, need, class, record, self.counts),
            ..self
        }
    }

    /// The state after the live connection `id` authenticates under `caps`:
    /// the capabilities recorded and the retained set replayed to it.
    pub open spec fn authenticated(self, id: ConnectionId, caps: Capabilities) -> State<T> {
        if reaches(self.links, id) {
            let i = live_index(self.links, id);
            let (l, c) = replay(Link { caps: Some(caps), ..self.links[i] }, self.counts, self.entries(), caps);
            State { links: self.links.update(i, l), counts: c, ..self }
        } else {
            self
        }
    }

    /// The state after a committed record is taken: kept in the retained
    /// set when it carries a slot, then pushed where it is addressed.
    pub open spec fn fanned(self, a: Addressed<T>) -> State<T> {
        let k = match a.slot {
            Some(slot) => {
                let (slots, order) = kept(self.slots, self.order, slot, a.need, a.record);
                State { slots, order, ..self }
            },
            None => self,
        };
        match a.to {
            Some(id) => k.addressed(id, a.class, false, a.record),
            None => k.spread(a.need, a.class, a.record),
        }
    }

    /// The state after each of `records` is taken in turn.
    pub open spec fn fanned_all(self, records: Seq<Addressed<T>>) -> State<T>
        decreases records.len(),
    {
        if records.len() == 0 {
            self
        } else {
            self.fanned(records[0]).fanned_all(records.drop_first())
        }
    }

    /// Ids rise in attach order and none is past the last handed out.
    pub open spec fn sound(self) -> bool {
        &&& forall|i: int, j: int|
            #![trigger self.links[i], self.links[j]]
            0 <= i < j < self.links.len() ==> self.links[i].id.0 < self.links[j].id.0
        &&& forall|i: int| 0 <= i < self.links.len() ==> #[trigger] self.links[i].id.0 <= self.last_id
    }

    /// The state after the connection `id` is forgotten, queue and all.
    pub open spec fn released(self, id: ConnectionId) -> State<T> {
        if holds(self.links, id) {
            State { links: self.links.remove(index_of(self.links, id)), ..self }
        } else {
            self
        }
    }
}

/// A retained entry with its record left out: the capability number it
/// needs.
pub open spec fn slot_shape<T>(s: Option<(u32, T)>) -> Option<(u32, ())> {
    match s {
        Some(e) => Some((e.0, ())),
        None => None,
    }
}

impl<T> Link<T> {
    /// The connection with every record's payload left out: its id, its
    /// next number, its capabilities, whether it is live, and what its
    /// queue holds by number and class.
    pub open spec fn shape(self) -> Link<()> {
        Link { id: self.id, next_seq: self.next_seq, caps: self.caps, live: self.live, lanes: self.lanes.shape() }
    }
}

impl<T> State<T> {
    /// Everything the writer holds with every record's payload left out.
    /// What the writer does to this depends on no record's payload, so it
    /// holds whatever cloning a record gives.
    pub open spec fn shape(self) -> State<()> {
        State {
            links: self.links.map_values(|l: Link<T>| l.shape()),
            counts: self.counts,
            slots: self.slots.map_values(|s: Option<(u32, T)>| slot_shape(s)),
            order: self.order,
            last_id: self.last_id,
        }
    }
}

/// Two states of one shape have links of one shape, place by place.
proof fn lemma_links_alike<T>(s1: State<T>, s2: State<T>)
    requires
        s1.shape() == s2.shape(),
    ensures
        s1.links.len() == s2.links.len(),
        forall|i: int| 0 <= i < s1.links.len() ==> #[trigger] s1.links[i].shape() == s2.links[i].shape(),
        s1.counts == s2.counts,
        s1.order == s2.order,
        s1.last_id == s2.last_id,
        s1.slots.len() == s2.slots.len(),
        forall|i: int| 0 <= i < s1.slots.len() ==> #[trigger] slot_shape(s1.slots[i]) == slot_shape(s2.slots[i]),
{
    assert(s1.shape().links.len() == s1.links.len());
    assert(s2.shape().links.len() == s2.links.len());
    assert(s1.links.len() == s2.links.len());
    assert forall|i: int| 0 <= i < s1.links.len() implies #[trigger] s1.links[i].shape() == s2.links[i].shape() by {
        assert(s1.shape().links[i] == s1.links[i].shape());
        assert(s2.shape().links[i] == s2.links[i].shape());
        assert(s1.shape().links[i] == s2.shape().links[i]);
    }
    assert(s1.shape().slots.len() == s1.slots.len());
    assert(s2.shape().slots.len() == s2.slots.len());
    assert forall|i: int| 0 <= i < s1.slots.len() implies #[trigger] slot_shape(s1.slots[i]) == slot_shape(s2.slots[i]) by {
        assert(s1.shape().slots[i] == s2.shape().slots[i]);
    }
}

/// States alike field by field, and link by link in shape, are of one
/// shape.
proof fn lemma_alike_links<T>(s1: State<T>, s2: State<T>)
    requires
        s1.links.len() == s2.links.len(),
        forall|i: int| 0 <= i < s1.links.len() ==> #[trigger] s1.links[i].shape() == s2.links[i].shape(),
        s1.counts == s2.counts,
        s1.order == s2.order,
        s1.last_id == s2.last_id,
        s1.slots.len() == s2.slots.len(),
        forall|i: int| 0 <= i < s1.slots.len() ==> #[trigger] slot_shape(s1.slots[i]) == slot_shape(s2.slots[i]),
    ensures
        s1.shape() == s2.shape(),
{
    assert(s1.shape().links =~= s2.shape().links);
    assert(s1.shape().slots =~= s2.shape().slots);
}

/// Two connections of one shape, each pushed a record, cost the same and
/// stay of one shape.
proof fn lemma_take_shape<T>(l1: Link<T>, l2: Link<T>, class: Class, answer: bool, r1: T, r2: T)
    requires
        l1.shape() == l2.shape(),
    ensures
        l1.take(class, answer, r1).0.shape() == l2.take(class, answer, r2).0.shape(),
        l1.take(class, answer, r1).1 == l2.take(class, answer, r2).1,
{
    l1.lanes.lemma_after_shape(
        l2.lanes,
        class,
        answer,
        Numbered { seq: l1.next_seq, record: r1 },
        Numbered { seq: l2.next_seq, record: r2 },
    );
}

/// What a fan-out counts over links of one shape is the same.
proof fn lemma_spread_counts_shape<T>(
    a: Seq<Link<T>>,
    b: Seq<Link<T>>,
    need: u32,
    class: Class,
    r1: T,
    r2: T,
    c: Counts,
)
    requires
        a.len() == b.len(),
        forall|i: int| 0 <= i < a.len() ==> #[trigger] a[i].shape() == b[i].shape(),
    ensures
        spread_counts(a, need, class, r1, c) == spread_counts(b, need, class, r2, c),
    decreases a.len(),
{
    if a.len() > 0 {
        let n = a.len() - 1;
        assert forall|i: int| 0 <= i < a.drop_last().len() implies #[trigger] a.drop_last()[i].shape()
            == b.drop_last()[i].shape() by {
            assert(a[i].shape() == b[i].shape());
        }
        lemma_spread_counts_shape(a.drop_last(), b.drop_last(), need, class, r1, r2, c);
        assert(a[n].shape() == b[n].shape());
        lemma_take_shape(a.last(), b.last(), class, false, r1, r2);
    }
}

/// A record fanned out over states of one shape leaves them of one shape.
proof fn lemma_spread_shape<T>(s1: State<T>, s2: State<T>, need: u32, class: Class, r1: T, r2: T)
    requires
        s1.shape() == s2.shape(),
    ensures
        s1.spread(need, class, r1).shape() == s2.spread(need, class, r2).shape(),
{
    lemma_links_alike(s1, s2);
    lemma_spread_counts_shape(s1.links, s2.links, need, class, r1, r2, s1.counts);
    let t1 = s1.spread(need, class, r1);
    let t2 = s2.spread(need, class, r2);
    assert forall|i: int| 0 <= i < t1.links.len() implies #[trigger] t1.links[i].shape() == t2.links[i].shape() by {
        assert(s1.links[i].shape() == s2.links[i].shape());
        lemma_take_shape(s1.links[i], s2.links[i], class, false, r1, r2);
    }
    lemma_alike_links(t1, t2);
}

/// A record addressed over sound states of one shape leaves them of one
/// shape.
proof fn lemma_addressed_shape<T>(
    s1: State<T>,
    s2: State<T>,
    id: ConnectionId,
    class: Class,
    answer: bool,
    r1: T,
    r2: T,
)
    requires
        s1.shape() == s2.shape(),
        s1.sound(),
    ensures
        s1.addressed(id, class, answer, r1).shape() == s2.addressed(id, class, answer, r2).shape(),
{
    lemma_links_alike(s1, s2);
    assert forall|i: int| #[trigger] live_at(s1.links, id, i) == live_at(s2.links, id, i) by {
        if 0 <= i < s1.links.len() {
            assert(s1.links[i].shape() == s2.links[i].shape());
        }
    }
    let t1 = s1.addressed(id, class, answer, r1);
    let t2 = s2.addressed(id, class, answer, r2);
    if reaches(s1.links, id) {
        let w = choose|i: int| #[trigger] live_at(s1.links, id, i);
        assert(live_at(s2.links, id, w));
        let i1 = live_index(s1.links, id);
        let i2 = live_index(s2.links, id);
        assert(live_at(s1.links, id, i1));
        assert(live_at(s1.links, id, i2));
        if i1 < i2 {
            assert(s1.links[i1].id.0 < s1.links[i2].id.0);
        } else if i2 < i1 {
            assert(s1.links[i2].id.0 < s1.links[i1].id.0);
        }
        assert(s1.links[i1].shape() == s2.links[i1].shape());
        lemma_take_shape(s1.links[i1], s2.links[i1], class, answer, r1, r2);
        assert forall|i: int| 0 <= i < t1.links.len() implies #[trigger] t1.links[i].shape() == t2.links[i].shape() by {
            assert(s1.links[i].shape() == s2.links[i].shape());
        }
        lemma_alike_links(t1, t2);
    } else {
        assert(!reaches(s2.links, id)) by {
            if reaches(s2.links, id) {
                let w = choose|i: int| #[trigger] live_at(s2.links, id, i);
                assert(live_at(s1.links, id, w));
            }
        }
        lemma_alike_links(t1, t2);
    }
}

/// Keeping a record in the retained set, over sets of one shape, leaves
/// them of one shape.
proof fn lemma_kept_shape<T>(
    slots1: Seq<Option<(u32, T)>>,
    slots2: Seq<Option<(u32, T)>>,
    order: Seq<u32>,
    slot: u32,
    need: u32,
    r1: T,
    r2: T,
)
    requires
        slots1.len() == slots2.len(),
        forall|i: int| 0 <= i < slots1.len() ==> #[trigger] slot_shape(slots1[i]) == slot_shape(slots2[i]),
    ensures
        kept(slots1, order, slot, need, r1).0.len() == kept(slots2, order, slot, need, r2).0.len(),
        forall|i: int|
            0 <= i < kept(slots1, order, slot, need, r1).0.len() ==> #[trigger] slot_shape(
                kept(slots1, order, slot, need, r1).0[i],
            ) == slot_shape(kept(slots2, order, slot, need, r2).0[i]),
        kept(slots1, order, slot, need, r1).1 == kept(slots2, order, slot, need, r2).1,
{
}

/// A committed record taken over sound states of one shape leaves them of
/// one shape, and sound.
proof fn lemma_fanned_shape<T>(s1: State<T>, s2: State<T>, a: Addressed<T>)
    requires
        s1.shape() == s2.shape(),
        s1.sound(),
    ensures
        s1.fanned(a).shape() == s2.fanned(a).shape(),
        s1.fanned(a).sound(),
{
    lemma_links_alike(s1, s2);
    let k1 = match a.slot {
        Some(slot) => {
            let (slots, order) = kept(s1.slots, s1.order, slot, a.need, a.record);
            State { slots, order, ..s1 }
        },
        None => s1,
    };
    let k2 = match a.slot {
        Some(slot) => {
            let (slots, order) = kept(s2.slots, s2.order, slot, a.need, a.record);
            State { slots, order, ..s2 }
        },
        None => s2,
    };
    match a.slot {
        Some(slot) => lemma_kept_shape(s1.slots, s2.slots, s1.order, slot, a.need, a.record, a.record),
        None => {},
    }
    lemma_alike_links(k1, k2);
    assert(k1.sound());
    let f = s1.fanned(a);
    match a.to {
        Some(id) => {
            lemma_addressed_shape(k1, k2, id, a.class, false, a.record, a.record);
            if reaches(k1.links, id) {
                let i = live_index(k1.links, id);
                assert(f.links =~= k1.links.update(i, k1.links[i].take(a.class, false, a.record).0));
            }
        },
        None => lemma_spread_shape(k1, k2, a.need, a.class, a.record, a.record),
    }
    assert(f.links.len() == s1.links.len());
    assert forall|j: int| 0 <= j < f.links.len() implies #[trigger] f.links[j].id == s1.links[j].id by {}
    assert forall|i: int, j: int|
        #![trigger f.links[i], f.links[j]]
        0 <= i < j < f.links.len() implies f.links[i].id.0 < f.links[j].id.0 by {
        assert(f.links[i].id == s1.links[i].id);
        assert(f.links[j].id == s1.links[j].id);
    }
    assert forall|i: int| 0 <= i < f.links.len() implies #[trigger] f.links[i].id.0 <= f.last_id by {
        assert(f.links[i].id == s1.links[i].id);
    }
}

/// A run of committed records taken over sound states of one shape leaves
/// them of one shape.
proof fn lemma_fanned_all_shape<T>(s1: State<T>, s2: State<T>, rs: Seq<Addressed<T>>)
    requires
        s1.shape() == s2.shape(),
        s1.sound(),
    ensures
        s1.fanned_all(rs).shape() == s2.fanned_all(rs).shape(),
    decreases rs.len(),
{
    if rs.len() > 0 {
        lemma_fanned_shape(s1, s2, rs[0]);
        lemma_fanned_all_shape(s1.fanned(rs[0]), s2.fanned(rs[0]), rs.drop_first());
    }
}

/// The retained set replayed to connections of one shape leaves them of
/// one shape, and counts the same.
proof fn lemma_replay_shape<T>(l1: Link<T>, l2: Link<T>, c: Counts, entries: Seq<(u32, T)>, caps: Capabilities)
    requires
        l1.shape() == l2.shape(),
    ensures
        replay(l1, c, entries, caps).0.shape() == replay(l2, c, entries, caps).0.shape(),
        replay(l1, c, entries, caps).1 == replay(l2, c, entries, caps).1,
    decreases entries.len(),
{
    if entries.len() > 0 && l1.live {
        let (need, record) = entries[0];
        if !caps.has(need) {
            lemma_replay_shape(l1, l2, c.filtered_one(), entries.drop_first(), caps);
        } else {
            lemma_take_shape(l1, l2, Class::Lifecycle, false, record, record);
            let (n1, lost) = l1.take(Class::Lifecycle, false, record);
            let n2 = l2.take(Class::Lifecycle, false, record).0;
            lemma_replay_shape(n1, n2, c.lost(lost).replayed_one(), entries.drop_first(), caps);
        }
    }
}

/// How many committed records the writer takes in one pass before it looks
/// at its other work again: a frame's burst is one pass, and a connection
/// attaching under a flood waits one pass, never the flood.
pub const RECORDS_PER_PASS: usize = 256;

/// The writer: every connection's queue, the retained set, the last id it
/// handed out, and what it counts.
#[derive(Debug)]
pub struct Writer<T> {
    connections: Vec<Connection<T>>,
    retained: Retained<T>,
    last_id: u64,
    counts: Counts,
}

impl<T: Clone> Writer<T> {
    /// Everything the writer holds, as a value.
    pub closed spec fn view(&self) -> State<T> {
        State {
            links: self.connections@.map_values(|c: Connection<T>| c.view()),
            counts: self.counts,
            slots: self.retained.slots(),
            order: self.retained.order(),
            last_id: self.last_id,
        }
    }

    /// The writer's invariant: every connection sound, ids rising in attach
    /// order and none past the last handed out, and a sound retained set.
    pub closed spec fn wf(&self) -> bool {
        &&& forall|i: int| 0 <= i < self.connections@.len() ==> #[trigger] self.connections@[i].wf()
        &&& forall|i: int, j: int|
            #![trigger self.connections@[i], self.connections@[j]]
            0 <= i < j < self.connections@.len() ==> self.connections@[i].id.0 < self.connections@[j].id.0
        &&& forall|i: int| 0 <= i < self.connections@.len() ==> #[trigger] self.connections@[i].id.0 <= self.last_id
        &&& self.retained.wf()
    }

    /// A writer with no connection and a retained set of `slots` entries,
    /// which is `max_lifecycle_topics` as the bridge froze it.
    pub fn new(slots: usize) -> (w: Self)
        ensures
            w.wf(),
            w.view() == (State::<T> {
                links: Seq::empty(),
                counts: Counts::zero(),
                slots: Seq::new(slots as nat, |i: int| None::<(u32, T)>),
                order: Seq::empty(),
                last_id: 0,
            }),
    {
        let w = Writer {
            connections: Vec::new(),
            retained: Retained::new(slots),
            last_id: 0,
            counts: Counts {
                unaddressed: 0,
                filtered: 0,
                lifecycle_disconnects: 0,
                replayed: 0,
                dropped: Dropped { lossy: 0, durable: 0, broker_answer: 0 },
            },
        };
        proof {
            assert(w.view().links =~= Seq::<Link<T>>::empty());
        }
        w
    }

    /// The last connection id handed out.
    pub fn last_id(&self) -> (n: u64)
        ensures
            n == self.view().last_id,
    {
        self.last_id
    }

    /// Two connections of a sound writer with one id are one.
    proof fn lemma_one_id(&self, i: int, j: int)
        requires
            self.wf(),
            0 <= i < self.connections@.len(),
            0 <= j < self.connections@.len(),
            self.connections@[i].id == self.connections@[j].id,
        ensures
            i == j,
    {
        if i < j {
            assert(self.connections@[i].id.0 < self.connections@[j].id.0);
        } else if j < i {
            assert(self.connections@[j].id.0 < self.connections@[i].id.0);
        }
    }

    /// Where the connection named `id` is, live or, unless `live_only`, not.
    fn find(&self, id: ConnectionId, live_only: bool) -> (found: Option<usize>)
        requires
            self.wf(),
        ensures
            match found {
                Some(i) => {
                    &&& i < self.connections@.len()
                    &&& self.connections@[i as int].id == id
                    &&& live_only ==> self.connections@[i as int].live
                    &&& live_only ==> live_index(self.view().links, id) == i
                    &&& live_only ==> reaches(self.view().links, id)
                    &&& holds(self.view().links, id)
                    &&& index_of(self.view().links, id) == i
                },
                None => {
                    &&& live_only ==> !reaches(self.view().links, id)
                    &&& !live_only ==> !holds(self.view().links, id)
                },
            },
    {
        let mut i: usize = 0;
        while i < self.connections.len()
            invariant
                self.wf(),
                i <= self.connections@.len(),
                forall|k: int| 0 <= k < i ==> !(#[trigger] self.connections@[k].id == id && (live_only
                    ==> self.connections@[k].live)),
            decreases self.connections@.len() - i,
        {
            if self.connections[i].id == id && (!live_only || self.connections[i].live) {
                proof {
                    let links = self.view().links;
                    assert(links[i as int] == self.connections@[i as int].view());
                    assert(links[i as int].id == id);
                    if live_only {
                        assert(live_at(links, id, i as int));
                        let j = live_index(links, id);
                        assert(links[j] == self.connections@[j].view());
                        self.lemma_one_id(i as int, j);
                    }
                    assert(0 <= i < links.len() && links[i as int].id == id);
                    let j = index_of(links, id);
                    assert(links[j] == self.connections@[j].view());
                    self.lemma_one_id(i as int, j);
                }
                return Some(i);
            }
            i = i + 1;
        }
        proof {
            let links = self.view().links;
            if live_only {
                assert forall|j: int| !(#[trigger] live_at(links, id, j)) by {
                    if 0 <= j < links.len() {
                        assert(links[j] == self.connections@[j].view());
                    }
                }
            } else {
                assert forall|j: int| !(0 <= j < links.len() && #[trigger] links[j].id == id) by {
                    if 0 <= j < links.len() {
                        assert(links[j] == self.connections@[j].view());
                    }
                }
            }
        }
        None
    }

    /// Number `record` and push it to connection `i`, and count what the
    /// push cost.
    fn push_at(&mut self, i: usize, class: Class, answer: bool, record: T)
        requires
            old(self).wf(),
            i < old(self).connections@.len(),
        ensures
            final(self).wf(),
            final(self).connections@.len() == old(self).connections@.len(),
            ({
                let (l, lost) = old(self).view().links[i as int].take(class, answer, record);
                final(self).view() == State {
                    links: old(self).view().links.update(i as int, l),
                    counts: old(self).view().counts.lost(lost),
                    ..old(self).view()
                }
            }),
    {
        let lost = self.connections[i].push(class, answer, record);
        self.counts.count_lost(lost);
        proof {
            let o = old(self).view();
            assert(o.links[i as int] == old(self).connections@[i as int].view());
            assert(self.connections@[i as int].id == old(self).connections@[i as int].id);
            assert forall|k: int| 0 <= k < self.connections@.len() && k != i implies #[trigger] self.connections@[k]
                == old(self).connections@[k] by {}
            assert(self.view().links =~= o.links.update(i as int, o.links[i as int].take(class, answer, record).0));
        }
    }

    /// Add a connection with a ring per class, sized by `capacities`, and
    /// hand back its id: one past the last handed out, so never one a
    /// connection had before. `first`, when given, is the connection's first
    /// record, numbered 1: the handshake rides here, so nothing fanned out
    /// can be numbered ahead of it.
    pub fn attach(&mut self, capacities: Capacities, first: Option<T>) -> (id: ConnectionId)
        requires
            old(self).wf(),
            capacities.usable(),
            old(self).view().last_id < u64::MAX,
        ensures
            final(self).wf(),
            id.0 == old(self).view().last_id + 1,
            final(self).view() == old(self).view().attached(capacities, first),
    {
        let id = ConnectionId(self.last_id + 1);
        let mut c = Connection { id, drain: outbound(capacities), next_seq: 1, caps: None, live: true };
        proof {
            assert forall|k: Class, i: int| 0 <= i < c.drain.queue(k).len() implies #[trigger] c.drain.queue(k)[i].seq
                < 1 by {
                assert(c.drain.queue(k) == c.drain.lanes().lane(k).queue());
            }
            assert(c.view() == Link {
                id,
                next_seq: 1,
                caps: None,
                live: true,
                lanes: Lanes::<T>::empty(capacities),
            });
        }
        match first {
            Some(r) => {
                let lost = c.push(Class::Durable, true, r);
                self.counts.count_lost(lost);
            },
            None => {},
        }
        self.last_id = id.0;
        self.connections.push(c);
        proof {
            let o = old(self).view();
            assert(self.view().links =~= o.links.push(c.view()));
            let n = self.connections@.len() - 1;
            assert(self.connections@[n] == c);
            assert forall|k: int| 0 <= k < n implies #[trigger] self.connections@[k] == old(self).connections@[k] by {}
        }
        id
    }

    /// Stop pushing to the connection `id`. What its queue holds stays for
    /// its consumer; nothing further arrives.
    pub fn detach(&mut self, id: ConnectionId)
        requires
            old(self).wf(),
        ensures
            final(self).wf(),
            final(self).view() == old(self).view().detached(id),
    {
        match self.find(id, false) {
            Some(i) => {
                self.connections[i].live = false;
                proof {
                    let o = old(self).view();
                    assert forall|k: int| 0 <= k < self.connections@.len() implies #[trigger] self.connections@[k].id
                        == old(self).connections@[k].id && self.connections@[k].wf() by {
                        if k != i {
                            assert(self.connections@[k] == old(self).connections@[k]);
                        } else {
                            assert(old(self).connections@[k].wf());
                        }
                    }
                    assert forall|a: int, b: int|
                        #![trigger self.connections@[a], self.connections@[b]]
                        0 <= a < b < self.connections@.len() implies self.connections@[a].id.0
                        < self.connections@[b].id.0 by {
                        assert(old(self).connections@[a].id.0 < old(self).connections@[b].id.0);
                    }
                    assert forall|k: int| 0 <= k < o.links.len() implies #[trigger] self.view().links[k] == (
                    if o.links[k].id == id {
                        Link { live: false, ..o.links[k] }
                    } else {
                        o.links[k]
                    }) by {
                        assert(o.links[k] == old(self).connections@[k].view());
                        if k != i {
                            assert(self.connections@[k] == old(self).connections@[k]);
                            if o.links[k].id == id {
                                old(self).lemma_one_id(k, i as int);
                            }
                        }
                    }
                    assert(self.view().links =~= o.links.map_values(
                        |l: Link<T>|
                            if l.id == id {
                                Link { live: false, ..l }
                            } else {
                                l
                            },
                    ));
                    assert forall|k: int| 0 <= k < self.connections@.len() && k != i implies #[trigger] self.connections@[k]
                        == old(self).connections@[k] by {}
                }
            },
            None => {
                proof {
                    let o = old(self).view();
                    assert(o.links =~= o.links.map_values(
                        |l: Link<T>|
                            if l.id == id {
                                Link { live: false, ..l }
                            } else {
                                l
                            },
                    ));
                }
            },
        }
    }

    /// Answer the connection `id`: push `record` to it alone, as a broker
    /// answer, numbered in its `seq` in order with everything else it
    /// receives, whether or not it has authenticated. A record whose
    /// connection is gone is counted as having nowhere to go.
    pub fn answer(&mut self, id: ConnectionId, record: T)
        requires
            old(self).wf(),
        ensures
            final(self).wf(),
            final(self).view() == old(self).view().addressed(id, Class::Durable, true, record),
    {
        match self.find(id, true) {
            Some(i) => self.push_at(i, Class::Durable, true, record),
            None => self.counts.unaddressed = wrapping_inc(self.counts.unaddressed),
        }
    }

    /// Push `record` to every connection that receives it under `need`,
    /// each a clone, and count each connection withheld from.
    fn spread(&mut self, need: u32, class: Class, record: T)
        requires
            old(self).wf(),
        ensures
            final(self).wf(),
            final(self).view().shape() == old(self).view().spread(need, class, record).shape(),
            clones_equal::<T>() ==> final(self).view() == old(self).view().spread(need, class, record),
    {
        let ghost o = self.view();
        let n = self.connections.len();
        let mut j: usize = 0;
        while j < n
            invariant
                self.wf(),
                n == self.connections@.len(),
                n == o.links.len(),
                j <= n,
                self.view().slots == o.slots,
                self.view().order == o.order,
                self.view().last_id == o.last_id,
                forall|k: int| j <= k < n ==> #[trigger] self.view().links[k] == o.links[k],
                clones_equal::<T>() ==> forall|k: int|
                    0 <= k < j ==> #[trigger] self.view().links[k] == spread_link(o.links[k], need, class, record),
                forall|k: int|
                    0 <= k < j ==> #[trigger] self.view().links[k].shape() == spread_link(o.links[k], need, class, record).shape(),
                self.view().counts == spread_counts(o.links.take(j as int), need, class, record, o.counts),
            decreases n - j,
        {
            let ghost before = self.view();
            proof {
                assert(o.links.take(j + 1).drop_last() =~= o.links.take(j as int));
                assert(o.links.take(j + 1).last() == o.links[j as int]);
                assert(before.links[j as int] == self.connections@[j as int].view());
            }
            if self.connections[j].live && self.connections[j].caps.is_some() {
                let caps = self.connections[j].caps.unwrap();
                if caps.covers(need) {
                    let r = record.clone();
                    self.push_at(j, class, false, r);
                    proof {
                        lemma_take_shape(o.links[j as int], o.links[j as int], class, false, r, record);
                        if clones_equal::<T>() {
                            assert(cloned(record, r));
                            assert(r == record);
                        }
                    }
                } else {
                    self.counts.filtered = wrapping_inc(self.counts.filtered);
                    proof {
                        assert(self.view().links =~= before.links);
                    }
                }
            }
            j = j + 1;
        }
        proof {
            assert(o.links.take(n as int) =~= o.links);
            let t = o.spread(need, class, record);
            assert forall|k: int| 0 <= k < n implies #[trigger] self.view().links[k].shape() == t.links[k].shape() by {
                assert(t.links[k] == spread_link(o.links[k], need, class, record));
            }
            lemma_alike_links(self.view(), t);
            if clones_equal::<T>() {
                assert(self.view().links =~= o.links.map_values(|l: Link<T>| spread_link(l, need, class, record)));
            }
        }
    }

    /// Record that the connection `id` has authenticated under `caps`, and
    /// replay the retained set to it, in emit order, through the same filter
    /// fan-out applies. Records fanned out after this reach it when `caps`
    /// cover them.
    pub fn authenticated(&mut self, id: ConnectionId, caps: Capabilities)
        requires
            old(self).wf(),
        ensures
            final(self).wf(),
            final(self).view().shape() == old(self).view().authenticated(id, caps).shape(),
            clones_equal::<T>() ==> final(self).view() == old(self).view().authenticated(id, caps),
    {
        let found = self.find(id, true);
        let i = match found {
            Some(i) => i,
            None => return ,
        };
        let ghost o = self.view();
        let ghost entries = o.entries();
        let ghost start = Link { caps: Some(caps), ..o.links[i as int] };
        let ghost target = replay(start, o.counts, entries, caps);
        self.connections[i].caps = Some(caps);
        proof {
            assert(self.connections@[i as int].view() == start);
            assert(entries.subrange(0, entries.len() as int) =~= entries);
            assert forall|k: int| 0 <= k < self.connections@.len() implies #[trigger] self.connections@[k].id
                == old(self).connections@[k].id && self.connections@[k].wf() by {
                if k != i {
                    assert(self.connections@[k] == old(self).connections@[k]);
                } else {
                    assert(old(self).connections@[k].wf());
                }
            }
            assert forall|a: int, b: int|
                #![trigger self.connections@[a], self.connections@[b]]
                0 <= a < b < self.connections@.len() implies self.connections@[a].id.0
                < self.connections@[b].id.0 by {
                assert(old(self).connections@[a].id.0 < old(self).connections@[b].id.0);
            }
        }
        let n = self.retained.order.len();
        let mut k: usize = 0;
        while k < n && self.connections[i].live
            invariant
                self.wf(),
                i < self.connections@.len(),
                self.connections@.len() == o.links.len(),
                n == o.order.len(),
                k <= n,
                entries == o.entries(),
                entries.len() == n,
                self.view().slots == o.slots,
                self.view().order == o.order,
                self.view().last_id == o.last_id,
                forall|x: int| 0 <= x < o.links.len() && x != i ==> #[trigger] self.view().links[x] == o.links[x],
                clones_equal::<T>() ==> replay(
                    self.view().links[i as int],
                    self.view().counts,
                    entries.subrange(k as int, n as int),
                    caps,
                ) == target,
                replay(self.view().links[i as int], self.view().counts, entries.subrange(k as int, n as int), caps).0.shape()
                    == target.0.shape(),
                replay(self.view().links[i as int], self.view().counts, entries.subrange(k as int, n as int), caps).1
                    == target.1,
            decreases n - k,
        {
            let ghost before = self.view();
            let slot = self.retained.order[k];
            proof {
                assert(sound_retained(self.retained.slots@, self.retained.order@));
                assert(self.retained.order@[k as int] < self.retained.slots@.len());
                assert(entries.subrange(k as int, n as int)[0] == entries[k as int]);
                assert(entries.subrange(k as int, n as int).drop_first() =~= entries.subrange(k + 1, n as int));
                assert(before.links[i as int] == self.connections@[i as int].view());
            }
            let ghost rest = entries.subrange(k as int, n as int);
            let ghost next = entries.subrange(k + 1, n as int);
            match &self.retained.slots[slot as usize] {
                Some(entry) => {
                    proof {
                        assert(self.retained.order@ == o.order);
                        assert(self.retained.slots@ == o.slots);
                        assert(slot == o.order[k as int]);
                        assert(self.retained.slots@[slot as int] == Some(*entry));
                        assert(entries[k as int] == o.slots[slot as int]->0);
                        assert(entries[k as int] == *entry);
                        assert(rest[0] == *entry);
                    }
                    if !caps.covers(entry.0) {
                        self.counts.filtered = wrapping_inc(self.counts.filtered);
                        proof {
                            assert(self.view().links =~= before.links);
                            assert(replay(before.links[i as int], before.counts, rest, caps) == replay(
                                before.links[i as int],
                                before.counts.filtered_one(),
                                next,
                                caps,
                            ));
                        }
                    } else {
                        let r = entry.1.clone();
                        self.push_at(i, Class::Lifecycle, false, r);
                        self.counts.replayed = wrapping_inc(self.counts.replayed);
                        proof {
                            let (l2, lost) = before.links[i as int].take(Class::Lifecycle, false, entry.1);
                            assert(replay(before.links[i as int], before.counts, rest, caps) == replay(
                                l2,
                                before.counts.lost(lost).replayed_one(),
                                next,
                                caps,
                            ));
                            lemma_take_shape(before.links[i as int], before.links[i as int], Class::Lifecycle, false, r, entry.1);
                            lemma_replay_shape(self.view().links[i as int], l2, self.view().counts, next, caps);
                            if clones_equal::<T>() {
                                assert(cloned(entry.1, r));
                                assert(r == entry.1);
                                let (l2, lost) = before.links[i as int].take(Class::Lifecycle, false, entry.1);
                                assert(replay(before.links[i as int], before.counts, rest, caps) == replay(
                                    l2,
                                    before.counts.lost(lost).replayed_one(),
                                    next,
                                    caps,
                                ));
                                assert(self.view().links[i as int] == l2);
                            }
                        }
                    }
                },
                None => {
                    proof {
                        assert(self.retained.slots@[slot as int] is Some);
                    }
                },
            }
            k = k + 1;
        }
        proof {
            if k < n {
                assert(!self.view().links[i as int].live);
            } else {
                assert(entries.subrange(k as int, n as int).len() == 0);
            }
            let t = o.authenticated(id, caps);
            assert(t == State { links: o.links.update(i as int, target.0), counts: target.1, ..o });
            assert forall|x: int| 0 <= x < t.links.len() implies #[trigger] self.view().links[x].shape() == t.links[x].shape() by {}
            lemma_alike_links(self.view(), t);
            if clones_equal::<T>() {
                assert(self.view().links =~= o.links.update(i as int, target.0));
            }
        }
    }

    /// Take a committed record: keep it in the retained set when it carries
    /// a slot, then push it where it is addressed, to one connection or to
    /// every connection that receives it.
    pub fn fan(&mut self, a: Addressed<T>)
        requires
            old(self).wf(),
        ensures
            final(self).wf(),
            final(self).view().shape() == old(self).view().fanned(a).shape(),
            clones_equal::<T>() ==> final(self).view() == old(self).view().fanned(a),
    {
        let ghost o = self.view();
        let ghost k = match a.slot {
            Some(slot) => {
                let (slots, order) = kept(o.slots, o.order, slot, a.need, a.record);
                State { slots, order, ..o }
            },
            None => o,
        };
        let Addressed { to, need, class, slot, record } = a;
        match slot {
            Some(s) => {
                let r = record.clone();
                self.retained.keep(s, need, r);
                proof {
                    lemma_kept_shape(o.slots, o.slots, o.order, s, need, r, record);
                    if clones_equal::<T>() {
                        assert(cloned(record, r));
                    }
                }
            },
            None => {},
        }
        let ghost mid = self.view();
        proof {
            lemma_alike_links(mid, k);
            self.lemma_sound();
        }
        match to {
            Some(id) => match self.find(id, true) {
                Some(i) => {
                    self.push_at(i, class, false, record);
                    proof {
                        assert(self.view() == mid.addressed(id, class, false, record));
                        lemma_addressed_shape(mid, k, id, class, false, record, record);
                    }
                },
                None => {
                    self.counts.unaddressed = wrapping_inc(self.counts.unaddressed);
                    proof {
                        assert(self.view() == mid.addressed(id, class, false, record));
                        lemma_addressed_shape(mid, k, id, class, false, record, record);
                    }
                },
            },
            None => {
                self.spread(need, class, record);
                proof {
                    lemma_spread_shape(mid, k, need, class, record, record);
                }
            },
        }
    }

    /// One pass over the commit ring: take up to [`RECORDS_PER_PASS`]
    /// records, oldest first, and fan each out. Hands back how many it took;
    /// none means the ring was empty.
    pub fn pass(&mut self, commit: &mut Commit<T>) -> (taken: usize)
        requires
            old(self).wf(),
            old(commit).wf(),
        ensures
            final(self).wf(),
            final(commit).wf(),
            taken == (if old(commit).records().len() < RECORDS_PER_PASS {
                old(commit).records().len()
            } else {
                RECORDS_PER_PASS as nat
            }),
            final(commit).records() == old(commit).records().skip(taken as int),
            final(commit).cap() == old(commit).cap(),
            final(commit).drops() == old(commit).drops(),
            final(commit).evicted_boundaries() == old(commit).evicted_boundaries(),
            final(self).view().shape() == old(self).view().fanned_all(old(commit).records().take(taken as int)).shape(),
            clones_equal::<T>() ==> final(self).view() == old(self).view().fanned_all(
                old(commit).records().take(taken as int),
            ),
    {
        let len = commit.len();
        let m = if len < RECORDS_PER_PASS {
            len
        } else {
            RECORDS_PER_PASS
        };
        let ghost o = self.view();
        let ghost rs = commit.records();
        let ghost batch = rs.take(m as int);
        let mut k: usize = 0;
        proof {
            assert(batch.subrange(0, m as int) =~= batch);
            assert(rs.skip(0) =~= rs);
        }
        while k < m
            invariant
                self.wf(),
                commit.wf(),
                m <= rs.len(),
                k <= m,
                batch == rs.take(m as int),
                commit.records() == rs.skip(k as int),
                commit.cap() == old(commit).cap(),
                commit.drops() == old(commit).drops(),
                commit.evicted_boundaries() == old(commit).evicted_boundaries(),
                clones_equal::<T>() ==> self.view().fanned_all(batch.subrange(k as int, m as int)) == o.fanned_all(
                    batch,
                ),
                self.view().fanned_all(batch.subrange(k as int, m as int)).shape() == o.fanned_all(batch).shape(),
            decreases m - k,
        {
            let ghost before = self.view();
            let popped = commit.pop();
            match popped {
                Some(a) => {
                    proof {
                        assert(a == rs[k as int]);
                        assert(batch.subrange(k as int, m as int)[0] == a);
                        assert(batch.subrange(k as int, m as int).drop_first() =~= batch.subrange(k + 1, m as int));
                        assert(commit.records() =~= rs.skip(k + 1));
                    }
                    self.fan(a);
                    proof {
                        self.lemma_sound();
                        lemma_fanned_all_shape(
                            self.view(),
                            before.fanned(a),
                            batch.subrange(k + 1, m as int),
                        );
                    }
                },
                None => {
                    proof {
                        assert(false);
                    }
                },
            }
            k = k + 1;
        }
        proof {
            assert(batch.subrange(m as int, m as int) =~= Seq::<Addressed<T>>::empty());
        }
        m
    }

    /// The next record in `seq` order for the connection `id`, live or not,
    /// or `None` when nothing is queued for it or it has been released.
    pub fn pop(&mut self, id: ConnectionId) -> (popped: Option<Numbered<T>>)
        requires
            old(self).wf(),
        ensures
            final(self).wf(),
            !holds(old(self).view().links, id) ==> popped is None && final(self).view() == old(self).view(),
            holds(old(self).view().links, id) ==> ({
                let o = old(self).view();
                let i = index_of(o.links, id);
                let l = final(self).view().links[i];
                &&& final(self).view() == State { links: o.links.update(i, l), ..o }
                &&& l.id == o.links[i].id
                &&& l.next_seq == o.links[i].next_seq
                &&& l.caps == o.links[i].caps
                &&& l.live == o.links[i].live
                &&& o.links[i].lanes.popped(l.lanes, popped)
                &&& popped matches Some(n) ==> forall|c: Class, j: int|
                    0 <= j < l.lanes.lane(c).queue().len() ==> n.seq < #[trigger] l.lanes.lane(c).queue()[j].seq
            }),
    {
        match self.find(id, false) {
            Some(i) => {
                proof {
                    assert(self.connections@[i as int].wf());
                }
                let popped = self.connections[i].drain.pop();
                proof {
                    let o = old(self).view();
                    assert(o.links[i as int] == old(self).connections@[i as int].view());
                    assert forall|k: int| 0 <= k < self.connections@.len() implies #[trigger] self.connections@[k].id
                        == old(self).connections@[k].id && self.connections@[k].wf() by {
                        if k != i {
                            assert(self.connections@[k] == old(self).connections@[k]);
                        } else {
                            let c = self.connections@[k];
                            assert(old(self).connections@[k].wf());
                            assert forall|x: Class, j: int| 0 <= j < c.drain.queue(x).len() implies #[trigger] c.drain.queue(
                                x,
                            )[j].seq < c.next_seq by {
                                let q = old(self).connections@[k].drain.queue(x);
                                if popped is None {
                                    assert(c.drain.queue(x) == q);
                                } else {
                                    let od = old(self).connections@[k].drain;
                                    let cc = choose|cc: Class| {
                                        &&& #[trigger] od.queue(cc).len() > 0
                                        &&& popped->0 == od.queue(cc)[0]
                                        &&& c.drain.queue(cc) == od.queue(cc).drop_first()
                                        &&& forall|d: Class| d != cc ==> #[trigger] c.drain.queue(d) == od.queue(d)
                                        &&& forall|d: Class| #[trigger] od.queue(d).len() > 0 ==> popped->0.seq <= od.queue(
                                            d,
                                        )[0].seq
                                    };
                                    if x == cc {
                                        assert(c.drain.queue(x)[j] == q[j + 1]);
                                    } else {
                                        assert(c.drain.queue(x) == q);
                                    }
                                }
                            }
                        }
                    }
                    assert forall|a: int, b: int|
                        #![trigger self.connections@[a], self.connections@[b]]
                        0 <= a < b < self.connections@.len() implies self.connections@[a].id.0
                        < self.connections@[b].id.0 by {
                        assert(old(self).connections@[a].id.0 < old(self).connections@[b].id.0);
                    }
                    assert(self.view().links =~= o.links.update(i as int, self.view().links[i as int]));
                    let d = self.connections@[i as int].drain;
                    assert(self.view().links[i as int] == self.connections@[i as int].view());
                    assert forall|c: Class| #[trigger] d.lanes().lane(c).queue() == d.queue(c) by {}
                }
                popped
            },
            None => None,
        }
    }

    /// Whether nothing is queued for the connection `id`: what its draining
    /// thread asks before it parks. A released connection has nothing.
    pub fn is_empty(&self, id: ConnectionId) -> (b: bool)
        requires
            self.wf(),
        ensures
            b == (!holds(self.view().links, id) || self.view().links[index_of(self.view().links, id)].lanes.is_empty()),
    {
        match self.find(id, false) {
            Some(i) => {
                proof {
                    assert(self.connections@[i as int].wf());
                    assert(self.view().links[i as int] == self.connections@[i as int].view());
                }
                self.connections[i].drain.is_empty()
            },
            None => true,
        }
    }

    /// Whether records still reach the connection `id`: it is attached, and
    /// neither detached nor closed. A draining thread that finds its queue
    /// empty and its connection no longer live ends the socket.
    pub fn is_live(&self, id: ConnectionId) -> (b: bool)
        requires
            self.wf(),
        ensures
            b == reaches(self.view().links, id),
    {
        self.find(id, true).is_some()
    }

    /// How many records the queue of the connection `id` has turned away,
    /// modulo 2^64, or `None` for a connection released or never attached.
    pub fn dropped_from(&self, id: ConnectionId) -> (n: Option<u64>)
        requires
            self.wf(),
        ensures
            !holds(self.view().links, id) ==> n is None,
            holds(self.view().links, id) ==> n == Some(
                ({
                    let l = self.view().links[index_of(self.view().links, id)].lanes;
                    ((l.lossy.drops + l.durable.drops + l.lifecycle.drops) % 0x1_0000_0000_0000_0000) as u64
                }),
            ),
    {
        match self.find(id, false) {
            Some(i) => {
                proof {
                    assert(self.view().links[i as int] == self.connections@[i as int].view());
                }
                Some(self.connections[i].drain.dropped())
            },
            None => None,
        }
    }

    /// Forget the connection `id`, queue and all: its consumer has gone.
    pub fn release(&mut self, id: ConnectionId)
        requires
            old(self).wf(),
        ensures
            final(self).wf(),
            final(self).view() == old(self).view().released(id),
    {
        match self.find(id, false) {
            Some(i) => {
                self.connections.remove(i);
                proof {
                    let o = old(self).view();
                    assert(self.view().links =~= o.links.remove(i as int));
                    assert forall|k: int| 0 <= k < self.connections@.len() implies #[trigger] self.connections@[k]
                        == old(self).connections@[if k < i {
                        k
                    } else {
                        k + 1
                    }] by {}
                    assert forall|a: int, b: int|
                        #![trigger self.connections@[a], self.connections@[b]]
                        0 <= a < b < self.connections@.len() implies self.connections@[a].id.0
                        < self.connections@[b].id.0 by {
                        let a0 = if a < i { a } else { a + 1 };
                        let b0 = if b < i { b } else { b + 1 };
                        assert(self.connections@[a] == old(self).connections@[a0]);
                        assert(self.connections@[b] == old(self).connections@[b0]);
                        assert(old(self).connections@[a0].id.0 < old(self).connections@[b0].id.0);
                    }
                    assert forall|k: int| 0 <= k < self.connections@.len() implies #[trigger] self.connections@[k].wf()
                        && self.connections@[k].id.0 <= self.last_id by {
                        let k0 = if k < i { k } else { k + 1 };
                        assert(self.connections@[k] == old(self).connections@[k0]);
                    }
                }
            },
            None => {},
        }
    }

    /// How many addressed records found their connection gone, modulo 2^64.
    pub fn unaddressed(&self) -> (n: u64)
        ensures
            n == self.view().counts.unaddressed,
    {
        self.counts.unaddressed
    }

    /// How many times a fanned-out record was withheld from an authenticated
    /// connection whose capabilities did not cover it, modulo 2^64.
    pub fn filtered(&self) -> (n: u64)
        ensures
            n == self.view().counts.filtered,
    {
        self.counts.filtered
    }

    /// How many connections were closed because their `LIFECYCLE` ring had
    /// no room for a record, modulo 2^64.
    pub fn lifecycle_disconnects(&self) -> (n: u64)
        ensures
            n == self.view().counts.lifecycle_disconnects,
    {
        self.counts.lifecycle_disconnects
    }

    /// How many retained records were pushed to connections at their
    /// authentication, modulo 2^64.
    pub fn replayed(&self) -> (n: u64)
        ensures
            n == self.view().counts.replayed,
    {
        self.counts.replayed
    }

    /// How many records the connections' rings have turned away, by label.
    pub fn dropped(&self) -> (d: Dropped)
        ensures
            d == self.view().counts.dropped,
    {
        self.counts.dropped
    }
}

impl<T: Clone> Writer<T> {
    /// A sound writer's state is sound.
    pub proof fn lemma_sound(&self)
        requires
            self.wf(),
        ensures
            self.view().sound(),
    {
        let links = self.view().links;
        assert forall|i: int, j: int|
            #![trigger links[i], links[j]]
            0 <= i < j < links.len() implies links[i].id.0 < links[j].id.0 by {
            assert(links[i] == self.connections@[i].view());
            assert(links[j] == self.connections@[j].view());
        }
        assert forall|i: int| 0 <= i < links.len() implies #[trigger] links[i].id.0 <= self.last_id by {
            assert(links[i] == self.connections@[i].view());
        }
    }
}

/// A record addressed to one connection moves only that connection's `seq`:
/// every other connection is exactly as it was, so it sees no gap.
pub proof fn law_an_addressed_record_moves_no_other_seq<T>(
    s: State<T>,
    id: ConnectionId,
    class: Class,
    answer: bool,
    record: T,
)
    requires
        s.sound(),
    ensures
        forall|j: int|
            0 <= j < s.links.len() && s.links[j].id != id ==> #[trigger] s.addressed(id, class, answer, record).links[j]
                == s.links[j],
        s.addressed(id, class, answer, record).links.len() == s.links.len(),
{
    if reaches(s.links, id) {
        let i = live_index(s.links, id);
        assert(live_at(s.links, id, i));
    }
}

/// A record fanned out is numbered only for the connections that receive
/// it: one not authenticated, or authenticated under capabilities that do
/// not cover it, or closed, keeps its `seq` and its queue, so it sees no
/// gap for a record it was never entitled to.
pub proof fn law_a_withheld_record_leaves_no_gap<T>(s: State<T>, need: u32, class: Class, record: T)
    ensures
        s.spread(need, class, record).links.len() == s.links.len(),
        forall|j: int|
            0 <= j < s.links.len() && !s.links[j].receives(need) ==> #[trigger] s.spread(need, class, record).links[j]
                == s.links[j],
        forall|j: int|
            0 <= j < s.links.len() && s.links[j].caps is None ==> #[trigger] s.spread(need, class, record).links[j]
                == s.links[j],
{
}

/// A record fanned out takes the next number at every connection that
/// receives it, and moves no other connection: each receiver's `seq` rises
/// by one, and its queue takes the record as a push of its class would.
pub proof fn law_each_receiver_takes_the_next_seq<T>(s: State<T>, need: u32, class: Class, record: T)
    ensures
        forall|j: int|
            0 <= j < s.links.len() && s.links[j].receives(need) && s.links[j].next_seq < u64::MAX
                ==> #[trigger] s.spread(need, class, record).links[j].next_seq == s.links[j].next_seq + 1
                && s.spread(need, class, record).links[j].lanes == s.links[j].lanes.after(
                class,
                false,
                Numbered { seq: s.links[j].next_seq, record },
            ),
{
}

/// How many of `links` withhold a record fanned out with `need`: live and
/// authenticated under capabilities that do not cover it.
pub open spec fn withheld<T>(links: Seq<Link<T>>, need: u32) -> nat
    decreases links.len(),
{
    if links.len() == 0 {
        0
    } else {
        withheld(links.drop_last(), need) + if links.last().withholds(need) {
            1nat
        } else {
            0nat
        }
    }
}

/// What a fan-out over `links` adds to the filtered count, with room in it.
proof fn lemma_spread_filtered<T>(links: Seq<Link<T>>, need: u32, class: Class, record: T, c: Counts)
    requires
        c.filtered + links.len() < u64::MAX,
    ensures
        spread_counts(links, need, class, record, c).filtered == c.filtered + withheld(links, need),
        withheld(links, need) <= links.len(),
    decreases links.len(),
{
    if links.len() > 0 {
        lemma_spread_filtered(links.drop_last(), need, class, record, c);
    }
}

/// A record fanned out is counted as filtered once for each connection that
/// withholds it, and for no other: not for one it reaches, nor for one not
/// yet authenticated or closed. With room in the count, the fan-out adds
/// exactly the number of connections that withhold it.
pub proof fn law_each_withholding_is_counted_once<T>(s: State<T>, need: u32, class: Class, record: T)
    requires
        s.counts.filtered + s.links.len() < u64::MAX,
    ensures
        s.spread(need, class, record).counts.filtered == s.counts.filtered + withheld(s.links, need),
{
    lemma_spread_filtered(s.links, need, class, record, s.counts);
}

/// Each connection numbers what it receives from one, one by one: a
/// connection attaches at one, its first record, if any, takes one, and
/// every record pushed to it takes the next number, whether or not its
/// queue keeps the record.
pub proof fn law_seq_rises_by_one_from_one<T>(
    s: State<T>,
    capacities: Capacities,
    first: Option<T>,
    l: Link<T>,
    class: Class,
    answer: bool,
    record: T,
)
    requires
        l.next_seq < u64::MAX,
    ensures
        first is None ==> s.attached(capacities, first).links.last().next_seq == 1,
        first is Some && capacities.usable() ==> s.attached(capacities, first).links.last().next_seq == 2,
        first is Some && capacities.usable() ==> s.attached(capacities, first).links.last().lanes.durable.ring
            == seq![crate::fanout::Queued { answer: true, numbered: Numbered { seq: 1, record: first->0 } }],
        l.take(class, answer, record).0.next_seq == l.next_seq + 1,
{
}

/// Ids are never reused: the connection that attaches next is named past
/// every connection the writer holds.
pub proof fn law_ids_are_never_reused<T>(s: State<T>, capacities: Capacities, first: Option<T>)
    requires
        s.sound(),
        s.last_id < u64::MAX,
    ensures
        forall|j: int| 0 <= j < s.links.len() ==> #[trigger] s.links[j].id != s.attached(capacities, first).links.last().id,
        s.attached(capacities, first).sound(),
{
    let a = s.attached(capacities, first);
    assert forall|i: int, j: int|
        #![trigger a.links[i], a.links[j]]
        0 <= i < j < a.links.len() implies a.links[i].id.0 < a.links[j].id.0 by {
        if j == a.links.len() - 1 {
            assert(a.links[i] == s.links[i]);
        } else {
            assert(a.links[i] == s.links[i]);
            assert(a.links[j] == s.links[j]);
        }
    }
    assert forall|i: int| 0 <= i < a.links.len() implies #[trigger] a.links[i].id.0 <= a.last_id by {
        if i < s.links.len() {
            assert(a.links[i] == s.links[i]);
        }
    }
}

/// How many of `attaches` attached a connection.
pub open spec fn attach_count<T>(attaches: Seq<Option<(Capacities, Option<T>)>>) -> nat
    decreases attaches.len(),
{
    if attaches.len() == 0 {
        0
    } else {
        attach_count(attaches.drop_last()) + if attaches.last() is Some {
            1nat
        } else {
            0nat
        }
    }
}

/// After the first `k` calls of a run, the last id handed out is the first
/// state's plus one per attach among them.
proof fn lemma_ids_counted<T>(states: Seq<State<T>>, attaches: Seq<Option<(Capacities, Option<T>)>>, k: int)
    requires
        states.len() == attaches.len() + 1,
        forall|i: int|
            0 <= i < attaches.len() ==> (#[trigger] attaches[i] matches Some((c, f)) ==> states[i + 1] == states[i].attached(
                c,
                f,
            ) && states[i].last_id < u64::MAX),
        forall|i: int| 0 <= i < attaches.len() ==> #[trigger] attaches[i] is None ==> states[i + 1].last_id == states[i].last_id,
        0 <= k <= attaches.len(),
    ensures
        states[k].last_id == states[0].last_id + attach_count(attaches.take(k)),
    decreases k,
{
    if k == 0 {
        assert(attaches.take(0).len() == 0);
    } else {
        lemma_ids_counted(states, attaches, k - 1);
        assert(attaches.take(k).drop_last() =~= attaches.take(k - 1));
        assert(attaches.take(k).last() == attaches[k - 1]);
        match attaches[k - 1] {
            Some((c, f)) => {
                assert(states[k] == states[k - 1].attached(c, f));
            },
            None => {},
        }
    }
}

/// The last id handed out never falls over a run.
proof fn lemma_ids_never_fall<T>(states: Seq<State<T>>, attaches: Seq<Option<(Capacities, Option<T>)>>, i: int, j: int)
    requires
        states.len() == attaches.len() + 1,
        forall|i: int|
            0 <= i < attaches.len() ==> (#[trigger] attaches[i] matches Some((c, f)) ==> states[i + 1] == states[i].attached(
                c,
                f,
            ) && states[i].last_id < u64::MAX),
        forall|i: int| 0 <= i < attaches.len() ==> #[trigger] attaches[i] is None ==> states[i + 1].last_id == states[i].last_id,
        0 <= i <= j <= attaches.len(),
    ensures
        states[i].last_id <= states[j].last_id,
    decreases j - i,
{
    if i < j {
        lemma_ids_never_fall(states, attaches, i, j - 1);
        match attaches[j - 1] {
            Some((c, f)) => {
                assert(states[j] == states[j - 1].attached(c, f));
            },
            None => {},
        }
    }
}

/// Ids are handed out one past another in call order, over any run. Take
/// the writer's states over a run of calls, where each call either attaches
/// a connection (`attaches[i]` holds what it was attached with) or leaves
/// the last id handed out as it was, as detach, release, fan-out, pass, pop
/// and authentication do. Then the connection attached at call `i` is
/// named one more than the first state's last id per attach up to and
/// including it, so from a new writer the ids run 1, 2, 3, ...; and each id
/// is above every id handed out before it, so none comes twice, a detached
/// or released one included.
pub proof fn law_ids_rise_over_a_run<T>(states: Seq<State<T>>, attaches: Seq<Option<(Capacities, Option<T>)>>)
    requires
        states.len() == attaches.len() + 1,
        forall|i: int|
            0 <= i < attaches.len() ==> (#[trigger] attaches[i] matches Some((c, f)) ==> states[i + 1] == states[i].attached(
                c,
                f,
            ) && states[i].last_id < u64::MAX),
        forall|i: int| 0 <= i < attaches.len() ==> #[trigger] attaches[i] is None ==> states[i + 1].last_id == states[i].last_id,
    ensures
        forall|i: int|
            0 <= i < attaches.len() && #[trigger] attaches[i] is Some ==> states[i].last_id + 1 == states[0].last_id
                + attach_count(attaches.take(i + 1)),
        forall|i: int, j: int|
            0 <= i < j < attaches.len() && #[trigger] attaches[i] is Some && #[trigger] attaches[j] is Some
                ==> states[i].last_id + 1 < states[j].last_id + 1,
{
    assert forall|i: int| 0 <= i < attaches.len() && #[trigger] attaches[i] is Some implies states[i].last_id + 1
        == states[0].last_id + attach_count(attaches.take(i + 1)) by {
        lemma_ids_counted(states, attaches, i + 1);
        let (c, f) = attaches[i]->0;
        assert(states[i + 1] == states[i].attached(c, f));
    }
    assert forall|i: int, j: int|
        0 <= i < j < attaches.len() && #[trigger] attaches[i] is Some && #[trigger] attaches[j] is Some implies states[i].last_id
        + 1 < states[j].last_id + 1 by {
        lemma_ids_never_fall(states, attaches, i + 1, j);
        let (c, f) = attaches[i]->0;
        assert(states[i + 1] == states[i].attached(c, f));
    }
}

/// The retained set holds the latest record per slot, and a slot kept again
/// moves to the back of the emit order, where it appears once.
pub proof fn law_a_kept_slot_is_latest_and_last<T>(
    slots: Seq<Option<(u32, T)>>,
    order: Seq<u32>,
    slot: u32,
    need: u32,
    record: T,
)
    requires
        sound_retained(slots, order),
        slot < slots.len(),
    ensures
        kept(slots, order, slot, need, record).0[slot as int] == Some((need, record)),
        kept(slots, order, slot, need, record).1.last() == slot,
        kept(slots, order, slot, need, record).1.no_duplicates(),
        forall|k: int| 0 <= k < kept(slots, order, slot, need, record).1.len() - 1 ==> #[trigger] kept(
            slots,
            order,
            slot,
            need,
            record,
        ).1[k] != slot,
{
    let n = kept(slots, order, slot, need, record).1;
    if order.contains(slot) {
        let x = order.index_of(slot);
        assert forall|k: int| 0 <= k < n.len() - 1 implies #[trigger] n[k] != slot by {
            let k0 = if k < x { k } else { k + 1 };
            assert(n[k] == order[k0]);
        }
    } else {
        assert forall|k: int| 0 <= k < n.len() - 1 implies #[trigger] n[k] != slot by {
            assert(n[k] == order[k]);
        }
    }
    assert forall|a: int, b: int| 0 <= a < n.len() && 0 <= b < n.len() && a != b implies n[a] != n[b] by {
        if a < n.len() - 1 && b < n.len() - 1 {
            if order.contains(slot) {
                let x = order.index_of(slot);
                let a0 = if a < x { a } else { a + 1 };
                let b0 = if b < x { b } else { b + 1 };
                assert(n[a] == order[a0] && n[b] == order[b0]);
            } else {
                assert(n[a] == order[a] && n[b] == order[b]);
            }
        }
    }
}

} // verus!