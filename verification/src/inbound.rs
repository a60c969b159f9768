//! The inbound path: what a connection sends, and what the broker makes of
//! it before anything reaches a ring.
//!
//! A connection proceeds in a fixed order: handshake, then authentication,
//! then everything else. Before authentication it may send `Ping` and
//! `Auth` and nothing else; any other topic closes the connection.
//! Authentication is one `Auth` carrying the token's secret and one
//! `AuthResult` back; after a failed one the connection is closed, once the
//! result has reached the wire. Once authenticated a connection may also
//! send the three messages the broker handles itself: `GetSchema`, answered
//! with the schema or with why there is none; `SeqAck`, consumed and
//! counted and answered by nothing; and `SetEnabled`, the kill switch,
//! applied when the token carries `reload` and refused when it does not.
//! Every other topic is a record for Lua, put on the ring the registered
//! route map names for it.
//!
//! A record the broker delivers nowhere is refused out loud: the sender is
//! answered with `Rejected`, carrying the `seq` it gave the record, the
//! topic and the reason. Records for Lua are rate-limited per connection
//! and over every connection together, and the two answer differently: a
//! connection over its own rate is refused the record and kept; one that
//! pushes the total over is closed. What a connection is told of its
//! refusals is capped as well, so a flood buys no answers.

use vstd::prelude::*;
use vstd::utf8::{encode_utf8, valid_utf8, is_char_boundary};
use crate::answer::{answer_tail, answer, tail, Put, ANSWER_BYTES};
use crate::config::Config;
use crate::encode::{boolean_field, bytes_field, integer_field, varint};
use crate::fanout::{Capabilities, ConnectionId};
use crate::registry::{Capability, Member};
use crate::topic;
use crate::count::{next_count, wrapping_inc};
use crate::state::{Bridge, Part};

verus! {

/// `std::io::Error`, carried through as what closed a connection.
#[verifier::external_type_specification]
#[verifier::external_body]
pub struct ExIoError(std::io::Error);

/// `prost::DecodeError`, carried through as why an envelope or a payload
/// did not decode.
#[verifier::external_type_specification]
#[verifier::external_body]
pub struct ExDecodeError(prost::DecodeError);

/// The live keys the reader decides by, as of one moment.
///
/// Taken from the configuration in force each time the reader is about to
/// read, so a value swapped in by a later table binds from the next frame
/// on and the deadline of the next connection.
#[derive(Clone, Copy, Debug, Eq, PartialEq, Structural)]
pub struct Limits {
    /// How long a connection has to authenticate before it is closed, in
    /// milliseconds.
    pub handshake_timeout_ms: u64,
    /// The most bytes a frame may claim.
    pub max_frame_bytes: u32,
    /// The most bytes a payload's type URL may take.
    pub max_type_url_bytes: usize,
    /// The most records for Lua one connection may send in a second.
    pub inbound_records_per_sec: u32,
    /// The most records for Lua every connection together may send in a
    /// second.
    pub inbound_records_per_sec_total: u32,
    /// The most `Rejected` one connection is sent in a second for an
    /// unknown topic, a missing capability or its own rate.
    pub rejected_max_per_sec: u32,
    /// The most `Rejected` one connection is sent in a second for a full
    /// ring.
    pub busy_max_per_sec: u32,
}

/// The limits a configuration sets.
pub open spec fn limits_of(config: Config) -> Limits {
    Limits {
        handshake_timeout_ms: config.handshake_timeout_ms,
        max_frame_bytes: config.max_frame_bytes,
        max_type_url_bytes: config.max_type_url_bytes as usize,
        inbound_records_per_sec: config.inbound_records_per_sec,
        inbound_records_per_sec_total: config.inbound_records_per_sec_total,
        rejected_max_per_sec: config.rejected_max_per_sec,
        busy_max_per_sec: config.busy_max_per_sec,
    }
}

impl Limits {
    /// The limits `config` sets.
    pub fn from_config(config: &Config) -> (l: Limits)
        ensures
            l == limits_of(*config),
    {
        Limits {
            handshake_timeout_ms: config.handshake_timeout_ms,
            max_frame_bytes: config.max_frame_bytes,
            max_type_url_bytes: config.max_type_url_bytes as usize,
            inbound_records_per_sec: config.inbound_records_per_sec,
            inbound_records_per_sec_total: config.inbound_records_per_sec_total,
            rejected_max_per_sec: config.rejected_max_per_sec,
            busy_max_per_sec: config.busy_max_per_sec,
        }
    }
}

impl Default for Limits {
    /// The limits of the default configuration.
    fn default() -> (l: Self)
        ensures
            l.handshake_timeout_ms == 5000,
            l.max_frame_bytes == 1048576,
            l.max_type_url_bytes == 256,
            l.inbound_records_per_sec == 100,
            l.inbound_records_per_sec_total == 400,
            l.rejected_max_per_sec == 10,
            l.busy_max_per_sec == 100,
    {
        Limits::from_config(&Config::default())
    }
}

/// How long after `since` the clock reads `now`, in milliseconds: nothing
/// for a clock that reads earlier.
pub open spec fn elapsed_ms(since: u64, now: u64) -> nat {
    if now >= since {
        (now - since) as nat
    } else {
        0
    }
}

/// What admitting one event at `now` under `cap` does to a window that
/// opened at `since` and has counted `count`: where the window then opens,
/// what it has counted, and whether the event fit.
pub open spec fn accepted(since: u64, count: u32, now: u64, cap: u32) -> (u64, u32, bool) {
    let (since, count) = if elapsed_ms(since, now) >= 1000 {
        (now, 0u32)
    } else {
        (since, count)
    };
    if count < cap {
        (since, (count + 1) as u32, true)
    } else {
        (since, count, false)
    }
}

/// A count of what one second admitted, for a cap stated per second.
///
/// The window is fixed rather than sliding: it opens at the first event
/// after the last one closed and holds for a second, and what it admits is
/// what fits under the cap. The cap is the caller's, read fresh for every
/// event, and so is the clock, in milliseconds.
#[derive(Clone, Copy, Debug)]
pub struct Window {
    since: u64,
    count: u32,
}

impl Window {
    /// When the window opened.
    pub closed spec fn opened(&self) -> u64 {
        self.since
    }

    /// What the window has admitted.
    pub closed spec fn counted(&self) -> u32 {
        self.count
    }

    /// A window that opens at the first event.
    pub fn new(now: u64) -> (w: Self)
        ensures
            w.opened() == now,
            w.counted() == 0,
    {
        Window { since: now, count: 0 }
    }

    /// Admit one event at `now` under `cap`: true when it fits, false when
    /// it does not. A refused event is not counted, so a cap of zero
    /// refuses everything and a window never fills past its cap.
    pub fn accept(&mut self, now: u64, cap: u32) -> (fits: bool)
        ensures
            accepted(old(self).opened(), old(self).counted(), now, cap) == (
                final(self).opened(),
                final(self).counted(),
                fits,
            ),
    {
        let elapsed = if now >= self.since {
            now - self.since
        } else {
            0
        };
        if elapsed >= 1000 {
            self.since = now;
            self.count = 0;
        }
        if self.count < cap {
            self.count = self.count + 1;
            true
        } else {
            false
        }
    }
}

/// Law: a window holding no more than its cap still holds no more than it
/// after any event, an event inside the second it opened is counted only
/// when it fits, and a cap of zero refuses every event.
pub proof fn law_window_holds_its_cap(since: u64, count: u32, now: u64, cap: u32)
    requires
        count <= cap,
    ensures
        accepted(since, count, now, cap).1 <= cap,
        elapsed_ms(since, now) < 1000 ==> accepted(since, count, now, cap).0 == since
            && accepted(since, count, now, cap).1 == count + if accepted(
            since,
            count,
            now,
            cap,
        ).2 {
            1int
        } else {
            0int
        },
        cap == 0 ==> !accepted(since, count, now, cap).2,
{
}

/// What the broker knows about the sim when it answers a `Ping`.
#[derive(Clone, Copy, Debug, Eq, PartialEq, Structural)]
pub struct Liveness {
    /// Milliseconds since the logic thread last stamped the heartbeat, or
    /// `None` when it never has.
    pub last_heard_ms: Option<u64>,
    /// Whether that age is under the threshold.
    pub alive: bool,
    /// The effective value of the `enabled` key.
    pub enabled: bool,
}

/// What a connection is once it has authenticated: which token, and what
/// that token may do.
#[derive(Clone, Debug, Eq, PartialEq)]
pub struct Session {
    /// The token's id, which names it in stats and audit lines and is never
    /// the secret.
    pub token_id: String,
    /// The capabilities the token grants.
    pub caps: Vec<Capability>,
}

impl Session {
    /// The capability set as the writer thread holds it, for the filter at
    /// fan-out: every capability the token grants, by number.
    pub fn capabilities(&self) -> (set: Capabilities)
        ensures
            forall|n: u32| #[trigger] set.has(n) <==> (n < 64 && exists|i: int|
                0 <= i < self.caps@.len() && (#[trigger] self.caps@[i]).spec_number() == n),
    {
        let mut set = Capabilities::none();
        let mut i: usize = 0;
        while i < self.caps.len()
            invariant
                0 <= i <= self.caps@.len(),
                forall|n: u32| #[trigger] set.has(n) <==> (n < 64 && exists|j: int|
                    0 <= j < i && (#[trigger] self.caps@[j]).spec_number() == n),
            decreases self.caps.len() - i,
        {
            let number = self.caps[i].number();
            let next = set.with(number);
            proof {
                assert forall|n: u32| #[trigger] next.has(n) <==> (n < 64 && exists|j: int|
                    0 <= j < i + 1 && (#[trigger] self.caps@[j]).spec_number() == n) by {
                    if n < 64 && n == number {
                        assert(self.caps@[i as int].spec_number() == n);
                    }
                    if n < 64 && (exists|j: int| 0 <= j < i + 1 && (#[trigger] self.caps@[j]).spec_number() == n) {
                        let j = choose|j: int| 0 <= j < i + 1 && (#[trigger] self.caps@[j]).spec_number() == n;
                        if j < i {
                            assert(set.has(n));
                        }
                    }
                }
            }
            set = next;
            i = i + 1;
        }
        set
    }
}

/// `google.protobuf.Any` as the envelope carries it: the type URL and the
/// payload's own bytes.
#[derive(Clone, Debug, Eq, PartialEq)]
pub struct Payload {
    /// The type URL: the prefix and the payload's fully-qualified type name.
    pub type_url: String,
    /// The payload's own bytes, decoded only by whoever the topic is for.
    pub value: Vec<u8>,
}

/// An envelope, as much of it as the broker reads: `seq` and the payload.
#[derive(Clone, Debug, Eq, PartialEq)]
pub struct Envelope {
    /// The consumer's own numbering, read and echoed and never checked.
    pub seq: u64,
    /// The record, behind its type URL.
    pub payload: Option<Payload>,
}

/// Why the reader closed a connection.
#[derive(Debug)]
pub enum Close {
    /// The peer closed, or the socket failed.
    Io(std::io::Error),
    /// A frame claimed more than the frame cap.
    FrameTooLong(u32),
    /// The frame's envelope did not decode.
    Envelope(prost::DecodeError),
    /// The envelope carried no payload.
    NoPayload,
    /// The payload's type URL was over the URL cap.
    TypeUrlTooLong(usize),
    /// A topic that is not `Ping` or `Auth` arrived before authentication.
    Unauthenticated(String),
    /// The handshake timeout passed with no authentication.
    HandshakeTimeout,
    /// The payload of a message the broker answers itself did not decode.
    Payload(prost::DecodeError),
    /// The `Auth` failed; the result was sent first.
    AuthFailed(AuthError),
    /// The peer closed cleanly before authenticating.
    Closed,
    /// An authenticated connection sent a second `Auth`.
    SecondAuth,
    /// A record for Lua pushed every connection's total over
    /// `inbound_records_per_sec_total`.
    RateLimitedTotal,
}

/// The type URL's bytes with the prefix every runtime writes taken off, or
/// whole when it does not start with the prefix.
pub open spec fn strip_prefix(url: Seq<u8>) -> Seq<u8> {
    let prefix = encode_utf8(topic::TYPE_URL_PREFIX@);
    if prefix.len() <= url.len() && url.subrange(0, prefix.len() as int) == prefix {
        url.subrange(prefix.len() as int, url.len() as int)
    } else {
        url
    }
}

/// Bytes of a valid encoding that are all ASCII up to `k` end a character
/// at `k`.
proof fn lemma_ascii_prefix_boundary(b: Seq<u8>, k: int)
    requires
        valid_utf8(b),
        0 <= k <= b.len(),
        forall|i: int| 0 <= i < k ==> #[trigger] b[i] < 0x80,
    ensures
        is_char_boundary(b, k),
    decreases k,
{
    if k > 0 {
        let rest = b.subrange(1, b.len() as int);
        assert(vstd::utf8::length_of_first_scalar(b) == 1);
        assert(vstd::utf8::pop_first_scalar(b) =~= rest);
        assert forall|i: int| 0 <= i < k - 1 implies #[trigger] rest[i] < 0x80 by {
            assert(rest[i] == b[i + 1]);
        }
        lemma_ascii_prefix_boundary(rest, k - 1);
    }
}

/// The prefix's bytes are ASCII.
proof fn lemma_prefix_ascii()
    ensures
        encode_utf8(topic::TYPE_URL_PREFIX@).len() == 20,
        forall|i: int| 0 <= i < 20 ==> #[trigger] encode_utf8(topic::TYPE_URL_PREFIX@)[i] < 0x80,
{
    reveal_strlit("type.googleapis.com/");
    assert(vstd::utf8::is_ascii_chars(topic::TYPE_URL_PREFIX@));
    vstd::utf8::is_ascii_chars_encode_utf8(topic::TYPE_URL_PREFIX@);
    vstd::utf8::is_ascii_chars_nat_bound(topic::TYPE_URL_PREFIX@);
}

/// The topic a type URL names: the URL with the prefix taken off, or whole
/// when it has none, so a refusal can name it.
pub fn strip_type_url(url: &str) -> (t: &str)
    ensures
        encode_utf8(t@) == strip_prefix(encode_utf8(url@)),
{
    let bytes = url.as_bytes();
    let prefix = topic::TYPE_URL_PREFIX.as_bytes();
    proof {
        lemma_prefix_ascii();
        vstd::utf8::encode_utf8_valid_utf8(url@);
    }
    if prefix.len() <= bytes.len() {
        let head = &bytes[0..prefix.len()];
        proof {
            assert(head@ =~= bytes@.subrange(0, prefix@.len() as int));
        }
        if crate::text::bytes_eq(head, prefix) {
            proof {
                assert forall|i: int| 0 <= i < prefix@.len() implies #[trigger] bytes@[i] < 0x80 by {
                    assert(head@[i] == bytes@[i]);
                }
                lemma_ascii_prefix_boundary(bytes@, prefix@.len() as int);
                vstd::utf8::encode_utf8_decode_utf8(url@);
            }
            let (_, rest) = url.split_at(prefix.len());
            proof {
                vstd::utf8::encode_utf8_decode_utf8(rest@);
            }
            return rest;
        }
    }
    url
}

/// The topic a frame carries: its type URL with the prefix taken off, or
/// whole when it has none. An envelope with no payload has no topic.
pub fn topic_of(envelope: &Envelope) -> (r: Result<&str, Close>)
    ensures
        match envelope.payload {
            None => r matches Err(Close::NoPayload),
            Some(p) => r matches Ok(t) && encode_utf8(t@) == strip_prefix(encode_utf8(p.type_url@)),
        },
{
    match &envelope.payload {
        None => Err(Close::NoPayload),
        Some(payload) => Ok(strip_type_url(payload.type_url.as_str())),
    }
}

/// An inbound record as the rings carry it from the reader to Lua: who sent
/// it, what topic it is on, and the payload's own bytes.
#[derive(Clone, Debug, Eq, PartialEq)]
pub struct Command {
    /// The connection it arrived on, for the answer to be addressed to.
    pub from: ConnectionId,
    /// The topic, as registered.
    pub topic: String,
    /// The payload's bytes, opaque.
    pub value: Vec<u8>,
}

impl Command {
    /// Take the topic and the bytes out of a decoded envelope.
    pub fn from_envelope(from: ConnectionId, envelope: Envelope) -> (r: Result<Self, Close>)
        ensures
            match envelope.payload {
                None => r matches Err(Close::NoPayload),
                Some(p) => r matches Ok(c) && c.from == from && c.value@ == p.value@ && encode_utf8(
                    c.topic@,
                ) == strip_prefix(encode_utf8(p.type_url@)),
            },
    {
        match envelope.payload {
            None => Err(Close::NoPayload),
            Some(payload) => {
                let topic = strip_type_url(payload.type_url.as_str()).to_owned();
                Ok(Command { from, topic, value: payload.value })
            },
        }
    }
}

/// What became of a command handed to the rings. A command the rings do
/// not keep comes back, so the reader can tell the sender.
#[derive(Clone, Debug, Eq, PartialEq)]
pub enum Delivery {
    /// The ring its route names holds it.
    Stored,
    /// No route map names its topic, so it went nowhere.
    Unrouted(Command),
    /// The session's token does not cover its topic, or its topic has no
    /// capability registered, so it went nowhere.
    Uncovered(Command),
    /// The ring its route names was full, so this, the newest record, was
    /// turned away.
    Busy(Command),
}

/// Why a record was refused. Mirrors `dcsbridge.broker.RejectedReason`.
#[derive(Clone, Copy, Debug, Eq, PartialEq, Structural)]
pub enum RejectedReason {
    /// No route map names the topic.
    UnknownTopic,
    /// The session's token lacks the capability the topic requires.
    NoCapability,
    /// The connection is over `inbound_records_per_sec`.
    RateLimited,
    /// The ring the route names had no room.
    Busy,
}

/// The number the schema gives a reason.
pub open spec fn reason_number(r: RejectedReason) -> u32 {
    match r {
        RejectedReason::UnknownTopic => 1,
        RejectedReason::NoCapability => 2,
        RejectedReason::RateLimited => 3,
        RejectedReason::Busy => 4,
    }
}

impl RejectedReason {
    /// The number the schema gives this reason.
    pub fn number(self) -> (n: u32)
        ensures
            n == reason_number(self),
    {
        match self {
            RejectedReason::UnknownTopic => 1,
            RejectedReason::NoCapability => 2,
            RejectedReason::RateLimited => 3,
            RejectedReason::Busy => 4,
        }
    }

    /// Every member, in wire order, for a counter per reason.
    pub fn all() -> (members: Vec<RejectedReason>)
        ensures
            members@ == seq![
                RejectedReason::UnknownTopic,
                RejectedReason::NoCapability,
                RejectedReason::RateLimited,
                RejectedReason::Busy,
            ],
    {
        vec![
            RejectedReason::UnknownTopic,
            RejectedReason::NoCapability,
            RejectedReason::RateLimited,
            RejectedReason::Busy,
        ]
    }
}

/// Why an `Auth` failed. Mirrors `dcsbridge.broker.AuthError`.
#[derive(Clone, Copy, Debug, Eq, PartialEq, Structural)]
pub enum AuthError {
    /// No configured token carries the secret.
    BadToken,
    /// The token matched and grants nothing.
    EmptyCapabilitySet,
    /// `max_connections` have authenticated already.
    ServerFull,
}

/// The number the schema gives an authentication error.
pub open spec fn auth_error_number(e: AuthError) -> u32 {
    match e {
        AuthError::BadToken => 1,
        AuthError::EmptyCapabilitySet => 2,
        AuthError::ServerFull => 3,
    }
}

impl AuthError {
    /// The number the schema gives this error.
    pub fn number(self) -> (n: u32)
        ensures
            n == auth_error_number(self),
    {
        match self {
            AuthError::BadToken => 1,
            AuthError::EmptyCapabilitySet => 2,
            AuthError::ServerFull => 3,
        }
    }
}

/// `dcsbridge.broker.Auth` as the broker reads it: the token's secret and
/// nothing else.
#[derive(Clone, Debug, Eq, PartialEq)]
pub struct Auth {
    /// The secret. Never logged, never echoed.
    pub token: String,
}

/// `dcsbridge.broker.SeqAck` as the broker reads it.
#[derive(Clone, Copy, Debug, Eq, PartialEq, Structural)]
pub struct SeqAck {
    /// The highest `seq` the consumer has durably processed.
    pub seq: u64,
}

/// `dcsbridge.broker.SetEnabled` as the broker reads it.
#[derive(Clone, Copy, Debug, Eq, PartialEq, Structural)]
pub struct SetEnabled {
    /// The value the `enabled` key takes.
    pub enabled: bool,
}

/// What `Schema` says while there is no schema to serve.
pub const NO_SCHEMA: &'static str = "no schema has been handed to the broker";

/// The width of every nested length in an answer carrying `extra` bytes of
/// byte strings.
pub open spec fn answer_width(extra: nat) -> nat {
    varint((ANSWER_BYTES + extra) as nat).len()
}

/// `Pong`'s fields: whether the sim is alive, the heartbeat's age when it
/// was ever stamped, and the kill switch.
pub open spec fn pong_body(l: Liveness) -> Seq<u8> {
    boolean_field(1, l.alive) + match l.last_heard_ms {
        Some(ms) => integer_field(2, ms as i64),
        None => Seq::empty(),
    } + boolean_field(3, l.enabled)
}

/// `dcsbridge.broker.Pong` as an envelope tail.
pub fn pong(liveness: Liveness) -> (r: Vec<u8>)
    ensures
        r@ == tail(topic::PONG@, pong_body(liveness), answer_width(0)),
{
    proof {
        topic::lemma_topic_bytes();
    }
    match liveness.last_heard_ms {
        Some(ms) => {
            let puts = [
                Put::Boolean(1, liveness.alive),
                Put::Integer(2, ms as i64),
                Put::Boolean(3, liveness.enabled),
            ];
            proof {
                reveal_with_fuel(crate::answer::fields_bytes, 4);
                reveal_with_fuel(crate::answer::extra_total, 4);
                assert(crate::answer::fields_bytes(puts@) =~= pong_body(liveness));
            }
            answer_tail(topic::PONG, &puts)
        },
        None => {
            let puts = [Put::Boolean(1, liveness.alive), Put::Boolean(3, liveness.enabled)];
            proof {
                reveal_with_fuel(crate::answer::fields_bytes, 3);
                reveal_with_fuel(crate::answer::extra_total, 3);
                assert(crate::answer::fields_bytes(puts@) =~= pong_body(liveness));
            }
            answer_tail(topic::PONG, &puts)
        },
    }
}

/// `Rejected`'s fields: the sender's `seq` and topic, and the reason.
pub open spec fn rejected_body(seq: u64, topic: Seq<u8>, reason: RejectedReason) -> Seq<u8> {
    integer_field(1, seq as i64) + bytes_field(2, topic) + integer_field(
        3,
        reason_number(reason) as i64,
    )
}

/// `dcsbridge.broker.Rejected` as an envelope tail: the sender's `seq` and
/// topic echoed, and why the record went nowhere. The answer is sized for
/// the topic.
pub fn rejected(seq: u64, topic: &str, reason: RejectedReason) -> (r: Vec<u8>)
    requires
        ANSWER_BYTES + encode_utf8(topic@).len() <= usize::MAX,
    ensures
        r@ == tail(
            topic::REJECTED@,
            rejected_body(seq, encode_utf8(topic@), reason),
            answer_width(encode_utf8(topic@).len()),
        ),
{
    proof {
        topic::lemma_topic_bytes();
    }
    let puts = [
        Put::Integer(1, seq as i64),
        Put::Bytes(2, topic.as_bytes()),
        Put::Integer(3, reason.number() as i64),
    ];
    proof {
        reveal_with_fuel(crate::answer::fields_bytes, 4);
        reveal_with_fuel(crate::answer::extra_total, 4);
        assert(crate::answer::fields_bytes(puts@) =~= rejected_body(seq, encode_utf8(topic@), reason));
    }
    answer_tail(topic::REJECTED, &puts)
}

/// `Schema`'s fields: the set when there is one, and why not when there is
/// none, never both.
pub open spec fn schema_body(set: Option<Seq<u8>>) -> Seq<u8> {
    match set {
        Some(s) => bytes_field(1, s),
        None => bytes_field(2, encode_utf8(NO_SCHEMA@)),
    }
}

/// The byte strings `Schema` carries.
pub open spec fn schema_extra(set: Option<Seq<u8>>) -> nat {
    match set {
        Some(s) => s.len(),
        None => encode_utf8(NO_SCHEMA@).len(),
    }
}

/// `dcsbridge.broker.Schema` as an envelope tail: the set, or why not.
pub fn schema(set: Option<&[u8]>) -> (r: Vec<u8>)
    requires
        set matches Some(s) ==> ANSWER_BYTES + s@.len() <= usize::MAX,
    ensures
        r@ == tail(
            topic::SCHEMA@,
            schema_body(match set { Some(s) => Some(s@), None => None }),
            answer_width(schema_extra(match set { Some(s) => Some(s@), None => None })),
        ),
{
    proof {
        topic::lemma_topic_bytes();
        reveal_with_fuel(crate::answer::fields_bytes, 2);
        reveal_with_fuel(crate::answer::extra_total, 2);
    }
    match set {
        Some(s) => {
            let puts = [Put::Bytes(1, s)];
            proof {
                assert(crate::answer::fields_bytes(puts@) =~= bytes_field(1, s@));
            }
            answer_tail(topic::SCHEMA, &puts)
        },
        None => {
            let words = NO_SCHEMA.as_bytes();
            let puts = [Put::Bytes(2, words)];
            proof {
                assert(crate::answer::fields_bytes(puts@) =~= schema_body(None));
                reveal_strlit("no schema has been handed to the broker");
                assert(vstd::utf8::is_ascii_chars(NO_SCHEMA@));
                vstd::utf8::is_ascii_chars_encode_utf8(NO_SCHEMA@);
            }
            answer_tail(topic::SCHEMA, &puts)
        },
    }
}

/// `AuthResult`'s fields: whether it succeeded, and the error's number when
/// it did not.
pub open spec fn auth_result_body(result: Result<(), AuthError>) -> Seq<u8> {
    match result {
        Ok(_) => boolean_field(1, true),
        Err(e) => boolean_field(1, false) + integer_field(2, auth_error_number(e) as i64),
    }
}

/// `dcsbridge.broker.AuthResult` as an envelope tail.
pub fn auth_result(result: Result<(), AuthError>) -> (r: Vec<u8>)
    ensures
        r@ == tail(topic::AUTH_RESULT@, auth_result_body(result), answer_width(0)),
{
    proof {
        topic::lemma_topic_bytes();
        reveal_with_fuel(crate::answer::fields_bytes, 3);
        reveal_with_fuel(crate::answer::extra_total, 3);
    }
    match result {
        Ok(()) => {
            let puts = [Put::Boolean(1, true)];
            proof {
                assert(crate::answer::fields_bytes(puts@) =~= auth_result_body(result));
            }
            answer_tail(topic::AUTH_RESULT, &puts)
        },
        Err(error) => {
            let puts = [Put::Boolean(1, false), Put::Integer(2, error.number() as i64)];
            proof {
                assert(crate::answer::fields_bytes(puts@) =~= auth_result_body(result));
            }
            answer_tail(topic::AUTH_RESULT, &puts)
        },
    }
}


/// What one connection is told of its refusals per second: two windows,
/// because a full ring answers a well-behaved consumer and every other
/// refusal a misbuilt or misbehaving one, and the two are capped apart.
#[derive(Clone, Copy, Debug)]
pub struct Refusals {
    rejected: Window,
    busy: Window,
}

/// The window a refusal for `reason` is counted in, busy or not.
pub open spec fn is_busy(reason: RejectedReason) -> bool {
    reason == RejectedReason::Busy
}

/// The cap a refusal for `reason` is answered under.
pub open spec fn refusal_cap(limits: Limits, reason: RejectedReason) -> u32 {
    if is_busy(reason) {
        limits.busy_max_per_sec
    } else {
        limits.rejected_max_per_sec
    }
}

impl Refusals {
    /// When each window opened and what it has counted: refusals for a full
    /// ring, then every other.
    pub closed spec fn windows(&self) -> ((u64, u32), (u64, u32)) {
        (
            (self.busy.opened(), self.busy.counted()),
            (self.rejected.opened(), self.rejected.counted()),
        )
    }

    /// The window `reason` counts in.
    pub open spec fn window_of(&self, reason: RejectedReason) -> (u64, u32) {
        if is_busy(reason) {
            self.windows().0
        } else {
            self.windows().1
        }
    }

    /// What answering or withholding a refusal for `reason` at `now_ms`
    /// does: the window its kind counts in admits it or not under the cap of
    /// its kind, and the other window is left alone.
    pub open spec fn accepted_into(
        self,
        now_ms: u64,
        limits: Limits,
        reason: RejectedReason,
        next: Refusals,
        answered: bool,
    ) -> bool {
        &&& ({
            let (since, count) = self.window_of(reason);
            accepted(since, count, now_ms, refusal_cap(limits, reason))
        }) == (next.window_of(reason).0, next.window_of(reason).1, answered)
        &&& is_busy(reason) ==> next.windows().1 == self.windows().1
        &&& !is_busy(reason) ==> next.windows().0 == self.windows().0
    }

    /// Two windows that open at the first refusal.
    pub fn new(now_ms: u64) -> (r: Self)
        ensures
            r.windows() == ((now_ms, 0u32), (now_ms, 0u32)),
    {
        Refusals { rejected: Window::new(now_ms), busy: Window::new(now_ms) }
    }

    /// Whether a refusal for `reason` at `now_ms` is answered under
    /// `limits`: the window its kind counts in admits it or not, and the
    /// other window is left alone.
    pub fn accept(&mut self, now_ms: u64, limits: &Limits, reason: RejectedReason) -> (answered: bool)
        ensures
            ({
                let (since, count) = old(self).window_of(reason);
                accepted(since, count, now_ms, refusal_cap(*limits, reason))
            }) == (final(self).window_of(reason).0, final(self).window_of(reason).1, answered),
            is_busy(reason) ==> final(self).windows().1 == old(self).windows().1,
            !is_busy(reason) ==> final(self).windows().0 == old(self).windows().0,
            old(self).accepted_into(now_ms, *limits, reason, *final(self), answered),
    {
        match reason {
            RejectedReason::Busy => self.busy.accept(now_ms, limits.busy_max_per_sec),
            _ => self.rejected.accept(now_ms, limits.rejected_max_per_sec),
        }
    }
}

/// How many of the first `k` refusals of `reasons` were for a full ring.
pub open spec fn busy_before(reasons: Seq<RejectedReason>, k: int) -> nat
    decreases k,
{
    if k <= 0 {
        0
    } else {
        busy_before(reasons, k - 1) + if reasons[k - 1] == RejectedReason::Busy {
            1nat
        } else {
            0nat
        }
    }
}

/// How many of the first `k` refusals of `reasons` were for any other
/// reason than a full ring.
pub open spec fn others_before(reasons: Seq<RejectedReason>, k: int) -> nat
    decreases k,
{
    if k <= 0 {
        0
    } else {
        others_before(reasons, k - 1) + if reasons[k - 1] != RejectedReason::Busy {
            1nat
        } else {
            0nat
        }
    }
}

/// The smaller of `a` and `b`.
pub open spec fn least(a: nat, b: nat) -> nat {
    if a < b {
        a
    } else {
        b
    }
}

/// After the first `k` refusals of a run inside one second, each window
/// holds what its kind has admitted: as many as came, up to its cap.
proof fn lemma_refusal_run(
    rs: Seq<Refusals>,
    times: Seq<u64>,
    reasons: Seq<RejectedReason>,
    answered: Seq<bool>,
    limits: Limits,
    start: u64,
    k: int,
)
    requires
        rs.len() == times.len() + 1,
        reasons.len() == times.len(),
        answered.len() == times.len(),
        rs[0].windows() == ((start, 0u32), (start, 0u32)),
        forall|i: int| 0 <= i < times.len() ==> start <= #[trigger] times[i] && times[i] - start < 1000,
        forall|i: int|
            0 <= i < times.len() ==> #[trigger] rs[i].accepted_into(times[i], limits, reasons[i], rs[i + 1], answered[i]),
        0 <= k <= times.len(),
    ensures
        rs[k].windows().0.0 == start,
        rs[k].windows().0.1 == least(busy_before(reasons, k), limits.busy_max_per_sec as nat),
        rs[k].windows().1.0 == start,
        rs[k].windows().1.1 == least(others_before(reasons, k), limits.rejected_max_per_sec as nat),
        forall|i: int|
            0 <= i < k ==> #[trigger] answered[i] == if reasons[i] == RejectedReason::Busy {
                busy_before(reasons, i) < limits.busy_max_per_sec
            } else {
                others_before(reasons, i) < limits.rejected_max_per_sec
            },
    decreases k,
{
    if k > 0 {
        let j = k - 1;
        lemma_refusal_run(rs, times, reasons, answered, limits, start, j);
        assert(rs[j].accepted_into(times[j], limits, reasons[j], rs[j + 1], answered[j]));
        assert(start <= times[j] && times[j] - start < 1000);
        assert(elapsed_ms(start, times[j]) < 1000);
    }
}

/// Refusals are answered up to the cap of their kind in each second, and
/// the two kinds are counted apart. Through any run of refusals from two
/// fresh windows opened at `start`, all inside the second after it, a
/// refusal for a full ring is answered exactly when fewer refusals for a
/// full ring than `busy_max_per_sec` came before it in the run, and a
/// refusal for any other reason exactly when fewer other refusals than
/// `rejected_max_per_sec` came before it; every other is withheld.
pub proof fn law_refusals_answer_up_to_the_cap_of_their_kind(
    rs: Seq<Refusals>,
    times: Seq<u64>,
    reasons: Seq<RejectedReason>,
    answered: Seq<bool>,
    limits: Limits,
    start: u64,
)
    requires
        rs.len() == times.len() + 1,
        reasons.len() == times.len(),
        answered.len() == times.len(),
        rs[0].windows() == ((start, 0u32), (start, 0u32)),
        forall|i: int| 0 <= i < times.len() ==> start <= #[trigger] times[i] && times[i] - start < 1000,
        forall|i: int|
            0 <= i < times.len() ==> #[trigger] rs[i].accepted_into(times[i], limits, reasons[i], rs[i + 1], answered[i]),
    ensures
        forall|i: int|
            0 <= i < times.len() && reasons[i] == RejectedReason::Busy ==> #[trigger] answered[i] == (busy_before(
                reasons,
                i,
            ) < limits.busy_max_per_sec),
        forall|i: int|
            0 <= i < times.len() && reasons[i] != RejectedReason::Busy ==> #[trigger] answered[i] == (others_before(
                reasons,
                i,
            ) < limits.rejected_max_per_sec),
{
    lemma_refusal_run(rs, times, reasons, answered, limits, start, times.len() as int);
}

/// Which of the broker's own messages a frame's payload is to be read as,
/// before the frame is handed to [`Reader::step`].
#[derive(Clone, Copy, Debug, Eq, PartialEq, Structural)]
pub enum Expect {
    /// Nothing: the payload is opaque here.
    Nothing,
    /// `Auth`.
    Auth,
    /// `SeqAck`.
    SeqAck,
    /// `SetEnabled`.
    SetEnabled,
}

/// A frame's payload as read: the message [`Reader::expects`] named, or why
/// it did not decode.
#[derive(Debug)]
pub enum Inner {
    /// Nothing was asked for.
    Nothing,
    /// An `Auth`.
    Auth(Auth),
    /// A `SeqAck`.
    SeqAck(SeqAck),
    /// A `SetEnabled`.
    SetEnabled(SetEnabled),
    /// The payload did not decode as what was asked for.
    Garbled(prost::DecodeError),
}

/// What the reader read from the socket.
#[derive(Debug)]
pub enum Read {
    /// A frame, its length and its type URL within their caps, decoded.
    Frame(Envelope),
    /// The peer closed cleanly between frames.
    End,
    /// The read failed: why, and whether it was the handshake deadline
    /// passing.
    Failed(Close, bool),
}

/// What the reader does after one read.
#[derive(Debug)]
pub struct Outcome {
    /// Answers for this connection, in order.
    pub answers: Vec<Vec<u8>>,
    /// The capability set to hand the writer once the connection has
    /// authenticated, after the answers.
    pub authenticated: Option<Capabilities>,
    /// Whether the handshake deadline is lifted.
    pub lift_deadline: bool,
    /// How many frames must have reached the wire before the connection is
    /// closed.
    pub flush_to: Option<u64>,
    /// How the connection ends, or nothing while it goes on.
    pub end: Option<Result<(), Close>>,
}

/// Whether the topic bytes `t` name the broker's topic `name`.
pub open spec fn names(t: Seq<char>, name: &str) -> bool {
    t == name@
}

/// What a frame on `topic` is to be read as, with or without a session.
pub open spec fn expected_of(topic: Seq<char>, authenticated: bool) -> Expect {
    if !authenticated && names(topic, topic::AUTH) {
        Expect::Auth
    } else if authenticated && names(topic, topic::SEQ_ACK) {
        Expect::SeqAck
    } else if authenticated && names(topic, topic::SET_ENABLED) {
        Expect::SetEnabled
    } else {
        Expect::Nothing
    }
}

/// One connection's reader: who it is, what session it opened, how many
/// frames it sent before authenticating, and its rate windows.
#[derive(Debug)]
pub struct Reader {
    id: ConnectionId,
    session: Option<Session>,
    answered: u64,
    sent: Window,
    refusals: Refusals,
}

impl Reader {
    /// The session the connection opened, if it has.
    pub closed spec fn opened(&self) -> Option<Session> {
        self.session
    }

    /// The connection the reader reads.
    pub closed spec fn connection(&self) -> ConnectionId {
        self.id
    }

    /// The frames on the wire before authentication: the handshake, then
    /// each answer.
    pub closed spec fn frames_before_auth(&self) -> u64 {
        self.answered
    }

    /// A reader for connection `id`, whose handshake is its first frame.
    pub fn new(id: ConnectionId, now_ms: u64) -> (r: Self)
        ensures
            r.opened() is None,
            r.connection() == id,
            r.frames_before_auth() == 1,
    {
        Reader {
            id,
            session: None,
            answered: 1,
            sent: Window::new(now_ms),
            refusals: Refusals::new(now_ms),
        }
    }

    /// The session the connection opened, if it has.
    pub fn session(&self) -> (s: Option<&Session>)
        ensures
            match self.opened() {
                Some(x) => s == Some(&x),
                None => s is None,
            },
    {
        match &self.session {
            Some(s) => Some(s),
            None => None,
        }
    }

    /// What a frame's payload on `topic` is to be read as: `Auth` before
    /// authentication, `SeqAck` and `SetEnabled` after it, and nothing
    /// otherwise.
    pub fn expects(&self, topic: &str) -> (e: Expect)
        ensures
            e == expected_of(topic@, self.opened() is Some),
    {
        let authenticated = self.session.is_some();
        if !authenticated && crate::text::str_eq(topic, topic::AUTH) {
            Expect::Auth
        } else if authenticated && crate::text::str_eq(topic, topic::SEQ_ACK) {
            Expect::SeqAck
        } else if authenticated && crate::text::str_eq(topic, topic::SET_ENABLED) {
            Expect::SetEnabled
        } else {
            Expect::Nothing
        }
    }

    /// What refusing the record numbered `seq` on `topic` for `reason` at
    /// `now_ms` does: the refusal window of its kind counts it if it fits
    /// under its cap, and then the `Rejected` goes after `before`; the
    /// bridge counts the refusal either way; nothing else moves.
    pub open spec fn refusal_step(
        self,
        b0: Bridge,
        seq: u64,
        topic: Seq<char>,
        reason: RejectedReason,
        now_ms: u64,
        next: Reader,
        b1: Bridge,
        before: Seq<Seq<u8>>,
        after: Seq<Seq<u8>>,
    ) -> bool {
        let window = if is_busy(reason) {
            self.refusal_windows().0
        } else {
            self.refusal_windows().1
        };
        let (since, count, fits) = accepted(
            window.0,
            window.1,
            now_ms,
            refusal_cap(limits_of(b0.cfg()), reason),
        );
        &&& after == if fits {
            before.push(rejected_bytes(seq, topic, reason))
        } else {
            before
        }
        &&& b0.counted_refusal(reason, fits, b1)
        &&& next.opened() == self.opened()
        &&& next.connection() == self.connection()
        &&& next.frames_before_auth() == self.frames_before_auth()
        &&& next.sent_window() == self.sent_window()
        &&& if is_busy(reason) {
            next.refusal_windows() == ((since, count), self.refusal_windows().1)
        } else {
            next.refusal_windows() == (self.refusal_windows().0, (since, count))
        }
    }

    /// Answer the record numbered `seq` on `topic` with a `Rejected` for
    /// `reason` if the connection's cap on that reason admits one, and
    /// count the refusal either way.
    fn refuse(
        &mut self,
        bridge: &mut Bridge,
        seq: u64,
        topic: &str,
        reason: RejectedReason,
        now_ms: u64,
        answers: &mut Vec<Vec<u8>>,
    )
        requires
            ANSWER_BYTES + encode_utf8(topic@).len() <= usize::MAX,
        ensures
            old(self).refusal_step(
                *old(bridge),
                seq,
                topic@,
                reason,
                now_ms,
                *final(self),
                *final(bridge),
                views(old(answers)@),
                views(final(answers)@),
            ),
    {
        let limits = Limits::from_config(bridge.config());
        let answered = self.refusals.accept(now_ms, &limits, reason);
        if answered {
            let record = rejected(seq, topic, reason);
            let ghost before = answers@;
            answers.push(record);
            proof {
                assert(views(answers@) =~= views(before).push(record@));
            }
        }
        bridge.rejected(reason, answered);
    }
}

/// The `Rejected` answer to the record numbered `seq` on `topic`.
pub open spec fn rejected_bytes(seq: u64, topic: Seq<char>, reason: RejectedReason) -> Seq<u8> {
    tail(
        topic::REJECTED@,
        rejected_body(seq, encode_utf8(topic), reason),
        answer_width(encode_utf8(topic).len()),
    )
}

/// The bytes of each answer, in order.
pub open spec fn views(answers: Seq<Vec<u8>>) -> Seq<Seq<u8>> {
    answers.map_values(|a: Vec<u8>| a@)
}


/// The topic a type URL names, as characters.
pub open spec fn topic_chars(url: Seq<char>) -> Seq<char> {
    vstd::utf8::decode_utf8(strip_prefix(encode_utf8(url)))
}

/// Whether `inner` is what the reader asked for under `expect`: the
/// message itself or why it did not decode, and nothing when nothing was
/// asked for.
pub open spec fn inner_fits(inner: Inner, expect: Expect) -> bool {
    match expect {
        Expect::Nothing => inner is Nothing,
        Expect::Auth => inner is Auth || inner is Garbled,
        Expect::SeqAck => inner is SeqAck || inner is Garbled,
        Expect::SetEnabled => inner is SetEnabled || inner is Garbled,
    }
}

/// An outcome that answers `answers` and goes on.
pub open spec fn goes_on(out: Outcome, answers: Seq<Seq<u8>>) -> bool {
    &&& views(out.answers@) == answers
    &&& out.authenticated is None
    &&& !out.lift_deadline
    &&& out.flush_to is None
    &&& out.end is None
}

/// An outcome that answers nothing and ends the connection with `end`.
pub open spec fn ends(out: Outcome, end: Result<(), Close>) -> bool {
    &&& views(out.answers@) == Seq::<Seq<u8>>::empty()
    &&& out.authenticated is None
    &&& !out.lift_deadline
    &&& out.flush_to is None
    &&& out.end == Some(end)
}

impl Reader {
    /// When the connection's own window opened and what it has counted.
    pub closed spec fn sent_window(&self) -> (u64, u32) {
        (self.sent.opened(), self.sent.counted())
    }

    /// The refusal windows: full rings, then every other reason.
    pub closed spec fn refusal_windows(&self) -> ((u64, u32), (u64, u32)) {
        self.refusals.windows()
    }

    /// Every part of the reader is as in `other`.
    pub open spec fn same(self, other: Reader) -> bool {
        &&& self.opened() == other.opened()
        &&& self.connection() == other.connection()
        &&& self.frames_before_auth() == other.frames_before_auth()
        &&& self.sent_window() == other.sent_window()
        &&& self.refusal_windows() == other.refusal_windows()
    }

    /// The connection ended without a frame: a clean end is a clean close
    /// once a session is open and a close before one otherwise; a failed
    /// read closes, as the handshake deadline when that is what passed
    /// before authentication.
    pub fn end_of_stream(&self, read: Read) -> (out: Outcome)
        requires
            !(read is Frame),
        ensures
            match read {
                Read::End => ends(out, if self.opened() is Some {
                    Ok(())
                } else {
                    Err(Close::Closed)
                }),
                Read::Failed(close, timed_out) => ends(
                    out,
                    if self.opened() is None && timed_out {
                        Err(Close::HandshakeTimeout)
                    } else {
                        Err(close)
                    },
                ),
                _ => false,
            },
    {
        let end = match read {
            Read::End => if self.session.is_some() {
                Ok(())
            } else {
                Err(Close::Closed)
            },
            Read::Failed(close, timed_out) => if self.session.is_none() && timed_out {
                Err(Close::HandshakeTimeout)
            } else {
                Err(close)
            },
            Read::Frame(_) => Err(Close::Closed),
        };
        let out = Outcome {
            answers: Vec::new(),
            authenticated: None,
            lift_deadline: false,
            flush_to: None,
            end: Some(end),
        };
        proof {
            assert(views(out.answers@) =~= Seq::<Seq<u8>>::empty());
        }
        out
    }
}


/// The bytes of `Pong` carrying `l`.
pub open spec fn pong_bytes(l: Liveness) -> Seq<u8> {
    tail(topic::PONG@, pong_body(l), answer_width(0))
}

/// The bytes of `AuthResult` for `result`.
pub open spec fn auth_result_bytes(result: Result<(), AuthError>) -> Seq<u8> {
    tail(topic::AUTH_RESULT@, auth_result_body(result), answer_width(0))
}

/// The bytes of `Schema` for the set held, if any.
pub open spec fn schema_bytes(held: Option<Seq<u8>>) -> Seq<u8> {
    tail(topic::SCHEMA@, schema_body(held), answer_width(schema_extra(held)))
}

/// Whether `set` holds exactly the numbers of `caps`.
pub open spec fn grants(set: Capabilities, caps: Seq<Capability>) -> bool {
    forall|n: u32| #[trigger] set.has(n) <==> (n < 64 && exists|i: int|
        0 <= i < caps.len() && (#[trigger] caps[i]).spec_number() == n)
}

impl Reader {
    /// What a `Ping` does: `Pong` answered with the liveness as of
    /// `now_ms`, counted among the frames before authentication, and
    /// nothing else moved.
    pub open spec fn pinged(self, b0: Bridge, now_ms: u64, next: Reader, b1: Bridge, out: Outcome) -> bool {
        &&& goes_on(out, seq![pong_bytes(b0.liveness_at(now_ms))])
        &&& b1 == b0
        &&& next.frames_before_auth() == next_count(self.frames_before_auth())
        &&& next.opened() == self.opened()
        &&& next.connection() == self.connection()
        &&& next.sent_window() == self.sent_window()
        &&& next.refusal_windows() == self.refusal_windows()
    }

    /// Answer a `Ping`.
    fn ping(&mut self, bridge: &Bridge, now_ms: u64) -> (out: Outcome)
        ensures
            old(self).pinged(*bridge, now_ms, *final(self), *bridge, out),
    {
        let answer = pong(bridge.liveness(now_ms));
        self.answered = wrapping_inc(self.answered);
        let out = Outcome {
            answers: vec![answer],
            authenticated: None,
            lift_deadline: false,
            flush_to: None,
            end: None,
        };
        proof {
            assert(views(out.answers@) =~= seq![pong_bytes(bridge.liveness_at(now_ms))]);
        }
        out
    }

    /// What an `Auth` before authentication does: a payload that did not
    /// decode closes the connection; otherwise the secret is matched, and
    /// a session opened is answered, handed to the writer with its
    /// capabilities and kept, and lifts the deadline, while a refusal is
    /// answered, counted among the frames before authentication, flushed
    /// to the wire, and closes the connection.
    pub open spec fn auth_step(self, b0: Bridge, inner: Inner, next: Reader, b1: Bridge, out: Outcome) -> bool {
        match inner {
            Inner::Garbled(e) => ends(out, Err(Close::Payload(e))) && b1 == b0 && next.same(self),
            Inner::Auth(a) => exists|r: Result<Session, AuthError>|
                #[trigger] b0.authenticated_into(encode_utf8(a.token@), b1, r) && match r {
                    Ok(session) => {
                        &&& views(out.answers@) == seq![auth_result_bytes(Ok(()))]
                        &&& out.authenticated matches Some(set) && grants(set, session.caps@)
                        &&& out.lift_deadline
                        &&& out.flush_to is None
                        &&& out.end is None
                        &&& next.opened() == Some(session)
                        &&& next.connection() == self.connection()
                        &&& next.frames_before_auth() == self.frames_before_auth()
                        &&& next.sent_window() == self.sent_window()
                        &&& next.refusal_windows() == self.refusal_windows()
                    },
                    Err(e) => {
                        let n = next_count(self.frames_before_auth());
                        &&& views(out.answers@) == seq![auth_result_bytes(Err(e))]
                        &&& out.authenticated is None
                        &&& !out.lift_deadline
                        &&& out.flush_to == Some(n)
                        &&& out.end == Some(Err::<(), Close>(Close::AuthFailed(e)))
                        &&& next.frames_before_auth() == n
                        &&& next.opened() == self.opened()
                        &&& next.connection() == self.connection()
                        &&& next.sent_window() == self.sent_window()
                        &&& next.refusal_windows() == self.refusal_windows()
                    },
                },
            _ => false,
        }
    }

    /// Handle an `Auth` before authentication.
    fn auth(&mut self, bridge: &mut Bridge, inner: Inner) -> (out: Outcome)
        requires
            old(bridge).wf(),
            inner is Auth || inner is Garbled,
        ensures
            old(self).auth_step(*old(bridge), inner, *final(self), *final(bridge), out),
            final(bridge).wf(),
    {
        let auth = match inner {
            Inner::Auth(auth) => auth,
            Inner::Garbled(e) => {
                let out = Outcome {
                    answers: Vec::new(),
                    authenticated: None,
                    lift_deadline: false,
                    flush_to: None,
                    end: Some(Err(Close::Payload(e))),
                };
                proof {
                    assert(views(out.answers@) =~= Seq::<Seq<u8>>::empty());
                }
                return out;
            },
            _ => {
                return Outcome {
                    answers: Vec::new(),
                    authenticated: None,
                    lift_deadline: false,
                    flush_to: None,
                    end: None,
                };
            },
        };
        let r = bridge.authenticate(auth.token.as_str().as_bytes());
        match r {
            Ok(session) => {
                let answer = auth_result(Ok(()));
                let caps = session.capabilities();
                let ghost opened = session;
                self.session = Some(session);
                let out = Outcome {
                    answers: vec![answer],
                    authenticated: Some(caps),
                    lift_deadline: true,
                    flush_to: None,
                    end: None,
                };
                proof {
                    assert(views(out.answers@) =~= seq![auth_result_bytes(Ok(()))]);
                    assert(old(bridge).authenticated_into(
                        encode_utf8(auth.token@),
                        *bridge,
                        Ok::<Session, AuthError>(opened),
                    ));
                }
                out
            },
            Err(error) => {
                let answer = auth_result(Err(error));
                self.answered = wrapping_inc(self.answered);
                let out = Outcome {
                    answers: vec![answer],
                    authenticated: None,
                    lift_deadline: false,
                    flush_to: Some(self.answered),
                    end: Some(Err(Close::AuthFailed(error))),
                };
                proof {
                    assert(views(out.answers@) =~= seq![auth_result_bytes(Err(error))]);
                    assert(old(bridge).authenticated_into(
                        encode_utf8(auth.token@),
                        *bridge,
                        Err::<Session, AuthError>(error),
                    ));
                }
                out
            },
        }
    }
}


impl Reader {
    /// What a `SeqAck` does: a payload that did not decode closes the
    /// connection; otherwise it is counted, and answered by nothing.
    pub open spec fn ack_step(self, b0: Bridge, inner: Inner, next: Reader, b1: Bridge, out: Outcome) -> bool {
        &&& next.same(self)
        &&& match inner {
            Inner::Garbled(e) => ends(out, Err(Close::Payload(e))) && b1 == b0,
            Inner::SeqAck(_) => goes_on(out, Seq::empty()) && b1.acks() == next_count(b0.acks())
                && b0.only(b1, set![Part::Acks]) && b1.wf() == b0.wf(),
            _ => false,
        }
    }

    /// Handle a `SeqAck`.
    fn ack(&mut self, bridge: &mut Bridge, inner: Inner) -> (out: Outcome)
        requires
            old(bridge).wf(),
            inner is SeqAck || inner is Garbled,
        ensures
            old(self).ack_step(*old(bridge), inner, *final(self), *final(bridge), out),
            final(bridge).wf(),
    {
        let end = match inner {
            Inner::SeqAck(ack) => {
                bridge.seq_ack(ack.seq);
                None
            },
            Inner::Garbled(e) => Some(Err(Close::Payload(e))),
            _ => None,
        };
        let out = Outcome {
            answers: Vec::new(),
            authenticated: None,
            lift_deadline: false,
            flush_to: None,
            end,
        };
        proof {
            assert(views(out.answers@) =~= Seq::<Seq<u8>>::empty());
        }
        out
    }

    /// What a `SetEnabled` does: a payload that did not decode closes the
    /// connection; a session whose token carries `reload` sets the kill
    /// switch and is answered by nothing; any other is refused, with the
    /// switch left alone.
    pub open spec fn switch_step(
        self,
        b0: Bridge,
        seq: u64,
        inner: Inner,
        now_ms: u64,
        next: Reader,
        b1: Bridge,
        out: Outcome,
    ) -> bool {
        match inner {
            Inner::Garbled(e) => ends(out, Err(Close::Payload(e))) && b1 == b0 && next.same(self),
            Inner::SetEnabled(x) => if self.opened()->Some_0.caps@.contains(Capability::Reload) {
                &&& goes_on(out, Seq::empty())
                &&& b1.cfg() == (Config { enabled: x.enabled, ..b0.cfg() })
                &&& b1.is_configured() == b0.is_configured()
                &&& b0.only(b1, set![Part::Config])
                &&& b1.wf() == b0.wf()
                &&& next.same(self)
            } else {
                &&& self.refusal_step(
                    b0,
                    seq,
                    topic::SET_ENABLED@,
                    RejectedReason::NoCapability,
                    now_ms,
                    next,
                    b1,
                    Seq::empty(),
                    views(out.answers@),
                )
                &&& out.authenticated is None
                &&& !out.lift_deadline
                &&& out.flush_to is None
                &&& out.end is None
            },
            _ => false,
        }
    }

    /// Handle a `SetEnabled`.
    fn switch(&mut self, bridge: &mut Bridge, seq: u64, inner: Inner, now_ms: u64) -> (out: Outcome)
        requires
            old(bridge).wf(),
            old(self).opened() is Some,
            inner is SetEnabled || inner is Garbled,
        ensures
            old(self).switch_step(*old(bridge), seq, inner, now_ms, *final(self), *final(bridge), out),
            final(bridge).wf(),
    {
        let set = match inner {
            Inner::SetEnabled(set) => set,
            Inner::Garbled(e) => {
                let out = Outcome {
                    answers: Vec::new(),
                    authenticated: None,
                    lift_deadline: false,
                    flush_to: None,
                    end: Some(Err(Close::Payload(e))),
                };
                proof {
                    assert(views(out.answers@) =~= Seq::<Seq<u8>>::empty());
                }
                return out;
            },
            _ => {
                return Outcome {
                    answers: Vec::new(),
                    authenticated: None,
                    lift_deadline: false,
                    flush_to: None,
                    end: None,
                };
            },
        };
        let reload = match &self.session {
            Some(session) => crate::state::holds(session.caps.as_slice(), Capability::Reload),
            None => false,
        };
        let mut answers: Vec<Vec<u8>> = Vec::new();
        proof {
            assert(views(answers@) =~= Seq::<Seq<u8>>::empty());
        }
        if reload {
            bridge.set_enabled(set.enabled);
        } else {
            proof {
                topic::lemma_topic_bytes();
            }
            self.refuse(bridge, seq, topic::SET_ENABLED, RejectedReason::NoCapability, now_ms, &mut answers);
        }
        proof {
            if reload {
                assert(views(answers@) =~= Seq::<Seq<u8>>::empty());
            }
        }
        Outcome { answers, authenticated: None, lift_deadline: false, flush_to: None, end: None }
    }

    /// What a `GetSchema` does: answered with the schema held or why there
    /// is none.
    pub open spec fn schema_step(self, b0: Bridge, next: Reader, b1: Bridge, out: Outcome) -> bool {
        &&& goes_on(out, seq![schema_bytes(match b0.held() {
            Some((set, _)) => Some(set),
            None => None,
        })])
        &&& b1 == b0
        &&& next.same(self)
    }

    /// Answer a `GetSchema`.
    fn get_schema(&self, bridge: &Bridge) -> (out: Outcome)
        requires
            bridge.wf(),
        ensures
            self.schema_step(*bridge, *self, *bridge, out),
    {
        proof {
            bridge.lemma_held_fits();
        }
        let answer = schema(bridge.schema());
        let out = Outcome {
            answers: vec![answer],
            authenticated: None,
            lift_deadline: false,
            flush_to: None,
            end: None,
        };
        proof {
            assert(views(out.answers@) =~= seq![schema_bytes(match bridge.held() {
                Some((set, _)) => Some(set),
                None => None,
            })]);
        }
        out
    }
}


/// The reason a command the rings handed back is refused for.
pub open spec fn refusal_for(d: Delivery) -> RejectedReason {
    match d {
        Delivery::Uncovered(_) => RejectedReason::NoCapability,
        Delivery::Busy(_) => RejectedReason::Busy,
        _ => RejectedReason::UnknownTopic,
    }
}

impl Reader {
    /// Every part of the reader but its own window is as in `other`.
    pub open spec fn same_but_sent(self, other: Reader) -> bool {
        &&& self.opened() == other.opened()
        &&& self.connection() == other.connection()
        &&& self.frames_before_auth() == other.frames_before_auth()
        &&& self.refusal_windows() == other.refusal_windows()
    }

    /// What a record for Lua does once the connection has authenticated.
    ///
    /// The connection's own rate comes first: a record over it is refused
    /// and the connection kept. Then everyone's: a record that pushes the
    /// total over closes the connection. Then the record goes to the ring
    /// its route names, and what the rings hand back is refused, with the
    /// sender's own `seq` and the topic, as unknown, as uncovered or as
    /// busy.
    pub open spec fn record_step(self, b0: Bridge, env: Envelope, now_ms: u64, next: Reader, b1: Bridge, out: Outcome) -> bool {
        let payload = env.payload->Some_0;
        let t = topic_chars(payload.type_url@);
        let limits = limits_of(b0.cfg());
        let (ss, sc, fits) = accepted(
            self.sent_window().0,
            self.sent_window().1,
            now_ms,
            limits.inbound_records_per_sec,
        );
        &&& next.sent_window() == (ss, sc)
        &&& out.authenticated is None
        &&& !out.lift_deadline
        &&& out.flush_to is None
        &&& if !fits {
            &&& out.end is None
            &&& exists|mid: Reader|
                #[trigger] mid.refusal_step(
                    b0,
                    env.seq,
                    t,
                    RejectedReason::RateLimited,
                    now_ms,
                    next,
                    b1,
                    Seq::empty(),
                    views(out.answers@),
                ) && mid.same_but_sent(self) && mid.sent_window() == (ss, sc)
        } else {
            let (ts, tc, total_fits) = accepted(
                b0.total_window().0,
                b0.total_window().1,
                now_ms,
                limits.inbound_records_per_sec_total,
            );
            if !total_fits {
                &&& views(out.answers@) == Seq::<Seq<u8>>::empty()
                &&& out.end == Some(Err::<(), Close>(Close::RateLimitedTotal))
                &&& b1.total_window() == (ts, tc)
                &&& b0.only(b1, set![Part::Total])
                &&& b1.wf() == b0.wf()
                &&& next.same_but_sent(self)
            } else {
                &&& out.end is None
                &&& exists|bm: Bridge, bd: Bridge, c: Command, d: Delivery|
                    #[trigger] bm.delivered(self.opened()->Some_0.caps@, c, bd, d) && {
                        &&& bm.total_window() == (ts, tc)
                        &&& b0.only(bm, set![Part::Total])
                        &&& bm.wf() == b0.wf()
                        &&& c.from == self.connection()
                        &&& c.value@ == payload.value@
                        &&& c.topic@ == t
                        &&& if d is Stored {
                            &&& views(out.answers@) == Seq::<Seq<u8>>::empty()
                            &&& b1 == bd
                            &&& next.same_but_sent(self)
                        } else {
                            exists|mid: Reader|
                                #[trigger] mid.refusal_step(
                                    bd,
                                    env.seq,
                                    t,
                                    refusal_for(d),
                                    now_ms,
                                    next,
                                    b1,
                                    Seq::empty(),
                                    views(out.answers@),
                                ) && mid.same_but_sent(self) && mid.sent_window() == (ss, sc)
                        }
                    }
            }
        }
    }

    /// Handle a record for Lua.
    fn record(&mut self, bridge: &mut Bridge, envelope: Envelope, now_ms: u64) -> (out: Outcome)
        requires
            old(self).opened() is Some,
            old(bridge).wf(),
            envelope.payload is Some,
            encode_utf8(envelope.payload->Some_0.type_url@).len() + ANSWER_BYTES <= usize::MAX,
        ensures
            old(self).record_step(*old(bridge), envelope, now_ms, *final(self), *final(bridge), out),
            final(bridge).wf(),
            final(self).opened() == old(self).opened(),
    {
        let seq = envelope.seq;
        let ghost url = envelope.payload->Some_0.type_url@;
        let ghost t = topic_chars(url);
        let limits = Limits::from_config(bridge.config());
        let mut answers: Vec<Vec<u8>> = Vec::new();
        proof {
            assert(views(answers@) =~= Seq::<Seq<u8>>::empty());
        }
        let ghost (ss, sc, fits) = accepted(
            self.sent_window().0,
            self.sent_window().1,
            now_ms,
            limits.inbound_records_per_sec,
        );
        if !self.sent.accept(now_ms, limits.inbound_records_per_sec) {
            let ghost mid = *self;
            let topic = match &envelope.payload {
                Some(payload) => strip_type_url(payload.type_url.as_str()),
                None => "",
            };
            proof {
                vstd::utf8::encode_utf8_decode_utf8(topic@);
            }
            self.refuse(bridge, seq, topic, RejectedReason::RateLimited, now_ms, &mut answers);
            proof {
                assert(mid.refusal_step(
                    *old(bridge),
                    seq,
                    t,
                    RejectedReason::RateLimited,
                    now_ms,
                    *self,
                    *bridge,
                    Seq::empty(),
                    views(answers@),
                ));
                assert(mid.same_but_sent(*old(self)));
                assert(mid.sent_window() == (ss, sc));
                assert(self.sent_window() == (ss, sc));
                assert(!fits);
            }
            let out = Outcome { answers, authenticated: None, lift_deadline: false, flush_to: None, end: None };
            proof {
                assert(t == topic_chars(envelope.payload->Some_0.type_url@));
                assert(mid.refusal_step(
                    *old(bridge),
                    envelope.seq,
                    topic_chars(envelope.payload->Some_0.type_url@),
                    RejectedReason::RateLimited,
                    now_ms,
                    *self,
                    *bridge,
                    Seq::empty(),
                    views(out.answers@),
                ));
                assert(limits_of(old(bridge).cfg()).inbound_records_per_sec == limits.inbound_records_per_sec);
            }
            return out;
        }
        if !bridge.admit_total(now_ms, limits.inbound_records_per_sec_total) {
            return Outcome {
                answers,
                authenticated: None,
                lift_deadline: false,
                flush_to: None,
                end: Some(Err(Close::RateLimitedTotal)),
            };
        }
        let ghost bm = *bridge;
        let ghost env = envelope;
        let command = match Command::from_envelope(self.id, envelope) {
            Ok(command) => command,
            Err(close) => {
                return Outcome { answers, authenticated: None, lift_deadline: false, flush_to: None, end: Some(Err(close)) };
            },
        };
        let ghost c = command;
        proof {
            vstd::utf8::encode_utf8_decode_utf8(c.topic@);
        }
        let delivery = match &self.session {
            Some(session) => bridge.deliver(session.caps.as_slice(), command),
            None => Delivery::Unrouted(command),
        };
        let ghost bd = *bridge;
        let ghost d = delivery;
        let ghost mid = *self;
        let (returned, reason) = match delivery {
            Delivery::Stored => {
                let out = Outcome { answers, authenticated: None, lift_deadline: false, flush_to: None, end: None };
                proof {
                    assert(bm.delivered(old(self).opened()->Some_0.caps@, c, bd, d));
                    assert(c.topic@ == topic_chars(env.payload->Some_0.type_url@));
                }
                return out;
            },
            Delivery::Unrouted(command) => (command, RejectedReason::UnknownTopic),
            Delivery::Uncovered(command) => (command, RejectedReason::NoCapability),
            Delivery::Busy(command) => (command, RejectedReason::Busy),
        };
        self.refuse(bridge, seq, returned.topic.as_str(), reason, now_ms, &mut answers);
        let out = Outcome { answers, authenticated: None, lift_deadline: false, flush_to: None, end: None };
        proof {
            assert(bm.delivered(old(self).opened()->Some_0.caps@, c, bd, d));
            assert(c.topic@ == topic_chars(env.payload->Some_0.type_url@));
            assert(mid.refusal_step(
                bd,
                env.seq,
                topic_chars(env.payload->Some_0.type_url@),
                refusal_for(d),
                now_ms,
                *self,
                *bridge,
                Seq::empty(),
                views(out.answers@),
            ));
        }
        out
    }
}


/// Which message a frame's topic names: one the broker handles itself, or
/// a record for Lua.
#[derive(Clone, Copy, Debug, Eq, PartialEq, Structural)]
pub enum Message {
    /// `Ping`.
    Ping,
    /// `Auth`.
    Auth,
    /// `GetSchema`.
    GetSchema,
    /// `SeqAck`.
    SeqAck,
    /// `SetEnabled`.
    SetEnabled,
    /// Any other topic.
    Record,
}

/// The message topic `t` names.
pub open spec fn message_of(t: Seq<char>) -> Message {
    if names(t, topic::PING) {
        Message::Ping
    } else if names(t, topic::AUTH) {
        Message::Auth
    } else if names(t, topic::GET_SCHEMA) {
        Message::GetSchema
    } else if names(t, topic::SEQ_ACK) {
        Message::SeqAck
    } else if names(t, topic::SET_ENABLED) {
        Message::SetEnabled
    } else {
        Message::Record
    }
}

/// The message `topic` names.
pub fn message(topic: &str) -> (m: Message)
    ensures
        m == message_of(topic@),
{
    if crate::text::str_eq(topic, topic::PING) {
        Message::Ping
    } else if crate::text::str_eq(topic, topic::AUTH) {
        Message::Auth
    } else if crate::text::str_eq(topic, topic::GET_SCHEMA) {
        Message::GetSchema
    } else if crate::text::str_eq(topic, topic::SEQ_ACK) {
        Message::SeqAck
    } else if crate::text::str_eq(topic, topic::SET_ENABLED) {
        Message::SetEnabled
    } else {
        Message::Record
    }
}

impl Reader {
    /// What one read does to the reader, the bridge and the connection.
    ///
    /// A read with no frame ends the connection. A frame with no payload
    /// closes it. A `Ping` is answered before authentication and after it.
    /// Before authentication an `Auth` is matched and any other topic
    /// closes the connection, naming the topic. After it, a second `Auth`
    /// closes the connection; `GetSchema`, `SeqAck` and `SetEnabled` are
    /// handled here and reach no ring; and every other topic is a record
    /// for Lua.
    pub open spec fn stepped(
        self,
        b0: Bridge,
        read: Read,
        inner: Inner,
        now_ms: u64,
        next: Reader,
        b1: Bridge,
        out: Outcome,
    ) -> bool {
        match read {
            Read::End => ends(out, if self.opened() is Some {
                Ok(())
            } else {
                Err(Close::Closed)
            }) && b1 == b0 && next.same(self),
            Read::Failed(close, timed_out) => ends(
                out,
                if self.opened() is None && timed_out {
                    Err(Close::HandshakeTimeout)
                } else {
                    Err(close)
                },
            ) && b1 == b0 && next.same(self),
            Read::Frame(env) => match env.payload {
                None => ends(out, Err(Close::NoPayload)) && b1 == b0 && next.same(self),
                Some(p) => {
                    let t = topic_chars(p.type_url@);
                    match (message_of(t), self.opened() is Some) {
                        (Message::Ping, _) => self.pinged(b0, now_ms, next, b1, out),
                        (Message::Auth, false) => self.auth_step(b0, inner, next, b1, out),
                        (_, false) => {
                            &&& views(out.answers@) == Seq::<Seq<u8>>::empty()
                            &&& out.authenticated is None
                            &&& !out.lift_deadline
                            &&& out.flush_to is None
                            &&& out.end matches Some(Err(Close::Unauthenticated(named))) && named@ == t
                            &&& b1 == b0
                            &&& next.same(self)
                        },
                        (Message::Auth, true) => ends(out, Err(Close::SecondAuth)) && b1 == b0
                            && next.same(self),
                        (Message::GetSchema, true) => self.schema_step(b0, next, b1, out),
                        (Message::SeqAck, true) => self.ack_step(b0, inner, next, b1, out),
                        (Message::SetEnabled, true) => self.switch_step(
                            b0,
                            env.seq,
                            inner,
                            now_ms,
                            next,
                            b1,
                            out,
                        ),
                        (Message::Record, true) => self.record_step(b0, env, now_ms, next, b1, out),
                    }
                },
            },
        }
    }

    /// What one read does: see [`Reader::stepped`]. A frame's payload was
    /// read as [`Reader::expects`] asked.
    pub fn step(&mut self, bridge: &mut Bridge, read: Read, inner: Inner, now_ms: u64) -> (out: Outcome)
        requires
            old(bridge).wf(),
            read matches Read::Frame(env) ==> (env.payload matches Some(p) ==> {
                &&& encode_utf8(p.type_url@).len() + ANSWER_BYTES <= usize::MAX
                &&& inner_fits(inner, expected_of(topic_chars(p.type_url@), old(self).opened() is Some))
            }),
        ensures
            final(bridge).wf(),
            old(self).stepped(*old(bridge), read, inner, now_ms, *final(self), *final(bridge), out),
    {
        let envelope = match read {
            Read::Frame(envelope) => envelope,
            _ => {
                return self.end_of_stream(read);
            },
        };
        let ghost env = envelope;
        let kind = match &envelope.payload {
            None => {
                let out = Outcome {
                    answers: Vec::new(),
                    authenticated: None,
                    lift_deadline: false,
                    flush_to: None,
                    end: Some(Err(Close::NoPayload)),
                };
                proof {
                    assert(views(out.answers@) =~= Seq::<Seq<u8>>::empty());
                }
                return out;
            },
            Some(payload) => {
                let topic = strip_type_url(payload.type_url.as_str());
                proof {
                    vstd::utf8::encode_utf8_decode_utf8(topic@);
                }
                let kind = message(topic);
                if self.session.is_none() && kind != Message::Ping && kind != Message::Auth {
                    let out = Outcome {
                        answers: Vec::new(),
                        authenticated: None,
                        lift_deadline: false,
                        flush_to: None,
                        end: Some(Err(Close::Unauthenticated(topic.to_owned()))),
                    };
                    proof {
                        assert(views(out.answers@) =~= Seq::<Seq<u8>>::empty());
                    }
                    return out;
                }
                kind
            },
        };
        proof {
            let t = topic_chars(env.payload->Some_0.type_url@);
            assert(kind == message_of(t));
        }
        match kind {
            Message::Ping => self.ping(bridge, now_ms),
            Message::Auth => {
                if self.session.is_some() {
                    let out = Outcome {
                        answers: Vec::new(),
                        authenticated: None,
                        lift_deadline: false,
                        flush_to: None,
                        end: Some(Err(Close::SecondAuth)),
                    };
                    proof {
                        assert(views(out.answers@) =~= Seq::<Seq<u8>>::empty());
                    }
                    out
                } else {
                    self.auth(bridge, inner)
                }
            },
            Message::GetSchema => self.get_schema(bridge),
            Message::SeqAck => self.ack(bridge, inner),
            Message::SetEnabled => self.switch(bridge, envelope.seq, inner, now_ms),
            Message::Record => self.record(bridge, envelope, now_ms),
        }
    }

    /// The connection's reader has ended, however it ended: a session that
    /// was open is reported closed, so its slot is free.
    pub fn finish(self, bridge: &mut Bridge)
        ensures
            match self.opened() {
                Some(_) => final(bridge).sessions() == if old(bridge).sessions() > 0 {
                    (old(bridge).sessions() - 1) as u64
                } else {
                    0
                } && old(bridge).only(*final(bridge), set![Part::Sessions]),
                None => *final(bridge) == *old(bridge),
            },
    {
        if let Some(session) = &self.session {
            bridge.disconnected(session);
        }
    }
}

} // verus!
