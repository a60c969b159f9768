//! The state one broker process shares: the registration maps, the inbound
//! rings, the commit ring's end the logic thread writes, the configuration
//! in force, the heartbeat and the counters the stats report.
//!
//! Both Lua states reach one [`Bridge`]. It has to be one: the hook driver
//! and the sim driver register from different states, and a per-state map
//! would leave each registrar blind to what the other had done. Whatever
//! shares it between threads holds it behind one lock; every decision here
//! is a plain method on the value.

use vstd::prelude::*;
use sha2::Digest;
use vstd::utf8::encode_utf8;
use crate::config::{Config, Token};
use crate::count::{next_count, wrapping_inc};
use crate::fanout::{Addressed, Class, Commit, ConnectionId};
use crate::handshake::Handshake;
use crate::inbound::{accepted, AuthError, Command, Delivery, Liveness, RejectedReason, Session, Window};
use crate::registry::{lookup_bytes, Capability, Member, RecordClass, Refusal, Registry, Target, Topic};
use crate::ring::{Push, Ring};
use crate::answer::ANSWER_BYTES;
use crate::text::{decimal, push_decimal};
use vstd::string::StringExecFns;

verus! {

/// The SHA-256 of `bytes`.
pub uninterp spec fn sha256(bytes: Seq<u8>) -> Seq<u8>;

/// `sha2::Sha256::digest` over `bytes`, as the thirty-two bytes of the
/// hash. The claim is that the hash is a function of the bytes alone.
#[verifier::external_body]
pub(crate) fn sha256_of(bytes: &[u8]) -> (hash: [u8; 32])
    ensures
        hash@ == sha256(bytes@),
{
    sha2::Sha256::digest(bytes).into()
}

/// Why a schema hand-off was refused, with nothing held.
#[derive(Clone, Copy, Debug, Eq, PartialEq, Structural)]
pub enum SchemaError {
    /// The first configuration has not been applied.
    NotConfigured,
    /// The bytes were empty, which is a file that was not read.
    Empty,
    /// The `Schema` answer would outgrow the frame cap in force, so no
    /// consumer could be served it.
    TooLarge {
        /// The set's length.
        len: usize,
        /// `max_frame_bytes` as of the call.
        max_frame_bytes: u32,
    },
    /// A schema is held already.
    Held,
}

/// Why a poll answered nothing at all, rather than an empty ring.
#[derive(Clone, Copy, Debug, Eq, PartialEq, Structural)]
pub enum PollError {
    /// The inbound rings have not been allocated: the configuration comes
    /// first.
    NotStarted,
    /// Another thread was polling the same ring.
    Busy,
}

/// Why a record was not queued.
#[derive(Clone, Copy, Debug, Eq, PartialEq, Structural)]
pub enum CommitError {
    /// The outbound path has not been started.
    NotStarted,
    /// Another thread was committing.
    Busy,
}

impl SchemaError {
    /// The refusal in words.
    pub fn to_string(&self) -> (s: String)
        ensures
            s@ == match self {
                SchemaError::NotConfigured => "configure comes first: the schema is handed over after it"@,
                SchemaError::Empty => "the schema is empty"@,
                SchemaError::TooLarge { len, max_frame_bytes } => "the schema is "@ + decimal(*len as nat)
                    + " bytes and its answer would not fit max_frame_bytes "@ + decimal(*max_frame_bytes as nat),
                SchemaError::Held => "a schema is held already: replacing the served set is a DCS restart"@,
            },
    {
        match self {
            SchemaError::NotConfigured => "configure comes first: the schema is handed over after it".to_owned(),
            SchemaError::Empty => "the schema is empty".to_owned(),
            SchemaError::TooLarge { len, max_frame_bytes } => too_large_words(*len, *max_frame_bytes),
            SchemaError::Held => "a schema is held already: replacing the served set is a DCS restart".to_owned(),
        }
    }
}

/// An oversized schema's refusal in words, both numbers in decimal.
fn too_large_words(len: usize, max_frame_bytes: u32) -> (s: String)
    ensures
        s@ == "the schema is "@ + decimal(len as nat) + " bytes and its answer would not fit max_frame_bytes "@
            + decimal(max_frame_bytes as nat),
{
    let mut s = String::from_str("the schema is ");
    push_decimal(&mut s, len as u64);
    s.append(" bytes and its answer would not fit max_frame_bytes ");
    push_decimal(&mut s, max_frame_bytes as u64);
    s
}

impl PollError {
    /// The refusal in words.
    pub fn to_string(&self) -> (s: String)
        ensures
            s@ == match self {
                PollError::NotStarted => "configure comes first: the rings are allocated by it"@,
                PollError::Busy => "another thread is polling this ring"@,
            },
    {
        match self {
            PollError::NotStarted => "configure comes first: the rings are allocated by it".to_owned(),
            PollError::Busy => "another thread is polling this ring".to_owned(),
        }
    }
}

impl CommitError {
    /// The refusal in words.
    pub fn to_string(&self) -> (s: String)
        ensures
            s@ == match self {
                CommitError::NotStarted => "the outbound path is not started"@,
                CommitError::Busy => "another thread is committing"@,
            },
    {
        match self {
            CommitError::NotStarted => "the outbound path is not started".to_owned(),
            CommitError::Busy => "another thread is committing".to_owned(),
        }
    }
}

/// What `begin` writes into an envelope inside an epoch: the epoch and the
/// sim's clock, as the bits of the double the sim published.
#[derive(Clone, Copy, Debug, Eq, PartialEq, Structural)]
pub struct Stamp {
    /// The open epoch.
    pub epoch: u32,
    /// The mission time's bits.
    pub mission_time: u64,
}

/// The schema as the broker holds it: the bytes handed over, and their
/// hash, which every handshake carries from then on.
#[derive(Debug)]
struct HeldSchema {
    set: Vec<u8>,
    sha256: [u8; 32],
}

/// One inbound ring and its count of records turned away.
#[derive(Debug)]
struct Lane {
    ring: Ring<Command>,
    busy: u64,
}

/// The inbound rings: one per target, with the reader threads at one end
/// and a Lua state at the other.
#[derive(Debug)]
pub struct Inbound {
    sim: Lane,
    hook: Lane,
}

/// What the process shares between its two Lua states.
#[derive(Debug)]
pub struct Bridge {
    opens: u32,
    registry: Registry,
    inbound: Option<Inbound>,
    outbound: Option<Commit<Vec<u8>>>,
    unrouted: u64,
    misaddressed: u64,
    partial_registration: u64,
    instance_id: u64,
    /// Milliseconds after the process started at which the logic thread
    /// last stamped the heartbeat, plus one, so that zero means never.
    heartbeat: u64,
    /// The bits of the mission time the last tick published.
    mission_time: u64,
    loading: bool,
    /// The open epoch, or zero between epochs.
    epoch: u32,
    config: Config,
    configured: bool,
    pending_restart: u64,
    unknown_keys: u64,
    authenticated: u64,
    seq_acks: u64,
    rejected_unknown_topic: u64,
    rejected_no_capability: u64,
    rejected_rate_limited: u64,
    rejected_busy: u64,
    rejections_suppressed: u64,
    inbound_total: Window,
    schema: Option<HeldSchema>,
}

/// Whether two secrets are the same, in time that depends on the presented
/// secret's length and on nothing about either secret's content.
///
/// Every byte is compared whether or not an earlier one differed. Two
/// secrets of different lengths are different, and the comparison still
/// runs over the presented one, against itself.
fn same_secret(presented: &[u8], configured: &[u8]) -> (same: bool)
    ensures
        same == (presented@ == configured@),
{
    let equal_len = presented.len() == configured.len();
    let mut differ: u8 = if equal_len {
        0
    } else {
        1
    };
    let against = if equal_len {
        configured
    } else {
        presented
    };
    let mut i: usize = 0;
    while i < presented.len()
        invariant
            0 <= i <= presented@.len(),
            against@.len() == presented@.len(),
            equal_len == (presented@.len() == configured@.len()),
            equal_len ==> against@ == configured@,
            (differ == 0) <==> (equal_len && forall|j: int| 0 <= j < i ==> presented@[j] == against@[j]),
        decreases presented.len() - i,
    {
        let a = presented[i];
        let b = against[i];
        let x = a ^ b;
        proof {
            assert((a ^ b) == 0u8 <==> a == b) by (bit_vector);
            assert(((differ | x) == 0u8) <==> (differ == 0u8 && x == 0u8)) by (bit_vector);
        }
        differ = differ | x;
        i = i + 1;
    }
    proof {
        if equal_len && differ == 0 {
            assert(presented@ =~= configured@);
        }
    }
    differ == 0
}

/// The first token whose secret is `secret`, if any.
pub open spec fn first_token(tokens: Seq<Token>, secret: Seq<u8>) -> Option<int>
    decreases tokens.len(),
{
    if tokens.len() == 0 {
        None
    } else if tokens[0].secret@ == secret {
        Some(0)
    } else {
        match first_token(tokens.drop_first(), secret) {
            Some(i) => Some(i + 1),
            None => None,
        }
    }
}

/// The first token is among the tokens, carries the secret, and no token
/// before it does.
proof fn lemma_first_token(tokens: Seq<Token>, secret: Seq<u8>)
    ensures
        first_token(tokens, secret) matches Some(i) ==> 0 <= i < tokens.len() && tokens[i].secret@
            == secret && forall|j: int| 0 <= j < i ==> tokens[j].secret@ != secret,
        first_token(tokens, secret) is None ==> forall|j: int|
            0 <= j < tokens.len() ==> tokens[j].secret@ != secret,
    decreases tokens.len(),
{
    if tokens.len() > 0 {
        lemma_first_token(tokens.drop_first(), secret);
        assert forall|j: int| 1 <= j < tokens.len() implies tokens[j] == tokens.drop_first()[j - 1] by {}
    }
}

/// The restart-tier keys whose value in `next` differs from the one in
/// force in `current`, by name, in the order the file documents them.
pub open spec fn pending_names(current: Config, next: Config) -> Seq<Seq<char>> {
    seq![]
        + named_if(current.bind_address@ != next.bind_address@, "bind_address"@)
        + named_if(current.port != next.port, "port"@)
        + named_if(current.allow_public_bind != next.allow_public_bind, "allow_public_bind"@)
        + named_if(current.max_connections != next.max_connections, "max_connections"@)
        + named_if(current.ring_out_records != next.ring_out_records, "ring_out_records"@)
        + named_if(current.ring_in_sim_driver_records != next.ring_in_sim_driver_records, "ring_in_sim_driver_records"@)
        + named_if(current.ring_in_hook_driver_records != next.ring_in_hook_driver_records, "ring_in_hook_driver_records"@)
        + named_if(current.max_lifecycle_record_bytes != next.max_lifecycle_record_bytes, "max_lifecycle_record_bytes"@)
        + named_if(current.max_lifecycle_topics != next.max_lifecycle_topics, "max_lifecycle_topics"@)
}

/// `merged` takes every live key from `next` and keeps every restart-tier
/// key of `current`.
pub open spec fn live_applied(current: Config, next: Config, merged: Config) -> bool {
    &&& merged.enabled == next.enabled
    &&& merged.bind_address@ == current.bind_address@
    &&& merged.port == current.port
    &&& merged.allow_public_bind == current.allow_public_bind
    &&& merged.max_connections == current.max_connections
    &&& merged.max_unauthenticated_connections == next.max_unauthenticated_connections
    &&& merged.handshake_timeout_ms == next.handshake_timeout_ms
    &&& merged.max_frame_bytes == next.max_frame_bytes
    &&& merged.max_type_url_bytes == next.max_type_url_bytes
    &&& merged.rejected_max_per_sec == next.rejected_max_per_sec
    &&& merged.busy_max_per_sec == next.busy_max_per_sec
    &&& merged.inbound_records_per_sec == next.inbound_records_per_sec
    &&& merged.inbound_records_per_sec_total == next.inbound_records_per_sec_total
    &&& merged.auth_failures_per_min == next.auth_failures_per_min
    &&& merged.tokens == next.tokens
    &&& merged.ring_out_records == current.ring_out_records
    &&& merged.ring_out_lifecycle_reserve == next.ring_out_lifecycle_reserve
    &&& merged.ring_in_sim_driver_records == current.ring_in_sim_driver_records
    &&& merged.ring_in_hook_driver_records == current.ring_in_hook_driver_records
    &&& merged.heartbeat_interval_ms == next.heartbeat_interval_ms
    &&& merged.dcs_alive_threshold_ms == next.dcs_alive_threshold_ms
    &&& merged.dcs_alive_threshold_loading_ms == next.dcs_alive_threshold_loading_ms
    &&& merged.load_timeout_ms == next.load_timeout_ms
    &&& merged.request_timeout_ms == next.request_timeout_ms
    &&& merged.spool_max_bytes == next.spool_max_bytes
    &&& merged.spool_retention_hours == next.spool_retention_hours
    &&& merged.max_lifecycle_record_bytes == current.max_lifecycle_record_bytes
    &&& merged.max_lifecycle_topics == current.max_lifecycle_topics
    &&& merged.topic_filter_max_topics == next.topic_filter_max_topics
}

/// Where the heartbeat stands after a tick at `now` with `interval` in
/// force: stamped at `now` when it never was or the last stamp is at least
/// `interval` old, and as it was otherwise.
pub open spec fn ticked(heartbeat: u64, now: u64, interval: u64) -> u64 {
    if heartbeat == 0 || (if now >= heartbeat - 1 { now - (heartbeat - 1) } else { 0 }) >= interval {
        (now + 1) as u64
    } else {
        heartbeat
    }
}

/// The heartbeat's age at `now`, or nothing when it was never stamped.
pub open spec fn heard(heartbeat: u64, now: u64) -> Option<u64> {
    if heartbeat == 0 {
        None
    } else if now >= heartbeat - 1 {
        Some((now - (heartbeat - 1)) as u64)
    } else {
        Some(0)
    }
}

/// Law: the heartbeat is stamped at most once per interval. A tick that
/// stamps at `t1` is followed by no other stamp before `t1 + interval`.
pub proof fn law_heartbeat_at_most_once_per_interval(heartbeat: u64, t1: u64, t2: u64, interval: u64)
    requires
        t1 < u64::MAX,
        t1 <= t2 < t1 + interval,
        ticked(heartbeat, t1, interval) == t1 + 1,
    ensures
        ticked(ticked(heartbeat, t1, interval), t2, interval) == t1 + 1,
{
}

/// `name` once if `differs`, and nothing otherwise.
pub open spec fn named_if(differs: bool, name: Seq<char>) -> Seq<Seq<char>> {
    if differs {
        seq![name]
    } else {
        seq![]
    }
}

/// Name `name` as pending when `differs`.
fn push_if(pending: &mut Vec<&'static str>, differs: bool, name: &'static str)
    ensures
        final(pending)@.map_values(|s: &'static str| s@) == old(pending)@.map_values(
            |s: &'static str| s@,
        ) + named_if(differs, name@),
{
    let ghost before = pending@;
    if differs {
        pending.push(name);
    }
    proof {
        assert(pending@.map_values(|s: &'static str| s@) =~= before.map_values(|s: &'static str| s@)
            + named_if(differs, name@));
    }
}

/// The restart-tier keys whose value differs between `current` and
/// `next`, by name.
fn pending_of(current: &Config, next: &Config) -> (pending: Vec<&'static str>)
    ensures
        pending@.map_values(|s: &'static str| s@) == pending_names(*current, *next),
{
    let mut pending: Vec<&'static str> = Vec::new();
    proof {
        assert(pending@.map_values(|s: &'static str| s@) =~= Seq::<Seq<char>>::empty());
    }
    let moved = !crate::text::str_eq(current.bind_address.as_str(), next.bind_address.as_str());
    push_if(&mut pending, moved, "bind_address");
    push_if(&mut pending, current.port != next.port, "port");
    push_if(&mut pending, current.allow_public_bind != next.allow_public_bind, "allow_public_bind");
    push_if(&mut pending, current.max_connections != next.max_connections, "max_connections");
    push_if(&mut pending, current.ring_out_records != next.ring_out_records, "ring_out_records");
    push_if(&mut pending, current.ring_in_sim_driver_records != next.ring_in_sim_driver_records, "ring_in_sim_driver_records");
    push_if(&mut pending, current.ring_in_hook_driver_records != next.ring_in_hook_driver_records, "ring_in_hook_driver_records");
    push_if(&mut pending, current.max_lifecycle_record_bytes != next.max_lifecycle_record_bytes, "max_lifecycle_record_bytes");
    push_if(&mut pending, current.max_lifecycle_topics != next.max_lifecycle_topics, "max_lifecycle_topics");
    proof {
        assert(pending@.map_values(|s: &'static str| s@) =~= pending_names(*current, *next));
    }
    pending
}

/// A reload puts the applied table's live keys in force and keeps the
/// restart-tier ones: whatever was in force before, the token table after
/// is exactly the applied one, so a secret finds the token it finds there
/// and no other; the limits a connection is held to are the applied ones;
/// and the address, the port and every capacity fixed at start stay.
pub proof fn law_a_reload_puts_the_live_keys_in_force(current: Config, next: Config, merged: Config)
    requires
        live_applied(current, next, merged),
    ensures
        merged.tokens@ == next.tokens@,
        forall|secret: Seq<u8>| #[trigger] first_token(merged.tokens@, secret) == first_token(next.tokens@, secret),
        merged.enabled == next.enabled,
        merged.rejected_max_per_sec == next.rejected_max_per_sec,
        merged.busy_max_per_sec == next.busy_max_per_sec,
        merged.inbound_records_per_sec == next.inbound_records_per_sec,
        merged.inbound_records_per_sec_total == next.inbound_records_per_sec_total,
        merged.handshake_timeout_ms == next.handshake_timeout_ms,
        merged.max_frame_bytes == next.max_frame_bytes,
        merged.bind_address@ == current.bind_address@,
        merged.port == current.port,
        merged.max_connections == current.max_connections,
        merged.ring_out_records == current.ring_out_records,
        merged.ring_in_sim_driver_records == current.ring_in_sim_driver_records,
        merged.ring_in_hook_driver_records == current.ring_in_hook_driver_records,
        merged.allow_public_bind == current.allow_public_bind,
        merged.max_lifecycle_record_bytes == current.max_lifecycle_record_bytes,
        merged.max_lifecycle_topics == current.max_lifecycle_topics,
        merged.max_unauthenticated_connections == next.max_unauthenticated_connections,
        merged.max_type_url_bytes == next.max_type_url_bytes,
        merged.auth_failures_per_min == next.auth_failures_per_min,
        merged.ring_out_lifecycle_reserve == next.ring_out_lifecycle_reserve,
        merged.heartbeat_interval_ms == next.heartbeat_interval_ms,
        merged.dcs_alive_threshold_ms == next.dcs_alive_threshold_ms,
        merged.dcs_alive_threshold_loading_ms == next.dcs_alive_threshold_loading_ms,
        merged.load_timeout_ms == next.load_timeout_ms,
        merged.request_timeout_ms == next.request_timeout_ms,
        merged.spool_max_bytes == next.spool_max_bytes,
        merged.spool_retention_hours == next.spool_retention_hours,
        merged.topic_filter_max_topics == next.topic_filter_max_topics,
{
}

/// The token table in force is the one that authenticates. Over a bridge
/// whose tokens are `tokens`, a secret no token carries is refused as a bad
/// token and changes nothing; a secret whose first token grants something,
/// with a session free, opens a session on that token, with its id and its
/// capabilities.
pub proof fn law_the_tokens_in_force_authenticate(
    b: Bridge,
    tokens: Vec<Token>,
    secret: Seq<u8>,
    next: Bridge,
    r: Result<Session, AuthError>,
)
    requires
        b.cfg().tokens == tokens,
        b.authenticated_into(secret, next, r),
    ensures
        first_token(tokens@, secret) is None ==> r == Err::<Session, AuthError>(AuthError::BadToken) && next == b,
        first_token(tokens@, secret) is Some && tokens@[first_token(tokens@, secret)->0].caps@.len() > 0
            && b.sessions() < b.cfg().max_connections ==> (r matches Ok(s) && s.token_id@ == tokens@[first_token(
            tokens@,
            secret,
        )->0].id@ && s.caps@ == tokens@[first_token(tokens@, secret)->0].caps@ && next.sessions() == b.sessions()
            + 1),
{
}


/// `next` with every restart-tier key kept as `current` has it.
fn merge_live(current: &Config, next: Config) -> (merged: Config)
    ensures
        live_applied(*current, next, merged),
{
    Config {
        enabled: next.enabled,
        bind_address: current.bind_address.clone(),
        port: current.port,
        allow_public_bind: current.allow_public_bind,
        max_connections: current.max_connections,
        max_unauthenticated_connections: next.max_unauthenticated_connections,
        handshake_timeout_ms: next.handshake_timeout_ms,
        max_frame_bytes: next.max_frame_bytes,
        max_type_url_bytes: next.max_type_url_bytes,
        rejected_max_per_sec: next.rejected_max_per_sec,
        busy_max_per_sec: next.busy_max_per_sec,
        inbound_records_per_sec: next.inbound_records_per_sec,
        inbound_records_per_sec_total: next.inbound_records_per_sec_total,
        auth_failures_per_min: next.auth_failures_per_min,
        tokens: next.tokens,
        ring_out_records: current.ring_out_records,
        ring_out_lifecycle_reserve: next.ring_out_lifecycle_reserve,
        ring_in_sim_driver_records: current.ring_in_sim_driver_records,
        ring_in_hook_driver_records: current.ring_in_hook_driver_records,
        heartbeat_interval_ms: next.heartbeat_interval_ms,
        dcs_alive_threshold_ms: next.dcs_alive_threshold_ms,
        dcs_alive_threshold_loading_ms: next.dcs_alive_threshold_loading_ms,
        load_timeout_ms: next.load_timeout_ms,
        request_timeout_ms: next.request_timeout_ms,
        spool_max_bytes: next.spool_max_bytes,
        spool_retention_hours: next.spool_retention_hours,
        max_lifecycle_record_bytes: current.max_lifecycle_record_bytes,
        max_lifecycle_topics: current.max_lifecycle_topics,
        topic_filter_max_topics: next.topic_filter_max_topics,
    }
}

impl Bridge {
    /// The registration maps.
    pub closed spec fn reg(&self) -> Registry {
        self.registry
    }

    /// The configuration in force.
    pub closed spec fn cfg(&self) -> Config {
        self.config
    }

    /// Whether the first configuration has been applied.
    pub closed spec fn is_configured(&self) -> bool {
        self.configured
    }

    /// How many sessions are open.
    pub closed spec fn sessions(&self) -> u64 {
        self.authenticated
    }

    /// The heartbeat's stamp plus one, or zero when never stamped.
    pub closed spec fn stamped(&self) -> u64 {
        self.heartbeat
    }

    /// The bits of the mission time last published.
    pub closed spec fn clock(&self) -> u64 {
        self.mission_time
    }

    /// Whether a mission load is in progress.
    pub closed spec fn is_loading(&self) -> bool {
        self.loading
    }

    /// The open epoch, or zero.
    pub closed spec fn open_epoch(&self) -> u32 {
        self.epoch
    }

    /// The schema held, and its hash.
    pub closed spec fn held(&self) -> Option<(Seq<u8>, Seq<u8>)> {
        match self.schema {
            Some(h) => Some((h.set@, h.sha256@)),
            None => None,
        }
    }

    /// How many records were refused for `reason`.
    pub closed spec fn refusals(&self, reason: RejectedReason) -> u64 {
        match reason {
            RejectedReason::UnknownTopic => self.rejected_unknown_topic,
            RejectedReason::NoCapability => self.rejected_no_capability,
            RejectedReason::RateLimited => self.rejected_rate_limited,
            RejectedReason::Busy => self.rejected_busy,
        }
    }

    /// How many refusals were withheld by their cap.
    pub closed spec fn suppressed(&self) -> u64 {
        self.rejections_suppressed
    }

    /// How many `SeqAck` records were consumed.
    pub closed spec fn acks(&self) -> u64 {
        self.seq_acks
    }

    /// The window every connection's records for Lua are counted in: when
    /// it opened and what it has counted.
    pub closed spec fn total_window(&self) -> (u64, u32) {
        (self.inbound_total.opened(), self.inbound_total.counted())
    }

    /// Whether the inbound rings exist.
    pub closed spec fn rings_started(&self) -> bool {
        self.inbound is Some
    }

    /// What `target`'s ring holds, oldest first.
    pub closed spec fn queued(&self, target: Target) -> Seq<Command> {
        match self.inbound {
            Some(i) => match target {
                Target::SimDriver => i.sim.ring.records(),
                Target::HookDriver => i.hook.ring.records(),
            },
            None => Seq::empty(),
        }
    }

    /// How many records `target`'s ring holds at most.
    pub closed spec fn room(&self, target: Target) -> nat {
        match self.inbound {
            Some(i) => match target {
                Target::SimDriver => i.sim.ring.cap(),
                Target::HookDriver => i.hook.ring.cap(),
            },
            None => 0,
        }
    }

    /// How many records `target`'s ring had no room for.
    pub closed spec fn turned_away(&self, target: Target) -> u64 {
        match self.inbound {
            Some(i) => match target {
                Target::SimDriver => i.sim.busy,
                Target::HookDriver => i.hook.busy,
            },
            None => 0,
        }
    }

    /// How many inbound records named a topic in no route map.
    pub closed spec fn unrouted_count(&self) -> u64 {
        self.unrouted
    }

    /// How many records were refused for an unaddressable topic.
    pub closed spec fn misaddressed_count(&self) -> u64 {
        self.misaddressed
    }

    /// How many records were refused for a partly registered topic.
    pub closed spec fn partial_count(&self) -> u64 {
        self.partial_registration
    }

    /// Whether the commit ring exists.
    pub closed spec fn outbound_started(&self) -> bool {
        self.outbound is Some
    }

    /// The commit ring, once it exists.
    pub closed spec fn committed(&self) -> Commit<Vec<u8>> {
        self.outbound->Some_0
    }

    /// How many Lua states have opened the module.
    pub closed spec fn open_count(&self) -> u32 {
        self.opens
    }

    /// Restart-tier keys the last configuration found changed and left as
    /// they were, waiting for a restart.
    pub closed spec fn pending_count(&self) -> u64 {
        self.pending_restart
    }

    /// Keys the last configuration carried that the broker does not own.
    pub closed spec fn unknown_count(&self) -> u64 {
        self.unknown_keys
    }

    /// The number this process carries in every handshake.
    pub closed spec fn instance(&self) -> u64 {
        self.instance_id
    }

    /// The bridge's invariant: the maps and the rings well formed.
    pub closed spec fn wf(&self) -> bool {
        &&& self.registry.wf()
        &&& self.inbound matches Some(i) ==> i.sim.ring.wf() && i.hook.ring.wf()
        &&& self.outbound matches Some(c) ==> c.wf()
        &&& self.schema matches Some(h) ==> h.set@.len() + ANSWER_BYTES <= u32::MAX
    }

    /// A bridge with nothing started, nothing registered, and the default
    /// configuration in force.
    pub fn new(instance_id: u64, now_ms: u64) -> (b: Self)
        ensures
            b.wf(),
            b.reg().class_entries().len() == 0,
            b.reg().route_entries().len() == 0,
            b.reg().cap_entries().len() == 0,
            b.reg().reply_topics().len() == 0,
            b.cfg().is_default(),
            !b.is_configured(),
            !b.rings_started(),
            !b.outbound_started(),
            b.held() is None,
            b.sessions() == 0,
            b.stamped() == 0,
            b.clock() == 0,
            !b.is_loading(),
            b.open_epoch() == 0,
            b.acks() == 0,
            b.suppressed() == 0,
            forall|r: RejectedReason| #[trigger] b.refusals(r) == 0,
            b.total_window() == (now_ms, 0u32),
            b.unrouted_count() == 0,
            b.misaddressed_count() == 0,
            b.partial_count() == 0,
            b.open_count() == 0,
            b.instance() == instance_id,
            b.pending_count() == 0,
            b.unknown_count() == 0,
    {
        Bridge {
            opens: 0,
            registry: Registry::new(),
            inbound: None,
            outbound: None,
            unrouted: 0,
            misaddressed: 0,
            partial_registration: 0,
            instance_id,
            heartbeat: 0,
            mission_time: 0,
            loading: false,
            epoch: 0,
            config: Config::default(),
            configured: false,
            pending_restart: 0,
            unknown_keys: 0,
            authenticated: 0,
            seq_acks: 0,
            rejected_unknown_topic: 0,
            rejected_no_capability: 0,
            rejected_rate_limited: 0,
            rejected_busy: 0,
            rejections_suppressed: 0,
            inbound_total: Window::new(now_ms),
            schema: None,
        }
    }

    /// The configuration in force.
    pub fn config(&self) -> (c: &Config)
        ensures
            *c == self.cfg(),
    {
        &self.config
    }

    /// Whether the first configuration has been applied.
    pub fn configured(&self) -> (b: bool)
        ensures
            b == self.is_configured(),
    {
        self.configured
    }

    /// Restart-tier keys whose file value differs from the one in force, as
    /// of the last configuration.
    pub fn pending_restart(&self) -> (n: u64)
        ensures
            n == self.pending_count(),
    {
        self.pending_restart
    }

    /// Keys the last configuration carried that the broker does not own.
    pub fn unknown_keys(&self) -> (n: u64)
        ensures
            n == self.unknown_count(),
    {
        self.unknown_keys
    }

    /// Put a checked configuration in force, as one swap.
    ///
    /// The first one applies every key. A later one applies the live keys,
    /// names each restart-tier key whose value changed as pending a
    /// restart, and leaves it as it is. `unknown` counts the keys the table
    /// carried that the broker does not own. The token table is replaced,
    /// so a connection authenticating after this sees the new one.
    pub fn apply(&mut self, next: Config, unknown: u64) -> (pending: Vec<&'static str>)
        ensures
            final(self).is_configured(),
            !old(self).is_configured() ==> final(self).cfg() == next && pending@.len() == 0,
            old(self).is_configured() ==> live_applied(old(self).cfg(), next, final(self).cfg())
                && pending@.map_values(|s: &'static str| s@) == pending_names(old(self).cfg(), next),
            final(self).reg() == old(self).reg(),
            final(self).sessions() == old(self).sessions(),
            final(self).held() == old(self).held(),
            final(self).wf() == old(self).wf(),
            final(self).pending_count() == pending@.len(),
            final(self).unknown_count() == unknown,
            final(self).cfg().tokens == next.tokens,
    {
        let pending = if !self.configured {
            self.config = next;
            Vec::new()
        } else {
            let pending = pending_of(&self.config, &next);
            self.config = merge_live(&self.config, next);
            pending
        };
        self.pending_restart = pending.len() as u64;
        self.unknown_keys = unknown;
        self.configured = true;
        pending
    }

    /// Allocate the two inbound rings, `sim_capacity` records for the sim
    /// driver's and `hook_capacity` for the hook driver's, once. A second
    /// call changes nothing.
    pub fn start_inbound(&mut self, sim_capacity: usize, hook_capacity: usize)
        requires
            old(self).wf(),
            sim_capacity > 0,
            hook_capacity > 0,
        ensures
            final(self).wf(),
            final(self).rings_started(),
            !old(self).rings_started() ==> {
                &&& final(self).queued(Target::SimDriver).len() == 0
                &&& final(self).queued(Target::HookDriver).len() == 0
                &&& final(self).room(Target::SimDriver) == sim_capacity
                &&& final(self).room(Target::HookDriver) == hook_capacity
                &&& final(self).turned_away(Target::SimDriver) == 0
                &&& final(self).turned_away(Target::HookDriver) == 0
            },
            old(self).rings_started() ==> forall|t: Target| #[trigger] final(self).queued(t)
                == old(self).queued(t) && final(self).room(t) == old(self).room(t)
                && final(self).turned_away(t) == old(self).turned_away(t),
            final(self).cfg() == old(self).cfg(),
            final(self).reg() == old(self).reg(),
    {
        if self.inbound.is_some() {
            return;
        }
        self.inbound = Some(
            Inbound {
                sim: Lane { ring: Ring::new(sim_capacity), busy: 0 },
                hook: Lane { ring: Ring::new(hook_capacity), busy: 0 },
            },
        );
    }

    /// Allocate the commit ring the logic thread commits into, of
    /// `capacity` records, once. A second call changes nothing.
    pub fn start_outbound(&mut self, capacity: usize)
        requires
            old(self).wf(),
            capacity > 0,
        ensures
            final(self).wf(),
            final(self).outbound_started(),
            !old(self).outbound_started() ==> final(self).committed().records().len() == 0
                && final(self).committed().cap() == capacity,
            old(self).outbound_started() ==> final(self).committed() == old(self).committed(),
            final(self).cfg() == old(self).cfg(),
            final(self).reg() == old(self).reg(),
    {
        if self.outbound.is_none() {
            self.outbound = Some(Commit::new(capacity));
        }
    }
}


/// A part of the bridge's state, for saying what a call leaves alone.
#[derive(Clone, Copy, Debug, Eq, PartialEq, Structural)]
pub enum Part {
    /// The configuration in force and what the last table reported.
    Config,
    /// The count of open sessions.
    Sessions,
    /// The heartbeat and the mission time.
    Clock,
    /// The open epoch.
    Epoch,
    /// Whether a mission load is in progress.
    Loading,
    /// The refusal counts.
    Refusals,
    /// The count of `SeqAck` records.
    Acks,
    /// The window every connection's records are counted in.
    Total,
    /// The schema held.
    Schema,
    /// The inbound rings and their counts.
    Rings,
    /// The commit ring.
    Outbound,
    /// The registration maps.
    Registry,
    /// The count of records on no route.
    Unrouted,
    /// The count of records refused as unaddressable.
    Misaddressed,
    /// The count of records refused as partly registered.
    Partial,
    /// The count of module opens.
    Opens,
}

impl Bridge {
    /// `next` is `self` in every part outside `changed`.
    pub closed spec fn only(self, next: Bridge, changed: Set<Part>) -> bool {
        &&& !changed.contains(Part::Config) ==> next.config == self.config && next.configured
            == self.configured && next.pending_restart == self.pending_restart && next.unknown_keys
            == self.unknown_keys
        &&& !changed.contains(Part::Sessions) ==> next.authenticated == self.authenticated
        &&& !changed.contains(Part::Clock) ==> next.heartbeat == self.heartbeat && next.mission_time
            == self.mission_time
        &&& !changed.contains(Part::Epoch) ==> next.epoch == self.epoch
        &&& !changed.contains(Part::Loading) ==> next.loading == self.loading
        &&& !changed.contains(Part::Refusals) ==> next.rejected_unknown_topic
            == self.rejected_unknown_topic && next.rejected_no_capability
            == self.rejected_no_capability && next.rejected_rate_limited == self.rejected_rate_limited
            && next.rejected_busy == self.rejected_busy && next.rejections_suppressed
            == self.rejections_suppressed
        &&& !changed.contains(Part::Acks) ==> next.seq_acks == self.seq_acks
        &&& !changed.contains(Part::Total) ==> next.inbound_total == self.inbound_total
        &&& !changed.contains(Part::Schema) ==> next.schema == self.schema
        &&& !changed.contains(Part::Rings) ==> next.inbound == self.inbound
        &&& !changed.contains(Part::Outbound) ==> next.outbound == self.outbound
        &&& !changed.contains(Part::Registry) ==> next.registry == self.registry
        &&& !changed.contains(Part::Unrouted) ==> next.unrouted == self.unrouted
        &&& !changed.contains(Part::Misaddressed) ==> next.misaddressed == self.misaddressed
        &&& !changed.contains(Part::Partial) ==> next.partial_registration == self.partial_registration
        &&& !changed.contains(Part::Opens) ==> next.opens == self.opens
        &&& next.instance_id == self.instance_id
    }

    /// What `only` says, read through the bridge's views: every part outside
    /// `changed` reads as it did, and the instance never changes. A caller
    /// chains one call's result into the next through this.
    pub proof fn lemma_only(self, next: Bridge, changed: Set<Part>)
        requires
            self.only(next, changed),
        ensures
            !changed.contains(Part::Config) ==> next.cfg() == self.cfg() && next.is_configured()
                == self.is_configured() && next.pending_count() == self.pending_count() && next.unknown_count()
                == self.unknown_count(),
            !changed.contains(Part::Sessions) ==> next.sessions() == self.sessions(),
            !changed.contains(Part::Clock) ==> next.stamped() == self.stamped() && next.clock() == self.clock(),
            !changed.contains(Part::Epoch) ==> next.open_epoch() == self.open_epoch(),
            !changed.contains(Part::Loading) ==> next.is_loading() == self.is_loading(),
            !changed.contains(Part::Refusals) ==> next.suppressed() == self.suppressed() && forall|
                reason: RejectedReason,
            | #[trigger] next.refusals(reason) == self.refusals(reason),
            !changed.contains(Part::Acks) ==> next.acks() == self.acks(),
            !changed.contains(Part::Total) ==> next.total_window() == self.total_window(),
            !changed.contains(Part::Schema) ==> next.held() == self.held(),
            !changed.contains(Part::Rings) ==> next.rings_started() == self.rings_started() && forall|t: Target|
                #[trigger] next.queued(t) == self.queued(t) && next.room(t) == self.room(t) && next.turned_away(t)
                    == self.turned_away(t),
            !changed.contains(Part::Outbound) ==> next.outbound_started() == self.outbound_started()
                && next.committed() == self.committed(),
            !changed.contains(Part::Registry) ==> next.reg() == self.reg(),
            !changed.contains(Part::Unrouted) ==> next.unrouted_count() == self.unrouted_count(),
            !changed.contains(Part::Misaddressed) ==> next.misaddressed_count() == self.misaddressed_count(),
            !changed.contains(Part::Partial) ==> next.partial_count() == self.partial_count(),
            !changed.contains(Part::Opens) ==> next.open_count() == self.open_count(),
            next.instance() == self.instance(),
    {
    }

    /// Replace the token table whole, leaving every other key as it is.
    pub fn set_tokens(&mut self, tokens: Vec<Token>)
        ensures
            final(self).cfg() == (Config { tokens: tokens, ..old(self).cfg() }),
            final(self).is_configured() == old(self).is_configured(),
            old(self).only(*final(self), set![Part::Config]),
            final(self).wf() == old(self).wf(),
    {
        self.config.tokens = tokens;
    }

    /// What authenticating `secret` leaves and answers: a session on the
    /// first token carrying it, with the count of open sessions one higher;
    /// or, when no token carries it, when that token grants nothing, or when
    /// `max_connections` sessions are open, the error and nothing changed.
    pub open spec fn authenticated_into(self, secret: Seq<u8>, next: Bridge, r: Result<Session, AuthError>) -> bool {
        match first_token(self.cfg().tokens@, secret) {
            None => r == Err::<Session, AuthError>(AuthError::BadToken) && next == self,
            Some(i) => {
                let token = self.cfg().tokens@[i];
                if token.caps@.len() == 0 {
                    r == Err::<Session, AuthError>(AuthError::EmptyCapabilitySet) && next == self
                } else if self.sessions() >= self.cfg().max_connections {
                    r == Err::<Session, AuthError>(AuthError::ServerFull) && next == self
                } else {
                    &&& r matches Ok(session) && session.token_id@ == token.id@ && session.caps@
                        == token.caps@
                    &&& next.sessions() == self.sessions() + 1
                    &&& self.only(next, set![Part::Sessions])
                }
            },
        }
    }

    /// Match `secret` against every token and open a session on the first
    /// one that carries it.
    ///
    /// Every token is compared whether or not an earlier one matched, so
    /// the time taken says nothing about which entry, if any, was right. A
    /// match with an empty capability set is refused, and so is a match
    /// past `max_connections` open sessions.
    pub fn authenticate(&mut self, secret: &[u8]) -> (r: Result<Session, AuthError>)
        ensures
            old(self).authenticated_into(secret@, *final(self), r),
            final(self).wf() == old(self).wf(),
    {
        let tokens = &self.config.tokens;
        let mut matched: Option<usize> = None;
        let mut i: usize = 0;
        proof {
            lemma_first_token(tokens@, secret@);
        }
        while i < tokens.len()
            invariant
                0 <= i <= tokens@.len(),
                tokens == &self.config.tokens,
                match matched {
                    Some(m) => first_token(tokens@, secret@) == Some(m as int) && m < i,
                    None => forall|j: int| 0 <= j < i ==> tokens@[j].secret@ != secret@,
                },
            decreases tokens.len() - i,
        {
            let same = same_secret(secret, tokens[i].secret.as_slice());
            if same && matched.is_none() {
                proof {
                    lemma_first_token(tokens@, secret@);
                    lemma_first_token_is(tokens@, secret@, i as int);
                }
                matched = Some(i);
            }
            i = i + 1;
        }
        let index = match matched {
            Some(index) => index,
            None => {
                proof {
                    lemma_first_token(tokens@, secret@);
                    lemma_no_token(tokens@, secret@);
                }
                return Err(AuthError::BadToken);
            },
        };
        let token = &tokens[index];
        if token.caps.len() == 0 {
            return Err(AuthError::EmptyCapabilitySet);
        }
        if self.authenticated >= self.config.max_connections as u64 {
            return Err(AuthError::ServerFull);
        }
        let session = Session { token_id: token.id.clone(), caps: token.caps.clone() };
        proof {
            assert(session.caps@ =~= token.caps@);
        }
        self.authenticated = self.authenticated + 1;
        Ok(session)
    }

    /// A session's connection has closed; its slot is free. The count
    /// never goes below zero.
    pub fn disconnected(&mut self, session: &Session)
        ensures
            final(self).sessions() == if old(self).sessions() > 0 {
                (old(self).sessions() - 1) as u64
            } else {
                0
            },
            old(self).only(*final(self), set![Part::Sessions]),
            final(self).wf() == old(self).wf(),
    {
        if self.authenticated > 0 {
            self.authenticated = self.authenticated - 1;
        }
    }

    /// How many connections are authenticated right now.
    pub fn authenticated(&self) -> (n: u64)
        ensures
            n == self.sessions(),
    {
        self.authenticated
    }

    /// The logic thread is running at `now_ms`, and `mission_time` is the
    /// sim's clock, as a double's bits.
    ///
    /// The mission time is published on every call, and the heartbeat is
    /// stamped at most once per `heartbeat_interval_ms`.
    pub fn tick_at(&mut self, now_ms: u64, mission_time: u64)
        requires
            now_ms < u64::MAX,
        ensures
            final(self).clock() == mission_time,
            final(self).stamped() == ticked(old(self).stamped(), now_ms, old(self).cfg().heartbeat_interval_ms),
            old(self).only(*final(self), set![Part::Clock]),
            final(self).wf() == old(self).wf(),
    {
        self.mission_time = mission_time;
        let interval = self.config.heartbeat_interval_ms;
        let due = if self.heartbeat == 0 {
            true
        } else {
            let since = self.heartbeat - 1;
            let age = if now_ms >= since {
                now_ms - since
            } else {
                0
            };
            age >= interval
        };
        if due {
            self.heartbeat = now_ms + 1;
        }
    }

    /// The bits of the mission time the last tick published, or zero
    /// before the first.
    pub fn mission_time(&self) -> (bits: u64)
        ensures
            bits == self.clock(),
    {
        self.mission_time
    }

    /// Open an epoch, or close the one that is open.
    pub fn set_epoch(&mut self, epoch: Option<u32>)
        ensures
            final(self).open_epoch() == match epoch {
                Some(e) => e,
                None => 0,
            },
            old(self).only(*final(self), set![Part::Epoch]),
            final(self).wf() == old(self).wf(),
    {
        self.epoch = match epoch {
            Some(e) => e,
            None => 0,
        };
    }

    /// What `begin` writes into the envelope: the open epoch and the clock,
    /// or nothing outside an epoch.
    pub fn stamp(&self) -> (s: Option<Stamp>)
        ensures
            s == if self.open_epoch() == 0 {
                None
            } else {
                Some(Stamp { epoch: self.open_epoch(), mission_time: self.clock() })
            },
    {
        if self.epoch == 0 {
            None
        } else {
            Some(Stamp { epoch: self.epoch, mission_time: self.mission_time })
        }
    }

    /// Mark a mission load as in progress, or over.
    pub fn set_loading(&mut self, loading: bool)
        ensures
            final(self).is_loading() == loading,
            old(self).only(*final(self), set![Part::Loading]),
            final(self).wf() == old(self).wf(),
    {
        self.loading = loading;
    }

    /// What a `Pong` carries at `now_ms`.
    pub open spec fn liveness_at(self, now_ms: u64) -> Liveness {
        Liveness {
            last_heard_ms: heard(self.stamped(), now_ms),
            alive: match heard(self.stamped(), now_ms) {
                Some(age) => age < if self.is_loading() {
                    self.cfg().dcs_alive_threshold_loading_ms
                } else {
                    self.cfg().dcs_alive_threshold_ms
                },
                None => false,
            },
            enabled: self.cfg().enabled,
        }
    }

    /// What a `Pong` carries at `now_ms`: the heartbeat's age, whether that
    /// is under the threshold in force, and the kill switch's value.
    pub fn liveness(&self, now_ms: u64) -> (l: Liveness)
        ensures
            l == self.liveness_at(now_ms),
    {
        let last_heard_ms = if self.heartbeat == 0 {
            None
        } else {
            let since = self.heartbeat - 1;
            Some(
                if now_ms >= since {
                    now_ms - since
                } else {
                    0
                },
            )
        };
        let threshold = if self.loading {
            self.config.dcs_alive_threshold_loading_ms
        } else {
            self.config.dcs_alive_threshold_ms
        };
        let alive = match last_heard_ms {
            Some(age) => age < threshold,
            None => false,
        };
        Liveness { last_heard_ms, alive, enabled: self.config.enabled }
    }

    /// The effective value of the `enabled` key.
    pub fn enabled(&self) -> (b: bool)
        ensures
            b == self.cfg().enabled,
    {
        self.config.enabled
    }

    /// Set the kill switch: the one key `SetEnabled` moves between two
    /// configurations.
    pub fn set_enabled(&mut self, enabled: bool)
        ensures
            final(self).cfg() == (Config { enabled: enabled, ..old(self).cfg() }),
            final(self).is_configured() == old(self).is_configured(),
            old(self).only(*final(self), set![Part::Config]),
            final(self).wf() == old(self).wf(),
    {
        self.config.enabled = enabled;
    }

    /// A consumer reported `seq` as durably processed. Counted; the number
    /// itself is read by nothing yet.
    pub fn seq_ack(&mut self, seq: u64)
        ensures
            final(self).acks() == next_count(old(self).acks()),
            old(self).only(*final(self), set![Part::Acks]),
            final(self).wf() == old(self).wf(),
    {
        self.seq_acks = wrapping_inc(self.seq_acks);
    }

    /// How many `SeqAck` records have been consumed.
    pub fn seq_acks(&self) -> (n: u64)
        ensures
            n == self.acks(),
    {
        self.seq_acks
    }

    /// What counting a refusal for `reason`, answered or withheld, leaves:
    /// one more under the reason, and one more suppressed when withheld.
    pub open spec fn counted_refusal(self, reason: RejectedReason, answered: bool, next: Bridge) -> bool {
        &&& forall|r: RejectedReason| #[trigger] next.refusals(r) == if r == reason {
            next_count(self.refusals(r))
        } else {
            self.refusals(r)
        }
        &&& next.suppressed() == if answered {
            self.suppressed()
        } else {
            next_count(self.suppressed())
        }
        &&& self.only(next, set![Part::Refusals])
        &&& next.wf() == self.wf()
        &&& next.cfg() == self.cfg()
        &&& next.is_configured() == self.is_configured()
        &&& next.sessions() == self.sessions()
        &&& next.reg() == self.reg()
    }

    /// A record was refused for `reason`; `answered` says whether the
    /// `Rejected` was sent or withheld by its cap. Every refusal counts by
    /// its reason, and a withheld one as suppressed too.
    pub fn rejected(&mut self, reason: RejectedReason, answered: bool)
        ensures
            old(self).counted_refusal(reason, answered, *final(self)),
    {
        match reason {
            RejectedReason::UnknownTopic => {
                self.rejected_unknown_topic = wrapping_inc(self.rejected_unknown_topic);
            },
            RejectedReason::NoCapability => {
                self.rejected_no_capability = wrapping_inc(self.rejected_no_capability);
            },
            RejectedReason::RateLimited => {
                self.rejected_rate_limited = wrapping_inc(self.rejected_rate_limited);
            },
            RejectedReason::Busy => {
                self.rejected_busy = wrapping_inc(self.rejected_busy);
            },
        }
        if !answered {
            self.rejections_suppressed = wrapping_inc(self.rejections_suppressed);
        }
    }

    /// How many records were refused for `reason`, answered or not.
    pub fn commands_rejected(&self, reason: RejectedReason) -> (n: u64)
        ensures
            n == self.refusals(reason),
    {
        match reason {
            RejectedReason::UnknownTopic => self.rejected_unknown_topic,
            RejectedReason::NoCapability => self.rejected_no_capability,
            RejectedReason::RateLimited => self.rejected_rate_limited,
            RejectedReason::Busy => self.rejected_busy,
        }
    }

    /// How many refusals were over their cap and answered with nothing.
    pub fn rejections_suppressed(&self) -> (n: u64)
        ensures
            n == self.suppressed(),
    {
        self.rejections_suppressed
    }

    /// Count one record for Lua at `now_ms` against every connection's
    /// total, and say whether it fit under `cap`.
    pub fn admit_total(&mut self, now_ms: u64, cap: u32) -> (fits: bool)
        ensures
            accepted(old(self).total_window().0, old(self).total_window().1, now_ms, cap) == (
                final(self).total_window().0,
                final(self).total_window().1,
                fits,
            ),
            old(self).only(*final(self), set![Part::Total]),
            final(self).wf() == old(self).wf(),
    {
        self.inbound_total.accept(now_ms, cap)
    }
}

/// The first token found by a forward scan is the first token.
proof fn lemma_first_token_is(tokens: Seq<Token>, secret: Seq<u8>, i: int)
    requires
        0 <= i < tokens.len(),
        tokens[i].secret@ == secret,
        forall|j: int| 0 <= j < i ==> tokens[j].secret@ != secret,
    ensures
        first_token(tokens, secret) == Some(i),
    decreases tokens.len(),
{
    if i > 0 {
        assert forall|j: int| 0 <= j < i - 1 implies tokens.drop_first()[j].secret@ != secret by {
            assert(tokens.drop_first()[j] == tokens[j + 1]);
        }
        lemma_first_token_is(tokens.drop_first(), secret, i - 1);
    }
}

/// No token carrying the secret means no first one.
proof fn lemma_no_token(tokens: Seq<Token>, secret: Seq<u8>)
    requires
        forall|j: int| 0 <= j < tokens.len() ==> tokens[j].secret@ != secret,
    ensures
        first_token(tokens, secret) is None,
    decreases tokens.len(),
{
    if tokens.len() > 0 {
        assert forall|j: int| 0 <= j < tokens.len() - 1 implies tokens.drop_first()[j].secret@ != secret by {
            assert(tokens.drop_first()[j] == tokens[j + 1]);
        }
        lemma_no_token(tokens.drop_first(), secret);
    }
}

/// Law: authentication never opens a session past `max_connections`, and
/// a refused one changes nothing.
pub proof fn law_sessions_stay_under_the_cap(
    before: Bridge,
    after: Bridge,
    secret: Seq<u8>,
    r: Result<Session, AuthError>,
)
    requires
        before.sessions() <= before.cfg().max_connections,
        before.authenticated_into(secret, after, r),
    ensures
        after.sessions() <= after.cfg().max_connections,
        r is Err ==> after == before,
{
}


/// Offer `command` to one inbound ring: stored when there is room, and
/// handed back as busy, and counted, when there is none.
fn offer(lane: &mut Lane, command: Command) -> (d: Delivery)
    requires
        old(lane).ring.wf(),
    ensures
        final(lane).ring.wf(),
        final(lane).ring.cap() == old(lane).ring.cap(),
        old(lane).ring.records().len() < old(lane).ring.cap() ==> d == Delivery::Stored
            && final(lane).ring.records() == old(lane).ring.records().push(command)
            && final(lane).busy == old(lane).busy,
        old(lane).ring.records().len() >= old(lane).ring.cap() ==> d == Delivery::Busy(command)
            && final(lane).ring.records() == old(lane).ring.records() && final(lane).busy
            == next_count(old(lane).busy),
{
    proof {
        old(lane).ring.lemma_bounds();
    }
    match lane.ring.offer(command) {
        Push::Stored => Delivery::Stored,
        Push::Refused(command) => {
            lane.busy = wrapping_inc(lane.busy);
            Delivery::Busy(command)
        },
        Push::Evicted(command) => {
            lane.busy = wrapping_inc(lane.busy);
            Delivery::Busy(command)
        },
    }
}

/// Whether `caps` holds `need`.
pub fn holds(caps: &[Capability], need: Capability) -> (b: bool)
    ensures
        b == caps@.contains(need),
{
    let mut i: usize = 0;
    while i < caps.len()
        invariant
            0 <= i <= caps@.len(),
            forall|j: int| 0 <= j < i ==> caps@[j] != need,
        decreases caps.len() - i,
    {
        if caps[i] == need {
            return true;
        }
        i = i + 1;
    }
    false
}

impl Bridge {
    /// What delivering `command` from a session holding `caps` leaves and
    /// answers: handed back as unrouted, and counted, when no route map
    /// names its topic or the rings do not exist yet; handed back as
    /// uncovered when the session's token does not cover the capability
    /// the topic requires, or none is registered for it; handed back as
    /// busy, and counted against the ring, when the ring its route names
    /// is full; and otherwise stored at the ring's far end.
    pub open spec fn delivered(self, caps: Seq<Capability>, command: Command, next: Bridge, d: Delivery) -> bool {
        let topic = encode_utf8(command.topic@);
        let need = lookup_bytes(self.reg().cap_entries(), topic);
        match lookup_bytes(self.reg().route_entries(), topic) {
            Some(target) if self.rings_started() => {
                if !(need matches Some(required) && caps.contains(required)) {
                    d == Delivery::Uncovered(command) && next == self
                } else if self.queued(target).len() >= self.room(target) {
                    &&& d == Delivery::Busy(command)
                    &&& next.turned_away(target) == next_count(self.turned_away(target))
                    &&& forall|t: Target| #[trigger] next.queued(t) == self.queued(t)
                    &&& forall|t: Target| t != target ==> #[trigger] next.turned_away(t) == self.turned_away(t)
                    &&& forall|t: Target| #[trigger] next.room(t) == self.room(t)
                    &&& next.rings_started()
                    &&& self.only(next, set![Part::Rings])
                } else {
                    &&& d == Delivery::Stored
                    &&& next.queued(target) == self.queued(target).push(command)
                    &&& forall|t: Target| t != target ==> #[trigger] next.queued(t) == self.queued(t)
                    &&& forall|t: Target| #[trigger] next.turned_away(t) == self.turned_away(t)
                    &&& forall|t: Target| #[trigger] next.room(t) == self.room(t)
                    &&& next.rings_started()
                    &&& self.only(next, set![Part::Rings])
                }
            },
            _ => {
                &&& d == Delivery::Unrouted(command)
                &&& next.unrouted_count() == next_count(self.unrouted_count())
                &&& self.only(next, set![Part::Unrouted])
            },
        }
    }

    /// Put an inbound record from a session holding `caps` on the ring its
    /// route names, or hand it back.
    ///
    /// A topic in no route map goes nowhere and is counted, never defaulted
    /// to the sim driver: a command the sim driver was not told to expect is
    /// not one it should run. A routed topic the session's token does not
    /// cover goes nowhere either, and so does one with no capability
    /// registered. A full ring turns the newest record away and counts it.
    pub fn deliver(&mut self, caps: &[Capability], command: Command) -> (d: Delivery)
        requires
            old(self).wf(),
        ensures
            final(self).wf(),
            old(self).delivered(caps@, command, *final(self), d),
    {
        let route = self.registry.routes().get(command.topic.as_str());
        let need = self.registry.caps().get(command.topic.as_str());
        let covered = match need {
            Some(required) => holds(caps, required),
            None => false,
        };
        match (route, &mut self.inbound) {
            (Some(target), Some(inbound)) => {
                if !covered {
                    return Delivery::Uncovered(command);
                }
                match target {
                    Target::SimDriver => offer(&mut inbound.sim, command),
                    Target::HookDriver => offer(&mut inbound.hook, command),
                }
            },
            _ => {
                self.unrouted = wrapping_inc(self.unrouted);
                Delivery::Unrouted(command)
            },
        }
    }

    /// Take the oldest record from `target`'s ring, or nothing when it holds
    /// none. Before the rings exist there is nothing to poll.
    pub fn poll(&mut self, target: Target) -> (r: Result<Option<Command>, PollError>)
        requires
            old(self).wf(),
        ensures
            final(self).wf(),
            !old(self).rings_started() ==> r == Err::<Option<Command>, PollError>(PollError::NotStarted)
                && *final(self) == *old(self),
            old(self).rings_started() ==> {
                &&& final(self).rings_started()
                &&& old(self).queued(target).len() == 0 ==> r == Ok::<Option<Command>, PollError>(None)
                    && final(self).queued(target) == old(self).queued(target)
                &&& old(self).queued(target).len() > 0 ==> r == Ok::<Option<Command>, PollError>(
                    Some(old(self).queued(target)[0]),
                ) && final(self).queued(target) == old(self).queued(target).drop_first()
                &&& forall|t: Target| t != target ==> #[trigger] final(self).queued(t) == old(self).queued(t)
                &&& forall|t: Target| #[trigger] final(self).turned_away(t) == old(self).turned_away(t)
                &&& forall|t: Target| #[trigger] final(self).room(t) == old(self).room(t)
                &&& old(self).only(*final(self), set![Part::Rings])
            },
    {
        match &mut self.inbound {
            None => Err(PollError::NotStarted),
            Some(inbound) => match target {
                Target::SimDriver => Ok(inbound.sim.ring.pop()),
                Target::HookDriver => Ok(inbound.hook.ring.pop()),
            },
        }
    }

    /// How many inbound records named a topic in no route map.
    pub fn unrouted_topic(&self) -> (n: u64)
        ensures
            n == self.unrouted_count(),
    {
        self.unrouted
    }

    /// How many inbound records `target`'s ring had no room for. Zero
    /// before the rings exist.
    pub fn inbound_busy(&self, target: Target) -> (n: u64)
        ensures
            n == self.turned_away(target),
    {
        match &self.inbound {
            None => 0,
            Some(inbound) => match target {
                Target::SimDriver => inbound.sim.busy,
                Target::HookDriver => inbound.hook.busy,
            },
        }
    }

    /// What this broker greets a connection with: the schema's hash is
    /// absent until the schema is handed over, and present in every
    /// handshake after that.
    pub fn handshake(&self) -> (h: Handshake)
        ensures
            h.protocol == crate::PROTOCOL_VERSION,
            h.broker == crate::BROKER_VERSION,
            h.instance_id == self.instance(),
            match self.held() {
                Some((_, hash)) => h.schema_sha256 matches Some(x) && x@ == hash,
                None => h.schema_sha256 is None,
            },
    {
        Handshake {
            protocol: crate::PROTOCOL_VERSION,
            broker: crate::BROKER_VERSION,
            instance_id: self.instance_id,
            schema_sha256: match &self.schema {
                Some(held) => Some(held.sha256),
                None => None,
            },
        }
    }

    /// Take the schema the hook driver read, hash it, and serve it from now
    /// on: `GetSchema` answers with the bytes and the handshake carries the
    /// hash. Returns the hash.
    ///
    /// Refused before the first configuration; refused when empty; refused
    /// when the answer would outgrow `max_frame_bytes` as in force; and
    /// refused once a schema is held, since replacing the served set is a
    /// restart. A refusal changes nothing. The bytes are not parsed.
    pub fn hold_schema(&mut self, bytes: &[u8]) -> (r: Result<[u8; 32], SchemaError>)
        requires
            old(self).wf(),
        ensures
            !old(self).is_configured() ==> r == Err::<[u8; 32], SchemaError>(SchemaError::NotConfigured)
                && *final(self) == *old(self),
            old(self).is_configured() && bytes@.len() == 0 ==> r == Err::<[u8; 32], SchemaError>(
                SchemaError::Empty,
            ) && *final(self) == *old(self),
            old(self).is_configured() && bytes@.len() > 0 && bytes@.len() + ANSWER_BYTES
                > old(self).cfg().max_frame_bytes ==> r == Err::<[u8; 32], SchemaError>(
                SchemaError::TooLarge {
                    len: bytes@.len() as usize,
                    max_frame_bytes: old(self).cfg().max_frame_bytes,
                },
            ) && *final(self) == *old(self),
            old(self).is_configured() && bytes@.len() > 0 && bytes@.len() + ANSWER_BYTES
                <= old(self).cfg().max_frame_bytes && old(self).held() is Some ==> r == Err::<
                [u8; 32],
                SchemaError,
            >(SchemaError::Held) && *final(self) == *old(self),
            old(self).is_configured() && bytes@.len() > 0 && bytes@.len() + ANSWER_BYTES
                <= old(self).cfg().max_frame_bytes && old(self).held() is None ==> (r matches Ok(
                hash,
            ) && hash@ == sha256(bytes@) && final(self).held() == Some((bytes@, hash@))
                && old(self).only(*final(self), set![Part::Schema])),
            final(self).wf() == old(self).wf(),
    {
        if !self.configured {
            return Err(SchemaError::NotConfigured);
        }
        if bytes.len() == 0 {
            return Err(SchemaError::Empty);
        }
        let max_frame_bytes = self.config.max_frame_bytes;
        if bytes.len() > max_frame_bytes as usize || max_frame_bytes as usize - bytes.len() < ANSWER_BYTES {
            return Err(SchemaError::TooLarge { len: bytes.len(), max_frame_bytes });
        }
        if self.schema.is_some() {
            return Err(SchemaError::Held);
        }
        let sha256 = sha256_of(bytes);
        let set = vstd::slice::slice_to_vec(bytes);
        self.schema = Some(HeldSchema { set, sha256 });
        Ok(sha256)
    }

    /// A held schema's answer fits a frame, so its length is well under
    /// what a `usize` counts.
    pub proof fn lemma_held_fits(&self)
        requires
            self.wf(),
        ensures
            self.held() matches Some((set, _)) ==> set.len() + ANSWER_BYTES <= u32::MAX,
    {
    }

    /// The schema as handed over, or nothing until the hand-off.
    pub fn schema(&self) -> (s: Option<&[u8]>)
        ensures
            match self.held() {
                Some((set, _)) => s matches Some(x) && x@ == set,
                None => s is None,
            },
    {
        match &self.schema {
            Some(held) => Some(held.set.as_slice()),
            None => None,
        }
    }

    /// Record that a Lua state has opened the module, and number this open:
    /// the first is 1.
    pub fn open(&mut self) -> (n: u32)
        ensures
            n == if old(self).open_count() == u32::MAX {
                u32::MAX
            } else {
                (old(self).open_count() + 1) as u32
            },
            final(self).open_count() == if old(self).open_count() == u32::MAX {
                0
            } else {
                (old(self).open_count() + 1) as u32
            },
            old(self).only(*final(self), set![Part::Opens]),
            final(self).wf() == old(self).wf(),
    {
        let before = self.opens;
        self.opens = if before == u32::MAX {
            0
        } else {
            before + 1
        };
        if before == u32::MAX {
            u32::MAX
        } else {
            before + 1
        }
    }

    /// How many Lua states have opened the module in this process.
    pub fn opens(&self) -> (n: u32)
        ensures
            n == self.open_count(),
    {
        self.opens
    }

    /// The three registration maps.
    pub fn registry(&self) -> (r: &Registry)
        ensures
            *r == self.reg(),
    {
        &self.registry
    }

    /// Whether a record on `topic` may be addressed to one connection,
    /// counting a refusal.
    pub fn addressable(&mut self, topic: &[u8]) -> (b: bool)
        ensures
            b == old(self).reg().addresses(topic@),
            final(self).misaddressed_count() == if b {
                old(self).misaddressed_count()
            } else {
                next_count(old(self).misaddressed_count())
            },
            old(self).only(*final(self), set![Part::Misaddressed]),
            final(self).wf() == old(self).wf(),
    {
        let addressable = self.registry.is_addressable(topic);
        if !addressable {
            self.misaddressed = wrapping_inc(self.misaddressed);
        }
        addressable
    }

    /// How many records were refused for naming a topic that is neither a
    /// reply nor the acknowledgement.
    pub fn misaddressed(&self) -> (n: u64)
        ensures
            n == self.misaddressed_count(),
    {
        self.misaddressed
    }

    /// The capability `topic` requires, the ring its records take and the
    /// retained-set slot it replaces; or nothing when it has no class or no
    /// capability registered, counting a refusal.
    pub fn registered(&mut self, topic: &[u8]) -> (r: Option<(Capability, Class, Option<u32>)>)
        ensures
            r == old(self).reg().requirement(topic@),
            final(self).partial_count() == if r is Some {
                old(self).partial_count()
            } else {
                next_count(old(self).partial_count())
            },
            old(self).only(*final(self), set![Part::Partial]),
            final(self).wf() == old(self).wf(),
    {
        let required = self.registry.required(topic);
        if required.is_none() {
            self.partial_registration = wrapping_inc(self.partial_registration);
        }
        required
    }

    /// How many records were refused for naming a topic missing a class or
    /// a capability.
    pub fn partial_registration(&self) -> (n: u64)
        ensures
            n == self.partial_count(),
    {
        self.partial_registration
    }

    /// Merge a table of drop policies under the `max_lifecycle_topics` in
    /// force, answering the rows it added or the refusal.
    pub fn register_classes(&mut self, rows: Vec<(Topic, RecordClass)>) -> (r: Result<usize, Refusal>)
        requires
            old(self).wf(),
            old(self).reg().slot_topics().len() + rows@.len() <= u32::MAX,
        ensures
            final(self).wf(),
            old(self).reg().classes_merged(
                crate::registry::rows_view(rows@),
                old(self).cfg().max_lifecycle_topics,
                final(self).reg(),
                r,
            ),
            old(self).only(*final(self), set![Part::Registry]),
    {
        let cap = self.config.max_lifecycle_topics;
        self.registry.register_classes(rows, cap)
    }

    /// Merge a table of destination states.
    pub fn register_routes(&mut self, rows: Vec<(Topic, Target)>) -> (r: Result<usize, Refusal>)
        requires
            old(self).wf(),
        ensures
            final(self).wf(),
            old(self).reg().routes_merged(crate::registry::rows_view(rows@), final(self).reg(), r),
            old(self).only(*final(self), set![Part::Registry]),
    {
        self.registry.register_routes(rows)
    }

    /// Merge a table of required capabilities.
    pub fn register_caps(&mut self, rows: Vec<(Topic, Capability)>) -> (r: Result<usize, Refusal>)
        requires
            old(self).wf(),
        ensures
            final(self).wf(),
            old(self).reg().caps_merged(crate::registry::rows_view(rows@), final(self).reg(), r),
            old(self).only(*final(self), set![Part::Registry]),
    {
        self.registry.register_caps(rows)
    }

    /// Add topics to the addressable set, answering how many were new.
    pub fn register_replies(&mut self, topics: Vec<Topic>) -> (n: usize)
        requires
            old(self).wf(),
        ensures
            final(self).wf(),
            old(self).reg().replies_added(topics@.map_values(|t: Topic| t@), final(self).reg(), n),
            old(self).only(*final(self), set![Part::Registry]),
    {
        self.registry.register_replies(topics)
    }

    /// Queue an envelope tail for every connection whose token covers
    /// `need`, in the ring `class` names, replacing retained-set slot
    /// `slot` when there is one. A record the commit ring evicts to make
    /// room is dropped here.
    pub fn commit(&mut self, need: Capability, class: Class, slot: Option<u32>, tail: Vec<u8>) -> (r: Result<(), CommitError>)
        requires
            old(self).wf(),
        ensures
            final(self).wf(),
            !old(self).outbound_started() ==> r == Err::<(), CommitError>(CommitError::NotStarted)
                && *final(self) == *old(self),
            old(self).outbound_started() ==> r is Ok && final(self).outbound_started() && exists|p: Push<Vec<u8>>|
                #[trigger] old(self).committed().pushed(
                    final(self).committed(),
                    fanned(need, class, slot, tail),
                    p,
                ),
            old(self).only(*final(self), set![Part::Outbound]),
    {
        let mut commit = match self.outbound.take() {
            None => {
                return Err(CommitError::NotStarted);
            },
            Some(commit) => commit,
        };
        let ghost record = fanned(need, class, slot, tail);
        let evicted = match slot {
            Some(s) => commit.push_retained(need.number(), s, tail),
            None => commit.push(need.number(), class, tail),
        };
        self.outbound = Some(commit);
        proof {
            assert(old(self).committed().pushed(self.committed(), record, evicted));
        }
        Ok(())
    }

    /// Queue an envelope tail for one connection and no other, in the ring
    /// `class` names. Whether `to` is still attached is the writer's to
    /// know.
    pub fn commit_to(&mut self, to: ConnectionId, class: Class, tail: Vec<u8>) -> (r: Result<(), CommitError>)
        requires
            old(self).wf(),
        ensures
            final(self).wf(),
            !old(self).outbound_started() ==> r == Err::<(), CommitError>(CommitError::NotStarted)
                && *final(self) == *old(self),
            old(self).outbound_started() ==> r is Ok && final(self).outbound_started() && exists|p: Push<Vec<u8>>|
                #[trigger] old(self).committed().pushed(
                    final(self).committed(),
                    Addressed { to: Some(to), need: 0, class, slot: None, record: tail },
                    p,
                ),
            old(self).only(*final(self), set![Part::Outbound]),
    {
        let mut commit = match self.outbound.take() {
            None => {
                return Err(CommitError::NotStarted);
            },
            Some(commit) => commit,
        };
        let ghost record = Addressed { to: Some(to), need: 0, class, slot: None, record: tail };
        let evicted = commit.push_to(to, class, tail);
        self.outbound = Some(commit);
        proof {
            assert(old(self).committed().pushed(self.committed(), record, evicted));
        }
        Ok(())
    }

    /// The writer's end of the commit ring: the oldest committed record, or
    /// nothing when there is none or no ring.
    pub fn take_committed(&mut self) -> (a: Option<Addressed<Vec<u8>>>)
        requires
            old(self).wf(),
        ensures
            final(self).wf(),
            !old(self).outbound_started() ==> a is None && *final(self) == *old(self),
            old(self).outbound_started() ==> {
                &&& final(self).outbound_started()
                &&& old(self).committed().records().len() == 0 ==> a is None
                    && final(self).committed().records() == old(self).committed().records()
                &&& old(self).committed().records().len() > 0 ==> a == Some(
                    old(self).committed().records()[0],
                ) && final(self).committed().records() == old(self).committed().records().drop_first()
                &&& final(self).committed().cap() == old(self).committed().cap()
                &&& final(self).committed().drops() == old(self).committed().drops()
            },
            old(self).only(*final(self), set![Part::Outbound]),
    {
        match &mut self.outbound {
            None => None,
            Some(commit) => commit.pop(),
        }
    }
}

/// A record committed for every connection covering `need`: in the
/// `LIFECYCLE` ring when it replaces a retained-set slot, and in the ring
/// `class` names otherwise.
pub open spec fn fanned(need: Capability, class: Class, slot: Option<u32>, tail: Vec<u8>) -> Addressed<Vec<u8>> {
    Addressed {
        to: None,
        need: need.spec_number(),
        class: if slot is Some {
            Class::Lifecycle
        } else {
            class
        },
        slot,
        record: tail,
    }
}

/// A record committed for `need` is filtered on `need` and nothing else: a
/// connection whose token grants the capabilities `caps` (its set `set`)
/// covers the record exactly when `caps` holds `need`, so a record for one
/// capability never reaches a token granting only another, and records
/// committed for two different capabilities are told apart. The record goes
/// to every connection, in the `LIFECYCLE` ring when it replaces a retained
/// slot and in the ring `class` names otherwise, with its slot and its
/// bytes as given.
pub proof fn law_a_commit_reaches_exactly_the_tokens_granting_its_need(
    need: Capability,
    class: Class,
    slot: Option<u32>,
    tail: Vec<u8>,
    set: crate::fanout::Capabilities,
    caps: Seq<Capability>,
)
    requires
        crate::inbound::grants(set, caps),
    ensures
        set.has(fanned(need, class, slot, tail).need) <==> caps.contains(need),
        forall|other: Capability|
            other != need ==> #[trigger] fanned(other, class, slot, tail).need != fanned(need, class, slot, tail).need,
        fanned(need, class, slot, tail).to is None,
        fanned(need, class, slot, tail).class == if slot is Some {
            Class::Lifecycle
        } else {
            class
        },
        fanned(need, class, slot, tail).slot == slot,
        fanned(need, class, slot, tail).record == tail,
{
    let n = fanned(need, class, slot, tail).need;
    assert(n < 64);
    if caps.contains(need) {
        let i = choose|i: int| 0 <= i < caps.len() && caps[i] == need;
        assert(caps[i].spec_number() == n);
    }
    if set.has(n) {
        let i = choose|i: int| 0 <= i < caps.len() && (#[trigger] caps[i]).spec_number() == n;
        Capability::lemma_number_names(caps[i], need);
        assert(caps[i] == need);
    }
    assert forall|other: Capability| other != need implies #[trigger] fanned(other, class, slot, tail).need
        != fanned(need, class, slot, tail).need by {
        Capability::lemma_number_names(other, need);
    }
}


} // verus!
