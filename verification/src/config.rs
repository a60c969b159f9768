//! The broker's configuration: every key it owns, with its default, its
//! tier, and the shape a value has to have to be stored under it.
//!
//! The hook driver is the one reader of the configuration file. It parses
//! the file and hands the broker the keys the broker owns, as a flat table.
//! This module is what each value in that table is held against: a name and
//! what was found under it in, and either nothing or the reason it is not
//! what the key takes.
//!
//! Each key has a tier. A **live** key is read at decision time, so a later
//! table swaps it in. A **restart** key sizes an allocation or binds a
//! socket, decided once at the first table and never revisited.

use vstd::prelude::*;
use crate::registry::Capability;
use crate::text::{decimal, push_decimal};
use vstd::string::StringExecFns;

verus! {

/// When a change to a key takes effect.
#[derive(Clone, Copy, Debug, Eq, PartialEq, Structural)]
pub enum Tier {
    /// Read at decision time; a later table swaps it in.
    Live,
    /// Decided at the first table; a later change waits for a restart.
    Restart,
}

/// One key's shape: what its value has to be.
#[derive(Clone, Copy, Debug, Eq, PartialEq, Structural)]
pub enum Kind {
    /// `true` or `false`.
    Boolean,
    /// A whole number from `min` to `max`.
    Integer {
        /// The smallest number taken.
        min: u64,
        /// The largest number taken.
        max: u64,
    },
    /// An IP address, as text.
    Address,
    /// The list of token entries.
    Tokens,
}

/// What a table carried under a key, as far as its shape goes.
#[derive(Clone, Copy, Debug, Eq, PartialEq, Structural)]
pub enum Found {
    /// A boolean.
    Boolean,
    /// A number, and whether it is whole and within `min..=max` of the key
    /// it is under.
    Number {
        /// Whether it is whole and in the key's range.
        whole_in_range: bool,
    },
    /// A string, and whether it reads as an IP address.
    Text {
        /// Whether it parses as an address.
        address: bool,
    },
    /// A list of token entries.
    Tokens,
}

/// A key the broker owns.
#[derive(Clone, Copy, Debug)]
pub struct Key {
    /// The key's name in the file, which is the field's name in [`Config`].
    pub name: &'static str,
    /// When a change to it takes effect.
    pub tier: Tier,
    /// What its value has to be.
    pub kind: Kind,
}

/// A whole number from one to the top of a `u32`.
pub open spec fn count_kind() -> Kind {
    Kind::Integer { min: 1, max: 4294967295 }
}

/// A whole number from one up, as wide as a `u64`.
pub open spec fn wide_kind() -> Kind {
    Kind::Integer { min: 1, max: 18446744073709551615 }
}

/// Every key the broker owns, in the order the file documents them: each
/// one's name, tier and shape.
pub open spec fn key_table() -> Seq<(Seq<char>, Tier, Kind)> {
    seq![
        ("enabled"@, Tier::Live, Kind::Boolean),
        ("bind_address"@, Tier::Restart, Kind::Address),
        ("port"@, Tier::Restart, Kind::Integer { min: 0, max: 65535 }),
        ("allow_public_bind"@, Tier::Restart, Kind::Boolean),
        ("max_connections"@, Tier::Restart, count_kind()),
        ("max_unauthenticated_connections"@, Tier::Live, count_kind()),
        ("handshake_timeout_ms"@, Tier::Live, wide_kind()),
        ("max_frame_bytes"@, Tier::Live, count_kind()),
        ("max_type_url_bytes"@, Tier::Live, count_kind()),
        ("rejected_max_per_sec"@, Tier::Live, count_kind()),
        ("busy_max_per_sec"@, Tier::Live, count_kind()),
        ("inbound_records_per_sec"@, Tier::Live, count_kind()),
        ("inbound_records_per_sec_total"@, Tier::Live, count_kind()),
        ("auth_failures_per_min"@, Tier::Live, count_kind()),
        ("tokens"@, Tier::Live, Kind::Tokens),
        ("ring_out_records"@, Tier::Restart, count_kind()),
        ("ring_out_lifecycle_reserve"@, Tier::Live, Kind::Integer { min: 0, max: 4294967295 }),
        ("ring_in_sim_driver_records"@, Tier::Restart, count_kind()),
        ("ring_in_hook_driver_records"@, Tier::Restart, count_kind()),
        ("heartbeat_interval_ms"@, Tier::Live, wide_kind()),
        ("dcs_alive_threshold_ms"@, Tier::Live, wide_kind()),
        ("dcs_alive_threshold_loading_ms"@, Tier::Live, wide_kind()),
        ("load_timeout_ms"@, Tier::Live, wide_kind()),
        ("request_timeout_ms"@, Tier::Live, wide_kind()),
        ("spool_max_bytes"@, Tier::Live, wide_kind()),
        ("spool_retention_hours"@, Tier::Live, count_kind()),
        ("max_lifecycle_record_bytes"@, Tier::Restart, count_kind()),
        ("max_lifecycle_topics"@, Tier::Restart, count_kind()),
        ("topic_filter_max_topics"@, Tier::Live, count_kind()),
    ]
}

/// A key as the table above reads it.
pub open spec fn key_view(k: Key) -> (Seq<char>, Tier, Kind) {
    (k.name@, k.tier, k.kind)
}

/// The row of `table` the first key named `name` holds.
pub open spec fn first_named(table: Seq<(Seq<char>, Tier, Kind)>, name: Seq<char>) -> Option<
    (Seq<char>, Tier, Kind),
>
    decreases table.len(),
{
    if table.len() == 0 {
        None
    } else if table[0].0 == name {
        Some(table[0])
    } else {
        first_named(table.drop_first(), name)
    }
}

/// Every key the broker owns, in the order the file documents them.
pub fn keys() -> (keys: Vec<Key>)
    ensures
        keys@.map_values(|k: Key| key_view(k)) == key_table(),
{
    let count = Kind::Integer { min: 1, max: 4294967295 };
    let wide = Kind::Integer { min: 1, max: 18446744073709551615 };
    let keys = vec![
        Key { name: "enabled", tier: Tier::Live, kind: Kind::Boolean },
        Key { name: "bind_address", tier: Tier::Restart, kind: Kind::Address },
        Key { name: "port", tier: Tier::Restart, kind: Kind::Integer { min: 0, max: 65535 } },
        Key { name: "allow_public_bind", tier: Tier::Restart, kind: Kind::Boolean },
        Key { name: "max_connections", tier: Tier::Restart, kind: count },
        Key { name: "max_unauthenticated_connections", tier: Tier::Live, kind: count },
        Key { name: "handshake_timeout_ms", tier: Tier::Live, kind: wide },
        Key { name: "max_frame_bytes", tier: Tier::Live, kind: count },
        Key { name: "max_type_url_bytes", tier: Tier::Live, kind: count },
        Key { name: "rejected_max_per_sec", tier: Tier::Live, kind: count },
        Key { name: "busy_max_per_sec", tier: Tier::Live, kind: count },
        Key { name: "inbound_records_per_sec", tier: Tier::Live, kind: count },
        Key { name: "inbound_records_per_sec_total", tier: Tier::Live, kind: count },
        Key { name: "auth_failures_per_min", tier: Tier::Live, kind: count },
        Key { name: "tokens", tier: Tier::Live, kind: Kind::Tokens },
        Key { name: "ring_out_records", tier: Tier::Restart, kind: count },
        Key {
            name: "ring_out_lifecycle_reserve",
            tier: Tier::Live,
            kind: Kind::Integer { min: 0, max: 4294967295 },
        },
        Key { name: "ring_in_sim_driver_records", tier: Tier::Restart, kind: count },
        Key { name: "ring_in_hook_driver_records", tier: Tier::Restart, kind: count },
        Key { name: "heartbeat_interval_ms", tier: Tier::Live, kind: wide },
        Key { name: "dcs_alive_threshold_ms", tier: Tier::Live, kind: wide },
        Key { name: "dcs_alive_threshold_loading_ms", tier: Tier::Live, kind: wide },
        Key { name: "load_timeout_ms", tier: Tier::Live, kind: wide },
        Key { name: "request_timeout_ms", tier: Tier::Live, kind: wide },
        Key { name: "spool_max_bytes", tier: Tier::Live, kind: wide },
        Key { name: "spool_retention_hours", tier: Tier::Live, kind: count },
        Key { name: "max_lifecycle_record_bytes", tier: Tier::Restart, kind: count },
        Key { name: "max_lifecycle_topics", tier: Tier::Restart, kind: count },
        Key { name: "topic_filter_max_topics", tier: Tier::Live, kind: count },
    ];
    proof {
        assert(keys@.map_values(|k: Key| key_view(k)) =~= key_table());
    }
    keys
}

/// Why a value was refused.
#[derive(Clone, Debug, Eq, PartialEq)]
pub enum Error {
    /// The value under `key` is not what the key takes.
    Value {
        /// The key whose value was refused.
        key: &'static str,
        /// What the key takes, in words a person fixes the file with.
        expected: String,
    },
}

/// What a key of `kind` takes, in words, when `found` is not it; nothing
/// when it is.
pub open spec fn expected(kind: Kind, found: Found) -> Option<Seq<char>> {
    match (kind, found) {
        (Kind::Boolean, Found::Boolean) => None,
        (Kind::Boolean, _) => Some("true or false"@),
        (Kind::Integer { min, max }, Found::Number { whole_in_range }) => if whole_in_range {
            None
        } else if max == u64::MAX {
            Some("a whole number of at least "@ + decimal(min as nat))
        } else {
            Some("a whole number from "@ + decimal(min as nat) + " to "@ + decimal(max as nat))
        },
        (Kind::Integer { .. }, _) => Some("a number"@),
        (Kind::Address, Found::Text { address }) => if address {
            None
        } else {
            Some("an IP address"@)
        },
        (Kind::Address, _) => Some("an IP address in a string"@),
        (Kind::Tokens, Found::Tokens) => None,
        (Kind::Tokens, _) => Some("a list of token entries"@),
    }
}

impl Error {
    /// The refusal in words.
    pub fn to_string(&self) -> (s: String)
        ensures
            s@ == match self {
                Error::Value { key, expected } => "`"@ + key@ + "` must be "@ + expected@,
            },
    {
        match self {
            Error::Value { key, expected } => refusal_words(key, expected.as_str()),
        }
    }
}

/// A refusal in words: the key in backticks, and what it takes.
fn refusal_words(key: &str, expected: &str) -> (s: String)
    ensures
        s@ == "`"@ + key@ + "` must be "@ + expected@,
{
    let mut s = String::from_str("`");
    s.append(key);
    s.append("` must be ");
    s.append(expected);
    s
}

/// An unbounded range in words, its floor in decimal.
fn at_least_words(min: u64) -> (s: String)
    ensures
        s@ == "a whole number of at least "@ + decimal(min as nat),
{
    let mut s = String::from_str("a whole number of at least ");
    push_decimal(&mut s, min);
    s
}

/// A bounded range in words, both ends in decimal.
fn range_words(min: u64, max: u64) -> (s: String)
    ensures
        s@ == "a whole number from "@ + decimal(min as nat) + " to "@ + decimal(max as nat),
{
    let mut s = String::from_str("a whole number from ");
    push_decimal(&mut s, min);
    s.append(" to ");
    push_decimal(&mut s, max);
    s
}

impl Key {
    /// The key named `name`, if the broker owns it.
    pub fn named(name: &str) -> (key: Option<Key>)
        ensures
            match key {
                Some(k) => first_named(key_table(), name@) == Some(key_view(k)),
                None => first_named(key_table(), name@) is None,
            },
    {
        let all = keys();
        let mut i: usize = 0;
        proof {
            assert(key_table().skip(0) =~= key_table());
        }
        while i < all.len()
            invariant
                0 <= i <= all@.len(),
                all@.map_values(|k: Key| key_view(k)) == key_table(),
                first_named(key_table(), name@) == first_named(key_table().skip(i as int), name@),
            decreases all.len() - i,
        {
            let key = all[i];
            proof {
                assert(key_table()[i as int] == key_view(key));
                assert(key_table().skip(i as int).drop_first() =~= key_table().skip(i + 1));
            }
            if crate::text::str_eq(key.name, name) {
                return Some(key);
            }
            i = i + 1;
        }
        proof {
            assert(key_table().skip(i as int) =~= Seq::<(Seq<char>, Tier, Kind)>::empty());
        }
        None
    }

    /// Hold `found` against this key's shape: nothing when it is what the
    /// key takes, and otherwise the refusal naming the key and what it
    /// takes.
    pub fn check(&self, found: Found) -> (r: Result<(), Error>)
        ensures
            match expected(self.kind, found) {
                None => r is Ok,
                Some(words) => r matches Err(Error::Value { key, expected }) && key@ == self.name@
                    && expected@ == words,
            },
    {
        let words = match (self.kind, found) {
            (Kind::Boolean, Found::Boolean) => {
                return Ok(());
            },
            (Kind::Boolean, _) => "true or false".to_owned(),
            (Kind::Integer { min, max }, Found::Number { whole_in_range }) => {
                if whole_in_range {
                    return Ok(());
                } else if max == u64::MAX {
                    at_least_words(min)
                } else {
                    range_words(min, max)
                }
            },
            (Kind::Integer { .. }, _) => "a number".to_owned(),
            (Kind::Address, Found::Text { address }) => {
                if address {
                    return Ok(());
                }
                "an IP address".to_owned()
            },
            (Kind::Address, _) => "an IP address in a string".to_owned(),
            (Kind::Tokens, Found::Tokens) => {
                return Ok(());
            },
            (Kind::Tokens, _) => "a list of token entries".to_owned(),
        };
        Err(Error::Value { key: self.name, expected: words })
    }
}

/// One entry of the `tokens` key: a consumer's credential.
#[derive(Clone, Debug, Eq, PartialEq)]
pub struct Token {
    /// Names the token in stats and audit lines. Never the secret.
    pub id: String,
    /// What a consumer presents in `Auth`.
    pub secret: Vec<u8>,
    /// What the token grants. A token granting nothing is refused at
    /// `Auth`, because it is a configuration mistake and not a consumer's.
    pub caps: Vec<Capability>,
}

/// The broker's effective configuration.
///
/// Every field is a key the broker owns, under the key's own name.
#[derive(Clone, Debug)]
pub struct Config {
    pub enabled: bool,
    pub bind_address: String,
    pub port: u16,
    pub allow_public_bind: bool,
    pub max_connections: u32,
    pub max_unauthenticated_connections: u32,
    pub handshake_timeout_ms: u64,
    pub max_frame_bytes: u32,
    pub max_type_url_bytes: u32,
    pub rejected_max_per_sec: u32,
    pub busy_max_per_sec: u32,
    pub inbound_records_per_sec: u32,
    pub inbound_records_per_sec_total: u32,
    pub auth_failures_per_min: u32,
    pub tokens: Vec<Token>,
    pub ring_out_records: u32,
    pub ring_out_lifecycle_reserve: u32,
    pub ring_in_sim_driver_records: u32,
    pub ring_in_hook_driver_records: u32,
    pub heartbeat_interval_ms: u64,
    pub dcs_alive_threshold_ms: u64,
    pub dcs_alive_threshold_loading_ms: u64,
    pub load_timeout_ms: u64,
    pub request_timeout_ms: u64,
    pub spool_max_bytes: u64,
    pub spool_retention_hours: u32,
    pub max_lifecycle_record_bytes: u32,
    pub max_lifecycle_topics: u32,
    pub topic_filter_max_topics: u32,
}

impl Config {
    /// Whether every value is the default the file documents.
    pub open spec fn is_default(&self) -> bool {
        &&& self.enabled
        &&& self.bind_address@ == "127.0.0.1"@
        &&& self.port == 7742
        &&& !self.allow_public_bind
        &&& self.max_connections == 8
        &&& self.max_unauthenticated_connections == 4
        &&& self.handshake_timeout_ms == 5000
        &&& self.max_frame_bytes == 1048576
        &&& self.max_type_url_bytes == 256
        &&& self.rejected_max_per_sec == 10
        &&& self.busy_max_per_sec == 100
        &&& self.inbound_records_per_sec == 100
        &&& self.inbound_records_per_sec_total == 400
        &&& self.auth_failures_per_min == 5
        &&& self.tokens@.len() == 0
        &&& self.ring_out_records == 4096
        &&& self.ring_out_lifecycle_reserve == 64
        &&& self.ring_in_sim_driver_records == 1024
        &&& self.ring_in_hook_driver_records == 256
        &&& self.heartbeat_interval_ms == 1000
        &&& self.dcs_alive_threshold_ms == 30000
        &&& self.dcs_alive_threshold_loading_ms == 120000
        &&& self.load_timeout_ms == 120000
        &&& self.request_timeout_ms == 2000
        &&& self.spool_max_bytes == 268435456
        &&& self.spool_retention_hours == 24
        &&& self.max_lifecycle_record_bytes == 16384
        &&& self.max_lifecycle_topics == 64
        &&& self.topic_filter_max_topics == 256
    }
}

impl Default for Config {
    fn default() -> (c: Self)
        ensures
            c.is_default(),
    {
        Config {
            enabled: true,
            bind_address: "127.0.0.1".to_owned(),
            port: 7742,
            allow_public_bind: false,
            max_connections: 8,
            max_unauthenticated_connections: 4,
            handshake_timeout_ms: 5000,
            max_frame_bytes: 1048576,
            max_type_url_bytes: 256,
            rejected_max_per_sec: 10,
            busy_max_per_sec: 100,
            inbound_records_per_sec: 100,
            inbound_records_per_sec_total: 400,
            auth_failures_per_min: 5,
            tokens: Vec::new(),
            ring_out_records: 4096,
            ring_out_lifecycle_reserve: 64,
            ring_in_sim_driver_records: 1024,
            ring_in_hook_driver_records: 256,
            heartbeat_interval_ms: 1000,
            dcs_alive_threshold_ms: 30000,
            dcs_alive_threshold_loading_ms: 120000,
            load_timeout_ms: 120000,
            request_timeout_ms: 2000,
            spool_max_bytes: 268435456,
            spool_retention_hours: 24,
            max_lifecycle_record_bytes: 16384,
            max_lifecycle_topics: 64,
            topic_filter_max_topics: 256,
        }
    }
}

} // verus!
