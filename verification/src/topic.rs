//! The names both sides of the wire agree on: the bridge's own topics, the
//! ones the broker knows by name, and the prefix every type URL carries.
//!
//! A topic is the payload's fully-qualified type name, so each one is the
//! package and the message, and the package is the broker's.

use vstd::prelude::*;
use vstd::utf8::{encode_utf8, is_ascii_chars, is_ascii_chars_encode_utf8};

verus! {

/// What protobuf writes in front of a fully-qualified type name to make an
/// `Any` type URL.
pub const TYPE_URL_PREFIX: &'static str = "type.googleapis.com/";

/// The package every topic here is in.
pub const PACKAGE: &'static str = "dcsbridge.broker";

/// Every connection's first frame.
pub const HANDSHAKE: &'static str = "dcsbridge.broker.Handshake";
/// Liveness, asked before or after authentication.
pub const PING: &'static str = "dcsbridge.broker.Ping";
/// What answers a `Ping`.
pub const PONG: &'static str = "dcsbridge.broker.Pong";
/// Authentication, the other message allowed before it.
pub const AUTH: &'static str = "dcsbridge.broker.Auth";
/// What answers an `Auth`.
pub const AUTH_RESULT: &'static str = "dcsbridge.broker.AuthResult";
/// Asks for the schema the broker serves.
pub const GET_SCHEMA: &'static str = "dcsbridge.broker.GetSchema";
/// What answers a `GetSchema`.
pub const SCHEMA: &'static str = "dcsbridge.broker.Schema";
/// A consumer's highest durably processed `seq`. Answered by nothing.
pub const SEQ_ACK: &'static str = "dcsbridge.broker.SeqAck";
/// The kill switch. Answered by nothing.
pub const SET_ENABLED: &'static str = "dcsbridge.broker.SetEnabled";
/// What answers a record the broker delivered nowhere.
pub const REJECTED: &'static str = "dcsbridge.broker.Rejected";
/// The acknowledgement a handler addresses to one connection, and the one
/// topic a record may be addressed to before any registration.
pub const COMMAND_ACK: &'static str = "dcsbridge.broker.CommandAck";

/// Every topic above, in the order they are declared.
pub fn all() -> (topics: Vec<&'static str>)
    ensures
        topics@ == seq![
            HANDSHAKE,
            PING,
            PONG,
            AUTH,
            AUTH_RESULT,
            GET_SCHEMA,
            SCHEMA,
            SEQ_ACK,
            SET_ENABLED,
            REJECTED,
            COMMAND_ACK,
        ],
{
    vec![
        HANDSHAKE,
        PING,
        PONG,
        AUTH,
        AUTH_RESULT,
        GET_SCHEMA,
        SCHEMA,
        SEQ_ACK,
        SET_ENABLED,
        REJECTED,
        COMMAND_ACK,
    ]
}

/// The prefix is twenty ASCII bytes, and every topic here is ASCII and at
/// most thirty-two bytes, which is what an answer's buffer is sized for.
pub proof fn lemma_topic_bytes()
    ensures
        encode_utf8(TYPE_URL_PREFIX@).len() == 20,
        encode_utf8(HANDSHAKE@).len() <= 32,
        encode_utf8(PING@).len() <= 32,
        encode_utf8(PONG@).len() <= 32,
        encode_utf8(AUTH@).len() <= 32,
        encode_utf8(AUTH_RESULT@).len() <= 32,
        encode_utf8(GET_SCHEMA@).len() <= 32,
        encode_utf8(SCHEMA@).len() <= 32,
        encode_utf8(SEQ_ACK@).len() <= 32,
        encode_utf8(SET_ENABLED@).len() <= 32,
        encode_utf8(REJECTED@).len() <= 32,
        encode_utf8(COMMAND_ACK@).len() <= 32,
{
    reveal_strlit("type.googleapis.com/");
    assert(is_ascii_chars(TYPE_URL_PREFIX@));
    is_ascii_chars_encode_utf8(TYPE_URL_PREFIX@);
    reveal_strlit("dcsbridge.broker.Handshake");
    assert(is_ascii_chars(HANDSHAKE@));
    is_ascii_chars_encode_utf8(HANDSHAKE@);
    reveal_strlit("dcsbridge.broker.Ping");
    assert(is_ascii_chars(PING@));
    is_ascii_chars_encode_utf8(PING@);
    reveal_strlit("dcsbridge.broker.Pong");
    assert(is_ascii_chars(PONG@));
    is_ascii_chars_encode_utf8(PONG@);
    reveal_strlit("dcsbridge.broker.Auth");
    assert(is_ascii_chars(AUTH@));
    is_ascii_chars_encode_utf8(AUTH@);
    reveal_strlit("dcsbridge.broker.AuthResult");
    assert(is_ascii_chars(AUTH_RESULT@));
    is_ascii_chars_encode_utf8(AUTH_RESULT@);
    reveal_strlit("dcsbridge.broker.GetSchema");
    assert(is_ascii_chars(GET_SCHEMA@));
    is_ascii_chars_encode_utf8(GET_SCHEMA@);
    reveal_strlit("dcsbridge.broker.Schema");
    assert(is_ascii_chars(SCHEMA@));
    is_ascii_chars_encode_utf8(SCHEMA@);
    reveal_strlit("dcsbridge.broker.SeqAck");
    assert(is_ascii_chars(SEQ_ACK@));
    is_ascii_chars_encode_utf8(SEQ_ACK@);
    reveal_strlit("dcsbridge.broker.SetEnabled");
    assert(is_ascii_chars(SET_ENABLED@));
    is_ascii_chars_encode_utf8(SET_ENABLED@);
    reveal_strlit("dcsbridge.broker.Rejected");
    assert(is_ascii_chars(REJECTED@));
    is_ascii_chars_encode_utf8(REJECTED@);
    reveal_strlit("dcsbridge.broker.CommandAck");
    assert(is_ascii_chars(COMMAND_ACK@));
    is_ascii_chars_encode_utf8(COMMAND_ACK@);
}

} // verus!
