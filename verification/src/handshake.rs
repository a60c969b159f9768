//! The handshake: the first frame every connection receives.
//!
//! It says that a bridge is here and which build of it, so a consumer can
//! decide whether it speaks this protocol and tell a broker restart from a
//! reconnect. It says nothing about the mission, because nothing has
//! authenticated yet, and the mission is what authentication guards.
//!
//! A connection's stream starts with it at `seq` 1: it is the connection's
//! first answer, numbered before anything fanned out to it.

use vstd::prelude::*;
use vstd::utf8::encode_utf8;
use crate::answer::{answer_tail, tail, Put, ANSWER_BYTES};
use crate::encode::{bytes_field, integer_field};
use crate::inbound::answer_width;
use crate::topic;

verus! {

/// What the handshake carries.
#[derive(Clone, Copy, Debug, Eq, PartialEq)]
pub struct Handshake {
    /// The frame format and the handshake's own shape, as a number the
    /// consumer compares. The broker states it and refuses nothing.
    pub protocol: u32,
    /// The broker build, for a bug report. Compared by nobody.
    pub broker: &'static str,
    /// Names this broker process. A consumer that reconnects and reads a
    /// different one is talking to a restarted broker.
    pub instance_id: u64,
    /// The SHA-256 of the schema the broker serves, absent until the hook
    /// driver hands the schema over.
    pub schema_sha256: Option<[u8; 32]>,
}

/// The handshake's fields: the protocol, the build, the instance, and the
/// schema's hash once there is one.
pub open spec fn handshake_body(h: Handshake) -> Seq<u8> {
    integer_field(1, h.protocol as i64) + bytes_field(2, encode_utf8(h.broker@)) + integer_field(
        3,
        h.instance_id as i64,
    ) + match h.schema_sha256 {
        Some(hash) => bytes_field(4, hash@),
        None => Seq::empty(),
    }
}

/// The byte strings the handshake carries.
pub open spec fn handshake_extra(h: Handshake) -> nat {
    encode_utf8(h.broker@).len() + match h.schema_sha256 {
        Some(_) => 32nat,
        None => 0nat,
    }
}

impl Handshake {
    /// Encode as an envelope tail, the form the rings carry. The buffer is
    /// sized for every field at its largest, so no put can be refused.
    pub fn encode(&self) -> (r: Vec<u8>)
        requires
            ANSWER_BYTES + handshake_extra(*self) <= usize::MAX,
        ensures
            r@ == tail(topic::HANDSHAKE@, handshake_body(*self), answer_width(handshake_extra(*self))),
    {
        proof {
            topic::lemma_topic_bytes();
            reveal_with_fuel(crate::answer::fields_bytes, 5);
            reveal_with_fuel(crate::answer::extra_total, 5);
        }
        match &self.schema_sha256 {
            Some(hash) => {
                let puts = [
                    Put::Integer(1, self.protocol as i64),
                    Put::Bytes(2, self.broker.as_bytes()),
                    Put::Integer(3, self.instance_id as i64),
                    Put::Bytes(4, hash.as_slice()),
                ];
                proof {
                    assert(crate::answer::fields_bytes(puts@) =~= handshake_body(*self));
                }
                answer_tail(topic::HANDSHAKE, &puts)
            },
            None => {
                let puts = [
                    Put::Integer(1, self.protocol as i64),
                    Put::Bytes(2, self.broker.as_bytes()),
                    Put::Integer(3, self.instance_id as i64),
                ];
                proof {
                    assert(crate::answer::fields_bytes(puts@) =~= handshake_body(*self));
                }
                answer_tail(topic::HANDSHAKE, &puts)
            },
        }
    }
}

} // verus!
