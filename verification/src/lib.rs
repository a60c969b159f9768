//! The DCS-Bridge broker's logic: the record encoder, the drop-oldest rings,
//! the fan-out state, the registration maps, the inbound checks and the
//! decisions the process state makes, each with its contract.

pub mod answer;
pub mod client;
pub mod config;
pub mod count;
pub mod encode;
pub mod fanout;
pub mod frame;
pub mod handshake;
pub mod inbound;
pub mod registry;
pub mod ring;
pub mod state;
pub mod text;
pub mod topic;
pub mod writer;

use vstd::prelude::*;

verus! {

/// The broker build, carried in the handshake for bug reports.
///
/// Nothing compares against it. Compatibility is decided by the protocol
/// version, which moves for its own reasons.
pub const BROKER_VERSION: &'static str = "0.1.0";

/// The frame format, the handshake's shape and the set of messages the
/// broker answers itself, as one number the consumer compares at handshake.
pub const PROTOCOL_VERSION: u32 = 1;

} // verus!
