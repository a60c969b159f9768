//! The reader's checks and answers, read back through `prost`'s stock
//! decoders.

use dcsbridge::config::{Config, Token};
use dcsbridge::fanout::{Capabilities, ConnectionId};
use dcsbridge::frame::{check_length, check_type_url};
use dcsbridge::inbound::{
    auth_result, pong, rejected, schema, strip_type_url, topic_of, AuthError, Close, Command,
    Envelope, Expect, Inner, Limits, Liveness, Payload, Read, Reader, RejectedReason, Session,
    Window, NO_SCHEMA,
};
use dcsbridge::registry::{Capability, Target};
use dcsbridge::state::Bridge;
use dcsbridge::topic::{self, TYPE_URL_PREFIX};
use prost::bytes::Buf;
use prost::encoding::{decode_key, decode_varint, WireType};
use prost::Message;

/// A field as the stock decoder reads it.
#[derive(Debug, PartialEq)]
enum Field {
    Varint(u64),
    Bytes(Vec<u8>),
}

/// Every field of `buf`, in order.
fn fields(mut buf: &[u8]) -> Vec<(u32, Field)> {
    let mut out = Vec::new();
    while buf.has_remaining() {
        let (tag, wire) = decode_key(&mut buf).expect("a key");
        match wire {
            WireType::Varint => out.push((tag, Field::Varint(decode_varint(&mut buf).unwrap()))),
            WireType::LengthDelimited => {
                let len = decode_varint(&mut buf).unwrap() as usize;
                out.push((tag, Field::Bytes(buf[..len].to_vec())));
                buf.advance(len);
            }
            other => panic!("an answer carried wire type {other:?}"),
        }
    }
    out
}

/// The type URL and the value of an envelope tail.
fn open(tail: &[u8]) -> (String, Vec<u8>) {
    let outer = fields(tail);
    assert_eq!(outer.len(), 1, "a tail is the payload field and nothing else");
    let (4, Field::Bytes(any)) = &outer[0] else {
        panic!("the tail is not field 4: {outer:?}");
    };
    let any = prost_types::Any::decode(&any[..]).expect("the payload is an Any");
    (any.type_url, any.value)
}

/// A type URL as a stock encoder writes one.
fn type_url(topic: &str) -> String {
    format!("{TYPE_URL_PREFIX}{topic}")
}

/// An envelope's bytes as a consumer's stock encoder writes them.
fn envelope_bytes(seq: u64, type_url: &str, value: &[u8]) -> Vec<u8> {
    let mut body = Vec::new();
    prost::encoding::uint64::encode(1, &seq, &mut body);
    let any = prost_types::Any { type_url: type_url.to_owned(), value: value.to_vec() };
    prost::encoding::message::encode(4, &any, &mut body);
    body
}

/// A frame: the length, then the envelope.
fn frame(seq: u64, type_url: &str, value: &[u8]) -> Vec<u8> {
    let body = envelope_bytes(seq, type_url, value);
    let mut bytes = (body.len() as u32).to_le_bytes().to_vec();
    bytes.extend(body);
    bytes
}

#[test]
fn a_window_admits_its_cap_per_second() {
    let start = 1_000_000u64;
    let at = |ms: u64| start + ms;
    let mut window = Window::new(start);

    assert!(window.accept(at(0), 2));
    assert!(window.accept(at(10), 2));
    assert!(!window.accept(at(20), 2), "a third event fit under two");
    assert!(!window.accept(at(999), 2), "the window closed early");
    assert!(window.accept(at(1000), 2), "the window did not open again");
    assert!(window.accept(at(1001), 2));
    assert!(!window.accept(at(1002), 2));

    assert!(window.accept(at(1003), 3));
    assert!(!window.accept(at(1004), 3));

    assert!(window.accept(at(5500), 1));
    assert!(!window.accept(at(6499), 1));
    assert!(window.accept(at(6500), 1));

    let mut shut = Window::new(start);
    assert!(!shut.accept(at(0), 0), "a cap of zero admitted an event");
    assert!(!shut.accept(at(2000), 0));

    // A clock that reads earlier than the window opened is inside it.
    let mut early = Window::new(at(100));
    assert!(early.accept(at(0), 1));
    assert!(!early.accept(at(50), 1));
}

#[test]
fn the_limits_carry_the_rate_keys() {
    let config = Config {
        inbound_records_per_sec: 7,
        inbound_records_per_sec_total: 8,
        rejected_max_per_sec: 9,
        busy_max_per_sec: 10,
        ..Config::default()
    };
    let limits = Limits::from_config(&config);
    assert_eq!(limits.inbound_records_per_sec, 7);
    assert_eq!(limits.inbound_records_per_sec_total, 8);
    assert_eq!(limits.rejected_max_per_sec, 9);
    assert_eq!(limits.busy_max_per_sec, 10);

    let default = Limits::default();
    assert_eq!(default.handshake_timeout_ms, 5000);
    assert_eq!(default.max_frame_bytes, 1 << 20);
    assert_eq!(default.max_type_url_bytes, 256);
}

#[test]
fn a_length_over_the_cap_is_refused_before_the_body() {
    let max = Limits::default().max_frame_bytes;
    assert!(matches!(check_length((max + 1).to_le_bytes(), max), Err(Close::FrameTooLong(n)) if n == max + 1));
    assert!(matches!(check_length(max.to_le_bytes(), max), Ok(n) if n == max));
    assert!(matches!(check_length([1, 2, 0, 0], 4), Err(Close::FrameTooLong(513))));
    assert!(matches!(check_length([3, 0, 0, 0], 4), Ok(3)));
}

#[test]
fn the_type_url_is_checked_before_the_envelope_decodes() {
    let cap = 16;
    let at = "y".repeat(cap);
    let over = "y".repeat(cap + 1);

    assert!(check_type_url(&frame(1, &at, b"value")[4..], cap).is_ok());
    assert!(matches!(
        check_type_url(&frame(1, &over, b"value")[4..], cap),
        Err(Close::TypeUrlTooLong(n)) if n == cap + 1
    ));
    // A frame with no payload has no URL to check.
    let mut bare = Vec::new();
    prost::encoding::uint64::encode(1, &5u64, &mut bare);
    assert!(check_type_url(&bare, cap).is_ok());

    // Fields ahead of the payload, of every wire type, are stepped over.
    let mut ahead = vec![0x08, 0xff, 0x01, 0x11];
    ahead.extend([0u8; 8]);
    ahead.extend([0x1a, 0x02, 0xaa, 0xbb, 0x15, 0, 0, 0, 0]);
    let mut placed = ahead.clone();
    placed.extend(&frame(1, &over, &[])[4..]);
    assert!(matches!(
        check_type_url(&placed, cap),
        Err(Close::TypeUrlTooLong(n)) if n == cap + 1
    ));
    // Inside the payload the value can come first, and every URL is checked.
    let mut payload = vec![0x12, 0x03, 1, 2, 3, 0x0a, cap as u8];
    payload.extend(at.as_bytes());
    payload.extend([0x0a, cap as u8 + 1]);
    payload.extend(over.as_bytes());
    let mut twice = vec![0x22, payload.len() as u8];
    twice.extend(&payload);
    assert!(matches!(
        check_type_url(&twice, cap),
        Err(Close::TypeUrlTooLong(n)) if n == cap + 1
    ));

    // A group the decoder skips is stepped over, not stopped at.
    let over_payload = &frame(1, &over, &[])[4..];
    let inner_group = [0x2b, 0x08, 0x01, 0x2c];
    let mut nested = vec![0x33, 0x08, 0x01, 0x11];
    nested.extend([0u8; 8]);
    nested.extend([0x1a, 0x01, 0x00, 0x15, 0, 0, 0, 0]);
    nested.extend(inner_group);
    nested.extend([0x34]);
    let mut fake_payload = vec![0x2b];
    fake_payload.extend(over_payload);
    fake_payload.extend([0x2c]);
    for group in [vec![0x2b, 0x2c], nested, fake_payload] {
        let mut hidden = group;
        hidden.extend(over_payload);
        assert!(
            matches!(check_type_url(&hidden, cap), Err(Close::TypeUrlTooLong(n)) if n == cap + 1),
            "a group hid the URL from the check: {hidden:02x?}"
        );
    }

    // A length past the end, an unfinished varint, an unclosed group, an
    // end with no start and a tenth varint byte past the one bit left each
    // end the walk without a verdict; the stock decoder refuses the frame.
    for unreadable in [
        vec![0x22u8, 0x7f, 0x0a, 0x01],
        vec![0x22u8, 0x80],
        vec![0x23u8, 0x0a, 0x01, 0x41],
        vec![0x2cu8, 0x0a, 0x01, 0x41],
        vec![0x08u8, 0xff, 0xff, 0xff, 0xff, 0xff, 0xff, 0xff, 0xff, 0xff, 0x02],
    ] {
        assert!(check_type_url(&unreadable, cap).is_ok());
        let mut seq = 0u64;
        let mut any = prost_types::Any::default();
        let mut buf = &unreadable[..];
        let decoded: Result<(), prost::DecodeError> = (|| {
            while buf.has_remaining() {
                let (tag, wire) = decode_key(&mut buf)?;
                let ctx = prost::encoding::DecodeContext::default();
                match tag {
                    1 => prost::encoding::uint64::merge(wire, &mut seq, &mut buf, ctx)?,
                    4 => prost::encoding::message::merge(wire, &mut any, &mut buf, ctx)?,
                    _ => prost::encoding::skip_field(wire, tag, &mut buf, ctx)?,
                }
            }
            Ok(())
        })();
        assert!(decoded.is_err(), "the stock decoder read {unreadable:02x?}");
    }
}

#[test]
fn a_topic_without_the_prefix_comes_back_whole() {
    let with = Envelope {
        seq: 7,
        payload: Some(Payload { type_url: type_url(topic::PING), value: Vec::new() }),
    };
    assert_eq!(topic_of(&with).unwrap(), topic::PING);
    let without = Envelope {
        seq: 8,
        payload: Some(Payload { type_url: topic::PING.to_owned(), value: Vec::new() }),
    };
    assert_eq!(topic_of(&without).unwrap(), topic::PING);
    let bare = Envelope { seq: 1, payload: None };
    assert!(matches!(topic_of(&bare), Err(Close::NoPayload)));
    assert_eq!(strip_type_url("type.googleapis.com/é"), "é");
    assert_eq!(strip_type_url("type.googleapis.co"), "type.googleapis.co");

    let command = Command::from_envelope(ConnectionId::from_raw(3), with).unwrap();
    assert_eq!(command.topic, topic::PING);
    assert_eq!(command.from.get(), 3);
    assert!(matches!(
        Command::from_envelope(ConnectionId::from_raw(3), Envelope { seq: 1, payload: None }),
        Err(Close::NoPayload)
    ));
}

#[test]
fn auth_messages_decode_as_the_schema_numbers_them() {
    let (url, value) = open(&auth_result(Ok(())));
    assert_eq!(url, type_url(topic::AUTH_RESULT));
    assert_eq!(fields(&value), vec![(1, Field::Varint(1))]);
    for (error, number) in
        [(AuthError::BadToken, 1), (AuthError::EmptyCapabilitySet, 2), (AuthError::ServerFull, 3)]
    {
        assert_eq!(error.number(), number);
        let (_, value) = open(&auth_result(Err(error)));
        assert_eq!(fields(&value), vec![(1, Field::Varint(0)), (2, Field::Varint(number as u64))]);
    }
}

#[test]
fn schema_carries_the_set_or_the_error() {
    let (url, value) = open(&schema(None));
    assert_eq!(url, type_url(topic::SCHEMA));
    assert_eq!(fields(&value), vec![(2, Field::Bytes(NO_SCHEMA.as_bytes().to_vec()))]);
    let set = vec![0x5a; 100_000];
    let (_, value) = open(&schema(Some(&set)));
    assert_eq!(fields(&value), vec![(1, Field::Bytes(set))]);
}

#[test]
fn pong_carries_the_liveness_it_was_given() {
    let never = pong(Liveness { last_heard_ms: None, alive: false, enabled: true });
    let (url, value) = open(&never);
    assert_eq!(url, type_url(topic::PONG));
    assert_eq!(fields(&value), vec![(1, Field::Varint(0)), (3, Field::Varint(1))]);

    let recent = pong(Liveness { last_heard_ms: Some(u64::MAX - 5), alive: true, enabled: false });
    let (_, value) = open(&recent);
    assert_eq!(
        fields(&value),
        vec![(1, Field::Varint(1)), (2, Field::Varint(u64::MAX - 5)), (3, Field::Varint(0))]
    );
}

#[test]
fn a_rejection_echoes_the_seq_and_the_topic() {
    let (url, value) = open(&rejected(41, "dcsbridge.sim.Unknown", RejectedReason::Busy));
    assert_eq!(url, type_url(topic::REJECTED));
    assert_eq!(
        fields(&value),
        vec![
            (1, Field::Varint(41)),
            (2, Field::Bytes(b"dcsbridge.sim.Unknown".to_vec())),
            (3, Field::Varint(4)),
        ]
    );
    let numbers: Vec<u32> = RejectedReason::all().into_iter().map(RejectedReason::number).collect();
    assert_eq!(numbers, vec![1, 2, 3, 4]);
}

#[test]
fn a_session_grants_its_token_capabilities_by_number() {
    let session = Session { token_id: "map".into(), caps: vec![Capability::Read, Capability::Reload] };
    let set = session.capabilities();
    assert!(set.covers(1));
    assert!(!set.covers(2));
    assert!(set.covers(3));
    assert_eq!(set, Capabilities::none().with(1).with(3));
}

/// A bridge configured with one token of each kind, its rings started and
/// one command routed.
fn served() -> Bridge {
    let mut bridge = Bridge::new(9, 0);
    let config = Config {
        tokens: vec![
            Token { id: "reader".into(), secret: b"read".to_vec(), caps: vec![Capability::Read] },
            Token {
                id: "operator".into(),
                secret: b"operate".to_vec(),
                caps: vec![Capability::Command, Capability::Reload],
            },
        ],
        inbound_records_per_sec: 2,
        rejected_max_per_sec: 1,
        ..Config::default()
    };
    bridge.apply(config, 0);
    bridge.start_inbound(4, 4);
    bridge
        .register_routes(vec![("dcsbridge.builtin.sim.SetFlag".to_string(), Target::SimDriver)])
        .unwrap();
    bridge
        .register_caps(vec![("dcsbridge.builtin.sim.SetFlag".to_string(), Capability::Command)])
        .unwrap();
    bridge
}

/// A frame carrying `topic` as the reader reads it.
fn read(seq: u64, topic: &str, value: &[u8]) -> Read {
    Read::Frame(Envelope {
        seq,
        payload: Some(Payload { type_url: type_url(topic), value: value.to_vec() }),
    })
}

#[test]
fn before_authentication_only_ping_and_auth_are_served() {
    let mut bridge = served();
    let mut reader = Reader::new(ConnectionId::from_raw(1), 0);

    let out = reader.step(&mut bridge, read(1, topic::PING, &[]), Inner::Nothing, 10);
    assert_eq!(out.answers.len(), 1);
    assert_eq!(open(&out.answers[0]).0, type_url(topic::PONG));
    assert!(out.end.is_none());

    let out = reader.step(&mut bridge, read(2, "dcsbridge.builtin.sim.SetFlag", &[]), Inner::Nothing, 10);
    assert!(out.answers.is_empty());
    assert!(matches!(out.end, Some(Err(Close::Unauthenticated(ref t))) if t == "dcsbridge.builtin.sim.SetFlag"));
    assert_eq!(bridge.poll(Target::SimDriver), Ok(None), "an unauthenticated record reached a ring");
}

#[test]
fn a_failed_auth_is_answered_then_closes_and_a_good_one_opens_a_session() {
    let mut bridge = served();
    let mut reader = Reader::new(ConnectionId::from_raw(1), 0);
    assert_eq!(reader.expects(topic::AUTH), Expect::Auth);
    assert_eq!(reader.expects(topic::SEQ_ACK), Expect::Nothing);
    let bad = reader.step(
        &mut bridge,
        read(1, topic::AUTH, &[]),
        Inner::Auth(dcsbridge::inbound::Auth { token: "wrong".into() }),
        0,
    );
    assert_eq!(bad.answers.len(), 1);
    let (_, value) = open(&bad.answers[0]);
    assert_eq!(fields(&value), vec![(1, Field::Varint(0)), (2, Field::Varint(1))]);
    assert_eq!(bad.flush_to, Some(2), "the handshake and the result were not both awaited");
    assert!(matches!(bad.end, Some(Err(Close::AuthFailed(AuthError::BadToken)))));

    let mut reader = Reader::new(ConnectionId::from_raw(2), 0);
    let good = reader.step(
        &mut bridge,
        read(1, topic::AUTH, &[]),
        Inner::Auth(dcsbridge::inbound::Auth { token: "operate".into() }),
        0,
    );
    assert!(good.end.is_none());
    assert!(good.lift_deadline);
    assert_eq!(good.authenticated, Some(Capabilities::none().with(2).with(3)));
    assert_eq!(bridge.authenticated(), 1);
    assert_eq!(reader.session().map(|s| s.token_id.as_str()), Some("operator"));
    assert_eq!(reader.expects(topic::AUTH), Expect::Nothing);
    assert_eq!(reader.expects(topic::SEQ_ACK), Expect::SeqAck);

    let again = reader.step(
        &mut bridge,
        read(2, topic::AUTH, &[]),
        Inner::Nothing,
        0,
    );
    assert!(matches!(again.end, Some(Err(Close::SecondAuth))));
    reader.finish(&mut bridge);
    assert_eq!(bridge.authenticated(), 0, "a closed session kept its slot");
}

#[test]
fn a_record_reaches_its_ring_and_a_flood_is_refused_up_to_the_cap() {
    let mut bridge = served();
    let mut reader = Reader::new(ConnectionId::from_raw(5), 0);
    reader.step(
        &mut bridge,
        read(1, topic::AUTH, &[]),
        Inner::Auth(dcsbridge::inbound::Auth { token: "operate".into() }),
        0,
    );

    let out = reader.step(&mut bridge, read(10, "dcsbridge.builtin.sim.SetFlag", b"on"), Inner::Nothing, 100);
    assert!(out.answers.is_empty() && out.end.is_none());
    let polled = bridge.poll(Target::SimDriver).unwrap().expect("the record reached its ring");
    assert_eq!(polled.from.get(), 5);
    assert_eq!(polled.value, b"on");

    // An unknown topic is refused with the sender's seq and topic.
    let out = reader.step(&mut bridge, read(11, "dcsbridge.sim.Resync", &[]), Inner::Nothing, 100);
    assert_eq!(out.answers.len(), 1);
    let (url, value) = open(&out.answers[0]);
    assert_eq!(url, type_url(topic::REJECTED));
    assert_eq!(fields(&value)[0], (1, Field::Varint(11)));
    assert_eq!(fields(&value)[2], (3, Field::Varint(1)));

    // The third record this second is over the connection's own rate; its
    // refusal is over the refusal cap of one, so it is counted and withheld.
    let out = reader.step(&mut bridge, read(12, "dcsbridge.builtin.sim.SetFlag", &[]), Inner::Nothing, 100);
    assert!(out.answers.is_empty(), "a refusal past its cap was answered");
    assert!(out.end.is_none(), "a connection over its own rate was closed");
    assert_eq!(bridge.commands_rejected(RejectedReason::RateLimited), 1);
    assert_eq!(bridge.commands_rejected(RejectedReason::UnknownTopic), 1);
    assert_eq!(bridge.rejections_suppressed(), 1);
}

#[test]
fn the_kill_switch_needs_reload() {
    let mut bridge = served();
    let mut reader = Reader::new(ConnectionId::from_raw(6), 0);
    reader.step(
        &mut bridge,
        read(1, topic::AUTH, &[]),
        Inner::Auth(dcsbridge::inbound::Auth { token: "read".into() }),
        0,
    );
    let out = reader.step(
        &mut bridge,
        read(2, topic::SET_ENABLED, &[]),
        Inner::SetEnabled(dcsbridge::inbound::SetEnabled { enabled: false }),
        0,
    );
    assert!(bridge.enabled(), "a token without reload moved the switch");
    assert_eq!(out.answers.len(), 1);
    assert_eq!(bridge.commands_rejected(RejectedReason::NoCapability), 1);

    let mut reader = Reader::new(ConnectionId::from_raw(7), 0);
    reader.step(
        &mut bridge,
        read(1, topic::AUTH, &[]),
        Inner::Auth(dcsbridge::inbound::Auth { token: "operate".into() }),
        0,
    );
    let out = reader.step(
        &mut bridge,
        read(2, topic::SET_ENABLED, &[]),
        Inner::SetEnabled(dcsbridge::inbound::SetEnabled { enabled: false }),
        0,
    );
    assert!(out.answers.is_empty());
    assert!(!bridge.enabled());

    let out = reader.step(
        &mut bridge,
        read(3, topic::SEQ_ACK, &[]),
        Inner::SeqAck(dcsbridge::inbound::SeqAck { seq: u64::MAX }),
        0,
    );
    assert!(out.answers.is_empty());
    assert_eq!(bridge.seq_acks(), 1);

    let out = reader.step(&mut bridge, read(4, topic::GET_SCHEMA, &[]), Inner::Nothing, 0);
    let (_, value) = open(&out.answers[0]);
    assert_eq!(fields(&value), vec![(2, Field::Bytes(NO_SCHEMA.as_bytes().to_vec()))]);
}

#[test]
fn an_end_of_stream_is_clean_only_after_authentication() {
    let mut bridge = served();
    let mut reader = Reader::new(ConnectionId::from_raw(1), 0);
    let out = reader.step(&mut bridge, Read::End, Inner::Nothing, 0);
    assert!(matches!(out.end, Some(Err(Close::Closed))));
    let out = reader.step(&mut bridge, Read::Failed(Close::SecondAuth, true), Inner::Nothing, 0);
    assert!(matches!(out.end, Some(Err(Close::HandshakeTimeout))));
    let out = reader.step(
        &mut bridge,
        Read::Frame(Envelope { seq: 1, payload: None }),
        Inner::Nothing,
        0,
    );
    assert!(matches!(out.end, Some(Err(Close::NoPayload))));
}
