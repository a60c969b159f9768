use dcsbridge::client::{
    auth_answer, auth_frame, decode_hex, frame, frame_head, get_schema_frame, hex, order_line, ping_frame, pong_line,
    record_frame, schema_answer, token_secret, HexError, Order, Outcome, Summary,
};
use dcsbridge::topic;
use prost::bytes::Buf;
use prost::encoding::{decode_key, decode_varint, WireType};
use prost::Message;
use sha2::{Digest, Sha256};

/// The record topic the tail tests read.
const TOPIC: &str = "dcsbridge.builtin.sim.UnitDestroyed";

/// A frame read back as a stock decoder reads it: the length it claims,
/// `seq`, and the payload's type URL and value.
fn read_back(frame: &[u8]) -> (u32, u64, String, Vec<u8>) {
    let claimed = u32::from_le_bytes([frame[0], frame[1], frame[2], frame[3]]);
    let mut buf = &frame[4..];
    assert_eq!(buf.len(), claimed as usize, "the prefix did not match the body");
    let mut seq = 0;
    let mut any = prost_types::Any::default();
    while buf.has_remaining() {
        let (tag, wire) = decode_key(&mut buf).unwrap();
        match (tag, wire) {
            (1, WireType::Varint) => seq = decode_varint(&mut buf).unwrap(),
            (4, WireType::LengthDelimited) => {
                let len = decode_varint(&mut buf).unwrap() as usize;
                any = prost_types::Any::decode(&buf[..len]).unwrap();
                buf.advance(len);
            }
            other => panic!("an unexpected field {other:?}"),
        }
    }
    let topic = any.type_url.strip_prefix(topic::TYPE_URL_PREFIX).unwrap_or(&any.type_url).to_string();
    (claimed, seq, topic, any.value)
}

#[test]
fn a_skip_in_seq_prints_the_records_missing() {
    let mut summary = Summary::new();
    let mut last = 0;
    let mut orders = Vec::new();
    let mut out = String::new();
    for seq in [1, 2, 5] {
        let bytes = frame(seq, TOPIC, &[0x08, 0x2a]);
        let (_, read, topic, value) = read_back(&bytes);
        assert_eq!((read, topic.as_str(), value.len()), (seq, TOPIC, 2));
        let order = summary.read(last, seq, false);
        orders.push(order);
        if let Some(line) = order_line(order, last, seq) {
            out.push_str(&line);
            out.push('\n');
        }
        out.push_str(&frame_head(seq, Some((topic.as_str(), value.len())), None, None, None));
        out.push('\n');
        last = seq;
    }
    assert_eq!(orders, [Order::Next, Order::Next, Order::Gap { missing: 2 }]);
    assert_eq!(summary, Summary { frames: 3, gaps: 1, dropped: 2, refused: false });
    assert_eq!(
        out,
        format!(
            "seq=1 topic={TOPIC} bytes=2\n\
             seq=2 topic={TOPIC} bytes=2\n\
             gap: 2 records dropped between seq 2 and 5\n\
             seq=5 topic={TOPIC} bytes=2\n"
        )
    );
}

#[test]
fn a_first_frame_past_one_and_a_repeat_read_as_what_they_are() {
    let mut summary = Summary::new();
    assert_eq!(summary.read(0, 3, false), Order::Gap { missing: 2 });
    assert_eq!(summary.read(3, 3, false), Order::Behind);
    assert_eq!(summary.read(3, 2, true), Order::Behind);
    assert_eq!(summary.read(2, 4, false), Order::Gap { missing: 1 });
    assert_eq!(summary, Summary { frames: 4, gaps: 2, dropped: 3, refused: true });
}

#[test]
fn an_auth_result_prints_its_verdict_and_a_refusal_is_reported() {
    let mut summary = Summary::new();
    summary.read(0, 1, false);
    assert!(!summary.refused);
    summary.read(1, 2, true);
    assert!(summary.refused, "a refusal was not reported");

    let accepted = frame_head(1, Some((topic::AUTH_RESULT, 2)), None, Some((true, "OK")), None);
    assert!(
        accepted.contains(&format!("topic={} bytes=2 ok=true", topic::AUTH_RESULT)),
        "an accepted token did not print ok=true"
    );
    let refused = frame_head(1, Some((topic::AUTH_RESULT, 2)), None, Some((false, "BAD_TOKEN")), None);
    assert!(refused.contains(" ok=false error=BAD_TOKEN"), "a refused token did not print its error");

    let bytes = auth_frame("hunter2");
    let (_, seq, topic, value) = read_back(&bytes);
    assert_eq!(seq, 1);
    assert_eq!(topic, topic::AUTH);
    // `Auth { token }`: field 1, the secret's bytes.
    let mut expected = vec![0x0a, 7];
    expected.extend_from_slice(b"hunter2");
    assert_eq!(value, expected);
}

#[test]
fn the_handshake_prints_the_schema_hash_or_a_dash() {
    let mut hash = [0u8; 32];
    hash[0] = 0xba;
    hash[31] = 0x0f;
    assert_eq!(hex(&hash), "ba0000000000000000000000000000000000000000000000000000000000000f");

    let none = frame_head(1, Some((topic::HANDSHAKE, 12)), Some(None), None, None) + "\n";
    assert!(
        none.contains(&format!("topic={} bytes=", topic::HANDSHAKE)) && none.contains(" schema_sha256=-\n"),
        "no schema did not print a dash: {none}"
    );
    let held = frame_head(1, Some((topic::HANDSHAKE, 46)), Some(Some(&hash)), None, None) + "\n";
    assert!(
        held.contains(" schema_sha256=ba0000000000000000000000000000000000000000000000000000000000000f\n"),
        "the hash did not print as hex: {held}"
    );
}

#[test]
fn a_pong_prints_its_three_fields_after_the_handshake() {
    assert_eq!(pong_line(false, None, true), "dcs_alive=false dcs_last_heard_ms=- bridge_enabled=true");
    assert_eq!(pong_line(true, Some(250), false), "dcs_alive=true dcs_last_heard_ms=250 bridge_enabled=false");
}

#[test]
fn each_line_spells_its_numbers_in_full() {
    assert_eq!(order_line(Order::Next, 4, 5), None);
    assert_eq!(order_line(Order::Gap { missing: 3 }, 0, 4).unwrap(), "gap: 3 records dropped before seq 4");
    assert_eq!(order_line(Order::Behind, 7, 7).unwrap(), "seq 7 after 7: out of order");
    assert_eq!(
        frame_head(u64::MAX, None, None, None, Some(0)),
        "seq=18446744073709551615 topic=- bytes=0 epoch=0"
    );
    assert_eq!(
        frame_head(10, Some(("t", 100)), None, Some((false, "X")), Some(4294967295)),
        "seq=10 topic=t bytes=100 ok=false error=X epoch=4294967295"
    );
}

#[test]
fn the_record_frame_is_numbered_two_and_never_doubles_the_prefix() {
    let topic = "dcsbridge.builtin.hook.Kick";
    let bytes = record_frame(topic, &[0x08, 0x2a]);
    let (_, seq, read, value) = read_back(&bytes);
    assert_eq!(seq, 2);
    assert_eq!(read, topic);
    assert_eq!(value, [0x08, 0x2a]);

    let pasted = format!("{}{topic}", topic::TYPE_URL_PREFIX);
    assert_eq!(record_frame(&pasted, &[]), record_frame(topic, &[]));
}

#[test]
fn the_payload_comes_from_the_file_the_hex_or_nowhere() {
    assert_eq!(decode_hex("082a00FF").unwrap(), [0x08, 0x2a, 0x00, 0xff]);
    assert_eq!(decode_hex("08 2a 00 ff").unwrap(), [0x08, 0x2a, 0x00, 0xff]);
    assert_eq!(decode_hex("").unwrap(), Vec::<u8>::new());
    assert_eq!(decode_hex("082").unwrap_err().to_string(), "the hex has an odd number of digits");
    assert_eq!(decode_hex("082").unwrap_err(), HexError::Odd);
    assert_eq!(
        decode_hex("08 2 a").unwrap_err().to_string(),
        "the hex is not hex at character 5: ` `"
    );
    assert_eq!(decode_hex("08zz").unwrap_err().to_string(), "the hex is not hex at character 3: `z`");
    assert_eq!(decode_hex("08zz").unwrap_err(), HexError::NotHex { at: 2, shown: 'z' });
    assert_eq!(
        decode_hex("0é").unwrap_err().to_string(),
        "the hex is not hex at character 2: `é`"
    );
}

#[test]
fn the_request_is_an_empty_get_schema_numbered_two() {
    let bytes = get_schema_frame();
    let (_, seq, topic, value) = read_back(&bytes);
    assert_eq!(seq, 2);
    assert_eq!(topic, topic::GET_SCHEMA);
    assert!(value.is_empty());

    assert_eq!(hex(&[0xba, 0x00, 0x0f]), "ba000f");
}

#[test]
fn no_pong_is_no_answer_and_a_garbled_one_is_an_error() {
    let bytes = ping_frame();
    let (claimed, seq, topic, value) = read_back(&bytes);
    assert_eq!(seq, 1);
    assert_eq!(topic, "dcsbridge.broker.Ping");
    assert!(value.is_empty());
    // The envelope: seq 1, then the `Any` holding the type URL alone.
    assert_eq!(claimed as usize, 2 + 2 + 2 + 20 + "dcsbridge.broker.Ping".len());
}

/// Bytes that look like a set, and are not parsed by anything here.
fn set() -> Vec<u8> {
    (0..4096u32).map(|n| (n % 251) as u8).collect()
}

#[test]
fn the_set_is_fetched_when_it_hashes_to_what_the_handshake_said() {
    let set = set();
    let sha256: [u8; 32] = Sha256::digest(&set).into();

    assert_eq!(
        schema_answer(Some(sha256.to_vec()), Some(set.clone()), None),
        Outcome::Fetched { set: set.clone(), sha256 }
    );
    assert_eq!(schema_answer(None, Some(set.clone()), None), Outcome::Fetched { set: set.clone(), sha256 });

    let mut other = sha256;
    other[0] ^= 0xff;
    assert_eq!(schema_answer(Some(other.to_vec()), Some(set), None), Outcome::Mismatch);
}

#[test]
fn a_handshake_hash_of_the_wrong_length_is_a_mismatch() {
    let set = set();
    let sha256: [u8; 32] = Sha256::digest(&set).into();

    // The digest with its last byte cut, and with a byte too many.
    assert_eq!(schema_answer(Some(sha256[..31].to_vec()), Some(set.clone()), None), Outcome::Mismatch);
    let mut long = sha256.to_vec();
    long.push(0);
    assert_eq!(schema_answer(Some(long), Some(set.clone()), None), Outcome::Mismatch);
    assert_eq!(schema_answer(Some(Vec::new()), Some(set), None), Outcome::Mismatch);
}

#[test]
fn no_schema_a_refusal_and_a_cut_stream_each_read_as_what_they_are() {
    assert_eq!(
        schema_answer(
            Some(vec![0u8; 32]),
            None,
            Some("no schema has been handed to the broker".to_string())
        ),
        Outcome::NoSchema("no schema has been handed to the broker".into())
    );
    assert_eq!(schema_answer(None, None, None), Outcome::NoSchema(String::new()));
    assert_eq!(auth_answer(false, 1), Some(Outcome::Refused(1)));
    assert_eq!(auth_answer(true, 0), None);
}

#[test]
fn a_token_file_yields_its_first_line_without_editor_marks() {
    assert_eq!(token_secret("correct-horse\n"), Some("correct-horse"));
    assert_eq!(token_secret("correct-horse\r\n"), Some("correct-horse"));
    assert_eq!(token_secret("correct-horse\r"), Some("correct-horse"));
    assert_eq!(token_secret("\u{feff}correct-horse\r\n"), Some("correct-horse"));
    assert_eq!(token_secret("correct-horse\nsecond line\n"), Some("correct-horse"));
    assert_eq!(token_secret("\n"), None);
    assert_eq!(token_secret(""), None);
    assert_eq!(token_secret("\u{feff}"), None);
}

#[test]
fn a_frame_with_no_seq_and_no_payload_fields_is_the_payload_alone() {
    let bytes = frame(0, "", &[]);
    // The prefix, then field 4 holding just the bare type URL prefix.
    let mut expected = vec![24, 0, 0, 0, 0x22, 22, 0x0a, 20];
    expected.extend_from_slice(topic::TYPE_URL_PREFIX.as_bytes());
    assert_eq!(bytes, expected);
}

#[test]
fn a_record_header_is_the_length_then_seq() {
    let header = dcsbridge::client::frame_header(300, 10).unwrap();
    // 1 byte of tag, 2 of varint, 10 of tail: 13.
    assert_eq!(header, vec![13, 0, 0, 0, 0x08, 0xac, 0x02]);
    assert_eq!(dcsbridge::client::frame_header(1, u32::MAX as usize), None);
    assert_eq!(dcsbridge::client::frame_header(1, u32::MAX as usize - 2).unwrap()[..4], [0xff, 0xff, 0xff, 0xff]);
}
