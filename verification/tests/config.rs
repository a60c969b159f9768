use dcsbridge::config::{keys, Config, Error, Found, Key, Kind, Tier};
use dcsbridge::handshake::Handshake;
use prost::bytes::Buf;
use prost::encoding::{decode_key, decode_varint, WireType};
use prost::Message;

#[test]
fn every_key_has_a_default() {
    let all = keys();
    assert_eq!(all.len(), 29, "a key was added without a row here");
    for key in &all {
        let named = Key::named(key.name).expect("every key is named by its own name");
        assert_eq!(named.name, key.name);
    }
    let config = Config::default();
    assert_eq!(config.port, 7742);
    assert_eq!(config.bind_address, "127.0.0.1");
    assert!(config.enabled);
    assert!(config.tokens.is_empty());
    assert!(Key::named("route").is_none(), "a hook driver key");
    assert!(Key::named("max_spots").is_none(), "a sim driver key");
    assert_eq!(Key::named("port").unwrap().tier, Tier::Restart);
    assert_eq!(Key::named("tokens").unwrap().tier, Tier::Live);
    assert_eq!(Key::named("port").unwrap().kind, Kind::Integer { min: 0, max: 65535 });
}

#[test]
fn a_bad_value_is_refused_and_the_field_keeps_its_value() {
    let refused = |name: &str, found: Found| {
        let key = Key::named(name).unwrap();
        let Err(Error::Value { key, expected }) = key.check(found) else {
            panic!("{name} took {found:?}");
        };
        assert_eq!(key, name);
        expected
    };

    assert_eq!(refused("enabled", Found::Number { whole_in_range: true }), "true or false");
    assert_eq!(refused("port", Found::Number { whole_in_range: false }), "a whole number from 0 to 65535");
    assert_eq!(refused("port", Found::Text { address: false }), "a number");
    assert_eq!(
        refused("max_connections", Found::Number { whole_in_range: false }),
        "a whole number from 1 to 4294967295"
    );
    assert_eq!(
        refused("handshake_timeout_ms", Found::Number { whole_in_range: false }),
        "a whole number of at least 1"
    );
    assert_eq!(refused("bind_address", Found::Text { address: false }), "an IP address");
    assert_eq!(refused("bind_address", Found::Number { whole_in_range: true }), "an IP address in a string");
    assert_eq!(refused("tokens", Found::Text { address: false }), "a list of token entries");
    assert_eq!(
        Error::Value { key: "port", expected: "a number".into() }.to_string(),
        "`port` must be a number"
    );

    for (name, found) in [
        ("port", Found::Number { whole_in_range: true }),
        ("bind_address", Found::Text { address: true }),
        ("enabled", Found::Boolean),
        ("tokens", Found::Tokens),
    ] {
        assert!(Key::named(name).unwrap().check(found).is_ok(), "{name} refused {found:?}");
    }
}

/// The fields of a message, as the stock decoder reads them.
fn fields(mut buf: &[u8]) -> Vec<(u32, Vec<u8>, u64)> {
    let mut out = Vec::new();
    while buf.has_remaining() {
        let (tag, wire) = decode_key(&mut buf).unwrap();
        match wire {
            WireType::Varint => out.push((tag, Vec::new(), decode_varint(&mut buf).unwrap())),
            WireType::LengthDelimited => {
                let len = decode_varint(&mut buf).unwrap() as usize;
                out.push((tag, buf[..len].to_vec(), 0));
                buf.advance(len);
            }
            other => panic!("{other:?}"),
        }
    }
    out
}

#[test]
fn a_stock_decoder_reads_the_handshake() {
    let handshake = Handshake { protocol: 7, broker: "1.2.3-test", instance_id: u64::MAX - 1, schema_sha256: None };
    let tail = handshake.encode();
    let outer = fields(&tail);
    assert_eq!(outer.len(), 1);
    assert_eq!(outer[0].0, 4);
    let any = prost_types::Any::decode(&outer[0].1[..]).unwrap();
    assert_eq!(any.type_url, "type.googleapis.com/dcsbridge.broker.Handshake");
    let inner = fields(&any.value);
    assert_eq!(inner[0], (1, Vec::new(), 7));
    assert_eq!(inner[1], (2, b"1.2.3-test".to_vec(), 0));
    assert_eq!(inner[2], (3, Vec::new(), u64::MAX - 1));
    assert_eq!(inner.len(), 3, "an absent hash was written");

    let with_hash = Handshake { schema_sha256: Some([0xab; 32]), ..handshake };
    let outer = fields(&with_hash.encode());
    let any = prost_types::Any::decode(&outer[0].1[..]).unwrap();
    assert_eq!(fields(&any.value)[3], (4, vec![0xab; 32], 0));
}
