//! The encoder's output, read back through `prost`'s stock field decoders
//! rather than through a decoder written beside the encoder.

use dcsbridge::encode::{varint_len, Encoder, Error, MAX_DEPTH, MAX_FIELD};
use prost::bytes::{Buf, BufMut};
use prost::encoding::{
    bool as pbool, decode_varint, double, int32, int64, message, skip_field, string, uint64,
    DecodeContext, WireType,
};
use prost::{DecodeError, Message};

/// One field of each wire form, plus the field numbers at the edges of a
/// one-byte tag and of the whole numbering space.
#[derive(Clone, Debug, Default, PartialEq)]
struct Scalars {
    n: i64,
    x: f64,
    s: String,
    b: bool,
    seq: Vec<i64>,
    inner: Option<Inner>,
    items: Vec<Inner>,
    near: i32,
    far: i32,
    last: u64,
}

/// A nested message that can hold itself, for depth.
#[derive(Clone, Debug, Default, PartialEq)]
struct Inner {
    s: String,
    inner: Option<Box<Inner>>,
}

impl Message for Inner {
    fn encode_raw(&self, buf: &mut impl BufMut) {
        if !self.s.is_empty() {
            string::encode(1, &self.s, buf);
        }
        if let Some(inner) = &self.inner {
            message::encode(2, &**inner, buf);
        }
    }

    fn merge_field(
        &mut self,
        tag: u32,
        wire_type: WireType,
        buf: &mut impl Buf,
        ctx: DecodeContext,
    ) -> Result<(), DecodeError> {
        match tag {
            1 => string::merge(wire_type, &mut self.s, buf, ctx),
            2 => message::merge(
                wire_type,
                &mut **self.inner.get_or_insert_with(Default::default),
                buf,
                ctx,
            ),
            _ => skip_field(wire_type, tag, buf, ctx),
        }
    }

    fn encoded_len(&self) -> usize {
        let mut n = 0;
        if !self.s.is_empty() {
            n += string::encoded_len(1, &self.s);
        }
        if let Some(inner) = &self.inner {
            n += message::encoded_len(2, &**inner);
        }
        n
    }

    fn clear(&mut self) {
        *self = Inner::default();
    }
}

impl Message for Scalars {
    fn encode_raw(&self, buf: &mut impl BufMut) {
        int64::encode(1, &self.n, buf);
        double::encode(2, &self.x, buf);
        string::encode(3, &self.s, buf);
        pbool::encode(4, &self.b, buf);
        int64::encode_repeated(5, &self.seq, buf);
        if let Some(inner) = &self.inner {
            message::encode(6, inner, buf);
        }
        message::encode_repeated(7, &self.items, buf);
        int32::encode(15, &self.near, buf);
        int32::encode(16, &self.far, buf);
        uint64::encode(MAX_FIELD, &self.last, buf);
    }

    fn merge_field(
        &mut self,
        tag: u32,
        wire_type: WireType,
        buf: &mut impl Buf,
        ctx: DecodeContext,
    ) -> Result<(), DecodeError> {
        match tag {
            1 => int64::merge(wire_type, &mut self.n, buf, ctx),
            2 => double::merge(wire_type, &mut self.x, buf, ctx),
            3 => string::merge(wire_type, &mut self.s, buf, ctx),
            4 => pbool::merge(wire_type, &mut self.b, buf, ctx),
            5 => int64::merge_repeated(wire_type, &mut self.seq, buf, ctx),
            6 => message::merge(
                wire_type,
                self.inner.get_or_insert_with(Default::default),
                buf,
                ctx,
            ),
            7 => message::merge_repeated(wire_type, &mut self.items, buf, ctx),
            15 => int32::merge(wire_type, &mut self.near, buf, ctx),
            16 => int32::merge(wire_type, &mut self.far, buf, ctx),
            MAX_FIELD => uint64::merge(wire_type, &mut self.last, buf, ctx),
            _ => skip_field(wire_type, tag, buf, ctx),
        }
    }

    fn encoded_len(&self) -> usize {
        int64::encoded_len(1, &self.n)
            + double::encoded_len(2, &self.x)
            + string::encoded_len(3, &self.s)
            + pbool::encoded_len(4, &self.b)
            + int64::encoded_len_repeated(5, &self.seq)
            + self.inner.as_ref().map_or(0, |inner| message::encoded_len(6, inner))
            + message::encoded_len_repeated(7, &self.items)
            + int32::encoded_len(15, &self.near)
            + int32::encoded_len(16, &self.far)
            + uint64::encoded_len(MAX_FIELD, &self.last)
    }

    fn clear(&mut self) {
        *self = Scalars::default();
    }
}

fn decode(body: &[u8]) -> Scalars {
    Scalars::decode(body).expect("a stock decoder reads the body")
}

#[test]
fn every_scalar_decodes() {
    let mut e = Encoder::with_capacity(256);
    e.begin();
    e.integer(1, -7).unwrap();
    e.fixed64(2, 2.5f64.to_bits()).unwrap();
    e.string(3, "über".as_bytes()).unwrap();
    e.boolean(4, true).unwrap();
    e.integer(15, 15).unwrap();
    e.integer(16, 16).unwrap();
    e.integer(MAX_FIELD, 9).unwrap();

    let got = decode(e.commit().unwrap());
    assert_eq!(got.n, -7);
    assert_eq!(got.x, 2.5);
    assert_eq!(got.s, "über");
    assert!(got.b);
    assert_eq!((got.near, got.far, got.last), (15, 16, 9));
}

#[test]
fn double_edges_decode() {
    for x in [0.0, -0.0, f64::MIN_POSITIVE, f64::INFINITY, f64::NEG_INFINITY] {
        let mut e = Encoder::with_capacity(16);
        e.begin();
        e.fixed64(2, x.to_bits()).unwrap();
        let got = decode(e.commit().unwrap()).x;
        assert_eq!(got.to_bits(), x.to_bits(), "{x}");
    }

    let mut e = Encoder::with_capacity(16);
    e.begin();
    e.fixed64(2, f64::NAN.to_bits()).unwrap();
    assert!(decode(e.commit().unwrap()).x.is_nan());
}

#[test]
fn integer_edges_decode() {
    for (n, bytes) in [
        (i64::MIN, 10),
        (-1, 10),
        (0, 1),
        (127, 1),
        (128, 2),
        (i64::MAX, 9),
    ] {
        let mut e = Encoder::with_capacity(16);
        e.begin();
        e.integer(1, n).unwrap();
        let body = e.commit().unwrap();
        assert_eq!(body.len(), 1 + bytes, "{n}");
        assert_eq!(decode(body).n, n, "{n}");
    }
}

#[test]
fn defaults_decode_whether_written_or_omitted() {
    let mut e = Encoder::with_capacity(16);
    e.begin();
    assert!(e.commit().unwrap().is_empty());

    e.begin();
    e.string(3, b"").unwrap();
    e.boolean(4, false).unwrap();
    let body = e.commit().unwrap();
    // proto3 would omit both, and the explicit form must read the same.
    assert_eq!(body, [0x1a, 0x00, 0x20, 0x00]);
    assert_eq!(decode(body), Scalars::default());
}

#[test]
fn a_put_needs_an_open_record() {
    let mut e = Encoder::with_capacity(16);
    assert_eq!(e.integer(1, 1), Err(Error::NotOpen));
    assert_eq!(e.commit(), Err(Error::NotOpen));
    e.begin();
    e.commit().unwrap();
    assert_eq!(e.boolean(1, true), Err(Error::NotOpen));
    assert_eq!(e.discarded(), 0);
}

#[test]
fn a_bad_field_number_poisons_the_record() {
    for field in [0, MAX_FIELD + 1] {
        let mut e = Encoder::with_capacity(16);
        e.begin();
        assert_eq!(e.integer(field, 1), Err(Error::FieldNumber));
        assert_eq!(e.integer(1, 1), Err(Error::FieldNumber));
        assert_eq!(e.commit(), Err(Error::FieldNumber));
        assert_eq!(e.discarded(), 1);
    }
}

#[test]
fn a_record_fills_its_buffer_exactly_and_no_further() {
    let mut e = Encoder::with_capacity(3);
    e.begin();
    e.string(1, b"x").unwrap();
    assert_eq!(e.commit().unwrap(), [0x0a, 0x01, b'x']);

    e.begin();
    e.string(1, b"xy").unwrap_err();
    assert_eq!(e.string(1, b"xy"), Err(Error::Full));
    assert_eq!(e.boolean(2, true), Err(Error::Full));
    assert_eq!(e.commit(), Err(Error::Full));
    assert_eq!(e.discarded(), 1);
    assert!(!e.begin(), "the refused record was already discarded");
}

#[test]
fn begin_discards_an_open_record_and_counts_it() {
    let mut e = Encoder::with_capacity(16);
    e.begin();
    e.integer(1, 1).unwrap();
    assert!(e.begin());
    assert_eq!(e.discarded(), 1);
    assert!(e.commit().unwrap().is_empty());
    assert!(!e.begin());
}

#[test]
fn varint_len_matches_the_bytes_written() {
    for v in [0, 1, 0x7f, 0x80, 0x3fff, 0x4000, u64::MAX] {
        let mut buf = Vec::new();
        dcsbridge::encode::put_varint(&mut buf, v);
        assert_eq!(buf.len(), varint_len(v), "{v:#x}");
        assert_eq!(decode_varint(&mut &buf[..]).unwrap(), v);
    }
}

#[test]
fn distinct_fields_decode_in_any_order() {
    let mut forward = Encoder::with_capacity(64);
    forward.begin();
    forward.integer(1, 4).unwrap();
    forward.string(3, b"x").unwrap();
    let forward = decode(forward.commit().unwrap());

    let mut backward = Encoder::with_capacity(64);
    backward.begin();
    backward.string(3, b"x").unwrap();
    backward.integer(1, 4).unwrap();
    assert_eq!(decode(backward.commit().unwrap()), forward);
}

#[test]
fn a_repeated_field_keeps_put_order() {
    let mut e = Encoder::with_capacity(64);
    e.begin();
    for n in [3, 1, 2] {
        e.integer(5, n).unwrap();
    }
    assert_eq!(decode(e.commit().unwrap()).seq, [3, 1, 2]);
}

/// The length in front of a nested message is padded to the gap's width,
/// and a stock decoder reads it anyway.
#[test]
fn a_nested_length_is_padded_and_decodes() {
    // A buffer whose largest length takes three varint bytes.
    let mut e = Encoder::with_capacity(1 << 20);
    e.begin();
    e.message(6).unwrap();
    e.string(1, b"a").unwrap();
    e.end_message().unwrap();
    let body = e.commit().unwrap();

    // Tag, then a three-byte varint for a body of three bytes.
    assert_eq!(body, [0x32, 0x83, 0x80, 0x00, 0x0a, 0x01, b'a']);
    assert_eq!(decode_varint(&mut &body[1..4]).unwrap(), 3);
    assert_eq!(decode(body).inner.unwrap().s, "a");
}

#[test]
fn nested_bodies_of_every_length_decode() {
    // Zero, the one-byte edge, and past it.
    for len in [0, 127, 128, 200] {
        let s = vec![b'z'; len];
        let mut e = Encoder::with_capacity(4096);
        e.begin();
        e.message(6).unwrap();
        if len > 0 {
            e.string(1, &s).unwrap();
        }
        e.end_message().unwrap();
        let got = decode(e.commit().unwrap()).inner.unwrap();
        assert_eq!(got.s.len(), len);
    }
}

#[test]
fn repeated_messages_keep_put_order() {
    let mut e = Encoder::with_capacity(256);
    e.begin();
    for s in ["c", "a", "b"] {
        e.message(7).unwrap();
        e.string(1, s.as_bytes()).unwrap();
        e.end_message().unwrap();
    }
    let items = decode(e.commit().unwrap()).items;
    let got: Vec<&str> = items.iter().map(|i| i.s.as_str()).collect();
    assert_eq!(got, ["c", "a", "b"]);
}

#[test]
fn messages_nest_and_puts_land_in_the_innermost() {
    let mut e = Encoder::with_capacity(256);
    e.begin();
    e.message(6).unwrap();
    e.string(1, b"outer").unwrap();
    e.message(2).unwrap();
    e.string(1, b"middle").unwrap();
    e.message(2).unwrap();
    e.string(1, b"inner").unwrap();
    e.end_message().unwrap();
    e.end_message().unwrap();
    e.end_message().unwrap();
    e.integer(1, 1).unwrap();

    let got = decode(e.commit().unwrap());
    assert_eq!(got.n, 1);
    let outer = got.inner.unwrap();
    let middle = outer.inner.unwrap();
    let inner = middle.inner.unwrap();
    assert_eq!(outer.s, "outer");
    assert_eq!(middle.s, "middle");
    assert_eq!(inner.s, "inner");
    assert!(inner.inner.is_none());
}

#[test]
fn depth_is_capped_at_construction() {
    let mut e = Encoder::with_capacity(4096);
    e.begin();
    for _ in 0..MAX_DEPTH {
        e.message(2).unwrap();
    }
    assert_eq!(e.depth(), MAX_DEPTH);
    assert_eq!(e.message(2), Err(Error::Depth));
    assert_eq!(e.commit(), Err(Error::Depth));
}

#[test]
fn unbalanced_messages_are_refused() {
    let mut e = Encoder::with_capacity(64);
    e.begin();
    assert_eq!(e.end_message(), Err(Error::Unbalanced));
    assert_eq!(e.commit(), Err(Error::Unbalanced));

    e.begin();
    e.message(6).unwrap();
    assert_eq!(e.commit(), Err(Error::Unbalanced));
    assert_eq!(e.discarded(), 2);
    assert!(!e.begin());
}

#[test]
fn a_message_that_does_not_fit_is_refused_whole() {
    let mut e = Encoder::with_capacity(4);
    e.begin();
    e.string(1, b"xy").unwrap();
    // Nothing is left for a tag and its length gap.
    assert_eq!(e.message(6), Err(Error::Full));
    assert_eq!(e.depth(), 0);
}

/// The refusals read as the words the display gave them.
#[test]
fn each_refusal_has_its_words() {
    assert_eq!(Error::NotOpen.to_string(), "no record is open");
    assert_eq!(Error::Full.to_string(), "the record outgrew its buffer");
    assert_eq!(
        Error::FieldNumber.to_string(),
        "field number outside 1 to 2^29 - 1"
    );
    assert_eq!(Error::Depth.to_string(), "too many nested messages open");
    assert_eq!(
        Error::Unbalanced.to_string(),
        "message and end_message do not pair"
    );
}

/// A double's bits land little-endian behind a fixed64 key.
#[test]
fn a_fixed64_is_eight_little_endian_bytes() {
    let mut e = Encoder::with_capacity(16);
    e.begin();
    e.fixed64(2, 0x0102_0304_0506_0708).unwrap();
    assert_eq!(
        e.commit().unwrap(),
        [0x11, 0x08, 0x07, 0x06, 0x05, 0x04, 0x03, 0x02, 0x01]
    );
}

/// The discard count after a call, checked against the one before it: it
/// never falls, rises by one at most, and rises only where the call may
/// abandon a record.
fn counted(e: &Encoder, before: u64, may_count: bool) -> u64 {
    let now = e.discarded();
    assert!(now >= before, "the discard count fell");
    assert!(now <= before + 1, "one call counted two discards");
    assert!(may_count || now == before, "a put counted a discard");
    now
}

#[test]
fn the_discard_count_never_falls_and_rises_only_on_an_abandoned_record() {
    let mut e = Encoder::with_capacity(8);
    let mut n = e.discarded();
    let _ = e.integer(1, 1);
    n = counted(&e, n, false);
    e.begin();
    n = counted(&e, n, true);
    let _ = e.integer(1, 300);
    n = counted(&e, n, false);
    e.begin();
    n = counted(&e, n, true);
    let _ = e.message(2);
    n = counted(&e, n, false);
    let _ = e.boolean(1, true);
    n = counted(&e, n, false);
    let _ = e.commit();
    n = counted(&e, n, true);
    e.begin();
    n = counted(&e, n, true);
    let _ = e.string(1, b"too long to fit");
    n = counted(&e, n, false);
    let _ = e.fixed64(1, 0);
    n = counted(&e, n, false);
    let _ = e.end_message();
    n = counted(&e, n, false);
    let _ = e.commit();
    n = counted(&e, n, true);
    e.begin();
    n = counted(&e, n, true);
    assert!(e.commit().unwrap().is_empty());
    n = counted(&e, n, false);
    assert_eq!(n, 3);
}
