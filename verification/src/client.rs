//! Frames as they are written, and the consumer's side of the wire: the
//! header the broker puts before each record's shared tail, the frames the
//! command-line client sends, how it reads the numbering of what comes
//! back, the check it makes on a schema it fetches, and the hex it reads
//! and prints.
//!
//! A frame is a little-endian `u32` length and then one `Envelope`, written
//! as a stock protobuf encoder writes it: fields in number order, each
//! length a minimal varint, and a field holding its default left out.

use vstd::prelude::*;
use crate::answer::{type_url, type_url_of, PAYLOAD_FIELD, TYPE_URL_FIELD, VALUE_FIELD};
use crate::encode::{bytes_field, put_varint, tag, varint, varint_len, WIRE_LENGTH, WIRE_VARINT};
use crate::frame::le_length;
use crate::inbound::{strip_prefix, strip_type_url};
use crate::topic::{AUTH, GET_SCHEMA, PING, TYPE_URL_PREFIX};
use vstd::utf8::encode_utf8;
use crate::text::{bytes_eq, decimal, push_char, push_decimal};
use vstd::string::StringExecFns;
use crate::state::{sha256, sha256_of};

verus! {

/// The most bytes a frame may claim before the length is read as garbage
/// rather than obeyed. The bridge's own frame cap is smaller.
pub const FRAME_MAX: u32 = 16777216;

/// The envelope's `seq` field.
pub const SEQ_FIELD: u32 = 1;

/// The `Auth` message's token field.
pub const TOKEN_FIELD: u32 = 1;

/// A varint field: the key, then the value as a minimal varint.
pub open spec fn varint_field(field: u32, v: nat) -> Seq<u8> {
    tag(field, WIRE_VARINT) + varint(v)
}

/// A length-prefixed field, or nothing when `s` is empty, as a stock
/// encoder leaves out a field holding its default.
pub open spec fn bytes_unless_empty(field: u32, s: Seq<u8>) -> Seq<u8> {
    if s.len() == 0 {
        Seq::empty()
    } else {
        bytes_field(field, s)
    }
}

/// The `Any` carrying `value` under the type URL `url`.
pub open spec fn any_bytes(url: Seq<u8>, value: Seq<u8>) -> Seq<u8> {
    bytes_unless_empty(TYPE_URL_FIELD, url) + bytes_unless_empty(VALUE_FIELD, value)
}

/// An envelope numbered `seq`, with no epoch and no mission time, carrying
/// `value` under the type URL `url`.
pub open spec fn envelope(seq: u64, url: Seq<u8>, value: Seq<u8>) -> Seq<u8> {
    (if seq == 0 {
        Seq::empty()
    } else {
        varint_field(SEQ_FIELD, seq as nat)
    }) + bytes_field(PAYLOAD_FIELD, any_bytes(url, value))
}

/// `n` as four bytes, little-endian.
pub open spec fn le32(n: u32) -> Seq<u8> {
    seq![(n & 0xff) as u8, ((n >> 8u32) & 0xff) as u8, ((n >> 16u32) & 0xff) as u8, ((n >> 24u32) & 0xff) as u8]
}

/// A frame around `body`: its length, then the body.
pub open spec fn framed(body: Seq<u8>) -> Seq<u8> {
    le32(body.len() as u32) + body
}

/// The four bytes a frame's length is written as read back as that length.
pub proof fn law_the_length_prefix_reads_back(n: u32)
    ensures
        le32(n).len() == 4,
        le_length(le32(n)) == n,
{
    let b = le32(n);
    assert((n & 0xff) < 256 && ((n >> 8u32) & 0xff) < 256 && ((n >> 16u32) & 0xff) < 256 && ((n >> 24u32)
        & 0xff) < 256) by (bit_vector);
    assert((n & 0xff) + 256 * ((n >> 8u32) & 0xff) + 65536 * ((n >> 16u32) & 0xff) + 16777216 * ((n >> 24u32)
        & 0xff) == n) by (bit_vector);
    assert(b[0] as nat == (n & 0xff) as nat);
    assert(b[1] as nat == ((n >> 8u32) & 0xff) as nat);
    assert(b[2] as nat == ((n >> 16u32) & 0xff) as nat);
    assert(b[3] as nat == ((n >> 24u32) & 0xff) as nat);
}

/// Append a length-prefixed field, or nothing for an empty `s`.
fn put_bytes_unless_empty(buf: &mut Vec<u8>, key: u8, field: u32, s: &[u8])
    requires
        tag(field, WIRE_LENGTH) == seq![key],
    ensures
        final(buf)@ == old(buf)@ + bytes_unless_empty(field, s@),
{
    if s.len() > 0 {
        buf.push(key);
        put_varint(buf, s.len() as u64);
        buf.extend_from_slice(s);
        proof {
            assert(final(buf)@ =~= old(buf)@ + bytes_field(field, s@));
        }
    } else {
        proof {
            assert(buf@ =~= old(buf)@ + bytes_unless_empty(field, s@));
        }
    }
}

/// How many bytes a length-prefixed field of `n` bytes takes, or none for
/// an empty one.
fn bytes_unless_empty_len(n: usize) -> (len: usize)
    requires
        n == 0 || 1 + varint(n as nat).len() + n <= usize::MAX,
    ensures
        len == (if n == 0 {
            0
        } else {
            1 + varint(n as nat).len() + n
        }),
{
    if n == 0 {
        0
    } else {
        1 + varint_len(n as u64) + n
    }
}

/// One frame carrying `value` on `topic`, numbered `seq`, with no epoch and
/// no mission time: what a consumer sends.
pub fn frame(seq: u64, topic: &str, value: &[u8]) -> (bytes: Vec<u8>)
    requires
        envelope(seq, type_url(topic@), value@).len() <= u32::MAX,
    ensures
        bytes@ == framed(envelope(seq, type_url(topic@), value@)),
{
    let url = type_url_of(topic);
    let ghost any = any_bytes(url@, value@);
    let ghost env = envelope(seq, url@, value@);
    proof {
        assert(tag(SEQ_FIELD, WIRE_VARINT) == seq![8u8]);
        assert(tag(PAYLOAD_FIELD, WIRE_LENGTH) == seq![0x22u8]);
        assert(tag(TYPE_URL_FIELD, WIRE_LENGTH) == seq![0x0au8]);
        assert(tag(VALUE_FIELD, WIRE_LENGTH) == seq![0x12u8]);
        assert(env.len() >= any.len());
        assert(any.len() >= url@.len() + value@.len());
        assert(bytes_unless_empty(TYPE_URL_FIELD, url@).len() <= any.len());
        assert(bytes_unless_empty(VALUE_FIELD, value@).len() <= any.len());
        assert(u32::MAX <= usize::MAX);
    }
    let mut body: Vec<u8> = Vec::new();
    if seq != 0 {
        body.push(8u8);
        put_varint(&mut body, seq);
    }
    proof {
        assert(body@ =~= (if seq == 0 {
            Seq::<u8>::empty()
        } else {
            varint_field(SEQ_FIELD, seq as nat)
        }));
    }
    let any_len = bytes_unless_empty_len(url.len()) + bytes_unless_empty_len(value.len());
    proof {
        assert(any_len == any.len());
    }
    body.push(0x22u8);
    put_varint(&mut body, any_len as u64);
    put_bytes_unless_empty(&mut body, 0x0au8, TYPE_URL_FIELD, url.as_slice());
    put_bytes_unless_empty(&mut body, 0x12u8, VALUE_FIELD, value);
    proof {
        assert(body@ =~= env);
    }
    let n = body.len() as u32;
    let mut bytes: Vec<u8> = Vec::new();
    bytes.push((n & 0xff) as u8);
    bytes.push(((n >> 8u32) & 0xff) as u8);
    bytes.push(((n >> 16u32) & 0xff) as u8);
    bytes.push(((n >> 24u32) & 0xff) as u8);
    bytes.extend_from_slice(body.as_slice());
    proof {
        assert(bytes@ =~= framed(env));
    }
    bytes
}

/// The one frame `ping` sends: an empty `Ping`, numbered 1.
pub fn ping_frame() -> (bytes: Vec<u8>)
    ensures
        bytes@ == framed(envelope(1, type_url(PING@), Seq::empty())),
{
    proof {
        crate::topic::lemma_topic_bytes();
    }
    frame(1, PING, &[])
}

/// The second frame `schema` sends, after the token: an empty `GetSchema`,
/// numbered 2.
pub fn get_schema_frame() -> (bytes: Vec<u8>)
    ensures
        bytes@ == framed(envelope(2, type_url(GET_SCHEMA@), Seq::empty())),
{
    proof {
        crate::topic::lemma_topic_bytes();
    }
    frame(2, GET_SCHEMA, &[])
}

/// The first frame a session sends: an `Auth` carrying `secret`, numbered 1.
pub fn auth_frame(secret: &str) -> (bytes: Vec<u8>)
    requires
        encode_utf8(secret@).len() <= 0xFFFF_0000,
    ensures
        bytes@ == framed(envelope(1, type_url(AUTH@), bytes_unless_empty(TOKEN_FIELD, encode_utf8(secret@)))),
{
    let mut value: Vec<u8> = Vec::new();
    proof {
        assert(tag(TOKEN_FIELD, WIRE_LENGTH) == seq![0x0au8]);
        crate::topic::lemma_topic_bytes();
    }
    put_bytes_unless_empty(&mut value, 0x0au8, TOKEN_FIELD, secret.as_bytes());
    proof {
        assert(value@ =~= bytes_unless_empty(TOKEN_FIELD, encode_utf8(secret@)));
        crate::encode::lemma_varint_len_bound(encode_utf8(secret@).len());
        assert(type_url(AUTH@).len() <= 52);
        assert(value@.len() <= encode_utf8(secret@).len() + 11);
        lemma_envelope_len(1, type_url(AUTH@), value@);
    }
    frame(1, AUTH, value.as_slice())
}

/// An envelope is its type URL and value and at most 32 bytes more.
proof fn lemma_envelope_len(seq: u64, url: Seq<u8>, value: Seq<u8>)
    requires
        url.len() + value.len() <= 0xFFFF_0000 + 64,
    ensures
        envelope(seq, url, value).len() <= url.len() + value.len() + 64,
{
    crate::encode::lemma_varint_len_bound(url.len());
    crate::encode::lemma_varint_len_bound(value.len());
    crate::encode::lemma_varint_len_bound(seq as nat);
    crate::encode::lemma_varint_len_bound(any_bytes(url, value).len());
    assert(tag(SEQ_FIELD, WIRE_VARINT) == seq![8u8]);
    assert(tag(PAYLOAD_FIELD, WIRE_LENGTH) == seq![0x22u8]);
    assert(tag(TYPE_URL_FIELD, WIRE_LENGTH) == seq![0x0au8]);
    assert(tag(VALUE_FIELD, WIRE_LENGTH) == seq![0x12u8]);
}

/// The second frame `send` sends, after the token: `value` on `topic`,
/// numbered 2. A topic pasted with its type URL prefix has it taken off
/// before the frame puts it on, so the prefix is never doubled.
pub fn record_frame(topic: &str, value: &[u8]) -> (bytes: Vec<u8>)
    requires
        encode_utf8(topic@).len() + value@.len() <= 0xFFFF_0000,
    ensures
        bytes@ == framed(
            envelope(2, encode_utf8(TYPE_URL_PREFIX@) + strip_prefix(encode_utf8(topic@)), value@),
        ),
{
    let stripped = strip_type_url(topic);
    proof {
        crate::topic::lemma_topic_bytes();
        assert(strip_prefix(encode_utf8(topic@)).len() <= encode_utf8(topic@).len());
        assert(encode_utf8(stripped@) == strip_prefix(encode_utf8(topic@)));
        lemma_envelope_len(2, type_url(stripped@), value@);
    }
    frame(2, stripped, value)
}

/// The lowercase hex digit for `d`, below 16.
pub open spec fn hex_digit(d: nat) -> char {
    if d < 10 {
        ((48 + d) as u8) as char
    } else {
        ((87 + d) as u8) as char
    }
}

/// `bytes` as lowercase hex, two digits a byte, high nibble first.
pub open spec fn hex_of(bytes: Seq<u8>) -> Seq<char>
    decreases bytes.len(),
{
    if bytes.len() == 0 {
        Seq::empty()
    } else {
        hex_of(bytes.drop_last()) + seq![hex_digit(bytes.last() as nat / 16), hex_digit(bytes.last() as nat % 16)]
    }
}

/// The digit for a nibble, as a one-character string.
fn digit_str(d: u8) -> (s: &'static str)
    requires
        d < 16,
    ensures
        s@ == seq![hex_digit(d as nat)],
{
    match d {
        0 => { proof { reveal_strlit("0"); } "0" },
        1 => { proof { reveal_strlit("1"); } "1" },
        2 => { proof { reveal_strlit("2"); } "2" },
        3 => { proof { reveal_strlit("3"); } "3" },
        4 => { proof { reveal_strlit("4"); } "4" },
        5 => { proof { reveal_strlit("5"); } "5" },
        6 => { proof { reveal_strlit("6"); } "6" },
        7 => { proof { reveal_strlit("7"); } "7" },
        8 => { proof { reveal_strlit("8"); } "8" },
        9 => { proof { reveal_strlit("9"); } "9" },
        10 => { proof { reveal_strlit("a"); } "a" },
        11 => { proof { reveal_strlit("b"); } "b" },
        12 => { proof { reveal_strlit("c"); } "c" },
        13 => { proof { reveal_strlit("d"); } "d" },
        14 => { proof { reveal_strlit("e"); } "e" },
        _ => { proof { reveal_strlit("f"); } "f" },
    }
}

/// `hash` as lowercase hex, the way `sha256sum` prints it.
pub fn hex(hash: &[u8]) -> (s: String)
    ensures
        s@ == hex_of(hash@),
{
    let mut s = String::new();
    let mut i: usize = 0;
    proof {
        assert(hash@.take(0) =~= Seq::<u8>::empty());
    }
    while i < hash.len()
        invariant
            i <= hash@.len(),
            s@ == hex_of(hash@.take(i as int)),
        decreases hash@.len() - i,
    {
        let b = hash[i];
        s.append(digit_str(b / 16));
        s.append(digit_str(b % 16));
        proof {
            let t = hash@.take(i + 1);
            assert(t.drop_last() =~= hash@.take(i as int));
            assert(t.last() == b);
        }
        i = i + 1;
    }
    proof {
        assert(hash@.take(hash@.len() as int) =~= hash@);
    }
    s
}

/// What a `tail` run saw, for the closing line.
#[derive(Clone, Copy, Debug, Default, Eq, PartialEq, Structural)]
pub struct Summary {
    /// Frames read.
    pub frames: u64,
    /// Places where `seq` skipped.
    pub gaps: u64,
    /// Records the skips add up to.
    pub dropped: u64,
    /// The bridge answered the token with an error, and closed after it.
    pub refused: bool,
}

/// How a frame's `seq` stands against the one read before it.
#[derive(Clone, Copy, Debug, Eq, PartialEq, Structural)]
pub enum Order {
    /// The next number.
    Next,
    /// Past the next: `missing` records were dropped before it.
    Gap {
        /// How many numbers were skipped.
        missing: u64,
    },
    /// At or below the one before it: out of order.
    Behind,
}

/// How `seq` stands against `last`, the one read before it, or zero before
/// the first.
pub open spec fn order_of(last: u64, seq: u64) -> Order {
    if seq > last + 1 {
        Order::Gap { missing: (seq - last - 1) as u64 }
    } else if seq <= last {
        Order::Behind
    } else {
        Order::Next
    }
}

/// `a + b`, wrapping past the top as a 64-bit count does.
pub open spec fn wrapping_sum(a: u64, b: u64) -> u64 {
    ((a + b) % 0x1_0000_0000_0000_0000) as u64
}

impl Summary {
    /// Nothing read yet.
    pub open spec fn empty() -> Summary {
        Summary { frames: 0, gaps: 0, dropped: 0, refused: false }
    }

    /// The summary after a frame numbered `seq` is read after one numbered
    /// `last`, the frame saying whether it refused the token.
    pub open spec fn after(self, last: u64, seq: u64, refused: bool) -> Summary {
        let counted = Summary {
            frames: crate::count::next_count(self.frames),
            refused: self.refused || refused,
            ..self
        };
        match order_of(last, seq) {
            Order::Gap { missing } => Summary {
                gaps: crate::count::next_count(self.gaps),
                dropped: wrapping_sum(self.dropped, missing),
                ..counted
            },
            _ => counted,
        }
    }

    /// A summary of nothing read yet.
    pub fn new() -> (s: Summary)
        ensures
            s == Summary::empty(),
    {
        Summary { frames: 0, gaps: 0, dropped: 0, refused: false }
    }

    /// Count a frame numbered `seq`, read after one numbered `last` (zero
    /// before the first), and say how its number stands: a skip is counted
    /// as a gap of the records missing.
    pub fn read(&mut self, last: u64, seq: u64, refused: bool) -> (order: Order)
        ensures
            order == order_of(last, seq),
            *final(self) == old(self).after(last, seq, refused),
    {
        let order = if last < u64::MAX && seq > last + 1 {
            Order::Gap { missing: seq - last - 1 }
        } else if seq <= last {
            Order::Behind
        } else {
            Order::Next
        };
        self.frames = crate::count::wrapping_inc(self.frames);
        self.refused = self.refused || refused;
        if let Order::Gap { missing } = order {
            self.gaps = crate::count::wrapping_inc(self.gaps);
            self.dropped = self.dropped.wrapping_add(missing);
        }
        order
    }
}

/// The summary of a run that read frames numbered `seqs`, in order.
pub open spec fn tally(seqs: Seq<u64>) -> Summary
    decreases seqs.len(),
{
    if seqs.len() == 0 {
        Summary::empty()
    } else {
        let last = if seqs.len() == 1 {
            0
        } else {
            seqs[seqs.len() - 2]
        };
        tally(seqs.drop_last()).after(last, seqs.last(), false)
    }
}

/// The gaps a consumer counts add up to exactly the records it never
/// received: over frames numbered rising from one, the records counted
/// dropped and the frames read together make the last number.
pub proof fn law_the_gaps_add_up_to_what_was_missed(seqs: Seq<u64>)
    requires
        seqs.len() > 0,
        forall|i: int, j: int| 0 <= i < j < seqs.len() ==> seqs[i] < seqs[j],
        seqs[0] >= 1,
        seqs.last() < 0x1_0000_0000_0000_0000 - 1,
    ensures
        tally(seqs).dropped + tally(seqs).frames == seqs.last(),
        tally(seqs).frames == seqs.len(),
    decreases seqs.len(),
{
    let n = seqs.len();
    let rest = seqs.drop_last();
    if n > 1 {
        assert forall|i: int, j: int| 0 <= i < j < rest.len() implies rest[i] < rest[j] by {
            assert(rest[i] == seqs[i] && rest[j] == seqs[j]);
        }
        assert(rest.last() == seqs[n - 2]);
        assert(seqs[n - 2] < seqs[n - 1]);
        law_the_gaps_add_up_to_what_was_missed(rest);
        let t = tally(rest);
        assert(t.frames == n - 1);
        assert(tally(seqs) == t.after(seqs[n - 2], seqs.last(), false));
        assert(t.dropped + seqs.last() - seqs[n - 2] - 1 < 0x1_0000_0000_0000_0000);
    } else {
        assert(rest.len() == 0);
        assert(tally(rest) == Summary::empty());
        assert(tally(seqs) == Summary::empty().after(0, seqs.last(), false));
    }
}

/// Why hex given on the command line is not a payload.
#[derive(Clone, Copy, Debug, Eq, PartialEq)]
pub enum HexError {
    /// The byte at `at`, counted from zero, is not a hex digit or a space
    /// between bytes; `shown` is the character there.
    NotHex {
        /// Where, in bytes from the start.
        at: usize,
        /// The character found there.
        shown: char,
    },
    /// A digit is left over at the end.
    Odd,
}

/// The value of a hex digit of either case, or `None` for any other byte.
pub open spec fn nibble_of(b: u8) -> Option<u8> {
    if 48 <= b <= 57 {
        Some((b - 48) as u8)
    } else if 97 <= b <= 102 {
        Some((b - 87) as u8)
    } else if 65 <= b <= 70 {
        Some((b - 55) as u8)
    } else {
        None
    }
}

/// What the hex in `s` decodes to from byte `i` on, with `high` the digit
/// read before `i` and not yet paired: the bytes, or where a byte is not a
/// digit (`Some`), or a digit left over at the end (`None`). A space is
/// allowed between bytes and nowhere else.
pub open spec fn unhex(s: Seq<u8>, i: int, high: Option<u8>) -> Result<Seq<u8>, Option<int>>
    decreases s.len() - i,
{
    if i >= s.len() || i < 0 {
        if high is Some {
            Err(None)
        } else {
            Ok(Seq::empty())
        }
    } else {
        let b = s[i];
        match nibble_of(b) {
            Some(n) => match high {
                Some(h) => match unhex(s, i + 1, None) {
                    Ok(r) => Ok(seq![(h * 16 + n) as u8] + r),
                    Err(e) => Err(e),
                },
                None => unhex(s, i + 1, Some(n)),
            },
            None => if b == 32 && high is None {
                unhex(s, i + 1, None)
            } else {
                Err(Some(i))
            },
        }
    }
}

/// `acc` in front of what `r` decoded, or `r`'s error.
pub open spec fn after_bytes(acc: Seq<u8>, r: Result<Seq<u8>, Option<int>>) -> Result<Seq<u8>, Option<int>> {
    match r {
        Ok(x) => Ok(acc + x),
        Err(e) => Err(e),
    }
}

/// The value of a hex digit.
fn nibble(b: u8) -> (n: Option<u8>)
    ensures
        n == nibble_of(b),
{
    if 48 <= b && b <= 57 {
        Some(b - 48)
    } else if 97 <= b && b <= 102 {
        Some(b - 87)
    } else if 65 <= b && b <= 70 {
        Some(b - 55)
    } else {
        None
    }
}

/// The character that starts at byte `at` of `s`, or `?` where none does.
fn char_at(s: &str, at: usize) -> (c: char)
    requires
        at < encode_utf8(s@).len(),
    ensures
        at < encode_utf8(s@).len() && encode_utf8(s@)[at as int] < 128 ==> c == encode_utf8(s@)[at as int] as char,
{
    let bytes = s.as_bytes();
    if at < bytes.len() && bytes[at] < 128 {
        return bytes[at] as char;
    }
    if at <= bytes.len() && s.is_char_boundary(at) {
        let (_, rest) = s.split_at(at);
        let mut chars = rest.chars();
        match chars.next() {
            Some(c) => c,
            None => '?',
        }
    } else {
        '?'
    }
}

/// `hex` as bytes: two digits a byte, either case, with spaces allowed
/// between bytes so a dump can be pasted as it was printed.
pub fn decode_hex(hex: &str) -> (r: Result<Vec<u8>, HexError>)
    ensures
        match unhex(encode_utf8(hex@), 0, None) {
            Ok(b) => r matches Ok(v) && v@ == b,
            Err(Some(at)) => r matches Err(HexError::NotHex { at: a, shown }) && a == at && (encode_utf8(hex@)[at]
                < 128 ==> shown == encode_utf8(hex@)[at] as char),
            Err(None) => r == Err::<Vec<u8>, HexError>(HexError::Odd),
        },
{
    let bytes = hex.as_bytes();
    let ghost s = encode_utf8(hex@);
    let mut out: Vec<u8> = Vec::new();
    let mut high: Option<u8> = None;
    let mut i: usize = 0;
    proof {
        assert(out@ + Seq::<u8>::empty() =~= out@);
        match unhex(s, 0, None) {
            Ok(x) => assert(Seq::<u8>::empty() + x =~= x),
            Err(_) => {},
        }
    }
    while i < bytes.len()
        invariant
            bytes@ == s,
            s == encode_utf8(hex@),
            i <= s.len(),
            high matches Some(h) ==> h < 16,
            unhex(s, 0, None) == after_bytes(out@, unhex(s, i as int, high)),
        decreases s.len() - i,
    {
        let b = bytes[i];
        match nibble(b) {
            Some(n) => match high {
                Some(h) => {
                    let ghost before = out@;
                    out.push(h * 16 + n);
                    high = None;
                    proof {
                        match unhex(s, i + 1, None) {
                            Ok(x) => assert(before + (seq![(h * 16 + n) as u8] + x) =~= out@ + x),
                            Err(_) => {},
                        }
                    }
                },
                None => {
                    high = Some(n);
                },
            },
            None => {
                if b == 32 && high.is_none() {
                } else {
                    let shown = char_at(hex, i);
                    return Err(HexError::NotHex { at: i, shown });
                }
            },
        }
        i = i + 1;
    }
    match high {
        Some(_) => Err(HexError::Odd),
        None => {
            proof {
                assert(out@ + Seq::<u8>::empty() =~= out@);
            }
            Ok(out)
        },
    }
}

/// A byte that is not hex, in words: its place, counted from one, and the
/// character there in backticks.
fn not_hex_words(place: usize, shown: char) -> (s: String)
    ensures
        s@ == "the hex is not hex at character "@ + decimal(place as nat) + ": `"@ + seq![shown] + "`"@,
{
    let mut s = String::from_str("the hex is not hex at character ");
    push_decimal(&mut s, place as u64);
    s.append(": `");
    push_char(&mut s, shown);
    s.append("`");
    proof {
        assert(s@ =~= "the hex is not hex at character "@ + decimal(place as nat) + ": `"@ + seq![shown] + "`"@);
    }
    s
}

impl HexError {
    /// The error as a person reads it.
    pub fn to_string(&self) -> (s: String)
        ensures
            self matches HexError::Odd ==> s@ == "the hex has an odd number of digits"@,
            self matches HexError::NotHex { at, shown } ==> (at < usize::MAX ==> s@
                == "the hex is not hex at character "@ + decimal((at + 1) as nat) + ": `"@ + seq![*shown] + "`"@),
    {
        match self {
            HexError::NotHex { at, shown } => {
                let place = if *at < usize::MAX {
                    *at + 1
                } else {
                    *at
                };
                not_hex_words(place, *shown)
            },
            HexError::Odd => String::from_str("the hex has an odd number of digits"),
        }
    }
}

/// What a `schema` run learned, once it stopped reading.
#[derive(Clone, Debug, Eq, PartialEq)]
pub enum Outcome {
    /// The set, and its SHA-256, which the handshake agreed with or did not
    /// carry.
    Fetched {
        /// The compiled `FileDescriptorSet`.
        set: Vec<u8>,
        /// Its SHA-256.
        sha256: [u8; 32],
    },
    /// The set hashes to something other than what the handshake said, so
    /// it is not the schema the bridge means to serve.
    Mismatch,
    /// The bridge answered that it holds no schema, in these words.
    NoSchema(String),
    /// The bridge refused the token, with this `AuthError` number.
    Refused(i32),
    /// The stream ended before an answer.
    Closed,
}

/// What an `AuthResult` tells a run waiting on its token: nothing yet when
/// the token was accepted, and a refusal with its number when not.
pub fn auth_answer(ok: bool, error: i32) -> (o: Option<Outcome>)
    ensures
        ok ==> o is None,
        !ok ==> o == Some(Outcome::Refused(error)),
{
    if ok {
        None
    } else {
        Some(Outcome::Refused(error))
    }
}

/// What a `Schema` answer is, against the hash the handshake carried, if
/// any: the set when it hashes to that hash or none was carried, a
/// mismatch when it does not (a carried hash of any other length than a
/// digest's included), and the bridge's reason when it sent no set. An
/// answer with neither reads as an empty reason.
pub fn schema_answer(expected: Option<Vec<u8>>, set: Option<Vec<u8>>, error: Option<String>) -> (o: Outcome)
    ensures
        set is None ==> (o matches Outcome::NoSchema(e) && e@ == (match error {
            Some(e0) => e0@,
            None => Seq::<char>::empty(),
        })),
        set matches Some(b) ==> (if expected is Some && expected->0@ != sha256(b@) {
            o == Outcome::Mismatch
        } else {
            (o matches Outcome::Fetched { set: s, sha256: h } && s@ == b@ && h@ == sha256(b@))
        }),
{
    match set {
        None => match error {
            Some(e) => Outcome::NoSchema(e),
            None => Outcome::NoSchema(String::new()),
        },
        Some(bytes) => {
            let hash = sha256_of(bytes.as_slice());
            match expected {
                Some(want) => {
                    if !bytes_eq(want.as_slice(), &hash) {
                        return Outcome::Mismatch;
                    }
                },
                None => {},
            }
            Outcome::Fetched { set: bytes, sha256: hash }
        },
    }
}

/// The line a tail prints before a frame that does not come next: how many
/// records a gap dropped, and where, or that the frame came out of order.
/// Nothing for the next frame.
pub fn order_line(order: Order, last: u64, seq: u64) -> (line: Option<String>)
    ensures
        match order {
            Order::Next => line is None,
            Order::Gap { missing } => line matches Some(l) && l@ == if last == 0 {
                "gap: "@ + decimal(missing as nat) + " records dropped before seq "@ + decimal(seq as nat)
            } else {
                "gap: "@ + decimal(missing as nat) + " records dropped between seq "@ + decimal(last as nat) + " and "@
                    + decimal(seq as nat)
            },
            Order::Behind => line matches Some(l) && l@ == "seq "@ + decimal(seq as nat) + " after "@ + decimal(
                last as nat,
            ) + ": out of order"@,
        },
{
    match order {
        Order::Next => None,
        Order::Gap { missing } => {
            let mut s = String::from_str("gap: ");
            push_decimal(&mut s, missing);
            if last == 0 {
                s.append(" records dropped before seq ");
            } else {
                s.append(" records dropped between seq ");
                push_decimal(&mut s, last);
                s.append(" and ");
            }
            push_decimal(&mut s, seq);
            Some(s)
        },
        Order::Behind => {
            let mut s = String::from_str("seq ");
            push_decimal(&mut s, seq);
            s.append(" after ");
            push_decimal(&mut s, last);
            s.append(": out of order");
            Some(s)
        },
    }
}

/// `true` or `false`, as Rust spells a `bool`.
pub open spec fn bool_text(b: bool) -> Seq<char> {
    if b {
        "true"@
    } else {
        "false"@
    }
}

/// Append `b` as Rust spells it.
fn push_bool(s: &mut String, b: bool)
    ensures
        final(s)@ == old(s)@ + bool_text(b),
{
    if b {
        s.append("true");
    } else {
        s.append("false");
    }
}

/// The line a ping prints of a `Pong`: whether DCS is alive, how long ago
/// it was last heard from, or `-` when it never was, and whether the bridge
/// is enabled.
pub fn pong_line(alive: bool, last_heard_ms: Option<u64>, enabled: bool) -> (line: String)
    ensures
        line@ == "dcs_alive="@ + bool_text(alive) + " dcs_last_heard_ms="@ + match last_heard_ms {
            Some(ms) => decimal(ms as nat),
            None => "-"@,
        } + " bridge_enabled="@ + bool_text(enabled),
{
    let mut s = String::from_str("dcs_alive=");
    push_bool(&mut s, alive);
    s.append(" dcs_last_heard_ms=");
    match last_heard_ms {
        Some(ms) => push_decimal(&mut s, ms),
        None => s.append("-"),
    }
    s.append(" bridge_enabled=");
    push_bool(&mut s, enabled);
    s
}

/// The line a tail prints of a frame, but for its mission time: its `seq`;
/// its topic and the size of its payload when it has both, and `-` and zero
/// otherwise; for a handshake (`schema` present), the schema's hash in hex
/// or `-`; for a token's answer (`auth` present), whether it was accepted,
/// and the refusal's name when not; and its epoch when it has one.
pub fn frame_head(
    seq: u64,
    payload: Option<(&str, usize)>,
    schema: Option<Option<&[u8]>>,
    auth: Option<(bool, &str)>,
    epoch: Option<u32>,
) -> (line: String)
    ensures
        line@ == "seq="@ + decimal(seq as nat) + match payload {
            Some((topic, bytes)) => " topic="@ + topic@ + " bytes="@ + decimal(bytes as nat),
            None => " topic=- bytes=0"@,
        } + match schema {
            Some(Some(hash)) => " schema_sha256="@ + hex_of(hash@),
            Some(None) => " schema_sha256=-"@,
            None => Seq::empty(),
        } + match auth {
            Some((true, _)) => " ok=true"@,
            Some((false, name)) => " ok=false error="@ + name@,
            None => Seq::empty(),
        } + match epoch {
            Some(e) => " epoch="@ + decimal(e as nat),
            None => Seq::empty(),
        },
{
    let mut s = String::from_str("seq=");
    push_decimal(&mut s, seq);
    let ghost a = s@;
    match payload {
        Some((topic, bytes)) => {
            s.append(" topic=");
            s.append(topic);
            s.append(" bytes=");
            push_decimal(&mut s, bytes as u64);
        },
        None => s.append(" topic=- bytes=0"),
    }
    let ghost b = s@;
    match schema {
        Some(Some(hash)) => {
            s.append(" schema_sha256=");
            let h = hex(hash);
            s.append(h.as_str());
        },
        Some(None) => s.append(" schema_sha256=-"),
        None => {},
    }
    let ghost c = s@;
    match auth {
        Some((true, _)) => s.append(" ok=true"),
        Some((false, name)) => {
            s.append(" ok=false error=");
            s.append(name);
        },
        None => {},
    }
    let ghost d = s@;
    match epoch {
        Some(e) => {
            s.append(" epoch=");
            push_decimal(&mut s, e as u64);
        },
        None => {},
    }
    proof {
        assert(b =~= a + match payload {
            Some((topic, bytes)) => " topic="@ + topic@ + " bytes="@ + decimal(bytes as nat),
            None => " topic=- bytes=0"@,
        });
        assert(c =~= b + match schema {
            Some(Some(hash)) => " schema_sha256="@ + hex_of(hash@),
            Some(None) => " schema_sha256=-"@,
            None => Seq::empty(),
        });
        assert(d =~= c + match auth {
            Some((true, _)) => " ok=true"@,
            Some((false, name)) => " ok=false error="@ + name@,
            None => Seq::empty(),
        });
        assert(s@ =~= d + match epoch {
            Some(e) => " epoch="@ + decimal(e as nat),
            None => Seq::empty(),
        });
    }
    s
}

/// Where a text starts once a byte order mark, if any, is passed.
pub open spec fn bom_end(b: Seq<u8>) -> int {
    if b.len() >= 3 && b[0] == 0xEF && b[1] == 0xBB && b[2] == 0xBF {
        3
    } else {
        0
    }
}

/// Where the line that starts at `i` ends: the first newline from `i` on,
/// or the end.
pub open spec fn line_end(b: Seq<u8>, i: int) -> int
    decreases b.len() - i,
{
    if i >= b.len() || i < 0 {
        b.len() as int
    } else if b[i] == 10 {
        i
    } else {
        line_end(b, i + 1)
    }
}

/// `end`, moved back past the carriage returns before it, down to `start`
/// at the least.
pub open spec fn cr_trimmed(b: Seq<u8>, start: int, end: int) -> int
    decreases end - start,
{
    if end > start && b[end - 1] == 13 {
        cr_trimmed(b, start, end - 1)
    } else {
        end
    }
}

/// Where the secret in a token file's text lies, in bytes: past a byte
/// order mark, up to the end of the first line, without the carriage
/// returns at its end. An editor or a shell on Windows writes both, and
/// neither is part of a secret.
pub open spec fn secret_span(b: Seq<u8>) -> (int, int) {
    let s = bom_end(b);
    (s, cr_trimmed(b, s, line_end(b, s)))
}

/// A line ends at a newline or at the end of the text.
proof fn lemma_line_end(b: Seq<u8>, i: int)
    requires
        0 <= i <= b.len(),
    ensures
        i <= line_end(b, i) <= b.len(),
        line_end(b, i) == b.len() || b[line_end(b, i)] == 10,
    decreases b.len() - i,
{
    if i < b.len() && b[i] != 10 {
        lemma_line_end(b, i + 1);
    }
}

/// Trimming stops at the start, at a carriage return it keeps, or where it
/// began.
proof fn lemma_cr_trimmed(b: Seq<u8>, start: int, end: int)
    requires
        0 <= start <= end <= b.len(),
    ensures
        start <= cr_trimmed(b, start, end) <= end,
        cr_trimmed(b, start, end) == start || cr_trimmed(b, start, end) == end || b[cr_trimmed(b, start, end)]
            == 13,
    decreases end - start,
{
    if end > start && b[end - 1] == 13 {
        lemma_cr_trimmed(b, start, end - 1);
    }
}

/// In valid text, a place before an ASCII byte, or the end, starts a
/// character.
proof fn lemma_ascii_boundary(b: Seq<u8>, i: int)
    requires
        vstd::utf8::valid_utf8(b),
        0 <= i <= b.len(),
        i == b.len() || b[i] < 0x80,
    ensures
        vstd::utf8::is_char_boundary(b, i),
{
    if i == b.len() {
        vstd::utf8::is_char_boundary_start_end_of_seq(b);
    } else {
        vstd::utf8::is_char_boundary_iff_not_is_continuation_byte(b, i);
    }
}

/// The token's secret in the text of a token file: the first line, past a
/// byte order mark and without the carriage returns at its end, or `None`
/// when that leaves nothing.
pub fn token_secret(text: &str) -> (r: Option<&str>)
    ensures
        secret_span(encode_utf8(text@)).0 == secret_span(encode_utf8(text@)).1 ==> r is None,
        secret_span(encode_utf8(text@)).0 < secret_span(encode_utf8(text@)).1 ==> (r matches Some(t)
            && encode_utf8(t@) == encode_utf8(text@).subrange(
            secret_span(encode_utf8(text@)).0,
            secret_span(encode_utf8(text@)).1,
        )),
{
    let bytes = text.as_bytes();
    let ghost b = encode_utf8(text@);
    let n = bytes.len();
    let start: usize = if n >= 3 && bytes[0] == 0xEF && bytes[1] == 0xBB && bytes[2] == 0xBF {
        3
    } else {
        0
    };
    let mut end: usize = start;
    while end < n && bytes[end] != 10
        invariant
            bytes@ == b,
            n == b.len(),
            start <= end <= n,
            line_end(b, start as int) == line_end(b, end as int),
        decreases n - end,
    {
        end = end + 1;
    }
    proof {
        lemma_line_end(b, start as int);
    }
    while end > start && bytes[end - 1] == 13
        invariant
            bytes@ == b,
            n == b.len(),
            start <= end <= n,
            cr_trimmed(b, start as int, line_end(b, start as int)) == cr_trimmed(b, start as int, end as int),
        decreases end - start,
    {
        end = end - 1;
    }
    if end == start {
        return None;
    }
    proof {
        let le = line_end(b, start as int);
        lemma_cr_trimmed(b, start as int, le);
        vstd::utf8::encode_utf8_valid_utf8(text@);
        lemma_ascii_boundary(b, end as int);
        if start == 3 {
            assert(vstd::utf8::length_of_first_scalar(b) == 3);
            reveal_with_fuel(vstd::utf8::is_char_boundary, 2);
            assert(vstd::utf8::is_char_boundary(b, 3));
        } else {
            vstd::utf8::is_char_boundary_start_end_of_seq(b);
        }
    }
    let (_, rest) = text.split_at(start);
    proof {
        let rb = encode_utf8(rest@);
        assert(rb =~= b.subrange(start as int, n as int));
        vstd::utf8::encode_utf8_valid_utf8(rest@);
        if end < n {
            assert(rb[end - start] == b[end as int]);
        }
        lemma_ascii_boundary(rb, end - start);
    }
    let (secret, _) = rest.split_at(end - start);
    proof {
        assert(encode_utf8(secret@) =~= b.subrange(start as int, end as int));
    }
    Some(secret)
}

/// What goes before a record's tail on one connection: the frame's length,
/// then `seq` as the envelope's first field. The tail is the same on every
/// connection; this is the connection's own.
pub open spec fn header(seq: u64, tail_len: nat) -> Seq<u8> {
    le32((1 + varint(seq as nat).len() + tail_len) as u32) + varint_field(SEQ_FIELD, seq as nat)
}

/// The header for a record numbered `seq` whose tail is `tail_len` bytes,
/// or `None` when the frame would outgrow its four-byte length.
pub fn frame_header(seq: u64, tail_len: usize) -> (r: Option<Vec<u8>>)
    ensures
        1 + varint(seq as nat).len() + tail_len <= u32::MAX ==> (r matches Some(h) && h@ == header(
            seq,
            tail_len as nat,
        )),
        1 + varint(seq as nat).len() + tail_len > u32::MAX ==> r is None,
{
    let v = varint_len(seq);
    if tail_len > 0xFFFF_FFFFusize - 1 - v {
        return None;
    }
    let n = (1 + v + tail_len) as u32;
    let mut h: Vec<u8> = Vec::new();
    h.push((n & 0xff) as u8);
    h.push(((n >> 8u32) & 0xff) as u8);
    h.push(((n >> 16u32) & 0xff) as u8);
    h.push(((n >> 24u32) & 0xff) as u8);
    h.push(8u8);
    put_varint(&mut h, seq);
    proof {
        assert(tag(SEQ_FIELD, WIRE_VARINT) == seq![8u8]);
        assert(h@ =~= header(seq, tail_len as nat));
    }
    Some(h)
}

} // verus!
