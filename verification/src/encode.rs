//! The record encoder: put calls writing protobuf into a buffer sized once.
//!
//! A record arrives as typed put calls, each naming its field number, and
//! this writes the tag and the value by hand. What `commit` hands back is a
//! message body: the fields, one after another, with no length prefix.
//!
//! Every integer is written as a plain varint, the wire form of `int32`,
//! `int64`, `uint32`, `uint64`, `bool` and every enum. A nested message
//! leaves a fixed-width gap for its length at `message`, and `end_message`
//! fills it with a padded varint: every byte but the last carries the
//! continuation bit. The gap is as wide as the largest length the buffer can
//! hold, so the length always fits.

use vstd::prelude::*;

verus! {

/// Field numbers above this do not fit the 29 bits a tag leaves them.
pub const MAX_FIELD: u32 = 536870911;

/// The most nested messages a record may hold open at once.
pub const MAX_DEPTH: usize = 64;

/// The wire type of a varint value.
pub const WIRE_VARINT: u64 = 0;
/// The wire type of a little-endian eight-byte value.
pub const WIRE_FIXED64: u64 = 1;
/// The wire type of a length-prefixed value.
pub const WIRE_LENGTH: u64 = 2;

// ---------------------------------------------------------------------------
// The wire format, as mathematics.

/// `v` as a minimal varint: seven bits per byte, low bits first, the high
/// bit of each byte saying another follows.
pub open spec fn varint(v: nat) -> Seq<u8>
    decreases v,
{
    if v < 128 {
        seq![v as u8]
    } else {
        seq![(v % 128 + 128) as u8] + varint(v / 128)
    }
}

/// `v` as a varint filling `width` bytes: every byte but the last has the
/// continuation bit, whether or not the bits above it are zero.
pub open spec fn padded_varint(v: nat, width: nat) -> Seq<u8>
    decreases width,
{
    if width <= 1 {
        seq![(v % 128) as u8]
    } else {
        seq![(v % 128 + 128) as u8] + padded_varint(v / 128, (width - 1) as nat)
    }
}

/// Whether `v` fits the `width` bytes of a padded varint without losing bits.
pub open spec fn fits_width(v: nat, width: nat) -> bool
    decreases width,
{
    if width <= 1 {
        v < 128
    } else {
        fits_width(v / 128, (width - 1) as nat)
    }
}

/// What a stock decoder reads from the front of `s`: the value of the varint
/// there and how many bytes it took, or nothing when `s` ends inside one.
pub open spec fn decode_varint(s: Seq<u8>) -> Option<(nat, nat)>
    decreases s.len(),
{
    if s.len() == 0 {
        None
    } else if s[0] < 128 {
        Some((s[0] as nat, 1))
    } else {
        match decode_varint(s.drop_first()) {
            Some((v, n)) => Some((((s[0] - 128) + 128 * v) as nat, n + 1)),
            None => None,
        }
    }
}

/// A field's key: its number and its wire type, as a varint.
pub open spec fn tag(field: u32, wire: u64) -> Seq<u8> {
    varint((field * 8 + wire) as nat)
}

/// An integer field: the key, then the two's-complement bits as a varint.
pub open spec fn integer_field(field: u32, n: i64) -> Seq<u8> {
    tag(field, WIRE_VARINT) + varint((n as u64) as nat)
}

/// A length-prefixed field: the key, the length, then the bytes.
pub open spec fn bytes_field(field: u32, s: Seq<u8>) -> Seq<u8> {
    tag(field, WIRE_LENGTH) + varint(s.len()) + s
}

/// A boolean field: the key, then one byte.
pub open spec fn boolean_field(field: u32, b: bool) -> Seq<u8> {
    tag(field, WIRE_VARINT) + seq![if b { 1u8 } else { 0u8 }]
}

/// An eight-byte field: the key, then the bits little-endian.
pub open spec fn fixed64_field(field: u32, bits: u64) -> Seq<u8> {
    tag(field, WIRE_FIXED64) + vstd::bytes::spec_u64_to_le_bytes(bits)
}

/// `n` zero bytes: the gap a nested message's length is later written into.
pub open spec fn zeros(n: nat) -> Seq<u8> {
    Seq::new(n, |i: int| 0u8)
}

/// The bytes `message` puts before the nested body: the key and the gap.
pub open spec fn message_head(field: u32, width: nat) -> Seq<u8> {
    tag(field, WIRE_LENGTH) + zeros(width)
}

/// `s` with the `width` bytes at `at` replaced by `bytes`.
pub open spec fn splice(s: Seq<u8>, at: int, bytes: Seq<u8>) -> Seq<u8> {
    s.subrange(0, at) + bytes + s.subrange(at + bytes.len(), s.len() as int)
}

/// Whether a field number is one a tag can carry.
pub open spec fn valid_field(field: u32) -> bool {
    1 <= field <= MAX_FIELD
}

// ---------------------------------------------------------------------------
// Lemmas about the wire format.

/// The bit operations the exec code uses, as the arithmetic the specs use.
proof fn lemma_low_bits(v: u64)
    ensures
        ((v as u8) | 0x80u8) == ((v % 128) + 128) as u8,
        (v >> 7u64) == v / 128,
        ((v as u8) & 0x7fu8) == (v % 128) as u8,
        v < 128 ==> (v as u8) == v,
{
    assert(((v as u8) | 0x80u8) == ((v % 128) + 128) as u8) by (bit_vector);
    assert((v >> 7u64) == v / 128) by (bit_vector);
    assert(((v as u8) & 0x7fu8) == (v % 128) as u8) by (bit_vector);
    assert(v < 128 ==> (v as u8) == v) by (bit_vector);
}

/// A tag as the exec code computes it.
proof fn lemma_tag_bits(field: u32, wire: u64)
    requires
        field <= MAX_FIELD,
        wire < 8,
    ensures
        (((field as u64) << 3u64) | wire) == field * 8 + wire,
{
    assert(((field as u64) <= 536870911u64 && wire < 8u64) ==> (((field as u64) << 3u64) | wire)
        == (field as u64) * 8u64 + wire) by (bit_vector);
}

/// A varint is never longer than ten bytes for a value a `u64` holds.
pub proof fn lemma_varint_len_bound(v: nat)
    requires
        v < 0x1_0000_0000_0000_0000,
    ensures
        1 <= varint(v).len() <= 10,
{
    lemma_u64_under_pow128_10();
    lemma_varint_len_under(v, 10);
}

/// Under `128^k`, a varint takes at most `k` bytes.
proof fn lemma_varint_len_under(v: nat, k: nat)
    requires
        k >= 1,
        v < pow128(k),
    ensures
        1 <= varint(v).len() <= k,
    decreases v,
{
    if v >= 128 {
        assert(k >= 2) by {
            if k == 1 {
                reveal_with_fuel(pow128, 2);
            }
        }
        assert(v / 128 < pow128((k - 1) as nat)) by {
            assert(pow128(k) == 128 * pow128((k - 1) as nat));
        }
        lemma_varint_len_under(v / 128, (k - 1) as nat);
    }
}

/// `128^k`, for the bounds above.
pub open spec fn pow128(k: nat) -> nat
    decreases k,
{
    if k == 0 {
        1
    } else {
        128 * pow128((k - 1) as nat)
    }
}

/// The largest value a `u64` holds is under `128^10`.
proof fn lemma_u64_under_pow128_10()
    ensures
        0x1_0000_0000_0000_0000 <= pow128(10),
{
    reveal_with_fuel(pow128, 11);
}

/// A smaller value never takes more varint bytes.
pub proof fn lemma_varint_len_monotone(x: nat, y: nat)
    requires
        x <= y,
    ensures
        varint(x).len() <= varint(y).len(),
    decreases y,
{
    if x >= 128 {
        lemma_varint_len_monotone(x / 128, y / 128);
    }
}

/// A value fits the padded width of any value at least as large.
pub proof fn lemma_fits_width_of_larger(x: nat, y: nat)
    requires
        x <= y,
    ensures
        fits_width(x, varint(y).len()),
    decreases y,
{
    if y >= 128 {
        if x >= 128 {
            lemma_fits_width_of_larger(x / 128, y / 128);
        } else {
            lemma_fits_small((varint(y).len() - 1) as nat, x);
        }
    }
}

/// A value under 128 fits any width.
proof fn lemma_fits_small(width: nat, x: nat)
    requires
        x < 128,
    ensures
        fits_width(x, width),
        fits_width(x, width + 1),
    decreases width,
{
    assert(x / 128 == 0);
    if width > 1 {
        lemma_fits_small((width - 1) as nat, x / 128);
    } else {
        assert(fits_width(x, 1));
        assert(fits_width(x / 128, 1));
        assert(fits_width(x, 2));
    }
}

/// A padded varint is exactly `width` bytes.
pub proof fn lemma_padded_len(v: nat, width: nat)
    requires
        width >= 1,
    ensures
        padded_varint(v, width).len() == width,
    decreases width,
{
    if width > 1 {
        lemma_padded_len(v / 128, (width - 1) as nat);
    }
}

/// Law: a stock decoder reads a minimal varint back as the value written,
/// whatever follows it.
pub proof fn lemma_varint_decodes(v: nat, rest: Seq<u8>)
    ensures
        decode_varint(varint(v) + rest) == Some((v, varint(v).len())),
    decreases v,
{
    let s = varint(v) + rest;
    if v < 128 {
        assert(s[0] == v as u8);
    } else {
        lemma_varint_decodes(v / 128, rest);
        assert(s.drop_first() =~= varint(v / 128) + rest);
        assert(s[0] == (v % 128 + 128) as u8);
    }
}

/// Law: a stock decoder reads a padded varint back as the value written,
/// across all of its width, whenever the value fits that width.
pub proof fn lemma_padded_decodes(v: nat, width: nat, rest: Seq<u8>)
    requires
        width >= 1,
        fits_width(v, width),
    ensures
        decode_varint(padded_varint(v, width) + rest) == Some((v, width)),
    decreases width,
{
    let s = padded_varint(v, width) + rest;
    if width <= 1 {
        assert(s[0] == v as u8);
    } else {
        lemma_padded_decodes(v / 128, (width - 1) as nat, rest);
        assert(s.drop_first() =~= padded_varint(v / 128, (width - 1) as nat) + rest);
        assert(s[0] == (v % 128 + 128) as u8);
    }
}

// ---------------------------------------------------------------------------
// The exec helpers.

/// How many bytes `v` takes as a varint: one per seven bits, at least one.
pub fn varint_len(v: u64) -> (n: usize)
    ensures
        n == varint(v as nat).len(),
        1 <= n <= 10,
{
    let mut v = v;
    let ghost orig = v as nat;
    let mut n: usize = 1;
    proof {
        lemma_varint_len_bound(orig);
    }
    while v >= 0x80
        invariant
            n + varint(v as nat).len() - 1 == varint(orig).len(),
            varint(orig).len() <= 10,
            1 <= varint(v as nat).len(),
            n >= 1,
        decreases v,
    {
        proof {
            lemma_low_bits(v);
        }
        v = v >> 7;
        n = n + 1;
    }
    n
}

/// Append `v` as a minimal varint.
pub fn put_varint(buf: &mut Vec<u8>, v: u64)
    ensures
        final(buf)@ == old(buf)@ + varint(v as nat),
{
    let ghost start = buf@;
    let ghost orig = v as nat;
    let mut v = v;
    while v >= 0x80
        invariant
            buf@ + varint(v as nat) == start + varint(orig),
        decreases v,
    {
        proof {
            lemma_low_bits(v);
        }
        let ghost before = buf@;
        buf.push((v as u8) | 0x80);
        v = v >> 7;
        proof {
            assert(buf@ + varint(v as nat) =~= before + varint((v * 128 + 0) as nat).take(0)
                + seq![buf@.last()] + varint(v as nat));
        }
    }
    proof {
        lemma_low_bits(v);
    }
    buf.push(v as u8);
}

/// Write `v` as a padded varint over the `width` bytes of `buf` at `at`.
fn put_padded_varint(buf: &mut Vec<u8>, at: usize, width: usize, v: u64)
    requires
        width >= 1,
        at + width <= old(buf)@.len(),
    ensures
        final(buf)@ == splice(old(buf)@, at as int, padded_varint(v as nat, width as nat)),
{
    let ghost start = buf@;
    let ghost full = padded_varint(v as nat, width as nat);
    let mut v = v;
    let mut i: usize = 0;
    proof {
        lemma_padded_len(v as nat, width as nat);
    }
    while i < width
        invariant
            0 <= i <= width,
            at + width <= start.len(),
            at + width <= buf.len(),
            buf@.len() == start.len(),
            full.len() == width,
            i < width ==> full =~= full.subrange(0, i as int) + padded_varint(v as nat, (width - i) as nat),
            buf@ =~= start.subrange(0, at as int) + full.subrange(0, i as int)
                + start.subrange(at + i, start.len() as int),
        decreases width - i,
    {
        proof {
            lemma_low_bits(v);
            lemma_padded_len(v as nat, (width - i) as nat);
        }
        let low = (#[verifier::truncate] (v as u8)) & 0x7f;
        let byte = if i + 1 < width {
            low | 0x80
        } else {
            low
        };
        proof {
            assert((low | 0x80u8) == (low + 128) as u8) by (bit_vector)
                requires low < 128u8;
            let rest = padded_varint(v as nat, (width - i) as nat);
            assert(rest[0] == byte);
            if i + 1 < width {
                assert(rest =~= seq![byte] + padded_varint((v / 128) as nat, (width - i - 1) as nat));
            }
        }
        buf.set(at + i, byte);
        v = v >> 7;
        i = i + 1;
    }
    proof {
        assert(full.subrange(0, width as int) =~= full);
    }
}

// ---------------------------------------------------------------------------
// The encoder.

/// Why a put or a commit was refused.
///
/// Every error but [`Error::NotOpen`] poisons the record: later puts return
/// the same error, `commit` returns it and discards the record, and the next
/// `begin` starts clean.
#[derive(Clone, Copy, Debug, PartialEq, Eq, Structural)]
pub enum Error {
    /// A put or a commit with no record open.
    NotOpen,
    /// The record outgrew the buffer.
    Full,
    /// A field number outside 1 to 2^29 - 1.
    FieldNumber,
    /// More than [`MAX_DEPTH`] messages open at once.
    Depth,
    /// An `end_message` with no message open, or a `commit` with one open.
    Unbalanced,
}

/// The words each refusal is reported in.
pub open spec fn error_text(e: Error) -> Seq<char> {
    match e {
        Error::NotOpen => "no record is open"@,
        Error::Full => "the record outgrew its buffer"@,
        Error::FieldNumber => "field number outside 1 to 2^29 - 1"@,
        Error::Depth => "too many nested messages open"@,
        Error::Unbalanced => "message and end_message do not pair"@,
    }
}

impl Error {
    /// The refusal in words.
    pub fn to_string(&self) -> (s: String)
        ensures
            s@ == error_text(*self),
    {
        match self {
            Error::NotOpen => "no record is open".to_owned(),
            Error::Full => "the record outgrew its buffer".to_owned(),
            Error::FieldNumber => "field number outside 1 to 2^29 - 1".to_owned(),
            Error::Depth => "too many nested messages open".to_owned(),
            Error::Unbalanced => "message and end_message do not pair".to_owned(),
        }
    }
}

/// Where a record stands between `begin` and `commit`.
#[derive(Clone, Copy, Debug, PartialEq, Eq, Structural)]
enum State {
    /// Nothing open. The buffer may still hold the last committed body.
    Idle,
    /// A record is open and every put so far succeeded.
    Open,
    /// A record is open and a put failed. `commit` will refuse it.
    Poisoned(Error),
}

/// One record at a time, encoded into a buffer sized once.
#[derive(Debug)]
pub struct Encoder {
    buf: Vec<u8>,
    capacity: usize,
    /// For each open message, innermost last, where its length gap starts.
    open: Vec<usize>,
    /// Bytes every length gap takes: enough for the largest body possible.
    len_width: usize,
    state: State,
    discarded: u64,
}

impl Encoder {
    /// The bytes written since `begin`.
    pub closed spec fn bytes(&self) -> Seq<u8> {
        self.buf@
    }

    /// The most bytes one record may hold.
    pub closed spec fn cap(&self) -> nat {
        self.capacity as nat
    }

    /// Where each open message's length gap starts, innermost last.
    pub closed spec fn gaps(&self) -> Seq<usize> {
        self.open@
    }

    /// The width of every length gap.
    pub closed spec fn width(&self) -> nat {
        self.len_width as nat
    }

    /// No record is open.
    pub closed spec fn is_idle(&self) -> bool {
        self.state is Idle
    }

    /// A record is open and nothing has failed.
    pub closed spec fn is_open(&self) -> bool {
        self.state is Open
    }

    /// The error that poisoned the open record, if one did.
    pub closed spec fn poisoned_by(&self) -> Option<Error> {
        match self.state {
            State::Poisoned(e) => Some(e),
            _ => None,
        }
    }

    /// Records discarded so far.
    pub closed spec fn discards(&self) -> nat {
        self.discarded as nat
    }

    /// The encoder's invariant: the buffer within its capacity, the gap
    /// width the capacity's varint width, and every open gap inside the
    /// buffer while a record is open.
    pub closed spec fn wf(&self) -> bool {
        &&& self.buf@.len() <= self.capacity
        &&& self.len_width == varint(self.capacity as nat).len()
        &&& 1 <= self.len_width <= 10
        &&& !(self.state is Idle) ==> {
            &&& self.open@.len() <= MAX_DEPTH
            &&& forall|i: int|
                0 <= i < self.open@.len() ==> #[trigger] self.open@[i] + self.len_width
                    <= self.buf@.len()
        }
    }

    /// An open record is neither idle nor poisoned, so a put on it goes
    /// ahead.
    pub proof fn lemma_open_is_ready(&self)
        ensures
            self.is_open() ==> !self.is_idle() && self.poisoned_by() is None,
    {
    }

    /// Everything but the bytes and the state is as it was.
    pub open spec fn same_frame(self, other: Encoder) -> bool {
        &&& self.cap() == other.cap()
        &&& self.width() == other.width()
        &&& self.discards() == other.discards()
        &&& self.gaps() == other.gaps()
    }

    /// Nothing changed at all.
    pub open spec fn unchanged(self, other: Encoder) -> bool {
        &&& self.same_frame(other)
        &&& self.bytes() == other.bytes()
        &&& self.is_idle() == other.is_idle()
        &&& self.is_open() == other.is_open()
        &&& self.poisoned_by() == other.poisoned_by()
    }

    /// The refusal of a put: the bytes stay, and the record is poisoned.
    pub open spec fn refused(self, next: Encoder, e: Error) -> bool {
        &&& next.same_frame(self)
        &&& next.bytes() == self.bytes()
        &&& next.poisoned_by() == Some(e)
        &&& !next.is_idle()
        &&& !next.is_open()
    }

    /// The refusal that comes before anything else: no record is open, or
    /// the one open is poisoned. `None` when a put may proceed.
    pub open spec fn not_ready(self) -> Option<Error> {
        if self.is_idle() {
            Some(Error::NotOpen)
        } else if self.poisoned_by() is Some {
            self.poisoned_by()
        } else {
            None
        }
    }

    /// What a put of the field bytes `fb` on `field` does: refused by the
    /// state, by the field number or by the room left, or appended whole.
    pub open spec fn put_outcome(
        self,
        next: Encoder,
        field: u32,
        fb: Seq<u8>,
        r: Result<(), Error>,
    ) -> bool {
        match self.not_ready() {
            Some(e) => r == Err::<(), Error>(e) && next.unchanged(self),
            None => if !valid_field(field) {
                r == Err::<(), Error>(Error::FieldNumber) && self.refused(next, Error::FieldNumber)
            } else if self.bytes().len() + fb.len() > self.cap() {
                r == Err::<(), Error>(Error::Full) && self.refused(next, Error::Full)
            } else {
                &&& r == Ok::<(), Error>(())
                &&& next.same_frame(self)
                &&& next.bytes() == self.bytes() + fb
                &&& next.is_open()
            },
        }
    }

    /// A record refused once stays refused: every later put on it returns
    /// the error that refused it and changes nothing, until a `commit`
    /// discards it or a `begin` abandons it.
    pub proof fn law_a_refused_record_refuses_every_put(self, next: Encoder, field: u32, fb: Seq<u8>, r: Result<(), Error>)
        requires
            self.poisoned_by() is Some,
            self.put_outcome(next, field, fb, r),
        ensures
            r == Err::<(), Error>(self.poisoned_by()->0),
            next.poisoned_by() == self.poisoned_by(),
            next.bytes() == self.bytes(),
    {
    }

    /// An encoder holding at most `bytes` per record.
    pub fn with_capacity(bytes: usize) -> (e: Self)
        ensures
            e.wf(),
            e.cap() == bytes,
            e.is_idle(),
            e.bytes() == Seq::<u8>::empty(),
            e.discards() == 0,
            e.width() == varint(bytes as nat).len(),
    {
        let width = varint_len(bytes as u64);
        Encoder {
            buf: Vec::with_capacity(bytes),
            capacity: bytes,
            open: Vec::with_capacity(MAX_DEPTH),
            len_width: width,
            state: State::Idle,
            discarded: 0,
        }
    }

    /// The most bytes one record may hold.
    pub fn capacity(&self) -> (n: usize)
        ensures
            n == self.cap(),
    {
        self.capacity
    }

    /// Records that started and never committed: abandoned at the next
    /// `begin`, or refused at `commit`.
    pub fn discarded(&self) -> (n: u64)
        ensures
            n == self.discards(),
    {
        self.discarded
    }

    /// How many nested messages are open.
    pub fn depth(&self) -> (n: usize)
        ensures
            n == self.gaps().len(),
    {
        self.open.len()
    }

    /// Open a record, discarding one left open. Returns whether it did.
    pub fn begin(&mut self) -> (abandoned: bool)
        requires
            old(self).wf(),
            old(self).discards() < u64::MAX,
        ensures
            final(self).wf(),
            abandoned == !old(self).is_idle(),
            final(self).discards() == old(self).discards() + if abandoned { 1nat } else { 0nat },
            final(self).is_open(),
            final(self).bytes() == Seq::<u8>::empty(),
            final(self).gaps() == Seq::<usize>::empty(),
            final(self).cap() == old(self).cap(),
            final(self).width() == old(self).width(),
    {
        let abandoned = match self.state {
            State::Idle => false,
            _ => true,
        };
        if abandoned {
            self.discarded = self.discarded + 1;
        }
        self.buf.clear();
        self.open.clear();
        self.state = State::Open;
        abandoned
    }
}

impl Encoder {
    /// Whether a put may proceed: a record is open and nothing has failed.
    fn ready(&self) -> (r: Result<(), Error>)
        ensures
            r matches Err(e) ==> self.not_ready() == Some(e),
            r is Ok ==> self.not_ready() is None,
    {
        match self.state {
            State::Open => Ok(()),
            State::Idle => Err(Error::NotOpen),
            State::Poisoned(error) => Err(error),
        }
    }

    fn poison(&mut self, error: Error) -> (r: Result<(), Error>)
        requires
            old(self).wf(),
            old(self).is_open(),
        ensures
            final(self).wf(),
            old(self).refused(*final(self), error),
            r == Err::<(), Error>(error),
    {
        self.state = State::Poisoned(error);
        Err(error)
    }

    fn discard(&mut self)
        requires
            old(self).wf(),
            old(self).discards() < u64::MAX,
        ensures
            final(self).wf(),
            final(self).discards() == old(self).discards() + 1,
            final(self).bytes() == Seq::<u8>::empty(),
            final(self).is_idle(),
            final(self).cap() == old(self).cap(),
            final(self).width() == old(self).width(),
            final(self).gaps() == old(self).gaps(),
    {
        self.discarded = self.discarded + 1;
        self.buf.clear();
        self.state = State::Idle;
    }

    /// Check a put of a field on `field` whose value takes `a + b` bytes,
    /// and write its key: refused by the state, the field number or the
    /// room left, with the record poisoned by either of the last two.
    fn admit_field(&mut self, field: u32, wire: u64, a: usize, b: usize) -> (r: Result<(), Error>)
        requires
            old(self).wf(),
            wire < 8,
        ensures
            final(self).wf(),
            match old(self).not_ready() {
                Some(e) => r == Err::<(), Error>(e) && final(self).unchanged(*old(self)),
                None => if !valid_field(field) {
                    r == Err::<(), Error>(Error::FieldNumber) && old(self).refused(
                        *final(self),
                        Error::FieldNumber,
                    )
                } else if old(self).bytes().len() + tag(field, wire).len() + a + b > old(self).cap() {
                    r == Err::<(), Error>(Error::Full) && old(self).refused(*final(self), Error::Full)
                } else {
                    &&& r == Ok::<(), Error>(())
                    &&& final(self).same_frame(*old(self))
                    &&& final(self).bytes() == old(self).bytes() + tag(field, wire)
                    &&& final(self).is_open()
                    &&& final(self).bytes().len() + a + b <= final(self).cap()
                },
            },
    {
        self.ready()?;
        if field == 0 || field > MAX_FIELD {
            return self.poison(Error::FieldNumber);
        }
        proof {
            lemma_tag_bits(field, wire);
        }
        let tag = ((field as u64) << 3) | wire;
        let key = varint_len(tag);
        let room = self.capacity - self.buf.len();
        if key > room || a > room - key || b > room - key - a {
            return self.poison(Error::Full);
        }
        let ghost before = self.buf@;
        put_varint(&mut self.buf, tag);
        proof {
            assert forall|i: int| 0 <= i < self.open@.len() implies #[trigger] self.open@[i]
                + self.len_width <= self.buf@.len() by {
                assert(self.open@[i] + self.len_width <= before.len());
            }
        }
        Ok(())
    }

    /// Put a signed 64-bit integer as a varint.
    ///
    /// A negative value takes all ten bytes, which is what every decoder
    /// expects of a negative `int32` or `int64`.
    pub fn integer(&mut self, field: u32, n: i64) -> (r: Result<(), Error>)
        requires
            old(self).wf(),
        ensures
            final(self).wf(),
            final(self).discards() == old(self).discards(),
            old(self).put_outcome(*final(self), field, integer_field(field, n), r),
    {
        let v = n as u64;
        let size = varint_len(v);
        self.admit_field(field, WIRE_VARINT, size, 0)?;
        let ghost before = self.buf@;
        put_varint(&mut self.buf, v);
        proof {
            self.lemma_growth_keeps_gaps(before);
            assert(self.buf@ =~= old(self).bytes() + integer_field(field, n));
        }
        Ok(())
    }

    /// Put a double's bits as eight little-endian bytes: the wire form of
    /// `double`, with the float's bit pattern taken by the caller.
    pub fn fixed64(&mut self, field: u32, bits: u64) -> (r: Result<(), Error>)
        requires
            old(self).wf(),
        ensures
            final(self).wf(),
            final(self).discards() == old(self).discards(),
            old(self).put_outcome(*final(self), field, fixed64_field(field, bits), r),
    {
        proof {
            vstd::bytes::lemma_auto_spec_u64_to_from_le_bytes();
        }
        self.admit_field(field, WIRE_FIXED64, 8, 0)?;
        let ghost before = self.buf@;
        let bytes = vstd::bytes::u64_to_le_bytes(bits);
        self.buf.extend_from_slice(bytes.as_slice());
        proof {
            assert(self.buf@ =~= before + bytes@);
            self.lemma_growth_keeps_gaps(before);
            assert(self.buf@ =~= old(self).bytes() + fixed64_field(field, bits));
        }
        Ok(())
    }

    /// Put bytes behind their length.
    pub fn string(&mut self, field: u32, s: &[u8]) -> (r: Result<(), Error>)
        requires
            old(self).wf(),
        ensures
            final(self).wf(),
            final(self).discards() == old(self).discards(),
            old(self).put_outcome(*final(self), field, bytes_field(field, s@), r),
    {
        let len = s.len() as u64;
        let size = varint_len(len);
        self.admit_field(field, WIRE_LENGTH, size, s.len())?;
        let ghost before = self.buf@;
        put_varint(&mut self.buf, len);
        let ghost mid = self.buf@;
        self.buf.extend_from_slice(s);
        proof {
            assert(self.buf@ =~= mid + s@);
            self.lemma_growth_keeps_gaps(before);
            assert(self.buf@ =~= old(self).bytes() + bytes_field(field, s@));
        }
        Ok(())
    }

    /// Put a boolean as a one-byte varint.
    pub fn boolean(&mut self, field: u32, b: bool) -> (r: Result<(), Error>)
        requires
            old(self).wf(),
        ensures
            final(self).wf(),
            final(self).discards() == old(self).discards(),
            old(self).put_outcome(*final(self), field, boolean_field(field, b), r),
    {
        self.admit_field(field, WIRE_VARINT, 1, 0)?;
        let ghost before = self.buf@;
        self.buf.push(if b {
            1u8
        } else {
            0u8
        });
        proof {
            self.lemma_growth_keeps_gaps(before);
            assert(self.buf@ =~= old(self).bytes() + boolean_field(field, b));
        }
        Ok(())
    }

    /// Open a nested message on `field`. Every put until the matching
    /// `end_message` lands inside it, and a message may open another.
    ///
    /// A repeated message field is one pair per element, all on one field
    /// number, and put order is element order.
    pub fn message(&mut self, field: u32) -> (r: Result<(), Error>)
        requires
            old(self).wf(),
        ensures
            final(self).wf(),
            final(self).discards() == old(self).discards(),
            match old(self).not_ready() {
                Some(e) => r == Err::<(), Error>(e) && final(self).unchanged(*old(self)),
                None => if old(self).gaps().len() == MAX_DEPTH {
                    r == Err::<(), Error>(Error::Depth) && old(self).refused(*final(self), Error::Depth)
                } else if !valid_field(field) {
                    r == Err::<(), Error>(Error::FieldNumber) && old(self).refused(
                        *final(self),
                        Error::FieldNumber,
                    )
                } else if old(self).bytes().len() + message_head(field, old(self).width()).len()
                    > old(self).cap() {
                    r == Err::<(), Error>(Error::Full) && old(self).refused(*final(self), Error::Full)
                } else {
                    &&& r == Ok::<(), Error>(())
                    &&& final(self).bytes() == old(self).bytes() + message_head(
                        field,
                        old(self).width(),
                    )
                    &&& final(self).gaps() == old(self).gaps().push(
                        (old(self).bytes().len() + tag(field, WIRE_LENGTH).len()) as usize,
                    )
                    &&& final(self).is_open()
                    &&& final(self).cap() == old(self).cap()
                    &&& final(self).width() == old(self).width()
                    &&& final(self).discards() == old(self).discards()
                },
            },
    {
        self.ready()?;
        if self.open.len() == MAX_DEPTH {
            return self.poison(Error::Depth);
        }
        let width = self.len_width;
        self.admit_field(field, WIRE_LENGTH, width, 0)?;
        let ghost mid = self.buf@;
        let ghost gaps = self.open@;
        let ghost capacity = self.capacity;
        let ghost discarded = self.discarded;
        let mut k: usize = 0;
        while k < width
            invariant
                0 <= k <= width,
                width == self.len_width,
                self.buf@ =~= mid + zeros(k as nat),
                mid.len() + width <= self.capacity,
                self.capacity == capacity,
                self.discarded == discarded,
                self.state == State::Open,
                self.open@ == gaps,
                gaps.len() < MAX_DEPTH,
                forall|i: int| 0 <= i < gaps.len() ==> #[trigger] gaps[i] + width <= mid.len(),
            decreases width - k,
        {
            self.buf.push(0);
            k = k + 1;
        }
        let at = self.buf.len() - width;
        self.open.push(at);
        proof {
            assert forall|i: int| 0 <= i < self.open@.len() implies #[trigger] self.open@[i]
                + self.len_width <= self.buf@.len() by {
                if i < self.open@.len() - 1 {
                    assert(self.open@[i] == gaps[i]);
                }
            }
            assert(self.buf@ =~= old(self).bytes() + message_head(field, old(self).width()));
        }
        Ok(())
    }

    /// Close the innermost open message, writing its length into the gap
    /// `message` left, padded to the gap's width. The length always fits:
    /// the gap is as wide as the largest body the buffer can hold.
    pub fn end_message(&mut self) -> (r: Result<(), Error>)
        requires
            old(self).wf(),
        ensures
            final(self).wf(),
            final(self).discards() == old(self).discards(),
            match old(self).not_ready() {
                Some(e) => r == Err::<(), Error>(e) && final(self).unchanged(*old(self)),
                None => if old(self).gaps().len() == 0 {
                    r == Err::<(), Error>(Error::Unbalanced) && old(self).refused(
                        *final(self),
                        Error::Unbalanced,
                    )
                } else {
                    let gap = old(self).gaps().last() as int;
                    let body = (old(self).bytes().len() - gap - old(self).width()) as nat;
                    &&& r == Ok::<(), Error>(())
                    &&& 0 <= body
                    &&& fits_width(body, old(self).width())
                    &&& final(self).bytes() == splice(
                        old(self).bytes(),
                        gap,
                        padded_varint(body, old(self).width()),
                    )
                    &&& final(self).gaps() == old(self).gaps().drop_last()
                    &&& final(self).is_open()
                    &&& final(self).cap() == old(self).cap()
                    &&& final(self).width() == old(self).width()
                    &&& final(self).discards() == old(self).discards()
                },
            },
    {
        self.ready()?;
        let gap = match self.open.pop() {
            Some(gap) => gap,
            None => {
                return self.poison(Error::Unbalanced);
            },
        };
        proof {
            assert(gap == old(self).open@[old(self).open@.len() - 1]);
        }
        let width = self.len_width;
        let body = self.buf.len() - (gap + width);
        proof {
            lemma_fits_width_of_larger(body as nat, self.capacity as nat);
        }
        let ghost before = self.buf@;
        put_padded_varint(&mut self.buf, gap, width, body as u64);
        proof {
            lemma_padded_len(body as nat, width as nat);
            assert forall|i: int| 0 <= i < self.open@.len() implies #[trigger] self.open@[i]
                + self.len_width <= self.buf@.len() by {
                assert(self.open@[i] == old(self).open@[i]);
            }
        }
        Ok(())
    }

    /// Close the record and return its body, or refuse and discard it.
    ///
    /// A record with a message still open is refused: closing it here would
    /// commit a shape the caller did not finish. The body stays readable
    /// until the next `begin`.
    pub fn commit(&mut self) -> (r: Result<&[u8], Error>)
        requires
            old(self).wf(),
            old(self).discards() < u64::MAX,
        ensures
            final(self).wf(),
            final(self).is_idle(),
            final(self).discards() == old(self).discards() + if r is Err && !old(self).is_idle() {
                1nat
            } else {
                0nat
            },
            old(self).is_idle() ==> r == Err::<&[u8], Error>(Error::NotOpen)
                && final(self).unchanged(*old(self)),
            old(self).poisoned_by() matches Some(e) ==> r == Err::<&[u8], Error>(e)
                && old(self).discarded_into(*final(self)),
            old(self).is_open() && old(self).gaps().len() > 0 ==> r == Err::<&[u8], Error>(Error::Unbalanced)
                && old(self).discarded_into(*final(self)),
            old(self).is_open() && old(self).gaps().len() == 0 ==> {
                &&& r matches Ok(body) && body@ == old(self).bytes()
                &&& final(self).is_idle()
                &&& final(self).bytes() == old(self).bytes()
                &&& final(self).same_frame(*old(self))
            },
    {
        match self.state {
            State::Idle => Err(Error::NotOpen),
            State::Poisoned(error) => {
                self.discard();
                Err(error)
            },
            State::Open => {
                if self.open.len() != 0 {
                    self.discard();
                    Err(Error::Unbalanced)
                } else {
                    self.state = State::Idle;
                    Ok(self.buf.as_slice())
                }
            },
        }
    }

    /// A refused record's end: counted, its bytes dropped, nothing open.
    pub open spec fn discarded_into(self, next: Encoder) -> bool {
        &&& next.discards() == self.discards() + 1
        &&& next.bytes() == Seq::<u8>::empty()
        &&& next.is_idle()
        &&& next.cap() == self.cap()
        &&& next.width() == self.width()
        &&& next.gaps() == self.gaps()
    }

    /// Growing the buffer keeps every open gap inside it.
    proof fn lemma_growth_keeps_gaps(&self, before: Seq<u8>)
        requires
            before.len() <= self.buf@.len(),
            forall|i: int|
                0 <= i < self.open@.len() ==> #[trigger] self.open@[i] + self.len_width
                    <= before.len(),
        ensures
            forall|i: int|
                0 <= i < self.open@.len() ==> #[trigger] self.open@[i] + self.len_width
                    <= self.buf@.len(),
    {
    }
}

} // verus!
