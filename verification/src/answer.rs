//! Envelope tails the broker writes itself: the handshake and the answers a
//! reader thread sends, each a payload on a topic the broker knows by name.
//!
//! A tail is the envelope's payload field and nothing else: an `Any` whose
//! type URL is the topic behind the prefix every runtime writes, and whose
//! value is the message's own fields. The writer thread numbers it and puts
//! the rest of the envelope around it.

use vstd::prelude::*;
use crate::encode::{
    boolean_field, bytes_field, integer_field, message_head, padded_varint, tag, varint, Encoder,
    lemma_varint_len_bound, lemma_padded_len, WIRE_LENGTH,
};
use crate::topic::TYPE_URL_PREFIX;
use vstd::utf8::encode_utf8;

verus! {

/// The bytes an answer takes at most beyond the byte strings it carries: a
/// wrapper, a topic and a few short fields.
pub const ANSWER_BYTES: usize = 128;

/// The envelope's payload field, and the two fields of the `Any` in it.
pub const PAYLOAD_FIELD: u32 = 4;
/// The `Any`'s type URL.
pub const TYPE_URL_FIELD: u32 = 1;
/// The `Any`'s value.
pub const VALUE_FIELD: u32 = 2;

/// One field of an answer's message.
#[derive(Clone, Copy, Debug)]
pub enum Put<'a> {
    /// A varint field carrying an integer's two's-complement bits.
    Integer(u32, i64),
    /// A one-byte varint field.
    Boolean(u32, bool),
    /// A length-prefixed field.
    Bytes(u32, &'a [u8]),
}

/// The field number a put names.
pub open spec fn put_number(p: Put) -> u32 {
    match p {
        Put::Integer(f, _) => f,
        Put::Boolean(f, _) => f,
        Put::Bytes(f, _) => f,
    }
}

/// What a put writes on the wire.
pub open spec fn put_bytes(p: Put) -> Seq<u8> {
    match p {
        Put::Integer(f, n) => integer_field(f, n),
        Put::Boolean(f, b) => boolean_field(f, b),
        Put::Bytes(f, s) => bytes_field(f, s@),
    }
}

/// The bytes a put carries beyond its key and its length or value.
pub open spec fn put_extra(p: Put) -> nat {
    match p {
        Put::Bytes(_, s) => s@.len(),
        _ => 0,
    }
}

/// The fields of `puts`, one after another, in put order.
pub open spec fn fields_bytes(puts: Seq<Put>) -> Seq<u8>
    decreases puts.len(),
{
    if puts.len() == 0 {
        Seq::empty()
    } else {
        fields_bytes(puts.drop_last()) + put_bytes(puts.last())
    }
}

/// The byte strings `puts` carry, counted together.
pub open spec fn extra_total(puts: Seq<Put>) -> nat
    decreases puts.len(),
{
    if puts.len() == 0 {
        0
    } else {
        extra_total(puts.drop_last()) + put_extra(puts.last())
    }
}

/// The type URL a topic travels under.
pub open spec fn type_url(topic: Seq<char>) -> Seq<u8> {
    encode_utf8(TYPE_URL_PREFIX@) + encode_utf8(topic)
}

/// An envelope tail: the payload field, holding the type URL and then the
/// message body, each nested length a padded varint `width` bytes wide.
pub open spec fn tail(topic: Seq<char>, body: Seq<u8>, width: nat) -> Seq<u8> {
    let any = bytes_field(TYPE_URL_FIELD, type_url(topic)) + tag(VALUE_FIELD, WIRE_LENGTH)
        + padded_varint(body.len(), width) + body;
    tag(PAYLOAD_FIELD, WIRE_LENGTH) + padded_varint(any.len(), width) + any
}

/// The buffer an answer carrying `puts` is encoded into.
pub open spec fn answer_capacity(puts: Seq<Put>) -> nat {
    (ANSWER_BYTES + extra_total(puts)) as nat
}

/// The tail of the answer on `topic` carrying `puts`.
pub open spec fn answer(topic: Seq<char>, puts: Seq<Put>) -> Seq<u8> {
    tail(topic, fields_bytes(puts), varint(answer_capacity(puts)).len())
}

/// A field on a number under sixteen takes its key and at most ten bytes
/// more, beside the bytes it carries.
proof fn lemma_put_len(p: Put)
    requires
        1 <= put_number(p) <= 15,
        put_extra(p) <= usize::MAX,
    ensures
        put_bytes(p).len() <= 11 + put_extra(p),
{
    let f = put_number(p);
    assert(tag(f, 0).len() == 1);
    assert(tag(f, WIRE_LENGTH).len() == 1);
    match p {
        Put::Integer(_, n) => {
            lemma_varint_len_bound((n as u64) as nat);
        },
        Put::Boolean(_, _) => {},
        Put::Bytes(_, s) => {
            lemma_varint_len_bound(s@.len());
        },
    }
}

/// The fields of a short list of puts fit eleven bytes apiece beside what
/// they carry.
proof fn lemma_fields_len(puts: Seq<Put>)
    requires
        forall|i: int| 0 <= i < puts.len() ==> 1 <= #[trigger] put_number(puts[i]) <= 15,
        extra_total(puts) <= usize::MAX,
    ensures
        fields_bytes(puts).len() <= 11 * puts.len() + extra_total(puts),
    decreases puts.len(),
{
    if puts.len() > 0 {
        assert(put_number(puts[puts.len() - 1]) <= 15);
        lemma_fields_len(puts.drop_last());
        lemma_put_len(puts.last());
    }
}

/// The byte strings `puts` carry, counted together.
fn extra_of(puts: &[Put]) -> (n: usize)
    requires
        extra_total(puts@) <= usize::MAX,
    ensures
        n == extra_total(puts@),
{
    let mut extra: usize = 0;
    let mut k: usize = 0;
    while k < puts.len()
        invariant
            0 <= k <= puts@.len(),
            extra == extra_total(puts@.take(k as int)),
            extra_total(puts@) <= usize::MAX,
        decreases puts.len() - k,
    {
        proof {
            lemma_extra_prefix(puts@, k + 1);
        }
        match puts[k] {
            Put::Bytes(_, s) => {
                extra = extra + s.len();
            },
            _ => {},
        }
        k = k + 1;
    }
    proof {
        assert(puts@.take(puts@.len() as int) =~= puts@);
    }
    extra
}

/// The type URL `topic` travels under, as bytes.
pub(crate) fn type_url_of(topic: &str) -> (url: Vec<u8>)
    ensures
        url@ == type_url(topic@),
{
    let mut url: Vec<u8> = Vec::new();
    url.extend_from_slice(TYPE_URL_PREFIX.as_bytes());
    url.extend_from_slice(topic.as_bytes());
    proof {
        assert(url@ =~= type_url(topic@));
    }
    url
}

/// Put each of `puts` into the open record, in order. The room is there.
fn put_fields(e: &mut Encoder, puts: &[Put])
    requires
        old(e).wf(),
        old(e).is_open(),
        old(e).bytes().len() + fields_bytes(puts@).len() <= old(e).cap(),
        forall|j: int| 0 <= j < puts@.len() ==> 1 <= #[trigger] put_number(puts@[j]) <= 15,
    ensures
        final(e).wf(),
        final(e).is_open(),
        final(e).bytes() == old(e).bytes() + fields_bytes(puts@),
        final(e).same_frame(*old(e)),
{
    let ghost head = e.bytes();
    proof {
        assert(head =~= head + fields_bytes(puts@.take(0)));
    }
    let mut i: usize = 0;
    while i < puts.len()
        invariant
            0 <= i <= puts@.len(),
            e.wf(),
            e.is_open(),
            e.same_frame(*old(e)),
            e.bytes() == head + fields_bytes(puts@.take(i as int)),
            head == old(e).bytes(),
            head.len() + fields_bytes(puts@).len() <= e.cap(),
            forall|j: int| 0 <= j < puts@.len() ==> 1 <= #[trigger] put_number(puts@[j]) <= 15,
        decreases puts.len() - i,
    {
        proof {
            lemma_fields_prefix_len(puts@, i + 1);
            e.lemma_open_is_ready();
            assert(put_number(puts@[i as int]) <= 15);
        }
        match puts[i] {
            Put::Integer(f, n) => {
                let _ = e.integer(f, n);
            },
            Put::Boolean(f, b) => {
                let _ = e.boolean(f, b);
            },
            Put::Bytes(f, s) => {
                let _ = e.string(f, s);
            },
        }
        proof {
            assert(e.bytes() =~= head + fields_bytes(puts@.take(i + 1)));
        }
        i = i + 1;
    }
    proof {
        assert(puts@.take(puts@.len() as int) =~= puts@);
    }
}

/// The tail on `topic` of the message `puts` spell: the payload field, the
/// type URL, and each put in order.
///
/// The buffer is sized for every field at its largest beside the byte
/// strings the puts carry, so no put here can be refused.
pub fn answer_tail(topic: &str, puts: &[Put]) -> (bytes: Vec<u8>)
    requires
        encode_utf8(topic@).len() <= 32,
        puts@.len() <= 4,
        forall|i: int| 0 <= i < puts@.len() ==> 1 <= #[trigger] put_number(puts@[i]) <= 15,
        answer_capacity(puts@) <= usize::MAX,
    ensures
        bytes@ == answer(topic@, puts@),
{
    let url = type_url_of(topic);
    let cap = ANSWER_BYTES + extra_of(puts);
    let mut e = Encoder::with_capacity(cap);
    e.begin();
    let ghost w = e.width();
    let ghost body = fields_bytes(puts@);
    let ghost h4 = message_head(PAYLOAD_FIELD, w);
    let ghost f1 = bytes_field(TYPE_URL_FIELD, url@);
    let ghost h2 = message_head(VALUE_FIELD, w);
    proof {
        crate::topic::lemma_topic_bytes();
        lemma_varint_len_bound(cap as nat);
        lemma_fields_len(puts@);
        assert(tag(PAYLOAD_FIELD, WIRE_LENGTH).len() == 1);
        assert(tag(TYPE_URL_FIELD, WIRE_LENGTH).len() == 1);
        assert(tag(VALUE_FIELD, WIRE_LENGTH).len() == 1);
        assert(varint(url@.len()).len() == 1);
        assert(h4.len() + f1.len() + h2.len() + body.len() <= cap);
        e.lemma_open_is_ready();
    }
    let _ = e.message(PAYLOAD_FIELD);
    proof {
        assert(e.bytes() =~= h4);
        e.lemma_open_is_ready();
    }
    let _ = e.string(TYPE_URL_FIELD, url.as_slice());
    proof {
        e.lemma_open_is_ready();
    }
    let _ = e.message(VALUE_FIELD);
    proof {
        assert(e.bytes() =~= h4 + f1 + h2);
    }
    put_fields(&mut e, puts);
    proof {
        e.lemma_open_is_ready();
        lemma_padded_len(body.len(), w);
    }
    let _ = e.end_message();
    let ghost any = f1 + tag(VALUE_FIELD, WIRE_LENGTH) + padded_varint(body.len(), w) + body;
    proof {
        assert(e.bytes() =~= h4 + any);
        e.lemma_open_is_ready();
        lemma_padded_len(any.len(), w);
    }
    let _ = e.end_message();
    proof {
        assert(e.bytes() =~= tail(topic@, body, w));
    }
    match e.commit() {
        Ok(body) => vstd::slice::slice_to_vec(body),
        Err(_) => Vec::new(),
    }
}

/// The byte strings of a prefix of `puts` count up to those of one more.
proof fn lemma_extra_prefix(puts: Seq<Put>, n: int)
    requires
        1 <= n <= puts.len(),
    ensures
        extra_total(puts.take(n)) == extra_total(puts.take(n - 1)) + put_extra(puts[n - 1]),
        extra_total(puts.take(n)) <= extra_total(puts),
    decreases puts.len(),
{
    assert(puts.take(n).drop_last() =~= puts.take(n - 1));
    if n < puts.len() {
        assert(puts.drop_last().take(n) =~= puts.take(n));
        lemma_extra_prefix(puts.drop_last(), n);
    } else {
        assert(puts.take(n) =~= puts);
    }
}

/// The fields of a prefix of `puts` are no longer than all of them.
proof fn lemma_fields_prefix_len(puts: Seq<Put>, n: int)
    requires
        1 <= n <= puts.len(),
    ensures
        fields_bytes(puts.take(n)) == fields_bytes(puts.take(n - 1)) + put_bytes(puts[n - 1]),
        fields_bytes(puts.take(n)).len() <= fields_bytes(puts).len(),
    decreases puts.len(),
{
    assert(puts.take(n).drop_last() =~= puts.take(n - 1));
    if n < puts.len() {
        assert(puts.drop_last().take(n) =~= puts.take(n));
        lemma_fields_prefix_len(puts.drop_last(), n);
    } else {
        assert(puts.take(n) =~= puts);
    }
}

} // verus!
