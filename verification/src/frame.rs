//! What a frame is checked against before anything is allocated for it.
//!
//! A frame is a little-endian `u32` length and then one envelope. The
//! length is the peer's to write, so it is held against the frame cap
//! before a byte of the frame is read. The payload's type URL is the one
//! string read out of every frame, and its length is the peer's to write
//! too: it is held against the URL cap before the envelope is decoded.
//!
//! The URL check walks the frame's fields the way a stock decoder steps
//! over them: each field's key and its span, descending into the payload
//! field only, and stopping at the first byte it cannot read, which leaves
//! that frame to the decoder to refuse. A group, which the format once had
//! and a decoder still skips, is stepped over whole, so no string can hide
//! inside one from the check.

use vstd::prelude::*;
use crate::inbound::Close;

verus! {

/// The wire type of a varint value.
pub const VARINT: u64 = 0;
/// The wire type of an eight-byte value.
pub const FIXED64: u64 = 1;
/// The wire type of a length-delimited value.
pub const LEN: u64 = 2;
/// The wire type of a group's start tag.
pub const START_GROUP: u64 = 3;
/// The wire type of a group's end tag.
pub const END_GROUP: u64 = 4;
/// The wire type of a four-byte value.
pub const FIXED32: u64 = 5;

/// The envelope's payload field.
pub const PAYLOAD_FIELD: u64 = 4;
/// The type URL's field inside the payload.
pub const TYPE_URL_FIELD: u64 = 1;

/// The length a frame's four-byte prefix claims, little-endian.
pub open spec fn le_length(prefix: Seq<u8>) -> nat {
    prefix[0] as nat + 256 * prefix[1] as nat + 65536 * prefix[2] as nat + 16777216 * prefix[3] as nat
}

/// The length a frame's prefix claims.
pub fn length_of(prefix: [u8; 4]) -> (n: u32)
    ensures
        n == le_length(prefix@),
{
    let b0 = prefix[0] as u32;
    let b1 = prefix[1] as u32;
    let b2 = prefix[2] as u32;
    let b3 = prefix[3] as u32;
    b0 + 256 * b1 + 65536 * b2 + 16777216 * b3
}

/// The varint a walk reads from `s` from byte `i` on, having read `acc` so
/// far: at most ten bytes, the tenth carrying no more than the one bit a
/// `u64` has left, as a stock decoder reads a key or a length. Its value
/// and where it ends.
pub open spec fn varint_from(s: Seq<u8>, i: nat, acc: u64) -> Option<(u64, nat)>
    decreases 10 - i,
{
    if i >= 10 || i >= s.len() {
        None
    } else if i == 9 && s[9] > 1 {
        None
    } else {
        let next = acc | (((s[i as int] & 0x7f) as u64) << ((7 * i) as u64));
        if s[i as int] & 0x80 == 0 {
            Some((next, i + 1))
        } else {
            varint_from(s, i + 1, next)
        }
    }
}

/// The varint at the front of `s`, and how many bytes it takes.
pub open spec fn key_varint(s: Seq<u8>) -> Option<(u64, nat)> {
    varint_from(s, 0, 0)
}

/// A varint read from byte `i` on ends past `i` and inside `s`.
proof fn lemma_varint_from_ends(s: Seq<u8>, i: nat, acc: u64)
    ensures
        varint_from(s, i, acc) matches Some((_, n)) ==> i < n <= s.len() && n <= 10,
    decreases 10 - i,
{
    if i < 10 && i < s.len() && !(i == 9 && s[9] > 1) {
        let next = acc | (((s[i as int] & 0x7f) as u64) << ((7 * i) as u64));
        lemma_varint_from_ends(s, i + 1, next);
    }
}

/// A key or a length takes at least one byte and no more than `s` has.
pub proof fn lemma_varint_ends(s: Seq<u8>)
    ensures
        key_varint(s) matches Some((_, n)) ==> 1 <= n <= s.len(),
{
    lemma_varint_from_ends(s, 0, 0);
}

/// The next field of `s` outside any group, `depth` groups in: its number,
/// its wire type, the bytes it spans and the bytes after it; or nothing at
/// the end or at a byte the walk cannot read.
///
/// A varint's bytes are the varint; a fixed field's are its width; a
/// length-delimited field's are what its length names. A group's start and
/// end tags move the depth, and nothing inside a group is a field of the
/// message the walk is over. An end with no start, a wire type the format
/// has never had, and a depth past what a `u32` counts end the walk.
pub open spec fn field_at(s: Seq<u8>, depth: u32) -> Option<(u64, u64, Seq<u8>, Seq<u8>)>
    decreases s.len(),
{
    match key_varint(s) {
        None => None,
        Some((key, n)) => {
            proof {
                lemma_varint_ends(s);
            }
            let field = key >> 3u64;
            let wire = key & 7u64;
            let rest = s.subrange(n as int, s.len() as int);
            if wire == START_GROUP {
                if depth == u32::MAX {
                    None
                } else {
                    field_at(rest, (depth + 1) as u32)
                }
            } else if wire == END_GROUP {
                if depth == 0 {
                    None
                } else {
                    field_at(rest, (depth - 1) as u32)
                }
            } else {
                match span(rest, wire) {
                    None => None,
                    Some((v, after)) => {
                        proof {
                            lemma_span_ends(rest, wire);
                        }
                        if depth == 0 {
                            Some((field, wire, v, after))
                        } else {
                            field_at(after, depth)
                        }
                    },
                }
            }
        },
    }
}

/// The bytes a value of wire type `wire` spans at the front of `s`, and the
/// bytes after it, for every wire type but a group's.
pub open spec fn span(s: Seq<u8>, wire: u64) -> Option<(Seq<u8>, Seq<u8>)> {
    if wire == VARINT {
        match key_varint(s) {
            None => None,
            Some((_, m)) => Some((s.subrange(0, m as int), s.subrange(m as int, s.len() as int))),
        }
    } else if wire == FIXED64 {
        take(s, 8)
    } else if wire == LEN {
        match key_varint(s) {
            None => None,
            Some((len, m)) => if len > usize::MAX {
                None
            } else {
                take(s.subrange(m as int, s.len() as int), len as nat)
            },
        }
    } else if wire == FIXED32 {
        take(s, 4)
    } else {
        None
    }
}

/// The first `n` bytes of `s` and the rest, or nothing if fewer remain.
pub open spec fn take(s: Seq<u8>, n: nat) -> Option<(Seq<u8>, Seq<u8>)> {
    if n > s.len() {
        None
    } else {
        Some((s.subrange(0, n as int), s.subrange(n as int, s.len() as int)))
    }
}

/// A value's span lies inside `s`, and what follows it is a suffix of `s`.
pub proof fn lemma_span_ends(s: Seq<u8>, wire: u64)
    ensures
        span(s, wire) matches Some((v, after)) ==> after.len() <= s.len() && after
            == s.subrange(s.len() - after.len(), s.len() as int) && v == s.subrange(
            s.len() - after.len() - v.len(),
            s.len() - after.len(),
        ) && s.len() - after.len() - v.len() >= 0,
{
    lemma_varint_ends(s);
    if wire == LEN {
        if let Some((len, m)) = key_varint(s) {
            let r = s.subrange(m as int, s.len() as int);
            if len <= usize::MAX && len <= r.len() {
                assert(r.subrange(len as int, r.len() as int) =~= s.subrange(
                    m + len,
                    s.len() as int,
                ));
                assert(r.subrange(0, len as int) =~= s.subrange(m as int, m + len));
            }
        }
    }
}

/// A field the walk reads is followed by strictly fewer bytes than it
/// started from, and what follows is a suffix of what it started from.
pub proof fn lemma_field_ends(s: Seq<u8>, depth: u32)
    ensures
        field_at(s, depth) matches Some((_, _, v, after)) ==> after.len() < s.len() && after
            == s.subrange(s.len() - after.len(), s.len() as int) && v == s.subrange(
            s.len() - after.len() - v.len(),
            s.len() - after.len(),
        ) && s.len() - after.len() - v.len() >= 1,
    decreases s.len(),
{
    lemma_varint_ends(s);
    if let Some((key, n)) = key_varint(s) {
        let wire = key & 7u64;
        let rest = s.subrange(n as int, s.len() as int);
        if wire == START_GROUP {
            if depth < u32::MAX {
                lemma_field_ends(rest, (depth + 1) as u32);
                lemma_suffix_of_suffix(s, n as int, field_at(rest, (depth + 1) as u32));
            }
        } else if wire == END_GROUP {
            if depth > 0 {
                lemma_field_ends(rest, (depth - 1) as u32);
                lemma_suffix_of_suffix(s, n as int, field_at(rest, (depth - 1) as u32));
            }
        } else {
            lemma_span_ends(rest, wire);
            if let Some((v, after)) = span(rest, wire) {
                if depth == 0 {
                    assert(after =~= s.subrange(s.len() - after.len(), s.len() as int));
                    assert(v =~= s.subrange(s.len() - after.len() - v.len(), s.len() - after.len()));
                } else {
                    lemma_field_ends(after, depth);
                    let k = s.len() - after.len();
                    assert(after =~= s.subrange(k, s.len() as int));
                    lemma_suffix_of_suffix(s, k, field_at(after, depth));
                }
            }
        }
    }
}

/// A suffix of the suffix of `s` from `k` is a suffix of `s`, and a span
/// inside it is a span inside `s`.
proof fn lemma_suffix_of_suffix(s: Seq<u8>, k: int, found: Option<(u64, u64, Seq<u8>, Seq<u8>)>)
    requires
        0 <= k <= s.len(),
        found matches Some((_, _, v, after)) ==> {
            let r = s.subrange(k, s.len() as int);
            &&& after.len() < r.len()
            &&& after == r.subrange(r.len() - after.len(), r.len() as int)
            &&& v == r.subrange(r.len() - after.len() - v.len(), r.len() - after.len())
            &&& r.len() - after.len() - v.len() >= 1
        },
    ensures
        found matches Some((_, _, v, after)) ==> {
            &&& after.len() < s.len()
            &&& after == s.subrange(s.len() - after.len(), s.len() as int)
            &&& v == s.subrange(s.len() - after.len() - v.len(), s.len() - after.len())
            &&& s.len() - after.len() - v.len() >= 1
        },
{
    if let Some((_, _, v, after)) = found {
        let r = s.subrange(k, s.len() as int);
        assert(after =~= s.subrange(s.len() - after.len(), s.len() as int));
        assert(v =~= s.subrange(s.len() - after.len() - v.len(), s.len() - after.len()));
    }
}

/// The first type URL over `cap` among the fields of a payload's bytes `s`,
/// in the order the walk reaches them: its length.
pub open spec fn url_over_in(s: Seq<u8>, cap: nat) -> Option<nat>
    decreases s.len(),
{
    match field_at(s, 0) {
        None => None,
        Some((field, wire, v, after)) => {
            proof {
                lemma_field_ends(s, 0);
            }
            if field == TYPE_URL_FIELD && wire == LEN && v.len() > cap {
                Some(v.len())
            } else {
                url_over_in(after, cap)
            }
        },
    }
}

/// The first type URL over `cap` in any payload field of a frame's bytes
/// `s`, payloads in the order the walk reaches them: its length.
pub open spec fn url_over(s: Seq<u8>, cap: nat) -> Option<nat>
    decreases s.len(),
{
    match field_at(s, 0) {
        None => None,
        Some((field, wire, v, after)) => {
            proof {
                lemma_field_ends(s, 0);
            }
            if field == PAYLOAD_FIELD && wire == LEN {
                match url_over_in(v, cap) {
                    Some(n) => Some(n),
                    None => url_over(after, cap),
                }
            } else {
                url_over(after, cap)
            }
        },
    }
}

/// Read the varint at `pos`: its value and where it ends.
fn read_varint(s: &[u8], pos: usize) -> (r: Option<(u64, usize)>)
    requires
        pos <= s@.len(),
    ensures
        match key_varint(s@.subrange(pos as int, s@.len() as int)) {
            None => r is None,
            Some((v, n)) => r matches Some((value, end)) && value == v && end == pos + n,
        },
{
    let ghost t = s@.subrange(pos as int, s@.len() as int);
    let mut value: u64 = 0;
    let mut i: usize = 0;
    while i < 10
        invariant
            0 <= i <= 10,
            pos <= s@.len(),
            t == s@.subrange(pos as int, s@.len() as int),
            key_varint(t) == varint_from(t, i as nat, value),
        decreases 10 - i,
    {
        if i >= s.len() - pos {
            return None;
        }
        let byte = s[pos + i];
        proof {
            assert(t[i as int] == byte);
        }
        if i == 9 && byte > 1 {
            return None;
        }
        value = value | (((byte & 0x7f) as u64) << ((7 * i) as u64));
        if byte & 0x80 == 0 {
            return Some((value, pos + i + 1));
        }
        i = i + 1;
    }
    None
}

/// The next field at `pos` outside any group: its number, its wire type,
/// where its bytes start and end, and where the walk goes on from.
fn next_field(s: &[u8], pos: usize) -> (r: Option<(u64, u64, usize, usize, usize)>)
    requires
        pos <= s@.len(),
    ensures
        match field_at(s@.subrange(pos as int, s@.len() as int), 0) {
            None => r is None,
            Some((field, wire, v, after)) => r matches Some((f, w, a, b, next)) && f == field
                && w == wire && pos <= a <= b <= next <= s@.len() && s@.subrange(a as int, b as int)
                == v && s@.subrange(next as int, s@.len() as int) == after,
        },
{
    let ghost whole = s@.subrange(pos as int, s@.len() as int);
    let mut depth: u32 = 0;
    let mut at: usize = pos;
    proof {
        lemma_field_ends(whole, 0);
    }
    loop
        invariant
            pos <= at <= s@.len(),
            field_at(whole, 0) == field_at(s@.subrange(at as int, s@.len() as int), depth),
            whole == s@.subrange(pos as int, s@.len() as int),
        decreases s@.len() - at,
    {
        let ghost here = s@.subrange(at as int, s@.len() as int);
        let (key, after_key) = match read_varint(s, at) {
            Some(read) => read,
            None => {
                return None;
            },
        };
        let field = key >> 3u64;
        let wire = key & 7u64;
        proof {
            lemma_varint_ends(here);
            let n = key_varint(here)->Some_0.1;
            assert(after_key == at + n);
            assert(s@.subrange(after_key as int, s@.len() as int) =~= here.subrange(
                n as int,
                here.len() as int,
            ));
        }
        if wire == START_GROUP {
            if depth == u32::MAX {
                return None;
            }
            depth = depth + 1;
            at = after_key;
        } else if wire == END_GROUP {
            if depth == 0 {
                return None;
            }
            depth = depth - 1;
            at = after_key;
        } else {
            let ghost rest = s@.subrange(after_key as int, s@.len() as int);
            let (start, end) = match value_span(s, after_key, wire) {
                Some(found) => found,
                None => {
                    return None;
                },
            };
            proof {
                lemma_span_ends(rest, wire);
            }
            if depth == 0 {
                return Some((field, wire, start, end, end));
            }
            at = end;
        }
    }
}

/// Where the value of wire type `wire` at `pos` ends, for every wire type
/// but a group's: where its bytes start and end.
fn value_span(s: &[u8], pos: usize, wire: u64) -> (r: Option<(usize, usize)>)
    requires
        pos <= s@.len(),
    ensures
        match span(s@.subrange(pos as int, s@.len() as int), wire) {
            None => r is None,
            Some((v, after)) => r matches Some((a, b)) && pos <= a <= b <= s@.len() && s@.subrange(
                a as int,
                b as int,
            ) == v && s@.subrange(b as int, s@.len() as int) == after,
        },
{
    let ghost t = s@.subrange(pos as int, s@.len() as int);
    let left = s.len() - pos;
    if wire == VARINT {
        match read_varint(s, pos) {
            None => None,
            Some((_, end)) => {
                proof {
                    lemma_varint_ends(t);
                    assert(s@.subrange(pos as int, end as int) =~= t.subrange(0, end - pos));
                    assert(s@.subrange(end as int, s@.len() as int) =~= t.subrange(
                        end - pos,
                        t.len() as int,
                    ));
                }
                Some((pos, end))
            },
        }
    } else if wire == FIXED64 || wire == FIXED32 {
        let width: usize = if wire == FIXED64 {
            8
        } else {
            4
        };
        if width > left {
            return None;
        }
        proof {
            assert(s@.subrange(pos as int, pos + width) =~= t.subrange(0, width as int));
            assert(s@.subrange(pos + width, s@.len() as int) =~= t.subrange(
                width as int,
                t.len() as int,
            ));
        }
        Some((pos, pos + width))
    } else if wire == LEN {
        match read_varint(s, pos) {
            None => None,
            Some((len, start)) => {
                proof {
                    lemma_varint_ends(t);
                }
                if len > (usize::MAX as u64) {
                    return None;
                }
                let len = len as usize;
                if len > s.len() - start {
                    return None;
                }
                proof {
                    let r = t.subrange(start - pos, t.len() as int);
                    assert(r =~= s@.subrange(start as int, s@.len() as int));
                    assert(s@.subrange(start as int, start + len) =~= r.subrange(0, len as int));
                    assert(s@.subrange(start + len, s@.len() as int) =~= r.subrange(
                        len as int,
                        r.len() as int,
                    ));
                }
                Some((start, start + len))
            },
        }
    } else {
        None
    }
}

/// The first type URL over `cap` in the fields of `s`: its length.
fn first_url_over(s: &[u8], cap: usize) -> (r: Option<usize>)
    ensures
        match url_over_in(s@, cap as nat) {
            None => r is None,
            Some(n) => r matches Some(m) && m == n,
        },
{
    let mut at: usize = 0;
    proof {
        assert(s@.subrange(0, s@.len() as int) =~= s@);
    }
    while at <= s.len()
        invariant
            at <= s@.len(),
            url_over_in(s@, cap as nat) == url_over_in(s@.subrange(at as int, s@.len() as int), cap as nat),
        decreases s@.len() - at,
    {
        let ghost here = s@.subrange(at as int, s@.len() as int);
        match next_field(s, at) {
            None => {
                return None;
            },
            Some((field, wire, start, end, next)) => {
                proof {
                    lemma_field_ends(here, 0);
                }
                if field == TYPE_URL_FIELD && wire == LEN && end - start > cap {
                    return Some(end - start);
                }
                at = next;
            },
        }
    }
    None
}

/// Refuse a frame whose prefix claims more than `max_frame_bytes`, before
/// anything is read or allocated for it; otherwise its length.
pub fn check_length(prefix: [u8; 4], max_frame_bytes: u32) -> (r: Result<u32, Close>)
    ensures
        le_length(prefix@) > max_frame_bytes ==> (r matches Err(Close::FrameTooLong(n)) && n
            == le_length(prefix@)),
        le_length(prefix@) <= max_frame_bytes ==> (r matches Ok(n) && n == le_length(prefix@)),
{
    let length = length_of(prefix);
    if length > max_frame_bytes {
        Err(Close::FrameTooLong(length))
    } else {
        Ok(length)
    }
}

/// Refuse a frame's bytes if a type URL in any payload field is over
/// `cap`, before the decoder allocates for one: the first such URL the walk
/// reaches names the length refused. A frame the walk cannot read past some
/// byte is checked up to that byte and left to the decoder.
pub fn check_type_url(body: &[u8], cap: usize) -> (r: Result<(), Close>)
    ensures
        match url_over(body@, cap as nat) {
            None => r is Ok,
            Some(n) => r matches Err(Close::TypeUrlTooLong(m)) && m == n,
        },
{
    let mut at: usize = 0;
    proof {
        assert(body@.subrange(0, body@.len() as int) =~= body@);
    }
    while at <= body.len()
        invariant
            at <= body@.len(),
            url_over(body@, cap as nat) == url_over(body@.subrange(at as int, body@.len() as int), cap as nat),
        decreases body@.len() - at,
    {
        let ghost here = body@.subrange(at as int, body@.len() as int);
        match next_field(body, at) {
            None => {
                return Ok(());
            },
            Some((field, wire, start, end, next)) => {
                proof {
                    lemma_field_ends(here, 0);
                }
                if field == PAYLOAD_FIELD && wire == LEN {
                    let value = &body[start..end];
                    proof {
                        assert(value@ =~= body@.subrange(start as int, end as int));
                    }
                    if let Some(n) = first_url_over(value, cap) {
                        return Err(Close::TypeUrlTooLong(n));
                    }
                }
                at = next;
            },
        }
    }
    Ok(())
}

} // verus!
