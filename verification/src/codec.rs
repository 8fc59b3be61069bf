//! The two records that travel over the DHT, and their byte layout.
//!
//! Both are messages of length-prefixed, tagged fields:
//!
//! * `AuthorityAddresses { addresses: repeated bytes = 1 }`
//! * `SignedAuthorityAddresses { addresses: bytes = 1, signature: bytes = 2 }`
//!
//! A field is its key (field number and wire type, as a varint), and for the
//! length-delimited wire type a varint length followed by that many bytes.

use crate::error::Error;
use vstd::prelude::*;
use vstd::slice::{slice_subrange, slice_to_vec};

verus! {

/// Wire type of a varint value.
pub const WIRE_VARINT: u8 = 0;

/// Wire type of a fixed 64-bit value.
pub const WIRE_FIXED64: u8 = 1;

/// Wire type of a length-delimited value.
pub const WIRE_LENGTH_DELIMITED: u8 = 2;

/// Wire type of the key that opens a group.
pub const WIRE_START_GROUP: u8 = 3;

/// Wire type of the key that closes a group.
pub const WIRE_END_GROUP: u8 = 4;

/// Wire type of a fixed 32-bit value.
pub const WIRE_FIXED32: u8 = 5;

/// How deep groups may be nested in a field that is passed over.
pub const RECURSION_LIMIT: usize = 100;

/// Key of field 1 with the length-delimited wire type.
pub const KEY_ADDRESSES: u8 = 0x0a;

/// Key of field 2 with the length-delimited wire type.
pub const KEY_SIGNATURE: u8 = 0x12;

/// A varint takes ten bytes at most.
pub const MAX_VARINT_BYTES: usize = 10;

/// Little-endian base-128 encoding of `n`: seven bits a byte, the high bit set
/// on every byte but the last.
pub open spec fn varint(n: nat) -> Seq<u8>
    decreases n,
{
    if n < 128 {
        seq![n as u8]
    } else {
        seq![(n % 128 + 128) as u8] + varint(n / 128)
    }
}

/// What a varint that starts at its byte number `count` may hold at most, plus one.
pub open spec fn varint_bound(count: nat) -> nat {
    if count == 0 {
        0x1_0000_0000_0000_0000
    } else if count == 1 {
        0x200_0000_0000_0000
    } else if count == 2 {
        0x4_0000_0000_0000
    } else if count == 3 {
        0x800_0000_0000
    } else if count == 4 {
        0x10_0000_0000
    } else if count == 5 {
        0x2000_0000
    } else if count == 6 {
        0x40_0000
    } else if count == 7 {
        0x8000
    } else if count == 8 {
        0x100
    } else if count == 9 {
        2
    } else {
        0
    }
}

/// Reads a varint from the front of `s`, of which `count` bytes were read
/// before `s`. Gives the value and the number of bytes taken, or `None` where
/// the bytes end inside the varint or the value does not fit 64 bits.
/// Encodings longer than needed are accepted.
pub open spec fn parse_varint_at(s: Seq<u8>, count: nat) -> Option<(nat, nat)>
    decreases s.len(),
{
    if s.len() == 0 || count >= MAX_VARINT_BYTES {
        None
    } else if count == MAX_VARINT_BYTES - 1 && s[0] > 1 {
        None
    } else if s[0] < 128 {
        Some((s[0] as nat, 1))
    } else {
        match parse_varint_at(s.skip(1), count + 1) {
            None => None,
            Some((v, n)) => Some((((s[0] - 128) + 128 * v) as nat, n + 1)),
        }
    }
}

/// Reads a varint from the front of `s`.
pub open spec fn parse_varint(s: Seq<u8>) -> Option<(nat, nat)> {
    parse_varint_at(s, 0)
}

/// A varint that parses took between one byte and all of them, and its value
/// is under the bound of the byte it started at.
pub proof fn lemma_parse_varint_bounds(s: Seq<u8>, count: nat)
    ensures
        parse_varint_at(s, count) matches Some((v, n)) ==> 1 <= n <= s.len() && n + count <= 10
            && v < varint_bound(count),
    decreases s.len(),
{
    if s.len() == 0 || count >= 10 {
    } else if count == 9 && s[0] > 1 {
    } else if s[0] < 128 {
    } else {
        lemma_parse_varint_bounds(s.skip(1), count + 1);
    }
}

/// Parsing gives back the number that was encoded, whatever follows it.
pub proof fn lemma_varint_roundtrip(n: nat, rest: Seq<u8>, count: nat)
    requires
        n < varint_bound(count),
    ensures
        parse_varint_at(varint(n) + rest, count) == Some((n, varint(n).len())),
    decreases n,
{
    let s = varint(n) + rest;
    if n < 128 {
        assert(s[0] == n as u8);
    } else {
        let tail = varint(n / 128) + rest;
        assert(s[0] == (n % 128 + 128) as u8);
        assert(s.skip(1) =~= tail);
        lemma_varint_roundtrip(n / 128, rest, count + 1);
    }
}

/// Appends the varint encoding of `value` to `buf`.
pub fn encode_varint(value: u64, buf: &mut Vec<u8>)
    ensures
        final(buf)@ == old(buf)@ + varint(value as nat),
{
    let mut rest: u64 = value;
    while rest >= 128
        invariant
            old(buf)@ + varint(value as nat) == buf@ + varint(rest as nat),
        decreases rest,
    {
        let ghost before = buf@;
        buf.push((rest % 128 + 128) as u8);
        proof {
            assert(before + varint(rest as nat) =~= buf@ + varint((rest / 128) as nat));
        }
        rest = rest / 128;
    }
    let ghost before = buf@;
    buf.push(rest as u8);
    proof {
        assert(before + varint(rest as nat) =~= buf@);
    }
}

/// Reads a varint of `buf` at `pos`, of which `count` bytes were read before
/// `pos`: the value and the position behind it.
fn decode_varint_at(buf: &[u8], pos: usize, count: usize) -> (r: Option<(u64, usize)>)
    requires
        pos <= buf.len(),
        count <= 10,
    ensures
        match parse_varint_at(buf@.skip(pos as int), count as nat) {
            None => r is None,
            Some((v, n)) => r == Some((v as u64, (pos + n) as usize)) && v <= u64::MAX && pos + n
                <= buf.len(),
        },
    decreases buf.len() - pos,
{
    let ghost s = buf@.skip(pos as int);
    if pos >= buf.len() || count >= MAX_VARINT_BYTES {
        return None;
    }
    let b: u8 = buf[pos];
    assert(s[0] == b);
    if count == MAX_VARINT_BYTES - 1 && b > 1 {
        None
    } else if b < 128 {
        Some((b as u64, pos + 1))
    } else {
        proof {
            assert(s.skip(1) =~= buf@.skip(pos + 1));
            lemma_parse_varint_bounds(s.skip(1), (count + 1) as nat);
        }
        match decode_varint_at(buf, pos + 1, count + 1) {
            None => None,
            Some((v, next)) => Some(((b - 128) as u64 + 128 * v, next)),
        }
    }
}

/// Reads a varint of `buf` at `pos`: the value and the position behind it, or
/// `None` where the bytes end inside the varint or the value does not fit 64 bits.
pub fn decode_varint(buf: &[u8], pos: usize) -> (r: Option<(u64, usize)>)
    requires
        pos <= buf.len(),
    ensures
        match parse_varint(buf@.skip(pos as int)) {
            None => r is None,
            Some((v, n)) => r == Some((v as u64, (pos + n) as usize)) && v <= u64::MAX && pos + n
                <= buf.len() && n >= 1,
        },
{
    proof {
        lemma_parse_varint_bounds(buf@.skip(pos as int), 0);
    }
    decode_varint_at(buf, pos, 0)
}

/// The views of a list of byte strings.
pub open spec fn views(list: Seq<Vec<u8>>) -> Seq<Seq<u8>> {
    Seq::new(list.len(), |i: int| list[i]@)
}

/// Reads the key of a field from the front of `s`: the field number, the wire
/// type and the bytes the key took. A key is a varint of 32 bits at most, with
/// a wire type from 0 to 5 and a field number of at least 1.
pub open spec fn parse_key(s: Seq<u8>) -> Option<(nat, nat, nat)> {
    match parse_varint(s) {
        None => None,
        Some((key, n)) => if key <= u32::MAX && key % 8 <= 5 && key / 8 >= 1 {
            Some((key / 8, key % 8, n))
        } else {
            None
        },
    }
}

/// Reads a length-delimited value from the front of `s`: its bytes, and the
/// bytes taken with the length in front of them.
pub open spec fn parse_length_delimited(s: Seq<u8>) -> Option<(Seq<u8>, nat)> {
    match parse_varint(s) {
        None => None,
        Some((len, n)) => if n + len <= s.len() {
            Some((s.subrange(n as int, (n + len) as int), n + len))
        } else {
            None
        },
    }
}

/// The bytes that the value of a field takes at the front of `s`, where the
/// field has the number `number` and the wire type `wire`, and is passed over
/// inside `depth` groups. A group is passed over with all that is in it, up
/// to the key that closes it; groups nest `RECURSION_LIMIT` deep at most.
pub open spec fn parse_skipped(wire: nat, number: nat, s: Seq<u8>, depth: nat) -> Option<nat>
    decreases s.len(), 1nat,
{
    if depth >= RECURSION_LIMIT {
        None
    } else if wire == WIRE_VARINT {
        match parse_varint(s) {
            None => None,
            Some((_, n)) => Some(n),
        }
    } else if wire == WIRE_FIXED64 {
        if s.len() >= 8 {
            Some(8)
        } else {
            None
        }
    } else if wire == WIRE_LENGTH_DELIMITED {
        match parse_length_delimited(s) {
            None => None,
            Some((_, n)) => Some(n),
        }
    } else if wire == WIRE_START_GROUP {
        parse_group(number, s, depth)
    } else if wire == WIRE_FIXED32 {
        if s.len() >= 4 {
            Some(4)
        } else {
            None
        }
    } else {
        None
    }
}

/// The bytes that the rest of a group takes at the front of `s`, up to and
/// with the key that closes it: a key of the wire type that closes a group,
/// with the number `number` of the group. Each field before that key is
/// passed over, whatever its number. No group is read `RECURSION_LIMIT` deep
/// or deeper.
pub open spec fn parse_group(number: nat, s: Seq<u8>, depth: nat) -> Option<nat>
    decreases s.len(), 0nat,
{
    if depth >= RECURSION_LIMIT {
        None
    } else {
        match parse_key(s) {
            None => None,
            Some((inner, wire, k)) => {
                if wire == WIRE_END_GROUP {
                    if inner == number {
                        Some(k)
                    } else {
                        None
                    }
                } else {
                    proof {
                        lemma_key_bounds(s);
                    }
                    match parse_skipped(wire, inner, s.skip(k as int), depth + 1) {
                        None => None,
                        Some(m) => {
                            if m > s.len() - k {
                                None
                            } else {
                                match parse_group(number, s.skip((k + m) as int), depth) {
                                    None => None,
                                    Some(r) => Some(k + m + r),
                                }
                            }
                        },
                    }
                }
            },
        }
    }
}

/// A key takes between one byte and all there are; so does a
/// length-delimited value with its length.
pub proof fn lemma_key_bounds(s: Seq<u8>)
    ensures
        parse_key(s) matches Some((_, _, n)) ==> 1 <= n <= s.len(),
        parse_length_delimited(s) matches Some((_, n)) ==> 1 <= n <= s.len(),
{
    lemma_parse_varint_bounds(s, 0);
}

/// What is passed over takes between one byte and all there are.
pub proof fn lemma_skipped_bounds(wire: nat, number: nat, s: Seq<u8>, depth: nat)
    ensures
        parse_skipped(wire, number, s, depth) matches Some(n) ==> 1 <= n <= s.len(),
        parse_group(number, s, depth) matches Some(n) ==> 1 <= n <= s.len(),
    decreases s.len(), 2nat,
{
    lemma_key_bounds(s);
    lemma_parse_varint_bounds(s, 0);
    match parse_key(s) {
        None => {},
        Some((inner, w, k)) => {
            if w != WIRE_END_GROUP {
                lemma_skipped_bounds(w, inner, s.skip(k as int), depth + 1);
                match parse_skipped(w, inner, s.skip(k as int), depth + 1) {
                    None => {},
                    Some(m) => {
                        if m <= s.len() - k {
                            lemma_skipped_bounds(w, number, s.skip((k + m) as int), depth);
                        }
                    },
                }
            }
        },
    }
}

/// One length-delimited field: its key byte, the length and the bytes.
pub open spec fn field(key: u8, payload: Seq<u8>) -> Seq<u8> {
    seq![key] + varint(payload.len()) + payload
}

/// A field that proto3 leaves out where it is empty.
pub open spec fn optional_field(key: u8, payload: Seq<u8>) -> Seq<u8> {
    if payload.len() == 0 {
        Seq::empty()
    } else {
        field(key, payload)
    }
}

/// The bytes of `AuthorityAddresses`: one field 1 for each address, in order.
pub open spec fn addresses_encoding(addresses: Seq<Seq<u8>>) -> Seq<u8>
    decreases addresses.len(),
{
    if addresses.len() == 0 {
        Seq::empty()
    } else {
        addresses_encoding(addresses.drop_last()) + field(KEY_ADDRESSES, addresses.last())
    }
}

/// The bytes of `SignedAuthorityAddresses`: field 1, then field 2, each left
/// out where it is empty.
pub open spec fn signed_encoding(addresses: Seq<u8>, signature: Seq<u8>) -> Seq<u8> {
    optional_field(KEY_ADDRESSES, addresses) + optional_field(KEY_SIGNATURE, signature)
}

/// A field as it is read from a record.
pub struct FieldView {
    /// The number of the field.
    pub number: nat,
    /// The bytes of the field, for a field of the schema; `None` for a field
    /// that is passed over.
    pub payload: Option<Seq<u8>>,
    /// The bytes that the field took, key and all.
    pub taken: nat,
}

/// Reads the field at the front of `s` for a schema whose fields have the
/// numbers 1 to `fields` and hold bytes. A field of the schema must be
/// length-delimited, which is looked at before its value is; any other field
/// is passed over.
pub open spec fn next_field(s: Seq<u8>, fields: nat) -> Result<FieldView, Error> {
    match parse_key(s) {
        None => Err(Error::Decoding),
        Some((number, wire, n)) => {
            if number <= fields {
                if wire != WIRE_LENGTH_DELIMITED {
                    Err(Error::SchemaMismatch)
                } else {
                    match parse_length_delimited(s.skip(n as int)) {
                        None => Err(Error::Decoding),
                        Some((payload, m)) => Ok(
                            FieldView { number, payload: Some(payload), taken: n + m },
                        ),
                    }
                }
            } else {
                match parse_skipped(wire, number, s.skip(n as int), 0) {
                    None => Err(Error::Decoding),
                    Some(m) => Ok(FieldView { number, payload: None, taken: n + m }),
                }
            }
        },
    }
}

/// A field takes between one byte and all there are.
pub proof fn lemma_next_field_bounds(s: Seq<u8>, fields: nat)
    ensures
        next_field(s, fields) matches Ok(f) ==> 1 <= f.taken <= s.len() && f.number >= 1,
{
    lemma_key_bounds(s);
    match parse_key(s) {
        None => {},
        Some((number, wire, n)) => {
            lemma_key_bounds(s.skip(n as int));
            lemma_skipped_bounds(wire, number, s.skip(n as int), 0);
        },
    }
}

/// Reads the fields of `AuthorityAddresses` from `s` after the addresses
/// `acc`. Each field 1 adds an address.
pub open spec fn parse_addresses(s: Seq<u8>, acc: Seq<Seq<u8>>) -> Result<Seq<Seq<u8>>, Error>
    decreases s.len(),
{
    if s.len() == 0 {
        Ok(acc)
    } else {
        match next_field(s, 1) {
            Err(e) => Err(e),
            Ok(f) => {
                proof {
                    lemma_next_field_bounds(s, 1);
                }
                parse_addresses(
                    s.skip(f.taken as int),
                    match f.payload {
                        Some(address) => acc.push(address),
                        None => acc,
                    },
                )
            },
        }
    }
}

/// Reads the fields of `SignedAuthorityAddresses` from `s`, with `addresses`
/// and `signature` as read so far. Field 1 holds the addresses and field 2
/// the signature; of several the last one counts.
pub open spec fn parse_signed(s: Seq<u8>, addresses: Seq<u8>, signature: Seq<u8>) -> Result<
    (Seq<u8>, Seq<u8>),
    Error,
>
    decreases s.len(),
{
    if s.len() == 0 {
        Ok((addresses, signature))
    } else {
        match next_field(s, 2) {
            Err(e) => Err(e),
            Ok(f) => {
                proof {
                    lemma_next_field_bounds(s, 2);
                }
                match f.payload {
                    Some(payload) => {
                        if f.number == 1 {
                            parse_signed(s.skip(f.taken as int), payload, signature)
                        } else {
                            parse_signed(s.skip(f.taken as int), addresses, payload)
                        }
                    },
                    None => parse_signed(s.skip(f.taken as int), addresses, signature),
                }
            },
        }
    }
}

/// What the bytes of an `AuthorityAddresses` hold.
pub open spec fn addresses_decoding(s: Seq<u8>) -> Result<Seq<Seq<u8>>, Error> {
    parse_addresses(s, Seq::empty())
}

/// What the bytes of a `SignedAuthorityAddresses` hold: addresses and signature.
pub open spec fn signed_decoding(s: Seq<u8>) -> Result<(Seq<u8>, Seq<u8>), Error> {
    parse_signed(s, Seq::empty(), Seq::empty())
}

/// Reads the key of a field of `buf` at `pos`: the field number, the wire type
/// and the position behind the key.
pub fn read_key(buf: &[u8], pos: usize) -> (r: Option<(u32, u8, usize)>)
    requires
        pos <= buf.len(),
    ensures
        match parse_key(buf@.skip(pos as int)) {
            None => r is None,
            Some((number, wire, n)) => r == Some((number as u32, wire as u8, (pos + n) as usize))
                && number <= u32::MAX && pos + n <= buf.len(),
        },
{
    match decode_varint(buf, pos) {
        None => None,
        Some((key, next)) => {
            if key > 0xffff_ffff || key % 8 > 5 || key / 8 == 0 {
                None
            } else {
                Some(((key / 8) as u32, (key % 8) as u8, next))
            }
        },
    }
}

/// Reads a length-delimited value of `buf` at `pos`: where its bytes start and
/// where they end.
pub fn read_length_delimited(buf: &[u8], pos: usize) -> (r: Option<(usize, usize)>)
    requires
        pos <= buf.len(),
    ensures
        match parse_length_delimited(buf@.skip(pos as int)) {
            None => r is None,
            Some((payload, n)) => r matches Some((start, end)) && pos < start <= end <= buf.len()
                && end == pos + n && payload == buf@.subrange(start as int, end as int),
        },
{
    match decode_varint(buf, pos) {
        None => None,
        Some((len, start)) => {
            if len > (buf.len() - start) as u64 {
                None
            } else {
                let end: usize = start + len as usize;
                proof {
                    let s = buf@.skip(pos as int);
                    assert(s.subrange(start - pos, end - pos) =~= buf@.subrange(
                        start as int,
                        end as int,
                    ));
                }
                Some((start, end))
            }
        },
    }
}

/// Passes over the value of a field of `buf` at `pos`, where the field has
/// the number `number` and the wire type `wire`, inside `depth` groups: the
/// position behind the value.
pub fn skip_value(wire: u8, number: u32, buf: &[u8], pos: usize, depth: usize) -> (r: Option<usize>)
    requires
        pos <= buf.len(),
    ensures
        match parse_skipped(wire as nat, number as nat, buf@.skip(pos as int), depth as nat) {
            None => r is None,
            Some(n) => r == Some((pos + n) as usize) && pos + n <= buf.len(),
        },
    decreases buf.len() - pos, 1nat,
{
    if depth >= RECURSION_LIMIT {
        None
    } else if wire == WIRE_VARINT {
        match decode_varint(buf, pos) {
            None => None,
            Some((_, next)) => Some(next),
        }
    } else if wire == WIRE_FIXED64 {
        if buf.len() - pos >= 8 {
            Some(pos + 8)
        } else {
            None
        }
    } else if wire == WIRE_LENGTH_DELIMITED {
        match read_length_delimited(buf, pos) {
            None => None,
            Some((_, end)) => Some(end),
        }
    } else if wire == WIRE_START_GROUP {
        skip_group(number, buf, pos, depth)
    } else if wire == WIRE_FIXED32 {
        if buf.len() - pos >= 4 {
            Some(pos + 4)
        } else {
            None
        }
    } else {
        None
    }
}

/// Passes over the rest of a group of `buf` at `pos`, up to and with the key
/// that closes the group of the number `number`: the position behind that
/// key. Inside `RECURSION_LIMIT` groups or more, no group is read.
pub fn skip_group(number: u32, buf: &[u8], pos: usize, depth: usize) -> (r: Option<usize>)
    requires
        pos <= buf.len(),
    ensures
        match parse_group(number as nat, buf@.skip(pos as int), depth as nat) {
            None => r is None,
            Some(n) => r == Some((pos + n) as usize) && pos + n <= buf.len(),
        },
    decreases buf.len() - pos, 0nat,
{
    if depth >= RECURSION_LIMIT {
        return None;
    }
    let ghost whole = parse_group(number as nat, buf@.skip(pos as int), depth as nat);
    let mut at: usize = pos;
    loop
        invariant
            pos <= at <= buf.len(),
            depth < RECURSION_LIMIT,
            whole == parse_group(number as nat, buf@.skip(pos as int), depth as nat),
            match parse_group(number as nat, buf@.skip(at as int), depth as nat) {
                None => whole is None,
                Some(n) => whole == Some((at - pos + n) as nat),
            },
        decreases buf.len() - at,
    {
        let ghost s = buf@.skip(at as int);
        proof {
            lemma_key_bounds(s);
        }
        let (inner, wire, behind) = match read_key(buf, at) {
            None => { return None; },
            Some(key) => key,
        };
        if wire == WIRE_END_GROUP {
            proof {
                lemma_skipped_bounds(0, number as nat, buf@.skip(pos as int), depth as nat);
            }
            if inner == number {
                return Some(behind);
            } else {
                return None;
            }
        }
        proof {
            assert(s.skip(behind - at) =~= buf@.skip(behind as int));
        }
        let next = match skip_value(wire, inner, buf, behind, depth + 1) {
            None => { return None; },
            Some(next) => next,
        };
        proof {
            lemma_skipped_bounds(
                wire as nat,
                inner as nat,
                buf@.skip(behind as int),
                (depth + 1) as nat,
            );
            assert(s.skip(next - at) =~= buf@.skip(next as int));
        }
        at = next;
    }
}

/// A field as `read_field` found it in a buffer.
pub struct Field {
    /// The number of the field.
    pub number: u32,
    /// Where the bytes of the field start and end, for a field of the
    /// schema; `None` for a field that was passed over.
    pub payload: Option<(usize, usize)>,
    /// The position behind the field.
    pub end: usize,
}

/// Reads the field of `buf` at `pos` for a schema whose fields have the
/// numbers 1 to `fields` and hold bytes.
pub fn read_field(buf: &[u8], pos: usize, fields: u32) -> (r: Result<Field, Error>)
    requires
        pos <= buf.len(),
    ensures
        match next_field(buf@.skip(pos as int), fields as nat) {
            Err(e) => r matches Err(x) && x == e,
            Ok(view) => r matches Ok(f) && f.number == view.number && f.end == pos + view.taken
                && pos < f.end <= buf.len() && match view.payload {
                None => f.payload is None,
                Some(bytes) => f.payload matches Some((start, end)) && start <= end <= buf.len()
                    && bytes == buf@.subrange(start as int, end as int),
            },
        },
{
    let ghost s = buf@.skip(pos as int);
    proof {
        lemma_next_field_bounds(s, fields as nat);
    }
    let (number, wire, at) = match read_key(buf, pos) {
        None => { return Err(Error::Decoding); },
        Some(key) => key,
    };
    assert(s.skip(at - pos) =~= buf@.skip(at as int));
    if number <= fields {
        if wire != WIRE_LENGTH_DELIMITED {
            return Err(Error::SchemaMismatch);
        }
        match read_length_delimited(buf, at) {
            None => Err(Error::Decoding),
            Some((start, end)) => Ok(Field { number, payload: Some((start, end)), end }),
        }
    } else {
        match skip_value(wire, number, buf, at, 0) {
            None => Err(Error::Decoding),
            Some(end) => Ok(Field { number, payload: None, end }),
        }
    }
}

/// Appends one length-delimited field to `buf`.
pub fn encode_field(key: u8, payload: &[u8], buf: &mut Vec<u8>)
    ensures
        final(buf)@ == old(buf)@ + field(key, payload@),
{
    buf.push(key);
    encode_varint(payload.len() as u64, buf);
    buf.extend_from_slice(payload);
    proof {
        assert(buf@ =~= old(buf)@ + field(key, payload@));
    }
}

/// The addresses of one authority.
#[derive(Debug)]
pub struct AuthorityAddresses {
    /// The addresses, each the bytes of a multiaddress.
    pub addresses: Vec<Vec<u8>>,
}

/// The encoded addresses of one authority with the authority's signature over
/// those very bytes.
#[derive(Debug)]
pub struct SignedAuthorityAddresses {
    /// The bytes of an `AuthorityAddresses`.
    pub addresses: Vec<u8>,
    /// The signature over `addresses`.
    pub signature: Vec<u8>,
}

impl AuthorityAddresses {
    /// Appends the bytes of this record to `buf`.
    pub fn encode(&self, buf: &mut Vec<u8>)
        ensures
            final(buf)@ == old(buf)@ + addresses_encoding(views(self.addresses@)),
    {
        let mut i: usize = 0;
        while i < self.addresses.len()
            invariant
                i <= self.addresses.len(),
                buf@ == old(buf)@ + addresses_encoding(views(self.addresses@).take(i as int)),
            decreases self.addresses.len() - i,
        {
            encode_field(KEY_ADDRESSES, self.addresses[i].as_slice(), buf);
            proof {
                let all = views(self.addresses@);
                assert(all.take(i + 1).drop_last() =~= all.take(i as int));
                assert(all.take(i + 1).last() == self.addresses[i as int]@);
            }
            i += 1;
        }
        proof {
            let all = views(self.addresses@);
            assert(all.take(i as int) =~= all);
        }
    }

    /// Reads a record from `buf`, which must hold nothing else.
    pub fn decode(buf: &[u8]) -> (r: Result<AuthorityAddresses, Error>)
        ensures
            match addresses_decoding(buf@) {
                Ok(list) => r matches Ok(m) && views(m.addresses@) == list,
                Err(e) => r matches Err(x) && x == e,
            },
    {
        let mut addresses: Vec<Vec<u8>> = Vec::new();
        let mut pos: usize = 0;
        assert(views(addresses@) =~= Seq::empty());
        assert(buf@.skip(0) =~= buf@);
        while pos < buf.len()
            invariant
                pos <= buf.len(),
                parse_addresses(buf@.skip(pos as int), views(addresses@)) == addresses_decoding(
                    buf@,
                ),
            decreases buf.len() - pos,
        {
            let ghost acc = views(addresses@);
            let field = match read_field(buf, pos, 1) {
                Err(e) => { return Err(e); },
                Ok(field) => field,
            };
            match field.payload {
                Some((start, end)) => {
                    addresses.push(slice_to_vec(slice_subrange(buf, start, end)));
                    assert(views(addresses@) =~= acc.push(buf@.subrange(start as int, end as int)));
                },
                None => {},
            }
            assert(buf@.skip(pos as int).skip(field.end - pos) =~= buf@.skip(field.end as int));
            pos = field.end;
        }
        Ok(AuthorityAddresses { addresses })
    }
}

impl SignedAuthorityAddresses {
    /// Appends the bytes of this record to `buf`.
    pub fn encode(&self, buf: &mut Vec<u8>)
        ensures
            final(buf)@ == old(buf)@ + signed_encoding(self.addresses@, self.signature@),
    {
        if self.addresses.len() > 0 {
            encode_field(KEY_ADDRESSES, self.addresses.as_slice(), buf);
        }
        let ghost middle = buf@;
        if self.signature.len() > 0 {
            encode_field(KEY_SIGNATURE, self.signature.as_slice(), buf);
        }
        proof {
            assert(middle =~= old(buf)@ + optional_field(KEY_ADDRESSES, self.addresses@));
            assert(buf@ =~= old(buf)@ + signed_encoding(self.addresses@, self.signature@));
        }
    }

    /// Reads a record from `buf`, which must hold nothing else.
    pub fn decode(buf: &[u8]) -> (r: Result<SignedAuthorityAddresses, Error>)
        ensures
            match signed_decoding(buf@) {
                Ok((addresses, signature)) => r matches Ok(m) && m.addresses@ == addresses
                    && m.signature@ == signature,
                Err(e) => r matches Err(x) && x == e,
            },
    {
        let mut addresses: Vec<u8> = Vec::new();
        let mut signature: Vec<u8> = Vec::new();
        let mut pos: usize = 0;
        assert(buf@.skip(0) =~= buf@);
        while pos < buf.len()
            invariant
                pos <= buf.len(),
                parse_signed(buf@.skip(pos as int), addresses@, signature@) == signed_decoding(
                    buf@,
                ),
            decreases buf.len() - pos,
        {
            let field = match read_field(buf, pos, 2) {
                Err(e) => { return Err(e); },
                Ok(field) => field,
            };
            match field.payload {
                Some((start, end)) => {
                    let payload = slice_to_vec(slice_subrange(buf, start, end));
                    if field.number == 1 {
                        addresses = payload;
                    } else {
                        signature = payload;
                    }
                },
                None => {},
            }
            assert(buf@.skip(pos as int).skip(field.end - pos) =~= buf@.skip(field.end as int));
            pos = field.end;
        }
        Ok(SignedAuthorityAddresses { addresses, signature })
    }
}

/// A length-delimited field of number 1 or 2 in front of `rest` is read back
/// with its number and its bytes, and `rest` is what is left.
pub proof fn lemma_field_roundtrip(key: u8, payload: Seq<u8>, rest: Seq<u8>, fields: nat)
    requires
        key == KEY_ADDRESSES || key == KEY_SIGNATURE,
        key / 8 <= fields,
        payload.len() <= u64::MAX,
    ensures
        next_field(field(key, payload) + rest, fields) == Ok::<FieldView, Error>(
            FieldView {
                number: (key / 8) as nat,
                payload: Some(payload),
                taken: field(key, payload).len(),
            },
        ),
        (field(key, payload) + rest).skip(field(key, payload).len() as int) == rest,
{
    let s = field(key, payload) + rest;
    let len = varint(payload.len());
    assert(s[0] == key);
    assert(s.skip(1) =~= len + (payload + rest));
    lemma_varint_roundtrip(payload.len(), payload + rest, 0);
    assert(s.skip(1).subrange(len.len() as int, (len.len() + payload.len()) as int) =~= payload);
    assert(s.skip(field(key, payload).len() as int) =~= rest);
}

/// The encoding of a list that starts with `first` starts with the field of `first`.
pub proof fn lemma_addresses_encoding_front(first: Seq<u8>, tail: Seq<Seq<u8>>)
    ensures
        addresses_encoding(seq![first] + tail) == field(KEY_ADDRESSES, first) + addresses_encoding(
            tail,
        ),
    decreases tail.len(),
{
    let all = seq![first] + tail;
    if tail.len() == 0 {
        assert(all.drop_last() =~= Seq::<Seq<u8>>::empty());
        assert(all.last() == first);
        assert(addresses_encoding(all.drop_last()) =~= Seq::<u8>::empty());
        assert(addresses_encoding(tail) =~= Seq::<u8>::empty());
        assert(addresses_encoding(all) =~= field(KEY_ADDRESSES, first) + addresses_encoding(tail));
    } else {
        assert(all.drop_last() =~= seq![first] + tail.drop_last());
        assert(all.last() == tail.last());
        lemma_addresses_encoding_front(first, tail.drop_last());
        assert(addresses_encoding(all) =~= field(KEY_ADDRESSES, first) + addresses_encoding(tail));
    }
}

/// Reading the encoding of `list` after the addresses `acc` gives `acc`
/// followed by `list`.
pub proof fn lemma_parse_addresses_encoding(list: Seq<Seq<u8>>, acc: Seq<Seq<u8>>)
    requires
        forall|i: int| 0 <= i < list.len() ==> (#[trigger] list[i]).len() <= u64::MAX,
    ensures
        parse_addresses(addresses_encoding(list), acc) == Ok::<Seq<Seq<u8>>, Error>(acc + list),
    decreases list.len(),
{
    if list.len() == 0 {
        assert(acc + list =~= acc);
    } else {
        let first = list[0];
        let tail = list.skip(1);
        assert(list =~= seq![first] + tail);
        lemma_addresses_encoding_front(first, tail);
        lemma_field_roundtrip(KEY_ADDRESSES, first, addresses_encoding(tail), 1);
        lemma_parse_addresses_encoding(tail, acc.push(first));
        assert(acc.push(first) + tail =~= acc + list);
    }
}

/// Round trip of `AuthorityAddresses`: decoding what was encoded gives the
/// same addresses in the same order.
pub proof fn lemma_addresses_roundtrip(list: Seq<Seq<u8>>)
    requires
        forall|i: int| 0 <= i < list.len() ==> (#[trigger] list[i]).len() <= u64::MAX,
    ensures
        addresses_decoding(addresses_encoding(list)) == Ok::<Seq<Seq<u8>>, Error>(list),
{
    lemma_parse_addresses_encoding(list, Seq::empty());
    assert(Seq::<Seq<u8>>::empty() + list =~= list);
}

/// Round trip of `SignedAuthorityAddresses`: decoding what was encoded gives
/// the same addresses and the same signature.
pub proof fn lemma_signed_roundtrip(addresses: Seq<u8>, signature: Seq<u8>)
    requires
        addresses.len() <= u64::MAX,
        signature.len() <= u64::MAX,
    ensures
        signed_decoding(signed_encoding(addresses, signature)) == Ok::<(Seq<u8>, Seq<u8>), Error>(
            (addresses, signature),
        ),
{
    let empty = Seq::<u8>::empty();
    let second = optional_field(KEY_SIGNATURE, signature);
    let s = signed_encoding(addresses, signature);
    assert(parse_signed(second, addresses, empty) == Ok::<(Seq<u8>, Seq<u8>), Error>(
        (addresses, signature),
    )) by {
        if signature.len() > 0 {
            let f = field(KEY_SIGNATURE, signature);
            lemma_field_roundtrip(KEY_SIGNATURE, signature, empty, 2);
            assert(f + empty =~= f);
            assert(parse_signed(empty, addresses, signature) == Ok::<(Seq<u8>, Seq<u8>), Error>(
                (addresses, signature),
            ));
        } else {
            assert(signature =~= empty);
        }
    }
    if addresses.len() > 0 {
        lemma_field_roundtrip(KEY_ADDRESSES, addresses, second, 2);
    } else {
        assert(addresses =~= empty);
        assert(s =~= second);
    }
}

} // verus!
