//! MessagePack payloads of single fields: scalars and flat arrays of scalars.
//!
//! Strings and integers are encoded and decoded by `rmp_serde`. The float64 format and the
//! array header are a marker byte and a big-endian integer, and are written out here.
use vstd::prelude::*;

verus! {

/// The marker of the float64 format.
pub const FLOAT64_MARKER: u8 = 0xcb;

/// fixstr, str8, str16 and str32.
pub open spec fn is_str_marker(m: u8) -> bool {
    (0xa0 <= m && m <= 0xbf) || (0xd9 <= m && m <= 0xdb)
}

/// positive fixint, uint8 to uint64, int8 to int64 and negative fixint.
pub open spec fn is_int_marker(m: u8) -> bool {
    m <= 0x7f || (0xcc <= m && m <= 0xd3) || 0xe0 <= m
}

/// fixarray, array16 and array32.
pub open spec fn is_array_marker(m: u8) -> bool {
    (0x90 <= m && m <= 0x9f) || m == 0xdc || m == 0xdd
}

/// The MessagePack encoding of a string.
pub uninterp spec fn packed_str(s: Seq<char>) -> Seq<u8>;

/// The MessagePack encoding of a signed integer.
pub uninterp spec fn packed_int(i: i64) -> Seq<u8>;

/// A string read from the front of `b`, with the bytes after it.
pub uninterp spec fn unpacked_str(b: Seq<u8>) -> Option<(Seq<char>, Seq<u8>)>;

/// A signed integer read from the front of `b`, with the bytes after it.
pub uninterp spec fn unpacked_int(b: Seq<u8>) -> Option<(i64, Seq<u8>)>;

/// An unsigned integer read from the front of `b`, with the bytes after it.
pub uninterp spec fn unpacked_uint(b: Seq<u8>) -> Option<(u64, Seq<u8>)>;

/// Strings short enough for the str formats: at most four bytes a character keeps the UTF-8
/// length under 2^32, which the str32 length field holds.
pub open spec fn fits_str(s: Seq<char>) -> bool {
    s.len() < 0x4000_0000
}

/// Relies on `rmp_serde::to_vec` for a `str`: it writes a str marker, the length and the
/// UTF-8 bytes into a `Vec`, which cannot fail; and `rmp_serde::from_read` reads exactly that
/// string back and leaves whatever follows it. `rmp::encode::write_str` casts the byte length
/// to `u32`, so the string must be shorter than 2^32 bytes.
#[verifier::external_body]
fn pack_str(s: &str) -> (r: Vec<u8>)
    requires
        fits_str(s@),
    ensures
        r@ == packed_str(s@),
        r@.len() > 0 && is_str_marker(r@[0]),
        forall|tail: Seq<u8>| #[trigger] unpacked_str(r@ + tail) == Some((s@, tail)),
{
    rmp_serde::to_vec(s).unwrap_or_default()
}

/// Relies on `rmp_serde::to_vec` for an `i64`: it writes the most compact int or uint format
/// into a `Vec`, which cannot fail; and `rmp_serde::from_read` into an `i64` reads exactly that
/// value back and leaves whatever follows it.
#[verifier::external_body]
fn pack_int(i: i64) -> (r: Vec<u8>)
    ensures
        r@ == packed_int(i),
        r@.len() > 0 && is_int_marker(r@[0]),
        forall|tail: Seq<u8>| #[trigger] unpacked_int(r@ + tail) == Some((i, tail)),
{
    rmp_serde::to_vec(&i).unwrap_or_default()
}

/// Relies on `rmp_serde::from_read` into a `String`, reading from a byte slice that it advances
/// past the string and no further.
#[verifier::external_body]
pub(crate) fn unpack_str<'a>(b: &'a [u8]) -> (r: Option<(String, &'a [u8])>)
    ensures
        match r {
            Some((s, rest)) => unpacked_str(b@) == Some((s@, rest@)),
            None => unpacked_str(b@) is None,
        },
{
    let mut rest: &[u8] = b;
    match rmp_serde::from_read::<&mut &[u8], String>(&mut rest) {
        Ok(s) => Some((s, rest)),
        Err(_) => None,
    }
}

/// Relies on `rmp_serde::from_read` into an `i64`, reading from a byte slice that it advances
/// past the integer and no further.
#[verifier::external_body]
fn unpack_int<'a>(b: &'a [u8]) -> (r: Option<(i64, &'a [u8])>)
    ensures
        match r {
            Some((i, rest)) => unpacked_int(b@) == Some((i, rest@)),
            None => unpacked_int(b@) is None,
        },
{
    let mut rest: &[u8] = b;
    match rmp_serde::from_read::<&mut &[u8], i64>(&mut rest) {
        Ok(i) => Some((i, rest)),
        Err(_) => None,
    }
}

/// Relies on `rmp_serde::from_read` into a `u64`, reading from a byte slice that it advances
/// past the integer and no further.
#[verifier::external_body]
fn unpack_uint<'a>(b: &'a [u8]) -> (r: Option<(u64, &'a [u8])>)
    ensures
        match r {
            Some((u, rest)) => unpacked_uint(b@) == Some((u, rest@)),
            None => unpacked_uint(b@) is None,
        },
{
    let mut rest: &[u8] = b;
    match rmp_serde::from_read::<&mut &[u8], u64>(&mut rest) {
        Ok(u) => Some((u, rest)),
        Err(_) => None,
    }
}

// ---------------------------------------------------------------------------------------------
// Big-endian integers

pub open spec fn be_u64_bytes(x: u64) -> Seq<u8> {
    seq![
        (x >> 56u64) as u8, (x >> 48u64) as u8, (x >> 40u64) as u8, (x >> 32u64) as u8,
        (x >> 24u64) as u8, (x >> 16u64) as u8, (x >> 8u64) as u8, x as u8,
    ]
}

pub open spec fn be_u64_of(b: Seq<u8>) -> u64
    recommends
        b.len() >= 8,
{
    ((b[0] as u64) << 56u64) | ((b[1] as u64) << 48u64) | ((b[2] as u64) << 40u64) | ((
    b[3] as u64) << 32u64) | ((b[4] as u64) << 24u64) | ((b[5] as u64) << 16u64) | ((
    b[6] as u64) << 8u64) | (b[7] as u64)
}

pub open spec fn be_u16_bytes(x: u16) -> Seq<u8> {
    seq![(x >> 8u16) as u8, x as u8]
}

pub open spec fn be_u16_of(b: Seq<u8>) -> u16
    recommends
        b.len() >= 2,
{
    ((b[0] as u16) << 8u16) | (b[1] as u16)
}

pub open spec fn be_u32_bytes(x: u32) -> Seq<u8> {
    seq![(x >> 24u32) as u8, (x >> 16u32) as u8, (x >> 8u32) as u8, x as u8]
}

pub open spec fn be_u32_of(b: Seq<u8>) -> u32
    recommends
        b.len() >= 4,
{
    ((b[0] as u32) << 24u32) | ((b[1] as u32) << 16u32) | ((b[2] as u32) << 8u32) | (b[3] as u32)
}

pub proof fn lemma_be_u64_round_trip(x: u64)
    ensures
        be_u64_of(be_u64_bytes(x)) == x,
{
    let b = be_u64_bytes(x);
    let (b0, b1, b2, b3, b4, b5, b6, b7) = (b[0], b[1], b[2], b[3], b[4], b[5], b[6], b[7]);
    assert(b0 == (x >> 56u64) as u8 && b1 == (x >> 48u64) as u8 && b2 == (x >> 40u64) as u8 && b3
        == (x >> 32u64) as u8 && b4 == (x >> 24u64) as u8 && b5 == (x >> 16u64) as u8 && b6 == (x
        >> 8u64) as u8 && b7 == x as u8);
    assert(((b0 as u64) << 56u64) | ((b1 as u64) << 48u64) | ((b2 as u64) << 40u64) | ((
    b3 as u64) << 32u64) | ((b4 as u64) << 24u64) | ((b5 as u64) << 16u64) | ((b6 as u64)
        << 8u64) | (b7 as u64) == x) by (bit_vector)
        requires
            b0 == (x >> 56u64) as u8,
            b1 == (x >> 48u64) as u8,
            b2 == (x >> 40u64) as u8,
            b3 == (x >> 32u64) as u8,
            b4 == (x >> 24u64) as u8,
            b5 == (x >> 16u64) as u8,
            b6 == (x >> 8u64) as u8,
            b7 == x as u8,
    ;
}

pub proof fn lemma_be_u16_round_trip(x: u16)
    ensures
        be_u16_of(be_u16_bytes(x)) == x,
{
    let b = be_u16_bytes(x);
    let (b0, b1) = (b[0], b[1]);
    assert(((b0 as u16) << 8u16) | (b1 as u16) == x) by (bit_vector)
        requires
            b0 == (x >> 8u16) as u8,
            b1 == x as u8,
    ;
}

pub proof fn lemma_be_u32_round_trip(x: u32)
    ensures
        be_u32_of(be_u32_bytes(x)) == x,
{
    let b = be_u32_bytes(x);
    let (b0, b1, b2, b3) = (b[0], b[1], b[2], b[3]);
    assert(((b0 as u32) << 24u32) | ((b1 as u32) << 16u32) | ((b2 as u32) << 8u32) | (b3 as u32)
        == x) by (bit_vector)
        requires
            b0 == (x >> 24u32) as u8,
            b1 == (x >> 16u32) as u8,
            b2 == (x >> 8u32) as u8,
            b3 == x as u8,
    ;
}


// ---------------------------------------------------------------------------------------------
// Formats written out here

/// The float64 format: its marker and the IEEE-754 bit pattern, big-endian.
pub open spec fn float_bytes(bits: u64) -> Seq<u8> {
    seq![FLOAT64_MARKER] + be_u64_bytes(bits)
}

/// The array header for `n` items: fixarray, array16 or array32, the smallest that holds `n`.
pub open spec fn array_header(n: nat) -> Seq<u8> {
    if n < 16 {
        seq![(0x90 + n) as u8]
    } else if n < 0x10000 {
        seq![0xdcu8] + be_u16_bytes(n as u16)
    } else {
        seq![0xddu8] + be_u32_bytes(n as u32)
    }
}

/// The item count of an array header at the front of `b`, with the bytes after the header.
pub open spec fn array_len_of(b: Seq<u8>) -> Option<(nat, Seq<u8>)> {
    if b.len() == 0 {
        None
    } else if 0x90 <= b[0] && b[0] <= 0x9f {
        Some(((b[0] - 0x90) as nat, b.subrange(1, b.len() as int)))
    } else if b[0] == 0xdc && b.len() >= 3 {
        Some((be_u16_of(b.subrange(1, 3)) as nat, b.subrange(3, b.len() as int)))
    } else if b[0] == 0xdd && b.len() >= 5 {
        Some((be_u32_of(b.subrange(1, 5)) as nat, b.subrange(5, b.len() as int)))
    } else {
        None
    }
}

pub(crate) fn pack_float(bits: u64) -> (r: Vec<u8>)
    ensures
        r@ == float_bytes(bits),
{
    let mut r: Vec<u8> = Vec::new();
    r.push(FLOAT64_MARKER);
    r.push((bits >> 56u64) as u8);
    r.push((bits >> 48u64) as u8);
    r.push((bits >> 40u64) as u8);
    r.push((bits >> 32u64) as u8);
    r.push((bits >> 24u64) as u8);
    r.push((bits >> 16u64) as u8);
    r.push((bits >> 8u64) as u8);
    r.push(bits as u8);
    assert(r@ =~= float_bytes(bits));
    r
}

pub(crate) fn pack_array_header(n: usize) -> (r: Vec<u8>)
    requires
        n < 0x1_0000_0000,
    ensures
        r@ == array_header(n as nat),
{
    let mut r: Vec<u8> = Vec::new();
    if n < 16 {
        r.push((0x90 + n) as u8);
    } else if n < 0x10000 {
        let x = n as u16;
        r.push(0xdcu8);
        r.push((x >> 8u16) as u8);
        r.push(x as u8);
    } else {
        let x = n as u32;
        r.push(0xddu8);
        r.push((x >> 24u32) as u8);
        r.push((x >> 16u32) as u8);
        r.push((x >> 8u32) as u8);
        r.push(x as u8);
    }
    assert(r@ =~= array_header(n as nat));
    r
}

pub proof fn lemma_array_header_round_trip(n: nat, tail: Seq<u8>)
    requires
        n < 0x1_0000_0000,
    ensures
        array_header(n).len() > 0,
        is_array_marker(array_header(n)[0]),
        array_len_of(array_header(n) + tail) == Some((n, tail)),
{
    let b = array_header(n) + tail;
    if n < 16 {
        assert(b.subrange(1, b.len() as int) =~= tail);
    } else if n < 0x10000 {
        lemma_be_u16_round_trip(n as u16);
        assert(b.subrange(1, 3) =~= be_u16_bytes(n as u16));
        assert(b.subrange(3, b.len() as int) =~= tail);
    } else {
        lemma_be_u32_round_trip(n as u32);
        assert(b.subrange(1, 5) =~= be_u32_bytes(n as u32));
        assert(b.subrange(5, b.len() as int) =~= tail);
    }
}

// ---------------------------------------------------------------------------------------------
// Scalars and payloads

/// One scalar of a payload.
pub enum Scalar {
    Str(String),
    Int(i64),
    /// An unsigned integer beyond the range of `i64`.
    UInt(u64),
    /// An IEEE-754 double, held as its bit pattern.
    Float(u64),
}

pub enum ScalarModel {
    Str(Seq<char>),
    Int(i64),
    UInt(u64),
    Float(u64),
}

impl View for Scalar {
    type V = ScalarModel;

    open spec fn view(&self) -> ScalarModel {
        match self {
            Scalar::Str(s) => ScalarModel::Str(s@),
            Scalar::Int(i) => ScalarModel::Int(*i),
            Scalar::UInt(u) => ScalarModel::UInt(*u),
            Scalar::Float(f) => ScalarModel::Float(*f),
        }
    }
}

/// A decoded field payload: one bare scalar, or an array of scalars.
pub enum Payload {
    One(Scalar),
    Many(Vec<Scalar>),
}

pub enum PayloadModel {
    One(ScalarModel),
    Many(Seq<ScalarModel>),
}

pub open spec fn scalars_view(v: Seq<Scalar>) -> Seq<ScalarModel> {
    Seq::new(v.len(), |i: int| v[i]@)
}

impl View for Payload {
    type V = PayloadModel;

    open spec fn view(&self) -> PayloadModel {
        match self {
            Payload::One(s) => PayloadModel::One(s@),
            Payload::Many(v) => PayloadModel::Many(scalars_view(v@)),
        }
    }
}

/// The scalar at the front of `b`, with the bytes after it. An integer is read as signed
/// where it fits, else as unsigned.
pub open spec fn scalar_of(b: Seq<u8>) -> Option<(ScalarModel, Seq<u8>)> {
    if b.len() == 0 {
        None
    } else if b[0] == FLOAT64_MARKER {
        if b.len() >= 9 {
            Some((ScalarModel::Float(be_u64_of(b.subrange(1, 9))), b.subrange(9, b.len() as int)))
        } else {
            None
        }
    } else if is_str_marker(b[0]) {
        match unpacked_str(b) {
            Some((s, rest)) => Some((ScalarModel::Str(s), rest)),
            None => None,
        }
    } else if is_int_marker(b[0]) {
        match unpacked_int(b) {
            Some((i, rest)) => Some((ScalarModel::Int(i), rest)),
            None => match unpacked_uint(b) {
                Some((u, rest)) => Some((ScalarModel::UInt(u), rest)),
                None => None,
            },
        }
    } else {
        None
    }
}

/// `n` scalars one after the other at the front of `b`, with the bytes after them.
pub open spec fn scalars_of(b: Seq<u8>, n: nat) -> Option<(Seq<ScalarModel>, Seq<u8>)>
    decreases n,
{
    if n == 0 {
        Some((Seq::empty(), b))
    } else {
        match scalars_of(b, (n - 1) as nat) {
            Some((vs, rest)) => match scalar_of(rest) {
                Some((v, rest2)) => Some((vs.push(v), rest2)),
                None => None,
            },
            None => None,
        }
    }
}

/// The payload at the front of `b`, an array of scalars or one scalar, with the bytes after it.
pub open spec fn payload_split(b: Seq<u8>) -> Option<(PayloadModel, Seq<u8>)> {
    if b.len() > 0 && is_array_marker(b[0]) {
        match array_len_of(b) {
            Some((n, rest)) => match scalars_of(rest, n) {
                Some((vs, after)) => Some((PayloadModel::Many(vs), after)),
                None => None,
            },
            None => None,
        }
    } else {
        match scalar_of(b) {
            Some((v, after)) => Some((PayloadModel::One(v), after)),
            None => None,
        }
    }
}

/// The payload at the front of `b`. Bytes after it are ignored.
pub open spec fn payload_of(b: Seq<u8>) -> Option<PayloadModel> {
    match payload_split(b) {
        Some((p, _)) => Some(p),
        None => None,
    }
}

/// Whether `b` holds exactly one payload, with nothing after it.
pub open spec fn is_exact_payload(b: Seq<u8>) -> bool {
    payload_split(b) matches Some((_, after)) && after.len() == 0
}

/// Once a scalar fails to read, every longer run of scalars fails too.
proof fn lemma_scalars_stop(b: Seq<u8>, i: nat, m: nat)
    requires
        i < m,
        scalars_of(b, i) matches Some((_, rest)) && scalar_of(rest) is None,
    ensures
        scalars_of(b, m) is None,
    decreases m,
{
    if m > i + 1 {
        lemma_scalars_stop(b, i, (m - 1) as nat);
    }
}

pub proof fn lemma_float_round_trip(bits: u64, tail: Seq<u8>)
    ensures
        scalar_of(float_bytes(bits) + tail) == Some((ScalarModel::Float(bits), tail)),
{
    let b = float_bytes(bits) + tail;
    lemma_be_u64_round_trip(bits);
    assert(b.subrange(1, 9) =~= be_u64_bytes(bits));
    assert(b.subrange(9, b.len() as int) =~= tail);
}

/// Encodes a string, and shows that it reads back as that string whatever follows it.
pub(crate) fn pack_str_scalar(s: &str) -> (r: Vec<u8>)
    requires
        fits_str(s@),
    ensures
        r@ == packed_str(s@),
        r@.len() > 0 && !is_array_marker(r@[0]),
        forall|tail: Seq<u8>| #[trigger]
            scalar_of(r@ + tail) == Some((ScalarModel::Str(s@), tail)),
        forall|tail: Seq<u8>| #[trigger] unpacked_str(r@ + tail) == Some((s@, tail)),
{
    let r = pack_str(s);
    assert forall|tail: Seq<u8>| #[trigger]
        scalar_of(r@ + tail) == Some((ScalarModel::Str(s@), tail)) by {
        assert((r@ + tail)[0] == r@[0]);
        assert(unpacked_str(r@ + tail) == Some((s@, tail)));
    }
    r
}

/// Encodes an integer, and shows that it reads back as that integer whatever follows it.
pub(crate) fn pack_int_scalar(i: i64) -> (r: Vec<u8>)
    ensures
        r@ == packed_int(i),
        r@.len() > 0 && !is_array_marker(r@[0]),
        forall|tail: Seq<u8>| #[trigger]
            scalar_of(r@ + tail) == Some((ScalarModel::Int(i), tail)),
{
    let r = pack_int(i);
    assert forall|tail: Seq<u8>| #[trigger]
        scalar_of(r@ + tail) == Some((ScalarModel::Int(i), tail)) by {
        assert((r@ + tail)[0] == r@[0]);
        assert(unpacked_int(r@ + tail) == Some((i, tail)));
    }
    r
}

/// Reads the scalar at the front of `b`.
pub fn read_scalar<'a>(b: &'a [u8]) -> (r: Option<(Scalar, &'a [u8])>)
    ensures
        match r {
            Some((v, rest)) => scalar_of(b@) == Some((v@, rest@)),
            None => scalar_of(b@) is None,
        },
{
    if b.len() == 0 {
        None
    } else if b[0] == FLOAT64_MARKER {
        if b.len() >= 9 {
            let bits: u64 = ((b[1] as u64) << 56u64) | ((b[2] as u64) << 48u64) | ((b[3] as u64)
                << 40u64) | ((b[4] as u64) << 32u64) | ((b[5] as u64) << 24u64) | ((b[6] as u64)
                << 16u64) | ((b[7] as u64) << 8u64) | (b[8] as u64);
            let rest = &b[9..b.len()];
            assert(be_u64_of(b@.subrange(1, 9)) == bits);
            Some((Scalar::Float(bits), rest))
        } else {
            None
        }
    } else if (0xa0 <= b[0] && b[0] <= 0xbf) || (0xd9 <= b[0] && b[0] <= 0xdb) {
        match unpack_str(b) {
            Some((s, rest)) => Some((Scalar::Str(s), rest)),
            None => None,
        }
    } else if b[0] <= 0x7f || (0xcc <= b[0] && b[0] <= 0xd3) || 0xe0 <= b[0] {
        match unpack_int(b) {
            Some((i, rest)) => Some((Scalar::Int(i), rest)),
            None => match unpack_uint(b) {
                Some((u, rest)) => Some((Scalar::UInt(u), rest)),
                None => None,
            },
        }
    } else {
        None
    }
}

/// Reads the payload at the front of `b`.
pub fn read_payload(b: &[u8]) -> (r: Option<Payload>)
    ensures
        match r {
            Some(p) => payload_of(b@) == Some(p@),
            None => payload_of(b@) is None,
        },
{
    if b.len() > 0 && ((0x90 <= b[0] && b[0] <= 0x9f) || b[0] == 0xdc || b[0] == 0xdd) {
        let (n, mut rest): (u64, &[u8]) = if 0x90 <= b[0] && b[0] <= 0x9f {
            ((b[0] - 0x90) as u64, &b[1..b.len()])
        } else if b[0] == 0xdc && b.len() >= 3 {
            let x: u16 = ((b[1] as u16) << 8u16) | (b[2] as u16);
            assert(be_u16_of(b@.subrange(1, 3)) == x);
            (x as u64, &b[3..b.len()])
        } else if b[0] == 0xdd && b.len() >= 5 {
            let x: u32 = ((b[1] as u32) << 24u32) | ((b[2] as u32) << 16u32) | ((b[3] as u32)
                << 8u32) | (b[4] as u32);
            assert(be_u32_of(b@.subrange(1, 5)) == x);
            (x as u64, &b[5..b.len()])
        } else {
            return None;
        };
        assert(array_len_of(b@) == Some((n as nat, rest@)));
        let mut items: Vec<Scalar> = Vec::new();
        let mut i: u64 = 0;
        while i < n
            invariant
                i <= n,
                scalars_of(array_len_of(b@).unwrap().1, i as nat) == Some((scalars_view(items@), rest@)),
                array_len_of(b@) == Some((n as nat, array_len_of(b@).unwrap().1)),
            decreases n - i,
        {
            match read_scalar(rest) {
                Some((v, rest2)) => {
                    proof {
                        assert(scalars_view(items@.push(v)) =~= scalars_view(items@).push(v@));
                    }
                    items.push(v);
                    rest = rest2;
                    i = i + 1;
                },
                None => {
                    proof {
                        lemma_scalars_stop(array_len_of(b@).unwrap().1, i as nat, n as nat);
                    }
                    return None;
                },
            }
        }
        Some(Payload::Many(items))
    } else {
        match read_scalar(b) {
            Some((v, _)) => Some(Payload::One(v)),
            None => None,
        }
    }
}

} // verus!
