//! The stored form of values, written and read with bincode.
use vstd::prelude::*;
use crate::error::Error;

verus! {

/// The error type of bincode.
#[verifier::external_type_specification]
#[verifier::external_body]
pub struct ExBincodeErrorKind(bincode::ErrorKind);

/// The ASCII code of the hexadecimal digit `d < 16`, in lower case.
pub open spec fn hex_digit(d: int) -> u8 {
    if d < 10 {
        (48 + d) as u8
    } else {
        (87 + d) as u8
    }
}

/// The value of the hexadecimal digit whose ASCII code is `c`, in either
/// case, if `c` is one.
pub open spec fn hex_value(c: u8) -> Option<int> {
    if 48 <= c <= 57 {
        Some(c - 48)
    } else if 97 <= c <= 102 {
        Some(c - 87)
    } else if 65 <= c <= 70 {
        Some(c - 55)
    } else {
        None
    }
}

/// `v` written in lower-case hexadecimal: two digits per byte, the high one first.
pub open spec fn hex_lower(v: Seq<u8>) -> Seq<u8> {
    Seq::new(2 * v.len(), |i: int| hex_digit(if i % 2 == 0 { v[i / 2] as int / 16 } else { v[i / 2] as int % 16 }))
}

/// Whether the 64 bytes of `s` from `off` on are hexadecimal digits.
pub open spec fn hex_digits_at(s: Seq<u8>, off: int) -> bool {
    &&& s.len() >= off + 64
    &&& forall|i: int| 0 <= i < 64 ==> #[trigger] hex_value(s[off + i]) is Some
}

/// The 32 bytes that the 64 hexadecimal digits of `s` from `off` on denote,
/// two digits per byte with the high one first.
pub open spec fn hex_bytes_at(s: Seq<u8>, off: int) -> Seq<u8> {
    Seq::new(32, |j: int| (hex_value(s[off + 2 * j]).unwrap() * 16 + hex_value(s[off + 2 * j + 1]).unwrap()) as u8)
}

/// Whether the text `s` starts with `0x`.
pub open spec fn starts_with_0x(s: Seq<u8>) -> bool {
    s.len() >= 2 && s[0] == 48 && s[1] == 120
}

/// What reading the text `s` as a 32-byte value gives: after an optional
/// `0x`, 64 hexadecimal digits, two per byte with the high one first; what
/// follows them is ignored.
pub open spec fn hex_parse(s: Seq<u8>) -> Option<Seq<u8>> {
    let off: int = if starts_with_0x(s) { 2 } else { 0 };
    if hex_digits_at(s, off) {
        Some(hex_bytes_at(s, off))
    } else {
        None
    }
}

/// `b` lies in `lo..=hi`.
pub open spec fn byte_in(b: u8, lo: u8, hi: u8) -> bool {
    lo <= b <= hi
}

/// The length of the well-formed UTF-8 sequence that `s` starts with, or 0
/// when it starts with none (the table of well-formed byte sequences of the
/// Unicode standard).
pub open spec fn utf8_first_len(s: Seq<u8>) -> nat {
    if s.len() == 0 {
        0
    } else if s[0] <= 0x7f {
        1
    } else if s.len() >= 2 && byte_in(s[0], 0xc2, 0xdf) && byte_in(s[1], 0x80, 0xbf) {
        2
    } else if s.len() >= 3 && byte_in(s[2], 0x80, 0xbf) && (
        (s[0] == 0xe0 && byte_in(s[1], 0xa0, 0xbf))
        || ((byte_in(s[0], 0xe1, 0xec) || byte_in(s[0], 0xee, 0xef)) && byte_in(s[1], 0x80, 0xbf))
        || (s[0] == 0xed && byte_in(s[1], 0x80, 0x9f))
    ) {
        3
    } else if s.len() >= 4 && byte_in(s[2], 0x80, 0xbf) && byte_in(s[3], 0x80, 0xbf) && (
        (s[0] == 0xf0 && byte_in(s[1], 0x90, 0xbf))
        || (byte_in(s[0], 0xf1, 0xf3) && byte_in(s[1], 0x80, 0xbf))
        || (s[0] == 0xf4 && byte_in(s[1], 0x80, 0x8f))
    ) {
        4
    } else {
        0
    }
}

/// Whether `s` is well-formed UTF-8.
pub open spec fn utf8_valid(s: Seq<u8>) -> bool
    decreases s.len(),
{
    if s.len() == 0 {
        true
    } else if utf8_first_len(s) == 0 {
        false
    } else {
        utf8_valid(s.subrange(utf8_first_len(s) as int, s.len() as int))
    }
}

/// The string or byte-string field of bincode that `b` starts with: its
/// length as 8 little-endian bytes, then that many bytes. Gives the bytes and
/// the length of the whole field, when `b` holds that many.
pub open spec fn length_prefixed(b: Seq<u8>) -> Option<(Seq<u8>, int)> {
    if b.len() >= 8 && 8 + le_value(b.subrange(0, 8)) <= b.len() {
        Some((b.subrange(8, 8 + le_value(b.subrange(0, 8)) as int), 8 + le_value(b.subrange(0, 8)) as int))
    } else {
        None
    }
}

/// What reading a text field of bincode as a 32-byte value gives: the text
/// must be UTF-8 and hold the value in hexadecimal.
pub open spec fn hex_field_decoding(b: Seq<u8>) -> Option<(Seq<u8>, int)> {
    match length_prefixed(b) {
        Some((s, n)) => if utf8_valid(s) && hex_parse(s) is Some {
            Some((hex_parse(s).unwrap(), n))
        } else {
            None
        },
        None => None,
    }
}

/// The stored form of a 32-byte value: bincode's form of its text, that is
/// the length 64 as 8 little-endian bytes, then the value in lower-case
/// hexadecimal.
pub open spec fn bytes32_encoding(v: Seq<u8>) -> Seq<u8> {
    le_bytes(64, 8) + hex_lower(v)
}

/// What decoding a stored 32-byte value gives.
pub open spec fn bytes32_decoding(bytes: Seq<u8>) -> Option<Seq<u8>> {
    match hex_field_decoding(bytes) {
        Some((v, _)) => Some(v),
        None => None,
    }
}

/// The stored form of a pair of 32-byte values: the stored form of each,
/// one after the other.
pub open spec fn pair_encoding(a: Seq<u8>, b: Seq<u8>) -> Seq<u8> {
    bytes32_encoding(a) + bytes32_encoding(b)
}

/// What decoding a stored pair of 32-byte values gives.
pub open spec fn pair_decoding(bytes: Seq<u8>) -> Option<(Seq<u8>, Seq<u8>)> {
    match hex_field_decoding(bytes) {
        Some((a, n)) => match hex_field_decoding(bytes.subrange(n, bytes.len() as int)) {
            Some((b, _)) => Some((a, b)),
            None => None,
        },
        None => None,
    }
}

/// `bincode::serialize` on a `fuel_types::Bytes32`. Its `Serialize` impl
/// writes the value as a string of lower-case hexadecimal (its `{:x}` form),
/// and bincode writes a string as its length in 8 little-endian bytes
/// followed by its bytes; writing into a `Vec` does not fail.
#[verifier::external_body]
fn bincode_serialize_bytes32(v: &[u8; 32]) -> (r: Result<Vec<u8>, Box<bincode::ErrorKind>>)
    ensures
        r is Ok,
        r is Ok ==> r.unwrap()@ == bytes32_encoding(v@),
{
    bincode::serialize(&fuel_core_types::fuel_types::Bytes32::from(*v))
}

/// `bincode::deserialize::<fuel_types::Bytes32>`. bincode reads the string
/// field (length, then that many bytes, which must be UTF-8; trailing bytes
/// are accepted), and the `Deserialize` impl parses the text with
/// `Bytes32::from_str`: an optional `0x`, then 64 hexadecimal digits of
/// either case, the rest ignored.
#[verifier::external_body]
fn bincode_deserialize_bytes32(bytes: &[u8]) -> (r: Result<[u8; 32], Box<bincode::ErrorKind>>)
    ensures
        r is Ok <==> bytes32_decoding(bytes@) is Some,
        r is Ok ==> r.unwrap()@ == bytes32_decoding(bytes@).unwrap(),
{
    match bincode::deserialize::<fuel_core_types::fuel_types::Bytes32>(bytes) {
        Ok(v) => Ok(v.into()),
        Err(e) => Err(e),
    }
}

/// `bincode::serialize` on a pair `(fuel_types::Salt, fuel_types::Bytes32)`:
/// bincode writes a tuple as its elements one after the other, and each is
/// written as `bincode_serialize_bytes32` says.
#[verifier::external_body]
fn bincode_serialize_pair(a: &[u8; 32], b: &[u8; 32]) -> (r: Result<Vec<u8>, Box<bincode::ErrorKind>>)
    ensures
        r is Ok,
        r is Ok ==> r.unwrap()@ == pair_encoding(a@, b@),
{
    bincode::serialize(&(fuel_core_types::fuel_types::Salt::from(*a), fuel_core_types::fuel_types::Bytes32::from(*b)))
}

/// `bincode::deserialize::<(fuel_types::Salt, fuel_types::Bytes32)>`: the two
/// elements read one after the other, each as `bincode_deserialize_bytes32`
/// says.
#[verifier::external_body]
fn bincode_deserialize_pair(bytes: &[u8]) -> (r: Result<([u8; 32], [u8; 32]), Box<bincode::ErrorKind>>)
    ensures
        r is Ok <==> pair_decoding(bytes@) is Some,
        r is Ok ==> r.unwrap().0@ == pair_decoding(bytes@).unwrap().0 && r.unwrap().1@ == pair_decoding(bytes@).unwrap().1,
{
    match bincode::deserialize::<(fuel_core_types::fuel_types::Salt, fuel_core_types::fuel_types::Bytes32)>(bytes) {
        Ok((a, b)) => Ok((a.into(), b.into())),
        Err(e) => Err(e),
    }
}

/// Encodes a 32-byte value for storage.
pub fn encode_bytes32(v: &[u8; 32]) -> (r: Result<Vec<u8>, Error>)
    ensures
        r matches Ok(b) && b@ == bytes32_encoding(v@),
{
    match bincode_serialize_bytes32(v) {
        Ok(b) => Ok(b),
        Err(_) => Err(Error::Codec),
    }
}

/// Decodes a stored 32-byte value; `Error::Codec` when it does not decode.
pub fn decode_bytes32(bytes: &[u8]) -> (r: Result<[u8; 32], Error>)
    ensures
        match bytes32_decoding(bytes@) {
            Some(v) => r matches Ok(a) && a@ == v,
            None => r matches Err(Error::Codec),
        },
{
    match bincode_deserialize_bytes32(bytes) {
        Ok(a) => Ok(a),
        Err(_) => Err(Error::Codec),
    }
}

/// Encodes a pair of 32-byte values for storage.
pub fn encode_pair(a: &[u8; 32], b: &[u8; 32]) -> (r: Result<Vec<u8>, Error>)
    ensures
        r matches Ok(bytes) && bytes@ == pair_encoding(a@, b@),
{
    match bincode_serialize_pair(a, b) {
        Ok(bytes) => Ok(bytes),
        Err(_) => Err(Error::Codec),
    }
}

/// Decodes a stored pair of 32-byte values; `Error::Codec` when it does not decode.
pub fn decode_pair(bytes: &[u8]) -> (r: Result<([u8; 32], [u8; 32]), Error>)
    ensures
        match pair_decoding(bytes@) {
            Some(p) => r matches Ok(a) && a.0@ == p.0 && a.1@ == p.1,
            None => r matches Err(Error::Codec),
        },
{
    match bincode_deserialize_pair(bytes) {
        Ok(a) => Ok(a),
        Err(_) => Err(Error::Codec),
    }
}

/// Text of ASCII bytes is well-formed UTF-8.
proof fn lemma_ascii_utf8(s: Seq<u8>)
    requires
        forall|i: int| 0 <= i < s.len() ==> #[trigger] s[i] <= 0x7f,
    ensures
        utf8_valid(s),
    decreases s.len(),
{
    if s.len() > 0 {
        let t = s.subrange(1, s.len() as int);
        assert forall|i: int| 0 <= i < t.len() implies #[trigger] t[i] <= 0x7f by {
            assert(t[i] == s[i + 1]);
        }
        lemma_ascii_utf8(t);
    }
}

/// The hexadecimal text of a 32-byte value reads back as the value.
proof fn lemma_hex_roundtrip(v: Seq<u8>)
    requires
        v.len() == 32,
    ensures
        utf8_valid(hex_lower(v)),
        hex_parse(hex_lower(v)) == Some(v),
{
    let h = hex_lower(v);
    assert forall|i: int| 0 <= i < h.len() implies #[trigger] h[i] <= 0x7f && hex_value(h[i]) is Some
        && hex_value(h[i]).unwrap() == (if i % 2 == 0 { v[i / 2] as int / 16 } else { v[i / 2] as int % 16 }) by {
        let d: int = if i % 2 == 0 { v[i / 2] as int / 16 } else { v[i / 2] as int % 16 };
        assert(0 <= d < 16);
    }
    lemma_ascii_utf8(h);
    assert(hex_value(h[1]) is Some);
    assert(!starts_with_0x(h));
    assert(hex_digits_at(h, 0));
    let p = hex_bytes_at(h, 0);
    assert forall|j: int| 0 <= j < 32 implies p[j] == v[j] by {
        assert(hex_value(h[2 * j]).unwrap() == v[j] as int / 16);
        assert(hex_value(h[2 * j + 1]).unwrap() == v[j] as int % 16);
    }
    assert(p =~= v);
}

/// The stored form of a 32-byte value, with anything after it, decodes to
/// the value, and the field is as long as the stored form.
proof fn lemma_hex_field_roundtrip(v: Seq<u8>, rest: Seq<u8>)
    requires
        v.len() == 32,
    ensures
        bytes32_encoding(v).len() == 72,
        hex_field_decoding(bytes32_encoding(v) + rest) == Some((v, 72int)),
{
    assert(crate::bytes::pow256(0) == 1);
    assert(crate::bytes::pow256(1) == 256);
    assert(crate::bytes::pow256(2) > 64);
    assert(crate::bytes::pow256(3) > 64);
    assert(crate::bytes::pow256(4) > 64);
    assert(crate::bytes::pow256(5) > 64);
    assert(crate::bytes::pow256(6) > 64);
    assert(crate::bytes::pow256(7) > 64);
    assert(crate::bytes::pow256(8) > 64);
    lemma_le_roundtrip(64, 8);
    lemma_hex_roundtrip(v);
    let b = bytes32_encoding(v) + rest;
    assert(b.subrange(0, 8) =~= le_bytes(64, 8));
    assert(b.subrange(8, 72) =~= hex_lower(v));
}

/// A value stored by `encode_bytes32` decodes to itself.
pub proof fn lemma_bytes32_roundtrip(v: Seq<u8>)
    requires
        v.len() == 32,
    ensures
        bytes32_decoding(bytes32_encoding(v)) == Some(v),
{
    lemma_hex_field_roundtrip(v, Seq::empty());
    assert(bytes32_encoding(v) + Seq::<u8>::empty() =~= bytes32_encoding(v));
}

/// A pair stored by `encode_pair` decodes to itself.
pub proof fn lemma_pair_roundtrip(a: Seq<u8>, b: Seq<u8>)
    requires
        a.len() == 32,
        b.len() == 32,
    ensures
        pair_decoding(pair_encoding(a, b)) == Some((a, b)),
{
    let e = pair_encoding(a, b);
    lemma_hex_field_roundtrip(a, bytes32_encoding(b));
    lemma_hex_field_roundtrip(b, Seq::empty());
    assert(e.subrange(72, e.len() as int) =~= bytes32_encoding(b) + Seq::<u8>::empty());
    assert(e =~= bytes32_encoding(a) + bytes32_encoding(b));
}

/// `n` as `k` little-endian bytes.
pub open spec fn le_bytes(n: nat, k: nat) -> Seq<u8>
    decreases k,
{
    if k == 0 {
        Seq::empty()
    } else {
        seq![(n % 256) as u8] + le_bytes(n / 256, (k - 1) as nat)
    }
}

/// The number that a byte string denotes when read little-endian.
pub open spec fn le_value(s: Seq<u8>) -> nat
    decreases s.len(),
{
    if s.len() == 0 {
        0
    } else {
        s[0] as nat + 256 * le_value(s.drop_first())
    }
}

/// The stored form of a byte string: its length as 8 little-endian bytes, then
/// the bytes.
pub open spec fn byte_string_encoding(v: Seq<u8>) -> Seq<u8> {
    le_bytes(v.len(), 8) + v
}

/// What decoding a stored byte string gives: the bytes after the 8-byte
/// length, as many as the length says, when there are that many.
pub open spec fn byte_string_decoding(b: Seq<u8>) -> Option<Seq<u8>> {
    if b.len() >= 8 && 8 + le_value(b.subrange(0, 8)) <= b.len() {
        Some(b.subrange(8, 8 + le_value(b.subrange(0, 8)) as int))
    } else {
        None
    }
}

/// `bincode::serialize` on a `fuel_tx::Contract` made of the bytes `v`. Its
/// derived `Serialize` writes it as the byte vector it wraps, which bincode
/// writes as its length, a `u64` in 8 little-endian bytes, followed by its
/// bytes; writing into a `Vec` does not fail.
#[verifier::external_body]
fn bincode_serialize_bytes(v: &[u8]) -> (r: Result<Vec<u8>, Box<bincode::ErrorKind>>)
    ensures
        r is Ok,
        r is Ok ==> r.unwrap()@ == byte_string_encoding(v@),
{
    bincode::serialize(&fuel_core_types::fuel_tx::Contract::from(v))
}

/// `bincode::deserialize::<fuel_tx::Contract>`, giving the bytes of the
/// contract. It reads an 8-byte little-endian length and then that many
/// bytes, accepting trailing bytes; it fails when the input is shorter.
#[verifier::external_body]
fn bincode_deserialize_bytes(bytes: &[u8]) -> (r: Result<Vec<u8>, Box<bincode::ErrorKind>>)
    ensures
        r is Ok <==> byte_string_decoding(bytes@) is Some,
        r is Ok ==> r.unwrap()@ == byte_string_decoding(bytes@).unwrap(),
{
    match bincode::deserialize::<fuel_core_types::fuel_tx::Contract>(bytes) {
        Ok(c) => Ok(c.into()),
        Err(e) => Err(e),
    }
}

/// Encodes a byte string for storage.
pub fn encode_byte_string(v: &[u8]) -> (r: Result<Vec<u8>, Error>)
    ensures
        r matches Ok(b) && b@ == byte_string_encoding(v@),
{
    match bincode_serialize_bytes(v) {
        Ok(b) => Ok(b),
        Err(_) => Err(Error::Codec),
    }
}

/// Decodes a stored byte string; `Error::Codec` when it is malformed.
pub fn decode_byte_string(bytes: &[u8]) -> (r: Result<Vec<u8>, Error>)
    ensures
        match byte_string_decoding(bytes@) {
            Some(v) => r matches Ok(a) && a@ == v,
            None => r matches Err(Error::Codec),
        },
{
    match bincode_deserialize_bytes(bytes) {
        Ok(a) => Ok(a),
        Err(_) => Err(Error::Codec),
    }
}

/// Reading back `k` little-endian bytes of a number that fits gives the number.
pub proof fn lemma_le_roundtrip(n: nat, k: nat)
    requires
        n < crate::bytes::pow256(k),
    ensures
        le_bytes(n, k).len() == k,
        le_value(le_bytes(n, k)) == n,
    decreases k,
{
    if k > 0 {
        let p = crate::bytes::pow256((k - 1) as nat);
        assert(n / 256 < p) by (nonlinear_arith)
            requires
                n < 256 * p,
        ;
        lemma_le_roundtrip(n / 256, (k - 1) as nat);
        let s = le_bytes(n, k);
        assert(s.drop_first() =~= le_bytes(n / 256, (k - 1) as nat));
        assert(n == n % 256 + 256 * (n / 256)) by (nonlinear_arith);
    }
}

/// A byte string stored by `encode_byte_string` decodes to itself.
pub proof fn lemma_byte_string_roundtrip(v: Seq<u8>)
    requires
        v.len() < crate::bytes::pow256(8),
    ensures
        byte_string_decoding(byte_string_encoding(v)) == Some(v),
{
    lemma_le_roundtrip(v.len(), 8);
    let b = byte_string_encoding(v);
    assert(b.subrange(0, 8) =~= le_bytes(v.len(), 8));
    assert(b.subrange(8, 8 + v.len() as int) =~= v);
}

} // verus!
