//! Serialization of chain keys and successor lists, and the fixed-width
//! big-endian encoding of order numbers used to name the per-order tables.

use vstd::prelude::*;
use crate::token::seq_views;

verus! {

/// The bytes that the binary codec produces for a list of tokens. The
/// encoding is a deterministic function of the list alone.
pub uninterp spec fn enc_tokens(ts: Seq<Seq<char>>) -> Seq<u8>;

/// The list of tokens that the binary codec reads back from a byte string,
/// if it parses. The result is a function of the bytes alone.
pub uninterp spec fn dec_tokens(b: Seq<u8>) -> Option<Seq<Seq<char>>>;

/// The UTF-8 bytes of a character sequence, a function of the characters
/// alone.
pub uninterp spec fn utf8_of(s: Seq<char>) -> Seq<u8>;

/// Relies on bincode::serialize for `Vec<String>`: a deterministic encoding
/// of the list, read back exactly by bincode::deserialize. With the default
/// unlimited size configuration, serializing a vector of strings cannot
/// fail.
#[verifier::external_body]
pub(crate) fn encode_tokens(v: &Vec<String>) -> (r: Vec<u8>)
    ensures
        r@ == enc_tokens(seq_views(v@)),
        dec_tokens(r@) == Some(seq_views(v@)),
{
    bincode::serialize(v).unwrap()
}

/// Relies on bincode::deserialize for `Vec<String>`: the result depends on
/// the bytes alone; a parse error becomes `None`.
#[verifier::external_body]
pub(crate) fn decode_tokens(b: &[u8]) -> (r: Option<Vec<String>>)
    ensures
        match r {
            Some(v) => dec_tokens(b@) == Some(seq_views(v@)),
            None => dec_tokens(b@) is None,
        },
{
    bincode::deserialize::<Vec<String>>(b).ok()
}

/// Relies on str::as_bytes: the UTF-8 encoding of the string.
#[verifier::external_body]
pub(crate) fn utf8_bytes(s: &str) -> (r: Vec<u8>)
    ensures
        r@ == utf8_of(s@),
{
    s.as_bytes().to_vec()
}

/// Relies on String::from_utf8: accepts exactly the byte strings that are
/// the UTF-8 encoding of some string, and returns that string.
#[verifier::external_body]
pub(crate) fn string_from_utf8(b: Vec<u8>) -> (r: Option<String>)
    ensures
        r matches Some(s) ==> utf8_of(s@) == b@,
{
    String::from_utf8(b).ok()
}

/// The four big-endian bytes of a 32-bit order number.
pub open spec fn be_bytes_of_u32(x: u32) -> Seq<u8> {
    seq![
        (x / 0x1000000) as u8,
        ((x / 0x10000) % 0x100) as u8,
        ((x / 0x100) % 0x100) as u8,
        (x % 0x100) as u8,
    ]
}

/// The 32-bit number read from four big-endian bytes.
pub open spec fn u32_of_be_bytes(b: Seq<u8>) -> u32
    recommends
        b.len() == 4,
{
    (b[0] * 0x1000000 + b[1] * 0x10000 + b[2] * 0x100 + b[3]) as u32
}

/// The big-endian encoding round-trips.
pub proof fn lemma_be_bytes_roundtrip(x: u32)
    ensures
        u32_of_be_bytes(be_bytes_of_u32(x)) == x,
{
    let b = be_bytes_of_u32(x);
    assert(b[0] == (x / 0x1000000) as u8);
    assert(b[1] == ((x / 0x10000) % 0x100) as u8);
    assert(b[2] == ((x / 0x100) % 0x100) as u8);
    assert(b[3] == (x % 0x100) as u8);
    assert((x / 0x1000000) * 0x1000000 + ((x / 0x10000) % 0x100) * 0x10000 + ((x / 0x100) % 0x100)
        * 0x100 + (x % 0x100) == x) by (nonlinear_arith);
}

/// Write an order number as its four big-endian bytes.
pub fn u32_to_be(x: u32) -> (r: Vec<u8>)
    ensures
        r@ == be_bytes_of_u32(x),
{
    let mut r: Vec<u8> = Vec::new();
    r.push((x / 0x1000000) as u8);
    r.push(((x / 0x10000) % 0x100) as u8);
    r.push(((x / 0x100) % 0x100) as u8);
    r.push((x % 0x100) as u8);
    proof {
        assert(r@ =~= be_bytes_of_u32(x));
    }
    r
}

/// Read an order number from four big-endian bytes.
pub fn be_to_u32(b: &Vec<u8>) -> (r: Option<u32>)
    ensures
        b@.len() == 4 ==> r == Some(u32_of_be_bytes(b@)),
        b@.len() != 4 ==> r is None,
{
    if b.len() != 4 {
        return None;
    }
    let r: u32 = (b[0] as u32) * 0x1000000 + (b[1] as u32) * 0x10000 + (b[2] as u32) * 0x100 + (
    b[3] as u32);
    proof {
        assert(r == u32_of_be_bytes(b@));
    }
    Some(r)
}

} // verus!
