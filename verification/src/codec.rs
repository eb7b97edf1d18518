//! Encoding of the numeric values used by `atomics::increment`.
//!
//! A stored value is a valid integer exactly when it is eight bytes long;
//! the bytes are the little-endian two's-complement representation of an
//! `i64`.

use vstd::prelude::*;

verus! {

/// The `u64` bit pattern of `n` (two's complement).
pub open spec fn bits_of_i64(n: i64) -> u64 {
    n as u64
}

/// The `i64` whose two's-complement bit pattern is `u`.
pub open spec fn i64_of_bits(u: u64) -> i64 {
    u as i64
}

/// The eight little-endian bytes of `u`.
pub open spec fn le_bytes_of_u64(u: u64) -> Seq<u8> {
    seq![
        (u & 0xff) as u8,
        ((u >> 8) & 0xff) as u8,
        ((u >> 16) & 0xff) as u8,
        ((u >> 24) & 0xff) as u8,
        ((u >> 32) & 0xff) as u8,
        ((u >> 40) & 0xff) as u8,
        ((u >> 48) & 0xff) as u8,
        ((u >> 56) & 0xff) as u8,
    ]
}

/// The `u64` read from eight little-endian bytes.
pub open spec fn u64_of_le_bytes(s: Seq<u8>) -> u64
    recommends
        s.len() == 8,
{
    (s[0] as u64) | ((s[1] as u64) << 8) | ((s[2] as u64) << 16) | ((s[3] as u64) << 24)
        | ((s[4] as u64) << 32) | ((s[5] as u64) << 40) | ((s[6] as u64) << 48)
        | ((s[7] as u64) << 56)
}

/// The stored byte string that represents the integer `n`.
pub open spec fn encode_i64(n: i64) -> Seq<u8> {
    le_bytes_of_u64(bits_of_i64(n))
}

/// The integer represented by a valid stored byte string.
pub open spec fn decode_i64(s: Seq<u8>) -> i64
    recommends
        s.len() == 8,
{
    i64_of_bits(u64_of_le_bytes(s))
}

/// A stored byte string is a valid integer representation exactly when it
/// is eight bytes long: every eight-byte string decodes to some `i64`.
pub open spec fn is_valid_i64(s: Seq<u8>) -> bool {
    s.len() == 8
}

/// Decoding inverts encoding: reading back the bytes written for `n`
/// yields `n` again.
pub proof fn lemma_codec_round_trip(n: i64)
    ensures
        is_valid_i64(encode_i64(n)),
        decode_i64(encode_i64(n)) == n,
{
    let u = bits_of_i64(n);
    assert((((u & 0xff) as u8) as u64) | (((((u >> 8) & 0xff) as u8) as u64) << 8)
        | (((((u >> 16) & 0xff) as u8) as u64) << 16) | (((((u >> 24) & 0xff) as u8) as u64) << 24)
        | (((((u >> 32) & 0xff) as u8) as u64) << 32) | (((((u >> 40) & 0xff) as u8) as u64) << 40)
        | (((((u >> 48) & 0xff) as u8) as u64) << 48) | (((((u >> 56) & 0xff) as u8) as u64) << 56)
        == u) by (bit_vector);
    assert(((n as u64) as i64) == n) by (bit_vector);
}

/// Turns `n` into the byte string under which `increment` stores it.
pub fn encode_value(n: i64) -> (r: Vec<u8>)
    ensures
        r@ == encode_i64(n),
{
    let u: u64 = #[verifier::truncate] (n as u64);
    let mut r: Vec<u8> = Vec::new();
    r.push(#[verifier::truncate] ((u & 0xff) as u8));
    r.push(#[verifier::truncate] (((u >> 8) & 0xff) as u8));
    r.push(#[verifier::truncate] (((u >> 16) & 0xff) as u8));
    r.push(#[verifier::truncate] (((u >> 24) & 0xff) as u8));
    r.push(#[verifier::truncate] (((u >> 32) & 0xff) as u8));
    r.push(#[verifier::truncate] (((u >> 40) & 0xff) as u8));
    r.push(#[verifier::truncate] (((u >> 48) & 0xff) as u8));
    r.push(#[verifier::truncate] (((u >> 56) & 0xff) as u8));
    proof {
        assert(r@ =~= encode_i64(n));
    }
    r
}

/// Reads the integer stored in `bytes`, or `None` where the byte string is
/// not a valid integer representation.
pub fn decode_value(bytes: &[u8]) -> (r: Option<i64>)
    ensures
        match r {
            Some(n) => is_valid_i64(bytes@) && n == decode_i64(bytes@),
            None => !is_valid_i64(bytes@),
        },
{
    if bytes.len() != 8 {
        return None;
    }
    let u: u64 = (bytes[0] as u64) | ((bytes[1] as u64) << 8) | ((bytes[2] as u64) << 16)
        | ((bytes[3] as u64) << 24) | ((bytes[4] as u64) << 32) | ((bytes[5] as u64) << 40)
        | ((bytes[6] as u64) << 48) | ((bytes[7] as u64) << 56);
    Some(#[verifier::truncate] (u as i64))
}

} // verus!
