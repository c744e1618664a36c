//! Little-endian integers as they lie in a page.
//!
//! The spec functions read and lay out integers byte by byte; the executable
//! conversions are zerocopy's byte-order types.

use vstd::prelude::*;

verus! {

/// The 16-bit little-endian integer that starts at position `p` of `s`.
pub open spec fn u16_at(s: Seq<u8>, p: int) -> int {
    s[p] + 256 * s[p + 1]
}

/// The 32-bit little-endian integer that starts at position `p` of `s`.
pub open spec fn u32_at(s: Seq<u8>, p: int) -> int {
    s[p] + 256 * s[p + 1] + 65536 * s[p + 2] + 16777216 * s[p + 3]
}

/// The 64-bit little-endian integer that starts at position `p` of `s`.
pub open spec fn u64_at(s: Seq<u8>, p: int) -> int {
    u32_at(s, p) + 4294967296 * u32_at(s, p + 4)
}

/// The two bytes of `x`, least significant first.
pub open spec fn u16_le(x: u16) -> Seq<u8> {
    seq![(x % 256) as u8, (x / 256) as u8]
}

/// The four bytes of `x`, least significant first.
pub open spec fn u32_le(x: u32) -> Seq<u8> {
    seq![
        (x % 256) as u8,
        (x / 256 % 256) as u8,
        (x / 65536 % 256) as u8,
        (x / 16777216) as u8,
    ]
}

/// The eight bytes of `x`, least significant first.
pub open spec fn u64_le(x: u64) -> Seq<u8> {
    u32_le((x % 4294967296) as u32) + u32_le((x / 4294967296) as u32)
}

/// Reading back what `u16_le` laid out gives the integer again.
pub proof fn lemma_u16_round_trip(x: u16)
    ensures
        u16_le(x).len() == 2,
        u16_at(u16_le(x), 0) == x,
{
}

/// Reading back what `u32_le` laid out gives the integer again.
pub proof fn lemma_u32_round_trip(x: u32)
    ensures
        u32_le(x).len() == 4,
        u32_at(u32_le(x), 0) == x,
{
}

/// Reading back what `u64_le` laid out gives the integer again.
pub proof fn lemma_u64_round_trip(x: u64)
    ensures
        u64_le(x).len() == 8,
        u64_at(u64_le(x), 0) == x,
{
    let lo = (x % 4294967296) as u32;
    let hi = (x / 4294967296) as u32;
    lemma_u32_round_trip(lo);
    lemma_u32_round_trip(hi);
    let s = u64_le(x);
    assert(u32_at(s, 0) == u32_at(u32_le(lo), 0));
    assert(u32_at(s, 4) == u32_at(u32_le(hi), 0));
}

/// `zerocopy::little_endian::U16::get`, on what `U16::from_bytes` makes of
/// `bytes`: the value of the two bytes read least significant first.
#[verifier::external_body]
pub(crate) fn u16_from_le(bytes: [u8; 2]) -> (x: u16)
    ensures
        x == u16_at(bytes@, 0),
{
    zerocopy::little_endian::U16::from_bytes(bytes).get()
}

/// `zerocopy::little_endian::U16::new`, and `U16::to_bytes` on what it
/// makes: the stored form of `x` is its two bytes, least significant first.
#[verifier::external_body]
pub(crate) fn u16_to_le(x: u16) -> (bytes: [u8; 2])
    ensures
        bytes@ == u16_le(x),
{
    zerocopy::little_endian::U16::new(x).to_bytes()
}

/// `zerocopy::little_endian::U32::get`, on what `U32::from_bytes` makes of
/// `bytes`: the value of the four bytes read least significant first.
#[verifier::external_body]
pub(crate) fn u32_from_le(bytes: [u8; 4]) -> (x: u32)
    ensures
        x == u32_at(bytes@, 0),
{
    zerocopy::little_endian::U32::from_bytes(bytes).get()
}

/// `zerocopy::little_endian::U32::new`, and `U32::to_bytes` on what it
/// makes: the stored form of `x` is its four bytes, least significant first.
#[verifier::external_body]
pub(crate) fn u32_to_le(x: u32) -> (bytes: [u8; 4])
    ensures
        bytes@ == u32_le(x),
{
    zerocopy::little_endian::U32::new(x).to_bytes()
}

/// `zerocopy::little_endian::U64::get`, on what `U64::from_bytes` makes of
/// `bytes`: the value of the eight bytes read least significant first.
#[verifier::external_body]
pub(crate) fn u64_from_le(bytes: [u8; 8]) -> (x: u64)
    ensures
        x == u64_at(bytes@, 0),
{
    zerocopy::little_endian::U64::from_bytes(bytes).get()
}

/// `zerocopy::little_endian::U64::new`, and `U64::to_bytes` on what it
/// makes: the stored form of `x` is its eight bytes, least significant first.
#[verifier::external_body]
pub(crate) fn u64_to_le(x: u64) -> (bytes: [u8; 8])
    ensures
        bytes@ == u64_le(x),
{
    zerocopy::little_endian::U64::new(x).to_bytes()
}

} // verus!
