//! Little-endian integers as they stand in a filter snapshot, decoded and
//! encoded by the `byteorder` crate.

use vstd::prelude::*;
use byteorder::{ByteOrder, LittleEndian};

verus! {

/// The unsigned integer whose little-endian encoding is the first 4 bytes of
/// `s`.
pub open spec fn le_u32(s: Seq<u8>) -> int {
    s[0] as int + 0x100 * (s[1] as int) + 0x1_0000 * (s[2] as int) + 0x100_0000 * (s[3] as int)
}

/// The two's-complement signed integer whose little-endian encoding is the
/// first 4 bytes of `s`.
pub open spec fn le_i32(s: Seq<u8>) -> int {
    if le_u32(s) < 0x8000_0000 {
        le_u32(s)
    } else {
        le_u32(s) - 0x1_0000_0000
    }
}

/// The unsigned integer whose little-endian encoding is the first 8 bytes of
/// `s`.
pub open spec fn le_u64(s: Seq<u8>) -> int {
    le_u32(s) + 0x1_0000_0000 * le_u32(s.subrange(4, 8))
}

/// The 4 bytes that encode `x`, `0 <= x < 2^32`, least significant first.
pub open spec fn u32_le_bytes(x: int) -> Seq<u8> {
    seq![
        (x % 0x100) as u8,
        (x / 0x100 % 0x100) as u8,
        (x / 0x1_0000 % 0x100) as u8,
        (x / 0x100_0000 % 0x100) as u8,
    ]
}

/// The 4 bytes that encode the signed `x` in two's complement, least
/// significant first.
pub open spec fn i32_le_bytes(x: int) -> Seq<u8> {
    u32_le_bytes(if x >= 0 { x } else { x + 0x1_0000_0000 })
}

/// The 8 bytes that encode `x`, `0 <= x < 2^64`, least significant first.
pub open spec fn u64_le_bytes(x: int) -> Seq<u8> {
    u32_le_bytes(x % 0x1_0000_0000) + u32_le_bytes(x / 0x1_0000_0000)
}

/// Decodes a signed 32-bit integer by `byteorder`'s
/// `<LittleEndian as ByteOrder>::read_i32`, which reads the first 4 bytes of
/// the buffer as a little-endian two's-complement number and panics on a
/// shorter buffer.
#[verifier::external_body]
pub(crate) fn read_i32_le(buf: &[u8]) -> (v: i32)
    requires
        buf@.len() >= 4,
    ensures
        v == le_i32(buf@),
{
    LittleEndian::read_i32(buf)
}

/// Decodes an unsigned 64-bit integer by `byteorder`'s
/// `<LittleEndian as ByteOrder>::read_u64`, which reads the first 8 bytes of
/// the buffer as a little-endian number and panics on a shorter buffer.
#[verifier::external_body]
pub(crate) fn read_u64_le(buf: &[u8]) -> (v: u64)
    requires
        buf@.len() >= 8,
    ensures
        v == le_u64(buf@),
{
    LittleEndian::read_u64(buf)
}

/// Encodes a signed 32-bit integer by `byteorder`'s
/// `<LittleEndian as ByteOrder>::write_i32`, which fills the first 4 bytes of
/// the buffer with the little-endian two's-complement encoding.
#[verifier::external_body]
pub(crate) fn write_i32_le(v: i32) -> (out: [u8; 4])
    ensures
        out@ == i32_le_bytes(v as int),
{
    let mut buf = [0u8; 4];
    LittleEndian::write_i32(&mut buf, v);
    buf
}

/// Encodes an unsigned 64-bit integer by `byteorder`'s
/// `<LittleEndian as ByteOrder>::write_u64`, which fills the first 8 bytes of
/// the buffer with the little-endian encoding.
#[verifier::external_body]
pub(crate) fn write_u64_le(v: u64) -> (out: [u8; 8])
    ensures
        out@ == u64_le_bytes(v as int),
{
    let mut buf = [0u8; 8];
    LittleEndian::write_u64(&mut buf, v);
    buf
}

/// Decoding undoes encoding, for unsigned 32-bit integers.
pub proof fn lemma_u32_round_trip(x: int)
    requires
        0 <= x < 0x1_0000_0000,
    ensures
        u32_le_bytes(x).len() == 4,
        le_u32(u32_le_bytes(x)) == x,
{
}

/// Decoding undoes encoding, for signed 32-bit integers.
pub proof fn lemma_i32_round_trip(x: int)
    requires
        -0x8000_0000 <= x < 0x8000_0000,
    ensures
        i32_le_bytes(x).len() == 4,
        le_i32(i32_le_bytes(x)) == x,
{
    lemma_u32_round_trip(if x >= 0 { x } else { x + 0x1_0000_0000 });
}

/// Decoding undoes encoding, for unsigned 64-bit integers.
pub proof fn lemma_u64_round_trip(x: int)
    requires
        0 <= x < 0x1_0000_0000_0000_0000,
    ensures
        u64_le_bytes(x).len() == 8,
        le_u64(u64_le_bytes(x)) == x,
{
    let lo = x % 0x1_0000_0000;
    let hi = x / 0x1_0000_0000;
    let bytes = u64_le_bytes(x);
    lemma_u32_round_trip(lo);
    lemma_u32_round_trip(hi);
    assert(bytes.subrange(4, 8) =~= u32_le_bytes(hi));
    assert(le_u32(bytes) == le_u32(u32_le_bytes(lo))) by {
        assert(bytes[0] == u32_le_bytes(lo)[0]);
        assert(bytes[1] == u32_le_bytes(lo)[1]);
        assert(bytes[2] == u32_le_bytes(lo)[2]);
        assert(bytes[3] == u32_le_bytes(lo)[3]);
    }
}

} // verus!
