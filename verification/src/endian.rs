//! Big-endian integers on the wire.
//!
//! The layout is stated once, as spec functions on byte sequences.  Reading
//! and writing is done by the `byteorder` crate; the contracts below say that
//! its `BigEndian` routines, and the standard library's `to_be_bytes`,
//! implement that layout, and are not proved.

use byteorder::{BigEndian, ByteOrder};
use vstd::prelude::*;

verus! {

/// The value of two bytes read as a big-endian unsigned integer.
pub open spec fn be_u16(bytes: Seq<u8>) -> int
    recommends
        bytes.len() >= 2,
{
    bytes[0] * 0x100 + bytes[1]
}

/// The value of four bytes read as a big-endian unsigned integer.
pub open spec fn be_u32(bytes: Seq<u8>) -> int
    recommends
        bytes.len() >= 4,
{
    bytes[0] * 0x100_0000 + bytes[1] * 0x1_0000 + bytes[2] * 0x100 + bytes[3]
}

/// The value of four bytes read as a big-endian two's complement integer.
pub open spec fn be_i32(bytes: Seq<u8>) -> int
    recommends
        bytes.len() >= 4,
{
    if be_u32(bytes) >= 0x8000_0000 {
        be_u32(bytes) - 0x1_0000_0000
    } else {
        be_u32(bytes)
    }
}

/// The two bytes that hold `value` in big-endian order.
pub open spec fn u16_be(value: u16) -> Seq<u8> {
    seq![(value / 0x100) as u8, (value % 0x100) as u8]
}

/// The four bytes that hold `value` in big-endian order.
pub open spec fn u32_be(value: u32) -> Seq<u8> {
    seq![
        (value / 0x100_0000) as u8,
        (value / 0x1_0000 % 0x100) as u8,
        (value / 0x100 % 0x100) as u8,
        (value % 0x100) as u8,
    ]
}

/// The four bytes that hold `value` in big-endian two's complement.
pub open spec fn i32_be(value: i32) -> Seq<u8> {
    if value < 0 {
        u32_be((value + 0x1_0000_0000) as u32)
    } else {
        u32_be(value as u32)
    }
}

/// Reading back what was written gives the value, whatever follows it.
pub proof fn lemma_u16_round_trip(value: u16, rest: Seq<u8>)
    ensures
        u16_be(value).len() == 2,
        be_u16(u16_be(value) + rest) == value,
{
}

/// Writing what was read gives the two bytes back.
pub proof fn lemma_u16_bytes_round_trip(bytes: Seq<u8>)
    requires
        bytes.len() >= 2,
    ensures
        0 <= be_u16(bytes) <= u16::MAX,
        u16_be(be_u16(bytes) as u16) == bytes.take(2),
{
    assert(u16_be(be_u16(bytes) as u16) =~= bytes.take(2));
}

/// Reading back what was written gives the value, whatever follows it.
pub proof fn lemma_u32_round_trip(value: u32, rest: Seq<u8>)
    ensures
        u32_be(value).len() == 4,
        be_u32(u32_be(value) + rest) == value,
{
}

/// Writing what was read gives the four bytes back.
#[verifier::rlimit(50)]
pub proof fn lemma_u32_bytes_round_trip(bytes: Seq<u8>)
    requires
        bytes.len() >= 4,
    ensures
        0 <= be_u32(bytes) <= u32::MAX,
        u32_be(be_u32(bytes) as u32) == bytes.take(4),
{
    let b0: int = bytes[0] as int;
    let b1: int = bytes[1] as int;
    let b2: int = bytes[2] as int;
    let b3: int = bytes[3] as int;
    let low: int = b1 * 0x1_0000 + b2 * 0x100 + b3;
    let value: int = b0 * 0x100_0000 + low;
    assert(0 <= low < 0x100_0000);
    assert(value / 0x100_0000 == b0);
    assert(value / 0x1_0000 == b0 * 0x100 + b1);
    assert(value / 0x100 == b0 * 0x1_0000 + b1 * 0x100 + b2);
    assert(value % 0x100 == b3);
    assert((b0 * 0x100 + b1) % 0x100 == b1);
    assert((b0 * 0x1_0000 + b1 * 0x100 + b2) % 0x100 == b2);
    assert(u32_be(value as u32) =~= bytes.take(4));
}

/// Reading back what was written gives the value, whatever follows it.
pub proof fn lemma_i32_round_trip(value: i32, rest: Seq<u8>)
    ensures
        i32_be(value).len() == 4,
        be_i32(i32_be(value) + rest) == value,
{
    if value < 0 {
        lemma_u32_round_trip((value + 0x1_0000_0000) as u32, rest);
    } else {
        lemma_u32_round_trip(value as u32, rest);
    }
}

/// `BigEndian::read_u16`: the first two bytes of `buf` as a big-endian
/// integer.  It panics on a shorter slice, which the precondition rules out.
#[verifier::external_body]
pub(crate) fn read_u16(buf: &[u8]) -> (value: u16)
    requires
        buf@.len() >= 2,
    ensures
        value == be_u16(buf@),
{
    BigEndian::read_u16(buf)
}

/// `BigEndian::read_u32`: the first four bytes of `buf` as a big-endian
/// integer.  It panics on a shorter slice, which the precondition rules out.
#[verifier::external_body]
pub(crate) fn read_u32(buf: &[u8]) -> (value: u32)
    requires
        buf@.len() >= 4,
    ensures
        value == be_u32(buf@),
{
    BigEndian::read_u32(buf)
}

/// `BigEndian::read_i32`: the first four bytes of `buf` as a big-endian
/// two's complement integer.  It panics on a shorter slice, which the
/// precondition rules out.
#[verifier::external_body]
pub(crate) fn read_i32(buf: &[u8]) -> (value: i32)
    requires
        buf@.len() >= 4,
    ensures
        value == be_i32(buf@),
{
    BigEndian::read_i32(buf)
}

/// `BigEndian::write_u16` into a fresh two-byte array.
#[verifier::external_body]
pub(crate) fn write_u16(value: u16) -> (bytes: [u8; 2])
    ensures
        bytes@ == u16_be(value),
{
    let mut bytes = [0u8; 2];
    BigEndian::write_u16(&mut bytes, value);
    bytes
}

/// `BigEndian::write_u32` into a fresh four-byte array.
#[verifier::external_body]
pub(crate) fn write_u32(value: u32) -> (bytes: [u8; 4])
    ensures
        bytes@ == u32_be(value),
{
    let mut bytes = [0u8; 4];
    BigEndian::write_u32(&mut bytes, value);
    bytes
}

/// `i32::to_be_bytes`: the four bytes of `value` in big-endian two's
/// complement.
#[verifier::external_body]
pub(crate) fn i32_to_be_bytes(value: i32) -> (bytes: [u8; 4])
    ensures
        bytes@ == i32_be(value),
{
    value.to_be_bytes()
}

} // verus!
