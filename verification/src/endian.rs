//! Fixed-width integers in a byte buffer, in either byte order.
//!
//! The spec functions say where each byte of a number lies. The executable
//! functions hand the work to the `byteorder` crate; their contracts are
//! taken on trust.

use byteorder::{BigEndian, ByteOrder, LittleEndian};
use vstd::prelude::*;

verus! {

/// The number whose four bytes lie at `at`, most significant byte first.
pub open spec fn be_u32_at(bytes: Seq<u8>, at: int) -> int {
    0x100_0000 * bytes[at] as int + 0x1_0000 * bytes[at + 1] as int + 0x100 * bytes[at + 2] as int
        + bytes[at + 3] as int
}

/// The number whose four bytes lie at `at`, least significant byte first.
pub open spec fn le_u32_at(bytes: Seq<u8>, at: int) -> int {
    bytes[at] as int + 0x100 * bytes[at + 1] as int + 0x1_0000 * bytes[at + 2] as int + 0x100_0000
        * bytes[at + 3] as int
}

/// The number whose two bytes lie at `at`, least significant byte first.
pub open spec fn le_u16_at(bytes: Seq<u8>, at: int) -> int {
    bytes[at] as int + 0x100 * bytes[at + 1] as int
}

/// The four bytes of `n`, most significant first.
pub open spec fn u32_be_bytes(n: int) -> Seq<u8> {
    seq![
        ((n / 0x100_0000) % 0x100) as u8,
        ((n / 0x1_0000) % 0x100) as u8,
        ((n / 0x100) % 0x100) as u8,
        (n % 0x100) as u8,
    ]
}

/// The four bytes of `n`, least significant first.
pub open spec fn u32_le_bytes(n: int) -> Seq<u8> {
    seq![
        (n % 0x100) as u8,
        ((n / 0x100) % 0x100) as u8,
        ((n / 0x1_0000) % 0x100) as u8,
        ((n / 0x100_0000) % 0x100) as u8,
    ]
}

/// The two bytes of `n`, least significant first.
pub open spec fn u16_le_bytes(n: int) -> Seq<u8> {
    seq![(n % 0x100) as u8, ((n / 0x100) % 0x100) as u8]
}

/// `byteorder::BigEndian::read_u32`: the number in the first four bytes of
/// `buf`, most significant byte first. The crate panics on a shorter buffer.
#[verifier::external_body]
pub(crate) fn read_u32_be(buf: &[u8]) -> (n: u32)
    requires
        buf@.len() >= 4,
    ensures
        n as int == be_u32_at(buf@, 0),
{
    BigEndian::read_u32(buf)
}

/// `byteorder::LittleEndian::read_u32`: the number in the first four bytes of
/// `buf`, least significant byte first. The crate panics on a shorter buffer.
#[verifier::external_body]
pub(crate) fn read_u32_le(buf: &[u8]) -> (n: u32)
    requires
        buf@.len() >= 4,
    ensures
        n as int == le_u32_at(buf@, 0),
{
    LittleEndian::read_u32(buf)
}

/// `byteorder::LittleEndian::read_u16`: the number in the first two bytes of
/// `buf`, least significant byte first. The crate panics on a shorter buffer.
#[verifier::external_body]
pub(crate) fn read_u16_le(buf: &[u8]) -> (n: u16)
    requires
        buf@.len() >= 2,
    ensures
        n as int == le_u16_at(buf@, 0),
{
    LittleEndian::read_u16(buf)
}

/// `byteorder::BigEndian::write_u32` into a buffer of four bytes: the bytes of
/// `n`, most significant first.
#[verifier::external_body]
pub(crate) fn write_u32_be(n: u32) -> (buf: [u8; 4])
    ensures
        buf@ == u32_be_bytes(n as int),
{
    let mut buf = [0u8; 4];
    BigEndian::write_u32(&mut buf, n);
    buf
}

/// `byteorder::LittleEndian::write_u32` into a buffer of four bytes: the bytes
/// of `n`, least significant first.
#[verifier::external_body]
pub(crate) fn write_u32_le(n: u32) -> (buf: [u8; 4])
    ensures
        buf@ == u32_le_bytes(n as int),
{
    let mut buf = [0u8; 4];
    LittleEndian::write_u32(&mut buf, n);
    buf
}

/// `byteorder::LittleEndian::write_u16` into a buffer of two bytes: the bytes
/// of `n`, least significant first.
#[verifier::external_body]
pub(crate) fn write_u16_le(n: u16) -> (buf: [u8; 2])
    ensures
        buf@ == u16_le_bytes(n as int),
{
    let mut buf = [0u8; 2];
    LittleEndian::write_u16(&mut buf, n);
    buf
}

/// Reading back what was written gives the number that was written.
pub proof fn lemma_read_written(n: int)
    requires
        0 <= n < 0x1_0000_0000,
    ensures
        be_u32_at(u32_be_bytes(n), 0) == n,
        le_u32_at(u32_le_bytes(n), 0) == n,
        n < 0x1_0000 ==> le_u16_at(u16_le_bytes(n), 0) == n,
{
    assert(n / 0x100 == (n / 0x1_0000) * 0x100 + (n / 0x100) % 0x100);
    assert(n / 0x1_0000 == (n / 0x100_0000) * 0x100 + (n / 0x1_0000) % 0x100);
    assert(n / 0x100_0000 < 0x100);
}

} // verus!
