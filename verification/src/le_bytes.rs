//! Little-endian integers in byte sequences.

use vstd::prelude::*;

verus! {

/// The little-endian 16-bit number stored in `bytes` from index `at` on.
pub open spec fn le16_at(bytes: Seq<u8>, at: int) -> int {
    bytes[at] + 0x100 * bytes[at + 1]
}

/// The little-endian 32-bit number stored in `bytes` from index `at` on.
pub open spec fn le32_at(bytes: Seq<u8>, at: int) -> int {
    bytes[at] + 0x100 * bytes[at + 1] + 0x1_0000 * bytes[at + 2] + 0x100_0000 * bytes[at + 3]
}

/// The two bytes of `value`, least significant first.
pub open spec fn le16_bytes(value: int) -> Seq<u8> {
    seq![(value % 0x100) as u8, (value / 0x100 % 0x100) as u8]
}

/// The four bytes of `value`, least significant first.
pub open spec fn le32_bytes(value: int) -> Seq<u8> {
    seq![
        (value % 0x100) as u8,
        (value / 0x100 % 0x100) as u8,
        (value / 0x1_0000 % 0x100) as u8,
        (value / 0x100_0000 % 0x100) as u8,
    ]
}

/// Reads the 16-bit number at `at`.
pub fn read_le16(bytes: &[u8], at: usize) -> (value: u16)
    requires
        at + 2 <= bytes@.len(),
    ensures
        value == le16_at(bytes@, at as int),
{
    bytes[at] as u16 + 0x100 * bytes[at + 1] as u16
}

/// Reads the 32-bit number at `at`.
pub fn read_le32(bytes: &[u8], at: usize) -> (value: u32)
    requires
        at + 4 <= bytes@.len(),
    ensures
        value == le32_at(bytes@, at as int),
{
    bytes[at] as u32 + 0x100 * bytes[at + 1] as u32 + 0x1_0000 * bytes[at + 2] as u32 + 0x100_0000
        * bytes[at + 3] as u32
}

/// Splits a 16-bit number into its bytes.
pub fn split_le16(value: u16) -> (bytes: [u8; 2])
    ensures
        bytes@ == le16_bytes(value as int),
{
    let bytes: [u8; 2] = [(value % 0x100) as u8, (value / 0x100) as u8];
    assert(bytes@ =~= le16_bytes(value as int));
    bytes
}

/// Splits a 32-bit number into its bytes.
pub fn split_le32(value: u32) -> (bytes: [u8; 4])
    ensures
        bytes@ == le32_bytes(value as int),
{
    let bytes: [u8; 4] = [
        (value % 0x100) as u8,
        (value / 0x100 % 0x100) as u8,
        (value / 0x1_0000 % 0x100) as u8,
        (value / 0x100_0000) as u8,
    ];
    assert(bytes@ =~= le32_bytes(value as int));
    bytes
}

/// A 16-bit number read back from its own bytes is unchanged, wherever the bytes lie.
pub proof fn law_le16_round_trip(bytes: Seq<u8>, at: int, value: int)
    requires
        0 <= value < 0x1_0000,
        0 <= at,
        at + 2 <= bytes.len(),
        bytes.subrange(at, at + 2) == le16_bytes(value),
    ensures
        le16_at(bytes, at) == value,
{
    assert(bytes[at] == bytes.subrange(at, at + 2)[0]);
    assert(bytes[at + 1] == bytes.subrange(at, at + 2)[1]);
}

/// A 32-bit number read back from its own bytes is unchanged, wherever the bytes lie.
pub proof fn law_le32_round_trip(bytes: Seq<u8>, at: int, value: int)
    requires
        0 <= value < 0x1_0000_0000,
        0 <= at,
        at + 4 <= bytes.len(),
        bytes.subrange(at, at + 4) == le32_bytes(value),
    ensures
        le32_at(bytes, at) == value,
{
    let part = bytes.subrange(at, at + 4);
    assert(bytes[at] == part[0] && bytes[at + 1] == part[1]);
    assert(bytes[at + 2] == part[2] && bytes[at + 3] == part[3]);
    assert(value / 0x1_0000 == value / 0x100 / 0x100);
    assert(value / 0x100_0000 == value / 0x1_0000 / 0x100);
}

/// The first of two bytes counts ones, the second one 256s.
pub proof fn law_le16_is_little_endian(bytes: Seq<u8>, at: int, value: int)
    requires
        0 <= value < 0x1_0000,
    ensures
        le16_at(bytes, at) % 0x100 == bytes[at],
        le16_at(bytes, at) / 0x100 == bytes[at + 1],
        le16_bytes(value).len() == 2,
        le16_bytes(value)[0] == value % 0x100,
        le16_bytes(value)[1] == value / 0x100,
{
}

/// Each of four bytes counts 256 times as much as the one before it.
pub proof fn law_le32_is_little_endian(bytes: Seq<u8>, at: int, value: int)
    requires
        0 <= value < 0x1_0000_0000,
    ensures
        le32_at(bytes, at) % 0x100 == bytes[at],
        le32_at(bytes, at) / 0x100 % 0x100 == bytes[at + 1],
        le32_at(bytes, at) / 0x1_0000 % 0x100 == bytes[at + 2],
        le32_at(bytes, at) / 0x100_0000 == bytes[at + 3],
        le32_bytes(value).len() == 4,
        le32_bytes(value)[0] == value % 0x100,
        le32_bytes(value)[1] == value / 0x100 % 0x100,
        le32_bytes(value)[2] == value / 0x1_0000 % 0x100,
        le32_bytes(value)[3] == value / 0x100_0000,
{
}

} // verus!
