//! The fixed-width lookup key of a record's key bytes.
use vstd::prelude::*;

verus! {

/// Byte `i` of `name`, or zero past its end.
pub open spec fn byte_or_zero(name: Seq<u8>, i: int) -> u8 {
    if 0 <= i < name.len() {
        name[i]
    } else {
        0
    }
}

/// Byte `i` of the encoded key: the first eight bytes of `name`, zero padded,
/// with the length of `name` (modulo 256) folded into the first by exclusive or.
pub open spec fn key_byte(name: Seq<u8>, i: int) -> u8 {
    if i == 0 {
        byte_or_zero(name, 0) ^ ((name.len() % 256) as u8)
    } else {
        byte_or_zero(name, i)
    }
}

/// The encoded key: its eight bytes read as a little-endian integer.
pub open spec fn key_code(name: Seq<u8>) -> int {
    key_byte(name, 0) + key_byte(name, 1) * 0x100 + key_byte(name, 2) * 0x1_0000 + key_byte(name, 3)
        * 0x100_0000 + key_byte(name, 4) * 0x1_0000_0000 + key_byte(name, 5) * 0x100_0000_0000
        + key_byte(name, 6) * 0x1_0000_0000_0000 + key_byte(name, 7) * 0x100_0000_0000_0000
}

fn byte_at(name: &[u8], i: usize) -> (r: u64)
    ensures
        r == byte_or_zero(name@, i as int),
{
    if i < name.len() {
        name[i] as u64
    } else {
        0
    }
}

/// Encodes `name` as a fixed-width integer for lookups. Names that differ in
/// their first eight bytes or in their length modulo 256 get different codes.
pub fn to_key(name: &[u8]) -> (r: u64)
    ensures
        r == key_code(name@),
{
    let first: u8 = byte_at(name, 0) as u8 ^ ((name.len() % 256) as u8);
    let r = first as u64 + byte_at(name, 1) * 0x100 + byte_at(name, 2) * 0x1_0000 + byte_at(name, 3)
        * 0x100_0000 + byte_at(name, 4) * 0x1_0000_0000 + byte_at(name, 5) * 0x100_0000_0000
        + byte_at(name, 6) * 0x1_0000_0000_0000 + byte_at(name, 7) * 0x100_0000_0000_0000;
    r
}

} // verus!
