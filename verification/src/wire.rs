//! Big-endian integers at the front of a byte slice.

use byteorder::{BigEndian, ReadBytesExt};
use vstd::prelude::*;

verus! {

/// The big-endian value of two bytes.
pub open spec fn be16(hi: u8, lo: u8) -> int {
    hi * 0x100 + lo
}

/// The big-endian value of four bytes.
pub open spec fn be32(b3: u8, b2: u8, b1: u8, b0: u8) -> int {
    b3 * 0x100_0000 + b2 * 0x1_0000 + b1 * 0x100 + b0
}

/// `byteorder::ReadBytesExt::read_u8` on a slice: takes the first byte off the
/// front of the slice, and fails if there is none. What is left of the slice
/// after a failure is not stated.
#[verifier::external_body]
pub(crate) fn read_u8(input: &mut &[u8]) -> (r: Result<u8, std::io::Error>)
    ensures
        r is Ok <==> old(input)@.len() >= 1,
        r matches Ok(v) ==> v == old(input)@[0],
        r is Ok ==> final(input)@ == old(input)@.skip(1),
{
    input.read_u8()
}

/// `byteorder::ReadBytesExt::read_u16` with `BigEndian`, on a slice: takes the
/// first two bytes off the front of the slice and returns their big-endian value,
/// and fails if there are fewer. What is left of the slice after a failure is not
/// stated.
#[verifier::external_body]
pub(crate) fn read_u16(input: &mut &[u8]) -> (r: Result<u16, std::io::Error>)
    ensures
        r is Ok <==> old(input)@.len() >= 2,
        r matches Ok(v) ==> v == be16(old(input)@[0], old(input)@[1]),
        r is Ok ==> final(input)@ == old(input)@.skip(2),
{
    input.read_u16::<BigEndian>()
}

/// `byteorder::ReadBytesExt::read_u32` with `BigEndian`, on a slice: takes the
/// first four bytes off the front of the slice and returns their big-endian value,
/// and fails if there are fewer. What is left of the slice after a failure is not
/// stated.
#[verifier::external_body]
pub(crate) fn read_u32(input: &mut &[u8]) -> (r: Result<u32, std::io::Error>)
    ensures
        r is Ok <==> old(input)@.len() >= 4,
        r matches Ok(v) ==> v == be32(
            old(input)@[0],
            old(input)@[1],
            old(input)@[2],
            old(input)@[3],
        ),
        r is Ok ==> final(input)@ == old(input)@.skip(4),
{
    input.read_u32::<BigEndian>()
}

} // verus!
