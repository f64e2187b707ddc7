//! Little-endian integers in byte buffers.
//!
//! The integers of an index file are written and read by the `byteorder`
//! crate. Verus does not look into that crate: the contracts of this module's
//! `external_body` functions are taken on trust from its documentation.

use byteorder::{LittleEndian, ReadBytesExt, WriteBytesExt};
use vstd::bytes::{
    spec_u32_from_le_bytes, spec_u32_to_le_bytes, spec_u64_from_le_bytes, spec_u64_to_le_bytes,
};
use vstd::prelude::*;

verus! {

/// The error type of `std::io`, which `byteorder` hands back when a read falls short.
#[verifier::external_type_specification]
#[verifier::external_body]
pub struct ExIoError(std::io::Error);

/// `byteorder::WriteBytesExt::write_u32::<LittleEndian>` on a byte vector.
///
/// Trusted: the call appends the four bytes of `n`, lowest first, and nothing
/// else. Writing to a vector cannot fail.
#[verifier::external_body]
pub(crate) fn write_u32(buf: &mut Vec<u8>, n: u32)
    ensures
        final(buf)@ == old(buf)@ + spec_u32_to_le_bytes(n),
{
    buf.write_u32::<LittleEndian>(n).unwrap()
}

/// `byteorder::WriteBytesExt::write_u64::<LittleEndian>` on a byte vector.
///
/// Trusted: the call appends the eight bytes of `n`, lowest first, and nothing
/// else. Writing to a vector cannot fail.
#[verifier::external_body]
pub(crate) fn write_u64(buf: &mut Vec<u8>, n: u64)
    ensures
        final(buf)@ == old(buf)@ + spec_u64_to_le_bytes(n),
{
    buf.write_u64::<LittleEndian>(n).unwrap()
}

/// `byteorder::ReadBytesExt::read_u32::<LittleEndian>` on a byte slice.
///
/// Trusted: the call succeeds exactly when the slice holds four bytes or more,
/// and then gives the integer whose little-endian form the first four are.
#[verifier::external_body]
pub(crate) fn read_u32(bytes: &[u8]) -> (r: Result<u32, std::io::Error>)
    ensures
        r is Ok <==> bytes@.len() >= 4,
        r matches Ok(n) ==> n == spec_u32_from_le_bytes(bytes@.subrange(0, 4)),
{
    let mut rest = bytes;
    rest.read_u32::<LittleEndian>()
}

/// `byteorder::ReadBytesExt::read_u64::<LittleEndian>` on a byte slice.
///
/// Trusted: the call succeeds exactly when the slice holds eight bytes or
/// more, and then gives the integer whose little-endian form the first eight
/// are.
#[verifier::external_body]
pub(crate) fn read_u64(bytes: &[u8]) -> (r: Result<u64, std::io::Error>)
    ensures
        r is Ok <==> bytes@.len() >= 8,
        r matches Ok(n) ==> n == spec_u64_from_le_bytes(bytes@.subrange(0, 8)),
{
    let mut rest = bytes;
    rest.read_u64::<LittleEndian>()
}

} // verus!
