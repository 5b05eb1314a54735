//! Decoding of big-endian scalars from byte buffers.

use vstd::prelude::*;
use crate::error::Error;

verus! {

/// The unsigned number that the first eight bytes of `bytes` spell,
/// most significant byte first.
pub open spec fn be_u64(bytes: Seq<u8>) -> int
    recommends
        bytes.len() >= 8,
{
    bytes[0] * 0x0100_0000_0000_0000 + bytes[1] * 0x0001_0000_0000_0000 + bytes[2]
        * 0x0000_0100_0000_0000 + bytes[3] * 0x0000_0001_0000_0000 + bytes[4] * 0x0000_0000_0100_0000
        + bytes[5] * 0x0000_0000_0001_0000 + bytes[6] * 0x0000_0000_0000_0100 + bytes[7]
}

/// The signed number that the first eight bytes of `bytes` spell in
/// two's complement, most significant byte first.
pub open spec fn be_i64(bytes: Seq<u8>) -> int
    recommends
        bytes.len() >= 8,
{
    if be_u64(bytes) >= 0x8000_0000_0000_0000 {
        be_u64(bytes) - 0x1_0000_0000_0000_0000
    } else {
        be_u64(bytes)
    }
}

/// The truth value that the first byte of `bytes` spells: zero is false,
/// every other byte is true.
pub open spec fn be_bool(bytes: Seq<u8>) -> bool
    recommends
        bytes.len() >= 1,
{
    bytes[0] != 0
}

/// Reads a `u64` from the first eight bytes of `buf`.
pub fn decode_be_u64(buf: &[u8]) -> (r: Result<u64, Error>)
    ensures
        buf@.len() < 8 ==> r == Err::<u64, Error>(Error::DecodeErr),
        buf@.len() >= 8 ==> r == Ok::<u64, Error>(be_u64(buf@) as u64),
{
    if buf.len() < 8 {
        return Err(Error::DecodeErr);
    }
    let b0: u64 = buf[0] as u64;
    let b1: u64 = buf[1] as u64;
    let b2: u64 = buf[2] as u64;
    let b3: u64 = buf[3] as u64;
    let b4: u64 = buf[4] as u64;
    let b5: u64 = buf[5] as u64;
    let b6: u64 = buf[6] as u64;
    let b7: u64 = buf[7] as u64;
    Ok(
        b0 * 0x0100_0000_0000_0000 + b1 * 0x0001_0000_0000_0000 + b2 * 0x0000_0100_0000_0000 + b3
            * 0x0000_0001_0000_0000 + b4 * 0x0000_0000_0100_0000 + b5 * 0x0000_0000_0001_0000 + b6
            * 0x0000_0000_0000_0100 + b7,
    )
}

/// Reads an `i64` from the first eight bytes of `buf`.
pub fn decode_be_i64(buf: &[u8]) -> (r: Result<i64, Error>)
    ensures
        buf@.len() < 8 ==> r == Err::<i64, Error>(Error::DecodeErr),
        buf@.len() >= 8 ==> r == Ok::<i64, Error>(be_i64(buf@) as i64),
{
    match decode_be_u64(buf) {
        Ok(u) => {
            if u >= 0x8000_0000_0000_0000 {
                let low: i64 = (u - 0x8000_0000_0000_0000) as i64;
                Ok(low + i64::MIN)
            } else {
                Ok(u as i64)
            }
        },
        Err(e) => Err(e),
    }
}

/// Reads a `bool` from the first byte of `buf`.
pub fn decode_be_bool(buf: &[u8]) -> (r: Result<bool, Error>)
    ensures
        buf@.len() < 1 ==> r == Err::<bool, Error>(Error::DecodeErr),
        buf@.len() >= 1 ==> r == Ok::<bool, Error>(be_bool(buf@)),
{
    if buf.len() < 1 {
        return Err(Error::DecodeErr);
    }
    Ok(buf[0] != 0)
}

} // verus!
