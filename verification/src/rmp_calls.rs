//! The calls into `rmp`. Each function here hands the front of a byte slice
//! to one decoding function of that crate, through its `Bytes` reader, and
//! reports the result together with the number of bytes the reader has left.
//! Verus takes these contracts on trust; they restate what the crate's source
//! does on a `Bytes` reader, which does not move when it runs out of input.

use vstd::prelude::*;
use rmp::decode::{Bytes, DecodeStringError, ValueReadError};
use crate::error::DecodeError;
use crate::wire::{parse_f32, parse_i32, parse_i64, parse_map_len, parse_str, parse_u8};

verus! {

/// `rmp::decode::read_i32`: expects the marker 0xd2 and takes the four bytes
/// after it as a big-endian two's complement number.
#[verifier::external_body]
pub(crate) fn rmp_read_i32(input: &[u8]) -> (r: (Result<i32, DecodeError>, usize))
    ensures
        r.0 == parse_i32(input@).value,
        r.1 == input@.len() - parse_i32(input@).used,
{
    let mut rd = Bytes::new(input);
    let res = match rmp::decode::read_i32(&mut rd) {
        Ok(v) => Ok(v),
        Err(ValueReadError::TypeMismatch(m)) => Err(DecodeError::TypeMismatch(m.to_u8())),
        Err(_) => Err(DecodeError::Connection),
    };
    (res, rd.remaining_slice().len())
}

/// `rmp::decode::read_i64`: expects the marker 0xd3 and takes the eight bytes
/// after it as a big-endian two's complement number.
#[verifier::external_body]
pub(crate) fn rmp_read_i64(input: &[u8]) -> (r: (Result<i64, DecodeError>, usize))
    ensures
        r.0 == parse_i64(input@).value,
        r.1 == input@.len() - parse_i64(input@).used,
{
    let mut rd = Bytes::new(input);
    let res = match rmp::decode::read_i64(&mut rd) {
        Ok(v) => Ok(v),
        Err(ValueReadError::TypeMismatch(m)) => Err(DecodeError::TypeMismatch(m.to_u8())),
        Err(_) => Err(DecodeError::Connection),
    };
    (res, rd.remaining_slice().len())
}

/// `rmp::decode::read_u8`: expects the marker 0xcc and takes the byte after it.
#[verifier::external_body]
pub(crate) fn rmp_read_u8(input: &[u8]) -> (r: (Result<u8, DecodeError>, usize))
    ensures
        r.0 == parse_u8(input@).value,
        r.1 == input@.len() - parse_u8(input@).used,
{
    let mut rd = Bytes::new(input);
    let res = match rmp::decode::read_u8(&mut rd) {
        Ok(v) => Ok(v),
        Err(ValueReadError::TypeMismatch(m)) => Err(DecodeError::TypeMismatch(m.to_u8())),
        Err(_) => Err(DecodeError::Connection),
    };
    (res, rd.remaining_slice().len())
}

/// `rmp::decode::read_f32`: expects the marker 0xca and takes the four bytes
/// after it as the big-endian bit pattern of a float. The float is handed
/// back as that bit pattern, which `to_bits` recovers unchanged.
#[verifier::external_body]
pub(crate) fn rmp_read_f32(input: &[u8]) -> (r: (Result<u32, DecodeError>, usize))
    ensures
        r.0 == parse_f32(input@).value,
        r.1 == input@.len() - parse_f32(input@).used,
{
    let mut rd = Bytes::new(input);
    let res = match rmp::decode::read_f32(&mut rd) {
        Ok(v) => Ok(v.to_bits()),
        Err(ValueReadError::TypeMismatch(m)) => Err(DecodeError::TypeMismatch(m.to_u8())),
        Err(_) => Err(DecodeError::Connection),
    };
    (res, rd.remaining_slice().len())
}

/// `rmp::decode::read_map_len`: takes the length from a marker 0x80 to 0x8f,
/// or from the two bytes after 0xde, or from the four bytes after 0xdf.
#[verifier::external_body]
pub(crate) fn rmp_read_map_len(input: &[u8]) -> (r: (Result<u32, DecodeError>, usize))
    ensures
        r.0 == parse_map_len(input@).value,
        r.1 == input@.len() - parse_map_len(input@).used,
{
    let mut rd = Bytes::new(input);
    let res = match rmp::decode::read_map_len(&mut rd) {
        Ok(v) => Ok(v),
        Err(ValueReadError::TypeMismatch(m)) => Err(DecodeError::TypeMismatch(m.to_u8())),
        Err(_) => Err(DecodeError::Connection),
    };
    (res, rd.remaining_slice().len())
}

/// `rmp::decode::read_str` with a scratch buffer of `capacity` bytes: reads
/// the length header (a marker 0xa0 to 0xbf, or 0xd9, 0xda, 0xdb followed by
/// one, two or four length bytes), refuses a length above the buffer's,
/// copies that many bytes and checks them with `core::str::from_utf8`. The
/// string is handed back as an owned copy.
#[verifier::external_body]
pub(crate) fn rmp_read_str(input: &[u8], capacity: u32) -> (r: (Result<String, DecodeError>, usize))
    ensures
        match r.0 {
            Ok(text) => parse_str(capacity, input@).value == Ok::<Seq<char>, DecodeError>(text@),
            Err(e) => parse_str(capacity, input@).value == Err::<Seq<char>, DecodeError>(e),
        },
        r.1 == input@.len() - parse_str(capacity, input@).used,
{
    let mut rd = Bytes::new(input);
    let mut buf = vec![0u8; capacity as usize];
    let res = match rmp::decode::read_str(&mut rd, &mut buf) {
        Ok(text) => Ok(text.to_owned()),
        Err(DecodeStringError::TypeMismatch(m)) => Err(DecodeError::TypeMismatch(m.to_u8())),
        Err(DecodeStringError::BufferSizeTooSmall(n)) => Err(DecodeError::BufferTooSmall(n)),
        Err(DecodeStringError::InvalidUtf8(..)) => Err(DecodeError::InvalidEncoding),
        Err(_) => Err(DecodeError::Connection),
    };
    (res, rd.remaining_slice().len())
}

} // verus!
