//! The wire encoding of single values: what a read makes of the bytes in
//! front of it, stated over byte sequences.
//!
//! Every value starts with a marker byte that names its type. A read that
//! expects one type and finds the marker of another fails with that marker,
//! having used up the marker byte and nothing else.

use vstd::prelude::*;
use vstd::utf8::{decode_utf8, valid_utf8};
use crate::error::DecodeError;

verus! {

/// The reserved marker that closes a message.
pub const EOM: u8 = 0xc1;

/// Marker of a 32-bit float.
pub const MARKER_F32: u8 = 0xca;

/// Marker of an unsigned 8-bit integer.
pub const MARKER_U8: u8 = 0xcc;

/// Marker of a signed 32-bit integer.
pub const MARKER_I32: u8 = 0xd2;

/// Marker of a signed 64-bit integer.
pub const MARKER_I64: u8 = 0xd3;

/// Marker of a string whose length is given in one byte.
pub const MARKER_STR8: u8 = 0xd9;

/// Marker of a string whose length is given in two bytes.
pub const MARKER_STR16: u8 = 0xda;

/// Marker of a string whose length is given in four bytes.
pub const MARKER_STR32: u8 = 0xdb;

/// Marker of a map whose length is given in two bytes.
pub const MARKER_MAP16: u8 = 0xde;

/// Marker of a map whose length is given in four bytes.
pub const MARKER_MAP32: u8 = 0xdf;

/// Lowest marker of a string of fewer than 32 bytes; the length is added to it.
pub const FIXSTR_BASE: u8 = 0xa0;

/// Lowest marker of a map of fewer than 16 entries; the length is added to it.
pub const FIXMAP_BASE: u8 = 0x80;

/// What one read yields: the value or the failure, and how many bytes of the
/// input the read used up.
pub struct Outcome<T> {
    pub value: Result<T, DecodeError>,
    pub used: nat,
}

/// The unsigned number that two bytes spell, most significant byte first.
pub open spec fn be16(b: Seq<u8>) -> int {
    b[0] * 0x100 + b[1]
}

/// The unsigned number that four bytes spell, most significant byte first.
pub open spec fn be32(b: Seq<u8>) -> int {
    b[0] * 0x100_0000 + b[1] * 0x1_0000 + b[2] * 0x100 + b[3]
}

/// The unsigned number that eight bytes spell, most significant byte first.
pub open spec fn be64(b: Seq<u8>) -> int {
    be32(b.subrange(0, 4)) * 0x1_0000_0000 + be32(b.subrange(4, 8))
}

/// The two's complement reading of an unsigned 32-bit number.
pub open spec fn signed32(u: int) -> int {
    if u >= 0x8000_0000 {
        u - 0x1_0000_0000
    } else {
        u
    }
}

/// The two's complement reading of an unsigned 64-bit number.
pub open spec fn signed64(u: int) -> int {
    if u >= 0x8000_0000_0000_0000 {
        u - 0x1_0000_0000_0000_0000
    } else {
        u
    }
}

/// Reading a value that is the marker byte `marker` followed by `width`
/// payload bytes: the payload, or why there is none.
pub open spec fn parse_tagged(marker: u8, width: nat, s: Seq<u8>) -> Outcome<Seq<u8>> {
    if s.len() == 0 {
        Outcome { value: Err(DecodeError::Connection), used: 0 }
    } else if s[0] != marker {
        Outcome { value: Err(DecodeError::TypeMismatch(s[0])), used: 1 }
    } else if s.len() < 1 + width {
        Outcome { value: Err(DecodeError::Connection), used: 1 }
    } else {
        Outcome { value: Ok(s.subrange(1, 1 + width as int)), used: 1 + width }
    }
}

/// Reading a signed 32-bit integer.
pub open spec fn parse_i32(s: Seq<u8>) -> Outcome<i32> {
    let raw = parse_tagged(MARKER_I32, 4, s);
    match raw.value {
        Ok(b) => Outcome { value: Ok(signed32(be32(b)) as i32), used: raw.used },
        Err(e) => Outcome { value: Err(e), used: raw.used },
    }
}

/// Reading a signed 64-bit integer.
pub open spec fn parse_i64(s: Seq<u8>) -> Outcome<i64> {
    let raw = parse_tagged(MARKER_I64, 8, s);
    match raw.value {
        Ok(b) => Outcome { value: Ok(signed64(be64(b)) as i64), used: raw.used },
        Err(e) => Outcome { value: Err(e), used: raw.used },
    }
}

/// Reading an unsigned 8-bit integer.
pub open spec fn parse_u8(s: Seq<u8>) -> Outcome<u8> {
    let raw = parse_tagged(MARKER_U8, 1, s);
    match raw.value {
        Ok(b) => Outcome { value: Ok(b[0]), used: raw.used },
        Err(e) => Outcome { value: Err(e), used: raw.used },
    }
}

/// Reading a 32-bit float, given by its bit pattern.
pub open spec fn parse_f32(s: Seq<u8>) -> Outcome<u32> {
    let raw = parse_tagged(MARKER_F32, 4, s);
    match raw.value {
        Ok(b) => Outcome { value: Ok(be32(b) as u32), used: raw.used },
        Err(e) => Outcome { value: Err(e), used: raw.used },
    }
}

/// Reading a length that is either folded into one of the `fix_count`
/// markers from `fix_base` upwards, or follows the marker `wide8` in one
/// byte, `wide16` in two bytes or `wide32` in four. A family without a
/// one-byte form passes `None` for `wide8`.
pub open spec fn parse_len(
    fix_base: u8,
    fix_count: int,
    wide8: Option<u8>,
    wide16: u8,
    wide32: u8,
    s: Seq<u8>,
) -> Outcome<u32> {
    if s.len() == 0 {
        Outcome { value: Err(DecodeError::Connection), used: 0 }
    } else if fix_base <= s[0] < fix_base + fix_count {
        Outcome { value: Ok((s[0] - fix_base) as u32), used: 1 }
    } else if wide8 == Some(s[0]) {
        if s.len() < 2 {
            Outcome { value: Err(DecodeError::Connection), used: 1 }
        } else {
            Outcome { value: Ok(s[1] as u32), used: 2 }
        }
    } else if s[0] == wide16 {
        if s.len() < 3 {
            Outcome { value: Err(DecodeError::Connection), used: 1 }
        } else {
            Outcome { value: Ok(be16(s.subrange(1, 3)) as u32), used: 3 }
        }
    } else if s[0] == wide32 {
        if s.len() < 5 {
            Outcome { value: Err(DecodeError::Connection), used: 1 }
        } else {
            Outcome { value: Ok(be32(s.subrange(1, 5)) as u32), used: 5 }
        }
    } else {
        Outcome { value: Err(DecodeError::TypeMismatch(s[0])), used: 1 }
    }
}

/// Reading the length header of a string.
pub open spec fn parse_str_len(s: Seq<u8>) -> Outcome<u32> {
    parse_len(FIXSTR_BASE, 32, Some(MARKER_STR8), MARKER_STR16, MARKER_STR32, s)
}

/// Reading the length header of a map.
pub open spec fn parse_map_len(s: Seq<u8>) -> Outcome<u32> {
    parse_len(FIXMAP_BASE, 16, None, MARKER_MAP16, MARKER_MAP32, s)
}

/// Reading a string into storage of `capacity` bytes. A string longer than
/// the storage is refused once its header is read; one cut short by the end
/// of the input leaves the header used up; one that is not UTF-8 is used up
/// whole.
pub open spec fn parse_str(capacity: u32, s: Seq<u8>) -> Outcome<Seq<char>> {
    let head = parse_str_len(s);
    match head.value {
        Err(e) => Outcome { value: Err(e), used: head.used },
        Ok(len) => {
            if len > capacity {
                Outcome { value: Err(DecodeError::BufferTooSmall(len)), used: head.used }
            } else if s.len() < head.used + len {
                Outcome { value: Err(DecodeError::Connection), used: head.used }
            } else {
                let body = s.subrange(head.used as int, head.used + len);
                if valid_utf8(body) {
                    Outcome { value: Ok(decode_utf8(body)), used: head.used + len as nat }
                } else {
                    Outcome { value: Err(DecodeError::InvalidEncoding), used: head.used + len as nat }
                }
            }
        },
    }
}

/// Checking that the message ends: the next byte must be the end-of-message
/// marker. Any other byte is data where none may follow.
pub open spec fn parse_eom(s: Seq<u8>) -> Outcome<()> {
    if s.len() == 0 {
        Outcome { value: Err(DecodeError::Connection), used: 0 }
    } else if s[0] == EOM {
        Outcome { value: Ok(()), used: 1 }
    } else {
        Outcome { value: Err(DecodeError::Protocol), used: 1 }
    }
}

} // verus!
