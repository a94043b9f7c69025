//! The ways in which decoding a response can fail.

use vstd::prelude::*;

verus! {

/// Why a read, or the command it belongs to, failed. Every variant is fatal
/// to the command being decoded.
#[derive(Clone, Copy, Debug, PartialEq, Eq, Structural)]
pub enum DecodeError {
    /// The stream ended before the value was complete.
    Connection,
    /// The marker byte found is not one the expected kind of value starts with.
    TypeMismatch(u8),
    /// A string announces more bytes than the caller allows for.
    BufferTooSmall(u32),
    /// The bytes of a string are not UTF-8.
    InvalidEncoding,
    /// The end-of-message marker stands where a value is required, a foreign
    /// marker stands where a record should begin, or data follows where the
    /// message should end.
    Protocol,
}

} // verus!
