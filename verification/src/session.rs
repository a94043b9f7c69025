//! One command's response, read value by value.

use vstd::prelude::*;
use vstd::slice::slice_subrange;
use crate::error::DecodeError;
use crate::field::{parse_field, result_view, FieldKind, FieldValue};
use crate::rmp_calls::{
    rmp_read_f32, rmp_read_i32, rmp_read_i64, rmp_read_map_len, rmp_read_str, rmp_read_u8,
};
use crate::wire::{
    parse_eom, parse_f32, parse_i32, parse_i64, parse_map_len, parse_str, parse_u8, EOM,
};

verus! {

/// The response to one command and the place up to which it has been read.
///
/// A session is made from the bytes that the daemon sent back and is used by
/// one decoder, front to back. Every read moves the cursor by exactly the
/// bytes that the read used up, also when it fails.
pub struct Session {
    data: Vec<u8>,
    pos: usize,
}

impl Session {
    #[verifier::type_invariant]
    spec fn cursor_in_bounds(&self) -> bool {
        self.pos <= self.data@.len()
    }

    /// All bytes of the response.
    pub closed spec fn response(&self) -> Seq<u8> {
        self.data@
    }

    /// How many bytes have been read.
    pub closed spec fn position(&self) -> nat {
        self.pos as nat
    }

    /// The bytes that have not been read yet.
    pub open spec fn remaining(&self) -> Seq<u8> {
        self.response().skip(self.position() as int)
    }

    /// Whether `next` is this session after a read that used up `used` bytes.
    pub open spec fn advanced_by(&self, used: nat, next: &Session) -> bool {
        &&& next.response() == self.response()
        &&& next.position() == self.position() + used
        &&& next.position() <= next.response().len()
    }

    /// The session as it stands, for contracts to refer back to.
    pub fn mark(&self) -> (m: Ghost<Session>)
        ensures
            m@ == *self,
            self.advanced_by(0, self),
    {
        proof {
            use_type_invariant(self);
        }
        Ghost(*self)
    }

    /// A session at the start of `response`.
    pub fn new(response: Vec<u8>) -> (s: Session)
        ensures
            s.response() == response@,
            s.position() == 0,
    {
        Session { data: response, pos: 0 }
    }

    /// The number of bytes read so far.
    pub fn consumed(&self) -> (n: usize)
        ensures
            n == self.position(),
            n <= self.response().len(),
    {
        proof {
            use_type_invariant(self);
        }
        self.pos
    }

    /// Reads a signed 32-bit integer.
    pub fn read_i32(&mut self) -> (r: Result<i32, DecodeError>)
        ensures
            r == parse_i32(old(self).remaining()).value,
            old(self).advanced_by(parse_i32(old(self).remaining()).used, final(self)),
    {
        proof {
            use_type_invariant(&*self);
        }
        let rest = slice_subrange(self.data.as_slice(), self.pos, self.data.len());
        let (res, left) = rmp_read_i32(rest);
        self.pos = self.data.len() - left;
        res
    }

    /// Reads a signed 64-bit integer.
    pub fn read_i64(&mut self) -> (r: Result<i64, DecodeError>)
        ensures
            r == parse_i64(old(self).remaining()).value,
            old(self).advanced_by(parse_i64(old(self).remaining()).used, final(self)),
    {
        proof {
            use_type_invariant(&*self);
        }
        let rest = slice_subrange(self.data.as_slice(), self.pos, self.data.len());
        let (res, left) = rmp_read_i64(rest);
        self.pos = self.data.len() - left;
        res
    }

    /// Reads an unsigned 8-bit integer.
    pub fn read_u8(&mut self) -> (r: Result<u8, DecodeError>)
        ensures
            r == parse_u8(old(self).remaining()).value,
            old(self).advanced_by(parse_u8(old(self).remaining()).used, final(self)),
    {
        proof {
            use_type_invariant(&*self);
        }
        let rest = slice_subrange(self.data.as_slice(), self.pos, self.data.len());
        let (res, left) = rmp_read_u8(rest);
        self.pos = self.data.len() - left;
        res
    }

    /// Reads a 32-bit float and yields its bit pattern.
    pub fn read_f32(&mut self) -> (r: Result<u32, DecodeError>)
        ensures
            r == parse_f32(old(self).remaining()).value,
            old(self).advanced_by(parse_f32(old(self).remaining()).used, final(self)),
    {
        proof {
            use_type_invariant(&*self);
        }
        let rest = slice_subrange(self.data.as_slice(), self.pos, self.data.len());
        let (res, left) = rmp_read_f32(rest);
        self.pos = self.data.len() - left;
        res
    }

    /// Reads the number of entries that a map announces.
    pub fn read_map_len(&mut self) -> (r: Result<u32, DecodeError>)
        ensures
            r == parse_map_len(old(self).remaining()).value,
            old(self).advanced_by(parse_map_len(old(self).remaining()).used, final(self)),
    {
        proof {
            use_type_invariant(&*self);
        }
        let rest = slice_subrange(self.data.as_slice(), self.pos, self.data.len());
        let (res, left) = rmp_read_map_len(rest);
        self.pos = self.data.len() - left;
        res
    }

    /// Reads a string of at most `capacity` bytes.
    ///
    /// The storage that the string is read into is no larger than what is
    /// left of the response, so a string that claims more than that is
    /// reported as cut short without storage of `capacity` bytes being made
    /// for it.
    pub fn read_str(&mut self, capacity: u32) -> (r: Result<String, DecodeError>)
        ensures
            match r {
                Ok(text) => parse_str(capacity, old(self).remaining()).value == Ok::<
                    Seq<char>,
                    DecodeError,
                >(text@),
                Err(e) => parse_str(capacity, old(self).remaining()).value == Err::<
                    Seq<char>,
                    DecodeError,
                >(e),
            },
            old(self).advanced_by(parse_str(capacity, old(self).remaining()).used, final(self)),
    {
        proof {
            use_type_invariant(&*self);
        }
        let rest = slice_subrange(self.data.as_slice(), self.pos, self.data.len());
        let room: u32 = if rest.len() < capacity as usize {
            rest.len() as u32
        } else {
            capacity
        };
        let (res, left) = rmp_read_str(rest, room);
        self.pos = self.data.len() - left;
        match res {
            Err(DecodeError::BufferTooSmall(len)) => {
                if len <= capacity {
                    Err(DecodeError::Connection)
                } else {
                    Err(DecodeError::BufferTooSmall(len))
                }
            },
            other => other,
        }
    }

    /// Reads one value of kind `kind`, a string into storage of `capacity`
    /// bytes.
    pub fn read_field(&mut self, kind: FieldKind, capacity: u32) -> (r: Result<
        FieldValue,
        DecodeError,
    >)
        ensures
            result_view(r) == parse_field(kind, capacity, old(self).remaining()).value,
            old(self).advanced_by(
                parse_field(kind, capacity, old(self).remaining()).used,
                final(self),
            ),
    {
        match kind {
            FieldKind::Int32 => match self.read_i32() {
                Ok(v) => Ok(FieldValue::Int32(v)),
                Err(e) => Err(e),
            },
            FieldKind::Int64 => match self.read_i64() {
                Ok(v) => Ok(FieldValue::Int64(v)),
                Err(e) => Err(e),
            },
            FieldKind::UInt8 => match self.read_u8() {
                Ok(v) => Ok(FieldValue::UInt8(v)),
                Err(e) => Err(e),
            },
            FieldKind::Float32 => match self.read_f32() {
                Ok(v) => Ok(FieldValue::Float32(v)),
                Err(e) => Err(e),
            },
            FieldKind::Text => match self.read_str(capacity) {
                Ok(v) => Ok(FieldValue::Text(v)),
                Err(e) => Err(e),
            },
        }
    }

    /// Checks that the message ends here: the next byte must be the
    /// end-of-message marker. The byte looked at is used up either way.
    pub fn expect_eom(&mut self) -> (r: Result<(), DecodeError>)
        ensures
            r == parse_eom(old(self).remaining()).value,
            old(self).advanced_by(parse_eom(old(self).remaining()).used, final(self)),
    {
        proof {
            use_type_invariant(&*self);
        }
        if self.pos >= self.data.len() {
            return Err(DecodeError::Connection);
        }
        let byte: u8 = self.data[self.pos];
        self.pos = self.pos + 1;
        if byte == EOM {
            Ok(())
        } else {
            Err(DecodeError::Protocol)
        }
    }
}

} // verus!
