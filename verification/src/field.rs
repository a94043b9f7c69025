//! Field values: the typed unit of the stream.

use vstd::prelude::*;
use crate::error::DecodeError;
use crate::wire::{parse_f32, parse_i32, parse_i64, parse_str, parse_u8, Outcome};

verus! {

/// The kinds of value that a record can hold.
#[derive(Clone, Copy, Debug, PartialEq, Eq, Structural)]
pub enum FieldKind {
    Int32,
    Int64,
    UInt8,
    Float32,
    Text,
}

/// A field value as contracts see it. A float is given by its bit pattern, a
/// string by its characters. `Eom` stands for the end-of-message marker found
/// where a record could have begun; no read of a value yields it.
pub enum Value {
    Int32(i32),
    Int64(i64),
    UInt8(u8),
    Float32(u32),
    Text(Seq<char>),
    Eom,
}

impl Value {
    /// Whether this is a value of kind `kind`.
    pub open spec fn has_kind(self, kind: FieldKind) -> bool {
        match self {
            Value::Int32(_) => kind == FieldKind::Int32,
            Value::Int64(_) => kind == FieldKind::Int64,
            Value::UInt8(_) => kind == FieldKind::UInt8,
            Value::Float32(_) => kind == FieldKind::Float32,
            Value::Text(_) => kind == FieldKind::Text,
            Value::Eom => false,
        }
    }
}

/// A field value as read from the stream. A float is held as its bit
/// pattern.
#[derive(Clone, Debug, PartialEq, Eq)]
pub enum FieldValue {
    Int32(i32),
    Int64(i64),
    UInt8(u8),
    Float32(u32),
    Text(String),
    Eom,
}

impl View for FieldValue {
    type V = Value;

    open spec fn view(&self) -> Value {
        match self {
            FieldValue::Int32(v) => Value::Int32(*v),
            FieldValue::Int64(v) => Value::Int64(*v),
            FieldValue::UInt8(v) => Value::UInt8(*v),
            FieldValue::Float32(v) => Value::Float32(*v),
            FieldValue::Text(v) => Value::Text(v@),
            FieldValue::Eom => Value::Eom,
        }
    }
}

impl DeepView for FieldValue {
    type V = Value;

    open spec fn deep_view(&self) -> Value {
        self.view()
    }
}

impl FieldValue {
    /// The integer of an `Int32` value.
    pub fn as_i32(&self) -> (v: i32)
        requires
            self@ is Int32,
        ensures
            self@ == Value::Int32(v),
    {
        match self {
            FieldValue::Int32(v) => *v,
            _ => 0,
        }
    }

    /// The integer of an `Int64` value.
    pub fn as_i64(&self) -> (v: i64)
        requires
            self@ is Int64,
        ensures
            self@ == Value::Int64(v),
    {
        match self {
            FieldValue::Int64(v) => *v,
            _ => 0,
        }
    }

    /// The integer of a `UInt8` value.
    pub fn as_u8(&self) -> (v: u8)
        requires
            self@ is UInt8,
        ensures
            self@ == Value::UInt8(v),
    {
        match self {
            FieldValue::UInt8(v) => *v,
            _ => 0,
        }
    }

    /// The bit pattern of a `Float32` value.
    pub fn as_f32_bits(&self) -> (v: u32)
        requires
            self@ is Float32,
        ensures
            self@ == Value::Float32(v),
    {
        match self {
            FieldValue::Float32(v) => *v,
            _ => 0,
        }
    }

    /// A copy of the string of a `Text` value.
    pub fn to_text(&self) -> (v: String)
        requires
            self@ is Text,
        ensures
            self@ == Value::Text(v@),
    {
        match self {
            FieldValue::Text(v) => v.clone(),
            _ => String::new(),
        }
    }
}

/// What a read yields, as contracts see it.
pub open spec fn result_view(r: Result<FieldValue, DecodeError>) -> Result<Value, DecodeError> {
    match r {
        Ok(v) => Ok(v@),
        Err(e) => Err(e),
    }
}

/// Reading one value of kind `kind`, strings into storage of `capacity`
/// bytes.
pub open spec fn parse_field(kind: FieldKind, capacity: u32, s: Seq<u8>) -> Outcome<Value> {
    match kind {
        FieldKind::Int32 => {
            let o = parse_i32(s);
            match o.value {
                Ok(v) => Outcome { value: Ok(Value::Int32(v)), used: o.used },
                Err(e) => Outcome { value: Err(e), used: o.used },
            }
        },
        FieldKind::Int64 => {
            let o = parse_i64(s);
            match o.value {
                Ok(v) => Outcome { value: Ok(Value::Int64(v)), used: o.used },
                Err(e) => Outcome { value: Err(e), used: o.used },
            }
        },
        FieldKind::UInt8 => {
            let o = parse_u8(s);
            match o.value {
                Ok(v) => Outcome { value: Ok(Value::UInt8(v)), used: o.used },
                Err(e) => Outcome { value: Err(e), used: o.used },
            }
        },
        FieldKind::Float32 => {
            let o = parse_f32(s);
            match o.value {
                Ok(v) => Outcome { value: Ok(Value::Float32(v)), used: o.used },
                Err(e) => Outcome { value: Err(e), used: o.used },
            }
        },
        FieldKind::Text => {
            let o = parse_str(capacity, s);
            match o.value {
                Ok(v) => Outcome { value: Ok(Value::Text(v)), used: o.used },
                Err(e) => Outcome { value: Err(e), used: o.used },
            }
        },
    }
}

/// A value that was read has the kind that was asked for, and the read used
/// at least one byte and no more than there are.
pub proof fn lemma_field_read(kind: FieldKind, capacity: u32, s: Seq<u8>)
    ensures
        parse_field(kind, capacity, s).used <= s.len(),
        parse_field(kind, capacity, s).value matches Ok(v) ==> v.has_kind(kind) && parse_field(
            kind,
            capacity,
            s,
        ).used >= 1,
{
}

} // verus!
