//! How values are written to the stream, and the laws that tie reading to
//! writing: what was written is read back, records come out in the order in
//! which they went in, and the end-of-message marker is an end only between
//! records.

use vstd::prelude::*;
use vstd::utf8::{encode_utf8, encode_utf8_decode_utf8, encode_utf8_valid_utf8};
use crate::error::DecodeError;
use crate::field::{parse_field, FieldKind, Value};
use crate::record::{
    lemma_fields_failure_stands, parse_fields, parse_message, parse_next, parse_records,
};
use crate::wire::{
    be32, parse_f32, parse_i32, parse_i64, parse_str, parse_str_len, parse_u8, Outcome, EOM,
    FIXSTR_BASE, MARKER_F32, MARKER_I32, MARKER_I64, MARKER_STR16, MARKER_STR32, MARKER_STR8,
    MARKER_U8,
};

verus! {

/// The two bytes that spell `u`, most significant first.
pub open spec fn be_bytes16(u: int) -> Seq<u8> {
    seq![(u / 0x100 % 0x100) as u8, (u % 0x100) as u8]
}

/// The four bytes that spell `u`, most significant first.
pub open spec fn be_bytes32(u: int) -> Seq<u8> {
    seq![
        (u / 0x100_0000 % 0x100) as u8,
        (u / 0x1_0000 % 0x100) as u8,
        (u / 0x100 % 0x100) as u8,
        (u % 0x100) as u8,
    ]
}

/// The eight bytes that spell `u`, most significant first.
pub open spec fn be_bytes64(u: int) -> Seq<u8> {
    be_bytes32(u / 0x1_0000_0000) + be_bytes32(u % 0x1_0000_0000)
}

/// A signed 32-bit integer on the wire.
pub open spec fn encode_i32(v: i32) -> Seq<u8> {
    seq![MARKER_I32] + be_bytes32(
        if v < 0 {
            v + 0x1_0000_0000
        } else {
            v as int
        },
    )
}

/// A signed 64-bit integer on the wire.
pub open spec fn encode_i64(v: i64) -> Seq<u8> {
    seq![MARKER_I64] + be_bytes64(
        if v < 0 {
            v + 0x1_0000_0000_0000_0000
        } else {
            v as int
        },
    )
}

/// An unsigned 8-bit integer on the wire.
pub open spec fn encode_u8(v: u8) -> Seq<u8> {
    seq![MARKER_U8, v]
}

/// A 32-bit float, given by its bit pattern, on the wire.
pub open spec fn encode_f32(bits: u32) -> Seq<u8> {
    seq![MARKER_F32] + be_bytes32(bits as int)
}

/// The header of a string of `len` bytes, in the shortest form that holds
/// the length.
pub open spec fn encode_str_len(len: int) -> Seq<u8> {
    if len < 32 {
        seq![(FIXSTR_BASE + len) as u8]
    } else if len < 0x100 {
        seq![MARKER_STR8, len as u8]
    } else if len < 0x1_0000 {
        seq![MARKER_STR16] + be_bytes16(len)
    } else {
        seq![MARKER_STR32] + be_bytes32(len)
    }
}

/// A string on the wire: its header, then its UTF-8 bytes.
pub open spec fn encode_str(chars: Seq<char>) -> Seq<u8> {
    encode_str_len(encode_utf8(chars).len() as int) + encode_utf8(chars)
}

/// A field value on the wire.
pub open spec fn encode_value(v: Value) -> Seq<u8> {
    match v {
        Value::Int32(x) => encode_i32(x),
        Value::Int64(x) => encode_i64(x),
        Value::UInt8(x) => encode_u8(x),
        Value::Float32(x) => encode_f32(x),
        Value::Text(x) => encode_str(x),
        Value::Eom => seq![EOM],
    }
}

/// Whether `v` is a value of kind `kind` that a reader with string storage
/// of `capacity` bytes accepts.
pub open spec fn fits(v: Value, kind: FieldKind, capacity: u32) -> bool {
    &&& v.has_kind(kind)
    &&& v matches Value::Text(chars) ==> encode_utf8(chars).len() <= capacity
}

/// Whether `vals` holds one fitting value for each kind in `schema`.
pub open spec fn record_fits(vals: Seq<Value>, schema: Seq<FieldKind>, capacity: u32) -> bool {
    &&& vals.len() == schema.len()
    &&& forall|i: int| 0 <= i < vals.len() ==> fits(#[trigger] vals[i], schema[i], capacity)
}

/// The fields of a record on the wire, one after the other.
pub open spec fn encode_fields(vals: Seq<Value>) -> Seq<u8>
    decreases vals.len(),
{
    if vals.len() == 0 {
        Seq::empty()
    } else {
        encode_fields(vals.drop_last()) + encode_value(vals.last())
    }
}

/// Records on the wire, one after the other, without the end of the message.
pub open spec fn encode_records(records: Seq<Seq<Value>>) -> Seq<u8>
    decreases records.len(),
{
    if records.len() == 0 {
        Seq::empty()
    } else {
        encode_fields(records.first()) + encode_records(records.drop_first())
    }
}

/// A record of one field is written as that field.
pub proof fn lemma_single_field(v: Value)
    ensures
        encode_fields(seq![v]) == encode_value(v),
{
    let one = seq![v];
    assert(one.drop_last() =~= Seq::<Value>::empty());
    assert(encode_fields(one.drop_last()) =~= Seq::<u8>::empty());
    assert(encode_fields(one) =~= encode_value(v));
}

/// Four bytes written from a number below 2^32 spell that number.
pub proof fn lemma_be32_roundtrip(u: int)
    requires
        0 <= u < 0x1_0000_0000,
    ensures
        be_bytes32(u).len() == 4,
        be32(be_bytes32(u)) == u,
{
}

/// A signed 32-bit integer is read back as it was written, whatever follows.
pub proof fn lemma_i32_roundtrip(v: i32, rest: Seq<u8>)
    ensures
        parse_i32(encode_i32(v) + rest) == (Outcome { value: Ok::<i32, DecodeError>(v), used: 5 }),
        encode_i32(v).len() == 5,
{
    let u: int = if v < 0 {
        v + 0x1_0000_0000
    } else {
        v as int
    };
    lemma_be32_roundtrip(u);
    let s = encode_i32(v) + rest;
    assert(s.subrange(1, 5) =~= be_bytes32(u));
}

/// A signed 64-bit integer is read back as it was written, whatever follows.
pub proof fn lemma_i64_roundtrip(v: i64, rest: Seq<u8>)
    ensures
        parse_i64(encode_i64(v) + rest) == (Outcome { value: Ok::<i64, DecodeError>(v), used: 9 }),
        encode_i64(v).len() == 9,
{
    let u: int = if v < 0 {
        v + 0x1_0000_0000_0000_0000
    } else {
        v as int
    };
    let hi: int = u / 0x1_0000_0000;
    let lo: int = u % 0x1_0000_0000;
    lemma_be32_roundtrip(hi);
    lemma_be32_roundtrip(lo);
    let s = encode_i64(v) + rest;
    let b = s.subrange(1, 9);
    assert(b =~= be_bytes64(u));
    assert(b.subrange(0, 4) =~= be_bytes32(hi));
    assert(b.subrange(4, 8) =~= be_bytes32(lo));
}

/// An unsigned 8-bit integer is read back as it was written, whatever follows.
pub proof fn lemma_u8_roundtrip(v: u8, rest: Seq<u8>)
    ensures
        parse_u8(encode_u8(v) + rest) == (Outcome { value: Ok::<u8, DecodeError>(v), used: 2 }),
        encode_u8(v).len() == 2,
{
}

/// A float is read back with the bit pattern with which it was written,
/// whatever follows.
pub proof fn lemma_f32_roundtrip(bits: u32, rest: Seq<u8>)
    ensures
        parse_f32(encode_f32(bits) + rest) == (Outcome {
            value: Ok::<u32, DecodeError>(bits),
            used: 5,
        }),
        encode_f32(bits).len() == 5,
{
    lemma_be32_roundtrip(bits as int);
    let s = encode_f32(bits) + rest;
    assert(s.subrange(1, 5) =~= be_bytes32(bits as int));
}

/// A string that fits the reader's storage is read back as it was written,
/// whatever follows.
pub proof fn lemma_str_roundtrip(chars: Seq<char>, capacity: u32, rest: Seq<u8>)
    requires
        encode_utf8(chars).len() <= capacity,
    ensures
        parse_str(capacity, encode_str(chars) + rest) == (Outcome {
            value: Ok::<Seq<char>, DecodeError>(chars),
            used: encode_str(chars).len(),
        }),
        encode_str(chars).len() >= 1,
{
    let body = encode_utf8(chars);
    let len: int = body.len() as int;
    let head = encode_str_len(len);
    let s = encode_str(chars) + rest;
    encode_utf8_valid_utf8(chars);
    encode_utf8_decode_utf8(chars);
    if len < 32 {
    } else if len < 0x100 {
    } else if len < 0x1_0000 {
        assert(s.subrange(1, 3) =~= be_bytes16(len));
    } else {
        lemma_be32_roundtrip(len);
        assert(s.subrange(1, 5) =~= be_bytes32(len));
    }
    assert(parse_str_len(s) == (Outcome {
        value: Ok::<u32, DecodeError>(len as u32),
        used: head.len(),
    }));
    assert(s.subrange(head.len() as int, head.len() + len) =~= body);
}

/// A fitting value is read back as it was written, whatever follows, and the
/// read uses exactly the bytes that were written for it.
pub proof fn lemma_value_roundtrip(v: Value, kind: FieldKind, capacity: u32, rest: Seq<u8>)
    requires
        fits(v, kind, capacity),
    ensures
        parse_field(kind, capacity, encode_value(v) + rest) == (Outcome {
            value: Ok::<Value, DecodeError>(v),
            used: encode_value(v).len(),
        }),
        encode_value(v).len() >= 1,
{
    match v {
        Value::Int32(x) => lemma_i32_roundtrip(x, rest),
        Value::Int64(x) => lemma_i64_roundtrip(x, rest),
        Value::UInt8(x) => lemma_u8_roundtrip(x, rest),
        Value::Float32(x) => lemma_f32_roundtrip(x, rest),
        Value::Text(x) => lemma_str_roundtrip(x, capacity, rest),
        Value::Eom => {},
    }
}

/// The fields of a fitting record are read back as they were written,
/// whatever follows, and the read uses exactly the bytes that were written
/// for them.
pub proof fn lemma_fields_roundtrip(
    vals: Seq<Value>,
    schema: Seq<FieldKind>,
    capacity: u32,
    rest: Seq<u8>,
)
    requires
        record_fits(vals, schema, capacity),
    ensures
        parse_fields(schema, capacity, encode_fields(vals) + rest) == (Outcome {
            value: Ok::<Seq<Value>, DecodeError>(vals),
            used: encode_fields(vals).len(),
        }),
        schema.len() > 0 ==> encode_fields(vals).len() >= 1,
    decreases vals.len(),
{
    let s = encode_fields(vals) + rest;
    if vals.len() > 0 {
        let front = vals.drop_last();
        let last = vals.last();
        let tail = encode_value(last) + rest;
        assert(record_fits(front, schema.drop_last(), capacity)) by {
            assert forall|i: int| 0 <= i < front.len() implies fits(
                #[trigger] front[i],
                schema.drop_last()[i],
                capacity,
            ) by {
                assert(fits(vals[i], schema[i], capacity));
            }
        }
        assert(fits(vals[vals.len() - 1], schema[vals.len() - 1], capacity));
        lemma_fields_roundtrip(front, schema.drop_last(), capacity, tail);
        assert(encode_fields(front) + tail =~= s);
        assert(s.skip(encode_fields(front).len() as int) =~= tail);
        lemma_value_roundtrip(last, schema.last(), capacity, rest);
        assert(front.push(last) =~= vals);
    } else {
        assert(vals =~= Seq::<Value>::empty());
    }
}

/// A message of fixed shape that holds exactly its fields and then the
/// end-of-message marker is read back field for field, and the read uses
/// exactly the bytes of the fields and the one of the marker.
pub proof fn lemma_message_roundtrip(
    vals: Seq<Value>,
    schema: Seq<FieldKind>,
    capacity: u32,
    rest: Seq<u8>,
)
    requires
        record_fits(vals, schema, capacity),
    ensures
        parse_message(schema, capacity, encode_fields(vals) + seq![EOM] + rest) == (Outcome {
            value: Ok::<Seq<Value>, DecodeError>(vals),
            used: encode_fields(vals).len() + 1,
        }),
{
    let s = encode_fields(vals) + seq![EOM] + rest;
    let tail = seq![EOM] + rest;
    assert(encode_fields(vals) + tail =~= s);
    lemma_fields_roundtrip(vals, schema, capacity, tail);
    assert(s.skip(encode_fields(vals).len() as int) =~= tail);
}

/// A message of fixed shape is refused when anything but the end-of-message
/// marker follows its fields.
pub proof fn lemma_trailing_data_refused(
    vals: Seq<Value>,
    schema: Seq<FieldKind>,
    capacity: u32,
    extra: u8,
    rest: Seq<u8>,
)
    requires
        record_fits(vals, schema, capacity),
        extra != EOM,
    ensures
        parse_message(schema, capacity, encode_fields(vals) + seq![extra] + rest).value == Err::<
            Seq<Value>,
            DecodeError,
        >(DecodeError::Protocol),
{
    let s = encode_fields(vals) + seq![extra] + rest;
    let tail = seq![extra] + rest;
    assert(encode_fields(vals) + tail =~= s);
    lemma_fields_roundtrip(vals, schema, capacity, tail);
    assert(s.skip(encode_fields(vals).len() as int) =~= tail);
}

/// A repeating message that ends at once holds no record: the read yields
/// the empty sequence and uses the one byte of the marker.
pub proof fn lemma_empty_message(schema: Seq<FieldKind>, capacity: u32, rest: Seq<u8>)
    requires
        schema.len() > 0,
    ensures
        parse_records(schema, capacity, seq![EOM] + rest) == (Outcome {
            value: Ok::<Seq<Seq<Value>>, DecodeError>(Seq::empty()),
            used: 1,
        }),
{
    let s = seq![EOM] + rest;
    assert(s[0] == EOM);
}

/// Whether every record of `records` fits `schema`.
pub open spec fn records_fit(records: Seq<Seq<Value>>, schema: Seq<FieldKind>, capacity: u32) -> bool {
    forall|i: int| 0 <= i < records.len() ==> record_fits(#[trigger] records[i], schema, capacity)
}

/// The first field of a fitting record is not taken for the end of the
/// message: the record is read whole.
pub proof fn lemma_record_is_next(
    record: Seq<Value>,
    schema: Seq<FieldKind>,
    capacity: u32,
    rest: Seq<u8>,
)
    requires
        schema.len() > 0,
        record_fits(record, schema, capacity),
    ensures
        parse_next(schema, capacity, encode_fields(record) + rest) == (Outcome {
            value: Ok::<Option<Seq<Value>>, DecodeError>(Some(record)),
            used: encode_fields(record).len(),
        }),
        encode_fields(record).len() >= 1,
{
    let s = encode_fields(record) + rest;
    lemma_fields_roundtrip(record, schema, capacity, rest);
    lemma_first_field(record, schema, capacity, rest);
}

/// The bytes of a fitting record start with its first field, which is read
/// as such.
proof fn lemma_first_field(
    record: Seq<Value>,
    schema: Seq<FieldKind>,
    capacity: u32,
    rest: Seq<u8>,
)
    requires
        schema.len() > 0,
        record_fits(record, schema, capacity),
    ensures
        parse_field(schema[0], capacity, encode_fields(record) + rest).value == Ok::<
            Value,
            DecodeError,
        >(record[0]),
    decreases record.len(),
{
    let s = encode_fields(record) + rest;
    assert(fits(record[0], schema[0], capacity));
    if record.len() == 1 {
        assert(encode_fields(record.drop_last()) =~= Seq::<u8>::empty());
        assert(s =~= encode_value(record[0]) + rest);
        lemma_value_roundtrip(record[0], schema[0], capacity, rest);
    } else {
        let front = record.drop_last();
        let tail = encode_value(record.last()) + rest;
        assert(record_fits(front, schema.drop_last(), capacity)) by {
            assert forall|i: int| 0 <= i < front.len() implies fits(
                #[trigger] front[i],
                schema.drop_last()[i],
                capacity,
            ) by {
                assert(fits(record[i], schema[i], capacity));
            }
        }
        lemma_first_field(front, schema.drop_last(), capacity, tail);
        assert(encode_fields(front) + tail =~= s);
    }
}

/// Records come out in the order in which they went in: a repeating message
/// that holds fitting records and then the end-of-message marker is read
/// back record for record, and the read uses exactly those bytes.
pub proof fn lemma_records_roundtrip(
    records: Seq<Seq<Value>>,
    schema: Seq<FieldKind>,
    capacity: u32,
    rest: Seq<u8>,
)
    requires
        schema.len() > 0,
        records_fit(records, schema, capacity),
    ensures
        parse_records(schema, capacity, encode_records(records) + seq![EOM] + rest) == (Outcome {
            value: Ok::<Seq<Seq<Value>>, DecodeError>(records),
            used: encode_records(records).len() + 1,
        }),
    decreases records.len(),
{
    let s = encode_records(records) + seq![EOM] + rest;
    if records.len() == 0 {
        assert(s =~= seq![EOM] + rest);
        lemma_empty_message(schema, capacity, rest);
        assert(records =~= Seq::<Seq<Value>>::empty());
    } else {
        let first = records.first();
        let others = records.drop_first();
        let tail = encode_records(others) + seq![EOM] + rest;
        assert(record_fits(records[0], schema, capacity));
        assert(records_fit(others, schema, capacity)) by {
            assert forall|i: int| 0 <= i < others.len() implies record_fits(
                #[trigger] others[i],
                schema,
                capacity,
            ) by {
                assert(record_fits(records[i + 1], schema, capacity));
            }
        }
        assert(encode_fields(first) + tail =~= s);
        lemma_record_is_next(first, schema, capacity, tail);
        assert(s.skip(encode_fields(first).len() as int) =~= tail);
        lemma_records_roundtrip(others, schema, capacity, rest);
        assert(seq![first] + others =~= records);
    }
}

/// The end-of-message marker is no value of any kind: a read that finds it
/// fails with a mismatch that names it, and uses it up.
pub proof fn lemma_eom_is_no_value(kind: FieldKind, capacity: u32, s: Seq<u8>)
    requires
        s.len() > 0,
        s[0] == EOM,
    ensures
        parse_field(kind, capacity, s) == (Outcome {
            value: Err::<Value, DecodeError>(DecodeError::TypeMismatch(EOM)),
            used: 1,
        }),
{
}

/// A record that has begun must be completed: where the end-of-message
/// marker stands in place of one of its later fields, the record is refused
/// with a protocol error.
pub proof fn lemma_begun_record_fails(
    begun: Seq<Value>,
    schema: Seq<FieldKind>,
    capacity: u32,
    rest: Seq<u8>,
)
    requires
        0 < begun.len() < schema.len(),
        record_fits(begun, schema.take(begun.len() as int), capacity),
    ensures
        parse_next(schema, capacity, encode_fields(begun) + seq![EOM] + rest).value == Err::<
            Option<Seq<Value>>,
            DecodeError,
        >(DecodeError::Protocol),
{
    let n = begun.len() as int;
    let tail = seq![EOM] + rest;
    let s = encode_fields(begun) + seq![EOM] + rest;
    let prefix = schema.take(n);
    assert(s =~= encode_fields(begun) + tail);
    lemma_fields_roundtrip(begun, prefix, capacity, tail);
    lemma_first_field(begun, prefix, capacity, tail);
    assert(prefix[0] == schema[0]);
    assert(fits(begun[0], prefix[0], capacity));
    assert(parse_field(schema[0], capacity, s).value == Ok::<Value, DecodeError>(begun[0]));
    assert(s.skip(encode_fields(begun).len() as int) =~= tail);
    lemma_eom_is_no_value(schema[n], capacity, tail);
    let longer = schema.take(n + 1);
    assert(longer.drop_last() =~= prefix);
    assert(longer.last() == schema[n]);
    assert(parse_fields(longer, capacity, s).value == Err::<Seq<Value>, DecodeError>(
        DecodeError::Protocol,
    ));
    lemma_fields_failure_stands(schema, capacity, s, n + 1);
}

/// The end-of-message marker ends a message only between records: where it
/// stands in place of a later field of a record that has begun, reading the
/// records fails with a protocol error, however many whole records came
/// before.
pub proof fn lemma_eom_inside_record(
    records: Seq<Seq<Value>>,
    begun: Seq<Value>,
    schema: Seq<FieldKind>,
    capacity: u32,
    rest: Seq<u8>,
)
    requires
        records_fit(records, schema, capacity),
        0 < begun.len() < schema.len(),
        record_fits(begun, schema.take(begun.len() as int), capacity),
    ensures
        parse_records(
            schema,
            capacity,
            encode_records(records) + encode_fields(begun) + seq![EOM] + rest,
        ).value == Err::<Seq<Seq<Value>>, DecodeError>(DecodeError::Protocol),
    decreases records.len(),
{
    let s = encode_records(records) + encode_fields(begun) + seq![EOM] + rest;
    if records.len() == 0 {
        assert(s =~= encode_fields(begun) + seq![EOM] + rest);
        lemma_begun_record_fails(begun, schema, capacity, rest);
    } else {
        let first = records.first();
        let others = records.drop_first();
        let tail = encode_records(others) + encode_fields(begun) + seq![EOM] + rest;
        assert(record_fits(records[0], schema, capacity));
        assert(records_fit(others, schema, capacity)) by {
            assert forall|i: int| 0 <= i < others.len() implies record_fits(
                #[trigger] others[i],
                schema,
                capacity,
            ) by {
                assert(record_fits(records[i + 1], schema, capacity));
            }
        }
        assert(encode_fields(first) + tail =~= s);
        lemma_record_is_next(first, schema, capacity, tail);
        assert(s.skip(encode_fields(first).len() as int) =~= tail);
        lemma_eom_inside_record(others, begun, schema, capacity, rest);
    }
}

} // verus!
