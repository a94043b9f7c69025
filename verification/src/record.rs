//! Records: reading the fields of one record against its schema, and reading
//! records until the message ends.

use vstd::prelude::*;
use crate::error::DecodeError;
use crate::field::{lemma_field_read, parse_field, FieldKind, FieldValue, Value};
use crate::machine::{
    at_boundary, detect_sentinel, in_record, require_value, transition, LoopState,
};
use crate::session::Session;
use crate::wire::{parse_eom, Outcome};

verus! {

/// Reading the fields that `schema` lists, one after the other, each where a
/// value is required. The first failure ends the read.
pub open spec fn parse_fields(schema: Seq<FieldKind>, capacity: u32, s: Seq<u8>) -> Outcome<
    Seq<Value>,
>
    decreases schema.len(),
{
    if schema.len() == 0 {
        Outcome { value: Ok(Seq::empty()), used: 0 }
    } else {
        let head = parse_fields(schema.drop_last(), capacity, s);
        match head.value {
            Err(e) => Outcome { value: Err(e), used: head.used },
            Ok(vals) => {
                let field = parse_field(schema.last(), capacity, s.skip(head.used as int));
                match in_record(field.value) {
                    Ok(v) => Outcome { value: Ok(vals.push(v)), used: head.used + field.used },
                    Err(e) => Outcome { value: Err(e), used: head.used + field.used },
                }
            },
        }
    }
}

/// Reading a whole message of fixed shape: the fields of `schema`, then the
/// end of the message.
pub open spec fn parse_message(schema: Seq<FieldKind>, capacity: u32, s: Seq<u8>) -> Outcome<
    Seq<Value>,
> {
    let body = parse_fields(schema, capacity, s);
    match body.value {
        Err(e) => Outcome { value: Err(e), used: body.used },
        Ok(vals) => {
            let end = parse_eom(s.skip(body.used as int));
            match end.value {
                Ok(_) => Outcome { value: Ok(vals), used: body.used + end.used },
                Err(e) => Outcome { value: Err(e), used: body.used + end.used },
            }
        },
    }
}

/// Reading the next record of a repeating message, or finding the message
/// at its end (`None`). Only the first field is read as a boundary.
pub open spec fn parse_next(schema: Seq<FieldKind>, capacity: u32, s: Seq<u8>) -> Outcome<
    Option<Seq<Value>>,
> {
    let first = parse_field(schema[0], capacity, s);
    match at_boundary(first.value) {
        Ok(Value::Eom) => Outcome { value: Ok(None), used: first.used },
        Err(e) => Outcome { value: Err(e), used: first.used },
        Ok(_) => {
            let record = parse_fields(schema, capacity, s);
            match record.value {
                Ok(vals) => Outcome { value: Ok(Some(vals)), used: record.used },
                Err(e) => Outcome { value: Err(e), used: record.used },
            }
        },
    }
}

/// Reading records until the message ends: the records in the order in which
/// they stand in the stream, or the first failure.
pub open spec fn parse_records(schema: Seq<FieldKind>, capacity: u32, s: Seq<u8>) -> Outcome<
    Seq<Seq<Value>>,
>
    decreases s.len(),
    when schema.len() > 0
{
    let next = parse_next(schema, capacity, s);
    match next.value {
        Err(e) => Outcome { value: Err(e), used: next.used },
        Ok(None) => Outcome { value: Ok(Seq::empty()), used: next.used },
        Ok(Some(record)) => {
            proof {
                lemma_fields_used(schema, capacity, s);
            }
            let tail = parse_records(schema, capacity, s.skip(next.used as int));
            match tail.value {
                Ok(more) => Outcome {
                    value: Ok(seq![record] + more),
                    used: next.used + tail.used,
                },
                Err(e) => Outcome { value: Err(e), used: next.used + tail.used },
            }
        },
    }
}

/// A read of fields uses no more bytes than there are; where it yields the
/// values, there is one of each kind that the schema lists, and unless the
/// schema is empty at least one byte was used.
pub proof fn lemma_fields_used(schema: Seq<FieldKind>, capacity: u32, s: Seq<u8>)
    ensures
        parse_fields(schema, capacity, s).used <= s.len(),
        parse_fields(schema, capacity, s).value matches Ok(vals) ==> {
            &&& vals.len() == schema.len()
            &&& forall|i: int| 0 <= i < vals.len() ==> (#[trigger] vals[i]).has_kind(schema[i])
            &&& schema.len() > 0 ==> parse_fields(schema, capacity, s).used >= 1
        },
    decreases schema.len(),
{
    if schema.len() > 0 {
        lemma_fields_used(schema.drop_last(), capacity, s);
        let head = parse_fields(schema.drop_last(), capacity, s);
        lemma_field_read(schema.last(), capacity, s.skip(head.used as int));
    }
}

/// Once a prefix of the schema has failed, the whole schema fails in the same
/// way.
pub proof fn lemma_fields_failure_stands(
    schema: Seq<FieldKind>,
    capacity: u32,
    s: Seq<u8>,
    n: int,
)
    requires
        0 <= n <= schema.len(),
        parse_fields(schema.take(n), capacity, s).value is Err,
    ensures
        parse_fields(schema, capacity, s) == parse_fields(schema.take(n), capacity, s),
    decreases schema.len() - n,
{
    if n == schema.len() {
        assert(schema.take(n) =~= schema);
    } else {
        assert(schema.take(n + 1).drop_last() =~= schema.take(n));
        lemma_fields_failure_stands(schema, capacity, s, n + 1);
    }
}

/// What a read of a record yields, as contracts see it.
pub open spec fn record_view(r: Result<Vec<FieldValue>, DecodeError>) -> Result<
    Seq<Value>,
    DecodeError,
> {
    match r {
        Ok(vals) => Ok(vals.deep_view()),
        Err(e) => Err(e),
    }
}

/// What a read of the next record yields, as contracts see it.
pub open spec fn next_view(r: Result<Option<Vec<FieldValue>>, DecodeError>) -> Result<
    Option<Seq<Value>>,
    DecodeError,
> {
    match r {
        Ok(Some(vals)) => Ok(Some(vals.deep_view())),
        Ok(None) => Ok(None),
        Err(e) => Err(e),
    }
}

/// What a read of all records yields, as contracts see it.
pub open spec fn records_view(r: Result<Vec<Vec<FieldValue>>, DecodeError>) -> Result<
    Seq<Seq<Value>>,
    DecodeError,
> {
    match r {
        Ok(records) => Ok(records.deep_view()),
        Err(e) => Err(e),
    }
}

/// Reads the fields of `schema` that `vals` does not hold yet. `start` is the
/// session as it stood where the record begins.
fn read_fields(
    session: &mut Session,
    schema: &Vec<FieldKind>,
    capacity: u32,
    vals: Vec<FieldValue>,
    Ghost(start): Ghost<Session>,
) -> (r: Result<Vec<FieldValue>, DecodeError>)
    requires
        vals.len() <= schema.len(),
        parse_fields(schema@.take(vals.len() as int), capacity, start.remaining()).value == Ok::<
            Seq<Value>,
            DecodeError,
        >(vals.deep_view()),
        start.advanced_by(
            parse_fields(schema@.take(vals.len() as int), capacity, start.remaining()).used,
            old(session),
        ),
    ensures
        record_view(r) == parse_fields(schema@, capacity, start.remaining()).value,
        start.advanced_by(parse_fields(schema@, capacity, start.remaining()).used, final(session)),
{
    let mut vals = vals;
    // holds the cause once the machine has failed
    let mut failure = DecodeError::Protocol;
    let mut state = if vals.len() < schema.len() {
        LoopState::ReadingRecordFields
    } else {
        LoopState::AwaitingRecordOrEom
    };
    proof {
        assert(schema@.take(schema@.len() as int) =~= schema@);
    }
    while state == LoopState::ReadingRecordFields
        invariant
            vals.len() <= schema.len(),
            state != LoopState::Done,
            state == LoopState::ReadingRecordFields ==> {
                let done = parse_fields(schema@.take(vals.len() as int), capacity, start.remaining());
                &&& vals.len() < schema.len()
                &&& done.value == Ok::<Seq<Value>, DecodeError>(vals.deep_view())
                &&& start.advanced_by(done.used, session)
            },
            state == LoopState::AwaitingRecordOrEom ==> {
                let all = parse_fields(schema@, capacity, start.remaining());
                &&& all.value == Ok::<Seq<Value>, DecodeError>(vals.deep_view())
                &&& start.advanced_by(all.used, session)
            },
            state == LoopState::Failed ==> {
                let all = parse_fields(schema@, capacity, start.remaining());
                &&& all.value == Err::<Seq<Value>, DecodeError>(failure)
                &&& start.advanced_by(all.used, session)
            },
        decreases
            schema.len() - vals.len() + (if state == LoopState::ReadingRecordFields {
                1int
            } else {
                0int
            }),
    {
        let i: usize = vals.len();
        let ghost before = vals.deep_view();
        let ghost done = parse_fields(schema@.take(i as int), capacity, start.remaining());
        let ghost here = session.remaining();
        proof {
            assert(here =~= start.remaining().skip(done.used as int));
            assert(schema@.take(i + 1).drop_last() =~= schema@.take(i as int));
            assert(schema@.take(i + 1).last() == schema@[i as int]);
            lemma_field_read(schema@[i as int], capacity, here);
        }
        let outcome = require_value(session.read_field(schema[i], capacity));
        state = transition(state, &outcome, i + 1 == schema.len());
        match outcome {
            Ok(v) => {
                vals.push(v);
                proof {
                    assert(vals.deep_view() =~= before.push(v@));
                    assert(schema@.take(schema@.len() as int) =~= schema@);
                }
            },
            Err(e) => {
                failure = e;
                proof {
                    lemma_fields_failure_stands(schema@, capacity, start.remaining(), i + 1);
                }
            },
        }
    }
    match state {
        LoopState::AwaitingRecordOrEom => Ok(vals),
        _ => Err(failure),
    }
}

/// Reads one record of fixed shape: a value of each kind in `schema`, in
/// order. The end-of-message marker in place of any of them is a protocol
/// error.
pub fn read_record(session: &mut Session, schema: &Vec<FieldKind>, capacity: u32) -> (r: Result<
    Vec<FieldValue>,
    DecodeError,
>)
    ensures
        record_view(r) == parse_fields(schema@, capacity, old(session).remaining()).value,
        old(session).advanced_by(
            parse_fields(schema@, capacity, old(session).remaining()).used,
            final(session),
        ),
{
    let start = session.mark();
    let vals: Vec<FieldValue> = Vec::new();
    proof {
        assert(schema@.take(0) =~= Seq::<FieldKind>::empty());
        assert(vals.deep_view() =~= Seq::<Value>::empty());
    }
    read_fields(session, schema, capacity, vals, start)
}

/// Reads a whole message of fixed shape: one record of `schema`, after which
/// the message must end.
pub fn read_message(session: &mut Session, schema: &Vec<FieldKind>, capacity: u32) -> (r: Result<
    Vec<FieldValue>,
    DecodeError,
>)
    ensures
        record_view(r) == parse_message(schema@, capacity, old(session).remaining()).value,
        old(session).advanced_by(
            parse_message(schema@, capacity, old(session).remaining()).used,
            final(session),
        ),
{
    let ghost s = session.remaining();
    let ghost body = parse_fields(schema@, capacity, s);
    match read_record(session, schema, capacity) {
        Err(e) => Err(e),
        Ok(vals) => {
            proof {
                assert(session.remaining() =~= s.skip(body.used as int));
            }
            match session.expect_eom() {
                Ok(_) => Ok(vals),
                Err(e) => Err(e),
            }
        },
    }
}

/// Reads the next record of a repeating message. `None` says that the
/// message ended where the record would have begun.
pub fn next_record(session: &mut Session, schema: &Vec<FieldKind>, capacity: u32) -> (r: Result<
    Option<Vec<FieldValue>>,
    DecodeError,
>)
    requires
        schema.len() > 0,
    ensures
        next_view(r) == parse_next(schema@, capacity, old(session).remaining()).value,
        old(session).advanced_by(
            parse_next(schema@, capacity, old(session).remaining()).used,
            final(session),
        ),
{
    let start = session.mark();
    let ghost s = session.remaining();
    proof {
        lemma_field_read(schema@[0], capacity, s);
    }
    let first = detect_sentinel(session.read_field(schema[0], capacity));
    let state = transition(LoopState::AwaitingRecordOrEom, &first, schema.len() == 1);
    match first {
        Err(e) => Err(e),
        Ok(v) => {
            if state == LoopState::Done {
                Ok(None)
            } else {
                let mut vals: Vec<FieldValue> = Vec::new();
                vals.push(v);
                proof {
                    assert(vals.deep_view() =~= Seq::<Value>::empty().push(v@));
                    assert(schema@.take(1).drop_last() =~= Seq::<FieldKind>::empty());
                    assert(schema@.take(1).last() == schema@[0]);
                    assert(s.skip(0) =~= s);
                    reveal_with_fuel(parse_fields, 2);
                    assert(parse_fields(schema@.take(1).drop_last(), capacity, s).value == Ok::<
                        Seq<Value>,
                        DecodeError,
                    >(Seq::empty()));
                }
                match read_fields(session, schema, capacity, vals, start) {
                    Ok(record) => Ok(Some(record)),
                    Err(e) => Err(e),
                }
            }
        },
    }
}

/// The outcome of a repeating message of which `done` was read in `used`
/// bytes and `rest` is what reading on from there yields.
pub open spec fn continued(done: Seq<Seq<Value>>, used: nat, rest: Outcome<Seq<Seq<Value>>>) -> Outcome<
    Seq<Seq<Value>>,
> {
    match rest.value {
        Ok(more) => Outcome { value: Ok(done + more), used: used + rest.used },
        Err(e) => Outcome { value: Err(e), used: used + rest.used },
    }
}

/// Reads the records of a repeating message up to its end. The records come
/// in the order in which they stand in the stream; a record that is begun
/// and not completed fails the whole read.
pub fn read_records(session: &mut Session, schema: &Vec<FieldKind>, capacity: u32) -> (r: Result<
    Vec<Vec<FieldValue>>,
    DecodeError,
>)
    requires
        schema.len() > 0,
    ensures
        records_view(r) == parse_records(schema@, capacity, old(session).remaining()).value,
        old(session).advanced_by(
            parse_records(schema@, capacity, old(session).remaining()).used,
            final(session),
        ),
{
    let start = session.mark();
    let ghost whole = parse_records(schema@, capacity, session.remaining());
    let ghost mut used: nat = 0;
    let mut records: Vec<Vec<FieldValue>> = Vec::new();
    proof {
        assert(records.deep_view() =~= Seq::<Seq<Value>>::empty());
        let rest = parse_records(schema@, capacity, session.remaining());
        assert(match rest.value {
            Ok(more) => records.deep_view() + more =~= more,
            Err(_) => true,
        });
    }
    loop
        invariant
            schema.len() > 0,
            start@ == *old(session),
            whole == parse_records(schema@, capacity, start@.remaining()),
            start@.advanced_by(used, session),
            whole == continued(
                records.deep_view(),
                used,
                parse_records(schema@, capacity, session.remaining()),
            ),
        decreases session.response().len() - session.position(),
    {
        let ghost s = session.remaining();
        let ghost before = records.deep_view();
        let ghost next = parse_next(schema@, capacity, s);
        proof {
            lemma_fields_used(schema@, capacity, s);
        }
        match next_record(session, schema, capacity) {
            Err(e) => {
                return Err(e);
            },
            Ok(None) => {
                proof {
                    assert(before + Seq::<Seq<Value>>::empty() =~= before);
                }
                return Ok(records);
            },
            Ok(Some(record)) => {
                records.push(record);
                proof {
                    let tail = parse_records(schema@, capacity, s.skip(next.used as int));
                    assert(session.remaining() =~= s.skip(next.used as int));
                    assert(records.deep_view() =~= before.push(record.deep_view()));
                    assert(match tail.value {
                        Ok(more) => before + (seq![record.deep_view()] + more)
                            =~= before.push(record.deep_view()) + more,
                        Err(_) => true,
                    });
                    used = used + next.used;
                }
            },
        }
    }
}

/// Whether every record of `records` holds one value of each kind that
/// `schema` lists.
pub open spec fn records_match(records: Seq<Seq<Value>>, schema: Seq<FieldKind>) -> bool {
    forall|i: int|
        0 <= i < records.len() ==> {
            &&& (#[trigger] records[i]).len() == schema.len()
            &&& forall|j: int| 0 <= j < schema.len() ==> (#[trigger] records[i][j]).has_kind(schema[j])
        }
}

/// The records that a repeating message yields all have the shape of the
/// schema, and reading them uses no more bytes than there are.
pub proof fn lemma_records_match(schema: Seq<FieldKind>, capacity: u32, s: Seq<u8>)
    requires
        schema.len() > 0,
    ensures
        parse_records(schema, capacity, s).used <= s.len(),
        parse_records(schema, capacity, s).value matches Ok(records) ==> records_match(
            records,
            schema,
        ),
    decreases s.len(),
{
    lemma_fields_used(schema, capacity, s);
    lemma_field_read(schema[0], capacity, s);
    let next = parse_next(schema, capacity, s);
    match next.value {
        Ok(Some(record)) => {
            let rest = s.skip(next.used as int);
            lemma_records_match(schema, capacity, rest);
            let tail = parse_records(schema, capacity, rest);
            match tail.value {
                Ok(more) => {
                    let all = seq![record] + more;
                    assert forall|i: int| 0 <= i < all.len() implies {
                        &&& (#[trigger] all[i]).len() == schema.len()
                        &&& forall|j: int|
                            0 <= j < schema.len() ==> (#[trigger] all[i][j]).has_kind(schema[j])
                    } by {
                        if i > 0 {
                            assert(all[i] == more[i - 1]);
                        }
                    }
                },
                Err(_) => {},
            }
        },
        _ => {},
    }
}

/// Reading `count` records of `schema`, each of fixed shape, one after the
/// other. The first failure ends the read.
pub open spec fn parse_counted(schema: Seq<FieldKind>, capacity: u32, count: nat, s: Seq<u8>) -> Outcome<
    Seq<Seq<Value>>,
>
    decreases count,
{
    if count == 0 {
        Outcome { value: Ok(Seq::empty()), used: 0 }
    } else {
        let head = parse_counted(schema, capacity, (count - 1) as nat, s);
        match head.value {
            Err(e) => Outcome { value: Err(e), used: head.used },
            Ok(records) => {
                let record = parse_fields(schema, capacity, s.skip(head.used as int));
                match record.value {
                    Ok(vals) => Outcome {
                        value: Ok(records.push(vals)),
                        used: head.used + record.used,
                    },
                    Err(e) => Outcome { value: Err(e), used: head.used + record.used },
                }
            },
        }
    }
}

/// Once fewer records have failed, more records fail in the same way.
pub proof fn lemma_counted_failure_stands(
    schema: Seq<FieldKind>,
    capacity: u32,
    fewer: nat,
    count: nat,
    s: Seq<u8>,
)
    requires
        fewer <= count,
        parse_counted(schema, capacity, fewer, s).value is Err,
    ensures
        parse_counted(schema, capacity, count, s) == parse_counted(schema, capacity, fewer, s),
    decreases count,
{
    if fewer < count {
        lemma_counted_failure_stands(schema, capacity, fewer, (count - 1) as nat, s);
    }
}

/// The records that a counted read yields are as many as were asked for and
/// all have the shape of the schema; the read uses no more bytes than there
/// are.
pub proof fn lemma_counted_match(schema: Seq<FieldKind>, capacity: u32, count: nat, s: Seq<u8>)
    ensures
        parse_counted(schema, capacity, count, s).used <= s.len(),
        parse_counted(schema, capacity, count, s).value matches Ok(records) ==> records.len()
            == count && records_match(records, schema),
    decreases count,
{
    if count > 0 {
        lemma_counted_match(schema, capacity, (count - 1) as nat, s);
        let head = parse_counted(schema, capacity, (count - 1) as nat, s);
        lemma_fields_used(schema, capacity, s.skip(head.used as int));
    }
}

/// Reads `count` records of `schema`, each of fixed shape.
pub fn read_counted(session: &mut Session, schema: &Vec<FieldKind>, capacity: u32, count: u32) -> (r:
    Result<Vec<Vec<FieldValue>>, DecodeError>)
    ensures
        records_view(r) == parse_counted(
            schema@,
            capacity,
            count as nat,
            old(session).remaining(),
        ).value,
        old(session).advanced_by(
            parse_counted(schema@, capacity, count as nat, old(session).remaining()).used,
            final(session),
        ),
{
    let start = session.mark();
    let ghost s = session.remaining();
    let mut records: Vec<Vec<FieldValue>> = Vec::new();
    let mut i: u32 = 0;
    proof {
        assert(records.deep_view() =~= Seq::<Seq<Value>>::empty());
    }
    while i < count
        invariant
            i <= count,
            start@ == *old(session),
            s == start@.remaining(),
            parse_counted(schema@, capacity, i as nat, s).value == Ok::<
                Seq<Seq<Value>>,
                DecodeError,
            >(records.deep_view()),
            start@.advanced_by(parse_counted(schema@, capacity, i as nat, s).used, session),
        decreases count - i,
    {
        let ghost before = records.deep_view();
        let ghost head = parse_counted(schema@, capacity, i as nat, s);
        proof {
            assert(session.remaining() =~= s.skip(head.used as int));
        }
        match read_record(session, schema, capacity) {
            Err(e) => {
                proof {
                    lemma_counted_failure_stands(
                        schema@,
                        capacity,
                        (i + 1) as nat,
                        count as nat,
                        s,
                    );
                }
                return Err(e);
            },
            Ok(vals) => {
                records.push(vals);
                proof {
                    assert(records.deep_view() =~= before.push(vals.deep_view()));
                }
            },
        }
        i = i + 1;
    }
    Ok(records)
}

} // verus!
