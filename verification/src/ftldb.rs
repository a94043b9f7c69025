//! The `dbstats` command: the state of the daemon's query database.

use vstd::prelude::*;
use vstd::utf8::encode_utf8;
use crate::encode::{encode_fields, lemma_message_roundtrip, record_fits};
use crate::error::DecodeError;
use crate::field::{FieldKind, Value};
use crate::record::{lemma_fields_used, parse_message, read_message};
use crate::session::Session;
use crate::wire::{Outcome, EOM};

verus! {

/// The size in bytes of the storage into which the version of SQLite is
/// read. A longer string fails the command.
pub const VERSION_CAPACITY: u32 = 64;

/// What the `dbstats` command reports. A database without queries, or a
/// daemon without SQLite, reports zeros and an empty version.
#[derive(Clone, Debug, PartialEq, Eq)]
pub struct FtlDb {
    pub queries: i32,
    pub filesize: i64,
    pub sqlite_version: String,
}

/// The database report as contracts see it.
pub struct FtlDbView {
    pub queries: i32,
    pub filesize: i64,
    pub sqlite_version: Seq<char>,
}

impl View for FtlDb {
    type V = FtlDbView;

    open spec fn view(&self) -> FtlDbView {
        FtlDbView {
            queries: self.queries,
            filesize: self.filesize,
            sqlite_version: self.sqlite_version@,
        }
    }
}

/// The fields of the response to `dbstats`, in order.
pub open spec fn ftldb_schema() -> Seq<FieldKind> {
    seq![FieldKind::Int32, FieldKind::Int64, FieldKind::Text]
}

/// The report that the fields of a response to `dbstats` make up.
pub open spec fn ftldb_of(vals: Seq<Value>) -> FtlDbView {
    FtlDbView {
        queries: vals[0]->Int32_0,
        filesize: vals[1]->Int64_0,
        sqlite_version: vals[2]->Text_0,
    }
}

/// Reading the response to `dbstats`: three fields, then the end of the
/// message.
pub open spec fn parse_ftldb(s: Seq<u8>) -> Outcome<FtlDbView> {
    let message = parse_message(ftldb_schema(), VERSION_CAPACITY, s);
    match message.value {
        Ok(vals) => Outcome { value: Ok(ftldb_of(vals)), used: message.used },
        Err(e) => Outcome { value: Err(e), used: message.used },
    }
}

fn ftldb_fields() -> (schema: Vec<FieldKind>)
    ensures
        schema@ == ftldb_schema(),
{
    let schema = vec![FieldKind::Int32, FieldKind::Int64, FieldKind::Text];
    proof {
        assert(schema@ =~= ftldb_schema());
    }
    schema
}

/// Reads the response to `dbstats`.
pub fn get_ftldb(session: &mut Session) -> (r: Result<FtlDb, DecodeError>)
    ensures
        match r {
            Ok(db) => parse_ftldb(old(session).remaining()).value == Ok::<FtlDbView, DecodeError>(
                db@,
            ),
            Err(e) => parse_ftldb(old(session).remaining()).value == Err::<FtlDbView, DecodeError>(
                e,
            ),
        },
        old(session).advanced_by(parse_ftldb(old(session).remaining()).used, final(session)),
{
    let schema = ftldb_fields();
    proof {
        lemma_fields_used(schema@, VERSION_CAPACITY, session.remaining());
    }
    match read_message(session, &schema, VERSION_CAPACITY) {
        Err(e) => Err(e),
        Ok(vals) => {
            proof {
                let seen = vals.deep_view();
                assert(seen[0] == vals[0]@);
                assert(seen[1] == vals[1]@);
                assert(seen[2] == vals[2]@);
                assert(seen[0].has_kind(schema@[0]));
                assert(seen[1].has_kind(schema@[1]));
                assert(seen[2].has_kind(schema@[2]));
            }
            Ok(
                FtlDb {
                    queries: vals[0].as_i32(),
                    filesize: vals[1].as_i64(),
                    sqlite_version: vals[2].to_text(),
                },
            )
        },
    }
}

/// The fields that a database report is written as, in order.
pub open spec fn ftldb_values(db: FtlDbView) -> Seq<Value> {
    seq![Value::Int32(db.queries), Value::Int64(db.filesize), Value::Text(db.sqlite_version)]
}

/// A database report that is written field by field and closed by the
/// end-of-message marker is read back as it was written, zeros and an
/// empty version included, provided that the version fits its storage.
pub proof fn lemma_ftldb_roundtrip(db: FtlDbView, rest: Seq<u8>)
    requires
        encode_utf8(db.sqlite_version).len() <= VERSION_CAPACITY,
    ensures
        parse_ftldb(encode_fields(ftldb_values(db)) + seq![EOM] + rest) == (Outcome {
            value: Ok::<FtlDbView, DecodeError>(db),
            used: encode_fields(ftldb_values(db)).len() + 1,
        }),
{
    let vals = ftldb_values(db);
    assert(record_fits(vals, ftldb_schema(), VERSION_CAPACITY));
    lemma_message_roundtrip(vals, ftldb_schema(), VERSION_CAPACITY, rest);
}

} // verus!
