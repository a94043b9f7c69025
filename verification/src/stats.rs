//! The statistics commands: what each response holds and how it is read.

use std::collections::HashMap;
use vstd::prelude::*;
use vstd::string::StringExecFns;
use vstd::utf8::encode_utf8;
use crate::encode::{
    encode_fields, encode_i32, encode_records, lemma_fields_roundtrip,
    lemma_message_roundtrip, lemma_records_roundtrip, lemma_single_field, record_fits,
    records_fit,
};
use crate::error::DecodeError;
use crate::field::{FieldKind, Value};
use crate::machine::{in_record, require_value};
use crate::record::{
    lemma_counted_match, lemma_fields_used, lemma_records_match, parse_counted, parse_fields,
    parse_message, parse_records, read_counted, read_message, read_record, read_records,
    records_match,
};
use crate::session::Session;
use crate::tally::{fold_counts, lemma_last_write_wins, Tally};
use crate::wire::{parse_map_len, Outcome, EOM};

verus! {

/// The size in bytes of the storage into which the statistics commands read
/// a string. A longer string fails its command.
pub const STRING_CAPACITY: u32 = 4096;

/// The totals that the `stats` command reports.
#[derive(Clone, Copy, Debug, PartialEq, Eq, Structural)]
pub struct Summary {
    pub domains_blocked: i32,
    pub total_queries: i32,
    pub blocked_queries: i32,
    /// The share of blocked queries, a 32-bit float given by its bit pattern.
    pub percent_blocked_bits: u32,
    pub unique_domains: i32,
    pub forwarded_queries: i32,
    pub cached_queries: i32,
    pub total_clients: i32,
    pub unique_clients: i32,
    pub status: u8,
}

/// The fields of the response to `stats`, in order.
pub open spec fn summary_schema() -> Seq<FieldKind> {
    seq![
        FieldKind::Int32,
        FieldKind::Int32,
        FieldKind::Int32,
        FieldKind::Float32,
        FieldKind::Int32,
        FieldKind::Int32,
        FieldKind::Int32,
        FieldKind::Int32,
        FieldKind::Int32,
        FieldKind::UInt8,
    ]
}

/// The summary that the fields of a response to `stats` make up.
pub open spec fn summary_of(vals: Seq<Value>) -> Summary {
    Summary {
        domains_blocked: vals[0]->Int32_0,
        total_queries: vals[1]->Int32_0,
        blocked_queries: vals[2]->Int32_0,
        percent_blocked_bits: vals[3]->Float32_0,
        unique_domains: vals[4]->Int32_0,
        forwarded_queries: vals[5]->Int32_0,
        cached_queries: vals[6]->Int32_0,
        total_clients: vals[7]->Int32_0,
        unique_clients: vals[8]->Int32_0,
        status: vals[9]->UInt8_0,
    }
}

/// Reading the response to `stats`: ten fields, then the end of the message.
pub open spec fn parse_summary(s: Seq<u8>) -> Outcome<Summary> {
    let message = parse_message(summary_schema(), STRING_CAPACITY, s);
    match message.value {
        Ok(vals) => Outcome { value: Ok(summary_of(vals)), used: message.used },
        Err(e) => Outcome { value: Err(e), used: message.used },
    }
}

fn summary_fields() -> (schema: Vec<FieldKind>)
    ensures
        schema@ == summary_schema(),
{
    let schema = vec![
        FieldKind::Int32,
        FieldKind::Int32,
        FieldKind::Int32,
        FieldKind::Float32,
        FieldKind::Int32,
        FieldKind::Int32,
        FieldKind::Int32,
        FieldKind::Int32,
        FieldKind::Int32,
        FieldKind::UInt8,
    ];
    proof {
        assert(schema@ =~= summary_schema());
    }
    schema
}

/// Reads the response to `stats`.
pub fn summary(session: &mut Session) -> (r: Result<Summary, DecodeError>)
    ensures
        r == parse_summary(old(session).remaining()).value,
        old(session).advanced_by(parse_summary(old(session).remaining()).used, final(session)),
{
    let schema = summary_fields();
    proof {
        lemma_fields_used(schema@, STRING_CAPACITY, session.remaining());
    }
    match read_message(session, &schema, STRING_CAPACITY) {
        Err(e) => Err(e),
        Ok(vals) => {
            proof {
                let seen = vals.deep_view();
                assert forall|i: int| 0 <= i < 10 implies seen[i] == #[trigger] vals[i]@ by {}
                assert(seen[0].has_kind(schema@[0]));
                assert(seen[1].has_kind(schema@[1]));
                assert(seen[2].has_kind(schema@[2]));
                assert(seen[3].has_kind(schema@[3]));
                assert(seen[4].has_kind(schema@[4]));
                assert(seen[5].has_kind(schema@[5]));
                assert(seen[6].has_kind(schema@[6]));
                assert(seen[7].has_kind(schema@[7]));
                assert(seen[8].has_kind(schema@[8]));
                assert(seen[9].has_kind(schema@[9]));
            }
            Ok(
                Summary {
                    domains_blocked: vals[0].as_i32(),
                    total_queries: vals[1].as_i32(),
                    blocked_queries: vals[2].as_i32(),
                    percent_blocked_bits: vals[3].as_f32_bits(),
                    unique_domains: vals[4].as_i32(),
                    forwarded_queries: vals[5].as_i32(),
                    cached_queries: vals[6].as_i32(),
                    total_clients: vals[7].as_i32(),
                    unique_clients: vals[8].as_i32(),
                    status: vals[9].as_u8(),
                },
            )
        },
    }
}

/// One answered query, as the `getallqueries` command reports it.
#[derive(Clone, Debug, PartialEq, Eq)]
pub struct Query {
    pub timestamp: i32,
    pub query_type: String,
    pub domain: String,
    pub client: String,
    pub status: u8,
    pub dnssec: u8,
}

/// A query as contracts see it.
pub struct QueryView {
    pub timestamp: i32,
    pub query_type: Seq<char>,
    pub domain: Seq<char>,
    pub client: Seq<char>,
    pub status: u8,
    pub dnssec: u8,
}

impl View for Query {
    type V = QueryView;

    open spec fn view(&self) -> QueryView {
        QueryView {
            timestamp: self.timestamp,
            query_type: self.query_type@,
            domain: self.domain@,
            client: self.client@,
            status: self.status,
            dnssec: self.dnssec,
        }
    }
}

impl DeepView for Query {
    type V = QueryView;

    open spec fn deep_view(&self) -> QueryView {
        self.view()
    }
}

/// The fields of one record of the response to `getallqueries`, in order.
pub open spec fn history_schema() -> Seq<FieldKind> {
    seq![
        FieldKind::Int32,
        FieldKind::Text,
        FieldKind::Text,
        FieldKind::Text,
        FieldKind::UInt8,
        FieldKind::UInt8,
    ]
}

/// The query that the fields of one record make up.
pub open spec fn query_of(vals: Seq<Value>) -> QueryView {
    QueryView {
        timestamp: vals[0]->Int32_0,
        query_type: vals[1]->Text_0,
        domain: vals[2]->Text_0,
        client: vals[3]->Text_0,
        status: vals[4]->UInt8_0,
        dnssec: vals[5]->UInt8_0,
    }
}

/// Reading the response to `getallqueries`: the queries in the order in
/// which they stand in the stream.
pub open spec fn parse_history(s: Seq<u8>) -> Outcome<Seq<QueryView>> {
    let body = parse_records(history_schema(), STRING_CAPACITY, s);
    match body.value {
        Ok(records) => Outcome {
            value: Ok(Seq::new(records.len(), |i: int| query_of(records[i]))),
            used: body.used,
        },
        Err(e) => Outcome { value: Err(e), used: body.used },
    }
}

/// What reading the history yields, as contracts see it.
pub open spec fn history_view(r: Result<Vec<Query>, DecodeError>) -> Result<
    Seq<QueryView>,
    DecodeError,
> {
    match r {
        Ok(queries) => Ok(queries.deep_view()),
        Err(e) => Err(e),
    }
}

fn history_fields() -> (schema: Vec<FieldKind>)
    ensures
        schema@ == history_schema(),
{
    let schema = vec![
        FieldKind::Int32,
        FieldKind::Text,
        FieldKind::Text,
        FieldKind::Text,
        FieldKind::UInt8,
        FieldKind::UInt8,
    ];
    proof {
        assert(schema@ =~= history_schema());
    }
    schema
}

/// Reads the response to `getallqueries`. The queries come out in the order
/// in which they arrive; none is dropped or merged with another.
pub fn history(session: &mut Session) -> (r: Result<Vec<Query>, DecodeError>)
    ensures
        history_view(r) == parse_history(old(session).remaining()).value,
        old(session).advanced_by(parse_history(old(session).remaining()).used, final(session)),
{
    let schema = history_fields();
    proof {
        lemma_records_match(schema@, STRING_CAPACITY, session.remaining());
    }
    let records = match read_records(session, &schema, STRING_CAPACITY) {
        Ok(records) => records,
        Err(e) => {
            return Err(e);
        },
    };
    let ghost seen = records.deep_view();
    let mut queries: Vec<Query> = Vec::new();
    let n: usize = records.len();
    let mut i: usize = 0;
    while i < n
        invariant
            i <= n,
            n == records.len(),
            seen == records.deep_view(),
            records_match(seen, history_schema()),
            queries.len() == i,
            forall|k: int| 0 <= k < i ==> (#[trigger] queries[k])@ == query_of(seen[k]),
        decreases n - i,
    {
        let vals = &records[i];
        proof {
            let record = seen[i as int];
            assert(record == vals.deep_view());
            assert forall|j: int| 0 <= j < 6 implies record[j] == #[trigger] vals[j]@ by {}
            assert(record[0].has_kind(history_schema()[0]));
            assert(record[1].has_kind(history_schema()[1]));
            assert(record[2].has_kind(history_schema()[2]));
            assert(record[3].has_kind(history_schema()[3]));
            assert(record[4].has_kind(history_schema()[4]));
            assert(record[5].has_kind(history_schema()[5]));
        }
        queries.push(
            Query {
                timestamp: vals[0].as_i32(),
                query_type: vals[1].to_text(),
                domain: vals[2].to_text(),
                client: vals[3].to_text(),
                status: vals[4].as_u8(),
                dnssec: vals[5].as_u8(),
            },
        );
        i = i + 1;
    }
    proof {
        assert(queries.deep_view() =~= Seq::new(seen.len(), |k: int| query_of(seen[k])));
    }
    Ok(queries)
}

/// The field that opens the response to a tally command: a total.
pub open spec fn total_schema() -> Seq<FieldKind> {
    seq![FieldKind::Int32]
}

/// The records and the pairing of a tally command: for the list of clients
/// three fields, of which the first two make the name; for a list of domains
/// the domain and its count.
pub open spec fn tally_schema(clients: bool) -> Seq<FieldKind> {
    if clients {
        client_schema()
    } else {
        domain_schema()
    }
}

/// The name and the count that one record of a tally command holds.
pub open spec fn tally_pair(clients: bool, vals: Seq<Value>) -> (Seq<char>, i32) {
    if clients {
        client_count(vals)
    } else {
        domain_count(vals)
    }
}

/// The names and counts that the records of a tally command hold, in order.
pub open spec fn tally_pairs(clients: bool, records: Seq<Seq<Value>>) -> Seq<(Seq<char>, i32)> {
    Seq::new(records.len(), |i: int| tally_pair(clients, records[i]))
}

/// Reading the response to a tally command: a total, then records up to
/// the end of the message, each a name and a count. A later count for a
/// name replaces the earlier one.
pub open spec fn parse_tally(clients: bool, s: Seq<u8>) -> Outcome<(i32, Map<Seq<char>, i32>)> {
    let head = parse_fields(total_schema(), STRING_CAPACITY, s);
    match head.value {
        Err(e) => Outcome { value: Err(e), used: head.used },
        Ok(total) => {
            let body = parse_records(
                tally_schema(clients),
                STRING_CAPACITY,
                s.skip(head.used as int),
            );
            match body.value {
                Err(e) => Outcome { value: Err(e), used: head.used + body.used },
                Ok(records) => Outcome {
                    value: Ok((total[0]->Int32_0, fold_counts(tally_pairs(clients, records)))),
                    used: head.used + body.used,
                },
            }
        },
    }
}

fn total_fields() -> (schema: Vec<FieldKind>)
    ensures
        schema@ == total_schema(),
{
    let schema = vec![FieldKind::Int32];
    proof {
        assert(schema@ =~= total_schema());
    }
    schema
}

/// Reads the total that opens the response to a tally command.
fn read_total(session: &mut Session) -> (r: Result<i32, DecodeError>)
    ensures
        match r {
            Ok(total) => parse_fields(
                total_schema(),
                STRING_CAPACITY,
                old(session).remaining(),
            ).value matches Ok(vals) && vals[0] == Value::Int32(total),
            Err(e) => parse_fields(total_schema(), STRING_CAPACITY, old(session).remaining()).value
                == Err::<Seq<Value>, DecodeError>(e),
        },
        old(session).advanced_by(
            parse_fields(total_schema(), STRING_CAPACITY, old(session).remaining()).used,
            final(session),
        ),
{
    let schema = total_fields();
    proof {
        lemma_fields_used(schema@, STRING_CAPACITY, session.remaining());
    }
    match read_record(session, &schema, STRING_CAPACITY) {
        Err(e) => Err(e),
        Ok(vals) => {
            proof {
                let seen = vals.deep_view();
                assert(seen[0] == vals[0]@);
                assert(seen[0].has_kind(schema@[0]));
            }
            Ok(vals[0].as_i32())
        },
    }
}

/// The domains, permitted or blocked, that were asked for most often.
pub struct TopList {
    /// Whether this is the list of blocked domains.
    pub blocked: bool,
    /// The number of queries that the list is taken from: all queries, or
    /// for the list of blocked domains the blocked ones.
    pub queries: i32,
    /// The number of queries by domain.
    pub top: Tally,
}

/// The fields of one record of the response to `top-domains` or `top-ads`.
pub open spec fn domain_schema() -> Seq<FieldKind> {
    seq![FieldKind::Text, FieldKind::Int32]
}

/// The domain and the count that one record holds.
pub open spec fn domain_count(vals: Seq<Value>) -> (Seq<char>, i32) {
    (vals[0]->Text_0, vals[1]->Int32_0)
}

/// Reading the response to `top-domains` or `top-ads`.
pub open spec fn parse_top_list(s: Seq<u8>) -> Outcome<(i32, Map<Seq<char>, i32>)> {
    parse_tally(false, s)
}

fn domain_fields() -> (schema: Vec<FieldKind>)
    ensures
        schema@ == domain_schema(),
{
    let schema = vec![FieldKind::Text, FieldKind::Int32];
    proof {
        assert(schema@ =~= domain_schema());
    }
    schema
}

/// Reads the response to `top-domains`, or with `blocked` set to `top-ads`.
/// A domain that occurs twice is listed once, with the later count.
pub fn get_top_domains(session: &mut Session, blocked: bool) -> (r: Result<TopList, DecodeError>)
    ensures
        match r {
            Ok(list) => {
                &&& list.blocked == blocked
                &&& list.top.wf()
                &&& parse_top_list(old(session).remaining()).value == Ok::<
                    (i32, Map<Seq<char>, i32>),
                    DecodeError,
                >((list.queries, list.top@))
            },
            Err(e) => parse_top_list(old(session).remaining()).value == Err::<
                (i32, Map<Seq<char>, i32>),
                DecodeError,
            >(e),
        },
        old(session).advanced_by(parse_top_list(old(session).remaining()).used, final(session)),
{
    let ghost s = session.remaining();
    let ghost head = parse_fields(total_schema(), STRING_CAPACITY, s);
    let queries = match read_total(session) {
        Ok(total) => total,
        Err(e) => {
            return Err(e);
        },
    };
    let schema = domain_fields();
    proof {
        assert(session.remaining() =~= s.skip(head.used as int));
        lemma_records_match(schema@, STRING_CAPACITY, session.remaining());
    }
    let records = match read_records(session, &schema, STRING_CAPACITY) {
        Ok(records) => records,
        Err(e) => {
            return Err(e);
        },
    };
    let ghost seen = records.deep_view();
    let mut top = Tally::new();
    let n: usize = records.len();
    let mut i: usize = 0;
    proof {
        assert(tally_pairs(false, seen.take(0)) =~= Seq::<(Seq<char>, i32)>::empty());
    }
    while i < n
        invariant
            i <= n,
            n == records.len(),
            seen == records.deep_view(),
            records_match(seen, domain_schema()),
            top.wf(),
            top@ == fold_counts(tally_pairs(false, seen.take(i as int))),
        decreases n - i,
    {
        let vals = &records[i];
        proof {
            let record = seen[i as int];
            assert(record == vals.deep_view());
            assert(record[0] == vals[0]@);
            assert(record[1] == vals[1]@);
            assert(record[0].has_kind(domain_schema()[0]));
            assert(record[1].has_kind(domain_schema()[1]));
            let longer = tally_pairs(false, seen.take(i + 1));
            assert(longer.drop_last() =~= tally_pairs(false, seen.take(i as int)));
            assert(longer.last() == domain_count(record));
        }
        top.insert(vals[0].to_text(), vals[1].as_i32());
        i = i + 1;
    }
    proof {
        assert(seen.take(n as int) =~= seen);
    }
    Ok(TopList { blocked, queries, top })
}

/// Reads the response to `top-domains`.
pub fn top_domains(session: &mut Session) -> (r: Result<TopList, DecodeError>)
    ensures
        match r {
            Ok(list) => {
                &&& !list.blocked
                &&& list.top.wf()
                &&& parse_top_list(old(session).remaining()).value == Ok::<
                    (i32, Map<Seq<char>, i32>),
                    DecodeError,
                >((list.queries, list.top@))
            },
            Err(e) => parse_top_list(old(session).remaining()).value == Err::<
                (i32, Map<Seq<char>, i32>),
                DecodeError,
            >(e),
        },
        old(session).advanced_by(parse_top_list(old(session).remaining()).used, final(session)),
{
    get_top_domains(session, false)
}

/// Reads the response to `top-ads`.
pub fn top_blocked(session: &mut Session) -> (r: Result<TopList, DecodeError>)
    ensures
        match r {
            Ok(list) => {
                &&& list.blocked
                &&& list.top.wf()
                &&& parse_top_list(old(session).remaining()).value == Ok::<
                    (i32, Map<Seq<char>, i32>),
                    DecodeError,
                >((list.queries, list.top@))
            },
            Err(e) => parse_top_list(old(session).remaining()).value == Err::<
                (i32, Map<Seq<char>, i32>),
                DecodeError,
            >(e),
        },
        old(session).advanced_by(parse_top_list(old(session).remaining()).used, final(session)),
{
    get_top_domains(session, true)
}

/// The clients that asked most often.
pub struct TopClients {
    /// The number of all queries.
    pub total_queries: i32,
    /// The number of queries by client.
    pub top_clients: Tally,
}

/// The name under which a client is listed: its display name alone where it
/// has no address, else the display name, a bar and the address.
pub open spec fn client_key_of(name: Seq<char>, address: Seq<char>) -> Seq<char> {
    if address.len() == 0 {
        name
    } else {
        name + seq!['|'] + address
    }
}

/// Makes the name under which a client is listed.
pub fn client_key(name: String, address: &String) -> (key: String)
    ensures
        key@ == client_key_of(name@, address@),
{
    if address.as_str().is_empty() {
        name
    } else {
        proof {
            reveal_strlit("|");
            assert("|"@ =~= seq!['|']);
        }
        name.concat("|").concat(address.as_str())
    }
}

/// The fields of one record of the response to `top-clients`.
pub open spec fn client_schema() -> Seq<FieldKind> {
    seq![FieldKind::Text, FieldKind::Text, FieldKind::Int32]
}

/// The listed name and the count that one record holds.
pub open spec fn client_count(vals: Seq<Value>) -> (Seq<char>, i32) {
    (client_key_of(vals[0]->Text_0, vals[1]->Text_0), vals[2]->Int32_0)
}

/// Reading the response to `top-clients`.
pub open spec fn parse_top_clients(s: Seq<u8>) -> Outcome<(i32, Map<Seq<char>, i32>)> {
    parse_tally(true, s)
}

fn client_fields() -> (schema: Vec<FieldKind>)
    ensures
        schema@ == client_schema(),
{
    let schema = vec![FieldKind::Text, FieldKind::Text, FieldKind::Int32];
    proof {
        assert(schema@ =~= client_schema());
    }
    schema
}

/// Reads the response to `top-clients`. A client that occurs twice is listed
/// once, with the later count.
pub fn top_clients(session: &mut Session) -> (r: Result<TopClients, DecodeError>)
    ensures
        match r {
            Ok(list) => {
                &&& list.top_clients.wf()
                &&& parse_top_clients(old(session).remaining()).value == Ok::<
                    (i32, Map<Seq<char>, i32>),
                    DecodeError,
                >((list.total_queries, list.top_clients@))
            },
            Err(e) => parse_top_clients(old(session).remaining()).value == Err::<
                (i32, Map<Seq<char>, i32>),
                DecodeError,
            >(e),
        },
        old(session).advanced_by(parse_top_clients(old(session).remaining()).used, final(session)),
{
    let ghost s = session.remaining();
    let ghost head = parse_fields(total_schema(), STRING_CAPACITY, s);
    let total_queries = match read_total(session) {
        Ok(total) => total,
        Err(e) => {
            return Err(e);
        },
    };
    let schema = client_fields();
    proof {
        assert(session.remaining() =~= s.skip(head.used as int));
        lemma_records_match(schema@, STRING_CAPACITY, session.remaining());
    }
    let records = match read_records(session, &schema, STRING_CAPACITY) {
        Ok(records) => records,
        Err(e) => {
            return Err(e);
        },
    };
    let ghost seen = records.deep_view();
    let mut top_clients = Tally::new();
    let n: usize = records.len();
    let mut i: usize = 0;
    proof {
        assert(tally_pairs(true, seen.take(0)) =~= Seq::<(Seq<char>, i32)>::empty());
    }
    while i < n
        invariant
            i <= n,
            n == records.len(),
            seen == records.deep_view(),
            records_match(seen, client_schema()),
            top_clients.wf(),
            top_clients@ == fold_counts(tally_pairs(true, seen.take(i as int))),
        decreases n - i,
    {
        let vals = &records[i];
        proof {
            let record = seen[i as int];
            assert(record == vals.deep_view());
            assert(record[0] == vals[0]@);
            assert(record[1] == vals[1]@);
            assert(record[2] == vals[2]@);
            assert(record[0].has_kind(client_schema()[0]));
            assert(record[1].has_kind(client_schema()[1]));
            assert(record[2].has_kind(client_schema()[2]));
            let longer = tally_pairs(true, seen.take(i + 1));
            assert(longer.drop_last() =~= tally_pairs(true, seen.take(i as int)));
            assert(longer.last() == client_count(record));
        }
        let address = vals[1].to_text();
        let key = client_key(vals[0].to_text(), &address);
        top_clients.insert(key, vals[2].as_i32());
        i = i + 1;
    }
    proof {
        assert(seen.take(n as int) =~= seen);
    }
    Ok(TopClients { total_queries, top_clients })
}

/// The fields of one entry of a map from time to count.
pub open spec fn bucket_schema() -> Seq<FieldKind> {
    seq![FieldKind::Int32, FieldKind::Int32]
}

/// The time and the count that one entry holds.
pub open spec fn bucket_count(vals: Seq<Value>) -> (i32, i32) {
    (vals[0]->Int32_0, vals[1]->Int32_0)
}

/// The times and counts that the entries of a map hold, in order.
pub open spec fn bucket_pairs(records: Seq<Seq<Value>>) -> Seq<(i32, i32)> {
    Seq::new(records.len(), |i: int| bucket_count(records[i]))
}

/// Reading a map from time to count: the number of entries, then as many
/// pairs of integers. The end-of-message marker in place of the number is a
/// protocol error, as it is in place of any value. A later count for a time
/// replaces the earlier one.
pub open spec fn parse_int_map(s: Seq<u8>) -> Outcome<Map<i32, i32>> {
    let head = parse_map_len(s);
    match in_record(head.value) {
        Err(e) => Outcome { value: Err(e), used: head.used },
        Ok(count) => {
            let body = parse_counted(
                bucket_schema(),
                STRING_CAPACITY,
                count as nat,
                s.skip(head.used as int),
            );
            match body.value {
                Err(e) => Outcome { value: Err(e), used: head.used + body.used },
                Ok(records) => Outcome {
                    value: Ok(fold_counts(bucket_pairs(records))),
                    used: head.used + body.used,
                },
            }
        },
    }
}

fn bucket_fields() -> (schema: Vec<FieldKind>)
    ensures
        schema@ == bucket_schema(),
{
    let schema = vec![FieldKind::Int32, FieldKind::Int32];
    proof {
        assert(schema@ =~= bucket_schema());
    }
    schema
}

/// Reads a map from time to count.
pub fn read_int_map(session: &mut Session) -> (r: Result<HashMap<i32, i32>, DecodeError>)
    ensures
        match r {
            Ok(map) => parse_int_map(old(session).remaining()).value == Ok::<
                Map<i32, i32>,
                DecodeError,
            >(map@),
            Err(e) => parse_int_map(old(session).remaining()).value == Err::<
                Map<i32, i32>,
                DecodeError,
            >(e),
        },
        old(session).advanced_by(parse_int_map(old(session).remaining()).used, final(session)),
{
    broadcast use vstd::std_specs::hash::group_hash_axioms;

    let ghost s = session.remaining();
    let ghost head = parse_map_len(s);
    let count = match require_value(session.read_map_len()) {
        Ok(count) => count,
        Err(e) => {
            return Err(e);
        },
    };
    let schema = bucket_fields();
    proof {
        assert(session.remaining() =~= s.skip(head.used as int));
        lemma_counted_match(schema@, STRING_CAPACITY, count as nat, session.remaining());
    }
    let records = match read_counted(session, &schema, STRING_CAPACITY, count) {
        Ok(records) => records,
        Err(e) => {
            return Err(e);
        },
    };
    let ghost seen = records.deep_view();
    let mut map: HashMap<i32, i32> = HashMap::new();
    let n: usize = records.len();
    let mut i: usize = 0;
    proof {
        assert(bucket_pairs(seen.take(0)) =~= Seq::<(i32, i32)>::empty());
    }
    while i < n
        invariant
            i <= n,
            n == records.len(),
            seen == records.deep_view(),
            records_match(seen, bucket_schema()),
            map@ == fold_counts(bucket_pairs(seen.take(i as int))),
        decreases n - i,
    {
        let vals = &records[i];
        proof {
            let record = seen[i as int];
            assert(record == vals.deep_view());
            assert(record[0] == vals[0]@);
            assert(record[1] == vals[1]@);
            assert(record[0].has_kind(bucket_schema()[0]));
            assert(record[1].has_kind(bucket_schema()[1]));
            let longer = bucket_pairs(seen.take(i + 1));
            assert(longer.drop_last() =~= bucket_pairs(seen.take(i as int)));
            assert(longer.last() == bucket_count(record));
        }
        map.insert(vals[0].as_i32(), vals[1].as_i32());
        i = i + 1;
    }
    proof {
        assert(seen.take(n as int) =~= seen);
    }
    Ok(map)
}

/// The queries over time that the `overTime` command reports.
pub struct OverTime {
    /// The number of all queries by time.
    pub domains_over_time: HashMap<i32, i32>,
    /// The number of blocked queries by time.
    pub blocked_over_time: HashMap<i32, i32>,
}

/// Reading the response to `overTime`: two maps from time to count.
pub open spec fn parse_over_time(s: Seq<u8>) -> Outcome<(Map<i32, i32>, Map<i32, i32>)> {
    let first = parse_int_map(s);
    match first.value {
        Err(e) => Outcome { value: Err(e), used: first.used },
        Ok(domains) => {
            let second = parse_int_map(s.skip(first.used as int));
            match second.value {
                Err(e) => Outcome { value: Err(e), used: first.used + second.used },
                Ok(blocked) => Outcome {
                    value: Ok((domains, blocked)),
                    used: first.used + second.used,
                },
            }
        },
    }
}

/// Reads the response to `overTime`. The maps announce their lengths, so
/// the read ends with the second map; the end-of-message marker after it is
/// left unread.
pub fn over_time(session: &mut Session) -> (r: Result<OverTime, DecodeError>)
    ensures
        match r {
            Ok(both) => parse_over_time(old(session).remaining()).value == Ok::<
                (Map<i32, i32>, Map<i32, i32>),
                DecodeError,
            >((both.domains_over_time@, both.blocked_over_time@)),
            Err(e) => parse_over_time(old(session).remaining()).value == Err::<
                (Map<i32, i32>, Map<i32, i32>),
                DecodeError,
            >(e),
        },
        old(session).advanced_by(parse_over_time(old(session).remaining()).used, final(session)),
{
    let ghost s = session.remaining();
    let ghost first = parse_int_map(s);
    let domains_over_time = match read_int_map(session) {
        Ok(map) => map,
        Err(e) => {
            return Err(e);
        },
    };
    proof {
        assert(session.remaining() =~= s.skip(first.used as int));
    }
    let blocked_over_time = match read_int_map(session) {
        Ok(map) => map,
        Err(e) => {
            return Err(e);
        },
    };
    Ok(OverTime { domains_over_time, blocked_over_time })
}

/// The fields that a summary is written as, in order.
pub open spec fn summary_values(v: Summary) -> Seq<Value> {
    seq![
        Value::Int32(v.domains_blocked),
        Value::Int32(v.total_queries),
        Value::Int32(v.blocked_queries),
        Value::Float32(v.percent_blocked_bits),
        Value::Int32(v.unique_domains),
        Value::Int32(v.forwarded_queries),
        Value::Int32(v.cached_queries),
        Value::Int32(v.total_clients),
        Value::Int32(v.unique_clients),
        Value::UInt8(v.status),
    ]
}

/// A summary that is written field by field and closed by the
/// end-of-message marker is read back as it was written, and the read uses
/// exactly the bytes that were written.
pub proof fn lemma_summary_roundtrip(v: Summary, rest: Seq<u8>)
    ensures
        parse_summary(encode_fields(summary_values(v)) + seq![EOM] + rest) == (Outcome {
            value: Ok::<Summary, DecodeError>(v),
            used: encode_fields(summary_values(v)).len() + 1,
        }),
{
    let vals = summary_values(v);
    assert(record_fits(vals, summary_schema(), STRING_CAPACITY));
    lemma_message_roundtrip(vals, summary_schema(), STRING_CAPACITY, rest);
}

/// The fields that a query is written as, in order.
pub open spec fn query_values(q: QueryView) -> Seq<Value> {
    seq![
        Value::Int32(q.timestamp),
        Value::Text(q.query_type),
        Value::Text(q.domain),
        Value::Text(q.client),
        Value::UInt8(q.status),
        Value::UInt8(q.dnssec),
    ]
}

/// Whether the strings of the query fit the storage that they are read into.
pub open spec fn query_fits(q: QueryView) -> bool {
    &&& encode_utf8(q.query_type).len() <= STRING_CAPACITY
    &&& encode_utf8(q.domain).len() <= STRING_CAPACITY
    &&& encode_utf8(q.client).len() <= STRING_CAPACITY
}

/// The history comes out in the order in which it went in: queries that are
/// written one after the other and closed by the end-of-message marker are
/// read back one for one, in that order. No queries at all are read back as
/// none.
pub proof fn lemma_history_roundtrip(queries: Seq<QueryView>, rest: Seq<u8>)
    requires
        forall|i: int| 0 <= i < queries.len() ==> query_fits(#[trigger] queries[i]),
    ensures
        parse_history(
            encode_records(Seq::new(queries.len(), |i: int| query_values(queries[i]))) + seq![EOM]
                + rest,
        ).value == Ok::<Seq<QueryView>, DecodeError>(queries),
{
    let records = Seq::new(queries.len(), |i: int| query_values(queries[i]));
    assert forall|i: int| 0 <= i < records.len() implies record_fits(
        #[trigger] records[i],
        history_schema(),
        STRING_CAPACITY,
    ) by {
        assert(query_fits(queries[i]));
    }
    lemma_records_roundtrip(records, history_schema(), STRING_CAPACITY, rest);
    assert(Seq::new(records.len(), |i: int| query_of(records[i])) =~= queries);
}

/// A tally is read back from what was written: the total, then the names
/// and counts in the order of the records, the later count replacing the
/// earlier one for a name that occurs twice. The read uses exactly the bytes
/// of the total, the records and the end-of-message marker.
pub proof fn lemma_tally_roundtrip(
    clients: bool,
    total: i32,
    records: Seq<Seq<Value>>,
    rest: Seq<u8>,
)
    requires
        records_fit(records, tally_schema(clients), STRING_CAPACITY),
    ensures
        parse_tally(clients, encode_i32(total) + encode_records(records) + seq![EOM] + rest) == (
        Outcome {
            value: Ok::<(i32, Map<Seq<char>, i32>), DecodeError>(
                (total, fold_counts(tally_pairs(clients, records))),
            ),
            used: 5 + encode_records(records).len() + 1,
        }),
{
    let tail = encode_records(records) + seq![EOM] + rest;
    let s = encode_i32(total) + encode_records(records) + seq![EOM] + rest;
    assert(s =~= encode_i32(total) + tail);
    lemma_total_is_read(total, tail);
    assert(s.skip(5) =~= tail);
    lemma_records_roundtrip(records, tally_schema(clients), STRING_CAPACITY, rest);
}

/// The total that opens a response is read back as it was written, whatever
/// follows.
proof fn lemma_total_is_read(total: i32, tail: Seq<u8>)
    ensures
        parse_fields(total_schema(), STRING_CAPACITY, encode_i32(total) + tail) == (Outcome {
            value: Ok::<Seq<Value>, DecodeError>(seq![Value::Int32(total)]),
            used: 5,
        }),
{
    let head = seq![Value::Int32(total)];
    lemma_single_field(Value::Int32(total));
    assert(record_fits(head, total_schema(), STRING_CAPACITY));
    lemma_fields_roundtrip(head, total_schema(), STRING_CAPACITY, tail);
}

/// A tally command whose response ends right after the total lists
/// nothing: the read yields the total and the empty mapping.
pub proof fn lemma_empty_tally(clients: bool, total: i32, rest: Seq<u8>)
    ensures
        parse_tally(clients, encode_i32(total) + seq![EOM] + rest) == (Outcome {
            value: Ok::<(i32, Map<Seq<char>, i32>), DecodeError>((total, Map::empty())),
            used: 6,
        }),
{
    let none = Seq::<Seq<Value>>::empty();
    lemma_tally_roundtrip(clients, total, none, rest);
    assert(encode_i32(total) + encode_records(none) + seq![EOM] + rest =~= encode_i32(total)
        + seq![EOM] + rest);
    assert(tally_pairs(clients, none) =~= Seq::<(Seq<char>, i32)>::empty());
}

/// Of two records for the same domain the later one counts: a list of
/// domains that holds the domain twice is read as holding it once, with the
/// count of the second record.
pub proof fn lemma_later_record_wins(
    total: i32,
    domain: Seq<char>,
    earlier: i32,
    later: i32,
    rest: Seq<u8>,
)
    requires
        encode_utf8(domain).len() <= STRING_CAPACITY,
    ensures
        parse_top_list(
            encode_i32(total) + encode_records(
                seq![
                    seq![Value::Text(domain), Value::Int32(earlier)],
                    seq![Value::Text(domain), Value::Int32(later)],
                ],
            ) + seq![EOM] + rest,
        ).value == Ok::<(i32, Map<Seq<char>, i32>), DecodeError>(
            (total, Map::empty().insert(domain, later)),
        ),
{
    let first = seq![Value::Text(domain), Value::Int32(earlier)];
    let second = seq![Value::Text(domain), Value::Int32(later)];
    let records = seq![first, second];
    assert(record_fits(first, domain_schema(), STRING_CAPACITY));
    assert(record_fits(second, domain_schema(), STRING_CAPACITY));
    lemma_tally_roundtrip(false, total, records, rest);
    let none = Seq::<(Seq<char>, i32)>::empty();
    assert(tally_pairs(false, records) =~= none.push((domain, earlier)).push((domain, later)));
    lemma_last_write_wins(none, domain, earlier, later);
    assert(none.push((domain, later)).drop_last() =~= none);
    assert(fold_counts(none) == Map::<Seq<char>, i32>::empty());
    assert(fold_counts(none.push((domain, later))) == Map::<Seq<char>, i32>::empty().insert(
        domain,
        later,
    ));
}

} // verus!
