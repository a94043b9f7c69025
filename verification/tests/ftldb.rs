use ftl_wire::command::Command;
use ftl_wire::error::DecodeError;
use ftl_wire::ftldb::{get_ftldb, FtlDb};
use ftl_wire::session::Session;
use rmp::encode;

fn write_eom(data: &mut Vec<u8>) {
    data.push(0xc1);
}

#[test]
// Basic test for reported values
fn test_get_ftldb() {
    let mut data = Vec::new();
    encode::write_i32(&mut data, 1048576).unwrap();
    encode::write_i64(&mut data, 32768).unwrap();
    encode::write_str(&mut data, "3.0.1").unwrap();
    write_eom(&mut data);

    assert_eq!(Command::DbStats.name(), "dbstats");
    let mut session = Session::new(data);
    let db = get_ftldb(&mut session).unwrap();
    assert_eq!(db.queries, 1048576);
    assert_eq!(db.filesize, 32768);
    assert_eq!(db.sqlite_version, "3.0.1");
}

#[test]
// Test for (unlikely/"impossible") null report / sqlite not present
fn test_get_ftldb_noentries() {
    let mut data = Vec::new();
    encode::write_i32(&mut data, 0).unwrap();
    encode::write_i64(&mut data, 0).unwrap();
    encode::write_str(&mut data, "").unwrap();
    write_eom(&mut data);

    assert_eq!(Command::DbStats.name(), "dbstats");
    let mut session = Session::new(data);
    let db = get_ftldb(&mut session).unwrap();
    assert_eq!(db.queries, 0);
    assert_eq!(db.filesize, 0);
    assert_eq!(db.sqlite_version, "");
}

#[test]
fn ftldb_uses_exactly_the_message() {
    let mut data = Vec::new();
    encode::write_i32(&mut data, 7).unwrap();
    encode::write_i64(&mut data, -9_000_000_000).unwrap();
    encode::write_str(&mut data, "3.45.1").unwrap();
    write_eom(&mut data);
    let len = data.len();
    data.extend_from_slice(&[1, 2, 3]);

    let mut session = Session::new(data);
    let db = get_ftldb(&mut session).unwrap();
    assert_eq!(
        db,
        FtlDb { queries: 7, filesize: -9_000_000_000, sqlite_version: "3.45.1".to_string() }
    );
    assert_eq!(len, 5 + 9 + 7 + 1);
    assert_eq!(session.consumed(), len);
}

#[test]
fn ftldb_refuses_trailing_data() {
    let mut data = Vec::new();
    encode::write_i32(&mut data, 1).unwrap();
    encode::write_i64(&mut data, 2).unwrap();
    encode::write_str(&mut data, "3").unwrap();
    encode::write_i32(&mut data, 4).unwrap();
    write_eom(&mut data);

    let mut session = Session::new(data);
    assert_eq!(get_ftldb(&mut session), Err(DecodeError::Protocol));
    assert_eq!(session.consumed(), 5 + 9 + 2 + 1);
}

#[test]
fn ftldb_without_end_of_message_is_cut_short() {
    let mut data = Vec::new();
    encode::write_i32(&mut data, 1).unwrap();
    encode::write_i64(&mut data, 2).unwrap();
    encode::write_str(&mut data, "3").unwrap();

    let mut session = Session::new(data);
    assert_eq!(get_ftldb(&mut session), Err(DecodeError::Connection));
}

#[test]
fn ftldb_version_is_capped_at_64_bytes() {
    let fits = "v".repeat(64);
    let mut data = Vec::new();
    encode::write_i32(&mut data, 1).unwrap();
    encode::write_i64(&mut data, 2).unwrap();
    encode::write_str(&mut data, &fits).unwrap();
    write_eom(&mut data);
    let mut session = Session::new(data);
    assert_eq!(get_ftldb(&mut session).unwrap().sqlite_version, fits);

    let too_long = "v".repeat(65);
    let mut data = Vec::new();
    encode::write_i32(&mut data, 1).unwrap();
    encode::write_i64(&mut data, 2).unwrap();
    encode::write_str(&mut data, &too_long).unwrap();
    write_eom(&mut data);
    let mut session = Session::new(data);
    assert_eq!(get_ftldb(&mut session), Err(DecodeError::BufferTooSmall(65)));
    // the header of the string is used up, its bytes are not
    assert_eq!(session.consumed(), 5 + 9 + 2);
}

#[test]
fn ftldb_refuses_a_version_that_is_not_utf8() {
    let mut data = Vec::new();
    encode::write_i32(&mut data, 1).unwrap();
    encode::write_i64(&mut data, 2).unwrap();
    data.extend_from_slice(&[0xa2, 0xff, 0xfe]);
    write_eom(&mut data);
    let mut session = Session::new(data);
    assert_eq!(get_ftldb(&mut session), Err(DecodeError::InvalidEncoding));
    assert_eq!(session.consumed(), 5 + 9 + 3);
}

#[test]
fn ftldb_names_a_foreign_marker() {
    let mut data = Vec::new();
    encode::write_i32(&mut data, 1).unwrap();
    // a 32-bit integer where the 64-bit file size is due
    encode::write_i32(&mut data, 2).unwrap();
    encode::write_str(&mut data, "3").unwrap();
    write_eom(&mut data);
    let mut session = Session::new(data);
    assert_eq!(get_ftldb(&mut session), Err(DecodeError::TypeMismatch(0xd2)));
    assert_eq!(session.consumed(), 5 + 1);
}

#[test]
fn ftldb_end_of_message_in_place_of_a_field() {
    let mut data = Vec::new();
    encode::write_i32(&mut data, 1).unwrap();
    write_eom(&mut data);
    let mut session = Session::new(data);
    assert_eq!(get_ftldb(&mut session), Err(DecodeError::Protocol));

    let mut session = Session::new(vec![0xc1]);
    assert_eq!(get_ftldb(&mut session), Err(DecodeError::Protocol));

    let mut session = Session::new(Vec::new());
    assert_eq!(get_ftldb(&mut session), Err(DecodeError::Connection));
    assert_eq!(session.consumed(), 0);
}
