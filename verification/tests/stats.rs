use ftl_wire::command::Command;
use ftl_wire::error::DecodeError;
use ftl_wire::session::Session;
use ftl_wire::stats::{
    client_key, get_top_domains, history, over_time, read_int_map, summary, top_blocked,
    top_clients, top_domains, Query, Summary,
};
use rmp::encode;

fn write_eom(data: &mut Vec<u8>) {
    data.push(0xc1);
}

fn write_query(data: &mut Vec<u8>, q: &Query) {
    encode::write_i32(data, q.timestamp).unwrap();
    encode::write_str(data, &q.query_type).unwrap();
    encode::write_str(data, &q.domain).unwrap();
    encode::write_str(data, &q.client).unwrap();
    encode::write_u8(data, q.status).unwrap();
    encode::write_u8(data, q.dnssec).unwrap();
}

fn query(timestamp: i32, query_type: &str, domain: &str, client: &str, status: u8, dnssec: u8) -> Query {
    Query {
        timestamp,
        query_type: query_type.to_string(),
        domain: domain.to_string(),
        client: client.to_string(),
        status,
        dnssec,
    }
}

fn summary_stream() -> Vec<u8> {
    let mut data = Vec::new();
    encode::write_i32(&mut data, 5).unwrap();
    encode::write_i32(&mut data, 100).unwrap();
    encode::write_i32(&mut data, 5).unwrap();
    encode::write_f32(&mut data, 5.0).unwrap();
    encode::write_i32(&mut data, 20).unwrap();
    encode::write_i32(&mut data, 50).unwrap();
    encode::write_i32(&mut data, 45).unwrap();
    encode::write_i32(&mut data, 10).unwrap();
    encode::write_i32(&mut data, 8).unwrap();
    encode::write_u8(&mut data, 1).unwrap();
    data
}

#[test]
fn summary_round_trip() {
    let mut data = summary_stream();
    write_eom(&mut data);
    let len = data.len();

    assert_eq!(Command::Stats.name(), "stats");
    let mut session = Session::new(data);
    let got = summary(&mut session).unwrap();
    assert_eq!(
        got,
        Summary {
            domains_blocked: 5,
            total_queries: 100,
            blocked_queries: 5,
            percent_blocked_bits: 5.0f32.to_bits(),
            unique_domains: 20,
            forwarded_queries: 50,
            cached_queries: 45,
            total_clients: 10,
            unique_clients: 8,
            status: 1,
        }
    );
    assert_eq!(f32::from_bits(got.percent_blocked_bits), 5.0);
    assert_eq!(got.percent_blocked_bits, 0x40a0_0000);
    assert_eq!(len, 9 * 5 + 2 + 1);
    assert_eq!(session.consumed(), len);
}

#[test]
fn summary_keeps_the_bits_of_a_float() {
    for bits in [
        0u32, 0x8000_0000, 0x7f80_0000, 0xff7f_ffff, 0x0000_0001, 0x3dcc_cccd, 0x7fc0_0000,
        0x7fa0_0000, 0xffff_ffff,
    ] {
        let mut data = summary_stream();
        // the float is the fourth field, after three integers of five bytes
        data[16..20].copy_from_slice(&bits.to_be_bytes());
        write_eom(&mut data);
        let mut session = Session::new(data);
        assert_eq!(summary(&mut session).unwrap().percent_blocked_bits, bits);
    }
}

#[test]
fn summary_refuses_trailing_data() {
    let mut data = summary_stream();
    encode::write_u8(&mut data, 1).unwrap();
    write_eom(&mut data);
    let mut session = Session::new(data);
    assert_eq!(summary(&mut session), Err(DecodeError::Protocol));
}

#[test]
fn summary_cut_short() {
    let mut data = summary_stream();
    data.truncate(44);
    let mut session = Session::new(data);
    assert_eq!(summary(&mut session), Err(DecodeError::Connection));
    // the marker of the integer that is cut short is used up
    assert_eq!(session.consumed(), 41);
}

#[test]
fn summary_with_a_field_of_the_wrong_type() {
    let mut data = Vec::new();
    encode::write_i32(&mut data, 5).unwrap();
    encode::write_u8(&mut data, 100).unwrap();
    write_eom(&mut data);
    let mut session = Session::new(data);
    assert_eq!(summary(&mut session), Err(DecodeError::TypeMismatch(0xcc)));
}

#[test]
fn summary_ending_early_is_a_protocol_error() {
    let mut data = Vec::new();
    encode::write_i32(&mut data, 5).unwrap();
    encode::write_i32(&mut data, 100).unwrap();
    write_eom(&mut data);
    let mut session = Session::new(data);
    assert_eq!(summary(&mut session), Err(DecodeError::Protocol));
    assert_eq!(session.consumed(), 11);
}

#[test]
fn history_empty_stream() {
    assert_eq!(Command::AllQueries.name(), "getallqueries");
    let mut session = Session::new(vec![0xc1]);
    assert_eq!(history(&mut session), Ok(Vec::new()));
    assert_eq!(session.consumed(), 1);
}

#[test]
fn history_keeps_arrival_order() {
    let queries = vec![
        query(30, "IPv4", "z.example", "10.0.0.3", 2, 1),
        query(10, "IPv6", "a.example", "10.0.0.1", 3, 2),
        query(20, "IPv4", "m.example", "10.0.0.2", 1, 0),
        query(10, "IPv6", "a.example", "10.0.0.1", 3, 2),
    ];
    let mut data = Vec::new();
    for q in &queries {
        write_query(&mut data, q);
    }
    write_eom(&mut data);
    let len = data.len();

    let mut session = Session::new(data);
    assert_eq!(history(&mut session), Ok(queries));
    assert_eq!(session.consumed(), len);
}

#[test]
fn history_end_of_message_as_second_field() {
    let mut data = Vec::new();
    write_query(&mut data, &query(1, "IPv4", "a.example", "c", 1, 1));
    encode::write_i32(&mut data, 2).unwrap();
    write_eom(&mut data);
    let mut session = Session::new(data);
    assert_eq!(history(&mut session), Err(DecodeError::Protocol));
}

#[test]
fn history_end_of_message_as_last_field() {
    let mut data = Vec::new();
    encode::write_i32(&mut data, 2).unwrap();
    encode::write_str(&mut data, "IPv4").unwrap();
    encode::write_str(&mut data, "a.example").unwrap();
    encode::write_str(&mut data, "c").unwrap();
    encode::write_u8(&mut data, 1).unwrap();
    write_eom(&mut data);
    let mut session = Session::new(data);
    assert_eq!(history(&mut session), Err(DecodeError::Protocol));
}

#[test]
fn history_foreign_marker_where_a_record_begins() {
    let mut data = Vec::new();
    write_query(&mut data, &query(1, "IPv4", "a.example", "c", 1, 1));
    encode::write_str(&mut data, "stray").unwrap();
    write_eom(&mut data);
    let mut session = Session::new(data);
    assert_eq!(history(&mut session), Err(DecodeError::Protocol));
}

#[test]
fn history_foreign_marker_inside_a_record() {
    let mut data = Vec::new();
    encode::write_i32(&mut data, 2).unwrap();
    encode::write_i32(&mut data, 3).unwrap();
    write_eom(&mut data);
    let mut session = Session::new(data);
    assert_eq!(history(&mut session), Err(DecodeError::TypeMismatch(0xd2)));
}

#[test]
fn history_without_end_of_message() {
    let mut data = Vec::new();
    write_query(&mut data, &query(1, "IPv4", "a.example", "c", 1, 1));
    let mut session = Session::new(data);
    assert_eq!(history(&mut session), Err(DecodeError::Connection));

    let mut session = Session::new(Vec::new());
    assert_eq!(history(&mut session), Err(DecodeError::Connection));
}

#[test]
fn history_string_lengths() {
    // strings of 31, 32, 255, 256 and 4096 bytes take headers of one, two,
    // two, three and three bytes
    for len in [0usize, 31, 32, 255, 256, 4096] {
        let domain = "d".repeat(len);
        let q = query(5, "IPv4", &domain, "c", 1, 1);
        let mut data = Vec::new();
        write_query(&mut data, &q);
        write_eom(&mut data);
        let mut session = Session::new(data);
        assert_eq!(history(&mut session), Ok(vec![q]));
    }
    let domain = "d".repeat(4097);
    let mut data = Vec::new();
    write_query(&mut data, &query(5, "IPv4", &domain, "c", 1, 1));
    write_eom(&mut data);
    let mut session = Session::new(data);
    assert_eq!(history(&mut session), Err(DecodeError::BufferTooSmall(4097)));
}

#[test]
fn history_text_that_is_not_ascii() {
    let q = query(-1, "IPv4", "bücher.example", "größe", 255, 0);
    let mut data = Vec::new();
    write_query(&mut data, &q);
    write_eom(&mut data);
    let mut session = Session::new(data);
    assert_eq!(history(&mut session), Ok(vec![q]));

    let mut data = Vec::new();
    encode::write_i32(&mut data, 1).unwrap();
    data.extend_from_slice(&[0xa1, 0x80]);
    let mut session = Session::new(data);
    assert_eq!(history(&mut session), Err(DecodeError::InvalidEncoding));
}

#[test]
fn top_domains_empty_stream() {
    assert_eq!(Command::top_list(false).name(), "top-domains");
    let mut data = Vec::new();
    encode::write_i32(&mut data, 12).unwrap();
    write_eom(&mut data);
    let mut session = Session::new(data);
    let list = top_domains(&mut session).unwrap();
    assert!(!list.blocked);
    assert_eq!(list.queries, 12);
    assert_eq!(list.top.len(), 0);
    assert_eq!(session.consumed(), 6);
}

#[test]
fn top_domains_lists_counts() {
    let mut data = Vec::new();
    encode::write_i32(&mut data, 10).unwrap();
    encode::write_str(&mut data, "example.com").unwrap();
    encode::write_i32(&mut data, 7).unwrap();
    encode::write_str(&mut data, "example.net").unwrap();
    encode::write_i32(&mut data, 3).unwrap();
    write_eom(&mut data);
    let len = data.len();
    let mut session = Session::new(data);
    let list = top_domains(&mut session).unwrap();
    assert_eq!(list.queries, 10);
    assert_eq!(list.top.len(), 2);
    assert_eq!(list.top.get(&"example.com".to_string()), Some(7));
    assert_eq!(list.top.get(&"example.net".to_string()), Some(3));
    assert_eq!(list.top.get(&"example.org".to_string()), None);
    assert_eq!(session.consumed(), len);
}

#[test]
fn top_blocked_last_write_wins() {
    assert_eq!(Command::top_list(true).name(), "top-ads");
    let mut data = Vec::new();
    encode::write_i32(&mut data, 10).unwrap();
    encode::write_str(&mut data, "ads.example").unwrap();
    encode::write_i32(&mut data, 1).unwrap();
    encode::write_str(&mut data, "ads.example").unwrap();
    encode::write_i32(&mut data, 9).unwrap();
    write_eom(&mut data);
    let mut session = Session::new(data);
    let list = top_blocked(&mut session).unwrap();
    assert!(list.blocked);
    assert_eq!(list.queries, 10);
    assert_eq!(list.top.len(), 1);
    assert_eq!(list.top.get(&"ads.example".to_string()), Some(9));
    let entries = list.top.entries();
    assert_eq!(entries.len(), 1);
    assert_eq!(entries[0].key, "ads.example");
    assert_eq!(entries[0].count, 9);
}

#[test]
fn get_top_domains_keeps_the_flag() {
    for blocked in [false, true] {
        let mut data = Vec::new();
        encode::write_i32(&mut data, -4).unwrap();
        encode::write_str(&mut data, "a").unwrap();
        encode::write_i32(&mut data, i32::MIN).unwrap();
        write_eom(&mut data);
        let mut session = Session::new(data);
        let list = get_top_domains(&mut session, blocked).unwrap();
        assert_eq!(list.blocked, blocked);
        assert_eq!(list.queries, -4);
        assert_eq!(list.top.get(&"a".to_string()), Some(i32::MIN));
    }
}

#[test]
fn top_domains_failures() {
    // the count of a domain is missing
    let mut data = Vec::new();
    encode::write_i32(&mut data, 10).unwrap();
    encode::write_str(&mut data, "example.com").unwrap();
    write_eom(&mut data);
    let mut session = Session::new(data);
    assert_eq!(top_domains(&mut session).err(), Some(DecodeError::Protocol));

    // the total is missing
    let mut session = Session::new(vec![0xc1]);
    assert_eq!(top_domains(&mut session).err(), Some(DecodeError::Protocol));

    // an integer where a domain is due
    let mut data = Vec::new();
    encode::write_i32(&mut data, 10).unwrap();
    encode::write_i32(&mut data, 10).unwrap();
    write_eom(&mut data);
    let mut session = Session::new(data);
    assert_eq!(top_domains(&mut session).err(), Some(DecodeError::Protocol));

    // the stream ends without the marker
    let mut data = Vec::new();
    encode::write_i32(&mut data, 10).unwrap();
    encode::write_str(&mut data, "example.com").unwrap();
    encode::write_i32(&mut data, 10).unwrap();
    let mut session = Session::new(data);
    assert_eq!(top_domains(&mut session).err(), Some(DecodeError::Connection));
}

#[test]
fn client_key_joins_name_and_address() {
    assert_eq!(client_key("laptop".to_string(), &"10.0.0.2".to_string()), "laptop|10.0.0.2");
    assert_eq!(client_key("laptop".to_string(), &String::new()), "laptop");
    assert_eq!(client_key(String::new(), &"10.0.0.2".to_string()), "|10.0.0.2");
    assert_eq!(client_key(String::new(), &String::new()), "");
}

#[test]
fn top_clients_keys() {
    assert_eq!(Command::TopClients.name(), "top-clients");
    let mut data = Vec::new();
    encode::write_i32(&mut data, 40).unwrap();
    encode::write_str(&mut data, "laptop").unwrap();
    encode::write_str(&mut data, "10.0.0.2").unwrap();
    encode::write_i32(&mut data, 25).unwrap();
    encode::write_str(&mut data, "printer").unwrap();
    encode::write_str(&mut data, "").unwrap();
    encode::write_i32(&mut data, 15).unwrap();
    write_eom(&mut data);
    let len = data.len();
    let mut session = Session::new(data);
    let list = top_clients(&mut session).unwrap();
    assert_eq!(list.total_queries, 40);
    assert_eq!(list.top_clients.len(), 2);
    assert_eq!(list.top_clients.get(&"laptop|10.0.0.2".to_string()), Some(25));
    assert_eq!(list.top_clients.get(&"printer".to_string()), Some(15));
    assert_eq!(list.top_clients.get(&"printer|".to_string()), None);
    assert_eq!(list.top_clients.get(&"laptop".to_string()), None);
    assert_eq!(session.consumed(), len);
}

#[test]
fn top_clients_empty_stream_and_overwrite() {
    let mut data = Vec::new();
    encode::write_i32(&mut data, 0).unwrap();
    write_eom(&mut data);
    let mut session = Session::new(data);
    let list = top_clients(&mut session).unwrap();
    assert_eq!(list.total_queries, 0);
    assert_eq!(list.top_clients.len(), 0);

    let mut data = Vec::new();
    encode::write_i32(&mut data, 3).unwrap();
    encode::write_str(&mut data, "a").unwrap();
    encode::write_str(&mut data, "b").unwrap();
    encode::write_i32(&mut data, 1).unwrap();
    encode::write_str(&mut data, "a|b").unwrap();
    encode::write_str(&mut data, "").unwrap();
    encode::write_i32(&mut data, 2).unwrap();
    write_eom(&mut data);
    let mut session = Session::new(data);
    let list = top_clients(&mut session).unwrap();
    assert_eq!(list.top_clients.len(), 1);
    assert_eq!(list.top_clients.get(&"a|b".to_string()), Some(2));
}

#[test]
fn top_clients_end_of_message_inside_a_record() {
    let mut data = Vec::new();
    encode::write_i32(&mut data, 3).unwrap();
    encode::write_str(&mut data, "a").unwrap();
    write_eom(&mut data);
    let mut session = Session::new(data);
    assert_eq!(top_clients(&mut session).err(), Some(DecodeError::Protocol));

    let mut data = Vec::new();
    encode::write_i32(&mut data, 3).unwrap();
    encode::write_str(&mut data, "a").unwrap();
    encode::write_str(&mut data, "b").unwrap();
    write_eom(&mut data);
    let mut session = Session::new(data);
    assert_eq!(top_clients(&mut session).err(), Some(DecodeError::Protocol));
}

#[test]
fn over_time_two_maps() {
    assert_eq!(Command::OverTime.name(), "overTime");
    let mut data = Vec::new();
    encode::write_map_len(&mut data, 3).unwrap();
    for (k, v) in [(600, 1), (1200, 5), (600, 4)] {
        encode::write_i32(&mut data, k).unwrap();
        encode::write_i32(&mut data, v).unwrap();
    }
    encode::write_map_len(&mut data, 1).unwrap();
    encode::write_i32(&mut data, 1200).unwrap();
    encode::write_i32(&mut data, 2).unwrap();
    let len = data.len();
    write_eom(&mut data);

    let mut session = Session::new(data);
    let both = over_time(&mut session).unwrap();
    assert_eq!(both.domains_over_time.len(), 2);
    assert_eq!(both.domains_over_time.get(&600), Some(&4));
    assert_eq!(both.domains_over_time.get(&1200), Some(&5));
    assert_eq!(both.blocked_over_time.len(), 1);
    assert_eq!(both.blocked_over_time.get(&1200), Some(&2));
    // the maps are counted: the end of the message is left unread
    assert_eq!(session.consumed(), len);
    assert_eq!(session.expect_eom(), Ok(()));
}

#[test]
fn over_time_empty_maps() {
    let mut data = Vec::new();
    encode::write_map_len(&mut data, 0).unwrap();
    encode::write_map_len(&mut data, 0).unwrap();
    let mut session = Session::new(data);
    let both = over_time(&mut session).unwrap();
    assert!(both.domains_over_time.is_empty());
    assert!(both.blocked_over_time.is_empty());
    assert_eq!(session.consumed(), 2);
}

#[test]
fn int_map_length_forms() {
    // 15 entries fit the marker, 16 take two length bytes, 65536 take four
    for count in [15u32, 16, 65536] {
        let mut data = Vec::new();
        encode::write_map_len(&mut data, count).unwrap();
        for k in 0..count {
            encode::write_i32(&mut data, k as i32).unwrap();
            encode::write_i32(&mut data, -(k as i32)).unwrap();
        }
        let len = data.len();
        let mut session = Session::new(data);
        let map = read_int_map(&mut session).unwrap();
        assert_eq!(map.len(), count as usize);
        assert_eq!(map.get(&((count - 1) as i32)), Some(&-((count - 1) as i32)));
        assert_eq!(session.consumed(), len);
    }
}

#[test]
fn int_map_failures() {
    // fewer entries than announced
    let mut data = Vec::new();
    encode::write_map_len(&mut data, 2).unwrap();
    encode::write_i32(&mut data, 1).unwrap();
    encode::write_i32(&mut data, 1).unwrap();
    let mut session = Session::new(data.clone());
    assert_eq!(read_int_map(&mut session).err(), Some(DecodeError::Connection));

    // the message ends inside the map
    write_eom(&mut data);
    let mut session = Session::new(data);
    assert_eq!(read_int_map(&mut session).err(), Some(DecodeError::Protocol));

    // the message ends where the map is due
    let mut session = Session::new(vec![0xc1]);
    assert_eq!(read_int_map(&mut session).err(), Some(DecodeError::Protocol));

    // an array where the map is due
    let mut session = Session::new(vec![0x92, 0x01, 0x02]);
    assert_eq!(read_int_map(&mut session).err(), Some(DecodeError::TypeMismatch(0x92)));

    // the second map is missing
    let mut data = Vec::new();
    encode::write_map_len(&mut data, 0).unwrap();
    let mut session = Session::new(data);
    assert_eq!(over_time(&mut session).err(), Some(DecodeError::Connection));
}
