use lrmdns::codec::{decode_message, encode_message};
use lrmdns::message::{Edns, Message, OpCode, Question, Rcode};
use lrmdns::name::DnsName;
use lrmdns::ratelimit::RateLimiter;
use lrmdns::metrics::Metrics;
use lrmdns::rr::{RData, Record, RrType, SoaFields};
use lrmdns::transport::{build_axfr_frames, tcp_handle, udp_handle, udp_payload};
use lrmdns::zone::{Zone, ZoneStore};
use lrmdns::config::{
    default_auto_include_dnssec, default_listen, default_log_level, default_tcp_idle_timeout,
    default_tcp_max_queries, default_workers, Config, ConfigError, ServerConfig, ZoneConfig,
};

fn name(s: &str) -> DnsName {
    DnsName::from_text(s).unwrap()
}

fn soa() -> SoaFields {
    SoaFields {
        mname: name("ns1.example.com."),
        rname: name("admin.example.com."),
        serial: 1,
        refresh: 7200,
        retry: 3600,
        expire: 1209600,
        minimum: 86400,
    }
}

fn a_rdata(a: u8, b: u8, c: u8, d: u8) -> RData {
    RData::A(u32::from_be_bytes([a, b, c, d]))
}

fn seed_store() -> ZoneStore {
    let origin = name("example.com.");
    let mut zone = Zone::new(origin.clone(), soa());
    zone.add_record(Record::from_rdata(name("www.example.com."), 3600, a_rdata(192, 0, 2, 1)));
    zone.add_record(Record::from_rdata(origin.clone(), 3600, RData::Ns(name("ns1.example.com."))));
    zone.add_record(Record::from_rdata(name("*.example.com."), 3600, a_rdata(192, 0, 2, 100)));
    let mut store = ZoneStore::new();
    store.add_zone(zone);
    store
}

fn query_bytes(id: u16, qname: &str, qtype: RrType) -> Vec<u8> {
    let mut query = Message::new();
    query.id = id;
    query.questions.push(Question { name: name(qname), qtype, qclass: 1 });
    encode_message(&query).unwrap()
}

#[test]
fn test_encode_known_query_bytes() {
    let bytes = query_bytes(0x1234, "www.example.com.", RrType::A);
    let mut expected = vec![
        0x12, 0x34, // identifier
        0x00, 0x00, // flags: plain query
        0x00, 0x01, // one question
        0x00, 0x00, 0x00, 0x00, 0x00, 0x00, // no records
    ];
    expected.extend_from_slice(&[3]);
    expected.extend_from_slice(b"www");
    expected.extend_from_slice(&[7]);
    expected.extend_from_slice(b"example");
    expected.extend_from_slice(&[3]);
    expected.extend_from_slice(b"com");
    expected.extend_from_slice(&[0, 0, 1, 0, 1]); // root, type A, class IN
    assert_eq!(bytes, expected);
}

#[test]
fn test_decode_encode_round_trip() {
    let mut query = Message::new();
    query.id = 777;
    query.recursion_desired = true;
    query.questions.push(Question { name: name("WWW.Example.Com."), qtype: RrType::Mx, qclass: 1 });
    query.edns = Some(Edns { max_payload: 1400, version: 0, dnssec_ok: true });

    let bytes = encode_message(&query).unwrap();
    let decoded = decode_message(&bytes).unwrap();

    assert_eq!(decoded.id, 777);
    assert!(decoded.recursion_desired);
    assert_eq!(decoded.questions.len(), 1);
    assert_eq!(decoded.questions[0].qtype, RrType::Mx);
    // Names come in lowercased; encoding already lowercases, so the round
    // trip is exact.
    assert_eq!(decoded.questions[0].name, name("www.example.com."));
    let edns = decoded.edns.unwrap();
    assert_eq!(edns.max_payload, 1400);
    assert!(edns.dnssec_ok);
}

#[test]
fn test_decode_rejects_short_input() {
    assert!(decode_message(&vec![0x12, 0x34, 0x00]).is_none());
    assert!(decode_message(&Vec::new()).is_none());
}

#[test]
fn test_udp_pipeline_end_to_end() {
    let store = seed_store();
    let data = query_bytes(41, "www.example.com.", RrType::A);

    let outcome = udp_handle(&data, &store, true);
    assert!(!outcome.rate_limited);
    assert!(!outcome.formerr);
    assert_eq!(outcome.rcode, Some(Rcode::NoError));
    assert_eq!(outcome.qtype, Some(RrType::A));
    let reply = outcome.bytes.unwrap();
    // The reply echoes the identifier and sets the response bit.
    assert_eq!(&reply[0..2], &[0, 41]);
    assert!(reply[2] & 0x80 != 0);
    // AA is set, the response code is NOERROR.
    assert!(reply[2] & 0x04 != 0);
    assert_eq!(reply[3] & 0x0f, 0);
}

#[test]
fn test_udp_formerr_when_undecodable() {
    let store = seed_store();
    // Long enough to carry an identifier but no valid message.
    let data = vec![0xAB, 0xCD, 0x01];

    let outcome = udp_handle(&data, &store, true);
    assert!(outcome.formerr);
    let reply = outcome.bytes.unwrap();
    assert_eq!(&reply[0..2], &[0xAB, 0xCD]);
    assert_eq!(reply[3] & 0x0f, 1, "FORMERR response code expected");
}

#[test]
fn test_udp_short_garbage_dropped() {
    let store = seed_store();
    let outcome = udp_handle(&vec![0xAB], &store, true);
    assert!(outcome.formerr);
    assert!(outcome.bytes.is_none(), "nothing is sent when no identifier is readable");
}

#[test]
fn test_udp_rate_limited_gets_refused() {
    let store = seed_store();
    let data = query_bytes(99, "www.example.com.", RrType::A);

    let outcome = udp_handle(&data, &store, false);
    assert!(outcome.rate_limited);
    let reply = outcome.bytes.unwrap();
    assert_eq!(&reply[0..2], &[0, 99]);
    assert_eq!(reply[3] & 0x0f, 5, "REFUSED response code expected");
}

#[test]
fn test_eleventh_query_within_second_is_refused() {
    // With max_qps = 10, the 11th query from the same client within one
    // second is refused and counted.
    let store = seed_store();
    let mut limiter = RateLimiter::new(10);
    let mut metrics = Metrics::new();
    let addr: u128 = 0x7f000001;
    let now = 5_000_000u64;
    let data = query_bytes(7, "www.example.com.", RrType::A);

    for _ in 0..10 {
        let allowed = limiter.check_rate_limit(addr, now);
        assert!(allowed);
        let outcome = udp_handle(&data, &store, allowed);
        assert_eq!(outcome.rcode, Some(Rcode::NoError));
    }
    let allowed = limiter.check_rate_limit(addr, now);
    assert!(!allowed);
    let outcome = udp_handle(&data, &store, allowed);
    if outcome.rate_limited {
        metrics.record_rate_limited();
    }
    let reply = outcome.bytes.unwrap();
    assert_eq!(reply[3] & 0x0f, 5, "REFUSED response code expected");
    assert_eq!(metrics.get_snapshot().rate_limited, 1);
}

#[test]
fn test_udp_truncation_with_large_authority_section() {
    // A response whose authority section alone exceeds the 512-octet
    // limit: the cascade drops answers, then authority, and what is sent
    // fits and carries TC.
    let mut response = Message::new();
    response.id = 1234;
    response.response = true;
    response.authoritative = true;
    response.answers.push(Record::from_rdata(name("example.com."), 300, a_rdata(192, 0, 2, 1)));
    for i in 0..50 {
        let ns = name(&format!("ns{}.example.com.", i));
        response.authority.push(Record::from_rdata(name("example.com."), 300, RData::Ns(ns)));
    }

    let full = encode_message(&response).unwrap();
    assert!(full.len() > 512, "test setup: the response must exceed 512 octets");

    let (bytes, truncated) = udp_payload(&response, 512).unwrap();
    assert!(truncated, "TC flag must be reported");
    assert!(bytes.len() <= 512, "the sent payload must fit");
    assert!(bytes[2] & 0x02 != 0, "TC bit must be set on the wire");
}

#[test]
fn test_udp_no_truncation_when_fitting() {
    let mut response = Message::new();
    response.id = 5;
    response.response = true;
    response.answers.push(Record::from_rdata(name("example.com."), 300, a_rdata(192, 0, 2, 1)));
    let (bytes, truncated) = udp_payload(&response, 512).unwrap();
    assert!(!truncated);
    assert!(bytes.len() <= 512);
    assert!(bytes[2] & 0x02 == 0);
}

#[test]
fn test_axfr_stream_shape() {
    // AXFR over TCP: a multi-message stream whose first and last messages
    // carry the SOA, each zone record exactly once in between.
    let origin = name("example.com.");
    let mut zone = Zone::new(origin.clone(), soa());
    zone.add_record(Record::from_rdata(name("www.example.com."), 3600, a_rdata(192, 0, 2, 1)));
    zone.add_record(Record::from_rdata(origin.clone(), 3600, RData::Ns(name("ns1.example.com."))));

    let question = Question { name: name("example.com."), qtype: RrType::Axfr, qclass: 1 };
    let frames = build_axfr_frames(&zone, 9000, &question).unwrap();

    // SOA + two records + SOA.
    assert_eq!(frames.len(), 4);
    // The SOA bookends produce identical framed messages.
    assert_eq!(frames[0], frames[frames.len() - 1]);
    assert_ne!(frames[0], frames[1]);
    // Each frame is a length prefix followed by that many octets.
    for frame in &frames {
        let len = u16::from_be_bytes([frame[0], frame[1]]) as usize;
        assert_eq!(frame.len(), len + 2);
        // Every message echoes the identifier and answers exactly once.
        assert_eq!(&frame[2..4], &[0x23, 0x28]);
        let ancount = u16::from_be_bytes([frame[8], frame[9]]);
        assert_eq!(ancount, 1);
    }
}

#[test]
fn test_tcp_axfr_streams_zone() {
    let store = seed_store();
    let data = query_bytes(9000, "example.com.", RrType::Axfr);
    let outcome = tcp_handle(&data, &store, true);
    assert!(outcome.axfr);
    assert!(outcome.close);
    // SOA + three records + SOA.
    assert_eq!(outcome.frames.len(), 5);
    assert_eq!(outcome.frames[0], outcome.frames[4]);
}

#[test]
fn test_tcp_axfr_refused_for_unserved_zone() {
    let store = seed_store();
    let data = query_bytes(9001, "example.org.", RrType::Axfr);
    let outcome = tcp_handle(&data, &store, true);
    assert!(outcome.axfr);
    assert!(outcome.close);
    assert_eq!(outcome.frames.len(), 1);
    let frame = &outcome.frames[0];
    assert_eq!(frame[5] & 0x0f, 5, "REFUSED response code expected");
}

#[test]
fn test_tcp_ordinary_query_keeps_connection() {
    let store = seed_store();
    let data = query_bytes(12, "www.example.com.", RrType::A);
    let outcome = tcp_handle(&data, &store, true);
    assert!(!outcome.close);
    assert_eq!(outcome.frames.len(), 1);
    assert_eq!(outcome.rcode, Some(Rcode::NoError));
}

#[test]
fn test_tcp_rate_limited_closes() {
    let store = seed_store();
    let data = query_bytes(12, "www.example.com.", RrType::A);
    let outcome = tcp_handle(&data, &store, false);
    assert!(outcome.rate_limited);
    assert!(outcome.close);
    assert_eq!(outcome.frames.len(), 1);
}

#[test]
fn test_tcp_malformed_closes_with_formerr() {
    let store = seed_store();
    let outcome = tcp_handle(&vec![0x00, 0x07, 0x99], &store, true);
    assert!(outcome.formerr);
    assert!(outcome.close);
    assert_eq!(outcome.frames.len(), 1);
    let frame = &outcome.frames[0];
    assert_eq!(&frame[2..4], &[0x00, 0x07], "the identifier is echoed");
    assert_eq!(frame[5] & 0x0f, 1, "FORMERR response code expected");
}

#[test]
fn test_wildcard_answer_over_the_wire() {
    // The wildcard-synthesized reply names the query name on the wire.
    let store = seed_store();
    let data = query_bytes(2, "random.example.com.", RrType::A);
    let outcome = udp_handle(&data, &store, true);
    let reply = outcome.bytes.unwrap();
    // The answer owner name appears uncompressed after the question.
    let needle: &[u8] = &[6, b'r', b'a', b'n', b'd', b'o', b'm'];
    let hits = reply.windows(needle.len()).filter(|w| *w == needle).count();
    assert_eq!(hits, 2, "question and rewritten answer owner");
}

#[test]
fn test_opcode_update_gets_notimp() {
    let store = seed_store();
    let mut query = Message::new();
    query.id = 6;
    query.opcode = OpCode::Update;
    query.questions.push(Question { name: name("www.example.com."), qtype: RrType::A, qclass: 1 });
    let data = encode_message(&query).unwrap();
    let outcome = udp_handle(&data, &store, true);
    let reply = outcome.bytes.unwrap();
    assert_eq!(reply[3] & 0x0f, 4, "NOT_IMP response code expected");
    assert_eq!(outcome.rcode, Some(Rcode::NotImp));
}

#[test]
fn test_config_validation() {
    let server = ServerConfig {
        listen: "127.0.0.1:5353".to_string(),
        workers: 4,
        log_level: "info".to_string(),
        rate_limit: None,
        api_listen: None,
        dnssec: None,
        tcp: None,
    };

    let empty = Config { server, zones: Vec::new() };
    let err = empty.validate().unwrap_err();
    assert_eq!(err, ConfigError::NoZones);
    assert!(err.message().contains("At least one zone"));

    let mut with_zone = empty;
    with_zone.zones.push(ZoneConfig {
        name: "example.com".to_string(),
        file: "/tmp/example.com.zone".to_string(),
    });
    assert!(with_zone.validate().is_ok());

    with_zone.zones.push(ZoneConfig { name: String::new(), file: "/tmp/x".to_string() });
    let err = with_zone.validate().unwrap_err();
    assert_eq!(err, ConfigError::EmptyZoneName);
    assert!(err.message().contains("cannot be empty"));
}

#[test]
fn test_config_defaults() {
    assert_eq!(default_listen(), "0.0.0.0:53");
    assert_eq!(default_log_level(), "info");
    assert_eq!(default_workers(), 4);
    assert!(default_auto_include_dnssec());
    assert_eq!(default_tcp_idle_timeout(), 30);
    assert_eq!(default_tcp_max_queries(), 100);
}

#[test]
fn test_nsec_bitmap_encoding() {
    // An NSEC record's type bitmap on the wire: window 0, then window 1
    // for CAA (code 257).
    let mut response = Message::new();
    response.id = 1;
    response.response = true;
    response.answers.push(Record::from_rdata(
        name("example.com."),
        300,
        RData::Nsec(name("www.example.com."), vec![RrType::A, RrType::Ns, RrType::Caa]),
    ));
    let bytes = encode_message(&response).unwrap();
    // Window 0: codes 1 and 2 share the first octet: bits 0b01100000.
    let w0: &[u8] = &[0, 1, 0x60];
    assert!(bytes.windows(3).any(|w| w == w0), "window 0 bitmap expected");
    // Window 1: code 257 = 1*256 + 1: second bit of the first octet.
    let w1: &[u8] = &[1, 1, 0x40];
    assert!(bytes.windows(3).any(|w| w == w1), "window 1 bitmap expected");
}
