use lrmdns::message::{Message, OpCode, Question, Rcode};
use lrmdns::name::DnsName;
use lrmdns::query::QueryProcessor;
use lrmdns::rr::{RData, Record, RrType, SoaFields};
use lrmdns::zone::{Zone, ZoneStore};

fn name(s: &str) -> DnsName {
    DnsName::from_text(s).unwrap()
}

fn soa() -> SoaFields {
    SoaFields {
        mname: name("ns1.example.com."),
        rname: name("admin.example.com."),
        serial: 2025120601,
        refresh: 7200,
        retry: 3600,
        expire: 1209600,
        minimum: 86400,
    }
}

fn a_rdata(a: u8, b: u8, c: u8, d: u8) -> RData {
    RData::A(u32::from_be_bytes([a, b, c, d]))
}

fn create_test_zone() -> Zone {
    let origin = name("example.com.");
    let mut zone = Zone::new(origin.clone(), soa());

    zone.add_record(Record::from_rdata(name("www.example.com."), 3600, a_rdata(192, 0, 2, 1)));
    zone.add_record(Record::from_rdata(
        origin.clone(),
        3600,
        RData::Ns(name("ns1.example.com.")),
    ));
    zone
}

fn query_message(id: u16, qname: &str, qtype: RrType) -> Message {
    let mut query = Message::new();
    query.id = id;
    query.questions.push(Question { name: name(qname), qtype, qclass: 1 });
    query
}

fn processor() -> QueryProcessor {
    let mut store = ZoneStore::new();
    store.add_zone(create_test_zone());
    QueryProcessor::new(store)
}

#[test]
fn test_successful_query() {
    let processor = processor();
    let query = query_message(1234, "www.example.com.", RrType::A);

    let response = processor.process_query(&query);

    assert_eq!(response.id, 1234);
    assert_eq!(response.rcode, Rcode::NoError);
    assert!(response.authoritative);
    assert_eq!(response.answers.len(), 1);
    // The apex NS records come along as authority.
    assert_eq!(response.authority.len(), 1);
    if let RData::A(a) = &response.answers[0].rdata {
        assert_eq!(*a, u32::from_be_bytes([192, 0, 2, 1]));
    } else {
        panic!("expected an A answer");
    }
}

#[test]
fn test_nxdomain_query() {
    let processor = processor();
    let query = query_message(5678, "nonexistent.example.com.", RrType::A);

    let response = processor.process_query(&query);

    assert_eq!(response.rcode, Rcode::NxDomain);
    assert!(response.authoritative);
    assert_eq!(response.answers.len(), 0);
    assert_eq!(response.authority.len(), 1);
    assert_eq!(response.authority[0].rtype(), RrType::Soa);
    assert_eq!(response.authority[0].ttl, 86400);
}

#[test]
fn test_refused_query() {
    let processor = processor();
    let query = query_message(0, "example.org.", RrType::A);

    let response = processor.process_query(&query);

    assert_eq!(response.rcode, Rcode::Refused);
    assert!(!response.authoritative);
    assert_eq!(response.answers.len(), 0);
}

#[test]
fn test_wildcard_query() {
    let origin = name("example.com.");
    let mut zone = Zone::new(origin.clone(), soa());

    zone.add_record(Record::from_rdata(name("*.example.com."), 3600, a_rdata(192, 0, 2, 100)));
    zone.add_record(Record::from_rdata(name("www.example.com."), 3600, a_rdata(192, 0, 2, 10)));
    zone.add_record(Record::from_rdata(origin.clone(), 3600, RData::Ns(name("ns1.example.com."))));

    let mut store = ZoneStore::new();
    store.add_zone(zone);
    let processor = QueryProcessor::new(store);

    let query = query_message(1111, "random.example.com.", RrType::A);
    let response = processor.process_query(&query);

    assert_eq!(response.id, 1111);
    assert_eq!(response.rcode, Rcode::NoError);
    assert!(response.authoritative);
    assert_eq!(response.answers.len(), 1);
    if let RData::A(a) = &response.answers[0].rdata {
        assert_eq!(*a, u32::from_be_bytes([192, 0, 2, 100]));
    }
    // Wildcard synthesis names the answer after the query name.
    assert_eq!(response.answers[0].name, name("random.example.com."));

    let query = query_message(2222, "www.example.com.", RrType::A);
    let response = processor.process_query(&query);

    assert_eq!(response.id, 2222);
    assert_eq!(response.rcode, Rcode::NoError);
    assert_eq!(response.answers.len(), 1);
    if let RData::A(a) = &response.answers[0].rdata {
        assert_eq!(*a, u32::from_be_bytes([192, 0, 2, 10]));
    }
}

#[test]
fn test_dnssec_ok_flag() {
    let processor = processor();
    let mut query = query_message(3333, "www.example.com.", RrType::A);
    query.edns = Some(lrmdns::message::Edns { max_payload: 4096, version: 0, dnssec_ok: true });

    let response = processor.process_query(&query);

    assert_eq!(response.id, 3333);
    assert_eq!(response.rcode, Rcode::NoError);
    assert!(response.edns.is_some(), "Response should have EDNS");
    let edns = response.edns.unwrap();
    assert!(edns.dnssec_ok, "DNSSEC OK flag should be set in response");
    assert_eq!(edns.max_payload, 4096);
}

#[test]
fn test_empty_query() {
    let processor = processor();
    let mut query = Message::new();
    query.id = 9999;

    let response = processor.process_query(&query);

    assert_eq!(response.id, 9999);
    assert_eq!(response.rcode, Rcode::FormErr);
}

#[test]
fn test_invalid_opcode() {
    let processor = processor();
    let mut query = query_message(4444, "www.example.com.", RrType::A);
    query.opcode = OpCode::Update;

    let response = processor.process_query(&query);

    assert_eq!(response.id, 4444);
    assert_eq!(response.rcode, Rcode::NotImp);
}

#[test]
fn test_query_for_different_zone() {
    let processor = processor();
    let query = query_message(5555, "www.different-zone.com.", RrType::A);

    let response = processor.process_query(&query);

    assert_eq!(response.id, 5555);
    assert_eq!(response.rcode, Rcode::Refused);
}

#[test]
fn test_multiple_queries_in_message() {
    let processor = processor();
    let mut query = query_message(6666, "www.example.com.", RrType::A);
    query.questions.push(Question { name: name("mail.example.com."), qtype: RrType::A, qclass: 1 });

    let response = processor.process_query(&query);

    // Only the first question is processed and echoed.
    assert_eq!(response.id, 6666);
    assert_eq!(response.questions.len(), 1);
    assert_eq!(response.questions[0].name, name("www.example.com."));
}

#[test]
fn test_query_without_recursion_desired() {
    let processor = processor();
    let mut query = query_message(7777, "www.example.com.", RrType::A);
    query.recursion_desired = false;

    let response = processor.process_query(&query);

    assert_eq!(response.id, 7777);
    assert_eq!(response.rcode, Rcode::NoError);
    assert!(!response.recursion_desired);
    assert!(!response.recursion_available);
}

#[test]
fn test_cname_without_target() {
    let origin = name("example.com.");
    let mut zone = Zone::new(origin.clone(), soa());
    zone.add_record(Record::from_rdata(
        name("alias.example.com."),
        3600,
        RData::Cname(name("nonexistent.example.com.")),
    ));

    let mut store = ZoneStore::new();
    store.add_zone(zone);
    let processor = QueryProcessor::new(store);

    let query = query_message(8888, "alias.example.com.", RrType::A);
    let response = processor.process_query(&query);

    assert_eq!(response.id, 8888);
    assert_eq!(response.rcode, Rcode::NoError);
    assert_eq!(response.answers.len(), 1);
    assert!(matches!(response.answers[0].rdata, RData::Cname(_)));
}

#[test]
fn test_cname_with_target() {
    let origin = name("example.com.");
    let mut zone = Zone::new(origin.clone(), soa());
    zone.add_record(Record::from_rdata(
        name("alias.example.com."),
        3600,
        RData::Cname(name("www.example.com.")),
    ));
    zone.add_record(Record::from_rdata(name("www.example.com."), 3600, a_rdata(192, 0, 2, 1)));

    let mut store = ZoneStore::new();
    store.add_zone(zone);
    let processor = QueryProcessor::new(store);

    let query = query_message(1, "alias.example.com.", RrType::A);
    let response = processor.process_query(&query);

    assert_eq!(response.rcode, Rcode::NoError);
    assert_eq!(response.answers.len(), 2);
    assert!(matches!(response.answers[0].rdata, RData::Cname(_)));
    assert!(matches!(response.answers[1].rdata, RData::A(_)));
}

#[test]
fn test_axfr_query() {
    let processor = processor();
    let query = query_message(9000, "example.com.", RrType::Axfr);

    let response = processor.process_query(&query);

    // AXFR is handled specially - the marker response echoes the question
    // with AA set and no answers; the TCP path streams the zone.
    assert_eq!(response.id, 9000);
    assert!(response.authoritative);
    assert_eq!(response.questions.len(), 1);
    assert_eq!(response.answers.len(), 0);
}

#[test]
fn test_nodata_for_missing_type() {
    let processor = processor();
    let query = query_message(12, "www.example.com.", RrType::Mx);

    let response = processor.process_query(&query);

    // NODATA: NOERROR with zero answers and the SOA in authority.
    assert_eq!(response.rcode, Rcode::NoError);
    assert!(response.authoritative);
    assert_eq!(response.answers.len(), 0);
    assert_eq!(response.authority.len(), 1);
    assert_eq!(response.authority[0].rtype(), RrType::Soa);
}

#[test]
fn test_longest_suffix_zone_wins() {
    // Zones a.example. and example. both exist; x.a.example. goes to
    // a.example., the longer suffix.
    let mut store = ZoneStore::new();
    let parent_soa = SoaFields {
        mname: name("ns1.example."),
        rname: name("admin.example."),
        serial: 1,
        refresh: 7200,
        retry: 3600,
        expire: 1209600,
        minimum: 300,
    };
    let mut parent = Zone::new(name("example."), parent_soa.clone());
    parent.add_record(Record::from_rdata(name("x.example."), 60, a_rdata(10, 0, 0, 1)));
    let mut child = Zone::new(name("a.example."), parent_soa);
    child.add_record(Record::from_rdata(name("x.a.example."), 60, a_rdata(10, 0, 0, 2)));
    store.add_zone(parent);
    store.add_zone(child);

    let found = store.find_zone(&name("x.a.example.")).expect("zone expected");
    assert_eq!(found.origin, name("a.example."));

    let processor = QueryProcessor::new(store);
    let query = query_message(77, "x.a.example.", RrType::A);
    let response = processor.process_query(&query);
    assert_eq!(response.rcode, Rcode::NoError);
    if let RData::A(a) = &response.answers[0].rdata {
        assert_eq!(*a, u32::from_be_bytes([10, 0, 0, 2]));
    }
}

#[test]
fn test_nxdomain_below_existing_name() {
    // A name below an existing non-wildcard node, queried for a type the
    // wildcard does not hold: no wildcard matches, so NXDOMAIN with the
    // SOA in authority.
    let origin = name("example.com.");
    let mut zone = Zone::new(origin.clone(), soa());
    zone.add_record(Record::from_rdata(name("www.example.com."), 3600, a_rdata(192, 0, 2, 1)));
    zone.add_record(Record::from_rdata(name("*.example.com."), 3600, a_rdata(192, 0, 2, 100)));
    zone.add_record(Record::from_rdata(origin.clone(), 3600, RData::Ns(name("ns1.example.com."))));

    let mut store = ZoneStore::new();
    store.add_zone(zone);
    let processor = QueryProcessor::new(store);

    let query = query_message(13, "nonexistent-nowild.www.example.com.", RrType::Soa);
    let response = processor.process_query(&query);

    assert_eq!(response.rcode, Rcode::NxDomain);
    assert!(response.authoritative);
    assert_eq!(response.answers.len(), 0);
    assert_eq!(response.authority.len(), 1);
    assert_eq!(response.authority[0].rtype(), RrType::Soa);
}
