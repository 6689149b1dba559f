use lrmdns::name::DnsName;
use lrmdns::rr::{RData, Record, RrType, SoaFields};
use lrmdns::zone::{Zone, ZoneStore};
use lrmdns::zonefile::{parse_zone_text, preprocess_zone_content};

fn name(s: &str) -> DnsName {
    DnsName::from_text(s).unwrap()
}

fn soa() -> SoaFields {
    SoaFields {
        mname: name("ns1.example.com."),
        rname: name("admin.example.com."),
        serial: 1,
        refresh: 7200,
        retry: 3600,
        expire: 1209600,
        minimum: 86400,
    }
}

fn a_rdata(a: u8, b: u8, c: u8, d: u8) -> RData {
    RData::A(u32::from_be_bytes([a, b, c, d]))
}

#[test]
fn test_zone_store_find_zone() {
    let mut store = ZoneStore::new();
    let zone = Zone::new(name("example.com."), soa());
    store.add_zone(zone);

    let query = name("www.example.com.");
    assert!(store.find_zone(&query).is_some());

    let query = name("example.org.");
    assert!(store.find_zone(&query).is_none());
}

#[test]
fn test_wildcard_lookup() {
    let mut zone = Zone::new(name("example.com."), soa());

    let wildcard_name = name("*.example.com.");
    zone.add_record(Record::from_rdata(wildcard_name.clone(), 3600, a_rdata(192, 0, 2, 100)));

    let www_name = name("www.example.com.");
    zone.add_record(Record::from_rdata(www_name.clone(), 3600, a_rdata(192, 0, 2, 10)));

    let wildcard_result = zone.lookup(&wildcard_name, RrType::A);
    assert!(wildcard_result.is_some());
    assert_eq!(wildcard_result.unwrap().len(), 1);

    let random_name = name("random.example.com.");
    let wildcard_match = zone.lookup_wildcard(&random_name, RrType::A);
    assert!(wildcard_match.is_some());
    assert_eq!(wildcard_match.unwrap().len(), 1);

    let www_result = zone.lookup(&www_name, RrType::A);
    assert!(www_result.is_some());
    assert_eq!(www_result.unwrap().len(), 1);

    if let RData::A(a) = &www_result.unwrap()[0].rdata {
        assert_eq!(*a, u32::from_be_bytes([192, 0, 2, 10]));
    } else {
        panic!("expected an A record");
    }
}

#[test]
fn test_dnskey_parsing() {
    let content = "$ORIGIN example.com.\n$TTL 3600\n\
@ IN SOA ns1.example.com. admin.example.com. 1 7200 3600 1209600 86400\n\
@ IN NS ns1.example.com.\n\
ns1 IN A 192.0.2.1\n\
@ IN DNSKEY 256 3 8 AwEAAaetidLzsKWUt4swWR8yu0wPHPiUi8LU\n";

    let zone = parse_zone_text(content, "example.com.").unwrap();

    let dnskey_records = zone.lookup(&name("example.com."), RrType::Dnskey);
    assert!(dnskey_records.is_some(), "DNSKEY record should be parsed");
    assert_eq!(dnskey_records.unwrap().len(), 1, "Should have one DNSKEY record");

    if let RData::Dnskey(flags, _, algorithm, key) = &dnskey_records.unwrap()[0].rdata {
        assert_eq!(*flags, 256);
        assert_eq!(*algorithm, 8);
        let expected =
            base64::Engine::decode(&base64::engine::general_purpose::STANDARD, "AwEAAaetidLzsKWUt4swWR8yu0wPHPiUi8LU")
                .unwrap();
        assert_eq!(key, &expected);
    } else {
        panic!("expected DNSKEY rdata");
    }
}

#[test]
fn test_rrsig_parsing() {
    let content = "$ORIGIN example.com.\n$TTL 3600\n\
@ IN SOA ns1.example.com. admin.example.com. 1 7200 3600 1209600 86400\n\
@ IN NS ns1.example.com.\n\
ns1 IN A 192.0.2.1\n\
@ IN RRSIG A 8 2 3600 1767139200 1764547200 12345 example.com. AwEAAaetidLzsKWU\n";

    let zone = parse_zone_text(content, "example.com.").unwrap();

    let rrsig_records = zone.lookup(&name("example.com."), RrType::Rrsig);
    assert!(rrsig_records.is_some(), "RRSIG record should be parsed");
    assert_eq!(rrsig_records.unwrap().len(), 1, "Should have one RRSIG record");

    if let RData::Rrsig(sig) = &rrsig_records.unwrap()[0].rdata {
        assert_eq!(sig.type_covered, RrType::A);
        assert_eq!(sig.sig_expiration, 1767139200);
        assert_eq!(sig.sig_inception, 1764547200);
        assert_eq!(sig.key_tag, 12345);
    } else {
        panic!("expected RRSIG rdata");
    }
}

#[test]
fn test_nsec_parsing() {
    let content = "$ORIGIN example.com.\n$TTL 3600\n\
@ IN SOA ns1.example.com. admin.example.com. 1 7200 3600 1209600 86400\n\
@ IN NS ns1.example.com.\n\
ns1 IN A 192.0.2.1\n\
@ IN NSEC www.example.com. A NS SOA RRSIG NSEC DNSKEY\n";

    let zone = parse_zone_text(content, "example.com.").unwrap();

    let nsec_records = zone.lookup(&name("example.com."), RrType::Nsec);
    assert!(nsec_records.is_some(), "NSEC record should be parsed");
    assert_eq!(nsec_records.unwrap().len(), 1, "Should have one NSEC record");

    if let RData::Nsec(next, types) = &nsec_records.unwrap()[0].rdata {
        assert_eq!(next, &name("www.example.com."));
        assert_eq!(
            types,
            &vec![RrType::A, RrType::Ns, RrType::Soa, RrType::Rrsig, RrType::Nsec, RrType::Dnskey]
        );
    } else {
        panic!("expected NSEC rdata");
    }
}

#[test]
fn test_ds_parsing() {
    let content = "$ORIGIN example.com.\n$TTL 3600\n\
@ IN SOA ns1.example.com. admin.example.com. 1 7200 3600 1209600 86400\n\
@ IN NS ns1.example.com.\n\
ns1 IN A 192.0.2.1\n\
@ IN DS 12345 8 2 A8B1C2D3E4F506172839405A6B7C8D9E0F1A2B3C4D5E6F70\n";

    let zone = parse_zone_text(content, "example.com.").unwrap();

    let ds_records = zone.lookup(&name("example.com."), RrType::Ds);
    assert!(ds_records.is_some(), "DS record should be parsed");
    assert_eq!(ds_records.unwrap().len(), 1, "Should have one DS record");

    if let RData::Ds(key_tag, algorithm, digest_type, digest) = &ds_records.unwrap()[0].rdata {
        assert_eq!(*key_tag, 12345);
        assert_eq!(*algorithm, 8);
        assert_eq!(*digest_type, 2);
        let expected = hex::decode("A8B1C2D3E4F506172839405A6B7C8D9E0F1A2B3C4D5E6F70").unwrap();
        assert_eq!(digest, &expected);
    } else {
        panic!("expected DS rdata");
    }
}

#[test]
fn test_malformed_zone_file() {
    let content = "$ORIGIN example.com.\n$TTL 3600\n@ IN NS ns1.example.com.\n";
    let result = parse_zone_text(content, "example.com.");
    assert!(result.is_err(), "Should fail without SOA record");
}

#[test]
fn test_invalid_ttl() {
    let content = "$ORIGIN example.com.\n$TTL invalid\n\
@ IN SOA ns1.example.com. admin.example.com. 1 7200 3600 1209600 86400\n";
    let result = parse_zone_text(content, "example.com.");
    assert!(result.is_err(), "Should fail with invalid TTL");
}

#[test]
fn test_invalid_record_data() {
    let content = "$ORIGIN example.com.\n$TTL 3600\n\
@ IN SOA ns1.example.com. admin.example.com. 1 7200 3600 1209600 86400\n\
@ IN A invalid.ip.address\n";
    let result = parse_zone_text(content, "example.com.");
    assert!(result.is_err(), "Should fail with invalid A record");
}

#[test]
fn test_malformed_soa() {
    let content = "$ORIGIN example.com.\n$TTL 3600\n@ IN SOA ns1.example.com.\n";
    let result = parse_zone_text(content, "example.com.");
    assert!(result.is_err(), "Should fail with malformed SOA");
}

#[test]
fn test_empty_zone_file() {
    let result = parse_zone_text("", "example.com.");
    assert!(result.is_err(), "Should fail with empty zone file");
}

#[test]
fn test_invalid_base64_in_dnskey() {
    let content = "$ORIGIN example.com.\n$TTL 3600\n\
@ IN SOA ns1.example.com. admin.example.com. 1 7200 3600 1209600 86400\n\
@ IN DNSKEY 256 3 8 !!!INVALID_BASE64!!!\n";
    let zone = parse_zone_text(content, "example.com.").unwrap();
    let dnskey_records = zone.lookup(&name("example.com."), RrType::Dnskey);
    assert!(dnskey_records.is_none(), "Invalid DNSKEY should be skipped");
}

#[test]
fn test_invalid_hex_in_ds() {
    let content = "$ORIGIN example.com.\n$TTL 3600\n\
@ IN SOA ns1.example.com. admin.example.com. 1 7200 3600 1209600 86400\n\
@ IN DS 12345 8 2 ZZZZZZ\n";
    let zone = parse_zone_text(content, "example.com.").unwrap();
    let ds_records = zone.lookup(&name("example.com."), RrType::Ds);
    assert!(ds_records.is_none(), "Invalid DS should be skipped");
}

#[test]
fn test_very_long_domain_name() {
    let long_label = "a".repeat(70);
    let content = format!(
        "$ORIGIN example.com.\n$TTL 3600\n\
@ IN SOA ns1.example.com. admin.example.com. 1 7200 3600 1209600 86400\n\
{} IN A 192.0.2.1\n",
        long_label
    );
    let result = parse_zone_text(&content, "example.com.");
    assert!(result.is_err(), "Should fail with very long domain label");
}

#[test]
fn test_wildcard_with_specific_override() {
    let mut zone = Zone::new(name("example.com."), soa());

    zone.add_record(Record::from_rdata(name("*.example.com."), 3600, a_rdata(192, 0, 2, 100)));
    let specific_name = name("www.example.com.");
    zone.add_record(Record::from_rdata(specific_name.clone(), 3600, a_rdata(192, 0, 2, 10)));

    let specific_result = zone.lookup(&specific_name, RrType::A);
    assert!(specific_result.is_some());
    if let RData::A(a) = &specific_result.unwrap()[0].rdata {
        assert_eq!(
            *a,
            u32::from_be_bytes([192, 0, 2, 10]),
            "Specific record should override wildcard"
        );
    }

    let random_name = name("random.example.com.");
    let wildcard_result = zone.lookup_wildcard(&random_name, RrType::A);
    assert!(wildcard_result.is_some());
    if let RData::A(a) = &wildcard_result.unwrap()[0].rdata {
        assert_eq!(*a, u32::from_be_bytes([192, 0, 2, 100]), "Should match wildcard");
    }
}

#[test]
fn test_nonexistent_record_type() {
    let origin = name("example.com.");
    let zone = Zone::new(origin.clone(), soa());
    let result = zone.lookup(&origin, RrType::Mx);
    assert!(result.is_none(), "Should return None for non-existent record type");
}

#[test]
fn test_caa_record_parsing() {
    let content = "$ORIGIN example.com.\n$TTL 3600\n\
@ IN SOA ns1.example.com. admin.example.com. 1 7200 3600 1209600 86400\n\
@ IN CAA 0 issue \"letsencrypt.org\"\n\
@ IN CAA 0 issuewild \"letsencrypt.org\"\n\
@ IN CAA 0 iodef \"mailto:admin@example.com\"\n";
    let zone = parse_zone_text(content, "example.com.").unwrap();
    let caa_records = zone.lookup(&name("example.com."), RrType::Caa);
    assert!(caa_records.is_some());
    assert_eq!(caa_records.unwrap().len(), 3);
}

#[test]
fn test_ptr_record_parsing() {
    let content = "$ORIGIN 2.0.192.in-addr.arpa.\n$TTL 3600\n\
@ IN SOA ns1.example.com. admin.example.com. 1 7200 3600 1209600 86400\n\
1 IN PTR www.example.com.\n";
    let zone = parse_zone_text(content, "2.0.192.in-addr.arpa.").unwrap();
    let ptr_records = zone.lookup(&name("1.2.0.192.in-addr.arpa."), RrType::Ptr);
    assert!(ptr_records.is_some());
}

#[test]
fn test_srv_record_parsing() {
    let content = "$ORIGIN example.com.\n$TTL 3600\n\
@ IN SOA ns1.example.com. admin.example.com. 1 7200 3600 1209600 86400\n\
_http._tcp IN SRV 10 60 80 www.example.com.\n";
    let zone = parse_zone_text(content, "example.com.").unwrap();
    let srv_records = zone.lookup(&name("_http._tcp.example.com."), RrType::Srv);
    assert!(srv_records.is_some());
}

#[test]
fn test_multiline_soa_with_parentheses() {
    let content = "$ORIGIN example.com.\n$TTL 3600\n\
@ IN SOA ns1.example.com. admin.example.com. (\n\
    2024010101  ; Serial\n\
    7200        ; Refresh\n\
    3600        ; Retry\n\
    1209600     ; Expire\n\
    86400       ; Minimum TTL\n\
)\n\
@ IN NS ns1.example.com.\n\
ns1 IN A 192.0.2.1\n";

    let zone = parse_zone_text(content, "example.com.").unwrap();

    assert_eq!(zone.soa.serial, 2024010101);
    assert_eq!(zone.soa.refresh, 7200);
    assert_eq!(zone.soa.retry, 3600);
    assert_eq!(zone.soa.expire, 1209600);
    assert_eq!(zone.soa.minimum, 86400);

    let ns_records = zone.lookup(&name("example.com."), RrType::Ns);
    assert!(ns_records.is_some());
}

#[test]
fn test_multiline_soa_without_inline_comments() {
    let content = "$ORIGIN example.com.\n$TTL 3600\n\
@ IN SOA ns1.example.com. admin.example.com. (\n\
    2024010101\n    7200\n    3600\n    1209600\n    86400\n)\n\
@ IN NS ns1.example.com.\n";
    let zone = parse_zone_text(content, "example.com.").unwrap();
    assert_eq!(zone.soa.serial, 2024010101);
}

#[test]
fn test_inline_comments_stripped() {
    let content = "$ORIGIN example.com.\n$TTL 3600 ; default TTL\n\
@ IN SOA ns1.example.com. admin.example.com. 1 7200 3600 1209600 86400 ; SOA record\n\
@ IN NS ns1.example.com. ; nameserver\n\
ns1 IN A 192.0.2.1 ; nameserver IP\n";
    let zone = parse_zone_text(content, "example.com.").unwrap();
    let ns_records = zone.lookup(&name("example.com."), RrType::Ns);
    assert!(ns_records.is_some());
}

#[test]
fn test_preprocess_zone_content() {
    let content = r#"$ORIGIN example.com.
$TTL 3600
@ IN SOA ns1.example.com. admin.example.com. (
    2024010101  ; Serial
    7200        ; Refresh
    3600        ; Retry
    1209600     ; Expire
    86400       ; Minimum TTL
)
@ IN NS ns1.example.com.
"#;

    let processed = preprocess_zone_content(content);

    // Should have 4 lines: $ORIGIN, $TTL, SOA (merged), NS
    assert_eq!(processed.len(), 4);

    // SOA line should be merged
    assert!(processed[2].contains("SOA"));
    assert!(processed[2].contains("2024010101"));
    assert!(processed[2].contains("86400"));

    // Comments should be stripped
    assert!(!processed[2].contains(";"));
}

#[test]
fn test_soa_single_line_format() {
    let content = "$ORIGIN example.com.\n$TTL 3600\n\
@ IN SOA ns1.example.com. admin.example.com. 2024010101 7200 3600 1209600 86400\n\
@ IN NS ns1.example.com.\n";
    let zone = parse_zone_text(content, "example.com.").unwrap();
    assert_eq!(zone.soa.serial, 2024010101);
    assert_eq!(zone.soa.refresh, 7200);
    assert_eq!(zone.soa.retry, 3600);
    assert_eq!(zone.soa.expire, 1209600);
    assert_eq!(zone.soa.minimum, 86400);
}

#[test]
fn test_soa_multiline_compact() {
    let content = "$ORIGIN example.com.\n$TTL 3600\n\
@ IN SOA ns1.example.com. admin.example.com. (\n\
    2024010101 7200 3600 1209600 86400\n)\n\
@ IN NS ns1.example.com.\n";
    let zone = parse_zone_text(content, "example.com.").unwrap();
    assert_eq!(zone.soa.serial, 2024010101);
    assert_eq!(zone.soa.refresh, 7200);
}

#[test]
fn test_soa_multiline_each_field_separate_line() {
    let content = "$ORIGIN example.com.\n$TTL 3600\n\
@ IN SOA ns1.example.com. admin.example.com. (\n\
    2024010101\n    7200\n    3600\n    1209600\n    86400\n)\n\
@ IN NS ns1.example.com.\n";
    let zone = parse_zone_text(content, "example.com.").unwrap();
    assert_eq!(zone.soa.serial, 2024010101);
    assert_eq!(zone.soa.minimum, 86400);
}

#[test]
fn test_soa_multiline_mixed_grouping() {
    let content = "$ORIGIN example.com.\n$TTL 3600\n\
@ IN SOA ns1.example.com. admin.example.com. (\n\
    2024010101 7200\n    3600\n    1209600 86400\n)\n\
@ IN NS ns1.example.com.\n";
    let zone = parse_zone_text(content, "example.com.").unwrap();
    assert_eq!(zone.soa.serial, 2024010101);
    assert_eq!(zone.soa.refresh, 7200);
    assert_eq!(zone.soa.retry, 3600);
    assert_eq!(zone.soa.expire, 1209600);
    assert_eq!(zone.soa.minimum, 86400);
}

#[test]
fn test_soa_with_inline_comments() {
    let content = "$ORIGIN example.com.\n$TTL 3600\n\
@ IN SOA ns1.example.com. admin.example.com. ( ; Start SOA\n\
    2024010101  ; Serial number\n\
    7200        ; Refresh - 2 hours\n\
    3600        ; Retry - 1 hour\n\
    1209600     ; Expire - 2 weeks\n\
    86400       ; Minimum TTL - 1 day\n\
) ; End SOA\n\
@ IN NS ns1.example.com. ; Primary NS\n";
    let zone = parse_zone_text(content, "example.com.").unwrap();
    assert_eq!(zone.soa.serial, 2024010101);
    assert_eq!(zone.soa.refresh, 7200);
    assert_eq!(zone.soa.retry, 3600);
    assert_eq!(zone.soa.expire, 1209600);
    assert_eq!(zone.soa.minimum, 86400);
}

#[test]
fn test_soa_single_line_with_comment() {
    let content = "$ORIGIN example.com.\n$TTL 3600\n\
@ IN SOA ns1.example.com. admin.example.com. 2024010101 7200 3600 1209600 86400 ; Main SOA\n\
@ IN NS ns1.example.com.\n";
    let zone = parse_zone_text(content, "example.com.").unwrap();
    assert_eq!(zone.soa.serial, 2024010101);
}

#[test]
fn test_soa_with_tabs_and_spaces() {
    let content = "$ORIGIN example.com.\n$TTL 3600\n\
@\tIN\tSOA\tns1.example.com.\tadmin.example.com.\t(\n\
\t\t2024010101\t\t; Serial\n\
        7200          ; Refresh\n\
\t3600\t\t; Retry\n\
    1209600    ; Expire\n\
\t86400\t; Minimum\n\
)\n\
@ IN NS ns1.example.com.\n";
    let zone = parse_zone_text(content, "example.com.").unwrap();
    assert_eq!(zone.soa.serial, 2024010101);
    assert_eq!(zone.soa.refresh, 7200);
    assert_eq!(zone.soa.retry, 3600);
}

#[test]
fn test_soa_opening_paren_on_same_line_as_name() {
    let content = "$ORIGIN example.com.\n$TTL 3600\n\
@ IN SOA ns1.example.com. admin.example.com. ( 2024010101\n\
    7200 3600\n    1209600 86400 )\n\
@ IN NS ns1.example.com.\n";
    let zone = parse_zone_text(content, "example.com.").unwrap();
    assert_eq!(zone.soa.serial, 2024010101);
    assert_eq!(zone.soa.minimum, 86400);
}

#[test]
fn test_soa_multiple_blank_lines_in_parens() {
    let content = "$ORIGIN example.com.\n$TTL 3600\n\
@ IN SOA ns1.example.com. admin.example.com. (\n\n\
    2024010101\n\n    7200 3600\n\n    1209600 86400\n\n)\n\
@ IN NS ns1.example.com.\n";
    let zone = parse_zone_text(content, "example.com.").unwrap();
    assert_eq!(zone.soa.serial, 2024010101);
}

#[test]
fn test_soa_comment_only_lines_in_parens() {
    let content = "$ORIGIN example.com.\n$TTL 3600\n\
@ IN SOA ns1.example.com. admin.example.com. (\n\
    ; This is the serial number\n\
    2024010101\n\
    ; Time values below\n\
    7200\n    3600\n    1209600\n    86400\n)\n\
@ IN NS ns1.example.com.\n";
    let zone = parse_zone_text(content, "example.com.").unwrap();
    assert_eq!(zone.soa.serial, 2024010101);
    assert_eq!(zone.soa.refresh, 7200);
}

#[test]
fn test_multiline_mx_record() {
    let content = "$ORIGIN example.com.\n$TTL 3600\n\
@ IN SOA ns1.example.com. admin.example.com. 1 7200 3600 1209600 86400\n\
@ IN MX (\n    10\n    mail.example.com.\n)\n\
@ IN NS ns1.example.com.\n";
    let zone = parse_zone_text(content, "example.com.").unwrap();
    let mx_records = zone.lookup(&name("example.com."), RrType::Mx);
    assert!(mx_records.is_some());
    assert_eq!(mx_records.unwrap().len(), 1);
}

#[test]
fn test_axfr_stream_is_soa_bookended() {
    let content = "$ORIGIN example.com.\n$TTL 3600\n\
@ IN SOA ns1.example.com. admin.example.com. 1 7200 3600 1209600 86400\n\
@ IN NS ns1.example.com.\n\
www IN A 192.0.2.1\n\
mail IN A 192.0.2.2\n";
    let zone = parse_zone_text(content, "example.com.").unwrap();
    let all = zone.get_all_records();
    // SOA appears as the first and last record of the enumeration.
    assert!(all.len() >= 2);
    assert_eq!(all[0].rtype(), RrType::Soa);
    assert_eq!(all[all.len() - 1].rtype(), RrType::Soa);
    assert_eq!(all[0].name, name("example.com."));
    // One message per record in between: SOA + 4 records + SOA.
    assert_eq!(all.len(), 6);
}

#[test]
fn test_relative_and_absolute_names() {
    let content = "$ORIGIN example.com.\n$TTL 3600\n\
@ IN SOA ns1.example.com. admin.example.com. 1 7200 3600 1209600 86400\n\
www IN A 192.0.2.1\n\
mail.example.com. IN A 192.0.2.2\n\
UPPER IN A 192.0.2.3\n";
    let zone = parse_zone_text(content, "example.com.").unwrap();
    assert!(zone.lookup(&name("www.example.com."), RrType::A).is_some());
    assert!(zone.lookup(&name("mail.example.com."), RrType::A).is_some());
    // Names compare case-insensitively: stored lowercased.
    assert!(zone.lookup(&name("upper.example.com."), RrType::A).is_some());
    assert!(zone.lookup(&name("UPPER.EXAMPLE.COM."), RrType::A).is_some());
}

#[test]
fn test_origin_directive_switches_origin() {
    let content = "$ORIGIN example.com.\n$TTL 3600\n\
@ IN SOA ns1.example.com. admin.example.com. 1 7200 3600 1209600 86400\n\
www IN A 192.0.2.1\n\
$ORIGIN sub.example.com.\n\
host IN A 192.0.2.9\n";
    let zone = parse_zone_text(content, "example.com.").unwrap();
    assert!(zone.lookup(&name("host.sub.example.com."), RrType::A).is_some());
}

#[test]
fn test_ttl_directive_sets_default() {
    let content = "$ORIGIN example.com.\n$TTL 1234\n\
@ IN SOA ns1.example.com. admin.example.com. 1 7200 3600 1209600 86400\n\
www IN A 192.0.2.1\n";
    let zone = parse_zone_text(content, "example.com.").unwrap();
    let recs = zone.lookup(&name("www.example.com."), RrType::A).unwrap();
    assert_eq!(recs[0].ttl, 1234);
}

#[test]
fn test_explicit_ttl_on_record() {
    let content = "$ORIGIN example.com.\n$TTL 3600\n\
@ IN SOA ns1.example.com. admin.example.com. 1 7200 3600 1209600 86400\n\
www 55 IN A 192.0.2.1\n";
    let zone = parse_zone_text(content, "example.com.").unwrap();
    let recs = zone.lookup(&name("www.example.com."), RrType::A).unwrap();
    assert_eq!(recs[0].ttl, 55);
}

#[test]
fn test_aaaa_record_parsing() {
    let content = "$ORIGIN example.com.\n$TTL 3600\n\
@ IN SOA ns1.example.com. admin.example.com. 1 7200 3600 1209600 86400\n\
v6 IN AAAA 2001:db8::1\n";
    let zone = parse_zone_text(content, "example.com.").unwrap();
    let recs = zone.lookup(&name("v6.example.com."), RrType::Aaaa).unwrap();
    if let RData::Aaaa(bytes) = &recs[0].rdata {
        let mut expected = vec![0x20, 0x01, 0x0d, 0xb8];
        expected.extend(vec![0u8; 11]);
        expected.push(1);
        assert_eq!(bytes, &expected);
    } else {
        panic!("expected AAAA rdata");
    }
}

#[test]
fn test_txt_record_parsing() {
    let content = "$ORIGIN example.com.\n$TTL 3600\n\
@ IN SOA ns1.example.com. admin.example.com. 1 7200 3600 1209600 86400\n\
@ IN TXT \"v=spf1 -all\"\n";
    let zone = parse_zone_text(content, "example.com.").unwrap();
    let recs = zone.lookup(&name("example.com."), RrType::Txt).unwrap();
    if let RData::Txt(ss) = &recs[0].rdata {
        assert_eq!(ss.len(), 1);
        assert_eq!(ss[0], b"v=spf1 -all".to_vec());
    } else {
        panic!("expected TXT rdata");
    }
}

#[test]
fn test_unknown_type_is_skipped() {
    let content = "$ORIGIN example.com.\n$TTL 3600\n\
@ IN SOA ns1.example.com. admin.example.com. 1 7200 3600 1209600 86400\n\
@ IN NAPTR 100 10 \"u\" \"e2u+sip\" \"\" .\n\
www IN A 192.0.2.1\n";
    let zone = parse_zone_text(content, "example.com.").unwrap();
    assert!(zone.lookup(&name("www.example.com."), RrType::A).is_some());
}

#[test]
fn test_ipv6_forms() {
    let cases = [
        ("full IN AAAA 2001:0db8:0000:0000:0000:0000:0000:0001", true),
        ("all0 IN AAAA ::", true),
        ("tail IN AAAA 2001:db8::", true),
        ("head IN AAAA ::1", true),
        ("bad1 IN AAAA 2001:db8", false),
        ("bad2 IN AAAA 1:2:3:4:5:6:7:8:9", false),
        ("bad3 IN AAAA 2001:::1", false),
        ("bad4 IN AAAA 2001:db8::fffff", false),
    ];
    for (line, ok) in cases {
        let content = format!(
            "$ORIGIN example.com.\n$TTL 3600\n\
@ IN SOA ns1.example.com. admin.example.com. 1 7200 3600 1209600 86400\n{}\n",
            line
        );
        let result = parse_zone_text(&content, "example.com.");
        assert_eq!(result.is_ok(), ok, "case: {}", line);
    }
}

#[test]
fn test_ipv6_compressed_value() {
    let content = "$ORIGIN example.com.\n$TTL 3600\n\
@ IN SOA ns1.example.com. admin.example.com. 1 7200 3600 1209600 86400\n\
h IN AAAA 1:2::fe\n";
    let zone = parse_zone_text(content, "example.com.").unwrap();
    let recs = zone.lookup(&name("h.example.com."), RrType::Aaaa).unwrap();
    if let RData::Aaaa(bytes) = &recs[0].rdata {
        let expected = vec![0, 1, 0, 2, 0, 0, 0, 0, 0, 0, 0, 0, 0, 0, 0, 0xfe];
        assert_eq!(bytes, &expected);
    } else {
        panic!("expected AAAA rdata");
    }
}

#[test]
fn test_ipv4_rejects_out_of_range_and_leading_zero() {
    for line in ["a IN A 256.0.0.1", "b IN A 1.2.3", "c IN A 01.2.3.4", "d IN A 1.2.3.4.5"] {
        let content = format!(
            "$ORIGIN example.com.\n$TTL 3600\n\
@ IN SOA ns1.example.com. admin.example.com. 1 7200 3600 1209600 86400\n{}\n",
            line
        );
        assert!(parse_zone_text(&content, "example.com.").is_err(), "case: {}", line);
    }
}

#[test]
fn test_integer_bounds_in_records() {
    // A TTL beyond 32 bits does not parse as a TTL; the token then fails
    // to read as the IN class or a known type, so the line is skipped.
    let content = "$ORIGIN example.com.\n$TTL 3600\n\
@ IN SOA ns1.example.com. admin.example.com. 1 7200 3600 1209600 86400\n\
www 4294967296 IN A 192.0.2.1\n";
    let zone = parse_zone_text(content, "example.com.").unwrap();
    assert!(zone.lookup(&name("www.example.com."), RrType::A).is_none());

    // An MX preference beyond 16 bits is a field error.
    let content = "$ORIGIN example.com.\n$TTL 3600\n\
@ IN SOA ns1.example.com. admin.example.com. 1 7200 3600 1209600 86400\n\
@ IN MX 65536 mail.example.com.\n";
    assert!(parse_zone_text(content, "example.com.").is_err());
}

#[test]
fn test_negative_soa_timers() {
    let content = "$ORIGIN example.com.\n$TTL 3600\n\
@ IN SOA ns1.example.com. admin.example.com. 1 -7200 3600 1209600 86400\n";
    let zone = parse_zone_text(content, "example.com.").unwrap();
    assert_eq!(zone.soa.refresh, -7200);
}

#[test]
fn test_invalid_origin_is_rejected() {
    let long_label = "b".repeat(64);
    let result = parse_zone_text("", &format!("{}.example.com.", long_label));
    assert!(result.is_err());
}

#[test]
fn test_name_canonical_ordering() {
    // RFC 4034 canonical order compares labels from the right.
    let a = name("a.example.com.");
    let z = name("z.example.com.");
    let sub = name("x.a.example.com.");
    assert!(a.canonical_lt(&z));
    assert!(!z.canonical_lt(&a));
    // A parent sorts before anything below it.
    assert!(a.canonical_lt(&sub));
    assert!(sub.canonical_lt(&z));
    assert!(!a.canonical_lt(&a));
}
