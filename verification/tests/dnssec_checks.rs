use lrmdns::dnssec::{
    check_signature_validity, compute_key_tag, find_related_dnssec_records, validate_nsec_denial,
    verify_ds, DnssecConfig,
};
use lrmdns::name::DnsName;
use lrmdns::rr::{RData, Record, RrType, RrsigData};
use sha2::Digest;

fn name(s: &str) -> DnsName {
    DnsName::from_text(s).unwrap()
}

fn dnskey_record(owner: &str, flags: u16, algorithm: u8, key: Vec<u8>) -> Record {
    Record::from_rdata(name(owner), 300, RData::Dnskey(flags, 3, algorithm, key))
}

fn ds_record(owner: &str, key_tag: u16, algorithm: u8, digest_type: u8, digest: Vec<u8>) -> Record {
    Record::from_rdata(name(owner), 300, RData::Ds(key_tag, algorithm, digest_type, digest))
}

fn rrsig_record(owner: &str, covered: RrType, expiration: u32, inception: u32) -> Record {
    Record::from_rdata(
        name(owner),
        300,
        RData::Rrsig(RrsigData {
            type_covered: covered,
            algorithm: 8,
            labels: 2,
            original_ttl: 300,
            sig_expiration: expiration,
            sig_inception: inception,
            key_tag: 12345,
            signer: name("example.com."),
            signature: vec![1, 2, 3, 4, 5],
        }),
    )
}

fn nsec_record(owner: &str, next: &str, types: Vec<RrType>) -> Record {
    Record::from_rdata(name(owner), 300, RData::Nsec(name(next), types))
}

#[test]
fn test_dnssec_config_default() {
    let config = DnssecConfig::default();
    assert!(!config.validate_signatures);
    assert!(!config.require_dnssec);
    assert!(config.auto_include_dnssec);
}

#[test]
fn test_dnssec_config_custom() {
    let config = DnssecConfig {
        validate_signatures: true,
        require_dnssec: true,
        auto_include_dnssec: false,
    };
    assert!(config.validate_signatures);
    assert!(config.require_dnssec);
    assert!(!config.auto_include_dnssec);
}

#[test]
fn test_key_tag_computation() {
    // Flags 256 = zone key.
    let record = dnskey_record("example.com.", 256, 8, vec![1, 2, 3, 4, 5]);
    let key_tag = compute_key_tag(&record);
    assert!(key_tag.is_ok());
    assert!(key_tag.unwrap() > 0);
}

#[test]
fn test_key_tag_with_different_keys() {
    let record1 = dnskey_record(
        "example.com.",
        256,
        8,
        vec![1, 2, 3, 4, 5, 6, 7, 8, 9, 10, 11, 12, 13, 14, 15, 16],
    );
    let record2 = dnskey_record(
        "example.com.",
        256,
        8,
        vec![16, 15, 14, 13, 12, 11, 10, 9, 8, 7, 6, 5, 4, 3, 2, 1],
    );
    let tag1 = compute_key_tag(&record1).unwrap();
    let tag2 = compute_key_tag(&record2).unwrap();
    assert_ne!(tag1, tag2);
}

#[test]
fn test_key_tag_stable_across_copies() {
    let record = dnskey_record("example.com.", 256, 8, vec![9, 8, 7, 6, 5]);
    let copy = record.clone();
    assert_eq!(compute_key_tag(&record).unwrap(), compute_key_tag(&copy).unwrap());
}

#[test]
fn test_key_tag_known_value() {
    // RFC 4034 appendix B formula on a tiny key, computed by hand:
    // rdata = [1, 0, 3, 8], ac = 1*256 + 0 + 3*256 + 8 = 1032.
    let record = dnskey_record("example.com.", 256, 8, vec![]);
    assert_eq!(compute_key_tag(&record).unwrap(), 1032);
}

#[test]
fn test_find_related_dnssec_records() {
    let n = name("example.com.");
    let records: Vec<Record> = vec![];
    let result = find_related_dnssec_records(&records, &n, RrType::A);
    assert_eq!(result.len(), 0);
}

#[test]
fn test_find_related_dnssec_with_dnskey() {
    let n = name("example.com.");
    let records = vec![dnskey_record("example.com.", 256, 8, vec![1, 2, 3, 4, 5])];
    let result = find_related_dnssec_records(&records, &n, RrType::A);
    assert_eq!(result.len(), 1);
}

#[test]
fn test_find_related_dnssec_with_multiple_rrsigs() {
    let n = name("example.com.");
    let records = vec![
        rrsig_record("example.com.", RrType::A, 12345, 12340),
        rrsig_record("example.com.", RrType::Aaaa, 12345, 12340),
    ];
    let result = find_related_dnssec_records(&records, &n, RrType::A);
    assert_eq!(result.len(), 1);
}

#[test]
fn test_find_related_dnssec_with_wrong_name() {
    let n = name("example.com.");
    let records = vec![rrsig_record("other.com.", RrType::A, 12345, 12340)];
    let result = find_related_dnssec_records(&records, &n, RrType::A);
    assert_eq!(result.len(), 0);
}

#[test]
fn test_check_signature_validity_future() {
    let now: u32 = 1700000000;
    let future = now + 86400;
    let record = rrsig_record("www.example.com.", RrType::A, future + 3600, future);
    let result = check_signature_validity(&record, now);
    assert!(result.is_err());
    assert!(result.unwrap_err().message().contains("not yet valid"));
}

#[test]
fn test_check_signature_validity_expired() {
    let now: u32 = 1700000000;
    let past = now - 86400;
    let record = rrsig_record("www.example.com.", RrType::A, past + 3600, past);
    let result = check_signature_validity(&record, now);
    assert!(result.is_err());
    assert!(result.unwrap_err().message().contains("expired"));
}

#[test]
fn test_check_signature_validity_valid() {
    let now: u32 = 1700000000;
    let record = rrsig_record("www.example.com.", RrType::A, now + 3600, now - 3600);
    let result = check_signature_validity(&record, now);
    assert!(result.is_ok());
}

#[test]
fn test_check_signature_validity_at_boundary() {
    let now: u32 = 1700000000;
    let record = rrsig_record("www.example.com.", RrType::A, now + 3600, now);
    let result = check_signature_validity(&record, now);
    assert!(result.is_ok());
}

#[test]
fn test_validate_nsec_denial_empty() {
    let query_name = name("www.example.com.");
    let nsec_records: Vec<Record> = vec![];
    let result = validate_nsec_denial(&query_name, RrType::A, &nsec_records);
    assert!(result.is_err());
}

#[test]
fn test_verify_ds_algorithm_mismatch() {
    let ds = ds_record("example.com.", 12345, 8, 2, vec![1, 2, 3, 4, 5]);
    // DNSKEY with a different algorithm (13 = ECDSA P-256).
    let dnskey = dnskey_record("example.com.", 256, 13, vec![1, 2, 3, 4, 5]);
    let result = verify_ds(&ds, &dnskey);
    assert!(result.is_err());
    assert!(result.unwrap_err().message().contains("Algorithm mismatch"));
}

fn wire_digest_input(labels: &[&[u8]], flags: u16, algorithm: u8, key: &[u8]) -> Vec<u8> {
    let mut input = Vec::new();
    for lab in labels {
        input.push(lab.len() as u8);
        input.extend_from_slice(lab);
    }
    input.push(0);
    input.extend_from_slice(&flags.to_be_bytes());
    input.push(3);
    input.push(algorithm);
    input.extend_from_slice(key);
    input
}

#[test]
fn test_ds_verification_with_correct_wire_format() {
    let public_key = vec![0x01, 0x02, 0x03, 0x04];
    let dnskey = dnskey_record("example.com.", 256, 8, public_key.clone());

    // The digest is over the canonical wire form of the owner name
    // followed by the DNSKEY RDATA.
    let digest_input = wire_digest_input(&[b"example", b"com"], 256, 8, &public_key);
    let mut hasher = sha2::Sha256::new();
    hasher.update(&digest_input);
    let correct_digest = hasher.finalize().to_vec();

    let key_tag = compute_key_tag(&dnskey).unwrap();
    let ds = ds_record("example.com.", key_tag, 8, 2, correct_digest);

    let result = verify_ds(&ds, &dnskey);
    assert!(
        result.is_ok(),
        "DS verification should succeed with correct wire format digest, but got error: {:?}",
        result.err()
    );
}

#[test]
fn test_verify_ds_with_sha384_digest() {
    let public_key = vec![0x01, 0x02, 0x03, 0x04, 0x05, 0x06];
    let dnskey = dnskey_record("example.com.", 256, 8, public_key.clone());

    let digest_input = wire_digest_input(&[b"example", b"com"], 256, 8, &public_key);
    let mut hasher = sha2::Sha384::new();
    hasher.update(&digest_input);
    let correct_digest = hasher.finalize().to_vec();

    let key_tag = compute_key_tag(&dnskey).unwrap();
    let ds = ds_record("example.com.", key_tag, 8, 4, correct_digest);

    assert!(verify_ds(&ds, &dnskey).is_ok());
}

#[test]
fn test_verify_ds_with_sha512_digest() {
    let public_key = vec![0x0a, 0x0b, 0x0c, 0x0d, 0x0e, 0x0f];
    let dnskey = dnskey_record("test.example.", 256, 8, public_key.clone());

    let digest_input = wire_digest_input(&[b"test", b"example"], 256, 8, &public_key);
    let mut hasher = sha2::Sha512::new();
    hasher.update(&digest_input);
    let correct_digest = hasher.finalize().to_vec();

    let key_tag = compute_key_tag(&dnskey).unwrap();
    let ds = ds_record("test.example.", key_tag, 8, 5, correct_digest);

    assert!(verify_ds(&ds, &dnskey).is_ok());
}

#[test]
fn test_verify_ds_with_wrong_digest() {
    let public_key = vec![0x01, 0x02, 0x03, 0x04];
    let dnskey = dnskey_record("example.com.", 256, 8, public_key);
    let key_tag = compute_key_tag(&dnskey).unwrap();
    let wrong_digest = vec![0xff; 32];
    let ds = ds_record("example.com.", key_tag, 8, 2, wrong_digest);

    let result = verify_ds(&ds, &dnskey);
    assert!(result.is_err());
    assert!(result.unwrap_err().message().contains("digest mismatch"));
}

#[test]
fn test_verify_ds_with_wrong_key_tag() {
    let public_key = vec![0x01, 0x02, 0x03, 0x04];
    let dnskey = dnskey_record("example.com.", 256, 8, public_key.clone());

    let digest_input = wire_digest_input(&[b"example", b"com"], 256, 8, &public_key);
    let mut hasher = sha2::Sha256::new();
    hasher.update(&digest_input);
    let correct_digest = hasher.finalize().to_vec();

    let ds = ds_record("example.com.", 65000, 8, 2, correct_digest);

    let result = verify_ds(&ds, &dnskey);
    assert!(result.is_err());
    assert!(result.unwrap_err().message().contains("Key tag mismatch"));
}

#[test]
fn test_verify_ds_unsupported_digest_type() {
    let public_key = vec![0x01, 0x02, 0x03, 0x04];
    let dnskey = dnskey_record("example.com.", 256, 8, public_key);
    let key_tag = compute_key_tag(&dnskey).unwrap();
    let ds = ds_record("example.com.", key_tag, 8, 9, vec![0u8; 32]);

    let result = verify_ds(&ds, &dnskey);
    assert!(result.is_err());
    assert!(result.unwrap_err().message().contains("Unsupported digest type"));
}

#[test]
fn test_verify_ds_rejects_non_ds_record() {
    let dnskey = dnskey_record("example.com.", 256, 8, vec![1]);
    let not_ds = dnskey_record("example.com.", 256, 8, vec![1]);
    let result = verify_ds(&not_ds, &dnskey);
    assert!(result.unwrap_err().message().contains("Invalid DS record"));
}

#[test]
fn test_validate_nsec_normal_case() {
    // owner < query < next in canonical order.
    let nsec = nsec_record("a.example.com.", "z.example.com.", vec![RrType::Ns, RrType::Soa]);
    let query = name("m.example.com.");
    let result = validate_nsec_denial(&query, RrType::A, &vec![nsec]);
    assert!(result.is_ok());
}

#[test]
fn test_validate_nsec_wraparound_case() {
    // owner > next: the last record of the zone wraps around.
    let nsec = nsec_record("z.example.com.", "a.example.com.", vec![RrType::Ns]);
    let query = name("zz.example.com.");
    let result = validate_nsec_denial(&query, RrType::A, &vec![nsec]);
    assert!(result.is_ok());
}

#[test]
fn test_validate_nsec_type_bitmap() {
    // The query name owns the NSEC; A is not in the bitmap.
    let owner = name("www.example.com.");
    let nsec = nsec_record("www.example.com.", "z.example.com.", vec![RrType::Ns, RrType::Soa]);
    let result = validate_nsec_denial(&owner, RrType::A, &vec![nsec]);
    assert!(result.is_ok());
}

#[test]
fn test_validate_nsec_type_exists() {
    // The query name owns the NSEC and A is in the bitmap: no denial.
    let owner = name("www.example.com.");
    let nsec = nsec_record("www.example.com.", "z.example.com.", vec![RrType::A, RrType::Ns]);
    let result = validate_nsec_denial(&owner, RrType::A, &vec![nsec]);
    assert!(result.is_err());
}

#[test]
fn test_validate_nsec_multiple_records() {
    let nsec1 = nsec_record("a.example.com.", "m.example.com.", vec![RrType::A]);
    let nsec2 = nsec_record("m.example.com.", "z.example.com.", vec![RrType::A]);
    let query = name("p.example.com.");
    let result = validate_nsec_denial(&query, RrType::A, &vec![nsec1, nsec2]);
    assert!(result.is_ok());
}

#[test]
fn test_compute_key_tag_odd_length_key() {
    let record = dnskey_record("example.com.", 256, 8, vec![0x01, 0x02, 0x03, 0x04, 0x05]);
    assert!(compute_key_tag(&record).is_ok());
}

#[test]
fn test_compute_key_tag_very_short_key() {
    let record = dnskey_record("example.com.", 256, 8, vec![0x01]);
    assert!(compute_key_tag(&record).is_ok());
}

#[test]
fn test_compute_key_tag_very_long_key() {
    let record = dnskey_record("example.com.", 256, 8, vec![0x42; 512]);
    assert!(compute_key_tag(&record).is_ok());
}

#[test]
fn test_compute_key_tag_rejects_non_dnskey() {
    let record = Record::from_rdata(name("example.com."), 300, RData::A(0x7f000001));
    let result = compute_key_tag(&record);
    assert!(result.is_err());
}
