//! DNSSEC helpers: key-tag computation (RFC 4034 appendix B), DS-digest
//! verification against a DNSKEY (RFC 4034 section 5.1.4, over the
//! canonical wire form of the owner name), RRSIG time validity, and the
//! NSEC proof of non-existence. The SHA-2 digests come from the `sha2`
//! crate behind trusted wrappers; everything around them is verified.

use vstd::prelude::*;
use sha2::Digest;
use crate::name::DnsName;
use crate::name::spec_name_lt;
use crate::rr::Record;
use crate::rr::RecordV;
use crate::rr::RrType;
use crate::rr::RData;
use crate::rr::RDataV;

verus! {

/// How DNSSEC-aware answering is configured.
#[derive(Debug, Clone)]
pub struct DnssecConfig {
    /// Whether to validate DNSSEC signatures.
    pub validate_signatures: bool,
    /// Whether to require DNSSEC for all responses.
    pub require_dnssec: bool,
    /// Whether to include DNSSEC records in responses when the DO flag is
    /// set.
    pub auto_include_dnssec: bool,
}

impl Default for DnssecConfig {
    /// No validation, DNSSEC not required, records included on request.
    fn default() -> (r: Self)
        ensures
            !r.validate_signatures,
            !r.require_dnssec,
            r.auto_include_dnssec,
    {
        DnssecConfig { validate_signatures: false, require_dnssec: false, auto_include_dnssec: true }
    }
}

/// Why a DNSSEC check failed.
#[derive(Clone, Copy, PartialEq, Eq, Structural, Debug)]
pub enum DnssecError {
    NotDs,
    NotDnskey,
    NotRrsig,
    AlgorithmMismatch,
    KeyTagMismatch,
    UnsupportedDigestType,
    DigestMismatch,
    NotYetValid,
    Expired,
    NoNsecProof,
}

impl DnssecError {
    /// A human-readable description of the failure.
    pub fn message(&self) -> (r: String)
        ensures
            r@ == self.spec_message(),
    {
        match self {
            DnssecError::NotDs => String::from_str("Invalid DS record"),
            DnssecError::NotDnskey => String::from_str("Invalid DNSKEY record"),
            DnssecError::NotRrsig => String::from_str("Invalid RRSIG record"),
            DnssecError::AlgorithmMismatch => String::from_str("Algorithm mismatch"),
            DnssecError::KeyTagMismatch => String::from_str("Key tag mismatch"),
            DnssecError::UnsupportedDigestType => String::from_str("Unsupported digest type"),
            DnssecError::DigestMismatch => String::from_str("DS digest mismatch"),
            DnssecError::NotYetValid => String::from_str("Signature not yet valid"),
            DnssecError::Expired => String::from_str("Signature expired"),
            DnssecError::NoNsecProof => String::from_str("No NSEC record proves non-existence"),
        }
    }

    pub open spec fn spec_message(&self) -> Seq<char> {
        match self {
            DnssecError::NotDs => "Invalid DS record"@,
            DnssecError::NotDnskey => "Invalid DNSKEY record"@,
            DnssecError::NotRrsig => "Invalid RRSIG record"@,
            DnssecError::AlgorithmMismatch => "Algorithm mismatch"@,
            DnssecError::KeyTagMismatch => "Key tag mismatch"@,
            DnssecError::UnsupportedDigestType => "Unsupported digest type"@,
            DnssecError::DigestMismatch => "DS digest mismatch"@,
            DnssecError::NotYetValid => "Signature not yet valid"@,
            DnssecError::Expired => "Signature expired"@,
            DnssecError::NoNsecProof => "No NSEC record proves non-existence"@,
        }
    }
}

/// What `sha2::Sha256` digests to: a function of the input bytes alone.
pub uninterp spec fn sha256_of(data: Seq<u8>) -> Seq<u8>;

/// What `sha2::Sha384` digests to: a function of the input bytes alone.
pub uninterp spec fn sha384_of(data: Seq<u8>) -> Seq<u8>;

/// What `sha2::Sha512` digests to: a function of the input bytes alone.
pub uninterp spec fn sha512_of(data: Seq<u8>) -> Seq<u8>;

/// Relies on sha2::Sha256 (new, update, finalize): the SHA-256 digest of
/// the input, 32 octets.
#[verifier::external_body]
fn sha256_digest(data: &Vec<u8>) -> (r: Vec<u8>)
    ensures
        r@ == sha256_of(data@),
        r@.len() == 32,
{
    let mut h = sha2::Sha256::new();
    h.update(data.as_slice());
    h.finalize().to_vec()
}

/// Relies on sha2::Sha384 (new, update, finalize): the SHA-384 digest of
/// the input, 48 octets.
#[verifier::external_body]
fn sha384_digest(data: &Vec<u8>) -> (r: Vec<u8>)
    ensures
        r@ == sha384_of(data@),
        r@.len() == 48,
{
    let mut h = sha2::Sha384::new();
    h.update(data.as_slice());
    h.finalize().to_vec()
}

/// Relies on sha2::Sha512 (new, update, finalize): the SHA-512 digest of
/// the input, 64 octets.
#[verifier::external_body]
fn sha512_digest(data: &Vec<u8>) -> (r: Vec<u8>)
    ensures
        r@ == sha512_of(data@),
        r@.len() == 64,
{
    let mut h = sha2::Sha512::new();
    h.update(data.as_slice());
    h.finalize().to_vec()
}

/// The DNSKEY RDATA in wire form: flags big-endian, protocol 3, the
/// algorithm, then the raw public key.
pub open spec fn spec_dnskey_rdata_wire(flags: u16, algorithm: u8, key: Seq<u8>) -> Seq<u8> {
    seq![(flags / 256) as u8, (flags % 256) as u8, 3u8, algorithm].add(key)
}

/// The running key-tag sum over the first bytes of the RDATA: a byte at an
/// even index counts shifted by eight bits, at an odd index as itself.
pub open spec fn key_tag_sum(data: Seq<u8>) -> int
    decreases data.len(),
{
    if data.len() == 0 {
        0
    } else {
        key_tag_sum(data.drop_last()) + (if (data.len() - 1) % 2 == 0 {
            data.last() * 256
        } else {
            data.last() as int
        })
    }
}

/// The key tag of a DNSKEY, per RFC 4034 appendix B: accumulate the sum,
/// fold the carry once, keep the low sixteen bits.
pub open spec fn spec_key_tag(flags: u16, algorithm: u8, key: Seq<u8>) -> u16 {
    let s = key_tag_sum(spec_dnskey_rdata_wire(flags, algorithm, key));
    let t = s + (s / 0x10000) % 0x10000;
    (t % 0x10000) as u16
}

proof fn lemma_key_tag_sum_bound(data: Seq<u8>)
    ensures
        0 <= key_tag_sum(data) <= data.len() * 65280,
    decreases data.len(),
{
    if data.len() == 0 {
    } else {
        lemma_key_tag_sum_bound(data.drop_last());
    }
}

/// Computes the RFC 4034 key tag over the DNSKEY wire RDATA.
fn key_tag_of_wire(data: &Vec<u8>) -> (r: u16)
    requires
        data@.len() <= 65535,
    ensures
        ({
            let s = key_tag_sum(data@);
            let t = s + (s / 0x10000) % 0x10000;
            r == (t % 0x10000) as u16
        }),
{
    let mut ac: u32 = 0;
    let mut i: usize = 0;
    assert(data@.take(0) =~= Seq::<u8>::empty());
    while i < data.len()
        invariant
            i <= data@.len(),
            data@.len() <= 65535,
            ac == key_tag_sum(data@.take(i as int)),
            ac <= i * 65280,
        decreases data@.len() - i,
    {
        proof {
            assert(data@.take(i + 1).drop_last() =~= data@.take(i as int));
            assert(data@.take(i + 1).last() == data@[i as int]);
            assert(ac + 65280 <= (i + 1) * 65280);
            assert((i + 1) * 65280 <= 65535 * 65280) by (nonlinear_arith)
                requires
                    i + 1 <= 65535,
            ;
        }
        if i % 2 == 0 {
            ac = ac + (data[i] as u32) * 256;
        } else {
            ac = ac + data[i] as u32;
        }
        i = i + 1;
    }
    assert(data@.take(data@.len() as int) =~= data@);
    let ghost s_sum = key_tag_sum(data@);
    assert(ac == s_sum);
    let carry = (ac >> 16u32) & 0xFFFFu32;
    proof {
        vstd::arithmetic::power2::lemma2_to64();
        vstd::bits::lemma_u32_shr_is_div(ac, 16);
        assert((ac >> 16u32) & 0xFFFFu32 == (ac >> 16u32) % 0x10000u32) by (bit_vector);
        assert(ac >> 16u32 == ac / 0x10000u32);
        assert(carry == (s_sum / 0x10000) % 0x10000);
        assert(carry < 0x10000);
        assert(ac <= 65535u32 * 65280u32);
    }
    let folded = ac + carry;
    let tag = (folded & 0xFFFFu32) as u16;
    proof {
        assert(folded & 0xFFFFu32 == folded % 0x10000u32) by (bit_vector);
        assert(folded == s_sum + (s_sum / 0x10000) % 0x10000);
        assert(tag == (s_sum + (s_sum / 0x10000) % 0x10000) % 0x10000);
    }
    tag
}

/// What `compute_key_tag` returns on each record.
pub open spec fn spec_compute_key_tag(dnskey: RecordV) -> Result<u16, DnssecError> {
    match dnskey.rdata {
        RDataV::Dnskey(flags, _protocol, algorithm, key) => Ok(spec_key_tag(flags, algorithm,
            key)),
        _ => Err(DnssecError::NotDnskey),
    }
}

/// Computes the key tag of a DNSKEY record (RFC 4034 appendix B); any
/// other record kind is rejected.
pub fn compute_key_tag(dnskey: &Record) -> (r: Result<u16, DnssecError>)
    requires
        dnskey.wf(),
    ensures
        r == spec_compute_key_tag(dnskey@),
{
    match &dnskey.rdata {
        RData::Dnskey(flags, _protocol, algorithm, key) => {
            let wire = dnskey_rdata_wire(*flags, *algorithm, key);
            Ok(key_tag_of_wire(&wire))
        },
        _ => Err(DnssecError::NotDnskey),
    }
}

/// Builds the DNSKEY RDATA wire form.
fn dnskey_rdata_wire(flags: u16, algorithm: u8, key: &Vec<u8>) -> (r: Vec<u8>)
    ensures
        r@ == spec_dnskey_rdata_wire(flags, algorithm, key@),
{
    let mut out: Vec<u8> = Vec::new();
    out.push((flags / 256) as u8);
    out.push((flags % 256) as u8);
    out.push(3);
    out.push(algorithm);
    let mut i: usize = 0;
    while i < key.len()
        invariant
            i <= key@.len(),
            out@ =~= seq![(flags / 256) as u8, (flags % 256) as u8, 3u8, algorithm].add(
                key@.take(i as int)),
        decreases key@.len() - i,
    {
        out.push(key[i]);
        i = i + 1;
    }
    assert(key@.take(key@.len() as int) =~= key@);
    assert(out@ =~= spec_dnskey_rdata_wire(flags, algorithm, key@));
    out
}

/// The input that the DS digest is computed over: the owner name in
/// canonical wire form, then the DNSKEY RDATA wire form.
pub open spec fn spec_ds_digest_input(owner: Seq<u8>, flags: u16, algorithm: u8, key: Seq<u8>)
    -> Seq<u8> {
    owner.add(spec_dnskey_rdata_wire(flags, algorithm, key))
}

/// What `verify_ds` decides: algorithm match, key-tag match, then the
/// digest of the canonical owner name and DNSKEY RDATA compared with the
/// DS digest under the DS digest type (2 SHA-256, 4 SHA-384, 5 SHA-512).
pub open spec fn spec_verify_ds(ds: RecordV, dnskey: RecordV) -> Result<(), DnssecError> {
    match ds.rdata {
        RDataV::Ds(ds_key_tag, ds_algorithm, digest_type, digest) => match dnskey.rdata {
            RDataV::Dnskey(flags, _protocol, algorithm, key) => {
                if ds_algorithm != algorithm {
                    Err(DnssecError::AlgorithmMismatch)
                } else if ds_key_tag != spec_key_tag(flags, algorithm, key) {
                    Err(DnssecError::KeyTagMismatch)
                } else {
                    let input = spec_ds_digest_input(dnskey.name, flags, algorithm, key);
                    if digest_type == 2 {
                        if digest == sha256_of(input) {
                            Ok(())
                        } else {
                            Err(DnssecError::DigestMismatch)
                        }
                    } else if digest_type == 4 {
                        if digest == sha384_of(input) {
                            Ok(())
                        } else {
                            Err(DnssecError::DigestMismatch)
                        }
                    } else if digest_type == 5 {
                        if digest == sha512_of(input) {
                            Ok(())
                        } else {
                            Err(DnssecError::DigestMismatch)
                        }
                    } else {
                        Err(DnssecError::UnsupportedDigestType)
                    }
                }
            },
            _ => Err(DnssecError::NotDnskey),
        },
        _ => Err(DnssecError::NotDs),
    }
}

/// Verifies a DS record against a DNSKEY record: the digest in the DS must
/// equal the hash of the canonical owner name and the DNSKEY RDATA.
pub fn verify_ds(ds: &Record, dnskey: &Record) -> (r: Result<(), DnssecError>)
    requires
        ds.wf(),
        dnskey.wf(),
    ensures
        r == spec_verify_ds(ds@, dnskey@),
{
    let (ds_key_tag, ds_algorithm, digest_type, digest) = match &ds.rdata {
        RData::Ds(kt, a, dt, d) => (*kt, *a, *dt, d),
        _ => {
            return Err(DnssecError::NotDs);
        },
    };
    let (flags, algorithm, key) = match &dnskey.rdata {
        RData::Dnskey(f, _p, a, k) => (*f, *a, k),
        _ => {
            return Err(DnssecError::NotDnskey);
        },
    };
    if ds_algorithm != algorithm {
        return Err(DnssecError::AlgorithmMismatch);
    }
    let rdata_wire = dnskey_rdata_wire(flags, algorithm, key);
    let computed_tag = key_tag_of_wire(&rdata_wire);
    if ds_key_tag != computed_tag {
        return Err(DnssecError::KeyTagMismatch);
    }
    let mut input = dnskey.name.to_wire();
    let mut i: usize = 0;
    while i < rdata_wire.len()
        invariant
            i <= rdata_wire@.len(),
            input@ =~= dnskey@.name.add(rdata_wire@.take(i as int)),
        decreases rdata_wire@.len() - i,
    {
        input.push(rdata_wire[i]);
        i = i + 1;
    }
    assert(rdata_wire@.take(rdata_wire@.len() as int) =~= rdata_wire@);
    assert(input@ == spec_ds_digest_input(dnskey@.name, flags, algorithm, key@));
    let computed = if digest_type == 2 {
        sha256_digest(&input)
    } else if digest_type == 4 {
        sha384_digest(&input)
    } else if digest_type == 5 {
        sha512_digest(&input)
    } else {
        return Err(DnssecError::UnsupportedDigestType);
    };
    if crate::name::bytes_eq(&computed, digest) {
        Ok(())
    } else {
        Err(DnssecError::DigestMismatch)
    }
}

/// What `check_signature_validity` decides: the moment must lie within
/// the inception..=expiration window, compared as plain 32-bit values.
pub open spec fn spec_signature_validity(rrsig: RecordV, now_unix: u32) -> Result<
    (),
    DnssecError,
> {
    match rrsig.rdata {
        RDataV::Rrsig(s) => {
            if now_unix < s.sig_inception {
                Err(DnssecError::NotYetValid)
            } else if now_unix > s.sig_expiration {
                Err(DnssecError::Expired)
            } else {
                Ok(())
            }
        },
        _ => Err(DnssecError::NotRrsig),
    }
}

/// Checks that an RRSIG is time-valid at `now_unix` seconds since the
/// epoch. Plain unsigned comparison; 32-bit wraparound past 2106 is
/// knowingly ignored.
pub fn check_signature_validity(rrsig: &Record, now_unix: u32) -> (r: Result<(), DnssecError>)
    ensures
        r == spec_signature_validity(rrsig@, now_unix),
{
    match &rrsig.rdata {
        RData::Rrsig(s) => {
            if now_unix < s.sig_inception {
                Err(DnssecError::NotYetValid)
            } else if now_unix > s.sig_expiration {
                Err(DnssecError::Expired)
            } else {
                Ok(())
            }
        },
        _ => Err(DnssecError::NotRrsig),
    }
}

/// An NSEC record with owner `owner` and next name `next` covers `q`:
/// strictly between the two in canonical order, or outside the wrap-around
/// interval of the last record of the zone.
pub open spec fn spec_nsec_covers(owner: Seq<u8>, next: Seq<u8>, q: Seq<u8>) -> bool {
    if spec_name_lt(owner, next) {
        spec_name_lt(owner, q) && spec_name_lt(q, next)
    } else {
        spec_name_lt(owner, q) || spec_name_lt(q, next)
    }
}

/// One NSEC record proves the non-existence of (q, qtype): it covers `q`,
/// or it owns `q` and its type bitmap lacks `qtype`.
pub open spec fn spec_nsec_proves(rec: RecordV, q: Seq<u8>, qtype: RrType) -> bool {
    match rec.rdata {
        RDataV::Nsec(next, types) => spec_nsec_covers(rec.name, next, q) || (rec.name == q
            && !types.contains(qtype)),
        _ => false,
    }
}

/// Some record in the set proves the denial.
pub open spec fn spec_nsec_denies(recs: Seq<RecordV>, q: Seq<u8>, qtype: RrType) -> bool {
    exists|i: int| 0 <= i < recs.len() && spec_nsec_proves(#[trigger] recs[i], q, qtype)
}

/// Validates an NSEC proof of non-existence for (query_name, query_type):
/// succeeds exactly when one of the records proves the denial.
pub fn validate_nsec_denial(query_name: &DnsName, query_type: RrType,
    nsec_records: &Vec<Record>) -> (r: Result<(), DnssecError>)
    requires
        query_name.wf(),
        forall|i: int| 0 <= i < nsec_records@.len() ==> (#[trigger] nsec_records@[i]@).wf(),
    ensures
        r is Ok <==> spec_nsec_denies(crate::zone::recs_view(nsec_records@), query_name@,
            query_type),
        r is Err ==> r == Result::<(), DnssecError>::Err(DnssecError::NoNsecProof),
{
    let ghost rv = crate::zone::recs_view(nsec_records@);
    let mut i: usize = 0;
    while i < nsec_records.len()
        invariant
            i <= nsec_records@.len(),
            rv == crate::zone::recs_view(nsec_records@),
            query_name.wf(),
            forall|k: int| 0 <= k < nsec_records@.len() ==> (#[trigger] nsec_records@[k]@).wf(),
            forall|k: int| 0 <= k < i ==> !spec_nsec_proves(#[trigger] rv[k], query_name@,
                query_type),
        decreases nsec_records@.len() - i,
    {
        let rec = &nsec_records[i];
        assert(rec@ == rv[i as int]);
        match &rec.rdata {
            RData::Nsec(next, types) => {
                let covers = if rec.name.canonical_lt(next) {
                    rec.name.canonical_lt(query_name) && query_name.canonical_lt(next)
                } else {
                    rec.name.canonical_lt(query_name) || query_name.canonical_lt(next)
                };
                if covers {
                    return Ok(());
                }
                if rec.name == *query_name {
                    let mut found = false;
                    let mut j: usize = 0;
                    while j < types.len()
                        invariant
                            j <= types@.len(),
                            found == types@.take(j as int).contains(query_type),
                        decreases types@.len() - j,
                    {
                        if types[j] == query_type {
                            found = true;
                        }
                        proof {
                            assert(types@.take(j + 1).drop_last() =~= types@.take(j as int));
                            assert(types@.take(j + 1).last() == types@[j as int]);
                            if types@.take(j as int).contains(query_type) || types@[j as int]
                                == query_type {
                                assert(types@.take(j + 1).contains(query_type));
                            } else {
                                assert forall|m: int| 0 <= m < j + 1 implies #[trigger] types@.take(
                                    j + 1)[m] != query_type by {
                                    if m < j {
                                        assert(!types@.take(j as int).contains(query_type));
                                        assert(types@.take(j as int)[m] == types@.take(j
                                            + 1)[m]);
                                    }
                                }
                            }
                        }
                        j = j + 1;
                    }
                    assert(types@.take(types@.len() as int) =~= types@);
                    if !found {
                        return Ok(());
                    }
                }
            },
            _ => {},
        }
        assert(!spec_nsec_proves(rv[i as int], query_name@, query_type));
        i = i + 1;
    }
    Err(DnssecError::NoNsecProof)
}

/// The RRSIG records at `name` covering `rtype`, kept in order.
pub open spec fn spec_covering_sigs(recs: Seq<RecordV>, name: Seq<u8>, rtype: RrType) -> Seq<
    RecordV,
>
    decreases recs.len(),
{
    if recs.len() == 0 {
        Seq::empty()
    } else {
        spec_covering_sigs(recs.drop_last(), name, rtype).add(
            if sig_matches(recs.last(), name, rtype) {
                seq![recs.last()]
            } else {
                Seq::empty()
            })
    }
}

pub open spec fn sig_matches(rec: RecordV, name: Seq<u8>, rtype: RrType) -> bool {
    match rec.rdata {
        RDataV::Rrsig(s) => rec.name == name && s.type_covered == rtype,
        _ => false,
    }
}

/// The DNSKEY records of the set, kept in order.
pub open spec fn spec_dnskeys(recs: Seq<RecordV>) -> Seq<RecordV>
    decreases recs.len(),
{
    if recs.len() == 0 {
        Seq::empty()
    } else {
        spec_dnskeys(recs.drop_last()).add(if recs.last().rdata is Dnskey {
            seq![recs.last()]
        } else {
            Seq::empty()
        })
    }
}

/// Collects the DNSSEC records related to an RRset: the RRSIGs at `name`
/// covering `rtype`, then every DNSKEY of the input.
pub fn find_related_dnssec_records(records: &Vec<Record>, name: &DnsName, rtype: RrType) -> (r:
    Vec<Record>)
    ensures
        crate::zone::recs_view(r@) == spec_covering_sigs(crate::zone::recs_view(records@),
            name@, rtype).add(spec_dnskeys(crate::zone::recs_view(records@))),
{
    let ghost rv = crate::zone::recs_view(records@);
    let mut out: Vec<Record> = Vec::new();
    let ghost mut done: Seq<RecordV> = Seq::empty();
    let mut i: usize = 0;
    assert(rv.take(0) =~= Seq::<RecordV>::empty());
    assert(spec_covering_sigs(rv.take(0), name@, rtype) =~= Seq::<RecordV>::empty());
    while i < records.len()
        invariant
            i <= records@.len(),
            rv == crate::zone::recs_view(records@),
            out@.len() == done.len(),
            forall|k: int| 0 <= k < done.len() ==> (#[trigger] out@[k])@ == done[k],
            done == spec_covering_sigs(rv.take(i as int), name@, rtype),
        decreases records@.len() - i,
    {
        let rec = &records[i];
        assert(rec@ == rv[i as int]);
        let is_match = match &rec.rdata {
            RData::Rrsig(s) => rec.name == *name && s.type_covered == rtype,
            _ => false,
        };
        proof {
            assert(rv.take(i + 1).drop_last() =~= rv.take(i as int));
            assert(rv.take(i + 1).last() == rv[i as int]);
        }
        if is_match {
            out.push(rec.clone());
            proof {
                done = done.push(rec@);
            }
        }
        proof {
            assert(done =~= spec_covering_sigs(rv.take(i + 1), name@, rtype));
        }
        i = i + 1;
    }
    assert(rv.take(rv.len() as int) =~= rv);
    let ghost sigs = done;
    let ghost mut keys: Seq<RecordV> = Seq::empty();
    let mut i2: usize = 0;
    assert(spec_dnskeys(rv.take(0)) =~= Seq::<RecordV>::empty());
    while i2 < records.len()
        invariant
            i2 <= records@.len(),
            rv == crate::zone::recs_view(records@),
            out@.len() == sigs.len() + keys.len(),
            forall|k: int| 0 <= k < sigs.len() ==> (#[trigger] out@[k])@ == sigs[k],
            forall|k: int| 0 <= k < keys.len() ==> (#[trigger] out@[sigs.len() + k])@
                == keys[k],
            keys == spec_dnskeys(rv.take(i2 as int)),
        decreases records@.len() - i2,
    {
        let rec = &records[i2];
        assert(rec@ == rv[i2 as int]);
        let is_key = match &rec.rdata {
            RData::Dnskey(..) => true,
            _ => false,
        };
        proof {
            assert(rv.take(i2 + 1).drop_last() =~= rv.take(i2 as int));
            assert(rv.take(i2 + 1).last() == rv[i2 as int]);
        }
        if is_key {
            out.push(rec.clone());
            proof {
                keys = keys.push(rec@);
            }
        }
        proof {
            assert(keys =~= spec_dnskeys(rv.take(i2 + 1)));
        }
        i2 = i2 + 1;
    }
    proof {
        let expect = sigs.add(spec_dnskeys(rv));
        assert forall|k: int| 0 <= k < out@.len() implies #[trigger] crate::zone::recs_view(
            out@)[k] == expect[k] by {
            if k < sigs.len() {
                assert(out@[k]@ == sigs[k]);
            } else {
                let m = k - sigs.len();
                assert(out@[sigs.len() + m]@ == keys[m]);
                assert(out@[k]@ == keys[m]);
            }
        }
        assert(crate::zone::recs_view(out@) =~= expect);
    }
    out
}

/// Key-tag consistency: the key tag is a function of the DNSKEY RDATA
/// alone, so two records carrying the same RDATA — for instance the same
/// record before and after a serialization round trip — have the same tag.
pub proof fn lemma_key_tag_stable(k1: RecordV, k2: RecordV)
    requires
        k1.rdata == k2.rdata,
    ensures
        spec_compute_key_tag(k1) == spec_compute_key_tag(k2),
{
}

/// DS verification round-trip, first half: a DS record carrying the
/// correctly computed key tag and the SHA-256 digest of the canonical
/// owner name and DNSKEY RDATA verifies against that DNSKEY.
pub proof fn lemma_ds_roundtrip(ds: RecordV, dnskey: RecordV, flags: u16, protocol: u8,
    algorithm: u8, key: Seq<u8>)
    requires
        dnskey.rdata == RDataV::Dnskey(flags, protocol, algorithm, key),
        ds.rdata == RDataV::Ds(spec_key_tag(flags, algorithm, key), algorithm, 2, sha256_of(
            spec_ds_digest_input(dnskey.name, flags, algorithm, key))),
    ensures
        spec_verify_ds(ds, dnskey) is Ok,
{
}

/// DS verification round-trip, second half: altering the digest (one
/// octet suffices to make the sequences differ), the algorithm or the key
/// tag of a correct DS makes verification fail.
pub proof fn lemma_ds_tamper_fails(ds: RecordV, dnskey: RecordV, flags: u16, protocol: u8,
    algorithm: u8, key: Seq<u8>, kt: u16, alg2: u8, digest: Seq<u8>)
    requires
        dnskey.rdata == RDataV::Dnskey(flags, protocol, algorithm, key),
        ds.rdata == RDataV::Ds(kt, alg2, 2, digest),
        kt != spec_key_tag(flags, algorithm, key) || alg2 != algorithm || digest != sha256_of(
            spec_ds_digest_input(dnskey.name, flags, algorithm, key)),
    ensures
        spec_verify_ds(ds, dnskey) is Err,
{
}

} // verus!
