//! Resource-record types: the RR-type enum, the RDATA sum type with one
//! variant per supported type, and records. Each executable type has a spec
//! view over plain sequences, which the contracts of the zone store, the
//! query processor and the codec are stated over.

use vstd::prelude::*;
use crate::name::DnsName;
use crate::name::name_wf;
use crate::name::clone_bytes;

verus! {

/// A resource-record type. `Other` carries a code that none of the named
/// variants has.
#[derive(Clone, Copy, PartialEq, Eq, Structural, Debug, Hash)]
pub enum RrType {
    A,
    Aaaa,
    Ns,
    Cname,
    Soa,
    Ptr,
    Mx,
    Txt,
    Srv,
    Caa,
    Ds,
    Rrsig,
    Nsec,
    Dnskey,
    Opt,
    Axfr,
    Other(u16),
}

impl RrType {
    /// The 16-bit code of this type on the wire.
    pub open spec fn spec_code(self) -> u16 {
        match self {
            RrType::A => 1,
            RrType::Ns => 2,
            RrType::Cname => 5,
            RrType::Soa => 6,
            RrType::Ptr => 12,
            RrType::Mx => 15,
            RrType::Txt => 16,
            RrType::Aaaa => 28,
            RrType::Srv => 33,
            RrType::Opt => 41,
            RrType::Ds => 43,
            RrType::Rrsig => 46,
            RrType::Nsec => 47,
            RrType::Dnskey => 48,
            RrType::Axfr => 252,
            RrType::Caa => 257,
            RrType::Other(c) => c,
        }
    }

    /// An `Other` code never shadows a named variant.
    pub open spec fn canonical(self) -> bool {
        match self {
            RrType::Other(c) => !is_named_code(c),
            _ => true,
        }
    }

    pub fn code(self) -> (r: u16)
        ensures
            r == self.spec_code(),
    {
        match self {
            RrType::A => 1,
            RrType::Ns => 2,
            RrType::Cname => 5,
            RrType::Soa => 6,
            RrType::Ptr => 12,
            RrType::Mx => 15,
            RrType::Txt => 16,
            RrType::Aaaa => 28,
            RrType::Srv => 33,
            RrType::Opt => 41,
            RrType::Ds => 43,
            RrType::Rrsig => 46,
            RrType::Nsec => 47,
            RrType::Dnskey => 48,
            RrType::Axfr => 252,
            RrType::Caa => 257,
            RrType::Other(c) => c,
        }
    }

    pub fn from_code(c: u16) -> (r: RrType)
        ensures
            r == spec_type_of_code(c),
            r.spec_code() == c,
            r.canonical(),
    {
        match c {
            1 => RrType::A,
            2 => RrType::Ns,
            5 => RrType::Cname,
            6 => RrType::Soa,
            12 => RrType::Ptr,
            15 => RrType::Mx,
            16 => RrType::Txt,
            28 => RrType::Aaaa,
            33 => RrType::Srv,
            41 => RrType::Opt,
            43 => RrType::Ds,
            46 => RrType::Rrsig,
            47 => RrType::Nsec,
            48 => RrType::Dnskey,
            252 => RrType::Axfr,
            257 => RrType::Caa,
            _ => RrType::Other(c),
        }
    }
}

pub open spec fn is_named_code(c: u16) -> bool {
    c == 1 || c == 2 || c == 5 || c == 6 || c == 12 || c == 15 || c == 16 || c == 28 || c == 33
        || c == 41 || c == 43 || c == 46 || c == 47 || c == 48 || c == 252 || c == 257
}

pub open spec fn spec_type_of_code(c: u16) -> RrType {
    if c == 1 {
        RrType::A
    } else if c == 2 {
        RrType::Ns
    } else if c == 5 {
        RrType::Cname
    } else if c == 6 {
        RrType::Soa
    } else if c == 12 {
        RrType::Ptr
    } else if c == 15 {
        RrType::Mx
    } else if c == 16 {
        RrType::Txt
    } else if c == 28 {
        RrType::Aaaa
    } else if c == 33 {
        RrType::Srv
    } else if c == 41 {
        RrType::Opt
    } else if c == 43 {
        RrType::Ds
    } else if c == 46 {
        RrType::Rrsig
    } else if c == 47 {
        RrType::Nsec
    } else if c == 48 {
        RrType::Dnskey
    } else if c == 252 {
        RrType::Axfr
    } else if c == 257 {
        RrType::Caa
    } else {
        RrType::Other(c)
    }
}

/// The SOA fields of a zone.
pub struct SoaFields {
    pub mname: DnsName,
    pub rname: DnsName,
    pub serial: u32,
    pub refresh: i32,
    pub retry: i32,
    pub expire: i32,
    pub minimum: u32,
}

/// Spec view of `SoaFields`.
pub struct SoaV {
    pub mname: Seq<u8>,
    pub rname: Seq<u8>,
    pub serial: u32,
    pub refresh: i32,
    pub retry: i32,
    pub expire: i32,
    pub minimum: u32,
}

impl View for SoaFields {
    type V = SoaV;

    open spec fn view(&self) -> SoaV {
        SoaV {
            mname: self.mname@,
            rname: self.rname@,
            serial: self.serial,
            refresh: self.refresh,
            retry: self.retry,
            expire: self.expire,
            minimum: self.minimum,
        }
    }
}

impl SoaFields {
    pub open spec fn wf(&self) -> bool {
        name_wf(self.mname@) && name_wf(self.rname@)
    }
}

impl Clone for SoaFields {
    fn clone(&self) -> (r: Self)
        ensures
            r@ == self@,
    {
        SoaFields {
            mname: self.mname.clone(),
            rname: self.rname.clone(),
            serial: self.serial,
            refresh: self.refresh,
            retry: self.retry,
            expire: self.expire,
            minimum: self.minimum,
        }
    }
}

/// RRSIG RDATA fields.
pub struct RrsigData {
    pub type_covered: RrType,
    pub algorithm: u8,
    pub labels: u8,
    pub original_ttl: u32,
    pub sig_expiration: u32,
    pub sig_inception: u32,
    pub key_tag: u16,
    pub signer: DnsName,
    pub signature: Vec<u8>,
}

/// Spec view of `RrsigData`.
pub struct RrsigV {
    pub type_covered: RrType,
    pub algorithm: u8,
    pub labels: u8,
    pub original_ttl: u32,
    pub sig_expiration: u32,
    pub sig_inception: u32,
    pub key_tag: u16,
    pub signer: Seq<u8>,
    pub signature: Seq<u8>,
}

impl View for RrsigData {
    type V = RrsigV;

    open spec fn view(&self) -> RrsigV {
        RrsigV {
            type_covered: self.type_covered,
            algorithm: self.algorithm,
            labels: self.labels,
            original_ttl: self.original_ttl,
            sig_expiration: self.sig_expiration,
            sig_inception: self.sig_inception,
            key_tag: self.key_tag,
            signer: self.signer@,
            signature: self.signature@,
        }
    }
}

impl Clone for RrsigData {
    fn clone(&self) -> (r: Self)
        ensures
            r@ == self@,
    {
        RrsigData {
            type_covered: self.type_covered,
            algorithm: self.algorithm,
            labels: self.labels,
            original_ttl: self.original_ttl,
            sig_expiration: self.sig_expiration,
            sig_inception: self.sig_inception,
            key_tag: self.key_tag,
            signer: self.signer.clone(),
            signature: clone_bytes(&self.signature),
        }
    }
}

/// RDATA: one variant per supported record type.
pub enum RData {
    /// An IPv4 address as one 32-bit value, highest octet first.
    A(u32),
    /// An IPv6 address as its 16 octets.
    Aaaa(Vec<u8>),
    Ns(DnsName),
    Cname(DnsName),
    Ptr(DnsName),
    Soa(SoaFields),
    Mx(u16, DnsName),
    /// The character strings of a TXT record, as bytes.
    Txt(Vec<Vec<u8>>),
    Srv(u16, u16, u16, DnsName),
    /// flags, tag, value.
    Caa(u8, Vec<u8>, Vec<u8>),
    /// flags, protocol, algorithm, public key.
    Dnskey(u16, u8, u8, Vec<u8>),
    Rrsig(RrsigData),
    /// Next owner name and the types present at the owner.
    Nsec(DnsName, Vec<RrType>),
    /// key tag, algorithm, digest type, digest.
    Ds(u16, u8, u8, Vec<u8>),
}

/// Spec view of `RData`.
pub enum RDataV {
    A(u32),
    Aaaa(Seq<u8>),
    Ns(Seq<u8>),
    Cname(Seq<u8>),
    Ptr(Seq<u8>),
    Soa(SoaV),
    Mx(u16, Seq<u8>),
    Txt(Seq<Seq<u8>>),
    Srv(u16, u16, u16, Seq<u8>),
    Caa(u8, Seq<u8>, Seq<u8>),
    Dnskey(u16, u8, u8, Seq<u8>),
    Rrsig(RrsigV),
    Nsec(Seq<u8>, Seq<RrType>),
    Ds(u16, u8, u8, Seq<u8>),
}

impl View for RData {
    type V = RDataV;

    open spec fn view(&self) -> RDataV {
        match self {
            RData::A(a) => RDataV::A(*a),
            RData::Aaaa(v) => RDataV::Aaaa(v@),
            RData::Ns(n) => RDataV::Ns(n@),
            RData::Cname(n) => RDataV::Cname(n@),
            RData::Ptr(n) => RDataV::Ptr(n@),
            RData::Soa(s) => RDataV::Soa(s@),
            RData::Mx(p, n) => RDataV::Mx(*p, n@),
            RData::Txt(ss) => RDataV::Txt(ss.deep_view()),
            RData::Srv(p, w, port, n) => RDataV::Srv(*p, *w, *port, n@),
            RData::Caa(f, t, v) => RDataV::Caa(*f, t@, v@),
            RData::Dnskey(f, p, a, k) => RDataV::Dnskey(*f, *p, *a, k@),
            RData::Rrsig(s) => RDataV::Rrsig(s@),
            RData::Nsec(n, ts) => RDataV::Nsec(n@, ts@),
            RData::Ds(kt, a, dt, d) => RDataV::Ds(*kt, *a, *dt, d@),
        }
    }
}

/// The RR type that an RDATA value belongs to.
pub open spec fn spec_rtype_of(r: RDataV) -> RrType {
    match r {
        RDataV::A(..) => RrType::A,
        RDataV::Aaaa(..) => RrType::Aaaa,
        RDataV::Ns(..) => RrType::Ns,
        RDataV::Cname(..) => RrType::Cname,
        RDataV::Ptr(..) => RrType::Ptr,
        RDataV::Soa(..) => RrType::Soa,
        RDataV::Mx(..) => RrType::Mx,
        RDataV::Txt(..) => RrType::Txt,
        RDataV::Srv(..) => RrType::Srv,
        RDataV::Caa(..) => RrType::Caa,
        RDataV::Dnskey(..) => RrType::Dnskey,
        RDataV::Rrsig(..) => RrType::Rrsig,
        RDataV::Nsec(..) => RrType::Nsec,
        RDataV::Ds(..) => RrType::Ds,
    }
}

/// Well-formedness of RDATA: names well-formed, raw fields within the
/// lengths that a 16-bit RDLENGTH can frame.
pub open spec fn rdata_wf(r: RDataV) -> bool {
    match r {
        RDataV::A(..) => true,
        RDataV::Aaaa(v) => v.len() == 16,
        RDataV::Ns(n) => name_wf(n),
        RDataV::Cname(n) => name_wf(n),
        RDataV::Ptr(n) => name_wf(n),
        RDataV::Soa(s) => name_wf(s.mname) && name_wf(s.rname),
        RDataV::Mx(_, n) => name_wf(n),
        RDataV::Txt(ss) => 1 <= ss.len() <= 255 && forall|i: int|
            0 <= i < ss.len() ==> #[trigger] ss[i].len() <= 255,
        RDataV::Srv(_, _, _, n) => name_wf(n),
        RDataV::Caa(_, t, v) => 1 <= t.len() <= 255 && v.len() <= 16384,
        RDataV::Dnskey(_, _, _, k) => k.len() <= 16384,
        RDataV::Rrsig(s) => name_wf(s.signer) && s.signature.len() <= 16384,
        RDataV::Nsec(n, ts) => name_wf(n) && ts.len() <= 255 && forall|i: int|
            0 <= i < ts.len() ==> (#[trigger] ts[i]).spec_code() < 512,
        RDataV::Ds(_, _, _, d) => d.len() <= 16384,
    }
}

impl Clone for RData {
    fn clone(&self) -> (r: Self)
        ensures
            r@ == self@,
    {
        match self {
            RData::A(a) => RData::A(*a),
            RData::Aaaa(v) => RData::Aaaa(clone_bytes(v)),
            RData::Ns(n) => RData::Ns(n.clone()),
            RData::Cname(n) => RData::Cname(n.clone()),
            RData::Ptr(n) => RData::Ptr(n.clone()),
            RData::Soa(s) => RData::Soa(s.clone()),
            RData::Mx(p, n) => RData::Mx(*p, n.clone()),
            RData::Txt(ss) => RData::Txt(clone_byte_vecs(ss)),
            RData::Srv(p, w, port, n) => RData::Srv(*p, *w, *port, n.clone()),
            RData::Caa(f, t, v) => RData::Caa(*f, clone_bytes(t), clone_bytes(v)),
            RData::Dnskey(f, p, a, k) => RData::Dnskey(*f, *p, *a, clone_bytes(k)),
            RData::Rrsig(s) => RData::Rrsig(s.clone()),
            RData::Nsec(n, ts) => RData::Nsec(n.clone(), clone_types(ts)),
            RData::Ds(kt, a, dt, d) => RData::Ds(*kt, *a, *dt, clone_bytes(d)),
        }
    }
}

impl RData {
    /// The RR type this RDATA belongs to.
    pub fn rtype(&self) -> (r: RrType)
        ensures
            r == spec_rtype_of(self@),
    {
        match self {
            RData::A(..) => RrType::A,
            RData::Aaaa(..) => RrType::Aaaa,
            RData::Ns(..) => RrType::Ns,
            RData::Cname(..) => RrType::Cname,
            RData::Ptr(..) => RrType::Ptr,
            RData::Soa(..) => RrType::Soa,
            RData::Mx(..) => RrType::Mx,
            RData::Txt(..) => RrType::Txt,
            RData::Srv(..) => RrType::Srv,
            RData::Caa(..) => RrType::Caa,
            RData::Dnskey(..) => RrType::Dnskey,
            RData::Rrsig(..) => RrType::Rrsig,
            RData::Nsec(..) => RrType::Nsec,
            RData::Ds(..) => RrType::Ds,
        }
    }
}

/// A resource record. Its type is that of its RDATA, so the invariant that
/// the two match holds by construction.
pub struct Record {
    pub name: DnsName,
    pub ttl: u32,
    pub rdata: RData,
}

/// Spec view of `Record`.
pub struct RecordV {
    pub name: Seq<u8>,
    pub ttl: u32,
    pub rdata: RDataV,
}

impl RecordV {
    pub open spec fn rtype(self) -> RrType {
        spec_rtype_of(self.rdata)
    }

    pub open spec fn wf(self) -> bool {
        name_wf(self.name) && rdata_wf(self.rdata)
    }
}

impl View for Record {
    type V = RecordV;

    open spec fn view(&self) -> RecordV {
        RecordV { name: self.name@, ttl: self.ttl, rdata: self.rdata@ }
    }
}

impl Clone for Record {
    fn clone(&self) -> (r: Self)
        ensures
            r@ == self@,
    {
        Record { name: self.name.clone(), ttl: self.ttl, rdata: self.rdata.clone() }
    }
}

impl Record {
    /// Builds a record over the given RDATA; its type is the RDATA's.
    pub fn from_rdata(name: DnsName, ttl: u32, rdata: RData) -> (r: Record)
        ensures
            r@ == (RecordV { name: name@, ttl: ttl, rdata: rdata@ }),
    {
        Record { name, ttl, rdata }
    }

    pub fn rtype(&self) -> (r: RrType)
        ensures
            r == self@.rtype(),
    {
        self.rdata.rtype()
    }

    pub open spec fn wf(&self) -> bool {
        self@.wf()
    }
}

/// Copies a vector of byte strings.
pub fn clone_byte_vecs(v: &Vec<Vec<u8>>) -> (r: Vec<Vec<u8>>)
    ensures
        r.deep_view() == v.deep_view(),
{
    let mut out: Vec<Vec<u8>> = Vec::new();
    let mut i: usize = 0;
    while i < v.len()
        invariant
            i <= v@.len(),
            out@.len() == i,
            forall|j: int| 0 <= j < i ==> #[trigger] out@[j]@ == v@[j]@,
        decreases v@.len() - i,
    {
        out.push(clone_bytes(&v[i]));
        i = i + 1;
    }
    assert forall|j: int| 0 <= j < v@.len() implies #[trigger] out.deep_view()[j]
        == v.deep_view()[j] by {
        assert(out@[j].deep_view() =~= out@[j]@);
        assert(v@[j].deep_view() =~= v@[j]@);
    }
    assert(out.deep_view() =~= v.deep_view());
    out
}

/// Copies a vector of RR types.
pub fn clone_types(v: &Vec<RrType>) -> (r: Vec<RrType>)
    ensures
        r@ == v@,
{
    let mut out: Vec<RrType> = Vec::new();
    let mut i: usize = 0;
    while i < v.len()
        invariant
            i <= v@.len(),
            out@ =~= v@.take(i as int),
        decreases v@.len() - i,
    {
        out.push(v[i]);
        i = i + 1;
    }
    assert(v@.take(v@.len() as int) =~= v@);
    out
}

} // verus!
