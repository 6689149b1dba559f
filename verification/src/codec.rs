//! The RFC 1035 wire codec: serializing parsed messages into datagram
//! bytes and reading incoming requests back. Responses are written without
//! name compression; requests are read with the question section parsed
//! (names uncompressed, lowercased on the way in), other sections skipped,
//! and the EDNS0 OPT record of the additional section taken up.

use vstd::prelude::*;
use crate::name::name_wf;
use crate::rr::Record;
use crate::rr::RecordV;
use crate::rr::RData;
use crate::rr::RDataV;
use crate::rr::RrType;
use crate::rr::rdata_wf;
use crate::message::Message;
use crate::message::MessageV;
use crate::message::QuestionV;
use crate::message::Edns;

verus! {

/// A 16-bit value as two octets, highest first.
pub open spec fn u16_be(v: u16) -> Seq<u8> {
    seq![(v / 256) as u8, (v % 256) as u8]
}

/// A 32-bit value as four octets, highest first.
pub open spec fn u32_be(v: u32) -> Seq<u8> {
    seq![
        (v / 0x1000000) as u8,
        ((v / 0x10000) % 256) as u8,
        ((v / 256) % 256) as u8,
        (v % 256) as u8,
    ]
}

/// The wire form of one question.
pub open spec fn spec_question_wire(q: QuestionV) -> Seq<u8> {
    q.name.add(u16_be(q.qtype.spec_code())).add(u16_be(q.qclass))
}

/// The TXT RDATA: each string length-prefixed.
pub open spec fn txt_wire(ss: Seq<Seq<u8>>) -> Seq<u8>
    decreases ss.len(),
{
    if ss.len() == 0 {
        Seq::empty()
    } else {
        txt_wire(ss.drop_last()).add(seq![ss.last().len() as u8]).add(ss.last())
    }
}

/// The wire bit for position `r` inside one bitmap octet: bit 0 is the
/// highest-order bit.
pub open spec fn bit_mask(r: int) -> u8 {
    if r == 0 {
        128
    } else if r == 1 {
        64
    } else if r == 2 {
        32
    } else if r == 3 {
        16
    } else if r == 4 {
        8
    } else if r == 5 {
        4
    } else if r == 6 {
        2
    } else {
        1
    }
}

/// One byte of an NSEC bitmap window: the bits of the types that fall
/// into octet `i` of window `w`.
pub open spec fn nsec_byte(types: Seq<RrType>, w: int, i: int) -> u8
    decreases types.len(),
{
    if types.len() == 0 {
        0
    } else {
        let c = types.last().spec_code() as int;
        let bit: u8 = if c / 256 == w && (c % 256) / 8 == i {
            bit_mask(c % 8)
        } else {
            0
        };
        nsec_byte(types.drop_last(), w, i) | bit
    }
}

proof fn lemma_or_zero(x: u8)
    ensures
        x | 0 == x,
{
    assert(x | 0 == x) by (bit_vector);
}

/// How many octets window `w` of an NSEC bitmap occupies.
pub open spec fn nsec_window_len(types: Seq<RrType>, w: int) -> int
    decreases types.len(),
{
    if types.len() == 0 {
        0
    } else {
        let c = types.last().spec_code() as int;
        let mine: int = if c / 256 == w {
            (c % 256) / 8 + 1
        } else {
            0
        };
        let rest = nsec_window_len(types.drop_last(), w);
        if mine > rest {
            mine
        } else {
            rest
        }
    }
}

/// One window of an NSEC type bitmap: window number, octet count, octets;
/// empty when no type falls into the window.
pub open spec fn nsec_window_wire(types: Seq<RrType>, w: int) -> Seq<u8> {
    let n = nsec_window_len(types, w);
    if n == 0 {
        Seq::empty()
    } else {
        seq![w as u8, n as u8].add(Seq::new(n as nat, |i: int| nsec_byte(types, w, i)))
    }
}

/// The NSEC type bitmap over windows 0 and 1, which cover every type the
/// zone parser admits.
pub open spec fn nsec_bitmap_wire(types: Seq<RrType>) -> Seq<u8> {
    nsec_window_wire(types, 0).add(nsec_window_wire(types, 1))
}

/// The RDATA of a record in wire form.
pub open spec fn rdata_wire(rd: RDataV) -> Seq<u8> {
    match rd {
        RDataV::A(a) => u32_be(a),
        RDataV::Aaaa(v) => v,
        RDataV::Ns(n) => n,
        RDataV::Cname(n) => n,
        RDataV::Ptr(n) => n,
        RDataV::Soa(s) => s.mname.add(s.rname).add(u32_be(s.serial)).add(u32_be(
            s.refresh as u32)).add(u32_be(s.retry as u32)).add(u32_be(s.expire as u32)).add(
            u32_be(s.minimum)),
        RDataV::Mx(p, n) => u16_be(p).add(n),
        RDataV::Txt(ss) => txt_wire(ss),
        RDataV::Srv(p, w, port, n) => u16_be(p).add(u16_be(w)).add(u16_be(port)).add(n),
        RDataV::Caa(f, t, v) => seq![f, t.len() as u8].add(t).add(v),
        RDataV::Dnskey(f, p, a, k) => u16_be(f).add(seq![p, a]).add(k),
        RDataV::Rrsig(s) => u16_be(s.type_covered.spec_code()).add(seq![s.algorithm,
            s.labels]).add(u32_be(s.original_ttl)).add(u32_be(s.sig_expiration)).add(u32_be(
            s.sig_inception)).add(u16_be(s.key_tag)).add(s.signer).add(s.signature),
        RDataV::Nsec(n, ts) => n.add(nsec_bitmap_wire(ts)),
        RDataV::Ds(kt, a, dt, d) => u16_be(kt).add(seq![a, dt]).add(d),
    }
}

/// One record in wire form: owner, type, class IN, TTL, RDLENGTH, RDATA.
pub open spec fn spec_record_wire(r: RecordV) -> Seq<u8> {
    r.name.add(u16_be(r.rtype().spec_code())).add(u16_be(1)).add(u32_be(r.ttl)).add(u16_be(
        rdata_wire(r.rdata).len() as u16)).add(rdata_wire(r.rdata))
}

/// The OPT pseudo-record carrying the EDNS0 extension.
pub open spec fn spec_opt_wire(e: Edns) -> Seq<u8> {
    seq![0u8].add(u16_be(41)).add(u16_be(e.max_payload)).add(seq![0u8, e.version, if
        e.dnssec_ok {
        0x80u8
    } else {
        0u8
    }, 0u8]).add(u16_be(0))
}

pub open spec fn cat_questions(qs: Seq<QuestionV>) -> Seq<u8>
    decreases qs.len(),
{
    if qs.len() == 0 {
        Seq::empty()
    } else {
        cat_questions(qs.drop_last()).add(spec_question_wire(qs.last()))
    }
}

pub open spec fn cat_records(rs: Seq<RecordV>) -> Seq<u8>
    decreases rs.len(),
{
    if rs.len() == 0 {
        Seq::empty()
    } else {
        cat_records(rs.drop_last()).add(spec_record_wire(rs.last()))
    }
}

/// The first header flag octet: QR, opcode, AA, TC, RD.
pub open spec fn flags1(m: MessageV) -> u8 {
    (((if m.response {
        128int
    } else {
        0int
    }) + (m.opcode.spec_code() % 16) * 8 + (if m.authoritative {
        4int
    } else {
        0int
    }) + (if m.truncated {
        2int
    } else {
        0int
    }) + (if m.recursion_desired {
        1int
    } else {
        0int
    })) as u8)
}

/// The second header flag octet: RA and the response code.
pub open spec fn flags2(m: MessageV) -> u8 {
    (((if m.recursion_available {
        128int
    } else {
        0int
    }) + (m.rcode.spec_code() % 16) as int) as u8)
}

/// How many records the additional section counts: the records plus the
/// OPT pseudo-record when EDNS is attached.
pub open spec fn arcount_of(m: MessageV) -> int {
    m.additionals.len() + (if m.edns is Some {
        1int
    } else {
        0int
    })
}

/// The counts fit the four 16-bit header fields.
pub open spec fn counts_fit(m: MessageV) -> bool {
    &&& m.questions.len() <= 65535
    &&& m.answers.len() <= 65535
    &&& m.authority.len() <= 65535
    &&& arcount_of(m) <= 65535
}

/// A whole message in wire form.
pub open spec fn spec_encode_message(m: MessageV) -> Seq<u8> {
    u16_be(m.id).add(seq![flags1(m), flags2(m)]).add(u16_be(m.questions.len() as u16)).add(
        u16_be(m.answers.len() as u16)).add(u16_be(m.authority.len() as u16)).add(u16_be(
        arcount_of(m) as u16)).add(cat_questions(m.questions)).add(cat_records(m.answers)).add(
        cat_records(m.authority)).add(cat_records(m.additionals)).add(match m.edns {
        Some(e) => spec_opt_wire(e),
        None => Seq::empty(),
    })
}

/// Pushes a 16-bit value, highest octet first.
pub fn push_u16(out: &mut Vec<u8>, v: u16)
    ensures
        final(out)@ == old(out)@.add(u16_be(v)),
{
    out.push((v / 256) as u8);
    out.push((v % 256) as u8);
    assert(out@ =~= old(out)@.add(u16_be(v)));
}

/// Pushes a 32-bit value, highest octet first.
pub fn push_u32(out: &mut Vec<u8>, v: u32)
    ensures
        final(out)@ == old(out)@.add(u32_be(v)),
{
    out.push((v / 0x1000000) as u8);
    out.push(((v / 0x10000) % 256) as u8);
    out.push(((v / 256) % 256) as u8);
    out.push((v % 256) as u8);
    assert(out@ =~= old(out)@.add(u32_be(v)));
}

/// Appends a byte sequence.
pub fn push_bytes(out: &mut Vec<u8>, b: &Vec<u8>)
    ensures
        final(out)@ == old(out)@.add(b@),
{
    let mut i: usize = 0;
    while i < b.len()
        invariant
            i <= b@.len(),
            out@ =~= old(out)@.add(b@.take(i as int)),
        decreases b@.len() - i,
    {
        out.push(b[i]);
        i = i + 1;
    }
    assert(b@.take(b@.len() as int) =~= b@);
    assert(out@ =~= old(out)@.add(b@));
}

/// Builds the NSEC type bitmap.
fn nsec_bitmap(types: &Vec<RrType>) -> (r: Vec<u8>)
    requires
        forall|i: int| 0 <= i < types@.len() ==> (#[trigger] types@[i]).spec_code() < 512,
    ensures
        r@ == nsec_bitmap_wire(types@),
{
    let w0 = nsec_window(types, 0);
    let w1 = nsec_window(types, 1);
    let mut out = w0;
    push_bytes(&mut out, &w1);
    out
}

/// Builds one window of the NSEC type bitmap.
#[verifier::rlimit(60)]
#[verifier::spinoff_prover]
fn nsec_window(types: &Vec<RrType>, w: u8) -> (r: Vec<u8>)
    requires
        w < 2,
        forall|i: int| 0 <= i < types@.len() ==> (#[trigger] types@[i]).spec_code() < 512,
    ensures
        r@ == nsec_window_wire(types@, w as int),
{
    let ghost tv = types@;
    let mut bits: Vec<u8> = Vec::new();
    let mut z: usize = 0;
    while z < 32
        invariant
            z <= 32,
            bits@.len() == z,
            forall|i: int| 0 <= i < z ==> bits@[i] == 0,
        decreases 32 - z,
    {
        bits.push(0);
        z = z + 1;
    }
    let mut wlen: usize = 0;
    let mut k: usize = 0;
    proof {
        assert(tv.take(0) =~= Seq::<RrType>::empty());
        assert forall|i: int| 0 <= i < 32 implies bits@[i] == nsec_byte(tv.take(0), w as int,
            i) by {
        }
    }
    while k < types.len()
        invariant
            k <= tv.len(),
            tv == types@,
            forall|i: int| 0 <= i < tv.len() ==> (#[trigger] tv[i]).spec_code() < 512,
            bits@.len() == 32,
            wlen <= 32,
            wlen == nsec_window_len(tv.take(k as int), w as int),
            forall|i: int| 0 <= i < 32 ==> bits@[i] == nsec_byte(tv.take(k as int), w as int,
                i),
        decreases tv.len() - k,
    {
        let ghost pre = bits@;
        let c = types[k].code();
        proof {
            assert(tv.take(k + 1).drop_last() =~= tv.take(k as int));
            assert(tv.take(k + 1).last() == tv[k as int]);
        }
        if (c / 256) as u8 == w {
            let i = ((c % 256) / 8) as usize;
            let rpos = c % 8;
            let bit: u8 = if rpos == 0 {
                128
            } else if rpos == 1 {
                64
            } else if rpos == 2 {
                32
            } else if rpos == 3 {
                16
            } else if rpos == 4 {
                8
            } else if rpos == 5 {
                4
            } else if rpos == 6 {
                2
            } else {
                1
            };
            assert(bit == bit_mask(c as int % 8));
            assert(i < 32) by {
                assert(c % 256 < 256);
            }
            let old_byte = bits[i];
            let _ = bits.remove(i);
            bits.insert(i, old_byte | bit);
            if i + 1 > wlen {
                wlen = i + 1;
            }
            proof {
                assert(bits@ =~= pre.update(i as int, (pre[i as int] | bit)));
                assert forall|j: int| 0 <= j < 32 implies bits@[j] == nsec_byte(tv.take(k
                    + 1), w as int, j) by {
                    if j == i {
                        assert(bits@[j] == (pre[j] | bit));
                    } else {
                        assert(bits@[j] == pre[j]);
                        assert(nsec_byte(tv.take(k + 1), w as int, j) == (nsec_byte(tv.take(
                            k as int), w as int, j) | 0));
                        lemma_or_zero(nsec_byte(tv.take(k as int), w as int, j));
                    }
                }
            }
        } else {
            proof {
                assert forall|j: int| 0 <= j < 32 implies bits@[j] == nsec_byte(tv.take(k
                    + 1), w as int, j) by {
                    assert(nsec_byte(tv.take(k + 1), w as int, j) == (nsec_byte(tv.take(
                        k as int), w as int, j) | 0));
                    lemma_or_zero(nsec_byte(tv.take(k as int), w as int, j));
                }
            }
        }
        k = k + 1;
    }
    assert(tv.take(tv.len() as int) =~= tv);
    if wlen == 0 {
        let out: Vec<u8> = Vec::new();
        assert(out@ =~= nsec_window_wire(tv, w as int));
        out
    } else {
        let mut out: Vec<u8> = Vec::new();
        out.push(w);
        out.push(wlen as u8);
        let mut i: usize = 0;
        while i < wlen
            invariant
                i <= wlen <= 32,
                bits@.len() == 32,
                forall|j: int| 0 <= j < 32 ==> bits@[j] == nsec_byte(tv, w as int, j),
                out@.len() == 2 + i,
                out@[0] == w,
                out@[1] == wlen as u8,
                forall|j: int| 0 <= j < i ==> out@[2 + j] == nsec_byte(tv, w as int, j),
            decreases wlen - i,
        {
            out.push(bits[i]);
            i = i + 1;
        }
        proof {
            let expect = nsec_window_wire(tv, w as int);
            assert(expect.len() == 2 + wlen);
            assert forall|j: int| 0 <= j < out@.len() implies out@[j] == expect[j] by {
                if j >= 2 {
                    assert(expect[j] == Seq::new(wlen as nat, |i2: int| nsec_byte(tv,
                        w as int, i2))[j - 2]);
                }
            }
            assert(out@ =~= expect);
        }
        out
    }
}

/// Serializes the RDATA of a record.
#[verifier::rlimit(60)]
#[verifier::spinoff_prover]
fn encode_rdata(rd: &RData) -> (r: Vec<u8>)
    requires
        rdata_wf(rd@),
    ensures
        r@ == rdata_wire(rd@),
{
    let mut out: Vec<u8> = Vec::new();
    match rd {
        RData::A(a) => {
            push_u32(&mut out, *a);
        },
        RData::Aaaa(v) => {
            push_bytes(&mut out, v);
        },
        RData::Ns(n) => {
            let w = n.to_wire();
            push_bytes(&mut out, &w);
        },
        RData::Cname(n) => {
            let w = n.to_wire();
            push_bytes(&mut out, &w);
        },
        RData::Ptr(n) => {
            let w = n.to_wire();
            push_bytes(&mut out, &w);
        },
        RData::Soa(s) => {
            let w1 = s.mname.to_wire();
            push_bytes(&mut out, &w1);
            let w2 = s.rname.to_wire();
            push_bytes(&mut out, &w2);
            push_u32(&mut out, s.serial);
            push_u32(&mut out, s.refresh as u32);
            push_u32(&mut out, s.retry as u32);
            push_u32(&mut out, s.expire as u32);
            push_u32(&mut out, s.minimum);
        },
        RData::Mx(p, n) => {
            push_u16(&mut out, *p);
            let w = n.to_wire();
            push_bytes(&mut out, &w);
        },
        RData::Txt(ss) => {
            let ghost sv = ss.deep_view();
            let mut i: usize = 0;
            proof {
                assert(sv.take(0) =~= Seq::<Seq<u8>>::empty());
                assert(sv.len() == ss@.len());
            }
            while i < ss.len()
                invariant
                    i <= ss@.len(),
                    sv == ss.deep_view(),
                    sv.len() == ss@.len(),
                    forall|j: int| 0 <= j < sv.len() ==> (#[trigger] sv[j]).len() <= 255,
                    out@ == txt_wire(sv.take(i as int)),
                decreases ss@.len() - i,
            {
                proof {
                    assert(sv.take(i + 1).drop_last() =~= sv.take(i as int));
                    assert(sv.take(i + 1).last() == sv[i as int]);
                    assert(sv[i as int] =~= ss@[i as int]@);
                }
                out.push(ss[i].len() as u8);
                push_bytes(&mut out, &ss[i]);
                assert(out@ =~= txt_wire(sv.take(i + 1)));
                i = i + 1;
            }
            assert(sv.take(sv.len() as int) =~= sv);
        },
        RData::Srv(p, w, port, n) => {
            push_u16(&mut out, *p);
            push_u16(&mut out, *w);
            push_u16(&mut out, *port);
            let wn = n.to_wire();
            push_bytes(&mut out, &wn);
        },
        RData::Caa(f, t, v) => {
            out.push(*f);
            out.push(t.len() as u8);
            push_bytes(&mut out, t);
            push_bytes(&mut out, v);
            assert(out@ =~= seq![*f, t@.len() as u8].add(t@).add(v@));
        },
        RData::Dnskey(f, p, a, k) => {
            push_u16(&mut out, *f);
            out.push(*p);
            out.push(*a);
            push_bytes(&mut out, k);
            assert(out@ =~= u16_be(*f).add(seq![*p, *a]).add(k@));
        },
        RData::Rrsig(s) => {
            push_u16(&mut out, s.type_covered.code());
            out.push(s.algorithm);
            out.push(s.labels);
            let ghost h = out@;
            push_u32(&mut out, s.original_ttl);
            push_u32(&mut out, s.sig_expiration);
            push_u32(&mut out, s.sig_inception);
            push_u16(&mut out, s.key_tag);
            let w = s.signer.to_wire();
            push_bytes(&mut out, &w);
            push_bytes(&mut out, &s.signature);
            assert(h =~= u16_be(s.type_covered.spec_code()).add(seq![s.algorithm, s.labels]));
            assert(out@ =~= rdata_wire(rd@));
        },
        RData::Nsec(n, ts) => {
            let wn = n.to_wire();
            push_bytes(&mut out, &wn);
            let bm = nsec_bitmap(ts);
            push_bytes(&mut out, &bm);
        },
        RData::Ds(kt, a, dt, d) => {
            push_u16(&mut out, *kt);
            out.push(*a);
            out.push(*dt);
            push_bytes(&mut out, d);
            assert(out@ =~= u16_be(*kt).add(seq![*a, *dt]).add(d@));
        },
    }
    out
}

/// The RDATA of a well-formed record fits a 16-bit RDLENGTH.
pub proof fn lemma_rdata_wire_len(rd: RDataV)
    requires
        rdata_wf(rd),
    ensures
        rdata_wire(rd).len() <= 65535,
{
    match rd {
        RDataV::Txt(ss) => {
            assert(1 <= ss.len() <= 255);
            lemma_txt_wire_len(ss);
            assert(txt_wire(ss).len() <= ss.len() * 256);
            assert(ss.len() * 256 <= 255 * 256) by (nonlinear_arith)
                requires
                    ss.len() <= 255,
            ;
        },
        RDataV::Nsec(n, ts) => {
            lemma_nsec_window_len_bound(ts, 0);
            lemma_nsec_window_len_bound(ts, 1);
        },
        _ => {},
    }
}

/// A bitmap window never exceeds 32 octets.
pub proof fn lemma_nsec_window_len_bound(ts: Seq<RrType>, w: int)
    ensures
        0 <= nsec_window_len(ts, w) <= 32,
    decreases ts.len(),
{
    if ts.len() == 0 {
    } else {
        lemma_nsec_window_len_bound(ts.drop_last(), w);
    }
}

proof fn lemma_txt_wire_len(ss: Seq<Seq<u8>>)
    requires
        forall|i: int| 0 <= i < ss.len() ==> (#[trigger] ss[i]).len() <= 255,
    ensures
        txt_wire(ss).len() <= ss.len() * 256,
    decreases ss.len(),
{
    if ss.len() == 0 {
    } else {
        assert(forall|i: int| 0 <= i < ss.len() - 1 ==> ss.drop_last()[i] == ss[i]);
        lemma_txt_wire_len(ss.drop_last());
    }
}

/// Serializes one record.
fn encode_record(rec: &Record, out: &mut Vec<u8>)
    requires
        rec.wf(),
    ensures
        final(out)@ == old(out)@.add(spec_record_wire(rec@)),
{
    let w = rec.name.to_wire();
    push_bytes(out, &w);
    push_u16(out, rec.rtype().code());
    push_u16(out, 1);
    push_u32(out, rec.ttl);
    let rdata = encode_rdata(&rec.rdata);
    proof {
        lemma_rdata_wire_len(rec@.rdata);
    }
    push_u16(out, rdata.len() as u16);
    push_bytes(out, &rdata);
    assert(out@ =~= old(out)@.add(spec_record_wire(rec@)));
}

/// Serializes a message; nothing when a section count exceeds what the
/// header can say.
#[verifier::rlimit(60)]
#[verifier::spinoff_prover]
pub fn encode_message(m: &Message) -> (r: Option<Vec<u8>>)
    requires
        m.wf(),
    ensures
        match r {
            Some(b) => counts_fit(m@) && b@ == spec_encode_message(m@),
            None => !counts_fit(m@),
        },
{
    if m.questions.len() > 65535 || m.answers.len() > 65535 || m.authority.len() > 65535 {
        return None;
    }
    let extra: usize = match m.edns {
        Some(_) => 1,
        None => 0,
    };
    if m.additionals.len() > 65535 - extra {
        return None;
    }
    let mut out: Vec<u8> = Vec::new();
    push_u16(&mut out, m.id);
    let f1: u16 = (if m.response {
        128u16
    } else {
        0u16
    }) + ((m.opcode.code() % 16) as u16) * 8 + (if m.authoritative {
        4u16
    } else {
        0u16
    }) + (if m.truncated {
        2u16
    } else {
        0u16
    }) + (if m.recursion_desired {
        1u16
    } else {
        0u16
    });
    let f2: u16 = (if m.recursion_available {
        128u16
    } else {
        0u16
    }) + (m.rcode.code() % 16) as u16;
    out.push(f1 as u8);
    out.push(f2 as u8);
    assert(out@ =~= u16_be(m@.id).add(seq![flags1(m@), flags2(m@)]));
    push_u16(&mut out, m.questions.len() as u16);
    push_u16(&mut out, m.answers.len() as u16);
    push_u16(&mut out, m.authority.len() as u16);
    push_u16(&mut out, (m.additionals.len() + extra) as u16);
    let ghost header = out@;

    let ghost qv = m@.questions;
    let mut i: usize = 0;
    proof {
        assert(qv.take(0) =~= Seq::<QuestionV>::empty());
        assert(out@ =~= header.add(cat_questions(qv.take(0))));
    }
    while i < m.questions.len()
        invariant
            i <= m.questions@.len(),
            qv == m@.questions,
            qv.len() == m.questions@.len(),
            forall|j: int| 0 <= j < qv.len() ==> (#[trigger] qv[j]).wf(),
            out@ == header.add(cat_questions(qv.take(i as int))),
        decreases m.questions@.len() - i,
    {
        let q = &m.questions[i];
        assert(q@ == qv[i as int]);
        proof {
            assert(qv.take(i + 1).drop_last() =~= qv.take(i as int));
            assert(qv.take(i + 1).last() == qv[i as int]);
        }
        let w = q.name.to_wire();
        push_bytes(&mut out, &w);
        push_u16(&mut out, q.qtype.code());
        push_u16(&mut out, q.qclass);
        assert(out@ =~= header.add(cat_questions(qv.take(i + 1))));
        i = i + 1;
    }
    assert(qv.take(qv.len() as int) =~= qv);

    encode_section(&m.answers, Ghost(m@.answers), &mut out);
    encode_section(&m.authority, Ghost(m@.authority), &mut out);
    encode_section(&m.additionals, Ghost(m@.additionals), &mut out);

    match &m.edns {
        Some(e) => {
            out.push(0);
            push_u16(&mut out, 41);
            push_u16(&mut out, e.max_payload);
            out.push(0);
            out.push(e.version);
            out.push(if e.dnssec_ok {
                0x80
            } else {
                0
            });
            out.push(0);
            push_u16(&mut out, 0);
        },
        None => {},
    }
    assert(out@ =~= spec_encode_message(m@));
    Some(out)
}

/// Serializes one record section in order.
fn encode_section(rs: &Vec<Record>, sv: Ghost<Seq<RecordV>>, out: &mut Vec<u8>)
    requires
        sv@ == crate::message::mrecs_view(rs@),
        forall|j: int| 0 <= j < sv@.len() ==> (#[trigger] sv@[j]).wf(),
    ensures
        final(out)@ == old(out)@.add(cat_records(sv@)),
{
    let ghost rv = sv@;
    let mut i: usize = 0;
    proof {
        assert(rv.take(0) =~= Seq::<RecordV>::empty());
        assert(out@ =~= old(out)@.add(cat_records(rv.take(0))));
    }
    while i < rs.len()
        invariant
            i <= rs@.len(),
            rv == crate::message::mrecs_view(rs@),
            rv.len() == rs@.len(),
            forall|j: int| 0 <= j < rv.len() ==> (#[trigger] rv[j]).wf(),
            out@ == old(out)@.add(cat_records(rv.take(i as int))),
        decreases rs@.len() - i,
    {
        let rec = &rs[i];
        assert(rec@ == rv[i as int]);
        proof {
            assert(rv.take(i + 1).drop_last() =~= rv.take(i as int));
            assert(rv.take(i + 1).last() == rv[i as int]);
        }
        encode_record(rec, out);
        assert(out@ =~= old(out)@.add(cat_records(rv.take(i + 1))));
        i = i + 1;
    }
    assert(rv.take(rv.len() as int) =~= rv);
}

/// Two octets at `p` as one 16-bit value, highest first.
pub open spec fn be16(d: Seq<u8>, p: int) -> u16
    recommends
        0 <= p && p + 2 <= d.len(),
{
    (d[p] * 256 + d[p + 1]) as u16
}

/// Reading a question name at `pos`: uncompressed length-prefixed labels
/// closed by a root octet, lowercased, within the 255-octet bound.
pub open spec fn parse_qname(d: Seq<u8>, pos: int) -> Option<(Seq<u8>, int)>
    decreases d.len() - pos,
{
    if pos < 0 || pos >= d.len() {
        None
    } else if d[pos] == 0 {
        Some((seq![0u8], pos + 1))
    } else if d[pos] >= 64 {
        None
    } else if pos + 1 + d[pos] > d.len() {
        None
    } else {
        match parse_qname(d, pos + 1 + d[pos]) {
            Some((rest, p2)) => {
                if 1 + d[pos] + rest.len() <= 255 {
                    Some((seq![d[pos]].add(crate::name::lower_seq(d.subrange(pos + 1, pos + 1
                        + d[pos]))).add(rest), p2))
                } else {
                    None
                }
            },
            None => None,
        }
    }
}

/// A read question name is a well-formed stored name.
pub proof fn lemma_parse_qname_wf(d: Seq<u8>, pos: int)
    requires
        parse_qname(d, pos) is Some,
    ensures
        name_wf(parse_qname(d, pos).unwrap().0),
        pos < parse_qname(d, pos).unwrap().1 <= d.len(),
    decreases d.len() - pos,
{
    if d[pos] == 0 {
        assert(crate::name::valid_wire_name(seq![0u8]));
    } else {
        lemma_parse_qname_wf(d, pos + 1 + d[pos]);
        let (rest, p2) = parse_qname(d, pos + 1 + d[pos]).unwrap();
        let lab = crate::name::lower_seq(d.subrange(pos + 1, pos + 1 + d[pos]));
        let whole = seq![d[pos]].add(lab).add(rest);
        assert(whole[0] == d[pos]);
        assert(whole.skip(d[pos] + 1) =~= rest);
        assert(crate::name::valid_wire_name(whole));
        assert forall|i: int| 0 <= i < whole.len() implies !(65 <= #[trigger] whole[i]
            <= 90) by {
            if i == 0 {
                assert(whole[0] < 64);
            } else if i < 1 + lab.len() {
                assert(whole[i] == crate::name::spec_ascii_lower(d.subrange(pos + 1, pos + 1
                    + d[pos])[i - 1]));
            } else {
                assert(whole[i] == rest[i - 1 - lab.len()]);
            }
        }
    }
}

/// Reading `n` questions from `pos`.
pub open spec fn parse_questions(d: Seq<u8>, pos: int, n: int) -> Option<(Seq<QuestionV>, int)>
    decreases n,
{
    if n <= 0 {
        Some((Seq::empty(), pos))
    } else {
        match parse_qname(d, pos) {
            Some((nm, p)) => {
                if p + 4 <= d.len() {
                    let q = QuestionV {
                        name: nm,
                        qtype: crate::rr::spec_type_of_code(be16(d, p)),
                        qclass: be16(d, p + 2),
                    };
                    match parse_questions(d, p + 4, n - 1) {
                        Some((rest, p2)) => Some((seq![q].add(rest), p2)),
                        None => None,
                    }
                } else {
                    None
                }
            },
            None => None,
        }
    }
}

/// Skipping over a name, compression pointers included.
pub open spec fn skip_name(d: Seq<u8>, pos: int) -> Option<int>
    decreases d.len() - pos,
{
    if pos < 0 || pos >= d.len() {
        None
    } else if d[pos] == 0 {
        Some(pos + 1)
    } else if d[pos] >= 192 {
        if pos + 2 <= d.len() {
            Some(pos + 2)
        } else {
            None
        }
    } else if d[pos] >= 64 {
        None
    } else if pos + 1 + d[pos] > d.len() {
        None
    } else {
        skip_name(d, pos + 1 + d[pos])
    }
}

/// Skipping `n` records: name, ten fixed octets, RDATA.
pub open spec fn skip_records(d: Seq<u8>, pos: int, n: int) -> Option<int>
    decreases n,
{
    if n <= 0 {
        Some(pos)
    } else {
        match skip_name(d, pos) {
            Some(p) => {
                if p + 10 <= d.len() && p + 10 + be16(d, p + 8) <= d.len() {
                    skip_records(d, p + 10 + be16(d, p + 8), n - 1)
                } else {
                    None
                }
            },
            None => None,
        }
    }
}

/// Walking `n` additional records, taking up the first OPT pseudo-record.
pub open spec fn scan_additionals(d: Seq<u8>, pos: int, n: int, acc: Option<Edns>) -> Option<
    Option<Edns>,
>
    decreases n,
{
    if n <= 0 {
        Some(acc)
    } else {
        match skip_name(d, pos) {
            Some(p) => {
                if p + 10 <= d.len() && p + 10 + be16(d, p + 8) <= d.len() {
                    let acc2 = if be16(d, p) == 41 && acc is None {
                        Some(Edns {
                            max_payload: be16(d, p + 2),
                            version: d[p + 5],
                            dnssec_ok: d[p + 6] >= 128,
                        })
                    } else {
                        acc
                    };
                    scan_additionals(d, p + 10 + be16(d, p + 8), n - 1, acc2)
                } else {
                    None
                }
            },
            None => None,
        }
    }
}

/// What reading a request datagram yields: the header, the questions, and
/// the EDNS extension of the additional section; the record sections of a
/// request are skipped, not kept.
pub open spec fn spec_decode(d: Seq<u8>) -> Option<MessageV> {
    if d.len() < 12 {
        None
    } else {
        match parse_questions(d, 12, be16(d, 4) as int) {
            Some((qs, p1)) => {
                match skip_records(d, p1, be16(d, 6) + be16(d, 8)) {
                    Some(p2) => {
                        match scan_additionals(d, p2, be16(d, 10) as int, None) {
                            Some(edns) => Some(MessageV {
                                id: be16(d, 0),
                                response: d[2] >= 128,
                                opcode: crate::message::spec_opcode_of(((d[2] / 8) % 16) as u8),
                                authoritative: (d[2] / 4) % 2 == 1,
                                truncated: (d[2] / 2) % 2 == 1,
                                recursion_desired: d[2] % 2 == 1,
                                recursion_available: d[3] >= 128,
                                rcode: crate::message::spec_rcode_of((d[3] % 16) as u8),
                                questions: qs,
                                answers: Seq::empty(),
                                authority: Seq::empty(),
                                additionals: Seq::empty(),
                                edns,
                            }),
                            None => None,
                        }
                    },
                    None => None,
                }
            },
            None => None,
        }
    }
}

/// Reads two octets as one 16-bit value.
pub fn read_u16(d: &Vec<u8>, p: usize) -> (r: u16)
    requires
        p + 2 <= d@.len(),
    ensures
        r == be16(d@, p as int),
{
    let n = d.len();
    assert(p + 2 <= n);
    (d[p] as u16) * 256 + (d[p + 1] as u16)
}

/// Reads a question name.
fn read_qname(d: &Vec<u8>, pos: usize) -> (r: Option<(crate::name::DnsName, usize)>)
    ensures
        match r {
            Some((nm, p)) => parse_qname(d@, pos as int) == Some((nm@, p as int)) && nm.wf()
                && pos < p <= d@.len(),
            None => parse_qname(d@, pos as int) is None,
        },
    decreases d@.len() - pos,
{
    if pos >= d.len() {
        return None;
    }
    let len = d[pos];
    if len == 0 {
        let nm = crate::name::DnsName::root();
        return Some((nm, pos + 1));
    }
    if len >= 64 {
        return None;
    }
    if (len as usize) > d.len() - (pos + 1) {
        return None;
    }
    match read_qname(d, pos + 1 + (len as usize)) {
        Some((rest, p2)) => {
            if 1 + (len as usize) + rest.wire_len() <= 255 {
                let mut w: Vec<u8> = Vec::new();
                w.push(len);
                let stop = pos + 1 + (len as usize);
                let mut i: usize = pos + 1;
                while i < stop
                    invariant
                        stop == pos + 1 + len,
                        pos + 1 <= i <= stop,
                        stop <= d@.len(),
                        w@ =~= seq![len].add(crate::name::lower_seq(d@.subrange(pos + 1,
                            i as int))),
                    decreases stop - i,
                {
                    w.push(crate::name::ascii_lower(d[i]));
                    assert(crate::name::lower_seq(d@.subrange(pos + 1, i + 1))
                        =~= crate::name::lower_seq(d@.subrange(pos + 1, i as int)).push(
                        crate::name::spec_ascii_lower(d@[i as int])));
                    i = i + 1;
                }
                let rw = rest.to_wire();
                push_bytes(&mut w, &rw);
                let ghost expected = seq![d@[pos as int]].add(crate::name::lower_seq(
                    d@.subrange(pos + 1, pos + 1 + d@[pos as int]))).add(rest@);
                assert(w@ =~= expected);
                proof {
                    lemma_parse_qname_wf(d@, pos as int);
                }
                let nm = crate::name::DnsName::from_wire(w);
                Some((nm, p2))
            } else {
                None
            }
        },
        None => None,
    }
}

/// Skips over one name.
fn skip_name_exec(d: &Vec<u8>, pos: usize) -> (r: Option<usize>)
    ensures
        match r {
            Some(p) => skip_name(d@, pos as int) == Some(p as int) && pos < p <= d@.len(),
            None => skip_name(d@, pos as int) is None,
        },
    decreases d@.len() - pos,
{
    if pos >= d.len() {
        return None;
    }
    let len = d[pos];
    if len == 0 {
        return Some(pos + 1);
    }
    if len >= 192 {
        if d.len() - pos >= 2 {
            return Some(pos + 2);
        }
        return None;
    }
    if len >= 64 {
        return None;
    }
    if (len as usize) > d.len() - (pos + 1) {
        return None;
    }
    skip_name_exec(d, pos + 1 + (len as usize))
}

/// Skips `n` records.
fn skip_records_exec(d: &Vec<u8>, pos: usize, n: u32) -> (r: Option<usize>)
    requires
        pos <= d@.len(),
    ensures
        match r {
            Some(p) => skip_records(d@, pos as int, n as int) == Some(p as int) && pos <= p
                <= d@.len(),
            None => skip_records(d@, pos as int, n as int) is None,
        },
    decreases n,
{
    if n == 0 {
        return Some(pos);
    }
    match skip_name_exec(d, pos) {
        Some(p) => {
            if d.len() - p >= 10 {
                let rdlen = read_u16(d, p + 8) as usize;
                if rdlen <= d.len() - (p + 10) {
                    return skip_records_exec(d, p + 10 + rdlen, n - 1);
                }
            }
            None
        },
        None => None,
    }
}

/// Walks the additional records, taking up the first OPT pseudo-record.
fn scan_additionals_exec(d: &Vec<u8>, pos: usize, n: u16, acc: Option<Edns>) -> (r: Option<
    Option<Edns>,
>)
    ensures
        match r {
            Some(e) => scan_additionals(d@, pos as int, n as int, acc) == Some(e),
            None => scan_additionals(d@, pos as int, n as int, acc) is None,
        },
    decreases n,
{
    if n == 0 {
        return Some(acc);
    }
    match skip_name_exec(d, pos) {
        Some(p) => {
            if d.len() - p >= 10 {
                let rdlen = read_u16(d, p + 8) as usize;
                if rdlen <= d.len() - (p + 10) {
                    let rtype = read_u16(d, p);
                    let acc2 = if rtype == 41 && acc.is_none() {
                        Some(Edns {
                            max_payload: read_u16(d, p + 2),
                            version: d[p + 5],
                            dnssec_ok: d[p + 6] >= 128,
                        })
                    } else {
                        acc
                    };
                    return scan_additionals_exec(d, p + 10 + rdlen, n - 1, acc2);
                }
            }
            None
        },
        None => None,
    }
}

/// Reads a request datagram into a parsed message: the header, the
/// questions, and the EDNS0 extension; the record sections of a request
/// are skipped. Nothing on malformed input.
pub fn decode_message(d: &Vec<u8>) -> (r: Option<Message>)
    ensures
        match r {
            Some(m) => spec_decode(d@) == Some(m@) && m.wf(),
            None => spec_decode(d@) is None,
        },
{
    if d.len() < 12 {
        return None;
    }
    let qd = read_u16(d, 4);
    let an = read_u16(d, 6);
    let ns = read_u16(d, 8);
    let ar = read_u16(d, 10);
    let mut questions: Vec<crate::message::Question> = Vec::new();
    let mut pos: usize = 12;
    let mut left: u16 = qd;
    let ghost dd = d@;
    while left > 0
        invariant
            dd == d@,
            dd.len() >= 12,
            qd == be16(dd, 4),
            pos <= d@.len(),
            left <= qd,
            forall|j: int| 0 <= j < questions@.len() ==> (#[trigger] questions@[j]@).wf(),
            parse_questions(dd, 12, qd as int) == (match parse_questions(dd, pos as int,
                left as int) {
                Some((rest, p)) => Some((crate::message::qs_view(questions@).add(rest), p)),
                None => None::<(Seq<QuestionV>, int)>,
            }),
        decreases left,
    {
        match read_qname(d, pos) {
            Some((nm, p)) => {
                if d.len() - p >= 4 {
                    let qt = crate::rr::RrType::from_code(read_u16(d, p));
                    let qc = read_u16(d, p + 2);
                    let ghost pre = crate::message::qs_view(questions@);
                    questions.push(crate::message::Question { name: nm, qtype: qt, qclass: qc });
                    proof {
                        let q = QuestionV {
                            name: nm@,
                            qtype: crate::rr::spec_type_of_code(be16(dd, p as int)),
                            qclass: be16(dd, p + 2),
                        };
                        assert(crate::message::qs_view(questions@) =~= pre.push(q));
                        assert forall|rest2: Seq<QuestionV>| true implies pre.add(seq![
                            q].add(rest2)) =~= pre.push(q).add(rest2) by {
                        }
                    }
                    pos = p + 4;
                    left = left - 1;
                } else {
                    return None;
                }
            },
            None => {
                return None;
            },
        }
    }
    proof {
        assert(parse_questions(dd, pos as int, 0) == Some((Seq::<QuestionV>::empty(),
            pos as int)));
        assert(crate::message::qs_view(questions@).add(Seq::<QuestionV>::empty())
            =~= crate::message::qs_view(questions@));
    }
    let p2 = match skip_records_exec(d, pos, (an as u32) + (ns as u32)) {
        Some(p) => p,
        None => {
            return None;
        },
    };
    let edns = match scan_additionals_exec(d, p2, ar, None) {
        Some(e) => e,
        None => {
            return None;
        },
    };
    let b2 = d[2];
    let b3 = d[3];
    let m = Message {
        id: read_u16(d, 0),
        response: b2 >= 128,
        opcode: crate::message::OpCode::from_code((b2 / 8) % 16),
        authoritative: (b2 / 4) % 2 == 1,
        truncated: (b2 / 2) % 2 == 1,
        recursion_desired: b2 % 2 == 1,
        recursion_available: b3 >= 128,
        rcode: crate::message::Rcode::from_code(b3 % 16),
        questions,
        answers: Vec::new(),
        authority: Vec::new(),
        additionals: Vec::new(),
        edns,
    };
    proof {
        assert(m@.answers =~= Seq::<RecordV>::empty());
        assert(m@.authority =~= Seq::<RecordV>::empty());
        assert(m@.additionals =~= Seq::<RecordV>::empty());
    }
    Some(m)
}

/// A message of at most one question and no records or extension always
/// fits a TCP frame.
pub proof fn lemma_small_message_fits(m: MessageV)
    requires
        m.questions.len() <= 1,
        forall|i: int| 0 <= i < m.questions.len() ==> (#[trigger] m.questions[i]).wf(),
        m.answers.len() == 0,
        m.authority.len() == 0,
        m.additionals.len() == 0,
        m.edns is None,
    ensures
        counts_fit(m),
        spec_encode_message(m).len() <= 65535,
{
    assert(cat_records(m.answers).len() == 0);
    assert(cat_records(m.authority).len() == 0);
    assert(cat_records(m.additionals).len() == 0);
    if m.questions.len() == 0 {
        assert(cat_questions(m.questions).len() == 0);
    } else {
        assert(m.questions.drop_last() =~= Seq::<QuestionV>::empty());
        assert(cat_questions(Seq::<QuestionV>::empty()) =~= Seq::<u8>::empty());
        assert(cat_questions(m.questions) =~= cat_questions(m.questions.drop_last()).add(
            spec_question_wire(m.questions.last())));
        assert(m.questions.last() == m.questions[0]);
        assert(cat_questions(m.questions) =~= spec_question_wire(m.questions[0]));
        assert(m.questions[0].wf());
        assert(m.questions[0].name.len() <= 255);
        assert(spec_question_wire(m.questions[0]).len() <= 259);
    }
}

} // verus!
