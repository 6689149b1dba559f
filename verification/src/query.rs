//! The query processor: a pure function from a parsed request and a zone
//! store snapshot to a parsed response, implementing authoritative
//! semantics: exact match, wildcard synthesis with the owner rewritten to
//! the query name, single-zone CNAME chasing, NODATA and NXDOMAIN with the
//! SOA in the authority section, REFUSED outside the served zones, and the
//! EDNS0 echo.

use vstd::prelude::*;
use crate::name::DnsName;
use crate::rr::Record;
use crate::rr::RecordV;
use crate::rr::RrType;
use crate::rr::RData;
use crate::rr::RDataV;
use crate::message::Message;
use crate::message::MessageV;
use crate::message::QuestionV;
use crate::message::OpCode;
use crate::message::Rcode;
use crate::message::Edns;
use crate::message::mrecs_view;
use crate::message::copy_records;
use crate::zone::Zone;
use crate::zone::ZoneV;
use crate::zone::ZoneStore;
use crate::zone::store_view;
use crate::zone::sets_lookup;
use crate::zone::sets_contain_name;
use crate::zone::spec_wildcard_lookup;
use crate::zone::spec_find_zone;
use crate::zone::recs_view;

verus! {

/// The response skeleton: identifier copied, the response bit set, opcode
/// QUERY, the RD flag mirrored, RA clear, NOERROR, empty sections.
pub open spec fn spec_base_response(q: MessageV) -> MessageV {
    MessageV {
        id: q.id,
        response: true,
        opcode: OpCode::Query,
        authoritative: false,
        truncated: false,
        recursion_desired: q.recursion_desired,
        recursion_available: false,
        rcode: Rcode::NoError,
        questions: Seq::empty(),
        answers: Seq::empty(),
        authority: Seq::empty(),
        additionals: Seq::empty(),
        edns: None,
    }
}

/// The same records with their owner replaced: wildcard synthesis names
/// its answers after the query name.
pub open spec fn spec_rewrite_owner(recs: Seq<RecordV>, owner: Seq<u8>) -> Seq<RecordV> {
    Seq::new(recs.len(), |i: int| RecordV { name: owner, ttl: recs[i].ttl, rdata: recs[i].rdata })
}

/// Single-hop CNAME chasing: each CNAME record, followed by the records of
/// the queried type at its target when the same zone holds any.
pub open spec fn spec_cname_chase(ss: Seq<crate::zone::RrSetV>, crecs: Seq<RecordV>, qtype: RrType)
    -> Seq<RecordV>
    decreases crecs.len(),
{
    if crecs.len() == 0 {
        Seq::empty()
    } else {
        let head = crecs[0];
        let chased = match head.rdata {
            RDataV::Cname(target) => match sets_lookup(ss, target, qtype) {
                Some(t) => t,
                None => Seq::<RecordV>::empty(),
            },
            _ => Seq::<RecordV>::empty(),
        };
        seq![head].add(chased).add(spec_cname_chase(ss, crecs.skip(1), qtype))
    }
}

/// The apex NS records, attached as authority when the answer section is
/// non-empty.
pub open spec fn spec_apex_ns_if(z: ZoneV, nonempty: bool) -> Seq<RecordV> {
    if nonempty {
        match sets_lookup(z.rrsets, z.origin, RrType::Ns) {
            Some(r) => r,
            None => Seq::empty(),
        }
    } else {
        Seq::empty()
    }
}

/// The authoritative lookup for one question inside its zone, applied to
/// the response built so far: exact match, else wildcard with the owner
/// rewritten, else a CNAME (exact or wildcard) chased one hop, else NODATA
/// or NXDOMAIN with the SOA as authority.
pub open spec fn spec_authoritative_answer(z: ZoneV, qst: QuestionV, m: MessageV) -> MessageV {
    let name_exists = sets_contain_name(z.rrsets, qst.name);
    let hit = if name_exists {
        sets_lookup(z.rrsets, qst.name, qst.qtype)
    } else {
        match spec_wildcard_lookup(z.rrsets, qst.name, qst.qtype) {
            Some(r) => Some(spec_rewrite_owner(r, qst.name)),
            None => None,
        }
    };
    match hit {
        Some(recs) => MessageV {
            answers: recs,
            authority: spec_apex_ns_if(z, recs.len() > 0),
            ..m
        },
        None => {
            let chit = if name_exists {
                sets_lookup(z.rrsets, qst.name, RrType::Cname)
            } else {
                match spec_wildcard_lookup(z.rrsets, qst.name, RrType::Cname) {
                    Some(r) => Some(spec_rewrite_owner(r, qst.name)),
                    None => None,
                }
            };
            match chit {
                Some(crecs) => {
                    let ans = spec_cname_chase(z.rrsets, crecs, qst.qtype);
                    MessageV { answers: ans, authority: spec_apex_ns_if(z, ans.len() > 0), ..m }
                },
                None => {
                    if name_exists {
                        MessageV { authority: seq![z.soa_record()], ..m }
                    } else {
                        MessageV {
                            rcode: Rcode::NxDomain,
                            authority: seq![z.soa_record()],
                            ..m
                        }
                    }
                },
            }
        },
    }
}

/// The full response to a request against a store snapshot.
pub open spec fn spec_response(q: MessageV, zs: Seq<ZoneV>) -> MessageV {
    let base = spec_base_response(q);
    if q.opcode != OpCode::Query {
        MessageV { rcode: Rcode::NotImp, ..base }
    } else if q.questions.len() > 0 && q.questions[0].qtype == RrType::Axfr {
        MessageV { questions: seq![q.questions[0]], authoritative: true, ..base }
    } else if q.questions.len() == 0 {
        MessageV { rcode: Rcode::FormErr, ..base }
    } else {
        let qst = q.questions[0];
        let with_q = MessageV { questions: seq![qst], ..base };
        match spec_find_zone(zs, qst.name) {
            None => MessageV { rcode: Rcode::Refused, ..with_q },
            Some(z) => {
                let m = spec_authoritative_answer(z, qst,
                    MessageV { authoritative: true, ..with_q });
                match q.edns {
                    Some(e) => MessageV {
                        edns: Some(
                            Edns { max_payload: 4096, version: 0, dnssec_ok: e.dnssec_ok }),
                        ..m
                    },
                    None => m,
                }
            },
        }
    }
}

/// The stateless query processor over a zone-store snapshot.
pub struct QueryProcessor {
    pub zones: ZoneStore,
}

impl QueryProcessor {
    pub fn new(zones: ZoneStore) -> (r: QueryProcessor)
        ensures
            store_view(&r.zones) == store_view(&zones),
            zones.wf() ==> r.zones.wf(),
    {
        QueryProcessor { zones }
    }

    pub fn get_zones(&self) -> (r: &ZoneStore)
        ensures
            store_view(r) == store_view(&self.zones),
            self.zones.wf() ==> r.wf(),
    {
        &self.zones
    }

    /// Answers one request from the snapshot. Pure: no I/O, no state.
    pub fn process_query(&self, query: &Message) -> (r: Message)
        requires
            self.zones.wf(),
            query.wf(),
        ensures
            r@ == spec_response(query@, store_view(&self.zones)),
            r@.id == query@.id,
            r@.response,
            !r@.recursion_available,
    {
        process_query_in(&self.zones, query)
    }
}

/// Answers one request from a store snapshot.
pub fn process_query_in(zones: &ZoneStore, query: &Message) -> (r: Message)
    requires
        zones.wf(),
        query.wf(),
    ensures
        r@ == spec_response(query@, store_view(zones)),
{
    let ghost qv = query@;
    let ghost zs = store_view(zones);
    let mut response = Message::new();
    response.id = query.id;
    response.response = true;
    response.recursion_desired = query.recursion_desired;
    assert(response@ == spec_base_response(qv));

    if query.opcode != OpCode::Query {
        response.rcode = Rcode::NotImp;
        return response;
    }

    if query.questions.len() > 0 {
        if query.questions[0].qtype == RrType::Axfr {
            let q0 = query.questions[0].clone();
            response.questions.push(q0);
            response.authoritative = true;
            proof {
                assert(qv.questions[0] == query@.questions[0]);
                assert(response@.questions =~= seq![qv.questions[0]]);
            }
            return response;
        }
    }

    if query.questions.len() == 0 {
        response.rcode = Rcode::FormErr;
        assert(qv.questions.len() == 0);
        return response;
    }

    let q0 = &query.questions[0];
    let ghost qst = qv.questions[0];
    assert(q0@ == qst);
    let cl = q0.clone();
    response.questions.push(cl);
    assert(response@.questions =~= seq![qst]);

    let zone = match zones.find_zone(&q0.name) {
        Some(z) => z,
        None => {
            response.rcode = Rcode::Refused;
            return response;
        },
    };
    let ghost z = zone@;
    assert(spec_find_zone(zs, qst.name) == Some(z));
    response.authoritative = true;
    let ghost m0 = response@;

    let name_exists = zone.contains_name(&q0.name);

    let hit = if name_exists {
        zone.lookup(&q0.name, q0.qtype)
    } else {
        zone.lookup_wildcard(&q0.name, q0.qtype)
    };

    match hit {
        Some(v) => {
            if name_exists {
                response.answers = copy_records(v);
                assert(response@.answers == sets_lookup(z.rrsets, qst.name, qst.qtype)->Some_0);
            } else {
                response.answers = copy_records_with_owner(v, &q0.name);
                assert(response@.answers == spec_rewrite_owner(
                    spec_wildcard_lookup(z.rrsets, qst.name, qst.qtype)->Some_0, qst.name));
            }
            attach_apex_ns(zone, &mut response);
        },
        None => {
            let chit = if name_exists {
                zone.lookup(&q0.name, RrType::Cname)
            } else {
                zone.lookup_wildcard(&q0.name, RrType::Cname)
            };
            match chit {
                Some(cv) => {
                    let crecs = if name_exists {
                        copy_records(cv)
                    } else {
                        copy_records_with_owner(cv, &q0.name)
                    };
                    response.answers = chase_cnames(zone, &crecs, q0.qtype);
                    attach_apex_ns(zone, &mut response);
                },
                None => {
                    if name_exists {
                        response.authority.push(zone.get_soa_record());
                        assert(response@.authority =~= seq![z.soa_record()]);
                    } else {
                        response.rcode = Rcode::NxDomain;
                        response.authority.push(zone.get_soa_record());
                        assert(response@.authority =~= seq![z.soa_record()]);
                    }
                },
            }
        },
    }
    assert(response@ == spec_authoritative_answer(z, qst, m0));

    match query.edns {
        Some(e) => {
            response.edns = Some(
                Edns { max_payload: 4096, version: 0, dnssec_ok: e.dnssec_ok });
        },
        None => {},
    }
    response
}

/// Copies records with their owner name replaced by `owner`.
pub fn copy_records_with_owner(v: &Vec<Record>, owner: &DnsName) -> (r: Vec<Record>)
    ensures
        mrecs_view(r@) == spec_rewrite_owner(recs_view(v@), owner@),
{
    let mut out: Vec<Record> = Vec::new();
    let mut i: usize = 0;
    while i < v.len()
        invariant
            i <= v@.len(),
            out@.len() == i,
            forall|j: int| 0 <= j < i ==> (#[trigger] out@[j])@ == (RecordV {
                name: owner@,
                ttl: v@[j]@.ttl,
                rdata: v@[j]@.rdata,
            }),
        decreases v@.len() - i,
    {
        let rec = &v[i];
        let copy = Record::from_rdata(owner.clone(), rec.ttl, rec.rdata.clone());
        out.push(copy);
        i = i + 1;
    }
    assert(mrecs_view(out@) =~= spec_rewrite_owner(recs_view(v@), owner@));
    out
}

/// Appends the zone's apex NS records as authority when the answer section
/// is non-empty, as the positive-response rule asks.
fn attach_apex_ns(zone: &Zone, response: &mut Message)
    requires
        old(response)@.authority.len() == 0,
    ensures
        final(response)@ == (MessageV {
            authority: spec_apex_ns_if(zone@, old(response)@.answers.len() > 0),
            ..old(response)@
        }),
{
    let ghost m0 = response@;
    if response.answers.len() > 0 {
        match zone.lookup(&zone.origin, RrType::Ns) {
            Some(ns) => {
                response.authority = copy_records(ns);
            },
            None => {},
        }
    }
    assert(response@.authority =~= spec_apex_ns_if(zone@, m0.answers.len() > 0));
    assert(response@ == (MessageV { authority: spec_apex_ns_if(zone@, m0.answers.len() > 0),
        ..m0 }));
}

/// `spec_cname_chase` distributes over concatenation.
proof fn lemma_chase_concat(ss: Seq<crate::zone::RrSetV>, a: Seq<RecordV>, b: Seq<RecordV>,
    qtype: RrType)
    ensures
        spec_cname_chase(ss, a.add(b), qtype) == spec_cname_chase(ss, a, qtype).add(
            spec_cname_chase(ss, b, qtype)),
    decreases a.len(),
{
    if a.len() == 0 {
        assert(a.add(b) =~= b);
        assert(spec_cname_chase(ss, a, qtype).add(spec_cname_chase(ss, b, qtype))
            =~= spec_cname_chase(ss, b, qtype));
    } else {
        lemma_chase_concat(ss, a.skip(1), b, qtype);
        assert(a.add(b)[0] == a[0]);
        assert(a.add(b).skip(1) =~= a.skip(1).add(b));
        assert(spec_cname_chase(ss, a.add(b), qtype) =~= spec_cname_chase(ss, a, qtype).add(
            spec_cname_chase(ss, b, qtype)));
    }
}

/// One chase step from the end.
proof fn lemma_chase_snoc(ss: Seq<crate::zone::RrSetV>, crecs: Seq<RecordV>, i: int,
    qtype: RrType)
    requires
        0 <= i < crecs.len(),
    ensures
        spec_cname_chase(ss, crecs.take(i + 1), qtype) == spec_cname_chase(ss, crecs.take(i),
            qtype).add(spec_cname_chase(ss, seq![crecs[i]], qtype)),
{
    assert(crecs.take(i + 1) =~= crecs.take(i).add(seq![crecs[i]]));
    lemma_chase_concat(ss, crecs.take(i), seq![crecs[i]], qtype);
}

/// Builds the answer section for a CNAME hit: each CNAME record, then the
/// records of the queried type at its target when the zone has them.
fn chase_cnames(zone: &Zone, crecs: &Vec<Record>, qtype: RrType) -> (r: Vec<Record>)
    ensures
        mrecs_view(r@) == spec_cname_chase(zone@.rrsets, mrecs_view(crecs@), qtype),
{
    let ghost cv = mrecs_view(crecs@);
    let ghost ss = zone@.rrsets;
    let mut out: Vec<Record> = Vec::new();
    assert(mrecs_view(out@) =~= spec_cname_chase(ss, cv.take(0), qtype)) by {
        assert(cv.take(0) =~= Seq::<RecordV>::empty());
    }
    let mut i: usize = 0;
    while i < crecs.len()
        invariant
            i <= crecs@.len(),
            cv == mrecs_view(crecs@),
            ss == zone@.rrsets,
            mrecs_view(out@) == spec_cname_chase(ss, cv.take(i as int), qtype),
        decreases crecs@.len() - i,
    {
        let ghost pre = mrecs_view(out@);
        let rec = &crecs[i];
        assert(rec@ == cv[i as int]);
        out.push(rec.clone());
        let ghost step_head = seq![cv[i as int]];
        match &rec.rdata {
            RData::Cname(target) => {
                match zone.lookup(target, qtype) {
                    Some(tv) => {
                        let mut j: usize = 0;
                        let ghost tvv = recs_view(tv@);
                        while j < tv.len()
                            invariant
                                j <= tv@.len(),
                                tvv == recs_view(tv@),
                                mrecs_view(out@) =~= pre.add(step_head).add(tvv.take(
                                    j as int)),
                            decreases tv@.len() - j,
                        {
                            let ghost prev2 = out@;
                            let c = tv[j].clone();
                            let ghost cval = c@;
                            out.push(c);
                            proof {
                                assert(tvv[j as int] == cval);
                                assert(out@ =~= prev2.push(c));
                                let basep = pre.add(step_head);
                                let rhs_prev = basep.add(tvv.take(j as int));
                                let rhs = basep.add(tvv.take(j + 1));
                                assert(mrecs_view(prev2) =~= rhs_prev);
                                assert(tvv.take(j + 1) =~= tvv.take(j as int).push(cval));
                                assert(tvv.take(j as int).len() == j);
                                assert(tvv.take(j + 1).len() == j + 1);
                                assert(rhs_prev.len() == basep.len() + j);
                                assert(rhs.len() == basep.len() + j + 1);
                                assert forall|k: int| 0 <= k < out@.len() implies
                                    #[trigger] mrecs_view(out@)[k] == rhs[k] by {
                                    assert(mrecs_view(out@)[k] == out@[k]@);
                                    if k < prev2.len() {
                                        assert(out@[k] == prev2[k]);
                                        assert(prev2[k]@ == mrecs_view(prev2)[k]);
                                        assert(mrecs_view(prev2)[k] == rhs_prev[k]);
                                        if k < basep.len() {
                                            assert(rhs_prev[k] == basep[k]);
                                            assert(rhs[k] == basep[k]);
                                        } else {
                                            assert(0 <= k - basep.len() < j);
                                            assert(rhs_prev[k] == tvv.take(j as int)[k
                                                - basep.len()]);
                                            assert(rhs[k] == tvv.take(j + 1)[k - basep.len()]);
                                            assert(tvv.take(j as int)[k - basep.len()]
                                                == tvv[k - basep.len()]);
                                            assert(tvv.take(j + 1)[k - basep.len()]
                                                == tvv[k - basep.len()]);
                                        }
                                    } else {
                                        assert(out@[k] == c);
                                        assert(k == prev2.len());
                                        assert(rhs[k] == tvv.take(j + 1)[j as int]);
                                    }
                                }
                                assert(mrecs_view(out@).len() == rhs.len());
                                assert(mrecs_view(out@) =~= rhs);
                            }
                            j = j + 1;
                        }
                        proof {
                            assert(tvv.take(tv@.len() as int) =~= tvv);
                        }
                    },
                    None => {
                        assert(mrecs_view(out@) =~= pre.add(step_head));
                    },
                }
            },
            _ => {
                assert(mrecs_view(out@) =~= pre.add(step_head));
            },
        }
        proof {
            let one = seq![cv[i as int]];
            assert(one.skip(1) =~= Seq::<RecordV>::empty());
            assert(spec_cname_chase(ss, Seq::<RecordV>::empty(), qtype)
                =~= Seq::<RecordV>::empty());
            let chased = match cv[i as int].rdata {
                RDataV::Cname(target) => match sets_lookup(ss, target, qtype) {
                    Some(t) => t,
                    None => Seq::<RecordV>::empty(),
                },
                _ => Seq::<RecordV>::empty(),
            };
            assert(spec_cname_chase(ss, one, qtype) =~= one.add(chased));
            lemma_chase_snoc(ss, cv, i as int, qtype);
            assert(mrecs_view(out@) =~= spec_cname_chase(ss, cv.take(i + 1), qtype));
        }
        i = i + 1;
    }
    assert(cv.take(cv.len() as int) =~= cv);
    out
}

/// Exact records win over wildcards: when the queried name exists in the
/// zone and holds records of the queried type, the answer section is
/// exactly that RRset; no wildcard is consulted.
pub proof fn lemma_exact_match_wins(z: ZoneV, qst: QuestionV, m: MessageV, recs: Seq<RecordV>)
    requires
        sets_contain_name(z.rrsets, qst.name),
        sets_lookup(z.rrsets, qst.name, qst.qtype) == Some(recs),
    ensures
        spec_authoritative_answer(z, qst, m).answers == recs,
{
}

/// Response framing: the response repeats the request identifier and
/// opcode, has QR set and RA clear, and when the request carried a
/// question its first question is echoed.
pub proof fn lemma_response_framing(q: MessageV, zs: Seq<ZoneV>)
    requires
        q.opcode == OpCode::Query,
    ensures
        spec_response(q, zs).id == q.id,
        spec_response(q, zs).opcode == q.opcode,
        spec_response(q, zs).response,
        !spec_response(q, zs).recursion_available,
        spec_response(q, zs).recursion_desired == q.recursion_desired,
        q.questions.len() > 0 ==> spec_response(q, zs).questions == seq![q.questions[0]],
{
    let r = spec_response(q, zs);
    if q.questions.len() > 0 && q.questions[0].qtype == RrType::Axfr {
    } else if q.questions.len() == 0 {
    } else {
        let qst = q.questions[0];
        let base = spec_base_response(q);
        let with_q = MessageV { questions: seq![qst], ..base };
        match spec_find_zone(zs, qst.name) {
            None => {},
            Some(z) => {
                let m = spec_authoritative_answer(z, qst,
                    MessageV { authoritative: true, ..with_q });
                assert(m.questions == seq![qst]);
                assert(m.id == q.id);
            },
        }
    }
}

/// Every record of a CNAME chase over well-formed sets is well-formed.
proof fn lemma_chase_wf(ss: Seq<crate::zone::RrSetV>, crecs: Seq<RecordV>, qtype: RrType)
    requires
        forall|i: int| 0 <= i < ss.len() ==> (#[trigger] ss[i]).wf(),
        forall|i: int| 0 <= i < crecs.len() ==> (#[trigger] crecs[i]).wf(),
    ensures
        forall|i: int| 0 <= i < spec_cname_chase(ss, crecs, qtype).len() ==> (
        #[trigger] spec_cname_chase(ss, crecs, qtype)[i]).wf(),
    decreases crecs.len(),
{
    if crecs.len() == 0 {
    } else {
        let head = crecs[0];
        let chased = match head.rdata {
            RDataV::Cname(target) => match sets_lookup(ss, target, qtype) {
                Some(t) => t,
                None => Seq::<RecordV>::empty(),
            },
            _ => Seq::<RecordV>::empty(),
        };
        match head.rdata {
            RDataV::Cname(target) => {
                match sets_lookup(ss, target, qtype) {
                    Some(t) => {
                        crate::zone::lemma_sets_lookup_wf(ss, target, qtype, t);
                    },
                    None => {},
                }
            },
            _ => {},
        }
        assert(forall|i: int| 0 <= i < crecs.len() - 1 ==> crecs.skip(1)[i] == crecs[i + 1]);
        lemma_chase_wf(ss, crecs.skip(1), qtype);
        let whole = spec_cname_chase(ss, crecs, qtype);
        assert(whole =~= seq![head].add(chased).add(spec_cname_chase(ss, crecs.skip(1),
            qtype)));
        assert forall|i: int| 0 <= i < whole.len() implies (#[trigger] whole[i]).wf() by {
            if i == 0 {
            } else if i < 1 + chased.len() {
                assert(whole[i] == chased[i - 1]);
            } else {
                assert(whole[i] == spec_cname_chase(ss, crecs.skip(1), qtype)[i - 1
                    - chased.len()]);
            }
        }
    }
}

/// Rewriting owners keeps records well-formed when the new owner is.
proof fn lemma_rewrite_wf(recs: Seq<RecordV>, owner: Seq<u8>)
    requires
        crate::name::name_wf(owner),
        forall|i: int| 0 <= i < recs.len() ==> (#[trigger] recs[i]).wf(),
    ensures
        forall|i: int| 0 <= i < spec_rewrite_owner(recs, owner).len() ==> (
        #[trigger] spec_rewrite_owner(recs, owner)[i]).wf(),
{
    assert forall|i: int| 0 <= i < spec_rewrite_owner(recs, owner).len() implies (
        #[trigger] spec_rewrite_owner(recs, owner)[i]).wf() by {
        assert(recs[i].wf());
        assert(spec_rewrite_owner(recs, owner)[i].rdata == recs[i].rdata);
    }
}

/// A response computed from well-formed inputs is well-formed, so it can
/// always be serialized.
pub proof fn lemma_response_wf(q: MessageV, zs: Seq<ZoneV>)
    requires
        q.wf(),
        forall|i: int| 0 <= i < zs.len() ==> (#[trigger] zs[i]).wf(),
    ensures
        spec_response(q, zs).wf(),
{
    let r = spec_response(q, zs);
    let base = spec_base_response(q);
    if q.opcode != OpCode::Query {
    } else if q.questions.len() > 0 && q.questions[0].qtype == RrType::Axfr {
        assert(q.questions[0].wf());
        assert(r.questions =~= seq![q.questions[0]]);
    } else if q.questions.len() == 0 {
    } else {
        let qst = q.questions[0];
        assert(qst.wf());
        let with_q = MessageV { questions: seq![qst], ..base };
        match spec_find_zone(zs, qst.name) {
            None => {},
            Some(z) => {
                assert(z.wf()) by {
                    match crate::zone::find_best_from(zs, qst.name, 0, None) {
                        Some(i) => {
                            lemma_find_best_in_range(zs, qst.name, 0, None);
                        },
                        None => {},
                    }
                }
                let m0 = MessageV { authoritative: true, ..with_q };
                let m = spec_authoritative_answer(z, qst, m0);
                lemma_answer_wf(z, qst, m0);
                assert(m.wf());
            },
        }
    }
}

/// The index that the zone scan settles on lies in range.
proof fn lemma_find_best_in_range(zs: Seq<ZoneV>, name: Seq<u8>, i: int, best: Option<int>)
    requires
        0 <= i <= zs.len(),
        match best {
            Some(b) => 0 <= b < zs.len(),
            None => true,
        },
    ensures
        match crate::zone::find_best_from(zs, name, i, best) {
            Some(b) => 0 <= b < zs.len(),
            None => true,
        },
    decreases zs.len() - i,
{
    if i < zs.len() {
        let better = crate::name::spec_zone_of(zs[i].origin, name) && (match best {
            None => true,
            Some(b) => crate::name::spec_label_count(zs[i].origin) > crate::name::spec_label_count(
                zs[b].origin),
        });
        lemma_find_best_in_range(zs, name, i + 1, if better {
            Some(i)
        } else {
            best
        });
    }
}

/// The authoritative-answer step preserves well-formedness.
proof fn lemma_answer_wf(z: ZoneV, qst: QuestionV, m: MessageV)
    requires
        z.wf(),
        qst.wf(),
        m.wf(),
    ensures
        spec_authoritative_answer(z, qst, m).wf(),
{
    let name_exists = sets_contain_name(z.rrsets, qst.name);
    let ns = spec_apex_ns_if(z, true);
    assert(forall|i: int| 0 <= i < ns.len() ==> (#[trigger] ns[i]).wf()) by {
        match sets_lookup(z.rrsets, z.origin, RrType::Ns) {
            Some(rr) => {
                crate::zone::lemma_sets_lookup_wf(z.rrsets, z.origin, RrType::Ns, rr);
            },
            None => {},
        }
    }
    assert(z.soa_record().wf());
    if name_exists {
        match sets_lookup(z.rrsets, qst.name, qst.qtype) {
            Some(recs) => {
                crate::zone::lemma_sets_lookup_wf(z.rrsets, qst.name, qst.qtype, recs);
            },
            None => {
                match sets_lookup(z.rrsets, qst.name, RrType::Cname) {
                    Some(crecs) => {
                        crate::zone::lemma_sets_lookup_wf(z.rrsets, qst.name, RrType::Cname,
                            crecs);
                        lemma_chase_wf(z.rrsets, crecs, qst.qtype);
                    },
                    None => {},
                }
            },
        }
    } else {
        match spec_wildcard_lookup(z.rrsets, qst.name, qst.qtype) {
            Some(recs) => {
                crate::zone::lemma_wildcard_from_wf(z.rrsets, qst.name.skip(qst.name[0] + 1),
                    qst.qtype, recs);
                lemma_rewrite_wf(recs, qst.name);
            },
            None => {
                match spec_wildcard_lookup(z.rrsets, qst.name, RrType::Cname) {
                    Some(crecs) => {
                        crate::zone::lemma_wildcard_from_wf(z.rrsets, qst.name.skip(
                            qst.name[0] + 1), RrType::Cname, crecs);
                        lemma_rewrite_wf(crecs, qst.name);
                        lemma_chase_wf(z.rrsets, spec_rewrite_owner(crecs, qst.name),
                            qst.qtype);
                    },
                    None => {},
                }
            },
        }
    }
}

} // verus!
