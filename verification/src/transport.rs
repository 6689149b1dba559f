//! The transport-facing computations: the UDP truncation cascade, the
//! whole per-datagram pipeline from raw bytes to reply bytes, the TCP
//! framing and per-connection decisions, and the AXFR message stream. The
//! sockets themselves live outside the library; everything here maps
//! received bytes and limiter verdicts to the bytes to send.

use vstd::prelude::*;
use crate::message::Message;
use crate::message::MessageV;
use crate::message::QuestionV;
use crate::message::Question;
use crate::message::Rcode;
use crate::message::OpCode;
use crate::rr::Record;
use crate::rr::RecordV;
use crate::rr::RrType;
use crate::zone::Zone;
use crate::zone::ZoneV;
use crate::zone::ZoneStore;
use crate::zone::store_view;
use crate::zone::spec_find_zone;
use crate::codec::spec_encode_message;
use crate::codec::spec_decode;
use crate::codec::counts_fit;
use crate::codec::encode_message;
use crate::codec::decode_message;
use crate::codec::be16;
use crate::codec::u16_be;
use crate::query::spec_response;
use crate::query::process_query_in;

verus! {

/// A response with its answer section dropped from stage 1, its authority
/// dropped from stage 2 and its additional records dropped from stage 3,
/// the TC flag set throughout; the EDNS extension stays.
pub open spec fn spec_truncated_variant(m: MessageV, k: int) -> MessageV {
    MessageV {
        truncated: true,
        answers: if k >= 1 {
            Seq::empty()
        } else {
            m.answers
        },
        authority: if k >= 2 {
            Seq::empty()
        } else {
            m.authority
        },
        additionals: if k >= 3 {
            Seq::empty()
        } else {
            m.additionals
        },
        ..m
    }
}

/// The UDP payload for a response under a size limit: the full encoding
/// when it fits, else the first truncation stage that fits, else the
/// barest stage sent regardless.
pub open spec fn spec_udp_payload(m: MessageV, max: int) -> (Seq<u8>, bool) {
    let full = spec_encode_message(m);
    if full.len() <= max {
        (full, false)
    } else {
        let e1 = spec_encode_message(spec_truncated_variant(m, 1));
        if e1.len() <= max {
            (e1, true)
        } else {
            let e2 = spec_encode_message(spec_truncated_variant(m, 2));
            if e2.len() <= max {
                (e2, true)
            } else {
                (spec_encode_message(spec_truncated_variant(m, 3)), true)
            }
        }
    }
}

/// UDP size law: what is sent never exceeds the larger of the client
/// limit and the size of the fully stripped response, and the TC flag is
/// reported exactly when the full encoding did not fit.
pub proof fn lemma_udp_size_law(m: MessageV, max: int)
    ensures
        ({
            let (b, tc) = spec_udp_payload(m, max);
            let floor = spec_encode_message(spec_truncated_variant(m, 3)).len() as int;
            &&& b.len() <= (if max >= floor {
                max
            } else {
                floor
            })
            &&& tc == (spec_encode_message(m).len() > max)
        }),
{
}

/// Builds the message of one truncation stage.
fn truncated_variant(m: &Message, k: u8) -> (r: Message)
    requires
        1 <= k <= 3,
    ensures
        r@ == spec_truncated_variant(m@, k as int),
{
    let r = Message {
        id: m.id,
        response: m.response,
        opcode: m.opcode,
        authoritative: m.authoritative,
        truncated: true,
        recursion_desired: m.recursion_desired,
        recursion_available: m.recursion_available,
        rcode: m.rcode,
        questions: copy_questions(&m.questions),
        answers: Vec::new(),
        authority: if k >= 2 {
            Vec::new()
        } else {
            crate::message::copy_records(&m.authority)
        },
        additionals: if k >= 3 {
            Vec::new()
        } else {
            crate::message::copy_records(&m.additionals)
        },
        edns: m.edns,
    };
    proof {
        assert(r@.answers =~= Seq::<RecordV>::empty());
        if k >= 2 {
            assert(r@.authority =~= Seq::<RecordV>::empty());
        }
        if k >= 3 {
            assert(r@.additionals =~= Seq::<RecordV>::empty());
        }
        assert(r@.questions =~= m@.questions);
    }
    r
}

/// Copies a question section.
pub fn copy_questions(v: &Vec<Question>) -> (r: Vec<Question>)
    ensures
        crate::message::qs_view(r@) == crate::message::qs_view(v@),
{
    let mut out: Vec<Question> = Vec::new();
    let mut i: usize = 0;
    while i < v.len()
        invariant
            i <= v@.len(),
            out@.len() == i,
            forall|j: int| 0 <= j < i ==> (#[trigger] out@[j])@ == v@[j]@,
        decreases v@.len() - i,
    {
        out.push(v[i].clone());
        i = i + 1;
    }
    assert(crate::message::qs_view(out@) =~= crate::message::qs_view(v@));
    out
}

/// Serializes a response for UDP under the client's payload limit,
/// running the truncation cascade when it does not fit. Nothing when a
/// section count cannot be framed at all.
pub fn udp_payload(m: &Message, max_udp: usize) -> (r: Option<(Vec<u8>, bool)>)
    requires
        m.wf(),
    ensures
        match r {
            Some(p) => counts_fit(m@) && (p.0@, p.1) == spec_udp_payload(m@, max_udp as int),
            None => !counts_fit(m@),
        },
{
    let full = match encode_message(m) {
        Some(b) => b,
        None => {
            return None;
        },
    };
    if full.len() <= max_udp {
        return Some((full, false));
    }
    let m1 = truncated_variant(m, 1);
    assert(m1.wf()) by {
        assert(m1@.answers.len() == 0);
    }
    let e1 = match encode_message(&m1) {
        Some(b) => b,
        None => {
            assert(false);
            return None;
        },
    };
    if e1.len() <= max_udp {
        return Some((e1, true));
    }
    let m2 = truncated_variant(m, 2);
    assert(m2.wf()) by {
        assert(m2@.answers.len() == 0 && m2@.authority.len() == 0);
    }
    let e2 = match encode_message(&m2) {
        Some(b) => b,
        None => {
            assert(false);
            return None;
        },
    };
    if e2.len() <= max_udp {
        return Some((e2, true));
    }
    let m3 = truncated_variant(m, 3);
    assert(m3.wf()) by {
        assert(m3@.answers.len() == 0 && m3@.authority.len() == 0 && m3@.additionals.len()
            == 0);
    }
    let e3 = match encode_message(&m3) {
        Some(b) => b,
        None => {
            assert(false);
            return None;
        },
    };
    Some((e3, true))
}

/// A minimal response carrying only an identifier and a response code,
/// as the rate limiter and the malformed-input path send.
pub open spec fn spec_bare_reply(id: u16, rcode: Rcode) -> MessageV {
    MessageV { id, response: true, rcode, ..crate::message::spec_empty_message() }
}

/// Builds the minimal response.
fn bare_reply(id: u16, rcode: Rcode) -> (r: Message)
    ensures
        r@ == spec_bare_reply(id, rcode),
        r.wf(),
{
    let mut m = Message::new();
    m.id = id;
    m.response = true;
    m.rcode = rcode;
    m
}

/// The identifier recoverable from a raw datagram: its first two octets.
pub open spec fn spec_raw_id(data: Seq<u8>) -> u16 {
    if data.len() >= 2 {
        be16(data, 0)
    } else {
        0
    }
}

/// What one UDP datagram is answered with.
pub struct UdpOutcome {
    /// The bytes to send back, if any.
    pub bytes: Option<Vec<u8>>,
    /// The query was dropped by the rate limiter.
    pub rate_limited: bool,
    /// The datagram could not be decoded.
    pub formerr: bool,
    /// The response code sent, when a processed response was sent.
    pub rcode: Option<Rcode>,
    /// The type of the first question, for the metrics table.
    pub qtype: Option<RrType>,
    /// The request carried an EDNS extension.
    pub edns: bool,
    /// The response was truncated to fit.
    pub truncated: bool,
}

/// The reply bytes the UDP pipeline sends for one datagram: REFUSED when
/// the limiter denied, FORM_ERR when the bytes do not decode and at least
/// an identifier is present, silence on shorter garbage, and otherwise
/// the processed response under the truncation cascade with the client's
/// advertised payload limit (512 without EDNS).
pub open spec fn spec_udp_reply(data: Seq<u8>, zs: Seq<ZoneV>, allowed: bool) -> Option<
    Seq<u8>,
> {
    if !allowed {
        Some(spec_encode_message(spec_bare_reply(spec_raw_id(data), Rcode::Refused)))
    } else {
        match spec_decode(data) {
            None => {
                if data.len() >= 2 {
                    Some(spec_encode_message(spec_bare_reply(spec_raw_id(data),
                        Rcode::FormErr)))
                } else {
                    None
                }
            },
            Some(q) => {
                let resp = spec_response(q, zs);
                let max: int = match q.edns {
                    Some(e) => e.max_payload as int,
                    None => 512,
                };
                if counts_fit(resp) {
                    Some(spec_udp_payload(resp, max).0)
                } else {
                    None
                }
            },
        }
    }
}

/// Handles one UDP datagram: rate-limit verdict in, reply bytes and the
/// facts the metrics recorder needs out.
#[verifier::rlimit(100)]
#[verifier::spinoff_prover]
pub fn udp_handle(data: &Vec<u8>, zones: &ZoneStore, allowed: bool) -> (r: UdpOutcome)
    requires
        zones.wf(),
    ensures
        r.bytes matches Some(b) ==> spec_udp_reply(data@, store_view(zones), allowed)
            == Some(b@),
        r.bytes is None ==> spec_udp_reply(data@, store_view(zones), allowed) is None,
        r.rate_limited == !allowed,
        r.formerr == (allowed && spec_decode(data@) is None),
{
    if !allowed {
        let id: u16 = if data.len() >= 2 {
            crate::codec::read_u16(data, 0)
        } else {
            0
        };
        assert(id == spec_raw_id(data@));
        let reply = bare_reply(id, Rcode::Refused);
        let bytes = match encode_message(&reply) {
            Some(b) => b,
            None => {
                assert(false);
                return UdpOutcome {
                    bytes: None,
                    rate_limited: true,
                    formerr: false,
                    rcode: None,
                    qtype: None,
                    edns: false,
                    truncated: false,
                };
            },
        };
        return UdpOutcome {
            bytes: Some(bytes),
            rate_limited: true,
            formerr: false,
            rcode: Some(Rcode::Refused),
            qtype: None,
            edns: false,
            truncated: false,
        };
    }
    let query = match decode_message(data) {
        Some(q) => q,
        None => {
            if data.len() >= 2 {
                let id = crate::codec::read_u16(data, 0);
                assert(id == spec_raw_id(data@));
                let reply = bare_reply(id, Rcode::FormErr);
                let bytes = match encode_message(&reply) {
                    Some(b) => b,
                    None => {
                        assert(false);
                        return UdpOutcome {
                            bytes: None,
                            rate_limited: false,
                            formerr: true,
                            rcode: None,
                            qtype: None,
                            edns: false,
                            truncated: false,
                        };
                    },
                };
                return UdpOutcome {
                    bytes: Some(bytes),
                    rate_limited: false,
                    formerr: true,
                    rcode: Some(Rcode::FormErr),
                    qtype: None,
                    edns: false,
                    truncated: false,
                };
            }
            return UdpOutcome {
                bytes: None,
                rate_limited: false,
                formerr: true,
                rcode: None,
                qtype: None,
                edns: false,
                truncated: false,
            };
        },
    };
    let has_edns = query.edns.is_some();
    let qtype: Option<RrType> = if query.questions.len() > 0 {
        Some(query.questions[0].qtype)
    } else {
        None
    };
    let max_udp: usize = match query.edns {
        Some(e) => e.max_payload as usize,
        None => 512,
    };
    let response = process_query_in(zones, &query);
    proof {
        crate::query::lemma_response_wf(query@, store_view(zones));
    }
    let rcode = response.rcode;
    match udp_payload(&response, max_udp) {
        Some((bytes, truncated)) => UdpOutcome {
            bytes: Some(bytes),
            rate_limited: false,
            formerr: false,
            rcode: Some(rcode),
            qtype,
            edns: has_edns,
            truncated,
        },
        None => UdpOutcome {
            bytes: None,
            rate_limited: false,
            formerr: false,
            rcode: Some(rcode),
            qtype,
            edns: has_edns,
            truncated: false,
        },
    }
}

/// A TCP message frame: the two-octet length prefix, then the bytes.
pub open spec fn spec_frame(b: Seq<u8>) -> Seq<u8> {
    u16_be(b.len() as u16).add(b)
}

/// Frames one message for the TCP stream; nothing when it exceeds what
/// the prefix can say.
pub fn frame_tcp(b: &Vec<u8>) -> (r: Option<Vec<u8>>)
    ensures
        match r {
            Some(f) => b@.len() <= 65535 && f@ == spec_frame(b@),
            None => b@.len() > 65535,
        },
{
    if b.len() > 65535 {
        return None;
    }
    let mut out: Vec<u8> = Vec::new();
    crate::codec::push_u16(&mut out, b.len() as u16);
    crate::codec::push_bytes(&mut out, b);
    Some(out)
}

/// A length prefix read on a TCP connection is acceptable when non-zero.
pub fn tcp_length_valid(len: u16) -> (r: bool)
    ensures
        r == (len != 0),
{
    len != 0
}

/// A connection closes when it has reached its query cap.
pub fn tcp_cap_reached(queries_handled: u64, max_queries: u64) -> (r: bool)
    ensures
        r == (queries_handled >= max_queries),
{
    queries_handled >= max_queries
}

/// One message of the AXFR stream: the question echoed, AA set, a single
/// record as the answer.
pub open spec fn spec_axfr_message(id: u16, qst: QuestionV, rec: RecordV) -> MessageV {
    MessageV {
        id,
        response: true,
        opcode: OpCode::Query,
        authoritative: true,
        truncated: false,
        recursion_desired: false,
        recursion_available: false,
        rcode: Rcode::NoError,
        questions: seq![qst],
        answers: seq![rec],
        authority: Seq::empty(),
        additionals: Seq::empty(),
        edns: None,
    }
}

/// The framed messages of an AXFR stream over a record sequence; nothing
/// when some message exceeds the frame limit.
pub open spec fn spec_axfr_frames(recs: Seq<RecordV>, id: u16, qst: QuestionV) -> Option<
    Seq<Seq<u8>>,
>
    decreases recs.len(),
{
    if recs.len() == 0 {
        Some(Seq::empty())
    } else {
        match spec_axfr_frames(recs.drop_last(), id, qst) {
            Some(pre) => {
                let body = spec_encode_message(spec_axfr_message(id, qst, recs.last()));
                if body.len() <= 65535 {
                    Some(pre.push(spec_frame(body)))
                } else {
                    None
                }
            },
            None => None,
        }
    }
}

/// Builds the framed AXFR stream for a zone: one message per record of
/// the SOA-first, SOA-last enumeration.
pub fn build_axfr_frames(zone: &Zone, id: u16, question: &Question) -> (r: Option<
    Vec<Vec<u8>>,
>)
    requires
        zone.wf(),
        question@.wf(),
    ensures
        match r {
            Some(fs) => {
                &&& spec_axfr_frames(zone@.axfr_records(), id, question@) == Some(
                    fs.deep_view())
                &&& fs@.len() == zone@.axfr_records().len()
                &&& fs@.len() >= 2
            },
            None => spec_axfr_frames(zone@.axfr_records(), id, question@) is None,
        },
{
    let records = zone.get_all_records();
    let ghost recs = zone@.axfr_records();
    let mut out: Vec<Vec<u8>> = Vec::new();
    let mut i: usize = 0;
    proof {
        assert(recs.take(0) =~= Seq::<RecordV>::empty());
        assert(spec_axfr_frames(recs.take(0), id, question@) == Some(Seq::<Seq<u8>>::empty()));
        assert(out.deep_view() =~= Seq::<Seq<u8>>::empty());
    }
    while i < records.len()
        invariant
            i <= records@.len(),
            recs == zone@.axfr_records(),
            crate::zone::recs_view(records@) == recs,
            records@.len() == recs.len(),
            zone.wf(),
            question@.wf(),
            out@.len() == i,
            spec_axfr_frames(recs.take(i as int), id, question@) == Some(out.deep_view()),
        decreases records@.len() - i,
    {
        let rec = &records[i];
        assert(rec@ == recs[i as int]);
        assert(rec@.wf()) by {
            lemma_axfr_records_wf(zone@, i as int);
        }
        let msg = Message {
            id,
            response: true,
            opcode: OpCode::Query,
            authoritative: true,
            truncated: false,
            recursion_desired: false,
            recursion_available: false,
            rcode: Rcode::NoError,
            questions: one_question(question),
            answers: one_record(rec),
            authority: Vec::new(),
            additionals: Vec::new(),
            edns: None,
        };
        proof {
            assert(msg@.questions =~= seq![question@]);
            assert(msg@.answers =~= seq![rec@]);
            assert(msg@.authority =~= Seq::<RecordV>::empty());
            assert(msg@.additionals =~= Seq::<RecordV>::empty());
            assert(msg@ == spec_axfr_message(id, question@, recs[i as int]));
        }
        let body = match encode_message(&msg) {
            Some(b) => b,
            None => {
                assert(false);
                return None;
            },
        };
        let fr = match frame_tcp(&body) {
            Some(f) => f,
            None => {
                proof {
                    assert(recs.take(i + 1).drop_last() =~= recs.take(i as int));
                    assert(recs.take(i + 1).last() == recs[i as int]);
                    lemma_axfr_frames_prefix_none(recs, i + 1, id, question@);
                }
                return None;
            },
        };
        let ghost pre = out.deep_view();
        out.push(fr);
        proof {
            assert(recs.take(i + 1).drop_last() =~= recs.take(i as int));
            assert(recs.take(i + 1).last() == recs[i as int]);
            assert(out.deep_view() =~~= pre.push(fr@));
        }
        i = i + 1;
    }
    assert(recs.take(recs.len() as int) =~= recs);
    Some(out)
}

/// A failing prefix makes the whole stream fail.
proof fn lemma_axfr_frames_prefix_none(recs: Seq<RecordV>, k: int, id: u16, qst: QuestionV)
    requires
        0 < k <= recs.len(),
        spec_axfr_frames(recs.take(k), id, qst) is None,
    ensures
        spec_axfr_frames(recs, id, qst) is None,
    decreases recs.len() - k,
{
    if k == recs.len() {
        assert(recs.take(k) =~= recs);
    } else {
        assert(recs.take(k + 1).drop_last() =~= recs.take(k));
        lemma_axfr_frames_prefix_none(recs, k + 1, id, qst);
    }
}

/// Every record of the AXFR enumeration of a well-formed zone is
/// well-formed.
proof fn lemma_axfr_records_wf(z: ZoneV, i: int)
    requires
        z.wf(),
        0 <= i < z.axfr_records().len(),
    ensures
        z.axfr_records()[i].wf(),
{
    let recs = z.axfr_records();
    let items = crate::zone::all_items(z.rrsets);
    assert(z.soa_record().wf());
    if i == 0 {
    } else if i == recs.len() - 1 {
        assert(recs[i] == z.soa_record());
    } else {
        assert(recs[i] == items[i - 1]);
        lemma_all_items_wf(z.rrsets, i - 1);
    }
}

/// Members of the flattened record list of well-formed sets are
/// well-formed.
proof fn lemma_all_items_wf(ss: Seq<crate::zone::RrSetV>, i: int)
    requires
        forall|k: int| 0 <= k < ss.len() ==> (#[trigger] ss[k]).wf(),
        0 <= i < crate::zone::all_items(ss).len(),
    ensures
        crate::zone::all_items(ss)[i].wf(),
    decreases ss.len(),
{
    if ss.len() > 0 {
        let head = ss[0].items;
        if i < head.len() {
            assert(ss[0].wf());
        } else {
            assert(forall|k: int| 0 <= k < ss.len() - 1 ==> ss.skip(1)[k] == ss[k + 1]);
            lemma_all_items_wf(ss.skip(1), i - head.len());
            assert(crate::zone::all_items(ss)[i] == crate::zone::all_items(ss.skip(1))[i
                - head.len()]);
        }
    }
}

/// A single question as a section.
fn one_question(q: &Question) -> (r: Vec<Question>)
    ensures
        r@.len() == 1,
        r@[0]@ == q@,
{
    let mut v: Vec<Question> = Vec::new();
    v.push(q.clone());
    v
}

/// A single record as a section.
fn one_record(rec: &Record) -> (r: Vec<Record>)
    ensures
        r@.len() == 1,
        r@[0]@ == rec@,
{
    let mut v: Vec<Record> = Vec::new();
    v.push(rec.clone());
    v
}

/// What handling one framed TCP message yields.
pub struct TcpOutcome {
    /// The frames to write back, in order.
    pub frames: Vec<Vec<u8>>,
    /// The connection is to close after writing.
    pub close: bool,
    /// The query was dropped by the rate limiter.
    pub rate_limited: bool,
    /// The message could not be decoded.
    pub formerr: bool,
    /// The response code of a processed reply.
    pub rcode: Option<Rcode>,
    /// The type of the first question, for the metrics table.
    pub qtype: Option<RrType>,
    /// The request carried an EDNS extension.
    pub edns: bool,
    /// The message asked for a zone transfer.
    pub axfr: bool,
}

/// The REFUSED reply to an AXFR of an unserved zone: the question echoed.
pub open spec fn spec_axfr_refusal(q: MessageV) -> MessageV {
    MessageV { questions: seq![q.questions[0]], ..spec_bare_reply(q.id, Rcode::Refused) }
}

/// A decoded request asks for a zone transfer.
pub open spec fn spec_is_axfr(q: MessageV) -> bool {
    q.questions.len() > 0 && q.questions[0].qtype == RrType::Axfr
}

/// Handles one framed TCP message: REFUSED and close when the limiter
/// denied, FORM_ERR and close when the bytes do not decode, the streamed
/// zone for an AXFR of a served zone, REFUSED for an AXFR of an unserved
/// one, and otherwise one framed response on a connection that stays
/// open. A reply that cannot be framed closes the connection silently.
#[verifier::rlimit(100)]
#[verifier::spinoff_prover]
pub fn tcp_handle(data: &Vec<u8>, zones: &ZoneStore, allowed: bool) -> (r: TcpOutcome)
    requires
        zones.wf(),
    ensures
        r.rate_limited == !allowed,
        r.formerr == (allowed && spec_decode(data@) is None),
        !allowed ==> r.close && r.frames@.len() == 1 && r.frames@[0]@ == spec_frame(
            spec_encode_message(spec_bare_reply(0, Rcode::Refused))),
        (allowed && spec_decode(data@) is None) ==> r.close,
        (match spec_decode(data@) {
            Some(q) => allowed && !spec_is_axfr(q),
            None => false,
        }) ==> ({
            let q = spec_decode(data@).unwrap();
            let resp = spec_response(q, store_view(zones));
            &&& !r.close ==> r.frames@.len() == 1 && r.frames@[0]@ == spec_frame(
                spec_encode_message(resp))
            &&& r.close ==> r.frames@.len() == 0
            &&& r.close == !(counts_fit(resp) && spec_encode_message(resp).len() <= 65535)
            &&& r.rcode == Some(resp.rcode)
            &&& !r.axfr
        }),
        (match spec_decode(data@) {
            Some(q) => allowed && spec_is_axfr(q) && spec_find_zone(store_view(zones),
                q.questions[0].name) is Some,
            None => false,
        }) ==> ({
            let q = spec_decode(data@).unwrap();
            let z = spec_find_zone(store_view(zones), q.questions[0].name).unwrap();
            &&& r.axfr && r.close
            &&& (match spec_axfr_frames(z.axfr_records(), q.id, q.questions[0]) {
                Some(fs) => r.frames.deep_view() == fs,
                None => r.frames@.len() == 0,
            })
        }),
        (match spec_decode(data@) {
            Some(q) => allowed && spec_is_axfr(q) && spec_find_zone(store_view(zones),
                q.questions[0].name) is None,
            None => false,
        }) ==> ({
            let q = spec_decode(data@).unwrap();
            &&& r.axfr && r.close
            &&& r.frames@.len() == 1
            &&& r.frames@[0]@ == spec_frame(spec_encode_message(spec_axfr_refusal(q)))
        }),
{
    if !allowed {
        let reply = bare_reply(0, Rcode::Refused);
        proof {
            crate::codec::lemma_small_message_fits(reply@);
        }
        let bytes = match encode_message(&reply) {
            Some(b) => b,
            None => {
                assert(false);
                Vec::new()
            },
        };
        let fr = match frame_tcp(&bytes) {
            Some(f) => f,
            None => {
                assert(false);
                Vec::new()
            },
        };
        let mut frames: Vec<Vec<u8>> = Vec::new();
        frames.push(fr);
        return TcpOutcome {
            frames,
            close: true,
            rate_limited: true,
            formerr: false,
            rcode: Some(Rcode::Refused),
            qtype: None,
            edns: false,
            axfr: false,
        };
    }
    let query = match decode_message(data) {
        Some(q) => q,
        None => {
            let id: u16 = if data.len() >= 2 {
                crate::codec::read_u16(data, 0)
            } else {
                0
            };
            let reply = bare_reply(id, Rcode::FormErr);
            let mut frames: Vec<Vec<u8>> = Vec::new();
            match encode_message(&reply) {
                Some(bytes) => {
                    match frame_tcp(&bytes) {
                        Some(f) => {
                            frames.push(f);
                        },
                        None => {},
                    }
                },
                None => {
                    assert(false);
                },
            }
            return TcpOutcome {
                frames,
                close: true,
                rate_limited: false,
                formerr: true,
                rcode: Some(Rcode::FormErr),
                qtype: None,
                edns: false,
                axfr: false,
            };
        },
    };
    let has_edns = query.edns.is_some();
    let qtype: Option<RrType> = if query.questions.len() > 0 {
        Some(query.questions[0].qtype)
    } else {
        None
    };
    let is_axfr = match qtype {
        Some(t) => t == RrType::Axfr,
        None => false,
    };
    if is_axfr {
        let q0 = &query.questions[0];
        assert(q0@.wf()) by {
            assert(query@.questions[0].wf());
        }
        match zones.find_zone(&q0.name) {
            Some(zone) => {
                match build_axfr_frames(zone, query.id, q0) {
                    Some(frames) => {
                        return TcpOutcome {
                            frames,
                            close: true,
                            rate_limited: false,
                            formerr: false,
                            rcode: Some(Rcode::NoError),
                            qtype,
                            edns: has_edns,
                            axfr: true,
                        };
                    },
                    None => {
                        return TcpOutcome {
                            frames: Vec::new(),
                            close: true,
                            rate_limited: false,
                            formerr: false,
                            rcode: None,
                            qtype,
                            edns: has_edns,
                            axfr: true,
                        };
                    },
                }
            },
            None => {
                let mut reply = bare_reply(query.id, Rcode::Refused);
                reply.questions = one_question(q0);
                proof {
                    assert(reply@.questions =~= seq![q0@]);
                    assert(reply@ == spec_axfr_refusal(query@));
                    crate::codec::lemma_small_message_fits(reply@);
                }
                let mut frames: Vec<Vec<u8>> = Vec::new();
                match encode_message(&reply) {
                    Some(bytes) => {
                        match frame_tcp(&bytes) {
                            Some(f) => {
                                frames.push(f);
                            },
                            None => {
                                assert(false);
                            },
                        }
                    },
                    None => {
                        assert(false);
                    },
                }
                return TcpOutcome {
                    frames,
                    close: true,
                    rate_limited: false,
                    formerr: false,
                    rcode: Some(Rcode::Refused),
                    qtype,
                    edns: has_edns,
                    axfr: true,
                };
            },
        }
    }
    let response = process_query_in(zones, &query);
    proof {
        crate::query::lemma_response_wf(query@, store_view(zones));
    }
    let rcode = response.rcode;
    let mut frames: Vec<Vec<u8>> = Vec::new();
    let mut close = false;
    match encode_message(&response) {
        Some(bytes) => {
            match frame_tcp(&bytes) {
                Some(f) => {
                    frames.push(f);
                    assert(frames@.len() == 1);
                },
                None => {
                    close = true;
                },
            }
        },
        None => {
            close = true;
        },
    }
    TcpOutcome {
        frames,
        close,
        rate_limited: false,
        formerr: false,
        rcode: Some(rcode),
        qtype,
        edns: has_edns,
        axfr: false,
    }
}

/// The AXFR stream of a well-formed zone, when every frame fits, has one
/// frame per enumerated record and both its first and last message carry
/// the zone's SOA record as their single answer.
pub proof fn lemma_axfr_stream_bookends(z: ZoneV, id: u16, qst: QuestionV, fs: Seq<Seq<u8>>)
    requires
        spec_axfr_frames(z.axfr_records(), id, qst) == Some(fs),
    ensures
        fs.len() == z.axfr_records().len(),
        fs.len() >= 2,
        fs[0] == spec_frame(spec_encode_message(spec_axfr_message(id, qst, z.soa_record()))),
        fs.last() == spec_frame(spec_encode_message(spec_axfr_message(id, qst,
            z.soa_record()))),
{
    let recs = z.axfr_records();
    lemma_axfr_frames_shape(recs, id, qst, fs);
    assert(recs[0] == z.soa_record());
    assert(recs.last() == z.soa_record());
}

/// Each frame of a built stream is the framed encoding of its record's
/// message.
proof fn lemma_axfr_frames_shape(recs: Seq<RecordV>, id: u16, qst: QuestionV, fs: Seq<Seq<u8>>)
    requires
        spec_axfr_frames(recs, id, qst) == Some(fs),
    ensures
        fs.len() == recs.len(),
        forall|i: int| 0 <= i < fs.len() ==> fs[i] == spec_frame(spec_encode_message(
            #[trigger] spec_axfr_message(id, qst, recs[i]))),
    decreases recs.len(),
{
    if recs.len() == 0 {
    } else {
        let pre = spec_axfr_frames(recs.drop_last(), id, qst).unwrap();
        lemma_axfr_frames_shape(recs.drop_last(), id, qst, pre);
        assert(fs == pre.push(spec_frame(spec_encode_message(spec_axfr_message(id, qst,
            recs.last())))));
        assert forall|i: int| 0 <= i < fs.len() implies fs[i] == spec_frame(
            spec_encode_message(#[trigger] spec_axfr_message(id, qst, recs[i]))) by {
            if i < fs.len() - 1 {
                assert(fs[i] == pre[i]);
                assert(recs.drop_last()[i] == recs[i]);
            } else {
                assert(recs[i] == recs.last());
            }
        }
    }
}

} // verus!
