//! The parsed form of a DNS message: header fields, questions, the three
//! record sections, and the EDNS0 extension when present.

use vstd::prelude::*;
use crate::name::DnsName;
use crate::name::name_wf;
use crate::rr::Record;
use crate::rr::RecordV;
use crate::rr::RrType;
use crate::rr::rdata_wf;

verus! {

/// DNS opcodes. `Other` carries a 4-bit code that no named variant has.
#[derive(Clone, Copy, PartialEq, Eq, Structural, Debug)]
pub enum OpCode {
    Query,
    Status,
    Notify,
    Update,
    Other(u8),
}

impl OpCode {
    pub open spec fn spec_code(self) -> u8 {
        match self {
            OpCode::Query => 0,
            OpCode::Status => 2,
            OpCode::Notify => 4,
            OpCode::Update => 5,
            OpCode::Other(c) => c,
        }
    }

    pub fn code(self) -> (r: u8)
        ensures
            r == self.spec_code(),
    {
        match self {
            OpCode::Query => 0,
            OpCode::Status => 2,
            OpCode::Notify => 4,
            OpCode::Update => 5,
            OpCode::Other(c) => c,
        }
    }

    pub fn from_code(c: u8) -> (r: OpCode)
        ensures
            r == spec_opcode_of(c),
    {
        match c {
            0 => OpCode::Query,
            2 => OpCode::Status,
            4 => OpCode::Notify,
            5 => OpCode::Update,
            _ => OpCode::Other(c),
        }
    }
}

pub open spec fn spec_opcode_of(c: u8) -> OpCode {
    if c == 0 {
        OpCode::Query
    } else if c == 2 {
        OpCode::Status
    } else if c == 4 {
        OpCode::Notify
    } else if c == 5 {
        OpCode::Update
    } else {
        OpCode::Other(c)
    }
}

/// DNS response codes. `Other` carries a 4-bit code that no named variant
/// has.
#[derive(Clone, Copy, PartialEq, Eq, Structural, Debug)]
pub enum Rcode {
    NoError,
    FormErr,
    ServFail,
    NxDomain,
    NotImp,
    Refused,
    Other(u8),
}

impl Rcode {
    pub open spec fn spec_code(self) -> u8 {
        match self {
            Rcode::NoError => 0,
            Rcode::FormErr => 1,
            Rcode::ServFail => 2,
            Rcode::NxDomain => 3,
            Rcode::NotImp => 4,
            Rcode::Refused => 5,
            Rcode::Other(c) => c,
        }
    }

    pub fn code(self) -> (r: u8)
        ensures
            r == self.spec_code(),
    {
        match self {
            Rcode::NoError => 0,
            Rcode::FormErr => 1,
            Rcode::ServFail => 2,
            Rcode::NxDomain => 3,
            Rcode::NotImp => 4,
            Rcode::Refused => 5,
            Rcode::Other(c) => c,
        }
    }

    pub fn from_code(c: u8) -> (r: Rcode)
        ensures
            r == spec_rcode_of(c),
    {
        match c {
            0 => Rcode::NoError,
            1 => Rcode::FormErr,
            2 => Rcode::ServFail,
            3 => Rcode::NxDomain,
            4 => Rcode::NotImp,
            5 => Rcode::Refused,
            _ => Rcode::Other(c),
        }
    }
}

pub open spec fn spec_rcode_of(c: u8) -> Rcode {
    if c == 0 {
        Rcode::NoError
    } else if c == 1 {
        Rcode::FormErr
    } else if c == 2 {
        Rcode::ServFail
    } else if c == 3 {
        Rcode::NxDomain
    } else if c == 4 {
        Rcode::NotImp
    } else if c == 5 {
        Rcode::Refused
    } else {
        Rcode::Other(c)
    }
}

/// One question: name, type, class.
pub struct Question {
    pub name: DnsName,
    pub qtype: RrType,
    pub qclass: u16,
}

/// Spec view of `Question`.
pub struct QuestionV {
    pub name: Seq<u8>,
    pub qtype: RrType,
    pub qclass: u16,
}

impl View for Question {
    type V = QuestionV;

    open spec fn view(&self) -> QuestionV {
        QuestionV { name: self.name@, qtype: self.qtype, qclass: self.qclass }
    }
}

impl Clone for Question {
    fn clone(&self) -> (r: Self)
        ensures
            r@ == self@,
    {
        Question { name: self.name.clone(), qtype: self.qtype, qclass: self.qclass }
    }
}

impl QuestionV {
    pub open spec fn wf(self) -> bool {
        name_wf(self.name)
    }
}

/// The EDNS0 extension: advertised payload size, version, DO flag.
#[derive(Clone, Copy, PartialEq, Eq, Structural, Debug)]
pub struct Edns {
    pub max_payload: u16,
    pub version: u8,
    pub dnssec_ok: bool,
}

/// A parsed DNS message.
pub struct Message {
    pub id: u16,
    pub response: bool,
    pub opcode: OpCode,
    pub authoritative: bool,
    pub truncated: bool,
    pub recursion_desired: bool,
    pub recursion_available: bool,
    pub rcode: Rcode,
    pub questions: Vec<Question>,
    pub answers: Vec<Record>,
    pub authority: Vec<Record>,
    pub additionals: Vec<Record>,
    pub edns: Option<Edns>,
}

/// Spec view of `Message`.
pub struct MessageV {
    pub id: u16,
    pub response: bool,
    pub opcode: OpCode,
    pub authoritative: bool,
    pub truncated: bool,
    pub recursion_desired: bool,
    pub recursion_available: bool,
    pub rcode: Rcode,
    pub questions: Seq<QuestionV>,
    pub answers: Seq<RecordV>,
    pub authority: Seq<RecordV>,
    pub additionals: Seq<RecordV>,
    pub edns: Option<Edns>,
}

pub open spec fn qs_view(s: Seq<Question>) -> Seq<QuestionV> {
    Seq::new(s.len(), |i: int| s[i]@)
}

pub open spec fn mrecs_view(s: Seq<Record>) -> Seq<RecordV> {
    Seq::new(s.len(), |i: int| s[i]@)
}

impl View for Message {
    type V = MessageV;

    open spec fn view(&self) -> MessageV {
        MessageV {
            id: self.id,
            response: self.response,
            opcode: self.opcode,
            authoritative: self.authoritative,
            truncated: self.truncated,
            recursion_desired: self.recursion_desired,
            recursion_available: self.recursion_available,
            rcode: self.rcode,
            questions: qs_view(self.questions@),
            answers: mrecs_view(self.answers@),
            authority: mrecs_view(self.authority@),
            additionals: mrecs_view(self.additionals@),
            edns: self.edns,
        }
    }
}

impl MessageV {
    /// Names well-formed and RDATA within framing limits.
    pub open spec fn wf(self) -> bool {
        &&& forall|i: int| 0 <= i < self.questions.len() ==> (#[trigger] self.questions[i]).wf()
        &&& forall|i: int| 0 <= i < self.answers.len() ==> (#[trigger] self.answers[i]).wf()
        &&& forall|i: int| 0 <= i < self.authority.len() ==> (#[trigger] self.authority[i]).wf()
        &&& forall|i: int| 0 <= i < self.additionals.len() ==> (#[trigger] self.additionals[
            i]).wf()
    }
}

impl Message {
    pub open spec fn wf(&self) -> bool {
        self@.wf()
    }

    /// An empty message: identifier zero, a query, opcode QUERY, no error,
    /// all flags clear, no sections.
    pub fn new() -> (r: Message)
        ensures
            r@ == spec_empty_message(),
    {
        let r = Message {
            id: 0,
            response: false,
            opcode: OpCode::Query,
            authoritative: false,
            truncated: false,
            recursion_desired: false,
            recursion_available: false,
            rcode: Rcode::NoError,
            questions: Vec::new(),
            answers: Vec::new(),
            authority: Vec::new(),
            additionals: Vec::new(),
            edns: None,
        };
        proof {
            assert(r@.questions =~= Seq::<QuestionV>::empty());
            assert(r@.answers =~= Seq::<RecordV>::empty());
            assert(r@.authority =~= Seq::<RecordV>::empty());
            assert(r@.additionals =~= Seq::<RecordV>::empty());
        }
        r
    }
}

/// What `Message::new` returns.
pub open spec fn spec_empty_message() -> MessageV {
    MessageV {
        id: 0,
        response: false,
        opcode: OpCode::Query,
        authoritative: false,
        truncated: false,
        recursion_desired: false,
        recursion_available: false,
        rcode: Rcode::NoError,
        questions: Seq::empty(),
        answers: Seq::empty(),
        authority: Seq::empty(),
        additionals: Seq::empty(),
        edns: None,
    }
}

/// Copies a record section.
pub fn copy_records(v: &Vec<Record>) -> (r: Vec<Record>)
    ensures
        mrecs_view(r@) == mrecs_view(v@),
        r@.len() == v@.len(),
{
    let mut out: Vec<Record> = Vec::new();
    let mut i: usize = 0;
    while i < v.len()
        invariant
            i <= v@.len(),
            out@.len() == i,
            forall|j: int| 0 <= j < i ==> (#[trigger] out@[j])@ == v@[j]@,
        decreases v@.len() - i,
    {
        out.push(v[i].clone());
        i = i + 1;
    }
    assert(mrecs_view(out@) =~= mrecs_view(v@));
    out
}

} // verus!
