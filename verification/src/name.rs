//! Domain names in canonical wire form.
//!
//! A name is a sequence of length-prefixed labels closed by a root octet 0,
//! each label 1..=63 octets, the whole at most 255 octets. Labels are stored
//! lowercased, so byte equality is the case-insensitive equality of RFC 1035
//! and the stored bytes are already the canonical wire form that DNSSEC
//! digests are computed over.

use vstd::prelude::*;

verus! {

use vstd::string::StringSliceAdditionalSpecFns;
use vstd::string::StrSliceExecFns;

/// Greatest number of octets a name may occupy in wire form.
pub const MAX_NAME_WIRE_LEN: usize = 255;

/// Greatest number of octets in one label.
pub const MAX_LABEL_LEN: usize = 63;

/// ASCII '.'
pub const DOT: u8 = 46;

/// ASCII '*'
pub const STAR: u8 = 42;

/// ASCII 'A'
pub const UPPER_A: u8 = 65;

/// ASCII 'Z'
pub const UPPER_Z: u8 = 90;

pub open spec fn spec_ascii_lower(b: u8) -> u8 {
    if UPPER_A <= b && b <= UPPER_Z {
        (b + 32) as u8
    } else {
        b
    }
}

/// Lowercases one ASCII byte; bytes outside `A`..`Z` are unchanged.
pub fn ascii_lower(b: u8) -> (r: u8)
    ensures
        r == spec_ascii_lower(b),
{
    if UPPER_A <= b && b <= UPPER_Z {
        b + 32
    } else {
        b
    }
}

pub open spec fn lower_seq(s: Seq<u8>) -> Seq<u8> {
    Seq::new(s.len(), |i: int| spec_ascii_lower(s[i]))
}

/// `s` is a well-formed wire-form name: length-prefixed labels, then 0.
pub open spec fn valid_wire_name(s: Seq<u8>) -> bool
    decreases s.len(),
{
    if s.len() == 0 {
        false
    } else if s[0] == 0 {
        s.len() == 1
    } else {
        1 <= s[0] <= 63 && s.len() >= s[0] + 2 && valid_wire_name(s.skip(s[0] + 1))
    }
}

pub open spec fn all_lower(s: Seq<u8>) -> bool {
    forall|i: int| 0 <= i < s.len() ==> !(UPPER_A <= #[trigger] s[i] <= UPPER_Z)
}

/// Number of labels of a wire-form name.
pub open spec fn spec_label_count(s: Seq<u8>) -> nat
    decreases s.len(),
{
    if s.len() == 0 || s[0] == 0 {
        0
    } else if s.len() < s[0] + 1 {
        0
    } else {
        1 + spec_label_count(s.skip(s[0] + 1))
    }
}

/// `p` names a zone that contains the name `c`: `p` is `c` or an
/// ancestor of `c`, that is a label-aligned suffix of `c`'s wire form.
pub open spec fn spec_zone_of(p: Seq<u8>, c: Seq<u8>) -> bool
    decreases c.len(),
{
    if p == c {
        true
    } else if c.len() == 0 || c[0] == 0 {
        false
    } else if c.len() < c[0] + 1 {
        false
    } else {
        spec_zone_of(p, c.skip(c[0] + 1))
    }
}

/// The labels of a wire-form name, without their length prefixes.
pub open spec fn labels_of_wire(s: Seq<u8>) -> Seq<Seq<u8>>
    decreases s.len(),
{
    if s.len() == 0 || s[0] == 0 {
        seq![]
    } else if s.len() < s[0] + 1 {
        seq![]
    } else {
        seq![s.subrange(1, s[0] + 1)].add(labels_of_wire(s.skip(s[0] + 1)))
    }
}

/// Splitting a byte string on '.': always at least one part.
pub open spec fn split_on_dots(s: Seq<u8>) -> Seq<Seq<u8>>
    decreases s.len(),
{
    if s.len() == 0 {
        seq![Seq::<u8>::empty()]
    } else if s[0] == DOT {
        seq![Seq::<u8>::empty()].add(split_on_dots(s.skip(1)))
    } else {
        let rest = split_on_dots(s.skip(1));
        seq![seq![s[0]].add(rest[0])].add(rest.skip(1))
    }
}

pub proof fn lemma_split_on_dots_len(s: Seq<u8>)
    ensures
        split_on_dots(s).len() >= 1,
    decreases s.len(),
{
    if s.len() == 0 {
    } else {
        lemma_split_on_dots_len(s.skip(1));
    }
}

/// Wire encoding of a sequence of text labels, lowercased, without the
/// closing root octet.
pub open spec fn wire_of_labels(labs: Seq<Seq<u8>>) -> Seq<u8>
    decreases labs.len(),
{
    if labs.len() == 0 {
        Seq::empty()
    } else {
        seq![labs[0].len() as u8].add(lower_seq(labs[0])).add(wire_of_labels(labs.skip(1)))
    }
}

pub open spec fn labels_ok(labs: Seq<Seq<u8>>) -> bool {
    &&& labs.len() >= 1
    &&& forall|i: int| 0 <= i < labs.len() ==> 1 <= #[trigger] labs[i].len() <= 63
}

/// The parts of `t` as a name: its dot-separated labels, a trailing dot
/// (absolute form) dropped.
pub open spec fn text_labels(t: Seq<u8>) -> Seq<Seq<u8>> {
    let parts = split_on_dots(t);
    if t.len() > 0 && t[t.len() - 1] == DOT {
        parts.drop_last()
    } else {
        parts
    }
}

/// What parsing `t` as a complete name yields: the wire form of its
/// labels, or nothing when a label is empty or over 63 octets or the
/// whole exceeds 255 octets. "." is the root name.
pub open spec fn name_from_text(t: Seq<u8>) -> Option<Seq<u8>> {
    if t == seq![DOT] {
        Some(seq![0u8])
    } else {
        let labs = text_labels(t);
        if labels_ok(labs) && wire_of_labels(labs).len() + 1 <= 255 {
            Some(wire_of_labels(labs).push(0))
        } else {
            None
        }
    }
}

/// What parsing `t` against the origin `o` yields: `t` alone when it ends
/// with a dot, else `t`'s labels followed by `o`.
pub open spec fn name_from_text_origin(t: Seq<u8>, o: Seq<u8>) -> Option<Seq<u8>> {
    if t.len() > 0 && t[t.len() - 1] == DOT {
        name_from_text(t)
    } else {
        let labs = text_labels(t);
        if labels_ok(labs) && wire_of_labels(labs).len() + o.len() <= 255 {
            Some(wire_of_labels(labs).add(o))
        } else {
            None
        }
    }
}

/// A domain name in canonical (lowercased) wire form.
#[derive(Debug)]
pub struct DnsName {
    bytes: Vec<u8>,
}

impl View for DnsName {
    type V = Seq<u8>;

    closed spec fn view(&self) -> Seq<u8> {
        self.bytes@
    }
}

impl Clone for DnsName {
    fn clone(&self) -> (r: Self)
        ensures
            r@ == self@,
    {
        DnsName { bytes: clone_bytes(&self.bytes) }
    }
}

impl PartialEq for DnsName {
    fn eq(&self, other: &Self) -> (r: bool) {
        bytes_eq(&self.bytes, &other.bytes)
    }
}

impl Eq for DnsName {

}

impl vstd::std_specs::cmp::PartialEqSpecImpl for DnsName {
    open spec fn obeys_eq_spec() -> bool {
        true
    }

    open spec fn eq_spec(&self, other: &DnsName) -> bool {
        self@ == other@
    }
}

pub open spec fn name_wf(s: Seq<u8>) -> bool {
    valid_wire_name(s) && s.len() <= 255 && all_lower(s)
}

impl DnsName {
    pub open spec fn wf(&self) -> bool {
        name_wf(self@)
    }

    /// The root name ".".
    pub fn root() -> (r: DnsName)
        ensures
            r@ == seq![0u8],
            r.wf(),
    {
        let mut v: Vec<u8> = Vec::new();
        v.push(0);
        assert(v@ =~= seq![0u8]);
        let r = DnsName { bytes: v };
        assert(r.wf()) by {
            reveal_with_fuel(valid_wire_name, 2);
        }
        r
    }

    /// Takes ownership of well-formed wire bytes as a name.
    pub fn from_wire(bytes: Vec<u8>) -> (r: DnsName)
        requires
            name_wf(bytes@),
        ensures
            r@ == bytes@,
            r.wf(),
    {
        DnsName { bytes }
    }

    /// Wire form of the name: its stored bytes.
    pub fn to_wire(&self) -> (r: Vec<u8>)
        ensures
            r@ == self@,
    {
        clone_bytes(&self.bytes)
    }

    /// Number of octets of the wire form.
    pub fn wire_len(&self) -> (r: usize)
        ensures
            r == self@.len(),
    {
        self.bytes.len()
    }

    /// Number of labels.
    pub fn label_count(&self) -> (r: usize)
        requires
            self.wf(),
        ensures
            r == spec_label_count(self@),
    {
        let ghost s = self@;
        let mut i: usize = 0;
        let mut n: usize = 0;
        assert(self@.skip(0) =~= self@);
        while self.bytes[i] != 0
            invariant
                self.wf(),
                i < self@.len(),
                valid_wire_name(self@.skip(i as int)),
                n == spec_label_count(self@) - spec_label_count(self@.skip(i as int)),
                n <= i,
            decreases self@.len() - i,
        {
            let ghost rem = self@.skip(i as int);
            assert(rem[0] == self@[i as int]);
            let step = self.bytes[i] as usize;
            assert(rem.skip(rem[0] + 1) =~= self@.skip(i + step + 1));
            i = i + step + 1;
            n = n + 1;
        }
        assert(self@.skip(i as int)[0] == self@[i as int]);
        n
    }

    /// True when this name is the zone (equal or ancestor) of `child`.
    pub fn is_zone_of(&self, child: &DnsName) -> (r: bool)
        requires
            self.wf(),
            child.wf(),
        ensures
            r == spec_zone_of(self@, child@),
    {
        let mut i: usize = 0;
        assert(child@.skip(0) =~= child@);
        loop
            invariant
                self.wf(),
                child.wf(),
                i < child@.len(),
                valid_wire_name(child@.skip(i as int)),
                spec_zone_of(self@, child@) == spec_zone_of(self@, child@.skip(i as int)),
            decreases child@.len() - i,
        {
            let ghost rem = child@.skip(i as int);
            assert(rem[0] == child@[i as int]);
            if bytes_eq_from(&child.bytes, i, &self.bytes) {
                assert(child@.skip(i as int) =~= self@);
                return true;
            }
            if child.bytes[i] == 0 {
                assert(rem[0] == 0);
                return false;
            }
            let step = child.bytes[i] as usize;
            assert(rem.skip(rem[0] + 1) =~= child@.skip(i + step + 1));
            i = i + step + 1;
        }
    }

    /// True when the leftmost label is "*".
    pub fn is_wildcard(&self) -> (r: bool)
        ensures
            r == spec_is_wildcard(self@),
    {
        self.bytes.len() >= 2 && self.bytes[0] == 1 && self.bytes[1] == STAR
    }

    /// The name with its leftmost label removed; nothing for the root.
    pub fn parent(&self) -> (r: Option<DnsName>)
        requires
            self.wf(),
        ensures
            match r {
                Some(p) => self@[0] != 0 && p@ == self@.skip(self@[0] + 1) && p.wf(),
                None => self@[0] == 0,
            },
    {
        if self.bytes[0] == 0 {
            None
        } else {
            let step = self.bytes[0] as usize + 1;
            let mut v: Vec<u8> = Vec::new();
            let mut i: usize = step;
            while i < self.bytes.len()
                invariant
                    step <= i <= self@.len(),
                    v@ =~= self@.subrange(step as int, i as int),
                decreases self@.len() - i,
            {
                v.push(self.bytes[i]);
                i = i + 1;
            }
            assert(v@ =~= self@.skip(step as int));
            let p = DnsName { bytes: v };
            assert(p.wf()) by {
                assert(valid_wire_name(p@));
                assert(forall|j: int|
                    0 <= j < p@.len() ==> p@[j] == self@[j + step]);
            }
            Some(p)
        }
    }

    /// "*." prefixed to this name; nothing when that would exceed 255 octets.
    pub fn wildcard_of(&self) -> (r: Option<DnsName>)
        requires
            self.wf(),
        ensures
            match r {
                Some(w) => w@ == seq![1u8, STAR].add(self@) && w.wf(),
                None => self@.len() + 2 > 255,
            },
    {
        if self.bytes.len() + 2 > 255 {
            return None;
        }
        let mut v: Vec<u8> = Vec::new();
        v.push(1);
        v.push(STAR);
        let mut i: usize = 0;
        while i < self.bytes.len()
            invariant
                i <= self@.len(),
                v@ =~= seq![1u8, STAR].add(self@.subrange(0, i as int)),
            decreases self@.len() - i,
        {
            v.push(self.bytes[i]);
            i = i + 1;
        }
        assert(v@ =~= seq![1u8, STAR].add(self@));
        let w = DnsName { bytes: v };
        assert(w.wf()) by {
            assert(w@.skip(2) =~= self@);
            assert(valid_wire_name(w@));
        }
        Some(w)
    }

    /// Parses a complete textual name; "." is the root, a trailing dot is
    /// allowed, labels are lowercased.
    pub fn from_text(s: &str) -> (r: Option<DnsName>)
        ensures
            match r {
                Some(n) => name_from_text(s.spec_bytes()) == Some(n@) && n.wf(),
                None => name_from_text(s.spec_bytes()) is None,
            },
    {
        let b = s.as_bytes_vec();
        Self::from_text_bytes(&b)
    }

    /// Parses a complete textual name given as bytes.
    pub fn from_text_bytes(b: &Vec<u8>) -> (r: Option<DnsName>)
        ensures
            match r {
                Some(n) => name_from_text(b@) == Some(n@) && n.wf(),
                None => name_from_text(b@) is None,
            },
    {
        if b.len() == 1 && b[0] == DOT {
            assert(b@ =~= seq![DOT]);
            return Some(Self::root());
        }
        assert(b@ != seq![DOT]) by {
            if b@ == seq![DOT] {
                assert(b@.len() == 1 && b@[0] == DOT);
            }
        }
        let labs = split_text_labels(b);
        match encode_labels(&labs) {
            Some(w) => {
                if w.len() <= 254 {
                    let mut v = w;
                    v.push(0);
                    let n = DnsName { bytes: v };
                    proof {
                        lemma_wire_of_labels_wf(labs.deep_view());
                        assert(n@ =~= wire_of_labels(labs.deep_view()).push(0));
                        lemma_valid_wire_push_root(wire_of_labels(labs.deep_view()));
                    }
                    Some(n)
                } else {
                    None
                }
            },
            None => None,
        }
    }

    /// Parses a textual name against an origin: used as given when it ends
    /// with a dot, else taken relative and suffixed with the origin.
    pub fn from_text_bytes_origin(b: &Vec<u8>, origin: &DnsName) -> (r: Option<DnsName>)
        requires
            origin.wf(),
        ensures
            match r {
                Some(n) => name_from_text_origin(b@, origin@) == Some(n@) && n.wf(),
                None => name_from_text_origin(b@, origin@) is None,
            },
    {
        if b.len() > 0 && b[b.len() - 1] == DOT {
            Self::from_text_bytes(b)
        } else {
            let labs = split_text_labels(b);
            match encode_labels(&labs) {
                Some(w) => {
                    if w.len() <= 255 && origin.bytes.len() <= 255 - w.len() {
                        let mut v = w;
                        let mut i: usize = 0;
                        while i < origin.bytes.len()
                            invariant
                                i <= origin@.len(),
                                v@ =~= wire_of_labels(labs.deep_view()).add(
                                    origin@.subrange(0, i as int)),
                            decreases origin@.len() - i,
                        {
                            v.push(origin.bytes[i]);
                            i = i + 1;
                        }
                        assert(v@ =~= wire_of_labels(labs.deep_view()).add(origin@));
                        let n = DnsName { bytes: v };
                        proof {
                            lemma_wire_of_labels_wf(labs.deep_view());
                            lemma_valid_wire_append(wire_of_labels(labs.deep_view()), origin@);
                        }
                        Some(n)
                    } else {
                        None
                    }
                },
                None => None,
            }
        }
    }
}

pub open spec fn spec_is_wildcard(s: Seq<u8>) -> bool {
    s.len() >= 2 && s[0] == 1 && s[1] == STAR
}

/// Compares two byte vectors for equality.
pub fn bytes_eq(a: &Vec<u8>, b: &Vec<u8>) -> (r: bool)
    ensures
        r == (a@ == b@),
{
    if a.len() != b.len() {
        return false;
    }
    let mut i: usize = 0;
    while i < a.len()
        invariant
            a@.len() == b@.len(),
            i <= a@.len(),
            forall|j: int| 0 <= j < i ==> a@[j] == b@[j],
        decreases a@.len() - i,
    {
        if a[i] != b[i] {
            return false;
        }
        i = i + 1;
    }
    assert(a@ =~= b@);
    true
}

/// True when `a` from index `i` on equals `b`.
pub fn bytes_eq_from(a: &Vec<u8>, i: usize, b: &Vec<u8>) -> (r: bool)
    requires
        i <= a@.len(),
    ensures
        r == (a@.skip(i as int) == b@),
{
    if a.len() - i != b.len() {
        assert(a@.skip(i as int).len() != b@.len());
        return false;
    }
    let mut k: usize = i;
    while k < a.len()
        invariant
            i <= k <= a@.len(),
            a@.len() - i == b@.len(),
            forall|m: int| i <= m < k ==> a@[m] == b@[m - i],
        decreases a@.len() - k,
    {
        if a[k] != b[k - i] {
            assert(a@.skip(i as int)[k - i] != b@[k - i]);
            return false;
        }
        k = k + 1;
    }
    assert(a@.skip(i as int) =~= b@);
    true
}

/// Copies a byte vector.
pub fn clone_bytes(a: &Vec<u8>) -> (r: Vec<u8>)
    ensures
        r@ == a@,
{
    let mut v: Vec<u8> = Vec::new();
    let mut i: usize = 0;
    while i < a.len()
        invariant
            i <= a@.len(),
            v@ =~= a@.subrange(0, i as int),
        decreases a@.len() - i,
    {
        v.push(a[i]);
        i = i + 1;
    }
    assert(v@ =~= a@);
    v
}

/// Splits `b` on dots into its parts, a trailing dot dropped.
fn split_text_labels(b: &Vec<u8>) -> (r: Vec<Vec<u8>>)
    ensures
        r.deep_view() == text_labels(b@),
{
    let mut parts = split_dots_exec(b);
    if b.len() > 0 && b[b.len() - 1] == DOT {
        proof {
            lemma_split_on_dots_len(b@);
        }
        assert(parts.deep_view().len() >= 1);
        let n = parts.len();
        let _ = parts.remove(n - 1);
        assert(parts.deep_view() =~= split_on_dots(b@).drop_last());
        parts
    } else {
        parts
    }
}

/// Splits `b` on dots, from the right so each step matches one unfolding
/// of `split_on_dots`.
pub fn split_dots_exec(b: &Vec<u8>) -> (r: Vec<Vec<u8>>)
    ensures
        r.deep_view() == split_on_dots(b@),
{
    let mut acc: Vec<Vec<u8>> = Vec::new();
    acc.push(Vec::new());
    assert(acc.deep_view() =~~= split_on_dots(b@.skip(b@.len() as int)));
    let mut i: usize = b.len();
    while i > 0
        invariant
            i <= b@.len(),
            acc.deep_view() == split_on_dots(b@.skip(i as int)),
            acc@.len() >= 1,
        decreases i,
    {
        let ghost pre = acc.deep_view();
        i = i - 1;
        let c = b[i];
        let ghost tail = b@.skip(i + 1);
        assert(b@.skip(i as int)[0] == b@[i as int]);
        assert(b@.skip(i as int).skip(1) =~= tail);
        if c == DOT {
            let mut fresh: Vec<u8> = Vec::new();
            acc.insert(0, fresh);
            assert(acc.deep_view() =~~= seq![Seq::<u8>::empty()].add(pre));
            assert(acc.deep_view() =~~= split_on_dots(b@.skip(i as int)));
        } else {
            let mut first = acc.remove(0);
            first.insert(0, c);
            acc.insert(0, first);
            proof {
                lemma_split_on_dots_len(tail);
            }
            assert(acc.deep_view() =~~= seq![seq![b@[i as int]].add(pre[0])].add(pre.skip(1)));
            assert(acc.deep_view() =~~= split_on_dots(b@.skip(i as int)));
        }
    }
    assert(b@.skip(0) =~= b@);
    acc
}

/// Encodes text labels into wire form (lowercased, length-prefixed);
/// nothing when a label is empty or over 63 octets.
fn encode_labels(labs: &Vec<Vec<u8>>) -> (r: Option<Vec<u8>>)
    ensures
        match r {
            Some(w) => labels_ok(labs.deep_view()) && w@ == wire_of_labels(labs.deep_view()),
            None => !labels_ok(labs.deep_view()),
        },
{
    assert(labs.deep_view().len() == labs@.len());
    if labs.len() == 0 {
        return None;
    }
    let mut w: Vec<u8> = Vec::new();
    let mut i: usize = 0;
    while i < labs.len()
        invariant
            i <= labs@.len(),
            labs@.len() >= 1,
            labs.deep_view().len() == labs@.len(),
            forall|j: int| 0 <= j < i ==> 1 <= #[trigger] labs.deep_view()[j].len() <= 63,
            w@ =~= wire_of_labels(labs.deep_view().take(i as int)),
        decreases labs@.len() - i,
    {
        let lab = &labs[i];
        assert(labs.deep_view()[i as int] =~= lab@);
        if lab.len() < 1 || lab.len() > 63 {
            assert(!(1 <= labs.deep_view()[i as int].len() <= 63));
            return None;
        }
        let ghost wpre = w@;
        w.push(lab.len() as u8);
        let mut j: usize = 0;
        while j < lab.len()
            invariant
                j <= lab@.len(),
                lab@.len() <= 63,
                w@ =~= wpre.add(seq![lab@.len() as u8]).add(lower_seq(lab@).take(j as int)),
            decreases lab@.len() - j,
        {
            w.push(ascii_lower(lab[j]));
            assert(lower_seq(lab@).take(j + 1) =~= lower_seq(lab@).take(j as int).push(
                spec_ascii_lower(lab@[j as int])));
            j = j + 1;
        }
        assert(lower_seq(lab@).take(lab@.len() as int) =~= lower_seq(lab@));
        proof {
            lemma_wire_of_labels_snoc(labs.deep_view(), i as int);
        }
        assert(w@ =~= wire_of_labels(labs.deep_view().take(i + 1)));
        i = i + 1;
    }
    assert(labs.deep_view().take(labs@.len() as int) =~= labs.deep_view());
    assert(labels_ok(labs.deep_view()));
    Some(w)
}

/// `wire_of_labels` distributes over concatenation of label sequences.
pub proof fn lemma_wire_of_labels_concat(a: Seq<Seq<u8>>, b: Seq<Seq<u8>>)
    ensures
        wire_of_labels(a.add(b)) == wire_of_labels(a).add(wire_of_labels(b)),
    decreases a.len(),
{
    if a.len() == 0 {
        assert(a.add(b) =~= b);
        assert(wire_of_labels(a).add(wire_of_labels(b)) =~= wire_of_labels(b));
    } else {
        lemma_wire_of_labels_concat(a.skip(1), b);
        assert(a.add(b)[0] == a[0]);
        assert(a.add(b).skip(1) =~= a.skip(1).add(b));
        assert(wire_of_labels(a.add(b)) =~= wire_of_labels(a).add(wire_of_labels(b)));
    }
}

/// Encoding `take(i+1)` labels is encoding `take(i)` then the label at `i`.
proof fn lemma_wire_of_labels_snoc(labs: Seq<Seq<u8>>, i: int)
    requires
        0 <= i < labs.len(),
    ensures
        wire_of_labels(labs.take(i + 1)) == wire_of_labels(labs.take(i)).add(
            seq![labs[i].len() as u8]).add(lower_seq(labs[i])),
{
    assert(labs.take(i + 1) =~= labs.take(i).add(seq![labs[i]]));
    lemma_wire_of_labels_concat(labs.take(i), seq![labs[i]]);
    assert(seq![labs[i]].skip(1) =~= Seq::<Seq<u8>>::empty());
    assert(wire_of_labels(Seq::<Seq<u8>>::empty()) =~= Seq::<u8>::empty());
    assert(wire_of_labels(seq![labs[i]]) =~= seq![labs[i].len() as u8].add(
        lower_seq(labs[i])));
    assert(wire_of_labels(labs.take(i + 1)) =~= wire_of_labels(labs.take(i)).add(
        seq![labs[i].len() as u8]).add(lower_seq(labs[i])));
}

/// The wire form of valid labels is lowercase, and closing it with a root
/// octet or a well-formed name yields a well-formed name.
proof fn lemma_wire_of_labels_wf(labs: Seq<Seq<u8>>)
    requires
        labels_ok(labs) || labs.len() == 0,
    ensures
        all_lower(wire_of_labels(labs)),
    decreases labs.len(),
{
    if labs.len() == 0 {
    } else {
        let head = seq![labs[0].len() as u8].add(lower_seq(labs[0]));
        let tail = labs.skip(1);
        assert(forall|i: int| 0 <= i < tail.len() ==> tail[i] == labs[i + 1]);
        if tail.len() > 0 {
            assert(labels_ok(tail));
        }
        lemma_wire_of_labels_wf(tail);
        assert forall|i: int| 0 <= i < wire_of_labels(labs).len() implies !(UPPER_A
            <= #[trigger] wire_of_labels(labs)[i] <= UPPER_Z) by {
            if i < head.len() {
                if i == 0 {
                    assert(head[0] == labs[0].len() as u8);
                    assert(labs[0].len() <= 63);
                } else {
                    assert(head[i] == spec_ascii_lower(labs[0][i - 1]));
                }
            } else {
                assert(wire_of_labels(labs)[i] == wire_of_labels(tail)[i - head.len()]);
            }
        }
    }
}

proof fn lemma_valid_wire_push_root(w: Seq<u8>)
    requires
        exists|labs: Seq<Seq<u8>>| labels_ok(labs) && w == wire_of_labels(labs),
    ensures
        valid_wire_name(w.push(0)),
{
    let labs = choose|labs: Seq<Seq<u8>>| labels_ok(labs) && w == wire_of_labels(labs);
    assert(w.push(0) =~= w.add(seq![0u8]));
    lemma_valid_wire_labels_add(labs, seq![0u8]);
}

proof fn lemma_valid_wire_append(w: Seq<u8>, o: Seq<u8>)
    requires
        exists|labs: Seq<Seq<u8>>| labels_ok(labs) && w == wire_of_labels(labs),
        valid_wire_name(o),
    ensures
        valid_wire_name(w.add(o)),
{
    let labs = choose|labs: Seq<Seq<u8>>| labels_ok(labs) && w == wire_of_labels(labs);
    lemma_valid_wire_labels_add(labs, o);
}

/// Valid labels followed by a valid wire tail form a valid wire name.
proof fn lemma_valid_wire_labels_add(labs: Seq<Seq<u8>>, o: Seq<u8>)
    requires
        labs.len() == 0 || labels_ok(labs),
        valid_wire_name(o),
    ensures
        valid_wire_name(wire_of_labels(labs).add(o)),
    decreases labs.len(),
{
    if labs.len() == 0 {
        assert(wire_of_labels(labs).add(o) =~= o);
    } else {
        let tail = labs.skip(1);
        assert(forall|i: int| 0 <= i < tail.len() ==> tail[i] == labs[i + 1]);
        if tail.len() > 0 {
            assert(labels_ok(tail));
        }
        lemma_valid_wire_labels_add(tail, o);
        let whole = wire_of_labels(labs).add(o);
        let sub = wire_of_labels(tail).add(o);
        assert(whole[0] == labs[0].len() as u8);
        assert(lower_seq(labs[0]).len() == labs[0].len());
        assert(whole.skip(whole[0] + 1) =~= sub);
    }
}

} // verus!

verus! {

/// Strict lexicographic order on label bytes (labels are already
/// lowercased, so this is the case-insensitive octet order of RFC 4034).
pub open spec fn bytes_lt(a: Seq<u8>, b: Seq<u8>) -> bool
    decreases a.len() + b.len(),
{
    if b.len() == 0 {
        false
    } else if a.len() == 0 {
        true
    } else if a[0] == b[0] {
        bytes_lt(a.skip(1), b.skip(1))
    } else {
        a[0] < b[0]
    }
}

/// Strict canonical order on label sequences: compared from the rightmost
/// label; a proper suffix sorts first.
pub open spec fn labels_lt_rev(x: Seq<Seq<u8>>, y: Seq<Seq<u8>>) -> bool
    decreases x.len() + y.len(),
{
    if y.len() == 0 {
        false
    } else if x.len() == 0 {
        true
    } else if x.last() == y.last() {
        labels_lt_rev(x.drop_last(), y.drop_last())
    } else {
        bytes_lt(x.last(), y.last())
    }
}

/// The canonical DNS ordering of RFC 4034 section 6.1 on wire-form names.
pub open spec fn spec_name_lt(a: Seq<u8>, b: Seq<u8>) -> bool {
    labels_lt_rev(labels_of_wire(a), labels_of_wire(b))
}

/// Copies `v[from..to]`.
pub fn sub_bytes(v: &Vec<u8>, from: usize, to: usize) -> (r: Vec<u8>)
    requires
        from <= to <= v@.len(),
    ensures
        r@ == v@.subrange(from as int, to as int),
{
    let mut out: Vec<u8> = Vec::new();
    let mut i: usize = from;
    while i < to
        invariant
            from <= i <= to <= v@.len(),
            out@ =~= v@.subrange(from as int, i as int),
        decreases to - i,
    {
        out.push(v[i]);
        i = i + 1;
    }
    assert(out@ =~= v@.subrange(from as int, to as int));
    out
}

impl DnsName {
    /// The labels of the name, leftmost first.
    pub fn labels(&self) -> (r: Vec<Vec<u8>>)
        requires
            self.wf(),
        ensures
            r.deep_view() == labels_of_wire(self@),
    {
        let mut out: Vec<Vec<u8>> = Vec::new();
        let ghost mut done: Seq<Seq<u8>> = Seq::empty();
        let mut i: usize = 0;
        assert(self@.skip(0) =~= self@);
        assert(done.add(labels_of_wire(self@)) =~= labels_of_wire(self@));
        while self.bytes[i] != 0
            invariant
                self.wf(),
                i < self@.len(),
                valid_wire_name(self@.skip(i as int)),
                out@.len() == done.len(),
                forall|j: int| 0 <= j < done.len() ==> (#[trigger] out@[j])@ == done[j],
                labels_of_wire(self@) == done.add(labels_of_wire(self@.skip(i as int))),
            decreases self@.len() - i,
        {
            let ghost rem = self@.skip(i as int);
            assert(rem[0] == self@[i as int]);
            let len = self.bytes[i] as usize;
            let lab = sub_bytes(&self.bytes, i + 1, i + 1 + len);
            assert(lab@ =~= rem.subrange(1, rem[0] + 1));
            out.push(lab);
            proof {
                done = done.push(lab@);
                assert(rem.skip(rem[0] + 1) =~= self@.skip(i + len + 1));
                assert(labels_of_wire(rem) =~= seq![lab@].add(labels_of_wire(self@.skip(i + len
                    + 1))));
                assert(done.add(labels_of_wire(self@.skip(i + len + 1))) =~= done.drop_last().add(
                    labels_of_wire(rem)));
            }
            i = i + len + 1;
        }
        proof {
            assert(self@.skip(i as int)[0] == self@[i as int]);
            assert(labels_of_wire(self@.skip(i as int)) =~= Seq::<Seq<u8>>::empty());
            assert(labels_of_wire(self@) =~= done);
            assert forall|j: int| 0 <= j < out@.len() implies #[trigger] out.deep_view()[j]
                == done[j] by {
                assert(out@[j].deep_view() =~= out@[j]@);
            }
            assert(out.deep_view() =~= labels_of_wire(self@));
        }
        out
    }

    /// Strictly before `other` in canonical DNS order.
    pub fn canonical_lt(&self, other: &DnsName) -> (r: bool)
        requires
            self.wf(),
            other.wf(),
        ensures
            r == spec_name_lt(self@, other@),
    {
        let xl = self.labels();
        let yl = other.labels();
        let ghost xs = labels_of_wire(self@);
        let ghost ys = labels_of_wire(other@);
        let mut k: usize = 0;
        assert(xs.take(xs.len() as int) =~= xs);
        assert(ys.take(ys.len() as int) =~= ys);
        loop
            invariant
                xl.deep_view() == xs,
                yl.deep_view() == ys,
                xl@.len() == xs.len(),
                yl@.len() == ys.len(),
                k <= xs.len(),
                k <= ys.len(),
                spec_name_lt(self@, other@) == labels_lt_rev(xs.take(xs.len() - k), ys.take(
                    ys.len() - k)),
            decreases ys.len() - k,
        {
            let ghost xc = xs.take(xs.len() - k);
            let ghost yc = ys.take(ys.len() - k);
            if k == yl.len() {
                assert(yc.len() == 0);
                return false;
            }
            if k == xl.len() {
                assert(xc.len() == 0 && yc.len() > 0);
                return true;
            }
            let xi = xl.len() - 1 - k;
            let yi = yl.len() - 1 - k;
            assert(xl@[xi as int]@ == xs[xi as int] && xs[xi as int] == xc.last());
            assert(yl@[yi as int]@ == ys[yi as int] && ys[yi as int] == yc.last());
            if bytes_eq(&xl[xi], &yl[yi]) {
                assert(xc.drop_last() =~= xs.take(xs.len() - (k + 1)));
                assert(yc.drop_last() =~= ys.take(ys.len() - (k + 1)));
                k = k + 1;
            } else {
                return bytes_lt_exec(&xl[xi], &yl[yi]);
            }
        }
    }
}

/// Strict lexicographic comparison of byte strings.
pub fn bytes_lt_exec(a: &Vec<u8>, b: &Vec<u8>) -> (r: bool)
    ensures
        r == bytes_lt(a@, b@),
{
    let mut i: usize = 0;
    assert(a@.skip(0) =~= a@ && b@.skip(0) =~= b@);
    loop
        invariant
            i <= a@.len(),
            i <= b@.len(),
            bytes_lt(a@, b@) == bytes_lt(a@.skip(i as int), b@.skip(i as int)),
        decreases b@.len() - i,
    {
        if i == b.len() {
            return false;
        }
        if i == a.len() {
            return true;
        }
        assert(a@.skip(i as int)[0] == a@[i as int] && b@.skip(i as int)[0] == b@[i as int]);
        if a[i] == b[i] {
            assert(a@.skip(i as int).skip(1) =~= a@.skip(i + 1));
            assert(b@.skip(i as int).skip(1) =~= b@.skip(i + 1));
            i = i + 1;
        } else {
            return a[i] < b[i];
        }
    }
}

} // verus!
