//! The zone-file parser. A single preprocessing pass strips comments
//! outside quoted strings, joins parenthesized multi-line records into one
//! logical line and drops blank lines; each logical line is then
//! tokenized and parsed as a directive or a resource record, and the
//! records accumulate into a zone that must hold an SOA.

use vstd::prelude::*;
use crate::text::opt_plus;
use crate::rr::RrType;
use crate::name::DnsName;
use crate::rr::RData;
use crate::rr::RDataV;
use crate::rr::SoaFields;
use crate::rr::SoaV;
use crate::rr::RrsigData;
use crate::rr::RrsigV;
use crate::rr::Record;
use crate::rr::RecordV;
use crate::zone::Zone;
use crate::zone::ZoneV;

verus! {

use vstd::string::StringSliceAdditionalSpecFns;

/// Relies on str::chars: the characters of the string, in order.
#[verifier::external_body]
fn str_chars(s: &str) -> (r: Vec<char>)
    ensures
        r@ == s@,
{
    s.chars().collect()
}

/// Relies on String's FromIterator<char>: collecting characters yields
/// the string of exactly those characters.
#[verifier::external_body]
fn string_of_chars(cs: &Vec<char>) -> (r: String)
    ensures
        r@ == cs@,
{
    cs.iter().copied().collect()
}

/// ASCII whitespace among characters.
pub open spec fn is_ws_c(c: char) -> bool {
    c == ' ' || c == '\t' || c == '\n' || c == '\r' || c == '\u{b}' || c == '\u{c}'
}

fn is_ws_c_exec(c: char) -> (r: bool)
    ensures
        r == is_ws_c(c),
{
    c == ' ' || c == '\t' || c == '\n' || c == '\r' || c == '\u{b}' || c == '\u{c}'
}

/// The physical lines of the text, split at newlines; a trailing newline
/// opens no extra empty line.
pub open spec fn split_newlines(s: Seq<char>) -> Seq<Seq<char>>
    decreases s.len(),
{
    if s.len() == 0 {
        Seq::empty()
    } else if s[0] == '\n' {
        seq![Seq::<char>::empty()].add(split_newlines(s.skip(1)))
    } else {
        let rest = split_newlines(s.skip(1));
        if rest.len() == 0 {
            seq![seq![s[0]]]
        } else {
            seq![seq![s[0]].add(rest[0])].add(rest.skip(1))
        }
    }
}

/// A carriage return closing a line belongs to the line ending.
pub open spec fn strip_cr(l: Seq<char>) -> Seq<char> {
    if l.len() > 0 && l.last() == '\r' {
        l.drop_last()
    } else {
        l
    }
}

/// The physical lines, with their line endings removed.
pub open spec fn clean_lines(s: Seq<char>) -> Seq<Seq<char>> {
    Seq::new(split_newlines(s).len(), |i: int| strip_cr(split_newlines(s)[i]))
}

/// The position of the first occurrence of `c`.
pub open spec fn first_pos(s: Seq<char>, c: char) -> Option<int>
    decreases s.len(),
{
    if s.len() == 0 {
        None
    } else if s[0] == c {
        Some(0)
    } else {
        opt_plus(first_pos(s.skip(1), c), 1)
    }
}

/// How many double quotes the text holds.
pub open spec fn quote_count(s: Seq<char>) -> int
    decreases s.len(),
{
    if s.len() == 0 {
        0
    } else {
        quote_count(s.drop_last()) + if s.last() == '"' { 1int } else { 0int }
    }
}

/// The line up to its comment: cut at the first semicolon, unless an odd
/// number of quotes stands before it, which puts it inside a string.
pub open spec fn strip_comment(l: Seq<char>) -> Seq<char> {
    match first_pos(l, ';') {
        None => l,
        Some(i) => if quote_count(l.take(i)) % 2 == 1 {
            l
        } else {
            l.take(i)
        },
    }
}

/// The text without leading and trailing whitespace.
pub open spec fn trim_chars(s: Seq<char>) -> Seq<char>
    decreases s.len(),
{
    if s.len() > 0 && is_ws_c(s[0]) {
        trim_chars(s.skip(1))
    } else if s.len() > 0 && is_ws_c(s.last()) {
        trim_chars(s.drop_last())
    } else {
        s
    }
}

pub open spec fn contains_char(s: Seq<char>, c: char) -> bool {
    exists|i: int| 0 <= i < s.len() && s[i] == c
}

/// The text without any occurrence of `c`.
pub open spec fn remove_char(s: Seq<char>, c: char) -> Seq<char>
    decreases s.len(),
{
    if s.len() == 0 {
        Seq::empty()
    } else {
        remove_char(s.drop_last(), c).add(if s.last() == c {
            Seq::empty()
        } else {
            seq![s.last()]
        })
    }
}

/// The preprocessing fold over the physical lines: a line holding `(`
/// opens an accumulated logical line, one holding `)` closes and emits
/// it, other lines accumulate or pass through; what is still accumulated
/// at the end is emitted too.
pub open spec fn preprocess_from(ls: Seq<Seq<char>>, i: int, cur: Seq<char>, inp: bool) -> Seq<
    Seq<char>,
>
    decreases ls.len() - i,
{
    if i < 0 || i >= ls.len() {
        if cur.len() > 0 {
            seq![trim_chars(cur)]
        } else {
            Seq::empty()
        }
    } else {
        let t = trim_chars(strip_comment(ls[i]));
        if contains_char(t, '(') {
            preprocess_from(ls, i + 1, cur.add(trim_chars(remove_char(t, '('))).add(seq![' ']),
                true)
        } else if contains_char(t, ')') {
            seq![trim_chars(cur.add(trim_chars(remove_char(t, ')'))))].add(preprocess_from(ls, i
                + 1, Seq::empty(), false))
        } else if inp {
            preprocess_from(ls, i + 1, cur.add(t).add(seq![' ']), true)
        } else if t.len() > 0 {
            seq![t].add(preprocess_from(ls, i + 1, cur, false))
        } else {
            preprocess_from(ls, i + 1, cur, false)
        }
    }
}

/// The logical lines of a zone file: comments stripped, parenthesized
/// records joined, blank lines dropped.
pub open spec fn spec_preprocess(content: Seq<char>) -> Seq<Seq<char>> {
    preprocess_from(clean_lines(content), 0, Seq::empty(), false)
}

/// Splits text into physical lines, scanned from the right.
fn split_newlines_exec(b: &Vec<char>) -> (r: Vec<Vec<char>>)
    ensures
        r.deep_view() == split_newlines(b@),
{
    let mut acc: Vec<Vec<char>> = Vec::new();
    let ghost mut accv: Seq<Seq<char>> = Seq::empty();
    let mut i: usize = b.len();
    assert(b@.skip(b@.len() as int) =~= Seq::<char>::empty());
    while i > 0
        invariant
            i <= b@.len(),
            acc@.len() == accv.len(),
            forall|j: int| 0 <= j < accv.len() ==> (#[trigger] acc@[j])@ == accv[j],
            accv == split_newlines(b@.skip(i as int)),
        decreases i,
    {
        let ghost pre = accv;
        i = i - 1;
        let c = b[i];
        assert(b@.skip(i as int)[0] == b@[i as int]);
        assert(b@.skip(i as int).skip(1) =~= b@.skip(i + 1));
        if c == '\n' {
            let fresh: Vec<char> = Vec::new();
            acc.insert(0, fresh);
            proof {
                accv = seq![Seq::<char>::empty()].add(pre);
                assert(accv =~= split_newlines(b@.skip(i as int)));
                assert(forall|j: int| 1 <= j < accv.len() ==> acc@[j]@ == accv[j]);
            }
        } else if acc.len() == 0 {
            let mut fresh: Vec<char> = Vec::new();
            fresh.push(c);
            acc.insert(0, fresh);
            proof {
                accv = seq![seq![b@[i as int]]];
                assert(accv =~= split_newlines(b@.skip(i as int)));
            }
        } else {
            let mut first = acc.remove(0);
            first.insert(0, c);
            acc.insert(0, first);
            proof {
                accv = seq![seq![b@[i as int]].add(pre[0])].add(pre.skip(1));
                assert(accv =~= split_newlines(b@.skip(i as int)));
                assert(acc@[0]@ =~= accv[0]);
                assert(forall|j: int| 1 <= j < accv.len() ==> acc@[j]@ == accv[j]);
            }
        }
    }
    assert(b@.skip(0) =~= b@);
    proof {
        assert forall|j: int| 0 <= j < acc@.len() implies #[trigger] acc.deep_view()[j]
            == split_newlines(b@)[j] by {
            assert(acc@[j].deep_view() =~= acc@[j]@);
        }
        assert(acc.deep_view() =~= split_newlines(b@));
    }
    acc
}

/// Copies `v[from..to]` of a character vector.
fn sub_chars(v: &Vec<char>, from: usize, to: usize) -> (r: Vec<char>)
    requires
        from <= to <= v@.len(),
    ensures
        r@ == v@.subrange(from as int, to as int),
{
    let mut out: Vec<char> = Vec::new();
    let mut i: usize = from;
    while i < to
        invariant
            from <= i <= to <= v@.len(),
            out@ =~= v@.subrange(from as int, i as int),
        decreases to - i,
    {
        out.push(v[i]);
        i = i + 1;
    }
    assert(out@ =~= v@.subrange(from as int, to as int));
    out
}

/// Trims ASCII whitespace from both ends.
fn trim_chars_exec(s: &Vec<char>) -> (r: Vec<char>)
    ensures
        r@ == trim_chars(s@),
{
    let mut lo: usize = 0;
    let mut hi: usize = s.len();
    assert(s@.subrange(0, s@.len() as int) =~= s@);
    loop
        invariant
            0 <= lo <= hi <= s@.len(),
            trim_chars(s@) == trim_chars(s@.subrange(lo as int, hi as int)),
        decreases hi - lo,
    {
        let ghost cur = s@.subrange(lo as int, hi as int);
        if lo < hi && is_ws_c_exec(s[lo]) {
            assert(cur[0] == s@[lo as int]);
            assert(cur.skip(1) =~= s@.subrange(lo + 1, hi as int));
            lo = lo + 1;
        } else if lo < hi && is_ws_c_exec(s[hi - 1]) {
            assert(cur.last() == s@[hi - 1]);
            assert(cur.drop_last() =~= s@.subrange(lo as int, hi - 1));
            hi = hi - 1;
        } else {
            proof {
                if cur.len() > 0 {
                    assert(cur[0] == s@[lo as int]);
                    assert(cur.last() == s@[hi - 1]);
                }
                assert(trim_chars(cur) == cur);
            }
            return sub_chars(s, lo, hi);
        }
    }
}

/// The position of the first occurrence of `c`, if any.
fn find_char(l: &Vec<char>, c: char) -> (r: Option<usize>)
    ensures
        match r {
            Some(p) => first_pos(l@, c) == Some(p as int) && p < l@.len(),
            None => first_pos(l@, c) is None,
        },
{
    let mut i: usize = 0;
    assert(l@.skip(0) =~= l@);
    loop
        invariant
            i <= l@.len(),
            first_pos(l@, c) == opt_plus(first_pos(l@.skip(i as int), c), i as int),
        decreases l@.len() - i,
    {
        if i == l.len() {
            assert(l@.skip(i as int).len() == 0);
            return None;
        }
        assert(l@.skip(i as int)[0] == l@[i as int]);
        if l[i] == c {
            return Some(i);
        }
        assert(l@.skip(i as int).skip(1) =~= l@.skip(i + 1));
        i = i + 1;
    }
}

/// Strips the comment: cut at the first semicolon outside a quoted
/// string.
fn strip_comment_exec(l: &Vec<char>) -> (r: Vec<char>)
    ensures
        r@ == strip_comment(l@),
{
    match find_char(l, ';') {
        None => sub_chars(l, 0, l.len()),
        Some(p) => {
            let mut quotes: usize = 0;
            let mut k: usize = 0;
            assert(l@.take(p as int).take(0) =~= Seq::<char>::empty());
            while k < p
                invariant
                    k <= p <= l@.len(),
                    quotes == quote_count(l@.take(p as int).take(k as int)),
                    quotes <= k,
                decreases p - k,
            {
                proof {
                    assert(l@.take(p as int).take(k + 1).drop_last() =~= l@.take(
                        p as int).take(k as int));
                    assert(l@.take(p as int).take(k + 1).last() == l@[k as int]);
                }
                if l[k] == '"' {
                    quotes = quotes + 1;
                }
                k = k + 1;
            }
            assert(l@.take(p as int).take(p as int) =~= l@.take(p as int));
            if quotes % 2 == 1 {
                sub_chars(l, 0, l.len())
            } else {
                let r = sub_chars(l, 0, p);
                assert(r@ =~= l@.take(p as int));
                r
            }
        },
    }
}

fn contains_char_exec(s: &Vec<char>, c: char) -> (r: bool)
    ensures
        r == contains_char(s@, c),
{
    let mut i: usize = 0;
    while i < s.len()
        invariant
            i <= s@.len(),
            forall|j: int| 0 <= j < i ==> s@[j] != c,
        decreases s@.len() - i,
    {
        if s[i] == c {
            return true;
        }
        i = i + 1;
    }
    false
}

/// The text without any occurrence of `c`.
fn remove_char_exec(s: &Vec<char>, c: char) -> (r: Vec<char>)
    ensures
        r@ == remove_char(s@, c),
{
    let mut out: Vec<char> = Vec::new();
    let mut i: usize = 0;
    assert(s@.take(0) =~= Seq::<char>::empty());
    while i < s.len()
        invariant
            i <= s@.len(),
            out@ == remove_char(s@.take(i as int), c),
        decreases s@.len() - i,
    {
        proof {
            assert(s@.take(i + 1).drop_last() =~= s@.take(i as int));
            assert(s@.take(i + 1).last() == s@[i as int]);
        }
        if s[i] != c {
            out.push(s[i]);
            assert(out@ =~= remove_char(s@.take(i + 1), c));
        } else {
            assert(out@ =~= remove_char(s@.take(i + 1), c));
        }
        i = i + 1;
    }
    assert(s@.take(s@.len() as int) =~= s@);
    out
}

/// Appends `tail` and one space to `cur`.
fn push_with_space(cur: &mut Vec<char>, tail: &Vec<char>)
    ensures
        final(cur)@ == old(cur)@.add(tail@).add(seq![' ']),
{
    let mut i: usize = 0;
    while i < tail.len()
        invariant
            i <= tail@.len(),
            cur@ =~= old(cur)@.add(tail@.take(i as int)),
        decreases tail@.len() - i,
    {
        cur.push(tail[i]);
        i = i + 1;
    }
    assert(tail@.take(tail@.len() as int) =~= tail@);
    cur.push(' ');
    assert(cur@ =~= old(cur)@.add(tail@).add(seq![' ']));
}

/// Appends `tail` to `cur`.
fn push_chars(cur: &mut Vec<char>, tail: &Vec<char>)
    ensures
        final(cur)@ == old(cur)@.add(tail@),
{
    let mut i: usize = 0;
    while i < tail.len()
        invariant
            i <= tail@.len(),
            cur@ =~= old(cur)@.add(tail@.take(i as int)),
        decreases tail@.len() - i,
    {
        cur.push(tail[i]);
        i = i + 1;
    }
    assert(tail@.take(tail@.len() as int) =~= tail@);
    assert(cur@ =~= old(cur)@.add(tail@));
}

/// Preprocesses zone-file text into logical lines: inline comments
/// outside quoted strings are stripped, records spread over parenthesized
/// physical lines are joined into one line, and blank or comment-only
/// lines are dropped.
pub fn preprocess_zone_content(content: &str) -> (r: Vec<String>)
    ensures
        r@.len() == spec_preprocess(content@).len(),
        forall|i: int| 0 <= i < r@.len() ==> (#[trigger] r@[i])@ == spec_preprocess(
            content@)[i],
{
    let cs = str_chars(content);
    let raw = split_newlines_exec(&cs);
    let ghost ls = clean_lines(content@);
    proof {
        assert(raw.deep_view().len() == raw@.len());
        assert(ls.len() == raw@.len());
    }
    let mut lines: Vec<Vec<char>> = Vec::new();
    let mut li: usize = 0;
    while li < raw.len()
        invariant
            li <= raw@.len(),
            ls == clean_lines(content@),
            raw.deep_view() == split_newlines(content@),
            lines@.len() == li,
            forall|j: int| 0 <= j < li ==> (#[trigger] lines@[j])@ == ls[j],
            ls.len() == raw@.len(),
        decreases raw@.len() - li,
    {
        let line = &raw[li];
        assert(line@ == raw.deep_view()[li as int]);
        let stripped = if line.len() > 0 && line[line.len() - 1] == '\r' {
            sub_chars(line, 0, line.len() - 1)
        } else {
            sub_chars(line, 0, line.len())
        };
        proof {
            assert(stripped@ =~= strip_cr(line@));
            assert(ls[li as int] == strip_cr(split_newlines(content@)[li as int]));
            assert(line@ == split_newlines(content@)[li as int]);
        }
        lines.push(stripped);
        li = li + 1;
    }

    let mut result: Vec<String> = Vec::new();
    let ghost mut done: Seq<Seq<char>> = Seq::empty();
    let mut cur: Vec<char> = Vec::new();
    let mut in_parens = false;
    let mut i: usize = 0;
    proof {
        assert(cur@ =~= Seq::<char>::empty());
        assert(done.add(preprocess_from(ls, 0, cur@, false)) =~= preprocess_from(ls, 0,
            Seq::empty(), false));
    }
    while i < lines.len()
        invariant
            i <= lines@.len(),
            ls == clean_lines(content@),
            lines@.len() == ls.len(),
            forall|j: int| 0 <= j < ls.len() ==> (#[trigger] lines@[j])@ == ls[j],
            result@.len() == done.len(),
            forall|j: int| 0 <= j < done.len() ==> (#[trigger] result@[j])@ == done[j],
            spec_preprocess(content@) == done.add(preprocess_from(ls, i as int, cur@,
                in_parens)),
        decreases lines@.len() - i,
    {
        let ghost done_pre = done;
        let ghost cur_pre = cur@;
        let ghost inp_pre = in_parens;
        let line = &lines[i];
        assert(line@ == ls[i as int]);
        let nocomment = strip_comment_exec(line);
        let t = trim_chars_exec(&nocomment);
        assert(t@ == trim_chars(strip_comment(ls[i as int])));
        if contains_char_exec(&t, '(') {
            let cleaned = remove_char_exec(&t, '(');
            let trimmed = trim_chars_exec(&cleaned);
            push_with_space(&mut cur, &trimmed);
            in_parens = true;
            proof {
                assert(preprocess_from(ls, i as int, cur_pre, inp_pre) == preprocess_from(ls, i
                    + 1, cur@, true));
            }
        } else if contains_char_exec(&t, ')') {
            let cleaned = remove_char_exec(&t, ')');
            let trimmed = trim_chars_exec(&cleaned);
            push_chars(&mut cur, &trimmed);
            let emitted = trim_chars_exec(&cur);
            result.push(string_of_chars(&emitted));
            cur = Vec::new();
            in_parens = false;
            proof {
                done = done_pre.push(emitted@);
                assert(cur@ =~= Seq::<char>::empty());
                assert(preprocess_from(ls, i as int, cur_pre, inp_pre) =~= seq![
                    emitted@].add(preprocess_from(ls, i + 1, Seq::empty(), false)));
                assert(done_pre.add(preprocess_from(ls, i as int, cur_pre, inp_pre))
                    =~= done.add(preprocess_from(ls, i + 1, cur@, false)));
            }
        } else if in_parens {
            push_with_space(&mut cur, &t);
            proof {
                assert(preprocess_from(ls, i as int, cur_pre, inp_pre) == preprocess_from(ls, i
                    + 1, cur@, true));
            }
        } else if t.len() > 0 {
            result.push(string_of_chars(&t));
            proof {
                done = done_pre.push(t@);
                assert(preprocess_from(ls, i as int, cur_pre, inp_pre) =~= seq![t@].add(
                    preprocess_from(ls, i + 1, cur_pre, false)));
                assert(done_pre.add(preprocess_from(ls, i as int, cur_pre, inp_pre))
                    =~= done.add(preprocess_from(ls, i + 1, cur@, false)));
            }
        } else {
            proof {
                assert(preprocess_from(ls, i as int, cur_pre, inp_pre) == preprocess_from(ls, i
                    + 1, cur@, in_parens));
            }
        }
        i = i + 1;
    }
    proof {
        assert(preprocess_from(ls, ls.len() as int, cur@, in_parens) == (if cur@.len() > 0 {
            seq![trim_chars(cur@)]
        } else {
            Seq::<Seq<char>>::empty()
        }));
    }
    if cur.len() > 0 {
        let emitted = trim_chars_exec(&cur);
        result.push(string_of_chars(&emitted));
        proof {
            done = done.push(emitted@);
            assert(spec_preprocess(content@) =~= done);
        }
    } else {
        assert(spec_preprocess(content@) =~= done);
    }
    result
}

/// Why a record line is rejected.
#[derive(Clone, Copy, PartialEq, Eq, Structural, Debug)]
pub enum RecordParseError {
    BadName,
    BadField,
}

/// Why a zone file is rejected.
#[derive(Clone, Copy, PartialEq, Eq, Structural, Debug)]
pub enum ZoneParseError {
    InvalidOrigin,
    BadDirective { line: usize },
    BadRecord { line: usize },
    MissingSoa,
}

/// The RR type named by a textual mnemonic.
pub open spec fn spec_rtype_from_token(t: Seq<u8>) -> Option<RrType> {
    if t == seq![65u8] {
        Some(RrType::A)
    } else if t == seq![78u8, 83u8] {
        Some(RrType::Ns)
    } else if t == seq![77u8, 88u8] {
        Some(RrType::Mx)
    } else if t == seq![68u8, 83u8] {
        Some(RrType::Ds)
    } else if t == seq![83u8, 79u8, 65u8] {
        Some(RrType::Soa)
    } else if t == seq![80u8, 84u8, 82u8] {
        Some(RrType::Ptr)
    } else if t == seq![84u8, 88u8, 84u8] {
        Some(RrType::Txt)
    } else if t == seq![83u8, 82u8, 86u8] {
        Some(RrType::Srv)
    } else if t == seq![67u8, 65u8, 65u8] {
        Some(RrType::Caa)
    } else if t == seq![65u8, 65u8, 65u8, 65u8] {
        Some(RrType::Aaaa)
    } else if t == seq![78u8, 83u8, 69u8, 67u8] {
        Some(RrType::Nsec)
    } else if t == seq![67u8, 78u8, 65u8, 77u8, 69u8] {
        Some(RrType::Cname)
    } else if t == seq![82u8, 82u8, 83u8, 73u8, 71u8] {
        Some(RrType::Rrsig)
    } else if t == seq![68u8, 78u8, 83u8, 75u8, 69u8, 89u8] {
        Some(RrType::Dnskey)
    } else {
        None
    }
}

/// Reads a textual RR-type mnemonic.
pub fn rtype_from_token(t: &Vec<u8>) -> (r: Option<RrType>)
    ensures
        r == spec_rtype_from_token(t@),
        match r {
            Some(rt) => rt.spec_code() < 512,
            None => true,
        },
{
    let n = t.len();
    if n == 1 && t[0] == 65 {
        assert(t@ =~= seq![65u8]);
        Some(RrType::A)
    } else if n == 2 && t[0] == 78 && t[1] == 83 {
        assert(t@ =~= seq![78u8, 83u8]);
        Some(RrType::Ns)
    } else if n == 2 && t[0] == 77 && t[1] == 88 {
        assert(t@ =~= seq![77u8, 88u8]);
        Some(RrType::Mx)
    } else if n == 2 && t[0] == 68 && t[1] == 83 {
        assert(t@ =~= seq![68u8, 83u8]);
        Some(RrType::Ds)
    } else if n == 3 && t[0] == 83 && t[1] == 79 && t[2] == 65 {
        assert(t@ =~= seq![83u8, 79u8, 65u8]);
        Some(RrType::Soa)
    } else if n == 3 && t[0] == 80 && t[1] == 84 && t[2] == 82 {
        assert(t@ =~= seq![80u8, 84u8, 82u8]);
        Some(RrType::Ptr)
    } else if n == 3 && t[0] == 84 && t[1] == 88 && t[2] == 84 {
        assert(t@ =~= seq![84u8, 88u8, 84u8]);
        Some(RrType::Txt)
    } else if n == 3 && t[0] == 83 && t[1] == 82 && t[2] == 86 {
        assert(t@ =~= seq![83u8, 82u8, 86u8]);
        Some(RrType::Srv)
    } else if n == 3 && t[0] == 67 && t[1] == 65 && t[2] == 65 {
        assert(t@ =~= seq![67u8, 65u8, 65u8]);
        Some(RrType::Caa)
    } else if n == 4 && t[0] == 65 && t[1] == 65 && t[2] == 65 && t[3] == 65 {
        assert(t@ =~= seq![65u8, 65u8, 65u8, 65u8]);
        Some(RrType::Aaaa)
    } else if n == 4 && t[0] == 78 && t[1] == 83 && t[2] == 69 && t[3] == 67 {
        assert(t@ =~= seq![78u8, 83u8, 69u8, 67u8]);
        Some(RrType::Nsec)
    } else if n == 5 && t[0] == 67 && t[1] == 78 && t[2] == 65 && t[3] == 77 && t[4] == 69 {
        assert(t@ =~= seq![67u8, 78u8, 65u8, 77u8, 69u8]);
        Some(RrType::Cname)
    } else if n == 5 && t[0] == 82 && t[1] == 82 && t[2] == 83 && t[3] == 73 && t[4] == 71 {
        assert(t@ =~= seq![82u8, 82u8, 83u8, 73u8, 71u8]);
        Some(RrType::Rrsig)
    } else if n == 6 && t[0] == 68 && t[1] == 78 && t[2] == 83 && t[3] == 75 && t[4] == 69
        && t[5] == 89 {
        assert(t@ =~= seq![68u8, 78u8, 83u8, 75u8, 69u8, 89u8]);
        Some(RrType::Dnskey)
    } else {
        None
    }
}

/// The owner name of a record line: `@` is the current origin, anything
/// else is read against it.
pub open spec fn spec_owner_name(t: Seq<u8>, origin: Seq<u8>) -> Option<Seq<u8>> {
    if t == seq![64u8] {
        Some(origin)
    } else {
        crate::name::name_from_text_origin(t, origin)
    }
}

fn owner_name(t: &Vec<u8>, origin: &DnsName) -> (r: Option<DnsName>)
    requires
        origin.wf(),
    ensures
        match r {
            Some(n) => spec_owner_name(t@, origin@) == Some(n@) && n.wf(),
            None => spec_owner_name(t@, origin@) is None,
        },
{
    if t.len() == 1 && t[0] == 64 {
        assert(t@ =~= seq![64u8]);
        Some(origin.clone())
    } else {
        assert(t@ != seq![64u8]) by {
            if t@ == seq![64u8] {
                assert(t@.len() == 1 && t@[0] == 64);
            }
        }
        DnsName::from_text_bytes_origin(t, origin)
    }
}

/// The tokens from index `from` on.
fn sub_tokens(ts: &Vec<Vec<u8>>, from: usize) -> (r: Vec<Vec<u8>>)
    requires
        from <= ts@.len(),
    ensures
        r.deep_view() == ts.deep_view().skip(from as int),
{
    let mut out: Vec<Vec<u8>> = Vec::new();
    let mut i: usize = from;
    while i < ts.len()
        invariant
            from <= i <= ts@.len(),
            out@.len() == i - from,
            forall|j: int| 0 <= j < i - from ==> (#[trigger] out@[j])@ == ts@[from + j]@,
        decreases ts@.len() - i,
    {
        out.push(crate::name::clone_bytes(&ts[i]));
        i = i + 1;
    }
    proof {
        assert forall|j: int| 0 <= j < out@.len() implies #[trigger] out.deep_view()[j]
            == ts.deep_view().skip(from as int)[j] by {
            assert(out@[j].deep_view() =~= out@[j]@);
            assert(ts@[from + j].deep_view() =~= ts@[from + j]@);
        }
        assert(out.deep_view() =~= ts.deep_view().skip(from as int));
    }
    out
}

/// The known RR types among the tokens, in order: an NSEC type bitmap.
pub open spec fn known_types(toks: Seq<Seq<u8>>) -> Seq<RrType>
    decreases toks.len(),
{
    if toks.len() == 0 {
        Seq::empty()
    } else {
        known_types(toks.drop_last()).add(match spec_rtype_from_token(toks.last()) {
            Some(rt) => seq![rt],
            None => Seq::empty(),
        })
    }
}

fn known_types_exec(toks: &Vec<Vec<u8>>) -> (r: Vec<RrType>)
    ensures
        r@ == known_types(toks.deep_view()),
        forall|j: int| 0 <= j < r@.len() ==> (#[trigger] r@[j]).spec_code() < 512,
{
    let ghost tv = toks.deep_view();
    let mut out: Vec<RrType> = Vec::new();
    let mut i: usize = 0;
    assert(tv.take(0) =~= Seq::<Seq<u8>>::empty());
    while i < toks.len()
        invariant
            i <= toks@.len(),
            tv == toks.deep_view(),
            tv.len() == toks@.len(),
            out@ == known_types(tv.take(i as int)),
            forall|j: int| 0 <= j < out@.len() ==> (#[trigger] out@[j]).spec_code() < 512,
        decreases toks@.len() - i,
    {
        proof {
            assert(tv.take(i + 1).drop_last() =~= tv.take(i as int));
            assert(tv.take(i + 1).last() == tv[i as int]);
            assert(tv[i as int] =~= toks@[i as int]@);
        }
        match rtype_from_token(&toks[i]) {
            Some(rt) => {
                out.push(rt);
                assert(out@ =~= known_types(tv.take(i + 1)));
            },
            None => {
                assert(out@ =~= known_types(tv.take(i + 1)));
            },
        }
        i = i + 1;
    }
    assert(tv.take(tv.len() as int) =~= tv);
    out
}

/// What parsing the RDATA tokens of one record type yields: the typed
/// data, nothing when the line is too short for the type, the type is
/// unsupported, or a base64 or hex field does not decode (such records
/// are skipped), and an error when a fixed field does not parse.
pub open spec fn spec_parse_rdata(rt: Option<RrType>, rest: Seq<Seq<u8>>, origin: Seq<u8>)
    -> Result<Option<RDataV>, RecordParseError> {
    match rt {
        Some(RrType::A) => {
            if rest.len() < 1 {
                Ok(None)
            } else {
                match crate::text::spec_parse_ipv4(rest[0]) {
                    Some(a) => Ok(Some(RDataV::A(a))),
                    None => Err(RecordParseError::BadField),
                }
            }
        },
        Some(RrType::Aaaa) => {
            if rest.len() < 1 {
                Ok(None)
            } else {
                match crate::text::spec_parse_ipv6(rest[0]) {
                    Some(v) => Ok(Some(RDataV::Aaaa(v))),
                    None => Err(RecordParseError::BadField),
                }
            }
        },
        Some(RrType::Ns) => {
            if rest.len() < 1 {
                Ok(None)
            } else {
                match crate::name::name_from_text_origin(rest[0], origin) {
                    Some(n) => Ok(Some(RDataV::Ns(n))),
                    None => Err(RecordParseError::BadName),
                }
            }
        },
        Some(RrType::Cname) => {
            if rest.len() < 1 {
                Ok(None)
            } else {
                match crate::name::name_from_text_origin(rest[0], origin) {
                    Some(n) => Ok(Some(RDataV::Cname(n))),
                    None => Err(RecordParseError::BadName),
                }
            }
        },
        Some(RrType::Ptr) => {
            if rest.len() < 1 {
                Ok(None)
            } else {
                match crate::name::name_from_text_origin(rest[0], origin) {
                    Some(n) => Ok(Some(RDataV::Ptr(n))),
                    None => Err(RecordParseError::BadName),
                }
            }
        },
        Some(RrType::Soa) => {
            if rest.len() < 7 {
                Ok(None)
            } else {
                match (crate::name::name_from_text_origin(rest[0], origin),
                    crate::name::name_from_text_origin(rest[1], origin)) {
                    (Some(mname), Some(rname)) => {
                        match (crate::text::spec_parse_uint(rest[2], 0xffffffff),
                            crate::text::spec_parse_i32(rest[3]),
                            crate::text::spec_parse_i32(rest[4]),
                            crate::text::spec_parse_i32(rest[5]),
                            crate::text::spec_parse_uint(rest[6], 0xffffffff)) {
                            (Some(serial), Some(refresh), Some(retry), Some(expire),
                                Some(minimum)) => Ok(Some(RDataV::Soa(SoaV {
                                mname,
                                rname,
                                serial: serial as u32,
                                refresh,
                                retry,
                                expire,
                                minimum: minimum as u32,
                            }))),
                            _ => Err(RecordParseError::BadField),
                        }
                    },
                    _ => Err(RecordParseError::BadName),
                }
            }
        },
        Some(RrType::Mx) => {
            if rest.len() < 2 {
                Ok(None)
            } else {
                match crate::text::spec_parse_uint(rest[0], 0xffff) {
                    Some(pref) => match crate::name::name_from_text_origin(rest[1], origin) {
                        Some(ex) => Ok(Some(RDataV::Mx(pref as u16, ex))),
                        None => Err(RecordParseError::BadName),
                    },
                    None => Err(RecordParseError::BadField),
                }
            }
        },
        Some(RrType::Txt) => {
            if rest.len() < 1 {
                Ok(None)
            } else {
                let data = crate::text::spec_trim_quotes(crate::text::join_tokens(rest,
                    seq![32u8]));
                if data.len() > 255 {
                    Err(RecordParseError::BadField)
                } else {
                    Ok(Some(RDataV::Txt(seq![data])))
                }
            }
        },
        Some(RrType::Srv) => {
            if rest.len() < 4 {
                Ok(None)
            } else {
                match (crate::text::spec_parse_uint(rest[0], 0xffff),
                    crate::text::spec_parse_uint(rest[1], 0xffff),
                    crate::text::spec_parse_uint(rest[2], 0xffff)) {
                    (Some(pri), Some(w), Some(port)) => {
                        match crate::name::name_from_text_origin(rest[3], origin) {
                            Some(tgt) => Ok(Some(RDataV::Srv(pri as u16, w as u16,
                                port as u16, tgt))),
                            None => Err(RecordParseError::BadName),
                        }
                    },
                    _ => Err(RecordParseError::BadField),
                }
            }
        },
        Some(RrType::Caa) => {
            if rest.len() < 3 {
                Ok(None)
            } else {
                match crate::text::spec_parse_uint(rest[0], 0xff) {
                    Some(flags) => {
                        let tag = rest[1];
                        let value = crate::text::spec_trim_quotes(crate::text::join_tokens(
                            rest.skip(2), seq![32u8]));
                        if tag.len() < 1 || tag.len() > 255 || value.len() > 16384 {
                            Err(RecordParseError::BadField)
                        } else {
                            Ok(Some(RDataV::Caa(flags as u8, tag, value)))
                        }
                    },
                    None => Err(RecordParseError::BadField),
                }
            }
        },
        Some(RrType::Dnskey) => {
            if rest.len() < 4 {
                Ok(None)
            } else {
                match (crate::text::spec_parse_uint(rest[0], 0xffff),
                    crate::text::spec_parse_uint(rest[1], 0xff),
                    crate::text::spec_parse_uint(rest[2], 0xff)) {
                    (Some(flags), Some(protocol), Some(algorithm)) => {
                        match crate::text::b64_decoded(crate::text::join_tokens(rest.skip(3),
                            Seq::empty())) {
                            Some(key) => {
                                if key.len() > 16384 {
                                    Ok(None)
                                } else {
                                    Ok(Some(RDataV::Dnskey(flags as u16, protocol as u8,
                                        algorithm as u8, key)))
                                }
                            },
                            None => Ok(None),
                        }
                    },
                    _ => Err(RecordParseError::BadField),
                }
            }
        },
        Some(RrType::Rrsig) => {
            if rest.len() < 9 {
                Ok(None)
            } else {
                match spec_rtype_from_token(rest[0]) {
                    Some(tc) => {
                        match (crate::text::spec_parse_uint(rest[1], 0xff),
                            crate::text::spec_parse_uint(rest[2], 0xff),
                            crate::text::spec_parse_uint(rest[3], 0xffffffff),
                            crate::text::spec_parse_uint(rest[4], 0xffffffff),
                            crate::text::spec_parse_uint(rest[5], 0xffffffff),
                            crate::text::spec_parse_uint(rest[6], 0xffff)) {
                            (Some(alg), Some(labels), Some(ottl), Some(exp), Some(inc),
                                Some(kt)) => {
                                match crate::name::name_from_text_origin(rest[7], origin) {
                                    Some(signer) => {
                                        match crate::text::b64_decoded(
                                            crate::text::join_tokens(rest.skip(8),
                                                Seq::empty())) {
                                            Some(sig) => {
                                                if sig.len() > 16384 {
                                                    Ok(None)
                                                } else {
                                                    Ok(Some(RDataV::Rrsig(RrsigV {
                                                        type_covered: tc,
                                                        algorithm: alg as u8,
                                                        labels: labels as u8,
                                                        original_ttl: ottl as u32,
                                                        sig_expiration: exp as u32,
                                                        sig_inception: inc as u32,
                                                        key_tag: kt as u16,
                                                        signer,
                                                        signature: sig,
                                                    })))
                                                }
                                            },
                                            None => Ok(None),
                                        }
                                    },
                                    None => Err(RecordParseError::BadName),
                                }
                            },
                            _ => Err(RecordParseError::BadField),
                        }
                    },
                    None => Err(RecordParseError::BadField),
                }
            }
        },
        Some(RrType::Nsec) => {
            if rest.len() < 2 {
                Ok(None)
            } else {
                match crate::name::name_from_text_origin(rest[0], origin) {
                    Some(next) => {
                        let types = known_types(rest.skip(1));
                        if types.len() > 255 {
                            Err(RecordParseError::BadField)
                        } else {
                            Ok(Some(RDataV::Nsec(next, types)))
                        }
                    },
                    None => Err(RecordParseError::BadName),
                }
            }
        },
        Some(RrType::Ds) => {
            if rest.len() < 4 {
                Ok(None)
            } else {
                match (crate::text::spec_parse_uint(rest[0], 0xffff),
                    crate::text::spec_parse_uint(rest[1], 0xff),
                    crate::text::spec_parse_uint(rest[2], 0xff)) {
                    (Some(kt), Some(alg), Some(dt)) => {
                        match crate::text::spec_hex_decode(crate::text::join_tokens(
                            rest.skip(3), Seq::empty())) {
                            Some(digest) => {
                                if digest.len() > 16384 {
                                    Ok(None)
                                } else {
                                    Ok(Some(RDataV::Ds(kt as u16, alg as u8, dt as u8,
                                        digest)))
                                }
                            },
                            None => Ok(None),
                        }
                    },
                    _ => Err(RecordParseError::BadField),
                }
            }
        },
        _ => Ok(None),
    }
}

/// Parses the RDATA tokens of one record type.
#[verifier::rlimit(100)]
fn parse_rdata(rt: Option<RrType>, rest: &Vec<Vec<u8>>, origin: &DnsName) -> (r: Result<
    Option<RData>,
    RecordParseError,
>)
    requires
        origin.wf(),
    ensures
        ({
            let sp = spec_parse_rdata(rt, rest.deep_view(), origin@);
            match r {
                Ok(Some(rd)) => sp == Ok::<Option<RDataV>, RecordParseError>(Some(rd@))
                    && crate::rr::rdata_wf(rd@),
                Ok(None) => sp == Ok::<Option<RDataV>, RecordParseError>(None),
                Err(e) => sp == Err::<Option<RDataV>, RecordParseError>(e),
            }
        }),
{
    let ghost rv = rest.deep_view();
    proof {
        assert(rv.len() == rest@.len());
    }
    let rt_known = match rt {
        Some(t) => t,
        None => {
            return Ok(None);
        },
    };
    match rt_known {
        RrType::A => {
            if rest.len() < 1 {
                return Ok(None);
            }
            assert(rest@[0]@ == rv[0]);
            match crate::text::parse_ipv4(&rest[0]) {
                Some(a) => Ok(Some(RData::A(a))),
                None => Err(RecordParseError::BadField),
            }
        },
        RrType::Aaaa => {
            if rest.len() < 1 {
                return Ok(None);
            }
            assert(rest@[0]@ == rv[0]);
            match crate::text::parse_ipv6(&rest[0]) {
                Some(v) => {
                    assert(crate::text::spec_parse_ipv6(rv[0]) == Some(v@));
                    assert(v@.len() == 16) by {
                        assert(crate::text::spec_parse_ipv6(rv[0]).unwrap().len() == 16);
                    }
                    Ok(Some(RData::Aaaa(v)))
                },
                None => Err(RecordParseError::BadField),
            }
        },
        RrType::Ns => {
            if rest.len() < 1 {
                return Ok(None);
            }
            assert(rest@[0]@ == rv[0]);
            match DnsName::from_text_bytes_origin(&rest[0], origin) {
                Some(n) => Ok(Some(RData::Ns(n))),
                None => Err(RecordParseError::BadName),
            }
        },
        RrType::Cname => {
            if rest.len() < 1 {
                return Ok(None);
            }
            assert(rest@[0]@ == rv[0]);
            match DnsName::from_text_bytes_origin(&rest[0], origin) {
                Some(n) => Ok(Some(RData::Cname(n))),
                None => Err(RecordParseError::BadName),
            }
        },
        RrType::Ptr => {
            if rest.len() < 1 {
                return Ok(None);
            }
            assert(rest@[0]@ == rv[0]);
            match DnsName::from_text_bytes_origin(&rest[0], origin) {
                Some(n) => Ok(Some(RData::Ptr(n))),
                None => Err(RecordParseError::BadName),
            }
        },
        RrType::Soa => {
            if rest.len() < 7 {
                return Ok(None);
            }
            assert(forall|j: int| 0 <= j < 7 ==> rest@[j]@ == rv[j]);
            let mname = match DnsName::from_text_bytes_origin(&rest[0], origin) {
                Some(n) => n,
                None => {
                    return Err(RecordParseError::BadName);
                },
            };
            let rname = match DnsName::from_text_bytes_origin(&rest[1], origin) {
                Some(n) => n,
                None => {
                    return Err(RecordParseError::BadName);
                },
            };
            let serial = match crate::text::parse_uint(&rest[2], 0xffffffff) {
                Some(v) => v as u32,
                None => {
                    return Err(RecordParseError::BadField);
                },
            };
            let refresh = match crate::text::parse_i32(&rest[3]) {
                Some(v) => v,
                None => {
                    return Err(RecordParseError::BadField);
                },
            };
            let retry = match crate::text::parse_i32(&rest[4]) {
                Some(v) => v,
                None => {
                    return Err(RecordParseError::BadField);
                },
            };
            let expire = match crate::text::parse_i32(&rest[5]) {
                Some(v) => v,
                None => {
                    return Err(RecordParseError::BadField);
                },
            };
            let minimum = match crate::text::parse_uint(&rest[6], 0xffffffff) {
                Some(v) => v as u32,
                None => {
                    return Err(RecordParseError::BadField);
                },
            };
            Ok(Some(RData::Soa(SoaFields { mname, rname, serial, refresh, retry, expire,
                minimum })))
        },
        RrType::Mx => {
            if rest.len() < 2 {
                return Ok(None);
            }
            assert(forall|j: int| 0 <= j < 2 ==> rest@[j]@ == rv[j]);
            let pref = match crate::text::parse_uint(&rest[0], 0xffff) {
                Some(v) => v as u16,
                None => {
                    return Err(RecordParseError::BadField);
                },
            };
            match DnsName::from_text_bytes_origin(&rest[1], origin) {
                Some(ex) => Ok(Some(RData::Mx(pref, ex))),
                None => Err(RecordParseError::BadName),
            }
        },
        RrType::Txt => {
            if rest.len() < 1 {
                return Ok(None);
            }
            let mut sep: Vec<u8> = Vec::new();
            sep.push(32);
            assert(sep@ =~= seq![32u8]);
            let joined = crate::text::join_exec(rest, &sep);
            let data = crate::text::trim_quotes(&joined);
            if data.len() > 255 {
                return Err(RecordParseError::BadField);
            }
            let mut ss: Vec<Vec<u8>> = Vec::new();
            let ghost dv = data@;
            ss.push(data);
            proof {
                assert(ss.deep_view() =~~= seq![dv]);
            }
            Ok(Some(RData::Txt(ss)))
        },
        RrType::Srv => {
            if rest.len() < 4 {
                return Ok(None);
            }
            assert(forall|j: int| 0 <= j < 4 ==> rest@[j]@ == rv[j]);
            let pri = match crate::text::parse_uint(&rest[0], 0xffff) {
                Some(v) => v as u16,
                None => {
                    return Err(RecordParseError::BadField);
                },
            };
            let w = match crate::text::parse_uint(&rest[1], 0xffff) {
                Some(v) => v as u16,
                None => {
                    return Err(RecordParseError::BadField);
                },
            };
            let port = match crate::text::parse_uint(&rest[2], 0xffff) {
                Some(v) => v as u16,
                None => {
                    return Err(RecordParseError::BadField);
                },
            };
            match DnsName::from_text_bytes_origin(&rest[3], origin) {
                Some(tgt) => Ok(Some(RData::Srv(pri, w, port, tgt))),
                None => Err(RecordParseError::BadName),
            }
        },
        RrType::Caa => {
            if rest.len() < 3 {
                return Ok(None);
            }
            assert(forall|j: int| 0 <= j < 3 ==> rest@[j]@ == rv[j]);
            let flags = match crate::text::parse_uint(&rest[0], 0xff) {
                Some(v) => v as u8,
                None => {
                    return Err(RecordParseError::BadField);
                },
            };
            let tag = crate::name::clone_bytes(&rest[1]);
            let tail = sub_tokens(rest, 2);
            let mut sep: Vec<u8> = Vec::new();
            sep.push(32);
            assert(sep@ =~= seq![32u8]);
            let joined = crate::text::join_exec(&tail, &sep);
            let value = crate::text::trim_quotes(&joined);
            if tag.len() < 1 || tag.len() > 255 || value.len() > 16384 {
                return Err(RecordParseError::BadField);
            }
            Ok(Some(RData::Caa(flags, tag, value)))
        },
        RrType::Dnskey => {
            if rest.len() < 4 {
                return Ok(None);
            }
            assert(forall|j: int| 0 <= j < 4 ==> rest@[j]@ == rv[j]);
            let flags = match crate::text::parse_uint(&rest[0], 0xffff) {
                Some(v) => v as u16,
                None => {
                    return Err(RecordParseError::BadField);
                },
            };
            let protocol = match crate::text::parse_uint(&rest[1], 0xff) {
                Some(v) => v as u8,
                None => {
                    return Err(RecordParseError::BadField);
                },
            };
            let algorithm = match crate::text::parse_uint(&rest[2], 0xff) {
                Some(v) => v as u8,
                None => {
                    return Err(RecordParseError::BadField);
                },
            };
            let tail = sub_tokens(rest, 3);
            let sep: Vec<u8> = Vec::new();
            assert(sep@ =~= Seq::<u8>::empty());
            let joined = crate::text::join_exec(&tail, &sep);
            match crate::text::base64_decode(&joined) {
                Some(key) => {
                    if key.len() > 16384 {
                        Ok(None)
                    } else {
                        Ok(Some(RData::Dnskey(flags, protocol, algorithm, key)))
                    }
                },
                None => Ok(None),
            }
        },
        RrType::Rrsig => {
            if rest.len() < 9 {
                return Ok(None);
            }
            assert(forall|j: int| 0 <= j < 9 ==> rest@[j]@ == rv[j]);
            let tc = match rtype_from_token(&rest[0]) {
                Some(t) => t,
                None => {
                    return Err(RecordParseError::BadField);
                },
            };
            let alg = match crate::text::parse_uint(&rest[1], 0xff) {
                Some(v) => v as u8,
                None => {
                    return Err(RecordParseError::BadField);
                },
            };
            let labels = match crate::text::parse_uint(&rest[2], 0xff) {
                Some(v) => v as u8,
                None => {
                    return Err(RecordParseError::BadField);
                },
            };
            let ottl = match crate::text::parse_uint(&rest[3], 0xffffffff) {
                Some(v) => v as u32,
                None => {
                    return Err(RecordParseError::BadField);
                },
            };
            let exp = match crate::text::parse_uint(&rest[4], 0xffffffff) {
                Some(v) => v as u32,
                None => {
                    return Err(RecordParseError::BadField);
                },
            };
            let inc = match crate::text::parse_uint(&rest[5], 0xffffffff) {
                Some(v) => v as u32,
                None => {
                    return Err(RecordParseError::BadField);
                },
            };
            let kt = match crate::text::parse_uint(&rest[6], 0xffff) {
                Some(v) => v as u16,
                None => {
                    return Err(RecordParseError::BadField);
                },
            };
            let signer = match DnsName::from_text_bytes_origin(&rest[7], origin) {
                Some(n) => n,
                None => {
                    return Err(RecordParseError::BadName);
                },
            };
            let tail = sub_tokens(rest, 8);
            let sep: Vec<u8> = Vec::new();
            assert(sep@ =~= Seq::<u8>::empty());
            let joined = crate::text::join_exec(&tail, &sep);
            match crate::text::base64_decode(&joined) {
                Some(sig) => {
                    if sig.len() > 16384 {
                        Ok(None)
                    } else {
                        Ok(Some(RData::Rrsig(RrsigData {
                            type_covered: tc,
                            algorithm: alg,
                            labels,
                            original_ttl: ottl,
                            sig_expiration: exp,
                            sig_inception: inc,
                            key_tag: kt,
                            signer,
                            signature: sig,
                        })))
                    }
                },
                None => Ok(None),
            }
        },
        RrType::Nsec => {
            if rest.len() < 2 {
                return Ok(None);
            }
            assert(rest@[0]@ == rv[0]);
            let next = match DnsName::from_text_bytes_origin(&rest[0], origin) {
                Some(n) => n,
                None => {
                    return Err(RecordParseError::BadName);
                },
            };
            let tail = sub_tokens(rest, 1);
            let types = known_types_exec(&tail);
            if types.len() > 255 {
                return Err(RecordParseError::BadField);
            }
            Ok(Some(RData::Nsec(next, types)))
        },
        RrType::Ds => {
            if rest.len() < 4 {
                return Ok(None);
            }
            assert(forall|j: int| 0 <= j < 4 ==> rest@[j]@ == rv[j]);
            let kt = match crate::text::parse_uint(&rest[0], 0xffff) {
                Some(v) => v as u16,
                None => {
                    return Err(RecordParseError::BadField);
                },
            };
            let alg = match crate::text::parse_uint(&rest[1], 0xff) {
                Some(v) => v as u8,
                None => {
                    return Err(RecordParseError::BadField);
                },
            };
            let dt = match crate::text::parse_uint(&rest[2], 0xff) {
                Some(v) => v as u8,
                None => {
                    return Err(RecordParseError::BadField);
                },
            };
            let tail = sub_tokens(rest, 3);
            let sep: Vec<u8> = Vec::new();
            assert(sep@ =~= Seq::<u8>::empty());
            let joined = crate::text::join_exec(&tail, &sep);
            match crate::text::hex_decode(&joined) {
                Some(digest) => {
                    if digest.len() > 16384 {
                        Ok(None)
                    } else {
                        Ok(Some(RData::Ds(kt, alg, dt, digest)))
                    }
                },
                None => Ok(None),
            }
        },
        _ => Ok(None),
    }
}

/// What parsing one tokenized record line yields: too few tokens is a
/// skipped line; the owner name, an optional TTL, an optional `IN` class
/// and the type mnemonic precede the RDATA.
pub open spec fn spec_parse_rr(tokens: Seq<Seq<u8>>, origin: Seq<u8>, default_ttl: u32)
    -> Result<Option<RecordV>, RecordParseError> {
    if tokens.len() < 4 {
        Ok(None)
    } else {
        match spec_owner_name(tokens[0], origin) {
            None => Err(RecordParseError::BadName),
            Some(nm) => {
                let has_ttl = crate::text::spec_parse_uint(tokens[1], 0xffffffff) is Some;
                let ttl = match crate::text::spec_parse_uint(tokens[1], 0xffffffff) {
                    Some(v) => v as u32,
                    None => default_ttl,
                };
                let i1: int = if has_ttl {
                    2
                } else {
                    1
                };
                let i2: int = if tokens[i1] == seq![73u8, 78u8] {
                    i1 + 1
                } else {
                    i1
                };
                let rt = spec_rtype_from_token(tokens[i2]);
                match spec_parse_rdata(rt, tokens.skip(i2 + 1), origin) {
                    Ok(Some(rd)) => Ok(Some(RecordV { name: nm, ttl, rdata: rd })),
                    Ok(None) => Ok(None),
                    Err(e) => Err(e),
                }
            },
        }
    }
}

/// Parses one tokenized record line.
pub fn parse_rr(tokens: &Vec<Vec<u8>>, origin: &DnsName, default_ttl: u32) -> (r: Result<
    Option<Record>,
    RecordParseError,
>)
    requires
        origin.wf(),
    ensures
        ({
            let sp = spec_parse_rr(tokens.deep_view(), origin@, default_ttl);
            match r {
                Ok(Some(rec)) => sp == Ok::<Option<RecordV>, RecordParseError>(Some(rec@))
                    && rec.wf(),
                Ok(None) => sp == Ok::<Option<RecordV>, RecordParseError>(None),
                Err(e) => sp == Err::<Option<RecordV>, RecordParseError>(e),
            }
        }),
{
    let ghost tv = tokens.deep_view();
    proof {
        assert(tv.len() == tokens@.len());
    }
    if tokens.len() < 4 {
        return Ok(None);
    }
    assert(forall|j: int| 0 <= j < 4 ==> tokens@[j]@ == tv[j]);
    let nm = match owner_name(&tokens[0], origin) {
        Some(n) => n,
        None => {
            return Err(RecordParseError::BadName);
        },
    };
    let mut idx: usize = 1;
    let ttl: u32 = match crate::text::parse_uint(&tokens[1], 0xffffffff) {
        Some(v) => {
            idx = 2;
            v as u32
        },
        None => default_ttl,
    };
    let cls = &tokens[idx];
    if cls.len() == 2 && cls[0] == 73 && cls[1] == 78 {
        assert(cls@ =~= seq![73u8, 78u8]);
        idx = idx + 1;
    } else {
        assert(cls@ != seq![73u8, 78u8]) by {
            if cls@ == seq![73u8, 78u8] {
                assert(cls@.len() == 2 && cls@[0] == 73 && cls@[1] == 78);
            }
        }
    }
    let rt = rtype_from_token(&tokens[idx]);
    let rest = sub_tokens(tokens, idx + 1);
    match parse_rdata(rt, &rest, origin) {
        Ok(Some(rd)) => {
            let rec = Record::from_rdata(nm, ttl, rd);
            Ok(Some(rec))
        },
        Ok(None) => Ok(None),
        Err(e) => Err(e),
    }
}

/// The SOA fields of an SOA RDATA.
pub open spec fn soa_of_rdata(rd: RDataV) -> SoaV
    recommends
        rd is Soa,
{
    match rd {
        RDataV::Soa(sv) => sv,
        _ => SoaV {
            mname: Seq::empty(),
            rname: Seq::empty(),
            serial: 0,
            refresh: 0,
            retry: 0,
            expire: 0,
            minimum: 0,
        },
    }
}

/// The parsing fold over the logical lines: directives move the current
/// origin and default TTL, record lines accumulate into the zone, and the
/// first SOA opens the zone at the file's origin.
pub open spec fn parse_lines_from(ls: Seq<Seq<char>>, i: int, origin: Seq<u8>,
    cur_origin: Seq<u8>, default_ttl: u32, zone: Option<ZoneV>) -> Result<ZoneV, ZoneParseError>
    decreases ls.len() - i,
{
    if i < 0 || i >= ls.len() {
        match zone {
            Some(z) => Ok(z),
            None => Err(ZoneParseError::MissingSoa),
        }
    } else {
        let lb = vstd::utf8::encode_utf8(ls[i]);
        if lb.len() == 0 || lb[0] == 59 {
            parse_lines_from(ls, i + 1, origin, cur_origin, default_ttl, zone)
        } else if lb[0] == 36 {
            let toks = crate::text::split_ws(lb);
            if lb.len() >= 7 && lb.take(7) == seq![36u8, 79u8, 82u8, 73u8, 71u8, 73u8, 78u8] {
                if toks.len() >= 2 {
                    match crate::name::name_from_text(toks[1]) {
                        Some(o) => parse_lines_from(ls, i + 1, origin, o, default_ttl, zone),
                        None => Err(ZoneParseError::BadDirective { line: (i + 1) as usize }),
                    }
                } else {
                    parse_lines_from(ls, i + 1, origin, cur_origin, default_ttl, zone)
                }
            } else if lb.len() >= 4 && lb.take(4) == seq![36u8, 84u8, 84u8, 76u8] {
                if toks.len() >= 2 {
                    match crate::text::spec_parse_uint(toks[1], 0xffffffff) {
                        Some(v) => parse_lines_from(ls, i + 1, origin, cur_origin, v as u32,
                            zone),
                        None => Err(ZoneParseError::BadDirective { line: (i + 1) as usize }),
                    }
                } else {
                    parse_lines_from(ls, i + 1, origin, cur_origin, default_ttl, zone)
                }
            } else {
                parse_lines_from(ls, i + 1, origin, cur_origin, default_ttl, zone)
            }
        } else {
            match spec_parse_rr(crate::text::split_ws(lb), cur_origin, default_ttl) {
                Err(_) => Err(ZoneParseError::BadRecord { line: (i + 1) as usize }),
                Ok(None) => parse_lines_from(ls, i + 1, origin, cur_origin, default_ttl,
                    zone),
                Ok(Some(rec)) => {
                    let zone2 = if zone is None && rec.rdata is Soa {
                        Some(ZoneV {
                            origin,
                            soa: soa_of_rdata(rec.rdata),
                            rrsets: Seq::empty(),
                        })
                    } else {
                        zone
                    };
                    let zone3 = match zone2 {
                        Some(z) => Some(ZoneV {
                            origin: z.origin,
                            soa: z.soa,
                            rrsets: crate::zone::spec_add_record(z.rrsets, rec),
                        }),
                        None => None,
                    };
                    parse_lines_from(ls, i + 1, origin, cur_origin, default_ttl, zone3)
                },
            }
        }
    }
}

/// What parsing a whole zone file yields.
pub open spec fn spec_parse_zone(content: Seq<char>, origin_text: Seq<u8>) -> Result<
    ZoneV,
    ZoneParseError,
> {
    match crate::name::name_from_text(origin_text) {
        None => Err(ZoneParseError::InvalidOrigin),
        Some(origin) => parse_lines_from(spec_preprocess(content), 0, origin, origin, 3600,
            None),
    }
}

/// Parses zone-file text against an origin name: either a zone holding at
/// least the SOA at the declared origin, or the first error with its
/// logical-line number.
#[verifier::rlimit(100)]
pub fn parse_zone_text(content: &str, origin_name: &str) -> (r: Result<Zone, ZoneParseError>)
    ensures
        match r {
            Ok(z) => spec_parse_zone(content@, origin_name.spec_bytes()) == Ok::<
                ZoneV,
                ZoneParseError,
            >(z@) && z.wf(),
            Err(e) => spec_parse_zone(content@, origin_name.spec_bytes()) == Err::<
                ZoneV,
                ZoneParseError,
            >(e),
        },
{
    let ob = origin_name.as_bytes_vec();
    let origin = match DnsName::from_text_bytes(&ob) {
        Some(n) => n,
        None => {
            return Err(ZoneParseError::InvalidOrigin);
        },
    };
    let lines = preprocess_zone_content(content);
    let ghost ls = spec_preprocess(content@);
    let ghost og = origin@;
    let mut zone: Option<Zone> = None;
    let mut cur_origin = origin.clone();
    let mut default_ttl: u32 = 3600;
    let mut i: usize = 0;
    let ghost spec_result = parse_lines_from(ls, 0, og, og, 3600, None);
    while i < lines.len()
        invariant
            i <= lines@.len(),
            ls == spec_preprocess(content@),
            lines@.len() == ls.len(),
            forall|j: int| 0 <= j < ls.len() ==> (#[trigger] lines@[j])@ == ls[j],
            origin.wf(),
            origin@ == og,
            cur_origin.wf(),
            spec_result == parse_lines_from(ls, 0, og, og, 3600, None),
            spec_parse_zone(content@, origin_name.spec_bytes()) == spec_result,
            spec_result == parse_lines_from(ls, i as int, og, cur_origin@, default_ttl,
                match zone {
                    Some(z) => Some(z@),
                    None => None,
                }),
            match zone {
                Some(z) => z.wf() && z@.origin == og,
                None => true,
            },
        decreases lines@.len() - i,
    {
        let lb = lines[i].as_bytes_vec();
        assert(lb@ == vstd::utf8::encode_utf8(ls[i as int]));
        if lb.len() == 0 || lb[0] == 59 {
        } else if lb[0] == 36 {
            let toks = crate::text::split_ws_exec(&lb);
            let is_origin_directive = lb.len() >= 7 && lb[1] == 79 && lb[2] == 82 && lb[3]
                == 73 && lb[4] == 71 && lb[5] == 73 && lb[6] == 78;
            let is_ttl_directive = lb.len() >= 4 && lb[1] == 84 && lb[2] == 84 && lb[3] == 76;
            proof {
                if lb@.len() >= 7 {
                    assert(lb@.take(7) == seq![36u8, 79u8, 82u8, 73u8, 71u8, 73u8, 78u8]
                        <==> (lb@[1] == 79 && lb@[2] == 82 && lb@[3] == 73 && lb@[4] == 71
                        && lb@[5] == 73 && lb@[6] == 78)) by {
                        if lb@[1] == 79 && lb@[2] == 82 && lb@[3] == 73 && lb@[4] == 71
                            && lb@[5] == 73 && lb@[6] == 78 {
                            assert(lb@.take(7) =~= seq![36u8, 79u8, 82u8, 73u8, 71u8, 73u8,
                                78u8]);
                        }
                    }
                }
                if lb@.len() >= 4 {
                    assert(lb@.take(4) == seq![36u8, 84u8, 84u8, 76u8] <==> (lb@[1] == 84
                        && lb@[2] == 84 && lb@[3] == 76)) by {
                        if lb@[1] == 84 && lb@[2] == 84 && lb@[3] == 76 {
                            assert(lb@.take(4) =~= seq![36u8, 84u8, 84u8, 76u8]);
                        }
                    }
                }
            }
            if is_origin_directive {
                if toks.len() >= 2 {
                    assert(toks@[1]@ == crate::text::split_ws(lb@)[1]);
                    match DnsName::from_text_bytes(&toks[1]) {
                        Some(o) => {
                            cur_origin = o;
                        },
                        None => {
                            return Err(ZoneParseError::BadDirective { line: i + 1 });
                        },
                    }
                }
            } else if is_ttl_directive {
                if toks.len() >= 2 {
                    assert(toks@[1]@ == crate::text::split_ws(lb@)[1]);
                    match crate::text::parse_uint(&toks[1], 0xffffffff) {
                        Some(v) => {
                            default_ttl = v as u32;
                        },
                        None => {
                            return Err(ZoneParseError::BadDirective { line: i + 1 });
                        },
                    }
                }
            }
        } else {
            let toks = crate::text::split_ws_exec(&lb);
            match parse_rr(&toks, &cur_origin, default_ttl) {
                Err(_) => {
                    return Err(ZoneParseError::BadRecord { line: i + 1 });
                },
                Ok(None) => {},
                Ok(Some(rec)) => {
                    let ghost recv = rec@;
                    if zone.is_none() {
                        match &rec.rdata {
                            RData::Soa(sf) => {
                                let z = crate::zone::Zone::new(origin.clone(), sf.clone());
                                zone = Some(z);
                            },
                            _ => {},
                        }
                    }
                    match zone {
                        Some(mut z) => {
                            z.add_record(rec);
                            zone = Some(z);
                        },
                        None => {},
                    }
                },
            }
        }
        i = i + 1;
    }
    match zone {
        Some(z) => Ok(z),
        None => Err(ZoneParseError::MissingSoa),
    }
}

/// Round trip: a zone file parsed without error yields a zone whose AXFR
/// stream begins and ends with the same SOA record.
pub proof fn lemma_axfr_soa_bookends(content: Seq<char>, origin_text: Seq<u8>, z: ZoneV)
    requires
        spec_parse_zone(content, origin_text) == Ok::<ZoneV, ZoneParseError>(z),
    ensures
        z.axfr_records().len() >= 2,
        z.axfr_records()[0] == z.soa_record(),
        z.axfr_records().last() == z.soa_record(),
        z.axfr_records()[0] == z.axfr_records().last(),
{
    let stream = z.axfr_records();
    assert(stream[0] == z.soa_record());
    assert(stream.last() == z.soa_record());
}

} // verus!
