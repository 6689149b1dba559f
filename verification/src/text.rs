//! Textual building blocks of the zone-file parser: whitespace
//! tokenizing, decimal and hexadecimal numbers, IPv4 and IPv6 addresses,
//! token joining, and the base64 and hex decoders of the `base64` and
//! `hex` crates behind trusted wrappers.

use vstd::prelude::*;

verus! {

/// ASCII whitespace, as the tokenizer sees it.
pub open spec fn is_ws(b: u8) -> bool {
    b == 32 || b == 9 || b == 10 || b == 11 || b == 12 || b == 13
}

pub fn is_ws_exec(b: u8) -> (r: bool)
    ensures
        r == is_ws(b),
{
    b == 32 || b == 9 || b == 10 || b == 11 || b == 12 || b == 13
}

/// The whitespace-separated tokens of a byte string, in order; never an
/// empty token.
pub open spec fn split_ws(s: Seq<u8>) -> Seq<Seq<u8>>
    decreases s.len(),
{
    if s.len() == 0 {
        Seq::empty()
    } else if is_ws(s[0]) {
        split_ws(s.skip(1))
    } else if s.len() == 1 {
        seq![seq![s[0]]]
    } else if is_ws(s[1]) {
        seq![seq![s[0]]].add(split_ws(s.skip(1)))
    } else {
        let rest = split_ws(s.skip(1));
        seq![seq![s[0]].add(rest[0])].add(rest.skip(1))
    }
}

proof fn lemma_split_ws_head(s: Seq<u8>)
    requires
        s.len() >= 1,
        !is_ws(s[0]),
    ensures
        split_ws(s).len() >= 1,
{
}

/// Splits a byte string into whitespace-separated tokens, scanned from
/// the right so each step matches one unfolding of `split_ws`.
pub fn split_ws_exec(b: &Vec<u8>) -> (r: Vec<Vec<u8>>)
    ensures
        r.deep_view() == split_ws(b@),
{
    let mut acc: Vec<Vec<u8>> = Vec::new();
    let ghost mut accv: Seq<Seq<u8>> = Seq::empty();
    let mut i: usize = b.len();
    assert(b@.skip(b@.len() as int) =~= Seq::<u8>::empty());
    assert(accv =~= split_ws(b@.skip(b@.len() as int)));
    while i > 0
        invariant
            i <= b@.len(),
            acc@.len() == accv.len(),
            forall|j: int| 0 <= j < accv.len() ==> (#[trigger] acc@[j])@ == accv[j],
            accv == split_ws(b@.skip(i as int)),
        decreases i,
    {
        let ghost pre = accv;
        i = i - 1;
        let c = b[i];
        let ghost tail = b@.skip(i + 1);
        assert(b@.skip(i as int)[0] == b@[i as int]);
        assert(b@.skip(i as int).skip(1) =~= tail);
        if is_ws_exec(c) {
            assert(split_ws(b@.skip(i as int)) == pre);
        } else if i + 1 == b.len() || is_ws_exec(b[i + 1]) {
            let mut fresh: Vec<u8> = Vec::new();
            fresh.push(c);
            acc.insert(0, fresh);
            proof {
                accv = seq![seq![b@[i as int]]].add(pre);
                if i + 1 == b@.len() {
                    assert(b@.skip(i as int).len() == 1);
                    assert(pre =~= Seq::<Seq<u8>>::empty());
                    assert(accv =~= split_ws(b@.skip(i as int)));
                } else {
                    assert(tail[0] == b@[i + 1]);
                    assert(is_ws(b@.skip(i as int)[1]));
                    assert(accv =~= split_ws(b@.skip(i as int)));
                }
                assert(forall|j: int| 1 <= j < accv.len() ==> acc@[j]@ == accv[j]);
            }
        } else {
            assert(acc@.len() >= 1) by {
                assert(tail[0] == b@[i + 1]);
                lemma_split_ws_head(tail);
            }
            let mut first = acc.remove(0);
            first.insert(0, c);
            acc.insert(0, first);
            proof {
                accv = seq![seq![b@[i as int]].add(pre[0])].add(pre.skip(1));
                assert(accv =~= split_ws(b@.skip(i as int)));
                assert(acc@[0]@ =~= accv[0]);
                assert(forall|j: int| 1 <= j < accv.len() ==> acc@[j]@ == accv[j]);
            }
        }
    }
    assert(b@.skip(0) =~= b@);
    proof {
        assert forall|j: int| 0 <= j < acc@.len() implies #[trigger] acc.deep_view()[j]
            == split_ws(b@)[j] by {
            assert(acc@[j].deep_view() =~= acc@[j]@);
        }
        assert(acc.deep_view() =~= split_ws(b@));
    }
    acc
}

pub open spec fn is_digit(b: u8) -> bool {
    48 <= b <= 57
}

pub open spec fn all_digits(s: Seq<u8>) -> bool {
    forall|i: int| 0 <= i < s.len() ==> is_digit(#[trigger] s[i])
}

/// The value of a digit string.
pub open spec fn digits_val(s: Seq<u8>) -> int
    decreases s.len(),
{
    if s.len() == 0 {
        0
    } else {
        digits_val(s.drop_last()) * 10 + (s.last() - 48)
    }
}

/// What parsing an unsigned decimal bounded by `max` yields.
pub open spec fn spec_parse_uint(s: Seq<u8>, max: int) -> Option<int> {
    if s.len() > 0 && all_digits(s) && digits_val(s) <= max {
        Some(digits_val(s))
    } else {
        None
    }
}

proof fn lemma_digits_val_nonneg(s: Seq<u8>)
    requires
        all_digits(s),
    ensures
        digits_val(s) >= 0,
    decreases s.len(),
{
    if s.len() > 0 {
        assert(forall|i: int| 0 <= i < s.len() - 1 ==> s.drop_last()[i] == s[i]);
        lemma_digits_val_nonneg(s.drop_last());
    }
}

/// Parses an unsigned decimal no larger than `max`; `max` itself is at
/// most the largest `u64`.
pub fn parse_uint(s: &Vec<u8>, max: u64) -> (r: Option<u64>)
    ensures
        match r {
            Some(v) => spec_parse_uint(s@, max as int) == Some(v as int),
            None => spec_parse_uint(s@, max as int) is None,
        },
{
    if s.len() == 0 {
        return None;
    }
    let mut acc: u64 = 0;
    let mut over = false;
    let mut i: usize = 0;
    assert(s@.take(0) =~= Seq::<u8>::empty());
    while i < s.len()
        invariant
            i <= s@.len(),
            all_digits(s@.take(i as int)),
            !over ==> acc == digits_val(s@.take(i as int)) && acc <= max,
            over ==> digits_val(s@.take(i as int)) > max,
            max <= u64::MAX,
        decreases s@.len() - i,
    {
        let c = s[i];
        if c < 48 || c > 57 {
            assert(!is_digit(s@[i as int]));
            assert(!all_digits(s@));
            return None;
        }
        proof {
            assert(s@.take(i + 1).drop_last() =~= s@.take(i as int));
            assert(s@.take(i + 1).last() == s@[i as int]);
            assert(all_digits(s@.take(i + 1)));
            lemma_digits_val_nonneg(s@.take(i as int));
        }
        let d = (c - 48) as u64;
        if over {
            proof {
                assert(digits_val(s@.take(i + 1)) == digits_val(s@.take(i as int)) * 10 + (
                    s@[i as int] - 48));
                assert(digits_val(s@.take(i as int)) * 10 >= digits_val(s@.take(i as int)))
                    by (nonlinear_arith)
                    requires
                        digits_val(s@.take(i as int)) >= 0,
                ;
            }
        } else {
            if acc > max / 10 || (acc == max / 10 && d > max % 10) {
                over = true;
                proof {
                    assert(digits_val(s@.take(i + 1)) == acc * 10 + d);
                    assert(acc * 10 + d > max) by (nonlinear_arith)
                        requires
                            acc >= 0,
                            d >= 0,
                            max >= 0,
                            acc > max / 10 || (acc == max / 10 && d > max % 10),
                    ;
                }
            } else {
                proof {
                    assert(acc * 10 + d <= max) by (nonlinear_arith)
                        requires
                            acc >= 0,
                            0 <= d <= 9,
                            max >= 0,
                            acc < max / 10 || (acc == max / 10 && d <= max % 10),
                    ;
                }
                acc = acc * 10 + d;
            }
        }
        i = i + 1;
    }
    assert(s@.take(s@.len() as int) =~= s@);
    if over {
        None
    } else {
        Some(acc)
    }
}

/// What parsing a signed 32-bit decimal yields: an optional leading
/// minus, then digits.
pub open spec fn spec_parse_i32(s: Seq<u8>) -> Option<i32> {
    if s.len() >= 2 && s[0] == 45 {
        let rest = s.skip(1);
        if all_digits(rest) && rest.len() > 0 && digits_val(rest) <= 0x80000000 {
            Some((-digits_val(rest)) as i32)
        } else {
            None
        }
    } else {
        match spec_parse_uint(s, 0x7fffffff) {
            Some(v) => Some(v as i32),
            None => None,
        }
    }
}

/// Parses a signed 32-bit decimal.
pub fn parse_i32(s: &Vec<u8>) -> (r: Option<i32>)
    ensures
        r == spec_parse_i32(s@),
{
    if s.len() >= 2 && s[0] == 45 {
        let rest = crate::name::sub_bytes(s, 1, s.len());
        assert(rest@ =~= s@.skip(1));
        match parse_uint(&rest, 0x80000000) {
            Some(v) => {
                proof {
                    lemma_digits_val_nonneg(rest@);
                }
                if v == 0x80000000 {
                    Some(i32::MIN)
                } else {
                    Some(-(v as i32))
                }
            },
            None => None,
        }
    } else {
        match parse_uint(s, 0x7fffffff) {
            Some(v) => Some(v as i32),
            None => None,
        }
    }
}

/// The tokens joined with a separator.
pub open spec fn join_tokens(ts: Seq<Seq<u8>>, sep: Seq<u8>) -> Seq<u8>
    decreases ts.len(),
{
    if ts.len() == 0 {
        Seq::empty()
    } else if ts.len() == 1 {
        ts[0]
    } else {
        join_tokens(ts.drop_last(), sep).add(sep).add(ts.last())
    }
}

/// Joins tokens with a separator.
pub fn join_exec(ts: &Vec<Vec<u8>>, sep: &Vec<u8>) -> (r: Vec<u8>)
    ensures
        r@ == join_tokens(ts.deep_view(), sep@),
{
    let ghost tv = ts.deep_view();
    let mut out: Vec<u8> = Vec::new();
    let mut i: usize = 0;
    assert(tv.take(0) =~= Seq::<Seq<u8>>::empty());
    while i < ts.len()
        invariant
            i <= ts@.len(),
            tv == ts.deep_view(),
            tv.len() == ts@.len(),
            out@ == join_tokens(tv.take(i as int), sep@),
        decreases ts@.len() - i,
    {
        proof {
            assert(tv.take(i + 1).drop_last() =~= tv.take(i as int));
            assert(tv.take(i + 1).last() == tv[i as int]);
            assert(tv[i as int] =~= ts@[i as int]@);
        }
        let ghost pre = out@;
        if i > 0 {
            let mut k: usize = 0;
            while k < sep.len()
                invariant
                    k <= sep@.len(),
                    out@ =~= pre.add(sep@.take(k as int)),
                decreases sep@.len() - k,
            {
                out.push(sep[k]);
                k = k + 1;
            }
            assert(sep@.take(sep@.len() as int) =~= sep@);
        }
        let ghost pre2 = out@;
        let tok = &ts[i];
        let mut k2: usize = 0;
        while k2 < tok.len()
            invariant
                k2 <= tok@.len(),
                out@ =~= pre2.add(tok@.take(k2 as int)),
            decreases tok@.len() - k2,
        {
            out.push(tok[k2]);
            k2 = k2 + 1;
        }
        proof {
            assert(tok@.take(tok@.len() as int) =~= tok@);
            if i == 0 {
                assert(tv.take(1) =~= seq![tv[0]]);
                assert(join_tokens(tv.take(1), sep@) == tv[0]);
                assert(out@ =~= tv[0]);
            } else {
                assert(out@ =~= join_tokens(tv.take(i as int), sep@).add(sep@).add(
                    tv[i as int]));
                assert(tv.take(i + 1).len() >= 2);
                assert(out@ =~= join_tokens(tv.take(i + 1), sep@));
            }
        }
        i = i + 1;
    }
    assert(tv.take(tv.len() as int) =~= tv);
    out
}

pub open spec fn is_hex_digit(b: u8) -> bool {
    (48 <= b <= 57) || (65 <= b <= 70) || (97 <= b <= 102)
}

pub open spec fn hex_val(b: u8) -> int {
    if 48 <= b <= 57 {
        b - 48
    } else if 65 <= b <= 70 {
        b - 55
    } else if 97 <= b <= 102 {
        b - 87
    } else {
        0
    }
}

/// What `hex::decode` yields: for an even number of hex digits, the byte
/// of each digit pair; anything else is rejected.
pub open spec fn spec_hex_decode(s: Seq<u8>) -> Option<Seq<u8>> {
    if s.len() % 2 == 0 && (forall|i: int| 0 <= i < s.len() ==> is_hex_digit(#[trigger] s[i])) {
        Some(Seq::new(s.len() / 2, |i: int| (hex_val(s[2 * i]) * 16 + hex_val(s[2 * i + 1])) as u8))
    } else {
        None
    }
}

/// Relies on hex::decode: both cases of upper and lower hex digits are
/// accepted; an odd length or a non-hex byte is an error.
#[verifier::external_body]
pub fn hex_decode(b: &Vec<u8>) -> (r: Option<Vec<u8>>)
    ensures
        match r {
            Some(v) => spec_hex_decode(b@) == Some(v@),
            None => spec_hex_decode(b@) is None,
        },
{
    match hex::decode(b.as_slice()) {
        Ok(v) => Some(v),
        Err(_) => None,
    }
}

/// What the standard-alphabet base64 decoder yields: a function of the
/// input bytes alone.
pub uninterp spec fn b64_decoded(s: Seq<u8>) -> Option<Seq<u8>>;

/// Relies on base64's STANDARD engine decode: the result depends on the
/// input bytes alone; invalid base64 is an error.
#[verifier::external_body]
pub fn base64_decode(b: &Vec<u8>) -> (r: Option<Vec<u8>>)
    ensures
        match r {
            Some(v) => b64_decoded(b@) == Some(v@),
            None => b64_decoded(b@) is None,
        },
{
    match base64::Engine::decode(&base64::engine::general_purpose::STANDARD, b.as_slice()) {
        Ok(v) => Some(v),
        Err(_) => None,
    }
}

/// The string without leading and trailing '"' octets.
pub open spec fn spec_trim_quotes(s: Seq<u8>) -> Seq<u8>
    decreases s.len(),
{
    if s.len() > 0 && s[0] == 34 {
        spec_trim_quotes(s.skip(1))
    } else if s.len() > 0 && s.last() == 34 {
        spec_trim_quotes(s.drop_last())
    } else {
        s
    }
}

/// Strips matching quotes from both ends, repeatedly.
pub fn trim_quotes(s: &Vec<u8>) -> (r: Vec<u8>)
    ensures
        r@ == spec_trim_quotes(s@),
{
    let mut lo: usize = 0;
    let mut hi: usize = s.len();
    assert(s@.subrange(0, s@.len() as int) =~= s@);
    loop
        invariant
            0 <= lo <= hi <= s@.len(),
            spec_trim_quotes(s@) == spec_trim_quotes(s@.subrange(lo as int, hi as int)),
        decreases hi - lo,
    {
        let ghost cur = s@.subrange(lo as int, hi as int);
        if lo < hi && s[lo] == 34 {
            assert(cur[0] == s@[lo as int]);
            assert(cur.skip(1) =~= s@.subrange(lo + 1, hi as int));
            lo = lo + 1;
        } else if lo < hi && s[hi - 1] == 34 {
            assert(cur.last() == s@[hi - 1]);
            assert(cur.drop_last() =~= s@.subrange(lo as int, hi - 1));
            hi = hi - 1;
        } else {
            proof {
                if cur.len() > 0 {
                    assert(cur[0] == s@[lo as int]);
                    assert(cur.last() == s@[hi - 1]);
                }
                assert(spec_trim_quotes(cur) == cur);
            }
            return crate::name::sub_bytes(s, lo, hi);
        }
    }
}

/// What parsing a dotted-quad IPv4 address yields, as one 32-bit value:
/// four decimal octets, no leading zeros.
pub open spec fn spec_parse_ipv4(s: Seq<u8>) -> Option<u32> {
    let parts = crate::name::split_on_dots(s);
    if parts.len() == 4 && (forall|i: int| 0 <= i < 4 ==> octet_ok(#[trigger] parts[i])) {
        Some(((digits_val(parts[0]) * 0x1000000) + (digits_val(parts[1]) * 0x10000) + (
        digits_val(parts[2]) * 0x100) + digits_val(parts[3])) as u32)
    } else {
        None
    }
}

/// A textual IPv4 octet: decimal, at most 255, no leading zero.
pub open spec fn octet_ok(p: Seq<u8>) -> bool {
    &&& p.len() > 0
    &&& all_digits(p)
    &&& digits_val(p) <= 255
    &&& (p.len() > 1 ==> p[0] != 48)
}

/// Parses a dotted-quad IPv4 address.
pub fn parse_ipv4(s: &Vec<u8>) -> (r: Option<u32>)
    ensures
        r == spec_parse_ipv4(s@),
{
    let parts = crate::name::split_dots_exec(s);
    if parts.len() != 4 {
        return None;
    }
    let mut vals: Vec<u32> = Vec::new();
    let mut i: usize = 0;
    while i < 4
        invariant
            i <= 4,
            parts.deep_view() == crate::name::split_on_dots(s@),
            parts@.len() == 4,
            vals@.len() == i,
            forall|j: int| 0 <= j < i ==> octet_ok(#[trigger] parts.deep_view()[j])
                && vals@[j] == digits_val(parts.deep_view()[j]),
        decreases 4 - i,
    {
        let p = &parts[i];
        assert(p@ == parts.deep_view()[i as int]);
        if p.len() == 0 {
            assert(!octet_ok(parts.deep_view()[i as int]));
            return None;
        }
        if p.len() > 1 && p[0] == 48 {
            assert(!octet_ok(parts.deep_view()[i as int]));
            return None;
        }
        match parse_uint(p, 255) {
            Some(v) => {
                vals.push(v as u32);
            },
            None => {
                assert(!octet_ok(parts.deep_view()[i as int]));
                return None;
            },
        }
        i = i + 1;
    }
    let r = vals[0] * 0x1000000 + vals[1] * 0x10000 + vals[2] * 0x100 + vals[3];
    Some(r)
}

/// The position of the first "::" in the string, if any.
pub open spec fn first_dcolon(s: Seq<u8>) -> Option<int>
    decreases s.len(),
{
    if s.len() < 2 {
        None
    } else if s[0] == 58 && s[1] == 58 {
        Some(0)
    } else {
        match first_dcolon(s.skip(1)) {
            Some(p) => Some(p + 1),
            None => None,
        }
    }
}

/// Splitting a byte string on single colons.
pub open spec fn split_colons(s: Seq<u8>) -> Seq<Seq<u8>>
    decreases s.len(),
{
    if s.len() == 0 {
        seq![Seq::<u8>::empty()]
    } else if s[0] == 58 {
        seq![Seq::<u8>::empty()].add(split_colons(s.skip(1)))
    } else {
        let rest = split_colons(s.skip(1));
        seq![seq![s[0]].add(rest[0])].add(rest.skip(1))
    }
}

/// A hexadecimal IPv6 group: one to four hex digits.
pub open spec fn group_ok(p: Seq<u8>) -> bool {
    1 <= p.len() <= 4 && (forall|i: int| 0 <= i < p.len() ==> is_hex_digit(#[trigger] p[i]))
}

pub open spec fn hex_group_val(p: Seq<u8>) -> int
    decreases p.len(),
{
    if p.len() == 0 {
        0
    } else {
        hex_group_val(p.drop_last()) * 16 + hex_val(p.last())
    }
}

/// The groups of one side of an IPv6 address: empty text is no group.
pub open spec fn side_groups(s: Seq<u8>) -> Seq<Seq<u8>> {
    if s.len() == 0 {
        Seq::empty()
    } else {
        split_colons(s)
    }
}

pub open spec fn groups_ok(gs: Seq<Seq<u8>>) -> bool {
    forall|i: int| 0 <= i < gs.len() ==> group_ok(#[trigger] gs[i])
}

/// The sixteen octets of an IPv6 address from its left groups, a zero
/// run, and its right groups.
pub open spec fn v6_bytes(left: Seq<Seq<u8>>, right: Seq<Seq<u8>>) -> Seq<u8> {
    Seq::new(16, |i: int|
        {
            let g = i / 2;
            let v = if g < left.len() {
                hex_group_val(left[g])
            } else if g >= 8 - right.len() {
                hex_group_val(right[g - (8 - right.len())])
            } else {
                0
            };
            if i % 2 == 0 {
                (v / 256) as u8
            } else {
                (v % 256) as u8
            }
        })
}

/// What parsing a textual IPv6 address yields: eight colon-separated hex
/// groups, or two shorter runs joined by one "::" that stands for zeros.
pub open spec fn spec_parse_ipv6(s: Seq<u8>) -> Option<Seq<u8>> {
    match first_dcolon(s) {
        Some(p) => {
            let left = side_groups(s.take(p));
            let right = side_groups(s.skip(p + 2));
            if groups_ok(left) && groups_ok(right) && left.len() + right.len() <= 7 {
                Some(v6_bytes(left, right))
            } else {
                None
            }
        },
        None => {
            let gs = split_colons(s);
            if gs.len() == 8 && groups_ok(gs) {
                Some(v6_bytes(gs, Seq::empty()))
            } else {
                None
            }
        },
    }
}

/// `first_dcolon` shifted by one when the head is not part of a "::".
pub open spec fn opt_plus(o: Option<int>, k: int) -> Option<int> {
    match o {
        Some(p) => Some(p + k),
        None => None,
    }
}

/// Finds the first "::" in the string.
fn find_dcolon(s: &Vec<u8>) -> (r: Option<usize>)
    ensures
        match r {
            Some(p) => first_dcolon(s@) == Some(p as int) && p + 2 <= s@.len(),
            None => first_dcolon(s@) is None,
        },
{
    let mut i: usize = 0;
    assert(s@.skip(0) =~= s@);
    loop
        invariant
            i <= s@.len(),
            first_dcolon(s@) == opt_plus(first_dcolon(s@.skip(i as int)), i as int),
        decreases s@.len() - i,
    {
        let ghost rem = s@.skip(i as int);
        if s.len() - i < 2 {
            assert(rem.len() < 2);
            return None;
        }
        assert(rem[0] == s@[i as int] && rem[1] == s@[i + 1]);
        if s[i] == 58 && s[i + 1] == 58 {
            return Some(i);
        }
        assert(rem.skip(1) =~= s@.skip(i + 1));
        i = i + 1;
    }
}

/// Splits a byte string on single colons, scanned from the right.
pub fn split_colons_exec(b: &Vec<u8>) -> (r: Vec<Vec<u8>>)
    ensures
        r.deep_view() == split_colons(b@),
{
    let mut acc: Vec<Vec<u8>> = Vec::new();
    let ghost mut accv: Seq<Seq<u8>> = Seq::empty();
    acc.push(Vec::new());
    proof {
        accv = seq![Seq::<u8>::empty()];
        assert(b@.skip(b@.len() as int) =~= Seq::<u8>::empty());
        assert(accv =~= split_colons(b@.skip(b@.len() as int)));
    }
    let mut i: usize = b.len();
    while i > 0
        invariant
            i <= b@.len(),
            acc@.len() == accv.len(),
            accv.len() >= 1,
            forall|j: int| 0 <= j < accv.len() ==> (#[trigger] acc@[j])@ == accv[j],
            accv == split_colons(b@.skip(i as int)),
        decreases i,
    {
        let ghost pre = accv;
        i = i - 1;
        let c = b[i];
        let ghost tail = b@.skip(i + 1);
        assert(b@.skip(i as int)[0] == b@[i as int]);
        assert(b@.skip(i as int).skip(1) =~= tail);
        if c == 58 {
            let fresh: Vec<u8> = Vec::new();
            acc.insert(0, fresh);
            proof {
                accv = seq![Seq::<u8>::empty()].add(pre);
                assert(accv =~= split_colons(b@.skip(i as int)));
                assert(forall|j: int| 1 <= j < accv.len() ==> acc@[j]@ == accv[j]);
            }
        } else {
            let mut first = acc.remove(0);
            first.insert(0, c);
            acc.insert(0, first);
            proof {
                accv = seq![seq![b@[i as int]].add(pre[0])].add(pre.skip(1));
                assert(accv =~= split_colons(b@.skip(i as int)));
                assert(acc@[0]@ =~= accv[0]);
                assert(forall|j: int| 1 <= j < accv.len() ==> acc@[j]@ == accv[j]);
            }
        }
    }
    assert(b@.skip(0) =~= b@);
    proof {
        assert forall|j: int| 0 <= j < acc@.len() implies #[trigger] acc.deep_view()[j]
            == split_colons(b@)[j] by {
            assert(acc@[j].deep_view() =~= acc@[j]@);
        }
        assert(acc.deep_view() =~= split_colons(b@));
    }
    acc
}

proof fn lemma_hex_group_bound(p: Seq<u8>)
    requires
        p.len() <= 4,
    ensures
        0 <= hex_group_val(p) < 0x10000,
    decreases p.len(),
{
    if p.len() == 0 {
    } else {
        lemma_hex_group_bound(p.drop_last());
        assert(hex_group_val(p) == hex_group_val(p.drop_last()) * 16 + hex_val(p.last()));
        assert(0 <= hex_val(p.last()) < 16);
        lemma_hex_group_small(p.drop_last());
        assert(hex_group_val(p.drop_last()) * 16 <= 0xFFF * 16) by (nonlinear_arith)
            requires
                0 <= hex_group_val(p.drop_last()) <= 0xFFF,
        ;
    }
}

proof fn lemma_hex_group_small(p: Seq<u8>)
    requires
        p.len() <= 3,
    ensures
        0 <= hex_group_val(p) <= 0xFFF,
    decreases p.len(),
{
    if p.len() == 0 {
    } else {
        lemma_hex_group_small2(p.drop_last());
        assert(0 <= hex_val(p.last()) < 16);
    }
}

proof fn lemma_hex_group_small2(p: Seq<u8>)
    requires
        p.len() <= 2,
    ensures
        0 <= hex_group_val(p) <= 0xFF,
    decreases p.len(),
{
    if p.len() == 0 {
    } else {
        lemma_hex_group_small3(p.drop_last());
        assert(0 <= hex_val(p.last()) < 16);
    }
}

proof fn lemma_hex_group_small3(p: Seq<u8>)
    requires
        p.len() <= 1,
    ensures
        0 <= hex_group_val(p) <= 0xF,
{
    if p.len() == 0 {
    } else {
        assert(p.drop_last().len() == 0);
        assert(hex_group_val(p.drop_last()) == 0);
        assert(0 <= hex_val(p.last()) < 16);
    }
}

/// Checks an IPv6 group and computes its value.
fn parse_group(p: &Vec<u8>) -> (r: Option<u16>)
    ensures
        match r {
            Some(v) => group_ok(p@) && v == hex_group_val(p@),
            None => !group_ok(p@),
        },
{
    if p.len() < 1 || p.len() > 4 {
        return None;
    }
    let mut acc: u32 = 0;
    let mut i: usize = 0;
    assert(p@.take(0) =~= Seq::<u8>::empty());
    while i < p.len()
        invariant
            i <= p@.len() <= 4,
            acc == hex_group_val(p@.take(i as int)),
            acc < 0x10000,
            forall|j: int| 0 <= j < i ==> is_hex_digit(#[trigger] p@[j]),
        decreases p@.len() - i,
    {
        let c = p[i];
        let v: u32 = if 48 <= c && c <= 57 {
            (c - 48) as u32
        } else if 65 <= c && c <= 70 {
            (c - 55) as u32
        } else if 97 <= c && c <= 102 {
            (c - 87) as u32
        } else {
            return None;
        };
        proof {
            assert(p@.take(i + 1).drop_last() =~= p@.take(i as int));
            assert(p@.take(i + 1).last() == p@[i as int]);
            lemma_hex_group_bound(p@.take(i + 1));
            assert(v == hex_val(p@[i as int]));
        }
        acc = acc * 16 + v;
        i = i + 1;
    }
    assert(p@.take(p@.len() as int) =~= p@);
    Some(acc as u16)
}

/// Checks each group of one address side and computes its values.
fn parse_groups(gs: &Vec<Vec<u8>>) -> (r: Option<Vec<u16>>)
    ensures
        match r {
            Some(vs) => groups_ok(gs.deep_view()) && vs@.len() == gs@.len() && forall|j: int|
                0 <= j < vs@.len() ==> vs@[j] == hex_group_val(gs.deep_view()[j]),
            None => !groups_ok(gs.deep_view()),
        },
{
    let mut vs: Vec<u16> = Vec::new();
    let mut i: usize = 0;
    while i < gs.len()
        invariant
            i <= gs@.len(),
            vs@.len() == i,
            forall|j: int| 0 <= j < i ==> group_ok(#[trigger] gs.deep_view()[j]) && vs@[j]
                == hex_group_val(gs.deep_view()[j]),
        decreases gs@.len() - i,
    {
        let g = &gs[i];
        assert(g@ == gs.deep_view()[i as int]);
        match parse_group(g) {
            Some(v) => {
                vs.push(v);
            },
            None => {
                assert(!group_ok(gs.deep_view()[i as int]));
                return None;
            },
        }
        i = i + 1;
    }
    assert(gs.deep_view().len() == gs@.len());
    Some(vs)
}

/// Checks the group shapes and counts and assembles the sixteen octets.
fn v6_assemble(left_gs: &Vec<Vec<u8>>, right_gs: &Vec<Vec<u8>>, compressed: bool) -> (r:
    Option<Vec<u8>>)
    ensures
        ({
            let lgs = left_gs.deep_view();
            let rgs = right_gs.deep_view();
            let counts_ok = if compressed {
                lgs.len() + rgs.len() <= 7
            } else {
                lgs.len() == 8 && rgs.len() == 0
            };
            match r {
                Some(v) => groups_ok(lgs) && groups_ok(rgs) && counts_ok && v@ == v6_bytes(
                    lgs, rgs),
                None => !(groups_ok(lgs) && groups_ok(rgs) && counts_ok),
            }
        }),
{
    let ghost lgs = left_gs.deep_view();
    let ghost rgs = right_gs.deep_view();
    let lv = match parse_groups(left_gs) {
        Some(v) => v,
        None => {
            return None;
        },
    };
    let rv = match parse_groups(right_gs) {
        Some(v) => v,
        None => {
            return None;
        },
    };
    if compressed {
        if lv.len() > 7 || rv.len() > 7 - lv.len() {
            return None;
        }
    } else {
        if lv.len() != 8 || rv.len() != 0 {
            return None;
        }
    }
    let mut out: Vec<u8> = Vec::new();
    let mut g: usize = 0;
    while g < 8
        invariant
            g <= 8,
            lv@.len() == lgs.len(),
            rv@.len() == rgs.len(),
            lv@.len() + rv@.len() <= 8,
            forall|j: int| 0 <= j < lv@.len() ==> lv@[j] == hex_group_val(#[trigger] lgs[j]),
            forall|j: int| 0 <= j < rv@.len() ==> rv@[j] == hex_group_val(#[trigger] rgs[j]),
            out@.len() == 2 * g,
            forall|idx: int| 0 <= idx < 2 * g ==> out@[idx] == v6_bytes(lgs, rgs)[idx],
        decreases 8 - g,
    {
        let v: u16 = if g < lv.len() {
            lv[g]
        } else if g >= 8 - rv.len() {
            rv[g - (8 - rv.len())]
        } else {
            0
        };
        out.push((v / 256) as u8);
        out.push((v % 256) as u8);
        proof {
            let full = v6_bytes(lgs, rgs);
            assert(full[2 * g] == (if g < lgs.len() {
                hex_group_val(lgs[g as int])
            } else if g >= 8 - rgs.len() {
                hex_group_val(rgs[g - (8 - rgs.len())])
            } else {
                0
            }) / 256);
            assert(full[2 * g + 1] == (if g < lgs.len() {
                hex_group_val(lgs[g as int])
            } else if g >= 8 - rgs.len() {
                hex_group_val(rgs[g - (8 - rgs.len())])
            } else {
                0
            }) % 256);
        }
        g = g + 1;
    }
    assert(out@ =~= v6_bytes(lgs, rgs));
    Some(out)
}

/// Parses a textual IPv6 address into its sixteen octets.
pub fn parse_ipv6(s: &Vec<u8>) -> (r: Option<Vec<u8>>)
    ensures
        match r {
            Some(v) => spec_parse_ipv6(s@) == Some(v@),
            None => spec_parse_ipv6(s@) is None,
        },
{
    match find_dcolon(s) {
        Some(p) => {
            let n = s.len();
            let left = crate::name::sub_bytes(s, 0, p);
            let right = crate::name::sub_bytes(s, p + 2, n);
            assert(left@ =~= s@.take(p as int));
            assert(right@ =~= s@.skip(p + 2));
            let lg: Vec<Vec<u8>> = if left.len() == 0 {
                Vec::new()
            } else {
                split_colons_exec(&left)
            };
            let rg: Vec<Vec<u8>> = if right.len() == 0 {
                Vec::new()
            } else {
                split_colons_exec(&right)
            };
            proof {
                assert(lg.deep_view() =~~= side_groups(s@.take(p as int)));
                assert(rg.deep_view() =~~= side_groups(s@.skip(p + 2)));
            }
            v6_assemble(&lg, &rg, true)
        },
        None => {
            let gs = split_colons_exec(s);
            let empty_right: Vec<Vec<u8>> = Vec::new();
            proof {
                assert(empty_right.deep_view() =~~= Seq::<Seq<u8>>::empty());
            }
            let r = v6_assemble(&gs, &empty_right, false);
            proof {
                assert(groups_ok(Seq::<Seq<u8>>::empty()));
            }
            r
        },
    }
}

} // verus!