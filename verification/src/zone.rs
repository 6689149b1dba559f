//! The in-memory zone store: per-zone indexed records grouped into RRsets,
//! exact-name lookup, wildcard synthesis, AXFR enumeration, and a multi-zone
//! registry with longest-suffix zone selection.

use vstd::prelude::*;
use crate::name::DnsName;
use crate::name::name_wf;
use crate::name::spec_zone_of;
use crate::name::spec_label_count;
use crate::name::valid_wire_name;
use crate::name::STAR;
use crate::rr::Record;
use crate::rr::RecordV;
use crate::rr::RrType;
use crate::rr::RData;
use crate::rr::RDataV;
use crate::rr::SoaFields;
use crate::rr::SoaV;

verus! {

/// All records sharing one (owner, type) key.
pub struct RrSet {
    pub name: DnsName,
    pub rtype: RrType,
    pub items: Vec<Record>,
}

/// Spec view of `RrSet`.
pub struct RrSetV {
    pub name: Seq<u8>,
    pub rtype: RrType,
    pub items: Seq<RecordV>,
}

pub open spec fn recs_view(s: Seq<Record>) -> Seq<RecordV> {
    Seq::new(s.len(), |i: int| s[i]@)
}

impl View for RrSet {
    type V = RrSetV;

    open spec fn view(&self) -> RrSetV {
        RrSetV { name: self.name@, rtype: self.rtype, items: recs_view(self.items@) }
    }
}

impl RrSetV {
    /// Non-empty, uniform owner and type, well-formed members.
    pub open spec fn wf(self) -> bool {
        &&& name_wf(self.name)
        &&& self.items.len() >= 1
        &&& forall|i: int| 0 <= i < self.items.len() ==> (#[trigger] self.items[i]).wf()
            && self.items[i].name == self.name && self.items[i].rtype() == self.rtype
    }
}

/// The records of the first set keyed (name, t), if any.
pub open spec fn sets_lookup(ss: Seq<RrSetV>, name: Seq<u8>, t: RrType) -> Option<Seq<RecordV>>
    decreases ss.len(),
{
    if ss.len() == 0 {
        None
    } else if ss[0].name == name && ss[0].rtype == t {
        Some(ss[0].items)
    } else {
        sets_lookup(ss.skip(1), name, t)
    }
}

/// Some set owns this name, whatever its type.
pub open spec fn sets_contain_name(ss: Seq<RrSetV>, name: Seq<u8>) -> bool
    decreases ss.len(),
{
    ss.len() > 0 && (ss[0].name == name || sets_contain_name(ss.skip(1), name))
}

/// Adding a record: appended to the first set with its key, or opening a
/// new set at the end.
pub open spec fn spec_add_record(ss: Seq<RrSetV>, r: RecordV) -> Seq<RrSetV>
    decreases ss.len(),
{
    if ss.len() == 0 {
        seq![RrSetV { name: r.name, rtype: r.rtype(), items: seq![r] }]
    } else if ss[0].name == r.name && ss[0].rtype == r.rtype() {
        seq![RrSetV { name: ss[0].name, rtype: ss[0].rtype, items: ss[0].items.push(r) }].add(
            ss.skip(1))
    } else {
        seq![ss[0]].add(spec_add_record(ss.skip(1), r))
    }
}

/// Wildcard synthesis walked up the ancestor chain: for each ancestor
/// `d` strictly below the root, the first hit at `*.d`.
pub open spec fn spec_wildcard_from(ss: Seq<RrSetV>, rest: Seq<u8>, t: RrType) -> Option<
    Seq<RecordV>,
>
    decreases rest.len(),
{
    if rest.len() == 0 || rest[0] == 0 {
        None
    } else if rest.len() < rest[0] + 1 {
        None
    } else {
        let w = seq![1u8, STAR].add(rest);
        match sets_lookup(ss, w, t) {
            Some(r) => Some(r),
            None => spec_wildcard_from(ss, rest.skip(rest[0] + 1), t),
        }
    }
}

/// Wildcard lookup for a whole name: its leftmost label is replaced by
/// `*`, then each shorter ancestor is tried in turn.
pub open spec fn spec_wildcard_lookup(ss: Seq<RrSetV>, name: Seq<u8>, t: RrType) -> Option<
    Seq<RecordV>,
>
    recommends
        valid_wire_name(name),
{
    if name.len() == 0 || name[0] == 0 || name.len() < name[0] + 1 {
        None
    } else {
        spec_wildcard_from(ss, name.skip(name[0] + 1), t)
    }
}

/// All members of all sets, in set order.
pub open spec fn all_items(ss: Seq<RrSetV>) -> Seq<RecordV>
    decreases ss.len(),
{
    if ss.len() == 0 {
        Seq::empty()
    } else {
        ss[0].items.add(all_items(ss.skip(1)))
    }
}

/// A zone: its apex, the SOA fields parsed from its SOA record, and its
/// records indexed by (owner, type).
pub struct Zone {
    pub origin: DnsName,
    pub soa: SoaFields,
    pub rrsets: Vec<RrSet>,
}

/// Spec view of `Zone`.
pub struct ZoneV {
    pub origin: Seq<u8>,
    pub soa: SoaV,
    pub rrsets: Seq<RrSetV>,
}

impl View for Zone {
    type V = ZoneV;

    open spec fn view(&self) -> ZoneV {
        ZoneV {
            origin: self.origin@,
            soa: self.soa@,
            rrsets: Seq::new(self.rrsets@.len(), |i: int| self.rrsets@[i]@),
        }
    }
}

impl ZoneV {
    pub open spec fn wf(self) -> bool {
        &&& name_wf(self.origin)
        &&& name_wf(self.soa.mname)
        &&& name_wf(self.soa.rname)
        &&& forall|i: int| 0 <= i < self.rrsets.len() ==> (#[trigger] self.rrsets[i]).wf()
        &&& forall|i: int, j: int|
            0 <= i < j < self.rrsets.len() ==> !(self.rrsets[i].name == self.rrsets[j].name
                && self.rrsets[i].rtype == self.rrsets[j].rtype)
    }

    /// The record that `get_soa_record` synthesizes: SOA at the apex with
    /// TTL equal to the SOA minimum.
    pub open spec fn soa_record(self) -> RecordV {
        RecordV { name: self.origin, ttl: self.soa.minimum, rdata: RDataV::Soa(self.soa) }
    }

    /// The AXFR stream of the zone: SOA, every record, SOA.
    pub open spec fn axfr_records(self) -> Seq<RecordV> {
        seq![self.soa_record()].add(all_items(self.rrsets)).push(self.soa_record())
    }
}

impl Zone {
    pub open spec fn wf(&self) -> bool {
        self@.wf()
    }

    /// A fresh zone with no records.
    pub fn new(origin: DnsName, soa: SoaFields) -> (r: Zone)
        requires
            name_wf(origin@),
            soa.wf(),
        ensures
            r@.origin == origin@,
            r@.soa == soa@,
            r@.rrsets.len() == 0,
            r.wf(),
    {
        let r = Zone { origin, soa, rrsets: Vec::new() };
        assert(r@.rrsets =~= Seq::<RrSetV>::empty());
        r
    }

    /// Inserts a record into the set keyed by its owner and type, opening
    /// the set when it is new.
    pub fn add_record(&mut self, record: Record)
        requires
            old(self).wf(),
            record.wf(),
        ensures
            final(self)@.origin == old(self)@.origin,
            final(self)@.soa == old(self)@.soa,
            final(self)@.rrsets == spec_add_record(old(self)@.rrsets, record@),
            final(self).wf(),
    {
        let ghost ss0 = self@.rrsets;
        let ghost z0 = self@;
        let ghost rv = record@;
        let mut i: usize = 0;
        let n = self.rrsets.len();
        let rt = record.rtype();
        while i < n
            invariant
                self.wf(),
                record.wf(),
                z0 == old(self)@,
                ss0 == old(self)@.rrsets,
                n == self@.rrsets.len(),
                i <= n,
                self@ == z0,
                self@.rrsets == ss0,
                rt == rv.rtype(),
                record@ == rv,
                forall|j: int| 0 <= j < i ==> !(#[trigger] ss0[j].name == rv.name && ss0[j].rtype
                    == rv.rtype()),
            decreases n - i,
        {
            let matches_key = self.rrsets[i].name == record.name && self.rrsets[i].rtype == rt;
            if matches_key {
                let mut set = self.rrsets.remove(i);
                set.items.push(record);
                self.rrsets.insert(i, set);
                proof {
                    let updated = RrSetV {
                        name: ss0[i as int].name,
                        rtype: ss0[i as int].rtype,
                        items: ss0[i as int].items.push(rv),
                    };
                    assert(set@.items =~= ss0[i as int].items.push(rv));
                    assert(set@ == updated);
                    assert(self@.rrsets =~= ss0.update(i as int, updated));
                    lemma_add_record_found(ss0, rv, i as int);
                    assert(updated.wf()) by {
                        assert(ss0[i as int].wf());
                        assert forall|m: int| 0 <= m < updated.items.len() implies
                            (#[trigger] updated.items[m]).wf() && updated.items[m].name
                            == updated.name && updated.items[m].rtype() == updated.rtype by {
                            if m < ss0[i as int].items.len() {
                                assert(updated.items[m] == ss0[i as int].items[m]);
                            } else {
                                assert(updated.items[m] == rv);
                            }
                        }
                    }
                    assert(self.wf()) by {
                        assert(forall|k: int| 0 <= k < self@.rrsets.len() && k != i
                            ==> self@.rrsets[k] == ss0[k]);
                        assert(self@.rrsets[i as int] == updated);
                    }
                    assert(self@.origin == z0.origin && self@.soa == z0.soa);
                }
                return;
            }
            i = i + 1;
        }
        let mut items: Vec<Record> = Vec::new();
        let name2 = record.name.clone();
        items.push(record);
        let fresh = RrSet { name: name2, rtype: rt, items };
        self.rrsets.push(fresh);
        proof {
            let freshv = RrSetV { name: rv.name, rtype: rv.rtype(), items: seq![rv] };
            assert(fresh@.items =~= seq![rv]);
            assert(fresh@ == freshv);
            assert(self@.rrsets =~= ss0.push(fresh@));
            lemma_add_record_notfound(ss0, rv);
            assert(freshv.wf()) by {
                assert(freshv.items[0] == rv);
            }
            assert(self.wf()) by {
                assert(forall|k: int| 0 <= k < ss0.len() ==> self@.rrsets[k] == ss0[k]);
                assert(self@.rrsets[ss0.len() as int] == freshv);
            }
            assert(self@.origin == z0.origin && self@.soa == z0.soa);
        }
    }

    /// The records at exactly (name, rtype), if any.
    pub fn lookup(&self, name: &DnsName, rtype: RrType) -> (r: Option<&Vec<Record>>)
        ensures
            match r {
                Some(v) => sets_lookup(self@.rrsets, name@, rtype) == Some(recs_view(v@)),
                None => sets_lookup(self@.rrsets, name@, rtype) is None,
            },
    {
        let ghost ss = self@.rrsets;
        let mut i: usize = 0;
        let n = self.rrsets.len();
        assert(ss.skip(0) =~= ss);
        while i < n
            invariant
                n == self@.rrsets.len(),
                ss == self@.rrsets,
                i <= n,
                sets_lookup(ss, name@, rtype) == sets_lookup(ss.skip(i as int), name@, rtype),
            decreases n - i,
        {
            let hit = self.rrsets[i].name == *name && self.rrsets[i].rtype == rtype;
            let ghost rem = ss.skip(i as int);
            assert(rem[0] == ss[i as int]);
            if hit {
                return Some(&self.rrsets[i].items);
            }
            assert(rem.skip(1) =~= ss.skip(i + 1));
            i = i + 1;
        }
        assert(ss.skip(n as int).len() == 0);
        None
    }

    /// Any records exist at this owner name.
    pub fn contains_name(&self, name: &DnsName) -> (r: bool)
        ensures
            r == sets_contain_name(self@.rrsets, name@),
    {
        let ghost ss = self@.rrsets;
        let mut i: usize = 0;
        let n = self.rrsets.len();
        assert(ss.skip(0) =~= ss);
        while i < n
            invariant
                n == self@.rrsets.len(),
                ss == self@.rrsets,
                i <= n,
                sets_contain_name(ss, name@) == sets_contain_name(ss.skip(i as int), name@),
            decreases n - i,
        {
            let ghost rem = ss.skip(i as int);
            assert(rem[0] == ss[i as int]);
            if self.rrsets[i].name == *name {
                return true;
            }
            assert(rem.skip(1) =~= ss.skip(i + 1));
            i = i + 1;
        }
        assert(ss.skip(n as int).len() == 0);
        false
    }

    /// Wildcard synthesis: for each ancestor of `name` below the root,
    /// the first hit at `*.ancestor`. Nothing when an exact set should be
    /// used instead; the processor checks exact names first.
    pub fn lookup_wildcard(&self, name: &DnsName, rtype: RrType) -> (r: Option<&Vec<Record>>)
        requires
            name.wf(),
        ensures
            match r {
                Some(v) => spec_wildcard_lookup(self@.rrsets, name@, rtype) == Some(recs_view(
                    v@)),
                None => spec_wildcard_lookup(self@.rrsets, name@, rtype) is None,
            },
    {
        let mut cur: DnsName;
        assert(valid_wire_name(name@));
        match name.parent() {
            Some(p) => {
                cur = p;
            },
            None => {
                return None;
            },
        }
        assert(cur@.len() <= 253);
        loop
            invariant
                cur.wf(),
                cur@.len() <= 253,
                spec_wildcard_lookup(self@.rrsets, name@, rtype) == spec_wildcard_from(
                    self@.rrsets, cur@, rtype),
            decreases cur@.len(),
        {
            if cur.wire_len() == 1 {
                assert(cur@[0] == 0) by {
                    assert(valid_wire_name(cur@));
                }
                return None;
            }
            assert(cur@[0] != 0 && cur@.len() >= cur@[0] + 2) by {
                assert(valid_wire_name(cur@));
            }
            let wname = match cur.wildcard_of() {
                Some(w) => w,
                None => {
                    // cannot happen: cur is at most 253 octets
                    assert(false);
                    return None;
                },
            };
            assert(wname@ == seq![1u8, STAR].add(cur@));
            match self.lookup(&wname, rtype) {
                Some(v) => {
                    return Some(v);
                },
                None => {},
            }
            match cur.parent() {
                Some(p) => {
                    assert(p@ =~= cur@.skip(cur@[0] + 1));
                    cur = p;
                },
                None => {
                    assert(false);
                    return None;
                },
            }
        }
    }

    /// The SOA record synthesized from the zone's SOA fields, its TTL the
    /// SOA minimum.
    pub fn get_soa_record(&self) -> (r: Record)
        ensures
            r@ == self@.soa_record(),
    {
        Record::from_rdata(self.origin.clone(), self.soa.minimum, RData::Soa(self.soa.clone()))
    }

    /// Every record of the zone in AXFR shape: the SOA first, each record
    /// once in set order, the SOA again last.
    pub fn get_all_records(&self) -> (r: Vec<Record>)
        ensures
            recs_view(r@) == self@.axfr_records(),
            r@.len() == all_items(self@.rrsets).len() + 2,
            recs_view(r@)[0] == self@.soa_record(),
            recs_view(r@)[r@.len() - 1] == self@.soa_record(),
    {
        let ghost ss = self@.rrsets;
        let mut out: Vec<Record> = Vec::new();
        out.push(self.get_soa_record());
        assert(recs_view(out@) =~= seq![self@.soa_record()].add(all_items(ss.take(0))));
        let mut i: usize = 0;
        let n = self.rrsets.len();
        while i < n
            invariant
                n == self@.rrsets.len(),
                ss == self@.rrsets,
                i <= n,
                recs_view(out@) =~= seq![self@.soa_record()].add(all_items(ss.take(i as int))),
            decreases n - i,
        {
            let set = &self.rrsets[i];
            let mut j: usize = 0;
            let m = set.items.len();
            while j < m
                invariant
                    n == self@.rrsets.len(),
                    ss == self@.rrsets,
                    i < n,
                    m == set.items@.len(),
                    set@ == ss[i as int],
                    j <= m,
                    recs_view(out@) =~= seq![self@.soa_record()].add(all_items(ss.take(
                        i as int))).add(ss[i as int].items.take(j as int)),
                decreases m - j,
            {
                let ghost prev = out@;
                let c = set.items[j].clone();
                let ghost cv = c@;
                out.push(c);
                proof {
                    assert(set@.items[j as int] == cv);
                    assert(ss[i as int].items[j as int] == cv);
                    assert(out@ =~= prev.push(c));
                    let base = seq![self@.soa_record()].add(all_items(ss.take(i as int)));
                    let items = ss[i as int].items;
                    let rhs_prev = base.add(items.take(j as int));
                    let rhs = base.add(items.take(j + 1));
                    assert(recs_view(prev) =~= rhs_prev);
                    assert(items.take(j + 1) =~= items.take(j as int).push(cv));
                    assert forall|k: int| 0 <= k < out@.len() implies #[trigger] recs_view(
                        out@)[k] == rhs[k] by {
                        assert(recs_view(out@)[k] == out@[k]@);
                        if k < prev.len() {
                            assert(out@[k] == prev[k]);
                            assert(prev[k]@ == recs_view(prev)[k]);
                            assert(recs_view(prev)[k] == rhs_prev[k]);
                            if k < base.len() {
                                assert(rhs_prev[k] == base[k]);
                                assert(rhs[k] == base[k]);
                            } else {
                                assert(recs_view(prev).len() == prev.len());
                                assert(rhs_prev.len() == prev.len());
                                assert(rhs_prev.len() == base.len() + items.take(j as int).len());
                                assert(items.len() == m);
                                assert(items.take(j as int).len() == j);
                                assert(0 <= k - base.len() < j);
                                assert(rhs_prev[k] == items.take(j as int)[k - base.len()]);
                                assert(rhs[k] == items.take(j + 1)[k - base.len()]);
                                assert(items.take(j as int)[k - base.len()] == items[k
                                    - base.len()]);
                                assert(items.take(j + 1)[k - base.len()] == items[k
                                    - base.len()]);
                            }
                        } else {
                            assert(out@[k] == c);
                            assert(k == prev.len());
                            assert(prev.len() == rhs_prev.len());
                            assert(rhs[k] == items.take(j + 1)[j as int]);
                            assert(rhs[k] == cv);
                        }
                    }
                    assert(recs_view(out@).len() == out@.len() == prev.len() + 1);
                    assert(recs_view(prev).len() == prev.len());
                    assert(rhs_prev.len() == prev.len());
                    assert(items.len() == m);
                    assert(items.take(j + 1).len() == j + 1);
                    assert(items.take(j as int).len() == j);
                    assert(rhs.len() == base.len() + j + 1);
                    assert(rhs_prev.len() == base.len() + j);
                    assert(recs_view(out@).len() == rhs.len());
                    assert(recs_view(out@) =~= rhs);
                }
                j = j + 1;
            }
            proof {
                assert(ss[i as int].items.take(m as int) =~= ss[i as int].items);
                lemma_all_items_snoc(ss, i as int);
                assert(recs_view(out@) =~= seq![self@.soa_record()].add(all_items(ss.take(i
                    + 1))));
            }
            i = i + 1;
        }
        assert(ss.take(n as int) =~= ss);
        out.push(self.get_soa_record());
        assert(recs_view(out@) =~= self@.axfr_records());
        out
    }
}

/// `all_items` over one more set appends that set's members.
proof fn lemma_all_items_snoc(ss: Seq<RrSetV>, i: int)
    requires
        0 <= i < ss.len(),
    ensures
        all_items(ss.take(i + 1)) == all_items(ss.take(i)).add(ss[i].items),
    decreases i,
{
    if i == 0 {
        assert(ss.take(1) =~= seq![ss[0]]);
        assert(ss.take(1).skip(1) =~= Seq::<RrSetV>::empty());
        assert(ss.take(0) =~= Seq::<RrSetV>::empty());
        assert(all_items(Seq::<RrSetV>::empty()) =~= Seq::<RecordV>::empty());
        assert(all_items(ss.take(0)) =~= Seq::<RecordV>::empty());
        assert(all_items(ss.take(1)) =~= ss[0].items.add(all_items(ss.take(1).skip(1))));
        assert(all_items(ss.take(1)) =~= ss[0].items.add(Seq::<RecordV>::empty()));
        assert(all_items(ss.take(1)) =~= all_items(ss.take(0)).add(ss[0].items));
    } else {
        lemma_all_items_snoc(ss.skip(1), i - 1);
        assert(ss.take(i + 1)[0] == ss[0]);
        assert(ss.take(i + 1).skip(1) =~= ss.skip(1).take(i));
        assert(ss.take(i).skip(1) =~= ss.skip(1).take(i - 1));
        assert(ss.skip(1)[i - 1] == ss[i]);
        assert(all_items(ss.take(i + 1)) =~= ss[0].items.add(all_items(ss.skip(1).take(i))));
        assert(all_items(ss.take(i)) =~= ss[0].items.add(all_items(ss.skip(1).take(i - 1))));
        assert(all_items(ss.take(i + 1)) =~= all_items(ss.take(i)).add(ss[i].items));
    }
}

/// When the first `i` sets miss the key and set `i` matches it, adding
/// updates set `i` in place.
proof fn lemma_add_record_found(ss: Seq<RrSetV>, r: RecordV, i: int)
    requires
        0 <= i < ss.len(),
        forall|j: int| 0 <= j < i ==> !(#[trigger] ss[j].name == r.name && ss[j].rtype
            == r.rtype()),
        ss[i].name == r.name && ss[i].rtype == r.rtype(),
    ensures
        spec_add_record(ss, r) == ss.update(i,
            RrSetV { name: ss[i].name, rtype: ss[i].rtype, items: ss[i].items.push(r) }),
    decreases i,
{
    if i == 0 {
        assert(spec_add_record(ss, r) =~= ss.update(0,
            RrSetV { name: ss[0].name, rtype: ss[0].rtype, items: ss[0].items.push(r) }));
    } else {
        assert(forall|j: int| 0 <= j < i - 1 ==> ss.skip(1)[j] == ss[j + 1]);
        lemma_add_record_found(ss.skip(1), r, i - 1);
        assert(spec_add_record(ss, r) =~= seq![ss[0]].add(spec_add_record(ss.skip(1), r)));
        assert(ss.skip(1).update(i - 1,
            RrSetV { name: ss[i].name, rtype: ss[i].rtype, items: ss[i].items.push(r) })
            =~= ss.update(i,
            RrSetV { name: ss[i].name, rtype: ss[i].rtype, items: ss[i].items.push(r) }).skip(
            1));
        assert(spec_add_record(ss, r) =~= ss.update(i,
            RrSetV { name: ss[i].name, rtype: ss[i].rtype, items: ss[i].items.push(r) }));
    }
}

/// When no set has the key, adding opens a new set at the end.
proof fn lemma_add_record_notfound(ss: Seq<RrSetV>, r: RecordV)
    requires
        forall|j: int| 0 <= j < ss.len() ==> !(#[trigger] ss[j].name == r.name && ss[j].rtype
            == r.rtype()),
    ensures
        spec_add_record(ss, r) == ss.push(
            RrSetV { name: r.name, rtype: r.rtype(), items: seq![r] }),
    decreases ss.len(),
{
    if ss.len() == 0 {
        assert(spec_add_record(ss, r) =~= ss.push(
            RrSetV { name: r.name, rtype: r.rtype(), items: seq![r] }));
    } else {
        assert(forall|j: int| 0 <= j < ss.len() - 1 ==> ss.skip(1)[j] == ss[j + 1]);
        lemma_add_record_notfound(ss.skip(1), r);
        assert(spec_add_record(ss, r) =~= seq![ss[0]].add(spec_add_record(ss.skip(1), r)));
        assert(spec_add_record(ss, r) =~= ss.push(
            RrSetV { name: r.name, rtype: r.rtype(), items: seq![r] }));
    }
}

/// The scan that picks the zone with the longest matching suffix: walks
/// the zones from `i` keeping the first index with the greatest label
/// count among matching origins.
pub open spec fn find_best_from(zs: Seq<ZoneV>, name: Seq<u8>, i: int, best: Option<int>) -> Option<
    int,
>
    decreases zs.len() - i,
{
    if i < 0 || i >= zs.len() {
        best
    } else {
        let better = spec_zone_of(zs[i].origin, name) && (match best {
            None => true,
            Some(b) => spec_label_count(zs[i].origin) > spec_label_count(zs[b].origin),
        });
        find_best_from(zs, name, i + 1, if better { Some(i) } else { best })
    }
}

/// The zone whose origin is the longest suffix of `name`, if any.
pub open spec fn spec_find_zone(zs: Seq<ZoneV>, name: Seq<u8>) -> Option<ZoneV> {
    match find_best_from(zs, name, 0, None) {
        Some(i) => if 0 <= i < zs.len() {
            Some(zs[i])
        } else {
            None
        },
        None => None,
    }
}

/// The registry of zones, keyed by origin.
pub struct ZoneStore {
    pub zones: Vec<Zone>,
}

/// Spec view of `ZoneStore`: the zones in insertion order.
pub open spec fn store_view(s: &ZoneStore) -> Seq<ZoneV> {
    Seq::new(s.zones@.len(), |i: int| s.zones@[i]@)
}

impl ZoneStore {
    pub open spec fn wf(&self) -> bool {
        &&& forall|i: int| 0 <= i < store_view(self).len() ==> (#[trigger] store_view(
            self)[i]).wf()
        &&& forall|i: int, j: int| 0 <= i < j < store_view(self).len() ==> store_view(
            self)[i].origin != store_view(self)[j].origin
    }

    pub fn new() -> (r: ZoneStore)
        ensures
            store_view(&r).len() == 0,
            r.wf(),
    {
        let r = ZoneStore { zones: Vec::new() };
        assert(store_view(&r) =~= Seq::<ZoneV>::empty());
        r
    }

    /// Inserts a zone, replacing any zone with the same origin.
    pub fn add_zone(&mut self, zone: Zone)
        requires
            old(self).wf(),
            zone.wf(),
        ensures
            final(self).wf(),
            store_view(final(self)) == spec_add_zone(store_view(old(self)), zone@),
    {
        let ghost zs0 = store_view(self);
        let mut i: usize = 0;
        let n = self.zones.len();
        while i < n
            invariant
                self.wf(),
                zone.wf(),
                zs0 == store_view(old(self)),
                n == store_view(self).len(),
                i <= n,
                store_view(self) == zs0,
                forall|j: int| 0 <= j < i ==> (#[trigger] zs0[j]).origin != zone@.origin,
            decreases n - i,
        {
            if self.zones[i].origin == zone.origin {
                let _ = self.zones.remove(i);
                self.zones.insert(i, zone);
                proof {
                    assert(store_view(self) =~= zs0.update(i as int, zone@));
                    lemma_add_zone_found(zs0, zone@, i as int);
                    assert(self.wf()) by {
                        assert(forall|k: int| 0 <= k < zs0.len() && k != i ==> store_view(
                            self)[k] == zs0[k]);
                    }
                }
                return;
            }
            i = i + 1;
        }
        self.zones.push(zone);
        proof {
            assert(store_view(self) =~= zs0.push(zone@));
            lemma_add_zone_notfound(zs0, zone@);
            assert(self.wf()) by {
                assert(forall|k: int| 0 <= k < zs0.len() ==> store_view(self)[k] == zs0[k]);
            }
        }
    }

    /// The zone whose origin is the longest suffix of `name`, if any zone's
    /// origin contains `name` at all.
    pub fn find_zone(&self, name: &DnsName) -> (r: Option<&Zone>)
        requires
            self.wf(),
            name.wf(),
        ensures
            match r {
                Some(z) => {
                    &&& spec_find_zone(store_view(self), name@) == Some(z@)
                    &&& exists|i: int| 0 <= i < store_view(self).len() && store_view(self)[i]
                        == z@
                    &&& spec_zone_of(z@.origin, name@)
                    &&& forall|i: int| 0 <= i < store_view(self).len() && spec_zone_of(
                        (#[trigger] store_view(self)[i]).origin, name@) ==> spec_label_count(
                        store_view(self)[i].origin) <= spec_label_count(z@.origin)
                },
                None => {
                    &&& spec_find_zone(store_view(self), name@) is None
                    &&& forall|i: int| 0 <= i < store_view(self).len() ==> !spec_zone_of(
                        (#[trigger] store_view(self)[i]).origin, name@)
                },
            },
    {
        let ghost zs = store_view(self);
        let mut best: Option<usize> = None;
        let mut best_labels: usize = 0;
        let mut i: usize = 0;
        let n = self.zones.len();
        while i < n
            invariant
                self.wf(),
                name.wf(),
                n == store_view(self).len(),
                zs == store_view(self),
                i <= n,
                find_best_from(zs, name@, 0, None) == find_best_from(zs, name@, i as int,
                    match best {
                        Some(b) => Some(b as int),
                        None => None,
                    }),
                match best {
                    Some(b) => {
                        &&& b < i
                        &&& spec_zone_of(zs[b as int].origin, name@)
                        &&& best_labels == spec_label_count(zs[b as int].origin)
                        &&& forall|j: int| 0 <= j < i && spec_zone_of(
                            (#[trigger] zs[j]).origin, name@) ==> spec_label_count(
                            zs[j].origin) <= best_labels
                    },
                    None => forall|j: int| 0 <= j < i ==> !spec_zone_of(
                        (#[trigger] zs[j]).origin, name@),
                },
            decreases n - i,
        {
            assert(zs[i as int].wf());
            if self.zones[i].origin.is_zone_of(name) {
                let labels = self.zones[i].origin.label_count();
                match best {
                    Some(_) => {
                        if labels > best_labels {
                            best = Some(i);
                            best_labels = labels;
                        }
                    },
                    None => {
                        best = Some(i);
                        best_labels = labels;
                    },
                }
            }
            i = i + 1;
        }
        match best {
            Some(b) => Some(&self.zones[b]),
            None => None,
        }
    }
}

/// Adding a zone: replaces the zone with the same origin, or appends.
pub open spec fn spec_add_zone(zs: Seq<ZoneV>, z: ZoneV) -> Seq<ZoneV>
    decreases zs.len(),
{
    if zs.len() == 0 {
        seq![z]
    } else if zs[0].origin == z.origin {
        seq![z].add(zs.skip(1))
    } else {
        seq![zs[0]].add(spec_add_zone(zs.skip(1), z))
    }
}

proof fn lemma_add_zone_found(zs: Seq<ZoneV>, z: ZoneV, i: int)
    requires
        0 <= i < zs.len(),
        forall|j: int| 0 <= j < i ==> (#[trigger] zs[j]).origin != z.origin,
        zs[i].origin == z.origin,
    ensures
        spec_add_zone(zs, z) == zs.update(i, z),
    decreases i,
{
    if i == 0 {
        assert(spec_add_zone(zs, z) =~= zs.update(0, z));
    } else {
        assert(forall|j: int| 0 <= j < i - 1 ==> zs.skip(1)[j] == zs[j + 1]);
        lemma_add_zone_found(zs.skip(1), z, i - 1);
        assert(zs.skip(1).update(i - 1, z) =~= zs.update(i, z).skip(1));
        assert(spec_add_zone(zs, z) =~= zs.update(i, z));
    }
}

proof fn lemma_add_zone_notfound(zs: Seq<ZoneV>, z: ZoneV)
    requires
        forall|j: int| 0 <= j < zs.len() ==> (#[trigger] zs[j]).origin != z.origin,
    ensures
        spec_add_zone(zs, z) == zs.push(z),
    decreases zs.len(),
{
    if zs.len() == 0 {
        assert(spec_add_zone(zs, z) =~= zs.push(z));
    } else {
        assert(forall|j: int| 0 <= j < zs.len() - 1 ==> zs.skip(1)[j] == zs[j + 1]);
        lemma_add_zone_notfound(zs.skip(1), z);
        assert(spec_add_zone(zs, z) =~= zs.push(z));
    }
}

/// Records returned by a lookup over well-formed sets are well-formed.
pub proof fn lemma_sets_lookup_wf(ss: Seq<RrSetV>, name: Seq<u8>, t: RrType, recs: Seq<RecordV>)
    requires
        forall|i: int| 0 <= i < ss.len() ==> (#[trigger] ss[i]).wf(),
        sets_lookup(ss, name, t) == Some(recs),
    ensures
        forall|i: int| 0 <= i < recs.len() ==> (#[trigger] recs[i]).wf(),
    decreases ss.len(),
{
    if ss.len() == 0 {
    } else if ss[0].name == name && ss[0].rtype == t {
        assert(ss[0].wf());
    } else {
        assert(forall|i: int| 0 <= i < ss.len() - 1 ==> ss.skip(1)[i] == ss[i + 1]);
        lemma_sets_lookup_wf(ss.skip(1), name, t, recs);
    }
}

/// Records synthesized by a wildcard lookup are well-formed.
pub proof fn lemma_wildcard_from_wf(ss: Seq<RrSetV>, rest: Seq<u8>, t: RrType, recs: Seq<
    RecordV,
>)
    requires
        forall|i: int| 0 <= i < ss.len() ==> (#[trigger] ss[i]).wf(),
        spec_wildcard_from(ss, rest, t) == Some(recs),
    ensures
        forall|i: int| 0 <= i < recs.len() ==> (#[trigger] recs[i]).wf(),
    decreases rest.len(),
{
    if rest.len() == 0 || rest[0] == 0 || rest.len() < rest[0] + 1 {
    } else {
        let w = seq![1u8, STAR].add(rest);
        match sets_lookup(ss, w, t) {
            Some(r) => {
                lemma_sets_lookup_wf(ss, w, t, r);
            },
            None => {
                lemma_wildcard_from_wf(ss, rest.skip(rest[0] + 1), t, recs);
            },
        }
    }
}

} // verus!
