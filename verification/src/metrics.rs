//! The metrics recorder: counters for queries, response codes, latency,
//! rate limiting, errors and TCP connection lifecycle, a per-query-type
//! table, and a plain-data snapshot with the derived averages. Counters
//! wrap on overflow, as fetch-add on a machine word does.

use vstd::prelude::*;
use crate::rr::RrType;
use crate::message::Rcode;

verus! {

/// Which transport a query arrived over.
#[derive(Clone, Copy, PartialEq, Eq, Structural, Debug)]
pub enum Protocol {
    Udp,
    Tcp,
}

/// One query type and how often it was asked.
#[derive(Clone, Copy, PartialEq, Eq, Structural, Debug)]
pub struct TypeCount {
    pub rtype: RrType,
    pub count: u64,
}

/// Bumping a type's counter: the first entry with the type, or a new
/// entry at the end.
pub open spec fn spec_bump(ts: Seq<TypeCount>, t: RrType) -> Seq<TypeCount>
    decreases ts.len(),
{
    if ts.len() == 0 {
        seq![TypeCount { rtype: t, count: 1 }]
    } else if ts[0].rtype == t {
        seq![TypeCount { rtype: t, count: ts[0].count.wrapping_add(1) }].add(ts.skip(1))
    } else {
        seq![ts[0]].add(spec_bump(ts.skip(1), t))
    }
}

/// The metrics recorder.
pub struct Metrics {
    pub total_queries: u64,
    pub udp_queries: u64,
    pub tcp_queries: u64,
    pub edns_queries: u64,
    pub noerror_responses: u64,
    pub nxdomain_responses: u64,
    pub servfail_responses: u64,
    pub refused_responses: u64,
    pub formerr_responses: u64,
    pub query_types: Vec<TypeCount>,
    pub total_latency_us: u64,
    pub min_latency_us: u64,
    pub max_latency_us: u64,
    pub rate_limited: u64,
    pub errors: u64,
    pub tcp_connections: u64,
    pub tcp_queries_per_connection: u64,
    pub tcp_connection_timeouts: u64,
}

/// A point-in-time copy of the counters, with the aggregates derived at
/// snapshot time. The unset minimum sentinel is reported as zero.
pub struct MetricsSnapshot {
    pub total_queries: u64,
    pub udp_queries: u64,
    pub tcp_queries: u64,
    pub edns_queries: u64,
    pub noerror_responses: u64,
    pub nxdomain_responses: u64,
    pub servfail_responses: u64,
    pub refused_responses: u64,
    pub formerr_responses: u64,
    pub query_types: Vec<TypeCount>,
    pub avg_latency_us: u64,
    pub min_latency_us: u64,
    pub max_latency_us: u64,
    pub rate_limited: u64,
    pub errors: u64,
    pub tcp_connections: u64,
    pub tcp_total_queries: u64,
    pub avg_queries_per_connection: u64,
    pub tcp_connection_timeouts: u64,
}

impl Metrics {
    /// All counters at zero; the minimum-latency sentinel at the largest
    /// value so the first sample takes it.
    pub fn new() -> (r: Metrics)
        ensures
            r.total_queries == 0,
            r.udp_queries == 0,
            r.tcp_queries == 0,
            r.edns_queries == 0,
            r.noerror_responses == 0,
            r.nxdomain_responses == 0,
            r.servfail_responses == 0,
            r.refused_responses == 0,
            r.formerr_responses == 0,
            r.query_types@.len() == 0,
            r.total_latency_us == 0,
            r.min_latency_us == u64::MAX,
            r.max_latency_us == 0,
            r.rate_limited == 0,
            r.errors == 0,
            r.tcp_connections == 0,
            r.tcp_queries_per_connection == 0,
            r.tcp_connection_timeouts == 0,
    {
        Metrics {
            total_queries: 0,
            udp_queries: 0,
            tcp_queries: 0,
            edns_queries: 0,
            noerror_responses: 0,
            nxdomain_responses: 0,
            servfail_responses: 0,
            refused_responses: 0,
            formerr_responses: 0,
            query_types: Vec::new(),
            total_latency_us: 0,
            min_latency_us: u64::MAX,
            max_latency_us: 0,
            rate_limited: 0,
            errors: 0,
            tcp_connections: 0,
            tcp_queries_per_connection: 0,
            tcp_connection_timeouts: 0,
        }
    }

    pub fn record_tcp_connection(&mut self)
        ensures
            *final(self) == (Metrics {
                tcp_connections: old(self).tcp_connections.wrapping_add(1),
                ..*old(self)
            }),
    {
        self.tcp_connections = self.tcp_connections.wrapping_add(1);
    }

    pub fn record_tcp_connection_closed(&mut self, queries_handled: u64)
        ensures
            *final(self) == (Metrics {
                tcp_queries_per_connection: old(self).tcp_queries_per_connection.wrapping_add(
                    queries_handled),
                ..*old(self)
            }),
    {
        self.tcp_queries_per_connection = self.tcp_queries_per_connection.wrapping_add(
            queries_handled);
    }

    pub fn record_tcp_connection_timeout(&mut self)
        ensures
            *final(self) == (Metrics {
                tcp_connection_timeouts: old(self).tcp_connection_timeouts.wrapping_add(1),
                ..*old(self)
            }),
    {
        self.tcp_connection_timeouts = self.tcp_connection_timeouts.wrapping_add(1);
    }

    /// One query: the total, the transport's counter, and the EDNS counter
    /// when the request carried an OPT record.
    pub fn record_query(&mut self, protocol: Protocol, edns: bool)
        ensures
            *final(self) == (Metrics {
                total_queries: old(self).total_queries.wrapping_add(1),
                udp_queries: if protocol == Protocol::Udp {
                    old(self).udp_queries.wrapping_add(1)
                } else {
                    old(self).udp_queries
                },
                tcp_queries: if protocol == Protocol::Tcp {
                    old(self).tcp_queries.wrapping_add(1)
                } else {
                    old(self).tcp_queries
                },
                edns_queries: if edns {
                    old(self).edns_queries.wrapping_add(1)
                } else {
                    old(self).edns_queries
                },
                ..*old(self)
            }),
    {
        self.total_queries = self.total_queries.wrapping_add(1);
        match protocol {
            Protocol::Udp => {
                self.udp_queries = self.udp_queries.wrapping_add(1);
            },
            Protocol::Tcp => {
                self.tcp_queries = self.tcp_queries.wrapping_add(1);
            },
        }
        if edns {
            self.edns_queries = self.edns_queries.wrapping_add(1);
        }
    }

    /// One response: the named code's counter; other codes count nowhere.
    pub fn record_response(&mut self, response_code: Rcode)
        ensures
            *final(self) == (Metrics {
                noerror_responses: if response_code == Rcode::NoError {
                    old(self).noerror_responses.wrapping_add(1)
                } else {
                    old(self).noerror_responses
                },
                nxdomain_responses: if response_code == Rcode::NxDomain {
                    old(self).nxdomain_responses.wrapping_add(1)
                } else {
                    old(self).nxdomain_responses
                },
                servfail_responses: if response_code == Rcode::ServFail {
                    old(self).servfail_responses.wrapping_add(1)
                } else {
                    old(self).servfail_responses
                },
                refused_responses: if response_code == Rcode::Refused {
                    old(self).refused_responses.wrapping_add(1)
                } else {
                    old(self).refused_responses
                },
                formerr_responses: if response_code == Rcode::FormErr {
                    old(self).formerr_responses.wrapping_add(1)
                } else {
                    old(self).formerr_responses
                },
                ..*old(self)
            }),
    {
        match response_code {
            Rcode::NoError => {
                self.noerror_responses = self.noerror_responses.wrapping_add(1);
            },
            Rcode::NxDomain => {
                self.nxdomain_responses = self.nxdomain_responses.wrapping_add(1);
            },
            Rcode::ServFail => {
                self.servfail_responses = self.servfail_responses.wrapping_add(1);
            },
            Rcode::Refused => {
                self.refused_responses = self.refused_responses.wrapping_add(1);
            },
            Rcode::FormErr => {
                self.formerr_responses = self.formerr_responses.wrapping_add(1);
            },
            _ => {},
        }
    }

    /// One query of a type: its table entry bumped, or opened at one.
    pub fn record_query_type(&mut self, qtype: RrType)
        ensures
            final(self).query_types@ == spec_bump(old(self).query_types@, qtype),
            final(self).total_queries == old(self).total_queries,
            final(self).udp_queries == old(self).udp_queries,
            final(self).tcp_queries == old(self).tcp_queries,
            final(self).edns_queries == old(self).edns_queries,
            final(self).noerror_responses == old(self).noerror_responses,
            final(self).nxdomain_responses == old(self).nxdomain_responses,
            final(self).servfail_responses == old(self).servfail_responses,
            final(self).refused_responses == old(self).refused_responses,
            final(self).formerr_responses == old(self).formerr_responses,
            final(self).total_latency_us == old(self).total_latency_us,
            final(self).min_latency_us == old(self).min_latency_us,
            final(self).max_latency_us == old(self).max_latency_us,
            final(self).rate_limited == old(self).rate_limited,
            final(self).errors == old(self).errors,
            final(self).tcp_connections == old(self).tcp_connections,
            final(self).tcp_queries_per_connection == old(self).tcp_queries_per_connection,
            final(self).tcp_connection_timeouts == old(self).tcp_connection_timeouts,
    {
        let ghost ts0 = self.query_types@;
        let n = self.query_types.len();
        let mut i: usize = 0;
        while i < n
            invariant
                n == self.query_types@.len(),
                i <= n,
                ts0 == old(self).query_types@,
                self.query_types@ == ts0,
                *self == (Metrics { query_types: self.query_types, ..*old(self) }),
                forall|j: int| 0 <= j < i ==> (#[trigger] ts0[j]).rtype != qtype,
            decreases n - i,
        {
            if self.query_types[i].rtype == qtype {
                let entry = self.query_types.remove(i);
                let bumped = TypeCount { rtype: entry.rtype, count: entry.count.wrapping_add(1) };
                self.query_types.insert(i, bumped);
                proof {
                    lemma_bump_found(ts0, qtype, i as int);
                    assert(self.query_types@ =~= ts0.update(i as int,
                        TypeCount { rtype: qtype, count: ts0[i as int].count.wrapping_add(1) }));
                }
                return;
            }
            i = i + 1;
        }
        self.query_types.push(TypeCount { rtype: qtype, count: 1 });
        proof {
            lemma_bump_notfound(ts0, qtype);
            assert(self.query_types@ =~= ts0.push(TypeCount { rtype: qtype, count: 1 }));
        }
    }

    /// One latency sample in microseconds: added to the total; the minimum
    /// and maximum move when passed.
    pub fn record_latency(&mut self, latency_us: u64)
        ensures
            *final(self) == (Metrics {
                total_latency_us: old(self).total_latency_us.wrapping_add(latency_us),
                min_latency_us: if latency_us < old(self).min_latency_us {
                    latency_us
                } else {
                    old(self).min_latency_us
                },
                max_latency_us: if latency_us > old(self).max_latency_us {
                    latency_us
                } else {
                    old(self).max_latency_us
                },
                ..*old(self)
            }),
    {
        self.total_latency_us = self.total_latency_us.wrapping_add(latency_us);
        if latency_us < self.min_latency_us {
            self.min_latency_us = latency_us;
        }
        if latency_us > self.max_latency_us {
            self.max_latency_us = latency_us;
        }
    }

    pub fn record_rate_limited(&mut self)
        ensures
            *final(self) == (Metrics {
                rate_limited: old(self).rate_limited.wrapping_add(1),
                ..*old(self)
            }),
    {
        self.rate_limited = self.rate_limited.wrapping_add(1);
    }

    pub fn record_error(&mut self)
        ensures
            *final(self) == (Metrics { errors: old(self).errors.wrapping_add(1), ..*old(self) }),
    {
        self.errors = self.errors.wrapping_add(1);
    }

    /// A plain-data copy of the counters. The mean latency is the total
    /// over the query count, the mean queries per connection the TCP
    /// query total over the connection count, both zero before any
    /// sample; an untouched minimum reads as zero.
    pub fn get_snapshot(&self) -> (r: MetricsSnapshot)
        ensures
            r.total_queries == self.total_queries,
            r.udp_queries == self.udp_queries,
            r.tcp_queries == self.tcp_queries,
            r.edns_queries == self.edns_queries,
            r.noerror_responses == self.noerror_responses,
            r.nxdomain_responses == self.nxdomain_responses,
            r.servfail_responses == self.servfail_responses,
            r.refused_responses == self.refused_responses,
            r.formerr_responses == self.formerr_responses,
            r.query_types@ == self.query_types@,
            r.avg_latency_us == if self.total_queries > 0 {
                self.total_latency_us / self.total_queries
            } else {
                0u64
            },
            r.min_latency_us == if self.min_latency_us == u64::MAX {
                0u64
            } else {
                self.min_latency_us
            },
            r.max_latency_us == self.max_latency_us,
            r.rate_limited == self.rate_limited,
            r.errors == self.errors,
            r.tcp_connections == self.tcp_connections,
            r.tcp_total_queries == self.tcp_queries_per_connection,
            r.avg_queries_per_connection == if self.tcp_connections > 0 {
                self.tcp_queries_per_connection / self.tcp_connections
            } else {
                0u64
            },
            r.tcp_connection_timeouts == self.tcp_connection_timeouts,
    {
        let avg_latency_us = if self.total_queries > 0 {
            self.total_latency_us / self.total_queries
        } else {
            0
        };
        let min_latency_us = if self.min_latency_us == u64::MAX {
            0
        } else {
            self.min_latency_us
        };
        let avg_queries_per_connection = if self.tcp_connections > 0 {
            self.tcp_queries_per_connection / self.tcp_connections
        } else {
            0
        };
        let mut types: Vec<TypeCount> = Vec::new();
        let mut i: usize = 0;
        while i < self.query_types.len()
            invariant
                i <= self.query_types@.len(),
                types@ =~= self.query_types@.take(i as int),
            decreases self.query_types@.len() - i,
        {
            types.push(self.query_types[i]);
            i = i + 1;
        }
        assert(self.query_types@.take(self.query_types@.len() as int) =~= self.query_types@);
        MetricsSnapshot {
            total_queries: self.total_queries,
            udp_queries: self.udp_queries,
            tcp_queries: self.tcp_queries,
            edns_queries: self.edns_queries,
            noerror_responses: self.noerror_responses,
            nxdomain_responses: self.nxdomain_responses,
            servfail_responses: self.servfail_responses,
            refused_responses: self.refused_responses,
            formerr_responses: self.formerr_responses,
            query_types: types,
            avg_latency_us,
            min_latency_us,
            max_latency_us: self.max_latency_us,
            rate_limited: self.rate_limited,
            errors: self.errors,
            tcp_connections: self.tcp_connections,
            tcp_total_queries: self.tcp_queries_per_connection,
            avg_queries_per_connection,
            tcp_connection_timeouts: self.tcp_connection_timeouts,
        }
    }
}

impl MetricsSnapshot {
    /// The count recorded for one query type, zero when the type never
    /// appeared.
    pub fn count_for(&self, qtype: RrType) -> (r: u64)
        ensures
            r == spec_count_for(self.query_types@, qtype),
    {
        let ghost ts = self.query_types@;
        let mut i: usize = 0;
        assert(ts.skip(0) =~= ts);
        while i < self.query_types.len()
            invariant
                ts == self.query_types@,
                i <= ts.len(),
                spec_count_for(ts, qtype) == spec_count_for(ts.skip(i as int), qtype),
            decreases ts.len() - i,
        {
            let ghost rem = ts.skip(i as int);
            assert(rem[0] == ts[i as int]);
            if self.query_types[i].rtype == qtype {
                return self.query_types[i].count;
            }
            assert(rem.skip(1) =~= ts.skip(i + 1));
            i = i + 1;
        }
        assert(ts.skip(ts.len() as int).len() == 0);
        0
    }
}

/// The count held for a type: that of its first entry, or zero.
pub open spec fn spec_count_for(ts: Seq<TypeCount>, t: RrType) -> u64
    decreases ts.len(),
{
    if ts.len() == 0 {
        0
    } else if ts[0].rtype == t {
        ts[0].count
    } else {
        spec_count_for(ts.skip(1), t)
    }
}

proof fn lemma_bump_found(ts: Seq<TypeCount>, t: RrType, i: int)
    requires
        0 <= i < ts.len(),
        forall|j: int| 0 <= j < i ==> (#[trigger] ts[j]).rtype != t,
        ts[i].rtype == t,
    ensures
        spec_bump(ts, t) == ts.update(i,
            TypeCount { rtype: t, count: ts[i].count.wrapping_add(1) }),
    decreases i,
{
    if i == 0 {
        assert(spec_bump(ts, t) =~= ts.update(0,
            TypeCount { rtype: t, count: ts[0].count.wrapping_add(1) }));
    } else {
        assert(forall|j: int| 0 <= j < i - 1 ==> ts.skip(1)[j] == ts[j + 1]);
        lemma_bump_found(ts.skip(1), t, i - 1);
        assert(ts.skip(1).update(i - 1, TypeCount { rtype: t, count: ts[i].count.wrapping_add(1) })
            =~= ts.update(i, TypeCount { rtype: t, count: ts[i].count.wrapping_add(1) }).skip(1));
        assert(spec_bump(ts, t) =~= ts.update(i,
            TypeCount { rtype: t, count: ts[i].count.wrapping_add(1) }));
    }
}

proof fn lemma_bump_notfound(ts: Seq<TypeCount>, t: RrType)
    requires
        forall|j: int| 0 <= j < ts.len() ==> (#[trigger] ts[j]).rtype != t,
    ensures
        spec_bump(ts, t) == ts.push(TypeCount { rtype: t, count: 1 }),
    decreases ts.len(),
{
    if ts.len() == 0 {
        assert(spec_bump(ts, t) =~= ts.push(TypeCount { rtype: t, count: 1 }));
    } else {
        assert(forall|j: int| 0 <= j < ts.len() - 1 ==> ts.skip(1)[j] == ts[j + 1]);
        lemma_bump_notfound(ts.skip(1), t);
        assert(spec_bump(ts, t) =~= ts.push(TypeCount { rtype: t, count: 1 }));
    }
}

} // verus!
