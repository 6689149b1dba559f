//! The per-client rate limiter: a sliding one-second window of query
//! timestamps per client address, with an amortized sweep every minute
//! that drops clients whose window emptied. Time enters as an argument in
//! microseconds from a monotonic clock; the arithmetic saturates, so a
//! timestamp from the future only counts as fresh.

use vstd::prelude::*;

verus! {

/// One client's recent query timestamps, in microseconds.
pub struct ClientWindow {
    pub ip: u128,
    pub stamps: Vec<u64>,
}

/// Spec view of `ClientWindow`.
pub struct ClientWindowV {
    pub ip: u128,
    pub stamps: Seq<u64>,
}

impl View for ClientWindow {
    type V = ClientWindowV;

    open spec fn view(&self) -> ClientWindowV {
        ClientWindowV { ip: self.ip, stamps: self.stamps@ }
    }
}

pub open spec fn cw_view(cs: Seq<ClientWindow>) -> Seq<ClientWindowV> {
    Seq::new(cs.len(), |i: int| cs[i]@)
}

/// A timestamp still lies within the window ending at `now`. A stamp from
/// the future counts as fresh: elapsed time saturates at zero.
pub open spec fn in_window(t: u64, now: u64, window: u64) -> bool {
    if t <= now {
        now - t < window
    } else {
        window > 0
    }
}

/// The stamps still within the window, in order.
pub open spec fn spec_keep(stamps: Seq<u64>, now: u64, window: u64) -> Seq<u64>
    decreases stamps.len(),
{
    if stamps.len() == 0 {
        Seq::empty()
    } else {
        spec_keep(stamps.drop_last(), now, window).add(if in_window(stamps.last(), now, window) {
            seq![stamps.last()]
        } else {
            Seq::empty()
        })
    }
}

/// The window of one client: the stamps of its entry, or empty when it has
/// none. Entries carry distinct addresses, so the entry is unique.
pub open spec fn spec_window_of(cs: Seq<ClientWindowV>, q: u128) -> Seq<u64> {
    if exists|j: int| 0 <= j < cs.len() && (#[trigger] cs[j]).ip == q {
        let j = choose|j: int| 0 <= j < cs.len() && (#[trigger] cs[j]).ip == q;
        cs[j].stamps
    } else {
        Seq::empty()
    }
}

/// The sliding-window rate limiter.
pub struct RateLimiter {
    pub max_qps: u32,
    pub window_us: u64,
    pub cleanup_interval_us: u64,
    pub last_cleanup_us: u64,
    pub clients: Vec<ClientWindow>,
}

impl RateLimiter {
    pub open spec fn wf(&self) -> bool {
        &&& self.window_us > 0
        &&& forall|i: int, j: int| 0 <= i < j < self.clients@.len() ==> (
            #[trigger] self.clients@[i])@.ip != (#[trigger] self.clients@[j])@.ip
    }

    /// The window of one client, as the checks see it.
    pub open spec fn window_of(&self, q: u128) -> Seq<u64> {
        spec_window_of(cw_view(self.clients@), q)
    }

    /// Whether a call at `now_us` would be allowed for `q`.
    pub open spec fn would_allow(&self, q: u128, now_us: u64) -> bool {
        spec_keep(self.window_of(q), now_us, self.window_us).len() < self.max_qps
    }

    /// A limiter over a one-second window that allows `max_qps` queries
    /// per client and second and sweeps every sixty seconds.
    pub fn new(max_qps: u32) -> (r: RateLimiter)
        ensures
            r.wf(),
            r.max_qps == max_qps,
            r.window_us == 1000000,
            r.cleanup_interval_us == 60000000,
            r.last_cleanup_us == 0,
            r.clients@.len() == 0,
    {
        RateLimiter {
            max_qps,
            window_us: 1000000,
            cleanup_interval_us: 60000000,
            last_cleanup_us: 0,
            clients: Vec::new(),
        }
    }

    /// How many clients are tracked.
    pub fn client_count(&self) -> (r: usize)
        ensures
            r == self.clients@.len(),
    {
        self.clients.len()
    }

    /// One query from `ip` at `now_us`: stamps outside the window are
    /// dropped; the call is allowed exactly when fewer than `max_qps`
    /// remain, and an allowed call is recorded. When the sweep interval
    /// has passed, every other client's window is filtered too and the
    /// sweep clock resets; emptied entries leave the table.
    pub fn check_rate_limit(&mut self, ip: u128, now_us: u64) -> (r: bool)
        requires
            old(self).wf(),
        ensures
            final(self).wf(),
            r == old(self).would_allow(ip, now_us),
            final(self).window_of(ip) == if r {
                spec_keep(old(self).window_of(ip), now_us, old(self).window_us).push(now_us)
            } else {
                spec_keep(old(self).window_of(ip), now_us, old(self).window_us)
            },
            forall|q: u128| q != ip ==> final(self).window_of(q) == (
                if spec_cleanup_due(old(self), now_us) {
                    spec_keep(old(self).window_of(q), now_us, old(self).window_us)
                } else {
                    old(self).window_of(q)
                }),
            final(self).max_qps == old(self).max_qps,
            final(self).window_us == old(self).window_us,
            final(self).cleanup_interval_us == old(self).cleanup_interval_us,
            final(self).last_cleanup_us == if spec_cleanup_due(old(self), now_us) {
                now_us
            } else {
                old(self).last_cleanup_us
            },
    {
        let window = self.window_us;
        let due = elapsed_us(self.last_cleanup_us, now_us) > self.cleanup_interval_us;
        if due {
            let swept = sweep_clients(&self.clients, now_us, window);
            self.clients = swept;
            self.last_cleanup_us = now_us;
        }
        let ghost cs1 = cw_view(self.clients@);
        let ghost win1 = self.window_of(ip);
        let ghost win0 = old(self).window_of(ip);
        proof {
            assert(self.wf());
            assert(due == spec_cleanup_due(old(self), now_us));
            if due {
                assert(win1 == spec_keep(win0, now_us, window));
                lemma_keep_idempotent(win0, now_us, window);
                assert(spec_keep(win1, now_us, window) == spec_keep(win0, now_us, window));
            } else {
                assert(win1 == win0);
            }
        }
        let n = self.clients.len();
        let mut idx_found: Option<usize> = None;
        let mut i: usize = 0;
        while i < n
            invariant
                n == self.clients@.len(),
                i <= n,
                match idx_found {
                    Some(k) => k < i && self.clients@[k as int]@.ip == ip,
                    None => forall|j: int| 0 <= j < i ==> (#[trigger] self.clients@[j])@.ip
                        != ip,
                },
            decreases n - i,
        {
            if idx_found.is_none() && self.clients[i].ip == ip {
                idx_found = Some(i);
            }
            i = i + 1;
        }
        match idx_found {
            Some(k) => {
                proof {
                    assert(cs1[k as int] == self.clients@[k as int]@);
                    assert(cs1[k as int].ip == ip);
                    assert(exists|j: int| 0 <= j < cs1.len() && (#[trigger] cs1[j]).ip == ip);
                    let j = choose|j: int| 0 <= j < cs1.len() && (#[trigger] cs1[j]).ip == ip;
                    assert(j == k);
                    assert(win1 == cs1[k as int].stamps);
                }
                let mut entry = self.clients.remove(k);
                let kept = keep_fresh(&entry.stamps, now_us, window);
                let allowed = (kept.len() as u64) < (self.max_qps as u64);
                let mut new_stamps = kept;
                if allowed {
                    new_stamps.push(now_us);
                }
                entry.stamps = new_stamps;
                self.clients.insert(k, entry);
                proof {
                    let cs2 = cw_view(self.clients@);
                    assert(cs2 =~= cs1.update(k as int,
                        ClientWindowV { ip, stamps: self.clients@[k as int]@.stamps }));
                    assert(self.wf()) by {
                        assert(forall|m: int| 0 <= m < cs2.len() ==> (
                            #[trigger] cw_view(self.clients@)[m]).ip == cs1[m].ip);
                    }
                    lemma_window_lookup(cs2, k as int, ip);
                    assert forall|q: u128| q != ip implies spec_window_of(cs2, q)
                        == spec_window_of(cs1, q) by {
                        lemma_window_other(cs1, cs2, k as int, q);
                    }
                }
                allowed
            },
            None => {
                proof {
                    assert(forall|j: int| 0 <= j < cs1.len() ==> (#[trigger] cs1[j]).ip != ip);
                    assert(win1 =~= Seq::<u64>::empty());
                    assert(spec_keep(win1, now_us, window) =~= Seq::<u64>::empty());
                }
                let allowed = 0 < self.max_qps;
                let mut stamps: Vec<u64> = Vec::new();
                if allowed {
                    stamps.push(now_us);
                }
                let ghost sv = stamps@;
                self.clients.push(ClientWindow { ip, stamps });
                proof {
                    let cs2 = cw_view(self.clients@);
                    assert(cs2 =~= cs1.push(ClientWindowV { ip, stamps: sv }));
                    assert(self.wf()) by {
                        assert(forall|m: int| 0 <= m < cs1.len() ==> cw_view(
                            self.clients@)[m] == cs1[m]);
                    }
                    lemma_window_lookup(cs2, cs1.len() as int, ip);
                    if allowed {
                        assert(sv =~= spec_keep(win1, now_us, window).push(now_us));
                    } else {
                        assert(sv =~= spec_keep(win1, now_us, window));
                    }
                    assert forall|q: u128| q != ip implies spec_window_of(cs2, q)
                        == spec_window_of(cs1, q) by {
                        lemma_window_other(cs1, cs2, cs1.len() as int, q);
                    }
                }
                allowed
            },
        }
    }
}

/// The sweep is due when more than the interval has passed.
pub open spec fn spec_cleanup_due(rl: &RateLimiter, now_us: u64) -> bool {
    (if rl.last_cleanup_us <= now_us {
        (now_us - rl.last_cleanup_us) as u64
    } else {
        0u64
    }) > rl.cleanup_interval_us
}

/// Elapsed time, saturating at zero.
fn elapsed_us(from: u64, to: u64) -> (r: u64)
    ensures
        r == if from <= to {
            (to - from) as u64
        } else {
            0u64
        },
{
    if from <= to {
        to - from
    } else {
        0
    }
}

/// The stamps of one window that are still fresh.
fn keep_fresh(stamps: &Vec<u64>, now_us: u64, window: u64) -> (r: Vec<u64>)
    ensures
        r@ == spec_keep(stamps@, now_us, window),
{
    let mut out: Vec<u64> = Vec::new();
    let mut i: usize = 0;
    assert(stamps@.take(0) =~= Seq::<u64>::empty());
    while i < stamps.len()
        invariant
            i <= stamps@.len(),
            out@ == spec_keep(stamps@.take(i as int), now_us, window),
        decreases stamps@.len() - i,
    {
        let t = stamps[i];
        proof {
            assert(stamps@.take(i + 1).drop_last() =~= stamps@.take(i as int));
            assert(stamps@.take(i + 1).last() == stamps@[i as int]);
        }
        let fresh = elapsed_us(t, now_us) < window;
        if fresh {
            out.push(t);
            assert(out@ =~= spec_keep(stamps@.take(i + 1), now_us, window));
        } else {
            assert(out@ =~= spec_keep(stamps@.take(i + 1), now_us, window));
        }
        i = i + 1;
    }
    assert(stamps@.take(stamps@.len() as int) =~= stamps@);
    out
}

/// The sweep: every window filtered, emptied entries dropped.
#[verifier::rlimit(60)]
fn sweep_clients(clients: &Vec<ClientWindow>, now_us: u64, window: u64) -> (r: Vec<ClientWindow>)
    requires
        forall|i: int, j: int| 0 <= i < j < clients@.len() ==> (#[trigger] clients@[i])@.ip != (
            #[trigger] clients@[j])@.ip,
    ensures
        forall|i: int, j: int| 0 <= i < j < r@.len() ==> (#[trigger] r@[i])@.ip != (
            #[trigger] r@[j])@.ip,
        forall|q: u128| spec_window_of(cw_view(r@), q) == spec_keep(
            spec_window_of(cw_view(clients@), q), now_us, window),
{
    let ghost cs = cw_view(clients@);
    let mut out: Vec<ClientWindow> = Vec::new();
    let mut i: usize = 0;
    while i < clients.len()
        invariant
            i <= clients@.len(),
            cs == cw_view(clients@),
            forall|a: int, b: int| 0 <= a < b < cs.len() ==> cs[a].ip != cs[b].ip,
            forall|a: int| 0 <= a < out@.len() ==> exists|b: int| 0 <= b < i && (
                #[trigger] out@[a])@.ip == cs[b].ip && out@[a]@.stamps == spec_keep(
                cs[b].stamps, now_us, window) && out@[a]@.stamps.len() > 0,
            forall|b: int| 0 <= b < i && spec_keep((#[trigger] cs[b]).stamps, now_us,
                window).len() > 0 ==> exists|a: int| 0 <= a < out@.len() && (
                #[trigger] out@[a])@.ip == cs[b].ip && out@[a]@.stamps == spec_keep(
                cs[b].stamps, now_us, window),
            forall|a: int, b: int| 0 <= a < b < out@.len() ==> (#[trigger] out@[a])@.ip != (
                #[trigger] out@[b])@.ip,
        decreases clients@.len() - i,
    {
        let entry = &clients[i];
        assert(entry@ == cs[i as int]);
        let ghost out_pre = out@;
        let kept = keep_fresh(&entry.stamps, now_us, window);
        let pushed = kept.len() > 0;
        if pushed {
            let ghost kv = kept@;
            out.push(ClientWindow { ip: entry.ip, stamps: kept });
            proof {
                let last = out@.len() - 1;
                assert(forall|a: int| 0 <= a < last ==> out@[a] == out_pre[a]);
                assert(out@[last]@.ip == cs[i as int].ip && out@[last]@.stamps == spec_keep(
                    cs[i as int].stamps, now_us, window));
                assert forall|a: int, b: int| 0 <= a < b < out@.len() implies (
                    #[trigger] out@[a])@.ip != (#[trigger] out@[b])@.ip by {
                    if b == last {
                        let bb = choose|bb: int| 0 <= bb < i && (#[trigger] out@[a])@.ip
                            == cs[bb].ip && out@[a]@.stamps == spec_keep(cs[bb].stamps, now_us,
                            window) && out@[a]@.stamps.len() > 0;
                        assert(cs[bb].ip != cs[i as int].ip);
                    }
                }
            }
        }
        proof {
            assert forall|b: int| 0 <= b < i + 1 && spec_keep((#[trigger] cs[b]).stamps,
                now_us, window).len() > 0 implies exists|a: int| 0 <= a < out@.len() && (
                #[trigger] out@[a])@.ip == cs[b].ip && out@[a]@.stamps == spec_keep(
                cs[b].stamps, now_us, window) by {
                if b == i {
                    let last = out@.len() - 1;
                    assert(out@[last]@.ip == cs[b].ip && out@[last]@.stamps == spec_keep(
                        cs[b].stamps, now_us, window));
                } else {
                    let a0 = choose|a: int| 0 <= a < out_pre.len() && (
                        #[trigger] out_pre[a])@.ip == cs[b].ip && out_pre[a]@.stamps
                        == spec_keep(cs[b].stamps, now_us, window);
                    assert(out@[a0] == out_pre[a0]);
                }
            }
            assert forall|a: int| 0 <= a < out@.len() implies exists|b: int| 0 <= b < i + 1
                && (#[trigger] out@[a])@.ip == cs[b].ip && out@[a]@.stamps == spec_keep(
                cs[b].stamps, now_us, window) && out@[a]@.stamps.len() > 0 by {
                if pushed && a == out@.len() - 1 {
                    assert(out@[a]@.ip == cs[i as int].ip && out@[a]@.stamps == spec_keep(
                        cs[i as int].stamps, now_us, window) && out@[a]@.stamps.len() > 0);
                } else {
                    assert(out@[a] == out_pre[a]);
                    let b0 = choose|b: int| 0 <= b < i && (#[trigger] out_pre[a])@.ip
                        == cs[b].ip && out_pre[a]@.stamps == spec_keep(cs[b].stamps, now_us,
                        window) && out_pre[a]@.stamps.len() > 0;
                    assert(out@[a]@.ip == cs[b0].ip);
                }
            }
        }
        i = i + 1;
    }
    proof {
        let csr = cw_view(out@);
        assert forall|q: u128| spec_window_of(csr, q) == spec_keep(spec_window_of(cs, q),
            now_us, window) by {
            if exists|j: int| 0 <= j < csr.len() && (#[trigger] csr[j]).ip == q {
                let j = choose|j: int| 0 <= j < csr.len() && (#[trigger] csr[j]).ip == q;
                assert(out@[j]@.ip == q);
                let b = choose|b: int| 0 <= b < clients@.len() && (#[trigger] out@[j])@.ip
                    == cs[b].ip && out@[j]@.stamps == spec_keep(cs[b].stamps, now_us, window)
                    && out@[j]@.stamps.len() > 0;
                assert(exists|m: int| 0 <= m < cs.len() && (#[trigger] cs[m]).ip == q);
                let m = choose|m: int| 0 <= m < cs.len() && (#[trigger] cs[m]).ip == q;
                assert(m == b);
                assert(spec_window_of(cs, q) == cs[b].stamps);
                assert(spec_window_of(csr, q) == csr[j].stamps);
                assert(csr[j].stamps == out@[j]@.stamps);
            } else {
                assert(spec_window_of(csr, q) =~= Seq::<u64>::empty());
                if exists|m: int| 0 <= m < cs.len() && (#[trigger] cs[m]).ip == q {
                    let m = choose|m: int| 0 <= m < cs.len() && (#[trigger] cs[m]).ip == q;
                    if spec_keep(cs[m].stamps, now_us, window).len() > 0 {
                        let a = choose|a: int| 0 <= a < out@.len() && (#[trigger] out@[a])@.ip
                            == cs[m].ip && out@[a]@.stamps == spec_keep(cs[m].stamps, now_us,
                            window);
                        assert(csr[a].ip == q);
                        assert(false);
                    }
                    assert(spec_keep(spec_window_of(cs, q), now_us, window).len() == 0);
                    assert(spec_keep(spec_window_of(cs, q), now_us, window)
                        =~= Seq::<u64>::empty());
                } else {
                    assert(spec_window_of(cs, q) =~= Seq::<u64>::empty());
                    assert(spec_keep(Seq::<u64>::empty(), now_us, window)
                        =~= Seq::<u64>::empty());
                }
            }
        }
    }
    out
}

/// Filtering an already filtered window changes nothing.
proof fn lemma_keep_idempotent(stamps: Seq<u64>, now_us: u64, window: u64)
    ensures
        spec_keep(spec_keep(stamps, now_us, window), now_us, window) == spec_keep(stamps,
            now_us, window),
    decreases stamps.len(),
{
    if stamps.len() == 0 {
    } else {
        lemma_keep_idempotent(stamps.drop_last(), now_us, window);
        let pre = spec_keep(stamps.drop_last(), now_us, window);
        if in_window(stamps.last(), now_us, window) {
            let whole = pre.push(stamps.last());
            assert(spec_keep(stamps, now_us, window) =~= whole);
            assert(whole.drop_last() =~= pre);
            assert(spec_keep(whole, now_us, window) =~= spec_keep(pre, now_us, window).push(
                stamps.last()));
            assert(spec_keep(whole, now_us, window) =~= whole);
        } else {
            assert(spec_keep(stamps, now_us, window) =~= pre);
        }
    }
}

/// With distinct addresses, the entry at `k` is what the window lookup for
/// its address finds.
proof fn lemma_window_lookup(cs: Seq<ClientWindowV>, k: int, ip: u128)
    requires
        0 <= k < cs.len(),
        cs[k].ip == ip,
        forall|a: int, b: int| 0 <= a < b < cs.len() ==> (#[trigger] cs[a]).ip != (
            #[trigger] cs[b]).ip,
    ensures
        spec_window_of(cs, ip) == cs[k].stamps,
{
    assert(exists|j: int| 0 <= j < cs.len() && (#[trigger] cs[j]).ip == ip);
    let j = choose|j: int| 0 <= j < cs.len() && (#[trigger] cs[j]).ip == ip;
    if j != k {
        if j < k {
            assert(cs[j].ip != cs[k].ip);
        } else {
            assert(cs[k].ip != cs[j].ip);
        }
    }
}

/// Replacing or appending the entry of one address leaves every other
/// window unchanged.
proof fn lemma_window_other(cs1: Seq<ClientWindowV>, cs2: Seq<ClientWindowV>, k: int, q: u128)
    requires
        0 <= k < cs2.len(),
        cs2.len() == cs1.len() || cs2.len() == cs1.len() + 1,
        forall|m: int| 0 <= m < cs2.len() && m != k ==> cs2[m] == cs1[m],
        cs2[k].ip != q,
        k < cs1.len() ==> cs1[k].ip == cs2[k].ip,
        cs2.len() == cs1.len() + 1 ==> k == cs1.len(),
        forall|a: int, b: int| 0 <= a < b < cs1.len() ==> (#[trigger] cs1[a]).ip != (
            #[trigger] cs1[b]).ip,
    ensures
        spec_window_of(cs2, q) == spec_window_of(cs1, q),
{
    if exists|j: int| 0 <= j < cs1.len() && (#[trigger] cs1[j]).ip == q {
        let j = choose|j: int| 0 <= j < cs1.len() && (#[trigger] cs1[j]).ip == q;
        assert(j != k);
        assert(cs2[j].ip == q);
        let j2 = choose|m: int| 0 <= m < cs2.len() && (#[trigger] cs2[m]).ip == q;
        assert(j2 != k);
        assert(0 <= j2 < cs1.len());
        assert(cs1[j2].ip == q);
        assert(j2 == j) by {
            if j2 < j {
                assert(cs1[j2].ip != cs1[j].ip);
            } else if j < j2 {
                assert(cs1[j].ip != cs1[j2].ip);
            }
        }
        assert(spec_window_of(cs2, q) == cs2[j2].stamps);
        assert(spec_window_of(cs1, q) == cs1[j].stamps);
    } else {
        if exists|m: int| 0 <= m < cs2.len() && (#[trigger] cs2[m]).ip == q {
            let m = choose|m: int| 0 <= m < cs2.len() && (#[trigger] cs2[m]).ip == q;
            assert(m != k);
            assert(0 <= m < cs1.len());
            assert(cs1[m].ip == q);
            assert(false);
        }
    }
}

/// Rate-limiter saturation: when a client has already been allowed
/// `max_qps` times within the window, the next call is denied.
pub proof fn lemma_rate_limit_denies(rl: &RateLimiter, ip: u128, now_us: u64)
    requires
        rl.window_of(ip).len() >= rl.max_qps,
        forall|i: int| 0 <= i < rl.window_of(ip).len() ==> in_window(
            #[trigger] rl.window_of(ip)[i], now_us, rl.window_us),
    ensures
        !rl.would_allow(ip, now_us),
{
    lemma_keep_all(rl.window_of(ip), now_us, rl.window_us);
}

/// Rate-limiter quiescence: when a full window has passed since every
/// recorded query, the window is empty again, and a call is allowed as
/// long as any are.
pub proof fn lemma_rate_limit_recovers(rl: &RateLimiter, ip: u128, now_us: u64)
    requires
        forall|i: int| 0 <= i < rl.window_of(ip).len() ==> !in_window(
            #[trigger] rl.window_of(ip)[i], now_us, rl.window_us),
    ensures
        spec_keep(rl.window_of(ip), now_us, rl.window_us).len() == 0,
        rl.max_qps > 0 ==> rl.would_allow(ip, now_us),
{
    lemma_keep_none(rl.window_of(ip), now_us, rl.window_us);
}

/// A window whose stamps are all fresh is kept whole.
proof fn lemma_keep_all(stamps: Seq<u64>, now_us: u64, window: u64)
    requires
        forall|i: int| 0 <= i < stamps.len() ==> in_window(#[trigger] stamps[i], now_us,
            window),
    ensures
        spec_keep(stamps, now_us, window) == stamps,
    decreases stamps.len(),
{
    if stamps.len() == 0 {
        assert(spec_keep(stamps, now_us, window) =~= stamps);
    } else {
        assert(forall|i: int| 0 <= i < stamps.len() - 1 ==> stamps.drop_last()[i]
            == stamps[i]);
        lemma_keep_all(stamps.drop_last(), now_us, window);
        assert(spec_keep(stamps, now_us, window) =~= stamps);
    }
}

/// A window whose stamps are all stale empties.
proof fn lemma_keep_none(stamps: Seq<u64>, now_us: u64, window: u64)
    requires
        forall|i: int| 0 <= i < stamps.len() ==> !in_window(#[trigger] stamps[i], now_us,
            window),
    ensures
        spec_keep(stamps, now_us, window) == Seq::<u64>::empty(),
    decreases stamps.len(),
{
    if stamps.len() == 0 {
        assert(spec_keep(stamps, now_us, window) =~= Seq::<u64>::empty());
    } else {
        assert(forall|i: int| 0 <= i < stamps.len() - 1 ==> stamps.drop_last()[i]
            == stamps[i]);
        lemma_keep_none(stamps.drop_last(), now_us, window);
        assert(spec_keep(stamps, now_us, window) =~= Seq::<u64>::empty());
    }
}

} // verus!
