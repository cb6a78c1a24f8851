//! Anomaly detector: a fixed suspicious-destination-port rule, and a stateful
//! per-source-IP burst tracker that counts hits inside a rolling ten-second
//! window and flags the 51st hit of a window as a scan or flood.

use crate::classifier::FlowTuple;
use std::collections::HashMap;
use vstd::prelude::*;

verus! {

/// Length of the hit-counting window, in milliseconds.
pub const WINDOW_MILLIS: u64 = 10000;

/// Hits inside one window beyond which the next hit is flagged.
pub const FLOOD_THRESHOLD: u32 = 50;

/// Whether a destination port is on the fixed suspicious list (telnet, SMB,
/// MSSQL, RDP, and a classic backdoor port).
pub open spec fn spec_is_suspicious_port(p: u16) -> bool {
    p == 23 || p == 445 || p == 1433 || p == 3389 || p == 31337
}

/// Membership in the fixed suspicious-port set.
pub fn is_suspicious_port(p: u16) -> (r: bool)
    ensures
        r == spec_is_suspicious_port(p),
{
    p == 23 || p == 445 || p == 1433 || p == 3389 || p == 31337
}

/// Per-source-IP record: hits seen in the current window, and the window's
/// start on the caller's monotonic clock, in milliseconds.
#[derive(Clone, Copy, PartialEq, Eq, Structural, Debug)]
pub struct IpHit {
    pub count: u32,
    pub window_start: u64,
}

/// The record a hit starts from: the stored one, or a fresh zero-count record
/// whose window opens now.
pub open spec fn spec_seed(m: Map<u32, IpHit>, ip: u32, now: u64) -> IpHit {
    if m.contains_key(ip) {
        m[ip]
    } else {
        IpHit { count: 0, window_start: now }
    }
}

/// Whether this hit rolls the window over: the window opened more than the
/// window length ago. Rollover is decided before the threshold is looked at.
pub open spec fn spec_rolls_over(m: Map<u32, IpHit>, ip: u32, now: u64) -> bool {
    now - spec_seed(m, ip, now).window_start > WINDOW_MILLIS
}

/// Whether this hit fires the flood alert: the window is still open and the
/// incremented count passes the threshold. A hit that rolls the window over
/// never fires, however large the count was.
pub open spec fn spec_flood_fires(m: Map<u32, IpHit>, ip: u32, now: u64) -> bool {
    !spec_rolls_over(m, ip, now) && spec_seed(m, ip, now).count + 1 > FLOOD_THRESHOLD
}

/// The record stored after one hit: a restarted window counting this hit on
/// rollover, a zero count and a fresh window after a flood alert, otherwise
/// the incremented count in the unchanged window.
pub open spec fn spec_hit_update(m: Map<u32, IpHit>, ip: u32, now: u64) -> IpHit {
    let seed = spec_seed(m, ip, now);
    if spec_rolls_over(m, ip, now) {
        IpHit { count: 1, window_start: now }
    } else if seed.count + 1 > FLOOD_THRESHOLD {
        IpHit { count: 0, window_start: now }
    } else {
        IpHit { count: (seed.count + 1) as u32, window_start: seed.window_start }
    }
}

/// What one packet raises: the two rules are independent, and both may fire
/// on the same packet.
#[derive(Clone, Copy, PartialEq, Eq, Structural, Debug)]
pub struct AnalysisOutcome {
    pub suspicious_port: bool,
    pub flood: bool,
}

/// The stateful burst tracker: one record per source IP seen, created lazily,
/// never evicted. (Unbounded growth under wide-address scans is a known
/// limitation, kept as designed.)
pub struct Detector {
    pub hits: HashMap<u32, IpHit>,
}

impl View for Detector {
    type V = Map<u32, IpHit>;

    open spec fn view(&self) -> Map<u32, IpHit> {
        self.hits@
    }
}

impl Detector {
    /// Stored counts never exceed the threshold: a hit that would pass it
    /// either fires and resets or rolls the window over.
    pub open spec fn wf(self) -> bool {
        forall|ip: u32| self@.contains_key(ip) ==> #[trigger] self@[ip].count <= FLOOD_THRESHOLD
    }

    /// Every stored window start lies at or before the given instant; holds
    /// whenever the instants handed to `analyze_packet` never decrease.
    pub open spec fn times_bounded(self, now: u64) -> bool {
        forall|ip: u32|
            self@.contains_key(ip) ==> #[trigger] self@[ip].window_start <= now
    }

    /// A fresh tracker with no IP on record.
    pub fn new() -> (r: Detector)
        ensures
            r@ == Map::<u32, IpHit>::empty(),
            r.wf(),
    {
        Detector { hits: HashMap::new() }
    }

    /// Analyze one classified packet at instant `now` (milliseconds on a
    /// monotonic clock, at or after every instant seen before). The
    /// suspicious-port rule fires exactly on the fixed port set and touches
    /// no state; the flood rule counts the hit against the packet's source
    /// IP, rolling the window over first if it has expired, and fires exactly
    /// when the incremented count passes the threshold inside a live window.
    pub fn analyze_packet(&mut self, flow: &FlowTuple, now: u64) -> (r: AnalysisOutcome)
        requires
            old(self).wf(),
            old(self).times_bounded(now),
        ensures
            final(self).wf(),
            final(self).times_bounded(now),
            r.suspicious_port == spec_is_suspicious_port(flow.dest_port),
            r.flood == spec_flood_fires(old(self)@, flow.source_ip, now),
            final(self)@ == old(self)@.insert(
                flow.source_ip,
                spec_hit_update(old(self)@, flow.source_ip, now),
            ),
    {
        let suspicious_port = is_suspicious_port(flow.dest_port);

        let seed: IpHit = match self.hits.get(&flow.source_ip) {
            Some(rec) => *rec,
            None => IpHit { count: 0, window_start: now },
        };
        proof {
            broadcast use vstd::std_specs::hash::group_hash_axioms;

            assert(seed == spec_seed(self@, flow.source_ip, now));
        }

        let mut flood = false;
        let updated: IpHit = if now - seed.window_start > WINDOW_MILLIS {
            IpHit { count: 1, window_start: now }
        } else if seed.count + 1 > FLOOD_THRESHOLD {
            flood = true;
            IpHit { count: 0, window_start: now }
        } else {
            IpHit { count: seed.count + 1, window_start: seed.window_start }
        };
        self.hits.insert(flow.source_ip, updated);
        proof {
            broadcast use vstd::std_specs::hash::group_hash_axioms;

        }
        AnalysisOutcome { suspicious_port, flood }
    }

    /// The record currently held for a source IP, if any.
    pub fn lookup(&self, ip: u32) -> (r: Option<IpHit>)
        ensures
            r == if self@.contains_key(ip) {
                Some(self@[ip])
            } else {
                None::<IpHit>
            },
    {
        proof {
            broadcast use vstd::std_specs::hash::group_hash_axioms;

        }
        match self.hits.get(&ip) {
            Some(rec) => Some(*rec),
            None => None,
        }
    }
}

/// The tracker map after a run of hits from one source IP, one hit per
/// instant, in arrival order; each step is the update `analyze_packet`
/// promises.
pub open spec fn spec_run(m: Map<u32, IpHit>, ip: u32, times: Seq<u64>) -> Map<u32, IpHit>
    decreases times.len(),
{
    if times.len() == 0 {
        m
    } else {
        spec_run(m.insert(ip, spec_hit_update(m, ip, times[0])), ip, times.drop_first())
    }
}

/// How many flood alerts such a run raises.
pub open spec fn spec_flood_count(m: Map<u32, IpHit>, ip: u32, times: Seq<u64>) -> nat
    decreases times.len(),
{
    if times.len() == 0 {
        0
    } else {
        (if spec_flood_fires(m, ip, times[0]) {
            1nat
        } else {
            0nat
        }) + spec_flood_count(m.insert(ip, spec_hit_update(m, ip, times[0])), ip, times.drop_first())
    }
}

/// A run over two stretches of hits is the second stretch run from where the
/// first left off, and its alerts add up.
pub proof fn lemma_run_concat(m: Map<u32, IpHit>, ip: u32, s1: Seq<u64>, s2: Seq<u64>)
    ensures
        spec_run(m, ip, s1 + s2) == spec_run(spec_run(m, ip, s1), ip, s2),
        spec_flood_count(m, ip, s1 + s2) == spec_flood_count(m, ip, s1) + spec_flood_count(
            spec_run(m, ip, s1),
            ip,
            s2,
        ),
    decreases s1.len(),
{
    reveal_with_fuel(spec_run, 3);
    reveal_with_fuel(spec_flood_count, 3);
    if s1.len() == 0 {
        assert(s1 + s2 =~= s2);
    } else {
        assert((s1 + s2)[0] == s1[0]);
        assert((s1 + s2).drop_first() =~= s1.drop_first() + s2);
        lemma_run_concat(m.insert(ip, spec_hit_update(m, ip, s1[0])), ip, s1.drop_first(), s2);
    }
}

/// While a source's window stays open and its count stays at or under the
/// threshold, every hit just increments the count: no alert, same window.
proof fn lemma_count_phase(m: Map<u32, IpHit>, ip: u32, times: Seq<u64>)
    requires
        m.contains_key(ip),
        m[ip].count + times.len() <= FLOOD_THRESHOLD,
        forall|i: int|
            0 <= i < times.len() ==> m[ip].window_start <= #[trigger] times[i] && times[i]
                - m[ip].window_start <= WINDOW_MILLIS,
    ensures
        spec_run(m, ip, times) == m.insert(
            ip,
            IpHit {
                count: (m[ip].count + times.len()) as u32,
                window_start: m[ip].window_start,
            },
        ),
        spec_flood_count(m, ip, times) == 0,
    decreases times.len(),
{
    reveal_with_fuel(spec_run, 2);
    reveal_with_fuel(spec_flood_count, 2);
    if times.len() == 0 {
        assert(m[ip] == IpHit { count: (m[ip].count + 0) as u32, window_start: m[ip].window_start });
        assert(spec_run(m, ip, times) =~= m.insert(ip, m[ip]));
    } else {
        let t0 = times[0];
        let seed = m[ip];
        assert(spec_seed(m, ip, t0) == seed);
        assert(!spec_rolls_over(m, ip, t0));
        assert(!spec_flood_fires(m, ip, t0));
        assert(spec_hit_update(m, ip, t0) == IpHit {
            count: (seed.count + 1) as u32,
            window_start: seed.window_start,
        });
        let m1 = m.insert(ip, spec_hit_update(m, ip, t0));
        assert(forall|i: int|
            0 <= i < times.drop_first().len() ==> #[trigger] times.drop_first()[i] == times[i + 1]);
        lemma_count_phase(m1, ip, times.drop_first());
        assert(m1.insert(
            ip,
            IpHit { count: (m1[ip].count + times.drop_first().len()) as u32, window_start: m1[ip].window_start },
        ) =~= m.insert(
            ip,
            IpHit { count: (m[ip].count + times.len()) as u32, window_start: m[ip].window_start },
        ));
    }
}

/// The first hit from an unseen source opens a window at that instant and
/// raises nothing.
proof fn lemma_first_hit(m: Map<u32, IpHit>, ip: u32, t0: u64)
    requires
        !m.contains_key(ip),
    ensures
        !spec_flood_fires(m, ip, t0),
        spec_hit_update(m, ip, t0) == (IpHit { count: 1, window_start: t0 }),
{
    assert(spec_seed(m, ip, t0) == IpHit { count: 0, window_start: t0 });
}

/// A burst of fifty-one hits from one unseen source, all inside one window
/// length and in arrival order, raises exactly one flood alert, and it is the
/// fifty-first hit that raises it.
pub proof fn lemma_flood_alert_on_51st(m: Map<u32, IpHit>, ip: u32, times: Seq<u64>)
    requires
        !m.contains_key(ip),
        times.len() == FLOOD_THRESHOLD + 1,
        forall|i: int, j: int| 0 <= i <= j < times.len() ==> times[i] <= times[j],
        times[FLOOD_THRESHOLD as int] - times[0] <= WINDOW_MILLIS,
    ensures
        spec_flood_count(m, ip, times) == 1,
        spec_flood_fires(
            spec_run(m, ip, times.take(FLOOD_THRESHOLD as int)),
            ip,
            times[FLOOD_THRESHOLD as int],
        ),
{
    reveal_with_fuel(spec_run, 3);
    reveal_with_fuel(spec_flood_count, 3);
    let t0 = times[0];
    lemma_first_hit(m, ip, t0);
    let m1 = m.insert(ip, IpHit { count: 1, window_start: t0 });
    let rest = times.drop_first();
    let mid = rest.take(50 - 1);
    let tail = rest.skip(50 - 1);
    assert(rest =~= mid + tail);
    assert(forall|i: int| 0 <= i < rest.len() ==> #[trigger] rest[i] == times[i + 1]);
    assert(forall|i: int| 0 <= i < mid.len() ==> #[trigger] mid[i] == times[i + 1]);
    assert(forall|i: int|
        0 <= i < mid.len() ==> m1[ip].window_start <= #[trigger] mid[i] && mid[i]
            - m1[ip].window_start <= WINDOW_MILLIS) by {
        assert(forall|i: int| 0 <= i < mid.len() ==> times[0] <= #[trigger] mid[i]);
        assert(forall|i: int|
            0 <= i < mid.len() ==> #[trigger] mid[i] <= times[FLOOD_THRESHOLD as int]);
    }
    lemma_count_phase(m1, ip, mid);
    lemma_run_concat(m1, ip, mid, tail);
    let m50 = m1.insert(ip, IpHit { count: 50, window_start: t0 });
    assert(spec_run(m1, ip, mid) == m50);
    let t_last = times[FLOOD_THRESHOLD as int];
    assert(tail.len() == 1 && tail[0] == t_last);
    assert(spec_seed(m50, ip, t_last) == IpHit { count: 50, window_start: t0 });
    assert(!spec_rolls_over(m50, ip, t_last));
    assert(spec_flood_fires(m50, ip, t_last));
    assert(tail.drop_first() =~= Seq::<u64>::empty());
    assert(spec_flood_count(m50, ip, tail) == 1);
    assert(spec_flood_count(m, ip, times) == 1);
    let head = times.take(FLOOD_THRESHOLD as int);
    assert(head[0] == t0);
    assert(head.drop_first() =~= mid);
    assert(spec_run(m, ip, head) == m50);
}

/// Fifty in-window hits from one unseen source followed by one hit past the
/// window raise no flood alert at all: the late hit rolls the window over --
/// even though it would have been the fifty-first -- and restarts the count
/// at one.
pub proof fn lemma_window_gap_restarts(
    m: Map<u32, IpHit>,
    ip: u32,
    times: Seq<u64>,
    gap_time: u64,
)
    requires
        !m.contains_key(ip),
        times.len() == FLOOD_THRESHOLD,
        forall|i: int, j: int| 0 <= i <= j < times.len() ==> times[i] <= times[j],
        times[FLOOD_THRESHOLD - 1] - times[0] <= WINDOW_MILLIS,
        gap_time - times[FLOOD_THRESHOLD - 1] > WINDOW_MILLIS,
    ensures
        spec_flood_count(m, ip, times.push(gap_time)) == 0,
        spec_run(m, ip, times.push(gap_time))[ip] == (IpHit { count: 1, window_start: gap_time }),
{
    reveal_with_fuel(spec_run, 3);
    reveal_with_fuel(spec_flood_count, 3);
    let t0 = times[0];
    lemma_first_hit(m, ip, t0);
    let m1 = m.insert(ip, IpHit { count: 1, window_start: t0 });
    let full = times.push(gap_time);
    assert(full[0] == t0);
    let rest = times.drop_first();
    let tail = seq![gap_time];
    assert(full.drop_first() =~= rest + tail);
    assert(forall|i: int| 0 <= i < rest.len() ==> #[trigger] rest[i] == times[i + 1]);
    assert(forall|i: int|
        0 <= i < rest.len() ==> m1[ip].window_start <= #[trigger] rest[i] && rest[i]
            - m1[ip].window_start <= WINDOW_MILLIS) by {
        assert(forall|i: int| 0 <= i < rest.len() ==> times[0] <= #[trigger] rest[i]);
        assert(forall|i: int|
            0 <= i < rest.len() ==> #[trigger] rest[i] <= times[FLOOD_THRESHOLD - 1]);
    }
    lemma_count_phase(m1, ip, rest);
    lemma_run_concat(m1, ip, rest, tail);
    let m50 = m1.insert(ip, IpHit { count: 50, window_start: t0 });
    assert(spec_run(m1, ip, rest) == m50);
    assert(spec_seed(m50, ip, gap_time) == IpHit { count: 50, window_start: t0 });
    assert(gap_time - t0 > WINDOW_MILLIS);
    assert(spec_rolls_over(m50, ip, gap_time));
    assert(!spec_flood_fires(m50, ip, gap_time));
    assert(spec_hit_update(m50, ip, gap_time) == IpHit { count: 1, window_start: gap_time });
    assert(tail.drop_first() =~= Seq::<u64>::empty());
    assert(spec_flood_count(m50, ip, tail) == 0);
    assert(spec_flood_count(m, ip, full) == 0);
    assert(spec_run(m, ip, full)[ip] == IpHit { count: 1, window_start: gap_time });
}

} // verus!\n