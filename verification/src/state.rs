//! Shared aggregate traffic counters: the store written by the capture path
//! and read by the presentation path. Counters only ever grow; the alert list
//! is append-only.

use vstd::prelude::*;

verus! {

/// Aggregate traffic statistics for one run, plus the append-only list of
/// alert lines raised so far.
pub struct Stats {
    pub total_packets: u64,
    pub tcp_packets: u64,
    pub udp_packets: u64,
    pub alerts: Vec<String>,
}

impl Stats {
    /// Counter consistency: TCP and UDP packets are classified packets, so
    /// together they can never outnumber the total.
    pub open spec fn wf(self) -> bool {
        self.tcp_packets + self.udp_packets <= self.total_packets
    }

    /// A fresh store: all counters zero, no alerts.
    pub fn new() -> (r: Stats)
        ensures
            r.wf(),
            r.total_packets == 0,
            r.tcp_packets == 0,
            r.udp_packets == 0,
            r.alerts@ == Seq::<String>::empty(),
    {
        Stats { total_packets: 0, tcp_packets: 0, udp_packets: 0, alerts: Vec::new() }
    }

    /// Count one classified packet: the total always advances by one, and the
    /// TCP or UDP counter advances exactly when the protocol id says so.
    pub fn record(&mut self, protocol: u8)
        requires
            old(self).wf(),
            old(self).total_packets < u64::MAX,
        ensures
            final(self).wf(),
            final(self).total_packets == old(self).total_packets + 1,
            final(self).tcp_packets == old(self).tcp_packets + (if protocol == 6 { 1int } else { 0 }),
            final(self).udp_packets == old(self).udp_packets + (if protocol == 17 { 1int } else { 0 }),
            final(self).alerts@ == old(self).alerts@,
    {
        self.total_packets = self.total_packets + 1;
        if protocol == 6 {
            self.tcp_packets = self.tcp_packets + 1;
        } else if protocol == 17 {
            self.udp_packets = self.udp_packets + 1;
        }
    }

    /// Append one alert line; the counters are untouched.
    pub fn record_alert(&mut self, line: String)
        ensures
            final(self).total_packets == old(self).total_packets,
            final(self).tcp_packets == old(self).tcp_packets,
            final(self).udp_packets == old(self).udp_packets,
            final(self).alerts@ == old(self).alerts@.push(line),
    {
        self.alerts.push(line);
    }

    /// A consistent copy of every counter and of the alert list, taken at one
    /// instant; the caller is expected to hold the store's guard while taking it.
    pub fn snapshot(&self) -> (r: (u64, u64, u64, Vec<String>))
        ensures
            r.0 == self.total_packets,
            r.1 == self.tcp_packets,
            r.2 == self.udp_packets,
            r.3@ == self.alerts@,
    {
        let mut copied: Vec<String> = Vec::new();
        let mut i: usize = 0;
        while i < self.alerts.len()
            invariant
                i <= self.alerts.len(),
                copied@ == self.alerts@.subrange(0, i as int),
            decreases self.alerts.len() - i,
        {
            copied.push(self.alerts[i].clone());
            i = i + 1;
        }
        proof {
            assert(copied@ =~= self.alerts@);
        }
        (self.total_packets, self.tcp_packets, self.udp_packets, copied)
    }
}

impl Default for Stats {
    /// Same store as `Stats::new`: everything zero, no alerts.
    fn default() -> (r: Stats)
        ensures
            r.wf(),
            r.total_packets == 0,
            r.tcp_packets == 0,
            r.udp_packets == 0,
            r.alerts@ == Seq::<String>::empty(),
    {
        Stats::new()
    }
}

/// The one mutual-exclusion guard shared by the capture writer and the
/// dashboard reader; `vstd` gives `Mutex` no specification, so it is declared
/// here and stays opaque.
#[verifier::external_type_specification]
#[verifier::external_body]
#[verifier::reject_recursive_types(T)]
pub struct ExMutex<T: ?Sized>(std::sync::Mutex<T>);

/// Relies on `std::sync::Mutex::new`: wraps a value for exclusive shared
/// access; nothing about the wrapped value is visible afterwards.
pub assume_specification<T>[ std::sync::Mutex::<T>::new ](t: T) -> std::sync::Mutex<T>;

/// One process-lifetime shared store, fresh counters, behind a single guard.
pub fn create_shared_state() -> std::sync::Arc<std::sync::Mutex<Stats>> {
    std::sync::Arc::new(std::sync::Mutex::new(Stats::new()))
}


/// The counters after one recorded packet: what `Stats::record` promises.
pub open spec fn spec_record_step(s: Stats, protocol: u8) -> Stats {
    Stats {
        total_packets: (s.total_packets + 1) as u64,
        tcp_packets: if protocol == 6 {
            (s.tcp_packets + 1) as u64
        } else {
            s.tcp_packets
        },
        udp_packets: if protocol == 17 {
            (s.udp_packets + 1) as u64
        } else {
            s.udp_packets
        },
        alerts: s.alerts,
    }
}

/// The counters after a run of recorded packets, one protocol id each.
pub open spec fn spec_record_run(s: Stats, ps: Seq<u8>) -> Stats
    decreases ps.len(),
{
    if ps.len() == 0 {
        s
    } else {
        spec_record_run(spec_record_step(s, ps[0]), ps.drop_first())
    }
}

/// How many of the protocol ids equal the given one.
pub open spec fn count_matching(ps: Seq<u8>, v: u8) -> nat
    decreases ps.len(),
{
    if ps.len() == 0 {
        0
    } else {
        (if ps[0] == v {
            1nat
        } else {
            0nat
        }) + count_matching(ps.drop_first(), v)
    }
}

/// Over any run of recorded packets the total advances by their number, the
/// TCP and UDP counters by exactly the packets of their protocol, and the
/// counters stay consistent.
pub proof fn lemma_record_run(s: Stats, ps: Seq<u8>)
    requires
        s.wf(),
        s.total_packets + ps.len() <= u64::MAX,
    ensures
        spec_record_run(s, ps).wf(),
        spec_record_run(s, ps).total_packets == s.total_packets + ps.len(),
        spec_record_run(s, ps).tcp_packets == s.tcp_packets + count_matching(ps, 6),
        spec_record_run(s, ps).udp_packets == s.udp_packets + count_matching(ps, 17),
        spec_record_run(s, ps).alerts == s.alerts,
    decreases ps.len(),
{
    if ps.len() > 0 {
        lemma_record_run(spec_record_step(s, ps[0]), ps.drop_first());
    }
}

/// From a fresh store, after any run of recorded packets the total equals the
/// number of packets, and the TCP and UDP counts together never exceed it --
/// they fall short by exactly the packets of other protocols.
pub proof fn lemma_counters_track_packets(s: Stats, ps: Seq<u8>)
    requires
        s.total_packets == 0,
        s.tcp_packets == 0,
        s.udp_packets == 0,
        ps.len() <= u64::MAX,
    ensures
        spec_record_run(s, ps).total_packets == ps.len(),
        spec_record_run(s, ps).tcp_packets == count_matching(ps, 6),
        spec_record_run(s, ps).udp_packets == count_matching(ps, 17),
        spec_record_run(s, ps).tcp_packets + spec_record_run(s, ps).udp_packets <= ps.len(),
{
    lemma_record_run(s, ps);
}

} // verus!\n