//! The exporter's own metrics: poll and request counters per collector and
//! export counters, rendered for Prometheus and as metric values for OTLP.
//!
//! Durations and uptime are doubles; they are held by their IEEE-754 bits
//! and, for the text exposition, formatted by the caller.

use vstd::prelude::*;

use crate::number::{f64_bits_of, u64_to_f64_bits};
use crate::prometheus::{insert_name, names, strictly_ascending};
use crate::store::{MetricType, MetricValue, MetricValueView, views_of};
use crate::text::{decimal, push_decimal};

verus! {

/// Counters of one collector.
#[derive(Debug, Clone, Copy, PartialEq, Eq, Structural)]
pub struct CollectorStats {
    pub polls_total: u64,
    pub polls_success: u64,
    pub polls_error: u64,
    pub read_requests: u64,
    pub read_errors: u64,
    /// IEEE-754 bits of the last poll's duration in seconds.
    pub last_poll_duration_bits: u64,
}

impl CollectorStats {
    /// All counters at zero, duration `0.0`.
    pub fn new() -> (s: Self)
        ensures
            s == (CollectorStats {
                polls_total: 0,
                polls_success: 0,
                polls_error: 0,
                read_requests: 0,
                read_errors: 0,
                last_poll_duration_bits: 0,
            }),
    {
        CollectorStats {
            polls_total: 0,
            polls_success: 0,
            polls_error: 0,
            read_requests: 0,
            read_errors: 0,
            last_poll_duration_bits: 0,
        }
    }

    /// Stores the last poll's duration (bits of the seconds as a double).
    pub fn set_poll_duration_bits(&mut self, bits: u64)
        ensures
            *final(self) == (CollectorStats { last_poll_duration_bits: bits, ..*old(self) }),
    {
        self.last_poll_duration_bits = bits;
    }

    /// Counts one finished poll cycle: one more poll, `requests` bus requests
    /// and `failures` failed metric reads (counters wrap as atomic adds do),
    /// a success or an error poll, and the cycle's duration.
    pub fn record_poll(&mut self, requests: u64, failures: u64, had_error: bool, duration_bits: u64)
        ensures
            *final(self) == poll_recorded(*old(self), requests, failures, had_error, duration_bits),
    {
        self.polls_total = self.polls_total.wrapping_add(1);
        self.read_requests = self.read_requests.wrapping_add(requests);
        self.read_errors = self.read_errors.wrapping_add(failures);
        self.last_poll_duration_bits = duration_bits;
        if had_error {
            self.polls_error = self.polls_error.wrapping_add(1);
        } else {
            self.polls_success = self.polls_success.wrapping_add(1);
        }
    }

    /// The last poll's duration, as bits of a double.
    pub fn get_poll_duration_bits(&self) -> (bits: u64)
        ensures
            bits == self.last_poll_duration_bits,
    {
        self.last_poll_duration_bits
    }
}

/// The counters of the whole exporter.
#[derive(Debug, Clone)]
pub struct InternalMetrics {
    pub collectors_total: u64,
    /// Per-collector counters, in the order the collectors first appeared.
    pub collectors: Vec<(String, CollectorStats)>,
    pub otlp_exports_total: u64,
    pub otlp_errors_total: u64,
    pub prometheus_scrapes_total: u64,
}

/// `a + b` modulo 2^64.
pub open spec fn wrap_add(a: u64, b: u64) -> u64 {
    ((a + b) % 0x1_0000_0000_0000_0000) as u64
}

/// The counters after one more poll cycle.
pub open spec fn poll_recorded(
    s: CollectorStats,
    requests: u64,
    failures: u64,
    had_error: bool,
    duration_bits: u64,
) -> CollectorStats {
    CollectorStats {
        polls_total: wrap_add(s.polls_total, 1),
        polls_success: if had_error {
            s.polls_success
        } else {
            wrap_add(s.polls_success, 1)
        },
        polls_error: if had_error {
            wrap_add(s.polls_error, 1)
        } else {
            s.polls_error
        },
        read_requests: wrap_add(s.read_requests, requests),
        read_errors: wrap_add(s.read_errors, failures),
        last_poll_duration_bits: duration_bits,
    }
}

/// The counters listed under `name`, or all zero when it has none.
pub open spec fn stats_of(cs: Seq<(Seq<char>, CollectorStats)>, name: Seq<char>) -> CollectorStats {
    match stats_lookup(cs, name) {
        Some(s) => s,
        None => CollectorStats::new_spec(),
    }
}

/// A stats list read as plain values: each collector's name and counters.
pub open spec fn stats_view(cs: Seq<(String, CollectorStats)>) -> Seq<(Seq<char>, CollectorStats)> {
    cs.map_values(|p: (String, CollectorStats)| (p.0@, p.1))
}

/// The position of the first entry named `name` at or after `i`.
pub open spec fn stats_index(cs: Seq<(Seq<char>, CollectorStats)>, name: Seq<char>, i: int) -> Option<int>
    decreases cs.len() - i,
{
    if i < 0 || i >= cs.len() {
        None
    } else if cs[i].0 == name {
        Some(i)
    } else {
        stats_index(cs, name, i + 1)
    }
}

/// The counters listed under `name`, if any.
pub open spec fn stats_lookup(cs: Seq<(Seq<char>, CollectorStats)>, name: Seq<char>) -> Option<CollectorStats> {
    match stats_index(cs, name, 0) {
        Some(i) => Some(cs[i].1),
        None => None,
    }
}

/// The list with an entry for `name`: unchanged when it has one, else with
/// a new entry at zero appended.
pub open spec fn with_collector(cs: Seq<(Seq<char>, CollectorStats)>, name: Seq<char>) -> Seq<(Seq<char>, CollectorStats)> {
    if stats_index(cs, name, 0) is Some {
        cs
    } else {
        cs.push((name, CollectorStats::new_spec()))
    }
}

/// The list with the counters of `name` replaced by `s` (the entry added
/// first when missing).
pub open spec fn with_stats(cs: Seq<(Seq<char>, CollectorStats)>, name: Seq<char>, s: CollectorStats) -> Seq<(Seq<char>, CollectorStats)> {
    let c = with_collector(cs, name);
    match stats_index(c, name, 0) {
        Some(i) => c.update(i, (name, s)),
        None => c,
    }
}

proof fn lemma_stats_index_first(cs: Seq<(Seq<char>, CollectorStats)>, name: Seq<char>, i: int, j: int)
    requires
        0 <= i <= j < cs.len(),
        cs[j].0 == name,
        forall|q: int| i <= q < j ==> cs[q].0 != name,
    ensures
        stats_index(cs, name, i) == Some(j),
    decreases j - i,
{
    if i < j {
        lemma_stats_index_first(cs, name, i + 1, j);
    }
}

proof fn lemma_stats_index_none(cs: Seq<(Seq<char>, CollectorStats)>, name: Seq<char>, i: int)
    requires
        0 <= i,
        forall|q: int| i <= q < cs.len() ==> cs[q].0 != name,
    ensures
        stats_index(cs, name, i) is None,
    decreases cs.len() - i,
{
    if i < cs.len() {
        lemma_stats_index_none(cs, name, i + 1);
    }
}

proof fn lemma_stats_index_push(cs: Seq<(Seq<char>, CollectorStats)>, name: Seq<char>, s: CollectorStats)
    requires
        forall|q: int| 0 <= q < cs.len() ==> cs[q].0 != name,
    ensures
        stats_index(cs.push((name, s)), name, 0) == Some(cs.len() as int),
{
    lemma_stats_index_first(cs.push((name, s)), name, 0, cs.len() as int);
}

/// Two lists whose names agree position by position find a name at the
/// same place.
proof fn lemma_stats_index_same_names(
    a: Seq<(Seq<char>, CollectorStats)>,
    b: Seq<(Seq<char>, CollectorStats)>,
    name: Seq<char>,
    i: int,
)
    requires
        a.len() == b.len(),
        forall|q: int| 0 <= q < a.len() ==> a[q].0 == b[q].0,
    ensures
        stats_index(a, name, i) == stats_index(b, name, i),
    decreases a.len() - i,
{
    if 0 <= i < a.len() {
        lemma_stats_index_same_names(a, b, name, i + 1);
    }
}

/// Appending an entry under another name does not move a name's entry.
proof fn lemma_stats_index_push_other(
    cs: Seq<(Seq<char>, CollectorStats)>,
    x: (Seq<char>, CollectorStats),
    name: Seq<char>,
    i: int,
)
    requires
        x.0 != name,
        0 <= i,
    ensures
        stats_index(cs.push(x), name, i) == stats_index(cs, name, i),
    decreases cs.len() + 1 - i,
{
    if i < cs.len() {
        assert(cs.push(x)[i] == cs[i]);
        lemma_stats_index_push_other(cs, x, name, i + 1);
    } else if i == cs.len() {
        assert(cs.push(x)[i] == x);
        assert(stats_index(cs.push(x), name, i + 1) is None);
    }
}

proof fn lemma_stats_index_found(cs: Seq<(Seq<char>, CollectorStats)>, name: Seq<char>, i: int)
    requires
        0 <= i,
    ensures
        stats_index(cs, name, i) matches Some(j) ==> i <= j < cs.len() && cs[j].0 == name,
    decreases cs.len() - i,
{
    if 0 <= i < cs.len() {
        lemma_stats_index_found(cs, name, i + 1);
    }
}

/// Reading a collector's counters gives what was last written for it.
pub proof fn law_stats_read_after_write(cs: Seq<(Seq<char>, CollectorStats)>, name: Seq<char>, s: CollectorStats)
    ensures
        stats_lookup(with_stats(cs, name, s), name) == Some(s),
{
    let c = with_collector(cs, name);
    if stats_index(cs, name, 0) is None {
        lemma_stats_index_found(cs, name, 0);
        assert forall|q: int| 0 <= q < cs.len() implies cs[q].0 != name by {
            if cs[q].0 == name {
                lemma_first_exists(cs, name, q);
            }
        }
        lemma_stats_index_push(cs, name, CollectorStats::new_spec());
    }
    lemma_stats_index_found(c, name, 0);
    let i = stats_index(c, name, 0)->0;
    let u = c.update(i, (name, s));
    lemma_stats_index_same_names(u, c, name, 0);
}

/// Writing one collector's counters leaves every other collector's as they
/// were (absent ones stay absent).
pub proof fn law_stats_write_keeps_others(
    cs: Seq<(Seq<char>, CollectorStats)>,
    name: Seq<char>,
    other: Seq<char>,
    s: CollectorStats,
)
    requires
        other != name,
    ensures
        stats_lookup(with_stats(cs, name, s), other) == stats_lookup(cs, other),
{
    let c = with_collector(cs, name);
    if stats_index(cs, name, 0) is None {
        lemma_stats_index_push_other(cs, (name, CollectorStats::new_spec()), other, 0);
        lemma_stats_index_found(cs, other, 0);
    }
    assert(stats_index(c, other, 0) == stats_index(cs, other, 0));
    lemma_stats_index_found(c, name, 0);
    lemma_stats_index_found(c, other, 0);
    if stats_index(c, name, 0) is Some {
        let i = stats_index(c, name, 0)->0;
        let u = c.update(i, (name, s));
        lemma_stats_index_same_names(u, c, other, 0);
        if stats_index(c, other, 0) is Some {
            let j = stats_index(c, other, 0)->0;
            assert(j != i);
            assert(u[j] == c[j]);
            if stats_index(cs, name, 0) is None {
                assert(c[j] == cs[j]);
            }
        }
    }
}

/// A collector seen for the first time starts with every counter at zero.
pub proof fn law_stats_created_at_zero(cs: Seq<(Seq<char>, CollectorStats)>, name: Seq<char>)
    requires
        stats_lookup(cs, name) is None,
    ensures
        stats_lookup(with_collector(cs, name), name) == Some(CollectorStats::new_spec()),
{
    assert forall|q: int| 0 <= q < cs.len() implies cs[q].0 != name by {
        if cs[q].0 == name {
            lemma_first_exists(cs, name, q);
        }
    }
    lemma_stats_index_push(cs, name, CollectorStats::new_spec());
}

/// An entry named `name` at `q` means the search finds one.
proof fn lemma_first_exists(cs: Seq<(Seq<char>, CollectorStats)>, name: Seq<char>, q: int)
    requires
        0 <= q < cs.len(),
        cs[q].0 == name,
    ensures
        stats_index(cs, name, 0) is Some,
{
    lemma_first_from(cs, name, 0, q);
}

proof fn lemma_first_from(cs: Seq<(Seq<char>, CollectorStats)>, name: Seq<char>, i: int, q: int)
    requires
        0 <= i <= q < cs.len(),
        cs[q].0 == name,
    ensures
        stats_index(cs, name, i) is Some,
    decreases q - i,
{
    if i < q && cs[i].0 != name {
        lemma_first_from(cs, name, i + 1, q);
    }
}

/// Collector names of a stats list.
pub open spec fn stat_names(cs: Seq<(String, CollectorStats)>) -> Seq<Seq<char>> {
    cs.map_values(|p: (String, CollectorStats)| p.0@)
}

impl InternalMetrics {
    /// The collectors' names and counters, in the order they first appeared.
    pub closed spec fn spec_collectors(&self) -> Seq<(String, CollectorStats)> {
        self.collectors@
    }

    /// Each collector appears once.
    pub closed spec fn wf(&self) -> bool {
        forall|a: int, b: int|
            0 <= a < b < self.collectors@.len() ==> self.collectors@[a].0@
                != self.collectors@[b].0@
    }

    /// Everything at zero, no collector.
    pub fn new() -> (m: Self)
        ensures
            m.wf(),
            m.spec_collectors().len() == 0,
            m.collectors_total == 0,
            m.otlp_exports_total == 0,
            m.otlp_errors_total == 0,
            m.prometheus_scrapes_total == 0,
    {
        InternalMetrics {
            collectors_total: 0,
            collectors: Vec::new(),
            otlp_exports_total: 0,
            otlp_errors_total: 0,
            prometheus_scrapes_total: 0,
        }
    }

    fn position(&self, name: &str) -> (r: Option<usize>)
        ensures
            match r {
                Some(i) => i < self.collectors@.len() && self.collectors@[i as int].0@ == name@
                    && forall|q: int| 0 <= q < i ==> self.collectors@[q].0@ != name@,
                None => forall|i: int| 0 <= i < self.collectors@.len() ==> self.collectors@[i].0@ != name@,
            },
    {
        let key = String::from_str(name);
        let mut i: usize = 0;
        while i < self.collectors.len()
            invariant
                i <= self.collectors@.len(),
                key@ == name@,
                forall|q: int| 0 <= q < i ==> self.collectors@[q].0@ != name@,
            decreases self.collectors@.len() - i,
        {
            if self.collectors[i].0 == key {
                return Some(i);
            }
            i = i + 1;
        }
        None
    }

    /// The counters of a collector, created at zero when it has none yet.
    pub fn get_or_create_collector(&mut self, name: &str) -> (s: CollectorStats)
        requires
            old(self).wf(),
        ensures
            final(self).wf(),
            (exists|i: int|
                0 <= i < old(self).spec_collectors().len() && old(self).spec_collectors()[i].0@
                    == name@) ==> final(self).spec_collectors() == old(self).spec_collectors(),
            (forall|i: int|
                0 <= i < old(self).spec_collectors().len() ==> old(self).spec_collectors()[i].0@
                    != name@) ==> (final(self).spec_collectors().len() == old(
                self,
            ).spec_collectors().len() + 1 && final(self).spec_collectors().drop_last() == old(
                self,
            ).spec_collectors() && final(self).spec_collectors().last().0@ == name@
                && final(self).spec_collectors().last().1 == CollectorStats::new_spec()),
            exists|i: int|
                0 <= i < final(self).spec_collectors().len() && final(self).spec_collectors()[i].0@
                    == name@ && final(self).spec_collectors()[i].1 == s,
            stats_view(final(self).spec_collectors()) == with_collector(
                stats_view(old(self).spec_collectors()),
                name@,
            ),
            stats_lookup(stats_view(final(self).spec_collectors()), name@) == Some(s),
            final(self).collectors_total == old(self).collectors_total,
            final(self).otlp_exports_total == old(self).otlp_exports_total,
            final(self).otlp_errors_total == old(self).otlp_errors_total,
            final(self).prometheus_scrapes_total == old(self).prometheus_scrapes_total,
    {
        match self.position(name) {
            Some(i) => {
                proof {
                    lemma_stats_index_first(stats_view(self.collectors@), name@, 0, i as int);
                }
                self.collectors[i].1
            },
            None => {
                let ghost before = self.collectors@;
                proof {
                    lemma_stats_index_none(stats_view(before), name@, 0);
                }
                let s = CollectorStats::new();
                self.collectors.push((String::from_str(name), s));
                assert(self.collectors@.drop_last() =~= before);
                assert(self.collectors@[before.len() as int].0@ == name@);
                assert(stats_view(self.collectors@) =~= stats_view(before).push((name@, s)));
                proof {
                    lemma_stats_index_push(stats_view(before), name@, s);
                }
                s
            },
        }
    }

    /// Replaces the counters of a collector (creating it if needed).
    pub fn set_collector(&mut self, name: &str, stats: CollectorStats)
        requires
            old(self).wf(),
        ensures
            final(self).wf(),
            exists|i: int|
                0 <= i < final(self).spec_collectors().len() && final(self).spec_collectors()[i].0@
                    == name@ && final(self).spec_collectors()[i].1 == stats,
            forall|i: int|
                0 <= i < old(self).spec_collectors().len() && old(self).spec_collectors()[i].0@
                    != name@ ==> final(self).spec_collectors()[i] == old(self).spec_collectors()[i],
            final(self).spec_collectors().len() >= old(self).spec_collectors().len(),
            stats_view(final(self).spec_collectors()) == with_stats(
                stats_view(old(self).spec_collectors()),
                name@,
                stats,
            ),
            final(self).collectors_total == old(self).collectors_total,
            final(self).otlp_exports_total == old(self).otlp_exports_total,
            final(self).otlp_errors_total == old(self).otlp_errors_total,
            final(self).prometheus_scrapes_total == old(self).prometheus_scrapes_total,
    {
        let _ = self.get_or_create_collector(name);
        let i = self.position(name).unwrap();
        let ghost before = self.collectors@;
        proof {
            lemma_stats_index_first(stats_view(before), name@, 0, i as int);
        }
        let key = String::from_str(name);
        self.collectors.set(i, (key, stats));
        assert(stats_view(self.collectors@) =~= stats_view(before).update(i as int, (name@, stats)));
        assert(forall|q: int| 0 <= q < before.len() && q != i ==> self.collectors@[q] == before[q]);
        assert(self.spec_collectors()[i as int].0@ == name@ && self.spec_collectors()[i as int].1
            == stats);
    }

    /// Counts one finished poll cycle of the collector `name` (created at
    /// zero first when it has no counters yet).
    pub fn record_poll(
        &mut self,
        name: &str,
        requests: u64,
        failures: u64,
        had_error: bool,
        duration_bits: u64,
    )
        requires
            old(self).wf(),
        ensures
            final(self).wf(),
            stats_view(final(self).spec_collectors()) == with_stats(
                stats_view(old(self).spec_collectors()),
                name@,
                poll_recorded(
                    stats_of(stats_view(old(self).spec_collectors()), name@),
                    requests,
                    failures,
                    had_error,
                    duration_bits,
                ),
            ),
            final(self).collectors_total == old(self).collectors_total,
            final(self).otlp_exports_total == old(self).otlp_exports_total,
            final(self).otlp_errors_total == old(self).otlp_errors_total,
            final(self).prometheus_scrapes_total == old(self).prometheus_scrapes_total,
    {
        let ghost before = stats_view(self.collectors@);
        let mut s = self.get_or_create_collector(name);
        let ghost mid = stats_view(self.collectors@);
        proof {
            if stats_index(before, name@, 0) is None {
                law_stats_created_at_zero(before, name@);
                assert forall|q: int| 0 <= q < before.len() implies before[q].0 != name@ by {
                    if before[q].0 == name@ {
                        lemma_first_exists(before, name@, q);
                    }
                }
                lemma_stats_index_push(before, name@, CollectorStats::new_spec());
                assert(with_collector(mid, name@) == mid);
            }
            assert(s == stats_of(before, name@));
        }
        s.record_poll(requests, failures, had_error, duration_bits);
        self.set_collector(name, s);
    }

    /// The names of the collectors, in the order they first appeared.
    pub fn collector_names(&self) -> (v: Vec<String>)
        ensures
            names(v@) == stat_names(self.spec_collectors()),
    {
        let mut v: Vec<String> = Vec::new();
        let mut i: usize = 0;
        while i < self.collectors.len()
            invariant
                i <= self.collectors@.len(),
                v@.len() == i,
                names(v@) =~= stat_names(self.collectors@.take(i as int)),
            decreases self.collectors@.len() - i,
        {
            let ghost before = v@;
            v.push(self.collectors[i].0.clone());
            assert(v@[i as int]@ == self.collectors@[i as int].0@);
            assert(forall|q: int| 0 <= q < i ==> v@[q] == before[q]);
            assert forall|q: int| 0 <= q < i + 1 implies names(v@)[q] == stat_names(
                self.collectors@.take(i + 1),
            )[q] by {
                if q < i {
                    assert(names(before)[q] == stat_names(self.collectors@.take(i as int))[q]);
                }
            }
            i = i + 1;
            assert(names(v@) =~= stat_names(self.collectors@.take(i as int)));
        }
        assert(self.collectors@.take(self.collectors@.len() as int) =~= self.collectors@);
        v
    }
}

impl CollectorStats {
    pub open spec fn new_spec() -> CollectorStats {
        CollectorStats {
            polls_total: 0,
            polls_success: 0,
            polls_error: 0,
            read_requests: 0,
            read_errors: 0,
            last_poll_duration_bits: 0,
        }
    }
}

// ── OTLP values ─────────────────────────────────────────────────────

/// A metric value of the internal scope.
pub open spec fn internal_value(
    name: Seq<char>,
    bits: u64,
    t: MetricType,
    labels: Seq<(String, String)>,
    desc: Seq<char>,
    now: u64,
) -> MetricValueView {
    (name, bits, t, labels, desc, Seq::empty(), now)
}

fn value(name: &str, bits: u64, t: MetricType, labels: Vec<(String, String)>, desc: &str, now: u64) -> (m: MetricValue)
    ensures
        m@ == internal_value(name@, bits, t, labels@, desc@, now),
{
    MetricValue {
        name: String::from_str(name),
        value_bits: bits,
        metric_type: t,
        labels,
        description: String::from_str(desc),
        unit: String::new(),
        updated_at_nanos: now,
    }
}

/// The `collector` label of a collector's values.
pub open spec fn has_collector_label(ls: Seq<(String, String)>, c: Seq<char>) -> bool {
    ls.len() == 1 && ls[0].0@ == "collector"@ && ls[0].1@ == c
}

/// The six values of one collector: five counters, then the last duration.
pub open spec fn collector_values_ok(out: Seq<MetricValueView>, c: Seq<char>, s: CollectorStats, now: u64) -> bool {
    &&& out.len() == 6
    &&& out[0].0 == "bus_exporter_polls_total"@ && out[0].1 == f64_bits_of(s.polls_total as nat)
        && out[0].2 == MetricType::Counter && out[0].4 == "Total poll cycles per collector"@
    &&& out[1].0 == "bus_exporter_polls_success_total"@ && out[1].1 == f64_bits_of(s.polls_success as nat)
        && out[1].2 == MetricType::Counter && out[1].4 == "Successful poll cycles per collector"@
    &&& out[2].0 == "bus_exporter_polls_error_total"@ && out[2].1 == f64_bits_of(s.polls_error as nat)
        && out[2].2 == MetricType::Counter && out[2].4 == "Poll cycles with errors per collector"@
    &&& out[3].0 == "bus_exporter_modbus_requests_total"@ && out[3].1 == f64_bits_of(s.read_requests as nat)
        && out[3].2 == MetricType::Counter && out[3].4 == "Total Modbus register read requests per collector"@
    &&& out[4].0 == "bus_exporter_modbus_errors_total"@ && out[4].1 == f64_bits_of(s.read_errors as nat)
        && out[4].2 == MetricType::Counter && out[4].4 == "Failed Modbus register read requests per collector"@
    &&& out[5].0 == "bus_exporter_poll_duration_seconds"@ && out[5].1 == s.last_poll_duration_bits
        && out[5].2 == MetricType::Gauge && out[5].4 == "Duration of the last poll cycle in seconds"@
    &&& forall|k: int| 0 <= k < 6 ==> has_collector_label(#[trigger] out[k].3, c) && out[k].5 == Seq::<char>::empty() && out[k].6 == now
}

fn collector_label(c: &String) -> (ls: Vec<(String, String)>)
    ensures
        has_collector_label(ls@, c@),
{
    let mut ls: Vec<(String, String)> = Vec::new();
    ls.push((String::from_str("collector"), c.clone()));
    ls
}

impl InternalMetrics {
    /// The values of the internal scope at time `now`: collector count and
    /// uptime, six values per collector, then the export counters.
    /// `uptime_bits` is the uptime in seconds as bits of a double.
    pub fn to_metric_values(&self, uptime_bits: u64, now: u64) -> (out: Vec<MetricValue>)
        ensures
            out@.len() == 2 + 6 * self.spec_collectors().len() + 3,
            views_of(out@)[0] == internal_value(
                "bus_exporter_collectors_total"@,
                f64_bits_of(self.collectors_total as nat) as u64,
                MetricType::Gauge,
                Seq::empty(),
                "Total number of configured collectors"@,
                now,
            ),
            views_of(out@)[1] == internal_value(
                "bus_exporter_uptime_seconds"@,
                uptime_bits,
                MetricType::Gauge,
                Seq::empty(),
                "Seconds since exporter started"@,
                now,
            ),
            forall|i: int|
                0 <= i < self.spec_collectors().len() ==> collector_values_ok(
                    #[trigger] views_of(out@).subrange(2 + 6 * i, 8 + 6 * i),
                    self.spec_collectors()[i].0@,
                    self.spec_collectors()[i].1,
                    now,
                ),
            views_of(out@)[out@.len() - 3] == internal_value(
                "bus_exporter_otlp_exports_total"@,
                f64_bits_of(self.otlp_exports_total as nat) as u64,
                MetricType::Counter,
                Seq::empty(),
                "Total OTLP export attempts"@,
                now,
            ),
            views_of(out@)[out@.len() - 2] == internal_value(
                "bus_exporter_otlp_errors_total"@,
                f64_bits_of(self.otlp_errors_total as nat) as u64,
                MetricType::Counter,
                Seq::empty(),
                "Failed OTLP exports"@,
                now,
            ),
            views_of(out@)[out@.len() - 1] == internal_value(
                "bus_exporter_prometheus_scrapes_total"@,
                f64_bits_of(self.prometheus_scrapes_total as nat) as u64,
                MetricType::Counter,
                Seq::empty(),
                "Total Prometheus scrape requests"@,
                now,
            ),
    {
        let mut out: Vec<MetricValue> = Vec::new();
        out.push(value(
            "bus_exporter_collectors_total",
            u64_to_f64_bits(self.collectors_total),
            MetricType::Gauge,
            Vec::new(),
            "Total number of configured collectors",
            now,
        ));
        out.push(value(
            "bus_exporter_uptime_seconds",
            uptime_bits,
            MetricType::Gauge,
            Vec::new(),
            "Seconds since exporter started",
            now,
        ));
        let ghost head = out@;
        let mut i: usize = 0;
        while i < self.collectors.len()
            invariant
                i <= self.collectors@.len(),
                out@.len() == 2 + 6 * i,
                out@.subrange(0, 2) == head,
                forall|q: int|
                    0 <= q < i ==> collector_values_ok(
                        #[trigger] views_of(out@).subrange(2 + 6 * q, 8 + 6 * q),
                        self.collectors@[q].0@,
                        self.collectors@[q].1,
                        now,
                    ),
            decreases self.collectors@.len() - i,
        {
            let ghost before = out@;
            let c = &self.collectors[i].0;
            let s = self.collectors[i].1;
            out.push(value("bus_exporter_polls_total", u64_to_f64_bits(s.polls_total), MetricType::Counter, collector_label(c), "Total poll cycles per collector", now));
            out.push(value("bus_exporter_polls_success_total", u64_to_f64_bits(s.polls_success), MetricType::Counter, collector_label(c), "Successful poll cycles per collector", now));
            out.push(value("bus_exporter_polls_error_total", u64_to_f64_bits(s.polls_error), MetricType::Counter, collector_label(c), "Poll cycles with errors per collector", now));
            out.push(value("bus_exporter_modbus_requests_total", u64_to_f64_bits(s.read_requests), MetricType::Counter, collector_label(c), "Total Modbus register read requests per collector", now));
            out.push(value("bus_exporter_modbus_errors_total", u64_to_f64_bits(s.read_errors), MetricType::Counter, collector_label(c), "Failed Modbus register read requests per collector", now));
            out.push(value("bus_exporter_poll_duration_seconds", s.last_poll_duration_bits, MetricType::Gauge, collector_label(c), "Duration of the last poll cycle in seconds", now));
            proof {
                assert(out@.subrange(0, 2) =~= before.subrange(0, 2));
                assert forall|q: int| 0 <= q < i + 1 implies collector_values_ok(
                    #[trigger] views_of(out@).subrange(2 + 6 * q, 8 + 6 * q),
                    self.collectors@[q].0@,
                    self.collectors@[q].1,
                    now,
                ) by {
                    if q < i {
                        assert(views_of(out@).subrange(2 + 6 * q, 8 + 6 * q) =~= views_of(before).subrange(2 + 6 * q, 8 + 6 * q));
                    } else {
                        let w = views_of(out@).subrange(2 + 6 * q, 8 + 6 * q);
                        assert(forall|k: int| 0 <= k < 6 ==> #[trigger] w[k] == out@[2 + 6 * q + k]@);
                    }
                }
            }
            i = i + 1;
        }
        let ghost mid = out@;
        out.push(value("bus_exporter_otlp_exports_total", u64_to_f64_bits(self.otlp_exports_total), MetricType::Counter, Vec::new(), "Total OTLP export attempts", now));
        out.push(value("bus_exporter_otlp_errors_total", u64_to_f64_bits(self.otlp_errors_total), MetricType::Counter, Vec::new(), "Failed OTLP exports", now));
        out.push(value("bus_exporter_prometheus_scrapes_total", u64_to_f64_bits(self.prometheus_scrapes_total), MetricType::Counter, Vec::new(), "Total Prometheus scrape requests", now));
        proof {
            assert(out@[0] == head[0] && out@[1] == head[1]) by {
                assert(out@.subrange(0, 2) == mid.subrange(0, 2));
            }
            assert forall|q: int| 0 <= q < self.collectors@.len() implies collector_values_ok(
                #[trigger] views_of(out@).subrange(2 + 6 * q, 8 + 6 * q),
                self.collectors@[q].0@,
                self.collectors@[q].1,
                now,
            ) by {
                assert(views_of(out@).subrange(2 + 6 * q, 8 + 6 * q) =~= views_of(mid).subrange(2 + 6 * q, 8 + 6 * q));
            }
        }
        out
    }
}

// ── Prometheus text ─────────────────────────────────────────────────

/// `# HELP` and `# TYPE` lines of a family.
pub open spec fn header(name: Seq<char>, help: Seq<char>, kind: Seq<char>) -> Seq<char> {
    "# HELP "@ + name + " "@ + help + "\n"@ + "# TYPE "@ + name + " "@ + kind + "\n"@
}

/// A sample line without labels.
pub open spec fn plain_line(name: Seq<char>, v: Seq<char>) -> Seq<char> {
    name + " "@ + v + "\n"@
}

/// A sample line of one collector.
pub open spec fn collector_line(name: Seq<char>, c: Seq<char>, v: Seq<char>) -> Seq<char> {
    name + "{collector=\""@ + c + "\"} "@ + v + "\n"@
}

/// Name of per-collector family `k`.
pub open spec fn family_name(k: int) -> Seq<char> {
    if k == 0 {
        "bus_exporter_polls_total"@
    } else if k == 1 {
        "bus_exporter_polls_success_total"@
    } else if k == 2 {
        "bus_exporter_polls_error_total"@
    } else if k == 3 {
        "bus_exporter_modbus_requests_total"@
    } else if k == 4 {
        "bus_exporter_modbus_errors_total"@
    } else {
        "bus_exporter_poll_duration_seconds"@
    }
}

/// Help text of per-collector family `k`.
pub open spec fn family_help(k: int) -> Seq<char> {
    if k == 0 {
        "Total poll cycles per collector"@
    } else if k == 1 {
        "Successful poll cycles per collector"@
    } else if k == 2 {
        "Poll cycles with errors per collector"@
    } else if k == 3 {
        "Total Modbus register read requests per collector"@
    } else if k == 4 {
        "Failed Modbus register read requests per collector"@
    } else {
        "Duration of the last poll cycle in seconds"@
    }
}

/// Type of per-collector family `k`.
pub open spec fn family_kind(k: int) -> Seq<char> {
    if k == 5 {
        "gauge"@
    } else {
        "counter"@
    }
}

/// Value text of family `k` for a collector; the duration is given as text.
pub open spec fn family_value(s: CollectorStats, k: int, duration: Seq<char>) -> Seq<char> {
    if k == 0 {
        decimal(s.polls_total as nat)
    } else if k == 1 {
        decimal(s.polls_success as nat)
    } else if k == 2 {
        decimal(s.polls_error as nat)
    } else if k == 3 {
        decimal(s.read_requests as nat)
    } else if k == 4 {
        decimal(s.read_errors as nat)
    } else {
        duration
    }
}

/// Position of collector `c` in the stats list (first match).
pub open spec fn stat_index(cs: Seq<(String, CollectorStats)>, c: Seq<char>) -> int
    decreases cs.len(),
{
    if cs.len() == 0 {
        0
    } else if cs[0].0@ == c {
        0
    } else {
        1 + stat_index(cs.drop_first(), c)
    }
}

/// The lines of family `k` for the first `n` collectors of `order`.
pub open spec fn family_lines(
    k: int,
    order: Seq<Seq<char>>,
    cs: Seq<(String, CollectorStats)>,
    durations: Seq<String>,
    n: int,
) -> Seq<char>
    decreases n,
{
    if n <= 0 {
        Seq::empty()
    } else {
        let c = order[n - 1];
        let j = stat_index(cs, c);
        family_lines(k, order, cs, durations, n - 1) + collector_line(
            family_name(k),
            c,
            family_value(cs[j].1, k, durations[j]@),
        )
    }
}

/// The first `k` per-collector families.
pub open spec fn families(
    k: int,
    order: Seq<Seq<char>>,
    cs: Seq<(String, CollectorStats)>,
    durations: Seq<String>,
) -> Seq<char>
    decreases k,
{
    if k <= 0 {
        Seq::empty()
    } else {
        families(k - 1, order, cs, durations) + header(
            family_name(k - 1),
            family_help(k - 1),
            family_kind(k - 1),
        ) + family_lines(k - 1, order, cs, durations, order.len() as int)
    }
}

/// The collector names, each once, in ascending order.
pub open spec fn collector_order(cs: Seq<(String, CollectorStats)>) -> Seq<Seq<char>> {
    choose|o: Seq<Seq<char>>|
        strictly_ascending(o) && forall|z: Seq<char>| #[trigger] o.contains(z) <==> stat_names(cs).contains(z)
}

/// The exposition of the internal metrics.
pub open spec fn internal_text(m: InternalMetrics, uptime: Seq<char>, durations: Seq<String>) -> Seq<char> {
    let cs = m.collectors@;
    header("bus_exporter_collectors_total"@, "Total number of configured collectors"@, "gauge"@)
        + plain_line("bus_exporter_collectors_total"@, decimal(m.collectors_total as nat))
        + header("bus_exporter_uptime_seconds"@, "Seconds since exporter started"@, "gauge"@)
        + plain_line("bus_exporter_uptime_seconds"@, uptime)
        + (if cs.len() > 0 { families(6, collector_order(cs), cs, durations) } else { Seq::empty() })
        + header("bus_exporter_otlp_exports_total"@, "Total OTLP export attempts"@, "counter"@)
        + plain_line("bus_exporter_otlp_exports_total"@, decimal(m.otlp_exports_total as nat))
        + header("bus_exporter_otlp_errors_total"@, "Failed OTLP exports"@, "counter"@)
        + plain_line("bus_exporter_otlp_errors_total"@, decimal(m.otlp_errors_total as nat))
        + header("bus_exporter_prometheus_scrapes_total"@, "Total Prometheus scrape requests"@, "counter"@)
        + plain_line("bus_exporter_prometheus_scrapes_total"@, decimal(m.prometheus_scrapes_total as nat))
}

fn push_header(out: &mut String, name: &str, help: &str, kind: &str)
    ensures
        final(out)@ == old(out)@ + header(name@, help@, kind@),
{
    out.append("# HELP ");
    out.append(name);
    out.append(" ");
    out.append(help);
    out.append("\n");
    out.append("# TYPE ");
    out.append(name);
    out.append(" ");
    out.append(kind);
    out.append("\n");
}

fn push_counter_line(out: &mut String, name: &str, v: u64)
    ensures
        final(out)@ == old(out)@ + plain_line(name@, decimal(v as nat)),
{
    out.append(name);
    out.append(" ");
    push_decimal(out, v);
    out.append("\n");
}

fn family_strs(k: usize) -> (r: (&'static str, &'static str, &'static str))
    requires
        k < 6,
    ensures
        r.0@ == family_name(k as int),
        r.1@ == family_help(k as int),
        r.2@ == family_kind(k as int),
{
    if k == 0 {
        ("bus_exporter_polls_total", "Total poll cycles per collector", "counter")
    } else if k == 1 {
        ("bus_exporter_polls_success_total", "Successful poll cycles per collector", "counter")
    } else if k == 2 {
        ("bus_exporter_polls_error_total", "Poll cycles with errors per collector", "counter")
    } else if k == 3 {
        ("bus_exporter_modbus_requests_total", "Total Modbus register read requests per collector", "counter")
    } else if k == 4 {
        ("bus_exporter_modbus_errors_total", "Failed Modbus register read requests per collector", "counter")
    } else {
        ("bus_exporter_poll_duration_seconds", "Duration of the last poll cycle in seconds", "gauge")
    }
}

fn push_family_value(out: &mut String, s: CollectorStats, k: usize, duration: &String)
    requires
        k < 6,
    ensures
        final(out)@ == old(out)@ + family_value(s, k as int, duration@),
{
    if k == 0 {
        push_decimal(out, s.polls_total);
    } else if k == 1 {
        push_decimal(out, s.polls_success);
    } else if k == 2 {
        push_decimal(out, s.polls_error);
    } else if k == 3 {
        push_decimal(out, s.read_requests);
    } else if k == 4 {
        push_decimal(out, s.read_errors);
    } else {
        out.append(duration.as_str());
    }
}

impl InternalMetrics {
    fn stat_position(&self, c: &String) -> (j: usize)
        requires
            exists|i: int| 0 <= i < self.collectors@.len() && self.collectors@[i].0@ == c@,
        ensures
            j == stat_index(self.collectors@, c@),
            j < self.collectors@.len(),
    {
        let mut j: usize = 0;
        assert(self.collectors@.skip(0) =~= self.collectors@);
        while j < self.collectors.len()
            invariant
                j <= self.collectors@.len(),
                stat_index(self.collectors@, c@) == j + stat_index(self.collectors@.skip(j as int), c@),
                exists|i: int| j <= i < self.collectors@.len() && self.collectors@[i].0@ == c@,
            decreases self.collectors@.len() - j,
        {
            assert(self.collectors@.skip(j as int)[0] == self.collectors@[j as int]);
            if self.collectors[j].0 == *c {
                return j;
            }
            assert(self.collectors@.skip(j as int).drop_first() =~= self.collectors@.skip(j + 1));
            j = j + 1;
        }
        0
    }

    fn sorted_collector_names(&self) -> (order: Vec<String>)
        ensures
            names(order@) == collector_order(self.collectors@),
            forall|z: Seq<char>| #[trigger] names(order@).contains(z) <==> stat_names(self.collectors@).contains(z),
    {
        let all = self.collector_names();
        let mut order: Vec<String> = Vec::new();
        let mut i: usize = 0;
        while i < all.len()
            invariant
                i <= all@.len(),
                names(all@) == stat_names(self.collectors@),
                strictly_ascending(names(order@)),
                forall|z: Seq<char>| #[trigger]
                    names(order@).contains(z) <==> names(all@.take(i as int)).contains(z),
            decreases all@.len() - i,
        {
            let ghost before = names(order@);
            let item = all[i].clone();
            assert(item@ == all@[i as int]@);
            insert_name(&mut order, item);
            proof {
                let t0 = names(all@.take(i as int));
                let t1 = names(all@.take(i + 1));
                assert(t1 =~= t0.push(all@[i as int]@));
                assert forall|z: Seq<char>| #[trigger] names(order@).contains(z) <==> t1.contains(z) by {
                    if t1.contains(z) {
                        let q = choose|q: int| 0 <= q < t1.len() && t1[q] == z;
                        if q < i {
                            assert(t0[q] == z);
                            assert(t0.contains(z));
                        }
                    }
                    if t0.contains(z) {
                        let q = choose|q: int| 0 <= q < t0.len() && t0[q] == z;
                        assert(t1[q] == z);
                    }
                    if z == all@[i as int]@ {
                        assert(t1[i as int] == z);
                    }
                    assert(before.contains(z) <==> t0.contains(z));
                }
            }
            i = i + 1;
        }
        let ghost ord = names(order@);
        proof {
            assert(all@.take(all@.len() as int) =~= all@);
            let chosen = collector_order(self.collectors@);
            assert(strictly_ascending(ord) && forall|z: Seq<char>| #[trigger] ord.contains(z)
                <==> stat_names(self.collectors@).contains(z));
            assert forall|x: Seq<char>| chosen.contains(x) <==> ord.contains(x) by {}
            crate::prometheus::lemma_family_order_unique(chosen, ord);
        }
        order
    }

    fn push_families(&self, out: &mut String, order: &Vec<String>, durations: &Vec<String>)
        requires
            durations@.len() == self.collectors@.len(),
            names(order@) == collector_order(self.collectors@),
            forall|z: Seq<char>| #[trigger] names(order@).contains(z) <==> stat_names(self.collectors@).contains(z),
        ensures
            final(out)@ == old(out)@ + families(6, collector_order(self.collectors@), self.collectors@, durations@),
    {
        let ghost ord = names(order@);
        let mut k: usize = 0;
        let ghost fam_start = out@;
        while k < 6
            invariant
                k <= 6,
                ord == names(order@),
                ord == collector_order(self.collectors@),
                durations@.len() == self.collectors@.len(),
                forall|z: Seq<char>| #[trigger] ord.contains(z) <==> stat_names(self.collectors@).contains(z),
                out@ =~= fam_start + families(k as int, ord, self.collectors@, durations@),
            decreases 6 - k,
        {
            let (name, help, kind) = family_strs(k);
            push_header(out, name, help, kind);
            let ghost lines_start = out@;
            let mut g: usize = 0;
            while g < order.len()
                invariant
                    g <= order@.len(),
                    k < 6,
                    name@ == family_name(k as int),
                    ord == names(order@),
                    durations@.len() == self.collectors@.len(),
                    forall|z: Seq<char>| #[trigger] ord.contains(z) <==> stat_names(self.collectors@).contains(z),
                    out@ =~= lines_start + family_lines(k as int, ord, self.collectors@, durations@, g as int),
                decreases order@.len() - g,
            {
                let c = &order[g];
                proof {
                    assert(ord[g as int] == c@);
                    assert(ord.contains(c@));
                    assert(stat_names(self.collectors@).contains(c@));
                    let q = choose|q: int| 0 <= q < stat_names(self.collectors@).len() && stat_names(self.collectors@)[q] == c@;
                    assert(self.collectors@[q].0@ == c@);
                }
                let j = self.stat_position(c);
                out.append(name);
                out.append("{collector=\"");
                out.append(c.as_str());
                out.append("\"} ");
                push_family_value(out, self.collectors[j].1, k, &durations[j]);
                out.append("\n");
                g = g + 1;
            }
            k = k + 1;
        }
    }

    /// The Prometheus exposition of the internal metrics.  `uptime` is the
    /// uptime as text (one decimal); `durations[i]` is the last poll duration
    /// of the `i`-th collector as text (six decimals).  Collectors appear in
    /// ascending name order.
    pub fn render_prometheus(&self, uptime: &str, durations: &Vec<String>) -> (out: String)
        requires
            durations@.len() == self.collectors@.len(),
        ensures
            out@ == internal_text(*self, uptime@, durations@),
    {
        let mut out = String::new();
        push_header(&mut out, "bus_exporter_collectors_total", "Total number of configured collectors", "gauge");
        push_counter_line(&mut out, "bus_exporter_collectors_total", self.collectors_total);
        push_header(&mut out, "bus_exporter_uptime_seconds", "Seconds since exporter started", "gauge");
        out.append("bus_exporter_uptime_seconds");
        out.append(" ");
        out.append(uptime);
        out.append("\n");
        let ghost head = out@;
        if self.collectors.len() > 0 {
            let order = self.sorted_collector_names();
            self.push_families(&mut out, &order, durations);
        }
        push_header(&mut out, "bus_exporter_otlp_exports_total", "Total OTLP export attempts", "counter");
        push_counter_line(&mut out, "bus_exporter_otlp_exports_total", self.otlp_exports_total);
        push_header(&mut out, "bus_exporter_otlp_errors_total", "Failed OTLP exports", "counter");
        push_counter_line(&mut out, "bus_exporter_otlp_errors_total", self.otlp_errors_total);
        push_header(&mut out, "bus_exporter_prometheus_scrapes_total", "Total Prometheus scrape requests", "counter");
        push_counter_line(&mut out, "bus_exporter_prometheus_scrapes_total", self.prometheus_scrapes_total);
        out
    }
}

} // verus!
