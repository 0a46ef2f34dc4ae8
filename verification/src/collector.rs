//! The decisions of a collector's polling loop.
//!
//! Each poll cycle reads every configured metric into a fresh cache.  A
//! metric whose read fails keeps its previous value (with a new timestamp),
//! and a `<name>_errors` counter tracks its failures.  Lost connections are
//! re-established with a doubling backoff.

use vstd::prelude::*;

use crate::config;
use crate::number::{f64_bits_of, u64_to_f64_bits};
use crate::store::{MetricType, MetricValue, MetricValueView, clone_metric};

verus! {

/// Initial reconnection backoff, in milliseconds.
pub const INITIAL_BACKOFF_MS: u64 = 1000;

/// Largest reconnection backoff, in milliseconds.
pub const MAX_BACKOFF_MS: u64 = 60000;

/// Default time allowed for the collectors to stop, in milliseconds.
pub const DEFAULT_SHUTDOWN_TIMEOUT_MS: u64 = 5000;

/// The backoff after a failed (re)connection: doubled, at most a minute.
pub open spec fn doubled_backoff(ms: u64) -> u64 {
    if ms * 2 > MAX_BACKOFF_MS {
        MAX_BACKOFF_MS
    } else {
        (ms * 2) as u64
    }
}

/// The next reconnection backoff.
pub fn next_backoff(ms: u64) -> (r: u64)
    requires
        ms <= MAX_BACKOFF_MS,
    ensures
        r == doubled_backoff(ms),
        r <= MAX_BACKOFF_MS,
{
    if ms * 2 > MAX_BACKOFF_MS {
        MAX_BACKOFF_MS
    } else {
        ms * 2
    }
}

/// The metric type that the exporters see for a configured metric type.
pub open spec fn spec_map_metric_type(mt: config::MetricType) -> MetricType {
    match mt {
        config::MetricType::Gauge => MetricType::Gauge,
        config::MetricType::Counter => MetricType::Counter,
    }
}

/// Maps a configured metric type to the exporters' metric type.
pub fn map_metric_type(mt: config::MetricType) -> (r: MetricType)
    ensures
        r == spec_map_metric_type(mt),
{
    match mt {
        config::MetricType::Gauge => MetricType::Gauge,
        config::MetricType::Counter => MetricType::Counter,
    }
}

/// How long the loop sleeps after a cycle that took `elapsed_ms`: the rest
/// of the polling interval, or nothing when the cycle overran it.
pub fn remaining_sleep_ms(elapsed_ms: u64, interval_ms: u64) -> (r: Option<u64>)
    ensures
        elapsed_ms < interval_ms ==> r == Some((interval_ms - elapsed_ms) as u64),
        elapsed_ms >= interval_ms ==> r is None,
{
    if elapsed_ms < interval_ms {
        Some(interval_ms - elapsed_ms)
    } else {
        None
    }
}

/// Whether a cycle that took `elapsed_ms` used more than 80 % of the interval.
pub fn exceeds_warn_threshold(elapsed_ms: u64, interval_ms: u64) -> (r: bool)
    ensures
        r <==> 5 * elapsed_ms > 4 * interval_ms,
{
    (elapsed_ms as u128) * 5 > (interval_ms as u128) * 4
}

// ── Metric caches keyed by name ─────────────────────────────────────

/// The metrics of a list by name; a later metric replaces an earlier one.
pub open spec fn cache_map(items: Seq<MetricValue>) -> Map<Seq<char>, MetricValueView>
    decreases items.len(),
{
    if items.len() == 0 {
        Map::empty()
    } else {
        cache_map(items.drop_last()).insert(items.last().name@, items.last()@)
    }
}

/// No two metrics of the list share a name.
pub open spec fn names_distinct(items: Seq<MetricValue>) -> bool {
    forall|a: int, b: int| 0 <= a < b < items.len() ==> items[a].name@ != items[b].name@
}

proof fn lemma_cache_map(items: Seq<MetricValue>)
    requires
        names_distinct(items),
    ensures
        forall|i: int|
            0 <= i < items.len() ==> #[trigger] cache_map(items).contains_key(items[i].name@)
                && cache_map(items)[items[i].name@] == items[i]@,
        forall|k: Seq<char>| #[trigger]
            cache_map(items).contains_key(k) ==> exists|i: int|
                0 <= i < items.len() && items[i].name@ == k,
    decreases items.len(),
{
    if items.len() > 0 {
        let rest = items.drop_last();
        assert(names_distinct(rest));
        lemma_cache_map(rest);
        assert forall|k: Seq<char>| #[trigger] cache_map(items).contains_key(k) implies exists|
            i: int,
        | 0 <= i < items.len() && items[i].name@ == k by {
            if k != items.last().name@ {
                assert(cache_map(rest).contains_key(k));
                let i = choose|i: int| 0 <= i < rest.len() && rest[i].name@ == k;
                assert(items[i] == rest[i]);
            } else {
                assert(items[items.len() - 1].name@ == k);
            }
        }
        assert forall|i: int| 0 <= i < items.len() implies #[trigger] cache_map(
            items,
        ).contains_key(items[i].name@) && cache_map(items)[items[i].name@] == items[i]@ by {
            if i < items.len() - 1 {
                assert(items[i] == rest[i]);
                assert(items[i].name@ != items[items.len() - 1].name@);
                assert(cache_map(rest).contains_key(rest[i].name@));
            }
        }
    }
}

/// A set of metric values with distinct names.
#[derive(Debug)]
pub struct MetricCache {
    items: Vec<MetricValue>,
}

impl View for MetricCache {
    type V = Map<Seq<char>, MetricValueView>;

    closed spec fn view(&self) -> Map<Seq<char>, MetricValueView> {
        cache_map(self.items@)
    }
}

impl MetricCache {
    /// Names are distinct.
    pub closed spec fn wf(&self) -> bool {
        names_distinct(self.items@)
    }

    /// An empty cache.
    pub fn new() -> (c: Self)
        ensures
            c.wf(),
            c@ == Map::<Seq<char>, MetricValueView>::empty(),
    {
        MetricCache { items: Vec::new() }
    }

    fn find(&self, name: &String) -> (r: Option<usize>)
        requires
            self.wf(),
        ensures
            match r {
                Some(i) => i < self.items@.len() && self.items@[i as int].name@ == name@,
                None => !self@.contains_key(name@),
            },
    {
        proof {
            lemma_cache_map(self.items@);
        }
        let mut i: usize = 0;
        while i < self.items.len()
            invariant
                i <= self.items@.len(),
                forall|q: int| 0 <= q < i ==> self.items@[q].name@ != name@,
            decreases self.items@.len() - i,
        {
            if self.items[i].name == *name {
                return Some(i);
            }
            i = i + 1;
        }
        None
    }

    /// Whether a metric of this name is cached.
    pub fn contains(&self, name: &String) -> (b: bool)
        requires
            self.wf(),
        ensures
            b == self@.contains_key(name@),
    {
        proof {
            lemma_cache_map(self.items@);
        }
        match self.find(name) {
            Some(_) => true,
            None => false,
        }
    }

    /// Stores `m` under its name, replacing what was there.
    pub fn insert(&mut self, m: MetricValue)
        requires
            old(self).wf(),
        ensures
            final(self).wf(),
            final(self)@ == old(self)@.insert(m.name@, m@),
    {
        let ghost before = self.items@;
        proof {
            lemma_cache_map(before);
        }
        match self.find(&m.name) {
            Some(i) => {
                let ghost mv = m@;
                let ghost k = m.name@;
                self.items.set(i, m);
                proof {
                    let after = self.items@;
                    assert(names_distinct(after)) by {
                        assert forall|a: int, b: int| 0 <= a < b < after.len() implies after[a].name@
                            != after[b].name@ by {
                            if a != i && b != i {
                                assert(after[a] == before[a] && after[b] == before[b]);
                            }
                        }
                    }
                    lemma_cache_map(after);
                    let m1 = cache_map(after);
                    let m2 = cache_map(before).insert(k, mv);
                    assert forall|x: Seq<char>| m1.contains_key(x) <==> m2.contains_key(x) by {
                        if m1.contains_key(x) {
                            let j = choose|j: int| 0 <= j < after.len() && after[j].name@ == x;
                            if j != i {
                                assert(after[j] == before[j]);
                                assert(cache_map(before).contains_key(before[j].name@));
                            }
                        }
                        if m2.contains_key(x) && x != k {
                            let j = choose|j: int| 0 <= j < before.len() && before[j].name@ == x;
                            assert(j != i);
                            assert(after[j] == before[j]);
                            assert(m1.contains_key(after[j].name@));
                        }
                        if x == k {
                            assert(m1.contains_key(after[i as int].name@));
                        }
                    }
                    assert forall|x: Seq<char>| m1.contains_key(x) implies m1[x] == m2[x] by {
                        let j = choose|j: int| 0 <= j < after.len() && after[j].name@ == x;
                        if j != i {
                            assert(after[j] == before[j]);
                            assert(cache_map(before).contains_key(before[j].name@));
                        }
                    }
                    assert(m1 =~= m2);
                }
            },
            None => {
                self.items.push(m);
                proof {
                    let after = self.items@;
                    assert(after.drop_last() =~= before);
                    assert(names_distinct(after)) by {
                        assert forall|a: int, b: int| 0 <= a < b < after.len() implies after[a].name@
                            != after[b].name@ by {
                            if b < before.len() {
                                assert(after[a] == before[a] && after[b] == before[b]);
                            } else {
                                assert(after[a] == before[a]);
                                assert(cache_map(before).contains_key(before[a].name@));
                            }
                        }
                    }
                }
            },
        }
    }

    /// Sets the value and timestamp of the cached metric `name`.
    pub fn set_value(&mut self, name: &String, value_bits: u64, now: u64)
        requires
            old(self).wf(),
            old(self)@.contains_key(name@),
        ensures
            final(self).wf(),
            final(self)@ == old(self)@.insert(
                name@,
                (
                    old(self)@[name@].0,
                    value_bits,
                    old(self)@[name@].2,
                    old(self)@[name@].3,
                    old(self)@[name@].4,
                    old(self)@[name@].5,
                    now,
                ),
            ),
    {
        proof {
            lemma_cache_map(self.items@);
        }
        let i = self.find(name).unwrap();
        let mut m = clone_metric(&self.items[i]);
        m.value_bits = value_bits;
        m.updated_at_nanos = now;
        self.insert(m);
    }

    /// The cached metrics, in no particular order.
    pub fn values(&self) -> (out: Vec<MetricValue>)
        requires
            self.wf(),
        ensures
            names_distinct(out@),
            cache_map(out@) == self@,
    {
        let mut out: Vec<MetricValue> = Vec::new();
        let mut i: usize = 0;
        while i < self.items.len()
            invariant
                i <= self.items@.len(),
                out@.len() == i,
                forall|q: int| 0 <= q < i ==> #[trigger] out@[q]@ == self.items@[q]@,
            decreases self.items@.len() - i,
        {
            out.push(clone_metric(&self.items[i]));
            i = i + 1;
        }
        proof {
            lemma_same_views(out@, self.items@);
        }
        out
    }

    /// Number of cached metrics.
    pub fn len(&self) -> (n: usize)
        requires
            self.wf(),
        ensures
            n == self@.dom().len(),
    {
        proof {
            lemma_cache_len(self.items@);
        }
        self.items.len()
    }
}

proof fn lemma_same_views(a: Seq<MetricValue>, b: Seq<MetricValue>)
    requires
        a.len() == b.len(),
        forall|q: int| 0 <= q < a.len() ==> #[trigger] a[q]@ == b[q]@,
    ensures
        cache_map(a) == cache_map(b),
        names_distinct(b) ==> names_distinct(a),
    decreases a.len(),
{
    if a.len() > 0 {
        lemma_same_views(a.drop_last(), b.drop_last());
        assert(a.last()@ == b.last()@);
    }
    assert forall|x: int, y: int| 0 <= x < y < a.len() && names_distinct(b) implies a[x].name@
        != a[y].name@ by {
        assert(a[x]@ == b[x]@ && a[y]@ == b[y]@);
    }
}

proof fn lemma_cache_len(items: Seq<MetricValue>)
    requires
        names_distinct(items),
    ensures
        cache_map(items).dom().finite(),
        cache_map(items).dom().len() == items.len(),
    decreases items.len(),
{
    if items.len() > 0 {
        let rest = items.drop_last();
        lemma_cache_len(rest);
        lemma_cache_map(rest);
        assert(!cache_map(rest).contains_key(items.last().name@)) by {
            if cache_map(rest).contains_key(items.last().name@) {
                let j = choose|j: int| 0 <= j < rest.len() && rest[j].name@ == items.last().name@;
                assert(items[j] == rest[j]);
            }
        }
    }
}

// ── Error counts ────────────────────────────────────────────────────

/// Counts by metric name; a later pair replaces an earlier one.
pub open spec fn count_map(items: Seq<(String, u64)>) -> Map<Seq<char>, u64>
    decreases items.len(),
{
    if items.len() == 0 {
        Map::empty()
    } else {
        count_map(items.drop_last()).insert(items.last().0@, items.last().1)
    }
}

pub open spec fn count_names_distinct(items: Seq<(String, u64)>) -> bool {
    forall|a: int, b: int| 0 <= a < b < items.len() ==> items[a].0@ != items[b].0@
}

proof fn lemma_count_map(items: Seq<(String, u64)>)
    requires
        count_names_distinct(items),
    ensures
        forall|i: int|
            0 <= i < items.len() ==> #[trigger] count_map(items).contains_key(items[i].0@)
                && count_map(items)[items[i].0@] == items[i].1,
        forall|k: Seq<char>| #[trigger]
            count_map(items).contains_key(k) ==> exists|i: int|
                0 <= i < items.len() && items[i].0@ == k,
    decreases items.len(),
{
    if items.len() > 0 {
        let rest = items.drop_last();
        assert(count_names_distinct(rest));
        lemma_count_map(rest);
        assert forall|k: Seq<char>| #[trigger] count_map(items).contains_key(k) implies exists|
            i: int,
        | 0 <= i < items.len() && items[i].0@ == k by {
            if k != items.last().0@ {
                assert(count_map(rest).contains_key(k));
                let i = choose|i: int| 0 <= i < rest.len() && rest[i].0@ == k;
                assert(items[i] == rest[i]);
            } else {
                assert(items[items.len() - 1].0@ == k);
            }
        }
        assert forall|i: int| 0 <= i < items.len() implies #[trigger] count_map(
            items,
        ).contains_key(items[i].0@) && count_map(items)[items[i].0@] == items[i].1 by {
            if i < items.len() - 1 {
                assert(items[i] == rest[i]);
                assert(items[i].0@ != items[items.len() - 1].0@);
                assert(count_map(rest).contains_key(rest[i].0@));
            }
        }
    }
}

/// Failed reads per metric name, over the collector's lifetime.
#[derive(Debug)]
pub struct ErrorCounts {
    items: Vec<(String, u64)>,
}

impl View for ErrorCounts {
    type V = Map<Seq<char>, u64>;

    closed spec fn view(&self) -> Map<Seq<char>, u64> {
        count_map(self.items@)
    }
}

impl ErrorCounts {
    /// Names are distinct.
    pub closed spec fn wf(&self) -> bool {
        count_names_distinct(self.items@)
    }

    /// No failure recorded yet.
    pub fn new() -> (c: Self)
        ensures
            c.wf(),
            c@ == Map::<Seq<char>, u64>::empty(),
    {
        ErrorCounts { items: Vec::new() }
    }

    /// Counts one more failure of `name` (saturating at `u64::MAX`); returns
    /// the new count.
    pub fn record_failure(&mut self, name: &String) -> (n: u64)
        requires
            old(self).wf(),
        ensures
            final(self).wf(),
            n == (if old(self)@.contains_key(name@) {
                if old(self)@[name@] == u64::MAX {
                    u64::MAX
                } else {
                    (old(self)@[name@] + 1) as u64
                }
            } else {
                1
            }),
            final(self)@ == old(self)@.insert(name@, n),
    {
        let ghost before = self.items@;
        proof {
            lemma_count_map(before);
        }
        let mut i: usize = 0;
        while i < self.items.len()
            invariant
                i <= self.items@.len(),
                self.items@ == before,
                old(self).items@ == before,
                count_names_distinct(before),
                forall|q: int| 0 <= q < i ==> before[q].0@ != name@,
            decreases self.items@.len() - i,
        {
            proof {
                lemma_count_map(before);
            }
            if self.items[i].0 == *name {
                let old_n = self.items[i].1;
                let n = old_n.saturating_add(1);
                let key = self.items[i].0.clone();
                self.items.set(i, (key, n));
                proof {
                    assert(count_map(before).contains_key(before[i as int].0@));
                    assert(old_n == count_map(before)[name@]);
                    let after = self.items@;
                    assert(count_names_distinct(after)) by {
                        assert forall|a: int, b: int| 0 <= a < b < after.len() implies after[a].0@
                            != after[b].0@ by {
                            if a != i && b != i {
                                assert(after[a] == before[a] && after[b] == before[b]);
                            }
                        }
                    }
                    lemma_count_map(after);
                    let m1 = count_map(after);
                    let m2 = count_map(before).insert(name@, n);
                    assert forall|x: Seq<char>| m1.contains_key(x) <==> m2.contains_key(x) by {
                        if m1.contains_key(x) {
                            let j = choose|j: int| 0 <= j < after.len() && after[j].0@ == x;
                            if j != i {
                                assert(after[j] == before[j]);
                                assert(count_map(before).contains_key(before[j].0@));
                            }
                        }
                        if m2.contains_key(x) && x != name@ {
                            let j = choose|j: int| 0 <= j < before.len() && before[j].0@ == x;
                            assert(j != i);
                            assert(after[j] == before[j]);
                            assert(m1.contains_key(after[j].0@));
                        }
                        if x == name@ {
                            assert(m1.contains_key(after[i as int].0@));
                        }
                    }
                    assert forall|x: Seq<char>| m1.contains_key(x) implies m1[x] == m2[x] by {
                        let j = choose|j: int| 0 <= j < after.len() && after[j].0@ == x;
                        if j != i {
                            assert(after[j] == before[j]);
                            assert(count_map(before).contains_key(before[j].0@));
                        }
                    }
                    assert(m1 =~= m2);
                }
                return n;
            }
            i = i + 1;
        }
        proof {
            assert(!count_map(before).contains_key(name@)) by {
                if count_map(before).contains_key(name@) {
                    let j = choose|j: int| 0 <= j < before.len() && before[j].0@ == name@;
                }
            }
        }
        self.items.push((name.clone(), 1));
        proof {
            let after = self.items@;
            assert(after.drop_last() =~= before);
            assert(count_names_distinct(after)) by {
                assert forall|a: int, b: int| 0 <= a < b < after.len() implies after[a].0@
                    != after[b].0@ by {
                    if b < before.len() {
                        assert(after[a] == before[a] && after[b] == before[b]);
                    } else {
                        assert(after[a] == before[a]);
                    }
                }
            }
        }
        1
    }

    /// The counts as (name, count) pairs, in no particular order.
    pub fn entries(&self) -> (out: Vec<(String, u64)>)
        requires
            self.wf(),
        ensures
            count_names_distinct(out@),
            count_map(out@) == self@,
    {
        let mut out: Vec<(String, u64)> = Vec::new();
        let mut i: usize = 0;
        while i < self.items.len()
            invariant
                i <= self.items@.len(),
                out@.len() == i,
                forall|q: int|
                    0 <= q < i ==> #[trigger] out@[q].0@ == self.items@[q].0@ && out@[q].1
                        == self.items@[q].1,
            decreases self.items@.len() - i,
        {
            out.push((self.items[i].0.clone(), self.items[i].1));
            i = i + 1;
        }
        proof {
            lemma_same_counts(out@, self.items@);
        }
        out
    }
}

proof fn lemma_same_counts(a: Seq<(String, u64)>, b: Seq<(String, u64)>)
    requires
        a.len() == b.len(),
        forall|q: int| 0 <= q < a.len() ==> #[trigger] a[q].0@ == b[q].0@ && a[q].1 == b[q].1,
    ensures
        count_map(a) == count_map(b),
        count_names_distinct(b) ==> count_names_distinct(a),
    decreases a.len(),
{
    if a.len() > 0 {
        lemma_same_counts(a.drop_last(), b.drop_last());
        assert(a.last().0@ == b.last().0@ && a.last().1 == b.last().1);
    }
    assert forall|x: int, y: int| 0 <= x < y < a.len() && count_names_distinct(b) implies a[x].0@
        != a[y].0@ by {
        assert(a[x].0@ == b[x].0@ && a[y].0@ == b[y].0@);
    }
}

// ── One poll cycle ──────────────────────────────────────────────────

/// The cached value of a successful read of `metric`.
pub open spec fn read_value(metric: config::Metric, value_bits: u64, now: u64) -> MetricValueView {
    (
        metric.name@,
        value_bits,
        spec_map_metric_type(metric.metric_type),
        Seq::empty(),
        metric.description@,
        metric.unit@,
        now,
    )
}

/// Records a successful read of `metric` in this cycle's cache.
pub fn record_read(cache: &mut MetricCache, metric: &config::Metric, value_bits: u64, now: u64)
    requires
        old(cache).wf(),
    ensures
        final(cache).wf(),
        final(cache)@ == old(cache)@.insert(metric.name@, read_value(*metric, value_bits, now)),
{
    let m = MetricValue {
        name: metric.name.clone(),
        value_bits,
        metric_type: map_metric_type(metric.metric_type),
        labels: Vec::new(),
        description: metric.description.clone(),
        unit: metric.unit.clone(),
        updated_at_nanos: now,
    };
    cache.insert(m);
}

/// What a failed read means for the cycle.
#[derive(Debug, Clone, Copy, PartialEq, Eq, Structural)]
pub enum ReadFailure {
    /// The connection is gone: abandon the cycle and reconnect.
    ConnectionLost,
    /// Only this metric failed: count it and go on with the next one.
    MetricFailed,
}

/// Judges a failed read by whether the client still reports a connection.
pub fn classify_read_failure(still_connected: bool) -> (r: ReadFailure)
    ensures
        still_connected <==> r == ReadFailure::MetricFailed,
{
    if still_connected {
        ReadFailure::MetricFailed
    } else {
        ReadFailure::ConnectionLost
    }
}

/// The suffix of an error counter's name.
pub open spec fn errors_suffix() -> Seq<char> {
    "_errors"@
}

/// The name of the error counter of metric `name`.
pub open spec fn errors_name(name: Seq<char>) -> Seq<char> {
    name + errors_suffix()
}

/// The metric whose error counter `k` is, if `k` names one of `errors`.
pub open spec fn counted_metric(k: Seq<char>, errors: Map<Seq<char>, u64>) -> Option<Seq<char>> {
    if k.len() >= 7 && k.skip(k.len() - 7) == errors_suffix() && errors.contains_key(
        k.take(k.len() - 7),
    ) {
        Some(k.take(k.len() - 7))
    } else {
        None
    }
}

/// A fresh error counter for metric `name`.
pub open spec fn error_counter(name: Seq<char>, count: u64, now: u64) -> MetricValueView {
    (
        errors_name(name),
        f64_bits_of(count as nat) as u64,
        MetricType::Counter,
        Seq::empty(),
        "Error count for metric "@ + name,
        Seq::empty(),
        now,
    )
}

/// What a cycle publishes: this cycle's reads; for a metric read before but
/// not now, its previous value stamped `now`; and for every metric that has
/// failed, `<name>_errors` holding its count (a metric already so named keeps
/// its other fields but takes the count and `now`).
pub open spec fn merged_cycle(
    local: Map<Seq<char>, MetricValueView>,
    prev: Map<Seq<char>, MetricValueView>,
    errors: Map<Seq<char>, u64>,
    now: u64,
) -> Map<Seq<char>, MetricValueView> {
    Map::new(
        |k: Seq<char>|
            local.contains_key(k) || prev.contains_key(k) || counted_metric(k, errors) is Some,
        |k: Seq<char>|
            {
                let base = if local.contains_key(k) {
                    local[k]
                } else {
                    let p = prev[k];
                    (p.0, p.1, p.2, p.3, p.4, p.5, now)
                };
                match counted_metric(k, errors) {
                    Some(e) => if local.contains_key(k) || prev.contains_key(k) {
                        (base.0, f64_bits_of(errors[e] as nat) as u64, base.2, base.3, base.4, base.5, now)
                    } else {
                        error_counter(e, errors[e], now)
                    },
                    None => base,
                }
            },
    )
}

proof fn lemma_errors_name(name: Seq<char>)
    ensures
        errors_name(name).len() == name.len() + 7,
        errors_name(name).skip(name.len() as int) == errors_suffix(),
        errors_name(name).take(name.len() as int) == name,
{
    reveal_strlit("_errors");
    assert(errors_name(name).skip(name.len() as int) =~= errors_suffix());
    assert(errors_name(name).take(name.len() as int) =~= name);
}

/// Merges a finished cycle's reads with the previous snapshot and the error
/// counts; the result is what the cycle publishes and the next cycle's
/// previous snapshot.
pub fn merge_cycle(local: MetricCache, prev: &MetricCache, errors: &ErrorCounts, now: u64) -> (out:
    MetricCache)
    requires
        local.wf(),
        prev.wf(),
        errors.wf(),
    ensures
        out.wf(),
        out@ == merged_cycle(local@, prev@, errors@, now),
{
    let ghost l0 = local@;
    let ghost p0 = prev@;
    let ghost e0 = errors@;
    let mut out = local;
    // carry forward what failed this cycle
    let prev_items = prev.values();
    let mut i: usize = 0;
    assert(cache_map(prev_items@.take(0)) =~= Map::<Seq<char>, MetricValueView>::empty());
    assert(out@ =~= Map::new(
        |k: Seq<char>| l0.contains_key(k) || cache_map(prev_items@.take(0)).contains_key(k),
        |k: Seq<char>|
            if l0.contains_key(k) {
                l0[k]
            } else {
                let p = cache_map(prev_items@.take(0))[k];
                (p.0, p.1, p.2, p.3, p.4, p.5, now)
            },
    ));
    while i < prev_items.len()
        invariant
            i <= prev_items@.len(),
            out.wf(),
            names_distinct(prev_items@),
            cache_map(prev_items@) == p0,
            out@ == Map::new(
                |k: Seq<char>| l0.contains_key(k) || cache_map(prev_items@.take(i as int)).contains_key(k),
                |k: Seq<char>|
                    if l0.contains_key(k) {
                        l0[k]
                    } else {
                        let p = cache_map(prev_items@.take(i as int))[k];
                        (p.0, p.1, p.2, p.3, p.4, p.5, now)
                    },
            ),
        decreases prev_items@.len() - i,
    {
        let ghost pre = prev_items@.take(i as int);
        let ghost post = prev_items@.take(i + 1);
        assert(post.drop_last() =~= pre);
        let ghost before = out@;
        proof {
            assert(names_distinct(pre));
            lemma_cache_map(pre);
            assert(!cache_map(pre).contains_key(prev_items@[i as int].name@)) by {
                if cache_map(pre).contains_key(prev_items@[i as int].name@) {
                    let q = choose|q: int| 0 <= q < pre.len() && pre[q].name@ == prev_items@[i as int].name@;
                    assert(prev_items@[q] == pre[q]);
                }
            }
            assert(cache_map(post) == cache_map(pre).insert(prev_items@[i as int].name@, prev_items@[i as int]@));
        }
        if !out.contains(&prev_items[i].name) {
            let mut carried = clone_metric(&prev_items[i]);
            carried.updated_at_nanos = now;
            out.insert(carried);
        }
        i = i + 1;
        assert(out@ =~= Map::new(
            |k: Seq<char>| l0.contains_key(k) || cache_map(post).contains_key(k),
            |k: Seq<char>|
                if l0.contains_key(k) {
                    l0[k]
                } else {
                    let p = cache_map(post)[k];
                    (p.0, p.1, p.2, p.3, p.4, p.5, now)
                },
        ));
    }
    assert(prev_items@.take(prev_items@.len() as int) =~= prev_items@);
    let ghost carried_map = out@;
    // error counters
    let counts = errors.entries();
    let mut j: usize = 0;
    assert(count_map(counts@.take(0)) =~= Map::<Seq<char>, u64>::empty());
    assert(out@ =~= merged_cycle(l0, p0, count_map(counts@.take(0)), now));
    while j < counts.len()
        invariant
            j <= counts@.len(),
            out.wf(),
            count_names_distinct(counts@),
            count_map(counts@) == e0,
            carried_map == Map::new(
                |k: Seq<char>| l0.contains_key(k) || p0.contains_key(k),
                |k: Seq<char>|
                    if l0.contains_key(k) {
                        l0[k]
                    } else {
                        let p = p0[k];
                        (p.0, p.1, p.2, p.3, p.4, p.5, now)
                    },
            ),
            out@ == merged_cycle(l0, p0, count_map(counts@.take(j as int)), now),
        decreases counts@.len() - j,
    {
        let ghost pre = counts@.take(j as int);
        let ghost post = counts@.take(j + 1);
        assert(post.drop_last() =~= pre);
        let name = &counts[j].0;
        let count = counts[j].1;
        let mut key = name.clone();
        key.append("_errors");
        proof {
            lemma_errors_name(name@);
            lemma_count_map(counts@);
            assert(count_names_distinct(pre));
            lemma_count_map(pre);
            assert(!count_map(pre).contains_key(name@)) by {
                if count_map(pre).contains_key(name@) {
                    let q = choose|q: int| 0 <= q < pre.len() && pre[q].0@ == name@;
                    assert(counts@[q] == pre[q]);
                }
            }
            assert(count_map(post) == count_map(pre).insert(name@, count));
        }
        let ghost before = out@;
        let bits = u64_to_f64_bits(count);
        if !out.contains(&key) {
            let mut desc = String::new();
            desc.append("Error count for metric ");
            desc.append(name.as_str());
            let fresh = MetricValue {
                name: key.clone(),
                value_bits: bits,
                metric_type: MetricType::Counter,
                labels: Vec::new(),
                description: desc,
                unit: String::new(),
                updated_at_nanos: now,
            };
            out.insert(fresh);
            assert(fresh@ =~= error_counter(name@, count, now));
        }
        out.set_value(&key, bits, now);
        proof {
            let v = if before.contains_key(key@) {
                let b = before[key@];
                (b.0, bits, b.2, b.3, b.4, b.5, now)
            } else {
                error_counter(name@, count, now)
            };
            assert(out@ =~= before.insert(key@, v));
            lemma_merge_step(l0, p0, count_map(pre), name@, count, now);
        }
        j = j + 1;
    }
    assert(counts@.take(counts@.len() as int) =~= counts@);
    out
}

proof fn lemma_merge_step(
    l0: Map<Seq<char>, MetricValueView>,
    p0: Map<Seq<char>, MetricValueView>,
    e: Map<Seq<char>, u64>,
    name: Seq<char>,
    count: u64,
    now: u64,
)
    requires
        !e.contains_key(name),
    ensures
        ({
            let before = merged_cycle(l0, p0, e, now);
            let key = errors_name(name);
            let v = if before.contains_key(key) {
                let b = before[key];
                (b.0, f64_bits_of(count as nat) as u64, b.2, b.3, b.4, b.5, now)
            } else {
                error_counter(name, count, now)
            };
            merged_cycle(l0, p0, e.insert(name, count), now) == before.insert(key, v)
        }),
{
    let before = merged_cycle(l0, p0, e, now);
    let after = merged_cycle(l0, p0, e.insert(name, count), now);
    let key = errors_name(name);
    lemma_errors_name(name);
    assert(counted_metric(key, e.insert(name, count)) == Some(name));
    assert(counted_metric(key, e) is None);
    assert forall|k: Seq<char>| k != key implies #[trigger] counted_metric(k, e.insert(name, count))
        == counted_metric(k, e) by {
        if k.len() >= 7 && k.skip(k.len() - 7) == errors_suffix() && k.take(k.len() - 7) == name {
            assert(k =~= k.take(k.len() - 7) + k.skip(k.len() - 7));
        }
    }
    let v = if before.contains_key(key) {
        let b = before[key];
        (b.0, f64_bits_of(count as nat) as u64, b.2, b.3, b.4, b.5, now)
    } else {
        error_counter(name, count, now)
    };
    assert forall|k: Seq<char>| #[trigger] after.contains_key(k) <==> before.insert(key, v).contains_key(k) by {
        if k != key {
            assert(counted_metric(k, e.insert(name, count)) == counted_metric(k, e));
        }
    }
    assert forall|k: Seq<char>| after.contains_key(k) implies #[trigger] after[k] == before.insert(key, v)[k] by {
        if k != key {
            assert(counted_metric(k, e.insert(name, count)) == counted_metric(k, e));
            match counted_metric(k, e) {
                Some(t) => {
                    assert(t != name) by {
                        if t == name {
                            assert(k =~= k.take(k.len() - 7) + k.skip(k.len() - 7));
                        }
                    }
                    assert(e.insert(name, count)[t] == e[t]);
                },
                None => {},
            }
        }
    }
    assert(after =~= before.insert(key, v));
}

// ── Laws of a poll cycle ────────────────────────────────────────────

/// No metric is lost across cycles: everything read this cycle or published
/// by the previous one is published again.
pub proof fn law_cycle_keeps_every_metric(
    local: Map<Seq<char>, MetricValueView>,
    prev: Map<Seq<char>, MetricValueView>,
    errors: Map<Seq<char>, u64>,
    now: u64,
    k: Seq<char>,
)
    requires
        local.contains_key(k) || prev.contains_key(k),
    ensures
        merged_cycle(local, prev, errors, now).contains_key(k),
{
}

/// A metric whose read failed this cycle keeps its previous value, type,
/// labels, description and unit, stamped with this cycle's time.
pub proof fn law_failed_read_keeps_previous_value(
    local: Map<Seq<char>, MetricValueView>,
    prev: Map<Seq<char>, MetricValueView>,
    errors: Map<Seq<char>, u64>,
    now: u64,
    k: Seq<char>,
)
    requires
        !local.contains_key(k),
        prev.contains_key(k),
        counted_metric(k, errors) is None,
    ensures
        ({
            let m = merged_cycle(local, prev, errors, now)[k];
            let p = prev[k];
            m == (p.0, p.1, p.2, p.3, p.4, p.5, now)
        }),
{
}

/// A metric read this cycle is published as read.
pub proof fn law_fresh_read_published(
    local: Map<Seq<char>, MetricValueView>,
    prev: Map<Seq<char>, MetricValueView>,
    errors: Map<Seq<char>, u64>,
    now: u64,
    k: Seq<char>,
)
    requires
        local.contains_key(k),
        counted_metric(k, errors) is None,
    ensures
        merged_cycle(local, prev, errors, now)[k] == local[k],
{
}

/// Every metric that has failed is published with a `<name>_errors` counter
/// holding its failure count, stamped with this cycle's time.
pub proof fn law_error_counter_holds_count(
    local: Map<Seq<char>, MetricValueView>,
    prev: Map<Seq<char>, MetricValueView>,
    errors: Map<Seq<char>, u64>,
    now: u64,
    name: Seq<char>,
)
    requires
        errors.contains_key(name),
    ensures
        merged_cycle(local, prev, errors, now).contains_key(errors_name(name)),
        merged_cycle(local, prev, errors, now)[errors_name(name)].1 == f64_bits_of(
            errors[name] as nat,
        ) as u64,
        merged_cycle(local, prev, errors, now)[errors_name(name)].6 == now,
{
    lemma_errors_name(name);
    assert(counted_metric(errors_name(name), errors) == Some(name));
}


/// A read is exported as the kind of metric it was configured as: a
/// configured counter is cached as a counter, a configured gauge as a gauge,
/// whatever was read and whenever.
pub proof fn law_read_keeps_configured_type(metric: config::Metric, value_bits: u64, now: u64)
    ensures
        (read_value(metric, value_bits, now).2 == MetricType::Counter) <==> (metric.metric_type
            == config::MetricType::Counter),
        (read_value(metric, value_bits, now).2 == MetricType::Gauge) <==> (metric.metric_type
            == config::MetricType::Gauge),
        read_value(metric, value_bits, now).0 == metric.name@,
        read_value(metric, value_bits, now).1 == value_bits,
{
}


/// A metric that has failed and has no value of its own under its counter's
/// name is published with a fresh counter named `<name>_errors`: a counter
/// (not a gauge) holding the failure count, with no labels, described as
/// "Error count for metric <name>", and stamped with this cycle's time.
pub proof fn law_error_counter_is_fresh_counter(
    local: Map<Seq<char>, MetricValueView>,
    prev: Map<Seq<char>, MetricValueView>,
    errors: Map<Seq<char>, u64>,
    now: u64,
    name: Seq<char>,
)
    requires
        errors.contains_key(name),
        !local.contains_key(name + "_errors"@),
        !prev.contains_key(name + "_errors"@),
    ensures
        merged_cycle(local, prev, errors, now).contains_key(name + "_errors"@),
        merged_cycle(local, prev, errors, now)[name + "_errors"@] == (
            name + "_errors"@,
            f64_bits_of(errors[name] as nat) as u64,
            MetricType::Counter,
            Seq::<(String, String)>::empty(),
            "Error count for metric "@ + name,
            Seq::<char>::empty(),
            now,
        ),
{
    lemma_errors_name(name);
    assert(errors_name(name) == name + "_errors"@);
    assert(counted_metric(errors_name(name), errors) == Some(name));
}

} // verus!
