//! Metric values and the store that caches each collector's latest snapshot.
//!
//! A value's floating-point number is held by its IEEE-754 bits and its
//! timestamp as nanoseconds since the Unix epoch.

use vstd::prelude::*;

use crate::labels::{clone_labels, keys_unique, labels_map, merge_labels, set_label};

verus! {

/// Type of metric — determines exporter semantics.
#[derive(Debug, Clone, Copy, PartialEq, Eq, Structural)]
pub enum MetricType {
    Gauge,
    Counter,
}

/// A single metric value with metadata.
#[derive(Debug, Clone)]
pub struct MetricValue {
    pub name: String,
    /// IEEE-754 bits of the value.
    pub value_bits: u64,
    pub metric_type: MetricType,
    /// Labels; a later pair overrides an earlier one with the same key.
    pub labels: Vec<(String, String)>,
    pub description: String,
    pub unit: String,
    /// Wall-clock timestamp, nanoseconds since the Unix epoch.
    pub updated_at_nanos: u64,
}

/// A metric value read as plain values: name, value bits, type, labels,
/// description, unit and timestamp.
pub type MetricValueView = (Seq<char>, u64, MetricType, Seq<(String, String)>, Seq<char>, Seq<char>, u64);

impl View for MetricValue {
    type V = MetricValueView;

    open spec fn view(&self) -> MetricValueView {
        (
            self.name@,
            self.value_bits,
            self.metric_type,
            self.labels@,
            self.description@,
            self.unit@,
            self.updated_at_nanos,
        )
    }
}

pub open spec fn views_of(ms: Seq<MetricValue>) -> Seq<MetricValueView> {
    ms.map_values(|m: MetricValue| m@)
}

proof fn lemma_views_push(s: Seq<MetricValue>, x: MetricValue)
    ensures
        views_of(s.push(x)) =~= views_of(s).push(x@),
{
    assert(s.push(x).len() == s.len() + 1);
    assert forall|q: int| 0 <= q < s.len() + 1 implies #[trigger] views_of(s.push(x))[q]
        == views_of(s).push(x@)[q] by {
        if q < s.len() {
            assert(s.push(x)[q] == s[q]);
        }
    }
}

/// A copy of a metric value.
pub fn clone_metric(m: &MetricValue) -> (r: MetricValue)
    ensures
        r@ == m@,
{
    MetricValue {
        name: m.name.clone(),
        value_bits: m.value_bits,
        metric_type: m.metric_type,
        labels: clone_labels(&m.labels),
        description: m.description.clone(),
        unit: m.unit.clone(),
        updated_at_nanos: m.updated_at_nanos,
    }
}

/// Whether metric `i` of `ms` is the last one with its name.
pub open spec fn is_last_of_name(ms: Seq<MetricValue>, i: int) -> bool {
    forall|j: int| i < j < ms.len() ==> ms[j].name@ != ms[i].name@
}

/// The metrics among the first `n` of `ms` that no later metric of `ms` replaces.
pub open spec fn dedup_last_before(ms: Seq<MetricValue>, n: int) -> Seq<MetricValue>
    decreases n,
{
    if n <= 0 {
        Seq::empty()
    } else if is_last_of_name(ms, n - 1) {
        dedup_last_before(ms, n - 1).push(ms[n - 1])
    } else {
        dedup_last_before(ms, n - 1)
    }
}

/// The labels a published metric carries: global, then collector labels,
/// then `collector = <name>`, then the metric's own labels, each overriding
/// the ones before.
pub open spec fn published_labels(
    collector: Seq<char>,
    global: Seq<(String, String)>,
    collector_labels: Seq<(String, String)>,
    own: Seq<(String, String)>,
) -> Map<Seq<char>, Seq<char>> {
    labels_map(global).union_prefer_right(labels_map(collector_labels)).insert(
        "collector"@,
        collector,
    ).union_prefer_right(labels_map(own))
}

/// `out` is `m` with its labels replaced by the published label set.
pub open spec fn published_as(
    out: MetricValueView,
    m: MetricValue,
    collector: Seq<char>,
    global: Seq<(String, String)>,
    collector_labels: Seq<(String, String)>,
) -> bool {
    &&& out.0 == m.name@
    &&& out.1 == m.value_bits
    &&& out.2 == m.metric_type
    &&& out.4 == m.description@
    &&& out.5 == m.unit@
    &&& out.6 == m.updated_at_nanos
    &&& keys_unique(out.3)
    &&& labels_map(out.3) == published_labels(collector, global, collector_labels, m.labels@)
}

/// `out` is what publishing `ms` for `collector` caches.
pub open spec fn published_snapshot(
    out: Seq<MetricValueView>,
    ms: Seq<MetricValue>,
    collector: Seq<char>,
    global: Seq<(String, String)>,
    collector_labels: Seq<(String, String)>,
) -> bool {
    let kept = dedup_last_before(ms, ms.len() as int);
    &&& out.len() == kept.len()
    &&& forall|i: int|
        0 <= i < out.len() ==> published_as(
            #[trigger] out[i],
            kept[i],
            collector,
            global,
            collector_labels,
        )
}

/// Store aggregating per-collector metric snapshots.
#[derive(Debug, Clone)]
pub struct MetricStore {
    entries: Vec<(String, Vec<MetricValue>)>,
}

impl View for MetricStore {
    type V = Map<Seq<char>, Seq<MetricValueView>>;

    closed spec fn view(&self) -> Map<Seq<char>, Seq<MetricValueView>> {
        entries_map(self.entries@)
    }
}

pub closed spec fn entries_map(es: Seq<(String, Vec<MetricValue>)>) -> Map<
    Seq<char>,
    Seq<MetricValueView>,
>
    decreases es.len(),
{
    if es.len() == 0 {
        Map::empty()
    } else {
        entries_map(es.drop_last()).insert(es.last().0@, views_of(es.last().1@))
    }
}

closed spec fn names_unique(es: Seq<(String, Vec<MetricValue>)>) -> bool {
    forall|a: int, b: int| 0 <= a < b < es.len() ==> es[a].0@ != es[b].0@
}

proof fn lemma_entries_map(es: Seq<(String, Vec<MetricValue>)>)
    requires
        names_unique(es),
    ensures
        forall|i: int| 0 <= i < es.len() ==> #[trigger] entries_map(es).contains_key(es[i].0@)
            && entries_map(es)[es[i].0@] == views_of(es[i].1@),
        forall|k: Seq<char>| #[trigger]
            entries_map(es).contains_key(k) ==> exists|i: int| 0 <= i < es.len() && es[i].0@ == k,
        entries_map(es).dom().finite(),
        entries_map(es).dom().len() == es.len(),
    decreases es.len(),
{
    if es.len() > 0 {
        let rest = es.drop_last();
        assert(names_unique(rest));
        lemma_entries_map(rest);
        assert forall|k: Seq<char>| #[trigger] entries_map(es).contains_key(k) implies exists|i: int|
            0 <= i < es.len() && es[i].0@ == k by {
            if k != es.last().0@ {
                assert(entries_map(rest).contains_key(k));
                let i = choose|i: int| 0 <= i < rest.len() && rest[i].0@ == k;
                assert(es[i] == rest[i]);
            } else {
                assert(es[es.len() - 1].0@ == k);
            }
        }
        assert forall|i: int| 0 <= i < es.len() implies #[trigger] entries_map(es).contains_key(
            es[i].0@,
        ) && entries_map(es)[es[i].0@] == views_of(es[i].1@) by {
            if i < es.len() - 1 {
                assert(es[i] == rest[i]);
                assert(es[i].0@ != es[es.len() - 1].0@);
                assert(entries_map(rest).contains_key(rest[i].0@));
            }
        }
        assert(!entries_map(rest).contains_key(es.last().0@)) by {
            if entries_map(rest).contains_key(es.last().0@) {
                let i = choose|i: int| 0 <= i < rest.len() && rest[i].0@ == es.last().0@;
                assert(es[i] == rest[i]);
            }
        }
    }
}

impl MetricStore {
    /// The store invariant: collector names are unique.
    pub closed spec fn wf(&self) -> bool {
        names_unique(self.entries@)
    }

    /// Creates an empty store.
    pub fn new() -> (s: Self)
        ensures
            s.wf(),
            s@ == Map::<Seq<char>, Seq<MetricValueView>>::empty(),
    {
        MetricStore { entries: Vec::new() }
    }

    fn find(&self, name: &str) -> (r: Option<usize>)
        requires
            self.wf(),
        ensures
            match r {
                Some(i) => i < self.entries@.len() && self.entries@[i as int].0@ == name@,
                None => forall|i: int| 0 <= i < self.entries@.len() ==> self.entries@[i].0@ != name@,
            },
    {
        let target = String::from_str(name);
        let mut i: usize = 0;
        while i < self.entries.len()
            invariant
                i <= self.entries@.len(),
                target@ == name@,
                forall|q: int| 0 <= q < i ==> self.entries@[q].0@ != name@,
            decreases self.entries@.len() - i,
        {
            if self.entries[i].0 == target {
                return Some(i);
            }
            i = i + 1;
        }
        None
    }

    /// Atomically replaces the snapshot of `collector_name`.
    ///
    /// Labels follow the precedence global → collector → `collector` label →
    /// metric; among metrics that share a name only the last one is kept.
    pub fn publish(
        &mut self,
        collector_name: &str,
        metrics: Vec<MetricValue>,
        global_labels: &Vec<(String, String)>,
        collector_labels: &Vec<(String, String)>,
    )
        requires
            old(self).wf(),
        ensures
            final(self).wf(),
            final(self)@.dom() == old(self)@.dom().insert(collector_name@),
            final(self)@.dom().finite(),
            final(self)@.dom().len() == old(self)@.dom().len() + if old(self)@.contains_key(
                collector_name@,
            ) {
                0int
            } else {
                1int
            },
            forall|k: Seq<char>|
                k != collector_name@ && #[trigger] old(self)@.contains_key(k) ==> final(self)@[k]
                    == old(self)@[k],
            published_snapshot(
                final(self)@[collector_name@],
                metrics@,
                collector_name@,
                global_labels@,
                collector_labels@,
            ),
    {
        let snapshot = publish_snapshot(collector_name, &metrics, global_labels, collector_labels);
        let ghost snap = snapshot@;
        let ghost before = self.entries@;
        let ghost pos: int;
        proof {
            lemma_entries_map(before);
        }
        match self.find(collector_name) {
            Some(i) => {
                let name = self.entries[i].0.clone();
                self.entries.remove(i);
                self.entries.insert(i, (name, snapshot));
                proof {
                    pos = i as int;
                    assert(self.entries@ =~= before.update(pos, (before[pos].0, snapshot)));
                }
            },
            None => {
                let name = String::from_str(collector_name);
                self.entries.push((name, snapshot));
                proof {
                    pos = before.len() as int;
                    assert(self.entries@ =~= before.push((name, snapshot)));
                }
            },
        }
        proof {
            let after = self.entries@;
            assert(after[pos].0@ == collector_name@ && after[pos].1@ == snap);
            assert(forall|j: int| 0 <= j < after.len() && j != pos ==> after[j] == before[j]);
            assert(forall|j: int| 0 <= j < before.len() ==> after[j].0@ == before[j].0@);
            assert(after.len() == before.len() || after.len() == before.len() + 1);
            assert(after.len() == before.len() + 1 ==> pos == before.len());
            assert(names_unique(after)) by {
                assert forall|a: int, b: int| 0 <= a < b < after.len() implies after[a].0@
                    != after[b].0@ by {
                    if b < before.len() {
                        assert(after[a].0@ == before[a].0@ && after[b].0@ == before[b].0@);
                    } else {
                        assert(after[a].0@ == before[a].0@);
                    }
                }
            }
            lemma_entries_map(after);
            let m1 = entries_map(after);
            assert(m1.contains_key(after[pos].0@));
            assert(m1[collector_name@] == views_of(snap));
            assert forall|k: Seq<char>| m1.contains_key(k) <==> (k == collector_name@
                || entries_map(before).contains_key(k)) by {
                if m1.contains_key(k) && k != collector_name@ {
                    let j = choose|j: int| 0 <= j < after.len() && after[j].0@ == k;
                    assert(j != pos);
                    assert(after[j].0@ == before[j].0@);
                    assert(entries_map(before).contains_key(before[j].0@));
                }
                if entries_map(before).contains_key(k) {
                    let j = choose|j: int| 0 <= j < before.len() && before[j].0@ == k;
                    assert(after[j].0@ == before[j].0@);
                    assert(m1.contains_key(after[j].0@));
                }
            }
            assert(m1.dom() =~= entries_map(before).dom().insert(collector_name@));
            assert(entries_map(before).dom().insert(collector_name@).len() == entries_map(
                before,
            ).dom().len() + if entries_map(before).contains_key(collector_name@) {
                0int
            } else {
                1int
            });
            assert forall|k: Seq<char>|
                k != collector_name@ && #[trigger] entries_map(before).contains_key(k) implies m1[k]
                == entries_map(before)[k] by {
                let j = choose|j: int| 0 <= j < before.len() && before[j].0@ == k;
                assert(j != pos);
                assert(after[j] == before[j]);
                assert(m1.contains_key(after[j].0@));
            }
        }
    }

    /// All metrics of all collectors, one collector's snapshot after another.
    pub closed spec fn flat(&self) -> Seq<MetricValueView> {
        flatten_snapshots(self.entries@)
    }

    /// Flat snapshot of all metrics across all collectors.
    pub fn all_metrics_flat(&self) -> (out: Vec<MetricValue>)
        requires
            self.wf(),
        ensures
            views_of(out@) == self.flat(),
            forall|x: MetricValueView| #[trigger]
                self.flat().contains(x) <==> exists|k: Seq<char>|
                    #![trigger self@[k]]
                    self@.contains_key(k) && self@[k].contains(x),
    {
        proof {
            lemma_entries_map(self.entries@);
            lemma_flatten_contains(self.entries@);
        }
        let mut out: Vec<MetricValue> = Vec::new();
        let mut i: usize = 0;
        while i < self.entries.len()
            invariant
                i <= self.entries@.len(),
                views_of(out@) == flatten_snapshots(self.entries@.take(i as int)),
            decreases self.entries@.len() - i,
        {
            let ghost before = views_of(out@);
            let ms = &self.entries[i].1;
            let mut j: usize = 0;
            while j < ms.len()
                invariant
                    j <= ms@.len(),
                    views_of(out@) =~= before + views_of(ms@.take(j as int)),
                decreases ms@.len() - j,
            {
                let ghost prev_out = out@;
                let c = clone_metric(&ms[j]);
                out.push(c);
                proof {
                    lemma_views_push(prev_out, c);
                    assert(ms@.take(j + 1) =~= ms@.take(j as int).push(ms@[j as int]));
                    lemma_views_push(ms@.take(j as int), ms@[j as int]);
                }
                j = j + 1;
                assert(views_of(out@) =~= before + views_of(ms@.take(j as int)));
            }
            assert(ms@.take(ms@.len() as int) =~= ms@);
            assert(self.entries@.take(i + 1).drop_last() =~= self.entries@.take(i as int));
            i = i + 1;
        }
        assert(self.entries@.take(self.entries@.len() as int) =~= self.entries@);
        assert forall|x: MetricValueView| #[trigger]
            self.flat().contains(x) <==> exists|k: Seq<char>|
                #![trigger self@[k]]
                self@.contains_key(k) && self@[k].contains(x) by {
            assert(self@ == entries_map(self.entries@));
            assert(self.flat() == flatten_snapshots(self.entries@));
            if self.flat().contains(x) {
                let k = choose|k: Seq<char>|
                    #![trigger entries_map(self.entries@)[k]]
                    entries_map(self.entries@).contains_key(k) && entries_map(
                        self.entries@,
                    )[k].contains(x);
                assert(self@[k].contains(x));
            }
            if exists|k: Seq<char>| #![trigger self@[k]] self@.contains_key(k) && self@[k].contains(x) {
                let k = choose|k: Seq<char>| #![trigger self@[k]]
                    self@.contains_key(k) && self@[k].contains(x);
                assert(entries_map(self.entries@)[k].contains(x));
            }
        }
        out
    }

    /// Each collector's snapshot, in store order.
    pub fn all_metrics(&self) -> (out: Vec<Vec<MetricValue>>)
        requires
            self.wf(),
        ensures
            out@.len() == self@.dom().len(),
            forall|i: int|
                #![trigger out@[i]]
                0 <= i < out@.len() ==> self@.contains_key(self.collector_at(i))
                    && self@[self.collector_at(i)] == views_of(out@[i]@),
            forall|i: int, j: int|
                0 <= i < j < out@.len() ==> self.collector_at(i) != self.collector_at(j),
    {
        proof {
            lemma_entries_map(self.entries@);
        }
        let mut out: Vec<Vec<MetricValue>> = Vec::new();
        let mut i: usize = 0;
        while i < self.entries.len()
            invariant
                i <= self.entries@.len(),
                names_unique(self.entries@),
                out@.len() == i,
                forall|q: int| 0 <= q < i ==> views_of(#[trigger] out@[q]@) == views_of(self.entries@[q].1@),
            decreases self.entries@.len() - i,
        {
            let ms = &self.entries[i].1;
            let mut snap: Vec<MetricValue> = Vec::new();
            let mut j: usize = 0;
            while j < ms.len()
                invariant
                    j <= ms@.len(),
                    views_of(snap@) =~= views_of(ms@.take(j as int)),
                decreases ms@.len() - j,
            {
                let ghost prev = snap@;
                let c = clone_metric(&ms[j]);
                snap.push(c);
                proof {
                    lemma_views_push(prev, c);
                    assert(ms@.take(j + 1) =~= ms@.take(j as int).push(ms@[j as int]));
                    lemma_views_push(ms@.take(j as int), ms@[j as int]);
                }
                j = j + 1;
            }
            assert(ms@.take(ms@.len() as int) =~= ms@);
            out.push(snap);
            i = i + 1;
        }
        proof {
            lemma_entries_map(self.entries@);
            assert forall|i: int| 0 <= i < out@.len() implies self@.contains_key(self.collector_at(i))
                && self@[self.collector_at(i)] == views_of(#[trigger] out@[i]@) by {
                assert(entries_map(self.entries@).contains_key(self.entries@[i].0@));
            }
        }
        out
    }

    /// The name of the `i`-th collector in store order.
    pub closed spec fn collector_at(&self, i: int) -> Seq<char> {
        self.entries@[i].0@
    }

    /// The metrics of one collector (empty if it has none).
    pub fn metrics_for(&self, collector_name: &str) -> (out: Vec<MetricValue>)
        requires
            self.wf(),
        ensures
            views_of(out@) == stored(self@, collector_name@),
    {
        proof {
            lemma_entries_map(self.entries@);
        }
        match self.find(collector_name) {
            Some(i) => {
                let ms = &self.entries[i].1;
                let mut out: Vec<MetricValue> = Vec::new();
                let mut j: usize = 0;
                while j < ms.len()
                    invariant
                        j <= ms@.len(),
                        views_of(out@) =~= views_of(ms@.take(j as int)),
                    decreases ms@.len() - j,
                {
                    let ghost prev_out = out@;
                    let c = clone_metric(&ms[j]);
                    out.push(c);
                    proof {
                        lemma_views_push(prev_out, c);
                        assert(ms@.take(j + 1) =~= ms@.take(j as int).push(ms@[j as int]));
                        lemma_views_push(ms@.take(j as int), ms@[j as int]);
                    }
                    j = j + 1;
                    assert(views_of(out@) =~= views_of(ms@.take(j as int)));
                }
                assert(ms@.take(ms@.len() as int) =~= ms@);
                out
            },
            None => {
                assert(!self@.contains_key(collector_name@)) by {
                    if self@.contains_key(collector_name@) {
                        let j = choose|j: int|
                            0 <= j < self.entries@.len() && self.entries@[j].0@ == collector_name@;
                    }
                }
                Vec::new()
            },
        }
    }

    /// A well-formed store holds finitely many collectors.
    pub proof fn lemma_finite(&self)
        requires
            self.wf(),
        ensures
            self@.dom().finite(),
    {
        lemma_entries_map(self.entries@);
    }

    /// Number of collectors currently in the store.
    pub fn collector_count(&self) -> (n: usize)
        requires
            self.wf(),
        ensures
            n == self@.dom().len(),
    {
        proof {
            lemma_entries_map(self.entries@);
        }
        self.entries.len()
    }

    /// Removes a collector's snapshot; reports whether it was there.
    pub fn remove_collector(&mut self, collector_name: &str) -> (removed: bool)
        requires
            old(self).wf(),
        ensures
            final(self).wf(),
            removed == old(self)@.contains_key(collector_name@),
            final(self)@ == old(self)@.remove(collector_name@),
    {
        let ghost before = self.entries@;
        proof {
            lemma_entries_map(before);
        }
        match self.find(collector_name) {
            Some(i) => {
                self.entries.remove(i);
                proof {
                    let after = self.entries@;
                    assert(after =~= before.remove(i as int));
                    assert(names_unique(after)) by {
                        assert forall|a: int, b: int| 0 <= a < b < after.len() implies after[a].0@
                            != after[b].0@ by {
                            let a0 = if a < i { a } else { a + 1 };
                            let b0 = if b < i { b } else { b + 1 };
                            assert(after[a] == before[a0] && after[b] == before[b0]);
                        }
                    }
                    lemma_entries_map(after);
                    let m1 = entries_map(after);
                    let m2 = entries_map(before).remove(collector_name@);
                    assert forall|k: Seq<char>| m1.contains_key(k) <==> m2.contains_key(k) by {
                        if m1.contains_key(k) {
                            let j = choose|j: int| 0 <= j < after.len() && after[j].0@ == k;
                            let j0 = if j < i { j } else { j + 1 };
                            assert(after[j] == before[j0]);
                            assert(entries_map(before).contains_key(before[j0].0@));
                        }
                        if m2.contains_key(k) {
                            let j = choose|j: int| 0 <= j < before.len() && before[j].0@ == k;
                            assert(j != i);
                            let j1 = if j < i { j } else { j - 1 };
                            assert(after[j1] == before[j]);
                            assert(m1.contains_key(after[j1].0@));
                        }
                    }
                    assert forall|k: Seq<char>| m1.contains_key(k) implies m1[k] == m2[k] by {
                        let j = choose|j: int| 0 <= j < after.len() && after[j].0@ == k;
                        let j0 = if j < i { j } else { j + 1 };
                        assert(after[j] == before[j0]);
                    }
                    assert(m1 =~= m2);
                }
                true
            },
            None => {
                proof {
                    assert(!entries_map(before).contains_key(collector_name@)) by {
                        if entries_map(before).contains_key(collector_name@) {
                            let j = choose|j: int|
                                0 <= j < before.len() && before[j].0@ == collector_name@;
                        }
                    }
                    assert(entries_map(before).remove(collector_name@) =~= entries_map(before));
                }
                false
            },
        }
    }
}

/// All snapshots, concatenated in store order.
pub closed spec fn flatten_snapshots(es: Seq<(String, Vec<MetricValue>)>) -> Seq<MetricValueView>
    decreases es.len(),
{
    if es.len() == 0 {
        Seq::empty()
    } else {
        flatten_snapshots(es.drop_last()) + views_of(es.last().1@)
    }
}

proof fn lemma_flatten_contains(es: Seq<(String, Vec<MetricValue>)>)
    requires
        names_unique(es),
    ensures
        forall|x: MetricValueView| #[trigger]
            flatten_snapshots(es).contains(x) <==> exists|k: Seq<char>|
                #![trigger entries_map(es)[k]]
                entries_map(es).contains_key(k) && entries_map(es)[k].contains(x),
    decreases es.len(),
{
    lemma_entries_map(es);
    if es.len() > 0 {
        let rest = es.drop_last();
        assert(names_unique(rest));
        lemma_flatten_contains(rest);
        lemma_entries_map(rest);
        let last = es.last();
        assert forall|x: MetricValueView| #[trigger]
            flatten_snapshots(es).contains(x) <==> exists|k: Seq<char>|
                #![trigger entries_map(es)[k]]
                entries_map(es).contains_key(k) && entries_map(es)[k].contains(x) by {
            let fl = flatten_snapshots(rest);
            assert(flatten_snapshots(es) == fl + views_of(last.1@));
            if flatten_snapshots(es).contains(x) {
                let p = choose|p: int| 0 <= p < flatten_snapshots(es).len() && flatten_snapshots(es)[p] == x;
                if p < fl.len() {
                    assert(fl[p] == x);
                    assert(fl.contains(x));
                    let k = choose|k: Seq<char>| #![trigger entries_map(rest)[k]]
                        entries_map(rest).contains_key(k) && entries_map(rest)[k].contains(x);
                    let j = choose|j: int| 0 <= j < rest.len() && rest[j].0@ == k;
                    assert(es[j] == rest[j]);
                    assert(entries_map(es).contains_key(es[j].0@));
                    assert(entries_map(es)[k] == views_of(es[j].1@));
                } else {
                    assert(views_of(last.1@)[p - fl.len()] == x);
                    assert(entries_map(es).contains_key(es[es.len() - 1].0@));
                    assert(entries_map(es)[last.0@].contains(x));
                }
            }
            if exists|k: Seq<char>| #![trigger entries_map(es)[k]]
                entries_map(es).contains_key(k) && entries_map(es)[k].contains(x) {
                let k = choose|k: Seq<char>| #![trigger entries_map(es)[k]]
                    entries_map(es).contains_key(k) && entries_map(es)[k].contains(x);
                let j = choose|j: int| 0 <= j < es.len() && es[j].0@ == k;
                assert(entries_map(es).contains_key(es[j].0@));
                assert(entries_map(es)[k] == views_of(es[j].1@));
                let p = choose|p: int| 0 <= p < views_of(es[j].1@).len() && views_of(es[j].1@)[p] == x;
                if j < es.len() - 1 {
                    assert(es[j] == rest[j]);
                    assert(entries_map(rest).contains_key(rest[j].0@));
                    assert(entries_map(rest)[k].contains(x));
                    assert(fl.contains(x));
                    let q = choose|q: int| 0 <= q < fl.len() && fl[q] == x;
                    assert(flatten_snapshots(es)[q] == x);
                } else {
                    assert(flatten_snapshots(es)[fl.len() + p] == x);
                }
            }
        }
    }
}

fn is_last_of_name_exec(ms: &Vec<MetricValue>, i: usize) -> (b: bool)
    requires
        i < ms@.len(),
    ensures
        b == is_last_of_name(ms@, i as int),
{
    let n = ms.len();
    assert(i < n);
    let mut j: usize = i + 1;
    while j < ms.len()
        invariant
            i < j <= ms@.len(),
            forall|q: int| i < q < j ==> ms@[q].name@ != ms@[i as int].name@,
        decreases ms@.len() - j,
    {
        if ms[j].name == ms[i].name {
            return false;
        }
        j = j + 1;
    }
    true
}

/// The snapshot that publishing `metrics` for `collector_name` caches.
pub fn publish_snapshot(
    collector_name: &str,
    metrics: &Vec<MetricValue>,
    global_labels: &Vec<(String, String)>,
    collector_labels: &Vec<(String, String)>,
) -> (out: Vec<MetricValue>)
    ensures
        published_snapshot(
            views_of(out@),
            metrics@,
            collector_name@,
            global_labels@,
            collector_labels@,
        ),
{
    let empty: Vec<(String, String)> = Vec::new();
    let g = merge_labels(&empty, global_labels);
    assert(labels_map(empty@) =~= Map::<Seq<char>, Seq<char>>::empty());
    assert(labels_map(empty@).union_prefer_right(labels_map(global_labels@)) =~= labels_map(
        global_labels@,
    ));
    let mut base = merge_labels(&g, collector_labels);
    let key = String::from_str("collector");
    let value = String::from_str(collector_name);
    set_label(&mut base, &key, &value);
    let ghost base_map = labels_map(base@);
    assert(base_map == labels_map(global_labels@).union_prefer_right(
        labels_map(collector_labels@),
    ).insert("collector"@, collector_name@));
    let mut out: Vec<MetricValue> = Vec::new();
    let mut i: usize = 0;
    while i < metrics.len()
        invariant
            i <= metrics@.len(),
            keys_unique(base@),
            labels_map(base@) == base_map,
            base_map == labels_map(global_labels@).union_prefer_right(
                labels_map(collector_labels@),
            ).insert("collector"@, collector_name@),
            out@.len() == dedup_last_before(metrics@, i as int).len(),
            forall|q: int|
                0 <= q < out@.len() ==> published_as(
                    #[trigger] out@[q]@,
                    dedup_last_before(metrics@, i as int)[q],
                    collector_name@,
                    global_labels@,
                    collector_labels@,
                ),
        decreases metrics@.len() - i,
    {
        if is_last_of_name_exec(metrics, i) {
            let m = &metrics[i];
            let labels = merge_labels(&base, &m.labels);
            let pm = MetricValue {
                name: m.name.clone(),
                value_bits: m.value_bits,
                metric_type: m.metric_type,
                labels,
                description: m.description.clone(),
                unit: m.unit.clone(),
                updated_at_nanos: m.updated_at_nanos,
            };
            let ghost before = out@;
            out.push(pm);
            proof {
                let kept = dedup_last_before(metrics@, i + 1);
                assert(kept == dedup_last_before(metrics@, i as int).push(metrics@[i as int]));
                assert forall|q: int| 0 <= q < out@.len() implies published_as(
                    #[trigger] out@[q]@,
                    kept[q],
                    collector_name@,
                    global_labels@,
                    collector_labels@,
                ) by {
                    if q < before.len() {
                        assert(out@[q] == before[q]);
                    }
                }
            }
        }
        i = i + 1;
    }
    assert(views_of(out@).len() == out@.len());
    assert forall|q: int| 0 <= q < out@.len() implies #[trigger] views_of(out@)[q] == out@[q]@ by {}
    out
}

/// What reading a collector's snapshot gives: the snapshot, or nothing.
pub open spec fn stored(m: Map<Seq<char>, Seq<MetricValueView>>, name: Seq<char>) -> Seq<
    MetricValueView,
> {
    if m.contains_key(name) {
        m[name]
    } else {
        Seq::empty()
    }
}

/// Reading a collector right after publishing it gives what was published
/// (labels merged, one metric per name, the last one); every other
/// collector reads as before.
pub proof fn law_read_after_publish(
    before: Map<Seq<char>, Seq<MetricValueView>>,
    after: Map<Seq<char>, Seq<MetricValueView>>,
    name: Seq<char>,
    metrics: Seq<MetricValue>,
    global: Seq<(String, String)>,
    collector_labels: Seq<(String, String)>,
    other: Seq<char>,
)
    requires
        after.dom() == before.dom().insert(name),
        forall|k: Seq<char>| k != name && #[trigger] before.contains_key(k) ==> after[k] == before[k],
        published_snapshot(after[name], metrics, name, global, collector_labels),
    ensures
        published_snapshot(stored(after, name), metrics, name, global, collector_labels),
        other != name ==> stored(after, other) == stored(before, other),
{
    assert(after.contains_key(name));
    if other != name {
        assert(after.contains_key(other) == before.contains_key(other));
    }
}

/// A removed collector reads as empty; the others read as before.
pub proof fn law_read_after_remove(
    before: Map<Seq<char>, Seq<MetricValueView>>,
    after: Map<Seq<char>, Seq<MetricValueView>>,
    name: Seq<char>,
    other: Seq<char>,
)
    requires
        after == before.remove(name),
    ensures
        stored(after, name) == Seq::<MetricValueView>::empty(),
        other != name ==> stored(after, other) == stored(before, other),
{
}


/// The labels of a published metric: its own labels win over everything;
/// then `collector` names the collector; then the collector's labels win
/// over the global ones; and no other key appears.
pub proof fn law_published_label_precedence(
    collector: Seq<char>,
    global: Seq<(String, String)>,
    collector_labels: Seq<(String, String)>,
    own: Seq<(String, String)>,
    k: Seq<char>,
)
    ensures
        ({
            let p = published_labels(collector, global, collector_labels, own);
            &&& labels_map(own).contains_key(k) ==> p.contains_key(k) && p[k] == labels_map(own)[k]
            &&& (!labels_map(own).contains_key(k) && k == "collector"@) ==> p.contains_key(k)
                && p[k] == collector
            &&& (!labels_map(own).contains_key(k) && k != "collector"@ && labels_map(
                collector_labels,
            ).contains_key(k)) ==> p.contains_key(k) && p[k] == labels_map(collector_labels)[k]
            &&& (!labels_map(own).contains_key(k) && k != "collector"@ && !labels_map(
                collector_labels,
            ).contains_key(k) && labels_map(global).contains_key(k)) ==> p.contains_key(k) && p[k]
                == labels_map(global)[k]
            &&& p.contains_key(k) <==> (labels_map(own).contains_key(k) || k == "collector"@
                || labels_map(collector_labels).contains_key(k) || labels_map(global).contains_key(k))
        }),
{
}

} // verus!
