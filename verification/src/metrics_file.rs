//! Metric definitions from metrics files: defaults applied to each raw
//! definition, and the merge of several files with a collector's inline
//! metrics (a later definition of a name replaces an earlier one in place).

use vstd::prelude::*;

use indexmap::IndexMap;

use crate::config::{ByteOrder, Metric, MetricDefaults, MetricsFile, RawMetric, SCALE_ONE_BITS};

verus! {

// ── The ordered map of the `indexmap` crate ─────────────────────────

#[verifier::external_type_specification]
#[verifier::external_body]
#[verifier::reject_recursive_types(K)]
#[verifier::reject_recursive_types(V)]
#[verifier::reject_recursive_types(S)]
pub struct ExIndexMap<K, V, S>(IndexMap<K, V, S>);

/// The entries of an `IndexMap<String, usize>`, in their order.
pub uninterp spec fn index_entries(m: IndexMap<String, usize>) -> Seq<(Seq<char>, usize)>;

/// No key occurs twice.
pub open spec fn distinct_keys(es: Seq<(Seq<char>, usize)>) -> bool {
    forall|a: int, b: int| 0 <= a < b < es.len() ==> es[a].0 != es[b].0
}

/// Position of the entry with key `k`, if any.
pub open spec fn find_key(es: Seq<(Seq<char>, usize)>, k: Seq<char>) -> Option<int>
    decreases es.len(),
{
    if es.len() == 0 {
        None
    } else if es.last().0 == k {
        Some(es.len() - 1)
    } else {
        find_key(es.drop_last(), k)
    }
}

/// `IndexMap::new`: an empty map.
#[verifier::external_body]
fn index_map_new() -> (m: IndexMap<String, usize>)
    ensures
        index_entries(m) == Seq::<(Seq<char>, usize)>::empty(),
{
    IndexMap::new()
}

/// `IndexMap::insert`: an existing key keeps its place and takes the new
/// value (the old one is returned); a new key goes last.
#[verifier::external_body]
fn index_map_insert(m: &mut IndexMap<String, usize>, key: String, value: usize) -> (prev: Option<
    usize,
>)
    ensures
        distinct_keys(index_entries(*old(m))) ==> distinct_keys(index_entries(*final(m))),
        match find_key(index_entries(*old(m)), key@) {
            Some(i) => index_entries(*final(m)) == index_entries(*old(m)).update(i, (key@, value))
                && prev == Some(index_entries(*old(m))[i].1),
            None => index_entries(*final(m)) == index_entries(*old(m)).push((key@, value))
                && prev is None,
        },
{
    m.insert(key, value)
}

/// `IndexMap::into_values`: the values in entry order.
#[verifier::external_body]
fn index_map_into_values(m: IndexMap<String, usize>) -> (v: Vec<usize>)
    ensures
        v@.len() == index_entries(m).len(),
        forall|i: int| 0 <= i < v@.len() ==> #[trigger] v@[i] == index_entries(m)[i].1,
{
    m.into_values().collect()
}

// ── Defaults ────────────────────────────────────────────────────────

/// Field-wise equality of two metric definitions, strings by content.
pub open spec fn same_metric(a: Metric, b: Metric) -> bool {
    &&& a.name@ == b.name@
    &&& a.description@ == b.description@
    &&& a.metric_type == b.metric_type
    &&& a.register_type == b.register_type
    &&& a.address == b.address
    &&& a.data_type == b.data_type
    &&& a.byte_order == b.byte_order
    &&& a.scale_bits == b.scale_bits
    &&& a.offset_bits == b.offset_bits
    &&& a.unit@ == b.unit@
    &&& a.command@ == b.command@
    &&& a.response_length == b.response_length
    &&& a.response_offset == b.response_offset
}

fn clone_bytes(v: &Vec<u8>) -> (r: Vec<u8>)
    ensures
        r@ == v@,
{
    let mut r: Vec<u8> = Vec::new();
    let mut i: usize = 0;
    while i < v.len()
        invariant
            i <= v@.len(),
            r@ =~= v@.take(i as int),
        decreases v@.len() - i,
    {
        r.push(v[i]);
        i = i + 1;
        assert(r@ =~= v@.take(i as int));
    }
    assert(v@.take(v@.len() as int) =~= v@);
    r
}

/// A copy of a metric definition.
pub fn clone_metric_def(m: &Metric) -> (r: Metric)
    ensures
        same_metric(r, *m),
{
    Metric {
        name: m.name.clone(),
        description: m.description.clone(),
        metric_type: m.metric_type,
        register_type: m.register_type,
        address: m.address,
        data_type: m.data_type,
        byte_order: m.byte_order,
        scale_bits: m.scale_bits,
        offset_bits: m.offset_bits,
        unit: m.unit.clone(),
        command: clone_bytes(&m.command),
        response_length: m.response_length,
        response_offset: m.response_offset,
    }
}

/// The value of an optional field: the metric's own, else the file default.
pub open spec fn or_default<T>(own: Option<T>, dflt: Option<T>) -> Option<T> {
    match own {
        Some(v) => Some(v),
        None => dflt,
    }
}

/// "collector '{c}': metric '{m}' in '{f}': missing required field '{field}'"
pub open spec fn missing_field_message(
    collector: Seq<char>,
    metric: Seq<char>,
    file: Seq<char>,
    field: Seq<char>,
) -> Seq<char> {
    "collector '"@ + collector + "': metric '"@ + metric + "' in '"@ + file
        + "': missing required field '"@ + field + "'"@
}

/// What a raw definition becomes under the file defaults: each unset field
/// takes the default; description and unit fall back to empty, byte order
/// to big-endian, scale to 1 and offset to 0; type and data type are
/// required.
pub open spec fn defaulted(raw: RawMetric, d: Option<MetricDefaults>, out: Metric) -> bool {
    let dd = d.unwrap();
    &&& out.name@ == raw.name@
    &&& out.description@ == (match raw.description {
        Some(s) => s@,
        None => if d is Some && dd.description is Some {
            dd.description.unwrap()@
        } else {
            Seq::empty()
        },
    })
    &&& Some(out.metric_type) == or_default(raw.metric_type, if d is Some { dd.metric_type } else { None })
    &&& out.register_type == or_default(raw.register_type, if d is Some { dd.register_type } else { None })
    &&& out.address == raw.address
    &&& Some(out.data_type) == or_default(raw.data_type, if d is Some { dd.data_type } else { None })
    &&& out.byte_order == (match or_default(raw.byte_order, if d is Some { dd.byte_order } else { None }) {
        Some(b) => b,
        None => ByteOrder::BigEndian,
    })
    &&& out.scale_bits == (match or_default(raw.scale_bits, if d is Some { dd.scale_bits } else { None }) {
        Some(b) => b,
        None => SCALE_ONE_BITS,
    })
    &&& out.offset_bits == (match or_default(raw.offset_bits, if d is Some { dd.offset_bits } else { None }) {
        Some(b) => b,
        None => 0,
    })
    &&& out.unit@ == (match raw.unit {
        Some(s) => s@,
        None => if d is Some && dd.unit is Some {
            dd.unit.unwrap()@
        } else {
            Seq::empty()
        },
    })
    &&& out.command@ == raw.command@
    &&& out.response_length == raw.response_length
    &&& out.response_offset == raw.response_offset
}

fn missing_field(collector: &str, metric: &String, file: &str, field: &str) -> (m: String)
    ensures
        m@ == missing_field_message(collector@, metric@, file@, field@),
{
    let mut m = String::new();
    m.append("collector '");
    m.append(collector);
    m.append("': metric '");
    m.append(metric.as_str());
    m.append("' in '");
    m.append(file);
    m.append("': missing required field '");
    m.append(field);
    m.append("'");
    m
}

fn opt_string_or(own: &Option<String>, dflt: Option<&String>) -> (s: String)
    ensures
        s@ == (match own {
            Some(x) => x@,
            None => match dflt {
                Some(y) => y@,
                None => Seq::empty(),
            },
        }),
{
    match own {
        Some(x) => x.clone(),
        None => match dflt {
            Some(y) => y.clone(),
            None => String::new(),
        },
    }
}

impl RawMetric {
    /// The metric this definition gives under the file defaults; type and
    /// data type must be set here or there.
    pub fn into_metric(
        &self,
        defaults: &Option<MetricDefaults>,
        collector_name: &str,
        file_path: &str,
    ) -> (r: Result<Metric, String>)
        ensures
            or_default(
                self.metric_type,
                if defaults is Some { defaults->0.metric_type } else { None },
            ) is None ==> (r matches Err(m) && m@ == missing_field_message(
                collector_name@,
                self.name@,
                file_path@,
                "type"@,
            )),
            or_default(
                self.metric_type,
                if defaults is Some { defaults->0.metric_type } else { None },
            ) is Some && or_default(
                self.data_type,
                if defaults is Some { defaults->0.data_type } else { None },
            ) is None ==> (r matches Err(m) && m@ == missing_field_message(
                collector_name@,
                self.name@,
                file_path@,
                "data_type"@,
            )),
            r matches Ok(out) ==> defaulted(*self, *defaults, out),
            (or_default(
                self.metric_type,
                if defaults is Some { defaults->0.metric_type } else { None },
            ) is Some && or_default(
                self.data_type,
                if defaults is Some { defaults->0.data_type } else { None },
            ) is Some) ==> r is Ok,
    {
        let d = defaults.as_ref();
        let metric_type = match self.metric_type {
            Some(t) => t,
            None => match d {
                Some(dd) => match dd.metric_type {
                    Some(t) => t,
                    None => return Err(missing_field(collector_name, &self.name, file_path, "type")),
                },
                None => return Err(missing_field(collector_name, &self.name, file_path, "type")),
            },
        };
        let register_type = match self.register_type {
            Some(t) => Some(t),
            None => match d {
                Some(dd) => dd.register_type,
                None => None,
            },
        };
        let data_type = match self.data_type {
            Some(t) => t,
            None => match d {
                Some(dd) => match dd.data_type {
                    Some(t) => t,
                    None => return Err(
                        missing_field(collector_name, &self.name, file_path, "data_type"),
                    ),
                },
                None => return Err(
                    missing_field(collector_name, &self.name, file_path, "data_type"),
                ),
            },
        };
        let byte_order = match self.byte_order {
            Some(b) => b,
            None => match d {
                Some(dd) => match dd.byte_order {
                    Some(b) => b,
                    None => ByteOrder::BigEndian,
                },
                None => ByteOrder::BigEndian,
            },
        };
        let scale_bits = match self.scale_bits {
            Some(b) => b,
            None => match d {
                Some(dd) => match dd.scale_bits {
                    Some(b) => b,
                    None => SCALE_ONE_BITS,
                },
                None => SCALE_ONE_BITS,
            },
        };
        let offset_bits = match self.offset_bits {
            Some(b) => b,
            None => match d {
                Some(dd) => match dd.offset_bits {
                    Some(b) => b,
                    None => 0,
                },
                None => 0,
            },
        };
        let description = opt_string_or(
            &self.description,
            match d {
                Some(dd) => dd.description.as_ref(),
                None => None,
            },
        );
        let unit = opt_string_or(
            &self.unit,
            match d {
                Some(dd) => dd.unit.as_ref(),
                None => None,
            },
        );
        Ok(
            Metric {
                name: self.name.clone(),
                description,
                metric_type,
                register_type,
                address: self.address,
                data_type,
                byte_order,
                scale_bits,
                offset_bits,
                unit,
                command: clone_bytes(&self.command),
                response_length: self.response_length,
                response_offset: self.response_offset,
            },
        )
    }
}

// ── Merging ─────────────────────────────────────────────────────────

/// Positions of the winning definitions: a definition of a new name goes
/// last; one of a known name replaces the earlier one in its place.
pub open spec fn merge_order(cands: Seq<Metric>, n: int) -> Seq<int>
    decreases n,
{
    if n <= 0 {
        Seq::empty()
    } else {
        let prev = merge_order(cands, n - 1);
        let name = cands[n - 1].name@;
        match find_key(prev.map_values(|j: int| (cands[j].name@, 0usize)), name) {
            Some(p) => prev.update(p, n - 1),
            None => prev.push(n - 1),
        }
    }
}

/// "collector '{c}': metrics file '{f}' contains no metrics"
pub open spec fn empty_file_message(collector: Seq<char>, file: Seq<char>) -> Seq<char> {
    "collector '"@ + collector + "': metrics file '"@ + file + "' contains no metrics"@
}

/// The entries an order of winners gives: each winner's name and position.
pub open spec fn order_entries(cands: Seq<Metric>, order: Seq<int>) -> Seq<(Seq<char>, usize)> {
    order.map_values(|j: int| (cands[j].name@, j as usize))
}

proof fn lemma_find_key_names(es: Seq<(Seq<char>, usize)>, fs: Seq<(Seq<char>, usize)>, k: Seq<char>)
    requires
        es.len() == fs.len(),
        forall|i: int| 0 <= i < es.len() ==> #[trigger] es[i].0 == fs[i].0,
    ensures
        find_key(es, k) == find_key(fs, k),
    decreases es.len(),
{
    if es.len() > 0 {
        lemma_find_key_names(es.drop_last(), fs.drop_last(), k);
    }
}

proof fn lemma_find_key_some(es: Seq<(Seq<char>, usize)>, k: Seq<char>)
    ensures
        find_key(es, k) matches Some(i) ==> 0 <= i < es.len() && es[i].0 == k,
        find_key(es, k) is None ==> forall|i: int| 0 <= i < es.len() ==> es[i].0 != k,
    decreases es.len(),
{
    if es.len() > 0 {
        lemma_find_key_some(es.drop_last(), k);
        if es.last().0 != k {
            assert forall|i: int| 0 <= i < es.len() - 1 implies es[i] == es.drop_last()[i] by {}
        }
    }
}

/// Whether a raw definition resolves: type and data type are set in it or
/// in the defaults.
pub open spec fn resolvable(raw: RawMetric, d: Option<MetricDefaults>) -> bool {
    &&& or_default(raw.metric_type, if d is Some { d->0.metric_type } else { None }) is Some
    &&& or_default(raw.data_type, if d is Some { d->0.data_type } else { None }) is Some
}

/// The error of an unresolvable raw definition.
pub open spec fn raw_error(collector: Seq<char>, file: Seq<char>, raw: RawMetric, d: Option<MetricDefaults>) -> Seq<char> {
    if or_default(raw.metric_type, if d is Some { d->0.metric_type } else { None }) is None {
        missing_field_message(collector, raw.name@, file, "type"@)
    } else {
        missing_field_message(collector, raw.name@, file, "data_type"@)
    }
}

/// The error of the first unresolvable definition among the first `n` of a
/// file, if any.
pub open spec fn first_raw_error(collector: Seq<char>, path: Seq<char>, file: MetricsFile, n: int) -> Option<Seq<char>>
    decreases n,
{
    if n <= 0 {
        None
    } else {
        match first_raw_error(collector, path, file, n - 1) {
            Some(m) => Some(m),
            None => if resolvable(file.metrics@[n - 1], file.defaults) {
                None
            } else {
                Some(raw_error(collector, path, file.metrics@[n - 1], file.defaults))
            },
        }
    }
}

/// The error a file gives, if any: empty, or its first unresolvable definition.
pub open spec fn file_error(collector: Seq<char>, path: Seq<char>, file: MetricsFile) -> Option<Seq<char>> {
    if file.metrics@.len() == 0 {
        Some(empty_file_message(collector, path))
    } else {
        first_raw_error(collector, path, file, file.metrics@.len() as int)
    }
}

/// The error of the first failing file among the first `n`, if any.
pub open spec fn first_file_error(collector: Seq<char>, files: Seq<(String, MetricsFile)>, n: int) -> Option<Seq<char>>
    decreases n,
{
    if n <= 0 {
        None
    } else {
        match first_file_error(collector, files, n - 1) {
            Some(m) => Some(m),
            None => file_error(collector, files[n - 1].0@, files[n - 1].1),
        }
    }
}

/// Where file `f`'s definitions start among all file definitions.
pub open spec fn file_offset(files: Seq<(String, MetricsFile)>, f: int) -> int
    decreases f,
{
    if f <= 0 {
        0
    } else {
        file_offset(files, f - 1) + files[f - 1].1.metrics@.len()
    }
}

/// `cands` are the resolved definitions of all files in order, then the
/// inline metrics.
pub open spec fn are_candidates(cands: Seq<Metric>, files: Seq<(String, MetricsFile)>, inline: Seq<Metric>) -> bool {
    let nf = file_offset(files, files.len() as int);
    &&& cands.len() == nf + inline.len()
    &&& forall|f: int, k: int|
        0 <= f < files.len() && 0 <= k < files[f].1.metrics@.len() ==> defaulted(
            #[trigger] files[f].1.metrics@[k],
            files[f].1.defaults,
            cands[file_offset(files, f) + k],
        )
    &&& forall|i: int| 0 <= i < inline.len() ==> same_metric(#[trigger] cands[nf + i], inline[i])
}

/// Merges metric definitions: every file in order (each must define at
/// least one metric, and each definition must resolve under its file's
/// defaults), then the inline metrics.  A later definition of a name
/// replaces the earlier one in its place.
pub fn merge_metric_sources(
    collector_name: &str,
    files: &Vec<(String, MetricsFile)>,
    inline: &Vec<Metric>,
) -> (r: Result<Vec<Metric>, String>)
    ensures
        r is Err <==> first_file_error(collector_name@, files@, files@.len() as int) is Some,
        r matches Err(m) ==> Some(m@) == first_file_error(collector_name@, files@, files@.len() as int),
        r matches Ok(out) ==> exists|cands: Seq<Metric>|
            #![trigger are_candidates(cands, files@, inline@)]
            {
                let order = merge_order(cands, cands.len() as int);
                &&& are_candidates(cands, files@, inline@)
                &&& out@.len() == order.len()
                &&& forall|i: int| 0 <= i < out@.len() ==> same_metric(#[trigger] out@[i], cands[order[i]])
            },
{
    let mut cands: Vec<Metric> = Vec::new();
    let mut f: usize = 0;
    while f < files.len()
        invariant
            f <= files@.len(),
            first_file_error(collector_name@, files@, f as int) is None,
            cands@.len() == file_offset(files@, f as int),
            forall|g: int, k: int|
                0 <= g < f && 0 <= k < files@[g].1.metrics@.len() ==> defaulted(
                    #[trigger] files@[g].1.metrics@[k],
                    files@[g].1.defaults,
                    cands@[file_offset(files@, g) + k],
                ),
        decreases files@.len() - f,
    {
        let path = &files[f].0;
        let file = &files[f].1;
        if file.metrics.len() == 0 {
            proof {
                lemma_first_error_stays(collector_name@, files@, f as int + 1, files@.len() as int);
            }
            let mut m = String::new();
            m.append("collector '");
            m.append(collector_name);
            m.append("': metrics file '");
            m.append(path.as_str());
            m.append("' contains no metrics");
            return Err(m);
        }
        let ghost base = cands@;
        assert(forall|g: int, q: int|
            0 <= g < f && 0 <= q < files@[g].1.metrics@.len() ==> defaulted(
                #[trigger] files@[g].1.metrics@[q],
                files@[g].1.defaults,
                base[file_offset(files@, g) + q],
            ));
        let mut k: usize = 0;
        while k < file.metrics.len()
            invariant
                k <= file.metrics@.len(),
                f < files@.len(),
                *file == files@[f as int].1,
                path@ == files@[f as int].0@,
                file.metrics@.len() > 0,
                first_file_error(collector_name@, files@, f as int) is None,
                base.len() == file_offset(files@, f as int),
                first_raw_error(collector_name@, path@, *file, k as int) is None,
                cands@.len() == base.len() + k,
                cands@.subrange(0, base.len() as int) == base,
                forall|q: int| 0 <= q < k ==> defaulted(
                    #[trigger] file.metrics@[q],
                    file.defaults,
                    cands@[base.len() + q],
                ),
            decreases file.metrics@.len() - k,
        {
            match file.metrics[k].into_metric(&file.defaults, collector_name, path.as_str()) {
                Ok(m) => {
                    let ghost before = cands@;
                    cands.push(m);
                    assert(cands@.subrange(0, base.len() as int) =~= before.subrange(0, base.len() as int));
                },
                Err(e) => {
                    proof {
                        assert(first_raw_error(collector_name@, path@, *file, k as int + 1) == Some(e@));
                        lemma_first_raw_error_stays(
                            collector_name@,
                            path@,
                            *file,
                            k as int + 1,
                            file.metrics@.len() as int,
                        );
                        assert(first_file_error(collector_name@, files@, f as int + 1) == Some(e@));
                        lemma_first_error_stays(
                            collector_name@,
                            files@,
                            f as int + 1,
                            files@.len() as int,
                        );
                    }
                    return Err(e);
                },
            }
            k = k + 1;
        }
        proof {
            assert forall|g: int, q: int|
                0 <= g < f + 1 && 0 <= q < files@[g].1.metrics@.len() implies defaulted(
                    #[trigger] files@[g].1.metrics@[q],
                    files@[g].1.defaults,
                    cands@[file_offset(files@, g) + q],
                ) by {
                if g < f {
                    lemma_offset_bound(files@, g, f as int);
                    assert(cands@.subrange(0, base.len() as int)[file_offset(files@, g) + q]
                        == cands@[file_offset(files@, g) + q]);
                }
            }
        }
        f = f + 1;
    }
    let ghost file_count = cands@.len();
    let ghost file_cands = cands@;
    let mut i: usize = 0;
    while i < inline.len()
        invariant
            i <= inline@.len(),
            cands@.len() == file_count + i,
            cands@.subrange(0, file_count as int) == file_cands,
            forall|q: int| 0 <= q < i ==> same_metric(#[trigger] cands@[file_count + q], inline@[q]),
        decreases inline@.len() - i,
    {
        let ghost before = cands@;
        cands.push(clone_metric_def(&inline[i]));
        assert(cands@.subrange(0, file_count as int) =~= before.subrange(0, file_count as int));
        i = i + 1;
    }
    let out = merge_candidates(&cands);
    proof {
        assert forall|g: int, q: int|
            0 <= g < files@.len() && 0 <= q < files@[g].1.metrics@.len() implies defaulted(
                #[trigger] files@[g].1.metrics@[q],
                files@[g].1.defaults,
                cands@[file_offset(files@, g) + q],
            ) by {
            lemma_offset_bound(files@, g, files@.len() as int);
            assert(cands@.subrange(0, file_count as int)[file_offset(files@, g) + q]
                == cands@[file_offset(files@, g) + q]);
        }
        assert(are_candidates(cands@, files@, inline@));
    }
    Ok(out)
}

proof fn lemma_offset_bound(files: Seq<(String, MetricsFile)>, g: int, f: int)
    requires
        0 <= g < f <= files.len(),
    ensures
        file_offset(files, g) + files[g].1.metrics@.len() <= file_offset(files, f),
        file_offset(files, g) >= 0,
    decreases f - g,
{
    lemma_offset_nonneg(files, g);
    if g + 1 < f {
        lemma_offset_bound(files, g, f - 1);
    }
}

proof fn lemma_offset_nonneg(files: Seq<(String, MetricsFile)>, g: int)
    ensures
        file_offset(files, g) >= 0,
    decreases g,
{
    if g > 0 {
        lemma_offset_nonneg(files, g - 1);
    }
}

proof fn lemma_first_error_stays(c: Seq<char>, files: Seq<(String, MetricsFile)>, a: int, b: int)
    requires
        0 <= a <= b,
        first_file_error(c, files, a) is Some,
    ensures
        first_file_error(c, files, b) == first_file_error(c, files, a),
    decreases b - a,
{
    if a < b {
        lemma_first_error_stays(c, files, a, b - 1);
    }
}

proof fn lemma_first_raw_error_stays(c: Seq<char>, p: Seq<char>, file: MetricsFile, a: int, b: int)
    requires
        0 <= a <= b,
        first_raw_error(c, p, file, a) is Some,
    ensures
        first_raw_error(c, p, file, b) == first_raw_error(c, p, file, a),
    decreases b - a,
{
    if a < b {
        lemma_first_raw_error_stays(c, p, file, a, b - 1);
    }
}

proof fn lemma_merge_order_bounds(cands: Seq<Metric>, n: int)
    requires
        0 <= n <= cands.len(),
    ensures
        forall|i: int| 0 <= i < merge_order(cands, n).len() ==> 0 <= #[trigger] merge_order(cands, n)[i] < n,
    decreases n,
{
    if n > 0 {
        lemma_merge_order_bounds(cands, n - 1);
        let prev = merge_order(cands, n - 1);
        let es = prev.map_values(|j: int| (cands[j].name@, 0usize));
        lemma_find_key_some(es, cands[n - 1].name@);
    }
}

/// The winning definitions of `cands`, in merge order.
fn merge_candidates(cands: &Vec<Metric>) -> (out: Vec<Metric>)
    ensures
        out@.len() == merge_order(cands@, cands@.len() as int).len(),
        forall|i: int|
            0 <= i < out@.len() ==> same_metric(
                #[trigger] out@[i],
                cands@[merge_order(cands@, cands@.len() as int)[i]],
            ),
{
    let mut map = index_map_new();
    let mut j: usize = 0;
    assert(order_entries(cands@, merge_order(cands@, 0)) =~= index_entries(map));
    while j < cands.len()
        invariant
            j <= cands@.len(),
            index_entries(map) == order_entries(cands@, merge_order(cands@, j as int)),
        decreases cands@.len() - j,
    {
        let ghost prev = merge_order(cands@, j as int);
        let ghost es = index_entries(map);
        let ghost name = cands@[j as int].name@;
        proof {
            lemma_merge_order_bounds(cands@, j as int);
            lemma_find_key_names(
                es,
                prev.map_values(|q: int| (cands@[q].name@, 0usize)),
                name,
            );
            lemma_find_key_some(es, name);
        }
        let key = cands[j].name.clone();
        index_map_insert(&mut map, key, j);
        proof {
            let next = merge_order(cands@, j + 1);
            match find_key(es, name) {
                Some(p) => {
                    assert(next == prev.update(p, j as int));
                    assert(index_entries(map) =~= order_entries(cands@, next));
                },
                None => {
                    assert(next == prev.push(j as int));
                    assert(index_entries(map) =~= order_entries(cands@, next));
                },
            }
        }
        j = j + 1;
    }
    let ghost order = merge_order(cands@, cands@.len() as int);
    proof {
        lemma_merge_order_bounds(cands@, cands@.len() as int);
    }
    let winners = index_map_into_values(map);
    let clen = cands.len();
    let mut out: Vec<Metric> = Vec::new();
    let mut i: usize = 0;
    while i < winners.len()
        invariant
            clen == cands@.len(),
            i <= winners@.len(),
            winners@.len() == order.len(),
            forall|q: int| 0 <= q < winners@.len() ==> #[trigger] winners@[q] == order[q] as usize,
            forall|q: int| 0 <= q < order.len() ==> 0 <= #[trigger] order[q] < cands@.len(),
            out@.len() == i,
            forall|q: int| 0 <= q < i ==> same_metric(#[trigger] out@[q], cands@[order[q]]),
        decreases winners@.len() - i,
    {
        let w = winners[i];
        assert(winners@[i as int] == order[i as int] as usize);
        assert(0 <= order[i as int] < clen);
        assert(w == order[i as int]);
        out.push(clone_metric_def(&cands[w]));
        i = i + 1;
    }
    out
}

/// The name of candidate `i`.
pub open spec fn cand_name(cands: Seq<Metric>, i: int) -> Seq<char> {
    cands[i].name@
}

/// No two winners share a name.
pub open spec fn winners_distinct(cands: Seq<Metric>, order: Seq<int>) -> bool {
    forall|p: int, q: int|
        0 <= p < q < order.len() ==> cand_name(cands, #[trigger] order[p]) != cand_name(
            cands,
            #[trigger] order[q],
        )
}

/// Every one of the first `n` candidates' names has a winner.
pub open spec fn names_covered(cands: Seq<Metric>, order: Seq<int>, n: int) -> bool {
    forall|j: int|
        0 <= j < n ==> exists|p: int|
            0 <= p < order.len() && #[trigger] cand_name(cands, order[p]) == #[trigger] cand_name(
                cands,
                j,
            )
}

/// No later candidate among the first `n` shares a winner's name.
pub open spec fn winners_last(cands: Seq<Metric>, order: Seq<int>, n: int) -> bool {
    forall|p: int, j: int|
        0 <= p < order.len() && order[p] < j < n ==> #[trigger] cand_name(cands, j) != cand_name(
            cands,
            #[trigger] order[p],
        )
}

proof fn lemma_merge_step_facts(cands: Seq<Metric>, n: int)
    requires
        0 < n <= cands.len(),
    ensures
        ({
            let prev = merge_order(cands, n - 1);
            let es = prev.map_values(|j: int| (cands[j].name@, 0usize));
            &&& forall|p: int| 0 <= p < prev.len() ==> #[trigger] es[p].0 == cand_name(cands, prev[p])
            &&& find_key(es, cand_name(cands, n - 1)) matches Some(fp) ==> (0 <= fp < prev.len()
                && cand_name(cands, prev[fp]) == cand_name(cands, n - 1) && merge_order(cands, n)
                == prev.update(fp, n - 1))
            &&& find_key(es, cand_name(cands, n - 1)) is None ==> ((forall|p: int|
                0 <= p < prev.len() ==> cand_name(cands, #[trigger] prev[p]) != cand_name(cands, n - 1))
                && merge_order(cands, n) == prev.push(n - 1))
        }),
{
    let prev = merge_order(cands, n - 1);
    let es = prev.map_values(|j: int| (cands[j].name@, 0usize));
    lemma_find_key_some(es, cand_name(cands, n - 1));
    if find_key(es, cand_name(cands, n - 1)) is None {
        assert forall|p: int| 0 <= p < prev.len() implies cand_name(cands, #[trigger] prev[p])
            != cand_name(cands, n - 1) by {
            assert(es[p].0 == cand_name(cands, prev[p]));
        }
    }
}

proof fn lemma_merge_distinct(cands: Seq<Metric>, n: int)
    requires
        0 <= n <= cands.len(),
    ensures
        winners_distinct(cands, merge_order(cands, n)),
    decreases n,
{
    if n > 0 {
        lemma_merge_distinct(cands, n - 1);
        lemma_merge_step_facts(cands, n);
        let prev = merge_order(cands, n - 1);
        let order = merge_order(cands, n);
        assert forall|p: int, q: int| 0 <= p < q < order.len() implies cand_name(cands, #[trigger] order[p])
            != cand_name(cands, #[trigger] order[q]) by {
            if q < prev.len() {
                assert(cand_name(cands, order[p]) == cand_name(cands, prev[p]));
                assert(cand_name(cands, order[q]) == cand_name(cands, prev[q]));
            } else {
                assert(order[p] == prev[p]);
            }
        }
    }
}

proof fn lemma_merge_covered(cands: Seq<Metric>, n: int)
    requires
        0 <= n <= cands.len(),
    ensures
        names_covered(cands, merge_order(cands, n), n),
    decreases n,
{
    if n > 0 {
        lemma_merge_covered(cands, n - 1);
        lemma_merge_step_facts(cands, n);
        let prev = merge_order(cands, n - 1);
        let order = merge_order(cands, n);
        assert forall|j: int| 0 <= j < n implies exists|p: int|
            0 <= p < order.len() && #[trigger] cand_name(cands, order[p]) == #[trigger] cand_name(cands, j) by {
            if j < n - 1 {
                let p = choose|p: int|
                    0 <= p < prev.len() && #[trigger] cand_name(cands, prev[p]) == #[trigger] cand_name(cands, j);
                assert(cand_name(cands, order[p]) == cand_name(cands, prev[p]));
            } else {
                let es = prev.map_values(|i: int| (cands[i].name@, 0usize));
                match find_key(es, cand_name(cands, n - 1)) {
                    Some(fp) => {
                        assert(cand_name(cands, order[fp]) == cand_name(cands, j));
                    },
                    None => {
                        assert(order[prev.len() as int] == n - 1);
                    },
                }
            }
        }
    }
}

proof fn lemma_merge_range(cands: Seq<Metric>, n: int)
    requires
        0 <= n <= cands.len(),
    ensures
        forall|p: int| 0 <= p < merge_order(cands, n).len() ==> 0 <= #[trigger] merge_order(cands, n)[p] < n,
    decreases n,
{
    if n > 0 {
        lemma_merge_range(cands, n - 1);
        lemma_merge_step_facts(cands, n);
    }
}

proof fn lemma_merge_last(cands: Seq<Metric>, n: int)
    requires
        0 <= n <= cands.len(),
    ensures
        winners_last(cands, merge_order(cands, n), n),
    decreases n,
{
    if n > 0 {
        lemma_merge_last(cands, n - 1);
        lemma_merge_distinct(cands, n - 1);
        lemma_merge_range(cands, n - 1);
        lemma_merge_step_facts(cands, n);
        let prev = merge_order(cands, n - 1);
        let order = merge_order(cands, n);
        let es = prev.map_values(|i: int| (cands[i].name@, 0usize));
        assert forall|p: int, j: int| 0 <= p < order.len() && order[p] < j < n implies #[trigger] cand_name(cands, j)
            != cand_name(cands, #[trigger] order[p]) by {
            match find_key(es, cand_name(cands, n - 1)) {
                Some(fp) => {
                    if p != fp {
                        assert(order[p] == prev[p]);
                        if j == n - 1 {
                            if p < fp {
                                assert(cand_name(cands, prev[p]) != cand_name(cands, prev[fp]));
                            } else {
                                assert(cand_name(cands, prev[fp]) != cand_name(cands, prev[p]));
                            }
                        }
                    }
                },
                None => {
                    if p < prev.len() {
                        assert(order[p] == prev[p]);
                    }
                },
            }
        }
    }
}

/// The merge keeps one definition per name, namely the last one given, and
/// loses no name: every definition's name has a winner, no two winners share
/// a name, and no later definition shares a winner's name.
pub proof fn law_merge_last_definition_wins(cands: Seq<Metric>)
    ensures
        winners_distinct(cands, merge_order(cands, cands.len() as int)),
        names_covered(cands, merge_order(cands, cands.len() as int), cands.len() as int),
        winners_last(cands, merge_order(cands, cands.len() as int), cands.len() as int),
{
    lemma_merge_distinct(cands, cands.len() as int);
    lemma_merge_covered(cands, cands.len() as int);
    lemma_merge_last(cands, cands.len() as int);
}


proof fn lemma_no_raw_error(c: Seq<char>, p: Seq<char>, file: MetricsFile, n: int)
    requires
        0 <= n <= file.metrics@.len(),
    ensures
        first_raw_error(c, p, file, n) is None <==> forall|k: int|
            0 <= k < n ==> resolvable(#[trigger] file.metrics@[k], file.defaults),
    decreases n,
{
    if n > 0 {
        lemma_no_raw_error(c, p, file, n - 1);
    }
}

proof fn lemma_no_file_error(c: Seq<char>, files: Seq<(String, MetricsFile)>, n: int)
    requires
        0 <= n <= files.len(),
    ensures
        first_file_error(c, files, n) is None <==> forall|f: int|
            0 <= f < n ==> file_error(c, (#[trigger] files[f]).0@, files[f].1) is None,
    decreases n,
{
    if n > 0 {
        lemma_no_file_error(c, files, n - 1);
    }
}

/// Merging fails exactly when some metrics file is empty or holds a
/// definition that does not resolve under its file's defaults: with every
/// file non-empty and every definition complete, the merge succeeds.
pub proof fn law_merge_fails_only_on_bad_file(c: Seq<char>, files: Seq<(String, MetricsFile)>)
    ensures
        first_file_error(c, files, files.len() as int) is None <==> ((forall|f: int|
            0 <= f < files.len() ==> (#[trigger] files[f]).1.metrics@.len() > 0) && (forall|
            f: int,
            k: int,
        |
            0 <= f < files.len() && 0 <= k < files[f].1.metrics@.len() ==> resolvable(
                #[trigger] files[f].1.metrics@[k],
                files[f].1.defaults,
            ))),
{
    lemma_no_file_error(c, files, files.len() as int);
    assert forall|f: int| 0 <= f < files.len() implies (file_error(c, (#[trigger] files[f]).0@, files[f].1) is None
        <==> (files[f].1.metrics@.len() > 0 && forall|k: int|
        0 <= k < files[f].1.metrics@.len() ==> resolvable(
            #[trigger] files[f].1.metrics@[k],
            files[f].1.defaults,
        ))) by {
        lemma_no_raw_error(c, files[f].0@, files[f].1, files[f].1.metrics@.len() as int);
    }
    if first_file_error(c, files, files.len() as int) is None {
        assert forall|f: int, k: int| 0 <= f < files.len() && 0 <= k < files[f].1.metrics@.len() implies resolvable(
            #[trigger] files[f].1.metrics@[k],
            files[f].1.defaults,
        ) by {
            assert(file_error(c, files[f].0@, files[f].1) is None);
        }
    } else {
        let f = choose|f: int| 0 <= f < files.len() && !(file_error(c, (#[trigger] files[f]).0@, files[f].1) is None);
        if files[f].1.metrics@.len() > 0 {
            let k = choose|k: int|
                0 <= k < files[f].1.metrics@.len() && !resolvable(
                    #[trigger] files[f].1.metrics@[k],
                    files[f].1.defaults,
                );
            assert(!resolvable(files[f].1.metrics@[k], files[f].1.defaults));
        }
    }
}

} // verus!
