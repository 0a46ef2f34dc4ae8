//! Prometheus text exposition of the cached metrics.
//!
//! Numbers are formatted by the caller (`f64`'s `Display`) and handed in as
//! text; everything else about the exposition is decided here.

use vstd::prelude::*;

use crate::labels::{
    chars_le, lemma_chars_le_antisym, lemma_chars_le_total, lemma_chars_le_trans, sort_by_key,
    sorted_labels, str_le,
};
use crate::store::{MetricType, MetricValue};
use crate::text::{chars_of, push_char};

verus! {

/// `[A-Za-z0-9_]`.
pub open spec fn is_name_char(c: char) -> bool {
    ('a' <= c && c <= 'z') || ('A' <= c && c <= 'Z') || ('0' <= c && c <= '9') || c == '_'
}

/// Every character outside `[A-Za-z0-9_]` replaced by `_`.
pub open spec fn underscored(s: Seq<char>) -> Seq<char>
    decreases s.len(),
{
    if s.len() == 0 {
        Seq::empty()
    } else {
        underscored(s.drop_last()).push(if is_name_char(s.last()) { s.last() } else { '_' })
    }
}

/// A name matching `[a-zA-Z_][a-zA-Z0-9_]*`: invalid characters become `_`,
/// a leading digit gets a `_` in front, and the empty name becomes `_`.
pub open spec fn sanitized(s: Seq<char>) -> Seq<char> {
    if s.len() == 0 {
        seq!['_']
    } else if '0' <= s[0] && s[0] <= '9' {
        seq!['_'] + underscored(s)
    } else {
        underscored(s)
    }
}

/// Sanitises a string into a Prometheus name.
pub fn sanitize_name(s: &str) -> (out: String)
    ensures
        out@ == sanitized(s@),
{
    let cs = chars_of(s);
    let mut out = String::new();
    if cs.len() == 0 {
        push_char(&mut out, '_');
        assert(out@ =~= seq!['_']);
        return out;
    }
    if '0' <= cs[0] && cs[0] <= '9' {
        push_char(&mut out, '_');
    }
    let ghost head = out@;
    let mut i: usize = 0;
    while i < cs.len()
        invariant
            i <= cs@.len(),
            cs@ == s@,
            out@ =~= head + underscored(cs@.take(i as int)),
        decreases cs@.len() - i,
    {
        let c = cs[i];
        let ok = ('a' <= c && c <= 'z') || ('A' <= c && c <= 'Z') || ('0' <= c && c <= '9') || c
            == '_';
        if ok {
            push_char(&mut out, c);
        } else {
            push_char(&mut out, '_');
        }
        assert(cs@.take(i + 1).drop_last() =~= cs@.take(i as int));
        i = i + 1;
    }
    assert(cs@.take(cs@.len() as int) =~= cs@);
    out
}

/// `modbus_{name}` or `modbus_{name}_{unit}`, both parts sanitised.
pub open spec fn metric_name(name: Seq<char>, unit: Seq<char>) -> Seq<char> {
    if unit.len() == 0 {
        "modbus_"@ + sanitized(name)
    } else {
        "modbus_"@ + sanitized(name) + "_"@ + sanitized(unit)
    }
}

/// The exposed name of a metric with the given name and unit.
pub fn build_metric_name(name: &str, unit: &str) -> (out: String)
    ensures
        out@ == metric_name(name@, unit@),
{
    let mut out = String::new();
    out.append("modbus_");
    let sname = sanitize_name(name);
    out.append(sname.as_str());
    if unit.unicode_len() > 0 {
        out.append("_");
        let sunit = sanitize_name(unit);
        out.append(sunit.as_str());
    }
    out
}

/// One character of a label value as the exposition writes it.
pub open spec fn escaped_value_char(c: char) -> Seq<char> {
    if c == '\\' {
        seq!['\\', '\\']
    } else if c == '"' {
        seq!['\\', '"']
    } else if c == '\n' {
        seq!['\\', 'n']
    } else {
        seq![c]
    }
}

/// A label value with `\`, `"` and newlines escaped.
pub open spec fn escaped_value(s: Seq<char>) -> Seq<char>
    decreases s.len(),
{
    if s.len() == 0 {
        Seq::empty()
    } else {
        escaped_value(s.drop_last()) + escaped_value_char(s.last())
    }
}

/// One character of a HELP text as the exposition writes it.
pub open spec fn escaped_help_char(c: char) -> Seq<char> {
    if c == '\\' {
        seq!['\\', '\\']
    } else if c == '\n' {
        seq!['\\', 'n']
    } else {
        seq![c]
    }
}

/// A HELP text with `\` and newlines escaped.
pub open spec fn escaped_help(s: Seq<char>) -> Seq<char>
    decreases s.len(),
{
    if s.len() == 0 {
        Seq::empty()
    } else {
        escaped_help(s.drop_last()) + escaped_help_char(s.last())
    }
}

/// Appends a label value, escaped.
pub fn push_escaped_value(out: &mut String, s: &str)
    ensures
        final(out)@ == old(out)@ + escaped_value(s@),
{
    let cs = chars_of(s);
    let ghost start = out@;
    let mut i: usize = 0;
    while i < cs.len()
        invariant
            i <= cs@.len(),
            cs@ == s@,
            out@ =~= start + escaped_value(cs@.take(i as int)),
        decreases cs@.len() - i,
    {
        let c = cs[i];
        if c == '\\' {
            push_char(out, '\\');
            push_char(out, '\\');
        } else if c == '"' {
            push_char(out, '\\');
            push_char(out, '"');
        } else if c == '\n' {
            push_char(out, '\\');
            push_char(out, 'n');
        } else {
            push_char(out, c);
        }
        assert(cs@.take(i + 1).drop_last() =~= cs@.take(i as int));
        i = i + 1;
    }
    assert(cs@.take(cs@.len() as int) =~= cs@);
}

/// Appends a HELP text, escaped.
pub fn push_escaped_help(out: &mut String, s: &str)
    ensures
        final(out)@ == old(out)@ + escaped_help(s@),
{
    let cs = chars_of(s);
    let ghost start = out@;
    let mut i: usize = 0;
    while i < cs.len()
        invariant
            i <= cs@.len(),
            cs@ == s@,
            out@ =~= start + escaped_help(cs@.take(i as int)),
        decreases cs@.len() - i,
    {
        let c = cs[i];
        if c == '\\' {
            push_char(out, '\\');
            push_char(out, '\\');
        } else if c == '\n' {
            push_char(out, '\\');
            push_char(out, 'n');
        } else {
            push_char(out, c);
        }
        assert(cs@.take(i + 1).drop_last() =~= cs@.take(i as int));
        i = i + 1;
    }
    assert(cs@.take(cs@.len() as int) =~= cs@);
}

/// `k="v"` for each pair in order, joined by commas.
pub open spec fn label_pairs(ls: Seq<(String, String)>) -> Seq<char>
    decreases ls.len(),
{
    if ls.len() == 0 {
        Seq::empty()
    } else {
        let one = sanitized(ls.last().0@) + "=\""@ + escaped_value(ls.last().1@) + "\""@;
        if ls.len() == 1 {
            one
        } else {
            label_pairs(ls.drop_last()) + ","@ + one
        }
    }
}

/// A sample line: the name, the labels sorted by key in braces (none when
/// there are no labels), a space and the value text.
pub open spec fn metric_line(fqname: Seq<char>, labels: Seq<(String, String)>, value: Seq<char>) -> Seq<
    char,
> {
    if labels.len() == 0 {
        fqname + " "@ + value
    } else {
        fqname + "{"@ + label_pairs(sort_by_key(labels)) + "}"@ + " "@ + value
    }
}

/// Formats one sample line; `value` is the number as text.
pub fn format_metric_line(fqname: &str, labels: &Vec<(String, String)>, value: &str) -> (out:
    String)
    ensures
        out@ == metric_line(fqname@, labels@, value@),
{
    let mut out = String::new();
    out.append(fqname);
    if labels.len() == 0 {
        out.append(" ");
        out.append(value);
        return out;
    }
    let sorted = sorted_labels(labels);
    out.append("{");
    let ghost head = out@;
    let mut i: usize = 0;
    while i < sorted.len()
        invariant
            i <= sorted@.len(),
            out@ =~= head + label_pairs(sorted@.take(i as int)),
        decreases sorted@.len() - i,
    {
        if i > 0 {
            out.append(",");
        }
        let k = sanitize_name(sorted[i].0.as_str());
        out.append(k.as_str());
        out.append("=\"");
        push_escaped_value(&mut out, sorted[i].1.as_str());
        out.append("\"");
        assert(sorted@.take(i + 1).drop_last() =~= sorted@.take(i as int));
        i = i + 1;
    }
    assert(sorted@.take(sorted@.len() as int) =~= sorted@);
    out.append("}");
    out.append(" ");
    out.append(value);
    out
}

// ── Rendering the whole store ───────────────────────────────────────

/// The exposed name of a metric value.
pub open spec fn fqname_of(m: MetricValue) -> Seq<char> {
    metric_name(m.name@, m.unit@)
}

/// `gauge` or `counter`.
pub open spec fn type_word(t: MetricType) -> Seq<char> {
    match t {
        MetricType::Gauge => "gauge"@,
        MetricType::Counter => "counter"@,
    }
}

/// Index of the first metric exposed as `fq` (the length when none is).
pub open spec fn first_of(fq: Seq<char>, ms: Seq<MetricValue>) -> int
    decreases ms.len(),
{
    if ms.len() == 0 {
        0
    } else if fqname_of(ms[0]) == fq {
        0
    } else {
        1 + first_of(fq, ms.drop_first())
    }
}

/// The sample lines of the first `n` metrics that are exposed as `fq`.
pub open spec fn sample_lines(fq: Seq<char>, ms: Seq<MetricValue>, vals: Seq<String>, n: int) -> Seq<
    char,
>
    decreases n,
{
    if n <= 0 {
        Seq::empty()
    } else if fqname_of(ms[n - 1]) == fq {
        sample_lines(fq, ms, vals, n - 1) + metric_line(fq, ms[n - 1].labels@, vals[n - 1]@)
            + "\n"@
    } else {
        sample_lines(fq, ms, vals, n - 1)
    }
}

/// One metric family: HELP and TYPE from its first sample, then its samples
/// in order.
pub open spec fn family_text(fq: Seq<char>, ms: Seq<MetricValue>, vals: Seq<String>) -> Seq<char> {
    let first = ms[first_of(fq, ms)];
    "# HELP "@ + fq + " "@ + escaped_help(first.description@) + "\n"@ + "# TYPE "@ + fq + " "@
        + type_word(first.metric_type) + "\n"@ + sample_lines(fq, ms, vals, ms.len() as int)
}

/// The families named in `order`, one after another.
pub open spec fn families_text(order: Seq<Seq<char>>, ms: Seq<MetricValue>, vals: Seq<String>) -> Seq<
    char,
>
    decreases order.len(),
{
    if order.len() == 0 {
        Seq::empty()
    } else {
        families_text(order.drop_last(), ms, vals) + family_text(order.last(), ms, vals)
    }
}

/// Strictly ascending, hence without repeats.
pub open spec fn strictly_ascending(s: Seq<Seq<char>>) -> bool {
    forall|i: int, j: int|
        #![trigger s[i], s[j]]
        0 <= i < j < s.len() ==> chars_le(s[i], s[j]) && s[i] != s[j]
}

/// Whether some metric is exposed as `z`.
pub open spec fn is_fqname(z: Seq<char>, ms: Seq<MetricValue>) -> bool {
    exists|j: int| 0 <= j < ms.len() && fqname_of(ms[j]) == z
}

/// The exposed names of the metrics, each once, in ascending order.
pub open spec fn is_family_order(order: Seq<Seq<char>>, ms: Seq<MetricValue>) -> bool {
    &&& strictly_ascending(order)
    &&& forall|z: Seq<char>| #[trigger] order.contains(z) <==> is_fqname(z, ms)
}

/// Two ascending orders of the same names are the same sequence.
pub proof fn lemma_family_order_unique(a: Seq<Seq<char>>, b: Seq<Seq<char>>)
    requires
        strictly_ascending(a),
        strictly_ascending(b),
        forall|x: Seq<char>| a.contains(x) <==> b.contains(x),
    ensures
        a == b,
    decreases a.len(),
{
    if a.len() == 0 {
        if b.len() > 0 {
            assert(b.contains(b[0]));
        }
        assert(a =~= b);
    } else {
        assert(a.contains(a.last()));
        assert(b.len() > 0);
        assert(b.contains(b.last()));
        let x = a.last();
        let y = b.last();
        // both are the greatest element
        let ix = choose|k: int| 0 <= k < b.len() && b[k] == x;
        let iy = choose|k: int| 0 <= k < a.len() && a[k] == y;
        if x != y {
            assert(ix < b.len() - 1);
            assert(iy < a.len() - 1);
            assert(chars_le(x, y));
            assert(chars_le(y, x));
            lemma_chars_le_antisym(x, y);
        }
        assert forall|z: Seq<char>| a.drop_last().contains(z) <==> b.drop_last().contains(z) by {
            if a.drop_last().contains(z) {
                let k = choose|k: int| 0 <= k < a.len() - 1 && a[k] == z;
                assert(a.contains(z));
                let kb = choose|q: int| 0 <= q < b.len() && b[q] == z;
                assert(a[k] != a[a.len() - 1]);
                assert(z != x);
                assert(kb != b.len() - 1);
                assert(b.drop_last()[kb] == z);
            }
            if b.drop_last().contains(z) {
                let k = choose|k: int| 0 <= k < b.len() - 1 && b[k] == z;
                assert(b.contains(z));
                let ka = choose|q: int| 0 <= q < a.len() && a[q] == z;
                assert(b[k] != b[b.len() - 1]);
                assert(z != y);
                assert(ka != a.len() - 1);
                assert(a.drop_last()[ka] == z);
            }
        }
        lemma_family_order_unique(a.drop_last(), b.drop_last());
        assert(a =~= a.drop_last().push(x));
        assert(b =~= b.drop_last().push(y));
    }
}

/// The exposition of the metrics with their value texts: one family per
/// exposed name, in ascending name order.
pub open spec fn exposition(ms: Seq<MetricValue>, vals: Seq<String>) -> Seq<char> {
    families_text(choose|order: Seq<Seq<char>>| is_family_order(order, ms), ms, vals)
}

/// The characters of each string.
pub open spec fn names(v: Seq<String>) -> Seq<Seq<char>> {
    v.map_values(|s: String| s@)
}

/// Inserts `x` into an ascending list of distinct names, unless present.
pub fn insert_name(order: &mut Vec<String>, x: String)
    requires
        strictly_ascending(names(old(order)@)),
    ensures
        strictly_ascending(names(final(order)@)),
        forall|z: Seq<char>| #[trigger]
            names(final(order)@).contains(z) <==> (names(old(order)@).contains(z) || z == x@),
{
    let ghost before = names(order@);
    let mut p: usize = 0;
    while p < order.len() && !str_le(x.as_str(), order[p].as_str())
        invariant
            p <= order@.len(),
            names(order@) == before,
            strictly_ascending(before),
            forall|q: int| 0 <= q < p ==> chars_le(#[trigger] before[q], x@) && before[q] != x@,
        decreases order@.len() - p,
    {
        proof {
            lemma_chars_le_total(x@, before[p as int]);
            if before[p as int] == x@ {
                assert(chars_le(x@, before[p as int])) by {
                    lemma_chars_le_total(x@, x@);
                }
            }
        }
        p = p + 1;
    }
    if p < order.len() && order[p] == x {
        assert(before.contains(x@)) by {
            assert(before[p as int] == x@);
        }
        return;
    }
    let ghost xv = x@;
    order.insert(p, x);
    proof {
        let after = names(order@);
        assert(after =~= before.insert(p as int, xv));
        assert forall|i: int, j: int| 0 <= i < j < after.len() implies chars_le(after[i], after[j])
            && after[i] != after[j] by {
            if j < p {
                assert(after[i] == before[i] && after[j] == before[j]);
            } else if j == p {
                assert(after[i] == before[i]);
            } else if i < p {
                assert(after[i] == before[i] && after[j] == before[j - 1]);
                assert(chars_le(before[i], xv));
                assert(chars_le(xv, before[p as int]));
                lemma_chars_le_trans(before[i], xv, before[p as int]);
                if j - 1 > p {
                    lemma_chars_le_trans(before[i], before[p as int], before[j - 1]);
                }
                if before[i] == before[j - 1] {
                    lemma_chars_le_trans(before[j - 1], xv, before[p as int]);
                    lemma_chars_le_antisym(before[i], xv);
                }
            } else if i == p {
                assert(after[j] == before[j - 1]);
                assert(chars_le(xv, before[p as int]));
                assert(before[p as int] != xv);
                if j - 1 > p {
                    lemma_chars_le_trans(xv, before[p as int], before[j - 1]);
                    if xv == before[j - 1] {
                        lemma_chars_le_antisym(before[p as int], before[j - 1]);
                    }
                }
            } else {
                assert(after[i] == before[i - 1] && after[j] == before[j - 1]);
            }
        }
        assert forall|z: Seq<char>| after.contains(z) <==> (before.contains(z) || z == xv) by {
            if after.contains(z) {
                let k = choose|k: int| 0 <= k < after.len() && after[k] == z;
                if k < p {
                    assert(before[k] == z);
                } else if k > p {
                    assert(before[k - 1] == z);
                }
            }
            if before.contains(z) {
                let k = choose|k: int| 0 <= k < before.len() && before[k] == z;
                if k < p {
                    assert(after[k] == z);
                } else {
                    assert(after[k + 1] == z);
                }
            }
            if z == xv {
                assert(after[p as int] == z);
            }
        }
    }
}

/// Renders metrics in the Prometheus text format.  `values[i]` is the value
/// of `metrics[i]` as text.  Metrics are grouped by exposed name, in
/// ascending order; HELP and TYPE come from a family's first metric.
pub fn render_metrics(metrics: &Vec<MetricValue>, values: &Vec<String>) -> (out: String)
    requires
        metrics@.len() == values@.len(),
    ensures
        out@ == exposition(metrics@, values@),
{
    // the family names, ascending
    let mut order: Vec<String> = Vec::new();
    let mut i: usize = 0;
    while i < metrics.len()
        invariant
            i <= metrics@.len(),
            strictly_ascending(names(order@)),
            forall|z: Seq<char>| #[trigger]
                names(order@).contains(z) <==> exists|j: int|
                    0 <= j < i && z == #[trigger] fqname_of(metrics@[j]),
        decreases metrics@.len() - i,
    {
        let fq = build_metric_name(metrics[i].name.as_str(), metrics[i].unit.as_str());
        let ghost before = names(order@);
        insert_name(&mut order, fq);
        proof {
            let after = names(order@);
            assert forall|z: Seq<char>| after.contains(z) <==> exists|j: int|
                0 <= j < i + 1 && z == #[trigger] fqname_of(metrics@[j]) by {
                if after.contains(z) && z != fqname_of(metrics@[i as int]) {
                    assert(before.contains(z));
                }
                if exists|j: int| 0 <= j < i + 1 && z == #[trigger] fqname_of(metrics@[j]) {
                    let j = choose|j: int| 0 <= j < i + 1 && z == #[trigger] fqname_of(metrics@[j]);
                    if j < i {
                        assert(before.contains(z));
                    }
                }
            }
        }
        i = i + 1;
    }
    let ghost ord = names(order@);
    proof {
        assert(is_family_order(ord, metrics@)) by {
            assert forall|z: Seq<char>| #[trigger] ord.contains(z) <==> is_fqname(z, metrics@) by {
                assert(names(order@).contains(z) == ord.contains(z));
            }
        }
        let chosen = choose|o: Seq<Seq<char>>| is_family_order(o, metrics@);
        assert(is_family_order(chosen, metrics@));
        assert forall|x: Seq<char>| chosen.contains(x) <==> ord.contains(x) by {
            assert(chosen.contains(x) <==> is_fqname(x, metrics@));
            assert(ord.contains(x) <==> is_fqname(x, metrics@));
        }
        lemma_family_order_unique(chosen, ord);
    }
    let mut out = String::new();
    let mut g: usize = 0;
    while g < order.len()
        invariant
            g <= order@.len(),
            ord == names(order@),
            is_family_order(ord, metrics@),
            metrics@.len() == values@.len(),
            out@ =~= families_text(ord.take(g as int), metrics@, values@),
        decreases order@.len() - g,
    {
        let fq = &order[g];
        assert(fq@ == ord[g as int]);
        assert(ord.contains(ord[g as int]));
        assert(is_fqname(fq@, metrics@));
        render_family(&mut out, fq, metrics, values);
        assert(ord.take(g + 1).drop_last() =~= ord.take(g as int));
        g = g + 1;
    }
    assert(ord.take(ord.len() as int) =~= ord);
    out
}

fn first_index_of_family(fq: &String, metrics: &Vec<MetricValue>) -> (f: usize)
    requires
        exists|j: int| 0 <= j < metrics@.len() && fq@ == #[trigger] fqname_of(metrics@[j]),
    ensures
        f < metrics@.len(),
        f == first_of(fq@, metrics@),
{
    let mut f: usize = 0;
    assert(metrics@.skip(0) =~= metrics@);
    while f < metrics.len()
        invariant
            f <= metrics@.len(),
            first_of(fq@, metrics@) == f + first_of(fq@, metrics@.skip(f as int)),
            exists|j: int| f <= j < metrics@.len() && fq@ == #[trigger] fqname_of(metrics@[j]),
        decreases metrics@.len() - f,
    {
        let name = build_metric_name(metrics[f].name.as_str(), metrics[f].unit.as_str());
        assert(metrics@.skip(f as int)[0] == metrics@[f as int]);
        if name == *fq {
            return f;
        }
        assert(metrics@.skip(f as int).drop_first() =~= metrics@.skip(f + 1));
        f = f + 1;
    }
    0
}

fn render_family(out: &mut String, fq: &String, metrics: &Vec<MetricValue>, values: &Vec<String>)
    requires
        metrics@.len() == values@.len(),
        exists|j: int| 0 <= j < metrics@.len() && fq@ == #[trigger] fqname_of(metrics@[j]),
    ensures
        final(out)@ == old(out)@ + family_text(fq@, metrics@, values@),
{
    let f = first_index_of_family(fq, metrics);
    let first = &metrics[f];
    out.append("# HELP ");
    out.append(fq.as_str());
    out.append(" ");
    push_escaped_help(out, first.description.as_str());
    out.append("\n");
    out.append("# TYPE ");
    out.append(fq.as_str());
    out.append(" ");
    match first.metric_type {
        MetricType::Gauge => out.append("gauge"),
        MetricType::Counter => out.append("counter"),
    }
    out.append("\n");
    let ghost head = out@;
    let mut i: usize = 0;
    while i < metrics.len()
        invariant
            i <= metrics@.len(),
            metrics@.len() == values@.len(),
            out@ =~= head + sample_lines(fq@, metrics@, values@, i as int),
        decreases metrics@.len() - i,
    {
        let name = build_metric_name(metrics[i].name.as_str(), metrics[i].unit.as_str());
        if name == *fq {
            let line = format_metric_line(fq.as_str(), &metrics[i].labels, values[i].as_str());
            out.append(line.as_str());
            out.append("\n");
        }
        i = i + 1;
    }
}

proof fn lemma_underscored(s: Seq<char>)
    ensures
        underscored(s).len() == s.len(),
        forall|i: int| 0 <= i < s.len() ==> is_name_char(#[trigger] underscored(s)[i]),
        forall|i: int| 0 <= i < s.len() && is_name_char(s[i]) ==> #[trigger] underscored(s)[i] == s[i],
        forall|i: int| 0 <= i < s.len() && !is_name_char(s[i]) ==> #[trigger] underscored(s)[i] == '_',
    decreases s.len(),
{
    if s.len() > 0 {
        lemma_underscored(s.drop_last());
        assert forall|i: int| 0 <= i < s.len() - 1 implies underscored(s)[i] == underscored(s.drop_last())[i] by {}
    }
}

/// A sanitised name matches `[a-zA-Z_][a-zA-Z0-9_]*`: it is not empty, it
/// does not start with a digit, and every character is a letter, a digit or
/// `_`.
pub proof fn law_sanitized_is_valid_name(s: Seq<char>)
    ensures
        sanitized(s).len() > 0,
        !('0' <= sanitized(s)[0] && sanitized(s)[0] <= '9'),
        forall|i: int| 0 <= i < sanitized(s).len() ==> is_name_char(#[trigger] sanitized(s)[i]),
{
    lemma_underscored(s);
    if s.len() > 0 && !('0' <= s[0] && s[0] <= '9') {
        if is_name_char(s[0]) {
            assert(underscored(s)[0] == s[0]);
        } else {
            assert(underscored(s)[0] == '_');
        }
    }
    if s.len() > 0 && '0' <= s[0] && s[0] <= '9' {
        assert forall|i: int| 0 <= i < sanitized(s).len() implies is_name_char(#[trigger] sanitized(s)[i]) by {
            if i > 0 {
                assert(sanitized(s)[i] == underscored(s)[i - 1]);
            }
        }
    }
}

/// A name that is already valid is left as it is.
pub proof fn law_sanitize_keeps_valid_names(s: Seq<char>)
    requires
        s.len() > 0,
        !('0' <= s[0] && s[0] <= '9'),
        forall|i: int| 0 <= i < s.len() ==> is_name_char(#[trigger] s[i]),
    ensures
        sanitized(s) == s,
{
    lemma_underscored(s);
    assert(sanitized(s) =~= s);
}


/// Sanitising twice gives what sanitising once gives.
pub proof fn law_sanitize_idempotent(s: Seq<char>)
    ensures
        sanitized(sanitized(s)) == sanitized(s),
{
    law_sanitized_is_valid_name(s);
    law_sanitize_keeps_valid_names(sanitized(s));
}

/// A sanitised name has one character per character of the input, one more
/// when the input starts with a digit, and at least one.
pub proof fn law_sanitized_length(s: Seq<char>)
    ensures
        sanitized(s).len() == if s.len() == 0 {
            1int
        } else if '0' <= s[0] && s[0] <= '9' {
            (s.len() + 1) as int
        } else {
            s.len() as int
        },
{
    lemma_underscored(s);
}


/// Whether a character is escaped in a label value.
pub open spec fn needs_escape(c: char) -> bool {
    c == '\\' || c == '"' || c == '\n'
}

/// An escaped label value has no line break, and it is one character longer
/// than the value for each backslash, double quote and line break in it.
pub proof fn law_escaped_value_shape(s: Seq<char>)
    ensures
        forall|i: int| 0 <= i < escaped_value(s).len() ==> escaped_value(s)[i] != '\n',
        escaped_value(s).len() == s.len() + s.filter(|c: char| needs_escape(c)).len(),
    decreases s.len(),
{
    if s.len() > 0 {
        let r = s.drop_last();
        law_escaped_value_shape(r);
        let c = s.last();
        assert(s =~= r + seq![c]);
        Seq::filter_distributes_over_add(r, seq![c], |c: char| needs_escape(c));
        reveal_with_fuel(Seq::filter, 2);
        let e = escaped_value(r);
        let t = escaped_value_char(c);
        assert(escaped_value(s) == e + t);
        assert forall|i: int| 0 <= i < escaped_value(s).len() implies escaped_value(s)[i] != '\n' by {
            if i < e.len() {
                assert(escaped_value(s)[i] == e[i]);
            } else {
                assert(escaped_value(s)[i] == t[i - e.len()]);
            }
        }
    } else {
        reveal_with_fuel(Seq::filter, 1);
    }
}

} // verus!
