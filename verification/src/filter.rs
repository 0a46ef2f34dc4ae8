//! Selecting collectors and metrics by regular expression (`pull`
//! command's `--collector` and `--metric`).

use vstd::prelude::*;

use regex::Regex;

use crate::config::{Collector, Metric};

verus! {

#[verifier::external_type_specification]
#[verifier::external_body]
pub struct ExRegex(Regex);

/// The error text `Regex::new` gives for a pattern it rejects (`None` for
/// a pattern it accepts).
pub uninterp spec fn regex_new_error(pattern: Seq<char>) -> Option<Seq<char>>;

/// `Regex::new`: compiles a pattern, or gives the error's text.
#[verifier::external_body]
fn compile_regex(pattern: &str) -> (r: Result<Regex, String>)
    ensures
        r is Ok <==> regex_new_error(pattern@) is None,
        r matches Err(e) ==> regex_new_error(pattern@) == Some(e@),
{
    match Regex::new(pattern) {
        Ok(re) => Ok(re),
        Err(e) => Err(e.to_string()),
    }
}

/// Whether the regular expression `pattern` matches somewhere in `text`
/// (`Regex::is_match` on the pattern compiled by `Regex::new`).
pub uninterp spec fn regex_matches(pattern: Seq<char>, text: Seq<char>) -> bool;

/// A compiled pattern together with the text it was compiled from; only
/// `compile_pattern` makes one.
pub struct Pattern {
    source: String,
    re: Regex,
}

impl View for Pattern {
    type V = Seq<char>;

    /// The pattern's text.
    closed spec fn view(&self) -> Seq<char> {
        self.source@
    }
}

/// Compiles `pattern`, keeping its text with it.
fn compile_pattern(pattern: &str) -> (r: Result<Pattern, String>)
    ensures
        r is Ok <==> regex_new_error(pattern@) is None,
        r matches Err(e) ==> regex_new_error(pattern@) == Some(e@),
        r matches Ok(p) ==> p@ == pattern@,
{
    match compile_regex(pattern) {
        Ok(re) => Ok(Pattern { source: String::from_str(pattern), re }),
        Err(e) => Err(e),
    }
}

/// `Regex::is_match` on the compiled pattern: whether it matches anywhere
/// in `text`.  Every `Pattern` holds the expression compiled from its own
/// text, so the answer is the one `regex_matches` names for that text.
#[verifier::external_body]
fn regex_is_match(p: &Pattern, text: &str) -> (r: bool)
    ensures
        r == regex_matches(p@, text@),
{
    p.re.is_match(text)
}

/// The metrics whose flag is set, in order.
pub open spec fn kept_metrics(ms: Seq<Metric>, hits: Seq<bool>) -> Seq<Metric>
    decreases ms.len(),
{
    if ms.len() == 0 {
        Seq::empty()
    } else {
        kept_metrics(ms.drop_last(), hits) + (if hits[ms.len() - 1] {
            seq![ms.last()]
        } else {
            Seq::empty()
        })
    }
}

/// The collectors kept: each selected one with its selected metrics, when
/// any remain — as (position in the input, metrics kept).
pub open spec fn selection(cs: Seq<Collector>, ch: Seq<bool>, mh: Seq<Seq<bool>>) -> Seq<(int, Seq<Metric>)>
    decreases cs.len(),
{
    if cs.len() == 0 {
        Seq::empty()
    } else {
        let i = cs.len() - 1;
        let ms = kept_metrics(cs[i].metrics@, mh[i]);
        selection(cs.drop_last(), ch, mh) + (if ch[i] && ms.len() > 0 {
            seq![(i, ms)]
        } else {
            Seq::empty()
        })
    }
}

/// `r` is `c` with its metrics replaced by `ms`.
pub open spec fn with_metrics(r: Collector, c: Collector, ms: Seq<Metric>) -> bool {
    &&& r.name == c.name
    &&& r.protocol == c.protocol
    &&& r.slave_id == c.slave_id
    &&& r.polling_interval_ms == c.polling_interval_ms
    &&& r.labels == c.labels
    &&& r.metrics_files == c.metrics_files
    &&& r.metrics@ == ms
}

fn keep_flagged(ms: Vec<Metric>, hits: &Vec<bool>) -> (out: Vec<Metric>)
    requires
        hits@.len() == ms@.len(),
    ensures
        out@ == kept_metrics(ms@, hits@),
{
    let ghost all = ms@;
    let mut rest = ms;
    let mut out: Vec<Metric> = Vec::new();
    let mut i: usize = 0;
    while i < hits.len()
        invariant
            i <= hits@.len() == all.len(),
            rest@ == all.skip(i as int),
            out@ == kept_metrics(all.take(i as int), hits@),
        decreases hits@.len() - i,
    {
        let m = rest.remove(0);
        assert(all.take(i + 1).drop_last() =~= all.take(i as int));
        assert(m == all[i as int]);
        if hits[i] {
            out.push(m);
        }
        assert(rest@ =~= all.skip(i + 1));
        i = i + 1;
        assert(out@ =~= kept_metrics(all.take(i as int), hits@));
    }
    assert(all.take(all.len() as int) =~= all);
    out
}

/// Keeps the collectors whose flag is set, each with the metrics whose flag
/// is set; a collector left without metrics is dropped.
pub fn select_collectors(
    collectors: Vec<Collector>,
    collector_hits: &Vec<bool>,
    metric_hits: &Vec<Vec<bool>>,
) -> (out: Vec<Collector>)
    requires
        collector_hits@.len() == collectors@.len(),
        metric_hits@.len() == collectors@.len(),
        forall|i: int|
            0 <= i < collectors@.len() ==> #[trigger] metric_hits@[i]@.len()
                == collectors@[i].metrics@.len(),
    ensures
        ({
            let sel = selection(
                collectors@,
                collector_hits@,
                metric_hits@.map_values(|v: Vec<bool>| v@),
            );
            &&& out@.len() == sel.len()
            &&& forall|j: int|
                0 <= j < out@.len() ==> with_metrics(
                    #[trigger] out@[j],
                    collectors@[sel[j].0],
                    sel[j].1,
                )
        }),
{
    let ghost all = collectors@;
    let ghost mh = metric_hits@.map_values(|v: Vec<bool>| v@);
    let mut rest = collectors;
    let mut out: Vec<Collector> = Vec::new();
    let mut i: usize = 0;
    while i < collector_hits.len()
        invariant
            i <= collector_hits@.len() == all.len() == metric_hits@.len(),
            mh == metric_hits@.map_values(|v: Vec<bool>| v@),
            forall|q: int|
                0 <= q < all.len() ==> #[trigger] metric_hits@[q]@.len() == all[q].metrics@.len(),
            rest@ == all.skip(i as int),
            out@.len() == selection(all.take(i as int), collector_hits@, mh).len(),
            forall|j: int|
                0 <= j < out@.len() ==> {
                    let sel = selection(all.take(i as int), collector_hits@, mh);
                    with_metrics(#[trigger] out@[j], all[sel[j].0], sel[j].1)
                },
        decreases collector_hits@.len() - i,
    {
        let c = rest.remove(0);
        assert(c == all[i as int]);
        let ghost prefix = all.take(i as int);
        let ghost next = all.take(i + 1);
        assert(next.drop_last() =~= prefix);
        assert(next[i as int] == all[i as int]);
        let ghost before = out@;
        let Collector { name, protocol, slave_id, polling_interval_ms, labels, metrics_files, metrics } = c;
        assert(mh[i as int] == metric_hits@[i as int]@);
        let kept = keep_flagged(metrics, &metric_hits[i]);
        if collector_hits[i] && kept.len() > 0 {
            out.push(Collector { name, protocol, slave_id, polling_interval_ms, labels, metrics_files, metrics: kept });
        }
        proof {
            let sel0 = selection(prefix, collector_hits@, mh);
            let sel1 = selection(next, collector_hits@, mh);
            assert(sel1 == sel0 + (if collector_hits@[i as int] && kept@.len() > 0 {
                seq![(i as int, kept@)]
            } else {
                Seq::empty()
            }));
            assert forall|j: int| 0 <= j < out@.len() implies with_metrics(
                #[trigger] out@[j],
                all[sel1[j].0],
                sel1[j].1,
            ) by {
                if j < before.len() {
                    assert(out@[j] == before[j]);
                    assert(sel1[j] == sel0[j]);
                }
            }
        }
        assert(rest@ =~= all.skip(i + 1));
        i = i + 1;
    }
    assert(all.take(all.len() as int) =~= all);
    out
}

/// "invalid --{flag} regex: {error}"
pub open spec fn invalid_regex_message(flag: Seq<char>, err: Seq<char>) -> Seq<char> {
    "invalid --"@ + flag + " regex: "@ + err
}

fn compile_filter(pattern: Option<&str>, flag: &str) -> (r: Result<Option<Pattern>, String>)
    ensures
        pattern is None ==> (r matches Ok(x) && x is None),
        pattern matches Some(p) ==> (r is Ok <==> regex_new_error(p@) is None),
        pattern matches Some(p) ==> (r matches Ok(x) ==> (x matches Some(q) && q@ == p@)),
        pattern matches Some(p) ==> (r matches Err(m) ==> (regex_new_error(p@) matches Some(e)
            && m@ == invalid_regex_message(flag@, e))),
{
    match pattern {
        None => Ok(None),
        Some(p) => match compile_pattern(p) {
            Ok(re) => Ok(Some(re)),
            Err(e) => {
                let mut m = String::new();
                m.append("invalid --");
                m.append(flag);
                m.append(" regex: ");
                m.append(e.as_str());
                Err(m)
            },
        },
    }
}

/// Whether a name passes a filter: any name when there is none.
pub open spec fn passes(filter: Option<Seq<char>>, name: Seq<char>) -> bool {
    match filter {
        Some(p) => regex_matches(p, name),
        None => true,
    }
}

/// A filter argument as plain text.
pub open spec fn filter_text(f: Option<&str>) -> Option<Seq<char>> {
    match f {
        Some(p) => Some(p@),
        None => None,
    }
}

/// Which collectors pass the collector filter.
pub open spec fn collector_flags(cs: Seq<Collector>, f: Option<Seq<char>>) -> Seq<bool> {
    Seq::new(cs.len(), |i: int| passes(f, cs[i].name@))
}

/// Which metrics of each collector pass the metric filter.
pub open spec fn metric_flags(cs: Seq<Collector>, f: Option<Seq<char>>) -> Seq<Seq<bool>> {
    cs.map_values(|c: Collector| Seq::new(c.metrics@.len(), |k: int| passes(f, c.metrics@[k].name@)))
}

/// Keeps the collectors whose name matches `collector_filter` (all when
/// `None`), each with its metrics whose name matches `metric_filter` (all
/// when `None`); collectors left without metrics are dropped.  An invalid
/// pattern is an error, the collector pattern's first.
pub fn filter_collectors(
    collectors: Vec<Collector>,
    collector_filter: Option<&str>,
    metric_filter: Option<&str>,
) -> (r: Result<Vec<Collector>, String>)
    ensures
        r is Err <==> ((collector_filter matches Some(p) && regex_new_error(p@) is Some) || (
        metric_filter matches Some(p) && regex_new_error(p@) is Some)),
        collector_filter matches Some(p) ==> (regex_new_error(p@) matches Some(e) ==> (r matches Err(m)
            && m@ == invalid_regex_message("collector"@, e))),
        metric_filter matches Some(p) ==> (regex_new_error(p@) matches Some(e) ==> ((
        collector_filter matches Some(q) ==> regex_new_error(q@) is None) ==> (r matches Err(m)
            && m@ == invalid_regex_message("metric"@, e)))),
        r matches Ok(out) ==> ({
            let sel = selection(
                collectors@,
                collector_flags(collectors@, filter_text(collector_filter)),
                metric_flags(collectors@, filter_text(metric_filter)),
            );
            &&& out@.len() == sel.len()
            &&& forall|j: int|
                0 <= j < out@.len() ==> with_metrics(
                    #[trigger] out@[j],
                    collectors@[sel[j].0],
                    sel[j].1,
                )
        }),
{
    let collector_re = match compile_filter(collector_filter, "collector") {
        Ok(x) => x,
        Err(e) => return Err(e),
    };
    let metric_re = match compile_filter(metric_filter, "metric") {
        Ok(x) => x,
        Err(e) => return Err(e),
    };
    let mut collector_hits: Vec<bool> = Vec::new();
    let mut metric_hits: Vec<Vec<bool>> = Vec::new();
    let mut i: usize = 0;
    while i < collectors.len()
        invariant
            i <= collectors@.len(),
            collector_hits@.len() == i,
            metric_hits@.len() == i,
            forall|q: int| 0 <= q < i ==> #[trigger] metric_hits@[q]@.len() == collectors@[q].metrics@.len(),
            collector_re matches Some(x) ==> filter_text(collector_filter) == Some(x@),
            collector_re is None ==> filter_text(collector_filter) is None,
            metric_re matches Some(x) ==> filter_text(metric_filter) == Some(x@),
            metric_re is None ==> filter_text(metric_filter) is None,
            forall|q: int|
                0 <= q < i ==> #[trigger] collector_hits@[q] == passes(
                    filter_text(collector_filter),
                    collectors@[q].name@,
                ),
            forall|q: int, k: int|
                0 <= q < i && 0 <= k < metric_hits@[q]@.len() ==> #[trigger] metric_hits@[q]@[k]
                    == passes(filter_text(metric_filter), collectors@[q].metrics@[k].name@),
        decreases collectors@.len() - i,
    {
        let c = &collectors[i];
        let hit = match &collector_re {
            Some(re) => regex_is_match(re, c.name.as_str()),
            None => true,
        };
        collector_hits.push(hit);
        let mut hits: Vec<bool> = Vec::new();
        let mut k: usize = 0;
        while k < c.metrics.len()
            invariant
                k <= c.metrics@.len(),
                hits@.len() == k,
                metric_re matches Some(x) ==> filter_text(metric_filter) == Some(x@),
                metric_re is None ==> filter_text(metric_filter) is None,
                forall|q: int|
                    0 <= q < k ==> #[trigger] hits@[q] == passes(
                        filter_text(metric_filter),
                        c.metrics@[q].name@,
                    ),
            decreases c.metrics@.len() - k,
        {
            let h = match &metric_re {
                Some(re) => regex_is_match(re, c.metrics[k].name.as_str()),
                None => true,
            };
            hits.push(h);
            k = k + 1;
        }
        metric_hits.push(hits);
        i = i + 1;
    }
    proof {
        let cf = collector_flags(collectors@, filter_text(collector_filter));
        let mf = metric_flags(collectors@, filter_text(metric_filter));
        assert(collector_hits@ =~= cf);
        assert(metric_hits@.map_values(|v: Vec<bool>| v@) =~= mf) by {
            assert forall|q: int| 0 <= q < collectors@.len() implies metric_hits@.map_values(
                |v: Vec<bool>| v@,
            )[q] =~= mf[q] by {
                assert(metric_hits@[q]@.len() == collectors@[q].metrics@.len());
            }
        }
    }
    Ok(select_collectors(collectors, &collector_hits, &metric_hits))
}

} // verus!
