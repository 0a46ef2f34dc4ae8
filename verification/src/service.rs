//! The systemd unit installed by the `install` command, and the summary of
//! the `pull` command.

use vstd::prelude::*;

use crate::config::Protocol;
use crate::text::{chars_of, has_prefix, push_char, push_chars};

verus! {

/// `s` with every occurrence of `pat` replaced by `rep`, scanning left to
/// right without overlaps (`str::replace`); an empty pattern occurs before
/// every character and at the end.
pub open spec fn replace_all(s: Seq<char>, pat: Seq<char>, rep: Seq<char>) -> Seq<char>
    decreases s.len(),
{
    if pat.len() == 0 {
        if s.len() == 0 {
            rep
        } else {
            rep + seq![s[0]] + replace_all(s.skip(1), pat, rep)
        }
    } else if s.len() == 0 {
        s
    } else if has_prefix(s, pat) {
        rep + replace_all(s.skip(pat.len() as int), pat, rep)
    } else {
        seq![s[0]] + replace_all(s.skip(1), pat, rep)
    }
}

fn prefix_at(s: &Vec<char>, i: usize, p: &Vec<char>) -> (b: bool)
    requires
        i <= s@.len(),
    ensures
        b == has_prefix(s@.skip(i as int), p@),
{
    if p.len() > s.len() - i {
        return false;
    }
    let sl = s.len();
    let mut k: usize = 0;
    while k < p.len()
        invariant
            sl == s@.len(),
            k <= p@.len(),
            i + p@.len() <= s@.len(),
            forall|q: int| 0 <= q < k ==> s@[i + q] == p@[q],
        decreases p@.len() - k,
    {
        if s[i + k] != p[k] {
            assert(s@.skip(i as int).take(p@.len() as int)[k as int] != p@[k as int]);
            return false;
        }
        k = k + 1;
    }
    assert(s@.skip(i as int).take(p@.len() as int) =~= p@);
    true
}

/// Replaces every occurrence of `pat` in `s` by `rep` (`str::replace`).
pub fn replace_all_str(s: &str, pat: &str, rep: &str) -> (out: String)
    ensures
        out@ == replace_all(s@, pat@, rep@),
{
    let cs = chars_of(s);
    let ps = chars_of(pat);
    let rs = chars_of(rep);
    let mut out = String::new();
    if ps.len() == 0 {
        let mut i: usize = 0;
        assert(cs@.skip(0) =~= cs@);
        while i < cs.len()
            invariant
                i <= cs@.len(),
                ps@.len() == 0,
                cs@ == s@,
                rs@ == rep@,
                out@ + replace_all(cs@.skip(i as int), ps@, rs@) == replace_all(s@, pat@, rep@),
            decreases cs@.len() - i,
        {
            let ghost before = out@;
            let ghost rest = cs@.skip(i as int);
            push_chars(&mut out, rs.as_slice());
            push_char(&mut out, cs[i]);
            assert(rest.skip(1) =~= cs@.skip(i + 1));
            assert(rest[0] == cs@[i as int]);
            i = i + 1;
            assert(out@ + replace_all(cs@.skip(i as int), ps@, rs@) =~= before + replace_all(rest, ps@, rs@));
        }
        assert(cs@.skip(i as int).len() == 0);
        push_chars(&mut out, rs.as_slice());
        return out;
    }
    let mut i: usize = 0;
    assert(cs@.skip(0) =~= cs@);
    while i < cs.len()
        invariant
            i <= cs@.len(),
            ps@.len() > 0,
            cs@ == s@,
            ps@ == pat@,
            rs@ == rep@,
            out@ + replace_all(cs@.skip(i as int), ps@, rs@) == replace_all(s@, pat@, rep@),
        decreases cs@.len() - i,
    {
        let ghost before = out@;
        let ghost rest = cs@.skip(i as int);
        if prefix_at(&cs, i, &ps) {
            push_chars(&mut out, rs.as_slice());
            assert(rest.skip(ps@.len() as int) =~= cs@.skip(i + ps@.len()));
            i = i + ps.len();
        } else {
            push_char(&mut out, cs[i]);
            assert(rest.skip(1) =~= cs@.skip(i + 1));
            assert(rest[0] == cs@[i as int]);
            i = i + 1;
        }
        assert(out@ + replace_all(cs@.skip(i as int), ps@, rs@) =~= before + replace_all(rest, ps@, rs@));
    }
    assert(cs@.skip(i as int).len() == 0);
    assert(out@ + replace_all(cs@.skip(i as int), ps@, rs@) =~= out@);
    out
}

/// The unit file template; `{bin_path}`, `{config_path}` and `{wanted_by}`
/// are filled in.
pub const UNIT_TEMPLATE: &'static str = "[Unit]\nDescription=Bus Exporter - Industrial bus metrics exporter\nAfter=network-online.target\nWants=network-online.target\n\n[Service]\nType=simple\nExecStart={bin_path} run -c {config_path}\nRestart=on-failure\nRestartSec=5\nStandardOutput=journal\nStandardError=journal\nSyslogIdentifier=bus-exporter\n\n[Install]\nWantedBy={wanted_by}\n";

/// The unit's file name.
pub const SERVICE_NAME: &'static str = "bus-exporter.service";

/// The configuration used when none is given.
pub const DEFAULT_CONFIG_PATH: &'static str = "/etc/bus-exporter/config.yaml";

/// The target the unit is wanted by: the user session's or the system's.
pub open spec fn wanted_by(user: bool) -> Seq<char> {
    if user {
        "default.target"@
    } else {
        "multi-user.target"@
    }
}

/// The unit file: the template with the binary, the configuration and the
/// target filled in, in that order.
pub open spec fn unit_text(bin: Seq<char>, config: Seq<char>, user: bool) -> Seq<char> {
    replace_all(
        replace_all(replace_all(UNIT_TEMPLATE@, "{bin_path}"@, bin), "{config_path}"@, config),
        "{wanted_by}"@,
        wanted_by(user),
    )
}

/// Renders the unit file.
pub fn render_unit(bin_path: &str, config_path: &str, user: bool) -> (out: String)
    ensures
        out@ == unit_text(bin_path@, config_path@, user),
{
    let a = replace_all_str(UNIT_TEMPLATE, "{bin_path}", bin_path);
    let b = replace_all_str(a.as_str(), "{config_path}", config_path);
    let target = if user {
        "default.target"
    } else {
        "multi-user.target"
    };
    replace_all_str(b.as_str(), "{wanted_by}", target)
}

/// The hint printed after installing: how to start the service.
pub fn start_hint(user: bool) -> (out: String)
    ensures
        out@ == "Start with: systemctl "@ + (if user {
            "--user "@
        } else {
            Seq::empty()
        }) + "start bus-exporter"@,
{
    let mut s = String::new();
    s.append("Start with: systemctl ");
    if user {
        s.append("--user ");
    }
    s.append("start bus-exporter");
    s
}

// ── pull ────────────────────────────────────────────────────────────

/// The protocol's name in the `pull` report.
pub open spec fn protocol_name(p: Protocol) -> Seq<char> {
    match p {
        Protocol::ModbusTcp { .. } => "modbus-tcp"@,
        Protocol::ModbusRtu { .. } => "modbus-rtu"@,
        Protocol::I2c { .. } => "i2c"@,
        Protocol::Spi { .. } => "spi"@,
        Protocol::I3c { .. } => "i3c"@,
    }
}

/// The protocol's name in the `pull` report.
pub fn protocol_str(p: &Protocol) -> (s: &'static str)
    ensures
        s@ == protocol_name(*p),
{
    match p {
        Protocol::ModbusTcp { .. } => "modbus-tcp",
        Protocol::ModbusRtu { .. } => "modbus-rtu",
        Protocol::I2c { .. } => "i2c",
        Protocol::Spi { .. } => "spi",
        Protocol::I3c { .. } => "i3c",
    }
}

/// The totals of a `pull` run.
#[derive(Debug, Clone, Copy, PartialEq, Eq, Structural)]
pub struct PullSummary {
    pub total_collectors: usize,
    pub total_metrics: usize,
    pub successful: usize,
    pub failed: usize,
}

/// Number of `true` among the first `n` flags.
pub open spec fn count_true(s: Seq<bool>, n: int) -> nat
    decreases n,
{
    if n <= 0 {
        0
    } else {
        count_true(s, n - 1) + if s[n - 1] { 1nat } else { 0nat }
    }
}

/// Number of flags over all collectors.
pub open spec fn count_all(s: Seq<Seq<bool>>, n: int) -> nat
    decreases n,
{
    if n <= 0 {
        0
    } else {
        count_all(s, n - 1) + s[n - 1].len()
    }
}

/// Number of `true` flags over all collectors.
pub open spec fn count_ok(s: Seq<Seq<bool>>, n: int) -> nat
    decreases n,
{
    if n <= 0 {
        0
    } else {
        count_ok(s, n - 1) + count_true(s[n - 1], s[n - 1].len() as int)
    }
}

proof fn lemma_count_true_le(s: Seq<bool>, n: int)
    requires
        0 <= n <= s.len(),
    ensures
        count_true(s, n) <= n,
    decreases n,
{
    if n > 0 {
        lemma_count_true_le(s, n - 1);
    }
}

proof fn lemma_count_ok_le(s: Seq<Seq<bool>>, n: int)
    requires
        0 <= n <= s.len(),
    ensures
        count_ok(s, n) <= count_all(s, n),
    decreases n,
{
    if n > 0 {
        lemma_count_ok_le(s, n - 1);
        lemma_count_true_le(s[n - 1], s[n - 1].len() as int);
    }
}

/// Tallies the outcome flags (`true` = the metric was read) of each
/// collector's metrics.
pub fn tally(outcomes: &Vec<Vec<bool>>) -> (r: PullSummary)
    requires
        count_all(outcomes@.map_values(|v: Vec<bool>| v@), outcomes@.len() as int) <= usize::MAX,
    ensures
        r.total_collectors == outcomes@.len(),
        r.total_metrics == count_all(outcomes@.map_values(|v: Vec<bool>| v@), outcomes@.len() as int),
        r.successful == count_ok(outcomes@.map_values(|v: Vec<bool>| v@), outcomes@.len() as int),
        r.failed == r.total_metrics - r.successful,
{
    let ghost fs = outcomes@.map_values(|v: Vec<bool>| v@);
    let mut total: usize = 0;
    let mut ok: usize = 0;
    let mut i: usize = 0;
    while i < outcomes.len()
        invariant
            i <= outcomes@.len(),
            fs == outcomes@.map_values(|v: Vec<bool>| v@),
            count_all(fs, outcomes@.len() as int) <= usize::MAX,
            total == count_all(fs, i as int),
            ok == count_ok(fs, i as int),
            ok <= total,
        decreases outcomes@.len() - i,
    {
        let v = &outcomes[i];
        assert(fs[i as int] == v@);
        proof {
            lemma_count_all_mono(fs, i as int + 1, outcomes@.len() as int);
        }
        let mut k: usize = 0;
        let mut here: usize = 0;
        while k < v.len()
            invariant
                k <= v@.len(),
                here == count_true(v@, k as int),
                here <= k,
            decreases v@.len() - k,
        {
            if v[k] {
                here = here + 1;
            }
            k = k + 1;
        }
        total = total + v.len();
        ok = ok + here;
        i = i + 1;
    }
    PullSummary { total_collectors: outcomes.len(), total_metrics: total, successful: ok, failed: total - ok }
}

proof fn lemma_count_all_mono(s: Seq<Seq<bool>>, a: int, b: int)
    requires
        0 <= a <= b <= s.len(),
    ensures
        count_all(s, a) <= count_all(s, b),
    decreases b - a,
{
    if a < b {
        lemma_count_all_mono(s, a, b - 1);
    }
}

/// The exit status of `pull`: 2 when a metric failed, else 0.
pub fn pull_exit_code(summary: &PullSummary) -> (code: i32)
    ensures
        code == (if summary.failed > 0 {
            2i32
        } else {
            0i32
        }),
{
    if summary.failed > 0 {
        2
    } else {
        0
    }
}


proof fn lemma_count_true_filter(s: Seq<bool>, n: int)
    requires
        0 <= n <= s.len(),
    ensures
        count_true(s, n) == s.take(n).filter(|b: bool| b).len(),
    decreases n,
{
    if n == 0 {
        assert(s.take(0) =~= Seq::<bool>::empty());
        reveal_with_fuel(Seq::filter, 1);
    } else {
        lemma_count_true_filter(s, n - 1);
        assert(s.take(n) =~= s.take(n - 1) + seq![s[n - 1]]);
        Seq::filter_distributes_over_add(s.take(n - 1), seq![s[n - 1]], |b: bool| b);
        reveal_with_fuel(Seq::filter, 2);
    }
}

/// A pull's tally counts every metric of every collector once, its
/// successes are the metrics whose flag is `true`, and its failures the
/// rest: for one more collector the totals grow by its metric count and its
/// number of `true` flags.
pub proof fn law_tally_counts(s: Seq<Seq<bool>>, v: Seq<bool>)
    ensures
        count_all(s.push(v), s.len() as int + 1) == count_all(s, s.len() as int) + v.len(),
        count_ok(s.push(v), s.len() as int + 1) == count_ok(s, s.len() as int) + v.filter(|b: bool| b).len(),
        count_all(Seq::<Seq<bool>>::empty(), 0) == 0 && count_ok(Seq::<Seq<bool>>::empty(), 0) == 0,
{
    lemma_count_true_filter(v, v.len() as int);
    assert(v.take(v.len() as int) =~= v);
    lemma_prefix_counts(s, v, s.len() as int);
}

proof fn lemma_prefix_counts(s: Seq<Seq<bool>>, v: Seq<bool>, n: int)
    requires
        0 <= n <= s.len(),
    ensures
        count_all(s.push(v), n) == count_all(s, n),
        count_ok(s.push(v), n) == count_ok(s, n),
    decreases n,
{
    if n > 0 {
        lemma_prefix_counts(s, v, n - 1);
        assert(s.push(v)[n - 1] == s[n - 1]);
    }
}

} // verus!
