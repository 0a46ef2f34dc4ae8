//! Finding an I3C device's dynamic address in the bus enumeration that the
//! kernel publishes (one directory per device, with `pid`, `dcr` and
//! `dynamic_address` files).  The files are read by the program; this module
//! decides which device a PID or a device class designates and parses its
//! address.

use vstd::prelude::*;

use crate::devices::AddressMode;
use crate::labels::{chars_le, lemma_chars_le_antisym, lemma_chars_le_total, lemma_chars_le_trans, str_le};
use crate::service::{replace_all, replace_all_str};
use crate::text::{chars_of, decimal, push_decimal, string_of, to_lowercase, unicode_lowercase};

verus! {

/// One enumerated device: its directory, and the contents of its `pid`,
/// `dcr` and `dynamic_address` files (`None` where a file could not be read).
#[derive(Debug, Clone)]
pub struct SysfsDevice {
    pub path: String,
    pub pid: Option<String>,
    pub dcr: Option<String>,
    pub dynamic_address: Option<String>,
}

// ── Text ────────────────────────────────────────────────────────────

/// Unicode `White_Space`, the characters `str::trim` removes.
pub open spec fn is_space(c: char) -> bool {
    ||| ('\u{9}' <= c && c <= '\u{d}')
    ||| c == ' '
    ||| c == '\u{85}'
    ||| c == '\u{a0}'
    ||| c == '\u{1680}'
    ||| ('\u{2000}' <= c && c <= '\u{200a}')
    ||| c == '\u{2028}'
    ||| c == '\u{2029}'
    ||| c == '\u{202f}'
    ||| c == '\u{205f}'
    ||| c == '\u{3000}'
}

fn space(c: char) -> (b: bool)
    ensures
        b == is_space(c),
{
    ('\u{9}' <= c && c <= '\u{d}') || c == ' ' || c == '\u{85}' || c == '\u{a0}' || c == '\u{1680}'
        || ('\u{2000}' <= c && c <= '\u{200a}') || c == '\u{2028}' || c == '\u{2029}' || c
        == '\u{202f}' || c == '\u{205f}' || c == '\u{3000}'
}

/// `s` without leading white space.
pub open spec fn trim_start(s: Seq<char>) -> Seq<char>
    decreases s.len(),
{
    if s.len() > 0 && is_space(s[0]) {
        trim_start(s.drop_first())
    } else {
        s
    }
}

/// `s` without trailing white space.
pub open spec fn trim_end(s: Seq<char>) -> Seq<char>
    decreases s.len(),
{
    if s.len() > 0 && is_space(s.last()) {
        trim_end(s.drop_last())
    } else {
        s
    }
}

/// `s` without leading and trailing white space (`str::trim`).
pub open spec fn trim(s: Seq<char>) -> Seq<char> {
    trim_end(trim_start(s))
}

/// The characters of `s` without leading and trailing white space.
fn trimmed(s: &str) -> (r: Vec<char>)
    ensures
        r@ == trim(s@),
{
    let cs = chars_of(s);
    let n = cs.len();
    let mut i: usize = 0;
    assert(cs@.skip(0) =~= cs@);
    while i < n && space(cs[i])
        invariant
            n == cs@.len(),
            i <= n,
            trim_start(cs@) == trim_start(cs@.skip(i as int)),
        decreases n - i,
    {
        assert(cs@.skip(i as int).drop_first() =~= cs@.skip(i + 1));
        i = i + 1;
    }
    assert(trim_start(cs@.skip(i as int)) == cs@.skip(i as int));
    let mut j: usize = n;
    assert(cs@.skip(i as int) =~= cs@.subrange(i as int, j as int));
    while j > i && space(cs[j - 1])
        invariant
            n == cs@.len(),
            i <= j <= n,
            trim_end(cs@.skip(i as int)) == trim_end(cs@.subrange(i as int, j as int)),
        decreases j - i,
    {
        assert(cs@.subrange(i as int, j as int).drop_last() =~= cs@.subrange(i as int, j - 1));
        j = j - 1;
    }
    assert(trim_end(cs@.subrange(i as int, j as int)) == cs@.subrange(i as int, j as int));
    let mut r: Vec<char> = Vec::new();
    let mut k: usize = i;
    while k < j
        invariant
            n == cs@.len(),
            i <= k <= j <= n,
            r@ =~= cs@.subrange(i as int, k as int),
        decreases j - k,
    {
        r.push(cs[k]);
        k = k + 1;
    }
    r
}

/// `s` with every leading `0x` removed (`trim_start_matches("0x")`).
pub open spec fn strip_hex_prefix(s: Seq<char>) -> Seq<char>
    decreases s.len(),
{
    if s.len() >= 2 && s[0] == '0' && s[1] == 'x' {
        strip_hex_prefix(s.subrange(2, s.len() as int))
    } else {
        s
    }
}

/// The value of a hexadecimal digit.
pub open spec fn hex_value(c: char) -> Option<int> {
    if '0' <= c && c <= '9' {
        Some(c as int - '0' as int)
    } else if 'a' <= c && c <= 'f' {
        Some(c as int - 'a' as int + 10)
    } else if 'A' <= c && c <= 'F' {
        Some(c as int - 'A' as int + 10)
    } else {
        None
    }
}

fn hex_digit(c: char) -> (r: Option<u32>)
    ensures
        match hex_value(c) {
            Some(v) => r == Some(v as u32),
            None => r is None,
        },
{
    if '0' <= c && c <= '9' {
        Some((c as u32) - ('0' as u32))
    } else if 'a' <= c && c <= 'f' {
        Some((c as u32) - ('a' as u32) + 10)
    } else if 'A' <= c && c <= 'F' {
        Some((c as u32) - ('A' as u32) + 10)
    } else {
        None
    }
}

/// "cannot parse integer from empty string"
pub open spec fn empty_number_message() -> Seq<char> {
    "cannot parse integer from empty string"@
}

/// "invalid digit found in string"
pub open spec fn invalid_digit_message() -> Seq<char> {
    "invalid digit found in string"@
}

/// "number too large to fit in target type"
pub open spec fn too_large_message() -> Seq<char> {
    "number too large to fit in target type"@
}

/// Reading the first `n` digits from left to right: the first character
/// that is no hexadecimal digit, or the first digit that takes the value
/// past 255, stops the reading with its error.
pub open spec fn hex_scan(ds: Seq<char>, n: int) -> Result<int, Seq<char>>
    decreases n,
{
    if n <= 0 {
        Ok(0)
    } else {
        match hex_scan(ds, n - 1) {
            Err(e) => Err(e),
            Ok(v) => match hex_value(ds[n - 1]) {
                None => Err(invalid_digit_message()),
                Some(d) => if v * 16 + d > 255 {
                    Err(too_large_message())
                } else {
                    Ok(v * 16 + d)
                },
            },
        }
    }
}

/// A byte written in hexadecimal, optionally after a `+`, as
/// `u8::from_str_radix(s, 16)` reads it.
pub open spec fn parse_hex_u8(s: Seq<char>) -> Result<u8, Seq<char>> {
    if s.len() == 0 {
        Err(empty_number_message())
    } else if s[0] == '+' && s.len() == 1 {
        Err(invalid_digit_message())
    } else {
        let ds = if s[0] == '+' {
            s.drop_first()
        } else {
            s
        };
        match hex_scan(ds, ds.len() as int) {
            Ok(v) => Ok(v as u8),
            Err(e) => Err(e),
        }
    }
}

proof fn lemma_hex_scan_bound(ds: Seq<char>, n: int)
    ensures
        hex_scan(ds, n) matches Ok(v) ==> 0 <= v <= 255,
    decreases n,
{
    if n > 0 {
        lemma_hex_scan_bound(ds, n - 1);
    }
}

fn parse_hex_byte(s: &Vec<char>) -> (r: Result<u8, String>)
    ensures
        match parse_hex_u8(s@) {
            Ok(v) => r == Ok::<u8, String>(v),
            Err(e) => r matches Err(m) && m@ == e,
        },
{
    let n = s.len();
    if n == 0 {
        return Err(String::from_str("cannot parse integer from empty string"));
    }
    if s[0] == '+' && n == 1 {
        return Err(String::from_str("invalid digit found in string"));
    }
    let start: usize = if s[0] == '+' {
        1
    } else {
        0
    };
    let ghost ds = if s@[0] == '+' {
        s@.drop_first()
    } else {
        s@
    };
    assert(ds =~= s@.subrange(start as int, n as int));
    let mut v: u32 = 0;
    let mut i: usize = start;
    while i < n
        invariant
            n == s@.len(),
            n > 0,
            !(s@[0] == '+' && n == 1),
            start == (if s@[0] == '+' { 1usize } else { 0usize }),
            ds == (if s@[0] == '+' { s@.drop_first() } else { s@ }),
            start <= i <= n,
            ds == s@.subrange(start as int, n as int),
            hex_scan(ds, i - start) == Ok::<int, Seq<char>>(v as int),
            v <= 255,
        decreases n - i,
    {
        proof {
            lemma_hex_scan_bound(ds, i - start);
        }
        assert(ds[i - start] == s@[i as int]);
        match hex_digit(s[i]) {
            None => {
                assert(hex_scan(ds, i - start + 1) == Err::<int, Seq<char>>(invalid_digit_message()));
                proof {
                    lemma_scan_stops(ds, i - start + 1, ds.len() as int);
                }
                assert(ds.len() == n - start);
                assert(parse_hex_u8(s@) == Err::<u8, Seq<char>>(invalid_digit_message()));
                return Err(String::from_str("invalid digit found in string"));
            },
            Some(d) => {
                if v * 16 + d > 255 {
                    assert(hex_scan(ds, i - start + 1) == Err::<int, Seq<char>>(too_large_message()));
                    proof {
                        lemma_scan_stops(ds, i - start + 1, ds.len() as int);
                    }
                    assert(ds.len() == n - start);
                    assert(parse_hex_u8(s@) == Err::<u8, Seq<char>>(too_large_message()));
                    return Err(String::from_str("number too large to fit in target type"));
                }
                v = v * 16 + d;
            },
        }
        i = i + 1;
    }
    Ok(v as u8)
}

/// Once the reading has stopped with an error, reading further digits keeps
/// that error.
proof fn lemma_scan_stops(ds: Seq<char>, k: int, n: int)
    requires
        0 <= k <= n,
        hex_scan(ds, k) is Err,
    ensures
        hex_scan(ds, n) == hex_scan(ds, k),
    decreases n - k,
{
    if n > k {
        lemma_scan_stops(ds, k, n - 1);
    }
}

/// The dynamic address written in an enumeration file: white space trimmed,
/// leading `0x` removed, then read as a hexadecimal byte.
pub open spec fn address_in(text: Seq<char>) -> Result<u8, Seq<char>> {
    parse_hex_u8(strip_hex_prefix(trim(text)))
}

fn parse_address(text: &str) -> (r: Result<u8, String>)
    ensures
        match address_in(text@) {
            Ok(v) => r == Ok::<u8, String>(v),
            Err(e) => r matches Err(m) && m@ == e,
        },
{
    let t = trimmed(text);
    let n = t.len();
    let mut i: usize = 0;
    assert(t@.subrange(0, n as int) =~= t@);
    while n - i >= 2 && t[i] == '0' && t[i + 1] == 'x'
        invariant
            n == t@.len(),
            i <= n,
            strip_hex_prefix(t@) == strip_hex_prefix(t@.subrange(i as int, n as int)),
        decreases n - i,
    {
        assert(t@.subrange(i as int, n as int).subrange(2, n - i) =~= t@.subrange(i + 2, n as int));
        i = i + 2;
    }
    let mut rest: Vec<char> = Vec::new();
    let mut k: usize = i;
    while k < n
        invariant
            n == t@.len(),
            i <= k <= n,
            rest@ =~= t@.subrange(i as int, k as int),
        decreases n - k,
    {
        rest.push(t[k]);
        k = k + 1;
    }
    assert(strip_hex_prefix(rest@) == rest@);
    parse_hex_byte(&rest)
}

// ── Matching a PID ──────────────────────────────────────────────────

/// A PID as it is compared: lower-cased, every `0x` removed.
pub open spec fn pid_key(pid: Seq<char>) -> Seq<char> {
    replace_all(unicode_lowercase(pid), "0x"@, ""@)
}

fn pid_key_of(pid: &str) -> (r: String)
    ensures
        r@ == pid_key(pid@),
{
    let lower = to_lowercase(pid);
    replace_all_str(lower.as_str(), "0x", "")
}

/// Whether device `d` carries the PID whose key is `want` and has a
/// readable dynamic address.
pub open spec fn pid_hit(d: SysfsDevice, want: Seq<char>) -> bool {
    &&& d.pid matches Some(p) && pid_key(trim(p@)) == want
    &&& d.dynamic_address is Some
}

/// The first device from index `i` on that `pid_hit` selects.
pub open spec fn first_pid_hit(devs: Seq<SysfsDevice>, want: Seq<char>, i: int) -> Option<int>
    decreases devs.len() - i,
{
    if i < 0 || i >= devs.len() {
        None
    } else if pid_hit(devs[i], want) {
        Some(i)
    } else {
        first_pid_hit(devs, want, i + 1)
    }
}

// ── Matching a device class ─────────────────────────────────────────

/// The indices, in enumeration order, of the first `n` devices whose `dcr`
/// reads `class` once trimmed.
pub open spec fn class_indices(devs: Seq<SysfsDevice>, class: Seq<char>, n: int) -> Seq<usize>
    decreases n,
{
    if n <= 0 {
        Seq::empty()
    } else if devs[n - 1].dcr matches Some(d) && trim(d@) == class {
        class_indices(devs, class, n - 1).push((n - 1) as usize)
    } else {
        class_indices(devs, class, n - 1)
    }
}

/// Stable insertion of index `x` after every index whose path is not greater.
pub open spec fn insert_by_path(devs: Seq<SysfsDevice>, s: Seq<usize>, x: usize) -> Seq<usize>
    decreases s.len(),
{
    if s.len() == 0 || chars_le(devs[s.last() as int].path@, devs[x as int].path@) {
        s.push(x)
    } else {
        insert_by_path(devs, s.drop_last(), x).push(s.last())
    }
}

/// The indices ordered by the devices' paths (stable).
pub open spec fn sort_by_path(devs: Seq<SysfsDevice>, s: Seq<usize>) -> Seq<usize>
    decreases s.len(),
{
    if s.len() == 0 {
        s
    } else {
        insert_by_path(devs, sort_by_path(devs, s.drop_last()), s.last())
    }
}

proof fn lemma_insert_members(devs: Seq<SysfsDevice>, s: Seq<usize>, x: usize)
    ensures
        insert_by_path(devs, s, x).len() == s.len() + 1,
        forall|k: int|
            0 <= k < s.len() + 1 ==> (#[trigger] insert_by_path(devs, s, x)[k] == x || s.contains(
                insert_by_path(devs, s, x)[k],
            )),
    decreases s.len(),
{
    if s.len() > 0 && !chars_le(devs[s.last() as int].path@, devs[x as int].path@) {
        lemma_insert_members(devs, s.drop_last(), x);
        let r = insert_by_path(devs, s.drop_last(), x);
        assert forall|k: int| 0 <= k < s.len() + 1 implies (#[trigger] insert_by_path(devs, s, x)[k]
            == x || s.contains(insert_by_path(devs, s, x)[k])) by {
            if k < s.len() {
                let y = r[k];
                if y != x {
                    assert(s.drop_last().contains(y));
                    let j = choose|j: int| 0 <= j < s.drop_last().len() && s.drop_last()[j] == y;
                    assert(s[j] == y);
                }
            } else {
                assert(s[s.len() - 1] == s.last());
            }
        }
    } else {
        assert forall|k: int| 0 <= k < s.len() + 1 implies (#[trigger] insert_by_path(devs, s, x)[k]
            == x || s.contains(insert_by_path(devs, s, x)[k])) by {
            if k < s.len() {
                assert(s[k] == insert_by_path(devs, s, x)[k]);
            }
        }
    }
}

proof fn lemma_sort_members(devs: Seq<SysfsDevice>, s: Seq<usize>)
    ensures
        sort_by_path(devs, s).len() == s.len(),
        forall|k: int| 0 <= k < s.len() ==> s.contains(#[trigger] sort_by_path(devs, s)[k]),
    decreases s.len(),
{
    if s.len() > 0 {
        let p = sort_by_path(devs, s.drop_last());
        lemma_sort_members(devs, s.drop_last());
        lemma_insert_members(devs, p, s.last());
        assert forall|k: int| 0 <= k < s.len() implies s.contains(#[trigger] sort_by_path(devs, s)[k]) by {
            let y = sort_by_path(devs, s)[k];
            if y == s.last() {
                assert(s[s.len() - 1] == y);
            } else {
                assert(p.contains(y));
                let j = choose|j: int| 0 <= j < p.len() && p[j] == y;
                assert(s.drop_last().contains(y));
                let i = choose|i: int| 0 <= i < s.drop_last().len() && s.drop_last()[i] == y;
                assert(s[i] == y);
            }
        }
    }
}

/// The indices list devices in ascending path order.
pub open spec fn paths_ascending(devs: Seq<SysfsDevice>, s: Seq<usize>) -> bool {
    forall|a: int, b: int|
        0 <= a < b < s.len() ==> chars_le(
            #[trigger] devs[s[a] as int].path@,
            #[trigger] devs[s[b] as int].path@,
        )
}

proof fn lemma_insert_keeps(devs: Seq<SysfsDevice>, s: Seq<usize>, x: usize)
    ensures
        insert_by_path(devs, s, x).contains(x),
        forall|k: int| 0 <= k < s.len() ==> insert_by_path(devs, s, x).contains(#[trigger] s[k]),
    decreases s.len(),
{
    let r = insert_by_path(devs, s, x);
    if s.len() == 0 || chars_le(devs[s.last() as int].path@, devs[x as int].path@) {
        assert(r[s.len() as int] == x);
        assert forall|k: int| 0 <= k < s.len() implies r.contains(#[trigger] s[k]) by {
            assert(r[k] == s[k]);
        }
    } else {
        let t = s.drop_last();
        let q = insert_by_path(devs, t, x);
        lemma_insert_keeps(devs, t, x);
        let j = choose|j: int| 0 <= j < q.len() && q[j] == x;
        assert(r[j] == x);
        assert forall|k: int| 0 <= k < s.len() implies r.contains(#[trigger] s[k]) by {
            if k == s.len() - 1 {
                assert(r[q.len() as int] == s[k]);
            } else {
                assert(t[k] == s[k]);
                let i = choose|i: int| 0 <= i < q.len() && q[i] == t[k];
                assert(r[i] == s[k]);
            }
        }
    }
}

proof fn lemma_insert_ascending(devs: Seq<SysfsDevice>, s: Seq<usize>, x: usize)
    requires
        paths_ascending(devs, s),
    ensures
        paths_ascending(devs, insert_by_path(devs, s, x)),
    decreases s.len(),
{
    let r = insert_by_path(devs, s, x);
    let px = devs[x as int].path@;
    if s.len() == 0 || chars_le(devs[s.last() as int].path@, px) {
        assert forall|a: int, b: int| 0 <= a < b < r.len() implies chars_le(
            #[trigger] devs[r[a] as int].path@,
            #[trigger] devs[r[b] as int].path@,
        ) by {
            if b == s.len() {
                if a < s.len() - 1 {
                    lemma_chars_le_trans(
                        devs[s[a] as int].path@,
                        devs[s.last() as int].path@,
                        px,
                    );
                }
                assert(r[a] == s[a]);
            } else {
                assert(r[a] == s[a] && r[b] == s[b]);
            }
        }
    } else {
        let t = s.drop_last();
        let last = s.last();
        let pl = devs[last as int].path@;
        assert(paths_ascending(devs, t)) by {
            assert forall|a: int, b: int| 0 <= a < b < t.len() implies chars_le(
                #[trigger] devs[t[a] as int].path@,
                #[trigger] devs[t[b] as int].path@,
            ) by {
                assert(t[a] == s[a] && t[b] == s[b]);
            }
        }
        lemma_insert_ascending(devs, t, x);
        lemma_insert_members(devs, t, x);
        lemma_chars_le_total(pl, px);
        let q = insert_by_path(devs, t, x);
        assert forall|a: int, b: int| 0 <= a < b < r.len() implies chars_le(
            #[trigger] devs[r[a] as int].path@,
            #[trigger] devs[r[b] as int].path@,
        ) by {
            if b == q.len() {
                assert(r[b] == last);
                assert(r[a] == q[a]);
                if q[a] != x {
                    assert(t.contains(q[a]));
                    let i = choose|i: int| 0 <= i < t.len() && t[i] == q[a];
                    assert(s[i] == q[a]);
                    assert(chars_le(devs[s[i] as int].path@, devs[s[s.len() - 1] as int].path@));
                }
            } else {
                assert(r[a] == q[a] && r[b] == q[b]);
            }
        }
    }
}

/// How the devices of a class are numbered: every device of the class is
/// listed once found, only such devices are listed, and they come in
/// ascending path order, so the `instance`-th device is the `instance`-th
/// by path whatever order the enumeration lists them in.
pub proof fn law_class_instances_in_path_order(devs: Seq<SysfsDevice>, class: Seq<char>)
    requires
        devs.len() <= usize::MAX,
    ensures
        ({
            let ms = sort_by_path(devs, class_indices(devs, class, devs.len() as int));
            &&& paths_ascending(devs, ms)
            &&& forall|k: int|
                0 <= k < ms.len() ==> (#[trigger] ms[k] as int) < devs.len() && (devs[ms[k] as int].dcr matches Some(d)
                    && trim(d@) == class)
            &&& forall|i: int|
                0 <= i < devs.len() && (#[trigger] devs[i].dcr matches Some(d)
                    && trim(d@) == class) ==> ms.contains(i as usize)
        }),
{
    lemma_class_sorted(devs, class, devs.len() as int);
}

proof fn lemma_class_sorted(devs: Seq<SysfsDevice>, class: Seq<char>, n: int)
    requires
        n <= devs.len() <= usize::MAX,
    ensures
        ({
            let ms = sort_by_path(devs, class_indices(devs, class, n));
            &&& paths_ascending(devs, ms)
            &&& forall|k: int|
                0 <= k < ms.len() ==> (#[trigger] ms[k] as int) < n && (devs[ms[k] as int].dcr matches Some(d)
                    && trim(d@) == class)
            &&& forall|i: int|
                0 <= i < n && (#[trigger] devs[i].dcr matches Some(d) && trim(d@)
                    == class) ==> ms.contains(i as usize)
        }),
    decreases n,
{
    if n > 0 {
        lemma_class_sorted(devs, class, n - 1);
        let ci = class_indices(devs, class, n - 1);
        let prev = sort_by_path(devs, ci);
        if devs[n - 1].dcr matches Some(d) && trim(d@) == class {
            let x = (n - 1) as usize;
            assert(ci.push(x).drop_last() =~= ci);
            let ms = insert_by_path(devs, prev, x);
            assert(sort_by_path(devs, class_indices(devs, class, n)) == ms);
            lemma_insert_ascending(devs, prev, x);
            lemma_insert_members(devs, prev, x);
            lemma_insert_keeps(devs, prev, x);
            assert forall|k: int| 0 <= k < ms.len() implies (#[trigger] ms[k] as int) < n && (
            devs[ms[k] as int].dcr matches Some(d) && trim(d@) == class) by {
                if ms[k] != x {
                    let j = choose|j: int| 0 <= j < prev.len() && prev[j] == ms[k];
                    assert((prev[j] as int) < n - 1);
                }
            }
            assert forall|i: int|
                0 <= i < n && (#[trigger] devs[i].dcr matches Some(d) && trim(d@)
                    == class) implies ms.contains(i as usize) by {
                if i < n - 1 {
                    let j = choose|j: int| 0 <= j < prev.len() && prev[j] == i as usize;
                    assert(prev.contains(prev[j]));
                }
            }
        } else {
            assert(class_indices(devs, class, n) == ci);
        }
    }
}

/// No index occurs twice.
pub open spec fn no_repeats(s: Seq<usize>) -> bool {
    forall|a: int, b: int| 0 <= a < b < s.len() ==> s[a] != s[b]
}

/// No two devices share a path.
pub open spec fn distinct_paths(devs: Seq<SysfsDevice>) -> bool {
    forall|i: int, j: int| 0 <= i < j < devs.len() ==> devs[i].path@ != devs[j].path@
}

/// `devs2` lists the devices of `devs` in another order: its `i`-th device
/// is the `perm[i]`-th of `devs`, and `perm` is a bijection.
pub open spec fn reordering(devs: Seq<SysfsDevice>, devs2: Seq<SysfsDevice>, perm: Seq<int>) -> bool {
    &&& devs2.len() == devs.len()
    &&& perm.len() == devs.len()
    &&& forall|i: int| 0 <= i < perm.len() ==> 0 <= #[trigger] perm[i] < devs.len() && devs2[i] == devs[perm[i]]
    &&& forall|i: int, j: int| 0 <= i < j < perm.len() ==> perm[i] != perm[j]
    &&& forall|j: int| 0 <= j < devs.len() ==> #[trigger] has_preimage(perm, j)
}

/// Some position of `perm` holds `j`.
pub open spec fn has_preimage(perm: Seq<int>, j: int) -> bool {
    exists|i: int| 0 <= i < perm.len() && perm[i] == j
}

proof fn lemma_insert_no_repeats(devs: Seq<SysfsDevice>, s: Seq<usize>, x: usize)
    requires
        no_repeats(s),
        !s.contains(x),
    ensures
        no_repeats(insert_by_path(devs, s, x)),
    decreases s.len(),
{
    let r = insert_by_path(devs, s, x);
    if s.len() == 0 || chars_le(devs[s.last() as int].path@, devs[x as int].path@) {
        assert forall|a: int, b: int| 0 <= a < b < r.len() implies r[a] != r[b] by {
            if b == s.len() {
                assert(r[a] == s[a]);
            } else {
                assert(r[a] == s[a] && r[b] == s[b]);
            }
        }
    } else {
        let t = s.drop_last();
        assert(no_repeats(t)) by {
            assert forall|a: int, b: int| 0 <= a < b < t.len() implies t[a] != t[b] by {
                assert(t[a] == s[a] && t[b] == s[b]);
            }
        }
        assert(!t.contains(x)) by {
            if t.contains(x) {
                let i = choose|i: int| 0 <= i < t.len() && t[i] == x;
                assert(s[i] == x);
            }
        }
        lemma_insert_no_repeats(devs, t, x);
        lemma_insert_members(devs, t, x);
        let q = insert_by_path(devs, t, x);
        assert forall|a: int, b: int| 0 <= a < b < r.len() implies r[a] != r[b] by {
            if b == q.len() {
                assert(r[b] == s.last());
                assert(r[a] == q[a]);
                if q[a] == s.last() {
                    if q[a] == x {
                        assert(s[s.len() - 1] == x);
                    } else {
                        let i = choose|i: int| 0 <= i < t.len() && t[i] == q[a];
                        assert(s[i] == s[s.len() - 1]);
                    }
                }
            } else {
                assert(r[a] == q[a] && r[b] == q[b]);
            }
        }
    }
}

proof fn lemma_sort_no_repeats(devs: Seq<SysfsDevice>, s: Seq<usize>)
    requires
        no_repeats(s),
    ensures
        no_repeats(sort_by_path(devs, s)),
    decreases s.len(),
{
    if s.len() > 0 {
        let t = s.drop_last();
        assert(no_repeats(t)) by {
            assert forall|a: int, b: int| 0 <= a < b < t.len() implies t[a] != t[b] by {
                assert(t[a] == s[a] && t[b] == s[b]);
            }
        }
        lemma_sort_no_repeats(devs, t);
        lemma_sort_members(devs, t);
        let p = sort_by_path(devs, t);
        assert(!p.contains(s.last())) by {
            if p.contains(s.last()) {
                let k = choose|k: int| 0 <= k < p.len() && p[k] == s.last();
                assert(t.contains(p[k]));
                let i = choose|i: int| 0 <= i < t.len() && t[i] == p[k];
                assert(s[i] == s[s.len() - 1]);
            }
        }
        lemma_insert_no_repeats(devs, p, s.last());
    }
}

proof fn lemma_class_indices_no_repeats(devs: Seq<SysfsDevice>, class: Seq<char>, n: int)
    requires
        n <= devs.len() <= usize::MAX,
    ensures
        no_repeats(class_indices(devs, class, n)),
        forall|k: int|
            0 <= k < class_indices(devs, class, n).len() ==> (#[trigger] class_indices(devs, class, n)[k] as int)
                < n,
    decreases n,
{
    if n > 0 {
        lemma_class_indices_no_repeats(devs, class, n - 1);
        let c = class_indices(devs, class, n - 1);
        if devs[n - 1].dcr matches Some(d) && trim(d@) == class {
            let r = c.push((n - 1) as usize);
            assert(class_indices(devs, class, n) == r);
            assert forall|a: int, b: int| 0 <= a < b < r.len() implies r[a] != r[b] by {
                if b == c.len() {
                    assert(r[a] == c[a]);
                } else {
                    assert(r[a] == c[a] && r[b] == c[b]);
                }
            }
            assert forall|k: int| 0 <= k < r.len() implies (#[trigger] r[k] as int) < n by {
                if k < c.len() {
                    assert(r[k] == c[k]);
                }
            }
        }
    }
}

/// The devices of a class in the order they are numbered.
pub open spec fn class_devices(devs: Seq<SysfsDevice>, class: Seq<char>) -> Seq<SysfsDevice> {
    sort_by_path(devs, class_indices(devs, class, devs.len() as int)).map_values(
        |i: usize| devs[i as int],
    )
}

/// Whether `d` is a device of `class`.
pub open spec fn of_class(d: SysfsDevice, class: Seq<char>) -> bool {
    d.dcr matches Some(t) && trim(t@) == class
}

/// Paths strictly ascending.
pub open spec fn strictly_ascending_paths(v: Seq<SysfsDevice>) -> bool {
    forall|a: int, b: int|
        0 <= a < b < v.len() ==> chars_le(#[trigger] v[a].path@, #[trigger] v[b].path@) && v[a].path@
            != v[b].path@
}

proof fn lemma_class_devices(devs: Seq<SysfsDevice>, class: Seq<char>)
    requires
        devs.len() <= usize::MAX,
        distinct_paths(devs),
    ensures
        strictly_ascending_paths(class_devices(devs, class)),
        forall|d: SysfsDevice|
            class_devices(devs, class).contains(d) <==> (devs.contains(d) && of_class(d, class)),
{
    let ci = class_indices(devs, class, devs.len() as int);
    let ms = sort_by_path(devs, ci);
    let v = class_devices(devs, class);
    lemma_class_sorted(devs, class, devs.len() as int);
    lemma_class_indices_no_repeats(devs, class, devs.len() as int);
    lemma_sort_no_repeats(devs, ci);
    lemma_sort_members(devs, ci);
    assert forall|a: int, b: int| 0 <= a < b < v.len() implies chars_le(
        #[trigger] v[a].path@,
        #[trigger] v[b].path@,
    ) && v[a].path@ != v[b].path@ by {
        assert(v[a] == devs[ms[a] as int] && v[b] == devs[ms[b] as int]);
        assert(chars_le(devs[ms[a] as int].path@, devs[ms[b] as int].path@));
        assert(ms[a] != ms[b]);
        if ms[a] < ms[b] {
            assert(devs[ms[a] as int].path@ != devs[ms[b] as int].path@);
        } else {
            assert(devs[ms[b] as int].path@ != devs[ms[a] as int].path@);
        }
    }
    assert forall|d: SysfsDevice| v.contains(d) <==> (devs.contains(d) && of_class(d, class)) by {
        if v.contains(d) {
            let k = choose|k: int| 0 <= k < v.len() && v[k] == d;
            assert(v[k] == devs[ms[k] as int]);
            assert(devs[ms[k] as int] == d);
        }
        if devs.contains(d) && of_class(d, class) {
            let i = choose|i: int| 0 <= i < devs.len() && devs[i] == d;
            assert(devs[i].dcr matches Some(t) && trim(t@) == class);
            assert(ms.contains(i as usize));
            let k = choose|k: int| 0 <= k < ms.len() && ms[k] == i as usize;
            assert(v[k] == d);
        }
    }
}

/// Two sequences with strictly ascending paths and the same devices are
/// the same sequence.
proof fn lemma_ascending_unique(a: Seq<SysfsDevice>, b: Seq<SysfsDevice>)
    requires
        strictly_ascending_paths(a),
        strictly_ascending_paths(b),
        forall|d: SysfsDevice| a.contains(d) <==> b.contains(d),
    ensures
        a == b,
    decreases a.len(),
{
    if a.len() == 0 {
        if b.len() > 0 {
            assert(b.contains(b[0]));
        }
        assert(a =~= b);
    } else {
        assert(a.contains(a[0]));
        let j = choose|j: int| 0 <= j < b.len() && b[j] == a[0];
        assert(b.contains(b[0]));
        let i = choose|i: int| 0 <= i < a.len() && a[i] == b[0];
        if j > 0 {
            assert(chars_le(b[0].path@, b[j].path@) && b[0].path@ != b[j].path@);
            if i > 0 {
                assert(chars_le(a[0].path@, a[i].path@));
                lemma_chars_le_antisym(a[0].path@, b[0].path@);
            } else {
                assert(b[0] == a[0]);
            }
        }
        assert(a[0] == b[0]);
        let a1 = a.drop_first();
        let b1 = b.drop_first();
        assert(strictly_ascending_paths(a1)) by {
            assert forall|x: int, y: int| 0 <= x < y < a1.len() implies chars_le(
                #[trigger] a1[x].path@,
                #[trigger] a1[y].path@,
            ) && a1[x].path@ != a1[y].path@ by {
                assert(a1[x] == a[x + 1] && a1[y] == a[y + 1]);
            }
        }
        assert(strictly_ascending_paths(b1)) by {
            assert forall|x: int, y: int| 0 <= x < y < b1.len() implies chars_le(
                #[trigger] b1[x].path@,
                #[trigger] b1[y].path@,
            ) && b1[x].path@ != b1[y].path@ by {
                assert(b1[x] == b[x + 1] && b1[y] == b[y + 1]);
            }
        }
        assert forall|d: SysfsDevice| a1.contains(d) <==> b1.contains(d) by {
            if a1.contains(d) {
                let k = choose|k: int| 0 <= k < a1.len() && a1[k] == d;
                assert(a[k + 1] == d);
                assert(a[0].path@ != a[k + 1].path@);
                assert(b.contains(d));
                let m = choose|m: int| 0 <= m < b.len() && b[m] == d;
                assert(m != 0);
                assert(b1[m - 1] == d);
            }
            if b1.contains(d) {
                let k = choose|k: int| 0 <= k < b1.len() && b1[k] == d;
                assert(b[k + 1] == d);
                assert(b[0].path@ != b[k + 1].path@);
                assert(a.contains(d));
                let m = choose|m: int| 0 <= m < a.len() && a[m] == d;
                assert(m != 0);
                assert(a1[m - 1] == d);
            }
        }
        lemma_ascending_unique(a1, b1);
        assert(a =~= seq![a[0]] + a1);
        assert(b =~= seq![b[0]] + b1);
    }
}

/// Which device a class and instance designate does not depend on the
/// order in which the enumeration lists the devices (their paths being
/// distinct, as directory entries are).
pub proof fn law_class_numbering_ignores_listing_order(
    devs: Seq<SysfsDevice>,
    devs2: Seq<SysfsDevice>,
    perm: Seq<int>,
    class: String,
    instance: u8,
)
    requires
        devs.len() <= usize::MAX,
        distinct_paths(devs),
        reordering(devs, devs2, perm),
    ensures
        spec_resolve(AddressMode::DeviceClass { class, instance }, devs2) == spec_resolve(
            AddressMode::DeviceClass { class, instance },
            devs,
        ),
{
    assert(distinct_paths(devs2)) by {
        assert forall|i: int, j: int| 0 <= i < j < devs2.len() implies devs2[i].path@ != devs2[j].path@ by {
            assert(perm[i] != perm[j]);
            if perm[i] < perm[j] {
                assert(devs[perm[i]].path@ != devs[perm[j]].path@);
            } else {
                assert(devs[perm[j]].path@ != devs[perm[i]].path@);
            }
        }
    }
    lemma_class_devices(devs, class@);
    lemma_class_devices(devs2, class@);
    let v = class_devices(devs, class@);
    let v2 = class_devices(devs2, class@);
    assert forall|d: SysfsDevice| v.contains(d) <==> v2.contains(d) by {
        if devs.contains(d) {
            let j = choose|j: int| 0 <= j < devs.len() && devs[j] == d;
            assert(has_preimage(perm, j));
            let i = choose|i: int| 0 <= i < perm.len() && perm[i] == j;
            assert(devs2[i] == d);
        }
        if devs2.contains(d) {
            let i = choose|i: int| 0 <= i < devs2.len() && devs2[i] == d;
            assert(devs[perm[i]] == d);
        }
    }
    lemma_ascending_unique(v, v2);
    let ms = sort_by_path(devs, class_indices(devs, class@, devs.len() as int));
    let ms2 = sort_by_path(devs2, class_indices(devs2, class@, devs2.len() as int));
    assert(v.len() == ms.len() && v2.len() == ms2.len());
    if (instance as int) < ms.len() {
        assert(v[instance as int] == devs[ms[instance as int] as int]);
        assert(v2[instance as int] == devs2[ms2[instance as int] as int]);
    }
}

fn insert_index_sorted(devs: &Vec<SysfsDevice>, v: &mut Vec<usize>, x: usize)
    requires
        x < devs@.len(),
        forall|k: int| 0 <= k < old(v)@.len() ==> #[trigger] old(v)@[k] < devs@.len(),
    ensures
        final(v)@ == insert_by_path(devs@, old(v)@, x),
    decreases old(v)@.len(),
{
    let n = v.len();
    if n == 0 || str_le(devs[v[n - 1]].path.as_str(), devs[x].path.as_str()) {
        v.push(x);
    } else {
        let last = v.pop().unwrap();
        insert_index_sorted(devs, v, x);
        v.push(last);
    }
}

/// The `instance`-th device (by path) of those whose class is `class`.
pub open spec fn class_member(devs: Seq<SysfsDevice>, class: Seq<char>, instance: u8) -> Option<usize> {
    let ms = sort_by_path(devs, class_indices(devs, class, devs.len() as int));
    if (instance as int) < ms.len() {
        Some(ms[instance as int])
    } else {
        None
    }
}

// ── Resolution ──────────────────────────────────────────────────────

/// What resolving an address mode against the enumeration gives.
pub open spec fn spec_resolve(mode: AddressMode, devs: Seq<SysfsDevice>) -> Result<u8, Seq<char>> {
    match mode {
        AddressMode::Static(a) => Ok(a),
        AddressMode::Pid(p) => match first_pid_hit(devs, pid_key(p@), 0) {
            Some(i) => address_in(devs[i].dynamic_address->0@),
            None => Err("no I3C device found with PID "@ + p@),
        },
        AddressMode::DeviceClass { class, instance } => match class_member(devs, class@, instance) {
            Some(i) => match devs[i as int].dynamic_address {
                Some(t) => address_in(t@),
                None => Err("reading dynamic_address"@),
            },
            None => Err(
                "no I3C device found for class '"@ + class@ + "' instance "@ + decimal(instance as nat),
            ),
        },
    }
}

/// Resolves `mode` against the enumerated devices: a static address as it
/// is; a PID to the address of the first device with that PID (compared
/// lower-cased, without `0x`) and a readable address; a device class to the
/// address of its `instance`-th device in path order.
pub fn resolve_dynamic_address(mode: &AddressMode, devs: &Vec<SysfsDevice>) -> (r: Result<u8, String>)
    ensures
        match spec_resolve(*mode, devs@) {
            Ok(v) => r == Ok::<u8, String>(v),
            Err(e) => r matches Err(m) && m@ == e,
        },
{
    match mode {
        AddressMode::Static(a) => Ok(*a),
        AddressMode::Pid(p) => {
            let want = pid_key_of(p.as_str());
            let mut i: usize = 0;
            while i < devs.len()
                invariant
                    i <= devs@.len(),
                    *mode == AddressMode::Pid(*p),
                    want@ == pid_key(p@),
                    first_pid_hit(devs@, want@, 0) == first_pid_hit(devs@, want@, i as int),
                decreases devs@.len() - i,
            {
                let d = &devs[i];
                let mut hit = false;
                if let Some(content) = &d.pid {
                    if d.dynamic_address.is_some() {
                        let t = trimmed(content.as_str());
                        let ts = string_of(t.as_slice());
                        let key = pid_key_of(ts.as_str());
                        hit = key == want;
                    }
                }
                assert(hit == pid_hit(devs@[i as int], want@));
                assert(!hit ==> first_pid_hit(devs@, want@, i as int) == first_pid_hit(devs@, want@, i + 1));
                if hit {
                    assert(first_pid_hit(devs@, want@, i as int) == Some(i as int));
                    match &d.dynamic_address {
                        Some(text) => {
                            assert(text@ == devs@[i as int].dynamic_address->0@);
                            return parse_address(text.as_str());
                        },
                        None => {},
                    }
                }
                i = i + 1;
            }
            let mut e = String::from_str("no I3C device found with PID ");
            e.append(p.as_str());
            Err(e)
        },
        AddressMode::DeviceClass { class, instance } => {
            let mut ms: Vec<usize> = Vec::new();
            let mut i: usize = 0;
            while i < devs.len()
                invariant
                    i <= devs@.len(),
                    ms@ == sort_by_path(devs@, class_indices(devs@, class@, i as int)),
                    forall|k: int| 0 <= k < ms@.len() ==> #[trigger] ms@[k] < i,
                decreases devs@.len() - i,
            {
                let mut hit = false;
                if let Some(content) = &devs[i].dcr {
                    let t = trimmed(content.as_str());
                    let ts = string_of(t.as_slice());
                    hit = ts == *class;
                    assert(ts@ == trim(content@));
                }
                assert(hit == (devs@[i as int].dcr matches Some(d) && trim(d@) == class@));
                let ghost before = ms@;
                if hit {
                    assert(class_indices(devs@, class@, i + 1) =~= class_indices(
                        devs@,
                        class@,
                        i as int,
                    ).push(i));
                    let ghost ci = class_indices(devs@, class@, i as int);
                    assert(ci.push(i).drop_last() =~= ci);
                    assert(sort_by_path(devs@, ci.push(i)) == insert_by_path(devs@, sort_by_path(devs@, ci), i));
                    insert_index_sorted(devs, &mut ms, i);
                    proof {
                        lemma_insert_members(devs@, before, i);
                        assert(ms@ == sort_by_path(devs@, class_indices(devs@, class@, i + 1)));
                        assert forall|k: int| 0 <= k < ms@.len() implies #[trigger] ms@[k] < i + 1 by {
                            if ms@[k] != i {
                                let j = choose|j: int| 0 <= j < before.len() && before[j] == ms@[k];
                            }
                        }
                    }
                }
                i = i + 1;
            }
            proof {
                lemma_sort_members(devs@, class_indices(devs@, class@, devs@.len() as int));
            }
            let inst = *instance as usize;
            if inst < ms.len() {
                let j = ms[inst];
                match &devs[j].dynamic_address {
                    Some(text) => parse_address(text.as_str()),
                    None => Err(String::from_str("reading dynamic_address")),
                }
            } else {
                let mut e = String::from_str("no I3C device found for class '");
                e.append(class.as_str());
                e.append("' instance ");
                push_decimal(&mut e, *instance as u64);
                Err(e)
            }
        },
    }
}

} // verus!
