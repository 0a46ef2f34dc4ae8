//! Batch read planning with register coalescing for Modbus.
//!
//! Metrics are grouped by register type, sorted by address, and adjacent or
//! overlapping ranges (gap ≤ 10 registers, merged span ≤ 125 registers) are
//! merged so that one Modbus read serves several metrics. Coils and discrete
//! inputs are read individually.

use vstd::prelude::*;

use crate::config::{
    map_byte_order, map_data_type, spec_map_byte_order, spec_map_data_type, spec_register_count,
    Metric, RegisterType,
};
use crate::decoder::{self, decode_message, spec_decode, DecodeError, RawValue};
use crate::devices::no_address_message;
use crate::validate::register_type_or_holding;

verus! {

/// Maximum number of registers per read for FC03/FC04 (Modbus spec).
pub const MAX_REGISTERS_PER_READ: u16 = 125;

/// Maximum gap (in registers) between two ranges to still merge them.
pub const MAX_COALESCE_GAP: u16 = 10;

/// A metric's register span, with its index in the metric list.
#[derive(Debug, Clone, Copy, PartialEq, Eq, Structural)]
pub struct IndexedMetric {
    pub idx: usize,
    pub addr: u16,
    pub count: u16,
}

/// A merged range covering one or more metrics; `end` is exclusive.
#[derive(Debug, Clone)]
pub struct MergedRange {
    pub start: u16,
    pub end: u16,
    pub members: Vec<IndexedMetric>,
}

impl MergedRange {
    /// Number of registers the range spans.
    pub fn count(&self) -> (n: u16)
        requires
            self.start <= self.end,
        ensures
            n == self.end - self.start,
    {
        self.end - self.start
    }
}

/// Abstract view of a merged range: start, exclusive end and members.
pub type RangeModel = (u16, u16, Seq<IndexedMetric>);

pub open spec fn range_model(r: MergedRange) -> RangeModel {
    (r.start, r.end, r.members@)
}

pub open spec fn ranges_model(rs: Seq<MergedRange>) -> Seq<RangeModel> {
    rs.map_values(|r: MergedRange| range_model(r))
}

pub open spec fn sat_add(a: u16, b: u16) -> u16 {
    if a + b > 65535 {
        65535
    } else {
        (a + b) as u16
    }
}

pub open spec fn sat_sub(a: u16, b: u16) -> u16 {
    if a >= b {
        (a - b) as u16
    } else {
        0
    }
}

pub open spec fn max_u16(a: u16, b: u16) -> u16 {
    if a >= b {
        a
    } else {
        b
    }
}

/// Whether `item` joins the range `last` rather than starting a new one.
pub open spec fn joins(last: RangeModel, item: IndexedMetric) -> bool {
    sat_sub(item.addr, last.1) <= MAX_COALESCE_GAP && sat_sub(sat_add(item.addr, item.count), last.0)
        <= MAX_REGISTERS_PER_READ
}

/// Greedy left-to-right merge of items into ranges.
pub open spec fn coalesce_spec(items: Seq<IndexedMetric>) -> Seq<RangeModel>
    decreases items.len(),
{
    if items.len() == 0 {
        Seq::empty()
    } else {
        let prev = coalesce_spec(items.drop_last());
        let item = items.last();
        let item_end = sat_add(item.addr, item.count);
        if prev.len() > 0 && joins(prev.last(), item) {
            let last = prev.last();
            prev.update(prev.len() - 1, (last.0, max_u16(last.1, item_end), last.2.push(item)))
        } else {
            prev.push((item.addr, item_end, seq![item]))
        }
    }
}

/// Members of all ranges, in order.
pub open spec fn flatten_members(rs: Seq<RangeModel>) -> Seq<IndexedMetric>
    decreases rs.len(),
{
    if rs.len() == 0 {
        Seq::empty()
    } else {
        flatten_members(rs.drop_last()) + rs.last().2
    }
}

/// Coalesce ranges of items (expected sorted by `addr`) into merged ranges.
pub fn coalesce(items: Vec<IndexedMetric>) -> (ranges: Vec<MergedRange>)
    ensures
        ranges_model(ranges@) == coalesce_spec(items@),
{
    let mut ranges: Vec<MergedRange> = Vec::new();
    let mut i: usize = 0;
    while i < items.len()
        invariant
            i <= items@.len(),
            ranges_model(ranges@) =~= coalesce_spec(items@.take(i as int)),
        decreases items@.len() - i,
    {
        let item = items[i];
        let item_end = item.addr.saturating_add(item.count);
        let ghost prev = coalesce_spec(items@.take(i as int));
        assert(items@.take(i + 1).drop_last() =~= items@.take(i as int));
        assert(items@.take(i + 1).last() == item);
        let n = ranges.len();
        let mut merged = false;
        if n > 0 {
            let last_start = ranges[n - 1].start;
            let last_end = ranges[n - 1].end;
            let gap = item.addr.saturating_sub(last_end);
            let merged_count = item_end.saturating_sub(last_start);
            if gap <= MAX_COALESCE_GAP && merged_count <= MAX_REGISTERS_PER_READ {
                let mut last = ranges.pop().unwrap();
                assert(range_model(last) == prev.last());
                last.end = if last.end >= item_end {
                    last.end
                } else {
                    item_end
                };
                last.members.push(item);
                ranges.push(last);
                merged = true;
                assert(ranges_model(ranges@) =~= coalesce_spec(items@.take(i + 1)));
            }
        }
        if !merged {
            let mut members: Vec<IndexedMetric> = Vec::new();
            members.push(item);
            ranges.push(MergedRange { start: item.addr, end: item_end, members });
            assert(ranges_model(ranges@) =~= coalesce_spec(items@.take(i + 1)));
        }
        i = i + 1;
    }
    assert(items@.take(items@.len() as int) =~= items@);
    ranges
}

proof fn lemma_flatten_push(rs: Seq<RangeModel>, r: RangeModel)
    ensures
        flatten_members(rs.push(r)) =~= flatten_members(rs) + r.2,
{
    assert(rs.push(r).drop_last() =~= rs);
}

proof fn lemma_flatten_update_last(rs: Seq<RangeModel>, r: RangeModel)
    requires
        rs.len() > 0,
    ensures
        flatten_members(rs.update(rs.len() - 1, r)) =~= flatten_members(rs.drop_last()) + r.2,
{
    assert(rs.update(rs.len() - 1, r).drop_last() =~= rs.drop_last());
}

/// Every item lands in exactly one range, and the members of the ranges,
/// read in order, are the items in their input order.
pub proof fn lemma_coalesce_partition(items: Seq<IndexedMetric>)
    ensures
        flatten_members(coalesce_spec(items)) =~= items,
    decreases items.len(),
{
    if items.len() > 0 {
        let prev = coalesce_spec(items.drop_last());
        lemma_coalesce_partition(items.drop_last());
        let item = items.last();
        let item_end = sat_add(item.addr, item.count);
        if prev.len() > 0 && joins(prev.last(), item) {
            let last = prev.last();
            lemma_flatten_update_last(prev, (last.0, max_u16(last.1, item_end), last.2.push(item)));
            lemma_flatten_push(prev.drop_last(), last);
            assert(prev.drop_last().push(last) =~= prev);
        } else {
            lemma_flatten_push(prev, (item.addr, item_end, seq![item]));
        }
        assert(items.drop_last().push(item) =~= items);
    }
}

/// The furthest register end among `ms` (ends saturate at 65535).
pub open spec fn members_end(ms: Seq<IndexedMetric>) -> u16
    decreases ms.len(),
{
    if ms.len() == 0 {
        0
    } else {
        max_u16(members_end(ms.drop_last()), sat_add(ms.last().addr, ms.last().count))
    }
}

proof fn lemma_members_end_push(ms: Seq<IndexedMetric>, x: IndexedMetric)
    ensures
        members_end(ms.push(x)) == max_u16(members_end(ms), sat_add(x.addr, x.count)),
{
    assert(ms.push(x).drop_last() =~= ms);
}

/// Each merged range starts at its first member's address and ends at the
/// furthest end of its members, and the ranges are maximal: the first member
/// of each range could not have joined the range before it (its gap to that
/// range exceeds 10 registers, or the merged span would exceed 125).
pub proof fn lemma_coalesce_ranges_exact(items: Seq<IndexedMetric>)
    ensures
        forall|j: int|
            0 <= j < coalesce_spec(items).len() ==> {
                let r = #[trigger] coalesce_spec(items)[j];
                &&& r.2.len() > 0
                &&& r.0 == r.2[0].addr
                &&& r.1 == members_end(r.2)
            },
        forall|j: int|
            0 < j < coalesce_spec(items).len() ==> !joins(
                coalesce_spec(items)[j - 1],
                (#[trigger] coalesce_spec(items)[j]).2[0],
            ),
    decreases items.len(),
{
    if items.len() > 0 {
        let rest = items.drop_last();
        lemma_coalesce_ranges_exact(rest);
        let prev = coalesce_spec(rest);
        let item = items.last();
        let item_end = sat_add(item.addr, item.count);
        let res = coalesce_spec(items);
        if prev.len() > 0 && joins(prev.last(), item) {
            let last = prev.last();
            let nr = (last.0, max_u16(last.1, item_end), last.2.push(item));
            assert(res == prev.update(prev.len() - 1, nr));
            assert(last == prev[prev.len() - 1]);
            lemma_members_end_push(last.2, item);
            assert(nr.2[0] == last.2[0]);
            assert forall|j: int| 0 <= j < res.len() implies {
                let r = #[trigger] res[j];
                &&& r.2.len() > 0
                &&& r.0 == r.2[0].addr
                &&& r.1 == members_end(r.2)
            } by {
                if j < prev.len() - 1 {
                    assert(res[j] == prev[j]);
                }
            }
            assert forall|j: int| 0 < j < res.len() implies !joins(
                res[j - 1],
                (#[trigger] res[j]).2[0],
            ) by {
                assert(res[j - 1] == prev[j - 1]);
                if j < prev.len() - 1 {
                    assert(res[j] == prev[j]);
                } else {
                    assert(res[j].2[0] == prev[j].2[0]);
                }
            }
        } else {
            let nr = (item.addr, item_end, seq![item]);
            assert(res == prev.push(nr));
            lemma_members_end_push(Seq::<IndexedMetric>::empty(), item);
            assert(seq![item] =~= Seq::<IndexedMetric>::empty().push(item));
            assert forall|j: int| 0 <= j < res.len() implies {
                let r = #[trigger] res[j];
                &&& r.2.len() > 0
                &&& r.0 == r.2[0].addr
                &&& r.1 == members_end(r.2)
            } by {
                if j < prev.len() {
                    assert(res[j] == prev[j]);
                }
            }
            assert forall|j: int| 0 < j < res.len() implies !joins(
                res[j - 1],
                (#[trigger] res[j]).2[0],
            ) by {
                assert(res[j - 1] == prev[j - 1]);
                if j < prev.len() {
                    assert(res[j] == prev[j]);
                } else {
                    assert(prev[j - 1] == prev.last());
                }
            }
        }
    }
}

/// For sorted items each spanning 1 to 125 registers, every merged read
/// covers at most 125 registers, and a new read starts only where joining
/// the previous one would leave a gap of more than 10 registers or make it
/// longer than 125.
pub proof fn law_coalesce_limits(items: Seq<IndexedMetric>)
    requires
        sorted_by_addr(items),
        items_well_formed(items),
    ensures
        forall|j: int|
            0 <= j < coalesce_spec(items).len() ==> #[trigger] coalesce_spec(items)[j].1 - coalesce_spec(
                items,
            )[j].0 <= 125,
        forall|j: int|
            0 < j < coalesce_spec(items).len() ==> {
                let p = coalesce_spec(items)[j - 1];
                let x = (#[trigger] coalesce_spec(items)[j]).2[0];
                x.addr - p.1 > 10 || x.addr + x.count - p.0 > 125
            },
{
    lemma_coalesce_sound(items);
    lemma_coalesce_ranges_exact(items);
    assert forall|j: int| 0 < j < coalesce_spec(items).len() implies {
        let p = coalesce_spec(items)[j - 1];
        let x = (#[trigger] coalesce_spec(items)[j]).2[0];
        x.addr - p.1 > 10 || x.addr + x.count - p.0 > 125
    } by {
        let p = coalesce_spec(items)[j - 1];
        let x = coalesce_spec(items)[j].2[0];
        assert(!joins(p, x));
        assert(range_sound(p));
        assert(range_sound(coalesce_spec(items)[j]));
        assert(x == coalesce_spec(items)[j].2[0]);
    }
}

/// Whether items are in non-decreasing address order.
pub open spec fn sorted_by_addr(items: Seq<IndexedMetric>) -> bool {
    forall|a: int, b: int| 0 <= a < b < items.len() ==> items[a].addr <= items[b].addr
}

/// Whether each item spans 1 to 125 registers without passing address 65535.
pub open spec fn items_well_formed(items: Seq<IndexedMetric>) -> bool {
    forall|k: int|
        0 <= k < items.len() ==> 1 <= #[trigger] items[k].count <= MAX_REGISTERS_PER_READ
            && items[k].addr + items[k].count <= 65535
}

/// What every range of a coalescing satisfies.
pub open spec fn range_sound(r: RangeModel) -> bool {
    &&& r.0 <= r.1
    &&& r.1 - r.0 <= MAX_REGISTERS_PER_READ
    &&& r.2.len() > 0
    &&& forall|k: int|
        0 <= k < r.2.len() ==> r.0 <= #[trigger] r.2[k].addr && r.2[k].addr + r.2[k].count <= r.1
}

/// For sorted, well-formed items every merged range fits in one read
/// (at most 125 registers) and contains the whole span of each of its members,
/// and ranges start in address order.
pub proof fn lemma_coalesce_sound(items: Seq<IndexedMetric>)
    requires
        sorted_by_addr(items),
        items_well_formed(items),
    ensures
        forall|j: int| 0 <= j < coalesce_spec(items).len() ==> range_sound(
            #[trigger] coalesce_spec(items)[j],
        ),
        forall|j: int|
            0 <= j < coalesce_spec(items).len() ==> #[trigger] coalesce_spec(items)[j].0
                <= items.last().addr,
        coalesce_spec(items).len() > 0 ==> coalesce_spec(items).last().2.last() == items.last(),
        coalesce_spec(items).len() > 0 <==> items.len() > 0,
    decreases items.len(),
{
    if items.len() > 0 {
        let rest = items.drop_last();
        assert(sorted_by_addr(rest));
        assert(items_well_formed(rest)) by {
            assert forall|k: int| 0 <= k < rest.len() implies 1 <= #[trigger] rest[k].count
                <= MAX_REGISTERS_PER_READ && rest[k].addr + rest[k].count <= 65535 by {
                assert(rest[k] == items[k]);
            }
        }
        lemma_coalesce_sound(rest);
        let prev = coalesce_spec(rest);
        let item = items.last();
        assert(item == items[items.len() - 1]);
        assert(1 <= item.count <= MAX_REGISTERS_PER_READ && item.addr + item.count <= 65535);
        let item_end = sat_add(item.addr, item.count);
        if prev.len() > 0 && joins(prev.last(), item) {
            let last = prev.last();
            let nr = (last.0, max_u16(last.1, item_end), last.2.push(item));
            assert(range_sound(last));
            assert(rest.last() == items[items.len() - 2]);
            assert(last.0 <= rest.last().addr);
            assert(rest.last().addr <= item.addr);
            assert forall|k: int| 0 <= k < nr.2.len() implies nr.0 <= #[trigger] nr.2[k].addr
                && nr.2[k].addr + nr.2[k].count <= nr.1 by {
                if k < last.2.len() {
                    assert(nr.2[k] == last.2[k]);
                }
            }
            assert(range_sound(nr));
            let res = prev.update(prev.len() - 1, nr);
            assert forall|j: int| 0 <= j < res.len() implies range_sound(#[trigger] res[j]) by {
                if j < prev.len() - 1 {
                    assert(res[j] == prev[j]);
                }
            }
            assert forall|j: int| 0 <= j < res.len() implies #[trigger] res[j].0 <= items.last().addr by {
                assert(prev[j].0 <= rest.last().addr);
            }
        } else {
            let nr = (item.addr, item_end, seq![item]);
            assert(range_sound(nr));
            let res = prev.push(nr);
            assert forall|j: int| 0 <= j < res.len() implies range_sound(#[trigger] res[j]) by {
                if j < prev.len() {
                    assert(res[j] == prev[j]);
                }
            }
            assert forall|j: int| 0 <= j < res.len() implies #[trigger] res[j].0 <= items.last().addr by {
                if j < prev.len() {
                    assert(res[j] == prev[j]);
                    assert(rest.last() == items[items.len() - 2]);
                }
            }
        }
    }
}

// ── Sorting ───────────────────────────────────────────────────────────

/// Stable insertion of `x` into `s`: after every element whose address is not greater.
pub open spec fn insert_by_addr(s: Seq<IndexedMetric>, x: IndexedMetric) -> Seq<IndexedMetric>
    decreases s.len(),
{
    if s.len() == 0 || s.last().addr <= x.addr {
        s.push(x)
    } else {
        insert_by_addr(s.drop_last(), x).push(s.last())
    }
}

/// Stable sort by address (insertion sort).
pub open spec fn sort_by_addr(s: Seq<IndexedMetric>) -> Seq<IndexedMetric>
    decreases s.len(),
{
    if s.len() == 0 {
        s
    } else {
        insert_by_addr(sort_by_addr(s.drop_last()), s.last())
    }
}

fn insert_sorted(v: &mut Vec<IndexedMetric>, x: IndexedMetric)
    ensures
        final(v)@ == insert_by_addr(old(v)@, x),
    decreases old(v)@.len(),
{
    let n = v.len();
    if n == 0 || v[n - 1].addr <= x.addr {
        v.push(x);
    } else {
        let last = v.pop().unwrap();
        insert_sorted(v, x);
        v.push(last);
    }
}

/// Sorts items by address, keeping the input order of equal addresses.
pub fn sort_items_by_addr(items: Vec<IndexedMetric>) -> (r: Vec<IndexedMetric>)
    ensures
        r@ == sort_by_addr(items@),
{
    let mut out: Vec<IndexedMetric> = Vec::new();
    let mut i: usize = 0;
    while i < items.len()
        invariant
            i <= items@.len(),
            out@ == sort_by_addr(items@.take(i as int)),
        decreases items@.len() - i,
    {
        assert(items@.take(i + 1).drop_last() =~= items@.take(i as int));
        insert_sorted(&mut out, items[i]);
        i = i + 1;
    }
    assert(items@.take(items@.len() as int) =~= items@);
    out
}

proof fn lemma_insert_sorted(s: Seq<IndexedMetric>, x: IndexedMetric)
    requires
        sorted_by_addr(s),
    ensures
        sorted_by_addr(insert_by_addr(s, x)),
        insert_by_addr(s, x).len() == s.len() + 1,
        insert_by_addr(s, x).to_multiset() =~= s.to_multiset().insert(x),
        forall|k: int| 0 <= k < insert_by_addr(s, x).len() ==> (#[trigger] insert_by_addr(s, x)[k]
            == x || s.contains(insert_by_addr(s, x)[k])),
    decreases s.len(),
{
    broadcast use vstd::seq_lib::group_to_multiset_ensures;

    if s.len() == 0 || s.last().addr <= x.addr {
        let r = s.push(x);
        assert forall|a: int, b: int| 0 <= a < b < r.len() implies r[a].addr <= r[b].addr by {
            if b == s.len() && a < s.len() {
                assert(s[a].addr <= s.last().addr);
            }
        }
        assert forall|k: int| 0 <= k < r.len() implies (#[trigger] r[k] == x || s.contains(r[k])) by {
            if k < s.len() {
                assert(r[k] == s[k]);
            }
        }
    } else {
        let rest = s.drop_last();
        assert(sorted_by_addr(rest));
        lemma_insert_sorted(rest, x);
        let ir = insert_by_addr(rest, x);
        let r = ir.push(s.last());
        assert forall|k: int| 0 <= k < ir.len() implies #[trigger] ir[k].addr <= s.last().addr by {
            if ir[k] != x {
                let w = choose|w: int| 0 <= w < rest.len() && rest[w] == ir[k];
                assert(s[w].addr <= s[s.len() - 1].addr);
            }
        }
        assert forall|a: int, b: int| 0 <= a < b < r.len() implies r[a].addr <= r[b].addr by {
            if b == ir.len() {
                assert(ir[a].addr <= s.last().addr);
            }
        }
        assert forall|k: int| 0 <= k < r.len() implies (#[trigger] r[k] == x || s.contains(r[k])) by {
            if k < ir.len() {
                if ir[k] != x {
                    let w = choose|w: int| 0 <= w < rest.len() && rest[w] == ir[k];
                    assert(s[w] == ir[k]);
                }
            } else {
                assert(s[s.len() - 1] == r[k]);
            }
        }
        assert(rest.push(s.last()) =~= s);
    }
}

/// The sort orders items by address and only rearranges them.
pub proof fn lemma_sort_by_addr(s: Seq<IndexedMetric>)
    ensures
        sorted_by_addr(sort_by_addr(s)),
        sort_by_addr(s).to_multiset() =~= s.to_multiset(),
        sort_by_addr(s).len() == s.len(),
    decreases s.len(),
{
    broadcast use vstd::seq_lib::group_to_multiset_ensures;

    if s.len() > 0 {
        lemma_sort_by_addr(s.drop_last());
        lemma_insert_sorted(sort_by_addr(s.drop_last()), s.last());
        assert(s.drop_last().push(s.last()) =~= s);
    }
}

// ── Planning ──────────────────────────────────────────────────────────

/// The span of metric `i`, which has an address.
pub open spec fn indexed_metric(ms: Seq<Metric>, i: int) -> IndexedMetric {
    IndexedMetric {
        idx: i as usize,
        addr: ms[i].address->Some_0,
        count: spec_register_count(ms[i].data_type) as u16,
    }
}

/// Spans of the metrics among the first `n` that have an address and register type `rt`.
pub open spec fn items_of(ms: Seq<Metric>, n: int, rt: RegisterType) -> Seq<IndexedMetric>
    decreases n,
{
    if n <= 0 {
        Seq::empty()
    } else {
        let prev = items_of(ms, n - 1, rt);
        if ms[n - 1].address is Some && register_type_or_holding(ms[n - 1]) == rt {
            prev.push(indexed_metric(ms, n - 1))
        } else {
            prev
        }
    }
}

/// Indices of the metrics among the first `n` selected by `sel`:
/// 0 — no address; 1 — a coil or discrete input with an address.
pub open spec fn indices_of(ms: Seq<Metric>, n: int, sel: int) -> Seq<usize>
    decreases n,
{
    if n <= 0 {
        Seq::empty()
    } else {
        let prev = indices_of(ms, n - 1, sel);
        let m = ms[n - 1];
        let picked = if sel == 0 {
            m.address is None
        } else {
            m.address is Some && (register_type_or_holding(m) == RegisterType::Coil
                || register_type_or_holding(m) == RegisterType::Discrete)
        };
        if picked {
            prev.push((n - 1) as usize)
        } else {
            prev
        }
    }
}

/// How one batch poll reads a metric list.
#[derive(Debug, Clone)]
pub struct BatchPlan {
    /// Holding-register reads, one per merged range.
    pub holding: Vec<MergedRange>,
    /// Input-register reads, one per merged range.
    pub input: Vec<MergedRange>,
    /// Metrics read one at a time (coils and discrete inputs).
    pub individual: Vec<usize>,
    /// Metrics that cannot be read because they have no address.
    pub missing_address: Vec<usize>,
}

/// Plans a batch read of `metrics`.
pub fn plan_batch(metrics: &[Metric]) -> (plan: BatchPlan)
    ensures
        ranges_model(plan.holding@) == coalesce_spec(
            sort_by_addr(items_of(metrics@, metrics@.len() as int, RegisterType::Holding)),
        ),
        ranges_model(plan.input@) == coalesce_spec(
            sort_by_addr(items_of(metrics@, metrics@.len() as int, RegisterType::Input)),
        ),
        plan.individual@ == indices_of(metrics@, metrics@.len() as int, 1),
        plan.missing_address@ == indices_of(metrics@, metrics@.len() as int, 0),
{
    let mut holding: Vec<IndexedMetric> = Vec::new();
    let mut input: Vec<IndexedMetric> = Vec::new();
    let mut individual: Vec<usize> = Vec::new();
    let mut missing: Vec<usize> = Vec::new();
    let mut i: usize = 0;
    while i < metrics.len()
        invariant
            i <= metrics@.len(),
            holding@ == items_of(metrics@, i as int, RegisterType::Holding),
            input@ == items_of(metrics@, i as int, RegisterType::Input),
            individual@ == indices_of(metrics@, i as int, 1),
            missing@ == indices_of(metrics@, i as int, 0),
        decreases metrics@.len() - i,
    {
        let m = &metrics[i];
        match m.address {
            None => {
                missing.push(i);
            },
            Some(addr) => {
                let count = m.data_type.register_count();
                let rt = match m.register_type {
                    Some(rt) => rt,
                    None => RegisterType::Holding,
                };
                let item = IndexedMetric { idx: i, addr, count };
                match rt {
                    RegisterType::Holding => holding.push(item),
                    RegisterType::Input => input.push(item),
                    RegisterType::Coil | RegisterType::Discrete => individual.push(i),
                }
            },
        }
        i = i + 1;
    }
    let holding = sort_items_by_addr(holding);
    let input = sort_items_by_addr(input);
    BatchPlan {
        holding: coalesce(holding),
        input: coalesce(input),
        individual,
        missing_address: missing,
    }
}

proof fn lemma_items_of_contains(ms: Seq<Metric>, n: int, rt: RegisterType, i: int)
    requires
        0 <= i < n <= ms.len(),
        ms[i].address is Some,
        register_type_or_holding(ms[i]) == rt,
    ensures
        items_of(ms, n, rt).contains(indexed_metric(ms, i)),
    decreases n,
{
    let prev = items_of(ms, n - 1, rt);
    if i < n - 1 {
        lemma_items_of_contains(ms, n - 1, rt, i);
        let w = choose|w: int| 0 <= w < prev.len() && prev[w] == indexed_metric(ms, i);
        if ms[n - 1].address is Some && register_type_or_holding(ms[n - 1]) == rt {
            assert(prev.push(indexed_metric(ms, n - 1))[w] == indexed_metric(ms, i));
        }
    } else {
        assert(prev.push(indexed_metric(ms, n - 1))[prev.len() as int] == indexed_metric(ms, i));
    }
}

proof fn lemma_indices_of_contains(ms: Seq<Metric>, n: int, sel: int, i: int)
    requires
        0 <= i < n <= ms.len(),
        sel == 0 ==> ms[i].address is None,
        sel != 0 ==> ms[i].address is Some && (register_type_or_holding(ms[i]) == RegisterType::Coil
            || register_type_or_holding(ms[i]) == RegisterType::Discrete),
    ensures
        indices_of(ms, n, sel).contains(i as usize),
    decreases n,
{
    let prev = indices_of(ms, n - 1, sel);
    if i < n - 1 {
        lemma_indices_of_contains(ms, n - 1, sel, i);
        let w = choose|w: int| 0 <= w < prev.len() && prev[w] == i as usize;
        assert(prev.push((n - 1) as usize)[w] == i as usize);
    } else {
        assert(prev.push((n - 1) as usize)[prev.len() as int] == i as usize);
    }
}

/// The ranges planned for the metrics of register type `rt`.
pub open spec fn planned_ranges(ms: Seq<Metric>, rt: RegisterType) -> Seq<RangeModel> {
    coalesce_spec(sort_by_addr(items_of(ms, ms.len() as int, rt)))
}

proof fn lemma_ranges_cover(ms: Seq<Metric>, rt: RegisterType, i: int)
    requires
        0 <= i < ms.len(),
        ms[i].address is Some,
        register_type_or_holding(ms[i]) == rt,
    ensures
        flatten_members(planned_ranges(ms, rt)).contains(indexed_metric(ms, i)),
{
    broadcast use vstd::seq_lib::group_to_multiset_ensures;

    let items = items_of(ms, ms.len() as int, rt);
    lemma_items_of_contains(ms, ms.len() as int, rt, i);
    lemma_sort_by_addr(items);
    assert(items.to_multiset().count(indexed_metric(ms, i)) > 0);
    assert(sort_by_addr(items).to_multiset().count(indexed_metric(ms, i)) > 0);
    assert(sort_by_addr(items).contains(indexed_metric(ms, i)));
    lemma_coalesce_partition(sort_by_addr(items));
}

/// Every metric is planned for: one without an address is listed as such;
/// a coil or discrete input is read on its own; a holding or input
/// register's span is a member of one of the merged ranges of its type.
pub proof fn law_plan_covers_every_metric(ms: Seq<Metric>, i: int)
    requires
        0 <= i < ms.len(),
    ensures
        ms[i].address is None ==> indices_of(ms, ms.len() as int, 0).contains(i as usize),
        (ms[i].address is Some && (register_type_or_holding(ms[i]) == RegisterType::Coil
            || register_type_or_holding(ms[i]) == RegisterType::Discrete)) ==> indices_of(
            ms,
            ms.len() as int,
            1,
        ).contains(i as usize),
        (ms[i].address is Some && register_type_or_holding(ms[i]) == RegisterType::Holding)
            ==> flatten_members(planned_ranges(ms, RegisterType::Holding)).contains(
            indexed_metric(ms, i),
        ),
        (ms[i].address is Some && register_type_or_holding(ms[i]) == RegisterType::Input)
            ==> flatten_members(planned_ranges(ms, RegisterType::Input)).contains(
            indexed_metric(ms, i),
        ),
{
    if ms[i].address is None {
        lemma_indices_of_contains(ms, ms.len() as int, 0, i);
    } else {
        let rt = register_type_or_holding(ms[i]);
        if rt == RegisterType::Coil || rt == RegisterType::Discrete {
            lemma_indices_of_contains(ms, ms.len() as int, 1, i);
        } else {
            lemma_ranges_cover(ms, rt, i);
        }
    }
}

/// What decoding member `m` out of a read that started at `range_start` yields.
pub open spec fn spec_decode_member(
    regs: Seq<u16>,
    range_start: u16,
    m: IndexedMetric,
    data_type: decoder::DataType,
    order: decoder::ByteOrder,
) -> Result<RawValue, DecodeError> {
    let off = m.addr - range_start;
    let avail = if regs.len() >= off + m.count {
        m.count as int
    } else if regs.len() >= off {
        regs.len() - off
    } else {
        0
    };
    spec_decode(
        if avail == 0 { Seq::empty() } else { regs.subrange(off, off + avail) },
        data_type,
        order,
    )
}

/// Decodes member `m` from the registers of a read that started at `range_start`.
/// Registers the response does not hold count as missing.
pub fn decode_member(
    regs: &[u16],
    range_start: u16,
    m: IndexedMetric,
    data_type: decoder::DataType,
    order: decoder::ByteOrder,
) -> (r: Result<RawValue, DecodeError>)
    requires
        range_start <= m.addr,
    ensures
        r == spec_decode_member(regs@, range_start, m, data_type, order),
{
    let off = (m.addr - range_start) as usize;
    let avail: usize = if regs.len() >= off + m.count as usize {
        m.count as usize
    } else if regs.len() >= off {
        regs.len() - off
    } else {
        0
    };
    let mut slice: Vec<u16> = Vec::new();
    if avail > 0 {
        let len = regs.len();
        let mut k: usize = 0;
        while k < avail
            invariant
                k <= avail,
                len == regs@.len(),
                off + avail <= regs@.len(),
                slice@ =~= regs@.subrange(off as int, off + k),
            decreases avail - k,
        {
            slice.push(regs[off + k]);
            k = k + 1;
        }
    }
    decoder::decode(slice.as_slice(), data_type, order)
}


/// What a successful read of a merged range yields: for each member, in
/// order, its metric index and its decoded value. Members that start before
/// the range or name no metric of the list are passed over.
pub open spec fn range_results(
    regs: Seq<u16>,
    start: u16,
    ms: Seq<IndexedMetric>,
    metrics: Seq<Metric>,
) -> Seq<(usize, Result<RawValue, DecodeError>)>
    decreases ms.len(),
{
    if ms.len() == 0 {
        Seq::empty()
    } else {
        let prev = range_results(regs, start, ms.drop_last(), metrics);
        let m = ms.last();
        if m.addr < start || m.idx >= metrics.len() {
            prev
        } else {
            let metric = metrics[m.idx as int];
            prev.push(
                (
                    m.idx,
                    spec_decode_member(
                        regs,
                        start,
                        m,
                        spec_map_data_type(metric.data_type),
                        spec_map_byte_order(metric.byte_order),
                    ),
                ),
            )
        }
    }
}

/// Decodes every member of `range` out of the registers its read returned.
pub fn decode_range(regs: &[u16], range: &MergedRange, metrics: &[Metric]) -> (out: Vec<
    (usize, Result<RawValue, DecodeError>),
>)
    ensures
        out@ == range_results(regs@, range.start, range.members@, metrics@),
{
    let mut out: Vec<(usize, Result<RawValue, DecodeError>)> = Vec::new();
    let mut k: usize = 0;
    while k < range.members.len()
        invariant
            k <= range.members@.len(),
            out@ == range_results(regs@, range.start, range.members@.take(k as int), metrics@),
        decreases range.members@.len() - k,
    {
        let m = range.members[k];
        assert(range.members@.take(k + 1).drop_last() =~= range.members@.take(k as int));
        assert(range.members@.take(k + 1).last() == m);
        if m.addr >= range.start && m.idx < metrics.len() {
            let metric = &metrics[m.idx];
            let dt = map_data_type(metric.data_type);
            let bo = map_byte_order(metric.byte_order);
            let r = decode_member(regs, range.start, m, dt, bo);
            out.push((m.idx, r));
        }
        k = k + 1;
    }
    assert(range.members@.take(range.members@.len() as int) =~= range.members@);
    out
}


// ── Running a plan ──────────────────────────────────────────────────

/// The next read a batch poll makes.
#[derive(Debug, Clone, Copy, PartialEq, Eq, Structural)]
pub enum BatchRequest {
    /// Read `count` registers from `start` (holding registers or input registers).
    ReadRange { holding: bool, start: u16, count: u16 },
    /// Read metric `idx` on its own.
    ReadSingle(usize),
    /// Every metric has its result.
    Done,
}

/// A batch poll in progress: the plan's ranges are read in turn (holding
/// registers, then input registers); when a range read fails, its members
/// are read one at a time before the next range; the coils and discrete
/// inputs come last, one at a time.  Each metric's result lands in its slot.
pub struct BatchRun {
    holding: Vec<MergedRange>,
    input: Vec<MergedRange>,
    next_holding: usize,
    next_input: usize,
    queue: Vec<usize>,
    queue_pos: usize,
    individual: Vec<usize>,
    individual_pos: usize,
    slots: Vec<Option<Result<RawValue, String>>>,
}

/// The holding-register ranges, then the input-register ranges, each with
/// its table (`true` for holding registers).
pub open spec fn all_ranges(h: Seq<MergedRange>, inp: Seq<MergedRange>) -> Seq<(bool, MergedRange)> {
    h.map_values(|r: MergedRange| (true, r)) + inp.map_values(|r: MergedRange| (false, r))
}

/// Whether metric `i` is among the members of the ranges from `from` on.
pub open spec fn in_ranges_from(rs: Seq<(bool, MergedRange)>, from: int, i: int) -> bool {
    exists|r: int, k: int|
        from <= r < rs.len() && 0 <= k < rs[r].1.members@.len() && #[trigger] rs[r].1.members@[k].idx
            == i
}

/// Whether metric `i` is listed in `q` from `from` on.
pub open spec fn in_list_from(q: Seq<usize>, from: int, i: int) -> bool {
    exists|k: int| from <= k < q.len() && #[trigger] q[k] == i
}

/// What a slot holds in the end: its result, or the error of a metric that
/// was never read.
pub open spec fn final_result(
    slot: Option<Result<RawValue, String>>,
    name: Seq<char>,
) -> Result<Seq<char>, Seq<char>> {
    match slot {
        Some(Ok(_)) => Ok(Seq::empty()),
        Some(Err(e)) => Err(e@),
        None => Err("metric '"@ + name + "' not processed"@),
    }
}

impl BatchRun {
    /// The slots, one per metric.
    pub closed spec fn spec_slots(&self) -> Seq<Option<Result<RawValue, String>>> {
        self.slots@
    }

    /// The ranges to read, holding registers first, each with its table.
    pub closed spec fn spec_ranges(&self) -> Seq<(bool, MergedRange)> {
        all_ranges(self.holding@, self.input@)
    }

    /// Every metric not yet given a result is still to be read: in a range
    /// not yet read, among the single reads still queued, or among the coils
    /// and discrete inputs not yet read.
    pub closed spec fn wf(&self) -> bool {
        &&& self.next_holding <= self.holding@.len()
        &&& self.next_input <= self.input@.len()
        &&& (self.next_input == 0 || self.next_holding == self.holding@.len())
        &&& self.queue_pos <= self.queue@.len()
        &&& self.individual_pos <= self.individual@.len()
        &&& forall|i: int|
            0 <= i < self.slots@.len() ==> (#[trigger] self.slots@[i] is Some || in_ranges_from(
                self.spec_ranges(),
                self.spec_next(),
                i,
            ) || in_list_from(self.queue@, self.queue_pos as int, i) || in_list_from(
                self.individual@,
                self.individual_pos as int,
                i,
            ))
    }

    /// Whether every metric has its result.
    pub open spec fn all_filled(&self) -> bool {
        forall|i: int| 0 <= i < self.spec_slots().len() ==> #[trigger] self.spec_slots()[i] is Some
    }

    /// Starts a batch poll of `metrics` as `plan_batch` plans it; the
    /// metrics without an address get their error at once.
    pub fn new(metrics: &[Metric]) -> (run: Self)
        ensures
            run.wf(),
            run.spec_slots().len() == metrics@.len(),
            forall|i: int|
                0 <= i < metrics@.len() && metrics@[i].address is None ==> (#[trigger] run.spec_slots()[i]
                    matches Some(Err(e)) && e@ == no_address_message(metrics@[i].name@)),
            forall|i: int|
                0 <= i < metrics@.len() && metrics@[i].address is Some ==> #[trigger] run.spec_slots()[i]
                    is None,
    {
        let n = metrics.len();
        let mut slots: Vec<Option<Result<RawValue, String>>> = Vec::new();
        let mut i: usize = 0;
        while i < n
            invariant
                n == metrics@.len(),
                i <= n,
                slots@.len() == i,
                forall|j: int|
                    0 <= j < i && metrics@[j].address is None ==> (#[trigger] slots@[j] matches Some(
                        Err(e),
                    ) && e@ == no_address_message(metrics@[j].name@)),
                forall|j: int| 0 <= j < i && metrics@[j].address is Some ==> #[trigger] slots@[j] is None,
            decreases n - i,
        {
            match metrics[i].address {
                None => {
                    let mut e = String::from_str("metric '");
                    e.append(metrics[i].name.as_str());
                    e.append("' has no address");
                    slots.push(Some(Err(e)));
                },
                Some(_) => {
                    slots.push(None);
                },
            }
            i = i + 1;
        }
        let plan = plan_batch(metrics);
        let BatchPlan { holding, input, individual, missing_address: _ } = plan;
        let ghost h = holding@;
        let ghost inp = input@;
        let ghost hl = h.len() as int;
        let run = BatchRun {
            holding,
            input,
            next_holding: 0,
            next_input: 0,
            queue: Vec::new(),
            queue_pos: 0,
            individual,
            individual_pos: 0,
            slots,
        };
        proof {
            assert forall|i: int| 0 <= i < run.slots@.len() implies (#[trigger] run.slots@[i] is Some
                || in_ranges_from(run.spec_ranges(), 0, i) || in_list_from(run.queue@, 0, i)
                || in_list_from(run.individual@, 0, i)) by {
                if metrics@[i].address is Some {
                    law_plan_covers_every_metric(metrics@, i);
                    let rt = register_type_or_holding(metrics@[i]);
                    if rt == RegisterType::Coil || rt == RegisterType::Discrete {
                        let w = choose|w: int| 0 <= w < run.individual@.len() && run.individual@[w] == i as usize;
                        assert(run.individual@[w] == i);
                    } else {
                        let holding_rt = rt == RegisterType::Holding;
                        let rs = if holding_rt { h } else { inp };
                        let ms = ranges_model(rs);
                        let im = indexed_metric(metrics@, i);
                        lemma_flatten_contains(ms, im);
                        let (r, k) = choose|r: int, k: int|
                            0 <= r < ms.len() && 0 <= k < ms[r].2.len() && ms[r].2[k] == im;
                        assert(ms[r] == range_model(rs[r]));
                        assert(rs[r].members@[k] == im);
                        let rr = if holding_rt { r } else { hl + r };
                        assert(run.spec_ranges()[rr].1 == rs[r]);
                        assert(run.spec_ranges()[rr].1.members@[k].idx == i);
                    }
                }
            }
        }
        run
    }

    /// The position of the next range to read among all ranges.
    pub closed spec fn spec_next(&self) -> int {
        self.next_holding + self.next_input
    }

    /// The range to read next, with its table.
    fn current_range(&self) -> (r: (bool, &MergedRange))
        requires
            self.wf(),
            self.next_holding < self.holding@.len() || self.next_input < self.input@.len(),
        ensures
            self.spec_next() < self.spec_ranges().len(),
            (r.0, *r.1) == self.spec_ranges()[self.spec_next()],
    {
        if self.next_holding < self.holding.len() {
            (true, &self.holding[self.next_holding])
        } else {
            (false, &self.input[self.next_input])
        }
    }

    /// The next read to make.
    pub fn next_request(&self) -> (r: BatchRequest)
        requires
            self.wf(),
        ensures
            r is Done ==> self.all_filled(),
    {
        if self.queue_pos < self.queue.len() {
            BatchRequest::ReadSingle(self.queue[self.queue_pos])
        } else if self.next_holding < self.holding.len() || self.next_input < self.input.len() {
            let (holding, range) = self.current_range();
            let count = if range.start <= range.end {
                range.end - range.start
            } else {
                0
            };
            BatchRequest::ReadRange { holding, start: range.start, count }
        } else if self.individual_pos < self.individual.len() {
            BatchRequest::ReadSingle(self.individual[self.individual_pos])
        } else {
            proof {
                assert forall|i: int| 0 <= i < self.spec_slots().len() implies #[trigger] self.spec_slots()[i]
                    is Some by {
                    assert(self.slots@[i] is Some || in_ranges_from(self.spec_ranges(), self.spec_next(), i)
                        || in_list_from(self.queue@, self.queue_pos as int, i) || in_list_from(
                        self.individual@,
                        self.individual_pos as int,
                        i,
                    ));
                }
            }
            BatchRequest::Done
        }
    }
}

impl BatchRun {
    /// The members of the range `next_request` asks for.
    pub closed spec fn current_members(&self) -> Seq<IndexedMetric> {
        self.spec_ranges()[self.spec_next()].1.members@
    }

    /// The first register of the range `next_request` asks for.
    pub closed spec fn current_start(&self) -> u16 {
        self.spec_ranges()[self.spec_next()].1.start
    }

    /// Hands in the outcome of the range read that `next_request` asked
    /// for: on success each member's value is decoded from the registers
    /// read (a member that starts before the range is read on its own); on
    /// failure every member is read on its own before the next range.
    pub fn range_done(&mut self, read: Result<Vec<u16>, String>, metrics: &[Metric])
        requires
            old(self).wf(),
            old(self).spec_slots().len() == metrics@.len(),
        ensures
            final(self).wf(),
            final(self).spec_slots().len() == old(self).spec_slots().len(),
            forall|i: int|
                0 <= i < metrics@.len() && #[trigger] old(self).spec_slots()[i] is Some
                    ==> final(self).spec_slots()[i] is Some,
            forall|i: int|
                0 <= i < metrics@.len() ==> (#[trigger] final(self).spec_slots()[i] == old(
                    self,
                ).spec_slots()[i] || (read is Ok && exists|k: int|
                    0 <= k < old(self).current_members().len()
                        && old(self).current_members()[k].idx == i
                        && old(self).current_members()[k].addr >= old(self).current_start()
                        && slot_view(final(self).spec_slots()[i]) == Some(
                        member_result(
                            read->Ok_0@,
                            old(self).current_start(),
                            old(self).current_members()[k],
                            metrics@[i],
                        ),
                    ))),
    {
        let n = metrics.len();
        if !(self.next_holding < self.holding.len() || self.next_input < self.input.len()) {
            return;
        }
        let ghost old_slots = self.slots@;
        let ghost q0 = self.queue@;
        let ghost rs = self.spec_ranges();
        let ghost nr = self.spec_next();
        let ghost ms = self.current_members();
        let ghost st = self.current_start();
        let (_, range) = self.current_range();
        let start = range.start;
        let mut members: Vec<IndexedMetric> = Vec::new();
        let mut c: usize = 0;
        while c < range.members.len()
            invariant
                c <= range.members@.len(),
                members@ == range.members@.take(c as int),
            decreases range.members@.len() - c,
        {
            members.push(range.members[c]);
            c = c + 1;
            assert(members@ =~= range.members@.take(c as int));
        }
        assert(members@ =~= ms);
        let mut j: usize = 0;
        while j < members.len()
            invariant
                j <= members@.len(),
                members@ == ms,
                n == metrics@.len(),
                self.slots@.len() == n,
                old_slots.len() == n,
                rs == self.spec_ranges(),
                nr == self.spec_next(),
                self.next_holding == old(self).next_holding,
                self.next_input == old(self).next_input,
                self.holding@ == old(self).holding@,
                self.input@ == old(self).input@,
                0 <= nr < rs.len(),
                ms == rs[nr].1.members@,
                st == rs[nr].1.start,
                start == st,
                self.queue_pos <= q0.len(),
                self.individual_pos <= self.individual@.len(),
                self.queue@.len() >= q0.len(),
                self.queue@.subrange(0, q0.len() as int) == q0,
                old(self).queue_pos == self.queue_pos,
                old(self).individual@ == self.individual@,
                old(self).individual_pos == self.individual_pos,
                forall|i: int| 0 <= i < n && #[trigger] old_slots[i] is Some ==> self.slots@[i] is Some,
                forall|i: int|
                    0 <= i < n ==> (#[trigger] self.slots@[i] == old_slots[i] || (read is Ok
                        && exists|k: int|
                        0 <= k < j && ms[k].idx == i && ms[k].addr >= st && slot_view(self.slots@[i])
                            == Some(member_result(read->Ok_0@, st, ms[k], metrics@[i])))),
                forall|i: int|
                    0 <= i < n ==> (#[trigger] self.slots@[i] is Some || in_ranges_from(rs, nr + 1, i)
                        || in_list_from(self.queue@, self.queue_pos as int, i) || in_list_from(
                        self.individual@,
                        self.individual_pos as int,
                        i,
                    ) || exists|k: int| j <= k < ms.len() && #[trigger] ms[k].idx == i),
            decreases members@.len() - j,
        {
            let m = members[j];
            let ghost before_slots = self.slots@;
            let ghost before_q = self.queue@;
            if m.idx < n {
                let decoded = match &read {
                    Ok(regs) => m.addr >= start,
                    Err(_) => false,
                };
                if decoded {
                    let metric = &metrics[m.idx];
                    let dt = map_data_type(metric.data_type);
                    let bo = map_byte_order(metric.byte_order);
                    let res: Result<RawValue, String> = match &read {
                        Ok(regs) => match decode_member(regs.as_slice(), start, m, dt, bo) {
                            Ok(v) => Ok(v),
                            Err(e) => Err(e.message()),
                        },
                        Err(e) => Err(e.clone()),
                    };
                    self.slots.set(m.idx, Some(res));
                    proof {
                        assert(slot_view(self.slots@[m.idx as int]) == Some(
                            member_result(read->Ok_0@, st, ms[j as int], metrics@[m.idx as int]),
                        ));
                        assert forall|i: int| 0 <= i < n implies (#[trigger] self.slots@[i] == old_slots[i]
                            || (read is Ok && exists|k: int|
                            0 <= k < j + 1 && ms[k].idx == i && ms[k].addr >= st && slot_view(
                                self.slots@[i],
                            ) == Some(member_result(read->Ok_0@, st, ms[k], metrics@[i])))) by {
                            if i != m.idx as int {
                                assert(self.slots@[i] == before_slots[i]);
                            }
                        }
                    }
                } else {
                    self.queue.push(m.idx);
                    proof {
                        assert(self.queue@[before_q.len() as int] == m.idx);
                        assert(in_list_from(self.queue@, self.queue_pos as int, m.idx as int));
                    }
                }
            }
            proof {
                assert(self.queue@.subrange(0, q0.len() as int) =~= before_q.subrange(0, q0.len() as int));
                assert forall|i: int| 0 <= i < n implies (#[trigger] self.slots@[i] is Some
                    || in_ranges_from(rs, nr + 1, i) || in_list_from(self.queue@, self.queue_pos as int, i)
                    || in_list_from(self.individual@, self.individual_pos as int, i) || exists|k: int|
                    j + 1 <= k < ms.len() && #[trigger] ms[k].idx == i) by {
                    if before_slots[i] is Some {
                        assert(self.slots@[i] is Some);
                    } else if in_list_from(before_q, self.queue_pos as int, i) {
                        let w = choose|w: int| self.queue_pos <= w < before_q.len() && #[trigger] before_q[w] == i;
                        assert(self.queue@[w] == before_q[w]);
                    } else if (exists|k: int| j <= k < ms.len() && #[trigger] ms[k].idx == i) {
                        let k = choose|k: int| j <= k < ms.len() && #[trigger] ms[k].idx == i;
                        if k == j {
                            assert(ms[j as int] == m);
                            if !(self.slots@[i] is Some) {
                                assert(self.queue@[before_q.len() as int] == m.idx);
                                assert(in_list_from(self.queue@, self.queue_pos as int, i));
                            }
                        } else {
                            assert(j + 1 <= k);
                        }
                    }
                }
            }
            j = j + 1;
        }
        if self.next_holding < self.holding.len() {
            self.next_holding = self.next_holding + 1;
        } else {
            self.next_input = self.next_input + 1;
        }
        proof {
            assert(self.spec_ranges() == rs);
            assert forall|i: int| 0 <= i < self.slots@.len() implies (#[trigger] self.slots@[i] is Some
                || in_ranges_from(self.spec_ranges(), self.spec_next(), i) || in_list_from(
                self.queue@,
                self.queue_pos as int,
                i,
            ) || in_list_from(self.individual@, self.individual_pos as int, i)) by {
                assert(!(exists|k: int| ms.len() <= k < ms.len() && #[trigger] ms[k].idx == i));
            }
        }
    }
}

impl BatchRun {
    /// Hands in the result of the single read that `next_request` asked
    /// for; it lands in that metric's slot.
    pub fn single_done(&mut self, result: Result<RawValue, String>)
        requires
            old(self).wf(),
        ensures
            final(self).wf(),
            final(self).spec_slots().len() == old(self).spec_slots().len(),
            forall|i: int|
                0 <= i < old(self).spec_slots().len() && #[trigger] old(self).spec_slots()[i] is Some
                    ==> final(self).spec_slots()[i] is Some,
            forall|i: int|
                0 <= i < old(self).spec_slots().len() ==> #[trigger] final(self).spec_slots()[i]
                    == old(self).spec_slots()[i] || final(self).spec_slots()[i] == Some(result),
            old(self).next_single() matches Some(idx) ==> (idx < old(self).spec_slots().len()
                ==> final(self).spec_slots()[idx as int] == Some(result)),
    {
        let ghost before = self.slots@;
        if self.queue_pos < self.queue.len() {
            let idx = self.queue[self.queue_pos];
            if idx < self.slots.len() {
                self.slots.set(idx, Some(result));
            }
            self.queue_pos = self.queue_pos + 1;
            proof {
                assert forall|i: int| 0 <= i < self.slots@.len() implies (#[trigger] self.slots@[i] is Some
                    || in_ranges_from(self.spec_ranges(), self.spec_next(), i) || in_list_from(
                    self.queue@,
                    self.queue_pos as int,
                    i,
                ) || in_list_from(self.individual@, self.individual_pos as int, i)) by {
                    if !(before[i] is Some) && in_list_from(self.queue@, self.queue_pos - 1, i) {
                        let w = choose|w: int| self.queue_pos - 1 <= w < self.queue@.len() && #[trigger] self.queue@[w] == i;
                        if w == self.queue_pos - 1 {
                            assert(self.slots@[i] is Some);
                        }
                    }
                }
            }
        } else if self.next_holding < self.holding.len() || self.next_input < self.input.len() {
        } else if self.individual_pos < self.individual.len() {
            let idx = self.individual[self.individual_pos];
            if idx < self.slots.len() {
                self.slots.set(idx, Some(result));
            }
            self.individual_pos = self.individual_pos + 1;
            proof {
                assert forall|i: int| 0 <= i < self.slots@.len() implies (#[trigger] self.slots@[i] is Some
                    || in_ranges_from(self.spec_ranges(), self.spec_next(), i) || in_list_from(
                    self.queue@,
                    self.queue_pos as int,
                    i,
                ) || in_list_from(self.individual@, self.individual_pos as int, i)) by {
                    if !(before[i] is Some) && in_list_from(self.individual@, self.individual_pos - 1, i) {
                        let w = choose|w: int| self.individual_pos - 1 <= w < self.individual@.len() && #[trigger] self.individual@[w] == i;
                        if w == self.individual_pos - 1 {
                            assert(self.slots@[i] is Some);
                        }
                    }
                }
            }
        }
    }

    /// The metric of the single read `next_request` asks for, if it asks for one.
    pub closed spec fn next_single(&self) -> Option<usize> {
        if self.queue_pos < self.queue@.len() {
            Some(self.queue@[self.queue_pos as int])
        } else if self.next_holding < self.holding@.len() || self.next_input < self.input@.len() {
            None
        } else if self.individual_pos < self.individual@.len() {
            Some(self.individual@[self.individual_pos as int])
        } else {
            None
        }
    }

    /// The results, one per metric, in metric order; a metric that was
    /// never read gets "metric '<name>' not processed".
    pub fn finish(self, metrics: &[Metric]) -> (out: Vec<Result<RawValue, String>>)
        requires
            self.spec_slots().len() == metrics@.len(),
        ensures
            out@.len() == metrics@.len(),
            forall|i: int|
                0 <= i < metrics@.len() ==> (#[trigger] self.spec_slots()[i] matches Some(r) ==> out@[i]
                    == r),
            forall|i: int|
                0 <= i < metrics@.len() ==> (#[trigger] self.spec_slots()[i] is None ==> (out@[i] matches Err(
                    e,
                ) && e@ == "metric '"@ + metrics@[i].name@ + "' not processed"@)),
    {
        let ghost slots0 = self.slots@;
        let mut slots = self.slots;
        let mut out: Vec<Result<RawValue, String>> = Vec::new();
        let n = slots.len();
        let mut i: usize = 0;
        while i < n
            invariant
                n == slots@.len(),
                n == metrics@.len(),
                slots@ == slots0,
                i <= n,
                out@.len() == i,
                forall|q: int| 0 <= q < i ==> (#[trigger] slots0[q] matches Some(r) ==> out@[q] == r),
                forall|q: int|
                    0 <= q < i ==> (#[trigger] slots0[q] is None ==> (out@[q] matches Err(e) && e@
                        == "metric '"@ + metrics@[q].name@ + "' not processed"@)),
            decreases n - i,
        {
            let r = match &slots[i] {
                Some(Ok(v)) => Ok(*v),
                Some(Err(e)) => Err(e.clone()),
                None => {
                    let mut e = String::from_str("metric '");
                    e.append(metrics[i].name.as_str());
                    e.append("' not processed");
                    Err(e)
                },
            };
            out.push(r);
            i = i + 1;
        }
        out
    }
}

/// A slot read as plain values.
pub open spec fn slot_view(o: Option<Result<RawValue, String>>) -> Option<Result<RawValue, Seq<char>>> {
    match o {
        Some(Ok(v)) => Some(Ok(v)),
        Some(Err(e)) => Some(Err(e@)),
        None => None,
    }
}

/// What decoding member `m` (metric `metric`) out of a range read that
/// started at `start` gives, with the decoding error as text.
pub open spec fn member_result(regs: Seq<u16>, start: u16, m: IndexedMetric, metric: Metric) -> Result<
    RawValue,
    Seq<char>,
> {
    match spec_decode_member(
        regs,
        start,
        m,
        spec_map_data_type(metric.data_type),
        spec_map_byte_order(metric.byte_order),
    ) {
        Ok(v) => Ok(v),
        Err(e) => Err(decode_message(e)),
    }
}

proof fn lemma_flatten_contains(rs: Seq<RangeModel>, x: IndexedMetric)
    requires
        flatten_members(rs).contains(x),
    ensures
        exists|r: int, k: int| 0 <= r < rs.len() && 0 <= k < rs[r].2.len() && rs[r].2[k] == x,
    decreases rs.len(),
{
    let front = flatten_members(rs.drop_last());
    let w = choose|w: int| 0 <= w < flatten_members(rs).len() && flatten_members(rs)[w] == x;
    if w < front.len() {
        assert(front[w] == x);
        lemma_flatten_contains(rs.drop_last(), x);
        let (r, k) = choose|r: int, k: int|
            0 <= r < rs.drop_last().len() && 0 <= k < rs.drop_last()[r].2.len() && rs.drop_last()[r].2[k] == x;
        assert(rs[r] == rs.drop_last()[r]);
    } else {
        let k = w - front.len();
        assert(rs.last().2[k] == x);
        assert(rs[rs.len() - 1] == rs.last());
    }
}


} // verus!
