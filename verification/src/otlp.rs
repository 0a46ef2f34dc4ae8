//! OTLP `ExportMetricsServiceRequest` encoding (protobuf wire format) and the
//! retry policy of the HTTP push.
//!
//! The encoder is hand-rolled: varints, length-delimited fields and fixed64
//! fields, nested as `metrics_service.proto` and `metrics.proto` describe.

use vstd::prelude::*;
use vstd::utf8::encode_utf8;

use crate::labels::{sort_by_key, sorted_labels};
use crate::store::{MetricType, MetricValue, MetricValueView, views_of};
use crate::text::{decimal, push_decimal};

verus! {

// ── Wire format ─────────────────────────────────────────────────────

/// Base-128 little-endian varint: seven bits per byte, high bit set on every
/// byte but the last.
pub open spec fn varint(v: nat) -> Seq<u8>
    decreases v,
{
    if v < 128 {
        seq![v as u8]
    } else {
        seq![(v % 128 + 128) as u8] + varint(v / 128)
    }
}

/// Reads one varint off the front of `b`: its value and its length.
pub open spec fn read_varint(b: Seq<u8>) -> Option<(nat, nat)>
    decreases b.len(),
{
    if b.len() == 0 {
        None
    } else if b[0] < 128 {
        Some((b[0] as nat, 1))
    } else {
        match read_varint(b.drop_first()) {
            Some((v, n)) => Some(((b[0] - 128) as nat + 128 * v, n + 1)),
            None => None,
        }
    }
}

/// The eight little-endian bytes of `v` (`u64::to_le_bytes`).
pub open spec fn le_bytes(v: nat, n: nat) -> Seq<u8>
    decreases n,
{
    if n == 0 {
        Seq::empty()
    } else {
        seq![(v % 256) as u8] + le_bytes(v / 256, (n - 1) as nat)
    }
}

/// Length-delimited field: tag (wire type 2), length, bytes.
pub open spec fn ld(field: nat, data: Seq<u8>) -> Seq<u8> {
    varint(field * 8 + 2) + varint(data.len()) + data
}

/// fixed64 field: tag (wire type 1), then the eight little-endian bytes.
pub open spec fn fixed64(field: nat, v: u64) -> Seq<u8> {
    varint(field * 8 + 1) + le_bytes(v as nat, 8)
}

/// Varint field: tag (wire type 0), then the value.
pub open spec fn varint_field(field: nat, v: nat) -> Seq<u8> {
    varint(field * 8) + varint(v)
}

/// The UTF-8 bytes of a string.
pub open spec fn utf8(s: Seq<char>) -> Seq<u8> {
    encode_utf8(s)
}

/// `KeyValue { key, value: AnyValue { string_value } }`.
pub open spec fn key_value(k: Seq<char>, v: Seq<char>) -> Seq<u8> {
    ld(1, utf8(k)) + ld(2, ld(1, utf8(v)))
}

/// Each pair as a `KeyValue` in field `field`, in the given order.
pub open spec fn attributes(ls: Seq<(String, String)>, field: nat) -> Seq<u8>
    decreases ls.len(),
{
    if ls.len() == 0 {
        Seq::empty()
    } else {
        attributes(ls.drop_last(), field) + ld(field, key_value(ls.last().0@, ls.last().1@))
    }
}

/// `NumberDataPoint`: attributes sorted by key, the start time for a counter,
/// the sample time and the value as a double.
pub open spec fn data_point(m: MetricValueView, process_start: u64) -> Seq<u8> {
    attributes(sort_by_key(m.3), 7) + (if m.2 == MetricType::Counter {
        fixed64(2, process_start)
    } else {
        Seq::empty()
    }) + fixed64(3, m.6) + fixed64(4, m.1)
}

/// `Metric`: name, description, unit, then a `Gauge` (field 5) or a
/// cumulative monotonic `Sum` (field 7) holding one data point.
pub open spec fn metric_message(m: MetricValueView, process_start: u64) -> Seq<u8> {
    ld(1, utf8(m.0)) + ld(2, utf8(m.4)) + ld(3, utf8(m.5)) + match m.2 {
        MetricType::Gauge => ld(5, ld(1, data_point(m, process_start))),
        MetricType::Counter => ld(
            7,
            ld(1, data_point(m, process_start)) + varint_field(2, 2) + varint_field(3, 1),
        ),
    }
}

/// Every metric as a `metrics` entry (field 2) of a `ScopeMetrics`.
pub open spec fn metric_entries(ms: Seq<MetricValueView>, process_start: u64) -> Seq<u8>
    decreases ms.len(),
{
    if ms.len() == 0 {
        Seq::empty()
    } else {
        metric_entries(ms.drop_last(), process_start) + ld(
            2,
            metric_message(ms.last(), process_start),
        )
    }
}

/// `ScopeMetrics`: the instrumentation scope (by name), then its metrics.
pub open spec fn scope_metrics(
    scope: Seq<char>,
    ms: Seq<MetricValueView>,
    process_start: u64,
) -> Seq<u8> {
    ld(1, ld(1, utf8(scope))) + metric_entries(ms, process_start)
}

/// `Resource` with the global labels, sorted by key, as attributes.
pub open spec fn resource(global: Seq<(String, String)>) -> Seq<u8> {
    attributes(sort_by_key(global), 1)
}

/// The request with one scope, `bus-exporter`, holding all metrics.
pub open spec fn request_bytes(
    ms: Seq<MetricValueView>,
    global: Seq<(String, String)>,
    process_start: u64,
) -> Seq<u8> {
    ld(1, ld(1, resource(global)) + ld(2, scope_metrics("bus-exporter"@, ms, process_start)))
}

/// The request with the device metrics under `bus-exporter` and the
/// exporter's own metrics under `bus-exporter-internal`.
pub open spec fn request_with_internal_bytes(
    device: Seq<MetricValueView>,
    internal: Seq<MetricValueView>,
    global: Seq<(String, String)>,
    process_start: u64,
) -> Seq<u8> {
    ld(
        1,
        ld(1, resource(global)) + ld(2, scope_metrics("bus-exporter"@, device, process_start)) + ld(
            2,
            scope_metrics("bus-exporter-internal"@, internal, process_start),
        ),
    )
}

// ── Laws of the wire format ─────────────────────────────────────────

/// A varint reads back as the value it encodes, whatever follows it.
pub proof fn lemma_varint_roundtrip(v: nat, rest: Seq<u8>)
    ensures
        read_varint(varint(v) + rest) == Some((v, varint(v).len())),
    decreases v,
{
    let b = varint(v) + rest;
    if v < 128 {
        assert(b[0] == v as u8);
    } else {
        lemma_varint_roundtrip(v / 128, rest);
        assert(b.drop_first() =~= varint(v / 128) + rest);
        assert(b[0] == (v % 128 + 128) as u8);
    }
}

/// `128` raised to the power `k`.
pub open spec fn pow128(k: nat) -> nat
    decreases k,
{
    if k == 0 {
        1
    } else {
        128 * pow128((k - 1) as nat)
    }
}

proof fn lemma_varint_len_bound(v: nat, k: nat)
    requires
        k >= 1,
        v < pow128(k),
    ensures
        varint(v).len() <= k,
    decreases k,
{
    if v >= 128 {
        let p = pow128((k - 1) as nat);
        assert(v / 128 < p) by (nonlinear_arith)
            requires
                v < 128 * p,
        ;
        assert(k - 1 >= 1) by {
            if k == 1 {
                assert(pow128(0) == 1);
            }
        }
        lemma_varint_len_bound(v / 128, (k - 1) as nat);
    }
}

/// The shape of a varint: one to ten bytes for a 64-bit value, the high bit
/// set on every byte but the last, and the encoding is the shortest one
/// (a single byte exactly for values below 128, and no empty final group).
pub proof fn lemma_varint_shape(v: nat)
    requires
        v <= 0xffff_ffff_ffff_ffff,
    ensures
        1 <= varint(v).len() <= 10,
        forall|i: int| 0 <= i < varint(v).len() - 1 ==> #[trigger] varint(v)[i] >= 128,
        varint(v).last() < 128,
        varint(v).len() == 1 <==> v < 128,
        varint(v).len() > 1 ==> varint(v).last() != 0,
    decreases v,
{
    assert(pow128(10) == 0x40_0000_0000_0000_0000) by {
        assert(pow128(0) == 1);
        assert(pow128(1) == 0x80);
        assert(pow128(2) == 0x4000);
        assert(pow128(3) == 0x20_0000);
        assert(pow128(4) == 0x1000_0000);
        assert(pow128(5) == 0x8_0000_0000);
        assert(pow128(6) == 0x400_0000_0000);
        assert(pow128(7) == 0x2_0000_0000_0000);
        assert(pow128(8) == 0x100_0000_0000_0000);
        assert(pow128(9) == 0x8000_0000_0000_0000);
    }
    lemma_varint_len_bound(v, 10);
    if v >= 128 {
        lemma_varint_shape(v / 128);
        let t = varint(v / 128);
        assert(varint(v) == seq![(v % 128 + 128) as u8] + t);
        assert forall|i: int| 0 <= i < varint(v).len() - 1 implies #[trigger] varint(v)[i] >= 128 by {
            if i > 0 {
                assert(varint(v)[i] == t[i - 1]);
            }
        }
        assert(varint(v).last() == t.last());
        if t.len() == 1 {
            assert(v / 128 >= 1);
            assert(t.last() == (v / 128) as u8);
        }
    }
}

/// Reads a length-delimited field off the front of `b`: field number,
/// payload and what follows.
pub open spec fn read_ld(b: Seq<u8>) -> Option<(nat, Seq<u8>, Seq<u8>)> {
    match read_varint(b) {
        Some((tag, n)) => if tag % 8 != 2 {
            None
        } else {
            match read_varint(b.skip(n as int)) {
                Some((len, m)) => if n + m + len > b.len() {
                    None
                } else {
                    Some(
                        (
                            tag / 8,
                            b.subrange((n + m) as int, (n + m + len) as int),
                            b.skip((n + m + len) as int),
                        ),
                    )
                },
                None => None,
            }
        },
        None => None,
    }
}

/// A length-delimited field frames its payload: reading it back gives the
/// field number, the exact payload and the rest of the buffer untouched.
pub proof fn lemma_ld_frames(field: nat, data: Seq<u8>, rest: Seq<u8>)
    ensures
        read_ld(ld(field, data) + rest) == Some((field, data, rest)),
{
    let tag = field * 8 + 2;
    let b = ld(field, data) + rest;
    let t = varint(tag);
    let l = varint(data.len());
    assert(b =~= t + (l + data + rest));
    lemma_varint_roundtrip(tag, l + data + rest);
    assert(tag % 8 == 2 && tag / 8 == field) by (nonlinear_arith)
        requires
            tag == field * 8 + 2,
    ;
    assert(b.skip(t.len() as int) =~= l + (data + rest));
    lemma_varint_roundtrip(data.len(), data + rest);
    let n = t.len();
    let m = l.len();
    assert(b.subrange((n + m) as int, (n + m + data.len()) as int) =~= data);
    assert(b.skip((n + m + data.len()) as int) =~= rest);
}

// ── Encoders ────────────────────────────────────────────────────────

/// Appends the varint encoding of `v`.
pub fn encode_varint(v: u64, buf: &mut Vec<u8>)
    ensures
        final(buf)@ == old(buf)@ + varint(v as nat),
{
    let ghost start = buf@;
    let mut x: u64 = v;
    while x >= 128
        invariant
            buf@ + varint(x as nat) == start + varint(v as nat),
        decreases x,
    {
        let ghost before = buf@;
        buf.push((x % 128) as u8 + 128);
        assert(varint(x as nat) == seq![(x % 128 + 128) as u8] + varint((x / 128) as nat));
        assert(buf@ + varint((x / 128) as nat) =~= before + varint(x as nat));
        x = x / 128;
    }
    let ghost before = buf@;
    buf.push(x as u8);
    assert(buf@ =~= before + varint(x as nat));
}

/// Appends bytes one by one.
fn append_bytes(buf: &mut Vec<u8>, data: &[u8])
    ensures
        final(buf)@ == old(buf)@ + data@,
{
    let ghost start = buf@;
    let mut i: usize = 0;
    while i < data.len()
        invariant
            i <= data@.len(),
            buf@ =~= start + data@.take(i as int),
        decreases data@.len() - i,
    {
        buf.push(data[i]);
        i = i + 1;
        assert(buf@ =~= start + data@.take(i as int));
    }
    assert(data@.take(data@.len() as int) =~= data@);
}

/// Appends a length-delimited field.
pub fn encode_ld(field: u32, data: &[u8], buf: &mut Vec<u8>)
    ensures
        final(buf)@ == old(buf)@ + ld(field as nat, data@),
{
    let ghost start = buf@;
    encode_varint((field as u64) * 8 + 2, buf);
    encode_varint(data.len() as u64, buf);
    append_bytes(buf, data);
    assert(buf@ =~= start + ld(field as nat, data@));
}

/// Appends a fixed64 field.
pub fn encode_fixed64(field: u32, v: u64, buf: &mut Vec<u8>)
    ensures
        final(buf)@ == old(buf)@ + fixed64(field as nat, v),
{
    let ghost start = buf@;
    encode_varint((field as u64) * 8 + 1, buf);
    let ghost mid = buf@;
    let mut x: u64 = v;
    let mut k: u64 = 8;
    while k > 0
        invariant
            k <= 8,
            buf@ + le_bytes(x as nat, k as nat) == mid + le_bytes(v as nat, 8),
        decreases k,
    {
        let ghost before = buf@;
        buf.push((x % 256) as u8);
        assert(le_bytes(x as nat, k as nat) == seq![(x % 256) as u8] + le_bytes(
            (x / 256) as nat,
            (k - 1) as nat,
        ));
        assert(buf@ + le_bytes((x / 256) as nat, (k - 1) as nat) =~= before + le_bytes(
            x as nat,
            k as nat,
        ));
        x = x / 256;
        k = k - 1;
    }
    assert(buf@ =~= start + fixed64(field as nat, v));
}

/// Appends a varint field.
pub fn encode_varint_field(field: u32, v: u64, buf: &mut Vec<u8>)
    ensures
        final(buf)@ == old(buf)@ + varint_field(field as nat, v as nat),
{
    let ghost start = buf@;
    encode_varint((field as u64) * 8, buf);
    encode_varint(v, buf);
    assert(buf@ =~= start + varint_field(field as nat, v as nat));
}

/// Appends a `KeyValue` with a string value, as entry `field` of its parent.
pub fn encode_key_value(field: u32, key: &str, value: &str, buf: &mut Vec<u8>)
    ensures
        final(buf)@ == old(buf)@ + ld(field as nat, key_value(key@, value@)),
{
    let mut kv: Vec<u8> = Vec::new();
    encode_ld(1, key.as_bytes(), &mut kv);
    let mut any: Vec<u8> = Vec::new();
    encode_ld(1, value.as_bytes(), &mut any);
    encode_ld(2, any.as_slice(), &mut kv);
    assert(kv@ =~= key_value(key@, value@));
    encode_ld(field, kv.as_slice(), buf);
}

/// Appends every pair as a `KeyValue` entry `field`, in order.
fn encode_attributes(ls: &Vec<(String, String)>, field: u32, buf: &mut Vec<u8>)
    ensures
        final(buf)@ == old(buf)@ + attributes(ls@, field as nat),
{
    let ghost start = buf@;
    let mut i: usize = 0;
    while i < ls.len()
        invariant
            i <= ls@.len(),
            buf@ =~= start + attributes(ls@.take(i as int), field as nat),
        decreases ls@.len() - i,
    {
        let ghost before = buf@;
        encode_key_value(field, ls[i].0.as_str(), ls[i].1.as_str(), buf);
        assert(ls@.take(i + 1).drop_last() =~= ls@.take(i as int));
        i = i + 1;
        assert(buf@ =~= start + attributes(ls@.take(i as int), field as nat));
    }
    assert(ls@.take(ls@.len() as int) =~= ls@);
}

/// Encodes one `Metric` message.
///
/// `process_start` (nanoseconds since the epoch) is the start time of the
/// cumulative sum of a counter.
pub fn encode_single_metric(m: &MetricValue, process_start: u64) -> (r: Vec<u8>)
    ensures
        r@ == metric_message(m@, process_start),
{
    let mut metric: Vec<u8> = Vec::new();
    encode_ld(1, m.name.as_str().as_bytes(), &mut metric);
    encode_ld(2, m.description.as_str().as_bytes(), &mut metric);
    encode_ld(3, m.unit.as_str().as_bytes(), &mut metric);
    let ghost head = metric@;
    assert(head =~= ld(1, utf8(m.name@)) + ld(2, utf8(m.description@)) + ld(3, utf8(m.unit@)));

    let mut dp: Vec<u8> = Vec::new();
    let sorted = sorted_labels(&m.labels);
    encode_attributes(&sorted, 7, &mut dp);
    if m.metric_type == MetricType::Counter {
        encode_fixed64(2, process_start, &mut dp);
    }
    encode_fixed64(3, m.updated_at_nanos, &mut dp);
    encode_fixed64(4, m.value_bits, &mut dp);
    assert(dp@ =~= data_point(m@, process_start));

    match m.metric_type {
        MetricType::Gauge => {
            let mut gauge: Vec<u8> = Vec::new();
            encode_ld(1, dp.as_slice(), &mut gauge);
            encode_ld(5, gauge.as_slice(), &mut metric);
        },
        MetricType::Counter => {
            let mut sum: Vec<u8> = Vec::new();
            encode_ld(1, dp.as_slice(), &mut sum);
            encode_varint_field(2, 2, &mut sum);
            encode_varint_field(3, 1, &mut sum);
            assert(sum@ =~= ld(1, data_point(m@, process_start)) + varint_field(2, 2)
                + varint_field(3, 1));
            encode_ld(7, sum.as_slice(), &mut metric);
        },
    }
    assert(metric@ =~= metric_message(m@, process_start));
    metric
}

/// Encodes a `ScopeMetrics` for the named scope.
fn encode_scope_metrics(scope: &str, ms: &Vec<MetricValue>, process_start: u64) -> (r: Vec<u8>)
    ensures
        r@ == scope_metrics(scope@, views_of(ms@), process_start),
{
    let mut name: Vec<u8> = Vec::new();
    encode_ld(1, scope.as_bytes(), &mut name);
    let mut out: Vec<u8> = Vec::new();
    encode_ld(1, name.as_slice(), &mut out);
    let ghost head = out@;
    let mut i: usize = 0;
    while i < ms.len()
        invariant
            i <= ms@.len(),
            head == ld(1, ld(1, utf8(scope@))),
            out@ =~= head + metric_entries(views_of(ms@.take(i as int)), process_start),
        decreases ms@.len() - i,
    {
        let bytes = encode_single_metric(&ms[i], process_start);
        encode_ld(2, bytes.as_slice(), &mut out);
        let ghost vs = views_of(ms@.take(i + 1));
        assert(vs.drop_last() =~= views_of(ms@.take(i as int)));
        assert(vs.last() == ms@[i as int]@);
        i = i + 1;
        assert(out@ =~= head + metric_entries(views_of(ms@.take(i as int)), process_start));
    }
    assert(ms@.take(ms@.len() as int) =~= ms@);
    out
}

/// Builds the `ExportMetricsServiceRequest` for a flat list of metrics.
///
/// The global labels become resource attributes, sorted by key; every metric
/// goes under the `bus-exporter` scope.
pub fn build_request(
    metrics: &Vec<MetricValue>,
    global_labels: &Vec<(String, String)>,
    process_start: u64,
) -> (r: Vec<u8>)
    ensures
        r@ == request_bytes(views_of(metrics@), global_labels@, process_start),
{
    let mut resource_buf: Vec<u8> = Vec::new();
    let sorted = sorted_labels(global_labels);
    encode_attributes(&sorted, 1, &mut resource_buf);
    assert(resource_buf@ =~= resource(global_labels@));
    let scope = encode_scope_metrics("bus-exporter", metrics, process_start);
    let mut rm: Vec<u8> = Vec::new();
    encode_ld(1, resource_buf.as_slice(), &mut rm);
    encode_ld(2, scope.as_slice(), &mut rm);
    let mut request: Vec<u8> = Vec::new();
    encode_ld(1, rm.as_slice(), &mut request);
    assert(rm@ =~= ld(1, resource(global_labels@)) + ld(
        2,
        scope_metrics("bus-exporter"@, views_of(metrics@), process_start),
    ));
    request
}

/// Builds the request with a second scope, `bus-exporter-internal`, for the
/// exporter's own metrics.
pub fn build_request_with_internal(
    device_metrics: &Vec<MetricValue>,
    internal_metrics: &Vec<MetricValue>,
    global_labels: &Vec<(String, String)>,
    process_start: u64,
) -> (r: Vec<u8>)
    ensures
        r@ == request_with_internal_bytes(
            views_of(device_metrics@),
            views_of(internal_metrics@),
            global_labels@,
            process_start,
        ),
{
    let mut resource_buf: Vec<u8> = Vec::new();
    let sorted = sorted_labels(global_labels);
    encode_attributes(&sorted, 1, &mut resource_buf);
    assert(resource_buf@ =~= resource(global_labels@));
    let device = encode_scope_metrics("bus-exporter", device_metrics, process_start);
    let internal = encode_scope_metrics("bus-exporter-internal", internal_metrics, process_start);
    let mut rm: Vec<u8> = Vec::new();
    encode_ld(1, resource_buf.as_slice(), &mut rm);
    encode_ld(2, device.as_slice(), &mut rm);
    encode_ld(2, internal.as_slice(), &mut rm);
    let mut request: Vec<u8> = Vec::new();
    encode_ld(1, rm.as_slice(), &mut request);
    assert(rm@ =~= ld(1, resource(global_labels@)) + ld(
        2,
        scope_metrics("bus-exporter"@, views_of(device_metrics@), process_start),
    ) + ld(2, scope_metrics("bus-exporter-internal"@, views_of(internal_metrics@), process_start)));
    request
}

// ── Push endpoint and retry policy ──────────────────────────────────

/// A string with every trailing `c` removed (`str::trim_end_matches`).
pub open spec fn trim_end(s: Seq<char>, c: char) -> Seq<char>
    decreases s.len(),
{
    if s.len() > 0 && s.last() == c {
        trim_end(s.drop_last(), c)
    } else {
        s
    }
}

/// The push URL: the endpoint without trailing slashes, then `/v1/metrics`.
pub open spec fn push_url(endpoint: Seq<char>) -> Seq<char> {
    trim_end(endpoint, '/') + "/v1/metrics"@
}

/// The URL the metrics are posted to.
pub fn otlp_url(endpoint: &str) -> (url: String)
    ensures
        url@ == push_url(endpoint@),
{
    let cs = crate::text::chars_of(endpoint);
    let mut n: usize = cs.len();
    assert(cs@.take(n as int) =~= endpoint@);
    while n > 0 && cs[n - 1] == '/'
        invariant
            n <= cs@.len(),
            trim_end(cs@.take(n as int), '/') == trim_end(endpoint@, '/'),
        decreases n,
    {
        assert(cs@.take(n as int).drop_last() =~= cs@.take(n - 1));
        n = n - 1;
    }
    assert(cs@.take(n as int) == trim_end(endpoint@, '/'));
    let mut url = String::new();
    let mut i: usize = 0;
    while i < n
        invariant
            i <= n <= cs@.len(),
            url@ =~= cs@.take(i as int),
        decreases n - i,
    {
        crate::text::push_char(&mut url, cs[i]);
        i = i + 1;
        assert(url@ =~= cs@.take(i as int));
    }
    url.append("/v1/metrics");
    url
}

/// Initial delay of the push backoff, in milliseconds.
pub const BACKOFF_INITIAL_MS: u64 = 1000;

/// Largest delay of the push backoff, in milliseconds.
pub const BACKOFF_MAX_MS: u64 = 30000;

/// Attempts made before a retryable failure is reported.
pub const MAX_RETRIES: u32 = 3;

/// Exponential backoff of the push: 1 s, doubling up to 30 s, each delay
/// jittered by up to ±25 %.
#[derive(Debug, Clone, Copy)]
pub struct Backoff {
    current_ms: u64,
}

impl View for Backoff {
    type V = u64;

    /// The base delay of the next retry, in milliseconds.
    closed spec fn view(&self) -> u64 {
        self.current_ms
    }
}

/// The delay handed out for base delay `base` and jitter source `jitter`.
pub open spec fn jittered(base: u64, jitter: u64) -> int {
    let range = base / 4;
    if range == 0 {
        base as int
    } else {
        base - range + (jitter as int) % (2 * range + 1)
    }
}

/// The base delay after `base`: doubled, capped at the maximum.
pub open spec fn next_base(base: u64) -> u64 {
    if base * 2 > BACKOFF_MAX_MS {
        BACKOFF_MAX_MS
    } else {
        (base * 2) as u64
    }
}

impl Backoff {
    /// Its base delay lies between the initial delay and the maximum.
    pub closed spec fn wf(&self) -> bool {
        BACKOFF_INITIAL_MS <= self.current_ms <= BACKOFF_MAX_MS
    }

    /// A backoff at its initial delay.
    pub fn new() -> (b: Self)
        ensures
            b.wf(),
            b@ == BACKOFF_INITIAL_MS,
    {
        Backoff { current_ms: BACKOFF_INITIAL_MS }
    }

    /// The next delay in milliseconds, and the base delay doubled (capped).
    ///
    /// `jitter` is any number (the caller takes it from the clock); the delay
    /// is the base delay moved by `jitter % (2r + 1) - r`, `r` a quarter of it.
    pub fn next_delay(&mut self, jitter: u64) -> (d: u64)
        requires
            old(self).wf(),
        ensures
            final(self).wf(),
            final(self)@ == next_base(old(self)@),
            d == jittered(old(self)@, jitter),
            old(self)@ - old(self)@ / 4 <= d <= old(self)@ + old(self)@ / 4,
    {
        let base = self.current_ms;
        self.current_ms = if base * 2 > BACKOFF_MAX_MS {
            BACKOFF_MAX_MS
        } else {
            base * 2
        };
        let range = base / 4;
        if range == 0 {
            return base;
        }
        let offset = jitter % (2 * range + 1);
        base - range + offset
    }

    /// Back to the initial delay.
    pub fn reset(&mut self)
        ensures
            final(self).wf(),
            final(self)@ == BACKOFF_INITIAL_MS,
    {
        self.current_ms = BACKOFF_INITIAL_MS;
    }
}

/// What one POST of the request came back with.
#[derive(Debug, Clone)]
pub enum PushOutcome {
    /// An HTTP response: its status, its `Retry-After` in seconds if it
    /// parsed, and its body.
    Response { status: u16, retry_after_secs: Option<u64>, body: String },
    /// The request could not be made or timed out.
    RequestError { message: String },
}

/// What the push does next.
#[derive(Debug, Clone, PartialEq, Eq)]
pub enum PushStep {
    /// The collector accepted the request.
    Done,
    /// Wait this many milliseconds, then send again.
    WaitMillis(u64),
    /// Wait this many seconds (the server's `Retry-After`), then send again.
    WaitSeconds(u64),
    /// Give up with this message.
    Fail(String),
}

/// The spec view of a step: `0` done, `1` wait ms, `2` wait s, `3` fail.
pub open spec fn step_is(
    step: PushStep,
    kind: int,
    n: u64,
    msg: Seq<char>,
) -> bool {
    match step {
        PushStep::Done => kind == 0,
        PushStep::WaitMillis(ms) => kind == 1 && ms == n,
        PushStep::WaitSeconds(s) => kind == 2 && s == n,
        PushStep::Fail(m) => kind == 3 && m@ == msg,
    }
}

/// "OTLP export failed: HTTP {status} after {attempts} attempts: {body}"
pub open spec fn msg_gave_up(status: u16, attempts: u32, body: Seq<char>) -> Seq<char> {
    "OTLP export failed: HTTP "@ + decimal(status as nat) + " after "@ + decimal(attempts as nat)
        + " attempts: "@ + body
}

/// "OTLP export failed: HTTP {status}: {body}"
pub open spec fn msg_rejected(status: u16, body: Seq<char>) -> Seq<char> {
    "OTLP export failed: HTTP "@ + decimal(status as nat) + ": "@ + body
}

/// "OTLP export failed after {attempts} attempts: {error}"
pub open spec fn msg_unreachable(attempts: u32, err: Seq<char>) -> Seq<char> {
    "OTLP export failed after "@ + decimal(attempts as nat) + " attempts: "@ + err
}

/// Decides what follows attempt number `attempts` (counting from 1):
/// 2xx is done; 429 waits `Retry-After` or the backoff; 5xx and request
/// errors wait the backoff; any other status fails at once; a retryable
/// failure on the third attempt fails.
pub fn next_push_step(
    attempts: u32,
    outcome: &PushOutcome,
    backoff: &mut Backoff,
    jitter: u64,
) -> (step: PushStep)
    requires
        old(backoff).wf(),
    ensures
        final(backoff).wf(),
        match *outcome {
            PushOutcome::Response { status, retry_after_secs, body } => {
                if 200 <= status < 300 {
                    step_is(step, 0, 0, Seq::empty()) && final(backoff)@ == old(backoff)@
                } else if status == 429 || status >= 500 {
                    if attempts >= MAX_RETRIES {
                        step_is(step, 3, 0, msg_gave_up(status, attempts, body@))
                            && final(backoff)@ == old(backoff)@
                    } else if status == 429 && retry_after_secs is Some {
                        step_is(step, 2, retry_after_secs->0, Seq::empty())
                            && final(backoff)@ == old(backoff)@
                    } else {
                        step_is(step, 1, jittered(old(backoff)@, jitter) as u64, Seq::empty())
                            && final(backoff)@ == next_base(old(backoff)@)
                    }
                } else {
                    step_is(step, 3, 0, msg_rejected(status, body@)) && final(backoff)@ == old(
                        backoff,
                    )@
                }
            },
            PushOutcome::RequestError { message } => {
                if attempts >= MAX_RETRIES {
                    step_is(step, 3, 0, msg_unreachable(attempts, message@))
                        && final(backoff)@ == old(backoff)@
                } else {
                    step_is(step, 1, jittered(old(backoff)@, jitter) as u64, Seq::empty())
                        && final(backoff)@ == next_base(old(backoff)@)
                }
            },
        },
{
    match outcome {
        PushOutcome::Response { status, retry_after_secs, body } => {
            let status = *status;
            if 200 <= status && status < 300 {
                return PushStep::Done;
            }
            if status == 429 || status >= 500 {
                if attempts >= MAX_RETRIES {
                    let mut m = String::new();
                    m.append("OTLP export failed: HTTP ");
                    push_decimal(&mut m, status as u64);
                    m.append(" after ");
                    push_decimal(&mut m, attempts as u64);
                    m.append(" attempts: ");
                    m.append(body.as_str());
                    return PushStep::Fail(m);
                }
                if status == 429 {
                    if let Some(secs) = retry_after_secs {
                        return PushStep::WaitSeconds(*secs);
                    }
                }
                let d = backoff.next_delay(jitter);
                return PushStep::WaitMillis(d);
            }
            let mut m = String::new();
            m.append("OTLP export failed: HTTP ");
            push_decimal(&mut m, status as u64);
            m.append(": ");
            m.append(body.as_str());
            PushStep::Fail(m)
        },
        PushOutcome::RequestError { message } => {
            if attempts >= MAX_RETRIES {
                let mut m = String::new();
                m.append("OTLP export failed after ");
                push_decimal(&mut m, attempts as u64);
                m.append(" attempts: ");
                m.append(message.as_str());
                return PushStep::Fail(m);
            }
            let d = backoff.next_delay(jitter);
            PushStep::WaitMillis(d)
        },
    }
}


/// The push URL is the endpoint followed by `/v1/metrics`: an endpoint that
/// does not end in `/` is kept as it is, and trailing slashes make no
/// difference.
pub proof fn law_push_url(endpoint: Seq<char>)
    ensures
        (endpoint.len() == 0 || endpoint.last() != '/') ==> push_url(endpoint) == endpoint
            + "/v1/metrics"@,
        push_url(endpoint.push('/')) == push_url(endpoint),
{
    assert(endpoint.push('/').drop_last() =~= endpoint);
}

} // verus!
