use bus_exporter::batch::{coalesce, decode_range, plan_batch, BatchRequest, BatchRun, IndexedMetric};
use bus_exporter::config::RegisterType;
use bus_exporter::config::{ByteOrder, DataType, Metric, MetricType};
use bus_exporter::decoder::{DecodeError, RawValue};

fn item(idx: usize, addr: u16, count: u16) -> IndexedMetric {
    IndexedMetric { idx, addr, count }
}

#[test]
fn test_coalesce_adjacent_ranges_merged() {
    let items = vec![item(0, 0, 1), item(1, 1, 1), item(2, 2, 1)];
    let ranges = coalesce(items);
    assert_eq!(ranges.len(), 1);
    assert_eq!(ranges[0].start, 0);
    assert_eq!(ranges[0].end, 3);
    assert_eq!(ranges[0].members.len(), 3);
}

#[test]
fn test_coalesce_gap_within_threshold() {
    let items = vec![item(0, 0, 1), item(1, 10, 1)];
    let ranges = coalesce(items);
    // gap = 10 - 1 = 9 <= 10, should merge
    assert_eq!(ranges.len(), 1);
    assert_eq!(ranges[0].start, 0);
    assert_eq!(ranges[0].end, 11);
}

#[test]
fn test_coalesce_gap_exceeds_threshold() {
    let items = vec![item(0, 0, 1), item(1, 12, 1)];
    let ranges = coalesce(items);
    // gap = 12 - 1 = 11 > 10, should NOT merge
    assert_eq!(ranges.len(), 2);
}

#[test]
fn test_coalesce_overlapping_ranges() {
    let items = vec![item(0, 0, 2), item(1, 1, 2)];
    let ranges = coalesce(items);
    assert_eq!(ranges.len(), 1);
    assert_eq!(ranges[0].start, 0);
    assert_eq!(ranges[0].end, 3);
}

#[test]
fn test_coalesce_empty() {
    let ranges = coalesce(vec![]);
    assert!(ranges.is_empty());
}

#[test]
fn test_coalesce_single() {
    let ranges = coalesce(vec![item(0, 5, 1)]);
    assert_eq!(ranges.len(), 1);
    assert_eq!(ranges[0].start, 5);
    assert_eq!(ranges[0].end, 6);
}

#[test]
fn test_coalesce_splits_at_125_register_limit() {
    // Metric A: addr 0, count 1 (U16); metric B: addr 124, count 2 (U32)
    // => merged count would be 126 > 125
    let ranges = coalesce(vec![item(0, 0, 1), item(1, 124, 2)]);
    assert_eq!(
        ranges.len(),
        2,
        "metrics spanning >125 registers should produce 2 ranges"
    );
    assert_eq!(ranges[0].start, 0);
    assert_eq!(ranges[0].end, 1);
    assert_eq!(ranges[1].start, 124);
    assert_eq!(ranges[1].end, 126);
}

#[test]
fn coalesce_exactly_125_registers_merges() {
    // a chain of reads 10 registers apart spanning exactly 125 registers
    let mut items: Vec<IndexedMetric> = (0..12).map(|i| item(i, (i * 10) as u16, 1)).collect();
    items.push(item(12, 120, 5));
    let ranges = coalesce(items.clone());
    assert_eq!(ranges.len(), 1);
    assert_eq!(ranges[0].count(), 125);
    assert_eq!(ranges[0].members.len(), 13);
    // one register more splits the last read off
    items.pop();
    items.push(item(12, 120, 6));
    let ranges = coalesce(items);
    assert_eq!(ranges.len(), 2);
    assert_eq!(ranges[1].start, 120);
    assert_eq!(ranges[1].end, 126);
}

#[test]
fn coalesced_ranges_start_at_first_member_and_end_at_furthest_member() {
    // the second item ends inside the first; the third reaches furthest
    let ranges = coalesce(vec![item(0, 5, 4), item(1, 6, 1), item(2, 8, 4), item(3, 40, 2)]);
    assert_eq!(ranges.len(), 2);
    assert_eq!(ranges[0].start, 5);
    assert_eq!(ranges[0].end, 12);
    assert_eq!(ranges[0].members.len(), 3);
    assert_eq!(ranges[1].start, 40);
    assert_eq!(ranges[1].end, 42);
    // maximal: the gap 40 - 12 = 28 exceeds 10, so the last item could not join
    assert!(ranges[1].members[0].addr - ranges[0].end > 10);
}

fn reg_metric(name: &str, address: u16, dt: DataType) -> Metric {
    Metric {
        name: name.to_string(),
        description: String::new(),
        metric_type: MetricType::Gauge,
        register_type: None,
        address: Some(address),
        data_type: dt,
        byte_order: ByteOrder::BigEndian,
        scale_bits: 1.0f64.to_bits(),
        offset_bits: 0,
        unit: String::new(),
        command: Vec::new(),
        response_length: None,
        response_offset: 0,
    }
}

#[test]
fn decode_range_decodes_each_member_from_its_offset() {
    let metrics = vec![
        reg_metric("a", 10, DataType::U16),
        reg_metric("b", 12, DataType::U32),
        reg_metric("c", 11, DataType::I16),
    ];
    let plan = plan_batch(&metrics);
    assert_eq!(plan.holding.len(), 1);
    let range = &plan.holding[0];
    assert_eq!(range.start, 10);
    assert_eq!(range.end, 14);
    let regs = vec![0x0102, 0xFFFF, 0x0001, 0x0002];
    let out = decode_range(&regs, range, &metrics);
    assert_eq!(out.len(), 3);
    // members come in address order: a (10), c (11), b (12)
    assert_eq!(out[0], (0, Ok(RawValue::Unsigned(0x0102))));
    assert_eq!(out[1], (2, Ok(RawValue::Signed(-1))));
    assert_eq!(out[2], (1, Ok(RawValue::Unsigned(0x0001_0002))));
}

#[test]
fn decode_range_reports_a_short_response() {
    let metrics = vec![reg_metric("a", 0, DataType::U16), reg_metric("b", 1, DataType::U32)];
    let plan = plan_batch(&metrics);
    let range = &plan.holding[0];
    let out = decode_range(&[7, 8], range, &metrics);
    assert_eq!(out.len(), 2);
    assert_eq!(out[0], (0, Ok(RawValue::Unsigned(7))));
    assert_eq!(out[1].0, 1);
    assert!(matches!(out[1].1, Err(DecodeError::InsufficientRegisters { expected: 2, got: 1 })));
}

/// Drives a batch run against a register map; ranges listed in `failing`
/// (by start address) fail.
fn drive(metrics: &[Metric], regs: &[u16], failing: &[u16]) -> (Vec<Result<RawValue, String>>, Vec<BatchRequest>) {
    let mut run = BatchRun::new(metrics);
    let mut requests = Vec::new();
    loop {
        let req = run.next_request();
        requests.push(req);
        match req {
            BatchRequest::Done => break,
            BatchRequest::ReadRange { start, count, .. } => {
                if failing.contains(&start) {
                    run.range_done(Err("exception".to_string()), metrics);
                } else {
                    let words = regs[start as usize..(start + count) as usize].to_vec();
                    run.range_done(Ok(words), metrics);
                }
            }
            BatchRequest::ReadSingle(idx) => {
                let m = &metrics[idx];
                let v = match m.register_type {
                    Some(RegisterType::Coil) => RawValue::Bool(true),
                    _ => RawValue::Unsigned(regs[m.address.unwrap() as usize] as u64),
                };
                run.single_done(Ok(v));
            }
        }
    }
    (run.finish(metrics), requests)
}

#[test]
fn batch_run_gives_every_metric_a_result() {
    let mut no_addr = reg_metric("none", 0, DataType::U16);
    no_addr.address = None;
    let mut coil = reg_metric("coil", 3, DataType::Bool);
    coil.register_type = Some(RegisterType::Coil);
    let metrics = vec![reg_metric("a", 1, DataType::U16), no_addr, coil, reg_metric("b", 2, DataType::U16)];
    let regs: Vec<u16> = (0..64).map(|i| i * 10).collect();
    let (out, reqs) = drive(&metrics, &regs, &[]);
    assert_eq!(out[0], Ok(RawValue::Unsigned(10)));
    assert_eq!(out[1], Err("metric 'none' has no address".to_string()));
    assert_eq!(out[2], Ok(RawValue::Bool(true)));
    assert_eq!(out[3], Ok(RawValue::Unsigned(20)));
    assert_eq!(
        reqs,
        vec![
            BatchRequest::ReadRange { holding: true, start: 1, count: 2 },
            BatchRequest::ReadSingle(2),
            BatchRequest::Done
        ]
    );
}

#[test]
fn failed_range_falls_back_to_single_reads_before_the_next_range() {
    let mut inp = reg_metric("in", 40, DataType::U16);
    inp.register_type = Some(RegisterType::Input);
    let metrics = vec![reg_metric("a", 1, DataType::U16), reg_metric("b", 2, DataType::U16), inp];
    let regs: Vec<u16> = (0..64).map(|i| i * 10).collect();
    let (out, reqs) = drive(&metrics, &regs, &[1]);
    assert_eq!(out, vec![Ok(RawValue::Unsigned(10)), Ok(RawValue::Unsigned(20)), Ok(RawValue::Unsigned(400))]);
    assert_eq!(
        reqs,
        vec![
            BatchRequest::ReadRange { holding: true, start: 1, count: 2 },
            BatchRequest::ReadSingle(0),
            BatchRequest::ReadSingle(1),
            BatchRequest::ReadRange { holding: false, start: 40, count: 1 },
            BatchRequest::Done
        ]
    );
}

#[test]
fn unfinished_batch_reports_unprocessed_metrics() {
    let metrics = vec![reg_metric("a", 1, DataType::U16)];
    let run = BatchRun::new(&metrics);
    let out = run.finish(&metrics);
    assert_eq!(out, vec![Err("metric 'a' not processed".to_string())]);
}
