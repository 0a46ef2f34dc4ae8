use bus_exporter::collector::{
    classify_read_failure, exceeds_warn_threshold, merge_cycle, next_backoff, record_read,
    remaining_sleep_ms, ErrorCounts, MetricCache, ReadFailure,
};
use bus_exporter::config::{ByteOrder, DataType, Metric, MetricType};

fn metric(name: &str) -> Metric {
    Metric {
        name: name.to_string(),
        description: format!("{name} desc"),
        metric_type: MetricType::Gauge,
        register_type: None,
        address: Some(0),
        data_type: DataType::U16,
        byte_order: ByteOrder::BigEndian,
        scale_bits: 1.0f64.to_bits(),
        offset_bits: 0,
        unit: "V".to_string(),
        command: Vec::new(),
        response_length: None,
        response_offset: 0,
    }
}

fn find<'a>(ms: &'a [bus_exporter::store::MetricValue], name: &str) -> &'a bus_exporter::store::MetricValue {
    ms.iter().find(|m| m.name == name).unwrap()
}

#[test]
fn backoff_doubles_to_a_minute() {
    assert_eq!(next_backoff(1000), 2000);
    assert_eq!(next_backoff(32000), 60000);
    assert_eq!(next_backoff(60000), 60000);
}

#[test]
fn poll_timing() {
    assert_eq!(remaining_sleep_ms(300, 1000), Some(700));
    assert_eq!(remaining_sleep_ms(1000, 1000), None);
    assert!(exceeds_warn_threshold(801, 1000));
    assert!(!exceeds_warn_threshold(800, 1000));
    assert_eq!(classify_read_failure(true), ReadFailure::MetricFailed);
    assert_eq!(classify_read_failure(false), ReadFailure::ConnectionLost);
}

#[test]
fn failed_metric_keeps_previous_value_and_counts_errors() {
    let a = metric("a");
    let b = metric("b");
    // cycle 1: both read
    let mut local = MetricCache::new();
    record_read(&mut local, &a, 1.0f64.to_bits(), 10);
    record_read(&mut local, &b, 2.0f64.to_bits(), 10);
    let errors = ErrorCounts::new();
    let prev = merge_cycle(local, &MetricCache::new(), &errors, 10);
    assert_eq!(prev.len(), 2);
    // cycle 2: b fails twice over two cycles
    let mut errors = errors;
    assert_eq!(errors.record_failure(&"b".to_string()), 1);
    let mut local = MetricCache::new();
    record_read(&mut local, &a, 3.0f64.to_bits(), 20);
    let cur = merge_cycle(local, &prev, &errors, 20);
    let vals = cur.values();
    assert_eq!(vals.len(), 3);
    assert_eq!(f64::from_bits(find(&vals, "a").value_bits), 3.0);
    let carried = find(&vals, "b");
    assert_eq!(f64::from_bits(carried.value_bits), 2.0);
    assert_eq!(carried.updated_at_nanos, 20);
    let counter = find(&vals, "b_errors");
    assert_eq!(f64::from_bits(counter.value_bits), 1.0);
    assert_eq!(counter.description, "Error count for metric b");
    assert_eq!(counter.metric_type, bus_exporter::store::MetricType::Counter);
    assert_eq!(errors.record_failure(&"b".to_string()), 2);
    let next = merge_cycle(MetricCache::new(), &cur, &errors, 30);
    let vals = next.values();
    assert_eq!(f64::from_bits(find(&vals, "b_errors").value_bits), 2.0);
    assert_eq!(find(&vals, "a").updated_at_nanos, 30);
}
