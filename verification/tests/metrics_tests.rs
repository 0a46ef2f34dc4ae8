use std::time::{SystemTime, UNIX_EPOCH};

use bus_exporter::store::{MetricStore, MetricType, MetricValue};

fn now_nanos() -> u64 {
    SystemTime::now().duration_since(UNIX_EPOCH).unwrap().as_nanos() as u64
}

fn make_metric(name: &str, value: f64, metric_type: MetricType) -> MetricValue {
    MetricValue {
        name: name.to_string(),
        value_bits: value.to_bits(),
        metric_type,
        labels: Vec::new(),
        description: name.to_string(),
        unit: String::new(),
        updated_at_nanos: now_nanos(),
    }
}

fn value(m: &MetricValue) -> f64 {
    f64::from_bits(m.value_bits)
}

fn label<'a>(m: &'a MetricValue, key: &str) -> Option<&'a String> {
    m.labels.iter().rev().find(|(k, _)| k == key).map(|(_, v)| v)
}

#[test]
fn test_publish_and_read() {
    let mut store = MetricStore::new();
    let global = Vec::new();
    let coll_labels = Vec::new();

    store.publish(
        "collector1",
        vec![make_metric("temp", 22.5, MetricType::Gauge)],
        &global,
        &coll_labels,
    );

    let all = store.all_metrics_flat();
    assert_eq!(all.len(), 1);
    assert!((value(&all[0]) - 22.5).abs() < f64::EPSILON);
    assert_eq!(label(&all[0], "collector").unwrap(), "collector1");
    assert_eq!(all[0].name, "temp");
}

#[test]
fn test_cache_overwrite() {
    let mut store = MetricStore::new();
    let g = Vec::new();
    let c = Vec::new();

    store.publish("c1", vec![make_metric("a", 1.0, MetricType::Gauge)], &g, &c);
    store.publish("c1", vec![make_metric("b", 2.0, MetricType::Gauge)], &g, &c);

    let all = store.all_metrics_flat();
    assert_eq!(all.len(), 1);
    assert!((value(&all[0]) - 2.0).abs() < f64::EPSILON);
}

#[test]
fn test_label_merging_precedence() {
    let mut store = MetricStore::new();

    let global = vec![
        ("env".to_string(), "prod".to_string()),
        ("region".to_string(), "us-east".to_string()),
    ];
    let coll_labels = vec![("region".to_string(), "eu-west".to_string())];

    let mut metric = make_metric("voltage", 230.0, MetricType::Gauge);
    metric.labels.push(("region".to_string(), "ap-south".to_string()));
    metric.unit = "V".to_string();

    store.publish("plc1", vec![metric], &global, &coll_labels);

    let all = store.all_metrics_flat();
    assert_eq!(all.len(), 1);
    assert_eq!(label(&all[0], "region").unwrap(), "ap-south");
    assert_eq!(label(&all[0], "env").unwrap(), "prod");
    assert_eq!(label(&all[0], "collector").unwrap(), "plc1");
    // unit must NOT be in labels
    assert!(label(&all[0], "unit").is_none());
    // unit is on the struct field instead
    assert_eq!(all[0].unit, "V");
}

#[test]
fn test_gauge_vs_counter() {
    let mut store = MetricStore::new();
    let g = Vec::new();
    let c = Vec::new();

    store.publish(
        "c1",
        vec![
            make_metric("temperature", 25.0, MetricType::Gauge),
            make_metric("total_energy", 1000.0, MetricType::Counter),
        ],
        &g,
        &c,
    );

    let all = store.all_metrics_flat();
    assert_eq!(all.len(), 2);
}

#[test]
fn test_multiple_collectors() {
    let mut store = MetricStore::new();
    let g = Vec::new();
    let c = Vec::new();

    store.publish("c1", vec![make_metric("a", 1.0, MetricType::Gauge)], &g, &c);
    store.publish("c2", vec![make_metric("b", 2.0, MetricType::Gauge)], &g, &c);

    assert_eq!(store.collector_count(), 2);
    assert_eq!(store.all_metrics_flat().len(), 2);
    assert_eq!(store.metrics_for("c1").len(), 1);
    assert_eq!(store.metrics_for("c2").len(), 1);
    assert!(store.metrics_for("c3").is_empty());
}

#[test]
fn test_unit_not_in_labels() {
    let mut store = MetricStore::new();
    let g = Vec::new();
    let c = Vec::new();

    // With empty unit
    store.publish("c1", vec![make_metric("temp", 1.0, MetricType::Gauge)], &g, &c);
    let all = store.all_metrics_flat();
    assert!(label(&all[0], "unit").is_none());

    // With non-empty unit — still should NOT be in labels
    let mut m = make_metric("voltage", 230.0, MetricType::Gauge);
    m.unit = "V".to_string();
    store.publish("c2", vec![m], &g, &c);
    for metric in store.metrics_for("c2") {
        assert!(label(&metric, "unit").is_none());
        assert_eq!(metric.unit, "V");
    }
}

#[test]
fn test_dedup_by_name() {
    let mut store = MetricStore::new();
    let g = Vec::new();
    let c = Vec::new();

    // Publish two metrics with the same name — should dedup to one
    store.publish(
        "c1",
        vec![
            make_metric("temp", 1.0, MetricType::Gauge),
            make_metric("temp", 2.0, MetricType::Gauge),
        ],
        &g,
        &c,
    );

    let all = store.all_metrics_flat();
    assert_eq!(all.len(), 1);
    // Last one wins
    assert!((value(&all[0]) - 2.0).abs() < f64::EPSILON);
}

#[test]
fn test_all_metrics_returns_arcs() {
    let mut store = MetricStore::new();
    let g = Vec::new();
    let c = Vec::new();
    store.publish("c1", vec![make_metric("a", 1.0, MetricType::Gauge)], &g, &c);

    let snapshots = store.all_metrics();
    assert_eq!(snapshots.len(), 1);
    assert_eq!(snapshots[0].len(), 1);
}

#[test]
fn test_remove_collector() {
    let mut store = MetricStore::new();
    let g = Vec::new();
    let c = Vec::new();

    store.publish("c1", vec![make_metric("a", 1.0, MetricType::Gauge)], &g, &c);
    store.publish("c2", vec![make_metric("b", 2.0, MetricType::Gauge)], &g, &c);
    assert_eq!(store.collector_count(), 2);

    assert!(store.remove_collector("c1"));
    assert_eq!(store.collector_count(), 1);
    assert!(store.metrics_for("c1").is_empty());

    // Removing non-existent returns false
    assert!(!store.remove_collector("c1"));
}

#[test]
fn test_systemtime_timestamp() {
    let before = now_nanos();
    let m = make_metric("t", 1.0, MetricType::Gauge);
    let after = now_nanos();

    assert!(m.updated_at_nanos >= before);
    assert!(m.updated_at_nanos <= after);
}

#[test]
fn publish_other_collector_leaves_first_untouched() {
    let mut store = MetricStore::new();
    let g = vec![("site".to_string(), "north".to_string())];
    store.publish("c1", vec![make_metric("a", 1.0, MetricType::Gauge)], &g, &Vec::new());
    store.publish("c2", vec![make_metric("b", 2.0, MetricType::Counter)], &g, &Vec::new());
    let c1 = store.metrics_for("c1");
    assert_eq!(c1.len(), 1);
    assert_eq!(c1[0].name, "a");
    assert_eq!(label(&c1[0], "site").unwrap(), "north");
    assert_eq!(label(&c1[0], "collector").unwrap(), "c1");
}

#[test]
fn metrics_tests_test_multiple_collectors() {
    let mut store = MetricStore::new();
    let g = Vec::new();
    let c = Vec::new();

    store.publish("c1", vec![make_metric("a", 1.0, MetricType::Gauge)], &g, &c);
    store.publish("c2", vec![make_metric("b", 2.0, MetricType::Gauge)], &g, &c);

    assert_eq!(store.collector_count(), 2);
    assert_eq!(store.all_metrics_flat().len(), 2);
    assert_eq!(store.metrics_for("c1").len(), 1);
    assert_eq!(store.metrics_for("c2").len(), 1);
    assert!(store.metrics_for("c3").is_empty());
}

#[test]
fn metric_store_publish_and_read() {
    let mut store = MetricStore::new();
    let global = vec![("env".to_string(), "test".to_string())];
    let collector_labels = Vec::new();

    let metric = MetricValue {
        name: "temp".to_string(),
        value_bits: 22.5f64.to_bits(),
        metric_type: MetricType::Gauge,
        labels: vec![("sensor".to_string(), "s1".to_string())],
        description: "Temperature".to_string(),
        unit: "C".to_string(),
        updated_at_nanos: now_nanos(),
    };

    store.publish("c1", vec![metric], &global, &collector_labels);
    let flat = store.all_metrics_flat();
    assert_eq!(flat.len(), 1);
    assert!((value(&flat[0]) - 22.5).abs() < f64::EPSILON);
    assert!(label(&flat[0], "env").is_some());
    assert!(label(&flat[0], "sensor").is_some());
}
