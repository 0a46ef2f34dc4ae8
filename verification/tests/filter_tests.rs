use bus_exporter::config::{ByteOrder, Collector, DataType, Metric, MetricType, Protocol};
use bus_exporter::filter::{filter_collectors, select_collectors};

fn metric(name: &str) -> Metric {
    Metric {
        name: name.to_string(),
        description: String::new(),
        metric_type: MetricType::Gauge,
        register_type: None,
        address: Some(0),
        data_type: DataType::U16,
        byte_order: ByteOrder::BigEndian,
        scale_bits: 1.0f64.to_bits(),
        offset_bits: 0,
        unit: String::new(),
        command: Vec::new(),
        response_length: None,
        response_offset: 0,
    }
}

fn collector(name: &str, metrics: &[&str]) -> Collector {
    Collector {
        name: name.to_string(),
        protocol: Protocol::ModbusTcp { endpoint: "127.0.0.1:502".to_string() },
        slave_id: Some(1),
        polling_interval_ms: 1000,
        labels: Vec::new(),
        metrics_files: None,
        metrics: metrics.iter().map(|m| metric(m)).collect(),
    }
}

#[test]
fn filters_by_collector_and_metric() {
    let cs = vec![collector("inverter-1", &["volt", "amp"]), collector("meter", &["volt"])];
    let out = filter_collectors(cs, Some("^inv"), Some("amp")).unwrap();
    assert_eq!(out.len(), 1);
    assert_eq!(out[0].name, "inverter-1");
    assert_eq!(out[0].metrics.len(), 1);
    assert_eq!(out[0].metrics[0].name, "amp");
}

#[test]
fn collectors_left_without_metrics_are_dropped() {
    let cs = vec![collector("a", &["x"]), collector("b", &["y"])];
    let out = filter_collectors(cs, None, Some("y")).unwrap();
    assert_eq!(out.len(), 1);
    assert_eq!(out[0].name, "b");
    let all = filter_collectors(vec![collector("a", &["x"]), collector("e", &[])], None, None).unwrap();
    assert_eq!(all.len(), 1);
}

#[test]
fn invalid_patterns_are_reported() {
    let err = filter_collectors(vec![collector("a", &["x"])], Some("("), None).unwrap_err();
    assert!(err.starts_with("invalid --collector regex: "));
    let err = filter_collectors(vec![collector("a", &["x"])], None, Some("[")).unwrap_err();
    assert!(err.starts_with("invalid --metric regex: "));
}

#[test]
fn select_by_flags() {
    let cs = vec![collector("a", &["x", "y"]), collector("b", &["z"])];
    let out = select_collectors(cs, &vec![true, false], &vec![vec![false, true], vec![true]]);
    assert_eq!(out.len(), 1);
    assert_eq!(out[0].metrics.len(), 1);
    assert_eq!(out[0].metrics[0].name, "y");
}

fn sample_collectors() -> Vec<Collector> {
    let mut sensor = collector("sensor_a", &["temperature", "humidity"]);
    sensor.protocol = Protocol::I2c { bus: "/dev/i2c-1".to_string(), address: 0x76 };
    sensor.slave_id = None;
    let meter = collector("meter_b", &["voltage"]);
    let mut i3c = collector("sensor_i3c", &[]);
    i3c.protocol = Protocol::I3c {
        bus: "/dev/i3c-0".to_string(),
        pid: None,
        address: None,
        device_class: None,
        instance: None,
    };
    i3c.slave_id = None;
    vec![sensor, meter, i3c]
}

#[test]
fn test_collector_filter() {
    let filtered = filter_collectors(sample_collectors(), Some("sensor"), None).unwrap();
    assert_eq!(filtered.len(), 1);
    assert_eq!(filtered[0].name, "sensor_a");
}

#[test]
fn test_metric_filter_removes_empty_collectors() {
    // "temperature" only in sensor_a, not in meter_b
    let filtered = filter_collectors(sample_collectors(), None, Some("temperature")).unwrap();
    assert_eq!(filtered.len(), 1);
    assert_eq!(filtered[0].name, "sensor_a");
    assert_eq!(filtered[0].metrics.len(), 1);
    assert_eq!(filtered[0].metrics[0].name, "temperature");
}

#[test]
fn test_empty_filter_warning() {
    let filtered = filter_collectors(sample_collectors(), Some("nonexistent"), None).unwrap();
    assert!(filtered.is_empty());
}

#[test]
fn test_invalid_regex_returns_error() {
    let result = filter_collectors(sample_collectors(), Some("[invalid"), None);
    assert!(result.is_err());
}
