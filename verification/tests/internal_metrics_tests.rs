use bus_exporter::internal::{CollectorStats, InternalMetrics};

#[test]
fn test_internal_metrics_new() {
    let m = InternalMetrics::new();
    assert_eq!(m.collectors_total, 0);
    assert_eq!(m.otlp_exports_total, 0);
    assert_eq!(m.otlp_errors_total, 0);
    assert_eq!(m.prometheus_scrapes_total, 0);
    assert!(m.collectors.is_empty());
}

#[test]
fn test_collector_stats_increments() {
    let mut stats = CollectorStats::new();
    stats.polls_total += 1;
    stats.polls_total += 1;
    stats.polls_success += 1;
    stats.polls_error += 1;
    stats.read_requests += 5;
    stats.read_errors += 2;

    assert_eq!(stats.polls_total, 2);
    assert_eq!(stats.polls_success, 1);
    assert_eq!(stats.polls_error, 1);
    assert_eq!(stats.read_requests, 5);
    assert_eq!(stats.read_errors, 2);
}

#[test]
fn test_poll_duration_f64() {
    let mut stats = CollectorStats::new();
    assert_eq!(f64::from_bits(stats.get_poll_duration_bits()), 0.0);
    stats.set_poll_duration_bits(1.234f64.to_bits());
    assert!((f64::from_bits(stats.get_poll_duration_bits()) - 1.234).abs() < f64::EPSILON);
}

#[test]
fn test_get_or_create_collector() {
    let mut m = InternalMetrics::new();
    {
        let mut s = m.get_or_create_collector("test_collector");
        s.polls_total += 1;
        m.set_collector("test_collector", s);
    }
    {
        let s = m.get_or_create_collector("test_collector");
        assert_eq!(s.polls_total, 1);
    }
    assert_eq!(m.collectors.len(), 1);
}

#[test]
fn test_render_prometheus_contains_expected_metrics() {
    let mut m = InternalMetrics::new();
    m.collectors_total = 3;
    m.otlp_exports_total = 10;
    m.otlp_errors_total = 1;
    m.prometheus_scrapes_total = 5;

    // Add a collector
    let mut s = CollectorStats::new();
    s.polls_total = 42;
    s.polls_success = 40;
    s.polls_error = 2;
    s.read_requests = 100;
    s.read_errors = 3;
    s.set_poll_duration_bits(0.5f64.to_bits());
    m.set_collector("meter_1", s);

    let durations: Vec<String> = m
        .collectors
        .iter()
        .map(|(_, s)| format!("{}", f64::from_bits(s.get_poll_duration_bits())))
        .collect();
    let output = m.render_prometheus("0.1", &durations);

    assert!(output.contains("bus_exporter_collectors_total 3"));
    assert!(output.contains("bus_exporter_uptime_seconds"));
    assert!(output.contains("bus_exporter_polls_total{collector=\"meter_1\"} 42"));
    assert!(output.contains("bus_exporter_polls_success_total{collector=\"meter_1\"} 40"));
    assert!(output.contains("bus_exporter_polls_error_total{collector=\"meter_1\"} 2"));
    assert!(output.contains("bus_exporter_modbus_requests_total{collector=\"meter_1\"} 100"));
    assert!(output.contains("bus_exporter_modbus_errors_total{collector=\"meter_1\"} 3"));
    assert!(output.contains("bus_exporter_poll_duration_seconds{collector=\"meter_1\"} 0.5"));
    assert!(output.contains("bus_exporter_otlp_exports_total 10"));
    assert!(output.contains("bus_exporter_otlp_errors_total 1"));
    assert!(output.contains("bus_exporter_prometheus_scrapes_total 5"));

    // Check TYPE annotations
    assert!(output.contains("# TYPE bus_exporter_collectors_total gauge"));
    assert!(output.contains("# TYPE bus_exporter_polls_total counter"));
    assert!(output.contains("# TYPE bus_exporter_uptime_seconds gauge"));
}

#[test]
fn test_to_metric_values() {
    let mut m = InternalMetrics::new();
    m.collectors_total = 2;
    m.set_collector("c1", CollectorStats::new());

    let values = m.to_metric_values(1.5f64.to_bits(), 0);
    let names: Vec<&str> = values.iter().map(|v| v.name.as_str()).collect();

    assert!(names.contains(&"bus_exporter_collectors_total"));
    assert!(names.contains(&"bus_exporter_uptime_seconds"));
    assert!(names.contains(&"bus_exporter_polls_total"));
    assert!(names.contains(&"bus_exporter_otlp_exports_total"));
    assert!(names.contains(&"bus_exporter_prometheus_scrapes_total"));
}

#[test]
fn internal_exposition_orders_collectors_by_name() {
    let mut m = InternalMetrics::new();
    m.set_collector("zeta", CollectorStats::new());
    m.set_collector("alpha", CollectorStats::new());
    let out = m.render_prometheus("1.0", &vec!["0.000000".to_string(), "0.000000".to_string()]);
    let a = out.find("bus_exporter_polls_total{collector=\"alpha\"}").unwrap();
    let z = out.find("bus_exporter_polls_total{collector=\"zeta\"}").unwrap();
    assert!(a < z);
    let empty = InternalMetrics::new().render_prometheus("0.0", &Vec::new());
    assert!(!empty.contains("polls_total"));
    assert!(empty.starts_with("# HELP bus_exporter_collectors_total Total number of configured collectors\n"));
}

#[test]
fn internal_values_of_counters() {
    let mut m = InternalMetrics::new();
    let mut s = CollectorStats::new();
    s.polls_total = 7;
    m.set_collector("c", s);
    let vals = m.to_metric_values(0, 99);
    assert_eq!(vals.len(), 2 + 6 + 3);
    assert_eq!(f64::from_bits(vals[2].value_bits), 7.0);
    assert_eq!(vals[2].labels, vec![("collector".to_string(), "c".to_string())]);
    assert_eq!(vals[2].updated_at_nanos, 99);
}

#[test]
fn written_counters_read_back_and_leave_others_alone() {
    let mut m = InternalMetrics::new();
    let a0 = m.get_or_create_collector("a");
    assert_eq!(a0, CollectorStats::new());
    let mut b = m.get_or_create_collector("b");
    b.polls_total = 7;
    b.read_errors = 2;
    m.set_collector("b", b);
    assert_eq!(m.get_or_create_collector("b"), b);
    assert_eq!(m.get_or_create_collector("a"), CollectorStats::new());
    let mut c = CollectorStats::new();
    c.polls_success = 1;
    m.set_collector("c", c);
    assert_eq!(m.get_or_create_collector("c"), c);
    assert_eq!(m.collector_names(), vec!["a".to_string(), "b".to_string(), "c".to_string()]);
}

#[test]
fn record_poll_counts_one_cycle() {
    let mut s = CollectorStats::new();
    s.record_poll(3, 1, true, 0.5f64.to_bits());
    s.record_poll(2, 0, false, 0.25f64.to_bits());
    assert_eq!(s.polls_total, 2);
    assert_eq!(s.polls_error, 1);
    assert_eq!(s.polls_success, 1);
    assert_eq!(s.read_requests, 5);
    assert_eq!(s.read_errors, 1);
    assert_eq!(s.get_poll_duration_bits(), 0.25f64.to_bits());
    let mut w = CollectorStats::new();
    w.read_requests = u64::MAX;
    w.record_poll(2, 0, false, 0);
    assert_eq!(w.read_requests, 1);
}

#[test]
fn record_poll_creates_and_updates_the_collector() {
    let mut m = InternalMetrics::new();
    m.record_poll("a", 4, 0, false, 1.0f64.to_bits());
    m.record_poll("b", 1, 1, true, 2.0f64.to_bits());
    m.record_poll("a", 4, 2, true, 3.0f64.to_bits());
    assert_eq!(m.collectors.len(), 2);
    assert_eq!(m.collectors[0].0, "a");
    let a = m.collectors[0].1;
    assert_eq!((a.polls_total, a.polls_success, a.polls_error), (2, 1, 1));
    assert_eq!((a.read_requests, a.read_errors), (8, 2));
    assert_eq!(a.last_poll_duration_bits, 3.0f64.to_bits());
    let b = m.collectors[1].1;
    assert_eq!((b.polls_total, b.polls_error, b.read_requests), (1, 1, 1));
}
