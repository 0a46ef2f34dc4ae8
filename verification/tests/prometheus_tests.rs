use bus_exporter::prometheus::{build_metric_name, format_metric_line, render_metrics, sanitize_name};
use bus_exporter::store::{MetricStore, MetricType, MetricValue};

fn make_metric(
    name: &str,
    value: f64,
    mt: MetricType,
    unit: &str,
    desc: &str,
    labels: Vec<(String, String)>,
) -> MetricValue {
    MetricValue {
        name: name.to_string(),
        value_bits: value.to_bits(),
        metric_type: mt,
        labels,
        description: desc.to_string(),
        unit: unit.to_string(),
        updated_at_nanos: 0,
    }
}

fn render_store(store: &MetricStore) -> String {
    let all = store.all_metrics_flat();
    let values: Vec<String> = all.iter().map(|m| format!("{}", f64::from_bits(m.value_bits))).collect();
    render_metrics(&all, &values)
}

#[test]
fn test_sanitize_name() {
    assert_eq!(sanitize_name("hello-world"), "hello_world");
    assert_eq!(sanitize_name("123abc"), "_123abc");
    assert_eq!(sanitize_name("ok_name"), "ok_name");
    assert_eq!(sanitize_name(""), "_");
}

#[test]
fn test_build_metric_name_with_unit() {
    assert_eq!(
        build_metric_name("voltage", "volts"),
        "modbus_voltage_volts"
    );
}

#[test]
fn test_build_metric_name_without_unit() {
    assert_eq!(build_metric_name("temperature", ""), "modbus_temperature");
}

#[test]
fn test_render_metrics_empty() {
    let store = MetricStore::new();
    let output = render_store(&store);
    assert!(output.is_empty());
}

#[test]
fn test_render_metrics_gauge() {
    let mut store = MetricStore::new();
    let labels = vec![("phase".to_string(), "a".to_string())];
    let m = make_metric("voltage", 230.5, MetricType::Gauge, "volts", "Phase voltage", labels);
    store.publish("test-collector", vec![m], &Vec::new(), &Vec::new());

    let output = render_store(&store);
    assert!(output.contains("# HELP modbus_voltage_volts Phase voltage"));
    assert!(output.contains("# TYPE modbus_voltage_volts gauge"));
    assert!(output.contains("modbus_voltage_volts{"));
    assert!(output.contains("230.5"));
}

#[test]
fn test_render_metrics_counter() {
    let mut store = MetricStore::new();
    let m = make_metric("requests", 42.0, MetricType::Counter, "", "Total requests", Vec::new());
    store.publish("c1", vec![m], &Vec::new(), &Vec::new());

    let output = render_store(&store);
    assert!(output.contains("# TYPE modbus_requests counter"));
}

#[test]
fn test_label_escaping() {
    let labels = vec![("desc".to_string(), "has \"quotes\" and \nnewline".to_string())];
    let line = format_metric_line("test_metric", &labels, "1");
    assert!(line.contains("\\\"quotes\\\""));
    assert!(line.contains("\\n"));
}

#[test]
fn render_groups_families_in_name_order() {
    let ms = vec![
        make_metric("b", 2.0, MetricType::Gauge, "", "Bee\\help\nline", vec![("collector".to_string(), "x".to_string())]),
        make_metric("a", 1.0, MetricType::Counter, "", "Ay", Vec::new()),
        make_metric("b", 3.0, MetricType::Counter, "", "ignored", vec![("collector".to_string(), "y".to_string())]),
    ];
    let values = vec!["2".to_string(), "1".to_string(), "3".to_string()];
    let out = render_metrics(&ms, &values);
    assert_eq!(
        out,
        "# HELP modbus_a Ay\n# TYPE modbus_a counter\nmodbus_a 1\n\
         # HELP modbus_b Bee\\\\help\\nline\n# TYPE modbus_b gauge\n\
         modbus_b{collector=\"x\"} 2\nmodbus_b{collector=\"y\"} 3\n"
    );
}

#[test]
fn format_line_sorts_and_sanitizes_labels() {
    let labels = vec![
        ("zone-1".to_string(), "back\\slash".to_string()),
        ("area".to_string(), "n".to_string()),
    ];
    assert_eq!(
        format_metric_line("m", &labels, "4.5"),
        "m{area=\"n\",zone_1=\"back\\\\slash\"} 4.5"
    );
    assert_eq!(format_metric_line("m", &Vec::new(), "0"), "m 0");
}

#[test]
fn sanitize_is_idempotent_and_sized() {
    for s in ["", "9lives", "a-b.c", "ok_name", "ünï"] {
        let once = sanitize_name(s);
        assert_eq!(sanitize_name(&once), once);
        let n = s.chars().count();
        let digit = s.chars().next().map_or(false, |c| c.is_ascii_digit());
        assert_eq!(once.chars().count(), std::cmp::max(1, n + digit as usize));
    }
}
