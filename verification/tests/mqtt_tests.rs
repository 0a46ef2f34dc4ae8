use bus_exporter::config::{
    default_mqtt_interval, default_mqtt_qos, default_mqtt_timeout, default_mqtt_topic_prefix,
};
use bus_exporter::mqtt::{build_topic, client_id_or_default, metric_topic, parse_endpoint, qos_from_u8, status_topic, QosLevel};
use bus_exporter::store::{MetricType, MetricValue};

#[test]
fn test_build_topic() {
    assert_eq!(
        build_topic("modbus/metrics", "inverter", "voltage"),
        "modbus/metrics/inverter/voltage"
    );
    assert_eq!(
        build_topic("plant/data", "meter", "power"),
        "plant/data/meter/power"
    );
}

#[test]
fn test_parse_endpoint_mqtt() {
    let (host, port, tls) = parse_endpoint("mqtt://broker.example.com:1883");
    assert_eq!(host, "broker.example.com");
    assert_eq!(port, 1883);
    assert!(!tls);
}

#[test]
fn test_parse_endpoint_mqtts() {
    let (host, port, tls) = parse_endpoint("mqtts://broker.example.com:8883");
    assert_eq!(host, "broker.example.com");
    assert_eq!(port, 8883);
    assert!(tls);
}

#[test]
fn test_parse_endpoint_mqtts_default_port() {
    let (host, port, tls) = parse_endpoint("mqtts://broker.example.com");
    assert_eq!(host, "broker.example.com");
    assert_eq!(port, 8883);
    assert!(tls);
}

#[test]
fn test_parse_endpoint_mqtt_default_port() {
    let (host, port, tls) = parse_endpoint("mqtt://broker.example.com");
    assert_eq!(host, "broker.example.com");
    assert_eq!(port, 1883);
    assert!(!tls);
}

#[test]
fn test_parse_endpoint_ipv6_bracketed() {
    let (host, port, tls) = parse_endpoint("mqtt://[::1]:1883");
    assert_eq!(host, "::1");
    assert_eq!(port, 1883);
    assert!(!tls);
}

#[test]
fn test_parse_endpoint_ipv6_bracketed_default_port() {
    let (host, port, tls) = parse_endpoint("mqtt://[::1]");
    assert_eq!(host, "::1");
    assert_eq!(port, 1883);
    assert!(!tls);
}

#[test]
fn test_parse_endpoint_ipv6_mqtts() {
    let (host, port, tls) = parse_endpoint("mqtts://[2001:db8::1]:8883");
    assert_eq!(host, "2001:db8::1");
    assert_eq!(port, 8883);
    assert!(tls);
}

#[test]
fn test_parse_endpoint_no_scheme() {
    let (host, port, tls) = parse_endpoint("localhost:1883");
    assert_eq!(host, "localhost");
    assert_eq!(port, 1883);
    assert!(!tls);
}

#[test]
fn test_parse_endpoint_invalid_scheme_treated_as_plain() {
    // No recognized scheme, treated as plain host
    let (host, port, tls) = parse_endpoint("http://broker:1883");
    assert_eq!(host, "http://broker");
    assert_eq!(port, 1883);
    assert!(!tls);
}

#[test]
fn parse_endpoint_unparsable_port_falls_back() {
    let (host, port, tls) = parse_endpoint("mqtts://broker:notaport");
    assert_eq!(host, "broker");
    assert_eq!(port, 1883);
    assert!(tls);
    let (host, port, _) = parse_endpoint("mqtt://[fe80::2]:+1884");
    assert_eq!(host, "fe80::2");
    assert_eq!(port, 1884);
}

#[test]
fn qos_levels() {
    assert_eq!(qos_from_u8(0), QosLevel::AtMostOnce);
    assert_eq!(qos_from_u8(1), QosLevel::AtLeastOnce);
    assert_eq!(qos_from_u8(2), QosLevel::ExactlyOnce);
    assert_eq!(qos_from_u8(7), QosLevel::ExactlyOnce);
}

#[test]
fn status_and_client_id() {
    assert_eq!(status_topic("modbus/metrics"), "modbus/metrics/status");
    assert_eq!(client_id_or_default(&None), "modbus-exporter");
    assert_eq!(client_id_or_default(&Some("plant-7".to_string())), "plant-7");
}

#[test]
fn metric_topic_uses_collector_label() {
    let mut m = MetricValue {
        name: "voltage".to_string(),
        value_bits: 230.0f64.to_bits(),
        metric_type: MetricType::Gauge,
        labels: vec![("collector".to_string(), "old".to_string()), ("collector".to_string(), "inverter".to_string())],
        description: String::new(),
        unit: String::new(),
        updated_at_nanos: 0,
    };
    assert_eq!(metric_topic("p", &m), "p/inverter/voltage");
    m.labels.clear();
    assert_eq!(metric_topic("p", &m), "p/unknown/voltage");
}

#[test]
fn test_config_defaults() {
    assert_eq!(default_mqtt_topic_prefix(), "modbus/metrics");
    assert_eq!(default_mqtt_qos(), 1);
    assert_eq!(default_mqtt_interval() / 1000, 10);
    assert_eq!(default_mqtt_timeout() / 1000, 5);
}
