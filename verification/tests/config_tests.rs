use bus_exporter::config::{
    default_bps, default_byte_order, default_data_bits, default_prom_listen, default_prom_path,
    default_scale, default_stop_bits, ByteOrder, Collector, Config, DataType, Exporters, LogLevel,
    LogOutput, Logging, Metric, MetricDefaults, MetricType, MetricsFile, OtlpExporter, Parity,
    PrometheusExporter, Protocol, RawMetric, RegisterType, SyslogFacility,
};
use bus_exporter::metrics_file::merge_metric_sources;

fn metric(name: &str, mt: MetricType, rt: RegisterType, address: u16, dt: DataType) -> Metric {
    Metric {
        name: name.to_string(),
        description: String::new(),
        metric_type: mt,
        register_type: Some(rt),
        address: Some(address),
        data_type: dt,
        byte_order: ByteOrder::BigEndian,
        scale_bits: 1.0f64.to_bits(),
        offset_bits: 0.0f64.to_bits(),
        unit: String::new(),
        command: Vec::new(),
        response_length: None,
        response_offset: 0,
    }
}

fn gauge_u16(name: &str) -> Metric {
    metric(name, MetricType::Gauge, RegisterType::Holding, 0, DataType::U16)
}

fn tcp_collector(name: &str, endpoint: &str, slave_id: u8, metrics: Vec<Metric>) -> Collector {
    Collector {
        name: name.to_string(),
        protocol: Protocol::ModbusTcp { endpoint: endpoint.to_string() },
        slave_id: Some(slave_id),
        polling_interval_ms: 10_000,
        labels: Vec::new(),
        metrics_files: None,
        metrics,
    }
}

fn rtu_collector(name: &str, data_bits: u8, stop_bits: u8, metrics: Vec<Metric>) -> Collector {
    Collector {
        name: name.to_string(),
        protocol: Protocol::ModbusRtu {
            device: "/dev/ttyUSB0".to_string(),
            bps: default_bps(),
            data_bits,
            stop_bits,
            parity: Parity::NoParity,
        },
        slave_id: Some(1),
        polling_interval_ms: 10_000,
        labels: Vec::new(),
        metrics_files: None,
        metrics,
    }
}

fn prometheus(enabled: bool) -> Exporters {
    Exporters {
        otlp: None,
        prometheus: Some(PrometheusExporter {
            enabled,
            listen: default_prom_listen(),
            path: default_prom_path(),
        }),
        mqtt: None,
    }
}

fn config(exporters: Exporters, collectors: Vec<Collector>) -> Config {
    Config { global_labels: Vec::new(), logging: Logging::default(), exporters, collectors }
}

fn with_metrics(metrics: Vec<Metric>) -> Config {
    config(prometheus(true), vec![tcp_collector("t", "a:502", 1, metrics)])
}

fn error_of(cfg: &Config) -> String {
    cfg.validate().unwrap_err().to_string()
}

fn minimal() -> Config {
    config(prometheus(true), vec![tcp_collector("test", "localhost:502", 1, vec![gauge_u16("voltage")])])
}

#[test]
fn test_no_exporter_enabled() {
    let c = config(prometheus(false), vec![tcp_collector("t", "localhost:502", 1, vec![gauge_u16("v")])]);
    assert!(error_of(&c).contains("at least one exporter"));
}

#[test]
fn test_no_collectors() {
    let c = config(prometheus(true), vec![]);
    assert!(error_of(&c).contains("at least one collector"));
}

#[test]
fn test_dup_collector() {
    let c = config(
        prometheus(true),
        vec![
            tcp_collector("d", "a:502", 1, vec![gauge_u16("v")]),
            tcp_collector("d", "b:502", 2, vec![gauge_u16("v")]),
        ],
    );
    assert!(error_of(&c).contains("duplicate collector name"));
}

#[test]
fn test_slave_id_zero() {
    let mut c = minimal();
    c.collectors[0].slave_id = Some(0);
    assert!(error_of(&c).contains("slave_id must be 1-247"));
}

#[test]
fn test_coil_must_bool() {
    let c = with_metrics(vec![metric("m", MetricType::Gauge, RegisterType::Coil, 0, DataType::U16)]);
    assert!(error_of(&c).contains("coil/discrete register must use data_type bool"));
}

#[test]
fn test_bool_must_coil_discrete() {
    let c = with_metrics(vec![metric("m", MetricType::Gauge, RegisterType::Holding, 0, DataType::Bool)]);
    assert!(error_of(&c).contains("bool data_type must use coil or discrete"));
}

#[test]
fn test_dup_metric() {
    let c = with_metrics(vec![
        metric("d", MetricType::Gauge, RegisterType::Holding, 0, DataType::U16),
        metric("d", MetricType::Counter, RegisterType::Holding, 1, DataType::U16),
    ]);
    assert!(error_of(&c).contains("duplicate metric name"));
}

#[test]
fn test_empty_metrics() {
    let c = with_metrics(vec![]);
    assert!(error_of(&c).contains("at least one metric"));
}

#[test]
fn test_otlp_no_endpoint() {
    let exporters = Exporters {
        otlp: Some(OtlpExporter {
            enabled: true,
            endpoint: None,
            timeout_ms: 10_000,
            interval_ms: 10_000,
            headers: Vec::new(),
        }),
        prometheus: None,
        mqtt: None,
    };
    let c = config(exporters, vec![tcp_collector("t", "a:502", 1, vec![gauge_u16("v")])]);
    assert!(error_of(&c).contains("endpoint"));
}

#[test]
fn test_defaults() {
    let c = minimal();
    assert!(c.validate().is_ok());
    assert_eq!(c.logging.level, LogLevel::Info);
    assert_eq!(c.logging.output, LogOutput::Syslog);
    assert_eq!(c.logging.syslog_facility, SyslogFacility::Daemon);
    let p = c.exporters.prometheus.as_ref().unwrap();
    assert_eq!(p.listen, "0.0.0.0:9090");
    assert_eq!(p.path, "/metrics");
}

#[test]
fn test_rtu_defaults() {
    let c = config(
        prometheus(true),
        vec![rtu_collector(
            "t",
            default_data_bits(),
            default_stop_bits(),
            vec![metric("c", MetricType::Gauge, RegisterType::Coil, 0, DataType::Bool)],
        )],
    );
    assert!(c.validate().is_ok());
    match &c.collectors[0].protocol {
        Protocol::ModbusRtu { bps, data_bits, stop_bits, parity, .. } => {
            assert_eq!(*bps, 9600);
            assert_eq!(*data_bits, 8);
            assert_eq!(*stop_bits, 1);
            assert_eq!(*parity, Parity::NoParity);
        }
        _ => panic!("expected RTU"),
    }
}

#[test]
fn test_all_data_types() {
    for dt in [
        DataType::U16,
        DataType::I16,
        DataType::U32,
        DataType::I32,
        DataType::F32,
        DataType::U64,
        DataType::I64,
        DataType::F64,
    ] {
        let c = with_metrics(vec![metric("m", MetricType::Gauge, RegisterType::Holding, 0, dt)]);
        c.validate().unwrap_or_else(|e| panic!("{dt:?}: {}", e.message()));
    }
}

#[test]
fn test_all_byte_orders() {
    for bo in [
        ByteOrder::BigEndian,
        ByteOrder::LittleEndian,
        ByteOrder::MidBigEndian,
        ByteOrder::MidLittleEndian,
    ] {
        let mut m = metric("m", MetricType::Gauge, RegisterType::Holding, 0, DataType::U32);
        m.byte_order = bo;
        let c = with_metrics(vec![m]);
        c.validate().unwrap_or_else(|e| panic!("{bo:?}: {}", e.message()));
    }
}

#[test]
fn test_all_log_levels() {
    for level in [LogLevel::Trace, LogLevel::Debug, LogLevel::Info, LogLevel::Warn, LogLevel::Error] {
        let mut c = with_metrics(vec![gauge_u16("v")]);
        c.logging.level = level;
        c.validate().unwrap_or_else(|e| panic!("level {level:?}: {}", e.message()));
    }
}

#[test]
fn test_all_syslog_facilities() {
    for fac in [
        SyslogFacility::Daemon,
        SyslogFacility::Local0,
        SyslogFacility::Local1,
        SyslogFacility::Local2,
        SyslogFacility::Local3,
        SyslogFacility::Local4,
        SyslogFacility::Local5,
        SyslogFacility::Local6,
        SyslogFacility::Local7,
    ] {
        let mut c = with_metrics(vec![gauge_u16("v")]);
        c.logging.syslog_facility = fac;
        c.validate().unwrap_or_else(|e| panic!("facility {fac:?}: {}", e.message()));
    }
}

#[test]
fn test_rtu_data_bits_out_of_range() {
    let c = config(
        prometheus(true),
        vec![rtu_collector("t", 4, 1, vec![metric("c", MetricType::Gauge, RegisterType::Coil, 0, DataType::Bool)])],
    );
    assert!(error_of(&c).contains("data_bits must be 5-8"));
}

#[test]
fn test_rtu_stop_bits_out_of_range() {
    let c = config(
        prometheus(true),
        vec![rtu_collector("t", 8, 3, vec![metric("c", MetricType::Gauge, RegisterType::Coil, 0, DataType::Bool)])],
    );
    assert!(error_of(&c).contains("stop_bits must be 1-2"));
}

#[test]
fn test_scale_zero_rejected() {
    let mut m = gauge_u16("v");
    m.scale_bits = 0.0f64.to_bits();
    let c = with_metrics(vec![m]);
    assert!(error_of(&c).contains("scale must not be 0.0"));
}

#[test]
fn test_polling_interval_zero_rejected() {
    let mut c = with_metrics(vec![gauge_u16("v")]);
    c.collectors[0].polling_interval_ms = 0;
    assert!(error_of(&c).contains("polling_interval must be at least 100ms"));
}

#[test]
fn test_polling_interval_too_short() {
    let mut c = with_metrics(vec![gauge_u16("v")]);
    c.collectors[0].polling_interval_ms = 50;
    assert!(error_of(&c).contains("polling_interval must be at least 100ms"));
}

#[test]
fn test_polling_interval_100ms_ok() {
    let mut c = with_metrics(vec![gauge_u16("v")]);
    c.collectors[0].polling_interval_ms = 100;
    assert!(c.validate().is_ok());
}

#[test]
fn test_counter_on_coil_rejected() {
    let c = with_metrics(vec![metric("m", MetricType::Counter, RegisterType::Coil, 0, DataType::Bool)]);
    assert!(error_of(&c).contains("coil/discrete registers only support gauge"));
}

#[test]
fn test_counter_on_discrete_rejected() {
    let c = with_metrics(vec![metric("m", MetricType::Counter, RegisterType::Discrete, 0, DataType::Bool)]);
    assert!(error_of(&c).contains("coil/discrete registers only support gauge"));
}

#[test]
fn test_address_overflow_u32() {
    let c = with_metrics(vec![metric("m", MetricType::Gauge, RegisterType::Holding, 65535, DataType::U32)]);
    assert!(error_of(&c).contains("exceeds 65535"));
}

#[test]
fn test_address_overflow_u64() {
    let c = with_metrics(vec![metric("m", MetricType::Gauge, RegisterType::Holding, 65533, DataType::U64)]);
    assert!(error_of(&c).contains("exceeds 65535"));
}

#[test]
fn test_address_at_boundary_ok() {
    // u32 takes 2 registers: 65534 + 2 = 65536 is still addressable (0-indexed)
    let c = with_metrics(vec![metric("m", MetricType::Gauge, RegisterType::Holding, 65534, DataType::U32)]);
    assert!(c.validate().is_ok());
}

#[test]
fn test_address_single_register_max() {
    let c = with_metrics(vec![metric("m", MetricType::Gauge, RegisterType::Holding, 65535, DataType::U16)]);
    assert!(c.validate().is_ok());
}

// ── Metrics files ──────────────────────────────────────────────────

fn raw(name: &str, address: u16) -> RawMetric {
    RawMetric {
        name: name.to_string(),
        description: None,
        metric_type: None,
        register_type: None,
        address: Some(address),
        data_type: None,
        byte_order: None,
        scale_bits: None,
        offset_bits: None,
        unit: None,
        command: Vec::new(),
        response_length: None,
        response_offset: 0,
    }
}

fn full_raw(name: &str, rt: RegisterType, dt: DataType, address: u16, unit: Option<&str>) -> RawMetric {
    let mut r = raw(name, address);
    r.metric_type = Some(MetricType::Gauge);
    r.register_type = Some(rt);
    r.data_type = Some(dt);
    r.unit = unit.map(|u| u.to_string());
    r
}

fn no_defaults() -> MetricDefaults {
    MetricDefaults {
        description: None,
        metric_type: None,
        register_type: None,
        data_type: None,
        byte_order: None,
        scale_bits: None,
        offset_bits: None,
        unit: None,
    }
}

fn find<'a>(ms: &'a [Metric], name: &str) -> &'a Metric {
    ms.iter().find(|m| m.name == name).unwrap()
}

#[test]
fn test_metrics_files_with_defaults() {
    let mut d = no_defaults();
    d.register_type = Some(RegisterType::Holding);
    d.data_type = Some(DataType::F32);
    d.metric_type = Some(MetricType::Gauge);
    let mut voltage = raw("voltage", 0);
    voltage.unit = Some("V".to_string());
    let mut current = raw("current", 6);
    current.unit = Some("A".to_string());
    let file = MetricsFile { defaults: Some(d), metrics: vec![voltage, current] };
    let files = vec![("devices/meter.yaml".to_string(), file)];
    let ms = merge_metric_sources("test", &files, &Vec::new()).unwrap();
    assert_eq!(ms.len(), 2);
    let v = &ms[0];
    assert_eq!(v.name, "voltage");
    assert_eq!(v.register_type, Some(RegisterType::Holding));
    assert_eq!(v.data_type, DataType::F32);
    assert_eq!(v.metric_type, MetricType::Gauge);
    assert_eq!(v.unit, "V");
}

#[test]
fn test_metrics_files_merge_order() {
    let mut base_voltage = full_raw("voltage", RegisterType::Holding, DataType::F32, 0, Some("V"));
    base_voltage.description = Some("base voltage".to_string());
    let base = MetricsFile {
        defaults: None,
        metrics: vec![base_voltage, full_raw("current", RegisterType::Holding, DataType::F32, 6, Some("A"))],
    };
    let over = MetricsFile {
        defaults: None,
        metrics: vec![full_raw("voltage", RegisterType::Input, DataType::F32, 100, Some("V"))],
    };
    let files = vec![("base.yaml".to_string(), base), ("override.yaml".to_string(), over)];
    let ms = merge_metric_sources("test", &files, &Vec::new()).unwrap();
    assert_eq!(ms.len(), 2);
    let v = find(&ms, "voltage");
    assert_eq!(v.register_type, Some(RegisterType::Input));
    assert_eq!(v.address, Some(100));
    // full replacement: the description is not inherited
    assert_eq!(v.description, "");
    let c = find(&ms, "current");
    assert_eq!(c.address, Some(6));
}

#[test]
fn test_inline_metrics_override_file() {
    let file = MetricsFile {
        defaults: None,
        metrics: vec![full_raw("voltage", RegisterType::Holding, DataType::F32, 0, Some("V"))],
    };
    let files = vec![("meter.yaml".to_string(), file)];
    let inline = vec![metric("voltage", MetricType::Gauge, RegisterType::Input, 200, DataType::U16)];
    let ms = merge_metric_sources("test", &files, &inline).unwrap();
    assert_eq!(ms.len(), 1);
    let v = &ms[0];
    assert_eq!(v.register_type, Some(RegisterType::Input));
    assert_eq!(v.data_type, DataType::U16);
    assert_eq!(v.address, Some(200));
}

#[test]
fn test_full_replacement_no_field_inheritance() {
    let mut base_voltage = full_raw("voltage", RegisterType::Holding, DataType::F32, 0, Some("V"));
    base_voltage.description = Some("Voltage reading".to_string());
    base_voltage.scale_bits = Some(0.1f64.to_bits());
    let base = MetricsFile { defaults: None, metrics: vec![base_voltage] };
    let over = MetricsFile {
        defaults: None,
        metrics: vec![full_raw("voltage", RegisterType::Holding, DataType::F32, 0, None)],
    };
    let files = vec![("base.yaml".to_string(), base), ("override.yaml".to_string(), over)];
    let ms = merge_metric_sources("test", &files, &Vec::new()).unwrap();
    let v = &ms[0];
    assert_eq!(v.unit, "");
    assert_eq!(v.description, "");
    assert_eq!(f64::from_bits(v.scale_bits), 1.0);
}

#[test]
fn test_empty_metrics_file_error() {
    let files = vec![("empty.yaml".to_string(), MetricsFile { defaults: None, metrics: Vec::new() })];
    let err = merge_metric_sources("test", &files, &Vec::new()).unwrap_err();
    assert!(err.contains("contains no metrics"), "got: {}", err);
}

#[test]
fn test_defaults_plus_per_metric_override() {
    let mut d = no_defaults();
    d.register_type = Some(RegisterType::Holding);
    d.data_type = Some(DataType::F32);
    d.metric_type = Some(MetricType::Gauge);
    d.byte_order = Some(ByteOrder::LittleEndian);
    d.scale_bits = Some(0.1f64.to_bits());
    let mut voltage = raw("voltage", 0);
    voltage.unit = Some("V".to_string());
    let mut current = raw("current", 6);
    current.unit = Some("A".to_string());
    current.data_type = Some(DataType::U32);
    current.byte_order = Some(ByteOrder::BigEndian);
    current.scale_bits = Some(0.01f64.to_bits());
    let file = MetricsFile { defaults: Some(d), metrics: vec![voltage, current] };
    let files = vec![("meter.yaml".to_string(), file)];
    let ms = merge_metric_sources("test", &files, &Vec::new()).unwrap();
    let v = find(&ms, "voltage");
    assert_eq!(v.data_type, DataType::F32);
    assert_eq!(v.byte_order, ByteOrder::LittleEndian);
    assert_eq!(f64::from_bits(v.scale_bits), 0.1);
    let c = find(&ms, "current");
    assert_eq!(c.data_type, DataType::U32);
    assert_eq!(c.byte_order, ByteOrder::BigEndian);
    assert_eq!(f64::from_bits(c.scale_bits), 0.01);
}

#[test]
fn missing_required_field_is_reported() {
    let files = vec![("meter.yaml".to_string(), MetricsFile { defaults: None, metrics: vec![raw("voltage", 0)] })];
    let err = merge_metric_sources("test", &files, &Vec::new()).unwrap_err();
    assert_eq!(err, "collector 'test': metric 'voltage' in 'meter.yaml': missing required field 'type'");
}

#[test]
fn default_scale_and_byte_order() {
    assert_eq!(f64::from_bits(default_scale()), 1.0);
    assert_eq!(default_byte_order(), ByteOrder::BigEndian);
}
