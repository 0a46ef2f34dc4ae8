use bus_exporter::config::{
    ByteOrder, Collector, Config, DataType, Exporters, LogLevel, LogOutput, Logging, Metric, MetricType,
    PrometheusExporter, Protocol, SyslogFacility,
};
use bus_exporter::devices::{
    after_first_attempt, classify_error, AddressMode, FirstAttempt, I3cDevice, I3cErrorKind,
    I3cClient, I3cMetricReader, I3cRecord, LookupRecord, PauseRecord, StubI3cDevice,
};

/// Mock I3C device with configurable responses.
struct MockI3cDevice {
    responses: Vec<Result<Vec<u8>, String>>,
    call_count: usize,
    pauses: Vec<u64>,
}

impl MockI3cDevice {
    fn new(responses: Vec<Result<Vec<u8>, String>>) -> Self {
        Self { responses, call_count: 0, pauses: Vec::new() }
    }

    fn with_fixed_response(data: Vec<u8>) -> Self {
        // Return the same response many times
        let responses: Vec<Result<Vec<u8>, String>> = (0..100).map(|_| Ok(data.clone())).collect();
        Self::new(responses)
    }
}

impl I3cDevice for MockI3cDevice {
    // The records of transfers, waits and lookups exist for the library's
    // proofs only; they are never evaluated when the program runs.
    fn transfers(&self) -> I3cRecord {
        unreachable!()
    }

    fn pauses(&self) -> PauseRecord {
        unreachable!()
    }

    fn lookups(&self) -> LookupRecord {
        unreachable!()
    }

    // No enumeration here: only a static address resolves.
    fn lookup_address(&mut self, mode: &AddressMode) -> Result<u8, String> {
        match mode {
            AddressMode::Static(a) => Ok(*a),
            _ => Err("I3C address resolution from sysfs is only available on Linux".to_string()),
        }
    }

    fn write_read(&mut self, _address: u8, _write_buf: &[u8], _read_len: usize) -> Result<Vec<u8>, String> {
        self.call_count += 1;
        if self.responses.is_empty() {
            return Err("no more mock responses".to_string());
        }
        self.responses.remove(0)
    }

    fn pause(&mut self, millis: u64) {
        self.pauses.push(millis);
    }
}

#[test]
fn test_static_address_mode() {
    let device = MockI3cDevice::with_fixed_response(vec![0x42]);
    let mut client = I3cMetricReader::new(device, "/dev/i3c-0".to_string(), AddressMode::Static(0x30));
    let addr = client.resolve_address().unwrap();
    assert_eq!(addr, 0x30);
}

#[test]
fn test_pid_address_mode_creation() {
    let device = MockI3cDevice::with_fixed_response(vec![0x42]);
    let client = I3cMetricReader::new(
        device,
        "/dev/i3c-0".to_string(),
        AddressMode::Pid("0x0123456789AB".to_string()),
    );
    // PID mode starts with no resolved address (needs sysfs)
    assert!(client.resolved_address().is_none());
}

#[test]
fn test_device_class_mode_creation() {
    let device = MockI3cDevice::with_fixed_response(vec![0x42]);
    let client = I3cMetricReader::new(
        device,
        "/dev/i3c-0".to_string(),
        AddressMode::DeviceClass { class: "temperature-sensor".to_string(), instance: 0 },
    );
    assert!(client.resolved_address().is_none());
}

#[test]
fn test_read_register_static() {
    let device = MockI3cDevice::with_fixed_response(vec![0xAB, 0xCD]);
    let mut client = I3cMetricReader::new(device, "/dev/i3c-0".to_string(), AddressMode::Static(0x30));
    let data = client.read_register_sync(0xFA, 2).unwrap();
    assert_eq!(data, vec![0xAB, 0xCD]);
}

#[test]
fn test_nack_triggers_reenumeration() {
    // First read fails (NACK); the static address re-resolves to the same
    // address, but the device keeps failing, so the retries are used up.
    let responses: Vec<Result<Vec<u8>, String>> = vec![Err("NACK".to_string())];
    let device = MockI3cDevice::new(responses);
    let mut client = I3cMetricReader::new(device, "/dev/i3c-0".to_string(), AddressMode::Static(0x30));
    let result = client.read_register_sync(0xFA, 2);
    assert!(result.is_err());
}

#[test]
fn nack_retries_with_backoff_then_reports_last_error() {
    let device = MockI3cDevice::new(vec![Err("NACK".to_string())]);
    let mut client = I3cMetricReader::new(device, "/dev/i3c-1".to_string(), AddressMode::Static(0x30));
    let err = client.read_register_sync(0xFA, 2).unwrap_err();
    assert_eq!(err, "I3C read failed after 3 retries on /dev/i3c-1: no more mock responses");
    assert_eq!(client.resolved_address(), Some(0x30));
}

#[test]
fn transfer_error_recovers_on_retry() {
    let device = MockI3cDevice::new(vec![Err("Remote I/O error".to_string()), Ok(vec![7, 8])]);
    let mut client = I3cMetricReader::new(device, "/dev/i3c-0".to_string(), AddressMode::Static(0x30));
    assert_eq!(client.read_register_sync(0x10, 2).unwrap(), vec![7, 8]);
}

#[test]
fn non_transfer_error_is_not_retried() {
    let device = MockI3cDevice::new(vec![Err("permission denied".to_string()), Ok(vec![1])]);
    let mut client = I3cMetricReader::new(device, "/dev/i3c-0".to_string(), AddressMode::Static(0x30));
    let err = client.read_register_sync(0x10, 1).unwrap_err();
    assert_eq!(err, "I3C read failed (non-retriable): permission denied");
}

#[test]
fn dynamic_address_without_enumeration_fails() {
    let mut client =
        I3cMetricReader::new(StubI3cDevice::new(), "/dev/i3c-0".to_string(), AddressMode::Pid("0x1".to_string()));
    assert_eq!(
        client.resolve_address().unwrap_err(),
        "I3C address resolution from sysfs is only available on Linux"
    );
    client.set_resolved_address(0x51);
    assert_eq!(client.resolve_address().unwrap(), 0x51);
    client.invalidate_address();
    assert!(client.resolved_address().is_none());
}

#[test]
fn static_address_survives_invalidation() {
    let mut client = I3cMetricReader::new(StubI3cDevice::new(), "/dev/i3c-0".to_string(), AddressMode::Static(0x30));
    client.invalidate_address();
    assert_eq!(client.resolved_address(), Some(0x30));
    assert!(!client.is_connected());
    client.connect();
    assert!(client.is_connected());
    client.disconnect();
    assert!(!client.is_connected());
}

#[test]
fn classify_error_words() {
    assert_eq!(classify_error("Device NACKed"), I3cErrorKind::TransferError);
    assert_eq!(classify_error("short TRANSFER"), I3cErrorKind::TransferError);
    assert_eq!(classify_error("I/O error"), I3cErrorKind::TransferError);
    assert_eq!(classify_error("io error"), I3cErrorKind::TransferError);
    assert_eq!(classify_error("Connection reset by peer"), I3cErrorKind::TransferError);
    assert_eq!(classify_error("bad config"), I3cErrorKind::Other);
    assert_eq!(after_first_attempt(Ok(vec![1])), FirstAttempt::Done(vec![1]));
    assert_eq!(after_first_attempt(Err("nack".to_string())), FirstAttempt::Retry);
}

// ── Re-enumeration after a NACK ─────────────────────────────────────

#[test]
fn reenumeration_nack_then_success_static() {
    let device = MockI3cDevice::new(vec![Err("NACK: transfer error".to_string()), Ok(vec![0xBE, 0xEF])]);
    let mut client = I3cClient::new(device, "/dev/i3c-0".to_string(), AddressMode::Static(0x30));
    let data = client.read_register_sync(0xFA, 2).unwrap();
    assert_eq!(data, vec![0xBE, 0xEF]);
}

#[test]
fn reenumeration_all_nack_exhausts_retries() {
    let device = MockI3cDevice::new(vec![
        Err("NACK".to_string()),
        Err("NACK".to_string()),
        Err("NACK".to_string()),
        Err("NACK".to_string()),
    ]);
    let mut client = I3cClient::new(device, "/dev/i3c-0".to_string(), AddressMode::Static(0x30));
    let result = client.read_register_sync(0xFA, 2);
    assert!(result.is_err());
    assert!(result.unwrap_err().contains("retries"));
}

// ── Configuration rules for I3C collectors ──────────────────────────

fn i3c_metric(name: &str, address: u16, data_type: DataType, byte_order: ByteOrder) -> Metric {
    Metric {
        name: name.to_string(),
        description: String::new(),
        metric_type: MetricType::Gauge,
        register_type: None,
        address: Some(address),
        data_type,
        byte_order,
        scale_bits: 1.0f64.to_bits(),
        offset_bits: 0.0f64.to_bits(),
        unit: String::new(),
        command: Vec::new(),
        response_length: None,
        response_offset: 0,
    }
}

fn i3c_config(
    name: &str,
    pid: Option<&str>,
    address: Option<u8>,
    device_class: Option<&str>,
    instance: Option<u8>,
    metric: Metric,
) -> Config {
    Config {
        global_labels: Vec::new(),
        logging: Logging { level: LogLevel::Info, output: LogOutput::Stdout, syslog_facility: SyslogFacility::Daemon },
        exporters: Exporters {
            otlp: None,
            prometheus: Some(PrometheusExporter {
                enabled: true,
                listen: "0.0.0.0:9090".to_string(),
                path: "/metrics".to_string(),
            }),
            mqtt: None,
        },
        collectors: vec![Collector {
            name: name.to_string(),
            protocol: Protocol::I3c {
                bus: "/dev/i3c-0".to_string(),
                pid: pid.map(|p| p.to_string()),
                address,
                device_class: device_class.map(|d| d.to_string()),
                instance,
            },
            slave_id: None,
            polling_interval_ms: 10_000,
            labels: Vec::new(),
            metrics_files: None,
            metrics: vec![metric],
        }],
    }
}

fn temp_u16() -> Metric {
    i3c_metric("temp", 0xFA, DataType::U16, ByteOrder::BigEndian)
}

fn i3c_error(cfg: &Config) -> String {
    cfg.validate().unwrap_err().to_string()
}

#[test]
fn test_config_i3c_valid_pid() {
    let c = i3c_config("test-i3c", Some("0x0123456789AB"), None, None, None, temp_u16());
    assert!(c.validate().is_ok());
}

#[test]
fn test_config_i3c_valid_static_address() {
    let c = i3c_config("test-i3c", None, Some(0x30), None, None, temp_u16());
    assert!(c.validate().is_ok());
}

#[test]
fn test_config_i3c_valid_device_class() {
    let c = i3c_config("test-i3c", None, None, Some("temperature-sensor"), Some(0), temp_u16());
    assert!(c.validate().is_ok());
}

#[test]
fn test_config_i3c_no_address_mode() {
    let c = i3c_config("test-i3c", None, None, None, None, temp_u16());
    assert!(i3c_error(&c).contains("exactly one address mode"));
}

#[test]
fn test_config_i3c_multiple_address_modes() {
    let c = i3c_config("test-i3c", Some("0x0123456789AB"), Some(0x30), None, None, temp_u16());
    assert!(i3c_error(&c).contains("exactly one address mode"));
}

#[test]
fn test_config_i3c_address_out_of_range() {
    let c = i3c_config("test-i3c", None, Some(0x05), None, None, temp_u16());
    assert!(i3c_error(&c).contains("0x08"));
}

#[test]
fn test_config_i3c_invalid_pid() {
    let c = i3c_config("test-i3c", Some("0xZZZZ"), None, None, None, temp_u16());
    assert!(i3c_error(&c).contains("PID"));
}

#[test]
fn test_config_i3c_device_class_without_instance() {
    let c = i3c_config("test-i3c", None, None, Some("temperature-sensor"), None, temp_u16());
    assert!(i3c_error(&c).contains("instance"));
}

#[test]
fn test_config_i3c_mid_endian_rejected() {
    let c = i3c_config("test-i3c", None, Some(0x30), None, None, i3c_metric("temp", 0xFA, DataType::U32, ByteOrder::MidBigEndian));
    assert!(i3c_error(&c).contains("mid-endian"));
}

#[test]
fn test_config_i3c_slave_id_rejected() {
    let mut c = i3c_config("test-i3c", None, Some(0x30), None, None, temp_u16());
    c.collectors[0].slave_id = Some(1);
    assert!(i3c_error(&c).contains("slave_id"));
}

#[test]
fn config_parse_pid_mode() {
    let c = i3c_config("sensor-pid", Some("0x0123456789AB"), None, None, None, temp_u16());
    assert!(c.validate().is_ok());
}

#[test]
fn config_parse_static_mode() {
    let c = i3c_config("sensor-static", None, Some(0x30), None, None, i3c_metric("humidity", 0x10, DataType::U8, ByteOrder::BigEndian));
    assert!(c.validate().is_ok());
}

#[test]
fn config_parse_device_class_mode() {
    let c = i3c_config("sensor-class", None, None, Some("temperature-sensor"), Some(0), i3c_metric("temp", 0xFA, DataType::F32, ByteOrder::BigEndian));
    assert!(c.validate().is_ok());
}

#[test]
fn config_reject_multiple_address_modes() {
    let c = i3c_config("test", Some("0x0123456789AB"), Some(0x30), None, None, i3c_metric("t", 0xFA, DataType::U16, ByteOrder::BigEndian));
    let err = i3c_error(&c);
    assert!(err.contains("exactly one address mode"), "got: {err}");
}

#[test]
fn config_reject_no_address_mode() {
    let c = i3c_config("test", None, None, None, None, i3c_metric("t", 0xFA, DataType::U16, ByteOrder::BigEndian));
    let err = i3c_error(&c);
    assert!(err.contains("exactly one address mode"), "got: {err}");
}

#[test]
fn config_reject_out_of_range_address() {
    let c = i3c_config("test", None, Some(0x05), None, None, i3c_metric("t", 0xFA, DataType::U16, ByteOrder::BigEndian));
    let err = i3c_error(&c);
    assert!(err.contains("0x08"), "got: {err}");
}

#[test]
fn config_reject_invalid_pid() {
    let c = i3c_config("test", Some("0xZZZZ"), None, None, None, i3c_metric("t", 0xFA, DataType::U16, ByteOrder::BigEndian));
    let err = i3c_error(&c);
    assert!(err.contains("PID"), "got: {err}");
}

#[test]
fn config_reject_mid_endian_byte_order() {
    let c = i3c_config("test", None, Some(0x30), None, None, i3c_metric("t", 0xFA, DataType::U32, ByteOrder::MidBigEndian));
    let err = i3c_error(&c);
    assert!(err.contains("mid-endian"), "got: {err}");
}

#[test]
fn i3c_client_resolves_and_invalidates() {
    let mut client =
        I3cClient::new(StubI3cDevice::new(), "/dev/i3c-2".to_string(), AddressMode::Pid("0x1".to_string()));
    assert_eq!(client.resolved_address(), None);
    assert!(client.resolve_address().is_err());
    let mut fixed = I3cClient::new(StubI3cDevice::new(), "/dev/i3c-2".to_string(), AddressMode::Static(0x2a));
    assert_eq!(fixed.resolve_address(), Ok(0x2a));
    fixed.invalidate_address();
    assert_eq!(fixed.resolved_address(), Some(0x2a));
}
