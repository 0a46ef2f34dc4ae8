//! Configuration validation: the rules a loaded configuration must satisfy,
//! and which rule a configuration breaks first.

use vstd::prelude::*;

use crate::config::{
    is_zero_bits, spec_byte_size, spec_register_count, ByteOrder, Collector, Config, DataType,
    Exporters, Metric, MetricType, MqttExporter, Protocol, RegisterType,
};
use crate::text::{
    chars_of, decimal, has_prefix, hex_padded, push_decimal, push_hex, last_index_of, parse_u16, rfind_char, spec_parse_u16, starts_with_chars,
};

verus! {

/// Which family of bus a collector talks to.
#[derive(Debug, Clone, Copy, PartialEq, Eq, Structural)]
pub enum BusKind {
    Modbus,
    I2c,
    Spi,
    I3c,
}

/// The first rule of the configuration that is broken.
#[derive(Debug, Clone)]
#[allow(inconsistent_fields)]
pub enum ConfigError {
    NoExporterEnabled,
    OtlpMissingEndpoint,
    MqttMissingEndpoint,
    MqttBadScheme,
    MqttBadQos { qos: u8 },
    MqttTlsIncomplete,
    NoCollectors,
    DuplicateCollector { collector: String },
    SlaveIdOutOfRange { collector: String, slave_id: u8 },
    SlaveIdMissing { collector: String },
    SlaveIdNotAllowed { collector: String },
    InvalidTcpEndpoint { collector: String, endpoint: String },
    DataBitsOutOfRange { collector: String, data_bits: u8 },
    StopBitsOutOfRange { collector: String, stop_bits: u8 },
    BusPathEmpty { collector: String, kind: BusKind },
    I2cAddressOutOfRange { collector: String, address: u8 },
    SpiSpeedZero { collector: String },
    SpiModeOutOfRange { collector: String, mode: u8 },
    SpiBitsPerWordOutOfRange { collector: String, bits_per_word: u8 },
    I3cAddressModeCount { collector: String },
    I3cInvalidPid { collector: String, pid: String },
    I3cAddressOutOfRange { collector: String, address: u8 },
    I3cMissingInstance { collector: String },
    PollingIntervalTooShort { collector: String, interval_ms: u64 },
    NoMetrics { collector: String },
    DuplicateMetric { collector: String, metric: String },
    AddressRequired { collector: String, metric: String, kind: BusKind },
    CoilMustBeBool { collector: String, metric: String },
    BoolMustBeCoil { collector: String, metric: String },
    CounterOnBitRegister { collector: String, metric: String },
    RegisterTypeRequired { collector: String, metric: String },
    U8NotForModbus { collector: String, metric: String },
    RegisterAddressTooLarge { collector: String, metric: String, kind: BusKind, address: u16 },
    MidEndianNotSupported { collector: String, metric: String, kind: BusKind },
    SpiCommandRequired { collector: String, metric: String },
    SpiResponseTooShort {
        collector: String,
        metric: String,
        response_offset: u16,
        data_bytes: u16,
        response_length: u16,
    },
    CounterBool { collector: String, metric: String },
    ScaleZero { collector: String, metric: String },
    AddressOverflow { collector: String, metric: String, address: u16, count: u16 },
}

/// Smallest accepted polling interval.
pub const MIN_POLLING_INTERVAL_MS: u64 = 100;

pub open spec fn bus_kind(p: Protocol) -> BusKind {
    match p {
        Protocol::ModbusTcp { .. } | Protocol::ModbusRtu { .. } => BusKind::Modbus,
        Protocol::I2c { .. } => BusKind::I2c,
        Protocol::Spi { .. } => BusKind::Spi,
        Protocol::I3c { .. } => BusKind::I3c,
    }
}

pub fn protocol_kind(p: &Protocol) -> (k: BusKind)
    ensures
        k == bus_kind(*p),
{
    match p {
        Protocol::ModbusTcp { .. } | Protocol::ModbusRtu { .. } => BusKind::Modbus,
        Protocol::I2c { .. } => BusKind::I2c,
        Protocol::Spi { .. } => BusKind::Spi,
        Protocol::I3c { .. } => BusKind::I3c,
    }
}

// ── Rules ─────────────────────────────────────────────────────────────

pub open spec fn exporter_enabled_otlp(e: Exporters) -> bool {
    e.otlp is Some && e.otlp->Some_0.enabled
}

pub open spec fn exporter_enabled_prometheus(e: Exporters) -> bool {
    e.prometheus is Some && e.prometheus->Some_0.enabled
}

pub open spec fn exporter_enabled_mqtt(e: Exporters) -> bool {
    e.mqtt is Some && e.mqtt->Some_0.enabled
}

/// The first broken rule among the MQTT exporter settings.
pub open spec fn mqtt_error(m: MqttExporter) -> Option<ConfigError> {
    if m.enabled && m.endpoint is None {
        Some(ConfigError::MqttMissingEndpoint)
    } else if m.enabled && !has_prefix(m.endpoint->Some_0@, "mqtt://"@) && !has_prefix(
        m.endpoint->Some_0@,
        "mqtts://"@,
    ) {
        Some(ConfigError::MqttBadScheme)
    } else if m.qos > 2 {
        Some(ConfigError::MqttBadQos { qos: m.qos })
    } else if m.tls is Some && (m.tls->Some_0.client_cert is Some
        != m.tls->Some_0.client_key is Some) {
        Some(ConfigError::MqttTlsIncomplete)
    } else {
        None
    }
}

/// The first broken rule among the exporter settings.
pub open spec fn exporters_error(e: Exporters) -> Option<ConfigError> {
    if !exporter_enabled_otlp(e) && !exporter_enabled_prometheus(e) && !exporter_enabled_mqtt(e) {
        Some(ConfigError::NoExporterEnabled)
    } else if exporter_enabled_otlp(e) && e.otlp->Some_0.endpoint is None {
        Some(ConfigError::OtlpMissingEndpoint)
    } else if e.mqtt is Some {
        mqtt_error(e.mqtt->Some_0)
    } else {
        None
    }
}

/// `host:port` with a port that parses as a 16-bit number after the last `:`.
pub open spec fn valid_tcp_endpoint(ep: Seq<char>) -> bool {
    match last_index_of(ep, ':') {
        Some(i) => spec_parse_u16(ep.skip(i + 1)) is Some,
        None => false,
    }
}

pub open spec fn is_hex_digit(c: char) -> bool {
    ('0' <= c && c <= '9') || ('a' <= c && c <= 'f') || ('A' <= c && c <= 'F')
}

/// The digits of a PID: the text after an optional `0x`/`0X` prefix.
pub open spec fn pid_digits(p: Seq<char>) -> Seq<char> {
    if p.len() >= 2 && p[0] == '0' && (p[1] == 'x' || p[1] == 'X') {
        p.skip(2)
    } else {
        p
    }
}

/// A 48-bit provisioned ID: one to twelve hex digits, optionally prefixed by `0x`.
pub open spec fn valid_pid(p: Seq<char>) -> bool {
    let ds = pid_digits(p);
    1 <= ds.len() <= 12 && forall|i: int| 0 <= i < ds.len() ==> is_hex_digit(#[trigger] ds[i])
}

pub open spec fn modbus_slave_error(c: Collector) -> Option<ConfigError> {
    match c.slave_id {
        Some(id) => if id == 0 || id > 247 {
            Some(ConfigError::SlaveIdOutOfRange { collector: c.name, slave_id: id })
        } else {
            None
        },
        None => Some(ConfigError::SlaveIdMissing { collector: c.name }),
    }
}

pub open spec fn i3c_mode_count(pid: Option<String>, address: Option<u8>, device_class: Option<String>) -> int {
    (if pid is Some { 1int } else { 0int }) + (if address is Some { 1int } else { 0int }) + (
    if device_class is Some { 1int } else { 0int })
}

/// The first broken protocol-specific rule of a collector.
pub open spec fn protocol_error(c: Collector) -> Option<ConfigError> {
    match c.protocol {
        Protocol::ModbusTcp { endpoint } => if modbus_slave_error(c) is Some {
            modbus_slave_error(c)
        } else if !valid_tcp_endpoint(endpoint@) {
            Some(ConfigError::InvalidTcpEndpoint { collector: c.name, endpoint })
        } else {
            None
        },
        Protocol::ModbusRtu { data_bits, stop_bits, .. } => if modbus_slave_error(c) is Some {
            modbus_slave_error(c)
        } else if !(5 <= data_bits <= 8) {
            Some(ConfigError::DataBitsOutOfRange { collector: c.name, data_bits })
        } else if !(1 <= stop_bits <= 2) {
            Some(ConfigError::StopBitsOutOfRange { collector: c.name, stop_bits })
        } else {
            None
        },
        Protocol::I2c { bus, address } => if bus@.len() == 0 {
            Some(ConfigError::BusPathEmpty { collector: c.name, kind: BusKind::I2c })
        } else if address < 0x03 || address > 0x77 {
            Some(ConfigError::I2cAddressOutOfRange { collector: c.name, address })
        } else {
            None
        },
        Protocol::Spi { device, speed_hz, mode, bits_per_word } => if device@.len() == 0 {
            Some(ConfigError::BusPathEmpty { collector: c.name, kind: BusKind::Spi })
        } else if speed_hz == 0 {
            Some(ConfigError::SpiSpeedZero { collector: c.name })
        } else if mode > 3 {
            Some(ConfigError::SpiModeOutOfRange { collector: c.name, mode })
        } else if bits_per_word == 0 || bits_per_word > 32 {
            Some(ConfigError::SpiBitsPerWordOutOfRange { collector: c.name, bits_per_word })
        } else {
            None
        },
        Protocol::I3c { bus, pid, address, device_class, instance } => if bus@.len() == 0 {
            Some(ConfigError::BusPathEmpty { collector: c.name, kind: BusKind::I3c })
        } else if c.slave_id is Some {
            Some(ConfigError::SlaveIdNotAllowed { collector: c.name })
        } else if i3c_mode_count(pid, address, device_class) != 1 {
            Some(ConfigError::I3cAddressModeCount { collector: c.name })
        } else if pid is Some && !valid_pid(pid->Some_0@) {
            Some(ConfigError::I3cInvalidPid { collector: c.name, pid: pid->Some_0 })
        } else if address is Some && (address->Some_0 < 0x08 || address->Some_0 > 0x77) {
            Some(ConfigError::I3cAddressOutOfRange { collector: c.name, address: address->Some_0 })
        } else if device_class is Some && instance is None {
            Some(ConfigError::I3cMissingInstance { collector: c.name })
        } else {
            None
        },
    }
}

pub open spec fn is_bit_register(rt: RegisterType) -> bool {
    rt == RegisterType::Coil || rt == RegisterType::Discrete
}

pub open spec fn is_mid_endian(bo: ByteOrder) -> bool {
    bo == ByteOrder::MidBigEndian || bo == ByteOrder::MidLittleEndian
}

/// Response length of an SPI metric: the configured one, else the command length.
pub open spec fn spi_response_length(m: Metric) -> u16 {
    match m.response_length {
        Some(l) => l,
        None => m.command@.len() as u16,
    }
}

pub open spec fn register_type_or_holding(m: Metric) -> RegisterType {
    match m.register_type {
        Some(rt) => rt,
        None => RegisterType::Holding,
    }
}

/// Whether metric `j` of `c` reuses the name of an earlier metric.
pub open spec fn metric_name_repeated(c: Collector, j: int) -> bool {
    exists|k: int| 0 <= k < j && c.metrics@[k].name@ == c.metrics@[j].name@
}

/// The first broken rule of metric `j` of collector `c`.
pub open spec fn metric_error(c: Collector, j: int) -> Option<ConfigError> {
    let m = c.metrics@[j];
    let kind = bus_kind(c.protocol);
    let rt = register_type_or_holding(m);
    if metric_name_repeated(c, j) {
        Some(ConfigError::DuplicateMetric { collector: c.name, metric: m.name })
    } else if kind != BusKind::Spi && m.address is None {
        Some(ConfigError::AddressRequired { collector: c.name, metric: m.name, kind })
    } else if kind == BusKind::Modbus && is_bit_register(rt) && m.data_type != DataType::Bool {
        Some(ConfigError::CoilMustBeBool { collector: c.name, metric: m.name })
    } else if kind == BusKind::Modbus && m.data_type == DataType::Bool && !is_bit_register(rt) {
        Some(ConfigError::BoolMustBeCoil { collector: c.name, metric: m.name })
    } else if kind == BusKind::Modbus && m.metric_type == MetricType::Counter && is_bit_register(
        rt,
    ) {
        Some(ConfigError::CounterOnBitRegister { collector: c.name, metric: m.name })
    } else if kind == BusKind::Modbus && m.register_type is None {
        Some(ConfigError::RegisterTypeRequired { collector: c.name, metric: m.name })
    } else if kind == BusKind::Modbus && m.data_type == DataType::U8 {
        Some(ConfigError::U8NotForModbus { collector: c.name, metric: m.name })
    } else if (kind == BusKind::I2c || kind == BusKind::I3c) && m.address->Some_0 > 0xFF {
        Some(
            ConfigError::RegisterAddressTooLarge {
                collector: c.name,
                metric: m.name,
                kind,
                address: m.address->Some_0,
            },
        )
    } else if (kind == BusKind::I2c || kind == BusKind::I3c) && is_mid_endian(m.byte_order) {
        Some(ConfigError::MidEndianNotSupported { collector: c.name, metric: m.name, kind })
    } else if kind == BusKind::Spi && m.command@.len() == 0 {
        Some(ConfigError::SpiCommandRequired { collector: c.name, metric: m.name })
    } else if kind == BusKind::Spi && is_mid_endian(m.byte_order) {
        Some(ConfigError::MidEndianNotSupported { collector: c.name, metric: m.name, kind })
    } else if kind == BusKind::Spi && m.response_offset + spec_byte_size(m.data_type)
        > spi_response_length(m) {
        Some(
            ConfigError::SpiResponseTooShort {
                collector: c.name,
                metric: m.name,
                response_offset: m.response_offset,
                data_bytes: spec_byte_size(m.data_type) as u16,
                response_length: spi_response_length(m),
            },
        )
    } else if m.metric_type == MetricType::Counter && m.data_type == DataType::Bool {
        Some(ConfigError::CounterBool { collector: c.name, metric: m.name })
    } else if is_zero_bits(m.scale_bits) {
        Some(ConfigError::ScaleZero { collector: c.name, metric: m.name })
    } else if kind == BusKind::Modbus && m.address->Some_0 + spec_register_count(m.data_type)
        > 65536 {
        Some(
            ConfigError::AddressOverflow {
                collector: c.name,
                metric: m.name,
                address: m.address->Some_0,
                count: spec_register_count(m.data_type) as u16,
            },
        )
    } else {
        None
    }
}

/// The first broken rule among the metrics of `c` from index `j` on.
pub open spec fn metrics_error_from(c: Collector, j: int) -> Option<ConfigError>
    decreases c.metrics@.len() - j,
{
    if j < 0 || j >= c.metrics@.len() {
        None
    } else if metric_error(c, j) is Some {
        metric_error(c, j)
    } else {
        metrics_error_from(c, j + 1)
    }
}

/// Whether collector `i` reuses the name of an earlier collector.
pub open spec fn collector_name_repeated(cs: Seq<Collector>, i: int) -> bool {
    exists|k: int| 0 <= k < i && cs[k].name@ == cs[i].name@
}

/// The first broken rule of collector `i`.
pub open spec fn collector_error(cs: Seq<Collector>, i: int) -> Option<ConfigError> {
    let c = cs[i];
    if collector_name_repeated(cs, i) {
        Some(ConfigError::DuplicateCollector { collector: c.name })
    } else if protocol_error(c) is Some {
        protocol_error(c)
    } else if c.polling_interval_ms < MIN_POLLING_INTERVAL_MS {
        Some(
            ConfigError::PollingIntervalTooShort {
                collector: c.name,
                interval_ms: c.polling_interval_ms,
            },
        )
    } else if c.metrics@.len() == 0 {
        Some(ConfigError::NoMetrics { collector: c.name })
    } else {
        metrics_error_from(c, 0)
    }
}

/// The first broken rule among the collectors from index `i` on.
pub open spec fn collectors_error_from(cs: Seq<Collector>, i: int) -> Option<ConfigError>
    decreases cs.len() - i,
{
    if i < 0 || i >= cs.len() {
        None
    } else if collector_error(cs, i) is Some {
        collector_error(cs, i)
    } else {
        collectors_error_from(cs, i + 1)
    }
}

/// What validating `cfg` yields: the first broken rule, or success.
pub open spec fn spec_validate(cfg: Config) -> Result<(), ConfigError> {
    if exporters_error(cfg.exporters) is Some {
        Err(exporters_error(cfg.exporters)->Some_0)
    } else if cfg.collectors@.len() == 0 {
        Err(ConfigError::NoCollectors)
    } else if collectors_error_from(cfg.collectors@, 0) is Some {
        Err(collectors_error_from(cfg.collectors@, 0)->Some_0)
    } else {
        Ok(())
    }
}

// ── What a valid configuration guarantees ──────────────────────────

proof fn lemma_metrics_ok(c: Collector, j: int)
    requires
        0 <= j,
        metrics_error_from(c, j) is None,
    ensures
        forall|k: int| j <= k < c.metrics@.len() ==> #[trigger] metric_error(c, k) is None,
    decreases c.metrics@.len() - j,
{
    if j < c.metrics@.len() {
        lemma_metrics_ok(c, j + 1);
    }
}

proof fn lemma_collectors_ok(cs: Seq<Collector>, i: int)
    requires
        0 <= i,
        collectors_error_from(cs, i) is None,
    ensures
        forall|k: int| i <= k < cs.len() ==> #[trigger] collector_error(cs, k) is None,
    decreases cs.len() - i,
{
    if i < cs.len() {
        lemma_collectors_ok(cs, i + 1);
    }
}

/// A configuration that validates enables at least one exporter and has at
/// least one collector; collector names are distinct; and every collector
/// polls at most every 100 ms, has at least one metric, and no two of its
/// metrics share a name.
pub proof fn law_valid_config(cfg: Config)
    requires
        spec_validate(cfg) is Ok,
    ensures
        exporter_enabled_otlp(cfg.exporters) || exporter_enabled_prometheus(cfg.exporters)
            || exporter_enabled_mqtt(cfg.exporters),
        cfg.collectors@.len() > 0,
        forall|a: int, b: int|
            0 <= a < b < cfg.collectors@.len() ==> #[trigger] cfg.collectors@[a].name@
                != #[trigger] cfg.collectors@[b].name@,
        forall|i: int|
            0 <= i < cfg.collectors@.len() ==> (#[trigger] cfg.collectors@[i]).polling_interval_ms
                >= MIN_POLLING_INTERVAL_MS && cfg.collectors@[i].metrics@.len() > 0,
        forall|i: int, a: int, b: int|
            0 <= i < cfg.collectors@.len() && 0 <= a < b < cfg.collectors@[i].metrics@.len()
                ==> #[trigger] cfg.collectors@[i].metrics@[a].name@
                != #[trigger] cfg.collectors@[i].metrics@[b].name@,
{
    let cs = cfg.collectors@;
    lemma_collectors_ok(cs, 0);
    assert forall|a: int, b: int| 0 <= a < b < cs.len() implies #[trigger] cs[a].name@
        != #[trigger] cs[b].name@ by {
        assert(collector_error(cs, b) is None);
        if cs[a].name@ == cs[b].name@ {
            assert(collector_name_repeated(cs, b));
        }
    }
    assert forall|i: int| 0 <= i < cs.len() implies (#[trigger] cs[i]).polling_interval_ms
        >= MIN_POLLING_INTERVAL_MS && cs[i].metrics@.len() > 0 by {
        assert(collector_error(cs, i) is None);
    }
    assert forall|i: int, a: int, b: int|
        0 <= i < cs.len() && 0 <= a < b < cs[i].metrics@.len() implies #[trigger] cs[i].metrics@[a].name@
        != #[trigger] cs[i].metrics@[b].name@ by {
        assert(collector_error(cs, i) is None);
        lemma_metrics_ok(cs[i], 0);
        assert(metric_error(cs[i], b) is None);
        if cs[i].metrics@[a].name@ == cs[i].metrics@[b].name@ {
            assert(metric_name_repeated(cs[i], b));
        }
    }
}

// ── Checks ────────────────────────────────────────────────────────────

fn check_exporters(e: &Exporters) -> (r: Option<ConfigError>)
    ensures
        r == exporters_error(*e),
{
    let otlp_on = match &e.otlp {
        Some(o) => o.enabled,
        None => false,
    };
    let prom_on = match &e.prometheus {
        Some(p) => p.enabled,
        None => false,
    };
    let mqtt_on = match &e.mqtt {
        Some(m) => m.enabled,
        None => false,
    };
    if !otlp_on && !prom_on && !mqtt_on {
        return Some(ConfigError::NoExporterEnabled);
    }
    if let Some(o) = &e.otlp {
        if o.enabled && o.endpoint.is_none() {
            return Some(ConfigError::OtlpMissingEndpoint);
        }
    }
    if let Some(m) = &e.mqtt {
        if m.enabled {
            match &m.endpoint {
                None => {
                    return Some(ConfigError::MqttMissingEndpoint);
                },
                Some(ep) => {
                    let chars = chars_of(ep.as_str());
                    let plain = chars_of("mqtt://");
                    let secure = chars_of("mqtts://");
                    if !starts_with_chars(&chars, &plain) && !starts_with_chars(&chars, &secure) {
                        return Some(ConfigError::MqttBadScheme);
                    }
                },
            }
        }
        if m.qos > 2 {
            return Some(ConfigError::MqttBadQos { qos: m.qos });
        }
        if let Some(t) = &m.tls {
            if t.client_cert.is_some() != t.client_key.is_some() {
                return Some(ConfigError::MqttTlsIncomplete);
            }
        }
    }
    None
}

/// Whether `ep` is a `host:port` endpoint.
pub fn is_valid_tcp_endpoint(ep: &str) -> (b: bool)
    ensures
        b == valid_tcp_endpoint(ep@),
{
    let chars = chars_of(ep);
    match rfind_char(&chars, ':') {
        Some(i) => {
            let n = chars.len();
            assert(i < n);
            let mut port: Vec<char> = Vec::new();
            let mut k = i + 1;
            while k < chars.len()
                invariant
                    i < chars@.len(),
                    i + 1 <= k <= chars@.len(),
                    port@ =~= chars@.subrange(i + 1, k as int),
                decreases chars@.len() - k,
            {
                port.push(chars[k]);
                k = k + 1;
            }
            assert(port@ =~= chars@.skip(i + 1));
            parse_u16(&port).is_some()
        },
        None => false,
    }
}

fn is_hex_digit_exec(c: char) -> (b: bool)
    ensures
        b == is_hex_digit(c),
{
    ('0' <= c && c <= '9') || ('a' <= c && c <= 'f') || ('A' <= c && c <= 'F')
}

/// Whether `pid` is a valid I3C provisioned ID.
pub fn is_valid_pid(pid: &str) -> (b: bool)
    ensures
        b == valid_pid(pid@),
{
    let p = chars_of(pid);
    let start: usize = if p.len() >= 2 && p[0] == '0' && (p[1] == 'x' || p[1] == 'X') {
        2
    } else {
        0
    };
    let ghost ds = pid_digits(p@);
    assert(ds =~= p@.skip(start as int));
    let n = p.len() - start;
    if n < 1 || n > 12 {
        return false;
    }
    let mut k = start;
    while k < p.len()
        invariant
            start <= k <= p@.len(),
            ds =~= p@.skip(start as int),
            ds == pid_digits(p@),
            p@ == pid@,
            forall|i: int| 0 <= i < k - start ==> is_hex_digit(#[trigger] ds[i]),
        decreases p@.len() - k,
    {
        if !is_hex_digit_exec(p[k]) {
            assert(!is_hex_digit(ds[k - start]));
            return false;
        }
        k = k + 1;
    }
    true
}

fn check_modbus_slave(c: &Collector) -> (r: Option<ConfigError>)
    ensures
        r == modbus_slave_error(*c),
{
    match c.slave_id {
        Some(id) => if id == 0 || id > 247 {
            Some(ConfigError::SlaveIdOutOfRange { collector: c.name.clone(), slave_id: id })
        } else {
            None
        },
        None => Some(ConfigError::SlaveIdMissing { collector: c.name.clone() }),
    }
}

fn check_protocol(c: &Collector) -> (r: Option<ConfigError>)
    ensures
        r == protocol_error(*c),
{
    match &c.protocol {
        Protocol::ModbusTcp { endpoint } => {
            let s = check_modbus_slave(c);
            if s.is_some() {
                s
            } else if !is_valid_tcp_endpoint(endpoint.as_str()) {
                Some(
                    ConfigError::InvalidTcpEndpoint {
                        collector: c.name.clone(),
                        endpoint: endpoint.clone(),
                    },
                )
            } else {
                None
            }
        },
        Protocol::ModbusRtu { data_bits, stop_bits, .. } => {
            let s = check_modbus_slave(c);
            if s.is_some() {
                s
            } else if !(5 <= *data_bits && *data_bits <= 8) {
                Some(ConfigError::DataBitsOutOfRange { collector: c.name.clone(), data_bits: *data_bits })
            } else if !(1 <= *stop_bits && *stop_bits <= 2) {
                Some(ConfigError::StopBitsOutOfRange { collector: c.name.clone(), stop_bits: *stop_bits })
            } else {
                None
            }
        },
        Protocol::I2c { bus, address } => {
            if bus.as_str().is_empty() {
                Some(ConfigError::BusPathEmpty { collector: c.name.clone(), kind: BusKind::I2c })
            } else if *address < 0x03 || *address > 0x77 {
                Some(ConfigError::I2cAddressOutOfRange { collector: c.name.clone(), address: *address })
            } else {
                None
            }
        },
        Protocol::Spi { device, speed_hz, mode, bits_per_word } => {
            if device.as_str().is_empty() {
                Some(ConfigError::BusPathEmpty { collector: c.name.clone(), kind: BusKind::Spi })
            } else if *speed_hz == 0 {
                Some(ConfigError::SpiSpeedZero { collector: c.name.clone() })
            } else if *mode > 3 {
                Some(ConfigError::SpiModeOutOfRange { collector: c.name.clone(), mode: *mode })
            } else if *bits_per_word == 0 || *bits_per_word > 32 {
                Some(
                    ConfigError::SpiBitsPerWordOutOfRange {
                        collector: c.name.clone(),
                        bits_per_word: *bits_per_word,
                    },
                )
            } else {
                None
            }
        },
        Protocol::I3c { bus, pid, address, device_class, instance } => {
            let count: u8 = (if pid.is_some() { 1u8 } else { 0u8 }) + (if address.is_some() {
                1u8
            } else {
                0u8
            }) + (if device_class.is_some() { 1u8 } else { 0u8 });
            if bus.as_str().is_empty() {
                Some(ConfigError::BusPathEmpty { collector: c.name.clone(), kind: BusKind::I3c })
            } else if c.slave_id.is_some() {
                Some(ConfigError::SlaveIdNotAllowed { collector: c.name.clone() })
            } else if count != 1 {
                Some(ConfigError::I3cAddressModeCount { collector: c.name.clone() })
            } else {
                if let Some(p) = pid {
                    if !is_valid_pid(p.as_str()) {
                        return Some(
                            ConfigError::I3cInvalidPid { collector: c.name.clone(), pid: p.clone() },
                        );
                    }
                }
                if let Some(a) = address {
                    if *a < 0x08 || *a > 0x77 {
                        return Some(
                            ConfigError::I3cAddressOutOfRange {
                                collector: c.name.clone(),
                                address: *a,
                            },
                        );
                    }
                }
                if device_class.is_some() && instance.is_none() {
                    return Some(ConfigError::I3cMissingInstance { collector: c.name.clone() });
                }
                None
            }
        },
    }
}

fn is_bit_register_exec(rt: RegisterType) -> (b: bool)
    ensures
        b == is_bit_register(rt),
{
    rt == RegisterType::Coil || rt == RegisterType::Discrete
}

fn is_mid_endian_exec(bo: ByteOrder) -> (b: bool)
    ensures
        b == is_mid_endian(bo),
{
    bo == ByteOrder::MidBigEndian || bo == ByteOrder::MidLittleEndian
}

fn metric_name_seen(c: &Collector, j: usize) -> (b: bool)
    requires
        j < c.metrics@.len(),
    ensures
        b == metric_name_repeated(*c, j as int),
{
    let mut k: usize = 0;
    while k < j
        invariant
            j < c.metrics@.len(),
            k <= j,
            forall|q: int| 0 <= q < k ==> c.metrics@[q].name@ != c.metrics@[j as int].name@,
        decreases j - k,
    {
        if c.metrics[k].name == c.metrics[j].name {
            return true;
        }
        k = k + 1;
    }
    false
}

fn check_metric(c: &Collector, kind: BusKind, j: usize) -> (r: Option<ConfigError>)
    requires
        j < c.metrics@.len(),
        kind == bus_kind(c.protocol),
    ensures
        r == metric_error(*c, j as int),
{
    let m = &c.metrics[j];
    let rt = match m.register_type {
        Some(rt) => rt,
        None => RegisterType::Holding,
    };
    let modbus = kind == BusKind::Modbus;
    let byte_bus = kind == BusKind::I2c || kind == BusKind::I3c;
    let spi = kind == BusKind::Spi;
    if metric_name_seen(c, j) {
        return Some(ConfigError::DuplicateMetric { collector: c.name.clone(), metric: m.name.clone() });
    }
    if !spi && m.address.is_none() {
        return Some(
            ConfigError::AddressRequired { collector: c.name.clone(), metric: m.name.clone(), kind },
        );
    }
    if modbus && is_bit_register_exec(rt) && m.data_type != DataType::Bool {
        return Some(ConfigError::CoilMustBeBool { collector: c.name.clone(), metric: m.name.clone() });
    }
    if modbus && m.data_type == DataType::Bool && !is_bit_register_exec(rt) {
        return Some(ConfigError::BoolMustBeCoil { collector: c.name.clone(), metric: m.name.clone() });
    }
    if modbus && m.metric_type == MetricType::Counter && is_bit_register_exec(rt) {
        return Some(
            ConfigError::CounterOnBitRegister { collector: c.name.clone(), metric: m.name.clone() },
        );
    }
    if modbus && m.register_type.is_none() {
        return Some(
            ConfigError::RegisterTypeRequired { collector: c.name.clone(), metric: m.name.clone() },
        );
    }
    if modbus && m.data_type == DataType::U8 {
        return Some(ConfigError::U8NotForModbus { collector: c.name.clone(), metric: m.name.clone() });
    }
    if byte_bus {
        let address = match m.address {
            Some(a) => a,
            None => 0,
        };
        if address > 0xFF {
            return Some(
                ConfigError::RegisterAddressTooLarge {
                    collector: c.name.clone(),
                    metric: m.name.clone(),
                    kind,
                    address,
                },
            );
        }
        if is_mid_endian_exec(m.byte_order) {
            return Some(
                ConfigError::MidEndianNotSupported {
                    collector: c.name.clone(),
                    metric: m.name.clone(),
                    kind,
                },
            );
        }
    }
    if spi {
        if m.command.len() == 0 {
            return Some(
                ConfigError::SpiCommandRequired { collector: c.name.clone(), metric: m.name.clone() },
            );
        }
        if is_mid_endian_exec(m.byte_order) {
            return Some(
                ConfigError::MidEndianNotSupported {
                    collector: c.name.clone(),
                    metric: m.name.clone(),
                    kind,
                },
            );
        }
        let resp_len: u16 = match m.response_length {
            Some(l) => l,
            None => m.command.len() as u16,
        };
        let data_bytes = m.data_type.byte_size() as u16;
        if (m.response_offset as u32) + (data_bytes as u32) > resp_len as u32 {
            return Some(
                ConfigError::SpiResponseTooShort {
                    collector: c.name.clone(),
                    metric: m.name.clone(),
                    response_offset: m.response_offset,
                    data_bytes,
                    response_length: resp_len,
                },
            );
        }
    }
    if m.metric_type == MetricType::Counter && m.data_type == DataType::Bool {
        return Some(ConfigError::CounterBool { collector: c.name.clone(), metric: m.name.clone() });
    }
    if m.scale_bits == 0 || m.scale_bits == 0x8000_0000_0000_0000 {
        return Some(ConfigError::ScaleZero { collector: c.name.clone(), metric: m.name.clone() });
    }
    if modbus {
        let address = match m.address {
            Some(a) => a,
            None => 0,
        };
        let count = m.data_type.register_count();
        if (address as u32) + (count as u32) > 65536 {
            return Some(
                ConfigError::AddressOverflow {
                    collector: c.name.clone(),
                    metric: m.name.clone(),
                    address,
                    count,
                },
            );
        }
    }
    None
}

fn collector_name_seen(cs: &Vec<Collector>, i: usize) -> (b: bool)
    requires
        i < cs@.len(),
    ensures
        b == collector_name_repeated(cs@, i as int),
{
    let mut k: usize = 0;
    while k < i
        invariant
            i < cs@.len(),
            k <= i,
            forall|q: int| 0 <= q < k ==> cs@[q].name@ != cs@[i as int].name@,
        decreases i - k,
    {
        if cs[k].name == cs[i].name {
            return true;
        }
        k = k + 1;
    }
    false
}

fn check_collector(cs: &Vec<Collector>, i: usize) -> (r: Option<ConfigError>)
    requires
        i < cs@.len(),
    ensures
        r == collector_error(cs@, i as int),
{
    let c = &cs[i];
    if collector_name_seen(cs, i) {
        return Some(ConfigError::DuplicateCollector { collector: c.name.clone() });
    }
    let p = check_protocol(c);
    if p.is_some() {
        return p;
    }
    if c.polling_interval_ms < MIN_POLLING_INTERVAL_MS {
        return Some(
            ConfigError::PollingIntervalTooShort {
                collector: c.name.clone(),
                interval_ms: c.polling_interval_ms,
            },
        );
    }
    if c.metrics.len() == 0 {
        return Some(ConfigError::NoMetrics { collector: c.name.clone() });
    }
    let kind = protocol_kind(&c.protocol);
    assert(collector_error(cs@, i as int) == metrics_error_from(*c, 0));
    let mut j: usize = 0;
    while j < c.metrics.len()
        invariant
            i < cs@.len(),
            *c == cs@[i as int],
            collector_error(cs@, i as int) == metrics_error_from(*c, 0),
            kind == bus_kind(c.protocol),
            j <= c.metrics@.len(),
            metrics_error_from(*c, 0) == metrics_error_from(*c, j as int),
        decreases c.metrics@.len() - j,
    {
        let e = check_metric(c, kind, j);
        if e.is_some() {
            return e;
        }
        j = j + 1;
    }
    None
}

impl Config {
    /// Checks every rule of the configuration; reports the first one broken.
    pub fn validate(&self) -> (r: Result<(), ConfigError>)
        ensures
            r == spec_validate(*self),
    {
        let e = check_exporters(&self.exporters);
        if let Some(err) = e {
            return Err(err);
        }
        if self.collectors.len() == 0 {
            return Err(ConfigError::NoCollectors);
        }
        assert(exporters_error(self.exporters) is None);
        let mut i: usize = 0;
        while i < self.collectors.len()
            invariant
                i <= self.collectors@.len(),
                exporters_error(self.exporters) is None,
                self.collectors@.len() > 0,
                collectors_error_from(self.collectors@, 0) == collectors_error_from(
                    self.collectors@,
                    i as int,
                ),
            decreases self.collectors@.len() - i,
        {
            let e = check_collector(&self.collectors, i);
            if let Some(err) = e {
                return Err(err);
            }
            i = i + 1;
        }
        Ok(())
    }
}


// ── Messages ──────────────────────────────────────────────────────────

pub open spec fn kind_label(k: BusKind) -> Seq<char> {
    match k {
        BusKind::Modbus => "Modbus"@,
        BusKind::I2c => "I2C"@,
        BusKind::Spi => "SPI"@,
        BusKind::I3c => "I3C"@,
    }
}

/// What a bus's path names: the SPI device, or the I2C/I3C bus.
pub open spec fn path_label(k: BusKind) -> Seq<char> {
    match k {
        BusKind::Spi => " device path must not be empty"@,
        _ => " bus path must not be empty"@,
    }
}

pub open spec fn collector_prefix(c: String) -> Seq<char> {
    "collector '"@ + c@ + "': "@
}

pub open spec fn metric_prefix(c: String, m: String) -> Seq<char> {
    "collector '"@ + c@ + "', metric '"@ + m@ + "': "@
}

/// The text of each error.
pub open spec fn spec_message(e: ConfigError) -> Seq<char> {
    match e {
        ConfigError::NoExporterEnabled => "at least one exporter must be enabled"@,
        ConfigError::OtlpMissingEndpoint => "otlp exporter is enabled but no endpoint is set"@,
        ConfigError::MqttMissingEndpoint => "mqtt exporter is enabled but no endpoint is set"@,
        ConfigError::MqttBadScheme => "mqtt endpoint must start with mqtt:// or mqtts://"@,
        ConfigError::MqttBadQos { qos } => "mqtt qos must be 0, 1, or 2, got "@ + decimal(
            qos as nat,
        ),
        ConfigError::MqttTlsIncomplete =>
            "mqtt tls: client_cert and client_key must both be set for mutual TLS"@,
        ConfigError::NoCollectors => "at least one collector must be defined"@,
        ConfigError::DuplicateCollector { collector } => "duplicate collector name: "@
            + collector@,
        ConfigError::SlaveIdOutOfRange { collector, slave_id } => collector_prefix(collector)
            + "slave_id must be 1-247, got "@ + decimal(slave_id as nat),
        ConfigError::SlaveIdMissing { collector } => collector_prefix(collector)
            + "slave_id is required for Modbus protocols"@,
        ConfigError::SlaveIdNotAllowed { collector } => collector_prefix(collector)
            + "slave_id is not used by I3C devices"@,
        ConfigError::InvalidTcpEndpoint { collector, endpoint } => collector_prefix(collector)
            + "invalid TCP endpoint '"@ + endpoint@
            + "' (expected host:port, e.g. 127.0.0.1:502)"@,
        ConfigError::DataBitsOutOfRange { collector, data_bits } => collector_prefix(collector)
            + "data_bits must be 5-8, got "@ + decimal(data_bits as nat),
        ConfigError::StopBitsOutOfRange { collector, stop_bits } => collector_prefix(collector)
            + "stop_bits must be 1-2, got "@ + decimal(stop_bits as nat),
        ConfigError::BusPathEmpty { collector, kind } => collector_prefix(collector) + kind_label(
            kind,
        ) + path_label(kind),
        ConfigError::I2cAddressOutOfRange { collector, address } => collector_prefix(collector)
            + "I2C address must be 0x03-0x77, got "@ + hex_padded(address as nat, 2),
        ConfigError::SpiSpeedZero { collector } => collector_prefix(collector)
            + "SPI speed_hz must be > 0"@,
        ConfigError::SpiModeOutOfRange { collector, mode } => collector_prefix(collector)
            + "SPI mode must be 0-3, got "@ + decimal(mode as nat),
        ConfigError::SpiBitsPerWordOutOfRange { collector, bits_per_word } => collector_prefix(
            collector,
        ) + "SPI bits_per_word must be 1-32, got "@ + decimal(bits_per_word as nat),
        ConfigError::I3cAddressModeCount { collector } => collector_prefix(collector)
            + "I3C requires exactly one address mode (pid, address or device_class)"@,
        ConfigError::I3cInvalidPid { collector, pid } => collector_prefix(collector)
            + "invalid I3C PID '"@ + pid@ + "' (expected 1-12 hex digits, optional 0x prefix)"@,
        ConfigError::I3cAddressOutOfRange { collector, address } => collector_prefix(collector)
            + "I3C static address must be 0x08-0x77, got "@ + hex_padded(address as nat, 2),
        ConfigError::I3cMissingInstance { collector } => collector_prefix(collector)
            + "I3C device_class requires an instance"@,
        ConfigError::PollingIntervalTooShort { collector, interval_ms } => collector_prefix(
            collector,
        ) + "polling_interval must be at least 100ms, got "@ + decimal(interval_ms as nat)
            + "ms"@,
        ConfigError::NoMetrics { collector } => collector_prefix(collector)
            + "at least one metric required"@,
        ConfigError::DuplicateMetric { collector, metric } => collector_prefix(collector)
            + "duplicate metric name: "@ + metric@,
        ConfigError::AddressRequired { collector, metric, kind } => metric_prefix(
            collector,
            metric,
        ) + "address is required for "@ + kind_label(kind) + " protocol"@,
        ConfigError::CoilMustBeBool { collector, metric } => metric_prefix(collector, metric)
            + "coil/discrete register must use data_type bool"@,
        ConfigError::BoolMustBeCoil { collector, metric } => metric_prefix(collector, metric)
            + "bool data_type must use coil or discrete register"@,
        ConfigError::CounterOnBitRegister { collector, metric } => metric_prefix(
            collector,
            metric,
        ) + "coil/discrete registers only support gauge metric type"@,
        ConfigError::RegisterTypeRequired { collector, metric } => metric_prefix(
            collector,
            metric,
        ) + "register_type is required for Modbus protocols"@,
        ConfigError::U8NotForModbus { collector, metric } => metric_prefix(collector, metric)
            + "data_type u8 is not supported for Modbus protocols (minimum register size is 16-bit)"@,
        ConfigError::RegisterAddressTooLarge { collector, metric, kind, address } => metric_prefix(
            collector,
            metric,
        ) + kind_label(kind) + " register address "@ + hex_padded(address as nat, 4)
            + " exceeds u8 range (max 0xFF)"@,
        ConfigError::MidEndianNotSupported { collector, metric, kind } => metric_prefix(
            collector,
            metric,
        ) + "mid-endian byte order is not supported for "@ + kind_label(kind)
            + " (Modbus-specific)"@,
        ConfigError::SpiCommandRequired { collector, metric } => metric_prefix(collector, metric)
            + "command is required for SPI metrics"@,
        ConfigError::SpiResponseTooShort {
            collector,
            metric,
            response_offset,
            data_bytes,
            response_length,
        } => metric_prefix(collector, metric) + "response_offset ("@ + decimal(
            response_offset as nat,
        ) + ") + data_type bytes ("@ + decimal(data_bytes as nat)
            + ") exceeds response_length ("@ + decimal(response_length as nat) + ")"@,
        ConfigError::CounterBool { collector, metric } => metric_prefix(collector, metric)
            + "counter metric type cannot be used with bool data_type"@,
        ConfigError::ScaleZero { collector, metric } => metric_prefix(collector, metric)
            + "scale must not be 0.0"@,
        ConfigError::AddressOverflow { collector, metric, address, count } => metric_prefix(
            collector,
            metric,
        ) + "address "@ + decimal(address as nat) + " + "@ + decimal(count as nat)
            + " registers exceeds 65535"@,
    }
}

fn push_collector_prefix(s: &mut String, c: &String)
    ensures
        final(s)@ == old(s)@ + collector_prefix(*c),
{
    s.append("collector '");
    s.append(c.as_str());
    s.append("': ");
}

fn push_metric_prefix(s: &mut String, c: &String, m: &String)
    ensures
        final(s)@ == old(s)@ + metric_prefix(*c, *m),
{
    s.append("collector '");
    s.append(c.as_str());
    s.append("', metric '");
    s.append(m.as_str());
    s.append("': ");
}

fn push_kind(s: &mut String, k: BusKind)
    ensures
        final(s)@ == old(s)@ + kind_label(k),
{
    match k {
        BusKind::Modbus => s.append("Modbus"),
        BusKind::I2c => s.append("I2C"),
        BusKind::Spi => s.append("SPI"),
        BusKind::I3c => s.append("I3C"),
    }
}

impl ConfigError {
    /// Human-readable description of the broken rule.
    pub fn message(&self) -> (s: String)
        ensures
            s@ == spec_message(*self),
    {
        let mut s = String::new();
        match self {
            ConfigError::NoExporterEnabled => s.append("at least one exporter must be enabled"),
            ConfigError::OtlpMissingEndpoint => s.append(
                "otlp exporter is enabled but no endpoint is set",
            ),
            ConfigError::MqttMissingEndpoint => s.append(
                "mqtt exporter is enabled but no endpoint is set",
            ),
            ConfigError::MqttBadScheme => s.append(
                "mqtt endpoint must start with mqtt:// or mqtts://",
            ),
            ConfigError::MqttBadQos { qos } => {
                s.append("mqtt qos must be 0, 1, or 2, got ");
                push_decimal(&mut s, *qos as u64);
            },
            ConfigError::MqttTlsIncomplete => s.append(
                "mqtt tls: client_cert and client_key must both be set for mutual TLS",
            ),
            ConfigError::NoCollectors => s.append("at least one collector must be defined"),
            ConfigError::DuplicateCollector { collector } => {
                s.append("duplicate collector name: ");
                s.append(collector.as_str());
            },
            ConfigError::SlaveIdOutOfRange { collector, slave_id } => {
                push_collector_prefix(&mut s, collector);
                s.append("slave_id must be 1-247, got ");
                push_decimal(&mut s, *slave_id as u64);
            },
            ConfigError::SlaveIdMissing { collector } => {
                push_collector_prefix(&mut s, collector);
                s.append("slave_id is required for Modbus protocols");
            },
            ConfigError::SlaveIdNotAllowed { collector } => {
                push_collector_prefix(&mut s, collector);
                s.append("slave_id is not used by I3C devices");
            },
            ConfigError::InvalidTcpEndpoint { collector, endpoint } => {
                push_collector_prefix(&mut s, collector);
                s.append("invalid TCP endpoint '");
                s.append(endpoint.as_str());
                s.append("' (expected host:port, e.g. 127.0.0.1:502)");
            },
            ConfigError::DataBitsOutOfRange { collector, data_bits } => {
                push_collector_prefix(&mut s, collector);
                s.append("data_bits must be 5-8, got ");
                push_decimal(&mut s, *data_bits as u64);
            },
            ConfigError::StopBitsOutOfRange { collector, stop_bits } => {
                push_collector_prefix(&mut s, collector);
                s.append("stop_bits must be 1-2, got ");
                push_decimal(&mut s, *stop_bits as u64);
            },
            ConfigError::BusPathEmpty { collector, kind } => {
                push_collector_prefix(&mut s, collector);
                push_kind(&mut s, *kind);
                match kind {
                    BusKind::Spi => s.append(" device path must not be empty"),
                    _ => s.append(" bus path must not be empty"),
                }
            },
            ConfigError::I2cAddressOutOfRange { collector, address } => {
                push_collector_prefix(&mut s, collector);
                s.append("I2C address must be 0x03-0x77, got ");
                push_hex(&mut s, *address as u64, 2);
            },
            ConfigError::SpiSpeedZero { collector } => {
                push_collector_prefix(&mut s, collector);
                s.append("SPI speed_hz must be > 0");
            },
            ConfigError::SpiModeOutOfRange { collector, mode } => {
                push_collector_prefix(&mut s, collector);
                s.append("SPI mode must be 0-3, got ");
                push_decimal(&mut s, *mode as u64);
            },
            ConfigError::SpiBitsPerWordOutOfRange { collector, bits_per_word } => {
                push_collector_prefix(&mut s, collector);
                s.append("SPI bits_per_word must be 1-32, got ");
                push_decimal(&mut s, *bits_per_word as u64);
            },
            ConfigError::I3cAddressModeCount { collector } => {
                push_collector_prefix(&mut s, collector);
                s.append("I3C requires exactly one address mode (pid, address or device_class)");
            },
            ConfigError::I3cInvalidPid { collector, pid } => {
                push_collector_prefix(&mut s, collector);
                s.append("invalid I3C PID '");
                s.append(pid.as_str());
                s.append("' (expected 1-12 hex digits, optional 0x prefix)");
            },
            ConfigError::I3cAddressOutOfRange { collector, address } => {
                push_collector_prefix(&mut s, collector);
                s.append("I3C static address must be 0x08-0x77, got ");
                push_hex(&mut s, *address as u64, 2);
            },
            ConfigError::I3cMissingInstance { collector } => {
                push_collector_prefix(&mut s, collector);
                s.append("I3C device_class requires an instance");
            },
            ConfigError::PollingIntervalTooShort { collector, interval_ms } => {
                push_collector_prefix(&mut s, collector);
                s.append("polling_interval must be at least 100ms, got ");
                push_decimal(&mut s, *interval_ms);
                s.append("ms");
            },
            ConfigError::NoMetrics { collector } => {
                push_collector_prefix(&mut s, collector);
                s.append("at least one metric required");
            },
            ConfigError::DuplicateMetric { collector, metric } => {
                push_collector_prefix(&mut s, collector);
                s.append("duplicate metric name: ");
                s.append(metric.as_str());
            },
            ConfigError::AddressRequired { collector, metric, kind } => {
                push_metric_prefix(&mut s, collector, metric);
                s.append("address is required for ");
                push_kind(&mut s, *kind);
                s.append(" protocol");
            },
            ConfigError::CoilMustBeBool { collector, metric } => {
                push_metric_prefix(&mut s, collector, metric);
                s.append("coil/discrete register must use data_type bool");
            },
            ConfigError::BoolMustBeCoil { collector, metric } => {
                push_metric_prefix(&mut s, collector, metric);
                s.append("bool data_type must use coil or discrete register");
            },
            ConfigError::CounterOnBitRegister { collector, metric } => {
                push_metric_prefix(&mut s, collector, metric);
                s.append("coil/discrete registers only support gauge metric type");
            },
            ConfigError::RegisterTypeRequired { collector, metric } => {
                push_metric_prefix(&mut s, collector, metric);
                s.append("register_type is required for Modbus protocols");
            },
            ConfigError::U8NotForModbus { collector, metric } => {
                push_metric_prefix(&mut s, collector, metric);
                s.append(
                    "data_type u8 is not supported for Modbus protocols (minimum register size is 16-bit)",
                );
            },
            ConfigError::RegisterAddressTooLarge { collector, metric, kind, address } => {
                push_metric_prefix(&mut s, collector, metric);
                push_kind(&mut s, *kind);
                s.append(" register address ");
                push_hex(&mut s, *address as u64, 4);
                s.append(" exceeds u8 range (max 0xFF)");
            },
            ConfigError::MidEndianNotSupported { collector, metric, kind } => {
                push_metric_prefix(&mut s, collector, metric);
                s.append("mid-endian byte order is not supported for ");
                push_kind(&mut s, *kind);
                s.append(" (Modbus-specific)");
            },
            ConfigError::SpiCommandRequired { collector, metric } => {
                push_metric_prefix(&mut s, collector, metric);
                s.append("command is required for SPI metrics");
            },
            ConfigError::SpiResponseTooShort {
                collector,
                metric,
                response_offset,
                data_bytes,
                response_length,
            } => {
                push_metric_prefix(&mut s, collector, metric);
                s.append("response_offset (");
                push_decimal(&mut s, *response_offset as u64);
                s.append(") + data_type bytes (");
                push_decimal(&mut s, *data_bytes as u64);
                s.append(") exceeds response_length (");
                push_decimal(&mut s, *response_length as u64);
                s.append(")");
            },
            ConfigError::CounterBool { collector, metric } => {
                push_metric_prefix(&mut s, collector, metric);
                s.append("counter metric type cannot be used with bool data_type");
            },
            ConfigError::ScaleZero { collector, metric } => {
                push_metric_prefix(&mut s, collector, metric);
                s.append("scale must not be 0.0");
            },
            ConfigError::AddressOverflow { collector, metric, address, count } => {
                push_metric_prefix(&mut s, collector, metric);
                s.append("address ");
                push_decimal(&mut s, *address as u64);
                s.append(" + ");
                push_decimal(&mut s, *count as u64);
                s.append(" registers exceeds 65535");
            },
        }
        assert(s@ =~= spec_message(*self));
        s
    }

    /// Same text as [`ConfigError::message`].
    pub fn to_string(&self) -> (s: String)
        ensures
            s@ == spec_message(*self),
    {
        self.message()
    }
}


/// The protocol settings of a collector pass exactly when they are within
/// their documented ranges: for Modbus a slave id of 1 to 247 and, over a
/// serial line, 5 to 8 data bits and 1 or 2 stop bits (over TCP a valid
/// endpoint); for I2C a bus and an address of 0x03 to 0x77; for SPI a
/// device, a non-zero speed, a mode of 0 to 3 and 1 to 32 bits per word;
/// for I3C a bus, no slave id, exactly one way of finding the device, a valid
/// PID, an address of 0x08 to 0x77, and an instance with a device class.
pub proof fn law_protocol_ranges(c: Collector)
    ensures
        c.protocol matches Protocol::ModbusRtu { data_bits, stop_bits, .. } ==> (protocol_error(c)
            is None <==> (c.slave_id matches Some(id) && 1 <= id <= 247 && 5 <= data_bits <= 8 && 1
            <= stop_bits <= 2)),
        c.protocol matches Protocol::ModbusTcp { endpoint } ==> (protocol_error(c) is None <==> (
        c.slave_id matches Some(id) && 1 <= id <= 247 && valid_tcp_endpoint(endpoint@))),
        c.protocol matches Protocol::I2c { bus, address } ==> (protocol_error(c) is None <==> (
        bus@.len() > 0 && 0x03 <= address <= 0x77)),
        c.protocol matches Protocol::Spi { device, speed_hz, mode, bits_per_word } ==> (
        protocol_error(c) is None <==> (device@.len() > 0 && speed_hz > 0 && mode <= 3 && 1
            <= bits_per_word <= 32)),
        c.protocol matches Protocol::I3c { bus, pid, address, device_class, instance } ==> (
        protocol_error(c) is None <==> (bus@.len() > 0 && c.slave_id is None && i3c_mode_count(
            pid,
            address,
            device_class,
        ) == 1 && (pid matches Some(p) ==> valid_pid(p@)) && (address matches Some(a) ==> 0x08 <= a
            <= 0x77) && (device_class is Some ==> instance is Some))),
        c.protocol matches Protocol::ModbusRtu { data_bits, stop_bits, .. } ==> (c.slave_id matches Some(
            id,
        ) && 1 <= id <= 247 && 5 <= data_bits <= 8 && !(1 <= stop_bits <= 2) ==> protocol_error(c)
            == Some(ConfigError::StopBitsOutOfRange { collector: c.name, stop_bits })),
        c.protocol matches Protocol::ModbusRtu { data_bits, .. } ==> (c.slave_id matches Some(id)
            && 1 <= id <= 247 && !(5 <= data_bits <= 8) ==> protocol_error(c) == Some(
            ConfigError::DataBitsOutOfRange { collector: c.name, data_bits },
        )),
{
}


/// A metric passes exactly when it keeps every documented rule: its name is
/// not used by an earlier metric of the collector; it has an address unless
/// it is read over SPI; on Modbus it names its register table, coils and
/// discrete inputs are exactly the `bool` metrics and are never counters,
/// `u8` is not used, and its registers end at or before 65536; over I2C and
/// I3C its register address fits in a byte and its byte order is big- or
/// little-endian; over SPI it has a command, a big- or little-endian byte
/// order, and its data fits in the response after the offset; a `bool` is
/// never a counter; and its scale is not zero.
pub proof fn law_metric_rules(c: Collector, j: int)
    requires
        0 <= j < c.metrics@.len(),
    ensures
        ({
            let m = c.metrics@[j];
            let modbus = c.protocol is ModbusTcp || c.protocol is ModbusRtu;
            let byte_bus = c.protocol is I2c || c.protocol is I3c;
            let spi = c.protocol is Spi;
            let bits = m.register_type == Some(RegisterType::Coil) || m.register_type == Some(
                RegisterType::Discrete,
            );
            let plain_order = m.byte_order == ByteOrder::BigEndian || m.byte_order
                == ByteOrder::LittleEndian;
            let registers: int = match m.data_type {
                DataType::U32 | DataType::I32 | DataType::F32 => 2,
                DataType::U64 | DataType::I64 | DataType::F64 => 4,
                _ => 1,
            };
            let bytes: int = match m.data_type {
                DataType::Bool | DataType::U8 => 1,
                DataType::U16 | DataType::I16 => 2,
                DataType::U32 | DataType::I32 | DataType::F32 => 4,
                _ => 8,
            };
            let response: int = match m.response_length {
                Some(l) => l as int,
                None => (m.command@.len() as u16) as int,
            };
            metric_error(c, j) is None <==> {
                &&& forall|k: int| 0 <= k < j ==> c.metrics@[k].name@ != m.name@
                &&& !spi ==> m.address is Some
                &&& modbus ==> {
                    &&& m.register_type is Some
                    &&& bits <==> m.data_type == DataType::Bool
                    &&& !(bits && m.metric_type == MetricType::Counter)
                    &&& m.data_type != DataType::U8
                    &&& m.address->Some_0 + registers <= 65536
                }
                &&& byte_bus ==> m.address->Some_0 <= 0xFF && plain_order
                &&& spi ==> m.command@.len() > 0 && plain_order && m.response_offset + bytes
                    <= response
                &&& !(m.metric_type == MetricType::Counter && m.data_type == DataType::Bool)
                &&& m.scale_bits != 0 && m.scale_bits != 0x8000_0000_0000_0000
            }
        }),
{
    let m = c.metrics@[j];
    if metric_name_repeated(c, j) {
        let k = choose|k: int| 0 <= k < j && c.metrics@[k].name@ == c.metrics@[j].name@;
        assert(c.metrics@[k].name@ == m.name@);
    }
}

proof fn lemma_metrics_error_from_none(c: Collector, j: int)
    requires
        0 <= j,
        forall|k: int| j <= k < c.metrics@.len() ==> #[trigger] metric_error(c, k) is None,
    ensures
        metrics_error_from(c, j) is None,
    decreases c.metrics@.len() - j,
{
    if j < c.metrics@.len() {
        lemma_metrics_error_from_none(c, j + 1);
    }
}

/// A collector passes exactly when its name is not used by an earlier
/// collector, its protocol settings pass, it polls at most every 100 ms,
/// and it has at least one metric, each of which passes.
pub proof fn law_collector_rules(cs: Seq<Collector>, i: int)
    requires
        0 <= i < cs.len(),
    ensures
        collector_error(cs, i) is None <==> {
            &&& forall|k: int| 0 <= k < i ==> cs[k].name@ != cs[i].name@
            &&& protocol_error(cs[i]) is None
            &&& cs[i].polling_interval_ms >= 100
            &&& cs[i].metrics@.len() > 0
            &&& forall|j: int| 0 <= j < cs[i].metrics@.len() ==> #[trigger] metric_error(cs[i], j) is None
        },
{
    let c = cs[i];
    if collector_name_repeated(cs, i) {
        let k = choose|k: int| 0 <= k < i && cs[k].name@ == cs[i].name@;
        assert(cs[k].name@ == cs[i].name@);
    }
    if metrics_error_from(c, 0) is None {
        lemma_metrics_ok(c, 0);
    }
    if forall|j: int| 0 <= j < c.metrics@.len() ==> #[trigger] metric_error(c, j) is None {
        lemma_metrics_error_from_none(c, 0);
    }
}

proof fn lemma_collectors_error_from_none(cs: Seq<Collector>, i: int)
    requires
        0 <= i,
        forall|k: int| i <= k < cs.len() ==> #[trigger] collector_error(cs, k) is None,
    ensures
        collectors_error_from(cs, i) is None,
    decreases cs.len() - i,
{
    if i < cs.len() {
        lemma_collectors_error_from_none(cs, i + 1);
    }
}

/// A configuration validates exactly when at least one exporter is
/// enabled, an enabled OTLP exporter has an endpoint, the MQTT settings
/// pass, there is at least one collector, and every collector passes.
pub proof fn law_validate_accepts(cfg: Config)
    ensures
        spec_validate(cfg) is Ok <==> {
            &&& exporter_enabled_otlp(cfg.exporters) || exporter_enabled_prometheus(cfg.exporters)
                || exporter_enabled_mqtt(cfg.exporters)
            &&& exporter_enabled_otlp(cfg.exporters) ==> cfg.exporters.otlp->Some_0.endpoint is Some
            &&& cfg.exporters.mqtt is Some ==> mqtt_error(cfg.exporters.mqtt->Some_0) is None
            &&& cfg.collectors@.len() > 0
            &&& forall|i: int|
                0 <= i < cfg.collectors@.len() ==> #[trigger] collector_error(cfg.collectors@, i) is None
        },
{
    if collectors_error_from(cfg.collectors@, 0) is None {
        lemma_collectors_ok(cfg.collectors@, 0);
    }
    if forall|i: int|
        0 <= i < cfg.collectors@.len() ==> #[trigger] collector_error(cfg.collectors@, i) is None {
        lemma_collectors_error_from_none(cfg.collectors@, 0);
    }
}

/// The MQTT settings pass exactly when an enabled exporter has an endpoint
/// starting `mqtt://` or `mqtts://`, the QoS is 0, 1 or 2, and TLS settings
/// give a client certificate exactly when they give a client key.
pub proof fn law_mqtt_rules(m: MqttExporter)
    ensures
        mqtt_error(m) is None <==> {
            &&& m.enabled ==> (m.endpoint matches Some(ep) && (has_prefix(ep@, "mqtt://"@)
                || has_prefix(ep@, "mqtts://"@)))
            &&& m.qos <= 2
            &&& m.tls matches Some(t) ==> (t.client_cert is Some <==> t.client_key is Some)
        },
{
}

} // verus!
