//! Configuration model.
//!
//! Durations are held in milliseconds, and the floating-point `scale` and
//! `offset` of a metric by their IEEE-754 bit patterns, so that every rule
//! over them can be stated exactly.

use vstd::prelude::*;

use crate::decoder;

verus! {

/// Command-line arguments.
#[derive(Debug, Clone)]
pub struct Cli {
    /// Path to the configuration file.
    pub config: Option<String>,
}

#[derive(Debug, Clone, Copy, PartialEq, Eq, Structural)]
pub enum LogLevel {
    Trace,
    Debug,
    Info,
    Warn,
    Error,
}

#[derive(Debug, Clone, Copy, PartialEq, Eq, Structural)]
pub enum LogOutput {
    Stdout,
    Stderr,
    Json,
    Syslog,
}

#[derive(Debug, Clone, Copy, PartialEq, Eq, Structural)]
pub enum SyslogFacility {
    Daemon,
    Local0,
    Local1,
    Local2,
    Local3,
    Local4,
    Local5,
    Local6,
    Local7,
}

#[derive(Debug, Clone, Copy, PartialEq, Eq, Structural)]
pub struct Logging {
    pub level: LogLevel,
    pub output: LogOutput,
    pub syslog_facility: SyslogFacility,
}

impl Default for Logging {
    fn default() -> (r: Self)
        ensures
            r == (Logging {
                level: LogLevel::Info,
                output: LogOutput::Syslog,
                syslog_facility: SyslogFacility::Daemon,
            }),
    {
        Logging {
            level: default_log_level(),
            output: default_log_output(),
            syslog_facility: default_syslog_facility(),
        }
    }
}

pub fn default_log_level() -> (r: LogLevel)
    ensures
        r == LogLevel::Info,
{
    LogLevel::Info
}

pub fn default_log_output() -> (r: LogOutput)
    ensures
        r == LogOutput::Syslog,
{
    LogOutput::Syslog
}

pub fn default_syslog_facility() -> (r: SyslogFacility)
    ensures
        r == SyslogFacility::Daemon,
{
    SyslogFacility::Daemon
}

#[derive(Debug, Clone)]
pub struct Exporters {
    pub otlp: Option<OtlpExporter>,
    pub prometheus: Option<PrometheusExporter>,
    pub mqtt: Option<MqttExporter>,
}

#[derive(Debug, Clone)]
pub struct OtlpExporter {
    pub enabled: bool,
    pub endpoint: Option<String>,
    pub timeout_ms: u64,
    pub interval_ms: u64,
    pub headers: Vec<(String, String)>,
}

pub fn default_otlp_interval() -> (ms: u64)
    ensures
        ms == 10_000,
{
    10_000
}

pub fn default_otlp_timeout() -> (ms: u64)
    ensures
        ms == 10_000,
{
    10_000
}

#[derive(Debug, Clone)]
pub struct PrometheusExporter {
    pub enabled: bool,
    pub listen: String,
    pub path: String,
}

pub fn default_prom_listen() -> (s: String)
    ensures
        s@ == "0.0.0.0:9090"@,
{
    String::from_str("0.0.0.0:9090")
}

pub fn default_prom_path() -> (s: String)
    ensures
        s@ == "/metrics"@,
{
    String::from_str("/metrics")
}

#[derive(Debug, Clone)]
pub struct MqttExporter {
    pub enabled: bool,
    pub endpoint: Option<String>,
    pub client_id: Option<String>,
    pub topic_prefix: String,
    pub auth: Option<MqttAuth>,
    pub tls: Option<MqttTls>,
    pub qos: u8,
    pub retain: bool,
    pub interval_ms: u64,
    pub timeout_ms: u64,
}

#[derive(Debug, Clone)]
pub struct MqttAuth {
    pub username: String,
    pub password: String,
}

#[derive(Debug, Clone)]
pub struct MqttTls {
    pub ca_cert: Option<String>,
    pub client_cert: Option<String>,
    pub client_key: Option<String>,
    pub insecure: bool,
}

pub fn default_mqtt_topic_prefix() -> (s: String)
    ensures
        s@ == "modbus/metrics"@,
{
    String::from_str("modbus/metrics")
}

pub fn default_mqtt_qos() -> (q: u8)
    ensures
        q == 1,
{
    1
}

pub fn default_mqtt_interval() -> (ms: u64)
    ensures
        ms == 10_000,
{
    10_000
}

pub fn default_mqtt_timeout() -> (ms: u64)
    ensures
        ms == 5_000,
{
    5_000
}

#[derive(Debug, Clone)]
pub struct Collector {
    pub name: String,
    pub protocol: Protocol,
    pub slave_id: Option<u8>,
    pub polling_interval_ms: u64,
    pub labels: Vec<(String, String)>,
    pub metrics_files: Option<Vec<String>>,
    pub metrics: Vec<Metric>,
}

pub fn default_polling_interval() -> (ms: u64)
    ensures
        ms == 10_000,
{
    10_000
}

#[derive(Debug, Clone)]
#[allow(inconsistent_fields)]
pub enum Protocol {
    ModbusTcp { endpoint: String },
    ModbusRtu { device: String, bps: u32, data_bits: u8, stop_bits: u8, parity: Parity },
    I2c { bus: String, address: u8 },
    Spi { device: String, speed_hz: u32, mode: u8, bits_per_word: u8 },
    I3c {
        bus: String,
        pid: Option<String>,
        address: Option<u8>,
        device_class: Option<String>,
        instance: Option<u8>,
    },
}

pub fn default_spi_speed_hz() -> (hz: u32)
    ensures
        hz == 1_000_000,
{
    1_000_000
}

pub fn default_spi_mode() -> (m: u8)
    ensures
        m == 0,
{
    0
}

pub fn default_spi_bits_per_word() -> (b: u8)
    ensures
        b == 8,
{
    8
}

pub fn default_bps() -> (b: u32)
    ensures
        b == 9600,
{
    9600
}

pub fn default_data_bits() -> (b: u8)
    ensures
        b == 8,
{
    8
}

pub fn default_stop_bits() -> (b: u8)
    ensures
        b == 1,
{
    1
}

#[derive(Debug, Clone, Copy, PartialEq, Eq, Structural)]
pub enum Parity {
    /// No parity bit (written `none` in the configuration file).
    NoParity,
    Even,
    Odd,
}

impl Default for Parity {
    fn default() -> (r: Self)
        ensures
            r == Parity::NoParity,
    {
        Parity::NoParity
    }
}

/// One metric definition.
#[derive(Debug, Clone)]
pub struct Metric {
    pub name: String,
    pub description: String,
    pub metric_type: MetricType,
    pub register_type: Option<RegisterType>,
    pub address: Option<u16>,
    pub data_type: DataType,
    pub byte_order: ByteOrder,
    /// IEEE-754 bits of the multiplicative scale.
    pub scale_bits: u64,
    /// IEEE-754 bits of the additive offset.
    pub offset_bits: u64,
    pub unit: String,
    /// SPI-only: command bytes to transmit (TX buffer).
    pub command: Vec<u8>,
    /// SPI-only: total response bytes. Defaults to command length (full-duplex).
    pub response_length: Option<u16>,
    /// SPI-only: skip first N bytes of response before decoding.
    pub response_offset: u16,
}

pub fn default_byte_order() -> (b: ByteOrder)
    ensures
        b == ByteOrder::BigEndian,
{
    ByteOrder::BigEndian
}

/// IEEE-754 bits of `1.0`.
pub const SCALE_ONE_BITS: u64 = 0x3FF0_0000_0000_0000;

/// The default scale, `1.0`, as IEEE-754 bits.
pub fn default_scale() -> (bits: u64)
    ensures
        bits == SCALE_ONE_BITS,
{
    SCALE_ONE_BITS
}

/// Whether IEEE-754 bits denote `0.0` or `-0.0`.
pub open spec fn is_zero_bits(bits: u64) -> bool {
    bits == 0 || bits == 0x8000_0000_0000_0000
}

#[derive(Debug, Clone, Copy, PartialEq, Eq, Structural)]
pub enum MetricType {
    Counter,
    Gauge,
}

#[derive(Debug, Clone, Copy, PartialEq, Eq, Structural)]
pub enum RegisterType {
    Holding,
    Input,
    Coil,
    Discrete,
}

#[derive(Debug, Clone, Copy, PartialEq, Eq, Structural)]
pub enum DataType {
    U8,
    U16,
    I16,
    U32,
    I32,
    F32,
    U64,
    I64,
    F64,
    Bool,
}

pub open spec fn spec_register_count(dt: DataType) -> nat {
    match dt {
        DataType::U8 | DataType::U16 | DataType::I16 | DataType::Bool => 1,
        DataType::U32 | DataType::I32 | DataType::F32 => 2,
        DataType::U64 | DataType::I64 | DataType::F64 => 4,
    }
}

pub open spec fn spec_byte_size(dt: DataType) -> nat {
    match dt {
        DataType::Bool | DataType::U8 => 1,
        DataType::U16 | DataType::I16 => 2,
        DataType::U32 | DataType::I32 | DataType::F32 => 4,
        DataType::U64 | DataType::I64 | DataType::F64 => 8,
    }
}

impl DataType {
    /// Returns the number of 16-bit Modbus registers this data type occupies.
    pub fn register_count(self) -> (n: u16)
        ensures
            n == spec_register_count(self),
    {
        match self {
            DataType::U8 | DataType::U16 | DataType::I16 | DataType::Bool => 1,
            DataType::U32 | DataType::I32 | DataType::F32 => 2,
            DataType::U64 | DataType::I64 | DataType::F64 => 4,
        }
    }

    /// Returns the number of raw bytes this data type occupies.
    pub fn byte_size(self) -> (n: usize)
        ensures
            n == spec_byte_size(self),
    {
        match self {
            DataType::Bool | DataType::U8 => 1,
            DataType::U16 | DataType::I16 => 2,
            DataType::U32 | DataType::I32 | DataType::F32 => 4,
            DataType::U64 | DataType::I64 | DataType::F64 => 8,
        }
    }
}

#[derive(Debug, Clone, Copy, PartialEq, Eq, Structural)]
pub enum ByteOrder {
    BigEndian,
    LittleEndian,
    MidBigEndian,
    MidLittleEndian,
}

/// Metrics file for reusable metric definitions.
#[derive(Debug, Clone)]
pub struct MetricsFile {
    pub defaults: Option<MetricDefaults>,
    pub metrics: Vec<RawMetric>,
}

/// Default values applied to all metrics in a metrics file.
#[derive(Debug, Clone)]
pub struct MetricDefaults {
    pub description: Option<String>,
    pub metric_type: Option<MetricType>,
    pub register_type: Option<RegisterType>,
    pub data_type: Option<DataType>,
    pub byte_order: Option<ByteOrder>,
    pub scale_bits: Option<u64>,
    pub offset_bits: Option<u64>,
    pub unit: Option<String>,
}

/// A metric with all optional fields, as written in a metrics file.
#[derive(Debug, Clone)]
pub struct RawMetric {
    pub name: String,
    pub description: Option<String>,
    pub metric_type: Option<MetricType>,
    pub register_type: Option<RegisterType>,
    pub address: Option<u16>,
    pub data_type: Option<DataType>,
    pub byte_order: Option<ByteOrder>,
    pub scale_bits: Option<u64>,
    pub offset_bits: Option<u64>,
    pub unit: Option<String>,
    pub command: Vec<u8>,
    pub response_length: Option<u16>,
    pub response_offset: u16,
}

/// The whole configuration.
#[derive(Debug, Clone)]
pub struct Config {
    pub global_labels: Vec<(String, String)>,
    pub logging: Logging,
    pub exporters: Exporters,
    pub collectors: Vec<Collector>,
}

pub open spec fn spec_map_byte_order(bo: ByteOrder) -> decoder::ByteOrder {
    match bo {
        ByteOrder::BigEndian => decoder::ByteOrder::BigEndian,
        ByteOrder::LittleEndian => decoder::ByteOrder::LittleEndian,
        ByteOrder::MidBigEndian => decoder::ByteOrder::MidBigEndian,
        ByteOrder::MidLittleEndian => decoder::ByteOrder::MidLittleEndian,
    }
}

pub open spec fn spec_map_data_type(dt: DataType) -> decoder::DataType {
    match dt {
        DataType::U8 => decoder::DataType::U8,
        DataType::U16 => decoder::DataType::U16,
        DataType::I16 => decoder::DataType::I16,
        DataType::U32 => decoder::DataType::U32,
        DataType::I32 => decoder::DataType::I32,
        DataType::F32 => decoder::DataType::F32,
        DataType::U64 => decoder::DataType::U64,
        DataType::I64 => decoder::DataType::I64,
        DataType::F64 => decoder::DataType::F64,
        DataType::Bool => decoder::DataType::Bool,
    }
}

/// Map config byte order to decoder byte order.
pub fn map_byte_order(bo: ByteOrder) -> (r: decoder::ByteOrder)
    ensures
        r == spec_map_byte_order(bo),
{
    match bo {
        ByteOrder::BigEndian => decoder::ByteOrder::BigEndian,
        ByteOrder::LittleEndian => decoder::ByteOrder::LittleEndian,
        ByteOrder::MidBigEndian => decoder::ByteOrder::MidBigEndian,
        ByteOrder::MidLittleEndian => decoder::ByteOrder::MidLittleEndian,
    }
}

/// Map config data type to decoder data type.
pub fn map_data_type(dt: DataType) -> (r: decoder::DataType)
    ensures
        r == spec_map_data_type(dt),
{
    match dt {
        DataType::U8 => decoder::DataType::U8,
        DataType::U16 => decoder::DataType::U16,
        DataType::I16 => decoder::DataType::I16,
        DataType::U32 => decoder::DataType::U32,
        DataType::I32 => decoder::DataType::I32,
        DataType::F32 => decoder::DataType::F32,
        DataType::U64 => decoder::DataType::U64,
        DataType::I64 => decoder::DataType::I64,
        DataType::F64 => decoder::DataType::F64,
        DataType::Bool => decoder::DataType::Bool,
    }
}

/// A data type's register count agrees with the decoder's.
pub proof fn lemma_register_count_agrees(dt: DataType)
    ensures
        spec_register_count(dt) == decoder::spec_registers_needed(spec_map_data_type(dt)),
        spec_byte_size(dt) == decoder::spec_byte_count(spec_map_data_type(dt)),
{
}


/// A metric configured with a byte order decodes its registers in that
/// layout: two registers `r0, r1` hold `r0·2^16 + r1` big-endian,
/// `r1·2^16 + r0` mid-big-endian (low word first), the byte-swapped words in
/// reverse order little-endian and the byte-swapped words in order
/// mid-little-endian; four registers likewise (mid-big-endian taking the
/// words as `r2, r3, r0, r1`).
pub proof fn law_configured_byte_order(bo: ByteOrder, regs: Seq<u16>)
    ensures
        regs.len() >= 2 ==> ({
            let r0 = regs[0] as int;
            let r1 = regs[1] as int;
            let u: int = match bo {
                ByteOrder::BigEndian => r0 * 0x1_0000 + r1,
                ByteOrder::MidBigEndian => r1 * 0x1_0000 + r0,
                ByteOrder::LittleEndian => ((r1 % 256) * 256 + r1 / 256) * 0x1_0000 + (r0 % 256) * 256
                    + r0 / 256,
                ByteOrder::MidLittleEndian => ((r0 % 256) * 256 + r0 / 256) * 0x1_0000 + (r1 % 256)
                    * 256 + r1 / 256,
            };
            decoder::spec_decode(regs, decoder::DataType::U32, spec_map_byte_order(bo)) == Ok::<
                decoder::RawValue,
                decoder::DecodeError,
            >(decoder::RawValue::Unsigned(u as u64))
        }),
        regs.len() >= 4 ==> ({
            let r0 = regs[0] as int;
            let r1 = regs[1] as int;
            let r2 = regs[2] as int;
            let r3 = regs[3] as int;
            let u: int = match bo {
                ByteOrder::BigEndian => ((r0 * 0x1_0000 + r1) * 0x1_0000 + r2) * 0x1_0000 + r3,
                ByteOrder::MidBigEndian => ((r2 * 0x1_0000 + r3) * 0x1_0000 + r0) * 0x1_0000 + r1,
                ByteOrder::LittleEndian => ((((r3 % 256) * 256 + r3 / 256) * 0x1_0000 + (r2 % 256) * 256
                    + r2 / 256) * 0x1_0000 + (r1 % 256) * 256 + r1 / 256) * 0x1_0000 + (r0 % 256) * 256
                    + r0 / 256,
                ByteOrder::MidLittleEndian => ((((r0 % 256) * 256 + r0 / 256) * 0x1_0000 + (r1 % 256)
                    * 256 + r1 / 256) * 0x1_0000 + (r2 % 256) * 256 + r2 / 256) * 0x1_0000 + (r3 % 256)
                    * 256 + r3 / 256,
            };
            decoder::spec_decode(regs, decoder::DataType::U64, spec_map_byte_order(bo)) == Ok::<
                decoder::RawValue,
                decoder::DecodeError,
            >(decoder::RawValue::Unsigned(u as u64))
        }),
        regs.len() >= 2 ==> ({
            let r0 = regs[0] as int;
            let r1 = regs[1] as int;
            let u: int = match bo {
                ByteOrder::BigEndian => r0 * 0x1_0000 + r1,
                ByteOrder::MidBigEndian => r1 * 0x1_0000 + r0,
                ByteOrder::LittleEndian => ((r1 % 256) * 256 + r1 / 256) * 0x1_0000 + (r0 % 256) * 256
                    + r0 / 256,
                ByteOrder::MidLittleEndian => ((r0 % 256) * 256 + r0 / 256) * 0x1_0000 + (r1 % 256)
                    * 256 + r1 / 256,
            };
            decoder::spec_decode(regs, decoder::DataType::I32, spec_map_byte_order(bo)) == Ok::<
                decoder::RawValue,
                decoder::DecodeError,
            >(decoder::RawValue::Signed((if u >= 0x8000_0000 { u - 0x1_0000_0000 } else { u }) as i64))
        }),
{
    decoder::law_decode_registers(regs, spec_map_byte_order(bo));
}

/// A metric configured with a data type decodes as that type: one
/// register as an unsigned (`u16`), its two's complement (`i16`) or whether
/// it is non-zero (`bool`); `u8` its low byte; two registers (big-endian)
/// as unsigned, signed or float bits for the 32-bit types; four for the
/// 64-bit types.
pub proof fn law_configured_data_type(dt: DataType, regs: Seq<u16>)
    ensures
        regs.len() >= 4 ==> ({
            let r0 = regs[0] as int;
            let u2: int = r0 * 0x1_0000 + regs[1];
            let u4: int = ((r0 * 0x1_0000 + regs[1]) * 0x1_0000 + regs[2]) * 0x1_0000 + regs[3];
            decoder::spec_decode(regs, spec_map_data_type(dt), decoder::ByteOrder::BigEndian)
                == Ok::<decoder::RawValue, decoder::DecodeError>(
                match dt {
                    DataType::U8 => decoder::RawValue::Unsigned((r0 % 256) as u64),
                    DataType::U16 => decoder::RawValue::Unsigned(r0 as u64),
                    DataType::I16 => decoder::RawValue::Signed(
                        (if r0 >= 0x8000 { r0 - 0x1_0000 } else { r0 }) as i64,
                    ),
                    DataType::Bool => decoder::RawValue::Bool(r0 != 0),
                    DataType::U32 => decoder::RawValue::Unsigned(u2 as u64),
                    DataType::I32 => decoder::RawValue::Signed(
                        (if u2 >= 0x8000_0000 { u2 - 0x1_0000_0000 } else { u2 }) as i64,
                    ),
                    DataType::F32 => decoder::RawValue::F32Bits(u2 as u32),
                    DataType::U64 => decoder::RawValue::Unsigned(u4 as u64),
                    DataType::I64 => decoder::RawValue::Signed(
                        (if u4 >= 0x8000_0000_0000_0000 {
                            u4 - 0x1_0000_0000_0000_0000
                        } else {
                            u4
                        }) as i64,
                    ),
                    DataType::F64 => decoder::RawValue::F64Bits(u4 as u64),
                },
            )
        }),
{
    decoder::law_decode_registers(regs, decoder::ByteOrder::BigEndian);
}

} // verus!
