use bus_exporter::config::{ByteOrder, DataType, Metric, MetricType, Protocol, RegisterType};
use bus_exporter::decoder::RawValue;
use bus_exporter::devices::{
    address_mode_of, i2c_answer, single_read_request, spi_answer, write_status, warn_duplicate_metric_names, AddressMode, ReadRequest,
    coil_value, i2c_write_frame, spi_payload, spi_tx_buffer, validate_coil_count,
    validate_register_count, I2cClient, I2cDevice, SpiClient, SpiDevice, StubI2cDevice,
    StubSpiDevice, I2cRecord, SpiRecord,
};

struct EchoI2c {
    reply: Vec<u8>,
    last_write: Vec<u8>,
}

impl I2cDevice for EchoI2c {
    // The record of transfers exists for the library's proofs only; it is
    // never evaluated when the program runs.
    fn transfers(&self) -> I2cRecord {
        unreachable!()
    }

    fn write_read(&mut self, write_buf: &[u8], read_len: usize) -> Result<Vec<u8>, String> {
        self.last_write = write_buf.to_vec();
        Ok(self.reply.iter().copied().take(read_len).collect())
    }
}

struct LoopSpi;

impl SpiDevice for LoopSpi {
    // The record of transfers exists for the library's proofs only; it is
    // never evaluated when the program runs.
    fn transfers(&self) -> SpiRecord {
        unreachable!()
    }

    fn transfer(&mut self, tx_buf: &[u8]) -> Result<Vec<u8>, String> {
        Ok(tx_buf.iter().map(|b| b.wrapping_add(1)).collect())
    }
}

fn metric(dt: DataType, address: u16) -> Metric {
    Metric {
        name: "m".to_string(),
        description: String::new(),
        metric_type: MetricType::Gauge,
        register_type: None,
        address: Some(address),
        data_type: dt,
        byte_order: ByteOrder::BigEndian,
        scale_bits: 1.0f64.to_bits(),
        offset_bits: 0,
        unit: String::new(),
        command: Vec::new(),
        response_length: None,
        response_offset: 0,
    }
}

#[test]
fn register_and_coil_limits() {
    assert!(validate_register_count(1).is_ok());
    assert!(validate_register_count(125).is_ok());
    assert_eq!(validate_register_count(0).unwrap_err(), "register count 0 out of range (1..=125)");
    assert_eq!(validate_register_count(126).unwrap_err(), "register count 126 out of range (1..=125)");
    assert!(validate_coil_count(2000).is_ok());
    assert_eq!(validate_coil_count(2001).unwrap_err(), "coil/discrete count 2001 out of range (1..=2000)");
    assert_eq!(coil_value(&vec![true, false], "coil"), Ok(true));
    assert_eq!(coil_value(&vec![], "coil").unwrap_err(), "empty coil response");
}

#[test]
fn i2c_reads_register() {
    let dev = EchoI2c { reply: vec![0x12, 0x34], last_write: Vec::new() };
    let mut c = I2cClient::new(dev, "/dev/i2c-1".to_string(), 0x48);
    assert_eq!(c.read_register_sync(0x05, 2).unwrap(), vec![0x12, 0x34]);
    assert_eq!(c.read_metric(&metric(DataType::U16, 0x05)).unwrap(), RawValue::Unsigned(0x1234));
    assert!(!c.is_connected());
    c.connect();
    assert!(c.is_connected());
}

#[test]
fn i2c_error_context() {
    let mut c = I2cClient::new(StubI2cDevice::new(), "/dev/i2c-1".to_string(), 0x48);
    assert_eq!(
        c.read_metric(&metric(DataType::U16, 0x0A)).unwrap_err(),
        "reading I2C register 0x0a (2 bytes) from device 0x48 on /dev/i2c-1: StubI2cDevice: no real I2C hardware available"
    );
    assert_eq!(i2c_write_frame(0x10, &vec![1, 2]), vec![0x10, 1, 2]);
}

#[test]
fn spi_frames_and_payload() {
    assert_eq!(spi_tx_buffer(&vec![0x9F], Some(4)), vec![0x9F, 0, 0, 0]);
    assert_eq!(spi_tx_buffer(&vec![1, 2, 3], None), vec![1, 2, 3]);
    assert_eq!(spi_tx_buffer(&vec![1, 2, 3], Some(2)), vec![1, 2, 3]);
    assert_eq!(spi_payload(&vec![1, 2, 3, 4], 1, 2), Some(vec![2, 3]));
    assert_eq!(spi_payload(&vec![1, 2], 1, 2), None);
    let mut m = metric(DataType::U16, 0);
    m.command = vec![0x10];
    m.response_length = Some(3);
    m.response_offset = 1;
    let mut c = SpiClient::new(LoopSpi, "/dev/spidev0.0".to_string());
    // tx = [0x10, 0, 0]; rx = [0x11, 1, 1]; payload = [1, 1]
    assert_eq!(c.read_metric(&m).unwrap(), RawValue::Unsigned(0x0101));
    let mut s = SpiClient::new(StubSpiDevice::new(), "/dev/spidev0.1".to_string());
    assert_eq!(
        s.read_metric(&m).unwrap_err(),
        "SPI transfer on /dev/spidev0.1: StubSpiDevice: no real SPI hardware available"
    );
}

#[test]
fn test_count_validation_registers() {
    // 0 count
    assert!(validate_register_count(0).is_err());
    // Over 125
    assert!(validate_register_count(126).is_err());
    assert!(validate_register_count(125).is_ok());
}

#[test]
fn test_count_validation_coils() {
    assert!(validate_coil_count(0).is_err());
    assert!(validate_coil_count(2001).is_err());
    assert!(validate_coil_count(2000).is_ok());
}

#[test]
fn test_rtu_count_validation() {
    assert!(validate_register_count(0).is_err());
    assert!(validate_register_count(126).is_err());
    assert!(validate_coil_count(2001).is_err());
}

#[test]
fn duplicate_metric_names_are_listed_once_per_repeat() {
    let ms = vec![metric(DataType::U16, 0), metric(DataType::U16, 1), metric(DataType::U16, 2)];
    let mut named = ms.clone();
    named[0].name = "a".to_string();
    named[1].name = "b".to_string();
    named[2].name = "a".to_string();
    assert_eq!(warn_duplicate_metric_names(&named), vec!["a".to_string()]);
    let mut triple = named.clone();
    triple[1].name = "a".to_string();
    assert_eq!(warn_duplicate_metric_names(&triple), vec!["a".to_string(), "a".to_string()]);
}

#[test]
fn single_reads_follow_the_register_table() {
    let mut m = metric(DataType::F32, 40);
    m.register_type = Some(RegisterType::Input);
    assert_eq!(
        single_read_request(&m),
        Ok(ReadRequest { register_type: RegisterType::Input, addr: 40, count: 2 })
    );
    m.register_type = None;
    m.data_type = DataType::U64;
    assert_eq!(
        single_read_request(&m),
        Ok(ReadRequest { register_type: RegisterType::Holding, addr: 40, count: 4 })
    );
    m.register_type = Some(RegisterType::Coil);
    assert_eq!(single_read_request(&m), Ok(ReadRequest { register_type: RegisterType::Coil, addr: 40, count: 1 }));
    m.address = None;
    m.name = "volts".to_string();
    assert_eq!(single_read_request(&m), Err("metric 'volts' has no address".to_string()));
}

#[test]
fn i3c_address_mode_precedence() {
    let p = |pid: Option<&str>, address: Option<u8>, class: Option<&str>, instance: Option<u8>| Protocol::I3c {
        bus: "/dev/i3c-0".to_string(),
        pid: pid.map(|s| s.to_string()),
        address,
        device_class: class.map(|s| s.to_string()),
        instance,
    };
    assert!(matches!(address_mode_of(&p(Some("0x01"), Some(0x30), None, None)), Some(AddressMode::Pid(ref s)) if s == "0x01"));
    assert!(matches!(address_mode_of(&p(None, Some(0x30), Some("x"), Some(0))), Some(AddressMode::Static(0x30))));
    assert!(matches!(
        address_mode_of(&p(None, None, Some("temp"), Some(2))),
        Some(AddressMode::DeviceClass { ref class, instance: 2 }) if class == "temp"
    ));
    assert!(address_mode_of(&p(None, None, Some("temp"), None)).is_none());
    assert!(address_mode_of(&Protocol::ModbusTcp { endpoint: "a:502".to_string() }).is_none());
}

#[test]
fn i2c_answers_become_values_or_located_errors() {
    let m = metric(DataType::U16, 0x122);
    assert_eq!(i2c_answer(&m, 0x76, "/dev/i2c-1", Ok(vec![0x01, 0x02])), Ok(RawValue::Unsigned(0x0102)));
    assert_eq!(
        i2c_answer(&m, 0x76, "/dev/i2c-1", Ok(vec![0x01])),
        Err("insufficient registers: expected 2, got 1".to_string())
    );
    assert_eq!(
        i2c_answer(&m, 0x76, "/dev/i2c-1", Err("nack".to_string())),
        Err("reading I2C register 0x22 (2 bytes) from device 0x76 on /dev/i2c-1: nack".to_string())
    );
}

#[test]
fn spi_answers_take_the_payload_at_the_offset() {
    let mut m = metric(DataType::U16, 0);
    m.response_offset = 1;
    assert_eq!(spi_answer(&m, "/dev/spidev0.0", Ok(vec![0x00, 0x01, 0x00])), Ok(RawValue::Unsigned(256)));
    assert_eq!(
        spi_answer(&m, "/dev/spidev0.0", Ok(vec![0x00, 0x01])),
        Err("SPI response shorter than the configured payload".to_string())
    );
    assert_eq!(
        spi_answer(&m, "/dev/spidev0.0", Err("busy".to_string())),
        Err("SPI transfer on /dev/spidev0.0: busy".to_string())
    );
}

#[test]
fn default_write_reports_the_transfer_outcome() {
    assert_eq!(
        StubI2cDevice::new().write(&[1, 2]),
        Err("StubI2cDevice: no real I2C hardware available".to_string())
    );
    let mut echo = EchoI2c { reply: vec![9, 9], last_write: Vec::new() };
    assert_eq!(echo.write(&[0x10, 0x20]), Ok(()));
    assert_eq!(echo.last_write, vec![0x10, 0x20]);
    assert_eq!(write_status(Ok(vec![1])), Ok(()));
    assert_eq!(write_status(Err("x".to_string())), Err("x".to_string()));
}
