//! Register reads over I2C, SPI and I3C devices.
//!
//! A device is anything that implements the transfer trait of its bus (the
//! Linux character devices live with the program; tests plug in mocks).
//! Errors are carried as their display text.

use vstd::prelude::*;

use crate::config;
use crate::decoder::{self, RawValue, decode_message, spec_byte_count, spec_decode_bytes};
use crate::text::{contains_chars, contains_seq, chars_of, decimal, hex_padded, push_decimal, push_hex, to_lowercase, unicode_lowercase};

verus! {

// ── Modbus request limits ───────────────────────────────────────────

/// Largest register count of one FC03/FC04 read (Modbus specification).
pub const MAX_REGISTERS_PER_READ: u16 = 125;

/// Largest coil or discrete-input count of one FC01/FC02 read.
pub const MAX_COILS_PER_READ: u16 = 2000;

/// "register count {count} out of range (1..=125)"
pub open spec fn register_count_message(count: u16) -> Seq<char> {
    "register count "@ + decimal(count as nat) + " out of range (1..=125)"@
}

/// "coil/discrete count {count} out of range (1..=2000)"
pub open spec fn coil_count_message(count: u16) -> Seq<char> {
    "coil/discrete count "@ + decimal(count as nat) + " out of range (1..=2000)"@
}

/// Checks a register count for FC03/FC04: 1 to 125.
pub fn validate_register_count(count: u16) -> (r: Result<(), String>)
    ensures
        r is Ok <==> 1 <= count <= MAX_REGISTERS_PER_READ,
        r matches Err(m) ==> m@ == register_count_message(count),
{
    if count == 0 || count > MAX_REGISTERS_PER_READ {
        let mut m = String::new();
        m.append("register count ");
        push_decimal(&mut m, count as u64);
        m.append(" out of range (1..=125)");
        return Err(m);
    }
    Ok(())
}

/// Checks a coil or discrete-input count for FC01/FC02: 1 to 2000.
pub fn validate_coil_count(count: u16) -> (r: Result<(), String>)
    ensures
        r is Ok <==> 1 <= count <= MAX_COILS_PER_READ,
        r matches Err(m) ==> m@ == coil_count_message(count),
{
    if count == 0 || count > MAX_COILS_PER_READ {
        let mut m = String::new();
        m.append("coil/discrete count ");
        push_decimal(&mut m, count as u64);
        m.append(" out of range (1..=2000)");
        return Err(m);
    }
    Ok(())
}

/// The value of a single coil or discrete input: `1` when set, `0` when not;
/// an empty response is an error.
pub fn coil_value(bits: &Vec<bool>, what: &str) -> (r: Result<bool, String>)
    ensures
        bits@.len() > 0 ==> r == Ok::<bool, String>(bits@[0]),
        bits@.len() == 0 ==> (r matches Err(m) && m@ == "empty "@ + what@ + " response"@),
{
    if bits.len() > 0 {
        Ok(bits[0])
    } else {
        let mut m = String::new();
        m.append("empty ");
        m.append(what);
        m.append(" response");
        Err(m)
    }
}

// ── I2C ─────────────────────────────────────────────────────────────

/// One transfer made on an I2C device: the bytes written, the number of
/// bytes asked back, and the device's answer.
pub type I2cTransfer = (Seq<u8>, usize, Result<Seq<u8>, Seq<char>>);

/// The record of the transfers made on an I2C device.
pub type I2cRecord = Seq<I2cTransfer>;

/// An I2C device at a fixed address.
pub trait I2cDevice {
    /// The transfers made on the device so far, oldest first.
    spec fn transfers(&self) -> I2cRecord;

    /// Writes `write_buf`, then reads `read_len` bytes back; the transfer,
    /// with its answer, is recorded.
    fn write_read(&mut self, write_buf: &[u8], read_len: usize) -> (r: Result<Vec<u8>, String>)
        ensures
            final(self).transfers() == old(self).transfers().push((write_buf@, read_len, answer_view(r))),
    ;

    /// Writes bytes without reading: a transfer of `write_buf` that reads
    /// nothing back, its answer reduced by `write_status`.
    fn write(&mut self, write_buf: &[u8]) -> (r: Result<(), String>)
        ensures
            final(self).transfers().len() == old(self).transfers().len() + 1,
            final(self).transfers().drop_last() == old(self).transfers(),
            final(self).transfers().last().0 == write_buf@,
            final(self).transfers().last().1 == 0,
            r is Ok <==> final(self).transfers().last().2 is Ok,
            r matches Err(e) ==> final(self).transfers().last().2 == Err::<Seq<u8>, Seq<char>>(e@),
    {
        let r = write_status(self.write_read(write_buf, 0));
        assert(self.transfers().drop_last() =~= old(self).transfers());
        r
    }
}

/// What a write gives for the answer of its transfer: success when the
/// transfer succeeded (the bytes read are dropped), else its error.
pub fn write_status(answer: Result<Vec<u8>, String>) -> (r: Result<(), String>)
    ensures
        answer is Ok ==> r is Ok,
        answer matches Err(e) ==> r == Err::<(), String>(e),
{
    match answer {
        Ok(_) => Ok(()),
        Err(e) => Err(e),
    }
}

/// Stands in for hardware where there is none: every transfer fails.
pub struct StubI2cDevice {
    log: Ghost<Seq<I2cTransfer>>,
}

impl StubI2cDevice {
    /// A stub on which nothing has been done yet.
    pub fn new() -> (d: Self)
        ensures
            d.transfers() == Seq::<I2cTransfer>::empty(),
    {
        StubI2cDevice { log: Ghost(Seq::empty()) }
    }
}

impl I2cDevice for StubI2cDevice {
    closed spec fn transfers(&self) -> Seq<I2cTransfer> {
        self.log@
    }

    fn write_read(&mut self, write_buf: &[u8], read_len: usize) -> (r: Result<Vec<u8>, String>)
        ensures
            r matches Err(e) && e@ == "StubI2cDevice: no real I2C hardware available"@,
    {
        let r = Err(String::from_str("StubI2cDevice: no real I2C hardware available"));
        self.log = Ghost(self.log@.push((write_buf@, read_len, answer_view(r))));
        r
    }
}

/// A device on an I2C bus.
pub struct I2cClient<D: I2cDevice> {
    device: D,
    bus_path: String,
    address: u8,
    connected: bool,
}

impl<D: I2cDevice> I2cClient<D> {
    pub closed spec fn spec_bus_path(&self) -> Seq<char> {
        self.bus_path@
    }

    pub closed spec fn spec_address(&self) -> u8 {
        self.address
    }

    pub closed spec fn spec_connected(&self) -> bool {
        self.connected
    }

    /// The device the client reads.
    pub closed spec fn spec_device(&self) -> D {
        self.device
    }

    /// The transfers made on the client's device, oldest first.
    pub open spec fn spec_transfers(&self) -> Seq<I2cTransfer> {
        self.spec_device().transfers()
    }

    /// A client for `device`, not yet connected; the device is not used.
    pub fn new(device: D, bus_path: String, address: u8) -> (c: Self)
        ensures
            c.spec_bus_path() == bus_path@,
            c.spec_address() == address,
            !c.spec_connected(),
            c.spec_device() == device,
    {
        I2cClient { device, bus_path, address, connected: false }
    }

    /// Reads `byte_count` bytes from `register`: one transfer that writes the
    /// register number and reads `byte_count` bytes; the result is the
    /// device's answer.
    pub fn read_register_sync(&mut self, register: u8, byte_count: usize) -> (r: Result<
        Vec<u8>,
        String,
    >)
        ensures
            final(self).spec_bus_path() == old(self).spec_bus_path(),
            final(self).spec_address() == old(self).spec_address(),
            final(self).spec_connected() == old(self).spec_connected(),
            final(self).spec_transfers() == old(self).spec_transfers().push(
                (seq![register], byte_count, answer_view(r)),
            ),
    {
        let mut buf: Vec<u8> = Vec::new();
        buf.push(register);
        assert(buf@ =~= seq![register]);
        self.device.write_read(buf.as_slice(), byte_count)
    }

    /// Marks the client connected.
    pub fn connect(&mut self)
        ensures
            final(self).spec_connected(),
            final(self).spec_bus_path() == old(self).spec_bus_path(),
            final(self).spec_address() == old(self).spec_address(),
            final(self).spec_transfers() == old(self).spec_transfers(),
    {
        self.connected = true;
    }

    /// Marks the client disconnected.
    pub fn disconnect(&mut self)
        ensures
            !final(self).spec_connected(),
            final(self).spec_bus_path() == old(self).spec_bus_path(),
            final(self).spec_address() == old(self).spec_address(),
            final(self).spec_transfers() == old(self).spec_transfers(),
    {
        self.connected = false;
    }

    /// Whether the client is connected.
    pub fn is_connected(&self) -> (b: bool)
        ensures
            b == self.spec_connected(),
    {
        self.connected
    }

    /// Reads and decodes one metric: one transfer from the register that is
    /// the low byte of its address, of the length of its data type; the
    /// result is what `i2c_outcome` makes of the device's answer.
    pub fn read_metric(&mut self, metric: &config::Metric) -> (r: Result<RawValue, String>)
        requires
            metric.address is Some,
        ensures
            final(self).spec_bus_path() == old(self).spec_bus_path(),
            final(self).spec_address() == old(self).spec_address(),
            final(self).spec_connected() == old(self).spec_connected(),
            final(self).spec_transfers().len() == old(self).spec_transfers().len() + 1,
            final(self).spec_transfers().drop_last() == old(self).spec_transfers(),
            final(self).spec_transfers().last().0 == seq![register_of(*metric)],
            final(self).spec_transfers().last().1 == spec_byte_count(
                config::spec_map_data_type(metric.data_type),
            ),
            outcome_view(r) == i2c_outcome(
                *metric,
                old(self).spec_address(),
                old(self).spec_bus_path(),
                final(self).spec_transfers().last().2,
            ),
    {
        let data_type = config::map_data_type(metric.data_type);
        let register = (metric.address.unwrap() % 256) as u8;
        let n = decoder::byte_count(data_type);
        let answer = self.read_register_sync(register, n);
        let ghost a = answer_view(answer);
        let r = i2c_answer(metric, self.address, self.bus_path.as_str(), answer);
        assert(self.spec_transfers().drop_last() =~= old(self).spec_transfers());
        r
    }
}

/// A device's answer read as plain values.
pub open spec fn answer_view(a: Result<Vec<u8>, String>) -> Result<Seq<u8>, Seq<char>> {
    match a {
        Ok(v) => Ok(v@),
        Err(e) => Err(e@),
    }
}

/// A metric read's result read as plain values.
pub open spec fn outcome_view(r: Result<RawValue, String>) -> Result<RawValue, Seq<char>> {
    match r {
        Ok(v) => Ok(v),
        Err(e) => Err(e@),
    }
}

/// The value that `bytes` hold for `metric`, or the decoding error's text.
pub open spec fn decoded(bytes: Seq<u8>, metric: config::Metric) -> Result<RawValue, Seq<char>> {
    match spec_decode_bytes(
        bytes,
        config::spec_map_data_type(metric.data_type),
        config::spec_map_byte_order(metric.byte_order),
    ) {
        Ok(v) => Ok(v),
        Err(e) => Err(decode_message(e)),
    }
}

fn decode_for(bytes: &[u8], metric: &config::Metric) -> (r: Result<RawValue, String>)
    ensures
        outcome_view(r) == decoded(bytes@, *metric),
{
    let data_type = config::map_data_type(metric.data_type);
    let byte_order = config::map_byte_order(metric.byte_order);
    match decoder::decode_bytes(bytes, data_type, byte_order) {
        Ok(v) => Ok(v),
        Err(e) => Err(e.message()),
    }
}

/// The register an I2C or I3C metric is read from: its address's low byte.
pub open spec fn register_of(metric: config::Metric) -> u8 {
    (metric.address->0 % 256) as u8
}

/// "reading I2C register 0x{register} ({n} bytes) from device 0x{address} on {bus}: {err}"
pub open spec fn i2c_read_error(register: u8, n: nat, address: u8, bus: Seq<char>, err: Seq<char>) -> Seq<char> {
    "reading I2C register "@ + hex_padded(register as nat, 2) + " ("@ + decimal(n) + " bytes) from device "@
        + hex_padded(address as nat, 2) + " on "@ + bus + ": "@ + err
}

/// What an I2C metric read gives for the device's answer: the decoded
/// value, or the error with where it happened.
pub open spec fn i2c_outcome(
    metric: config::Metric,
    address: u8,
    bus: Seq<char>,
    answer: Result<Seq<u8>, Seq<char>>,
) -> Result<RawValue, Seq<char>> {
    match answer {
        Ok(bytes) => decoded(bytes, metric),
        Err(e) => Err(
            i2c_read_error(
                register_of(metric),
                spec_byte_count(config::spec_map_data_type(metric.data_type)),
                address,
                bus,
                e,
            ),
        ),
    }
}

/// Turns the device's answer to an I2C metric read into the metric's value.
pub fn i2c_answer(
    metric: &config::Metric,
    address: u8,
    bus: &str,
    answer: Result<Vec<u8>, String>,
) -> (r: Result<RawValue, String>)
    requires
        metric.address is Some,
    ensures
        outcome_view(r) == i2c_outcome(*metric, address, bus@, answer_view(answer)),
{
    match answer {
        Ok(bytes) => decode_for(bytes.as_slice(), metric),
        Err(e) => {
            let data_type = config::map_data_type(metric.data_type);
            let register = (metric.address.unwrap() % 256) as u8;
            let n = decoder::byte_count(data_type);
            let mut m = String::new();
            m.append("reading I2C register ");
            push_hex(&mut m, register as u64, 2);
            m.append(" (");
            push_decimal(&mut m, n as u64);
            m.append(" bytes) from device ");
            push_hex(&mut m, address as u64, 2);
            m.append(" on ");
            m.append(bus);
            m.append(": ");
            m.append(e.as_str());
            Err(m)
        },
    }
}

/// The frame of an I2C write step: the register, then the value bytes.
pub fn i2c_write_frame(register: u8, value: &Vec<u8>) -> (buf: Vec<u8>)
    ensures
        buf@ == seq![register] + value@,
{
    let mut buf: Vec<u8> = vec![register];
    let mut i: usize = 0;
    while i < value.len()
        invariant
            i <= value@.len(),
            buf@ =~= seq![register] + value@.take(i as int),
        decreases value@.len() - i,
    {
        buf.push(value[i]);
        i = i + 1;
        assert(buf@ =~= seq![register] + value@.take(i as int));
    }
    assert(value@.take(value@.len() as int) =~= value@);
    buf
}

// ── SPI ─────────────────────────────────────────────────────────────

/// One transfer made on an SPI device: the bytes sent and the device's
/// answer.
pub type SpiTransfer = (Seq<u8>, Result<Seq<u8>, Seq<char>>);

/// The record of the transfers made on an SPI device.
pub type SpiRecord = Seq<SpiTransfer>;

/// A full-duplex SPI device.
pub trait SpiDevice {
    /// The transfers made on the device so far, oldest first.
    spec fn transfers(&self) -> SpiRecord;

    /// Sends `tx_buf`, returning the bytes clocked in meanwhile; the
    /// transfer, with its answer, is recorded.
    fn transfer(&mut self, tx_buf: &[u8]) -> (r: Result<Vec<u8>, String>)
        ensures
            final(self).transfers() == old(self).transfers().push((tx_buf@, answer_view(r))),
    ;
}

/// Stands in for hardware where there is none: every transfer fails.
pub struct StubSpiDevice {
    log: Ghost<Seq<SpiTransfer>>,
}

impl StubSpiDevice {
    /// A stub on which nothing has been done yet.
    pub fn new() -> (d: Self)
        ensures
            d.transfers() == Seq::<SpiTransfer>::empty(),
    {
        StubSpiDevice { log: Ghost(Seq::empty()) }
    }
}

impl SpiDevice for StubSpiDevice {
    closed spec fn transfers(&self) -> Seq<SpiTransfer> {
        self.log@
    }

    fn transfer(&mut self, tx_buf: &[u8]) -> (r: Result<Vec<u8>, String>)
        ensures
            r matches Err(e) && e@ == "StubSpiDevice: no real SPI hardware available"@,
    {
        let r = Err(String::from_str("StubSpiDevice: no real SPI hardware available"));
        self.log = Ghost(self.log@.push((tx_buf@, answer_view(r))));
        r
    }
}

/// The response length of an SPI metric: the configured one, or the command
/// length (as a 16-bit number).
pub open spec fn response_len(command: Seq<u8>, response_length: Option<u16>) -> nat {
    match response_length {
        Some(n) => n as nat,
        None => (command.len() as u16) as nat,
    }
}

/// The transmit buffer: the command, zero-padded to the response length.
pub open spec fn tx_frame(command: Seq<u8>, response_length: Option<u16>) -> Seq<u8> {
    let n = response_len(command, response_length);
    if command.len() < n {
        command + Seq::new((n - command.len()) as nat, |i: int| 0u8)
    } else {
        command
    }
}

/// Builds the transmit buffer of an SPI metric.
pub fn spi_tx_buffer(command: &Vec<u8>, response_length: Option<u16>) -> (tx: Vec<u8>)
    ensures
        tx@ == tx_frame(command@, response_length),
{
    let n: usize = match response_length {
        Some(l) => l as usize,
        None => (command.len() as u16) as usize,
    };
    let mut tx: Vec<u8> = Vec::new();
    let mut i: usize = 0;
    while i < command.len()
        invariant
            i <= command@.len(),
            tx@ =~= command@.take(i as int),
        decreases command@.len() - i,
    {
        tx.push(command[i]);
        i = i + 1;
        assert(tx@ =~= command@.take(i as int));
    }
    assert(command@.take(command@.len() as int) =~= command@);
    let ghost base = tx@;
    while tx.len() < n
        invariant
            tx@.len() >= command@.len(),
            tx@.len() <= n || tx@.len() == command@.len(),
            tx@.subrange(0, command@.len() as int) == command@,
            forall|k: int| command@.len() <= k < tx@.len() ==> tx@[k] == 0u8,
        decreases n - tx@.len(),
    {
        tx.push(0u8);
    }
    assert(tx@ =~= tx_frame(command@, response_length));
    tx
}

/// A device on an SPI bus.
pub struct SpiClient<D: SpiDevice> {
    device: D,
    device_path: String,
    connected: bool,
}

impl<D: SpiDevice> SpiClient<D> {
    pub closed spec fn spec_device_path(&self) -> Seq<char> {
        self.device_path@
    }

    pub closed spec fn spec_connected(&self) -> bool {
        self.connected
    }

    /// The device the client talks to.
    pub closed spec fn spec_device(&self) -> D {
        self.device
    }

    /// The transfers made on the client's device, oldest first.
    pub open spec fn spec_transfers(&self) -> Seq<SpiTransfer> {
        self.spec_device().transfers()
    }

    /// A client for `device`, not yet connected; the device is not used.
    pub fn new(device: D, device_path: String) -> (c: Self)
        ensures
            c.spec_device_path() == device_path@,
            !c.spec_connected(),
            c.spec_device() == device,
    {
        SpiClient { device, device_path, connected: false }
    }

    /// One transfer of `tx_buf`; the result is the device's answer.
    pub fn transfer_sync(&mut self, tx_buf: &[u8]) -> (r: Result<Vec<u8>, String>)
        ensures
            final(self).spec_device_path() == old(self).spec_device_path(),
            final(self).spec_connected() == old(self).spec_connected(),
            final(self).spec_transfers() == old(self).spec_transfers().push((tx_buf@, answer_view(r))),
    {
        self.device.transfer(tx_buf)
    }

    /// Marks the client connected.
    pub fn connect(&mut self)
        ensures
            final(self).spec_connected(),
            final(self).spec_device_path() == old(self).spec_device_path(),
            final(self).spec_transfers() == old(self).spec_transfers(),
    {
        self.connected = true;
    }

    /// Marks the client disconnected.
    pub fn disconnect(&mut self)
        ensures
            !final(self).spec_connected(),
            final(self).spec_device_path() == old(self).spec_device_path(),
            final(self).spec_transfers() == old(self).spec_transfers(),
    {
        self.connected = false;
    }

    /// Whether the client is connected.
    pub fn is_connected(&self) -> (b: bool)
        ensures
            b == self.spec_connected(),
    {
        self.connected
    }

    /// Reads and decodes one metric: sends its command padded to the response
    /// length, and decodes the bytes at the response offset.
    pub fn read_metric(&mut self, metric: &config::Metric) -> (r: Result<RawValue, String>)
        ensures
            final(self).spec_device_path() == old(self).spec_device_path(),
            final(self).spec_connected() == old(self).spec_connected(),
            final(self).spec_transfers().len() == old(self).spec_transfers().len() + 1,
            final(self).spec_transfers().drop_last() == old(self).spec_transfers(),
            final(self).spec_transfers().last().0 == tx_frame(metric.command@, metric.response_length),
            outcome_view(r) == spi_outcome(
                *metric,
                old(self).spec_device_path(),
                final(self).spec_transfers().last().1,
            ),
    {
        let tx = spi_tx_buffer(&metric.command, metric.response_length);
        let answer = self.transfer_sync(tx.as_slice());
        let r = spi_answer(metric, self.device_path.as_str(), answer);
        assert(self.spec_transfers().drop_last() =~= old(self).spec_transfers());
        r
    }
}

/// What an SPI metric read gives for the device's answer: the payload at
/// the response offset decoded, or an error.
pub open spec fn spi_outcome(
    metric: config::Metric,
    device_path: Seq<char>,
    answer: Result<Seq<u8>, Seq<char>>,
) -> Result<RawValue, Seq<char>> {
    match answer {
        Ok(rx) => {
            let n = spec_byte_count(config::spec_map_data_type(metric.data_type));
            let off = metric.response_offset as int;
            if off + n <= rx.len() {
                decoded(rx.subrange(off, off + n), metric)
            } else {
                Err("SPI response shorter than the configured payload"@)
            }
        },
        Err(e) => Err("SPI transfer on "@ + device_path + ": "@ + e),
    }
}

/// Turns the device's answer to an SPI metric read into the metric's value.
pub fn spi_answer(metric: &config::Metric, device_path: &str, answer: Result<Vec<u8>, String>) -> (r: Result<
    RawValue,
    String,
>)
    ensures
        outcome_view(r) == spi_outcome(*metric, device_path@, answer_view(answer)),
{
    match answer {
        Ok(rx) => {
            let data_type = config::map_data_type(metric.data_type);
            match spi_payload(&rx, metric.response_offset as usize, decoder::byte_count(data_type)) {
                Some(payload) => decode_for(payload.as_slice(), metric),
                None => Err(String::from_str("SPI response shorter than the configured payload")),
            }
        },
        Err(e) => {
            let mut m = String::new();
            m.append("SPI transfer on ");
            m.append(device_path);
            m.append(": ");
            m.append(e.as_str());
            Err(m)
        },
    }
}

/// The `n` payload bytes at `offset` of an SPI response, if it holds them.
pub fn spi_payload(rx: &Vec<u8>, offset: usize, n: usize) -> (r: Option<Vec<u8>>)
    ensures
        offset + n <= rx@.len() ==> (r matches Some(p) && p@ == rx@.subrange(
            offset as int,
            offset + n,
        )),
        offset + n > rx@.len() ==> r is None,
{
    if offset > rx.len() || n > rx.len() - offset {
        return None;
    }
    let mut p: Vec<u8> = Vec::new();
    let mut i: usize = offset;
    let end: usize = offset + n;
    while i < end
        invariant
            end == offset + n,
            offset <= i <= end <= rx@.len(),
            p@ =~= rx@.subrange(offset as int, i as int),
        decreases end - i,
    {
        p.push(rx[i]);
        i = i + 1;
        assert(p@ =~= rx@.subrange(offset as int, i as int));
    }
    Some(p)
}

// ── Metric lists handed to a reader ─────────────────────────────────

/// The names of the metrics that reuse the name of an earlier metric among
/// the first `n`, in order (one entry per repeated occurrence).
pub open spec fn repeated_names(ms: Seq<config::Metric>, n: int) -> Seq<Seq<char>>
    decreases n,
{
    if n <= 0 {
        Seq::empty()
    } else if exists|k: int| 0 <= k < n - 1 && #[trigger] ms[k].name@ == ms[n - 1].name@ {
        repeated_names(ms, n - 1).push(ms[n - 1].name@)
    } else {
        repeated_names(ms, n - 1)
    }
}

/// The names a reader warns about when it is given `metrics`: every metric
/// whose name an earlier metric already has (the later one wins).
pub fn warn_duplicate_metric_names(metrics: &Vec<config::Metric>) -> (names: Vec<String>)
    ensures
        names@.map_values(|s: String| s@) == repeated_names(metrics@, metrics@.len() as int),
{
    let mut names: Vec<String> = Vec::new();
    let mut i: usize = 0;
    while i < metrics.len()
        invariant
            i <= metrics@.len(),
            names@.map_values(|s: String| s@) == repeated_names(metrics@, i as int),
        decreases metrics@.len() - i,
    {
        let mut k: usize = 0;
        let mut seen = false;
        while k < i
            invariant
                i < metrics@.len(),
                k <= i,
                seen == exists|q: int| 0 <= q < k && #[trigger] metrics@[q].name@ == metrics@[i as int].name@,
            decreases i - k,
        {
            if metrics[k].name == metrics[i].name {
                seen = true;
            }
            k = k + 1;
        }
        let ghost before = names@;
        if seen {
            names.push(metrics[i].name.clone());
            assert(names@.map_values(|s: String| s@) =~= before.map_values(|s: String| s@).push(
                metrics@[i as int].name@,
            ));
        }
        i = i + 1;
    }
    names
}

/// One Modbus read of a single metric: which table, where, how many.
#[derive(Debug, Clone, Copy, PartialEq, Eq, Structural)]
pub struct ReadRequest {
    pub register_type: config::RegisterType,
    pub addr: u16,
    pub count: u16,
}

/// The table a metric is read from: its register type, holding registers
/// when unset.
pub open spec fn table_of(m: config::Metric) -> config::RegisterType {
    match m.register_type {
        Some(rt) => rt,
        None => config::RegisterType::Holding,
    }
}

/// "metric '{name}' has no address"
pub open spec fn no_address_message(name: Seq<char>) -> Seq<char> {
    "metric '"@ + name + "' has no address"@
}

/// The read of a metric on its own: a register metric reads as many
/// registers as its data type spans, a coil or discrete input reads one bit.
pub fn single_read_request(m: &config::Metric) -> (r: Result<ReadRequest, String>)
    ensures
        r is Err <==> m.address is None,
        r matches Err(e) ==> e@ == no_address_message(m.name@),
        r matches Ok(q) ==> {
            &&& q.addr == m.address->0
            &&& q.register_type == table_of(*m)
            &&& q.count == (match table_of(*m) {
                config::RegisterType::Coil | config::RegisterType::Discrete => 1,
                _ => config::spec_register_count(m.data_type),
            })
        },
{
    match m.address {
        None => {
            let mut e = String::from_str("metric '");
            e.append(m.name.as_str());
            e.append("' has no address");
            Err(e)
        },
        Some(addr) => {
            let rt = match m.register_type {
                Some(rt) => rt,
                None => config::RegisterType::Holding,
            };
            let count = match rt {
                config::RegisterType::Coil | config::RegisterType::Discrete => 1,
                _ => m.data_type.register_count(),
            };
            Ok(ReadRequest { register_type: rt, addr, count })
        },
    }
}

// ── I3C ─────────────────────────────────────────────────────────────

/// The address mode an I3C collector's protocol settings select: the PID
/// when given, else the static address, else the device class and instance.
/// `None` for any other protocol, or when none of them is given in full.
pub fn address_mode_of(p: &config::Protocol) -> (r: Option<AddressMode>)
    ensures
        match *p {
            config::Protocol::I3c { pid, address, device_class, instance, .. } => {
                if pid is Some {
                    r matches Some(AddressMode::Pid(q)) && q@ == pid->0@
                } else if address is Some {
                    r == Some(AddressMode::Static(address->0))
                } else if device_class is Some && instance is Some {
                    r matches Some(AddressMode::DeviceClass { class, instance: i }) && class@
                        == device_class->0@ && i == instance->0
                } else {
                    r is None
                }
            },
            _ => r is None,
        },
{
    match p {
        config::Protocol::I3c { pid, address, device_class, instance, .. } => {
            if let Some(q) = pid {
                Some(AddressMode::Pid(q.clone()))
            } else if let Some(a) = address {
                Some(AddressMode::Static(*a))
            } else {
                match (device_class, instance) {
                    (Some(c), Some(i)) => Some(AddressMode::DeviceClass { class: c.clone(), instance: *i }),
                    _ => None,
                }
            }
        },
        _ => None,
    }
}

/// How an I3C device is addressed.
#[derive(Debug, Clone)]
pub enum AddressMode {
    /// By provisioned ID, looked up in the bus enumeration.
    Pid(String),
    /// At a static address.
    Static(u8),
    /// The `instance`-th device of a device class.
    DeviceClass { class: String, instance: u8 },
}

/// One transfer made on an I3C device: the address, the bytes written, the
/// number of bytes asked back, and the device's answer.
pub type I3cTransfer = (u8, Seq<u8>, usize, Result<Seq<u8>, Seq<char>>);

/// The record of the transfers made on an I3C device.
pub type I3cRecord = Seq<I3cTransfer>;

/// The record of the waits made on an I3C device, in milliseconds.
pub type PauseRecord = Seq<u64>;

/// The address lookups made through an I3C device: the mode of each, oldest
/// first.
pub type LookupRecord = Seq<AddressMode>;

/// An I3C device on a bus.
pub trait I3cDevice {
    /// The transfers made on the device so far, oldest first.
    spec fn transfers(&self) -> I3cRecord;

    /// The waits made on the device so far, oldest first.
    spec fn pauses(&self) -> PauseRecord;

    /// The address lookups made through the device so far, oldest first:
    /// the mode each one resolved.
    spec fn lookups(&self) -> LookupRecord;

    /// Writes `write_buf` to the device at `address`, then reads `read_len`
    /// bytes back; the transfer, with its answer, is recorded.
    fn write_read(&mut self, address: u8, write_buf: &[u8], read_len: usize) -> (r: Result<
        Vec<u8>,
        String,
    >)
        ensures
            final(self).transfers() == old(self).transfers().push(
                (address, write_buf@, read_len, answer_view(r)),
            ),
            final(self).pauses() == old(self).pauses(),
            final(self).lookups() == old(self).lookups(),
    ;

    /// Looks up the dynamic address of the device that `mode` designates
    /// (from the bus enumeration, without a transfer on the bus); the
    /// lookup is recorded.
    fn lookup_address(&mut self, mode: &AddressMode) -> (r: Result<u8, String>)
        ensures
            final(self).transfers() == old(self).transfers(),
            final(self).pauses() == old(self).pauses(),
            final(self).lookups() == old(self).lookups().push(*mode),
    ;

    /// Waits `millis` milliseconds before a retry; the wait is recorded.
    fn pause(&mut self, millis: u64)
        ensures
            final(self).pauses() == old(self).pauses().push(millis),
            final(self).transfers() == old(self).transfers(),
            final(self).lookups() == old(self).lookups(),
    ;
}

/// Stands in for hardware where there is none: every transfer fails, and
/// waits return at once.
pub struct StubI3cDevice {
    log: Ghost<I3cRecord>,
    waits: Ghost<PauseRecord>,
    looked_up: Ghost<LookupRecord>,
}

impl StubI3cDevice {
    /// A stub on which nothing has been done yet.
    pub fn new() -> (d: Self)
        ensures
            d.transfers() == Seq::<I3cTransfer>::empty(),
            d.pauses() == Seq::<u64>::empty(),
            d.lookups() == Seq::<AddressMode>::empty(),
    {
        StubI3cDevice {
            log: Ghost(Seq::empty()),
            waits: Ghost(Seq::empty()),
            looked_up: Ghost(Seq::empty()),
        }
    }
}

impl I3cDevice for StubI3cDevice {
    closed spec fn transfers(&self) -> I3cRecord {
        self.log@
    }

    closed spec fn pauses(&self) -> PauseRecord {
        self.waits@
    }

    closed spec fn lookups(&self) -> LookupRecord {
        self.looked_up@
    }

    fn write_read(&mut self, address: u8, write_buf: &[u8], read_len: usize) -> (r: Result<
        Vec<u8>,
        String,
    >)
        ensures
            r matches Err(e) && e@ == "StubI3cDevice: no real I3C hardware available"@,
    {
        let r = Err(String::from_str("StubI3cDevice: no real I3C hardware available"));
        self.log = Ghost(self.log@.push((address, write_buf@, read_len, answer_view(r))));
        r
    }

    /// Without an enumeration to consult, only a static address resolves.
    fn lookup_address(&mut self, mode: &AddressMode) -> (r: Result<u8, String>)
        ensures
            *mode matches AddressMode::Static(a) ==> r == Ok::<u8, String>(a),
            !(*mode is Static) ==> (r matches Err(e) && e@
                == "I3C address resolution from sysfs is only available on Linux"@),
    {
        self.looked_up = Ghost(self.looked_up@.push(*mode));
        match mode {
            AddressMode::Static(a) => Ok(*a),
            _ => Err(
                String::from_str("I3C address resolution from sysfs is only available on Linux"),
            ),
        }
    }

    fn pause(&mut self, millis: u64) {
        self.waits = Ghost(self.waits@.push(millis));
    }
}

/// How a failed I3C transfer is treated.
#[derive(Debug, Clone, Copy, PartialEq, Eq, Structural)]
pub enum I3cErrorKind {
    /// NACK or transfer error: re-enumerating may help.
    TransferError,
    /// Anything else: retrying will not help.
    Other,
}

/// Whether an error text (lower-cased) speaks of a NACK or a failed transfer.
pub open spec fn is_transfer_error(msg: Seq<char>) -> bool {
    let l = unicode_lowercase(msg);
    contains_seq(l, "nack"@) || contains_seq(l, "transfer"@) || contains_seq(l, "i/o error"@)
        || contains_seq(l, "io error"@) || contains_seq(l, "connection reset"@) || contains_seq(
        l,
        "remote i/o"@,
    )
}

/// Classifies an error by its text.
pub fn classify_error(msg: &str) -> (k: I3cErrorKind)
    ensures
        k == (if is_transfer_error(msg@) {
            I3cErrorKind::TransferError
        } else {
            I3cErrorKind::Other
        }),
{
    let lower = to_lowercase(msg);
    let l = chars_of(lower.as_str());
    let w1 = chars_of("nack");
    let w2 = chars_of("transfer");
    let w3 = chars_of("i/o error");
    let w4 = chars_of("io error");
    let w5 = chars_of("connection reset");
    let w6 = chars_of("remote i/o");
    if contains_chars(l.as_slice(), w1.as_slice()) || contains_chars(l.as_slice(), w2.as_slice())
        || contains_chars(l.as_slice(), w3.as_slice()) || contains_chars(
        l.as_slice(),
        w4.as_slice(),
    ) || contains_chars(l.as_slice(), w5.as_slice()) || contains_chars(
        l.as_slice(),
        w6.as_slice(),
    ) {
        I3cErrorKind::TransferError
    } else {
        I3cErrorKind::Other
    }
}

/// Number of re-enumeration attempts after a failed transfer.
pub const I3C_RETRIES: usize = 3;

/// What follows the first transfer of a read.
#[derive(Debug, Clone, PartialEq, Eq)]
pub enum FirstAttempt {
    /// The data read.
    Done(Vec<u8>),
    /// Give up with this message.
    Fail(String),
    /// Re-enumerate and retry.
    Retry,
}

/// Decides on the outcome of the first transfer: data is returned, an error
/// that is not a transfer error fails at once, a transfer error is retried.
pub fn after_first_attempt(result: Result<Vec<u8>, String>) -> (step: FirstAttempt)
    ensures
        match result {
            Ok(d) => step == FirstAttempt::Done(d),
            Err(e) => if is_transfer_error(e@) {
                step == FirstAttempt::Retry
            } else {
                step matches FirstAttempt::Fail(m) && m@ == "I3C read failed (non-retriable): "@
                    + e@
            },
        },
{
    match result {
        Ok(d) => FirstAttempt::Done(d),
        Err(e) => {
            if classify_error(e.as_str()) == I3cErrorKind::Other {
                let mut m = String::new();
                m.append("I3C read failed (non-retriable): ");
                m.append(e.as_str());
                FirstAttempt::Fail(m)
            } else {
                FirstAttempt::Retry
            }
        },
    }
}

/// "I3C read failed after 3 retries on {bus}: {last error}"
pub open spec fn retries_exhausted(bus: Seq<char>, last: Seq<char>) -> Seq<char> {
    "I3C read failed after 3 retries on "@ + bus + ": "@ + last
}

/// An I3C device with its address resolution cached.
///
/// A static address is known from the start and never forgotten; other
/// modes resolve through the device's bus enumeration, and a failed transfer
/// forgets the resolved address so that the next read resolves it again.
pub struct I3cMetricReader<D: I3cDevice> {
    device: D,
    bus_path: String,
    address_mode: AddressMode,
    resolved_address: Option<u8>,
    connected: bool,
}

/// The transfers of a log made after its first `n`.
pub open spec fn transfers_since(log: Seq<I3cTransfer>, n: int) -> Seq<I3cTransfer> {
    log.subrange(n, log.len() as int)
}

/// The waits of a log made after its first `n`.
pub open spec fn pauses_since(log: Seq<u64>, n: int) -> Seq<u64> {
    log.subrange(n, log.len() as int)
}

/// The waits before the three retries, in milliseconds.
pub open spec fn retry_waits() -> Seq<u64> {
    seq![100u64, 500u64, 2000u64]
}

/// Whether an answer is a transfer error, which is retried.
pub open spec fn retriable(answer: Result<Seq<u8>, Seq<char>>) -> bool {
    answer matches Err(e) && is_transfer_error(e)
}

/// The lookups of a read: those made before stay, each new one resolves
/// the reader's mode, and with a static address none is made.
pub open spec fn lookups_of(after: Seq<AddressMode>, before: Seq<AddressMode>, mode: AddressMode) -> bool {
    &&& after.len() >= before.len()
    &&& after.subrange(0, before.len() as int) == before
    &&& forall|k: int| before.len() <= k < after.len() ==> #[trigger] after[k] == mode
    &&& mode is Static ==> after == before
}

proof fn lemma_lookups_step(
    before: Seq<AddressMode>,
    mid: Seq<AddressMode>,
    after: Seq<AddressMode>,
    mode: AddressMode,
)
    requires
        lookups_of(mid, before, mode),
        after == mid || (after == mid.push(mode) && !(mode is Static)),
    ensures
        lookups_of(after, before, mode),
{
    if after != mid {
        assert(after.subrange(0, before.len() as int) =~= mid.subrange(0, before.len() as int));
    }
}

/// What a register read did: `new` are its transfers, each writing
/// `register` and asking `byte_count` bytes, the first at the address that
/// was known before (when one was); at most three retries, made only after
/// a transfer error; the first successful transfer ends the read with its
/// data; a first error of another kind ends it at once; when the retries
/// run out, the last error is reported.  Each retry follows a wait of 100,
/// 500 and 2000 ms in turn (`waits`); all three are waited when the retries
/// run out; with a static address every retry goes to that address.  `r` is
/// the read's result.
pub open spec fn register_read(
    new: Seq<I3cTransfer>,
    waits: Seq<u64>,
    register: u8,
    byte_count: nat,
    mode: AddressMode,
    known: Option<u8>,
    bus: Seq<char>,
    r: Result<Seq<u8>, Seq<char>>,
) -> bool {
    &&& new.len() <= 1 + I3C_RETRIES
    &&& waits.len() <= I3C_RETRIES
    &&& waits == retry_waits().take(waits.len() as int)
    &&& (new.len() == 0 || !retriable(new[0].3)) ==> waits.len() == 0
    &&& (new.len() >= 1 && retriable(new[0].3) && r is Err) ==> waits.len() == I3C_RETRIES
    &&& new.len() >= 1 ==> new.len() <= waits.len() + 1
    &&& mode matches AddressMode::Static(a) ==> (new.len() == waits.len() + 1 && forall|k: int|
        0 <= k < new.len() ==> #[trigger] new[k].0 == a)
    &&& forall|k: int| 0 <= k < new.len() ==> #[trigger] new[k].1 == seq![register] && new[k].2 == byte_count
    &&& forall|k: int| 0 <= k < new.len() - 1 ==> #[trigger] new[k].3 is Err
    &&& known matches Some(a) ==> new.len() >= 1 && new[0].0 == a
    &&& new.len() == 0 ==> known is None && r is Err
    &&& new.len() >= 1 ==> (new.last().3 is Ok <==> r is Ok)
    &&& r matches Ok(d) ==> new.len() >= 1 && new.last().3 == Ok::<Seq<u8>, Seq<char>>(d)
    &&& new.len() >= 2 ==> (new[0].3 matches Err(e) && is_transfer_error(e))
    &&& new.len() >= 1 ==> (new[0].3 matches Err(e) ==> (!is_transfer_error(e) ==> (new.len() == 1 && r
        == Err::<Seq<u8>, Seq<char>>("I3C read failed (non-retriable): "@ + e))))
    &&& new.len() >= 1 ==> (new[0].3 matches Err(e) ==> ((is_transfer_error(e) && r is Err) ==> exists|
        last: Seq<char>,
    | r == Err::<Seq<u8>, Seq<char>>(retries_exhausted(bus, last))))
}

/// What reading a metric gives for the result of its register read.
pub open spec fn i3c_metric_result(metric: config::Metric, read: Result<Seq<u8>, Seq<char>>) -> Result<RawValue, Seq<char>> {
    match read {
        Ok(bytes) => decoded(bytes, metric),
        Err(e) => Err(e),
    }
}


/// The address a mode is known by without enumeration.
pub open spec fn initial_address(mode: AddressMode) -> Option<u8> {
    match mode {
        AddressMode::Static(a) => Some(a),
        _ => None,
    }
}

impl<D: I3cDevice> I3cMetricReader<D> {
    pub closed spec fn spec_bus_path(&self) -> Seq<char> {
        self.bus_path@
    }

    pub closed spec fn spec_mode(&self) -> AddressMode {
        self.address_mode
    }

    pub closed spec fn spec_resolved(&self) -> Option<u8> {
        self.resolved_address
    }

    pub closed spec fn spec_connected(&self) -> bool {
        self.connected
    }

    /// The device the reader talks to.
    pub closed spec fn spec_device(&self) -> D {
        self.device
    }

    /// The transfers made on the reader's device, oldest first.
    pub open spec fn spec_transfers(&self) -> Seq<I3cTransfer> {
        self.spec_device().transfers()
    }

    /// The waits made on the reader's device, oldest first.
    pub open spec fn spec_pauses(&self) -> Seq<u64> {
        self.spec_device().pauses()
    }

    /// The address lookups made through the reader's device, oldest first.
    pub open spec fn spec_lookups(&self) -> Seq<AddressMode> {
        self.spec_device().lookups()
    }

    /// A static address stays resolved.
    pub closed spec fn wf(&self) -> bool {
        self.address_mode matches AddressMode::Static(a) ==> self.resolved_address == Some(a)
    }

    /// A reader for `device`; only a static address is resolved yet, and
    /// the device is not used.
    pub fn new(device: D, bus_path: String, address_mode: AddressMode) -> (r: Self)
        ensures
            r.wf(),
            r.spec_bus_path() == bus_path@,
            r.spec_mode() == address_mode,
            r.spec_resolved() == initial_address(address_mode),
            !r.spec_connected(),
            r.spec_device() == device,
    {
        let resolved = match &address_mode {
            AddressMode::Static(a) => Some(*a),
            _ => None,
        };
        I3cMetricReader {
            device,
            bus_path,
            address_mode,
            resolved_address: resolved,
            connected: false,
        }
    }

    /// The resolved address, if any.
    pub fn resolved_address(&self) -> (r: Option<u8>)
        ensures
            r == self.spec_resolved(),
    {
        self.resolved_address
    }

    /// Sets the resolved address (as an enumeration would).
    pub fn set_resolved_address(&mut self, addr: u8)
        requires
            old(self).wf(),
            old(self).spec_mode() matches AddressMode::Static(a) ==> a == addr,
        ensures
            final(self).wf(),
            final(self).spec_resolved() == Some(addr),
            final(self).spec_mode() == old(self).spec_mode(),
            final(self).spec_bus_path() == old(self).spec_bus_path(),
            final(self).spec_connected() == old(self).spec_connected(),
            final(self).spec_transfers() == old(self).spec_transfers(),
            final(self).spec_pauses() == old(self).spec_pauses(),
            final(self).spec_lookups() == old(self).spec_lookups(),
    {
        self.resolved_address = Some(addr);
    }

    /// The cached address, or the one the enumeration finds (then cached).
    pub fn resolve_address(&mut self) -> (r: Result<u8, String>)
        requires
            old(self).wf(),
        ensures
            final(self).wf(),
            final(self).spec_mode() == old(self).spec_mode(),
            final(self).spec_bus_path() == old(self).spec_bus_path(),
            final(self).spec_connected() == old(self).spec_connected(),
            final(self).spec_transfers() == old(self).spec_transfers(),
            final(self).spec_pauses() == old(self).spec_pauses(),
            old(self).spec_resolved() matches Some(a) ==> r == Ok::<u8, String>(a)
                && final(self).spec_resolved() == old(self).spec_resolved(),
            old(self).spec_resolved() is None ==> match r {
                Ok(a) => final(self).spec_resolved() == Some(a),
                Err(_) => final(self).spec_resolved() is None,
            },
            old(self).spec_resolved() is Some ==> final(self).spec_lookups() == old(
                self,
            ).spec_lookups(),
            old(self).spec_resolved() is None ==> final(self).spec_lookups() == old(
                self,
            ).spec_lookups().push(old(self).spec_mode()),
    {
        if let Some(a) = self.resolved_address {
            return Ok(a);
        }
        match self.device.lookup_address(&self.address_mode) {
            Ok(a) => {
                self.resolved_address = Some(a);
                Ok(a)
            },
            Err(e) => Err(e),
        }
    }

    /// Forgets a dynamically resolved address; a static one stays.
    pub fn invalidate_address(&mut self)
        requires
            old(self).wf(),
        ensures
            final(self).wf(),
            final(self).spec_resolved() == initial_address(old(self).spec_mode()),
            final(self).spec_mode() == old(self).spec_mode(),
            final(self).spec_bus_path() == old(self).spec_bus_path(),
            final(self).spec_connected() == old(self).spec_connected(),
            final(self).spec_transfers() == old(self).spec_transfers(),
            final(self).spec_pauses() == old(self).spec_pauses(),
            final(self).spec_lookups() == old(self).spec_lookups(),
    {
        match &self.address_mode {
            AddressMode::Static(_) => {},
            _ => {
                self.resolved_address = None;
            },
        }
    }

    /// Reads `byte_count` bytes from `register`.  A transfer error is retried
    /// three times, after waits of 100, 500 and 2000 ms, each time resolving
    /// the address anew; any other error fails at once.  `register_read`
    /// relates the transfers and waits made on the device to the result.
    pub fn read_register_sync(&mut self, register: u8, byte_count: usize) -> (r: Result<
        Vec<u8>,
        String,
    >)
        requires
            old(self).wf(),
        ensures
            final(self).wf(),
            final(self).spec_mode() == old(self).spec_mode(),
            final(self).spec_bus_path() == old(self).spec_bus_path(),
            final(self).spec_connected() == old(self).spec_connected(),
            final(self).spec_transfers().len() >= old(self).spec_transfers().len(),
            final(self).spec_transfers().subrange(0, old(self).spec_transfers().len() as int)
                == old(self).spec_transfers(),
            final(self).spec_pauses().len() >= old(self).spec_pauses().len(),
            final(self).spec_pauses().subrange(0, old(self).spec_pauses().len() as int)
                == old(self).spec_pauses(),
            lookups_of(
                final(self).spec_lookups(),
                old(self).spec_lookups(),
                old(self).spec_mode(),
            ),
            register_read(
                transfers_since(final(self).spec_transfers(), old(self).spec_transfers().len() as int),
                pauses_since(final(self).spec_pauses(), old(self).spec_pauses().len() as int),
                register,
                byte_count as nat,
                old(self).spec_mode(),
                old(self).spec_resolved(),
                old(self).spec_bus_path(),
                answer_view(r),
            ),
    {
        let ghost known = self.resolved_address;
        let ghost l0 = self.device.transfers();
        let ghost p0 = self.device.pauses();
        let ghost k0 = self.device.lookups();
        assert(k0.subrange(0, k0.len() as int) =~= k0);
        let resolved = self.resolve_address();
        proof {
            lemma_lookups_step(k0, k0, self.device.lookups(), old(self).spec_mode());
        }
        let address = match resolved {
            Ok(a) => a,
            Err(e) => {
                assert(transfers_since(self.device.transfers(), l0.len() as int) =~= Seq::<I3cTransfer>::empty());
                assert(pauses_since(self.device.pauses(), p0.len() as int) =~= Seq::<u64>::empty());
                assert(self.device.pauses().subrange(0, p0.len() as int) =~= p0);
                assert(self.device.transfers().subrange(0, l0.len() as int) =~= l0);
                assert(retry_waits().take(0) =~= Seq::<u64>::empty());
                assert(!(old(self).spec_mode() is Static));
                return Err(e);
            },
        };
        let mut cmd: Vec<u8> = Vec::new();
        cmd.push(register);
        assert(cmd@ =~= seq![register]);
        let first = self.device.write_read(address, cmd.as_slice(), byte_count);
        let ghost first_view = answer_view(first);
        assert(transfers_since(self.device.transfers(), l0.len() as int) =~= seq![(address, seq![register], byte_count, first_view)]);
        assert(self.device.transfers().subrange(0, l0.len() as int) =~= l0);
        assert(pauses_since(self.device.pauses(), p0.len() as int) =~= Seq::<u64>::empty());
        assert(self.device.pauses().subrange(0, p0.len() as int) =~= p0);
        assert(retry_waits().take(0) =~= Seq::<u64>::empty());
        let mut last_err = match after_first_attempt(first) {
            FirstAttempt::Done(d) => return Ok(d),
            FirstAttempt::Fail(m) => {
                assert(first_view matches Err(e) && !is_transfer_error(e) && m@
                    == "I3C read failed (non-retriable): "@ + e);
                return Err(m);
            },
            FirstAttempt::Retry => String::new(),
        };
        assert(first_view matches Err(e) && is_transfer_error(e));
        let mut attempt: usize = 0;
        while attempt < I3C_RETRIES
            invariant
                self.wf(),
                self.spec_mode() == old(self).spec_mode(),
                self.spec_bus_path() == old(self).spec_bus_path(),
                self.spec_connected() == old(self).spec_connected(),
                l0 == old(self).spec_transfers(),
                p0 == old(self).spec_pauses(),
                k0 == old(self).spec_lookups(),
                lookups_of(self.device.lookups(), k0, old(self).spec_mode()),
                known == old(self).spec_resolved(),
                known matches Some(a) ==> address == a,
                old(self).spec_mode() matches AddressMode::Static(a) ==> address == a,
                attempt <= I3C_RETRIES,
                self.device.transfers().len() >= l0.len() + 1,
                self.device.transfers().subrange(0, l0.len() as int) == l0,
                self.device.pauses().len() >= p0.len(),
                self.device.pauses().subrange(0, p0.len() as int) == p0,
                pauses_since(self.device.pauses(), p0.len() as int) == retry_waits().take(attempt as int),
                transfers_since(self.device.transfers(), l0.len() as int).len() <= attempt + 1,
                old(self).spec_mode() is Static ==> transfers_since(self.device.transfers(), l0.len() as int).len()
                    == attempt + 1,
                transfers_since(self.device.transfers(), l0.len() as int)[0] == (address, seq![register], byte_count, first_view),
                first_view matches Err(e) && is_transfer_error(e),
                forall|k: int|
                    0 <= k < transfers_since(self.device.transfers(), l0.len() as int).len() ==> {
                        let t = #[trigger] transfers_since(self.device.transfers(), l0.len() as int)[k];
                        &&& t.1 == seq![register]
                        &&& t.2 == byte_count
                        &&& t.3 is Err
                        &&& (old(self).spec_mode() matches AddressMode::Static(a) ==> t.0 == a)
                    },
            decreases I3C_RETRIES - attempt,
        {
            let wait: u64 = if attempt == 0 {
                100
            } else if attempt == 1 {
                500
            } else {
                2000
            };
            assert(wait == retry_waits()[attempt as int]);
            let ghost pb = self.device.pauses();
            self.device.pause(wait);
            assert(pauses_since(self.device.pauses(), p0.len() as int) =~= pauses_since(pb, p0.len() as int).push(wait));
            assert(retry_waits().take(attempt + 1) =~= retry_waits().take(attempt as int).push(wait));
            assert(self.device.pauses().subrange(0, p0.len() as int) =~= pb.subrange(0, p0.len() as int));
            let ghost kb = self.device.lookups();
            self.invalidate_address();
            let resolved = self.resolve_address();
            proof {
                lemma_lookups_step(k0, kb, self.device.lookups(), old(self).spec_mode());
            }
            match resolved {
                Ok(a) => {
                    let mut cmd: Vec<u8> = Vec::new();
                    cmd.push(register);
                    assert(cmd@ =~= seq![register]);
                    let ghost before = self.device.transfers();
                    let res = self.device.write_read(a, cmd.as_slice(), byte_count);
                    let ghost t = (a, seq![register], byte_count, answer_view(res));
                    assert(transfers_since(self.device.transfers(), l0.len() as int) =~= transfers_since(before, l0.len() as int).push(t));
                    assert(self.device.transfers().subrange(0, l0.len() as int) =~= before.subrange(0, l0.len() as int));
                    let ghost nw = transfers_since(self.device.transfers(), l0.len() as int);
                    let ghost prev = transfers_since(before, l0.len() as int);
                    assert forall|k: int| 0 <= k < nw.len() - 1 implies #[trigger] nw[k].3 is Err by {
                        assert(nw[k] == prev[k]);
                    }
                    assert forall|k: int| 0 <= k < nw.len() implies #[trigger] nw[k].1 == seq![register]
                        && nw[k].2 == byte_count && (old(self).spec_mode() matches AddressMode::Static(b) ==> nw[k].0 == b) by {
                        if k < prev.len() {
                            assert(nw[k] == prev[k]);
                        }
                    }
                    assert(nw[0] == prev[0]);
                    match res {
                        Ok(d) => {
                            return Ok(d);
                        },
                        Err(e) => {
                            last_err = e;
                        },
                    }
                },
                Err(e) => {
                    last_err = e;
                },
            }
            attempt = attempt + 1;
        }
        let mut m = String::new();
        m.append("I3C read failed after 3 retries on ");
        m.append(self.bus_path.as_str());
        m.append(": ");
        m.append(last_err.as_str());
        assert(m@ == retries_exhausted(old(self).spec_bus_path(), last_err@));
        assert(retry_waits().take(3) =~= retry_waits());
        proof {
            let nw = transfers_since(self.device.transfers(), l0.len() as int);
            assert forall|k: int| 0 <= k < nw.len() implies #[trigger] nw[k].1 == seq![register]
                && nw[k].2 == byte_count && nw[k].3 is Err by {}
            assert forall|k: int| 0 <= k < nw.len() implies #[trigger] nw[k].0 == nw[k].0 by {}
        }
        Err(m)
    }

    /// Marks the reader connected.
    pub fn connect(&mut self)
        requires
            old(self).wf(),
        ensures
            final(self).wf(),
            final(self).spec_connected(),
            final(self).spec_mode() == old(self).spec_mode(),
            final(self).spec_resolved() == old(self).spec_resolved(),
            final(self).spec_transfers() == old(self).spec_transfers(),
            final(self).spec_pauses() == old(self).spec_pauses(),
            final(self).spec_lookups() == old(self).spec_lookups(),
    {
        self.connected = true;
    }

    /// Marks the reader disconnected.
    pub fn disconnect(&mut self)
        requires
            old(self).wf(),
        ensures
            final(self).wf(),
            !final(self).spec_connected(),
            final(self).spec_mode() == old(self).spec_mode(),
            final(self).spec_resolved() == old(self).spec_resolved(),
            final(self).spec_transfers() == old(self).spec_transfers(),
            final(self).spec_pauses() == old(self).spec_pauses(),
            final(self).spec_lookups() == old(self).spec_lookups(),
    {
        self.connected = false;
    }

    /// Whether the reader is connected.
    pub fn is_connected(&self) -> (b: bool)
        ensures
            b == self.spec_connected(),
    {
        self.connected
    }

    /// Reads and decodes one metric: a register read of the register that is
    /// the low byte of its address, as long as its data type; the data read
    /// is decoded, an error is passed on.
    pub fn read_metric(&mut self, metric: &config::Metric) -> (r: Result<RawValue, String>)
        requires
            old(self).wf(),
            metric.address is Some,
        ensures
            final(self).wf(),
            final(self).spec_mode() == old(self).spec_mode(),
            final(self).spec_bus_path() == old(self).spec_bus_path(),
            final(self).spec_connected() == old(self).spec_connected(),
            final(self).spec_transfers().len() >= old(self).spec_transfers().len(),
            final(self).spec_transfers().subrange(0, old(self).spec_transfers().len() as int)
                == old(self).spec_transfers(),
            final(self).spec_pauses().len() >= old(self).spec_pauses().len(),
            final(self).spec_pauses().subrange(0, old(self).spec_pauses().len() as int)
                == old(self).spec_pauses(),
            lookups_of(
                final(self).spec_lookups(),
                old(self).spec_lookups(),
                old(self).spec_mode(),
            ),
            exists|read: Result<Seq<u8>, Seq<char>>|
                {
                    &&& register_read(
                        transfers_since(final(self).spec_transfers(), old(self).spec_transfers().len() as int),
                        pauses_since(final(self).spec_pauses(), old(self).spec_pauses().len() as int),
                        register_of(*metric),
                        spec_byte_count(config::spec_map_data_type(metric.data_type)),
                        old(self).spec_mode(),
                        old(self).spec_resolved(),
                        old(self).spec_bus_path(),
                        read,
                    )
                    &&& outcome_view(r) == i3c_metric_result(*metric, read)
                },
    {
        let data_type = config::map_data_type(metric.data_type);
        let register = (metric.address.unwrap() % 256) as u8;
        let n = decoder::byte_count(data_type);
        let rr = self.read_register_sync(register, n);
        let ghost read = answer_view(rr);
        let r = match rr {
            Ok(bytes) => decode_for(bytes.as_slice(), metric),
            Err(e) => Err(e),
        };
        assert(outcome_view(r) == i3c_metric_result(*metric, read));
        r
    }
}

/// The I3C client of a bus: a device with its address resolution and
/// caching.  It reads registers as `I3cMetricReader` does, whose work it
/// hands on.
pub struct I3cClient<D: I3cDevice> {
    reader: I3cMetricReader<D>,
}

impl<D: I3cDevice> I3cClient<D> {
    /// The bus device's path.
    pub closed spec fn spec_bus_path(&self) -> Seq<char> {
        self.reader.spec_bus_path()
    }

    /// How the device's address is found.
    pub closed spec fn spec_mode(&self) -> AddressMode {
        self.reader.spec_mode()
    }

    /// The cached address.
    pub closed spec fn spec_resolved(&self) -> Option<u8> {
        self.reader.spec_resolved()
    }

    /// Whether the client counts as connected.
    pub closed spec fn spec_connected(&self) -> bool {
        self.reader.spec_connected()
    }

    /// The device the client talks to.
    pub closed spec fn spec_device(&self) -> D {
        self.reader.spec_device()
    }

    /// The transfers made on the client's device, oldest first.
    pub open spec fn spec_transfers(&self) -> Seq<I3cTransfer> {
        self.spec_device().transfers()
    }

    /// The waits made on the client's device, oldest first.
    pub open spec fn spec_pauses(&self) -> Seq<u64> {
        self.spec_device().pauses()
    }

    /// The address lookups made through the client's device, oldest first.
    pub open spec fn spec_lookups(&self) -> Seq<AddressMode> {
        self.spec_device().lookups()
    }

    /// A static address stays resolved.
    pub closed spec fn wf(&self) -> bool {
        self.reader.wf()
    }

    /// A client for `device`; only a static address is resolved yet, and the
    /// device is not used.
    pub fn new(device: D, bus_path: String, address_mode: AddressMode) -> (r: Self)
        ensures
            r.wf(),
            r.spec_bus_path() == bus_path@,
            r.spec_mode() == address_mode,
            r.spec_resolved() == initial_address(address_mode),
            !r.spec_connected(),
            r.spec_device() == device,
    {
        I3cClient { reader: I3cMetricReader::new(device, bus_path, address_mode) }
    }

    /// The resolved address, if any.
    pub fn resolved_address(&self) -> (r: Option<u8>)
        ensures
            r == self.spec_resolved(),
    {
        self.reader.resolved_address()
    }

    /// The cached address, or the one a lookup finds (then cached).
    pub fn resolve_address(&mut self) -> (r: Result<u8, String>)
        requires
            old(self).wf(),
        ensures
            final(self).wf(),
            final(self).spec_mode() == old(self).spec_mode(),
            final(self).spec_bus_path() == old(self).spec_bus_path(),
            final(self).spec_connected() == old(self).spec_connected(),
            final(self).spec_transfers() == old(self).spec_transfers(),
            final(self).spec_pauses() == old(self).spec_pauses(),
            old(self).spec_resolved() matches Some(a) ==> r == Ok::<u8, String>(a)
                && final(self).spec_resolved() == old(self).spec_resolved(),
            old(self).spec_resolved() is None ==> match r {
                Ok(a) => final(self).spec_resolved() == Some(a),
                Err(_) => final(self).spec_resolved() is None,
            },
            old(self).spec_resolved() is Some ==> final(self).spec_lookups() == old(
                self,
            ).spec_lookups(),
            old(self).spec_resolved() is None ==> final(self).spec_lookups() == old(
                self,
            ).spec_lookups().push(old(self).spec_mode()),
    {
        self.reader.resolve_address()
    }

    /// Forgets a dynamically resolved address (for a new lookup after a
    /// NACK); a static one stays.
    pub fn invalidate_address(&mut self)
        requires
            old(self).wf(),
        ensures
            final(self).wf(),
            final(self).spec_resolved() == initial_address(old(self).spec_mode()),
            final(self).spec_mode() == old(self).spec_mode(),
            final(self).spec_bus_path() == old(self).spec_bus_path(),
            final(self).spec_connected() == old(self).spec_connected(),
            final(self).spec_transfers() == old(self).spec_transfers(),
            final(self).spec_pauses() == old(self).spec_pauses(),
            final(self).spec_lookups() == old(self).spec_lookups(),
    {
        self.reader.invalidate_address()
    }

    /// Reads `byte_count` bytes from `register`, retrying a transfer error
    /// three times after waits of 100, 500 and 2000 ms (see `register_read`).
    pub fn read_register_sync(&mut self, register: u8, byte_count: usize) -> (r: Result<
        Vec<u8>,
        String,
    >)
        requires
            old(self).wf(),
        ensures
            final(self).wf(),
            final(self).spec_mode() == old(self).spec_mode(),
            final(self).spec_bus_path() == old(self).spec_bus_path(),
            final(self).spec_connected() == old(self).spec_connected(),
            final(self).spec_transfers().len() >= old(self).spec_transfers().len(),
            final(self).spec_transfers().subrange(0, old(self).spec_transfers().len() as int)
                == old(self).spec_transfers(),
            final(self).spec_pauses().len() >= old(self).spec_pauses().len(),
            final(self).spec_pauses().subrange(0, old(self).spec_pauses().len() as int)
                == old(self).spec_pauses(),
            lookups_of(
                final(self).spec_lookups(),
                old(self).spec_lookups(),
                old(self).spec_mode(),
            ),
            register_read(
                transfers_since(final(self).spec_transfers(), old(self).spec_transfers().len() as int),
                pauses_since(final(self).spec_pauses(), old(self).spec_pauses().len() as int),
                register,
                byte_count as nat,
                old(self).spec_mode(),
                old(self).spec_resolved(),
                old(self).spec_bus_path(),
                answer_view(r),
            ),
    {
        self.reader.read_register_sync(register, byte_count)
    }
}


/// The SPI transmit buffer starts with the command, is as long as the
/// response (the configured length, else the command's own) or the command
/// if that is longer, and is zero after the command.
pub proof fn law_tx_frame_zero_padded(command: Seq<u8>, response_length: Option<u16>)
    ensures
        ({
            let n: int = match response_length {
                Some(l) => l as int,
                None => (command.len() as u16) as int,
            };
            let tx = tx_frame(command, response_length);
            &&& tx.len() == if command.len() < n { n } else { command.len() as int }
            &&& tx.take(command.len() as int) == command
            &&& forall|i: int| command.len() <= i < tx.len() ==> tx[i] == 0u8
        }),
{
    let tx = tx_frame(command, response_length);
    assert(tx.take(command.len() as int) =~= command);
}

/// A byte-bus metric decodes its bytes as configured: a `u16` is the two
/// bytes read big-endian (little-endian for the little-endian orders), an
/// `i16` the two's complement reading of the same, and `u32`/`i32` likewise
/// over four bytes.
pub proof fn law_byte_metric_decoding(bytes: Seq<u8>, metric: config::Metric)
    ensures
        ({
            let big = metric.byte_order == config::ByteOrder::BigEndian || metric.byte_order
                == config::ByteOrder::MidBigEndian;
            let u2: int = if big {
                bytes[0] * 256 + bytes[1]
            } else {
                bytes[1] * 256 + bytes[0]
            };
            let u4: int = if big {
                bytes[0] * 0x100_0000 + bytes[1] * 0x1_0000 + bytes[2] * 0x100 + bytes[3]
            } else {
                bytes[3] * 0x100_0000 + bytes[2] * 0x1_0000 + bytes[1] * 0x100 + bytes[0]
            };
            &&& (bytes.len() >= 2 && metric.data_type == config::DataType::U16) ==> decoded(bytes, metric)
                == Ok::<RawValue, Seq<char>>(RawValue::Unsigned(u2 as u64))
            &&& (bytes.len() >= 2 && metric.data_type == config::DataType::I16) ==> decoded(bytes, metric)
                == Ok::<RawValue, Seq<char>>(
                RawValue::Signed((if u2 >= 0x8000 { u2 - 0x1_0000 } else { u2 }) as i64),
            )
            &&& (bytes.len() >= 4 && metric.data_type == config::DataType::U32) ==> decoded(bytes, metric)
                == Ok::<RawValue, Seq<char>>(RawValue::Unsigned(u4 as u64))
            &&& (bytes.len() >= 4 && metric.data_type == config::DataType::I32) ==> decoded(bytes, metric)
                == Ok::<RawValue, Seq<char>>(
                RawValue::Signed((if u4 >= 0x8000_0000 { u4 - 0x1_0000_0000 } else { u4 }) as i64),
            )
            &&& (bytes.len() >= 1 && metric.data_type == config::DataType::U8) ==> decoded(bytes, metric)
                == Ok::<RawValue, Seq<char>>(RawValue::Unsigned(bytes[0] as u64))
        }),
{
    decoder::law_decode_bytes(bytes, config::spec_map_byte_order(metric.byte_order));
}

} // verus!
