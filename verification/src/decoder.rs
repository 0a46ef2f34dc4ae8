//! Decoding of raw Modbus registers and raw I2C/SPI/I3C bytes.
//!
//! Decoding yields the exact integer, boolean or IEEE-754 bit pattern held by
//! the input (`RawValue`); turning a bit pattern into a floating-point number
//! and applying `scale`/`offset` is done by the caller.

use vstd::prelude::*;

use crate::text::{decimal, push_decimal};

verus! {

/// Byte order for multi-register values.
#[derive(Debug, Clone, Copy, PartialEq, Eq, Structural)]
pub enum ByteOrder {
    BigEndian,
    LittleEndian,
    MidBigEndian,
    MidLittleEndian,
}

/// Supported data types for decoding.
#[derive(Debug, Clone, Copy, PartialEq, Eq, Structural)]
pub enum DataType {
    U8,
    U16,
    I16,
    U32,
    I32,
    F32,
    U64,
    I64,
    F64,
    Bool,
}

/// Errors that can occur during decoding.
#[derive(Debug, Clone, Copy, PartialEq, Eq, Structural)]
pub enum DecodeError {
    InsufficientRegisters { expected: usize, got: usize },
}

/// The exact value held by the decoded registers or bytes.
#[derive(Debug, Clone, Copy, PartialEq, Eq, Structural)]
pub enum RawValue {
    Bool(bool),
    Unsigned(u64),
    Signed(i64),
    /// IEEE-754 single precision bit pattern.
    F32Bits(u32),
    /// IEEE-754 double precision bit pattern.
    F64Bits(u64),
}

pub open spec fn spec_registers_needed(data_type: DataType) -> nat {
    match data_type {
        DataType::U8 | DataType::U16 | DataType::I16 | DataType::Bool => 1,
        DataType::U32 | DataType::I32 | DataType::F32 => 2,
        DataType::U64 | DataType::I64 | DataType::F64 => 4,
    }
}

pub open spec fn spec_byte_count(data_type: DataType) -> nat {
    match data_type {
        DataType::Bool | DataType::U8 => 1,
        DataType::U16 | DataType::I16 => 2,
        DataType::U32 | DataType::I32 | DataType::F32 => 4,
        DataType::U64 | DataType::I64 | DataType::F64 => 8,
    }
}

/// Required number of registers for a data type.
pub fn registers_needed(data_type: DataType) -> (n: usize)
    ensures
        n == spec_registers_needed(data_type),
{
    match data_type {
        DataType::U8 | DataType::U16 | DataType::I16 | DataType::Bool => 1,
        DataType::U32 | DataType::I32 | DataType::F32 => 2,
        DataType::U64 | DataType::I64 | DataType::F64 => 4,
    }
}

/// Returns the number of raw bytes needed for a byte-oriented read of this data type.
pub fn byte_count(data_type: DataType) -> (n: usize)
    ensures
        n == spec_byte_count(data_type),
{
    match data_type {
        DataType::Bool | DataType::U8 => 1,
        DataType::U16 | DataType::I16 => 2,
        DataType::U32 | DataType::I32 | DataType::F32 => 4,
        DataType::U64 | DataType::I64 | DataType::F64 => 8,
    }
}

// ── Mathematical model ────────────────────────────────────────────────

/// A 16-bit word with its two bytes exchanged.
pub open spec fn swap16(w: int) -> int {
    (w % 256) * 256 + w / 256
}

/// The 16-bit words that `n` registers form under `order`, most significant first.
pub open spec fn ordered_words(regs: Seq<u16>, n: int, order: ByteOrder) -> Seq<int> {
    Seq::new(
        n as nat,
        |i: int|
            match order {
                ByteOrder::BigEndian => regs[i] as int,
                ByteOrder::LittleEndian => swap16(regs[n - 1 - i] as int),
                ByteOrder::MidBigEndian => regs[(i + n / 2) % n] as int,
                ByteOrder::MidLittleEndian => swap16(regs[i] as int),
            },
    )
}

/// Unsigned value of a word sequence, most significant word first.
pub open spec fn words_value(ws: Seq<int>) -> int
    decreases ws.len(),
{
    if ws.len() == 0 {
        0
    } else {
        words_value(ws.drop_last()) * 65536 + ws.last()
    }
}

/// Unsigned value of a byte sequence, most significant byte first.
pub open spec fn be_value(bs: Seq<u8>) -> int
    decreases bs.len(),
{
    if bs.len() == 0 {
        0
    } else {
        be_value(bs.drop_last()) * 256 + bs.last()
    }
}

/// Unsigned value of a byte sequence, least significant byte first.
pub open spec fn le_value(bs: Seq<u8>) -> int {
    be_value(bs.reverse())
}

/// Two's complement reading of an unsigned `bits`-wide value.
pub open spec fn signed_of(u: int, bits: nat) -> int {
    if bits == 16 {
        if u >= 0x8000 { u - 0x1_0000 } else { u }
    } else if bits == 32 {
        if u >= 0x8000_0000 { u - 0x1_0000_0000 } else { u }
    } else {
        if u >= 0x8000_0000_0000_0000 { u - 0x1_0000_0000_0000_0000 } else { u }
    }
}

/// Unsigned value of the first `n` registers under `order`.
pub open spec fn registers_value(regs: Seq<u16>, n: int, order: ByteOrder) -> int {
    words_value(ordered_words(regs, n, order))
}

/// What decoding `regs` as `data_type` yields.
pub open spec fn spec_decode(regs: Seq<u16>, data_type: DataType, order: ByteOrder) -> Result<
    RawValue,
    DecodeError,
> {
    let needed = spec_registers_needed(data_type);
    if regs.len() < needed {
        Err(DecodeError::InsufficientRegisters { expected: needed as usize, got: regs.len() as usize })
    } else {
        Ok(
            match data_type {
                DataType::Bool => RawValue::Bool(regs[0] != 0),
                DataType::U8 => RawValue::Unsigned((regs[0] % 256) as u64),
                DataType::U16 => RawValue::Unsigned(regs[0] as u64),
                DataType::I16 => RawValue::Signed(signed_of(regs[0] as int, 16) as i64),
                DataType::U32 => RawValue::Unsigned(registers_value(regs, 2, order) as u64),
                DataType::I32 => RawValue::Signed(
                    signed_of(registers_value(regs, 2, order), 32) as i64,
                ),
                DataType::F32 => RawValue::F32Bits(registers_value(regs, 2, order) as u32),
                DataType::U64 => RawValue::Unsigned(registers_value(regs, 4, order) as u64),
                DataType::I64 => RawValue::Signed(
                    signed_of(registers_value(regs, 4, order), 64) as i64,
                ),
                DataType::F64 => RawValue::F64Bits(registers_value(regs, 4, order) as u64),
            },
        )
    }
}

/// Unsigned value of the first `n` bytes; mid-endian orders read as their byte-level order.
pub open spec fn bytes_value(bytes: Seq<u8>, n: int, order: ByteOrder) -> int {
    match order {
        ByteOrder::BigEndian | ByteOrder::MidBigEndian => be_value(bytes.take(n)),
        ByteOrder::LittleEndian | ByteOrder::MidLittleEndian => le_value(bytes.take(n)),
    }
}

/// What decoding `bytes` as `data_type` yields.
pub open spec fn spec_decode_bytes(bytes: Seq<u8>, data_type: DataType, order: ByteOrder) -> Result<
    RawValue,
    DecodeError,
> {
    let needed = spec_byte_count(data_type);
    if bytes.len() < needed {
        Err(DecodeError::InsufficientRegisters { expected: needed as usize, got: bytes.len() as usize })
    } else {
        Ok(
            match data_type {
                DataType::Bool => RawValue::Bool(bytes[0] % 2 == 1),
                DataType::U8 => RawValue::Unsigned(bytes[0] as u64),
                DataType::U16 => RawValue::Unsigned(bytes_value(bytes, 2, order) as u64),
                DataType::I16 => RawValue::Signed(signed_of(bytes_value(bytes, 2, order), 16) as i64),
                DataType::U32 => RawValue::Unsigned(bytes_value(bytes, 4, order) as u64),
                DataType::I32 => RawValue::Signed(signed_of(bytes_value(bytes, 4, order), 32) as i64),
                DataType::F32 => RawValue::F32Bits(bytes_value(bytes, 4, order) as u32),
                DataType::U64 => RawValue::Unsigned(bytes_value(bytes, 8, order) as u64),
                DataType::I64 => RawValue::Signed(signed_of(bytes_value(bytes, 8, order), 64) as i64),
                DataType::F64 => RawValue::F64Bits(bytes_value(bytes, 8, order) as u64),
            },
        )
    }
}

// ── Executable decoding ───────────────────────────────────────────────

fn swap_word(w: u16) -> (r: u64)
    ensures
        r == swap16(w as int),
        r < 65536,
{
    let lo = (w % 256) as u64;
    let hi = (w / 256) as u64;
    lo * 256 + hi
}

/// The `i`-th most significant word of `n` registers under `order`.
fn ordered_word(regs: &[u16], n: usize, i: usize, order: ByteOrder) -> (w: u64)
    requires
        n == 2 || n == 4,
        i < n,
        n <= regs@.len(),
    ensures
        w == ordered_words(regs@, n as int, order)[i as int],
        w < 65536,
{
    match order {
        ByteOrder::BigEndian => regs[i] as u64,
        ByteOrder::LittleEndian => swap_word(regs[n - 1 - i]),
        ByteOrder::MidBigEndian => regs[(i + n / 2) % n] as u64,
        ByteOrder::MidLittleEndian => swap_word(regs[i]),
    }
}

/// Unsigned value of the first `n` registers under `order`.
fn registers_to_u64(regs: &[u16], n: usize, order: ByteOrder) -> (v: u64)
    requires
        n == 2 || n == 4,
        n <= regs@.len(),
    ensures
        v == registers_value(regs@, n as int, order),
        n == 2 ==> v < 0x1_0000_0000,
{
    let ghost ws = ordered_words(regs@, n as int, order);
    let w0 = ordered_word(regs, n, 0, order);
    let w1 = ordered_word(regs, n, 1, order);
    if n == 2 {
        let ghost s1 = ws.drop_last();
        assert(s1.drop_last() =~= Seq::<int>::empty());
        assert(words_value(s1.drop_last()) == 0);
        assert(s1.last() == ws[0]);
        assert(words_value(s1) == w0);
        w0 * 65536 + w1
    } else {
        let w2 = ordered_word(regs, n, 2, order);
        let w3 = ordered_word(regs, n, 3, order);
        let ghost s1 = ws.drop_last();
        let ghost s2 = s1.drop_last();
        let ghost s3 = s2.drop_last();
        assert(s3.drop_last() =~= Seq::<int>::empty());
        assert(words_value(s3.drop_last()) == 0);
        assert(s3.last() == ws[0]);
        assert(words_value(s3) == w0);
        assert(words_value(s2) == w0 * 65536 + w1);
        assert(words_value(s1) == (w0 * 65536 + w1) * 65536 + w2);
        ((w0 * 65536 + w1) * 65536 + w2) * 65536 + w3
    }
}

proof fn lemma_be_value_bound(bs: Seq<u8>)
    requires
        bs.len() <= 8,
    ensures
        0 <= be_value(bs) < pow256(bs.len()),
    decreases bs.len(),
{
    if bs.len() > 0 {
        lemma_be_value_bound(bs.drop_last());
        assert(pow256(bs.len()) == pow256((bs.len() - 1) as nat) * 256);
    }
}

spec fn pow256(n: nat) -> int
    decreases n,
{
    if n == 0 {
        1
    } else {
        pow256((n - 1) as nat) * 256
    }
}

/// Unsigned value of the first `n` bytes, most significant first.
fn be_bytes_to_u64(bytes: &[u8], n: usize) -> (v: u64)
    requires
        n <= 8,
        n <= bytes@.len(),
    ensures
        v == be_value(bytes@.take(n as int)),
        v < pow256(n as nat),
{
    assert(pow256(8) == 0x1_0000_0000_0000_0000) by {
        reveal_with_fuel(pow256, 9);
    }
    let mut acc: u64 = 0;
    let mut i: usize = 0;
    assert(bytes@.take(0) =~= Seq::<u8>::empty());
    while i < n
        invariant
            i <= n <= 8,
            n <= bytes@.len(),
            acc == be_value(bytes@.take(i as int)),
            acc < pow256(i as nat),
            pow256(8) == 0x1_0000_0000_0000_0000,
        decreases n - i,
    {
        assert(bytes@.take(i + 1).drop_last() =~= bytes@.take(i as int));
        proof {
            lemma_pow256_monotone(i as nat + 1, 8);
        }
        acc = acc * 256 + bytes[i] as u64;
        i = i + 1;
    }
    acc
}

proof fn lemma_pow256_monotone(a: nat, b: nat)
    requires
        a <= b,
    ensures
        pow256(a) <= pow256(b),
        pow256(a) >= 1,
    decreases b,
{
    if b > 0 {
        if a < b {
            lemma_pow256_monotone(a, (b - 1) as nat);
        } else {
            lemma_pow256_monotone((a - 1) as nat, (b - 1) as nat);
        }
    }
}

/// Unsigned value of the first `n` bytes under `order`.
fn bytes_to_u64(bytes: &[u8], n: usize, order: ByteOrder) -> (v: u64)
    requires
        n <= 8,
        n <= bytes@.len(),
    ensures
        v == bytes_value(bytes@, n as int, order),
        v < pow256(n as nat),
{
    match order {
        ByteOrder::BigEndian | ByteOrder::MidBigEndian => be_bytes_to_u64(bytes, n),
        ByteOrder::LittleEndian | ByteOrder::MidLittleEndian => {
            let mut rev: Vec<u8> = Vec::new();
            let mut j: usize = n;
            while j > 0
                invariant
                    j <= n <= bytes@.len(),
                    rev@ =~= bytes@.take(n as int).reverse().take((n - j) as int),
                decreases j,
            {
                j = j - 1;
                rev.push(bytes[j]);
                assert(rev@ =~= bytes@.take(n as int).reverse().take((n - j) as int));
            }
            assert(rev@ =~= bytes@.take(n as int).reverse());
            let v = be_bytes_to_u64(rev.as_slice(), n);
            assert(rev@.take(n as int) =~= rev@);
            v
        },
    }
}

fn to_signed(u: u64, bits: u32) -> (s: i64)
    requires
        bits == 16 || bits == 32 || bits == 64,
        bits == 16 ==> u < 0x1_0000,
        bits == 32 ==> u < 0x1_0000_0000,
    ensures
        s == signed_of(u as int, bits as nat),
{
    if bits == 16 {
        if u >= 0x8000 {
            (u as i64) - 0x1_0000
        } else {
            u as i64
        }
    } else if bits == 32 {
        if u >= 0x8000_0000 {
            (u as i64) - 0x1_0000_0000
        } else {
            u as i64
        }
    } else {
        if u >= 0x8000_0000_0000_0000 {
            ((u - 0x8000_0000_0000_0000) as i64) - 0x7FFF_FFFF_FFFF_FFFF - 1
        } else {
            u as i64
        }
    }
}

/// Decode raw Modbus registers.
pub fn decode(registers: &[u16], data_type: DataType, byte_order: ByteOrder) -> (r: Result<
    RawValue,
    DecodeError,
>)
    ensures
        r == spec_decode(registers@, data_type, byte_order),
{
    let needed = registers_needed(data_type);
    if registers.len() < needed {
        return Err(DecodeError::InsufficientRegisters { expected: needed, got: registers.len() });
    }
    let raw = match data_type {
        DataType::Bool => RawValue::Bool(registers[0] != 0),
        DataType::U8 => RawValue::Unsigned((registers[0] % 256) as u64),
        DataType::U16 => RawValue::Unsigned(registers[0] as u64),
        DataType::I16 => RawValue::Signed(to_signed(registers[0] as u64, 16)),
        DataType::U32 => RawValue::Unsigned(registers_to_u64(registers, 2, byte_order)),
        DataType::I32 => RawValue::Signed(
            to_signed(registers_to_u64(registers, 2, byte_order), 32),
        ),
        DataType::F32 => RawValue::F32Bits(registers_to_u64(registers, 2, byte_order) as u32),
        DataType::U64 => RawValue::Unsigned(registers_to_u64(registers, 4, byte_order)),
        DataType::I64 => RawValue::Signed(
            to_signed(registers_to_u64(registers, 4, byte_order), 64),
        ),
        DataType::F64 => RawValue::F64Bits(registers_to_u64(registers, 4, byte_order)),
    };
    Ok(raw)
}

/// Decode raw bytes read from a byte-oriented bus (I2C, SPI, I3C).
pub fn decode_bytes(bytes: &[u8], data_type: DataType, byte_order: ByteOrder) -> (r: Result<
    RawValue,
    DecodeError,
>)
    ensures
        r == spec_decode_bytes(bytes@, data_type, byte_order),
{
    let needed = byte_count(data_type);
    if bytes.len() < needed {
        return Err(DecodeError::InsufficientRegisters { expected: needed, got: bytes.len() });
    }
    proof {
        reveal_with_fuel(pow256, 5);
        assert(pow256(2) == 0x1_0000);
        assert(pow256(4) == 0x1_0000_0000);
    }
    let raw = match data_type {
        DataType::Bool => RawValue::Bool(bytes[0] % 2 == 1),
        DataType::U8 => RawValue::Unsigned(bytes[0] as u64),
        DataType::U16 => RawValue::Unsigned(bytes_to_u64(bytes, 2, byte_order)),
        DataType::I16 => RawValue::Signed(to_signed(bytes_to_u64(bytes, 2, byte_order), 16)),
        DataType::U32 => RawValue::Unsigned(bytes_to_u64(bytes, 4, byte_order)),
        DataType::I32 => RawValue::Signed(to_signed(bytes_to_u64(bytes, 4, byte_order), 32)),
        DataType::F32 => RawValue::F32Bits(bytes_to_u64(bytes, 4, byte_order) as u32),
        DataType::U64 => RawValue::Unsigned(bytes_to_u64(bytes, 8, byte_order)),
        DataType::I64 => RawValue::Signed(to_signed(bytes_to_u64(bytes, 8, byte_order), 64)),
        DataType::F64 => RawValue::F64Bits(bytes_to_u64(bytes, 8, byte_order)),
    };
    Ok(raw)
}


// ── Encoding (the inverse of decoding) ────────────────────────────────

/// `256^(2k)` for the word positions used by 2- and 4-register values.
pub open spec fn word_divisor(k: int) -> int {
    if k == 0 {
        1
    } else if k == 1 {
        0x1_0000
    } else if k == 2 {
        0x1_0000_0000
    } else {
        0x1_0000_0000_0000
    }
}

/// The `i`-th most significant 16-bit word of `value` written on `n` words.
pub open spec fn be_word(value: int, n: int, i: int) -> int {
    (value / word_divisor(n - 1 - i)) % 65536
}

/// The registers that hold `value` on `n` words under `order`.
pub open spec fn spec_value_to_registers(value: int, n: int, order: ByteOrder) -> Seq<u16> {
    Seq::new(
        n as nat,
        |i: int|
            (match order {
                ByteOrder::BigEndian => be_word(value, n, i),
                ByteOrder::LittleEndian => swap16(be_word(value, n, n - 1 - i)),
                ByteOrder::MidBigEndian => be_word(value, n, (i + n / 2) % n),
                ByteOrder::MidLittleEndian => swap16(be_word(value, n, i)),
            }) as u16,
    )
}

fn be_word_exec(value: u64, n: usize, i: usize) -> (w: u64)
    requires
        n == 2 || n == 4,
        i < n,
    ensures
        w == be_word(value as int, n as int, i as int),
        w < 65536,
{
    let k = n - 1 - i;
    let d: u64 = if k == 0 {
        1
    } else if k == 1 {
        0x1_0000
    } else if k == 2 {
        0x1_0000_0000
    } else {
        0x1_0000_0000_0000
    };
    (value / d) % 65536
}

fn swap_word_u16(w: u64) -> (r: u16)
    requires
        w < 65536,
    ensures
        r == swap16(w as int),
{
    ((w % 256) * 256 + w / 256) as u16
}

/// Write `value` on `n` registers (2 or 4) under `order`.
pub fn value_to_registers(value: u64, n: usize, order: ByteOrder) -> (regs: Vec<u16>)
    requires
        n == 2 || n == 4,
    ensures
        regs@ == spec_value_to_registers(value as int, n as int, order),
{
    let mut regs: Vec<u16> = Vec::new();
    let mut i: usize = 0;
    while i < n
        invariant
            n == 2 || n == 4,
            i <= n,
            regs@ =~= spec_value_to_registers(value as int, n as int, order).take(i as int),
        decreases n - i,
    {
        let w: u16 = match order {
            ByteOrder::BigEndian => be_word_exec(value, n, i) as u16,
            ByteOrder::LittleEndian => swap_word_u16(be_word_exec(value, n, n - 1 - i)),
            ByteOrder::MidBigEndian => be_word_exec(value, n, (i + n / 2) % n) as u16,
            ByteOrder::MidLittleEndian => swap_word_u16(be_word_exec(value, n, i)),
        };
        regs.push(w);
        i = i + 1;
        assert(regs@ =~= spec_value_to_registers(value as int, n as int, order).take(i as int));
    }
    assert(spec_value_to_registers(value as int, n as int, order).take(n as int)
        =~= spec_value_to_registers(value as int, n as int, order));
    regs
}

/// Registers holding a 32-bit value in big-endian order.
pub fn u32_to_regs_be(val: u32) -> (regs: Vec<u16>)
    ensures
        regs@ == spec_value_to_registers(val as int, 2, ByteOrder::BigEndian),
{
    value_to_registers(val as u64, 2, ByteOrder::BigEndian)
}

/// Registers holding a 32-bit value in little-endian order.
pub fn u32_to_regs_le(val: u32) -> (regs: Vec<u16>)
    ensures
        regs@ == spec_value_to_registers(val as int, 2, ByteOrder::LittleEndian),
{
    value_to_registers(val as u64, 2, ByteOrder::LittleEndian)
}

/// Registers holding a 32-bit value in mid-big-endian (word-swapped) order.
pub fn u32_to_regs_mbe(val: u32) -> (regs: Vec<u16>)
    ensures
        regs@ == spec_value_to_registers(val as int, 2, ByteOrder::MidBigEndian),
{
    value_to_registers(val as u64, 2, ByteOrder::MidBigEndian)
}

/// Registers holding a 32-bit value in mid-little-endian (byte-swapped) order.
pub fn u32_to_regs_mle(val: u32) -> (regs: Vec<u16>)
    ensures
        regs@ == spec_value_to_registers(val as int, 2, ByteOrder::MidLittleEndian),
{
    value_to_registers(val as u64, 2, ByteOrder::MidLittleEndian)
}

/// Registers holding a 64-bit value in big-endian order.
pub fn u64_to_regs_be(val: u64) -> (regs: Vec<u16>)
    ensures
        regs@ == spec_value_to_registers(val as int, 4, ByteOrder::BigEndian),
{
    value_to_registers(val, 4, ByteOrder::BigEndian)
}

/// Registers holding a 64-bit value in little-endian order.
pub fn u64_to_regs_le(val: u64) -> (regs: Vec<u16>)
    ensures
        regs@ == spec_value_to_registers(val as int, 4, ByteOrder::LittleEndian),
{
    value_to_registers(val, 4, ByteOrder::LittleEndian)
}

/// Registers holding a 64-bit value in mid-big-endian (word-swapped) order.
pub fn u64_to_regs_mbe(val: u64) -> (regs: Vec<u16>)
    ensures
        regs@ == spec_value_to_registers(val as int, 4, ByteOrder::MidBigEndian),
{
    value_to_registers(val, 4, ByteOrder::MidBigEndian)
}

/// Registers holding a 64-bit value in mid-little-endian (byte-swapped) order.
pub fn u64_to_regs_mle(val: u64) -> (regs: Vec<u16>)
    ensures
        regs@ == spec_value_to_registers(val as int, 4, ByteOrder::MidLittleEndian),
{
    value_to_registers(val, 4, ByteOrder::MidLittleEndian)
}

proof fn lemma_swap16_involution(x: int)
    requires
        0 <= x < 65536,
    ensures
        swap16(swap16(x)) == x,
        0 <= swap16(x) < 65536,
{
    let y = swap16(x);
    assert(y % 256 == x / 256 && y / 256 == x % 256) by (nonlinear_arith)
        requires
            y == (x % 256) * 256 + x / 256,
            0 <= x < 65536,
    ;
}

proof fn lemma_words_of_value(value: int, n: int)
    requires
        n == 2 || n == 4,
        0 <= value,
        n == 2 ==> value < 0x1_0000_0000,
        n == 4 ==> value < 0x1_0000_0000_0000_0000,
    ensures
        words_value(Seq::new(n as nat, |i: int| be_word(value, n, i))) == value,
{
    let ws = Seq::new(n as nat, |i: int| be_word(value, n, i));
    if n == 2 {
        let s1 = ws.drop_last();
        assert(s1.drop_last() =~= Seq::<int>::empty());
        assert(words_value(s1.drop_last()) == 0);
        assert(s1.last() == ws[0]);
        assert(words_value(s1) == ws[0]);
        assert(ws[0] == (value / 0x1_0000) % 65536);
        assert(ws[1] == value % 65536);
        assert(value == (value / 0x1_0000) * 0x1_0000 + value % 0x1_0000);
        assert(value / 0x1_0000 < 65536);
        assert(ws[0] == value / 0x1_0000);
        assert(words_value(ws) == ws[0] * 65536 + ws[1]);
    } else {
        let s1 = ws.drop_last();
        let s2 = s1.drop_last();
        let s3 = s2.drop_last();
        assert(s3.drop_last() =~= Seq::<int>::empty());
        assert(words_value(s3.drop_last()) == 0);
        assert(s3.last() == ws[0]);
        assert(words_value(s3) == ws[0]);
        let q1 = value / 0x1_0000;
        let q2 = value / 0x1_0000_0000;
        let q3 = value / 0x1_0000_0000_0000;
        assert(q2 == q1 / 0x1_0000 && q3 == q2 / 0x1_0000) by (nonlinear_arith)
            requires
                q1 == value / 0x1_0000,
                q2 == value / 0x1_0000_0000,
                q3 == value / 0x1_0000_0000_0000,
                value >= 0,
        ;
        assert(ws[0] == q3 % 65536);
        assert(ws[1] == q2 % 65536);
        assert(ws[2] == q1 % 65536);
        assert(ws[3] == value % 65536);
        assert(q3 < 65536);
        assert(value == q1 * 0x1_0000 + value % 0x1_0000);
        assert(q1 == q2 * 0x1_0000 + q1 % 0x1_0000);
        assert(q2 == q3 * 0x1_0000 + q2 % 0x1_0000);
        assert(ws[0] == q3);
        assert(words_value(s2) == ws[0] * 65536 + ws[1]);
        assert(words_value(s1) == (ws[0] * 65536 + ws[1]) * 65536 + ws[2]);
        assert(words_value(ws) == ((ws[0] * 65536 + ws[1]) * 65536 + ws[2]) * 65536 + ws[3]);
        assert(ws[0] * 65536 + ws[1] == q2);
        assert(q2 * 65536 + ws[2] == q1);
    }
}

/// Writing a value on registers and reading it back under the same byte
/// order gives the value again, for every byte order.
pub proof fn lemma_registers_roundtrip(value: int, n: int, order: ByteOrder)
    requires
        n == 2 || n == 4,
        0 <= value,
        n == 2 ==> value < 0x1_0000_0000,
        n == 4 ==> value < 0x1_0000_0000_0000_0000,
    ensures
        registers_value(spec_value_to_registers(value, n, order), n, order) == value,
{
    let regs = spec_value_to_registers(value, n, order);
    let ws = Seq::new(n as nat, |i: int| be_word(value, n, i));
    assert forall|i: int| 0 <= i < n implies 0 <= #[trigger] be_word(value, n, i) < 65536 by {
    }
    assert forall|i: int| 0 <= i < n implies #[trigger] ordered_words(regs, n, order)[i] == ws[i] by {
        match order {
            ByteOrder::LittleEndian => {
                lemma_swap16_involution(be_word(value, n, i));
            },
            ByteOrder::MidLittleEndian => {
                lemma_swap16_involution(be_word(value, n, i));
            },
            ByteOrder::MidBigEndian => {
                assert(((i + n / 2) % n + n / 2) % n == i);
            },
            ByteOrder::BigEndian => {},
        }
    }
    assert(ordered_words(regs, n, order) =~= ws);
    lemma_words_of_value(value, n);
}

/// Decoding the registers written for an unsigned value yields that value.
pub proof fn lemma_decode_unsigned_roundtrip(value: u64, data_type: DataType, order: ByteOrder)
    requires
        data_type == DataType::U32 || data_type == DataType::U64,
        data_type == DataType::U32 ==> value < 0x1_0000_0000,
    ensures
        spec_decode(
            spec_value_to_registers(value as int, spec_registers_needed(data_type) as int, order),
            data_type,
            order,
        ) == Ok::<RawValue, DecodeError>(RawValue::Unsigned(value)),
{
    lemma_registers_roundtrip(value as int, spec_registers_needed(data_type) as int, order);
}

/// A 32-bit value `v` with high word `hi` and low word `lo` sits on the
/// registers as `[hi, lo]` (big-endian), `[swap(lo), swap(hi)]`
/// (little-endian), `[lo, hi]` (mid-big-endian) and `[swap(hi), swap(lo)]`
/// (mid-little-endian); each layout decodes back to `v` as an unsigned
/// value, and to its two's complement reading as a signed one.
pub proof fn law_u32_layouts(v: u32, order: ByteOrder)
    ensures
        ({
            let hi = v as int / 0x1_0000;
            let lo = v as int % 0x1_0000;
            let regs = spec_value_to_registers(v as int, 2, order);
            &&& order == ByteOrder::BigEndian ==> regs == seq![hi as u16, lo as u16]
            &&& order == ByteOrder::LittleEndian ==> regs == seq![swap16(lo) as u16, swap16(hi) as u16]
            &&& order == ByteOrder::MidBigEndian ==> regs == seq![lo as u16, hi as u16]
            &&& order == ByteOrder::MidLittleEndian ==> regs == seq![swap16(hi) as u16, swap16(lo) as u16]
            &&& spec_decode(regs, DataType::U32, order) == Ok::<RawValue, DecodeError>(
                RawValue::Unsigned(v as u64),
            )
            &&& spec_decode(regs, DataType::I32, order) == Ok::<RawValue, DecodeError>(
                RawValue::Signed(signed_of(v as int, 32) as i64),
            )
        }),
{
    let regs = spec_value_to_registers(v as int, 2, order);
    assert(be_word(v as int, 2, 0) == v as int / 0x1_0000);
    assert(be_word(v as int, 2, 1) == v as int % 0x1_0000);
    if order == ByteOrder::BigEndian {
        assert(regs =~= seq![(v as int / 0x1_0000) as u16, (v as int % 0x1_0000) as u16]);
    } else if order == ByteOrder::LittleEndian {
        assert(regs =~= seq![swap16(v as int % 0x1_0000) as u16, swap16(v as int / 0x1_0000) as u16]);
    } else if order == ByteOrder::MidBigEndian {
        assert(regs =~= seq![(v as int % 0x1_0000) as u16, (v as int / 0x1_0000) as u16]);
    } else {
        assert(regs =~= seq![swap16(v as int / 0x1_0000) as u16, swap16(v as int % 0x1_0000) as u16]);
    }
    lemma_registers_roundtrip(v as int, 2, order);
}

/// A 64-bit value with words `w0` (most significant) to `w3` sits on the
/// registers as `[w0, w1, w2, w3]` (big-endian), `[swap(w3), swap(w2),
/// swap(w1), swap(w0)]` (little-endian), `[w2, w3, w0, w1]`
/// (mid-big-endian) and `[swap(w0), swap(w1), swap(w2), swap(w3)]`
/// (mid-little-endian); each layout decodes back to the value.
pub proof fn law_u64_layouts(v: u64, order: ByteOrder)
    ensures
        ({
            let w = |i: int| be_word(v as int, 4, i);
            let regs = spec_value_to_registers(v as int, 4, order);
            &&& order == ByteOrder::BigEndian ==> regs == seq![w(0) as u16, w(1) as u16, w(2) as u16, w(3) as u16]
            &&& order == ByteOrder::LittleEndian ==> regs == seq![
                swap16(w(3)) as u16,
                swap16(w(2)) as u16,
                swap16(w(1)) as u16,
                swap16(w(0)) as u16,
            ]
            &&& order == ByteOrder::MidBigEndian ==> regs == seq![w(2) as u16, w(3) as u16, w(0) as u16, w(1) as u16]
            &&& order == ByteOrder::MidLittleEndian ==> regs == seq![
                swap16(w(0)) as u16,
                swap16(w(1)) as u16,
                swap16(w(2)) as u16,
                swap16(w(3)) as u16,
            ]
            &&& spec_decode(regs, DataType::U64, order) == Ok::<RawValue, DecodeError>(
                RawValue::Unsigned(v),
            )
        }),
{
    let w = |i: int| be_word(v as int, 4, i);
    let regs = spec_value_to_registers(v as int, 4, order);
    if order == ByteOrder::BigEndian {
        assert(regs =~= seq![w(0) as u16, w(1) as u16, w(2) as u16, w(3) as u16]);
    } else if order == ByteOrder::LittleEndian {
        assert(regs =~= seq![
            swap16(w(3)) as u16,
            swap16(w(2)) as u16,
            swap16(w(1)) as u16,
            swap16(w(0)) as u16,
        ]);
    } else if order == ByteOrder::MidBigEndian {
        assert(regs =~= seq![w(2) as u16, w(3) as u16, w(0) as u16, w(1) as u16]);
    } else {
        assert(regs =~= seq![
            swap16(w(0)) as u16,
            swap16(w(1)) as u16,
            swap16(w(2)) as u16,
            swap16(w(3)) as u16,
        ]);
    }
    lemma_registers_roundtrip(v as int, 4, order);
}

/// The text of a decoding error.
pub open spec fn decode_message(e: DecodeError) -> Seq<char> {
    match e {
        DecodeError::InsufficientRegisters { expected, got } => "insufficient registers: expected "@
            + decimal(expected as nat) + ", got "@ + decimal(got as nat),
    }
}

impl DecodeError {
    /// "insufficient registers: expected {expected}, got {got}"
    pub fn message(&self) -> (m: String)
        ensures
            m@ == decode_message(*self),
            match *self {
                DecodeError::InsufficientRegisters { expected, got } => m@
                    == "insufficient registers: expected "@ + decimal(expected as nat) + ", got "@
                    + decimal(got as nat),
            },
    {
        match self {
            DecodeError::InsufficientRegisters { expected, got } => {
                let mut m = String::new();
                m.append("insufficient registers: expected ");
                push_decimal(&mut m, *expected as u64);
                m.append(", got ");
                push_decimal(&mut m, *got as u64);
                m
            },
        }
    }

    /// The message, as `Display` writes it.
    pub fn to_string(&self) -> (m: String)
        ensures
            match *self {
                DecodeError::InsufficientRegisters { expected, got } => m@
                    == "insufficient registers: expected "@ + decimal(expected as nat) + ", got "@
                    + decimal(got as nat),
            },
    {
        self.message()
    }
}


// ── Laws of decoding ────────────────────────────────────────────────

proof fn lemma_be_step(s: Seq<u8>, k: int)
    requires
        0 <= k < s.len(),
    ensures
        be_value(s.take(k + 1)) == be_value(s.take(k)) * 256 + s[k],
{
    assert(s.take(k + 1).drop_last() =~= s.take(k));
}

proof fn lemma_be_bytes(s: Seq<u8>)
    requires
        s.len() >= 2,
    ensures
        be_value(s.take(2)) == s[0] * 256 + s[1],
        s.len() >= 4 ==> be_value(s.take(4)) == s[0] * 0x100_0000 + s[1] * 0x1_0000 + s[2] * 0x100
            + s[3],
        s.len() >= 8 ==> be_value(s.take(8)) == s[0] * 0x100_0000_0000_0000 + s[1] * 0x1_0000_0000_0000
            + s[2] * 0x100_0000_0000 + s[3] * 0x1_0000_0000 + s[4] * 0x100_0000 + s[5] * 0x1_0000 + s[6]
            * 0x100 + s[7],
{
    assert(s.take(0) =~= Seq::<u8>::empty());
    lemma_be_step(s, 0);
    lemma_be_step(s, 1);
    if s.len() >= 4 {
        lemma_be_step(s, 2);
        lemma_be_step(s, 3);
    }
    if s.len() >= 8 {
        lemma_be_step(s, 4);
        lemma_be_step(s, 5);
        lemma_be_step(s, 6);
        lemma_be_step(s, 7);
    }
}

proof fn lemma_reverse_take(s: Seq<u8>, n: int)
    requires
        0 <= n <= s.len(),
    ensures
        s.take(n).reverse().len() == n,
        forall|i: int| 0 <= i < n ==> #[trigger] s.take(n).reverse()[i] == s[n - 1 - i],
{
}

/// Decoding bytes reads them big-endian under the big-endian orders and
/// little-endian under the little-endian ones: one byte as `U8` (and its
/// low bit as `Bool`), two bytes as `U16`, four as `U32` and eight as `U64`;
/// the signed types are the two's complement readings of the same bits
/// (a value at or above half the range stands for itself minus the range),
/// and the float types carry the same bits.  Too few bytes is an error
/// that names how many were needed and how many came.
pub proof fn law_decode_bytes(bytes: Seq<u8>, order: ByteOrder)
    ensures
        bytes.len() >= 1 ==> spec_decode_bytes(bytes, DataType::U8, order) == Ok::<RawValue, DecodeError>(
            RawValue::Unsigned(bytes[0] as u64),
        ),
        bytes.len() >= 1 ==> spec_decode_bytes(bytes, DataType::Bool, order) == Ok::<RawValue, DecodeError>(
            RawValue::Bool(bytes[0] % 2 == 1),
        ),
        bytes.len() >= 2 ==> ({
            let u: int = if order == ByteOrder::BigEndian || order == ByteOrder::MidBigEndian {
                bytes[0] * 256 + bytes[1]
            } else {
                bytes[1] * 256 + bytes[0]
            };
            &&& spec_decode_bytes(bytes, DataType::U16, order) == Ok::<RawValue, DecodeError>(
                RawValue::Unsigned(u as u64),
            )
            &&& spec_decode_bytes(bytes, DataType::I16, order) == Ok::<RawValue, DecodeError>(
                RawValue::Signed((if u >= 0x8000 { u - 0x1_0000 } else { u }) as i64),
            )
        }),
        bytes.len() >= 4 ==> ({
            let u: int = if order == ByteOrder::BigEndian || order == ByteOrder::MidBigEndian {
                bytes[0] * 0x100_0000 + bytes[1] * 0x1_0000 + bytes[2] * 0x100 + bytes[3]
            } else {
                bytes[3] * 0x100_0000 + bytes[2] * 0x1_0000 + bytes[1] * 0x100 + bytes[0]
            };
            &&& spec_decode_bytes(bytes, DataType::U32, order) == Ok::<RawValue, DecodeError>(
                RawValue::Unsigned(u as u64),
            )
            &&& spec_decode_bytes(bytes, DataType::I32, order) == Ok::<RawValue, DecodeError>(
                RawValue::Signed((if u >= 0x8000_0000 { u - 0x1_0000_0000 } else { u }) as i64),
            )
            &&& spec_decode_bytes(bytes, DataType::F32, order) == Ok::<RawValue, DecodeError>(
                RawValue::F32Bits(u as u32),
            )
        }),
        bytes.len() >= 8 ==> ({
            let u: int = if order == ByteOrder::BigEndian || order == ByteOrder::MidBigEndian {
                bytes[0] * 0x100_0000_0000_0000 + bytes[1] * 0x1_0000_0000_0000 + bytes[2]
                    * 0x100_0000_0000 + bytes[3] * 0x1_0000_0000 + bytes[4] * 0x100_0000 + bytes[5]
                    * 0x1_0000 + bytes[6] * 0x100 + bytes[7]
            } else {
                bytes[7] * 0x100_0000_0000_0000 + bytes[6] * 0x1_0000_0000_0000 + bytes[5]
                    * 0x100_0000_0000 + bytes[4] * 0x1_0000_0000 + bytes[3] * 0x100_0000 + bytes[2]
                    * 0x1_0000 + bytes[1] * 0x100 + bytes[0]
            };
            &&& spec_decode_bytes(bytes, DataType::U64, order) == Ok::<RawValue, DecodeError>(
                RawValue::Unsigned(u as u64),
            )
            &&& spec_decode_bytes(bytes, DataType::I64, order) == Ok::<RawValue, DecodeError>(
                RawValue::Signed(
                    (if u >= 0x8000_0000_0000_0000 { u - 0x1_0000_0000_0000_0000 } else { u }) as i64,
                ),
            )
            &&& spec_decode_bytes(bytes, DataType::F64, order) == Ok::<RawValue, DecodeError>(
                RawValue::F64Bits(u as u64),
            )
        }),
        bytes.len() < 2 ==> spec_decode_bytes(bytes, DataType::I16, order) == Err::<RawValue, DecodeError>(
            DecodeError::InsufficientRegisters { expected: 2, got: bytes.len() as usize },
        ),
        bytes.len() < 4 ==> spec_decode_bytes(bytes, DataType::I32, order) == Err::<RawValue, DecodeError>(
            DecodeError::InsufficientRegisters { expected: 4, got: bytes.len() as usize },
        ),
        bytes.len() < 8 ==> spec_decode_bytes(bytes, DataType::I64, order) == Err::<RawValue, DecodeError>(
            DecodeError::InsufficientRegisters { expected: 8, got: bytes.len() as usize },
        ),
{
    if bytes.len() >= 2 {
        lemma_be_bytes(bytes);
        let n: int = if bytes.len() >= 8 { 8 } else if bytes.len() >= 4 { 4 } else { 2 };
        lemma_reverse_take(bytes, 2);
        lemma_be_bytes(bytes.take(2).reverse());
        assert(bytes.take(2).reverse().take(2) =~= bytes.take(2).reverse());
        if bytes.len() >= 4 {
            lemma_reverse_take(bytes, 4);
            lemma_be_bytes(bytes.take(4).reverse());
            assert(bytes.take(4).reverse().take(4) =~= bytes.take(4).reverse());
        }
        if bytes.len() >= 8 {
            lemma_reverse_take(bytes, 8);
            lemma_be_bytes(bytes.take(8).reverse());
            assert(bytes.take(8).reverse().take(8) =~= bytes.take(8).reverse());
        }
    }
}

/// Decoding registers: one register as `U16`, as `I16` by its two's
/// complement reading, and as `Bool` when not zero; two registers `r0, r1`
/// give `r0·2^16 + r1` big-endian, `r1·2^16 + r0` mid-big-endian (low word
/// first), the byte-swapped words in reverse order little-endian and the
/// byte-swapped words in order mid-little-endian, read as `U32`, `I32` (two's
/// complement) and `F32` (the same bits); four registers likewise for the
/// 64-bit types (mid-big-endian taking the words as `r2, r3, r0, r1`).
pub proof fn law_decode_registers(regs: Seq<u16>, order: ByteOrder)
    ensures
        regs.len() >= 1 ==> spec_decode(regs, DataType::U16, order) == Ok::<RawValue, DecodeError>(
            RawValue::Unsigned(regs[0] as u64),
        ),
        regs.len() >= 1 ==> spec_decode(regs, DataType::I16, order) == Ok::<RawValue, DecodeError>(
            RawValue::Signed(
                (if regs[0] >= 0x8000 { regs[0] - 0x1_0000 } else { regs[0] as int }) as i64,
            ),
        ),
        regs.len() >= 1 ==> spec_decode(regs, DataType::Bool, order) == Ok::<RawValue, DecodeError>(
            RawValue::Bool(regs[0] != 0),
        ),
        regs.len() >= 2 ==> ({
            let r0 = regs[0] as int;
            let r1 = regs[1] as int;
            let u: int = match order {
                ByteOrder::BigEndian => r0 * 0x1_0000 + r1,
                ByteOrder::MidBigEndian => r1 * 0x1_0000 + r0,
                ByteOrder::LittleEndian => ((r1 % 256) * 256 + r1 / 256) * 0x1_0000 + (r0 % 256) * 256
                    + r0 / 256,
                ByteOrder::MidLittleEndian => ((r0 % 256) * 256 + r0 / 256) * 0x1_0000 + (r1 % 256)
                    * 256 + r1 / 256,
            };
            &&& spec_decode(regs, DataType::U32, order) == Ok::<RawValue, DecodeError>(
                RawValue::Unsigned(u as u64),
            )
            &&& spec_decode(regs, DataType::I32, order) == Ok::<RawValue, DecodeError>(
                RawValue::Signed((if u >= 0x8000_0000 { u - 0x1_0000_0000 } else { u }) as i64),
            )
            &&& spec_decode(regs, DataType::F32, order) == Ok::<RawValue, DecodeError>(
                RawValue::F32Bits(u as u32),
            )
        }),
        regs.len() >= 4 ==> ({
            let r0 = regs[0] as int;
            let r1 = regs[1] as int;
            let r2 = regs[2] as int;
            let r3 = regs[3] as int;
            let u: int = match order {
                ByteOrder::BigEndian => ((r0 * 0x1_0000 + r1) * 0x1_0000 + r2) * 0x1_0000 + r3,
                ByteOrder::MidBigEndian => ((r2 * 0x1_0000 + r3) * 0x1_0000 + r0) * 0x1_0000 + r1,
                ByteOrder::LittleEndian => ((((r3 % 256) * 256 + r3 / 256) * 0x1_0000 + (r2 % 256) * 256
                    + r2 / 256) * 0x1_0000 + (r1 % 256) * 256 + r1 / 256) * 0x1_0000 + (r0 % 256) * 256
                    + r0 / 256,
                ByteOrder::MidLittleEndian => ((((r0 % 256) * 256 + r0 / 256) * 0x1_0000 + (r1 % 256)
                    * 256 + r1 / 256) * 0x1_0000 + (r2 % 256) * 256 + r2 / 256) * 0x1_0000 + (r3 % 256)
                    * 256 + r3 / 256,
            };
            &&& spec_decode(regs, DataType::U64, order) == Ok::<RawValue, DecodeError>(
                RawValue::Unsigned(u as u64),
            )
            &&& spec_decode(regs, DataType::I64, order) == Ok::<RawValue, DecodeError>(
                RawValue::Signed(
                    (if u >= 0x8000_0000_0000_0000 { u - 0x1_0000_0000_0000_0000 } else { u }) as i64,
                ),
            )
            &&& spec_decode(regs, DataType::F64, order) == Ok::<RawValue, DecodeError>(
                RawValue::F64Bits(u as u64),
            )
        }),
        regs.len() < 2 ==> spec_decode(regs, DataType::U32, order) == Err::<RawValue, DecodeError>(
            DecodeError::InsufficientRegisters { expected: 2, got: regs.len() as usize },
        ),
        regs.len() < 4 ==> spec_decode(regs, DataType::U64, order) == Err::<RawValue, DecodeError>(
            DecodeError::InsufficientRegisters { expected: 4, got: regs.len() as usize },
        ),
{
    if regs.len() >= 2 {
        let ws = ordered_words(regs, 2, order);
        let d = ws.drop_last();
        assert(d.drop_last() =~= Seq::<int>::empty());
        assert(words_value(d.drop_last()) == 0);
        assert(d.last() == ws[0]);
        assert(words_value(d) == ws[0]);
        assert(words_value(ws) == ws[0] * 65536 + ws[1]);
    }
    if regs.len() >= 4 {
        let ws = ordered_words(regs, 4, order);
        let s3 = ws.drop_last();
        let s2 = s3.drop_last();
        let s1 = s2.drop_last();
        assert(s1.drop_last() =~= Seq::<int>::empty());
        assert(words_value(s1.drop_last()) == 0);
        assert(s1.last() == ws[0]);
        assert(words_value(s1) == ws[0]);
        assert(words_value(s2) == ws[0] * 65536 + ws[1]);
        assert(words_value(s3) == (ws[0] * 65536 + ws[1]) * 65536 + ws[2]);
        assert(words_value(ws) == ((ws[0] * 65536 + ws[1]) * 65536 + ws[2]) * 65536 + ws[3]);
        assert(ws[0] == ordered_words(regs, 4, order)[0]);
    }
}

} // verus!
