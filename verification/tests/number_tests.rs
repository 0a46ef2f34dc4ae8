use bus_exporter::number::u64_to_f64_bits;

#[test]
fn integer_bits_match_float_conversion() {
    let samples: Vec<u64> = vec![
        0, 1, 2, 3, 7, 10, 42, 255, 1000, 65535, 1 << 52, (1 << 53) - 1, 1 << 53, (1 << 53) + 1,
        (1 << 53) + 2, (1 << 53) + 3, (1 << 54) + 2, (1 << 54) + 6, 123_456_789_012_345_678,
        u64::MAX, u64::MAX - 1, 1 << 63, (1 << 63) + 1024, (1 << 63) + 1025, 0x8000_0000_0000_0400,
        0x8000_0000_0000_0C00,
    ];
    for n in samples {
        assert_eq!(u64_to_f64_bits(n), (n as f64).to_bits(), "n = {n}");
    }
}
