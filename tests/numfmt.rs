use anim_to_vtk::numfmt::{strip_trailing_zeros, write_i32_fast, write_u32_fast, write_u64_fast};

fn fmt_i32(v: i32) -> String {
    let mut buf = [0u8; 11];
    let n = write_i32_fast(&mut buf, v);
    String::from_utf8(buf[..n].to_vec()).unwrap()
}

fn fmt_u64(v: u64) -> String {
    let mut buf = [0u8; 20];
    let n = write_u64_fast(&mut buf, v);
    String::from_utf8(buf[..n].to_vec()).unwrap()
}

#[test]
fn u32_formatting_exact() {
    let mut buf = [b'x'; 12];
    let n = write_u32_fast(&mut buf, 0);
    assert_eq!(&buf[..n], b"0");
    let n = write_u32_fast(&mut buf, 7);
    assert_eq!(&buf[..n], b"7");
    let n = write_u32_fast(&mut buf, 42);
    assert_eq!(&buf[..n], b"42");
    let n = write_u32_fast(&mut buf, 100);
    assert_eq!(&buf[..n], b"100");
    let n = write_u32_fast(&mut buf, 4294967295);
    assert_eq!(&buf[..n], b"4294967295");
    assert_eq!(buf[10], b'x');
}

#[test]
fn i32_formatting_exact() {
    assert_eq!(fmt_i32(0), "0");
    assert_eq!(fmt_i32(-1), "-1");
    assert_eq!(fmt_i32(12345), "12345");
    assert_eq!(fmt_i32(-909), "-909");
    assert_eq!(fmt_i32(i32::MAX), "2147483647");
    assert_eq!(fmt_i32(i32::MIN), "-2147483648");
}

#[test]
fn u64_formatting_exact() {
    assert_eq!(fmt_u64(0), "0");
    assert_eq!(fmt_u64(4294967296), "4294967296");
    assert_eq!(fmt_u64(10_000_000_000_000_000_000), "10000000000000000000");
    assert_eq!(fmt_u64(u64::MAX), "18446744073709551615");
}

#[test]
fn decimal_round_trip_i32() {
    let samples = [
        0, 1, -1, 9, 10, 99, 100, -100, 101, 65535, -65536, 1_000_000, -999_999_999,
        i32::MAX, i32::MIN, i32::MIN + 1,
    ];
    for &v in samples.iter() {
        assert_eq!(fmt_i32(v).parse::<i32>().unwrap(), v);
        assert_eq!(fmt_i32(v), v.to_string());
    }
}

#[test]
fn decimal_round_trip_u64() {
    let samples = [
        0u64, 5, 10, 99, 100, 1001, 4294967295, 4294967296, 123456789012345678,
        9_999_999_999_999_999_999, u64::MAX,
    ];
    for &v in samples.iter() {
        assert_eq!(fmt_u64(v).parse::<u64>().unwrap(), v);
        assert_eq!(fmt_u64(v), v.to_string());
    }
}

#[test]
fn strip_trailing_zeros_examples() {
    assert_eq!(strip_trailing_zeros(12300, 5), (123, 3));
    assert_eq!(strip_trailing_zeros(123, 3), (123, 3));
    assert_eq!(strip_trailing_zeros(10, 2), (1, 1));
    assert_eq!(strip_trailing_zeros(1000, 3), (1, 0));
    assert_eq!(strip_trailing_zeros(0, 5), (0, 0));
    assert_eq!(strip_trailing_zeros(500, 1), (50, 0));
    assert_eq!(strip_trailing_zeros(120000, 6), (12, 2));
}

fn g6(rounded: u64, exp10: i32) -> String {
    let mut buf = Vec::new();
    anim_to_vtk::numfmt::render_g6(&mut buf, rounded, exp10);
    String::from_utf8(buf).unwrap()
}

#[test]
fn g6_fixed_notation() {
    // 100000.0
    assert_eq!(g6(100000, 5), "100000");
    // 0.0001234567
    assert_eq!(g6(123457, -4), "0.000123457");
    // 1.5
    assert_eq!(g6(150000, 0), "1.5");
    // 12345.6
    assert_eq!(g6(123456, 4), "12345.6");
    // 0.001
    assert_eq!(g6(100000, -3), "0.001");
    // 1.0
    assert_eq!(g6(100000, 0), "1");
}

#[test]
fn g6_exponential_notation() {
    // 1234567.0
    assert_eq!(g6(123457, 6), "1.23457e+06");
    // 1.5e-05
    assert_eq!(g6(150000, -5), "1.5e-05");
    // 1e10
    assert_eq!(g6(100000, 10), "1e+10");
    // 1.23457e+300
    assert_eq!(g6(123457, 300), "1.23457e+300");
    // 4.94066e-324
    assert_eq!(g6(494066, -324), "4.94066e-324");
}

#[test]
fn g6_rounding_carries() {
    // 999999.5 rounds to 1e+06: past the fixed range
    assert_eq!(g6(1000000, 5), "1e+06");
    // 9.999996 rounds to 10
    assert_eq!(g6(1000000, 0), "10");
    // 0.000099999996 rounds to 0.0001: back into the fixed range
    assert_eq!(g6(1000000, -5), "0.0001");
    // 9.999996e+20 rounds to 1e+21
    assert_eq!(g6(1000000, 20), "1e+21");
}
