use perf_harness::{parse_ptr, pretty_print_u64, write_backwards, write_linear, TimeMeasurer};

#[test]
fn frequency_from_calibration_window() {
    let m = TimeMeasurer;
    assert_eq!(m.detect_clock_frequency(1_000, 3_000, 1_000_000), 2_000_000);
    assert_eq!(m.detect_clock_frequency(5, 5, 100_000_000), 0);
    assert_eq!(m.detect_clock_frequency(0, 7, 3), 2_333_333_333);
}

#[test]
fn frequency_saturates() {
    let m = TimeMeasurer;
    assert_eq!(m.detect_clock_frequency(0, u64::MAX, 1), u64::MAX);
}

#[test]
fn pointer_fields() {
    let ptr: u64 = (0xABCDu64 << 48) | (0x1FFu64 << 39) | (3u64 << 30) | (2u64 << 21) | (1u64 << 12) | 0x123;
    let p = parse_ptr(ptr);
    assert_eq!(p.offset, 0x123);
    assert_eq!(p.table_index, 1);
    assert_eq!(p.directory_index, 2);
    assert_eq!(p.directory_ptr_index, 3);
    assert_eq!(p.pml4_index, 0x1FF);
    assert_eq!(p.prefix, 0xABCD);
}

#[test]
fn pointer_zero() {
    let p = parse_ptr(0);
    assert_eq!((p.offset, p.table_index, p.prefix), (0, 0, 0));
}

#[test]
fn linear_fill() {
    let mut buf = vec![0xEEu8; 300];
    write_linear(&mut buf, 3, 260);
    assert_eq!(buf[0], 3);
    assert_eq!(buf[1], 4);
    assert_eq!(buf[252], 255);
    assert_eq!(buf[253], 0);
    assert_eq!(buf[259], 6);
    assert_eq!(buf[260], 0xEE);
}

#[test]
fn backwards_fill() {
    let mut buf = vec![0u8; 10];
    write_backwards(&mut buf, 250, 8);
    assert_eq!(buf[9], 250);
    assert_eq!(buf[8], 251);
    assert_eq!(buf[3], 0);
    assert_eq!(buf[2], 1);
    assert_eq!(buf[1], 0);
    assert_eq!(buf[0], 0);
}

#[test]
fn grouped_integers() {
    assert_eq!(pretty_print_u64(1_000), "1_000");
    assert_eq!(pretty_print_u64(100), "100");
    assert_eq!(pretty_print_u64(123_001_100), "123_001_100");
    assert_eq!(pretty_print_u64(1_001_100), "1_001_100");
    assert_eq!(pretty_print_u64(0), "0");
    assert_eq!(pretty_print_u64(12_345), "12_345");
    assert_eq!(pretty_print_u64(u64::MAX), "18_446_744_073_709_551_615");
}
