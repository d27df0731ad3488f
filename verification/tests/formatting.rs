use raytracer::format::{format_u64_bytes, format_u64_padded_bytes, rays_line_bytes};

#[test]
fn decimal_digits() {
    assert_eq!(format_u64_bytes(0), b"0");
    assert_eq!(format_u64_bytes(7), b"7");
    assert_eq!(format_u64_bytes(10), b"10");
    assert_eq!(format_u64_bytes(1234567), b"1234567");
    assert_eq!(format_u64_bytes(u64::MAX), b"18446744073709551615");
}

#[test]
fn zero_padding() {
    assert_eq!(format_u64_padded_bytes(7, 3), b"007");
    assert_eq!(format_u64_padded_bytes(42, 3), b"042");
    assert_eq!(format_u64_padded_bytes(1234, 3), b"1234");
    assert_eq!(format_u64_padded_bytes(0, 0), b"0");
}

#[test]
fn rays_line_groups_thousands() {
    let line = rays_line_bytes(1234567, 890);
    assert_eq!(line, b"Rays:\t1,234,567\t890/s");
}

#[test]
fn grouping_boundaries() {
    assert_eq!(rays_line_bytes(0, 999), b"Rays:\t0\t999/s");
    assert_eq!(rays_line_bytes(1000, 1000000), b"Rays:\t1,000\t1,000,000/s");
    assert_eq!(
        rays_line_bytes(u64::MAX, 10000),
        b"Rays:\t18,446,744,073,709,551,615\t10,000/s".as_slice()
    );
}
