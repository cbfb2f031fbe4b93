use pathtracer::ppm::{format_decimal, ppm_encode};

#[test]
fn test_to_ppm() {
    // A black 100 x 100 image: header, then three zero bytes per pixel.
    let pixels = vec![0u8; 100 * 100 * 3];
    let ppm = ppm_encode(100, 100, &pixels);
    let expected_header = "P6 100 100 255 ";
    let expected_num_bytes: usize = 100 * 100 * 3 + expected_header.len();
    assert_eq!(ppm.len(), expected_num_bytes);
    assert!(ppm.starts_with(expected_header.as_bytes()));
    assert!(ppm.ends_with(&[0, 0, 0][..]));
}

#[test]
fn test_ppm_solid_color_round_trip() {
    // A 2 x 1 image of one solid colour keeps its bytes unchanged after
    // the header.
    let pixels = vec![10u8, 20, 30, 10, 20, 30];
    let ppm = ppm_encode(2, 1, &pixels);
    let mut expected: Vec<u8> = b"P6 2 1 255 ".to_vec();
    expected.extend_from_slice(&pixels);
    assert_eq!(ppm, expected);
}

#[test]
fn test_format_decimal_single_digits() {
    assert_eq!(format_decimal(0), b"0".to_vec());
    assert_eq!(format_decimal(7), b"7".to_vec());
}

#[test]
fn test_format_decimal_multi_digits() {
    assert_eq!(format_decimal(10), b"10".to_vec());
    assert_eq!(format_decimal(255), b"255".to_vec());
    assert_eq!(format_decimal(326), b"326".to_vec());
    assert_eq!(format_decimal(u32::MAX), b"4294967295".to_vec());
}

#[test]
fn test_ppm_header_uses_both_dimensions() {
    let pixels = vec![255u8; 3 * 3 * 2];
    let ppm = ppm_encode(3, 2, &pixels);
    assert!(ppm.starts_with(b"P6 3 2 255 "));
    assert_eq!(ppm.len(), "P6 3 2 255 ".len() + 18);
}
