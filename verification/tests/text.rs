use ruft::text::{decimal_text, padded_hex_text};

#[test]
fn numbers_in_decimal() {
    assert_eq!(decimal_text(0), "0");
    assert_eq!(decimal_text(10), "10");
    assert_eq!(decimal_text(u64::MAX), u64::MAX.to_string());
}

#[test]
fn numbers_in_padded_hexadecimal() {
    assert_eq!(padded_hex_text(0xbeef, 8), "0000beef");
    assert_eq!(padded_hex_text(0x1_2345_6789, 4), "6789");
    assert_eq!(padded_hex_text(5, 0), "");
}
