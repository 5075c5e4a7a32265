use jsonnet_bytecode::int_format::{format_decimal, format_radix, format_text};

#[test]
fn decimal_conversions() {
    assert_eq!(format_decimal(42, "", 0, None), "42");
    assert_eq!(format_decimal(-42, "", 5, None), "  -42");
    assert_eq!(format_decimal(42, "0", 5, None), "00042");
    assert_eq!(format_decimal(-42, "0", 6, None), "-00042");
    assert_eq!(format_decimal(42, "+", 0, None), "+42");
    assert_eq!(format_decimal(42, " ", 0, None), " 42");
    assert_eq!(format_decimal(42, "-", 5, None), "42   ");
    assert_eq!(format_decimal(5, "", 0, Some(3)), "005");
    assert_eq!(format_decimal(-5, "", 0, Some(3)), "-005");
    assert_eq!(format_decimal(0, "", 0, Some(0)), "");
    assert_eq!(format_decimal(0, "", 3, Some(0)), "   ");
    assert_eq!(format_decimal(123, "", 0, Some(2)), "123");
    assert_eq!(format_decimal(7, "0", 5, Some(2)), "   07");
    assert_eq!(format_decimal(i64::MIN, "", 0, None), "-9223372036854775808");
    assert_eq!(format_decimal(i64::MAX, "", 0, None), "9223372036854775807");
}

#[test]
fn radix_conversions() {
    assert_eq!(format_radix(255, 'x', "", 0, None), "ff");
    assert_eq!(format_radix(255, 'X', "", 0, None), "FF");
    assert_eq!(format_radix(255, 'o', "", 0, None), "377");
    assert_eq!(format_radix(255, 'x', "#", 0, None), "0xff");
    assert_eq!(format_radix(255, 'X', "#", 0, None), "0XFF");
    assert_eq!(format_radix(255, 'o', "#", 0, None), "0377");
    assert_eq!(format_radix(0, 'x', "#", 0, None), "0");
    assert_eq!(format_radix(-255, 'x', "", 0, None), "-ff");
    assert_eq!(format_radix(255, 'x', "#0", 8, None), "0x0000ff");
    assert_eq!(format_radix(255, 'x', "-", 6, None), "ff    ");
    assert_eq!(format_radix(255, 'x', "", 6, None), "    ff");
    assert_eq!(format_radix(0, 'o', "", 0, Some(0)), "");
    assert_eq!(format_radix(8, 'o', "#", 0, Some(4)), "0010");
    assert_eq!(format_radix(5, 'x', "+", 0, None), "+5");
    assert_eq!(format_radix(5, 'x', " ", 3, None), "  5");
    assert_eq!(format_radix(i64::MIN, 'x', "", 0, None), "-8000000000000000");
    for v in [0i64, 1, 7, 8, 15, 16, 4095, 123456789] {
        assert_eq!(format_radix(v, 'x', "", 0, None), format!("{:x}", v));
        assert_eq!(format_radix(v, 'X', "", 0, None), format!("{:X}", v));
        assert_eq!(format_radix(v, 'o', "", 0, None), format!("{:o}", v));
        assert_eq!(format_decimal(v, "", 0, None), format!("{}", v));
    }
}

#[test]
fn text_conversion() {
    assert_eq!(format_text("hello", "", 0, None), "hello");
    assert_eq!(format_text("hello", "", 0, Some(3)), "hel");
    assert_eq!(format_text("hello", "", 0, Some(10)), "hello");
    assert_eq!(format_text("hello", "", 7, None), "  hello");
    assert_eq!(format_text("hello", "-", 7, None), "hello  ");
    assert_eq!(format_text("héllo", "", 0, Some(2)), "hé");
    assert_eq!(format_text("é", "", 3, None), " é");
}
