use jsonnet_bytecode::chunk::Value;
use jsonnet_bytecode::memory_manager::MemoryManager;
use jsonnet_bytecode::native::values_equal;
use jsonnet_bytecode::native::{
    apply_numeric_format, apply_width_align, base64_decode, base64_encode, md5_hex,
    normalize_exp_notation, parse_i32, sha1_hex, sha256_hex, sha3_hex, sha512_hex,
    strip_trailing_zeros_e,
};

#[test]
fn test_base64_encode_padding() {
    assert_eq!(base64_encode(b""), "");
    assert_eq!(base64_encode(b"M"), "TQ==");
    assert_eq!(base64_encode(b"Ma"), "TWE=");
    assert_eq!(base64_encode(b"Man"), "TWFu");
    assert_eq!(base64_encode(b"hello world"), "aGVsbG8gd29ybGQ=");
    assert_eq!(base64_encode(&[0xff, 0xfe, 0xfd, 0x00]), "//79AA==");
}

#[test]
fn test_base64_decode_values() {
    assert_eq!(base64_decode("aGVsbG8gd29ybGQ=").unwrap(), b"hello world".to_vec());
    assert_eq!(base64_decode("TQ").unwrap(), b"M".to_vec());
    assert_eq!(base64_decode("TWE===").unwrap(), b"Ma".to_vec());
    assert_eq!(base64_decode("").unwrap(), Vec::<u8>::new());
    // A lone digit gives no byte.
    assert_eq!(base64_decode("T").unwrap(), Vec::<u8>::new());
}

#[test]
fn test_base64_decode_errors() {
    assert_eq!(base64_decode("ab!c").unwrap_err(), "invalid base64 character: !");
    // Padding in the middle is not a digit.
    assert_eq!(base64_decode("TQ==TQ==").unwrap_err(), "invalid base64 character: =");
}

#[test]
fn test_base64_decode_compares_low_byte() {
    // U+0141 has low byte 0x41, the digit 'A'.
    assert_eq!(base64_decode("\u{141}\u{141}").unwrap(), base64_decode("AA").unwrap());
}

#[test]
fn test_base64_round_trip() {
    let data: Vec<u8> = (0u16..300).map(|i| (i * 7 % 256) as u8).collect();
    for n in 0..data.len() {
        let enc = base64_encode(&data[..n]);
        assert_eq!(base64_decode(&enc).unwrap(), data[..n].to_vec());
    }
}

#[test]
fn test_digests_hex() {
    assert_eq!(md5_hex(""), "d41d8cd98f00b204e9800998ecf8427e");
    assert_eq!(md5_hex("abc"), "900150983cd24fb0d6963f7d28e17f72");
    assert_eq!(sha1_hex("abc"), "a9993e364706816aba3e25717850c26c9cd0d89d");
    assert_eq!(
        sha256_hex("abc"),
        "ba7816bf8f01cfea414140de5dae2223b00361a396177a9cb410ff61f20015ad"
    );
    assert_eq!(
        sha512_hex("abc"),
        "ddaf35a193617abacc417349ae20413112e6fa4e89a97ea20a9eeee64b55d39a2192992a274fc1a836ba3c23a3feebbd454d4423643ce80e2a9ac94fa54ca49f"
    );
    assert_eq!(
        sha3_hex("abc"),
        "3a985da74fe225b2045c172d6bd390bd855f086e3e9d525b46bfe24511431532"
    );
}

#[test]
fn test_apply_width_align() {
    assert_eq!(apply_width_align("ab", "", 5), "   ab");
    assert_eq!(apply_width_align("ab", "-", 5), "ab   ");
    assert_eq!(apply_width_align("abcdef", "", 3), "abcdef");
    assert_eq!(apply_width_align("ab", "", 0), "ab");
    // Width counts bytes: "é" is two.
    assert_eq!(apply_width_align("é", "", 3), " é");
}

#[test]
fn test_apply_numeric_format() {
    assert_eq!(apply_numeric_format("-5", "", 4, true), "-005");
    assert_eq!(apply_numeric_format("5", "+", 4, true), "+005");
    assert_eq!(apply_numeric_format("5", " ", 3, false), "  5");
    assert_eq!(apply_numeric_format("5", "-+", 4, true), "+5  ");
    assert_eq!(apply_numeric_format("42", "", 1, true), "42");
    assert_eq!(apply_numeric_format("42", "", 0, false), "42");
    assert_eq!(apply_numeric_format("-42", " ", 6, false), "   -42");
}

#[test]
fn test_normalize_exp_notation() {
    assert_eq!(normalize_exp_notation("1.5e2", false), "1.5e+02");
    assert_eq!(normalize_exp_notation("1.5e-7", true), "1.5E-07");
    assert_eq!(normalize_exp_notation("3e123", false), "3e+123");
    assert_eq!(normalize_exp_notation("3e+5", false), "3e+05");
    assert_eq!(normalize_exp_notation("42", false), "42");
    assert_eq!(normalize_exp_notation("1ex", false), "1e+00");
    assert_eq!(normalize_exp_notation("1e+-3", false), "1e+-3");
}

#[test]
fn test_strip_trailing_zeros_e() {
    assert_eq!(strip_trailing_zeros_e("1.500e+02"), "1.5e+02");
    assert_eq!(strip_trailing_zeros_e("1.000E-03"), "1E-03");
    assert_eq!(strip_trailing_zeros_e("100e+02"), "100e+02");
    assert_eq!(strip_trailing_zeros_e("1.50"), "1.50");
}

#[test]
fn test_parse_i32_like_std() {
    let cases = ["0", "-0", "+7", "2147483647", "2147483648", "-2147483648", "-2147483649", "", "-", "+", "12a", "007", "99999999999"];
    for c in cases {
        let chars: Vec<char> = c.chars().collect();
        assert_eq!(parse_i32(&chars), c.parse::<i32>().ok(), "input {:?}", c);
    }
}

use jsonnet_bytecode::native::{
    find_substr, ascii_lower, ascii_upper, equals_ignore_case, escape_string_bash, escape_string_dollars,
    escape_string_json, escape_string_xml, parse_hex, parse_int, parse_octal,
};

#[test]
fn test_escape_string_json() {
    assert_eq!(escape_string_json("a\"b\\\n\r\t\u{1}é"), "\"a\\\"b\\\\\\n\\r\\t\\u0001é\"");
    assert_eq!(escape_string_json(""), "\"\"");
    assert_eq!(escape_string_json("\u{1f}\u{7f}"), "\"\\u001f\u{7f}\"");
}

#[test]
fn test_escape_string_xml_bash_dollars() {
    assert_eq!(escape_string_xml("<a href=\"x\">&'</a>"), "&lt;a href=&quot;x&quot;&gt;&amp;&apos;&lt;/a&gt;");
    assert_eq!(escape_string_bash("it's"), "'it'\"'\"'s'");
    assert_eq!(escape_string_bash(""), "''");
    assert_eq!(escape_string_dollars("$x$$"), "$$x$$$$");
}

#[test]
fn test_ascii_case() {
    assert_eq!(ascii_upper("abcÄé-z"), "ABCÄé-Z");
    assert_eq!(ascii_lower("ABCÄé-Z"), "abcÄé-z");
    assert!(equals_ignore_case("HeLLo", "hello"));
    assert!(!equals_ignore_case("ß", "SS"));
    assert!(!equals_ignore_case("Ä", "ä"));
    assert!(!equals_ignore_case("a", "ab"));
}

#[test]
fn test_parse_int_octal_hex() {
    assert_eq!(parse_int(" 42\n"), Ok(42));
    assert_eq!(parse_int("-9223372036854775808"), Ok(i64::MIN));
    assert_eq!(
        parse_int(" 9223372036854775808 "),
        Err("std.parseInt() failed to parse '9223372036854775808' as integer".to_string())
    );
    assert_eq!(parse_int("4 2"), Err("std.parseInt() failed to parse '4 2' as integer".to_string()));
    assert_eq!(parse_octal("777"), Ok(511));
    assert_eq!(parse_octal("-10"), Ok(-8));
    assert_eq!(parse_octal("8"), Err("std.parseOctal() failed to parse '8' as octal".to_string()));
    assert_eq!(parse_hex(" FF "), Ok(255));
    assert_eq!(parse_hex("+7fffffffffffffff"), Ok(i64::MAX));
    assert_eq!(parse_hex("XyZ"), Err("std.parseHex() failed to parse 'xyz' as hex".to_string()));
}

#[test]
fn test_parse_matches_std_radix() {
    let cases = ["0", "+", "-", "", "12", "-12", "+12", "z", "Zz", "1_0", "ffffffffffffffff", "-8000000000000000", "7FFFFFFFFFFFFFFF"];
    for radix in [8u32, 10, 16, 36] {
        for c in cases {
            let chars: Vec<char> = c.chars().collect();
            assert_eq!(
                jsonnet_bytecode::native::parse_i64_radix(&chars, radix),
                i64::from_str_radix(c, radix).ok(),
                "input {:?} radix {}",
                c,
                radix
            );
        }
    }
}

#[test]
fn test_find_substr() {
    assert_eq!(find_substr("aa", "aaaa"), vec![0, 1, 2]);
    assert_eq!(find_substr("", "abc"), Vec::<usize>::new());
    assert_eq!(find_substr("é", "aébé"), vec![1, 3]);
    assert_eq!(find_substr("abcd", "abc"), Vec::<usize>::new());
}

#[test]
fn test_values_equal_scalars() {
    let mut mm = MemoryManager::new();
    let n = |x: f64| Value::Number(x.to_bits());
    assert!(values_equal(Value::Null, Value::Null, &mm));
    assert!(values_equal(Value::Boolean(true), Value::Boolean(true), &mm));
    assert!(!values_equal(Value::Boolean(true), Value::Boolean(false), &mm));
    assert!(values_equal(n(1.5), n(1.5), &mm));
    assert!(values_equal(n(0.0), n(-0.0), &mm));
    assert!(!values_equal(n(f64::NAN), n(f64::NAN), &mm));
    assert!(!values_equal(n(1.0), n(2.0), &mm));
    assert!(!values_equal(Value::Null, Value::Boolean(false), &mm));
    let a = mm.allocate_string("abc").index;
    let b = mm.allocate_string("abc").index;
    let c = mm.allocate_string("abd").index;
    assert!(values_equal(Value::String(a), Value::String(b), &mm));
    assert!(!values_equal(Value::String(a), Value::String(c), &mm));
}

#[test]
fn test_values_equal_arrays_and_objects() {
    let mut mm = MemoryManager::new();
    let n = |x: f64| Value::Number(x.to_bits());
    let a1 = mm.allocate_array(vec![n(1.0), n(2.0)]).index;
    let a2 = mm.allocate_array(vec![n(1.0), n(2.0)]).index;
    let a3 = mm.allocate_array(vec![n(2.0), n(1.0)]).index;
    let a4 = mm.allocate_array(vec![n(1.0)]).index;
    assert!(values_equal(Value::Array(a1), Value::Array(a2), &mm));
    assert!(!values_equal(Value::Array(a1), Value::Array(a3), &mm));
    assert!(!values_equal(Value::Array(a1), Value::Array(a4), &mm));

    let kx = mm.allocate_string("x").index;
    let ky = mm.allocate_string("y").index;
    let o1 = mm.allocate_object_with_properties(vec![(kx, n(1.0)), (ky, Value::Array(a1))]).index;
    let o2 = mm.allocate_object_with_properties(vec![(ky, Value::Array(a2)), (kx, n(1.0))]).index;
    let o3 = mm.allocate_object_with_properties(vec![(kx, n(1.0)), (ky, Value::Array(a3))]).index;
    let o4 = mm.allocate_object_with_properties(vec![(kx, n(1.0))]).index;
    assert!(values_equal(Value::Object(o1), Value::Object(o2), &mm));
    assert!(!values_equal(Value::Object(o1), Value::Object(o3), &mm));
    assert!(!values_equal(Value::Object(o1), Value::Object(o4), &mm));
    assert!(!values_equal(Value::Object(o4), Value::Array(a4), &mm));
}
