use jsonnet_bytecode::string_natives::{
    char_string, codepoint, decode_outcome, decode_utf8_bytes, encode_utf8_bytes, ends_with,
    join_strings, lines_text, lstrip_chars, repeat_string, rstrip_chars, split, split_limit,
    split_limit_r, starts_with, str_replace, string_chars, strip_chars, substr,
};

fn owned(parts: Vec<&str>) -> Vec<String> {
    parts.into_iter().map(|p| p.to_string()).collect()
}

const SAMPLES: [(&str, &str); 12] = [
    ("a,b,,c", ","),
    ("", ","),
    ("abc", ""),
    ("", ""),
    ("aaa", "aa"),
    ("aaaa", "aa"),
    ("one--two--", "--"),
    ("no separator here", "#"),
    ("héllo wörld", "ö"),
    ("xyx", "xyx"),
    ("ab", "abc"),
    ("a b c d", " "),
];

#[test]
fn split_matches_str_split() {
    assert_eq!(split("a,b,,c", ","), owned(vec!["a", "b", "", "c"]));
    assert_eq!(split("abc", ""), owned(vec!["", "a", "b", "c", ""]));
    for (s, sep) in SAMPLES {
        let expected: Vec<String> = s.split(sep).map(|p| p.to_string()).collect();
        assert_eq!(split(s, sep), expected, "split({:?}, {:?})", s, sep);
    }
}

#[test]
fn split_limit_matches_str_splitn() {
    assert_eq!(split_limit("a,b,c", ",", 1), owned(vec!["a", "b,c"]));
    assert_eq!(split_limit("a,b,c", ",", -1), owned(vec!["a", "b", "c"]));
    assert_eq!(split_limit("a,b,c", ",", 0), owned(vec!["a,b,c"]));
    for (s, sep) in SAMPLES {
        for max in 0..6i64 {
            let expected: Vec<String> =
                s.splitn(max as usize + 1, sep).map(|p| p.to_string()).collect();
            assert_eq!(split_limit(s, sep, max), expected, "splitn({:?}, {:?}, {})", s, sep, max);
        }
        let all: Vec<String> = s.split(sep).map(|p| p.to_string()).collect();
        assert_eq!(split_limit(s, sep, -3), all);
    }
}

#[test]
fn split_limit_r_matches_str_rsplitn() {
    assert_eq!(split_limit_r("a,b,c", ",", 1), owned(vec!["a,b", "c"]));
    assert_eq!(split_limit_r("aaa", "aa", 1), owned(vec!["a", ""]));
    for (s, sep) in SAMPLES {
        for max in 0..6i64 {
            let mut expected: Vec<String> =
                s.rsplitn(max as usize + 1, sep).map(|p| p.to_string()).collect();
            expected.reverse();
            assert_eq!(
                split_limit_r(s, sep, max),
                expected,
                "rsplitn({:?}, {:?}, {})",
                s,
                sep,
                max
            );
        }
        let all: Vec<String> = s.split(sep).map(|p| p.to_string()).collect();
        assert_eq!(split_limit_r(s, sep, -1), all);
    }
}

#[test]
fn str_replace_matches_str_replace() {
    assert_eq!(str_replace("hello world", "o", "0"), "hell0 w0rld");
    assert_eq!(str_replace("ab", "", "-"), "-a-b-");
    for (s, sep) in SAMPLES {
        for to in ["", "_", "<>"] {
            assert_eq!(str_replace(s, sep, to), s.replace(sep, to), "{:?} {:?} {:?}", s, sep, to);
        }
    }
}

#[test]
fn join_puts_separator_between() {
    assert_eq!(join_strings(", ", &owned(vec!["a", "b", "c"])), "a, b, c");
    assert_eq!(join_strings("-", &owned(vec!["x"])), "x");
    assert_eq!(join_strings("-", &Vec::new()), "");
    assert_eq!(join_strings("", &owned(vec!["a", "", "b"])), "ab");
}

#[test]
fn repeat_concatenates_copies() {
    assert_eq!(repeat_string("ab", 3), "ababab");
    assert_eq!(repeat_string("ab", 0), "");
    assert_eq!(repeat_string("", 5), "");
    assert_eq!(repeat_string("é", 2), "éé");
}

#[test]
fn strip_removes_set_characters_at_the_ends() {
    assert_eq!(strip_chars("xxhixyx", "xy"), "hi");
    assert_eq!(lstrip_chars("xxhixyx", "xy"), "hixyx");
    assert_eq!(rstrip_chars("xxhixyx", "xy"), "xxhi");
    assert_eq!(strip_chars("xyxy", "xy"), "");
    assert_eq!(lstrip_chars("xyxy", "xy"), "");
    assert_eq!(rstrip_chars("xyxy", "xy"), "");
    assert_eq!(strip_chars("abc", ""), "abc");
    assert_eq!(strip_chars("", "a"), "");
    let set: Vec<char> = "xy".chars().collect();
    for s in ["xaxb yx", "yyy", "a", "xyaxy", ""] {
        assert_eq!(strip_chars(s, "xy"), s.trim_matches(&set[..]));
        assert_eq!(lstrip_chars(s, "xy"), s.trim_start_matches(&set[..]));
        assert_eq!(rstrip_chars(s, "xy"), s.trim_end_matches(&set[..]));
    }
}

#[test]
fn substr_counts_characters_and_clips() {
    assert_eq!(substr("hello", 1, 3), "ell");
    assert_eq!(substr("hello", 3, 10), "lo");
    assert_eq!(substr("hello", 10, 2), "");
    assert_eq!(substr("héllo", 1, 1), "é");
    assert_eq!(substr("hello", 0, 0), "");
}

#[test]
fn prefixes_and_suffixes() {
    assert!(starts_with("hello", "he"));
    assert!(starts_with("hello", ""));
    assert!(!starts_with("he", "hello"));
    assert!(!starts_with("hello", "lo"));
    assert!(ends_with("hello", "lo"));
    assert!(ends_with("hello", "hello"));
    assert!(!ends_with("lo", "hello"));
    assert!(!ends_with("hello", "he"));
}

#[test]
fn codepoint_of_one_character() {
    assert_eq!(codepoint("A"), Ok(65));
    assert_eq!(codepoint("é"), Ok(233));
    assert_eq!(
        codepoint("ab"),
        Err("std.codepoint() expected string of length 1, got 'ab'".to_string())
    );
    assert_eq!(
        codepoint(""),
        Err("std.codepoint() expected string of length 1, got ''".to_string())
    );
}

#[test]
fn char_of_code_point() {
    assert_eq!(char_string(65), Ok("A".to_string()));
    assert_eq!(char_string(0x1F600), Ok("😀".to_string()));
    assert_eq!(
        char_string(0xD800),
        Err("std.char() invalid unicode codepoint 55296".to_string())
    );
    assert_eq!(
        char_string(0x110000),
        Err("std.char() invalid unicode codepoint 1114112".to_string())
    );
}

#[test]
fn utf8_round_trip() {
    assert_eq!(encode_utf8_bytes("aé😀"), "aé😀".as_bytes().to_vec());
    assert_eq!(encode_utf8_bytes(""), Vec::<u8>::new());
    let bytes = encode_utf8_bytes("héllo");
    assert_eq!(decode_utf8_bytes(&bytes), Ok("héllo".to_string()));
}

#[test]
fn invalid_utf8_is_reported() {
    let bad = vec![0x61, 0xFF, 0x62];
    let detail = std::str::from_utf8(&bad).unwrap_err().to_string();
    assert_eq!(
        decode_utf8_bytes(&bad),
        Err(format!("std.decodeUTF8() invalid UTF-8 sequence: {}", detail))
    );
    assert_eq!(
        decode_outcome(Err("x".to_string())),
        Err("std.decodeUTF8() invalid UTF-8 sequence: x".to_string())
    );
    assert_eq!(decode_outcome(Ok("fine".to_string())), Ok("fine".to_string()));
    assert!(decode_utf8_bytes(&vec![0xED, 0xA0, 0x80]).is_err());
}

#[test]
fn joining_the_pieces_of_a_split_restores_the_text() {
    for (s, sep) in SAMPLES {
        assert_eq!(join_strings(sep, &split(s, sep)), s);
        assert_eq!(str_replace(s, sep, sep), s);
    }
}

#[test]
fn stripping_twice_is_stripping_once() {
    for s in ["xxhixyx", "xyxy", "abc", "", "yhy"] {
        let once = strip_chars(s, "xy");
        assert_eq!(strip_chars(&once, "xy"), once);
        let left = lstrip_chars(s, "xy");
        assert_eq!(lstrip_chars(&left, "xy"), left);
        let right = rstrip_chars(s, "xy");
        assert_eq!(rstrip_chars(&right, "xy"), right);
    }
}

#[test]
fn code_points_round_trip() {
    for c in ['a', 'é', '😀', '\u{10FFFF}', '\0'] {
        let text = c.to_string();
        let cp = codepoint(&text).unwrap();
        assert_eq!(char_string(cp), Ok(text));
    }
}

#[test]
fn characters_one_by_one() {
    assert_eq!(string_chars("aé😀"), owned(vec!["a", "é", "😀"]));
    assert_eq!(string_chars(""), Vec::<String>::new());
}

#[test]
fn lines_end_with_line_feeds() {
    assert_eq!(lines_text(&owned(vec!["a", "b"])), "a\nb\n");
    assert_eq!(lines_text(&owned(vec![""])), "\n");
    assert_eq!(lines_text(&Vec::new()), "");
}
