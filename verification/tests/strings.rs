use clipcloak::score::{above, nan, DEFAULT_THRESHOLD, HALF, LOWEST, ZERO};
use clipcloak::text::{
    blank, chars_of, contains_str, decimal, join2, join3, parse_list, parse_u16, slice,
    starts_with, str_eq, string_of, strip_prefix, trim, white_space,
};

fn strings(v: &[&str]) -> Vec<String> {
    v.iter().map(|s| s.to_string()).collect()
}

#[test]
fn strings_are_compared_by_their_characters() {
    assert!(str_eq("caf\u{e9}", "caf\u{e9}"));
    assert!(!str_eq("caf\u{e9}", "cafe\u{301}"));
    assert!(!str_eq("a", "ab"));
    assert!(str_eq("", ""));
}

#[test]
fn characters_and_strings_turn_into_each_other() {
    let v = chars_of("a\u{e9}\u{1f600}z");
    assert_eq!(v, vec!['a', '\u{e9}', '\u{1f600}', 'z']);
    assert_eq!(string_of(&v, 1, 3), "\u{e9}\u{1f600}");
    assert_eq!(string_of(&v, 2, 2), "");
}

#[test]
fn prefixes_and_substrings_are_found() {
    assert!(starts_with("moz-extension://abc", "moz-extension://"));
    assert!(starts_with("abc", ""));
    assert!(!starts_with("ab", "abc"));
    assert!(contains_str("fp16_v2", "16"));
    assert!(contains_str("fp16_v2", "v2"));
    assert!(!contains_str("onnx_int8", "16"));
    assert!(contains_str("x", ""));
    assert!(contains_str("", ""));
    assert_eq!(strip_prefix("Bearer t", "Bearer "), Some("t".to_string()));
    assert_eq!(strip_prefix("Bearer", "Bearer "), None);
}

#[test]
fn white_space_is_that_of_the_standard_library() {
    let mut c: u32 = 0;
    while c <= 0x10ffff {
        if let Some(ch) = char::from_u32(c) {
            assert_eq!(white_space(ch), ch.is_whitespace(), "{c:x}");
        }
        c += 1;
    }
}

#[test]
fn trimming_is_that_of_the_standard_library() {
    for s in ["", "  ", " a b ", "\u{a0}x\u{2003}", "\t\n", "x"] {
        assert_eq!(trim(s), s.trim());
        assert_eq!(blank(s), s.trim().is_empty());
    }
}

#[test]
fn lists_are_split_trimmed_and_filtered() {
    assert_eq!(parse_list("name, street address ,,email, "), strings(&["name", "street address", "email"]));
    assert_eq!(parse_list(""), strings(&[]));
    assert_eq!(parse_list(" , ,"), strings(&[]));
    assert_eq!(parse_list("one"), strings(&["one"]));
}

#[test]
fn ports_are_read_as_the_standard_library_reads_them() {
    for s in ["0", "8731", "65535", "65536", "", "+", "+80", "-1", "007", " 80", "8 0", "99999999999", "x"] {
        assert_eq!(parse_u16(s), s.parse::<u16>().ok(), "{s}");
    }
}

#[test]
fn a_written_number_is_read_back() {
    let mut n: u32 = 0;
    while n <= 65535 {
        let s = decimal(n as u16);
        assert_eq!(s, n.to_string());
        assert_eq!(parse_u16(&s), Some(n as u16));
        n += 1;
    }
}

#[test]
fn strings_are_joined() {
    assert_eq!(join2("a", "b"), "ab");
    assert_eq!(join3("a", "", "c"), "ac");
}

#[test]
fn slices_are_taken_by_bytes() {
    let s = "a\u{e9}b";
    assert_eq!(slice(s, 1, 3), "\u{e9}");
    assert_eq!(slice(s, 0, 4), s);
    assert_eq!(slice(s, 4, 4), "");
}

#[test]
fn constants_are_the_bits_of_the_floats_they_stand_for() {
    assert_eq!(f32::from_bits(DEFAULT_THRESHOLD), 0.55f32);
    assert_eq!(f32::from_bits(HALF), 0.5f32);
    assert_eq!(f32::from_bits(LOWEST), f32::MIN);
    assert_eq!(f32::from_bits(ZERO), 0.0f32);
}

#[test]
fn scores_are_ordered_as_floats_are() {
    let values = [
        0.0f32,
        -0.0,
        1.0,
        -1.0,
        0.55,
        0.5,
        f32::MIN,
        f32::MAX,
        f32::INFINITY,
        f32::NEG_INFINITY,
        f32::NAN,
        -f32::NAN,
        f32::MIN_POSITIVE,
        1e-45,
        -1e-45,
    ];
    for a in values {
        assert_eq!(nan(a.to_bits()), a.is_nan());
        for b in values {
            assert_eq!(above(a.to_bits(), b.to_bits()), a > b, "{a} {b}");
        }
    }
}
