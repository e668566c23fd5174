use vidsplice::text::{
    contains_char, decimal_text, find_char, is_number_text, is_white_space, join_texts, lower_is,
    padded_text, parse_number, parse_unsigned, replace, same_text, split_on, strip_prefix,
    strip_suffix, ten_to_the, to_chars, to_lower_char, trim,
};

fn owned(parts: &[&str]) -> Vec<String> {
    parts.iter().map(|part| part.to_string()).collect()
}

#[test]
fn white_space_is_what_unicode_says() {
    for code in 0..=0x10ffff_u32 {
        if let Some(c) = char::from_u32(code) {
            assert_eq!(is_white_space(c), c.is_whitespace(), "{code:x}");
        }
    }
}

#[test]
fn only_ascii_capitals_are_made_small() {
    for code in 0..=0x10ffff_u32 {
        if let Some(c) = char::from_u32(code) {
            assert_eq!(to_lower_char(c), c.to_ascii_lowercase());
        }
    }
    assert!(lower_is("MiB", "mib"));
    assert!(!lower_is("MB", "mib"));
    assert!(!lower_is("ÄB", "äb"));
}

#[test]
fn trimming() {
    assert_eq!(trim(" \t\u{3000}a b\u{a0}\n"), "a b");
    assert_eq!(trim(trim("  x ")), "x");
    assert_eq!(trim(" \u{2003} "), "");
    assert_eq!(trim(""), "");
}

#[test]
fn splitting_and_joining() {
    assert_eq!(split_on("a,,b,", ','), owned(&["a", "", "b", ""]));
    assert_eq!(split_on("", ','), owned(&[""]));
    assert_eq!(split_on("时:间", ':'), owned(&["时", "间"]));
    assert_eq!(join_texts(&owned(&[]), ", "), "");
    assert_eq!(join_texts(&owned(&["a"]), ", "), "a");
    assert_eq!(join_texts(&owned(&["a", "", "b"]), ", "), "a, , b");
    for value in ["", ",", "a,b", ",a,,b,"] {
        assert_eq!(join_texts(&split_on(value, ','), ","), value);
    }
}

#[test]
fn replacing() {
    assert_eq!(replace("100%%", '%', "%%"), "100%%%%");
    assert_eq!(replace("a'b'", '\'', "'\\''"), "a'\\''b'\\''");
    assert_eq!(replace("none", '%', "%%"), "none");
}

#[test]
fn numbers() {
    assert!(is_number_text("007"));
    assert!(!is_number_text(""));
    assert!(!is_number_text("+1"));
    assert!(!is_number_text("１"));
    assert_eq!(parse_number("18446744073709551615", u64::MAX as u128), Some(u64::MAX as u128));
    assert_eq!(parse_number("18446744073709551616", u64::MAX as u128), None);
    assert_eq!(
        parse_number("340282366920938463463374607431768211455", u128::MAX),
        Some(u128::MAX)
    );
    assert_eq!(parse_number("340282366920938463463374607431768211456", u128::MAX), None);
    assert_eq!(parse_number("0000000000000000000000000000000000000000000000001", 1), Some(1));
    assert_eq!(parse_unsigned("+12", 12), Some(12));
    assert_eq!(parse_unsigned("13", 12), None);
    assert_eq!(parse_unsigned("+", 12), None);
    assert_eq!(parse_unsigned("-1", 12), None);
    assert_eq!(parse_unsigned("++1", 12), None);
}

#[test]
fn numbers_as_text() {
    assert_eq!(decimal_text(0), "0");
    assert_eq!(decimal_text(1_907), "1907");
    assert_eq!(decimal_text(u128::MAX), u128::MAX.to_string());
    assert_eq!(padded_text(7, 3), "007");
    assert_eq!(padded_text(1_234, 3), "1234");
    assert_eq!(padded_text(0, 0), "0");
    assert_ne!(padded_text(1, 3), padded_text(10, 3));
    assert_eq!(ten_to_the(0), 1);
    assert_eq!(ten_to_the(18), 1_000_000_000_000_000_000);
}

#[test]
fn searching() {
    assert!(contains_char("abc", 'c'));
    assert!(!contains_char("abc", 'd'));
    assert_eq!(find_char("键=值=", '='), Some(1));
    assert_eq!(find_char("abc", '='), None);
    assert!(same_text("a", "a"));
    assert!(!same_text("a", "b"));
    assert_eq!(to_chars("aß时"), vec!['a', 'ß', '时']);
    assert_eq!(strip_prefix("影片-001.mp4", "影片-"), Some("001.mp4"));
    assert_eq!(strip_prefix("影片", "影片-"), None);
    assert_eq!(strip_suffix("001.mp4", ".mp4"), Some("001"));
    assert_eq!(strip_suffix("001.mp4", ".mkv"), None);
    assert_eq!(strip_suffix("4", ".mp4"), None);
}
