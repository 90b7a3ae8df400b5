use gd::text::{
    byte_len, contains, ends_with, join, parse_number, split_whitespace, starts_with, str_eq,
    to_decimal, to_lower_ascii, trim,
};

#[test]
fn texts_agree_with_the_standard_library() {
    let samples = ["", " ", "a", " a b\t", "\u{3000}文 件\u{a0}", "aXb", "ab\n\ncd ", "\u{85}x"];
    for s in samples {
        assert_eq!(trim(s), s.trim(), "{s:?}");
        let theirs: Vec<&str> = s.split_whitespace().collect();
        assert_eq!(split_whitespace(s), theirs, "{s:?}");
        assert_eq!(byte_len(s), s.len());
        assert_eq!(to_lower_ascii(s), s.to_ascii_lowercase());
        for t in samples {
            assert_eq!(contains(s, t), s.contains(t), "{s:?} {t:?}");
            assert_eq!(starts_with(s, t), s.starts_with(t), "{s:?} {t:?}");
            assert_eq!(ends_with(s, t), s.ends_with(t), "{s:?} {t:?}");
            assert_eq!(str_eq(s, t), s == t);
        }
    }
}

#[test]
fn every_space_character_is_one() {
    for n in 0..=0x3000u32 {
        if let Some(c) = char::from_u32(n) {
            assert_eq!(gd::text::is_whitespace(c), c.is_whitespace(), "{n:x}");
        }
    }
}

#[test]
fn numbers_are_written_and_read() {
    for n in [0u128, 7, 10, 99, 100, 12345, u64::MAX as u128, u128::MAX] {
        assert_eq!(to_decimal(n), n.to_string());
    }
    for s in ["0", "007", "+5", "18446744073709551615", "", "+", "-1", "1a", "٣", " 1"] {
        assert_eq!(parse_number(s, u64::MAX), s.parse::<u64>().ok(), "{s:?}");
        assert_eq!(parse_number(s, u32::MAX as u64).map(|n| n as u32), s.parse::<u32>().ok(), "{s:?}");
    }
    assert_eq!(parse_number("8", 7), None);
    assert_eq!(parse_number("7", 7), Some(7));
}

#[test]
fn lists_are_joined() {
    let list = vec!["a".to_string(), "b".to_string()];
    assert_eq!(join(&list, ", "), "a, b");
    assert_eq!(join(&vec![], ", "), "");
}
