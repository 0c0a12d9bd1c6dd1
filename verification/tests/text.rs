use rustbox::text::{
    chars_of, decimal_text, find_line_end, first_char, has_prefix, is_whitespace,
    parse_u32_range, same_text, trim_bounds,
};

#[test]
fn whitespace_matches_std() {
    for c in [' ', '\t', '\n', '\r', '\u{0B}', '\u{0C}', '\u{85}', '\u{A0}', '\u{2003}', '\u{3000}', 'a', '0', '_', '\u{200B}'] {
        assert_eq!(is_whitespace(c), c.is_whitespace(), "{:?}", c);
    }
}

#[test]
fn characters_and_comparison() {
    assert_eq!(chars_of("héllo"), vec!['h', 'é', 'l', 'l', 'o']);
    assert_eq!(first_char("xyz"), Some('x'));
    assert_eq!(first_char(""), None);
    assert!(same_text("abc", "abc"));
    assert!(!same_text("abc", "abd"));
    assert!(!same_text("abc", "ab"));
}

#[test]
fn line_ends_and_trimming() {
    let chars = chars_of("ab\r\ncd\nef");
    assert_eq!(find_line_end(&chars, 0), (2, 4));
    assert_eq!(find_line_end(&chars, 4), (6, 7));
    assert_eq!(find_line_end(&chars, 7), (9, 9));
    let padded = chars_of("  hi there \t");
    assert_eq!(trim_bounds(&padded, 0, padded.len()), (2, 10));
    assert!(has_prefix(&padded, 2, 10, "hi"));
    assert!(!has_prefix(&padded, 2, 3, "hi"));
}

#[test]
fn numbers() {
    assert_eq!(decimal_text(0), "0");
    assert_eq!(decimal_text(1234567), "1234567");
    let chars = chars_of("+0042 x 4294967296");
    assert_eq!(parse_u32_range(&chars, 0, 5), Some(42));
    assert_eq!(parse_u32_range(&chars, 6, 7), None);
    assert_eq!(parse_u32_range(&chars, 8, 18), None);
    assert_eq!(parse_u32_range(&chars, 8, 17), Some(429496729));
    assert_eq!(parse_u32_range(&chars, 0, 1), None);
    assert_eq!(parse_u32_range(&chars, 0, 0), None);
}
