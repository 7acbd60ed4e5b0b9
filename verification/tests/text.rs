use yaml12::tag::trim;
use yaml12::text::{chars_of, decimal_digits, has_prefix, integer_text, text_of};

#[test]
fn chars_and_text_round_trip() {
    let chars = chars_of("a\u{e9}\u{1f600}z");
    assert_eq!(chars, vec!['a', '\u{e9}', '\u{1f600}', 'z']);
    assert_eq!(text_of(&chars), "a\u{e9}\u{1f600}z");
}

#[test]
fn decimal_numerals() {
    assert_eq!(text_of(&decimal_digits(0)), "0");
    assert_eq!(text_of(&decimal_digits(907)), "907");
    assert_eq!(text_of(&decimal_digits(u64::MAX)), "18446744073709551615");
    assert_eq!(integer_text(-42), "-42");
    assert_eq!(integer_text(i64::MIN), "-9223372036854775808");
    assert_eq!(integer_text(i64::MAX), "9223372036854775807");
}

#[test]
fn prefixes() {
    assert!(has_prefix(&chars_of("---\nx"), &chars_of("---\n")));
    assert!(has_prefix(&chars_of("abc"), &chars_of("")));
    assert!(!has_prefix(&chars_of("--"), &chars_of("---")));
    assert!(!has_prefix(&chars_of("abd"), &chars_of("abc")));
}

#[test]
fn trimming_removes_unicode_white_space_at_both_ends() {
    assert_eq!(text_of(&trim(&chars_of("  a b\t\n"))), "a b");
    assert_eq!(text_of(&trim(&chars_of("\u{a0}\u{2003}x\u{3000}"))), "x");
    assert_eq!(text_of(&trim(&chars_of(" \u{85} "))), "");
    assert_eq!(text_of(&trim(&chars_of("\u{200b}x"))), "\u{200b}x");
    for text in ["", " ", "a", " a", "a ", "\u{1680}a\u{2028}\u{2029}b\u{202f}\u{205f}"] {
        assert_eq!(text_of(&trim(&chars_of(text))), text.trim());
    }
}
