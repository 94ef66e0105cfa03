use tac_compiler::text::{
    decimal_string, from_chars, is_digit, is_identifier_char, is_letter, is_whitespace,
    parse_integer, push_chars, push_decimal, spells, starts_with, to_chars,
};

#[test]
fn whitespace_is_what_unicode_says() {
    for code in 0..=0x10ffffu32 {
        if let Some(c) = char::from_u32(code) {
            assert_eq!(is_whitespace(c), c.is_whitespace(), "U+{:04X}", code);
        }
    }
}

#[test]
fn character_classes() {
    for code in 0..=0x10ffffu32 {
        if let Some(c) = char::from_u32(code) {
            assert_eq!(is_digit(c), c.is_ascii_digit());
            assert_eq!(is_letter(c), c.is_ascii_alphabetic());
            assert_eq!(is_identifier_char(c), c.is_ascii_alphanumeric() || c == '_');
        }
    }
}

#[test]
fn decimal_string_is_the_usual_notation() {
    for n in [0, 1, -1, 9, 10, 11, 99, 100, 12345, -12345, i32::MAX, i32::MIN, i32::MIN + 1] {
        assert_eq!(decimal_string(n), n.to_string());
    }
}

#[test]
fn push_decimal_appends() {
    let mut out = String::from("n");
    push_decimal(&mut out, 0);
    push_decimal(&mut out, 18446744073709551615);
    push_decimal(&mut out, 10);
    assert_eq!(out, "n01844674407370955161510");
}

#[test]
fn parse_integer_reads_what_the_standard_library_reads() {
    for word in [
        "0", "7", "-7", "+7", "007", "-0", "+0", "2147483647", "2147483648", "-2147483648",
        "-2147483649", "99999999999999999999", "", "-", "+", "--1", "+-1", "1-", "1 ", " 1", "a",
        "1a", "١", "1_000", "0x10",
    ] {
        assert_eq!(parse_integer(&to_chars(word)), word.parse::<i32>().ok(), "{:?}", word);
    }
}

#[test]
fn characters_and_strings() {
    let chars = to_chars("h\u{e9}llo, w\u{f6}rld");
    assert_eq!(chars.len(), 12);
    assert_eq!(chars[1], '\u{e9}');
    assert_eq!(from_chars(&chars), "h\u{e9}llo, w\u{f6}rld");
    assert!(to_chars("").is_empty());
    assert_eq!(from_chars(&[]), "");
    let mut out = String::from("ab");
    push_chars(&mut out, &['c', 'd']);
    assert_eq!(out, "abcd");
}

#[test]
fn spelling() {
    assert!(spells(&to_chars("main"), "main"));
    assert!(!spells(&to_chars("main"), "mai"));
    assert!(!spells(&to_chars("mai"), "main"));
    assert!(!spells(&to_chars("maim"), "main"));
    assert!(spells(&[], ""));
    assert!(starts_with(&to_chars("%int[] a, 3"), "%int"));
    assert!(starts_with(&to_chars("%int[] a, 3"), "%int[]"));
    assert!(!starts_with(&to_chars("%in"), "%int"));
    assert!(!starts_with(&to_chars(" %int a"), "%int"));
    assert!(starts_with(&to_chars("x"), ""));
}
