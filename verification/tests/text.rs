use r_scheme::text::{
    chars_of, is_whitespace, parse_integer as read_integer, push_decimal, push_signed,
    push_with_fraction, same_text,
};

fn read(s: &str) -> Option<i64> {
    let chars = chars_of(s);
    read_integer(&chars, 0, chars.len())
}

#[test]
fn integers_are_read_like_the_standard_library_reads_them() {
    for s in [
        "0", "-0", "+0", "42", "-42", "+42", "0042", "9223372036854775807",
        "-9223372036854775808", "9223372036854775808", "-9223372036854775809",
        "99999999999999999999999999", "", "+", "-", "--1", "+-1", "1-", "1 ", " 1", "1.0",
        "1e3", "0x10", "1_000", "a", "12a", "\u{661}",
    ] {
        assert_eq!(read(s), s.parse::<i64>().ok(), "{:?}", s);
    }
    assert_eq!(read("42"), Some(42));
    assert_eq!(read("-9223372036854775808"), Some(i64::MIN));
    assert_eq!(read("9223372036854775808"), None);
}

#[test]
fn integers_are_read_from_a_part_of_the_text() {
    let chars = chars_of("ab-12cd");
    assert_eq!(read_integer(&chars, 2, 5), Some(-12));
    assert_eq!(read_integer(&chars, 3, 5), Some(12));
    assert_eq!(read_integer(&chars, 2, 6), None);
    assert_eq!(read_integer(&chars, 4, 4), None);
}

#[test]
fn decimals_are_written_like_the_standard_library_writes_them() {
    for n in [0u128, 1, 9, 10, 11, 99, 100, 12345, u64::MAX as u128, u128::MAX] {
        let mut s = String::from("x");
        push_decimal(&mut s, n);
        assert_eq!(s, format!("x{}", n));
    }
    for n in [0i64, 1, -1, 10, -10, 1234567890, i64::MAX, i64::MIN] {
        let mut s = String::new();
        push_signed(&mut s, n);
        assert_eq!(s, format!("{}", n));
    }
}

#[test]
fn white_space_is_what_the_standard_library_says() {
    let mut n: u32 = 0;
    while n <= 0x10ffff {
        if let Some(c) = char::from_u32(n) {
            assert_eq!(is_whitespace(c), c.is_whitespace(), "U+{:04X}", n);
        }
        n += 1;
    }
}

#[test]
fn chars_of_keeps_every_character() {
    assert_eq!(chars_of(""), Vec::<char>::new());
    assert_eq!(chars_of("a\u{e9}\u{1f600}"), vec!['a', '\u{e9}', '\u{1f600}']);
}

#[test]
fn written_integers_are_read_back() {
    for n in [0i64, 7, -7, 10, -10, 1234567890123, i64::MAX, i64::MIN, i64::MIN + 1] {
        let mut s = String::new();
        push_signed(&mut s, n);
        assert_eq!(read(&s), Some(n));
    }
}

#[test]
fn same_text_compares_every_character() {
    assert!(same_text("", ""));
    assert!(same_text("define", "define"));
    assert!(same_text("a\u{e9}\u{1f600}", "a\u{e9}\u{1f600}"));
    assert!(!same_text("define", "defin\u{11b}"));
    assert!(!same_text("define", "defin"));
    assert!(!same_text("defin", "define"));
    assert!(!same_text("", "a"));
    assert!(!same_text("a", ""));
    assert!(!same_text("abc", "abd"));
    assert!(!same_text("xbc", "abc"));
}

#[test]
fn whole_floats_get_a_fraction() {
    for (text, expected) in [
        ("1", "1.0"),
        ("-12", "-12.0"),
        ("0", "0.0"),
        ("1.5", "1.5"),
        ("-0.25", "-0.25"),
        ("inf", "inf"),
        ("-inf", "-inf"),
        ("NaN", "NaN"),
    ] {
        let mut s = String::from("Float(");
        push_with_fraction(&mut s, text);
        assert_eq!(s, format!("Float({}", expected));
    }
}
