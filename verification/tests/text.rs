//! Texts and numerals.
use secinfra::numeral::{
    decimal_string, digit, numeral_of, padded_numeral, read_digits, read_i32, read_u16, read_u32,
    read_u64,
};
use secinfra::text::{
    cut_once, find_in, head_of, join_pieces, join_strings, keep_digits, past_last, remove_char,
    split_at_char, split_words, to_lower, to_upper, trim_class, trim_str, without_prefix, CharClass,
};

fn chars(text: &str) -> Vec<char> {
    text.chars().collect()
}

#[test]
fn numerals_are_written() {
    assert_eq!(decimal_string(0), "0");
    assert_eq!(decimal_string(u64::MAX), "18446744073709551615");
    assert_eq!(numeral_of(0o755, 8), chars("755"));
    assert_eq!(numeral_of(0xAB, 16), chars("AB"));
    assert_eq!(padded_numeral(10, 16, 4), chars("000A"));
    assert_eq!(padded_numeral(12345, 10, 3), chars("12345"));
    assert_eq!(digit(15), 'F');
}

#[test]
fn numerals_are_read() {
    assert_eq!(read_u64(&chars("18446744073709551615")), Some(u64::MAX));
    assert_eq!(read_u64(&chars("18446744073709551616")), None);
    assert_eq!(read_u64(&chars("+5")), Some(5));
    assert_eq!(read_u64(&chars("-5")), None);
    assert_eq!(read_u64(&chars("+")), None);
    assert_eq!(read_u64(&chars("")), None);
    assert_eq!(read_u64(&chars("00000000000000000000000007")), Some(7));
    assert_eq!(read_digits(&chars("+5")), None);
    assert_eq!(read_u32(&chars("4294967296")), None);
    assert_eq!(read_u16(&chars("65535")), Some(65535));
    assert_eq!(read_u16(&chars("65536")), None);
    assert_eq!(read_i32(&chars("-2147483648")), Some(i32::MIN));
    assert_eq!(read_i32(&chars("2147483648")), None);
    assert_eq!(read_i32(&chars("+6")), Some(6));
    assert_eq!(read_i32(&chars("-")), None);
}

#[test]
fn texts_are_taken_apart() {
    assert_eq!(trim_str(" \u{3000}a b\n"), "a b");
    assert_eq!(trim_class(&chars("..a."), CharClass::Only('.')), &chars("a")[..]);
    assert_eq!(trim_class(&chars("<Mb>."), CharClass::NonAlpha), &chars("Mb")[..]);
    assert_eq!(split_at_char(&chars("a,,b"), ','), vec![chars("a"), chars(""), chars("b")]);
    assert_eq!(split_words(&chars("  a b\u{a0}c ")), vec![chars("a"), chars("b"), chars("c")]);
    assert!(split_words(&chars("  ")).is_empty());
    assert_eq!(find_in(&chars("abcabc"), &chars("ca")), Some(2));
    assert_eq!(find_in(&chars("abc"), &chars("x")), None);
    assert_eq!(head_of(&chars("a.b"), '.'), &chars("a")[..]);
    assert_eq!(past_last(&chars("a.b.c"), '.'), 4);
    assert!(cut_once(&chars("ab"), ':').is_none());
    let split = chars("a:b:c");
    let (front, rest) = cut_once(&split, ':').unwrap();
    assert_eq!((front, rest), (&chars("a")[..], &chars("b:c")[..]));
    assert_eq!(without_prefix(&chars("Form 4"), &chars("Form ")), Some(&chars("4")[..]));
    assert_eq!(remove_char(&chars("1,234,5"), ','), chars("12345"));
    assert_eq!(keep_digits(&chars("20-24\u{663}")), chars("2024"));
}

#[test]
fn texts_are_put_together() {
    assert_eq!(join_strings(&["a".to_string(), "b".to_string()], ", "), "a, b");
    assert_eq!(join_strings(&[], ", "), "");
    assert_eq!(join_pieces(&[chars("a"), chars("b")], &chars("|")), chars("a|b"));
    assert_eq!(to_lower(&chars("A\u{c9}b")), chars("a\u{c9}b"));
    assert_eq!(to_upper(&chars("a\u{e9}B")), chars("A\u{e9}B"));
}
