use quill::text::{chars_of, decimal_string, line_spans, push_hex_list, push_signed_decimal};

fn lines_of(s: &str) -> Vec<String> {
    let chars = chars_of(s);
    line_spans(&chars)
        .into_iter()
        .map(|(a, b)| chars[a..b].iter().collect())
        .collect()
}

#[test]
fn decimal_numbers() {
    assert_eq!(decimal_string(0), "0");
    assert_eq!(decimal_string(7), "7");
    assert_eq!(decimal_string(120), "120");
    assert_eq!(decimal_string(u64::MAX), "18446744073709551615");
}

#[test]
fn signed_decimal_numbers() {
    let mut s = String::new();
    push_signed_decimal(&mut s, -42);
    assert_eq!(s, "-42");
    let mut t = String::new();
    push_signed_decimal(&mut t, i64::MIN);
    assert_eq!(t, "-9223372036854775808");
}

#[test]
fn hex_lists() {
    let mut s = String::new();
    push_hex_list(&mut s, &[0x0a, 0xff, 0x00]);
    assert_eq!(s, "[0A, FF, 00]");
    let mut e = String::new();
    push_hex_list(&mut e, &[]);
    assert_eq!(e, "[]");
}

#[test]
fn chars_of_text() {
    assert_eq!(chars_of("héllo"), vec!['h', 'é', 'l', 'l', 'o']);
}

#[test]
fn lines_split_like_str_lines() {
    for text in ["a\r\nb\n\nc", "one\ntwo\n", "", "\n", "x\ry\n", "trailing\r", "\r\n\r\n"] {
        let expected: Vec<String> = text.lines().map(|l| l.to_string()).collect();
        assert_eq!(lines_of(text), expected, "text {:?}", text);
    }
}
