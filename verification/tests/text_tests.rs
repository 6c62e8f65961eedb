use lambda_lang::text::{byte_length, first_char, len_utf8, push_decimal, split_first, str_eq};

#[test]
fn utf8_widths() {
    assert_eq!(len_utf8('a'), 1);
    assert_eq!(len_utf8('\x7f'), 1);
    assert_eq!(len_utf8('\u{80}'), 2);
    assert_eq!(len_utf8('é'), 2);
    assert_eq!(len_utf8('\u{7ff}'), 2);
    assert_eq!(len_utf8('\u{800}'), 3);
    assert_eq!(len_utf8('€'), 3);
    assert_eq!(len_utf8('\u{ffff}'), 3);
    assert_eq!(len_utf8('\u{10000}'), 4);
    assert_eq!(len_utf8('😀'), 4);
    for c in ['a', 'é', '€', '😀', '\0', '\u{10ffff}'] {
        assert_eq!(len_utf8(c), c.len_utf8());
    }
}

#[test]
fn byte_length_counts_bytes() {
    assert_eq!(byte_length(""), 0);
    assert_eq!(byte_length("abc"), 3);
    assert_eq!(byte_length("aé€😀"), 10);
}

#[test]
fn first_character() {
    assert_eq!(first_char(""), None);
    assert_eq!(first_char("xyz"), Some('x'));
    assert_eq!(first_char("€uro"), Some('€'));
}

#[test]
fn split_first_takes_one_character() {
    assert_eq!(split_first(""), None);
    assert_eq!(split_first("a"), Some(('a', "")));
    assert_eq!(split_first("😀é!"), Some(('😀', "é!")));
    assert_eq!(split_first("é!"), Some(('é', "!")));
}

#[test]
fn string_equality() {
    assert!(str_eq("", ""));
    assert!(str_eq("héllo", "héllo"));
    assert!(!str_eq("hello", "hellO"));
    assert!(!str_eq("hello", "hell"));
    assert!(!str_eq("hell", "hello"));
    assert!(!str_eq("", "x"));
}

#[test]
fn decimal_numerals() {
    let mut text = String::from("n=");
    push_decimal(&mut text, 0);
    assert_eq!(text, "n=0");
    push_decimal(&mut text, 10);
    assert_eq!(text, "n=010");
    push_decimal(&mut text, 9_007);
    assert_eq!(text, "n=0109007");
    let mut max = String::new();
    push_decimal(&mut max, u64::MAX);
    assert_eq!(max, u64::MAX.to_string());
}
