use rua::text::{is_whitespace, parse_char_exec, parse_uint_exec, push_dec, split_whitespace, CharErrorKind, IntErrorKind};

fn chars(s: &str) -> Vec<char> {
    s.chars().collect()
}

#[test]
fn number_tokens() {
    assert_eq!(parse_uint_exec(&chars("0"), u32::MAX), Ok(0));
    assert_eq!(parse_uint_exec(&chars("+17"), u32::MAX), Ok(17));
    assert_eq!(parse_uint_exec(&chars("007"), 255), Ok(7));
    assert_eq!(parse_uint_exec(&chars("4294967295"), u32::MAX), Ok(u32::MAX));
    assert_eq!(parse_uint_exec(&chars("4294967296"), u32::MAX), Err(IntErrorKind::PosOverflow));
    assert_eq!(parse_uint_exec(&chars("255"), 255), Ok(255));
    assert_eq!(parse_uint_exec(&chars("256"), 255), Err(IntErrorKind::PosOverflow));
    assert_eq!(parse_uint_exec(&chars("999x"), 255), Err(IntErrorKind::PosOverflow));
    assert_eq!(parse_uint_exec(&chars("9x99"), 255), Err(IntErrorKind::InvalidDigit));
    assert_eq!(parse_uint_exec(&chars(""), 255), Err(IntErrorKind::Empty));
    assert_eq!(parse_uint_exec(&chars("+"), 255), Err(IntErrorKind::InvalidDigit));
    assert_eq!(parse_uint_exec(&chars("-1"), 255), Err(IntErrorKind::InvalidDigit));
    assert_eq!(parse_uint_exec(&chars("١"), 255), Err(IntErrorKind::InvalidDigit));
}

#[test]
fn number_tokens_agree_with_std() {
    for s in ["0", "+0", "12", "+", "-3", "", "256", "255", "1a", "99999999999", "00000000000042", "+-1", "٣"] {
        let std_u8 = s.parse::<u8>();
        let ours = parse_uint_exec(&chars(s), 255);
        assert_eq!(ours.is_ok(), std_u8.is_ok(), "{:?}", s);
        if let Ok(v) = std_u8 {
            assert_eq!(ours, Ok(v as u32));
        }
        let std_u32 = s.parse::<u32>();
        let ours = parse_uint_exec(&chars(s), u32::MAX);
        assert_eq!(ours.is_ok(), std_u32.is_ok(), "{:?}", s);
        if let Ok(v) = std_u32 {
            assert_eq!(ours, Ok(v));
        }
    }
}

#[test]
fn char_tokens() {
    assert_eq!(parse_char_exec(&chars("*")), Ok('*'));
    assert_eq!(parse_char_exec(&chars("é")), Ok('é'));
    assert_eq!(parse_char_exec(&chars("ab")), Err(CharErrorKind::TooManyChars));
    assert_eq!(parse_char_exec(&chars("")), Err(CharErrorKind::EmptyString));
}

#[test]
fn white_space_splitting() {
    let s = chars(" a\tbc \u{a0}d\u{3000}\r\n");
    let t = split_whitespace(&s, 0, s.len());
    assert_eq!(t, vec![chars("a"), chars("bc"), chars("d")]);
    assert_eq!(split_whitespace(&s, 2, 4), vec![chars("b")]);
    assert!(split_whitespace(&s, 0, 1).is_empty());
    for c in ['\t', '\n', '\u{b}', '\u{c}', '\r', ' ', '\u{85}', '\u{a0}', '\u{1680}', '\u{2000}', '\u{200a}', '\u{2028}', '\u{2029}', '\u{202f}', '\u{205f}', '\u{3000}', 'a', '\u{200b}', '0'] {
        assert_eq!(is_whitespace(c), c.is_whitespace(), "{:?}", c);
    }
}

#[test]
fn decimal_numerals() {
    let mut s = String::from("x");
    push_dec(&mut s, 0);
    push_dec(&mut s, 7);
    push_dec(&mut s, 1234567890123);
    assert_eq!(s, "x071234567890123");
}
