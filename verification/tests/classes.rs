use json_parse::chars::{
    hex_digit_value, is_decimal_digit, is_number_char, is_sign_char, is_whitespace, short_escape_of,
};
use json_parse::number::is_decimal_literal;

fn literal(text: &str) -> bool {
    let chars: Vec<char> = text.chars().collect();
    is_decimal_literal(&chars)
}

#[test]
fn whitespace_is_the_unicode_property() {
    let mut count = 0;
    for code in 0..=0x10FFFFu32 {
        if let Some(c) = char::from_u32(code) {
            assert_eq!(is_whitespace(c), c.is_whitespace(), "U+{:04X}", code);
            if is_whitespace(c) {
                count += 1;
            }
        }
    }
    assert_eq!(count, 25);
}

#[test]
fn whitespace_samples() {
    for c in [' ', '\t', '\n', '\r', '\u{b}', '\u{c}', '\u{a0}', '\u{3000}'] {
        assert!(is_whitespace(c), "{:?}", c);
    }
    for c in ['a', '0', ',', '{', '\u{0}', '\u{8}', '\u{e}', '\u{200b}', '\u{feff}', '越'] {
        assert!(!is_whitespace(c), "{:?}", c);
    }
}

#[test]
fn decimal_digits_are_the_ascii_digits() {
    for code in 0..=0x10FFFFu32 {
        if let Some(c) = char::from_u32(code) {
            assert_eq!(is_decimal_digit(c), c.is_digit(10), "U+{:04X}", code);
        }
    }
    assert!(!is_decimal_digit('٣'));
}

#[test]
fn hex_digit_values() {
    for code in 0..=0x10FFFFu32 {
        if let Some(c) = char::from_u32(code) {
            assert_eq!(hex_digit_value(c), c.to_digit(16), "U+{:04X}", code);
        }
    }
    assert_eq!(hex_digit_value('0'), Some(0));
    assert_eq!(hex_digit_value('9'), Some(9));
    assert_eq!(hex_digit_value('a'), Some(10));
    assert_eq!(hex_digit_value('F'), Some(15));
    assert_eq!(hex_digit_value('g'), None);
}

#[test]
fn number_characters() {
    for c in "0123456789.eE+-".chars() {
        assert!(is_number_char(c), "{:?}", c);
    }
    for c in "abcdfxX,_ /:\u{0}٣".chars() {
        assert!(!is_number_char(c), "{:?}", c);
    }
    assert!(is_sign_char('+') && is_sign_char('-'));
    assert!(!is_sign_char('.') && !is_sign_char('1') && !is_sign_char('e'));
}

#[test]
fn short_escapes() {
    assert_eq!(short_escape_of('"'), Some('"'));
    assert_eq!(short_escape_of('\\'), Some('\\'));
    assert_eq!(short_escape_of('b'), Some('\u{8}'));
    assert_eq!(short_escape_of('f'), Some('\u{c}'));
    assert_eq!(short_escape_of('n'), Some('\n'));
    assert_eq!(short_escape_of('r'), Some('\r'));
    assert_eq!(short_escape_of('t'), Some('\t'));
    for c in ['u', '/', 'a', 'N', '0', ' ', '\''] {
        assert_eq!(short_escape_of(c), None, "{:?}", c);
    }
}

#[test]
fn decimal_literals() {
    for text in [
        "0", "7", "42", "007", "1.5", "1.", ".5", "0.0", "1e5", "1E5", "1e+5", "1e-5", "1.e5",
        ".5e5", "1.5E-10", "+1", "-1", "+.5", "-5.", "-1.25e+3", "1e0005", "123456789012345678901234567890",
    ] {
        assert!(literal(text), "{:?}", text);
        assert!(text.parse::<f64>().is_ok(), "{:?}", text);
    }
}

#[test]
fn texts_that_are_no_decimal_literals() {
    for text in [
        "", ".", "+", "-", "e", "E", "e5", ".e5", "+e5", "1e", "1e+", "1e-", "1.2.3", "1..2",
        "1--2", "--1", "+-1", "1-", "1+1", "1e5.5", "1e5e5", "1ee5", "1e++5", "1.5.", "e.5", "-.",
        "-.e1", "1e5+", "1.-5",
    ] {
        assert!(!literal(text), "{:?}", text);
        assert!(text.parse::<f64>().is_err(), "{:?}", text);
    }
}

#[test]
fn texts_with_other_characters_are_no_decimal_literals() {
    for text in ["1 ", " 1", "1a", "0x10", "1_000", "١", "1,5", "1f"] {
        assert!(!literal(text), "{:?}", text);
    }
}

#[test]
fn decimal_literals_are_what_the_float_parser_accepts() {
    let alphabet: Vec<char> = "01.eE+-".chars().collect();
    let mut checked = 0;
    for len in 0..=6usize {
        let mut index = vec![0usize; len];
        loop {
            let text: String = index.iter().map(|&i| alphabet[i]).collect();
            assert_eq!(literal(&text), text.parse::<f64>().is_ok(), "{:?}", text);
            checked += 1;
            let mut k = 0;
            while k < len {
                index[k] += 1;
                if index[k] < alphabet.len() {
                    break;
                }
                index[k] = 0;
                k += 1;
            }
            if k == len {
                break;
            }
        }
    }
    assert_eq!(checked, 1 + 7 + 49 + 343 + 2401 + 16807 + 117649);
}
