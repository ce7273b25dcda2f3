use json_parse::error::ParseError;
use json_parse::parser::JSONString;
use json_parse::value::JSONTYPE;

/// Reads `body` as the rest of a string whose opening quote was consumed.
fn read(body: &str) -> Result<String, ParseError> {
    let mut r = JSONString::new(body.to_string());
    match r.parse_string() {
        Ok(JSONTYPE::String(s)) => Ok(s),
        Ok(other) => panic!("not a string: {:?}", other),
        Err(e) => {
            assert_eq!(r.position(), 0);
            Err(e)
        }
    }
}

#[test]
fn plain_string() {
    assert_eq!(read("hello\""), Ok("hello".to_string()));
    assert_eq!(read("\""), Ok(String::new()));
}

#[test]
fn string_ends_at_the_first_unescaped_quote() {
    let mut r = JSONString::new("ab\"cd\"".to_string());
    assert!(matches!(r.parse_string(), Ok(JSONTYPE::String(s)) if s == "ab"));
    assert_eq!(r.position(), 3);
}

#[test]
fn letters_that_name_escapes_are_plain_without_a_backslash() {
    assert_eq!(read("bfnrtu\""), Ok("bfnrtu".to_string()));
}

#[test]
fn the_short_escapes() {
    assert_eq!(read("\\\"\""), Ok("\"".to_string()));
    assert_eq!(read("\\\\\""), Ok("\\".to_string()));
    assert_eq!(read("\\b\""), Ok("\u{8}".to_string()));
    assert_eq!(read("\\f\""), Ok("\u{c}".to_string()));
    assert_eq!(read("\\n\""), Ok("\n".to_string()));
    assert_eq!(read("\\r\""), Ok("\r".to_string()));
    assert_eq!(read("\\t\""), Ok("\t".to_string()));
}

#[test]
fn an_escape_is_over_after_one_character() {
    assert_eq!(read("\\\"b\""), Ok("\"b".to_string()));
    assert_eq!(read("\\\\n\""), Ok("\\n".to_string()));
    assert_eq!(read("a\\nb\\tc\""), Ok("a\nb\tc".to_string()));
}

#[test]
fn escaped_quote_does_not_end_the_string() {
    assert_eq!(read("say \\\"hi\\\"\" rest"), Ok("say \"hi\"".to_string()));
    assert_eq!(read("\\\""), Err(ParseError::UnterminatedString));
}

#[test]
fn unknown_escape_is_an_error() {
    assert_eq!(read("\\x41\""), Err(ParseError::InvalidEscape { ch: 'x' }));
    assert_eq!(read("\\/\""), Err(ParseError::InvalidEscape { ch: '/' }));
    assert_eq!(read("\\U0041\""), Err(ParseError::InvalidEscape { ch: 'U' }));
    assert_eq!(read("ok\\ \""), Err(ParseError::InvalidEscape { ch: ' ' }));
    assert_eq!(read("\\é\""), Err(ParseError::InvalidEscape { ch: 'é' }));
}

#[test]
fn unicode_escape() {
    assert_eq!(read("\\u0041\""), Ok("A".to_string()));
    assert_eq!(read("\\u00e9\\u00E9\""), Ok("éé".to_string()));
    assert_eq!(read("\\u4e2d\\u6587\""), Ok("中文".to_string()));
    assert_eq!(read("\\u0000\""), Ok("\0".to_string()));
    assert_eq!(read("\\uffff\""), Ok("\u{ffff}".to_string()));
    assert_eq!(read("\\uFFFF\""), Ok("\u{ffff}".to_string()));
    assert_eq!(read("\\ud7ff\\ue000\""), Ok("\u{d7ff}\u{e000}".to_string()));
}

#[test]
fn unicode_escape_takes_exactly_four_digits() {
    assert_eq!(read("\\u00411\""), Ok("A1".to_string()));
    assert_eq!(read("x\\u0062f\""), Ok("xbf".to_string()));
}

#[test]
fn hex_digits_that_name_escapes_are_digits_inside_a_unicode_escape() {
    assert_eq!(read("\\u00bf\""), Ok("\u{bf}".to_string()));
    assert_eq!(read("\\ubbbb\""), Ok("\u{bbbb}".to_string()));
    assert_eq!(read("\\ufffb\""), Ok("\u{fffb}".to_string()));
}

#[test]
fn every_unicode_escape_starts_afresh() {
    assert_eq!(read("\\u0041\\u0042\""), Ok("AB".to_string()));
    assert_eq!(read("\\uffff\\u0001\""), Ok("\u{ffff}\u{1}".to_string()));
}

#[test]
fn unicode_escape_with_a_bad_digit() {
    assert_eq!(read("\\u00g1\""), Err(ParseError::InvalidUnicodeEscape));
    assert_eq!(read("\\u004\""), Err(ParseError::InvalidUnicodeEscape));
    assert_eq!(read("\\u\""), Err(ParseError::InvalidUnicodeEscape));
    assert_eq!(read("\\u-041\""), Err(ParseError::InvalidUnicodeEscape));
    assert_eq!(read("\\u\\u0041\""), Err(ParseError::InvalidUnicodeEscape));
}

#[test]
fn surrogates_are_not_joined() {
    assert_eq!(read("\\ud83d\\ude00\""), Err(ParseError::InvalidUnicodeEscape));
    assert_eq!(read("\\ud800\""), Err(ParseError::InvalidUnicodeEscape));
    assert_eq!(read("\\udfff\""), Err(ParseError::InvalidUnicodeEscape));
    assert_eq!(read("\\uDBFF\""), Err(ParseError::InvalidUnicodeEscape));
}

#[test]
fn unterminated_strings() {
    assert_eq!(read(""), Err(ParseError::UnterminatedString));
    assert_eq!(read("abc"), Err(ParseError::UnterminatedString));
    assert_eq!(read("abc\\"), Err(ParseError::UnterminatedString));
    assert_eq!(read("abc\\n"), Err(ParseError::UnterminatedString));
    assert_eq!(read("\\u"), Err(ParseError::UnterminatedString));
    assert_eq!(read("\\u00"), Err(ParseError::UnterminatedString));
    assert_eq!(read("\\u004"), Err(ParseError::UnterminatedString));
    assert_eq!(read("\\u0041"), Err(ParseError::UnterminatedString));
}

#[test]
fn first_problem_wins_inside_a_string() {
    assert_eq!(read("\\q\\u00g1"), Err(ParseError::InvalidEscape { ch: 'q' }));
    assert_eq!(read("\\u00g1\\q"), Err(ParseError::InvalidUnicodeEscape));
    assert_eq!(read("\\ud800\\q"), Err(ParseError::InvalidUnicodeEscape));
}

#[test]
fn raw_control_characters_and_other_scripts_are_kept() {
    assert_eq!(read("a\nb\tc\""), Ok("a\nb\tc".to_string()));
    assert_eq!(read("日本語 😀\""), Ok("日本語 😀".to_string()));
}

#[test]
fn long_string() {
    let body = format!("{}\"", "ab\\n".repeat(50_000));
    let s = read(&body).unwrap();
    assert_eq!(s.len(), 150_000);
    assert!(s.ends_with("ab\n"));
}
