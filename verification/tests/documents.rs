use json_parse::error::{Literal, ParseError};
use json_parse::parser::JSONString;
use json_parse::value::JSONTYPE;
use std::collections::BTreeMap;

/// A value with its numbers as floating-point numbers and its objects as maps.
#[derive(Debug, PartialEq)]
enum Value {
    Null,
    Bool(bool),
    String(String),
    Number(f64),
    Object(BTreeMap<String, Value>),
    Array(Vec<Value>),
}

fn lift(v: &JSONTYPE) -> Value {
    match v {
        JSONTYPE::Null => Value::Null,
        JSONTYPE::Bool(b) => Value::Bool(*b),
        JSONTYPE::String(s) => Value::String(s.clone()),
        JSONTYPE::Number(t) => Value::Number(t.parse::<f64>().unwrap()),
        JSONTYPE::Object(entries) => {
            let mut m = BTreeMap::new();
            for (k, x) in entries {
                assert!(m.insert(k.clone(), lift(x)).is_none());
            }
            Value::Object(m)
        }
        JSONTYPE::Array(items) => Value::Array(items.iter().map(lift).collect()),
    }
}

fn parse(text: &str) -> Result<Value, ParseError> {
    let mut reader = JSONString::new(text.to_string());
    reader.parse().map(|v| lift(&v))
}

fn object(members: Vec<(&str, Value)>) -> Value {
    Value::Object(members.into_iter().map(|(k, v)| (k.to_string(), v)).collect())
}

fn text(s: &str) -> Value {
    Value::String(s.to_string())
}

#[test]
fn empty_object_and_empty_array() {
    assert_eq!(parse("{}"), Ok(object(vec![])));
    assert_eq!(parse("[]"), Ok(Value::Array(vec![])));
}

#[test]
fn object_with_one_number() {
    assert_eq!(parse("{\"a\":1}"), Ok(object(vec![("a", Value::Number(1.0))])));
}

#[test]
fn array_of_three_numbers() {
    assert_eq!(
        parse("[1,2,3]"),
        Ok(Value::Array(vec![Value::Number(1.0), Value::Number(2.0), Value::Number(3.0)]))
    );
}

#[test]
fn unicode_escape_in_a_member() {
    assert_eq!(parse("{\"s\":\"\\u0041\"}"), Ok(object(vec![("s", text("A"))])));
}

#[test]
fn trailing_comma_changes_nothing() {
    assert_eq!(parse("{\"a\":1,}"), Ok(object(vec![("a", Value::Number(1.0))])));
    assert_eq!(parse("{\"a\":1,}"), parse("{\"a\":1}"));
    assert_eq!(parse("[1,2,]"), parse("[1,2]"));
}

#[test]
fn commas_may_lead_double_or_be_missing() {
    let expected = Ok(Value::Array(vec![Value::Number(1.0), Value::Number(2.0)]));
    assert_eq!(parse("[,1,2]"), expected);
    assert_eq!(parse("[1,,2]"), expected);
    assert_eq!(parse("[1 2]"), expected);
    let expected = Ok(object(vec![("a", Value::Null), ("b", Value::Bool(true))]));
    assert_eq!(parse("{,\"a\":null,,\"b\":true,}"), expected);
    assert_eq!(parse("{\"a\":null\"b\":true}"), expected);
}

#[test]
fn top_level_scalar_is_rejected() {
    assert_eq!(parse("null"), Err(ParseError::UnexpectedCharacter { at: 0 }));
    assert_eq!(parse("true"), Err(ParseError::UnexpectedCharacter { at: 0 }));
    assert_eq!(parse("  42"), Err(ParseError::UnexpectedCharacter { at: 2 }));
    assert_eq!(parse("\"hello\""), Err(ParseError::UnexpectedCharacter { at: 0 }));
    assert_eq!(parse("\"a\\nb\""), Err(ParseError::UnexpectedCharacter { at: 0 }));
}

#[test]
fn empty_input_ends_unexpectedly() {
    assert_eq!(parse(""), Err(ParseError::UnexpectedEndOfInput));
    assert_eq!(parse(" \n\t "), Err(ParseError::UnexpectedEndOfInput));
}

#[test]
fn unterminated_object() {
    assert_eq!(parse("{"), Err(ParseError::UnterminatedObject));
    assert_eq!(parse("{\"a\":1"), Err(ParseError::UnterminatedObject));
    assert_eq!(parse("{\"a\":1,  "), Err(ParseError::UnterminatedObject));
}

#[test]
fn unterminated_array() {
    assert_eq!(parse("["), Err(ParseError::UnterminatedArray));
    assert_eq!(parse("[1, 2"), Err(ParseError::UnterminatedArray));
    assert_eq!(parse("[[]"), Err(ParseError::UnterminatedArray));
}

#[test]
fn escaped_newline_is_a_newline() {
    let mut reader = JSONString::new("\"a\\nb\"".to_string());
    let value = reader.parse_value().unwrap();
    assert_eq!(lift(&value), text("a\nb"));
    assert_eq!(parse("[\"a\\nb\"]"), Ok(Value::Array(vec![text("a\nb")])));
    match value {
        JSONTYPE::String(s) => {
            assert_eq!(s.chars().count(), 3);
            assert_eq!(s.chars().nth(1), Some('\n'));
        }
        other => panic!("not a string: {:?}", other),
    }
}

#[test]
fn duplicate_key_last_write_wins() {
    assert_eq!(parse("{\"a\":1,\"a\":2}"), Ok(object(vec![("a", Value::Number(2.0))])));
    assert_eq!(
        parse("{\"a\":1,\"b\":true,\"a\":[]}"),
        Ok(object(vec![("a", Value::Array(vec![])), ("b", Value::Bool(true))]))
    );
}

#[test]
fn duplicate_key_keeps_its_first_place() {
    let mut reader = JSONString::new("{\"a\":1,\"b\":2,\"a\":3}".to_string());
    match reader.parse().unwrap() {
        JSONTYPE::Object(entries) => {
            assert_eq!(entries.len(), 2);
            assert_eq!(entries[0].0, "a");
            assert!(matches!(&entries[0].1, JSONTYPE::Number(t) if t == "3"));
            assert_eq!(entries[1].0, "b");
        }
        other => panic!("not an object: {:?}", other),
    }
}

fn person() -> Value {
    object(vec![
        ("name", text("json")),
        ("age", Value::Number(18.0)),
        ("is_student", Value::Bool(true)),
        (
            "score",
            Value::Array(vec![
                Value::Number(1.0),
                Value::Number(2.0),
                Value::Number(3.0),
                Value::Number(4.0),
                Value::Number(5.0),
            ]),
        ),
        ("info", object(vec![("address", text("beijing")), ("phone", text("123456789"))])),
    ])
}

const PERSON: &str = "
    {
        \"name\":\"json\",
        \"age\":18,
        \"is_student\":true,
        \"score\":[1,2,3,4,5],
        \"info\":{
            \"address\":\"beijing\",
            \"phone\":\"123456789\"
        }
    }";

#[test]
fn nested_document_mirrors_the_text() {
    assert_eq!(parse(PERSON), Ok(person()));
}

#[test]
fn array_of_nested_documents() {
    let document = format!("\n [ {} ,{}\n ]", PERSON, PERSON);
    assert_eq!(parse(&document), Ok(Value::Array(vec![person(), person()])));
}

#[test]
fn what_follows_the_document_is_ignored() {
    assert_eq!(parse("[] trailing"), Ok(Value::Array(vec![])));
    let mut reader = JSONString::new("  {} }".to_string());
    assert!(reader.parse().is_ok());
    assert_eq!(reader.position(), 4);
}

#[test]
fn all_kinds_of_values() {
    assert_eq!(
        parse("[null, true, false, \"x\", 2.5, {}, []]"),
        Ok(Value::Array(vec![
            Value::Null,
            Value::Bool(true),
            Value::Bool(false),
            text("x"),
            Value::Number(2.5),
            object(vec![]),
            Value::Array(vec![]),
        ]))
    );
}

#[test]
fn numbers_in_many_shapes() {
    assert_eq!(
        parse("[0, 10, 1.5, 1e3, 1E3, 2e-2, 3e+2, 7., 1.e1, 0.25]"),
        Ok(Value::Array(vec![
            Value::Number(0.0),
            Value::Number(10.0),
            Value::Number(1.5),
            Value::Number(1000.0),
            Value::Number(1000.0),
            Value::Number(0.02),
            Value::Number(300.0),
            Value::Number(7.0),
            Value::Number(10.0),
            Value::Number(0.25),
        ]))
    );
}

#[test]
fn one_and_one_point_zero_are_the_same_number() {
    assert_eq!(parse("[1]"), parse("[1.0]"));
    assert_eq!(parse("[100]"), parse("[1e2]"));
}

#[test]
fn malformed_number_is_read_as_one_token() {
    assert_eq!(parse("[1.2.3]"), Err(ParseError::InvalidNumber { text: "1.2.3".to_string() }));
    assert_eq!(parse("[1--2]"), Err(ParseError::InvalidNumber { text: "1--2".to_string() }));
    assert_eq!(parse("[1e]"), Err(ParseError::InvalidNumber { text: "1e".to_string() }));
    assert_eq!(parse("[12e+, 4]"), Err(ParseError::InvalidNumber { text: "12e+".to_string() }));
}

#[test]
fn minus_starts_no_value() {
    assert_eq!(parse("[-1]"), Err(ParseError::UnexpectedCharacter { at: 1 }));
    assert_eq!(parse("{\"a\": -1}"), Err(ParseError::UnexpectedCharacter { at: 6 }));
    assert_eq!(parse("[.5]"), Err(ParseError::UnexpectedCharacter { at: 1 }));
    assert_eq!(parse("[+5]"), Err(ParseError::UnexpectedCharacter { at: 1 }));
}

#[test]
fn unexpected_character_in_a_value() {
    assert_eq!(parse("[x]"), Err(ParseError::UnexpectedCharacter { at: 1 }));
    assert_eq!(parse("[1, ?]"), Err(ParseError::UnexpectedCharacter { at: 4 }));
    assert_eq!(parse("[nullx]"), Err(ParseError::UnexpectedCharacter { at: 5 }));
}

#[test]
fn invalid_literals() {
    assert_eq!(parse("[nul]"), Err(ParseError::InvalidLiteral { expected: Literal::Null }));
    assert_eq!(parse("[nul"), Err(ParseError::InvalidLiteral { expected: Literal::Null }));
    assert_eq!(parse("[n"), Err(ParseError::InvalidLiteral { expected: Literal::Null }));
    assert_eq!(parse("[tru e]"), Err(ParseError::InvalidLiteral { expected: Literal::True }));
    assert_eq!(parse("[True]"), Err(ParseError::UnexpectedCharacter { at: 1 }));
    assert_eq!(parse("[fals]"), Err(ParseError::InvalidLiteral { expected: Literal::False }));
    assert_eq!(parse("{\"a\":fulse}"), Err(ParseError::InvalidLiteral { expected: Literal::False }));
}

#[test]
fn member_needs_a_colon() {
    assert_eq!(parse("{\"a\" 1}"), Err(ParseError::UnexpectedCharacter { at: 5 }));
    assert_eq!(parse("{\"a\"}"), Err(ParseError::UnexpectedCharacter { at: 4 }));
    assert_eq!(parse("{\"a\""), Err(ParseError::UnexpectedEndOfInput));
    assert_eq!(parse("{\"a\"   "), Err(ParseError::UnexpectedEndOfInput));
    assert_eq!(parse("{\"a\":"), Err(ParseError::UnexpectedEndOfInput));
    assert_eq!(parse("{\"a\":}"), Err(ParseError::UnexpectedCharacter { at: 5 }));
}

#[test]
fn any_character_opens_a_key() {
    assert_eq!(parse("{'a\":1}"), Ok(object(vec![("a", Value::Number(1.0))])));
    assert_eq!(parse("{a\":1}"), Ok(object(vec![("", Value::Number(1.0))])));
    assert_eq!(parse("{1:2}"), Err(ParseError::UnterminatedString));
}

#[test]
fn whitespace_between_tokens() {
    assert_eq!(
        parse(" \t\r\n{ \"a\" \n : \t [ 1 , 2 ] \r\n } "),
        Ok(object(vec![("a", Value::Array(vec![Value::Number(1.0), Value::Number(2.0)]))]))
    );
    assert_eq!(parse("\u{a0}[\u{2003}1\u{3000}]"), Ok(Value::Array(vec![Value::Number(1.0)])));
}

#[test]
fn text_outside_ascii_is_counted_in_code_points() {
    assert_eq!(
        parse("{\"ключ\":\"值\", \"é\":[\"😀\"]}"),
        Ok(object(vec![("ключ", text("值")), ("é", Value::Array(vec![text("😀")]))]))
    );
    assert_eq!(parse("[\"é\", x]"), Err(ParseError::UnexpectedCharacter { at: 6 }));
}

#[test]
fn nesting_within_the_limit() {
    let mut reader = JSONString::with_max_depth("[[[]]]".to_string(), 3);
    let value = reader.parse().unwrap();
    assert_eq!(
        lift(&value),
        Value::Array(vec![Value::Array(vec![Value::Array(vec![])])])
    );
    let mut reader = JSONString::with_max_depth("{\"a\":[{}]}".to_string(), 3);
    assert!(reader.parse().is_ok());
}

#[test]
fn nesting_beyond_the_limit() {
    let mut reader = JSONString::with_max_depth("[[[]]]".to_string(), 2);
    assert_eq!(reader.parse().unwrap_err(), ParseError::NestingTooDeep);
    let mut reader = JSONString::with_max_depth("{\"a\":[{}]}".to_string(), 2);
    assert_eq!(reader.parse().unwrap_err(), ParseError::NestingTooDeep);
    let mut reader = JSONString::with_max_depth("[]".to_string(), 0);
    assert_eq!(reader.parse().unwrap_err(), ParseError::NestingTooDeep);
    let mut reader = JSONString::with_max_depth("[1, [2], 3]".to_string(), 1);
    assert_eq!(reader.parse().unwrap_err(), ParseError::NestingTooDeep);
}

#[test]
fn default_limit_is_128_levels() {
    let deep = |n: usize| format!("{}{}", "[".repeat(n), "]".repeat(n));
    assert!(JSONString::new(deep(128)).parse().is_ok());
    assert_eq!(JSONString::new(deep(129)).parse().unwrap_err(), ParseError::NestingTooDeep);
    assert_eq!(
        JSONString::new("[".repeat(100_000)).parse().unwrap_err(),
        ParseError::NestingTooDeep
    );
}

#[test]
fn siblings_do_not_add_to_the_depth() {
    let mut reader = JSONString::with_max_depth("[[],[],{},[[]]]".to_string(), 3);
    assert!(reader.parse().is_ok());
}

#[test]
fn first_problem_in_scan_order_is_reported() {
    assert_eq!(parse("[1.2.3, nul]"), Err(ParseError::InvalidNumber { text: "1.2.3".to_string() }));
    assert_eq!(parse("[nul, 1.2.3]"), Err(ParseError::InvalidLiteral { expected: Literal::Null }));
    assert_eq!(parse("[\"\\q\", 1.2.3"), Err(ParseError::InvalidEscape { ch: 'q' }));
}

#[test]
fn large_flat_array() {
    let n = 20_000;
    let document = format!("[{}]", vec!["7"; n].join(","));
    match parse(&document) {
        Ok(Value::Array(items)) => {
            assert_eq!(items.len(), n);
            assert!(items.iter().all(|x| *x == Value::Number(7.0)));
        }
        other => panic!("not an array: {:?}", other),
    }
}
