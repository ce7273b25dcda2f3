use json_parse::parser::JSONString;
use json_parse::value::{insert_member, JSONTYPE};

fn parse(text: &str) -> JSONTYPE {
    JSONString::new(text.to_string()).parse().unwrap()
}

fn number(text: &str) -> JSONTYPE {
    JSONTYPE::Number(text.to_string())
}

fn keys(entries: &[(String, JSONTYPE)]) -> Vec<&str> {
    entries.iter().map(|(k, _)| k.as_str()).collect()
}

#[test]
fn get_finds_a_member_by_its_key() {
    let v = parse("{\"a\": 1, \"b\": \"two\", \"\": null}");
    assert!(matches!(v.get("a"), Some(JSONTYPE::Number(t)) if t == "1"));
    assert!(matches!(v.get("b"), Some(JSONTYPE::String(s)) if s == "two"));
    assert!(matches!(v.get(""), Some(JSONTYPE::Null)));
}

#[test]
fn get_of_a_missing_key() {
    let v = parse("{\"a\": 1, \"abc\": 2}");
    assert!(v.get("b").is_none());
    assert!(v.get("ab").is_none());
    assert!(v.get("A").is_none());
    assert!(v.get("").is_none());
    assert!(parse("{}").get("a").is_none());
}

#[test]
fn get_on_what_is_no_object() {
    assert!(parse("[1, 2]").get("0").is_none());
    assert!(JSONTYPE::Null.get("a").is_none());
    assert!(JSONTYPE::Bool(true).get("a").is_none());
    assert!(JSONTYPE::String("a".to_string()).get("a").is_none());
    assert!(number("1").get("1").is_none());
}

#[test]
fn get_sees_the_last_value_of_a_repeated_key() {
    let v = parse("{\"k\": 1, \"k\": 2, \"k\": 3}");
    assert!(matches!(v.get("k"), Some(JSONTYPE::Number(t)) if t == "3"));
}

#[test]
fn get_reaches_into_nested_objects() {
    let v = parse("{\"info\": {\"address\": \"beijing\", \"phone\": \"123456789\"}}");
    let info = v.get("info").unwrap();
    assert!(matches!(info.get("address"), Some(JSONTYPE::String(s)) if s == "beijing"));
    assert!(matches!(info.get("phone"), Some(JSONTYPE::String(s)) if s == "123456789"));
    assert!(info.get("info").is_none());
}

#[test]
fn insert_member_appends_a_new_key() {
    let mut entries = Vec::new();
    insert_member(&mut entries, "a".to_string(), number("1"));
    insert_member(&mut entries, "b".to_string(), JSONTYPE::Null);
    insert_member(&mut entries, "".to_string(), JSONTYPE::Bool(false));
    assert_eq!(keys(&entries), vec!["a", "b", ""]);
    assert!(matches!(&entries[0].1, JSONTYPE::Number(t) if t == "1"));
    assert!(matches!(&entries[1].1, JSONTYPE::Null));
    assert!(matches!(&entries[2].1, JSONTYPE::Bool(false)));
}

#[test]
fn insert_member_replaces_the_value_of_a_known_key() {
    let mut entries = Vec::new();
    insert_member(&mut entries, "a".to_string(), number("1"));
    insert_member(&mut entries, "b".to_string(), number("2"));
    insert_member(&mut entries, "c".to_string(), number("3"));
    insert_member(&mut entries, "b".to_string(), JSONTYPE::Bool(true));
    assert_eq!(keys(&entries), vec!["a", "b", "c"]);
    assert!(matches!(&entries[1].1, JSONTYPE::Bool(true)));
    insert_member(&mut entries, "a".to_string(), JSONTYPE::Null);
    insert_member(&mut entries, "c".to_string(), JSONTYPE::Null);
    assert_eq!(keys(&entries), vec!["a", "b", "c"]);
    assert!(matches!(&entries[0].1, JSONTYPE::Null));
    assert!(matches!(&entries[2].1, JSONTYPE::Null));
}

#[test]
fn insert_member_replaces_the_last_of_equal_keys() {
    let mut entries = vec![
        ("a".to_string(), number("1")),
        ("b".to_string(), number("2")),
        ("a".to_string(), number("3")),
    ];
    insert_member(&mut entries, "a".to_string(), number("4"));
    assert_eq!(keys(&entries), vec!["a", "b", "a"]);
    assert!(matches!(&entries[0].1, JSONTYPE::Number(t) if t == "1"));
    assert!(matches!(&entries[2].1, JSONTYPE::Number(t) if t == "4"));
    let v = JSONTYPE::Object(entries);
    assert!(matches!(v.get("a"), Some(JSONTYPE::Number(t)) if t == "4"));
}

#[test]
fn inserted_members_are_found() {
    let mut entries = Vec::new();
    insert_member(&mut entries, "x".to_string(), number("1"));
    insert_member(&mut entries, "y".to_string(), number("2"));
    insert_member(&mut entries, "x".to_string(), number("3"));
    let v = JSONTYPE::Object(entries);
    assert!(matches!(v.get("x"), Some(JSONTYPE::Number(t)) if t == "3"));
    assert!(matches!(v.get("y"), Some(JSONTYPE::Number(t)) if t == "2"));
    assert!(v.get("z").is_none());
}

#[test]
fn number_keeps_its_literal() {
    match parse("[1, 1.0, 1e0]") {
        JSONTYPE::Array(items) => {
            let texts: Vec<&str> = items
                .iter()
                .map(|x| match x {
                    JSONTYPE::Number(t) => t.as_str(),
                    other => panic!("not a number: {:?}", other),
                })
                .collect();
            assert_eq!(texts, vec!["1", "1.0", "1e0"]);
            for t in texts {
                assert_eq!(t.parse::<f64>().unwrap(), 1.0);
            }
        }
        other => panic!("not an array: {:?}", other),
    }
}

#[test]
fn every_number_of_a_document_is_a_floating_point_literal() {
    fn check(v: &JSONTYPE) {
        match v {
            JSONTYPE::Number(t) => assert!(t.parse::<f64>().is_ok(), "{:?}", t),
            JSONTYPE::Object(entries) => entries.iter().for_each(|(_, x)| check(x)),
            JSONTYPE::Array(items) => items.iter().for_each(check),
            _ => {}
        }
    }
    check(&parse("{\"a\": [1, 2.5, 3e8, 4., 5e-1], \"b\": {\"c\": 0, \"d\": [9E+2]}}"));
}

#[test]
fn array_keeps_the_order_of_its_elements() {
    match parse("[\"c\", \"a\", \"b\", \"a\"]") {
        JSONTYPE::Array(items) => {
            let texts: Vec<String> = items
                .into_iter()
                .map(|x| match x {
                    JSONTYPE::String(s) => s,
                    other => panic!("not a string: {:?}", other),
                })
                .collect();
            assert_eq!(texts, vec!["c", "a", "b", "a"]);
        }
        other => panic!("not an array: {:?}", other),
    }
}

#[test]
fn values_can_be_printed_for_debugging() {
    let shown = format!("{:?}", parse("{\"a\": [null, true]}"));
    assert!(shown.contains("Object"));
    assert!(shown.contains("Array"));
    assert!(shown.contains("Null"));
    assert!(shown.contains("Bool(true)"));
}
