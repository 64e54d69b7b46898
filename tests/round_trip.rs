use json_parser::json::JsonValue;
use json_parser::parse::parse;

fn assert_round_trip(doc: &str) {
    let first = parse(doc).unwrap();
    let text = first.to_string();
    let second = parse(&text).unwrap();
    assert_eq!(first, second, "document {:?} serialized as {:?}", doc, text);
}

#[test]
fn round_trip_scalars() {
    assert_round_trip("null");
    assert_round_trip(" true ");
    assert_round_trip("false");
    assert_round_trip("0");
    assert_round_trip("-0.0e-0");
    assert_round_trip("123456789012345678901234567890");
    assert_round_trip("\"\"");
}

#[test]
fn round_trip_escapes() {
    assert_round_trip("\"\\\" \\\\ \\/ \\b \\f \\n \\r \\t\"");
    assert_round_trip("\"tab\there\"");
    assert_round_trip("\"h\u{e9}llo w\u{f6}rld \u{1F600}\"");
}

#[test]
fn round_trip_nested() {
    assert_round_trip("[[[]],{},{\"a\":{\"b\":[1,{\"c\":null}]}}]");
    assert_round_trip("{\"k\":1,\"k\":[2],\"j\":\"x\"}");
    assert_round_trip("[1, 2.5, -3e10, 4E-2, \"5\"]");
}

#[test]
fn serialize_is_deterministic() {
    let v = JsonValue::Object(vec![
        ("z".to_string(), JsonValue::Array(vec![JsonValue::Null, JsonValue::Bool(true)])),
        ("a".to_string(), JsonValue::Number("-1.5".to_string())),
    ]);
    let once = v.to_string();
    let twice = v.to_string();
    assert_eq!(once, twice);
    assert_eq!(once, "{\"z\":[null,true],\"a\":-1.5}");
}

#[test]
fn serialize_empty_containers() {
    assert_eq!(JsonValue::Array(vec![]).to_string(), "[]");
    assert_eq!(JsonValue::Object(vec![]).to_string(), "{}");
    assert_eq!(JsonValue::String(String::new()).to_string(), "\"\"");
}
