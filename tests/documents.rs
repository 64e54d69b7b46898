use json_parser::json::JsonValue;
use json_parser::parse::{parse, ParseError, Parser};
use json_parser::token::{tokenize, LexError, Lexer, Token};

fn number_of(v: &JsonValue) -> f64 {
    match v {
        JsonValue::Number(n) => n.parse::<f64>().unwrap(),
        other => panic!("not a number: {:?}", other),
    }
}

fn member<'a>(v: &'a JsonValue, key: &str) -> &'a JsonValue {
    match v {
        JsonValue::Object(m) => &m.iter().find(|(k, _)| k == key).unwrap().1,
        other => panic!("not an object: {:?}", other),
    }
}

#[test]
fn empty_object_and_array() {
    assert_eq!(parse("{}"), Ok(JsonValue::Object(vec![])));
    assert_eq!(parse("[]"), Ok(JsonValue::Array(vec![])));
}

#[test]
fn array_of_numbers() {
    let v = parse("[1,2,3]").unwrap();
    match &v {
        JsonValue::Array(items) => {
            assert_eq!(items.len(), 3);
            assert_eq!(number_of(&items[0]), 1.0);
            assert_eq!(number_of(&items[1]), 2.0);
            assert_eq!(number_of(&items[2]), 3.0);
        }
        other => panic!("not an array: {:?}", other),
    }
}

#[test]
fn nested_object() {
    let v = parse("{\"a\":1,\"b\":[true,false,null]}").unwrap();
    assert_eq!(number_of(member(&v, "a")), 1.0);
    assert_eq!(
        member(&v, "b"),
        &JsonValue::Array(vec![JsonValue::Bool(true), JsonValue::Bool(false), JsonValue::Null])
    );
    match &v {
        JsonValue::Object(m) => assert_eq!(m.len(), 2),
        _ => panic!(),
    }
}

#[test]
fn escaped_newline_in_string() {
    assert_eq!(parse("\"a\\nb\""), Ok(JsonValue::String("a\nb".to_string())));
}

#[test]
fn malformed_inputs_fail() {
    assert_eq!(parse("{\"a\":1"), Err(ParseError::ExpectedCommaOrBrace));
    assert_eq!(parse("{\"a\":1,}"), Err(ParseError::ExpectedKey));
    assert_eq!(parse("\"\\q\""), Err(ParseError::Lex(LexError::InvalidEscape('q'))));
    assert_eq!(parse("{a:1}"), Err(ParseError::Lex(LexError::InvalidCharacter('a'))));
    assert_eq!(parse("\"abc"), Err(ParseError::Lex(LexError::UnexpectedEnd)));
}

#[test]
fn trailing_token_fails() {
    assert_eq!(parse("1 2"), Err(ParseError::TrailingToken));
}

#[test]
fn negative_exponent_number() {
    let v = parse("-3.5e2").unwrap();
    assert_eq!(v, JsonValue::Number("-3.5e2".to_string()));
    assert_eq!(number_of(&v), -350.0);
}

#[test]
fn every_error_variant() {
    assert_eq!(parse("\"\\u0041\""), Err(ParseError::Lex(LexError::UnsupportedUnicodeEscape)));
    assert_eq!(parse("1.2.3"), Err(ParseError::Lex(LexError::InvalidNumber)));
    assert_eq!(parse("01"), Err(ParseError::Lex(LexError::InvalidNumber)));
    assert_eq!(parse("-"), Err(ParseError::Lex(LexError::InvalidNumber)));
    assert_eq!(parse("tru"), Err(ParseError::Lex(LexError::InvalidLiteral)));
    assert_eq!(parse("nul1"), Err(ParseError::Lex(LexError::InvalidLiteral)));
    assert_eq!(parse(""), Err(ParseError::UnexpectedEnd));
    assert_eq!(parse("["), Err(ParseError::UnexpectedEnd));
    assert_eq!(parse("{\"a\""), Err(ParseError::UnexpectedEnd));
    assert_eq!(parse("]"), Err(ParseError::UnexpectedToken));
    assert_eq!(parse("[1,]"), Err(ParseError::UnexpectedToken));
    assert_eq!(parse("{1:2}"), Err(ParseError::ExpectedKey));
    assert_eq!(parse("{\"a\" 1}"), Err(ParseError::ExpectedColon));
    assert_eq!(parse("{\"a\":1]"), Err(ParseError::ExpectedCommaOrBrace));
    assert_eq!(parse("[1 2]"), Err(ParseError::ExpectedCommaOrBracket));
    assert_eq!(parse("[1}"), Err(ParseError::ExpectedCommaOrBracket));
}

#[test]
fn duplicate_key_last_wins() {
    let v = parse("{\"a\":1,\"b\":2,\"a\":3}").unwrap();
    assert_eq!(
        v,
        JsonValue::Object(vec![
            ("a".to_string(), JsonValue::Number("3".to_string())),
            ("b".to_string(), JsonValue::Number("2".to_string())),
        ])
    );
}

#[test]
fn array_inside_object_and_object_inside_array() {
    let v = parse(" { \"x\" : [ { } , [ ] , { \"y\" : [ ] } ] } ").unwrap();
    assert_eq!(
        v,
        JsonValue::Object(vec![(
            "x".to_string(),
            JsonValue::Array(vec![
                JsonValue::Object(vec![]),
                JsonValue::Array(vec![]),
                JsonValue::Object(vec![("y".to_string(), JsonValue::Array(vec![]))]),
            ])
        )])
    );
}

#[test]
fn serialize_exact_text() {
    let v = parse("{ \"k\" : [ 1 , -2.5E+3 , true , false , null , \"q\\\"\\\\\\/\\b\\f\\n\\r\\t\" ] }").unwrap();
    assert_eq!(v.to_string(), "{\"k\":[1,-2.5E+3,true,false,null,\"q\\\"\\\\/\\b\\f\\n\\r\\t\"]}");
}

#[test]
fn serialize_escapes_quotes() {
    let v = JsonValue::String("say \"hi\"\n".to_string());
    assert_eq!(v.to_string(), "\"say \\\"hi\\\"\\n\"");
}

#[test]
fn round_trip_sample_document() {
    let input = r#"{
        "name": "John Doe",
        "age": 30,
        "is_student": false,
        "courses": ["Math", "Science", "History"],
        "address": {
            "street": "123 Main St",
            "city": "Anytown"
        }
    }"#;
    let v = parse(input).unwrap();
    let text = v.to_string();
    assert_eq!(parse(&text), Ok(v));
}

#[test]
fn serialize_twice_identical() {
    let v = parse("[{\"a\":\"b\"},1e5,null]").unwrap();
    assert_eq!(v.to_string(), v.to_string());
    assert_eq!(v.to_string(), "[{\"a\":\"b\"},1e5,null]");
}

#[test]
fn lexer_steps_through_tokens() {
    let mut lexer = Lexer::new(" [\"a\", -0.5e-1, true]");
    assert_eq!(lexer.next(), Some(Ok(Token::OpenBracket)));
    assert_eq!(lexer.next(), Some(Ok(Token::String("a".to_string()))));
    assert_eq!(lexer.next(), Some(Ok(Token::Comma)));
    assert_eq!(lexer.next(), Some(Ok(Token::Number("-0.5e-1".to_string()))));
    assert_eq!(lexer.next(), Some(Ok(Token::Comma)));
    assert_eq!(lexer.next(), Some(Ok(Token::LiteralTrue)));
    assert_eq!(lexer.next(), Some(Ok(Token::CloseBracket)));
    assert_eq!(lexer.next(), None);
}

#[test]
fn lexer_stops_after_error() {
    let mut lexer = Lexer::new("@ 1");
    assert_eq!(lexer.next(), Some(Err(LexError::InvalidCharacter('@'))));
    assert_eq!(lexer.next(), None);
}

#[test]
fn lexer_peek_and_consume() {
    let mut lexer = Lexer::new("ab");
    assert_eq!(lexer.peek(), Some('a'));
    assert_eq!(lexer.consume(), Some('a'));
    assert_eq!(lexer.peek(), Some('b'));
    assert_eq!(lexer.consume(), Some('b'));
    assert_eq!(lexer.peek(), None);
    assert_eq!(lexer.consume(), None);
}

#[test]
fn tokenize_whole_text() {
    assert_eq!(
        tokenize("{\"a\":null}"),
        Ok(vec![
            Token::OpenBrace,
            Token::String("a".to_string()),
            Token::Colon,
            Token::LiteralNull,
            Token::CloseBrace,
        ])
    );
    assert_eq!(tokenize("  \n\t"), Ok(vec![]));
    assert_eq!(tokenize("[x]"), Err(LexError::InvalidCharacter('x')));
}

#[test]
fn parser_peek_and_consume() {
    let mut parser = Parser::new(vec![Token::Comma, Token::Colon]);
    assert_eq!(parser.peek(), Some(&Token::Comma));
    assert_eq!(parser.consume(), Some(Token::Comma));
    assert_eq!(parser.consume(), Some(Token::Colon));
    assert_eq!(parser.peek(), None);
    assert_eq!(parser.consume(), None);
}
