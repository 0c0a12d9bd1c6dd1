use rustbox::json::lexer::{Lexer, Token};
use rustbox::json::numbers::is_valid_float;
use rustbox::json::owned;
use rustbox::json::parser::{Found, ParseError, Parser};
use rustbox::json::printing::{indentation, join_with_commas};
use rustbox::json::value::JsonValue;

const SAMPLE: &str = r#"{"user":"Akshay","projects":["kv-store","json-parser"],"active":true}"#;

fn parse_borrowed(text: &str) -> Result<JsonValue<'_>, ParseError<'_>> {
    let tokens = Lexer::new(text).tokenize();
    Parser::new(tokens).parse()
}

fn parse_owned(text: &str) -> Result<owned::value::JsonValue, owned::parser::ParseError> {
    let tokens = owned::lexer::Lexer::new(text).tokenize();
    owned::parser::Parser::new(tokens).parse()
}

#[test]
fn tokenize_punctuation_keywords_and_literals() {
    let tokens = Lexer::new(" { \"a\" : [1, -2.5e3, true, false, null] } ").tokenize();
    assert_eq!(tokens.len(), 15);
    assert!(matches!(tokens[0], Token::LeftBrace));
    assert!(matches!(tokens[1], Token::String("a")));
    assert!(matches!(tokens[2], Token::Colon));
    assert!(matches!(tokens[3], Token::LeftBracket));
    assert!(matches!(&tokens[4], Token::Number(n) if n == "1"));
    assert!(matches!(tokens[5], Token::Comma));
    assert!(matches!(&tokens[6], Token::Number(n) if n == "-2.5e3"));
    assert!(matches!(tokens[8], Token::Boolean(true)));
    assert!(matches!(tokens[10], Token::Boolean(false)));
    assert!(matches!(tokens[12], Token::Null));
    assert!(matches!(tokens[13], Token::RightBracket));
    assert!(matches!(tokens[14], Token::RightBrace));
}

#[test]
fn tokenize_stops_at_bad_input() {
    assert_eq!(Lexer::new("[1, @]").tokenize().len(), 3);
    assert_eq!(Lexer::new("tru").tokenize().len(), 0);
    assert_eq!(Lexer::new("nul").tokenize().len(), 0);
    assert_eq!(Lexer::new("1-").tokenize().len(), 0);
    assert_eq!(Lexer::new("\"open").tokenize().len(), 0);
    assert_eq!(Lexer::new("").tokenize().len(), 0);
}

#[test]
fn borrowed_strings_are_taken_literally() {
    let tokens = Lexer::new(r#""a\nb""#).tokenize();
    assert_eq!(tokens.len(), 1);
    assert!(matches!(tokens[0], Token::String(r"a\nb")));
}

#[test]
fn number_grammar() {
    for good in ["0", "12", "-3", "1.5", "1.", ".5", "1e10", "2E-3", "+4", "6.02e+23"] {
        assert!(is_valid_float(good), "{good}");
    }
    for bad in ["", "-", ".", "e5", "1e", "1e+", "1.2.3", "--1", "1-2"] {
        assert!(!is_valid_float(bad), "{bad}");
    }
}

#[test]
fn parse_sample_document() {
    let value = parse_borrowed(SAMPLE).ok().unwrap();
    match &value {
        JsonValue::Object(members) => {
            assert_eq!(members.len(), 3);
            assert_eq!(members[0].0, "user");
            assert!(matches!(members[0].1, JsonValue::String("Akshay")));
            assert_eq!(members[1].0, "projects");
            assert!(matches!(&members[1].1, JsonValue::Array(items) if items.len() == 2));
            assert!(matches!(members[2].1, JsonValue::Boolean(true)));
        },
        _ => panic!("expected an object"),
    }
    assert_eq!(value.to_json_string(), SAMPLE);
    assert_eq!(value.stringify(), SAMPLE);
}

#[test]
fn pretty_printing() {
    let value = parse_borrowed(SAMPLE).ok().unwrap();
    let expected = "{\n  \"user\": \"Akshay\",\n  \"projects\": [\n    \"kv-store\",\n    \"json-parser\"\n  ],\n  \"active\": true\n}";
    assert_eq!(value.to_pretty_string(), expected);
    assert_eq!(parse_borrowed("[]").ok().unwrap().to_pretty_string(), "[]");
    assert_eq!(parse_borrowed("{}").ok().unwrap().to_pretty_string(), "{}");
    assert_eq!(parse_borrowed("[[1]]").ok().unwrap().to_pretty_string(), "[\n  [\n    1\n  ]\n]");
}

#[test]
fn repeated_key_keeps_first_place_and_last_value() {
    let value = parse_borrowed(r#"{"a":1,"b":2,"a":3}"#).ok().unwrap();
    assert_eq!(value.to_json_string(), r#"{"a":3,"b":2}"#);
}

#[test]
fn compact_text_reads_back() {
    let text = r#"[null,true,{"k":[1.5,"s",{}],"z":-0.25e1},[]]"#;
    let value = parse_borrowed(text).ok().unwrap();
    let printed = value.to_json_string();
    assert_eq!(printed, text);
    let again = parse_borrowed(&printed).ok().unwrap();
    assert_eq!(again.to_json_string(), text);
    let pretty = value.to_pretty_string();
    assert_eq!(parse_borrowed(&pretty).ok().unwrap().to_json_string(), text);
}

#[test]
fn parse_errors() {
    assert!(matches!(parse_borrowed(""), Err(ParseError::UnexpectedEOF)));
    assert!(matches!(parse_borrowed("[1,"), Err(ParseError::UnexpectedEOF)));
    assert!(matches!(parse_borrowed("[1"), Err(ParseError::UnexpectedEOF)));
    assert!(matches!(
        parse_borrowed("]"),
        Err(ParseError::UnexpectedToken(Found::Token(Token::RightBracket), 1))
    ));
    assert!(matches!(
        parse_borrowed("[1 2]"),
        Err(ParseError::UnexpectedToken(Found::Token(Token::Number(_)), 3))
    ));
    assert!(matches!(
        parse_borrowed("{1:2}"),
        Err(ParseError::UnexpectedToken(Found::Token(Token::Number(_)), 2))
    ));
    assert!(matches!(
        parse_borrowed(r#"{"a" 1}"#),
        Err(ParseError::UnexpectedToken(Found::Next(Some(Token::RightBrace)), 4))
    ));
    assert!(matches!(
        parse_borrowed(r#"{"a"}"#),
        Err(ParseError::UnexpectedToken(Found::Next(None), 4))
    ));
}

#[test]
fn owned_strings_understand_escapes() {
    let tokens = owned::lexer::Lexer::new(r#""a\nb\"c\\d\te""#).tokenize();
    assert_eq!(tokens.len(), 1);
    assert!(matches!(&tokens[0], owned::lexer::Token::String(s) if s == "a\nb\"c\\d\te"));
}

#[test]
fn owned_parse_and_print() {
    let value = parse_owned(SAMPLE).ok().unwrap();
    assert_eq!(value.to_json_string(), SAMPLE);
    assert_eq!(value.stringify(), SAMPLE);
    assert_eq!(
        value.to_pretty_string(),
        "{\n  \"user\": \"Akshay\",\n  \"projects\": [\n    \"kv-store\",\n    \"json-parser\"\n  ],\n  \"active\": true\n}"
    );
    assert!(matches!(parse_owned("[true false]"), Err(owned::parser::ParseError::UnexpectedToken(_, 3))));
    assert!(matches!(parse_owned("{"), Err(owned::parser::ParseError::UnexpectedEOF)));
}

#[test]
fn indentation_and_joining() {
    assert_eq!(indentation(0), "");
    assert_eq!(indentation(3), "      ");
    let parts = vec!["a".to_string(), "bc".to_string(), "".to_string()];
    assert_eq!(join_with_commas(&parts), "a,bc,");
    assert_eq!(join_with_commas(&Vec::new()), "");
}

#[test]
fn error_messages() {
    let msg = |text: &str| parse_borrowed(text).err().unwrap().message();
    assert_eq!(msg(""), "Unexpected end of file");
    assert_eq!(msg("]"), "Unexpected token at pos 1: RightBracket");
    assert_eq!(msg("[1 \"a\\\"b\"]"), "Unexpected token at pos 3: String(\"a\\\\\")");
    assert_eq!(msg("[1 2.5]"), "Unexpected token at pos 3: Number(2.5)");
    assert_eq!(msg("[1 true]"), "Unexpected token at pos 3: Boolean(true)");
    assert_eq!(msg(r#"{"a" 1}"#), "Unexpected token at pos 4: Some(RightBrace)");
    assert_eq!(msg(r#"{"a"}"#), "Unexpected token at pos 4: None");
    assert_eq!(ParseError::InvalidNumber("1x".to_string()).message(), "Invalid number: 1x");
    assert_eq!(ParseError::InvalidString("s".to_string()).message(), "Invalid string: s");
    let owned_err = parse_owned(r#"["a\"b" :]"#).err().unwrap();
    assert_eq!(owned_err.message(), "Unexpected token at pos 3: Colon");
    let owned_err = parse_owned(r#"{"k":1,"q\n" 2}"#).err().unwrap();
    assert_eq!(owned_err.message(), "Unexpected token at pos 8: Some(RightBrace)");
}

#[test]
fn pretty_text_is_compact_text_with_layout() {
    let text = r#"{"a":[1,{"b":null,"c":[]},"x"],"d":{}}"#;
    let value = parse_borrowed(text).ok().unwrap();
    let pretty = value.to_pretty_string();
    let stripped: String = pretty.chars().filter(|&c| c != ' ' && c != '\n').collect();
    assert_eq!(stripped, value.to_json_string());
    // one level deeper: the nested array's text is the outer text re-indented
    let outer = parse_borrowed("[[1,2]]").ok().unwrap().to_pretty_string();
    let inner = parse_borrowed("[1,2]").ok().unwrap().to_pretty_string();
    assert_eq!(outer, format!("[\n  {}\n]", inner.replace('\n', "\n  ")));
}

#[test]
fn pretty_at_a_deeper_level_keeps_the_buffer() {
    let value = parse_borrowed(r#"{"a":[1,2],"b":{}}"#).ok().unwrap();
    let mut at0 = String::from("> ");
    value.serialize_pretty(&mut at0, 0);
    let mut at1 = String::from("> ");
    value.serialize_pretty(&mut at1, 1);
    assert!(at0.starts_with("> ") && at1.starts_with("> "));
    assert_eq!(at1, at0.replace('\n', "\n  "));
}
