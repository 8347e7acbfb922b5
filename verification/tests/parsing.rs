//! Parser behavior: the value tree for well-formed input, and the parsing
//! errors for ill-formed input.

use json_tree::JsonError;
use json_tree::JsonValue;
use json_tree::Parser;
use json_tree::Token;
use json_tree::tokenize;

fn parse_text(input: &str) -> Result<JsonValue, JsonError> {
    let tokens = tokenize(input)?;
    let mut parser = Parser::new(tokens);
    parser.parse()
}

fn number_value(v: &JsonValue) -> f64 {
    match v {
        JsonValue::Number(run) => run.parse::<f64>().unwrap(),
        _ => panic!("expected a number value"),
    }
}

#[test]
fn parses_null_literal() {
    assert_eq!(parse_text("null").unwrap(), JsonValue::Null);
}

#[test]
fn parses_boolean_literals() {
    assert_eq!(parse_text("true").unwrap(), JsonValue::Boolean(true));
    assert_eq!(parse_text("false").unwrap(), JsonValue::Boolean(false));
}

#[test]
fn parses_scientific_number() {
    let v = parse_text("-1.5e3").unwrap();
    assert_eq!(number_value(&v), -1500.0);
}

#[test]
fn string_escape_becomes_literal_newline() {
    let v = parse_text("\"a\\nb\"").unwrap();
    assert_eq!(v, JsonValue::String(String::from("a\nb")));
}

#[test]
fn parses_empty_object() {
    assert_eq!(parse_text("{}").unwrap(), JsonValue::Object(vec![]));
}

#[test]
fn parses_empty_array() {
    assert_eq!(parse_text("[]").unwrap(), JsonValue::Array(vec![]));
}

#[test]
fn duplicate_key_last_write_wins() {
    let v = parse_text("{\"a\":1,\"a\":2}").unwrap();
    match v {
        JsonValue::Object(entries) => {
            assert_eq!(entries.len(), 1);
            assert_eq!(entries[0].0, "a");
            assert_eq!(number_value(&entries[0].1), 2.0);
        },
        _ => panic!("expected an object value"),
    }
}

#[test]
fn array_preserves_source_order() {
    let v = parse_text("[1,2,3]").unwrap();
    match v {
        JsonValue::Array(elems) => {
            assert_eq!(elems.len(), 3);
            assert_eq!(number_value(&elems[0]), 1.0);
            assert_eq!(number_value(&elems[1]), 2.0);
            assert_eq!(number_value(&elems[2]), 3.0);
        },
        _ => panic!("expected an array value"),
    }
}

#[test]
fn unclosed_object_is_an_error() {
    assert_eq!(parse_text("{").unwrap_err(), JsonError::UnclosedObject);
    assert_eq!(parse_text("{\"a\":1").unwrap_err(), JsonError::UnclosedObject);
}

#[test]
fn unclosed_array_is_an_error() {
    assert_eq!(parse_text("[").unwrap_err(), JsonError::UnclosedArray);
    assert_eq!(parse_text("[1,2").unwrap_err(), JsonError::UnclosedArray);
}

#[test]
fn trailing_comma_in_array_is_an_error() {
    // after a comma another element is required; the closing bracket cannot
    // start one
    assert_eq!(parse_text("[1,]").unwrap_err(), JsonError::UnexpectedToken(3));
}

#[test]
fn trailing_comma_in_object_is_an_error() {
    // after a comma another member is required; the closing brace fails the
    // key check
    assert_eq!(
        parse_text("{\"a\":1,}").unwrap_err(),
        JsonError::KeyNotString(5)
    );
}

#[test]
fn empty_token_sequence_is_unexpected_end() {
    assert_eq!(parse_text("").unwrap_err(), JsonError::UnexpectedEnd);
    assert_eq!(parse_text("   ").unwrap_err(), JsonError::UnexpectedEnd);
}

#[test]
fn stray_separator_cannot_start_a_value() {
    assert_eq!(parse_text(":").unwrap_err(), JsonError::UnexpectedToken(0));
    assert_eq!(parse_text(",").unwrap_err(), JsonError::UnexpectedToken(0));
}

#[test]
fn object_key_must_be_a_string() {
    assert_eq!(parse_text("{1:2}").unwrap_err(), JsonError::KeyNotString(1));
}

#[test]
fn object_requires_colon_after_key() {
    assert_eq!(
        parse_text("{\"a\" 1}").unwrap_err(),
        JsonError::ExpectedColon(2)
    );
}

#[test]
fn object_requires_comma_or_brace_after_member() {
    assert_eq!(
        parse_text("{\"a\":1 2}").unwrap_err(),
        JsonError::ExpectedCommaOrBrace(4)
    );
}

#[test]
fn array_requires_comma_or_bracket_after_element() {
    assert_eq!(
        parse_text("[1 2]").unwrap_err(),
        JsonError::ExpectedCommaOrBracket(2)
    );
}

#[test]
fn parses_nested_containers() {
    let v = parse_text("{\"a\":[1,{\"b\":null}],\"c\":\"x\"}").unwrap();
    match v {
        JsonValue::Object(entries) => {
            assert_eq!(entries.len(), 2);
            assert_eq!(entries[0].0, "a");
            match &entries[0].1 {
                JsonValue::Array(elems) => {
                    assert_eq!(elems.len(), 2);
                    assert_eq!(number_value(&elems[0]), 1.0);
                    assert_eq!(
                        elems[1],
                        JsonValue::Object(vec![(String::from("b"), JsonValue::Null)])
                    );
                },
                _ => panic!("expected an array value"),
            }
            assert_eq!(entries[1], (String::from("c"), JsonValue::String(String::from("x"))));
        },
        _ => panic!("expected an object value"),
    }
}

#[test]
fn object_keeps_first_occurrence_order() {
    let v = parse_text("{\"b\":1,\"a\":2,\"b\":3}").unwrap();
    match v {
        JsonValue::Object(entries) => {
            assert_eq!(entries.len(), 2);
            assert_eq!(entries[0].0, "b");
            assert_eq!(number_value(&entries[0].1), 3.0);
            assert_eq!(entries[1].0, "a");
            assert_eq!(number_value(&entries[1].1), 2.0);
        },
        _ => panic!("expected an object value"),
    }
}

#[test]
fn tokens_after_the_first_value_are_left_alone() {
    // the cursor design parses one value and stops
    let v = parse_text("1 2").unwrap();
    assert_eq!(number_value(&v), 1.0);
}

#[test]
fn cursor_moves_forward_one_token_at_a_time() {
    let tokens = tokenize("[]").unwrap();
    let mut parser = Parser::new(tokens);
    assert!(matches!(parser.peek(), Some(Token::LeftBracket)));
    assert!(matches!(parser.advance(), Some(Token::LeftBracket)));
    assert!(matches!(parser.peek(), Some(Token::RightBracket)));
    assert!(matches!(parser.advance(), Some(Token::RightBracket)));
    assert!(parser.peek().is_none());
    assert!(parser.advance().is_none());
}

#[test]
fn parses_unterminated_string_token_as_string_value() {
    let v = parse_text("\"abc").unwrap();
    assert_eq!(v, JsonValue::String(String::from("abc")));
}

#[test]
fn parses_deeply_nested_arrays() {
    let v = parse_text("[[[[1]]]]").unwrap();
    let mut depth = 0;
    let mut cur = v;
    loop {
        match cur {
            JsonValue::Array(mut elems) => {
                assert_eq!(elems.len(), 1);
                depth += 1;
                cur = elems.pop().unwrap();
            },
            other => {
                assert_eq!(number_value(&other), 1.0);
                break;
            },
        }
    }
    assert_eq!(depth, 4);
}

#[test]
fn parses_empty_object_as_member_value() {
    let v = parse_text("{\"a\":{}}").unwrap();
    assert_eq!(
        v,
        JsonValue::Object(vec![(String::from("a"), JsonValue::Object(vec![]))])
    );
}
