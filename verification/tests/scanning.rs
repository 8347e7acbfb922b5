//! Scanner behavior: token shapes, escapes, numeric runs, literals, and the
//! scanning errors.

use json_tree::JsonError;
use json_tree::Token;
use json_tree::tokenize;

#[test]
fn scans_structural_markers() {
    let tokens = tokenize("{}[]:,").unwrap();
    assert_eq!(tokens.len(), 6);
    assert!(matches!(tokens[0], Token::LeftBrace));
    assert!(matches!(tokens[1], Token::RightBrace));
    assert!(matches!(tokens[2], Token::LeftBracket));
    assert!(matches!(tokens[3], Token::RightBracket));
    assert!(matches!(tokens[4], Token::Colon));
    assert!(matches!(tokens[5], Token::Comma));
}

#[test]
fn skips_whitespace_between_tokens() {
    let tokens = tokenize(" \t\r\n{ \n } ").unwrap();
    assert_eq!(tokens.len(), 2);
    assert!(matches!(tokens[0], Token::LeftBrace));
    assert!(matches!(tokens[1], Token::RightBrace));
}

#[test]
fn keeps_number_run_text_exactly() {
    let tokens = tokenize("-1.5e3").unwrap();
    assert_eq!(tokens.len(), 1);
    match &tokens[0] {
        Token::Number(run) => assert_eq!(run, "-1.5e3"),
        _ => panic!("expected a number token"),
    }
}

#[test]
fn accepts_integer_fraction_and_exponent_forms() {
    for text in ["0", "-5", "3.", "12.25", "1e5", "1E5", "2e+3", "2e-3", "1.e2"] {
        let tokens = tokenize(text).unwrap();
        assert_eq!(tokens.len(), 1);
        match &tokens[0] {
            Token::Number(run) => {
                assert_eq!(run, text);
                // every accepted run denotes a 64-bit value
                assert!(run.parse::<f64>().is_ok());
            },
            _ => panic!("expected a number token"),
        }
    }
}

#[test]
fn rejects_malformed_number_runs() {
    assert_eq!(tokenize("1.2.3").unwrap_err(), JsonError::InvalidNumber(0));
    assert_eq!(tokenize("1e").unwrap_err(), JsonError::InvalidNumber(0));
    assert_eq!(tokenize("--5").unwrap_err(), JsonError::InvalidNumber(0));
    assert_eq!(tokenize("-").unwrap_err(), JsonError::InvalidNumber(0));
    assert_eq!(tokenize("[4, 5e]").unwrap_err(), JsonError::InvalidNumber(4));
}

#[test]
fn decodes_every_escape() {
    let tokens = tokenize("\"\\\"\\\\\\/\\b\\f\\n\\r\\t\"").unwrap();
    assert_eq!(tokens.len(), 1);
    match &tokens[0] {
        Token::String(s) => assert_eq!(s, "\"\\/\u{8}\u{c}\n\r\t"),
        _ => panic!("expected a string token"),
    }
}

#[test]
fn rejects_unknown_escape() {
    assert_eq!(tokenize("\"\\q\"").unwrap_err(), JsonError::InvalidEscape(2));
}

#[test]
fn rejects_unicode_escape_as_invalid() {
    assert_eq!(
        tokenize("\"\\u0041\"").unwrap_err(),
        JsonError::InvalidEscape(2)
    );
}

#[test]
fn accepts_unterminated_string_at_end_of_input() {
    // the scanner takes what it read; the quote never closes
    let tokens = tokenize("\"abc").unwrap();
    assert_eq!(tokens.len(), 1);
    match &tokens[0] {
        Token::String(s) => assert_eq!(s, "abc"),
        _ => panic!("expected a string token"),
    }
}

#[test]
fn scans_exact_literals() {
    let tokens = tokenize("true false null").unwrap();
    assert_eq!(tokens.len(), 3);
    assert!(matches!(tokens[0], Token::Boolean(true)));
    assert!(matches!(tokens[1], Token::Boolean(false)));
    assert!(matches!(tokens[2], Token::Null));
}

#[test]
fn rejects_truncated_literal() {
    assert_eq!(tokenize("tru").unwrap_err(), JsonError::BadLiteral(0));
    assert_eq!(tokenize("fals").unwrap_err(), JsonError::BadLiteral(0));
    assert_eq!(tokenize("nul").unwrap_err(), JsonError::BadLiteral(0));
}

#[test]
fn literal_followed_by_letters_fails_on_the_rest() {
    // the fixed-count literal match takes `true`; the stray letter then
    // fails the whole scan
    assert_eq!(tokenize("truex").unwrap_err(), JsonError::UnexpectedChar(4));
}

#[test]
fn rejects_character_no_token_starts_with() {
    assert_eq!(tokenize("@").unwrap_err(), JsonError::UnexpectedChar(0));
    assert_eq!(tokenize("null @").unwrap_err(), JsonError::UnexpectedChar(5));
}

#[test]
fn empty_input_scans_to_no_tokens() {
    assert_eq!(tokenize("").unwrap().len(), 0);
}
