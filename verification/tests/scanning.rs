use jsonp::lex;
use jsonp::parse::{JsonValue, Parser, SyntaxError};
use jsonp::text::i32_to_string;
use jsonp::tokenize::{Token, Tokenizer};

fn parse_text(text: &str) -> Result<JsonValue, SyntaxError> {
    let mut tokenizer = Tokenizer::new();
    let tokens = tokenizer.tokenize(text).unwrap();
    let mut parser = Parser::new(tokens);
    parser.parse()
}

fn parse_err(text: &str) -> String {
    match parse_text(text) {
        Ok(v) => panic!("expected an error for {:?}, got {:?}", text, v),
        Err(e) => e.0,
    }
}

fn parse_ok(text: &str) -> JsonValue {
    match parse_text(text) {
        Ok(v) => v,
        Err(e) => panic!("expected a value for {:?}, got {}", text, e.0),
    }
}

#[test]
fn tokenizer_classifies_characters_with_positions() {
    let mut tokenizer = Tokenizer::new();
    let tokens = tokenizer.tokenize("{\"a\": 1}").unwrap();
    let kinds: Vec<Token> = tokens.iter().map(|(t, _)| *t).collect();
    assert_eq!(
        kinds,
        vec![
            Token::LeftCurly,
            Token::Quote,
            Token::Char('a'),
            Token::Quote,
            Token::Colon,
            Token::Whitespace,
            Token::Digit('1'),
            Token::RightCurly,
        ]
    );
}

#[test]
fn tokenizer_keeps_spaces_inside_strings() {
    let mut tokenizer = Tokenizer::new();
    let tokens = tokenizer.tokenize("\"a b\"").unwrap();
    let kinds: Vec<Token> = tokens.iter().map(|(t, _)| *t).collect();
    assert_eq!(
        kinds,
        vec![
            Token::Quote,
            Token::Char('a'),
            Token::Char(' '),
            Token::Char('b'),
            Token::Quote,
        ]
    );
}

#[test]
fn tokenizer_marks_unsupported_characters() {
    let mut tokenizer = Tokenizer::new();
    let tokens = tokenizer.tokenize("@").unwrap();
    assert_eq!(tokens.len(), 1);
    assert_eq!(tokens[0].0, Token::NotSupported);
}

#[test]
fn token_is_char_only_for_letter_tokens() {
    assert!(Token::Char('x').is_char());
    assert!(!Token::Quote.is_char());
    assert!(!Token::Digit('3').is_char());
}

#[test]
fn token_display_names() {
    assert_eq!(Token::Digit('7').to_text(), "'7'");
    assert_eq!(Token::Quote.to_text(), "\"");
    assert_eq!(Token::NewLine.to_text(), "a newline");
    assert_eq!(Token::NotSupported.to_text(), "an unsupported character");
}

#[test]
fn lex_tokenizer_has_no_string_mode_and_no_zero_digit() {
    let mut tokenizer = lex::Tokenizer::new();
    let tokens = tokenizer.tokenize("\"a 0\"-9").unwrap();
    assert_eq!(tokens.len(), 7);
    assert!(matches!(tokens[0].0, lex::Token::Quote));
    assert!(matches!(tokens[1].0, lex::Token::Char));
    assert!(matches!(tokens[2].0, lex::Token::Whitespace));
    assert!(matches!(tokens[3].0, lex::Token::NotSupported));
    assert!(matches!(tokens[4].0, lex::Token::Quote));
    assert!(matches!(tokens[5].0, lex::Token::NotSupported));
    assert!(matches!(tokens[6].0, lex::Token::Digit));
}

#[test]
fn empty_input_reports_end_of_file() {
    assert_eq!(parse_err(""), "Syntax error: unexpected end of file");
}

#[test]
fn non_container_root_is_invalid() {
    assert_eq!(
        parse_err("5"),
        "Syntax error: invalid JSON document at line 1 column 1"
    );
}

#[test]
fn lone_minus_fails_integer_parse() {
    assert_eq!(
        parse_err("[-]"),
        "Syntax error: failed to parse integer at line 1 column 3"
    );
}

#[test]
fn integer_overflow_is_rejected() {
    assert_eq!(
        parse_err("[9223372036854775808]"),
        "Syntax error: failed to parse integer at line 1 column 21"
    );
}

#[test]
fn extreme_integers_fit() {
    match parse_ok("[9223372036854775807, -9223372036854775808]") {
        JsonValue::Arr(items) => {
            assert!(matches!(items[0], JsonValue::Int(9223372036854775807)));
            assert!(matches!(items[1], JsonValue::Int(-9223372036854775808)));
        }
        other => panic!("expected an array, got {:?}", other),
    }
}

#[test]
fn minus_dot_digits_is_a_float() {
    match parse_ok("[-.5]") {
        JsonValue::Arr(items) => match &items[0] {
            JsonValue::Float(t) => assert_eq!(t, "-.5"),
            other => panic!("expected a float, got {:?}", other),
        },
        other => panic!("expected an array, got {:?}", other),
    }
}

#[test]
fn misspelled_boolean_is_rejected() {
    assert_eq!(
        parse_err("[tru]"),
        "Syntax error: failed to parse boolean at line 1 column 5"
    );
}

#[test]
fn booleans_parse_inside_arrays() {
    match parse_ok("[true,false]") {
        JsonValue::Arr(items) => {
            assert!(matches!(items[0], JsonValue::Bool(true)));
            assert!(matches!(items[1], JsonValue::Bool(false)));
        }
        other => panic!("expected an array, got {:?}", other),
    }
}

#[test]
fn trailing_comma_in_array_is_tolerated() {
    match parse_ok("[1,2,]") {
        JsonValue::Arr(items) => {
            assert_eq!(items.len(), 2);
            assert!(matches!(items[0], JsonValue::Int(1)));
            assert!(matches!(items[1], JsonValue::Int(2)));
        }
        other => panic!("expected an array, got {:?}", other),
    }
}

#[test]
fn expected_set_is_spelled_out_in_errors() {
    assert_eq!(
        parse_err("{1}"),
        "Syntax error: expected \", , but got '1' at line 1 column 2"
    );
}

#[test]
fn unsupported_character_is_named_in_errors() {
    assert_eq!(
        parse_err("{@}"),
        "Syntax error: expected \", , but got an unsupported character at line 1 column 2"
    );
}

#[test]
fn unexpected_token_in_member_value() {
    assert_eq!(
        parse_err("{\"a\": @}"),
        "Syntax error: unexpected token while parsing object at line 1 column 7"
    );
}

#[test]
fn unexpected_token_in_array_element() {
    assert_eq!(
        parse_err("[@]"),
        "Syntax error: unexpected token while parsing array at line 1 column 2"
    );
}

#[test]
fn error_positions_span_lines() {
    assert_eq!(
        parse_err("{\n  \"a\" 1\n}"),
        "Syntax error: expected : but got '1' at line 2 column 8"
    );
}

#[test]
fn decimal_rendering_matches_standard_formatting() {
    assert_eq!(i32_to_string(0), "0");
    assert_eq!(i32_to_string(70), "70");
    assert_eq!(i32_to_string(-2147483648), "-2147483648");
    assert_eq!(i32_to_string(2147483647), "2147483647");
}
