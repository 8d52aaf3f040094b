use jsonp::parse::{JsonValue, Parser, SyntaxError};
use jsonp::tokenize::Tokenizer;

fn parse_text(text: &str) -> Result<JsonValue, SyntaxError> {
    let mut tokenizer = Tokenizer::new();
    let tokens = tokenizer.tokenize(text).unwrap();
    let mut parser = Parser::new(tokens);
    parser.parse()
}

fn parse_ok(text: &str) -> JsonValue {
    match parse_text(text) {
        Ok(v) => v,
        Err(e) => panic!("expected a value for {:?}, got {}", text, e.0),
    }
}

fn parse_err(text: &str) -> String {
    match parse_text(text) {
        Ok(v) => panic!("expected an error for {:?}, got {:?}", text, v),
        Err(e) => e.0,
    }
}

#[test]
fn parse_is_pure_on_same_text() {
    let text = "{\"a\": {\"b\": [1, 2, true]}}";
    let first = parse_ok(text);
    let second = parse_ok(text);
    assert!(first.deep_eq(&second));
    assert!(!first.deep_eq(&parse_ok("{\"a\": {\"b\": [1, 2, false]}}")));
}

#[test]
fn object_members_kept_in_order_with_duplicates() {
    let v = parse_ok("{\"a\": 1, \"a\": 2, \"b\": 3}");
    let members = match v {
        JsonValue::Object(m) => m,
        other => panic!("expected an object, got {:?}", other),
    };
    assert_eq!(members.len(), 3);
    let expected = [("a", 1i64), ("a", 2), ("b", 3)];
    for (member, (key, num)) in members.iter().zip(expected.iter()) {
        match member {
            JsonValue::KeyedObject(k, boxed) => {
                assert_eq!(k, key);
                match **boxed {
                    JsonValue::Int(n) => assert_eq!(n, *num),
                    ref other => panic!("expected an integer, got {:?}", other),
                }
            }
            other => panic!("expected a keyed member, got {:?}", other),
        }
    }
}

#[test]
fn zero_parses_to_integer_zero() {
    let v = parse_ok("[0]");
    match v {
        JsonValue::Arr(items) => match items.as_slice() {
            [JsonValue::Int(0)] => {}
            other => panic!("expected [Int(0)], got {:?}", other),
        },
        other => panic!("expected an array, got {:?}", other),
    }
}

#[test]
fn negative_decimal_parses_to_float_text() {
    let v = parse_ok("[-3.5]");
    match v {
        JsonValue::Arr(items) => match items.as_slice() {
            [JsonValue::Float(t)] => assert_eq!(t, "-3.5"),
            other => panic!("expected [Float], got {:?}", other),
        },
        other => panic!("expected an array, got {:?}", other),
    }
}

#[test]
fn twelve_parses_to_integer_twelve() {
    let v = parse_ok("[12]");
    match v {
        JsonValue::Arr(items) => match items.as_slice() {
            [JsonValue::Int(12)] => {}
            other => panic!("expected [Int(12)], got {:?}", other),
        },
        other => panic!("expected an array, got {:?}", other),
    }
}

#[test]
fn two_decimal_points_fail_with_numeric_error() {
    let msg = parse_err("[1.2.3]");
    assert_eq!(msg, "Syntax error: failed to parse float at line 1 column 7");
}

#[test]
fn empty_object_parses_to_empty_sentinel() {
    let v = parse_ok("{}");
    assert!(matches!(v, JsonValue::Empty));
}

#[test]
fn empty_array_parses_to_empty_array() {
    let v = parse_ok("[]");
    match v {
        JsonValue::Arr(items) => assert_eq!(items.len(), 0),
        other => panic!("expected an array, got {:?}", other),
    }
}

#[test]
fn missing_closing_brace_reports_end_of_file() {
    let msg = parse_err("{\n  \"a\": 1\n");
    assert_eq!(msg, "Syntax error: unexpected end of file");
}

#[test]
fn missing_colon_reports_position_of_value() {
    let msg = parse_err("{\"a\" 1}");
    assert_eq!(msg, "Syntax error: expected : but got '1' at line 1 column 6");
}

#[test]
fn nested_object_array_and_bool() {
    let v = parse_ok("{\"a\": {\"b\": [1, 2, true]}}");
    let outer = match v {
        JsonValue::Object(m) => m,
        other => panic!("expected an object, got {:?}", other),
    };
    assert_eq!(outer.len(), 1);
    match &outer[0] {
        JsonValue::KeyedObject(k, boxed) => {
            assert_eq!(k, "a");
            match &**boxed {
                JsonValue::Object(inner) => {
                    assert_eq!(inner.len(), 1);
                    match &inner[0] {
                        JsonValue::KeyedObject(k2, boxed2) => {
                            assert_eq!(k2, "b");
                            match &**boxed2 {
                                JsonValue::Arr(items) => {
                                    assert_eq!(items.len(), 3);
                                    assert!(matches!(items[0], JsonValue::Int(1)));
                                    assert!(matches!(items[1], JsonValue::Int(2)));
                                    assert!(matches!(items[2], JsonValue::Bool(true)));
                                }
                                other => panic!("expected an array, got {:?}", other),
                            }
                        }
                        other => panic!("expected a keyed member, got {:?}", other),
                    }
                }
                other => panic!("expected a nested object, got {:?}", other),
            }
        }
        other => panic!("expected a keyed member, got {:?}", other),
    }
}

#[test]
fn string_contents_keep_embedded_spaces() {
    let v = parse_ok("{\"k\": \"hello world\"}");
    match v {
        JsonValue::Object(m) => match &m[0] {
            JsonValue::KeyedObject(k, boxed) => {
                assert_eq!(k, "k");
                match &**boxed {
                    JsonValue::Str(s) => assert_eq!(s, "hello world"),
                    other => panic!("expected a string, got {:?}", other),
                }
            }
            other => panic!("expected a keyed member, got {:?}", other),
        },
        other => panic!("expected an object, got {:?}", other),
    }
}

#[test]
fn object_member_after_nested_object() {
    let v = parse_ok("{\"a\":{\"x\":1},\"b\":2}");
    let members = match v {
        JsonValue::Object(m) => m,
        other => panic!("expected an object, got {:?}", other),
    };
    assert_eq!(members.len(), 2);
    match &members[0] {
        JsonValue::KeyedObject(k, boxed) => {
            assert_eq!(k, "a");
            match &**boxed {
                JsonValue::Object(inner) => assert_eq!(inner.len(), 1),
                other => panic!("expected a nested object, got {:?}", other),
            }
        }
        other => panic!("expected a keyed member, got {:?}", other),
    }
    match &members[1] {
        JsonValue::KeyedObject(k, boxed) => {
            assert_eq!(k, "b");
            assert!(matches!(**boxed, JsonValue::Int(2)));
        }
        other => panic!("expected a keyed member, got {:?}", other),
    }
}

#[test]
fn nested_empty_object_followed_by_member() {
    let v = parse_ok("{\"a\":{},\"b\":1}");
    let members = match v {
        JsonValue::Object(m) => m,
        other => panic!("expected an object, got {:?}", other),
    };
    assert_eq!(members.len(), 2);
    match &members[0] {
        JsonValue::KeyedObject(k, boxed) => {
            assert_eq!(k, "a");
            assert!(matches!(**boxed, JsonValue::Empty));
        }
        other => panic!("expected a keyed member, got {:?}", other),
    }
}

#[test]
fn lone_comma_between_braces_yields_empty() {
    let v = parse_ok("{,}");
    assert!(matches!(v, JsonValue::Empty));
}

#[test]
fn whitespace_outside_strings_has_no_effect() {
    let spaced = parse_ok("{ \"k\" :\t\"x\" }");
    let tight = parse_ok("{\"k\":\"x\"}");
    assert!(spaced.deep_eq(&tight));
}
