use json_parse::parser::{Error, Parser, Value};

fn num_val(v: &Value) -> f64 {
    match v {
        Value::Number(s) => s.parse::<f64>().unwrap(),
        other => panic!("expected a number value, got {:?}", other),
    }
}

#[test]
fn null() {
    let input = "null";
    let value = Parser::new().parse(&input).unwrap().unwrap();
    assert_eq!(value, Value::Null);
}

#[test]
fn bool_true() {
    let input = "true";
    let value = Parser::new().parse(&input).unwrap().unwrap();
    assert_eq!(value, Value::Boolean(true));
}

#[test]
fn bool_false() {
    let input = "false";
    let value = Parser::new().parse(&input).unwrap().unwrap();
    assert_eq!(value, Value::Boolean(false));
}

#[test]
fn positive_integer() {
    let input = "42";
    let value = Parser::new().parse(&input).unwrap().unwrap();
    assert_eq!(num_val(&value), 42.0);
}

#[test]
fn negative_integer() {
    let input = "-42";
    let value = Parser::new().parse(&input).unwrap().unwrap();
    assert_eq!(num_val(&value), -42.0);
}

#[test]
fn positive_float() {
    let input = "42.0";
    let value = Parser::new().parse(&input).unwrap().unwrap();
    assert_eq!(num_val(&value), 42.0);
}

#[test]
fn negative_float() {
    let input = "-42.0";
    let value = Parser::new().parse(&input).unwrap().unwrap();
    assert_eq!(num_val(&value), -42.0);
}

#[test]
fn exponential_number_value() {
    let input = "1.0E+2";
    let value = Parser::new().parse(&input).unwrap().unwrap();
    assert_eq!(num_val(&value), 100.0);
}

#[test]
fn empty_list() {
    let input = "[]";
    let value = Parser::new().parse(&input).unwrap().unwrap();
    assert_eq!(value, Value::List(vec![]));
}

#[test]
fn empty_object() {
    let input = "{}";
    let value = Parser::new().parse(&input).unwrap().unwrap();
    assert_eq!(value, Value::Object(vec![]));
}

#[test]
fn basic_list() {
    let input = "[true, false, 1, \"hello\"]";
    let value = Parser::new().parse(&input).unwrap().unwrap();
    match value {
        Value::List(items) => {
            assert_eq!(items.len(), 4);
            assert_eq!(items[0], Value::Boolean(true));
            assert_eq!(items[1], Value::Boolean(false));
            assert_eq!(num_val(&items[2]), 1.0);
            assert_eq!(items[3], Value::String("hello".to_string()));
        },
        other => panic!("expected a list, got {:?}", other),
    }
}

#[test]
fn flat_object() {
    let input = r#"{"key1": "value", "key2": 123.0}"#;
    let value = Parser::new().parse(&input).unwrap().unwrap();
    match value {
        Value::Object(fields) => {
            assert_eq!(fields.len(), 2);
            assert_eq!(fields[0].0, "key1".to_string());
            assert_eq!(fields[0].1, Value::String("value".to_string()));
            assert_eq!(fields[1].0, "key2".to_string());
            assert_eq!(num_val(&fields[1].1), 123.0);
        },
        other => panic!("expected an object, got {:?}", other),
    }
}

#[test]
fn deep_object() {
    let input = r#"{"key1": "value", "key2": 123.0, "key3": {"key1": "value", "key2": 123.0}}"#;
    let value = Parser::new().parse(&input).unwrap().unwrap();
    match value {
        Value::Object(fields) => {
            assert_eq!(fields.len(), 3);
            assert_eq!(fields[0].0, "key1".to_string());
            assert_eq!(fields[0].1, Value::String("value".to_string()));
            assert_eq!(fields[1].0, "key2".to_string());
            assert_eq!(num_val(&fields[1].1), 123.0);
            assert_eq!(fields[2].0, "key3".to_string());
            match &fields[2].1 {
                Value::Object(inner) => {
                    assert_eq!(inner.len(), 2);
                    assert_eq!(inner[0].0, "key1".to_string());
                    assert_eq!(inner[0].1, Value::String("value".to_string()));
                    assert_eq!(inner[1].0, "key2".to_string());
                    assert_eq!(num_val(&inner[1].1), 123.0);
                },
                other => panic!("expected a nested object, got {:?}", other),
            }
        },
        other => panic!("expected an object, got {:?}", other),
    }
}

#[test]
fn basic_parsing() {
    let input = r#"{"key1": "value", "key2": 123.0, "key3": {"key1": "value", "key2": 123.0}}"#;
    let value = Parser::new().parse(&input).unwrap().unwrap();
    match value {
        Value::Object(fields) => {
            assert_eq!(fields.len(), 3);
            assert_eq!(fields[0].0, "key1".to_string());
            assert_eq!(fields[0].1, Value::String("value".to_string()));
            assert_eq!(fields[1].0, "key2".to_string());
            assert_eq!(num_val(&fields[1].1), 123.0);
            assert_eq!(fields[2].0, "key3".to_string());
            match &fields[2].1 {
                Value::Object(inner) => {
                    assert_eq!(inner.len(), 2);
                    assert_eq!(inner[0].0, "key1".to_string());
                    assert_eq!(inner[0].1, Value::String("value".to_string()));
                    assert_eq!(inner[1].0, "key2".to_string());
                    assert_eq!(num_val(&inner[1].1), 123.0);
                },
                other => panic!("expected a nested object, got {:?}", other),
            }
        },
        other => panic!("expected an object, got {:?}", other),
    }
}

#[test]
fn whitespace_only_input_gives_no_value() {
    let parser = Parser::new();
    assert_eq!(parser.parse("").unwrap(), None);
    assert_eq!(parser.parse(" \t\r\n  ").unwrap(), None);
}

#[test]
fn deeply_nested_object() {
    let input = r#"{"a": {"b": {"c": 1}}}"#;
    let value = Parser::new().parse(&input).unwrap().unwrap();
    match value {
        Value::Object(a) => {
            assert_eq!(a.len(), 1);
            assert_eq!(a[0].0, "a".to_string());
            match &a[0].1 {
                Value::Object(b) => {
                    assert_eq!(b[0].0, "b".to_string());
                    match &b[0].1 {
                        Value::Object(c) => {
                            assert_eq!(c[0].0, "c".to_string());
                            assert_eq!(num_val(&c[0].1), 1.0);
                        },
                        other => panic!("expected an object, got {:?}", other),
                    }
                },
                other => panic!("expected an object, got {:?}", other),
            }
        },
        other => panic!("expected an object, got {:?}", other),
    }
}

#[test]
fn duplicate_key_last_write_wins() {
    let input = r#"{"k": 1, "k": 2}"#;
    let value = Parser::new().parse(&input).unwrap().unwrap();
    match value {
        Value::Object(fields) => {
            assert_eq!(fields.len(), 1);
            assert_eq!(fields[0].0, "k".to_string());
            assert_eq!(num_val(&fields[0].1), 2.0);
        },
        other => panic!("expected an object, got {:?}", other),
    }
}

#[test]
fn trailing_tokens_are_ignored() {
    let input = "1 2";
    let value = Parser::new().parse(&input).unwrap().unwrap();
    assert_eq!(num_val(&value), 1.0);
}

#[test]
fn unterminated_list_is_a_parse_error() {
    let err = Parser::new().parse("[1,2").unwrap_err();
    match err {
        Error::ParseError(m) => {
            assert_eq!(m, "unexpected end of input while parsing list".to_string());
        },
        other => panic!("expected a parse error, got {:?}", other),
    }
}

#[test]
fn unrecognized_character_is_a_lex_error() {
    let err = Parser::new().parse("@").unwrap_err();
    match err {
        Error::LexError(le) => {
            assert_eq!(le.line, 0);
            assert_eq!(le.col, 0);
            assert_eq!(le.text, "@".to_string());
        },
        other => panic!("expected a lex error, got {:?}", other),
    }
}

#[test]
fn non_string_key_is_rejected() {
    let err = Parser::new().parse(r#"{1: 2}"#).unwrap_err();
    match err {
        Error::ParseError(m) => assert_eq!(m, "invalid key value".to_string()),
        other => panic!("expected a parse error, got {:?}", other),
    }
}

#[test]
fn missing_colon_is_rejected() {
    let err = Parser::new().parse(r#"{"a" 1}"#).unwrap_err();
    match err {
        Error::ParseError(m) => assert_eq!(m, "expected ':', got '1'".to_string()),
        other => panic!("expected a parse error, got {:?}", other),
    }
}

#[test]
fn missing_colon_names_the_closing_brace() {
    let err = Parser::new().parse(r#"{"a"}"#).unwrap_err();
    match err {
        Error::ParseError(m) => assert_eq!(m, "expected ':', got '}'".to_string()),
        other => panic!("expected a parse error, got {:?}", other),
    }
}

#[test]
fn stray_punctuation_is_rejected() {
    let err = Parser::new().parse(":").unwrap_err();
    match err {
        Error::ParseError(m) => assert_eq!(m, "unexpected token ':'".to_string()),
        other => panic!("expected a parse error, got {:?}", other),
    }
}

#[test]
fn missing_colon_at_end_of_input() {
    let err = Parser::new().parse(r#"{"a""#).unwrap_err();
    match err {
        Error::ParseError(m) => assert_eq!(m, "expected ':', got 'end of input'".to_string()),
        other => panic!("expected a parse error, got {:?}", other),
    }
}

#[test]
fn missing_value_names_end_of_input() {
    let err = Parser::new().parse("[1,").unwrap_err();
    match err {
        Error::ParseError(m) => assert_eq!(m, "unexpected token 'end of input'".to_string()),
        other => panic!("expected a parse error, got {:?}", other),
    }
}

#[test]
fn malformed_number_surfaces_as_lex_error() {
    let err = Parser::new().parse("--1..2e").unwrap_err();
    match err {
        Error::LexError(le) => {
            assert_eq!(le.line, 0);
            assert_eq!(le.col, 0);
            assert_eq!(le.text, "--1..2e".to_string());
        },
        other => panic!("expected a lex error, got {:?}", other),
    }
}
