use json_parse::lexer::{Lexer, Token};

fn num_tok(t: &Token) -> f64 {
    match t {
        Token::Number(s) => s.parse::<f64>().unwrap(),
        other => panic!("expected a number token, got {:?}", other),
    }
}

#[test]
fn empty_string() {
    let mut lexer = Lexer::new();
    let tokens = lexer.lex("").unwrap();
    assert_eq!(&tokens[..], []);
}

#[test]
fn just_whitespace() {
    let mut lexer = Lexer::new();
    let tokens = lexer.lex("        ").unwrap();
    assert_eq!(&tokens[..], []);
}

#[test]
fn just_null() {
    let mut lexer = Lexer::new();
    let tokens = lexer.lex("null").unwrap();
    assert_eq!(&tokens[..], [Token::Null]);
}

#[test]
fn simple_string_and_number() {
    let mut lexer = Lexer::new();
    let tokens = lexer.lex(r#"{"key": 123}"#).unwrap();
    assert_eq!(tokens.len(), 5);
    assert_eq!(tokens[0], Token::Punct('{'));
    assert_eq!(tokens[1], Token::String("key".to_string()));
    assert_eq!(tokens[2], Token::Punct(':'));
    assert_eq!(num_tok(&tokens[3]), 123.0);
    assert_eq!(tokens[4], Token::Punct('}'));
}

#[test]
fn simple_float_number() {
    let mut lexer = Lexer::new();
    let tokens = lexer.lex(r#"{"key": 123.0}"#).unwrap();
    assert_eq!(tokens.len(), 5);
    assert_eq!(tokens[0], Token::Punct('{'));
    assert_eq!(tokens[1], Token::String("key".to_string()));
    assert_eq!(tokens[2], Token::Punct(':'));
    assert_eq!(num_tok(&tokens[3]), 123.0);
    assert_eq!(tokens[4], Token::Punct('}'));
}

#[test]
fn negative_number() {
    let mut lexer = Lexer::new();
    let tokens = lexer.lex(r#"{"key": -2}"#).unwrap();
    assert_eq!(tokens.len(), 5);
    assert_eq!(tokens[0], Token::Punct('{'));
    assert_eq!(tokens[1], Token::String("key".to_string()));
    assert_eq!(tokens[2], Token::Punct(':'));
    assert_eq!(num_tok(&tokens[3]), -2.0);
    assert_eq!(tokens[4], Token::Punct('}'));
}

#[test]
fn negative_float_number() {
    let mut lexer = Lexer::new();
    let tokens = lexer.lex(r#"{"key": -2.0}"#).unwrap();
    assert_eq!(tokens.len(), 5);
    assert_eq!(tokens[0], Token::Punct('{'));
    assert_eq!(tokens[1], Token::String("key".to_string()));
    assert_eq!(tokens[2], Token::Punct(':'));
    assert_eq!(num_tok(&tokens[3]), -2.0);
    assert_eq!(tokens[4], Token::Punct('}'));
}

#[test]
fn exponential_float_number() {
    let mut lexer = Lexer::new();
    let tokens = lexer.lex(r#"{"key": 1.0E+2}"#).unwrap();
    assert_eq!(tokens.len(), 5);
    assert_eq!(tokens[0], Token::Punct('{'));
    assert_eq!(tokens[1], Token::String("key".to_string()));
    assert_eq!(tokens[2], Token::Punct(':'));
    assert_eq!(num_tok(&tokens[3]), 100.0);
    assert_eq!(tokens[4], Token::Punct('}'));
}

#[test]
fn string_and_bool() {
    let mut lexer = Lexer::new();
    let tokens = lexer.lex(r#"{"key": true}"#).unwrap();
    assert_eq!(
        &tokens[..],
        [
            Token::Punct('{'),
            Token::String("key".to_string()),
            Token::Punct(':'),
            Token::Bool(true),
            Token::Punct('}')
        ]
    );
}

#[test]
fn string_and_null() {
    let mut lexer = Lexer::new();
    let tokens = lexer.lex(r#"{"key": null}"#).unwrap();
    assert_eq!(
        &tokens[..],
        [
            Token::Punct('{'),
            Token::String("key".to_string()),
            Token::Punct(':'),
            Token::Null,
            Token::Punct('}')
        ]
    );
}

#[test]
fn complex_object() {
    let input = r#"
            [
              true,
              false,
              null,
              123,
              -123,
              194037878.6297381,
              -194037878.6297381,
              {
                "key": "value"
              }
            ]
"#;
    let mut lexer = Lexer::new();
    let tokens = lexer.lex(input).unwrap();
    assert_eq!(tokens.len(), 21);
    assert_eq!(tokens[0], Token::Punct('['));
    assert_eq!(tokens[1], Token::Bool(true));
    assert_eq!(tokens[2], Token::Punct(','));
    assert_eq!(tokens[3], Token::Bool(false));
    assert_eq!(tokens[4], Token::Punct(','));
    assert_eq!(tokens[5], Token::Null);
    assert_eq!(tokens[6], Token::Punct(','));
    assert_eq!(num_tok(&tokens[7]), 123_f64);
    assert_eq!(tokens[8], Token::Punct(','));
    assert_eq!(num_tok(&tokens[9]), -123_f64);
    assert_eq!(tokens[10], Token::Punct(','));
    assert_eq!(num_tok(&tokens[11]), 194037878.6297381);
    assert_eq!(tokens[12], Token::Punct(','));
    assert_eq!(num_tok(&tokens[13]), -194037878.6297381);
    assert_eq!(tokens[14], Token::Punct(','));
    assert_eq!(tokens[15], Token::Punct('{'));
    assert_eq!(tokens[16], Token::String("key".to_string()));
    assert_eq!(tokens[17], Token::Punct(':'));
    assert_eq!(tokens[18], Token::String("value".to_string()));
    assert_eq!(tokens[19], Token::Punct('}'));
    assert_eq!(tokens[20], Token::Punct(']'));
}

#[test]
fn escaped_quote_in_string() {
    let mut lexer = Lexer::new();
    let tokens = lexer.lex("\"a\\\"b\"").unwrap();
    assert_eq!(&tokens[..], [Token::String("a\\\"b".to_string())]);
}

#[test]
fn unterminated_string_consumes_to_end() {
    let mut lexer = Lexer::new();
    let tokens = lexer.lex("\"abc").unwrap();
    assert_eq!(&tokens[..], [Token::String("abc".to_string())]);
}

#[test]
fn unrecognized_character_position() {
    let mut lexer = Lexer::new();
    let err = lexer.lex("@").unwrap_err();
    assert_eq!(err.line, 0);
    assert_eq!(err.col, 0);
    assert_eq!(err.text, "@".to_string());
}

#[test]
fn unrecognized_character_on_later_line() {
    let mut lexer = Lexer::new();
    let err = lexer.lex("   \n  @").unwrap_err();
    assert_eq!(err.line, 1);
    assert_eq!(err.col, 2);
    assert_eq!(err.text, "  @".to_string());
}

#[test]
fn keyword_without_boundary_check() {
    let mut lexer = Lexer::new();
    let err = lexer.lex("truefoo").unwrap_err();
    assert_eq!(err.line, 0);
    assert_eq!(err.col, 4);
    assert_eq!(err.text, "truefoo".to_string());
}

#[test]
fn malformed_number_is_an_error() {
    let mut lexer = Lexer::new();
    let err = lexer.lex("--1..2e").unwrap_err();
    assert_eq!(err.line, 0);
    assert_eq!(err.col, 0);
    assert_eq!(err.text, "--1..2e".to_string());
}

#[test]
fn number_grammar_edge_forms() {
    let mut lexer = Lexer::new();
    let tokens = lexer.lex("[.5, 1., 1e3, -1.5E-2]").unwrap();
    assert_eq!(num_tok(&tokens[1]), 0.5);
    assert_eq!(num_tok(&tokens[3]), 1.0);
    assert_eq!(num_tok(&tokens[5]), 1000.0);
    assert_eq!(num_tok(&tokens[7]), -0.015);
}

#[test]
fn crlf_line_text_drops_the_carriage_return() {
    let mut lexer = Lexer::new();
    let err = lexer.lex("@\r\n").unwrap_err();
    assert_eq!(err.line, 0);
    assert_eq!(err.col, 0);
    assert_eq!(err.text, "@".to_string());
}

#[test]
fn parens_are_punctuation() {
    let mut lexer = Lexer::new();
    let tokens = lexer.lex("()").unwrap();
    assert_eq!(&tokens[..], [Token::Punct('('), Token::Punct(')')]);
}
