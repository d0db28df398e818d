use json_parser::lexer::tokenise;
use json_parser::parser::parse;
use json_parser::parser::Node;
use json_parser::parser::SyntaxError;
use json_parser::token::Token;
use json_parser::token::TokenType;
use json_parser::utils::Pos;

fn parsed(text: &str) -> Node {
    parse(&tokenise(text).unwrap()).unwrap()
}

fn parse_err(text: &str) -> SyntaxError {
    parse(&tokenise(text).unwrap()).unwrap_err()
}

#[test]
fn empty_input_yields_empty_sentinel() {
    assert!(matches!(parsed(""), Node::Empty));
}

#[test]
fn whitespace_only_yields_empty_sentinel() {
    assert!(matches!(parsed("  \n\t"), Node::Empty));
}

#[test]
fn simple_integer() {
    assert!(matches!(parsed("123"), Node::Integer(123)));
}

#[test]
fn simple_negative_integer() {
    assert!(matches!(parsed("-45"), Node::Integer(-45)));
}

#[test]
fn i64_extremes() {
    assert!(matches!(parsed("9223372036854775807"), Node::Integer(9223372036854775807)));
    assert!(matches!(parsed("-9223372036854775808"), Node::Integer(-9223372036854775808)));
}

#[test]
fn integer_overflow_is_malformed_number() {
    let err = parse_err("9223372036854775808");
    match err {
        SyntaxError::MalformedNumber(t) => assert_eq!(t.value, "9223372036854775808"),
        other => panic!("expected MalformedNumber, got {:?}", other),
    }
    assert!(matches!(parse_err("-9223372036854775809"), SyntaxError::MalformedNumber(_)));
}

#[test]
fn non_numeric_int_token_is_malformed_number() {
    let tokens = vec![Token::new(TokenType::Int, String::from("abc"), 1, 1)];
    assert!(matches!(parse(&tokens).unwrap_err(), SyntaxError::MalformedNumber(_)));
}

#[test]
fn float_keeps_literal_text() {
    match parsed("1.5e10") {
        Node::Float(s) => assert_eq!(s, "1.5e10"),
        other => panic!("expected Float, got {:?}", other),
    }
}

#[test]
fn simple_string() {
    match parsed("\"hi there\"") {
        Node::String(s) => assert_eq!(s, "hi there"),
        other => panic!("expected String, got {:?}", other),
    }
}

#[test]
fn string_with_escapes() {
    match parsed("\"a\\tb\"") {
        Node::String(s) => assert_eq!(s, "a\tb"),
        other => panic!("expected String, got {:?}", other),
    }
}

#[test]
fn literal_names() {
    assert!(matches!(parsed("true"), Node::Bool(true)));
    assert!(matches!(parsed("false"), Node::Bool(false)));
    assert!(matches!(parsed("null"), Node::Null));
}

#[test]
fn unknown_name_is_invalid_literal() {
    let err = parse_err("tru");
    match err {
        SyntaxError::InvalidLiteralName(t) => assert_eq!(t.value, "tru"),
        other => panic!("expected InvalidLiteralName, got {:?}", other),
    }
}

#[test]
fn empty_array() {
    match parsed("[]") {
        Node::Array(items) => assert_eq!(items.len(), 0),
        other => panic!("expected Array, got {:?}", other),
    }
}

#[test]
fn array_of_values() {
    match parsed("[1, \"x\", true, null]") {
        Node::Array(items) => {
            assert_eq!(items.len(), 4);
            assert!(matches!(items[0], Node::Integer(1)));
            assert!(matches!(&items[1], Node::String(s) if s == "x"));
            assert!(matches!(items[2], Node::Bool(true)));
            assert!(matches!(items[3], Node::Null));
        },
        other => panic!("expected Array, got {:?}", other),
    }
}

#[test]
fn nested_arrays() {
    match parsed("[[1], [], [[2]]]") {
        Node::Array(items) => {
            assert_eq!(items.len(), 3);
            match &items[0] {
                Node::Array(inner) => assert!(matches!(inner[0], Node::Integer(1))),
                other => panic!("expected Array, got {:?}", other),
            }
        },
        other => panic!("expected Array, got {:?}", other),
    }
}

#[test]
fn empty_object() {
    match parsed("{}") {
        Node::Object(pairs) => assert_eq!(pairs.len(), 0),
        other => panic!("expected Object, got {:?}", other),
    }
}

#[test]
fn object_with_pairs() {
    match parsed("{\"a\": 1, \"b\": [2]}") {
        Node::Object(pairs) => {
            assert_eq!(pairs.len(), 2);
            assert_eq!(pairs[0].0, "a");
            assert!(matches!(pairs[0].1, Node::Integer(1)));
            assert_eq!(pairs[1].0, "b");
            assert!(matches!(&pairs[1].1, Node::Array(items) if items.len() == 1));
        },
        other => panic!("expected Object, got {:?}", other),
    }
}

#[test]
fn duplicate_key_last_write_wins() {
    match parsed("{\"a\":1,\"a\":2}") {
        Node::Object(pairs) => {
            assert_eq!(pairs.len(), 1);
            assert_eq!(pairs[0].0, "a");
            assert!(matches!(pairs[0].1, Node::Integer(2)));
        },
        other => panic!("expected Object, got {:?}", other),
    }
}

#[test]
fn triple_duplicate_key_keeps_last() {
    match parsed("{\"k\":1,\"k\":2,\"x\":9,\"k\":3}") {
        Node::Object(pairs) => {
            assert_eq!(pairs.len(), 2);
            assert_eq!(pairs[0].0, "k");
            assert!(matches!(pairs[0].1, Node::Integer(3)));
            assert_eq!(pairs[1].0, "x");
        },
        other => panic!("expected Object, got {:?}", other),
    }
}

#[test]
fn nested_object() {
    match parsed("{\"outer\": {\"inner\": null}}") {
        Node::Object(pairs) => {
            assert_eq!(pairs[0].0, "outer");
            match &pairs[0].1 {
                Node::Object(inner) => {
                    assert_eq!(inner[0].0, "inner");
                    assert!(matches!(inner[0].1, Node::Null));
                },
                other => panic!("expected Object, got {:?}", other),
            }
        },
        other => panic!("expected Object, got {:?}", other),
    }
}

#[test]
fn lone_open_brace_is_unexpected_eof() {
    match parse_err("{") {
        SyntaxError::UnexpectedEOF(p) => assert_eq!(p, Pos { line: 1, column: 1 }),
        other => panic!("expected UnexpectedEOF, got {:?}", other),
    }
}

#[test]
fn lone_open_bracket_is_unexpected_eof() {
    assert!(matches!(parse_err("["), SyntaxError::UnexpectedEOF(_)));
}

#[test]
fn trailing_comma_in_array_is_unexpected_token() {
    match parse_err("[1,]") {
        SyntaxError::UnexpectedToken(t) => assert_eq!(t.tok_type, TokenType::RSqBrac),
        other => panic!("expected UnexpectedToken, got {:?}", other),
    }
}

#[test]
fn missing_colon_is_unexpected_token() {
    match parse_err("{\"a\" 1}") {
        SyntaxError::UnexpectedToken(t) => assert_eq!(t.tok_type, TokenType::Int),
        other => panic!("expected UnexpectedToken, got {:?}", other),
    }
}

#[test]
fn non_string_key_is_unexpected_token() {
    match parse_err("{1: 2}") {
        SyntaxError::UnexpectedToken(t) => assert_eq!(t.tok_type, TokenType::Int),
        other => panic!("expected UnexpectedToken, got {:?}", other),
    }
}

#[test]
fn trailing_tokens_are_reported() {
    match parse_err("1 2") {
        SyntaxError::TrailingTokens(rest) => {
            assert_eq!(rest.len(), 1);
            assert_eq!(rest[0].value, "2");
        },
        other => panic!("expected TrailingTokens, got {:?}", other),
    }
}

#[test]
fn root_comma_is_unexpected_token() {
    assert!(matches!(parse_err(","), SyntaxError::UnexpectedToken(_)));
}

#[test]
fn mixed_document() {
    match parsed("{\"xs\": [1, -2, 3.5], \"ok\": true}") {
        Node::Object(pairs) => {
            assert_eq!(pairs.len(), 2);
            match &pairs[0].1 {
                Node::Array(items) => {
                    assert_eq!(items.len(), 3);
                    assert!(matches!(items[1], Node::Integer(-2)));
                    assert!(matches!(&items[2], Node::Float(s) if s == "3.5"));
                },
                other => panic!("expected Array, got {:?}", other),
            }
        },
        other => panic!("expected Object, got {:?}", other),
    }
}
