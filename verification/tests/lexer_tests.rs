use json_parser::lexer::tokenise;
use json_parser::lexer::LexicalError;
use json_parser::token::Token;
use json_parser::token::TokenType;
use json_parser::utils::Pos;

#[test]
fn single_int_token() {
    let tokens = tokenise("123").unwrap();
    assert_eq!(tokens.len(), 1);
    assert_eq!(tokens[0].tok_type, TokenType::Int);
    assert_eq!(tokens[0].value, "123");
    assert_eq!(tokens[0].line_no, 1);
    assert_eq!(tokens[0].col_no, 1);
}

#[test]
fn float_with_exponent() {
    let tokens = tokenise("1.5e10").unwrap();
    assert_eq!(tokens.len(), 1);
    assert_eq!(tokens[0].tok_type, TokenType::Float);
    assert_eq!(tokens[0].value, "1.5e10");
}

#[test]
fn exponent_only_is_float() {
    let tokens = tokenise("1e5").unwrap();
    assert_eq!(tokens.len(), 1);
    assert_eq!(tokens[0].tok_type, TokenType::Float);
    assert_eq!(tokens[0].value, "1e5");
}

#[test]
fn uppercase_exponent_is_normalized() {
    let tokens = tokenise("2E8").unwrap();
    assert_eq!(tokens[0].tok_type, TokenType::Float);
    assert_eq!(tokens[0].value, "2e8");
}

#[test]
fn negative_numbers() {
    let tokens = tokenise("-12 -0 -3.5").unwrap();
    assert_eq!(tokens.len(), 3);
    assert_eq!(tokens[0].value, "-12");
    assert_eq!(tokens[0].tok_type, TokenType::Int);
    assert_eq!(tokens[1].value, "-0");
    assert_eq!(tokens[2].value, "-3.5");
    assert_eq!(tokens[2].tok_type, TokenType::Float);
}

#[test]
fn negative_exponent() {
    let tokens = tokenise("2e-3").unwrap();
    assert_eq!(tokens[0].tok_type, TokenType::Float);
    assert_eq!(tokens[0].value, "2e-3");
}

#[test]
fn string_escape_decodes_newline() {
    let tokens = tokenise("\"a\\nb\"").unwrap();
    assert_eq!(tokens.len(), 1);
    assert_eq!(tokens[0].tok_type, TokenType::String);
    assert_eq!(tokens[0].value, "a\nb");
    assert_eq!(tokens[0].value.chars().count(), 3);
}

#[test]
fn unicode_escape_decodes_e_acute() {
    let tokens = tokenise("\"\\u00e9\"").unwrap();
    assert_eq!(tokens[0].tok_type, TokenType::String);
    assert_eq!(tokens[0].value, "\u{e9}");
}

#[test]
fn simple_escapes_decode() {
    let tokens = tokenise("\"\\\"\\\\\\/\\b\\f\\n\\r\\t\"").unwrap();
    assert_eq!(tokens[0].value, "\"\\/\u{8}\u{c}\n\r\t");
}

#[test]
fn string_literal_has_no_quotes() {
    let tokens = tokenise("\"abc\"").unwrap();
    assert_eq!(tokens[0].value, "abc");
}

#[test]
fn whitespace_is_skipped() {
    let tokens = tokenise("\t\r 1").unwrap();
    assert_eq!(tokens.len(), 1);
    assert_eq!(tokens[0].value, "1");
    assert_eq!(tokens[0].col_no, 4);
}

#[test]
fn newline_advances_line_and_resets_column() {
    let tokens = tokenise("1\n2").unwrap();
    assert_eq!(tokens.len(), 2);
    assert_eq!((tokens[0].line_no, tokens[0].col_no), (1, 1));
    assert_eq!((tokens[1].line_no, tokens[1].col_no), (2, 1));
}

#[test]
fn positions_are_monotonic() {
    let tokens = tokenise("{\n  \"a\": [1, 2],\n  \"b\": null\n}").unwrap();
    let mut prev_line = 0;
    for t in &tokens {
        assert!(t.line_no >= 1);
        assert!(t.col_no >= 1);
        assert!(t.line_no >= prev_line);
        prev_line = t.line_no;
    }
}

#[test]
fn punctuation_tokens() {
    let tokens = tokenise("{}[],:").unwrap();
    let kinds: Vec<TokenType> = tokens.iter().map(|t| t.tok_type).collect();
    assert_eq!(
        kinds,
        vec![
            TokenType::LBrace,
            TokenType::RBrace,
            TokenType::LSqBrac,
            TokenType::RSqBrac,
            TokenType::Comma,
            TokenType::Colon,
        ]
    );
    assert_eq!(tokens[0].value, "{");
    assert_eq!(tokens[5].col_no, 6);
}

#[test]
fn name_tokens() {
    let tokens = tokenise("true false null _x9").unwrap();
    assert_eq!(tokens.len(), 4);
    for t in &tokens {
        assert_eq!(t.tok_type, TokenType::Name);
    }
    assert_eq!(tokens[0].value, "true");
    assert_eq!(tokens[3].value, "_x9");
}

#[test]
fn empty_input_gives_no_tokens() {
    let tokens = tokenise("").unwrap();
    assert_eq!(tokens.len(), 0);
}

#[test]
fn unterminated_string_fails() {
    let err = tokenise("\"unterminated").unwrap_err();
    assert_eq!(err, LexicalError::UnterminatedString(Pos { line: 1, column: 14 }));
}

#[test]
fn newline_in_string_fails() {
    let err = tokenise("\"a\nb\"").unwrap_err();
    assert_eq!(err, LexicalError::UnterminatedString(Pos { line: 1, column: 3 }));
}

#[test]
fn invalid_escape_fails() {
    let err = tokenise("\"\\q\"").unwrap_err();
    assert_eq!(err, LexicalError::InvalidEscape('q', Pos { line: 1, column: 3 }));
}

#[test]
fn malformed_hex_digit_fails() {
    let err = tokenise("\"\\u00g1\"").unwrap_err();
    assert_eq!(err, LexicalError::InvalidUnicodeEscape(Pos { line: 1, column: 6 }));
}

#[test]
fn surrogate_code_point_fails() {
    let err = tokenise("\"\\ud800\"").unwrap_err();
    assert_eq!(err, LexicalError::InvalidUnicodeEscape(Pos { line: 1, column: 4 }));
}

#[test]
fn eof_inside_escape_fails() {
    let err = tokenise("\"\\").unwrap_err();
    assert_eq!(err, LexicalError::UnterminatedString(Pos { line: 1, column: 3 }));
}

#[test]
fn lone_minus_fails() {
    let err = tokenise("-").unwrap_err();
    assert_eq!(err, LexicalError::InvalidNumber(Pos { line: 1, column: 1 }));
}

#[test]
fn dot_without_digits_fails() {
    let err = tokenise("1.").unwrap_err();
    assert_eq!(err, LexicalError::InvalidNumber(Pos { line: 1, column: 1 }));
}

#[test]
fn exponent_without_digits_fails() {
    let err = tokenise("1e").unwrap_err();
    assert_eq!(err, LexicalError::InvalidNumber(Pos { line: 1, column: 1 }));
}

#[test]
fn exponent_with_lone_minus_fails() {
    let err = tokenise("1e-").unwrap_err();
    assert_eq!(err, LexicalError::InvalidNumber(Pos { line: 1, column: 1 }));
}

#[test]
fn unrecognized_character_fails() {
    let err = tokenise("@").unwrap_err();
    assert_eq!(err, LexicalError::UnrecognizedCharacter('@', Pos { line: 1, column: 1 }));
}

#[test]
fn token_new_and_pos() {
    let t = Token::new(TokenType::Int, String::from("42"), 3, 7);
    assert_eq!(t.tok_type, TokenType::Int);
    assert_eq!(t.value, "42");
    assert_eq!(t.line(), 3);
    assert_eq!(t.column(), 7);
    assert_eq!(t.pos(), "[Line: 3, Column: 7]");
}

#[test]
fn leading_zero_is_not_rejected() {
    let tokens = tokenise("0123").unwrap();
    assert_eq!(tokens[0].tok_type, TokenType::Int);
    assert_eq!(tokens[0].value, "0123");
}
