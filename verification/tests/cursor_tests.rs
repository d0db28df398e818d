use json_parser::token::Token;
use json_parser::token::TokenType;
use json_parser::utils::CharIter;
use json_parser::utils::Pos;
use json_parser::utils::TokenIter;

#[test]
fn char_iter_peek_and_next() {
    let mut it = CharIter::new("ab");
    assert_eq!(it.peek(), Some('a'));
    assert_eq!(it.peek(), Some('a'));
    assert_eq!(it.next(), Some('a'));
    assert_eq!(it.peek(), Some('b'));
    assert_eq!(it.next(), Some('b'));
    assert_eq!(it.peek(), None);
    assert_eq!(it.next(), None);
    assert_eq!(it.next(), None);
}

#[test]
fn char_iter_handles_multibyte_characters() {
    let mut it = CharIter::new("\u{e9}x");
    assert_eq!(it.next(), Some('\u{e9}'));
    assert_eq!(it.next(), Some('x'));
    assert_eq!(it.next(), None);
}

#[test]
fn char_iter_empty() {
    let mut it = CharIter::new("");
    assert_eq!(it.peek(), None);
    assert_eq!(it.next(), None);
}

#[test]
fn token_iter_peek_and_next() {
    let tokens = vec![
        Token::new(TokenType::Int, String::from("1"), 1, 1),
        Token::new(TokenType::Comma, String::from(","), 1, 2),
    ];
    let mut it = TokenIter::new(&tokens);
    assert_eq!(it.peek().unwrap().value, "1");
    assert_eq!(it.peek().unwrap().value, "1");
    assert_eq!(it.next().unwrap().value, "1");
    assert_eq!(it.next().unwrap().tok_type, TokenType::Comma);
    assert!(it.peek().is_none());
    assert!(it.next().is_none());
}

#[test]
fn token_iter_last() {
    let tokens = vec![
        Token::new(TokenType::Int, String::from("1"), 1, 1),
        Token::new(TokenType::Int, String::from("2"), 2, 1),
    ];
    let it = TokenIter::new(&tokens);
    assert_eq!(it.last().unwrap().value, "2");
    let empty: Vec<Token> = Vec::new();
    let it2 = TokenIter::new(&empty);
    assert!(it2.last().is_none());
}

#[test]
fn pos_renders_brackets() {
    let p = Pos { line: 12, column: 345 };
    assert_eq!(p.to_text(), "[Line: 12, Column: 345]");
    let q = Pos { line: 1, column: 1 };
    assert_eq!(q.to_text(), "[Line: 1, Column: 1]");
}
