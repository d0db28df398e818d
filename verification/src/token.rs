//! Classified lexical units.
//!
//! A `Token` is an immutable record of a kind, the literal text that the
//! tokenizer produced for it, and the 1-based source position where its
//! production began.

use vstd::prelude::*;

use crate::utils::pos_text;
use crate::utils::Pos;

verus! {

/// The classification of a token.
#[derive(Clone, Copy, Debug, PartialEq, Eq, Structural)]
pub enum TokenType {
    Int,
    String,
    Float,
    Name,
    LSqBrac,
    RSqBrac,
    LBrace,
    RBrace,
    Comma,
    Colon,
}

/// The mathematical model of a token: its kind, its literal text as a
/// character sequence, and the line and column where it began.
pub ghost struct TokenModel {
    pub kind: TokenType,
    pub text: Seq<char>,
    pub line: int,
    pub col: int,
}

/// A classified lexical unit.  `value` holds the literal text: for string
/// tokens the decoded content (escapes already resolved, quotes stripped),
/// for every other kind the matched source text.
#[derive(Debug)]
pub struct Token {
    pub line_no: usize,
    pub col_no: usize,
    pub tok_type: TokenType,
    pub value: String,
}

impl View for Token {
    type V = TokenModel;

    closed spec fn view(&self) -> TokenModel {
        TokenModel {
            kind: self.tok_type,
            text: self.value@,
            line: self.line_no as int,
            col: self.col_no as int,
        }
    }
}

impl Clone for Token {
    fn clone(&self) -> (t: Token)
        ensures
            t@ == self@,
    {
        Token {
            line_no: self.line_no,
            col_no: self.col_no,
            tok_type: self.tok_type,
            value: self.value.clone(),
        }
    }
}

impl Token {
    pub fn new(tok_type: TokenType, value: String, line: usize, column: usize) -> (t: Token)
        ensures
            t@ == (TokenModel { kind: tok_type, text: value@, line: line as int, col: column as int }),
    {
        Token { tok_type, value, line_no: line, col_no: column }
    }

    /// The 1-based line where the token's production began.
    pub fn line(&self) -> (l: usize)
        ensures
            l as int == self@.line,
    {
        self.line_no
    }

    /// The 1-based column where the token's production began.
    pub fn column(&self) -> (c: usize)
        ensures
            c as int == self@.col,
    {
        self.col_no
    }

    /// Renders the token's source position as `[Line: <l>, Column: <c>]`.
    pub fn pos(&self) -> (s: String)
        ensures
            s@ == pos_text(self@.line, self@.col),
    {
        let p = Pos { line: self.line_no, column: self.col_no };
        p.to_text()
    }
}

/// A token's model is made of its public fields and recorded position.
pub broadcast proof fn lemma_token_view(t: Token)
    ensures
        (#[trigger] t.view()).kind == t.tok_type,
        t.view().text == t.value@,
{
}

/// The models of a token sequence, element by element.
pub open spec fn tokens_model(v: Seq<Token>) -> Seq<TokenModel> {
    v.map_values(|t: Token| t@)
}

} // verus!
