//! Cursor abstractions and position bookkeeping.
//!
//! `Pos` tracks 1-based line/column numbers for diagnostics.  `CharIter` and
//! `TokenIter` are one-item-lookahead forward readers over the source text
//! and the token list; the tokenizer and the parser consume their input
//! exclusively through them.

use vstd::prelude::*;
use vstd::std_specs::iter::IteratorSpec;

use crate::token::Token;

verus! {

/// A 1-based source position.  `line` and `column` both start at 1; every
/// consumed character advances `column`, and a newline advances `line` and
/// resets `column` to 1.  Positions are advisory: consumers may rely only on
/// monotonic growth within a line and the reset at line boundaries.
#[derive(Clone, Copy, Debug, PartialEq, Eq, Structural)]
pub struct Pos {
    pub line: usize,
    pub column: usize,
}

/// The decimal digit character for `d` (meaningful for `0 <= d <= 9`).
pub open spec fn dec_digit(d: int) -> char {
    if d == 0 {
        '0'
    } else if d == 1 {
        '1'
    } else if d == 2 {
        '2'
    } else if d == 3 {
        '3'
    } else if d == 4 {
        '4'
    } else if d == 5 {
        '5'
    } else if d == 6 {
        '6'
    } else if d == 7 {
        '7'
    } else if d == 8 {
        '8'
    } else {
        '9'
    }
}

/// The usual decimal rendering of `n`, without a sign and without leading
/// zeros (except for `n == 0` itself).
pub open spec fn dec_str(n: int) -> Seq<char>
    recommends
        n >= 0,
    decreases n,
{
    if n < 10 {
        seq![dec_digit(n)]
    } else {
        dec_str(n / 10) + seq![dec_digit(n % 10)]
    }
}

fn dec_digit_char(d: usize) -> (c: char)
    requires
        d < 10,
    ensures
        c == dec_digit(d as int),
{
    if d == 0 {
        '0'
    } else if d == 1 {
        '1'
    } else if d == 2 {
        '2'
    } else if d == 3 {
        '3'
    } else if d == 4 {
        '4'
    } else if d == 5 {
        '5'
    } else if d == 6 {
        '6'
    } else if d == 7 {
        '7'
    } else if d == 8 {
        '8'
    } else {
        '9'
    }
}

/// The decimal rendering of `n` as a character vector.
pub fn dec_chars(n: usize) -> (v: Vec<char>)
    ensures
        v@ == dec_str(n as int),
    decreases n,
{
    if n < 10 {
        let mut v: Vec<char> = Vec::new();
        v.push(dec_digit_char(n));
        proof {
            assert(v@ =~= dec_str(n as int));
        }
        v
    } else {
        let mut v: Vec<char> = dec_chars(n / 10);
        v.push(dec_digit_char(n % 10));
        proof {
            assert(v@ =~= dec_str(n as int));
        }
        v
    }
}

/// Relies on `String`'s `FromIterator<char>` implementation: collecting the
/// characters of `v` yields the string holding exactly those characters.
#[verifier::external_body]
pub(crate) fn string_from_chars(v: &Vec<char>) -> (s: String)
    ensures
        s@ == v@,
{
    v.iter().collect()
}

/// The text `[Line: <line>, Column: <column>]` with both numbers rendered in
/// decimal.
pub open spec fn pos_text(line: int, column: int) -> Seq<char> {
    seq!['[', 'L', 'i', 'n', 'e', ':', ' '] + dec_str(line) + seq![',', ' ', 'C', 'o', 'l', 'u', 'm', 'n', ':', ' ']
        + dec_str(column) + seq![']']
}

impl Pos {
    /// Renders the position as `[Line: <line>, Column: <column>]`.
    pub fn to_text(&self) -> (s: String)
        ensures
            s@ == pos_text(self.line as int, self.column as int),
    {
        let mut v: Vec<char> = Vec::new();
        v.push('[');
        v.push('L');
        v.push('i');
        v.push('n');
        v.push('e');
        v.push(':');
        v.push(' ');
        let mut line_digits: Vec<char> = dec_chars(self.line);
        v.append(&mut line_digits);
        v.push(',');
        v.push(' ');
        v.push('C');
        v.push('o');
        v.push('l');
        v.push('u');
        v.push('m');
        v.push('n');
        v.push(':');
        v.push(' ');
        let mut column_digits: Vec<char> = dec_chars(self.column);
        v.append(&mut column_digits);
        v.push(']');
        proof {
            assert(v@ =~= pos_text(self.line as int, self.column as int));
        }
        string_from_chars(&v)
    }
}

/// Collects the characters of `s` into a vector, in order.
pub fn str_to_chars(s: &str) -> (v: Vec<char>)
    ensures
        v@ == s@,
{
    let mut it = s.chars();
    let mut v: Vec<char> = Vec::new();
    loop
        invariant
            it.obeys_prophetic_iter_laws(),
            it.decrease() is Some,
            v@ + it.remaining() =~= s@,
        ensures
            v@ =~= s@,
        decreases it.decrease()->0,
    {
        match it.next() {
            Some(c) => {
                v.push(c);
            },
            None => {
                break ;
            },
        }
    }
    v
}

/// A one-character-lookahead forward reader over the source text, seen as a
/// sequence of Unicode scalar values.
pub struct CharIter {
    text: Vec<char>,
    idx: usize,
}

impl CharIter {
    #[verifier::type_invariant]
    spec fn type_inv(&self) -> bool {
        self.idx <= self.text@.len()
    }

    /// The whole character sequence being read.
    pub closed spec fn chars(&self) -> Seq<char> {
        self.text@
    }

    /// How many characters have been consumed so far.
    pub closed spec fn position(&self) -> int {
        self.idx as int
    }

    /// The lookahead character, if any.
    pub open spec fn lookahead(&self) -> Option<char> {
        if self.position() < self.chars().len() {
            Some(self.chars()[self.position()])
        } else {
            None
        }
    }

    pub fn new(s: &str) -> (it: CharIter)
        ensures
            it.chars() == s@,
            it.position() == 0,
    {
        CharIter { text: str_to_chars(s), idx: 0 }
    }

    /// Returns the next character without consuming it, or `None` at the end
    /// of the input.
    pub fn peek(&self) -> (r: Option<char>)
        ensures
            r == self.lookahead(),
    {
        proof {
            use_type_invariant(self);
        }
        if self.idx < self.text.len() {
            Some(self.text[self.idx])
        } else {
            None
        }
    }

    /// Consumes and returns the lookahead character, advancing the cursor;
    /// returns `None` (and stays put) at the end of the input.
    pub fn next(&mut self) -> (r: Option<char>)
        ensures
            r == old(self).lookahead(),
            final(self).chars() == old(self).chars(),
            final(self).position() == if r is Some {
                old(self).position() + 1
            } else {
                old(self).position()
            },
    {
        proof {
            use_type_invariant(&*self);
        }
        if self.idx < self.text.len() {
            let c = self.text[self.idx];
            self.idx = self.idx + 1;
            Some(c)
        } else {
            None
        }
    }
}

/// A one-token-lookahead forward reader over a produced token list; used
/// exclusively by the parser.
pub struct TokenIter<'a> {
    tokens: &'a Vec<Token>,
    idx: usize,
}

impl<'a> TokenIter<'a> {
    #[verifier::type_invariant]
    spec fn type_inv(&self) -> bool {
        self.idx <= self.tokens@.len()
    }

    /// The whole token sequence being read.
    pub closed spec fn toks(&self) -> Seq<Token> {
        self.tokens@
    }

    /// How many tokens have been consumed so far.
    pub closed spec fn position(&self) -> int {
        self.idx as int
    }

    pub fn new(tokens: &'a Vec<Token>) -> (it: TokenIter<'a>)
        ensures
            it.toks() == tokens@,
            it.position() == 0,
    {
        TokenIter { tokens, idx: 0 }
    }

    /// Returns the next token without consuming it, or `None` at the end of
    /// the token list.
    pub fn peek(&self) -> (r: Option<&'a Token>)
        ensures
            match r {
                Some(t) => self.position() < self.toks().len() && *t == self.toks()[self.position()],
                None => self.position() >= self.toks().len(),
            },
    {
        proof {
            use_type_invariant(self);
        }
        if self.idx < self.tokens.len() {
            Some(&self.tokens[self.idx])
        } else {
            None
        }
    }

    /// The last token of the whole list (not of the remainder), used for
    /// reporting where the input ended.
    pub fn last(&self) -> (r: Option<&'a Token>)
        ensures
            match r {
                Some(t) => self.toks().len() > 0 && *t == self.toks()[self.toks().len() - 1],
                None => self.toks().len() == 0,
            },
    {
        if self.tokens.len() > 0 {
            Some(&self.tokens[self.tokens.len() - 1])
        } else {
            None
        }
    }

    /// Consumes and returns the lookahead token, advancing the cursor;
    /// returns `None` (and stays put) at the end of the token list.
    pub fn next(&mut self) -> (r: Option<&'a Token>)
        ensures
            final(self).toks() == old(self).toks(),
            match r {
                Some(t) => old(self).position() < old(self).toks().len() && *t == old(self).toks()[old(
                    self,
                ).position()] && final(self).position() == old(self).position() + 1,
                None => old(self).position() >= old(self).toks().len() && final(self).position() == old(
                    self,
                ).position(),
            },
    {
        proof {
            use_type_invariant(&*self);
        }
        if self.idx < self.tokens.len() {
            let t = &self.tokens[self.idx];
            self.idx = self.idx + 1;
            Some(t)
        } else {
            None
        }
    }
}

} // verus!
