//! Lexical analysis.
//!
//! `tokenise` makes a single forward pass over the source text and either
//! returns the complete token list or aborts on the first lexical error.
//! The spec-level scanner functions (`spec_tokenise` and the `scan_*`
//! family) define, character by character, exactly which token list or
//! which error every input produces; the executable tokenizer is proved to
//! return precisely that.

use vstd::prelude::*;

use crate::token::Token;
use crate::token::TokenModel;
use crate::token::TokenType;
use crate::token::tokens_model;
use crate::utils::CharIter;
use crate::utils::Pos;

verus! {

// ---------------------------------------------------------------------------
// Character classes
// ---------------------------------------------------------------------------
/// Whether `c` is a decimal digit.
pub open spec fn is_digit(c: char) -> bool {
    '0' as u32 <= c as u32 && c as u32 <= '9' as u32
}

/// Whether `c` may start a name token: an ASCII letter or an underscore.
pub open spec fn is_name_start(c: char) -> bool {
    ('a' as u32 <= c as u32 && c as u32 <= 'z' as u32) || ('A' as u32 <= c as u32 && c as u32
        <= 'Z' as u32) || c == '_'
}

/// Whether `c` may continue a name token.
pub open spec fn is_name_char(c: char) -> bool {
    is_name_start(c) || is_digit(c)
}

/// Whether `c` is a hexadecimal digit (either case).
pub open spec fn is_hex_digit(c: char) -> bool {
    is_digit(c) || ('a' as u32 <= c as u32 && c as u32 <= 'f' as u32) || ('A' as u32 <= c as u32
        && c as u32 <= 'F' as u32)
}

/// The numeric value of the hexadecimal digit `c`.
pub open spec fn hex_digit_value(c: char) -> int
    recommends
        is_hex_digit(c),
{
    if is_digit(c) {
        c as u32 - '0' as u32
    } else if 'a' as u32 <= c as u32 && c as u32 <= 'f' as u32 {
        c as u32 - 'a' as u32 + 10
    } else {
        c as u32 - 'A' as u32 + 10
    }
}

/// Whether `c` is one of the six structural punctuation characters.
pub open spec fn is_punct(c: char) -> bool {
    c == '{' || c == '}' || c == '[' || c == ']' || c == ',' || c == ':'
}

/// The token kind of the structural punctuation character `c`.
pub open spec fn punct_kind(c: char) -> TokenType
    recommends
        is_punct(c),
{
    if c == '{' {
        TokenType::LBrace
    } else if c == '}' {
        TokenType::RBrace
    } else if c == '[' {
        TokenType::LSqBrac
    } else if c == ']' {
        TokenType::RSqBrac
    } else if c == ',' {
        TokenType::Comma
    } else {
        TokenType::Colon
    }
}

/// The decoded character of a single-character escape, or `None` when the
/// escape character is not one of the eight recognized ones.
pub open spec fn simple_escape(c: char) -> Option<char> {
    if c == '"' {
        Some('"')
    } else if c == '\\' {
        Some('\\')
    } else if c == '/' {
        Some('/')
    } else if c == 'b' {
        Some('\u{0008}')
    } else if c == 'f' {
        Some('\u{000C}')
    } else if c == 'n' {
        Some('\n')
    } else if c == 'r' {
        Some('\r')
    } else if c == 't' {
        Some('\t')
    } else {
        None
    }
}

/// Whether `v` is a Unicode scalar value, i.e. the value of some `char`.
pub open spec fn is_scalar_value(v: int) -> bool {
    (0 <= v && v < 0xD800) || (0xE000 <= v && v <= 0x10FFFF)
}

// ---------------------------------------------------------------------------
// Lexical errors
// ---------------------------------------------------------------------------
/// The mathematical model of a lexical error.
pub ghost enum LexErrModel {
    UnterminatedString { line: int, column: int },
    InvalidEscape { found: char, line: int, column: int },
    InvalidUnicodeEscape { line: int, column: int },
    InvalidNumber { line: int, column: int },
    UnrecognizedCharacter { found: char, line: int, column: int },
}

/// A fatal lexical error; the first one encountered aborts the whole
/// `tokenise` call.  Every variant carries the source position of the
/// offending character, and `InvalidEscape` / `UnrecognizedCharacter` also
/// carry the character itself.  `InvalidUnicodeEscape` covers both a
/// malformed hexadecimal digit and a code point that is not a Unicode
/// scalar value.
#[derive(Clone, Copy, Debug, PartialEq, Eq, Structural)]
pub enum LexicalError {
    UnterminatedString(Pos),
    InvalidEscape(char, Pos),
    InvalidUnicodeEscape(Pos),
    InvalidNumber(Pos),
    UnrecognizedCharacter(char, Pos),
}

impl View for LexicalError {
    type V = LexErrModel;

    open spec fn view(&self) -> LexErrModel {
        match *self {
            LexicalError::UnterminatedString(p) => LexErrModel::UnterminatedString {
                line: p.line as int,
                column: p.column as int,
            },
            LexicalError::InvalidEscape(c, p) => LexErrModel::InvalidEscape {
                found: c,
                line: p.line as int,
                column: p.column as int,
            },
            LexicalError::InvalidUnicodeEscape(p) => LexErrModel::InvalidUnicodeEscape {
                line: p.line as int,
                column: p.column as int,
            },
            LexicalError::InvalidNumber(p) => LexErrModel::InvalidNumber {
                line: p.line as int,
                column: p.column as int,
            },
            LexicalError::UnrecognizedCharacter(c, p) => LexErrModel::UnrecognizedCharacter {
                found: c,
                line: p.line as int,
                column: p.column as int,
            },
        }
    }
}

// ---------------------------------------------------------------------------
// The spec-level scanner
// ---------------------------------------------------------------------------
/// The first index at or after `i` holding no decimal digit.
pub open spec fn scan_digits(s: Seq<char>, i: int) -> int
    decreases s.len() - i,
        when 0 <= i <= s.len()
{
    if i < s.len() && is_digit(s[i]) {
        scan_digits(s, i + 1)
    } else {
        i
    }
}

pub(crate) proof fn lemma_scan_digits(s: Seq<char>, i: int)
    requires
        0 <= i <= s.len(),
    ensures
        i <= scan_digits(s, i) <= s.len(),
        forall|j: int| i <= j < scan_digits(s, i) ==> is_digit(#[trigger] s[j]),
        scan_digits(s, i) < s.len() ==> !is_digit(s[scan_digits(s, i)]),
    decreases s.len() - i,
{
    if i < s.len() && is_digit(s[i]) {
        lemma_scan_digits(s, i + 1);
    }
}

/// The first index at or after `i` holding no name character.
pub open spec fn scan_name(s: Seq<char>, i: int) -> int
    decreases s.len() - i,
        when 0 <= i <= s.len()
{
    if i < s.len() && is_name_char(s[i]) {
        scan_name(s, i + 1)
    } else {
        i
    }
}

pub(crate) proof fn lemma_scan_name(s: Seq<char>, i: int)
    requires
        0 <= i <= s.len(),
    ensures
        i <= scan_name(s, i) <= s.len(),
        forall|j: int| i <= j < scan_name(s, i) ==> is_name_char(#[trigger] s[j]),
        scan_name(s, i) < s.len() ==> !is_name_char(s[scan_name(s, i)]),
    decreases s.len() - i,
{
    if i < s.len() && is_name_char(s[i]) {
        lemma_scan_name(s, i + 1);
    }
}

/// Reads the four hexadecimal digits of a unicode escape starting at `i`
/// (the column of `s[i]` being `col`) and yields their value, or the error
/// for the first position where a digit is missing or malformed.
pub open spec fn scan_hex4(s: Seq<char>, i: int, line: int, col: int) -> Result<int, LexErrModel> {
    if i >= s.len() {
        Err(LexErrModel::UnterminatedString { line, column: col })
    } else if !is_hex_digit(s[i]) {
        Err(LexErrModel::InvalidUnicodeEscape { line, column: col })
    } else if i + 1 >= s.len() {
        Err(LexErrModel::UnterminatedString { line, column: col + 1 })
    } else if !is_hex_digit(s[i + 1]) {
        Err(LexErrModel::InvalidUnicodeEscape { line, column: col + 1 })
    } else if i + 2 >= s.len() {
        Err(LexErrModel::UnterminatedString { line, column: col + 2 })
    } else if !is_hex_digit(s[i + 2]) {
        Err(LexErrModel::InvalidUnicodeEscape { line, column: col + 2 })
    } else if i + 3 >= s.len() {
        Err(LexErrModel::UnterminatedString { line, column: col + 3 })
    } else if !is_hex_digit(s[i + 3]) {
        Err(LexErrModel::InvalidUnicodeEscape { line, column: col + 3 })
    } else {
        Ok(
            hex_digit_value(s[i]) * 4096 + hex_digit_value(s[i + 1]) * 256 + hex_digit_value(
                s[i + 2],
            ) * 16 + hex_digit_value(s[i + 3]),
        )
    }
}

/// Decodes the escape whose first character after the backslash sits at
/// index `i` with column `col`.  Yields the decoded character and the index
/// just past the escape.
pub open spec fn scan_escape(s: Seq<char>, i: int, line: int, col: int) -> Result<
    (char, int),
    LexErrModel,
> {
    if i >= s.len() {
        Err(LexErrModel::UnterminatedString { line, column: col })
    } else {
        let e = s[i];
        if simple_escape(e) is Some {
            Ok((simple_escape(e)->0, i + 1))
        } else if e == 'u' {
            match scan_hex4(s, i + 1, line, col + 1) {
                Ok(v) => if is_scalar_value(v) {
                    Ok(((v as u32) as char, i + 5))
                } else {
                    Err(LexErrModel::InvalidUnicodeEscape { line, column: col + 1 })
                },
                Err(m) => Err(m),
            }
        } else {
            Err(LexErrModel::InvalidEscape { found: e, line, column: col })
        }
    }
}

proof fn lemma_scan_escape(s: Seq<char>, i: int, line: int, col: int)
    requires
        0 <= i,
    ensures
        scan_escape(s, i, line, col) matches Ok(r) ==> i < r.1 <= s.len(),
{
}

/// The result of scanning the tail of a string literal.
pub ghost enum StrScan {
    /// `text` is the decoded content so far; `next` the index just past the
    /// closing quote.
    Done { text: Seq<char>, next: int },
    Fail(LexErrModel),
}

/// Scans a string literal from index `i` (just past the opening quote, the
/// column of `s[i]` being `col`), appending decoded characters to `acc`.
pub open spec fn scan_string_tail(s: Seq<char>, i: int, line: int, col: int, acc: Seq<char>) -> StrScan
    decreases s.len() - i,
        when 0 <= i <= s.len()
        via scan_string_tail_decreases
{
    if i >= s.len() {
        StrScan::Fail(LexErrModel::UnterminatedString { line, column: col })
    } else {
        let c = s[i];
        if c == '\n' {
            StrScan::Fail(LexErrModel::UnterminatedString { line, column: col })
        } else if c == '"' {
            StrScan::Done { text: acc, next: i + 1 }
        } else if c == '\\' {
            match scan_escape(s, i + 1, line, col + 1) {
                Ok(r) => scan_string_tail(s, r.1, line, col + (r.1 - i), acc.push(r.0)),
                Err(m) => StrScan::Fail(m),
            }
        } else {
            scan_string_tail(s, i + 1, line, col + 1, acc.push(c))
        }
    }
}

#[via_fn]
proof fn scan_string_tail_decreases(s: Seq<char>, i: int, line: int, col: int, acc: Seq<char>) {
    if 0 <= i && i < s.len() && s[i] == '\\' {
        lemma_scan_escape(s, i + 1, line, col + 1);
    }
}

pub(crate) proof fn lemma_scan_string_tail(s: Seq<char>, i: int, line: int, col: int, acc: Seq<char>)
    requires
        0 <= i <= s.len(),
    ensures
        scan_string_tail(s, i, line, col, acc) matches StrScan::Done { text, next } ==> i < next
            <= s.len(),
    decreases s.len() - i,
{
    if i < s.len() {
        let c = s[i];
        if c == '\\' {
            lemma_scan_escape(s, i + 1, line, col + 1);
            if let Ok(r) = scan_escape(s, i + 1, line, col + 1) {
                lemma_scan_string_tail(s, r.1, line, col + (r.1 - i), acc.push(r.0));
            }
        } else if c != '\n' && c != '"' {
            lemma_scan_string_tail(s, i + 1, line, col + 1, acc.push(c));
        }
    }
}

/// Scans the exponent part of a number: `s[p]` is the `e`/`E`, followed by
/// an optional minus sign and one or more digits.  Yields the index just
/// past the exponent.  `line`/`col` are the position of the number's start,
/// which every `InvalidNumber` error reports.
pub open spec fn scan_exponent(s: Seq<char>, p: int, line: int, col: int) -> Result<
    int,
    LexErrModel,
>
    recommends
        0 <= p < s.len(),
{
    if p + 1 >= s.len() {
        Err(LexErrModel::InvalidNumber { line, column: col })
    } else if s[p + 1] == '-' {
        if p + 2 >= s.len() || !is_digit(s[p + 2]) {
            Err(LexErrModel::InvalidNumber { line, column: col })
        } else {
            Ok(scan_digits(s, p + 2))
        }
    } else if is_digit(s[p + 1]) {
        Ok(scan_digits(s, p + 1))
    } else {
        Err(LexErrModel::InvalidNumber { line, column: col })
    }
}

proof fn lemma_scan_exponent(s: Seq<char>, p: int, line: int, col: int)
    requires
        0 <= p < s.len(),
    ensures
        scan_exponent(s, p, line, col) matches Ok(end) ==> p + 1 < end <= s.len(),
{
    if p + 2 <= s.len() {
        lemma_scan_digits(s, p + 1);
        if p + 2 < s.len() {
            lemma_scan_digits(s, p + 2);
        }
    }
}

/// The literal text of a number whose exponent marker at index `p` is
/// normalized to a lowercase `e`.
pub open spec fn exp_normalized(s: Seq<char>, start: int, p: int, end: int) -> Seq<char> {
    s.subrange(start, p) + seq!['e'] + s.subrange(p + 1, end)
}

/// The result of scanning a number.
pub ghost enum NumScan {
    Done { kind: TokenType, text: Seq<char>, next: int },
    Fail(LexErrModel),
}

/// Scans a number starting at `i` (a digit or a minus sign, at position
/// `line`/`col`): an optional minus sign, one or more digits, an optional
/// fraction (`.` and one or more digits) and an optional exponent.  The
/// token is `Int` when neither fraction nor exponent is present, `Float`
/// otherwise.
pub open spec fn scan_number(s: Seq<char>, i: int, line: int, col: int) -> NumScan
    recommends
        0 <= i < s.len(),
        is_digit(s[i]) || s[i] == '-',
{
    if s[i] == '-' && (i + 1 >= s.len() || !is_digit(s[i + 1])) {
        NumScan::Fail(LexErrModel::InvalidNumber { line, column: col })
    } else {
        let int_end = scan_digits(s, if s[i] == '-' { i + 1 } else { i });
        if int_end < s.len() && s[int_end] == '.' {
            if int_end + 1 >= s.len() || !is_digit(s[int_end + 1]) {
                NumScan::Fail(LexErrModel::InvalidNumber { line, column: col })
            } else {
                let frac_end = scan_digits(s, int_end + 1);
                if frac_end < s.len() && (s[frac_end] == 'e' || s[frac_end] == 'E') {
                    match scan_exponent(s, frac_end, line, col) {
                        Ok(end) => NumScan::Done {
                            kind: TokenType::Float,
                            text: exp_normalized(s, i, frac_end, end),
                            next: end,
                        },
                        Err(m) => NumScan::Fail(m),
                    }
                } else {
                    NumScan::Done {
                        kind: TokenType::Float,
                        text: s.subrange(i, frac_end),
                        next: frac_end,
                    }
                }
            }
        } else if int_end < s.len() && (s[int_end] == 'e' || s[int_end] == 'E') {
            match scan_exponent(s, int_end, line, col) {
                Ok(end) => NumScan::Done {
                    kind: TokenType::Float,
                    text: exp_normalized(s, i, int_end, end),
                    next: end,
                },
                Err(m) => NumScan::Fail(m),
            }
        } else {
            NumScan::Done { kind: TokenType::Int, text: s.subrange(i, int_end), next: int_end }
        }
    }
}

pub(crate) proof fn lemma_scan_number(s: Seq<char>, i: int, line: int, col: int)
    requires
        0 <= i < s.len(),
        is_digit(s[i]) || s[i] == '-',
    ensures
        scan_number(s, i, line, col) matches NumScan::Done { kind, text, next } ==> i < next
            <= s.len(),
{
    if !(s[i] == '-' && (i + 1 >= s.len() || !is_digit(s[i + 1]))) {
        let start = if s[i] == '-' { i + 1 } else { i };
        lemma_scan_digits(s, start);
        let int_end = scan_digits(s, start);
        assert(int_end > i);
        if int_end < s.len() && s[int_end] == '.' {
            if !(int_end + 1 >= s.len() || !is_digit(s[int_end + 1])) {
                lemma_scan_digits(s, int_end + 1);
                let frac_end = scan_digits(s, int_end + 1);
                if frac_end < s.len() && (s[frac_end] == 'e' || s[frac_end] == 'E') {
                    lemma_scan_exponent(s, frac_end, line, col);
                }
            }
        } else if int_end < s.len() && (s[int_end] == 'e' || s[int_end] == 'E') {
            lemma_scan_exponent(s, int_end, line, col);
        }
    }
}

/// Prepends already-produced tokens to the outcome of scanning the rest of
/// the input.
pub open spec fn lex_continue(
    prefix: Seq<TokenModel>,
    rest: Result<Seq<TokenModel>, LexErrModel>,
) -> Result<Seq<TokenModel>, LexErrModel> {
    match rest {
        Ok(ts) => Ok(prefix + ts),
        Err(m) => Err(m),
    }
}

proof fn lemma_lex_continue_push(
    prefix: Seq<TokenModel>,
    t: TokenModel,
    rest: Result<Seq<TokenModel>, LexErrModel>,
)
    ensures
        lex_continue(prefix, lex_continue(seq![t], rest)) == lex_continue(prefix.push(t), rest),
{
    match rest {
        Ok(ts) => {
            assert(prefix + (seq![t] + ts) =~= prefix.push(t) + ts);
        },
        Err(m) => {
        },
    }
}

/// The token list (or the first lexical error) of the input from index `i`
/// on, the character at `i` sitting at position `line`/`col`.
pub open spec fn spec_tokenize_from(s: Seq<char>, i: int, line: int, col: int) -> Result<
    Seq<TokenModel>,
    LexErrModel,
>
    decreases s.len() - i,
        when 0 <= i <= s.len()
        via spec_tokenize_from_decreases
{
    if i >= s.len() {
        Ok(Seq::empty())
    } else {
        let c = s[i];
        if c == '\n' {
            spec_tokenize_from(s, i + 1, line + 1, 1)
        } else if c == ' ' || c == '\t' || c == '\r' {
            spec_tokenize_from(s, i + 1, line, col + 1)
        } else if c == '"' {
            match scan_string_tail(s, i + 1, line, col + 1, Seq::empty()) {
                StrScan::Done { text, next } => lex_continue(
                    seq![TokenModel { kind: TokenType::String, text, line, col }],
                    spec_tokenize_from(s, next, line, col + (next - i)),
                ),
                StrScan::Fail(m) => Err(m),
            }
        } else if is_digit(c) || c == '-' {
            match scan_number(s, i, line, col) {
                NumScan::Done { kind, text, next } => lex_continue(
                    seq![TokenModel { kind, text, line, col }],
                    spec_tokenize_from(s, next, line, col + (next - i)),
                ),
                NumScan::Fail(m) => Err(m),
            }
        } else if is_name_start(c) {
            let end = scan_name(s, i + 1);
            lex_continue(
                seq![TokenModel { kind: TokenType::Name, text: s.subrange(i, end), line, col }],
                spec_tokenize_from(s, end, line, col + (end - i)),
            )
        } else if is_punct(c) {
            lex_continue(
                seq![TokenModel { kind: punct_kind(c), text: seq![c], line, col }],
                spec_tokenize_from(s, i + 1, line, col + 1),
            )
        } else {
            Err(LexErrModel::UnrecognizedCharacter { found: c, line, column: col })
        }
    }
}

#[via_fn]
proof fn spec_tokenize_from_decreases(s: Seq<char>, i: int, line: int, col: int) {
    if 0 <= i && i < s.len() {
        let c = s[i];
        if c == '"' {
            lemma_scan_string_tail(s, i + 1, line, col + 1, Seq::empty());
        } else if is_digit(c) || c == '-' {
            lemma_scan_number(s, i, line, col);
        } else if is_name_start(c) {
            lemma_scan_name(s, i + 1);
        }
    }
}

/// The token list (or the first lexical error) of the whole input `s`,
/// starting at line 1, column 1.
pub open spec fn spec_tokenise(s: Seq<char>) -> Result<Seq<TokenModel>, LexErrModel> {
    spec_tokenize_from(s, 0, 1, 1)
}

// ---------------------------------------------------------------------------
// The executable tokenizer
// ---------------------------------------------------------------------------
/// Relies on `char::from_u32` from core: it returns `Some` exactly when `v`
/// is a Unicode scalar value (below the surrogate range or between 0xE000
/// and 0x10FFFF), and the returned character is the scalar value `v`.
#[verifier::external_body]
fn char_from_u32(v: u32) -> (r: Option<char>)
    ensures
        r == (if is_scalar_value(v as int) {
            Some((v as u32) as char)
        } else {
            None::<char>
        }),
{
    char::from_u32(v)
}

pub(crate) fn is_digit_char(c: char) -> (b: bool)
    ensures
        b == is_digit(c),
{
    '0' as u32 <= c as u32 && c as u32 <= '9' as u32
}

fn is_name_start_char(c: char) -> (b: bool)
    ensures
        b == is_name_start(c),
{
    ('a' as u32 <= c as u32 && c as u32 <= 'z' as u32) || ('A' as u32 <= c as u32 && c as u32
        <= 'Z' as u32) || c == '_'
}

fn is_name_char_char(c: char) -> (b: bool)
    ensures
        b == is_name_char(c),
{
    is_name_start_char(c) || is_digit_char(c)
}

/// Consumes one character that must be a hexadecimal digit and yields its
/// value; reports the errors that `scan_hex4` assigns to this position.
fn next_hex_digit(chars: &mut CharIter, pos: &mut Pos) -> (r: Result<u32, LexicalError>)
    requires
        0 <= chars.position(),
        pos.column as int <= chars.position() + 1,
        chars.chars().len() < usize::MAX,
    ensures
        final(chars).chars() == old(chars).chars(),
        final(pos).line == old(pos).line,
        ({
            let s = old(chars).chars();
            let i = old(chars).position();
            if i < s.len() && is_hex_digit(s[i]) {
                &&& r matches Ok(h)
                &&& r->Ok_0 as int == hex_digit_value(s[i])
                &&& final(chars).position() == i + 1
                &&& final(pos).column as int == old(pos).column + 1
            } else if i >= s.len() {
                r == Err::<u32, LexicalError>(
                    LexicalError::UnterminatedString(
                        Pos { line: old(pos).line, column: old(pos).column },
                    ),
                )
            } else {
                r == Err::<u32, LexicalError>(
                    LexicalError::InvalidUnicodeEscape(
                        Pos { line: old(pos).line, column: old(pos).column },
                    ),
                )
            }
        }),
{
    match chars.peek() {
        None => Err(LexicalError::UnterminatedString(Pos { line: pos.line, column: pos.column })),
        Some(c) => {
            let u: u32 = c as u32;
            if '0' as u32 <= u && u <= '9' as u32 {
                chars.next();
                pos.column = pos.column + 1;
                Ok(u - '0' as u32)
            } else if 'a' as u32 <= u && u <= 'f' as u32 {
                chars.next();
                pos.column = pos.column + 1;
                Ok(u - 'a' as u32 + 10)
            } else if 'A' as u32 <= u && u <= 'F' as u32 {
                chars.next();
                pos.column = pos.column + 1;
                Ok(u - 'A' as u32 + 10)
            } else {
                Err(LexicalError::InvalidUnicodeEscape(Pos { line: pos.line, column: pos.column }))
            }
        },
    }
}

/// Decodes the escape sequence that follows an already-consumed backslash.
/// The cursor stands on the escape character itself.
fn try_convert_escape_sequence(chars: &mut CharIter, pos: &mut Pos) -> (r: Result<
    char,
    LexicalError,
>)
    requires
        0 <= chars.position(),
        pos.column as int <= chars.position() + 1,
        chars.chars().len() < usize::MAX,
    ensures
        final(chars).chars() == old(chars).chars(),
        final(pos).line == old(pos).line,
        ({
            let s = old(chars).chars();
            let i = old(chars).position();
            let col = old(pos).column as int;
            match scan_escape(s, i, old(pos).line as int, col) {
                Ok(d) => {
                    &&& r matches Ok(x)
                    &&& r->Ok_0 == d.0
                    &&& final(chars).position() == d.1
                    &&& final(pos).column as int == col + (d.1 - i)
                },
                Err(m) => r matches Err(e) && e@ == m,
            }
        }),
{
    let e = match chars.next() {
        Some(x) => x,
        None => {
            return Err(
                LexicalError::UnterminatedString(Pos { line: pos.line, column: pos.column }),
            );
        },
    };
    let e_pos = Pos { line: pos.line, column: pos.column };
    pos.column = pos.column + 1;
    if e == '"' || e == '\\' || e == '/' {
        Ok(e)
    } else if e == 'b' {
        Ok('\u{0008}')
    } else if e == 'f' {
        Ok('\u{000C}')
    } else if e == 'n' {
        Ok('\n')
    } else if e == 'r' {
        Ok('\r')
    } else if e == 't' {
        Ok('\t')
    } else if e == 'u' {
        let hex_pos = Pos { line: pos.line, column: pos.column };
        let h0 = match next_hex_digit(chars, pos) {
            Ok(h) => h,
            Err(err) => {
                return Err(err);
            },
        };
        let h1 = match next_hex_digit(chars, pos) {
            Ok(h) => h,
            Err(err) => {
                return Err(err);
            },
        };
        let h2 = match next_hex_digit(chars, pos) {
            Ok(h) => h,
            Err(err) => {
                return Err(err);
            },
        };
        let h3 = match next_hex_digit(chars, pos) {
            Ok(h) => h,
            Err(err) => {
                return Err(err);
            },
        };
        let v: u32 = h0 * 4096 + h1 * 256 + h2 * 16 + h3;
        match char_from_u32(v) {
            Some(d) => Ok(d),
            None => Err(LexicalError::InvalidUnicodeEscape(hex_pos)),
        }
    } else {
        Err(LexicalError::InvalidEscape(e, e_pos))
    }
}

/// Scans a string token whose opening quote is the lookahead character.
/// The produced token's literal is the decoded content, without the quotes.
fn try_get_string(chars: &mut CharIter, pos: &mut Pos) -> (r: Result<Token, LexicalError>)
    requires
        0 <= chars.position(),
        chars.lookahead() == Some('"'),
        pos.column as int <= chars.position() + 1,
        chars.chars().len() < usize::MAX,
    ensures
        final(chars).chars() == old(chars).chars(),
        final(pos).line == old(pos).line,
        ({
            let s = old(chars).chars();
            let i = old(chars).position();
            let line = old(pos).line as int;
            let col = old(pos).column as int;
            match scan_string_tail(s, i + 1, line, col + 1, Seq::empty()) {
                StrScan::Done { text, next } => {
                    &&& r matches Ok(t)
                    &&& r->Ok_0@ == (TokenModel { kind: TokenType::String, text, line, col })
                    &&& final(chars).position() == next
                    &&& final(pos).column as int == col + (next - i)
                },
                StrScan::Fail(m) => r matches Err(e) && e@ == m,
            }
        }),
{
    let ghost s = chars.chars();
    let ghost i0 = chars.position();
    let ghost line0 = pos.line as int;
    let ghost col0 = pos.column as int;
    let line_no = pos.line;
    let col_no = pos.column;
    chars.next();
    pos.column = pos.column + 1;
    let mut content: Vec<char> = Vec::new();
    loop
        invariant
            s == old(chars).chars(),
            i0 == old(chars).position(),
            line0 == old(pos).line as int,
            col0 == old(pos).column as int,
            chars.chars() == s,
            0 <= i0,
            i0 + 1 <= chars.position() <= s.len(),
            s.len() < usize::MAX,
            col0 <= i0 + 1,
            pos.line as int == line0,
            pos.column as int == col0 + (chars.position() - i0),
            line_no as int == line0,
            col_no as int == col0,
            scan_string_tail(s, i0 + 1, line0, col0 + 1, Seq::empty()) == scan_string_tail(
                s,
                chars.position(),
                line0,
                pos.column as int,
                content@,
            ),
        decreases s.len() - chars.position(),
    {
        let ghost p = chars.position();
        let ghost cur_col = pos.column as int;
        match chars.peek() {
            None => {
                return Err(
                    LexicalError::UnterminatedString(Pos { line: pos.line, column: pos.column }),
                );
            },
            Some(c) => {
                if c == '\n' {
                    return Err(
                        LexicalError::UnterminatedString(
                            Pos { line: pos.line, column: pos.column },
                        ),
                    );
                } else if c == '"' {
                    chars.next();
                    pos.column = pos.column + 1;
                    let value = crate::utils::string_from_chars(&content);
                    return Ok(Token::new(TokenType::String, value, line_no, col_no));
                } else if c == '\\' {
                    chars.next();
                    pos.column = pos.column + 1;
                    match try_convert_escape_sequence(chars, pos) {
                        Ok(d) => {
                            content.push(d);
                        },
                        Err(err) => {
                            return Err(err);
                        },
                    }
                } else {
                    content.push(c);
                    chars.next();
                    pos.column = pos.column + 1;
                }
            },
        }
    }
}

/// Grabs an optional minus sign followed by a run of digits, starting at the
/// lookahead character.  `err_line`/`err_col` are the position of the
/// number's start, reported by `InvalidNumber` errors.
fn try_grab_integer(chars: &mut CharIter, pos: &mut Pos, err_line: usize, err_col: usize) -> (r:
    Result<Vec<char>, LexicalError>)
    requires
        0 <= chars.position() < chars.chars().len(),
        is_digit(chars.chars()[chars.position()]) || chars.chars()[chars.position()] == '-',
        pos.column as int <= chars.position() + 1,
        chars.chars().len() < usize::MAX,
    ensures
        final(chars).chars() == old(chars).chars(),
        final(pos).line == old(pos).line,
        ({
            let s = old(chars).chars();
            let i = old(chars).position();
            if s[i] == '-' && (i + 1 >= s.len() || !is_digit(s[i + 1])) {
                r matches Err(e) && e@ == (LexErrModel::InvalidNumber {
                    line: err_line as int,
                    column: err_col as int,
                })
            } else {
                let end = scan_digits(s, if s[i] == '-' { i + 1 } else { i });
                &&& r matches Ok(v)
                &&& r->Ok_0@ == s.subrange(i, end)
                &&& final(chars).position() == end
                &&& final(pos).column as int == old(pos).column + (end - i)
            }
        }),
{
    let ghost s = chars.chars();
    let ghost i0 = chars.position();
    let ghost line0 = pos.line as int;
    let ghost col0 = pos.column as int;
    let first = chars.next().unwrap();
    pos.column = pos.column + 1;
    let mut result: Vec<char> = Vec::new();
    result.push(first);
    if first == '-' {
        let fine = match chars.peek() {
            Some(x) => is_digit_char(x),
            None => false,
        };
        if !fine {
            return Err(LexicalError::InvalidNumber(Pos { line: err_line, column: err_col }));
        }
    }
    let ghost start = if s[i0] == '-' {
        i0 + 1
    } else {
        i0
    };
    proof {
        assert(result@ =~= s.subrange(i0, i0 + 1));
        if s[i0] != '-' {
            assert(scan_digits(s, i0) == scan_digits(s, i0 + 1));
        }
    }
    loop
        invariant
            chars.chars() == s,
            0 <= i0,
            i0 + 1 <= chars.position() <= s.len(),
            s.len() < usize::MAX,
            col0 <= i0 + 1,
            start == (if s[i0] == '-' {
                i0 + 1
            } else {
                i0
            }),
            start <= chars.position(),
            pos.line as int == line0,
            pos.column as int == col0 + (chars.position() - i0),
            result@ == s.subrange(i0, chars.position()),
            scan_digits(s, start) == scan_digits(s, chars.position()),
        ensures
            chars.chars() == s,
            chars.position() == scan_digits(s, start),
            pos.line as int == line0,
            pos.column as int == col0 + (chars.position() - i0),
            result@ == s.subrange(i0, chars.position()),
        decreases s.len() - chars.position(),
    {
        let ghost p = chars.position();
        proof {
            lemma_scan_digits(s, chars.position());
        }
        match chars.peek() {
            Some(ch) => {
                if is_digit_char(ch) {
                    result.push(ch);
                    chars.next();
                    pos.column = pos.column + 1;
                    proof {
                        assert(result@ =~= s.subrange(i0, chars.position()));
                        assert(scan_digits(s, p) == scan_digits(s, p + 1));
                    }
                } else {
                    proof {
                        assert(scan_digits(s, p) == p);
                    }
                    break ;
                }
            },
            None => {
                proof {
                    assert(scan_digits(s, p) == p);
                }
                break ;
            },
        }
    }
    Ok(result)
}

/// Grabs an exponent part: the `e`/`E` at the lookahead position, an
/// optional minus sign and one or more digits.  The produced text always
/// begins with a lowercase `e`.
fn try_grab_exponent(chars: &mut CharIter, pos: &mut Pos, err_line: usize, err_col: usize) -> (r:
    Result<Vec<char>, LexicalError>)
    requires
        0 <= chars.position() < chars.chars().len(),
        chars.chars()[chars.position()] == 'e' || chars.chars()[chars.position()] == 'E',
        pos.column as int <= chars.position() + 1,
        chars.chars().len() < usize::MAX,
    ensures
        final(chars).chars() == old(chars).chars(),
        final(pos).line == old(pos).line,
        ({
            let s = old(chars).chars();
            let p = old(chars).position();
            match scan_exponent(s, p, err_line as int, err_col as int) {
                Ok(end) => {
                    &&& r matches Ok(v)
                    &&& r->Ok_0@ == seq!['e'] + s.subrange(p + 1, end)
                    &&& final(chars).position() == end
                    &&& final(pos).column as int == old(pos).column + (end - p)
                },
                Err(m) => r matches Err(e) && e@ == m,
            }
        }),
{
    let ghost s = chars.chars();
    let ghost p0 = chars.position();
    chars.next();
    pos.column = pos.column + 1;
    let mut result: Vec<char> = Vec::new();
    result.push('e');
    let fine = match chars.peek() {
        Some(ch) => is_digit_char(ch) || ch == '-',
        None => false,
    };
    if !fine {
        return Err(LexicalError::InvalidNumber(Pos { line: err_line, column: err_col }));
    }
    match try_grab_integer(chars, pos, err_line, err_col) {
        Ok(mut digits) => {
            result.append(&mut digits);
            proof {
                assert(result@ =~= seq!['e'] + s.subrange(
                    p0 + 1,
                    scan_digits(s, if s[p0 + 1] == '-' { p0 + 2 } else { p0 + 1 }),
                ));
            }
            Ok(result)
        },
        Err(e) => Err(e),
    }
}

/// Scans a number token starting at the lookahead character (a digit or a
/// minus sign).
fn try_get_number(chars: &mut CharIter, pos: &mut Pos) -> (r: Result<Token, LexicalError>)
    requires
        0 <= chars.position() < chars.chars().len(),
        is_digit(chars.chars()[chars.position()]) || chars.chars()[chars.position()] == '-',
        pos.column as int <= chars.position() + 1,
        chars.chars().len() < usize::MAX,
    ensures
        final(chars).chars() == old(chars).chars(),
        final(pos).line == old(pos).line,
        ({
            let s = old(chars).chars();
            let i = old(chars).position();
            let line = old(pos).line as int;
            let col = old(pos).column as int;
            match scan_number(s, i, line, col) {
                NumScan::Done { kind, text, next } => {
                    &&& r matches Ok(t)
                    &&& r->Ok_0@ == (TokenModel { kind, text, line, col })
                    &&& final(chars).position() == next
                    &&& final(pos).column as int == col + (next - i)
                },
                NumScan::Fail(m) => r matches Err(e) && e@ == m,
            }
        }),
{
    let ghost s = chars.chars();
    let ghost i0 = chars.position();
    let line_no = pos.line;
    let col_no = pos.column;
    let mut result: Vec<char> = match try_grab_integer(chars, pos, line_no, col_no) {
        Ok(v) => v,
        Err(e) => {
            return Err(e);
        },
    };
    let ghost int_end = chars.position();
    proof {
        lemma_scan_digits(s, if s[i0] == '-' { i0 + 1 } else { i0 });
    }
    let after_int = chars.peek();
    match after_int {
        None => {
            return Ok(
                Token::new(
                    TokenType::Int,
                    crate::utils::string_from_chars(&result),
                    line_no,
                    col_no,
                ),
            );
        },
        Some(nc) => {
            if nc == '.' {
                chars.next();
                pos.column = pos.column + 1;
                result.push('.');
                let fine = match chars.peek() {
                    Some(d) => is_digit_char(d),
                    None => false,
                };
                if !fine {
                    return Err(LexicalError::InvalidNumber(Pos { line: line_no, column: col_no }));
                }
                match try_grab_integer(chars, pos, line_no, col_no) {
                    Ok(mut frac) => {
                        result.append(&mut frac);
                    },
                    Err(e) => {
                        proof {
                            assert(false);
                        }
                        return Err(e);
                    },
                }
                let ghost frac_end = chars.position();
                proof {
                    lemma_scan_digits(s, int_end + 1);
                    assert(result@ =~= s.subrange(i0, frac_end));
                }
                let has_exp = match chars.peek() {
                    Some(x) => x == 'e' || x == 'E',
                    None => false,
                };
                if has_exp {
                    match try_grab_exponent(chars, pos, line_no, col_no) {
                        Ok(mut exp) => {
                            result.append(&mut exp);
                            proof {
                                assert(result@ =~= exp_normalized(
                                    s,
                                    i0,
                                    frac_end,
                                    chars.position(),
                                ));
                            }
                        },
                        Err(e) => {
                            return Err(e);
                        },
                    }
                }
                return Ok(
                    Token::new(
                        TokenType::Float,
                        crate::utils::string_from_chars(&result),
                        line_no,
                        col_no,
                    ),
                );
            } else if nc == 'e' || nc == 'E' {
                match try_grab_exponent(chars, pos, line_no, col_no) {
                    Ok(mut exp) => {
                        result.append(&mut exp);
                        proof {
                            assert(result@ =~= exp_normalized(s, i0, int_end, chars.position()));
                        }
                    },
                    Err(e) => {
                        return Err(e);
                    },
                }
                return Ok(
                    Token::new(
                        TokenType::Float,
                        crate::utils::string_from_chars(&result),
                        line_no,
                        col_no,
                    ),
                );
            } else {
                return Ok(
                    Token::new(
                        TokenType::Int,
                        crate::utils::string_from_chars(&result),
                        line_no,
                        col_no,
                    ),
                );
            }
        },
    }
}

/// Scans a name token starting at the lookahead character (a letter or an
/// underscore).
fn try_get_name(chars: &mut CharIter, pos: &mut Pos) -> (t: Token)
    requires
        0 <= chars.position() < chars.chars().len(),
        is_name_start(chars.chars()[chars.position()]),
        pos.column as int <= chars.position() + 1,
        chars.chars().len() < usize::MAX,
    ensures
        final(chars).chars() == old(chars).chars(),
        final(pos).line == old(pos).line,
        ({
            let s = old(chars).chars();
            let i = old(chars).position();
            let end = scan_name(s, i + 1);
            &&& t@ == (TokenModel {
                kind: TokenType::Name,
                text: s.subrange(i, end),
                line: old(pos).line as int,
                col: old(pos).column as int,
            })
            &&& final(chars).position() == end
            &&& final(pos).column as int == old(pos).column + (end - i)
        }),
{
    let ghost s = chars.chars();
    let ghost i0 = chars.position();
    let ghost line0 = pos.line as int;
    let ghost col0 = pos.column as int;
    let line_no = pos.line;
    let col_no = pos.column;
    let first = chars.next().unwrap();
    pos.column = pos.column + 1;
    let mut content: Vec<char> = Vec::new();
    content.push(first);
    proof {
        assert(content@ =~= s.subrange(i0, i0 + 1));
    }
    loop
        invariant
            chars.chars() == s,
            0 <= i0,
            i0 + 1 <= chars.position() <= s.len(),
            s.len() < usize::MAX,
            col0 <= i0 + 1,
            pos.line as int == line0,
            pos.column as int == col0 + (chars.position() - i0),
            content@ == s.subrange(i0, chars.position()),
            scan_name(s, i0 + 1) == scan_name(s, chars.position()),
        ensures
            chars.chars() == s,
            chars.position() == scan_name(s, i0 + 1),
            pos.line as int == line0,
            pos.column as int == col0 + (chars.position() - i0),
            content@ == s.subrange(i0, chars.position()),
        decreases s.len() - chars.position(),
    {
        let ghost p = chars.position();
        proof {
            lemma_scan_name(s, chars.position());
        }
        match chars.peek() {
            Some(nc) => {
                if is_name_char_char(nc) {
                    content.push(nc);
                    chars.next();
                    pos.column = pos.column + 1;
                    proof {
                        assert(content@ =~= s.subrange(i0, chars.position()));
                        assert(scan_name(s, p) == scan_name(s, p + 1));
                    }
                } else {
                    proof {
                        assert(scan_name(s, p) == p);
                    }
                    break ;
                }
            },
            None => {
                proof {
                    assert(scan_name(s, p) == p);
                }
                break ;
            },
        }
    }
    Token::new(TokenType::Name, crate::utils::string_from_chars(&content), line_no, col_no)
}

/// Tokenizes the whole input in a single forward pass: either the complete
/// token list is returned, or the first lexical error aborts the call.  The
/// result is exactly what the spec-level scanner `spec_tokenise` assigns to
/// the input.  (The length bound only keeps the column bookkeeping within
/// `usize`.)
pub fn tokenise(text: &str) -> (r: Result<Vec<Token>, LexicalError>)
    requires
        text@.len() < usize::MAX,
    ensures
        match r {
            Ok(v) => spec_tokenise(text@) == Ok::<Seq<TokenModel>, LexErrModel>(tokens_model(v@)),
            Err(e) => spec_tokenise(text@) == Err::<Seq<TokenModel>, LexErrModel>(e@),
        },
{
    let ghost s = text@;
    let mut chars = CharIter::new(text);
    let mut tokens: Vec<Token> = Vec::new();
    let mut pos = Pos { line: 1, column: 1 };
    loop
        invariant
            s == text@,
            chars.chars() == s,
            0 <= chars.position() <= s.len(),
            s.len() < usize::MAX,
            1 <= pos.line as int <= chars.position() + 1,
            1 <= pos.column as int <= chars.position() + 1,
            lex_continue(
                tokens_model(tokens@),
                spec_tokenize_from(s, chars.position(), pos.line as int, pos.column as int),
            ) == spec_tokenise(s),
        ensures
            chars.position() == s.len(),
            lex_continue(
                tokens_model(tokens@),
                spec_tokenize_from(s, chars.position(), pos.line as int, pos.column as int),
            ) == spec_tokenise(s),
        decreases s.len() - chars.position(),
    {
        let ghost p = chars.position();
        let ghost l = pos.line as int;
        let ghost c0 = pos.column as int;
        let ghost prefix = tokens_model(tokens@);
        let c = match chars.peek() {
            Some(x) => x,
            None => {
                break ;
            },
        };
        if c == '\n' {
            chars.next();
            pos.line = pos.line + 1;
            pos.column = 1;
        } else if c == ' ' || c == '\t' || c == '\r' {
            chars.next();
            pos.column = pos.column + 1;
        } else if c == '"' {
            proof {
                lemma_scan_string_tail(s, p + 1, l, c0 + 1, Seq::empty());
            }
            let t = match try_get_string(&mut chars, &mut pos) {
                Ok(t) => t,
                Err(e) => {
                    return Err(e);
                },
            };
            proof {
                lemma_lex_continue_push(
                    prefix,
                    t@,
                    spec_tokenize_from(s, chars.position(), pos.line as int, pos.column as int),
                );
                assert(tokens_model(tokens@.push(t)) =~= prefix.push(t@));
            }
            tokens.push(t);
        } else if is_digit_char(c) || c == '-' {
            proof {
                lemma_scan_number(s, p, l, c0);
            }
            let t = match try_get_number(&mut chars, &mut pos) {
                Ok(t) => t,
                Err(e) => {
                    return Err(e);
                },
            };
            proof {
                lemma_lex_continue_push(
                    prefix,
                    t@,
                    spec_tokenize_from(s, chars.position(), pos.line as int, pos.column as int),
                );
                assert(tokens_model(tokens@.push(t)) =~= prefix.push(t@));
            }
            tokens.push(t);
        } else if is_name_start_char(c) {
            proof {
                lemma_scan_name(s, p + 1);
            }
            let t = try_get_name(&mut chars, &mut pos);
            proof {
                lemma_lex_continue_push(
                    prefix,
                    t@,
                    spec_tokenize_from(s, chars.position(), pos.line as int, pos.column as int),
                );
                assert(tokens_model(tokens@.push(t)) =~= prefix.push(t@));
            }
            tokens.push(t);
        } else if c == '{' || c == '}' || c == '[' || c == ']' || c == ',' || c == ':' {
            let kind = if c == '{' {
                TokenType::LBrace
            } else if c == '}' {
                TokenType::RBrace
            } else if c == '[' {
                TokenType::LSqBrac
            } else if c == ']' {
                TokenType::RSqBrac
            } else if c == ',' {
                TokenType::Comma
            } else {
                TokenType::Colon
            };
            let line_no = pos.line;
            let col_no = pos.column;
            chars.next();
            pos.column = pos.column + 1;
            let mut cv: Vec<char> = Vec::new();
            cv.push(c);
            let t = Token::new(kind, crate::utils::string_from_chars(&cv), line_no, col_no);
            proof {
                assert(cv@ =~= seq![c]);
                lemma_lex_continue_push(
                    prefix,
                    t@,
                    spec_tokenize_from(s, chars.position(), pos.line as int, pos.column as int),
                );
                assert(tokens_model(tokens@.push(t)) =~= prefix.push(t@));
            }
            tokens.push(t);
        } else {
            return Err(
                LexicalError::UnrecognizedCharacter(c, Pos { line: pos.line, column: pos.column }),
            );
        }
    }
    proof {
        assert(tokens_model(tokens@) + Seq::<TokenModel>::empty() =~= tokens_model(tokens@));
    }
    Ok(tokens)
}

proof fn lemma_positions_from(s: Seq<char>, i: int, line: int, col: int)
    requires
        0 <= i <= s.len(),
        1 <= line,
        1 <= col,
    ensures
        spec_tokenize_from(s, i, line, col) matches Ok(ts) ==> forall|k: int|
            0 <= k < ts.len() ==> (#[trigger] ts[k]).line >= line && ts[k].col >= 1,
        spec_tokenize_from(s, i, line, col) matches Ok(ts) ==> forall|k1: int, k2: int|
            0 <= k1 <= k2 < ts.len() ==> (#[trigger] ts[k1]).line <= (#[trigger] ts[k2]).line,
    decreases s.len() - i,
{
    if i < s.len() {
        let c = s[i];
        if c == '\n' {
            lemma_positions_from(s, i + 1, line + 1, 1);
        } else if c == ' ' || c == '\t' || c == '\r' {
            lemma_positions_from(s, i + 1, line, col + 1);
        } else if c == '"' {
            lemma_scan_string_tail(s, i + 1, line, col + 1, Seq::empty());
            if let StrScan::Done { text, next } = scan_string_tail(s, i + 1, line, col + 1, Seq::empty()) {
                lemma_positions_from(s, next, line, col + (next - i));
                let tm = TokenModel { kind: TokenType::String, text, line, col };
                lemma_positions_cons(tm, spec_tokenize_from(s, next, line, col + (next - i)), line);
            }
        } else if is_digit(c) || c == '-' {
            lemma_scan_number(s, i, line, col);
            if let NumScan::Done { kind, text, next } = scan_number(s, i, line, col) {
                lemma_positions_from(s, next, line, col + (next - i));
                let tm = TokenModel { kind, text, line, col };
                lemma_positions_cons(tm, spec_tokenize_from(s, next, line, col + (next - i)), line);
            }
        } else if is_name_start(c) {
            lemma_scan_name(s, i + 1);
            let end = scan_name(s, i + 1);
            lemma_positions_from(s, end, line, col + (end - i));
            let tm = TokenModel { kind: TokenType::Name, text: s.subrange(i, end), line, col };
            lemma_positions_cons(tm, spec_tokenize_from(s, end, line, col + (end - i)), line);
        } else if is_punct(c) {
            lemma_positions_from(s, i + 1, line, col + 1);
            let tm = TokenModel { kind: punct_kind(c), text: seq![c], line, col };
            lemma_positions_cons(tm, spec_tokenize_from(s, i + 1, line, col + 1), line);
        }
    }
}

/// Prepending a token at position (`line`, `col >= 1`) to a well-positioned
/// rest keeps every token at `line` or later, columns at least 1, and lines
/// non-decreasing.
proof fn lemma_positions_cons(tm: TokenModel, rest: Result<Seq<TokenModel>, LexErrModel>, line: int)
    requires
        tm.line == line,
        tm.col >= 1,
        rest matches Ok(rs) ==> forall|k: int|
            0 <= k < rs.len() ==> (#[trigger] rs[k]).line >= line && rs[k].col >= 1,
        rest matches Ok(rs) ==> forall|k1: int, k2: int|
            0 <= k1 <= k2 < rs.len() ==> (#[trigger] rs[k1]).line <= (#[trigger] rs[k2]).line,
    ensures
        lex_continue(seq![tm], rest) matches Ok(ts) ==> forall|k: int|
            0 <= k < ts.len() ==> (#[trigger] ts[k]).line >= line && ts[k].col >= 1,
        lex_continue(seq![tm], rest) matches Ok(ts) ==> forall|k1: int, k2: int|
            0 <= k1 <= k2 < ts.len() ==> (#[trigger] ts[k1]).line <= (#[trigger] ts[k2]).line,
{
    if let Ok(rs) = rest {
        let ts = seq![tm] + rs;
        assert forall|k: int| 0 <= k < ts.len() implies (#[trigger] ts[k]).line >= line
            && ts[k].col >= 1 by {
            if k > 0 {
                assert(ts[k] == rs[k - 1]);
            }
        }
        assert forall|k1: int, k2: int| 0 <= k1 <= k2 < ts.len() implies (#[trigger] ts[k1]).line
            <= (#[trigger] ts[k2]).line by {
            if k1 > 0 {
                assert(ts[k1] == rs[k1 - 1]);
                assert(ts[k2] == rs[k2 - 1]);
            } else if k2 > 0 {
                assert(ts[k2] == rs[k2 - 1]);
                assert(rs[k2 - 1].line >= line);
            }
        }
    }
}

/// Every position that the tokenizer emits has `line >= 1` and `column >= 1`,
/// and the line numbers of the token stream never decrease.
pub proof fn lemma_token_positions(s: Seq<char>)
    ensures
        spec_tokenise(s) matches Ok(ts) ==> forall|k: int|
            0 <= k < ts.len() ==> (#[trigger] ts[k]).line >= 1 && ts[k].col >= 1,
        spec_tokenise(s) matches Ok(ts) ==> forall|k1: int, k2: int|
            0 <= k1 <= k2 < ts.len() ==> (#[trigger] ts[k1]).line <= (#[trigger] ts[k2]).line,
{
    lemma_positions_from(s, 0, 1, 1);
}

} // verus!
