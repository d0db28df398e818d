//! Syntactic analysis: the recursive-descent parser.
//!
//! `parse` folds a token list into one `Node` tree, or aborts with the first
//! syntactic error.  The spec-level parser (`spec_parse` and the
//! `spec_parse_*` family) defines, token by token, exactly which tree or
//! which error every token list produces; the executable parser is proved to
//! return precisely that.

use vstd::prelude::*;

use crate::lexer::is_digit;
use crate::token::Token;
use crate::token::TokenModel;
use crate::token::TokenType;
use crate::token::tokens_model;
use crate::utils::Pos;
use crate::utils::TokenIter;
use crate::utils::str_to_chars;

verus! {

/// The mathematical model of a parsed value tree.  Object pairs are listed
/// in first-encounter order with unique keys; a duplicate key overwrites the
/// earlier value in place (last-write-wins).
pub ghost enum NodeModel {
    Integer(i64),
    String(Seq<char>),
    Float(Seq<char>),
    Bool(bool),
    Null,
    Array(Seq<NodeModel>),
    Object(Seq<(Seq<char>, NodeModel)>),
    Empty,
}

/// The parsed representation of a JSON document.  `Float` keeps the decoded
/// literal text: the tree itself never computes with the number, so the
/// conversion to a machine float is left to the caller.  `Object` keeps its
/// pairs in first-encounter order with unique keys; inserting a duplicate
/// key overwrites the earlier value (last-write-wins).  `Empty` is the
/// sentinel for a zero-token document, distinct from every error.
#[derive(Debug)]
pub enum Node {
    Integer(i64),
    String(String),
    Float(String),
    Bool(bool),
    Null,
    Array(Vec<Node>),
    Object(Vec<(String, Node)>),
    Empty,
}

/// The model of a node, structure for structure.
pub open spec fn node_model(n: Node) -> NodeModel
    decreases n,
{
    match n {
        Node::Integer(x) => NodeModel::Integer(x),
        Node::String(s) => NodeModel::String(s@),
        Node::Float(s) => NodeModel::Float(s@),
        Node::Bool(b) => NodeModel::Bool(b),
        Node::Null => NodeModel::Null,
        Node::Array(items) => NodeModel::Array(seq_node_models(items@)),
        Node::Object(pairs) => NodeModel::Object(seq_pair_models(pairs@)),
        Node::Empty => NodeModel::Empty,
    }
}

/// The models of a node sequence, element by element.
pub open spec fn seq_node_models(items: Seq<Node>) -> Seq<NodeModel>
    decreases items,
{
    if items.len() == 0 {
        Seq::empty()
    } else {
        seq_node_models(items.drop_last()).push(node_model(items.last()))
    }
}

/// The models of a key-value pair sequence, element by element.
pub open spec fn seq_pair_models(pairs: Seq<(String, Node)>) -> Seq<(Seq<char>, NodeModel)>
    decreases pairs,
{
    if pairs.len() == 0 {
        Seq::empty()
    } else {
        seq_pair_models(pairs.drop_last()).push(
            (pairs.last().0@, node_model(pairs.last().1)),
        )
    }
}

proof fn lemma_seq_pair_models_elems(pairs: Seq<(String, Node)>)
    ensures
        seq_pair_models(pairs).len() == pairs.len(),
        forall|k: int|
            0 <= k < pairs.len() ==> #[trigger] seq_pair_models(pairs)[k] == (
                pairs[k].0@,
                node_model(pairs[k].1),
            ),
    decreases pairs.len(),
{
    if pairs.len() > 0 {
        lemma_seq_pair_models_elems(pairs.drop_last());
    }
}

// ---------------------------------------------------------------------------
// Syntactic errors
// ---------------------------------------------------------------------------
/// The mathematical model of a syntactic error.
pub ghost enum SynErrModel {
    UnexpectedToken(TokenModel),
    UnexpectedEOF { line: int, column: int },
    InvalidLiteralName(TokenModel),
    TrailingTokens(Seq<TokenModel>),
    MalformedNumber(TokenModel),
}

/// A fatal syntactic error; the first one encountered aborts the whole
/// `parse` call.  `UnexpectedToken` and `InvalidLiteralName` carry the
/// offending token; `UnexpectedEOF` the position where the input ended;
/// `TrailingTokens` the tokens left over after the root value;
/// `MalformedNumber` an `Int` token whose literal is not an integer literal
/// within the 64-bit signed range (an internal-consistency failure for
/// tokenizer-produced tokens, reported as a typed error instead of a panic).
#[derive(Debug)]
pub enum SyntaxError {
    UnexpectedToken(Token),
    UnexpectedEOF(Pos),
    InvalidLiteralName(Token),
    TrailingTokens(Vec<Token>),
    MalformedNumber(Token),
}

impl View for SyntaxError {
    type V = SynErrModel;

    open spec fn view(&self) -> SynErrModel {
        match self {
            SyntaxError::UnexpectedToken(t) => SynErrModel::UnexpectedToken(t@),
            SyntaxError::UnexpectedEOF(p) => SynErrModel::UnexpectedEOF {
                line: p.line as int,
                column: p.column as int,
            },
            SyntaxError::InvalidLiteralName(t) => SynErrModel::InvalidLiteralName(t@),
            SyntaxError::TrailingTokens(v) => SynErrModel::TrailingTokens(tokens_model(v@)),
            SyntaxError::MalformedNumber(t) => SynErrModel::MalformedNumber(t@),
        }
    }
}

/// The position reported by `UnexpectedEOF`: the position of the last token
/// of the list, or line 1, column 1 for an empty list.
pub open spec fn eof_pos(ts: Seq<TokenModel>) -> (int, int) {
    if ts.len() > 0 {
        (ts[ts.len() - 1].line, ts[ts.len() - 1].col)
    } else {
        (1, 1)
    }
}

// ---------------------------------------------------------------------------
// Integer literals
// ---------------------------------------------------------------------------
/// Whether every character of `s` is a decimal digit.
pub open spec fn all_digits(s: Seq<char>) -> bool {
    forall|k: int| 0 <= k < s.len() ==> is_digit(#[trigger] s[k])
}

/// Whether `s` matches the integer-literal grammar: an optional minus sign
/// followed by one or more digits.
pub open spec fn is_int_literal(s: Seq<char>) -> bool {
    if s.len() > 0 && s[0] == '-' {
        s.len() >= 2 && all_digits(s.skip(1))
    } else {
        s.len() >= 1 && all_digits(s)
    }
}

/// The numeric value of a digit string, most significant digit first.
pub open spec fn digits_value(s: Seq<char>) -> int
    recommends
        all_digits(s),
    decreases s.len(),
{
    if s.len() == 0 {
        0
    } else {
        digits_value(s.drop_last()) * 10 + (s.last() as u32 - '0' as u32)
    }
}

/// The numeric value of an integer literal.
pub open spec fn int_literal_value(s: Seq<char>) -> int
    recommends
        is_int_literal(s),
{
    if s.len() > 0 && s[0] == '-' {
        -digits_value(s.skip(1))
    } else {
        digits_value(s)
    }
}

proof fn lemma_digits_value_nonneg(s: Seq<char>)
    requires
        all_digits(s),
    ensures
        digits_value(s) >= 0,
    decreases s.len(),
{
    if s.len() > 0 {
        assert(all_digits(s.drop_last()));
        lemma_digits_value_nonneg(s.drop_last());
    }
}

/// A digit string is worth at least any of its prefixes.
proof fn lemma_digits_value_prefix(s: Seq<char>, m: int)
    requires
        all_digits(s),
        0 <= m <= s.len(),
    ensures
        digits_value(s.subrange(0, m)) <= digits_value(s),
    decreases s.len() - m,
{
    if m == s.len() {
        assert(s.subrange(0, m) =~= s);
    } else {
        assert(all_digits(s.drop_last()));
        lemma_digits_value_nonneg(s.drop_last());
        lemma_digits_value_prefix(s.drop_last(), m);
        assert(s.drop_last().subrange(0, m) =~= s.subrange(0, m));
        assert(digits_value(s) == digits_value(s.drop_last()) * 10 + (s.last() as u32 - '0' as u32));
        assert(digits_value(s.drop_last()) * 10 >= digits_value(s.drop_last())) by {
            lemma_digits_value_nonneg(s.drop_last());
        }
    }
}

/// An `Int` token that the number scanner produces always has a literal
/// matching the integer grammar: an optional minus sign and one or more
/// digits.
proof fn lemma_scan_number_int_text(s: Seq<char>, i: int, line: int, col: int)
    requires
        0 <= i < s.len(),
        is_digit(s[i]) || s[i] == '-',
    ensures
        crate::lexer::scan_number(s, i, line, col) matches crate::lexer::NumScan::Done {
            kind,
            text,
            next,
        } ==> (kind == TokenType::Int ==> is_int_literal(text)),
{
    if let crate::lexer::NumScan::Done { kind, text, next } = crate::lexer::scan_number(
        s,
        i,
        line,
        col,
    ) {
        if kind == TokenType::Int {
            let start = if s[i] == '-' {
                i + 1
            } else {
                i
            };
            crate::lexer::lemma_scan_digits(s, start);
            let int_end = crate::lexer::scan_digits(s, start);
            if s[i] == '-' {
                assert(crate::lexer::scan_digits(s, i + 1) == crate::lexer::scan_digits(s, i + 2));
                assert(text =~= s.subrange(i, int_end));
                assert(text.len() >= 2);
                assert forall|k: int| 0 <= k < text.skip(1).len() implies is_digit(
                    #[trigger] text.skip(1)[k],
                ) by {
                    assert(text.skip(1)[k] == s[i + 1 + k]);
                }
            } else {
                assert(crate::lexer::scan_digits(s, i) == crate::lexer::scan_digits(s, i + 1));
                assert(text =~= s.subrange(i, int_end));
                assert(text.len() >= 1);
                assert forall|k: int| 0 <= k < text.len() implies is_digit(#[trigger] text[k]) by {
                    assert(text[k] == s[i + k]);
                }
                assert(!(text[0] == '-'));
            }
        }
    }
}

proof fn lemma_numeric_tokens_from(s: Seq<char>, i: int, line: int, col: int)
    requires
        0 <= i <= s.len(),
    ensures
        crate::lexer::spec_tokenize_from(s, i, line, col) matches Ok(ts) ==> forall|k: int|
            0 <= k < ts.len() ==> numeric_text_ok(#[trigger] ts[k]),
    decreases s.len() - i,
{
    if i < s.len() {
        let c = s[i];
        if c == '\n' {
            lemma_numeric_tokens_from(s, i + 1, line + 1, 1);
        } else if c == ' ' || c == '\t' || c == '\r' {
            lemma_numeric_tokens_from(s, i + 1, line, col + 1);
        } else if c == '"' {
            crate::lexer::lemma_scan_string_tail(s, i + 1, line, col + 1, Seq::empty());
            if let crate::lexer::StrScan::Done { text, next } = crate::lexer::scan_string_tail(
                s,
                i + 1,
                line,
                col + 1,
                Seq::empty(),
            ) {
                lemma_numeric_tokens_from(s, next, line, col + (next - i));
                lemma_numeric_cons(
                    TokenModel { kind: TokenType::String, text, line, col },
                    crate::lexer::spec_tokenize_from(s, next, line, col + (next - i)),
                );
            }
        } else if is_digit(c) || c == '-' {
            crate::lexer::lemma_scan_number(s, i, line, col);
            lemma_scan_number_int_text(s, i, line, col);
            lemma_scan_number_float_text(s, i, line, col);
            if let crate::lexer::NumScan::Done { kind, text, next } = crate::lexer::scan_number(
                s,
                i,
                line,
                col,
            ) {
                lemma_numeric_tokens_from(s, next, line, col + (next - i));
                lemma_numeric_cons(
                    TokenModel { kind, text, line, col },
                    crate::lexer::spec_tokenize_from(s, next, line, col + (next - i)),
                );
            }
        } else if crate::lexer::is_name_start(c) {
            crate::lexer::lemma_scan_name(s, i + 1);
            let end = crate::lexer::scan_name(s, i + 1);
            lemma_numeric_tokens_from(s, end, line, col + (end - i));
            lemma_numeric_cons(
                TokenModel { kind: TokenType::Name, text: s.subrange(i, end), line, col },
                crate::lexer::spec_tokenize_from(s, end, line, col + (end - i)),
            );
        } else if crate::lexer::is_punct(c) {
            lemma_numeric_tokens_from(s, i + 1, line, col + 1);
            lemma_numeric_cons(
                TokenModel { kind: crate::lexer::punct_kind(c), text: seq![c], line, col },
                crate::lexer::spec_tokenize_from(s, i + 1, line, col + 1),
            );
        }
    }
}

/// Whether the token's literal satisfies the numeric grammar its kind
/// promises.
pub open spec fn numeric_text_ok(t: TokenModel) -> bool {
    &&& t.kind == TokenType::Int ==> is_int_literal(t.text)
    &&& t.kind == TokenType::Float ==> is_float_literal(t.text)
}

proof fn lemma_numeric_cons(
    tm: TokenModel,
    rest: Result<Seq<TokenModel>, crate::lexer::LexErrModel>,
)
    requires
        numeric_text_ok(tm),
        rest matches Ok(rs) ==> forall|k: int| 0 <= k < rs.len() ==> numeric_text_ok(
            #[trigger] rs[k],
        ),
    ensures
        crate::lexer::lex_continue(seq![tm], rest) matches Ok(ts) ==> forall|k: int|
            0 <= k < ts.len() ==> numeric_text_ok(#[trigger] ts[k]),
{
    if let Ok(rs) = rest {
        let ts = seq![tm] + rs;
        assert forall|k: int| 0 <= k < ts.len() implies numeric_text_ok(#[trigger] ts[k]) by {
            if k > 0 {
                assert(ts[k] == rs[k - 1]);
            }
        }
    }
}

/// Every `Int` token that `tokenise` emits has a literal matching the
/// integer grammar (an optional minus sign and one or more digits), and
/// every `Float` token one matching the float grammar: the literal text of a
/// numeric token is parseable by construction, and the parser's integer
/// conversion can only be refused by the 64-bit range.
pub proof fn lemma_numeric_literals_wf(s: Seq<char>)
    ensures
        crate::lexer::spec_tokenise(s) matches Ok(ts) ==> forall|k: int|
            0 <= k < ts.len() ==> numeric_text_ok(#[trigger] ts[k]),
{
    lemma_numeric_tokens_from(s, 0, 1, 1);
}


/// Whether `s[a..b)` is a nonempty run of decimal digits.
pub open spec fn digits_run(s: Seq<char>, a: int, b: int) -> bool {
    0 <= a < b <= s.len() && forall|k: int| a <= k < b ==> is_digit(#[trigger] s[k])
}

/// Whether `s[a..)` is an exponent tail: an optional minus sign and one or
/// more digits, reaching the end.
pub open spec fn is_exp_tail(s: Seq<char>, a: int) -> bool {
    digits_run(s, a, s.len() as int) || (0 <= a < s.len() && s[a] == '-' && digits_run(
        s,
        a + 1,
        s.len() as int,
    ))
}

/// Whether `s` matches the float-literal grammar: an optional minus sign,
/// one or more digits, then a fraction (`.` and digits), an exponent (`e`,
/// an optional minus sign and digits), or both.
pub open spec fn is_float_literal(s: Seq<char>) -> bool {
    let b: int = if s.len() > 0 && s[0] == '-' {
        1
    } else {
        0
    };
    exists|p: int|
        #![auto]
        digits_run(s, b, p) && p < s.len() && ((s[p] == '.' && (digits_run(s, p + 1, s.len() as int)
            || (exists|q: int|
            #![auto]
            digits_run(s, p + 1, q) && q < s.len() && s[q] == 'e' && is_exp_tail(s, q + 1)))) || (
        s[p] == 'e' && is_exp_tail(s, p + 1)))
}

/// A `Float` token that the number scanner produces always has a literal
/// matching the float grammar.
proof fn lemma_scan_number_float_text(s: Seq<char>, i: int, line: int, col: int)
    requires
        0 <= i < s.len(),
        is_digit(s[i]) || s[i] == '-',
    ensures
        crate::lexer::scan_number(s, i, line, col) matches crate::lexer::NumScan::Done {
            kind,
            text,
            next,
        } ==> (kind == TokenType::Float ==> is_float_literal(text)),
{
    if s[i] == '-' && (i + 1 >= s.len() || !is_digit(s[i + 1])) {
        return ;
    }
    let start = if s[i] == '-' {
        i + 1
    } else {
        i
    };
    crate::lexer::lemma_scan_digits(s, start);
    let int_end = crate::lexer::scan_digits(s, start);
    if s[i] == '-' {
        assert(crate::lexer::scan_digits(s, i + 1) == crate::lexer::scan_digits(s, i + 2));
    } else {
        assert(crate::lexer::scan_digits(s, i) == crate::lexer::scan_digits(s, i + 1));
    }
    assert(start < int_end);
    if int_end < s.len() && s[int_end] == '.' {
        if !(int_end + 1 >= s.len() || !is_digit(s[int_end + 1])) {
            crate::lexer::lemma_scan_digits(s, int_end + 1);
            let frac_end = crate::lexer::scan_digits(s, int_end + 1);
            assert(crate::lexer::scan_digits(s, int_end + 1) == crate::lexer::scan_digits(
                s,
                int_end + 2,
            ));
            assert(int_end + 1 < frac_end);
            if frac_end < s.len() && (s[frac_end] == 'e' || s[frac_end] == 'E') {
                if let Ok(end) = crate::lexer::scan_exponent(s, frac_end, line, col) {
                    lemma_exp_normalized_float(s, i, start, int_end, frac_end, end);
                }
            } else {
                let text = s.subrange(i, frac_end);
                let tb: int = if s[i] == '-' {
                    1
                } else {
                    0
                };
                assert forall|k: int| 0 <= k < text.len() implies text[k] == s[i + k] by {}
                assert(digits_run(text, tb, int_end - i));
                assert(text[int_end - i] == '.');
                assert(digits_run(text, int_end - i + 1, text.len() as int));
                assert(is_float_literal(text));
            }
        }
    } else if int_end < s.len() && (s[int_end] == 'e' || s[int_end] == 'E') {
        if let Ok(end) = crate::lexer::scan_exponent(s, int_end, line, col) {
            lemma_exp_normalized_float_noint(s, i, start, int_end, end);
        }
    }
}

/// The normalized text of a number with a fraction and an exponent matches
/// the float grammar.
proof fn lemma_exp_normalized_float(s: Seq<char>, i: int, start: int, int_end: int, p: int, end: int)
    requires
        0 <= i < s.len(),
        start == (if s[i] == '-' {
            i + 1
        } else {
            i
        }),
        start < int_end <= p,
        forall|k: int| start <= k < int_end ==> is_digit(#[trigger] s[k]),
        int_end < p < s.len(),
        s[int_end] == '.',
        int_end + 1 < p,
        forall|k: int| int_end + 1 <= k < p ==> is_digit(#[trigger] s[k]),
        crate::lexer::scan_exponent(s, p, 0, 0) is Ok,
        end == crate::lexer::scan_exponent(s, p, 0, 0)->Ok_0,
    ensures
        is_float_literal(crate::lexer::exp_normalized(s, i, p, end)),
{
    lemma_exp_tail(s, p, end);
    let text = crate::lexer::exp_normalized(s, i, p, end);
    assert forall|k: int| 0 <= k < text.len() implies text[k] == (if k == p - i {
        'e'
    } else {
        s[i + k]
    }) by {
        if k > p - i {
            assert(text[k] == s.subrange(p + 1, end)[k - (p - i) - 1]);
        } else if k < p - i {
            assert(text[k] == s.subrange(i, p)[k]);
        }
    }
    let tb: int = if s[i] == '-' {
        1
    } else {
        0
    };
    assert(text.len() == end - i);
    assert(digits_run(text, tb, int_end - i));
    assert(text[int_end - i] == '.');
    assert(digits_run(text, int_end - i + 1, p - i));
    assert(text[p - i] == 'e');
    assert(is_exp_tail(text, p - i + 1));
    assert(is_float_literal(text));
}

/// The normalized text of a number with an exponent and no fraction matches
/// the float grammar.
proof fn lemma_exp_normalized_float_noint(s: Seq<char>, i: int, start: int, p: int, end: int)
    requires
        0 <= i < s.len(),
        start == (if s[i] == '-' {
            i + 1
        } else {
            i
        }),
        start < p < s.len(),
        forall|k: int| start <= k < p ==> is_digit(#[trigger] s[k]),
        crate::lexer::scan_exponent(s, p, 0, 0) is Ok,
        end == crate::lexer::scan_exponent(s, p, 0, 0)->Ok_0,
    ensures
        is_float_literal(crate::lexer::exp_normalized(s, i, p, end)),
{
    lemma_exp_tail(s, p, end);
    let text = crate::lexer::exp_normalized(s, i, p, end);
    assert forall|k: int| 0 <= k < text.len() implies text[k] == (if k == p - i {
        'e'
    } else {
        s[i + k]
    }) by {
        if k > p - i {
            assert(text[k] == s.subrange(p + 1, end)[k - (p - i) - 1]);
        } else if k < p - i {
            assert(text[k] == s.subrange(i, p)[k]);
        }
    }
    let tb: int = if s[i] == '-' {
        1
    } else {
        0
    };
    assert(text.len() == end - i);
    assert(digits_run(text, tb, p - i));
    assert(text[p - i] == 'e');
    assert(is_exp_tail(text, p - i + 1));
    assert(is_float_literal(text));
}

/// What follows a successful exponent scan: an optional minus sign and a
/// nonempty digit run reaching exactly `end`.
proof fn lemma_exp_tail(s: Seq<char>, p: int, end: int)
    requires
        0 <= p < s.len(),
        crate::lexer::scan_exponent(s, p, 0, 0) is Ok,
        end == crate::lexer::scan_exponent(s, p, 0, 0)->Ok_0,
    ensures
        p + 1 < end <= s.len(),
        s[p + 1] == '-' ==> p + 2 < end && forall|k: int|
            p + 2 <= k < end ==> is_digit(#[trigger] s[k]),
        s[p + 1] != '-' ==> forall|k: int| p + 1 <= k < end ==> is_digit(#[trigger] s[k]),
        forall|k: int| p + 2 <= k < end ==> is_digit(#[trigger] s[k]),
        end < s.len() ==> !is_digit(s[end]),
    decreases 0int,
{
    if s[p + 1] == '-' {
        crate::lexer::lemma_scan_digits(s, p + 2);
        assert(crate::lexer::scan_digits(s, p + 2) == crate::lexer::scan_digits(s, p + 3));
    } else {
        crate::lexer::lemma_scan_digits(s, p + 1);
        assert(crate::lexer::scan_digits(s, p + 1) == crate::lexer::scan_digits(s, p + 2));
    }
}

// ---------------------------------------------------------------------------
// Object insertion (last-write-wins)
// ---------------------------------------------------------------------------
/// The index of the pair holding `key`, or -1 when no pair does.
pub open spec fn find_key(pairs: Seq<(Seq<char>, NodeModel)>, key: Seq<char>) -> int
    decreases pairs.len(),
{
    if pairs.len() == 0 {
        -1
    } else if pairs[0].0 == key {
        0
    } else {
        let r = find_key(pairs.drop_first(), key);
        if r == -1 {
            -1
        } else {
            r + 1
        }
    }
}

proof fn lemma_find_key(pairs: Seq<(Seq<char>, NodeModel)>, key: Seq<char>)
    ensures
        find_key(pairs, key) == -1 ==> forall|k: int|
            0 <= k < pairs.len() ==> (#[trigger] pairs[k]).0 != key,
        find_key(pairs, key) != -1 ==> 0 <= find_key(pairs, key) < pairs.len() && pairs[find_key(
            pairs,
            key,
        )].0 == key && forall|k: int| 0 <= k < find_key(pairs, key) ==> (#[trigger] pairs[k]).0 != key,
    decreases pairs.len(),
{
    if pairs.len() > 0 && pairs[0].0 != key {
        lemma_find_key(pairs.drop_first(), key);
        assert(forall|k: int|
            1 <= k < pairs.len() ==> #[trigger] pairs[k] == pairs.drop_first()[k - 1]);
    }
}

/// Inserts `key`/`value` into a key-unique pair list: a pair already holding
/// `key` has its value overwritten in place, otherwise the new pair goes to
/// the end.
pub open spec fn obj_update(
    pairs: Seq<(Seq<char>, NodeModel)>,
    key: Seq<char>,
    value: NodeModel,
) -> Seq<(Seq<char>, NodeModel)> {
    let j = find_key(pairs, key);
    if j == -1 {
        pairs.push((key, value))
    } else {
        pairs.update(j, (key, value))
    }
}

/// Whether no two pairs share a key.
pub open spec fn keys_unique(pairs: Seq<(Seq<char>, NodeModel)>) -> bool {
    forall|j: int, k: int|
        0 <= j < k < pairs.len() ==> (#[trigger] pairs[j]).0 != (#[trigger] pairs[k]).0
}

/// Last-write-wins: inserting into a key-unique pair list keeps the keys
/// unique, leaves exactly one pair holding `key` and it holds `value` (a
/// duplicate key overwrites the earlier value), and every pair under another
/// key is kept unchanged.
pub proof fn lemma_obj_update_last_write_wins(
    pairs: Seq<(Seq<char>, NodeModel)>,
    key: Seq<char>,
    value: NodeModel,
)
    requires
        keys_unique(pairs),
    ensures
        ({
            let ps2 = obj_update(pairs, key, value);
            &&& keys_unique(ps2)
            &&& exists|j: int| 0 <= j < ps2.len() && #[trigger] ps2[j] == (key, value)
            &&& forall|j: int|
                0 <= j < ps2.len() && (#[trigger] ps2[j]).0 != key ==> pairs.contains(ps2[j])
        }),
{
    lemma_find_key(pairs, key);
    let f = find_key(pairs, key);
    let ps2 = obj_update(pairs, key, value);
    if f == -1 {
        assert(ps2[pairs.len() as int] == (key, value));
        assert forall|j: int| 0 <= j < ps2.len() && (#[trigger] ps2[j]).0 != key implies pairs.contains(
            ps2[j],
        ) by {
            assert(ps2[j] == pairs[j]);
        }
    } else {
        assert(ps2[f] == (key, value));
        assert forall|j: int| 0 <= j < ps2.len() && (#[trigger] ps2[j]).0 != key implies pairs.contains(
            ps2[j],
        ) by {
            assert(ps2[j] == pairs[j]);
        }
    }
}

// ---------------------------------------------------------------------------
// The spec-level parser
// ---------------------------------------------------------------------------
/// The result of parsing one simple token: a number, string, or one of the
/// literal names `true`, `false`, `null`.
pub open spec fn spec_parse_simple(t: TokenModel) -> Result<NodeModel, SynErrModel>
    recommends
        t.kind == TokenType::Int || t.kind == TokenType::Float || t.kind == TokenType::String
            || t.kind == TokenType::Name,
{
    if t.kind == TokenType::Int {
        if is_int_literal(t.text) && i64::MIN <= int_literal_value(t.text) <= i64::MAX {
            Ok(NodeModel::Integer(int_literal_value(t.text) as i64))
        } else {
            Err(SynErrModel::MalformedNumber(t))
        }
    } else if t.kind == TokenType::Float {
        Ok(NodeModel::Float(t.text))
    } else if t.kind == TokenType::String {
        Ok(NodeModel::String(t.text))
    } else {
        if t.text == "true"@ {
            Ok(NodeModel::Bool(true))
        } else if t.text == "false"@ {
            Ok(NodeModel::Bool(false))
        } else if t.text == "null"@ {
            Ok(NodeModel::Null)
        } else {
            Err(SynErrModel::InvalidLiteralName(t))
        }
    }
}

/// Whether the token kind opens a simple value.
pub open spec fn is_simple_kind(k: TokenType) -> bool {
    k == TokenType::Int || k == TokenType::Float || k == TokenType::String || k == TokenType::Name
}

/// Parses one value starting at index `i`; yields the node and the index
/// just past it.
pub open spec fn spec_parse_value(ts: Seq<TokenModel>, i: int) -> Result<
    (NodeModel, int),
    SynErrModel,
>
    decreases ts.len() - i, 0int,
        when 0 <= i <= ts.len()
{
    if i >= ts.len() {
        Err(SynErrModel::UnexpectedEOF { line: eof_pos(ts).0, column: eof_pos(ts).1 })
    } else {
        let t = ts[i];
        if is_simple_kind(t.kind) {
            match spec_parse_simple(t) {
                Ok(n) => Ok((n, i + 1)),
                Err(m) => Err(m),
            }
        } else if t.kind == TokenType::LBrace {
            match spec_object_first(ts, i + 1) {
                Ok(p) => Ok((NodeModel::Object(p.0), p.1)),
                Err(m) => Err(m),
            }
        } else if t.kind == TokenType::LSqBrac {
            match spec_array_first(ts, i + 1) {
                Ok(p) => Ok((NodeModel::Array(p.0), p.1)),
                Err(m) => Err(m),
            }
        } else {
            Err(SynErrModel::UnexpectedToken(t))
        }
    }
}

/// Parses one `key: value` pair starting at index `i`; yields the key, the
/// value and the index just past the pair.
pub open spec fn spec_parse_pair(ts: Seq<TokenModel>, i: int) -> Result<
    (Seq<char>, NodeModel, int),
    SynErrModel,
>
    decreases ts.len() - i, 0int,
        when 0 <= i <= ts.len()
{
    if i >= ts.len() {
        Err(SynErrModel::UnexpectedEOF { line: eof_pos(ts).0, column: eof_pos(ts).1 })
    } else if ts[i].kind != TokenType::String {
        Err(SynErrModel::UnexpectedToken(ts[i]))
    } else if i + 1 >= ts.len() {
        Err(SynErrModel::UnexpectedEOF { line: eof_pos(ts).0, column: eof_pos(ts).1 })
    } else if ts[i + 1].kind != TokenType::Colon {
        Err(SynErrModel::UnexpectedToken(ts[i + 1]))
    } else {
        match spec_parse_value(ts, i + 2) {
            Ok(p) => Ok((ts[i].text, p.0, p.1)),
            Err(m) => Err(m),
        }
    }
}

/// Parses what follows `{`: either an immediate `}` or one or more pairs.
pub open spec fn spec_object_first(ts: Seq<TokenModel>, i: int) -> Result<
    (Seq<(Seq<char>, NodeModel)>, int),
    SynErrModel,
>
    decreases ts.len() - i, 2int,
        when 0 <= i <= ts.len()
{
    if i >= ts.len() {
        Err(SynErrModel::UnexpectedEOF { line: eof_pos(ts).0, column: eof_pos(ts).1 })
    } else if ts[i].kind == TokenType::RBrace {
        Ok((Seq::empty(), i + 1))
    } else {
        spec_object_rest(ts, i, Seq::empty())
    }
}

/// Parses pairs from index `i` on (a pair is expected there), accumulating
/// into `acc`, until the closing `}`.
pub open spec fn spec_object_rest(
    ts: Seq<TokenModel>,
    i: int,
    acc: Seq<(Seq<char>, NodeModel)>,
) -> Result<(Seq<(Seq<char>, NodeModel)>, int), SynErrModel>
    decreases ts.len() - i, 1int,
        when 0 <= i <= ts.len()
{
    match spec_parse_pair(ts, i) {
        Ok(p) => {
            let acc2 = obj_update(acc, p.0, p.1);
            let j = if p.2 <= i {
                i + 1
            } else {
                p.2
            };
            if j >= ts.len() {
                Err(SynErrModel::UnexpectedEOF { line: eof_pos(ts).0, column: eof_pos(ts).1 })
            } else if ts[j].kind == TokenType::Comma {
                spec_object_rest(ts, j + 1, acc2)
            } else if ts[j].kind == TokenType::RBrace {
                Ok((acc2, j + 1))
            } else {
                Err(SynErrModel::UnexpectedToken(ts[j]))
            }
        },
        Err(m) => Err(m),
    }
}

/// Parses what follows `[`: either an immediate `]` or one or more values.
pub open spec fn spec_array_first(ts: Seq<TokenModel>, i: int) -> Result<
    (Seq<NodeModel>, int),
    SynErrModel,
>
    decreases ts.len() - i, 2int,
        when 0 <= i <= ts.len()
{
    if i >= ts.len() {
        Err(SynErrModel::UnexpectedEOF { line: eof_pos(ts).0, column: eof_pos(ts).1 })
    } else if ts[i].kind == TokenType::RSqBrac {
        Ok((Seq::empty(), i + 1))
    } else {
        spec_array_rest(ts, i, Seq::empty())
    }
}

/// Parses values from index `i` on (a value is expected there), accumulating
/// into `acc`, until the closing `]`.
pub open spec fn spec_array_rest(ts: Seq<TokenModel>, i: int, acc: Seq<NodeModel>) -> Result<
    (Seq<NodeModel>, int),
    SynErrModel,
>
    decreases ts.len() - i, 1int,
        when 0 <= i <= ts.len()
{
    match spec_parse_value(ts, i) {
        Ok(p) => {
            let j = if p.1 <= i {
                i + 1
            } else {
                p.1
            };
            if j >= ts.len() {
                Err(SynErrModel::UnexpectedEOF { line: eof_pos(ts).0, column: eof_pos(ts).1 })
            } else if ts[j].kind == TokenType::Comma {
                spec_array_rest(ts, j + 1, acc.push(p.0))
            } else if ts[j].kind == TokenType::RSqBrac {
                Ok((acc.push(p.0), j + 1))
            } else {
                Err(SynErrModel::UnexpectedToken(ts[j]))
            }
        },
        Err(m) => Err(m),
    }
}

/// The root parse of a whole token list: the `Empty` sentinel for a
/// zero-token list, otherwise one value that must consume every token.
pub open spec fn spec_parse(ts: Seq<TokenModel>) -> Result<NodeModel, SynErrModel> {
    if ts.len() == 0 {
        Ok(NodeModel::Empty)
    } else {
        match spec_parse_value(ts, 0) {
            Ok(p) => if p.1 == ts.len() {
                Ok(p.0)
            } else {
                Err(SynErrModel::TrailingTokens(ts.subrange(p.1, ts.len() as int)))
            },
            Err(m) => Err(m),
        }
    }
}

/// Every successful parse of a value, pair or item list stops strictly past
/// where it started and within the token list.
proof fn lemma_parse_value_advances(ts: Seq<TokenModel>, i: int)
    requires
        0 <= i <= ts.len(),
    ensures
        spec_parse_value(ts, i) matches Ok(p) ==> i < p.1 <= ts.len(),
    decreases ts.len() - i, 0int,
{
    if i < ts.len() {
        let t = ts[i];
        if t.kind == TokenType::LBrace {
            lemma_object_first_advances(ts, i + 1);
        } else if t.kind == TokenType::LSqBrac {
            lemma_array_first_advances(ts, i + 1);
        }
    }
}

proof fn lemma_parse_pair_advances(ts: Seq<TokenModel>, i: int)
    requires
        0 <= i <= ts.len(),
    ensures
        spec_parse_pair(ts, i) matches Ok(p) ==> i + 2 < p.2 <= ts.len(),
    decreases ts.len() - i, 0int,
{
    if i + 1 < ts.len() && ts[i].kind == TokenType::String && ts[i + 1].kind == TokenType::Colon {
        lemma_parse_value_advances(ts, i + 2);
    }
}

proof fn lemma_object_first_advances(ts: Seq<TokenModel>, i: int)
    requires
        0 <= i <= ts.len(),
    ensures
        spec_object_first(ts, i) matches Ok(p) ==> i < p.1 <= ts.len(),
    decreases ts.len() - i, 2int,
{
    if i < ts.len() && ts[i].kind != TokenType::RBrace {
        lemma_object_rest_advances(ts, i, Seq::empty());
    }
}

proof fn lemma_object_rest_advances(ts: Seq<TokenModel>, i: int, acc: Seq<(Seq<char>, NodeModel)>)
    requires
        0 <= i <= ts.len(),
    ensures
        spec_object_rest(ts, i, acc) matches Ok(p) ==> i < p.1 <= ts.len(),
    decreases ts.len() - i, 1int,
{
    lemma_parse_pair_advances(ts, i);
    if let Ok(p) = spec_parse_pair(ts, i) {
        let acc2 = obj_update(acc, p.0, p.1);
        let j = if p.2 <= i {
            i + 1
        } else {
            p.2
        };
        if j < ts.len() && ts[j].kind == TokenType::Comma {
            lemma_object_rest_advances(ts, j + 1, acc2);
        }
    }
}

proof fn lemma_array_first_advances(ts: Seq<TokenModel>, i: int)
    requires
        0 <= i <= ts.len(),
    ensures
        spec_array_first(ts, i) matches Ok(p) ==> i < p.1 <= ts.len(),
    decreases ts.len() - i, 2int,
{
    if i < ts.len() && ts[i].kind != TokenType::RSqBrac {
        lemma_array_rest_advances(ts, i, Seq::empty());
    }
}

proof fn lemma_array_rest_advances(ts: Seq<TokenModel>, i: int, acc: Seq<NodeModel>)
    requires
        0 <= i <= ts.len(),
    ensures
        spec_array_rest(ts, i, acc) matches Ok(p) ==> i < p.1 <= ts.len(),
    decreases ts.len() - i, 1int,
{
    lemma_parse_value_advances(ts, i);
    if let Ok(p) = spec_parse_value(ts, i) {
        let j = if p.1 <= i {
            i + 1
        } else {
            p.1
        };
        if j < ts.len() && ts[j].kind == TokenType::Comma {
            lemma_array_rest_advances(ts, j + 1, acc.push(p.0));
        }
    }
}

/// Whether every object anywhere in the tree keeps its keys unique.
pub open spec fn node_wf(n: NodeModel) -> bool
    decreases n,
{
    match n {
        NodeModel::Array(items) => nodes_wf(items),
        NodeModel::Object(pairs) => keys_unique(pairs) && pairs_wf(pairs),
        _ => true,
    }
}

/// Whether every node of the sequence is well-formed.
pub open spec fn nodes_wf(items: Seq<NodeModel>) -> bool
    decreases items,
{
    if items.len() == 0 {
        true
    } else {
        nodes_wf(items.drop_last()) && node_wf(items.last())
    }
}

/// Whether every value of the pair sequence is well-formed.
pub open spec fn pairs_wf(pairs: Seq<(Seq<char>, NodeModel)>) -> bool
    decreases pairs,
{
    if pairs.len() == 0 {
        true
    } else {
        pairs_wf(pairs.drop_last()) && node_wf(pairs.last().1)
    }
}

proof fn lemma_pairs_wf_elems(pairs: Seq<(Seq<char>, NodeModel)>)
    ensures
        pairs_wf(pairs) <==> (forall|k: int|
            0 <= k < pairs.len() ==> node_wf((#[trigger] pairs[k]).1)),
    decreases pairs.len(),
{
    if pairs.len() > 0 {
        lemma_pairs_wf_elems(pairs.drop_last());
        assert(forall|k: int|
            0 <= k < pairs.len() - 1 ==> #[trigger] pairs[k] == pairs.drop_last()[k]);
        assert(pairs.last() == pairs[pairs.len() - 1]);
    }
}

proof fn lemma_wf_value(ts: Seq<TokenModel>, i: int)
    requires
        0 <= i <= ts.len(),
    ensures
        spec_parse_value(ts, i) matches Ok(p) ==> node_wf(p.0),
    decreases ts.len() - i, 0int,
{
    if i < ts.len() {
        let t = ts[i];
        if t.kind == TokenType::LBrace {
            lemma_wf_object_first(ts, i + 1);
        } else if t.kind == TokenType::LSqBrac {
            lemma_wf_array_first(ts, i + 1);
        }
    }
}

proof fn lemma_wf_pair(ts: Seq<TokenModel>, i: int)
    requires
        0 <= i <= ts.len(),
    ensures
        spec_parse_pair(ts, i) matches Ok(p) ==> node_wf(p.1),
    decreases ts.len() - i, 0int,
{
    if i + 1 < ts.len() && ts[i].kind == TokenType::String && ts[i + 1].kind == TokenType::Colon {
        lemma_wf_value(ts, i + 2);
    }
}

proof fn lemma_wf_object_first(ts: Seq<TokenModel>, i: int)
    requires
        0 <= i <= ts.len(),
    ensures
        spec_object_first(ts, i) matches Ok(p) ==> keys_unique(p.0) && pairs_wf(p.0),
    decreases ts.len() - i, 2int,
{
    if i < ts.len() && ts[i].kind != TokenType::RBrace {
        lemma_wf_object_rest(ts, i, Seq::empty());
    }
}

proof fn lemma_wf_object_rest(ts: Seq<TokenModel>, i: int, acc: Seq<(Seq<char>, NodeModel)>)
    requires
        0 <= i <= ts.len(),
        keys_unique(acc),
        pairs_wf(acc),
    ensures
        spec_object_rest(ts, i, acc) matches Ok(p) ==> keys_unique(p.0) && pairs_wf(p.0),
    decreases ts.len() - i, 1int,
{
    lemma_wf_pair(ts, i);
    if let Ok(p) = spec_parse_pair(ts, i) {
        let acc2 = obj_update(acc, p.0, p.1);
        lemma_obj_update_last_write_wins(acc, p.0, p.1);
        assert(pairs_wf(acc2)) by {
            lemma_pairs_wf_elems(acc);
            lemma_find_key(acc, p.0);
            let f = find_key(acc, p.0);
            if f == -1 {
                assert(acc2.drop_last() =~= acc);
            }
            lemma_pairs_wf_elems(acc2);
        }
        let j = if p.2 <= i {
            i + 1
        } else {
            p.2
        };
        if j < ts.len() && ts[j].kind == TokenType::Comma {
            lemma_wf_object_rest(ts, j + 1, acc2);
        }
    }
}

proof fn lemma_wf_array_first(ts: Seq<TokenModel>, i: int)
    requires
        0 <= i <= ts.len(),
    ensures
        spec_array_first(ts, i) matches Ok(p) ==> nodes_wf(p.0),
    decreases ts.len() - i, 2int,
{
    if i < ts.len() && ts[i].kind != TokenType::RSqBrac {
        lemma_wf_array_rest(ts, i, Seq::empty());
    }
}

proof fn lemma_wf_array_rest(ts: Seq<TokenModel>, i: int, acc: Seq<NodeModel>)
    requires
        0 <= i <= ts.len(),
        nodes_wf(acc),
    ensures
        spec_array_rest(ts, i, acc) matches Ok(p) ==> nodes_wf(p.0),
    decreases ts.len() - i, 1int,
{
    lemma_wf_value(ts, i);
    if let Ok(p) = spec_parse_value(ts, i) {
        assert(acc.push(p.0).drop_last() =~= acc);
        let j = if p.1 <= i {
            i + 1
        } else {
            p.1
        };
        if j < ts.len() && ts[j].kind == TokenType::Comma {
            lemma_wf_array_rest(ts, j + 1, acc.push(p.0));
        }
    }
}

/// Every tree that `parse` accepts is well-formed: every object anywhere in
/// it keeps its keys unique (duplicate keys were overwritten during
/// parsing, not kept).
pub proof fn lemma_parse_keys_unique(ts: Seq<TokenModel>)
    ensures
        spec_parse(ts) matches Ok(m) ==> node_wf(m),
{
    if ts.len() > 0 {
        lemma_wf_value(ts, 0);
    }
}


// ---------------------------------------------------------------------------
// Round trip: canonical token list of a tree
// ---------------------------------------------------------------------------
/// A token of the canonical token list of a tree: what a serializer would
/// emit, at the token level.  Rendered tokens all carry position line 1,
/// column 1; the parser never reads positions of well-formed input.
pub open spec fn render_tok(kind: TokenType, text: Seq<char>) -> TokenModel {
    TokenModel { kind, text, line: 1, col: 1 }
}

/// The decimal literal of `x`, with a leading minus sign when negative.
pub open spec fn int_literal_text(x: i64) -> Seq<char> {
    if x < 0 {
        seq!['-'] + crate::utils::dec_str(-(x as int))
    } else {
        crate::utils::dec_str(x as int)
    }
}

/// The canonical token list of a tree: each scalar is one token, arrays and
/// objects are their delimiters around comma-separated elements.  The
/// `Empty` sentinel renders to no tokens.
pub open spec fn render_tokens(n: NodeModel) -> Seq<TokenModel>
    decreases n,
{
    match n {
        NodeModel::Integer(x) => seq![render_tok(TokenType::Int, int_literal_text(x))],
        NodeModel::String(s) => seq![render_tok(TokenType::String, s)],
        NodeModel::Float(s) => seq![render_tok(TokenType::Float, s)],
        NodeModel::Bool(b) => seq![
            render_tok(TokenType::Name, if b { "true"@ } else { "false"@ }),
        ],
        NodeModel::Null => seq![render_tok(TokenType::Name, "null"@)],
        NodeModel::Array(items) => seq![render_tok(TokenType::LSqBrac, seq!['['])]
            + render_items(items) + seq![render_tok(TokenType::RSqBrac, seq![']'])],
        NodeModel::Object(pairs) => seq![render_tok(TokenType::LBrace, seq!['{'])]
            + render_pairs(pairs) + seq![render_tok(TokenType::RBrace, seq!['}'])],
        NodeModel::Empty => Seq::empty(),
    }
}

/// The canonical tokens of the comma-separated element list.
pub open spec fn render_items(items: Seq<NodeModel>) -> Seq<TokenModel>
    decreases items,
{
    if items.len() == 0 {
        Seq::empty()
    } else {
        render_tokens(items.first()) + render_items_rest(items.drop_first())
    }
}

/// The canonical tokens of the elements after the first, each preceded by a
/// comma.
pub open spec fn render_items_rest(items: Seq<NodeModel>) -> Seq<TokenModel>
    decreases items,
{
    if items.len() == 0 {
        Seq::empty()
    } else {
        seq![render_tok(TokenType::Comma, seq![','])] + render_tokens(items.first())
            + render_items_rest(items.drop_first())
    }
}

/// The canonical tokens of the comma-separated pair list; each pair is its
/// key as a string token, a colon, and the value's tokens.
pub open spec fn render_pairs(pairs: Seq<(Seq<char>, NodeModel)>) -> Seq<TokenModel>
    decreases pairs,
{
    if pairs.len() == 0 {
        Seq::empty()
    } else {
        seq![
            render_tok(TokenType::String, pairs.first().0),
            render_tok(TokenType::Colon, seq![':']),
        ] + render_tokens(pairs.first().1) + render_pairs_rest(pairs.drop_first())
    }
}

/// The canonical tokens of the pairs after the first, each preceded by a
/// comma.
pub open spec fn render_pairs_rest(pairs: Seq<(Seq<char>, NodeModel)>) -> Seq<TokenModel>
    decreases pairs,
{
    if pairs.len() == 0 {
        Seq::empty()
    } else {
        seq![
            render_tok(TokenType::Comma, seq![',']),
            render_tok(TokenType::String, pairs.first().0),
            render_tok(TokenType::Colon, seq![':']),
        ] + render_tokens(pairs.first().1) + render_pairs_rest(pairs.drop_first())
    }
}

/// Whether a tree can stand for a document value: no `Empty` sentinel inside
/// it, and every object keeps its keys unique.
pub open spec fn renderable(n: NodeModel) -> bool
    decreases n,
{
    match n {
        NodeModel::Array(items) => renderable_items(items),
        NodeModel::Object(pairs) => keys_unique(pairs) && renderable_pairs(pairs),
        NodeModel::Empty => false,
        _ => true,
    }
}

/// Whether every element of the sequence is renderable.
pub open spec fn renderable_items(items: Seq<NodeModel>) -> bool
    decreases items,
{
    if items.len() == 0 {
        true
    } else {
        renderable(items.first()) && renderable_items(items.drop_first())
    }
}

/// Whether every value of the pair sequence is renderable.
pub open spec fn renderable_pairs(pairs: Seq<(Seq<char>, NodeModel)>) -> bool
    decreases pairs,
{
    if pairs.len() == 0 {
        true
    } else {
        renderable(pairs.first().1) && renderable_pairs(pairs.drop_first())
    }
}

proof fn lemma_dec_str_digits(v: int)
    requires
        v >= 0,
    ensures
        all_digits(crate::utils::dec_str(v)),
        digits_value(crate::utils::dec_str(v)) == v,
        crate::utils::dec_str(v).len() >= 1,
    decreases v,
{
    let d = crate::utils::dec_str(v);
    if v < 10 {
        assert(d =~= seq![crate::utils::dec_digit(v)]);
        assert(d.len() == 1);
        assert(d.last() == crate::utils::dec_digit(v));
        assert(d.drop_last() =~= Seq::<char>::empty());
        assert(digits_value(d.drop_last()) == 0);
        assert(is_digit(crate::utils::dec_digit(v)));
        assert(digits_value(d) == crate::utils::dec_digit(v) as u32 - '0' as u32);
    } else {
        lemma_dec_str_digits(v / 10);
        assert(d.drop_last() =~= crate::utils::dec_str(v / 10));
        assert(d.last() == crate::utils::dec_digit(v % 10));
        assert(is_digit(crate::utils::dec_digit(v % 10)));
        assert forall|k: int| 0 <= k < d.len() implies is_digit(#[trigger] d[k]) by {
            if k < d.len() - 1 {
                assert(d[k] == crate::utils::dec_str(v / 10)[k]);
            }
        }
        assert(digits_value(d) == digits_value(d.drop_last()) * 10 + (d.last() as u32 - '0' as u32));
    }
}

proof fn lemma_int_literal_text(x: i64)
    ensures
        is_int_literal(int_literal_text(x)),
        int_literal_value(int_literal_text(x)) == x as int,
{
    let t = int_literal_text(x);
    if x < 0 {
        lemma_dec_str_digits(-(x as int));
        assert(t.skip(1) =~= crate::utils::dec_str(-(x as int)));
        assert(t[0] == '-');
    } else {
        lemma_dec_str_digits(x as int);
        assert(is_digit(t[0]));
    }
}


#[verifier::spinoff_prover]
#[verifier::rlimit(50)]
proof fn lemma_render_value_parses(n: NodeModel, ts: Seq<TokenModel>, i: int)
    requires
        renderable(n),
        0 <= i,
        i + render_tokens(n).len() <= ts.len(),
        ts.subrange(i, i + render_tokens(n).len() as int) == render_tokens(n),
    ensures
        render_tokens(n).len() >= 1,
        is_simple_kind(render_tokens(n)[0].kind) || render_tokens(n)[0].kind == TokenType::LBrace
            || render_tokens(n)[0].kind == TokenType::LSqBrac,
        spec_parse_value(ts, i) == Ok::<(NodeModel, int), SynErrModel>(
            (n, i + render_tokens(n).len()),
        ),
    decreases n,
{
    let r = render_tokens(n);
    assert(forall|k: int| 0 <= k < r.len() ==> ts[i + k] == #[trigger] r[k]) by {
        assert forall|k: int| 0 <= k < r.len() implies ts[i + k] == #[trigger] r[k] by {
            assert(r[k] == ts.subrange(i, i + r.len() as int)[k]);
        }
    }
    assert(ts[i] == r[0]);
    match n {
        NodeModel::Integer(x) => {
            lemma_int_literal_text(x);
            assert(ts[i].kind == TokenType::Int);
            assert(is_int_literal(ts[i].text) && int_literal_value(ts[i].text) == x as int);
            assert(spec_parse_simple(ts[i]) == Ok::<NodeModel, SynErrModel>(NodeModel::Integer(x)));
            assert(r.len() == 1);
            assert(i < ts.len());
            assert(is_simple_kind(ts[i].kind));
            assert(spec_parse_value(ts, i) == Ok::<(NodeModel, int), SynErrModel>((n, i + 1)));
            assert(i + render_tokens(n).len() == i + 1);
            assert(spec_parse_value(ts, i) == Ok::<(NodeModel, int), SynErrModel>(
                (n, i + render_tokens(n).len()),
            ));
        },
        NodeModel::String(s) => {
            assert(spec_parse_value(ts, i) == Ok::<(NodeModel, int), SynErrModel>((n, i + 1)));
            assert(spec_parse_value(ts, i) == Ok::<(NodeModel, int), SynErrModel>(
                (n, i + render_tokens(n).len()),
            ));
        },
        NodeModel::Float(s) => {
            assert(spec_parse_value(ts, i) == Ok::<(NodeModel, int), SynErrModel>((n, i + 1)));
            assert(spec_parse_value(ts, i) == Ok::<(NodeModel, int), SynErrModel>(
                (n, i + render_tokens(n).len()),
            ));
        },
        NodeModel::Bool(b) => {
            reveal_strlit("true");
            reveal_strlit("false");
            if !b {
                assert("false"@.len() == 5 && "true"@.len() == 4);
            }
            assert(spec_parse_value(ts, i) == Ok::<(NodeModel, int), SynErrModel>((n, i + 1)));
            assert(spec_parse_value(ts, i) == Ok::<(NodeModel, int), SynErrModel>(
                (n, i + render_tokens(n).len()),
            ));
        },
        NodeModel::Null => {
            reveal_strlit("null");
            reveal_strlit("true");
            reveal_strlit("false");
            assert("null"@[0] == 'n' && "true"@[0] == 't');
            assert("null"@.len() == 4 && "false"@.len() == 5);
            assert(spec_parse_value(ts, i) == Ok::<(NodeModel, int), SynErrModel>((n, i + 1)));
            assert(spec_parse_value(ts, i) == Ok::<(NodeModel, int), SynErrModel>(
                (n, i + render_tokens(n).len()),
            ));
        },
        NodeModel::Array(items) => {
            let close = render_tok(TokenType::RSqBrac, seq![']']);
            if items.len() == 0 {
                assert(render_items(items) =~= Seq::<TokenModel>::empty());
                assert(r =~= seq![render_tok(TokenType::LSqBrac, seq!['['])] + Seq::<
                    TokenModel,
                >::empty() + seq![close]);
                assert(r.len() == 2);
                assert(ts[i + 1] == r[1]);
                assert(r[1] == close);
                assert(spec_array_first(ts, i + 1) == Ok::<(Seq<NodeModel>, int), SynErrModel>(
                    (Seq::empty(), i + 2),
                ));
                assert(items =~= Seq::<NodeModel>::empty());
                assert(spec_parse_value(ts, i) == Ok::<(NodeModel, int), SynErrModel>(
                    (n, i + r.len()),
                ));
            } else {
                let tail = render_tokens(items.first()) + render_items_rest(items.drop_first())
                    + seq![close];
                assert(render_items(items) == render_tokens(items.first()) + render_items_rest(
                    items.drop_first(),
                ));
                assert(r =~= seq![render_tok(TokenType::LSqBrac, seq!['['])] + tail);
                assert(ts.subrange(i + 1, i + 1 + tail.len() as int) =~= tail) by {
                    assert forall|k: int| 0 <= k < tail.len() implies ts.subrange(
                        i + 1,
                        i + 1 + tail.len() as int,
                    )[k] == #[trigger] tail[k] by {
                        assert(ts.subrange(i + 1, i + 1 + tail.len() as int)[k] == ts[i + 1 + k]);
                        assert(r[k + 1] == tail[k]);
                    }
                }
                lemma_render_array_rest(items, Seq::empty(), ts, i + 1);
                assert(ts[i + 1] == tail[0]);
                assert(ts[i + 1].kind != TokenType::RSqBrac);
                assert(Seq::<NodeModel>::empty() + items =~= items);
                assert(r.len() == 1 + tail.len());
                assert(spec_parse_value(ts, i) == Ok::<(NodeModel, int), SynErrModel>(
                    (n, i + r.len()),
                ));
            }
        },
        NodeModel::Object(pairs) => {
            let close = render_tok(TokenType::RBrace, seq!['}']);
            if pairs.len() == 0 {
                assert(render_pairs(pairs) =~= Seq::<TokenModel>::empty());
                assert(r =~= seq![render_tok(TokenType::LBrace, seq!['{'])] + Seq::<
                    TokenModel,
                >::empty() + seq![close]);
                assert(r.len() == 2);
                assert(ts[i + 1] == r[1]);
                assert(r[1] == close);
                assert(spec_object_first(ts, i + 1) == Ok::<
                    (Seq<(Seq<char>, NodeModel)>, int),
                    SynErrModel,
                >((Seq::empty(), i + 2)));
                assert(pairs =~= Seq::<(Seq<char>, NodeModel)>::empty());
                assert(spec_parse_value(ts, i) == Ok::<(NodeModel, int), SynErrModel>(
                    (n, i + r.len()),
                ));
            } else {
                let tail = seq![
                    render_tok(TokenType::String, pairs.first().0),
                    render_tok(TokenType::Colon, seq![':']),
                ] + render_tokens(pairs.first().1) + render_pairs_rest(pairs.drop_first()) + seq![
                    close,
                ];
                assert(r =~= seq![render_tok(TokenType::LBrace, seq!['{'])] + tail);
                assert(ts.subrange(i + 1, i + 1 + tail.len() as int) =~= tail) by {
                    assert forall|k: int| 0 <= k < tail.len() implies ts.subrange(
                        i + 1,
                        i + 1 + tail.len() as int,
                    )[k] == #[trigger] tail[k] by {
                        assert(ts.subrange(i + 1, i + 1 + tail.len() as int)[k] == ts[i + 1 + k]);
                        assert(r[k + 1] == tail[k]);
                    }
                }
                lemma_render_object_rest(pairs, Seq::empty(), ts, i + 1);
                assert(ts[i + 1] == tail[0]);
                assert(ts[i + 1].kind != TokenType::RBrace);
                assert(Seq::<(Seq<char>, NodeModel)>::empty() + pairs =~= pairs);
                assert(r.len() == 1 + tail.len());
                assert(spec_parse_value(ts, i) == Ok::<(NodeModel, int), SynErrModel>(
                    (n, i + r.len()),
                ));
            }
        },
        NodeModel::Empty => {
            assert(false);
        },
    }
}

proof fn lemma_render_array_rest(
    items: Seq<NodeModel>,
    acc: Seq<NodeModel>,
    ts: Seq<TokenModel>,
    i: int,
)
    requires
        items.len() >= 1,
        renderable_items(items),
        0 <= i,
        i + render_tokens(items.first()).len() + render_items_rest(items.drop_first()).len() + 1
            <= ts.len(),
        ts.subrange(
            i,
            i + render_tokens(items.first()).len() + render_items_rest(items.drop_first()).len()
                + 1,
        ) == render_tokens(items.first()) + render_items_rest(items.drop_first()) + seq![
            render_tok(TokenType::RSqBrac, seq![']']),
        ],
    ensures
        spec_array_rest(ts, i, acc) == Ok::<(Seq<NodeModel>, int), SynErrModel>(
            (
                acc + items,
                i + render_tokens(items.first()).len() + render_items_rest(
                    items.drop_first(),
                ).len() + 1,
            ),
        ),
        ts[i] == render_tokens(items.first())[0],
    decreases items,
{
    let first = items.first();
    let rest = items.drop_first();
    let r1 = render_tokens(first);
    let close = render_tok(TokenType::RSqBrac, seq![']']);
    let tail = r1 + render_items_rest(rest) + seq![close];
    assert(forall|k: int| 0 <= k < tail.len() ==> ts[i + k] == #[trigger] tail[k]) by {
        assert forall|k: int| 0 <= k < tail.len() implies ts[i + k] == #[trigger] tail[k] by {
            assert(tail[k] == ts.subrange(i, i + tail.len() as int)[k]);
        }
    }
    assert(ts.subrange(i, i + r1.len() as int) =~= r1) by {
        assert forall|k: int| 0 <= k < r1.len() implies ts.subrange(i, i + r1.len() as int)[k]
            == #[trigger] r1[k] by {
            assert(ts.subrange(i, i + r1.len() as int)[k] == ts[i + k]);
            assert(tail[k] == r1[k]);
        }
    }
    lemma_render_value_parses(first, ts, i);
    let j = i + r1.len() as int;
    assert(ts[i] == tail[0]);
    if rest.len() == 0 {
        assert(render_items_rest(rest) =~= Seq::<TokenModel>::empty());
        assert(tail =~= r1 + seq![close]);
        assert(ts[j] == tail[r1.len() as int]);
        assert(ts[j] == close);
        assert(acc.push(first) =~= acc + items);
    } else {
        let tail2 = render_tokens(rest.first()) + render_items_rest(rest.drop_first()) + seq![
            close,
        ];
        assert(render_items_rest(rest) == seq![render_tok(TokenType::Comma, seq![','])]
            + render_tokens(rest.first()) + render_items_rest(rest.drop_first()));
        assert(tail =~= r1 + seq![render_tok(TokenType::Comma, seq![','])] + tail2);
        assert(ts[j] == tail[r1.len() as int]);
        assert(ts[j].kind == TokenType::Comma);
        assert(ts.subrange(j + 1, j + 1 + tail2.len() as int) =~= tail2) by {
            assert forall|k: int| 0 <= k < tail2.len() implies ts.subrange(
                j + 1,
                j + 1 + tail2.len() as int,
            )[k] == #[trigger] tail2[k] by {
                assert(ts.subrange(j + 1, j + 1 + tail2.len() as int)[k] == ts[j + 1 + k]);
                assert(tail[r1.len() as int + 1 + k] == tail2[k]);
            }
        }
        lemma_render_array_rest(rest, acc.push(first), ts, j + 1);
        assert(acc.push(first) + rest =~= acc + items);
        assert(tail.len() == r1.len() + 1 + tail2.len());
    }
}

proof fn lemma_render_object_rest(
    pairs: Seq<(Seq<char>, NodeModel)>,
    acc: Seq<(Seq<char>, NodeModel)>,
    ts: Seq<TokenModel>,
    i: int,
)
    requires
        pairs.len() >= 1,
        keys_unique(acc + pairs),
        renderable_pairs(pairs),
        0 <= i,
        i + 2 + render_tokens(pairs.first().1).len() + render_pairs_rest(pairs.drop_first()).len()
            + 1 <= ts.len(),
        ts.subrange(
            i,
            i + 2 + render_tokens(pairs.first().1).len() + render_pairs_rest(
                pairs.drop_first(),
            ).len() + 1,
        ) == seq![
            render_tok(TokenType::String, pairs.first().0),
            render_tok(TokenType::Colon, seq![':']),
        ] + render_tokens(pairs.first().1) + render_pairs_rest(pairs.drop_first()) + seq![
            render_tok(TokenType::RBrace, seq!['}']),
        ],
    ensures
        spec_object_rest(ts, i, acc) == Ok::<(Seq<(Seq<char>, NodeModel)>, int), SynErrModel>(
            (
                acc + pairs,
                i + 2 + render_tokens(pairs.first().1).len() + render_pairs_rest(
                    pairs.drop_first(),
                ).len() + 1,
            ),
        ),
        ts[i].kind == TokenType::String,
    decreases pairs,
{
    let key = pairs.first().0;
    let val = pairs.first().1;
    let rest = pairs.drop_first();
    let rv = render_tokens(val);
    let close = render_tok(TokenType::RBrace, seq!['}']);
    let tail = seq![render_tok(TokenType::String, key), render_tok(TokenType::Colon, seq![':'])]
        + rv + render_pairs_rest(rest) + seq![close];
    assert(forall|k: int| 0 <= k < tail.len() ==> ts[i + k] == #[trigger] tail[k]) by {
        assert forall|k: int| 0 <= k < tail.len() implies ts[i + k] == #[trigger] tail[k] by {
            assert(tail[k] == ts.subrange(i, i + tail.len() as int)[k]);
        }
    }
    assert(ts[i] == tail[0]);
    assert(ts[i + 1] == tail[1]);
    assert(ts.subrange(i + 2, i + 2 + rv.len() as int) =~= rv) by {
        assert forall|k: int| 0 <= k < rv.len() implies ts.subrange(i + 2, i + 2 + rv.len() as int)[k]
            == #[trigger] rv[k] by {
            assert(ts.subrange(i + 2, i + 2 + rv.len() as int)[k] == ts[i + 2 + k]);
            assert(tail[2 + k] == rv[k]);
        }
    }
    lemma_render_value_parses(val, ts, i + 2);
    let j = i + 2 + rv.len() as int;
    assert(spec_parse_pair(ts, i) == Ok::<(Seq<char>, NodeModel, int), SynErrModel>(
        (key, val, j),
    ));
    // the first key is not among the accumulated keys, so the update appends
    lemma_find_key(acc, key);
    assert(find_key(acc, key) == -1) by {
        if find_key(acc, key) != -1 {
            let f = find_key(acc, key);
            assert((acc + pairs)[f] == acc[f]);
            assert((acc + pairs)[acc.len() as int] == pairs.first());
        }
    }
    let acc2 = acc.push((key, val));
    assert(obj_update(acc, key, val) =~= acc2);
    if rest.len() == 0 {
        assert(render_pairs_rest(rest) =~= Seq::<TokenModel>::empty());
        assert(ts[j] == tail[tail.len() - 1]);
        assert(ts[j] == close);
        assert(acc2 =~= acc + pairs);
    } else {
        let tail2 = seq![
            render_tok(TokenType::String, rest.first().0),
            render_tok(TokenType::Colon, seq![':']),
        ] + render_tokens(rest.first().1) + render_pairs_rest(rest.drop_first()) + seq![close];
        assert(render_pairs_rest(rest) == seq![
            render_tok(TokenType::Comma, seq![',']),
            render_tok(TokenType::String, rest.first().0),
            render_tok(TokenType::Colon, seq![':']),
        ] + render_tokens(rest.first().1) + render_pairs_rest(rest.drop_first()));
        assert(tail =~= seq![
            render_tok(TokenType::String, key),
            render_tok(TokenType::Colon, seq![':']),
        ] + rv + seq![render_tok(TokenType::Comma, seq![','])] + tail2);
        assert(ts[j] == tail[2 + rv.len() as int]);
        assert(ts[j].kind == TokenType::Comma);
        assert(ts.subrange(j + 1, j + 1 + tail2.len() as int) =~= tail2) by {
            assert forall|k: int| 0 <= k < tail2.len() implies ts.subrange(
                j + 1,
                j + 1 + tail2.len() as int,
            )[k] == #[trigger] tail2[k] by {
                assert(ts.subrange(j + 1, j + 1 + tail2.len() as int)[k] == ts[j + 1 + k]);
                assert(tail[2 + rv.len() as int + 1 + k] == tail2[k]);
            }
        }
        assert(acc2 + rest =~= acc + pairs);
        lemma_render_object_rest(rest, acc2, ts, j + 1);
        assert(tail.len() == 2 + rv.len() + 1 + tail2.len());
    }
}

/// Round trip: a tree without the `Empty` sentinel and with unique object
/// keys re-parses from its canonical token list to exactly itself, so
/// re-serializing and re-parsing reproduces the same typed shape.  (The
/// zero-token document round-trips by definition: `spec_parse` of an empty
/// list is the `Empty` sentinel, which renders back to no tokens.)
pub proof fn lemma_render_parse_round_trip(n: NodeModel)
    requires
        renderable(n),
    ensures
        spec_parse(render_tokens(n)) == Ok::<NodeModel, SynErrModel>(n),
{
    let ts = render_tokens(n);
    assert(ts.subrange(0, ts.len() as int) =~= ts);
    lemma_render_value_parses(n, ts, 0);
}

// ---------------------------------------------------------------------------
// The executable parser
// ---------------------------------------------------------------------------
broadcast use crate::token::lemma_token_view;

const I64_MIN_DIV_10: i64 = -922337203685477580;

/// Converts an integer literal to an `i64`; `None` when the text is not an
/// integer literal or its value does not fit.
fn parse_i64(s: &String) -> (r: Option<i64>)
    ensures
        match r {
            Some(x) => is_int_literal(s@) && int_literal_value(s@) == x as int,
            None => !(is_int_literal(s@) && i64::MIN <= int_literal_value(s@) <= i64::MAX),
        },
{
    let v = str_to_chars(s.as_str());
    let n = v.len();
    if n == 0 {
        return None;
    }
    let neg = v[0] == '-';
    let start: usize = if neg {
        1
    } else {
        0
    };
    if neg && n == 1 {
        return None;
    }
    let ghost t = s@.skip(start as int);
    let mut idx: usize = start;
    let mut acc: i64 = 0;
    loop
        invariant
            v@ == s@,
            n == v@.len(),
            0 < n,
            neg == (s@[0] == '-'),
            start == (if neg {
                1usize
            } else {
                0usize
            }),
            start <= idx <= n,
            neg ==> n >= 2,
            t == s@.skip(start as int),
            forall|k: int| start <= k < idx ==> is_digit(#[trigger] s@[k]),
            acc as int == -digits_value(s@.subrange(start as int, idx as int)),
            acc <= 0,
        ensures
            idx == n,
            forall|k: int| start <= k < idx ==> is_digit(#[trigger] s@[k]),
            acc as int == -digits_value(s@.subrange(start as int, idx as int)),
            acc <= 0,
        decreases n - idx,
    {
        if idx == n {
            break ;
        }
        let c = v[idx];
        if !crate::lexer::is_digit_char(c) {
            proof {
                assert(s@.skip(start as int)[idx - start] == s@[idx as int]);
            }
            return None;
        }
        let d_u: u32 = c as u32 - '0' as u32;
        let d: i64 = d_u as i64;
        let ghost pre = s@.subrange(start as int, idx as int);
        let ghost pre2 = s@.subrange(start as int, idx as int + 1);
        proof {
            assert(pre2.drop_last() =~= pre);
            assert(pre2.last() == s@[idx as int]);
            assert(digits_value(pre2) == digits_value(pre) * 10 + d);
        }
        if acc < I64_MIN_DIV_10 || (acc == I64_MIN_DIV_10 && d > 8) {
            proof {
                assert(digits_value(pre2) > 0x8000000000000000);
                if is_int_literal(s@) {
                    assert(all_digits(t));
                    lemma_digits_value_prefix(t, idx + 1 - start as int);
                    assert(t.subrange(0, idx + 1 - start as int) =~= pre2);
                    assert(digits_value(t) >= digits_value(pre2));
                    if neg {
                        assert(int_literal_value(s@) == -digits_value(t));
                        assert(int_literal_value(s@) < i64::MIN);
                    } else {
                        assert(t =~= s@);
                        assert(int_literal_value(s@) == digits_value(t));
                        assert(int_literal_value(s@) > i64::MAX);
                    }
                }
            }
            return None;
        }
        acc = acc * 10 - d;
        idx = idx + 1;
    }
    proof {
        assert(s@.subrange(start as int, n as int) =~= t);
        assert forall|k: int| 0 <= k < t.len() implies is_digit(#[trigger] t[k]) by {
            assert(t[k] == s@[k + start]);
        }
        assert(all_digits(t));
        if !neg {
            assert(t =~= s@);
        }
        assert(is_int_literal(s@));
    }
    if neg {
        Some(acc)
    } else {
        if acc == i64::MIN {
            proof {
                assert(int_literal_value(s@) == digits_value(t));
                assert(digits_value(t) > i64::MAX);
            }
            return None;
        }
        Some(-acc)
    }
}

/// Inserts `key`/`value` into the pair list, overwriting in place the value
/// of a pair already holding `key` (last-write-wins), otherwise appending.
fn obj_set(pairs: &mut Vec<(String, Node)>, key: String, value: Node)
    ensures
        seq_pair_models(final(pairs)@) == obj_update(
            seq_pair_models(old(pairs)@),
            key@,
            node_model(value),
        ),
{
    let ghost ps0 = pairs@;
    let ghost ms = seq_pair_models(pairs@);
    proof {
        lemma_seq_pair_models_elems(ps0);
        lemma_find_key(ms, key@);
    }
    let n = pairs.len();
    let mut j: usize = 0;
    loop
        invariant
            pairs@ == ps0,
            n == ps0.len(),
            0 <= j <= n,
            forall|jj: int| 0 <= jj < j ==> (#[trigger] ps0[jj]).0@ != key@,
        ensures
            pairs@ == ps0,
            0 <= j <= n,
            forall|jj: int| 0 <= jj < j ==> (#[trigger] ps0[jj]).0@ != key@,
            j < n ==> ps0[j as int].0@ == key@,
        decreases n - j,
    {
        if j == n {
            break ;
        }
        if pairs[j].0 == key {
            break ;
        }
        j = j + 1;
    }
    proof {
        lemma_seq_pair_models_elems(ps0);
    }
    if j < n {
        proof {
            assert(ms[j as int].0 == key@);
            assert(find_key(ms, key@) == j as int);
        }
        pairs.remove(j);
        pairs.insert(j, (key, value));
        proof {
            assert(pairs@ =~= ps0.update(j as int, (key, value)));
            lemma_seq_pair_models_elems(ps0.update(j as int, (key, value)));
            assert(seq_pair_models(pairs@) =~= ms.update(j as int, (key@, node_model(value))));
        }
    } else {
        proof {
            assert(find_key(ms, key@) == -1) by {
                if find_key(ms, key@) != -1 {
                    assert(ms[find_key(ms, key@)].0 == key@);
                }
            }
        }
        pairs.push((key, value));
        proof {
            assert(pairs@.drop_last() =~= ps0);
            assert(seq_pair_models(pairs@) =~= ms.push((key@, node_model(value))));
        }
    }
}

/// The `UnexpectedEOF` error for this token list: it reports the position of
/// the last token, or line 1, column 1 for an empty list.
fn eof_err(tokens: &TokenIter) -> (e: SyntaxError)
    ensures
        e@ == (SynErrModel::UnexpectedEOF {
            line: eof_pos(tokens_model(tokens.toks())).0,
            column: eof_pos(tokens_model(tokens.toks())).1,
        }),
{
    match tokens.last() {
        Some(t) => SyntaxError::UnexpectedEOF(Pos { line: t.line(), column: t.column() }),
        None => SyntaxError::UnexpectedEOF(Pos { line: 1, column: 1 }),
    }
}

/// Parses one simple token: a number, a string, or one of the literal names
/// `true`, `false`, `null`.
fn parse_simple(token: &Token) -> (r: Result<Node, SyntaxError>)
    requires
        is_simple_kind(token@.kind),
    ensures
        match spec_parse_simple(token@) {
            Ok(m) => r matches Ok(n) && node_model(r->Ok_0) == m,
            Err(m) => r matches Err(e) && e@ == m,
        },
{
    match token.tok_type {
        TokenType::Int => {
            match parse_i64(&token.value) {
                Some(x) => Ok(Node::Integer(x)),
                None => Err(SyntaxError::MalformedNumber(token.clone())),
            }
        },
        TokenType::Float => Ok(Node::Float(token.value.clone())),
        TokenType::String => Ok(Node::String(token.value.clone())),
        TokenType::Name => {
            if token.value == String::from_str("true") {
                Ok(Node::Bool(true))
            } else if token.value == String::from_str("false") {
                Ok(Node::Bool(false))
            } else if token.value == String::from_str("null") {
                Ok(Node::Null)
            } else {
                Err(SyntaxError::InvalidLiteralName(token.clone()))
            }
        },
        _ => {
            proof {
                assert(false);
            }
            Err(SyntaxError::UnexpectedToken(token.clone()))
        },
    }
}

/// Parses one value at the cursor by recursive descent.
fn parse_value(tokens: &mut TokenIter) -> (r: Result<Node, SyntaxError>)
    requires
        0 <= tokens.position() <= tokens.toks().len(),
    ensures
        final(tokens).toks() == old(tokens).toks(),
        0 <= final(tokens).position() <= final(tokens).toks().len(),
        ({
            let ts = tokens_model(old(tokens).toks());
            let i = old(tokens).position();
            match spec_parse_value(ts, i) {
                Ok(p) => {
                    &&& r matches Ok(n)
                    &&& node_model(r->Ok_0) == p.0
                    &&& final(tokens).position() == p.1
                },
                Err(m) => r matches Err(e) && e@ == m,
            }
        }),
    decreases tokens.toks().len() - tokens.position(), 1int,
{
    match tokens.peek() {
        None => Err(eof_err(tokens)),
        Some(t) => {
            match t.tok_type {
                TokenType::Int | TokenType::Float | TokenType::String | TokenType::Name => {
                    tokens.next();
                    parse_simple(t)
                },
                TokenType::LBrace => parse_object(tokens),
                TokenType::LSqBrac => parse_array(tokens),
                _ => Err(SyntaxError::UnexpectedToken(t.clone())),
            }
        },
    }
}

/// Parses one `key: value` pair at the cursor.
fn parse_pair(tokens: &mut TokenIter) -> (r: Result<(String, Node), SyntaxError>)
    requires
        0 <= tokens.position() <= tokens.toks().len(),
    ensures
        final(tokens).toks() == old(tokens).toks(),
        0 <= final(tokens).position() <= final(tokens).toks().len(),
        ({
            let ts = tokens_model(old(tokens).toks());
            let i = old(tokens).position();
            match spec_parse_pair(ts, i) {
                Ok(p) => {
                    &&& r matches Ok(kv)
                    &&& (r->Ok_0).0@ == p.0
                    &&& node_model((r->Ok_0).1) == p.1
                    &&& final(tokens).position() == p.2
                },
                Err(m) => r matches Err(e) && e@ == m,
            }
        }),
    decreases tokens.toks().len() - tokens.position(), 0int,
{
    let key_tok = match tokens.next() {
        Some(t) => t,
        None => {
            return Err(eof_err(tokens));
        },
    };
    if !(key_tok.tok_type == TokenType::String) {
        return Err(SyntaxError::UnexpectedToken(key_tok.clone()));
    }
    let key = key_tok.value.clone();
    match tokens.next() {
        Some(t) => {
            if !(t.tok_type == TokenType::Colon) {
                return Err(SyntaxError::UnexpectedToken(t.clone()));
            }
        },
        None => {
            return Err(eof_err(tokens));
        },
    }
    match parse_value(tokens) {
        Ok(v) => Ok((key, v)),
        Err(e) => Err(e),
    }
}

/// Parses an object whose opening brace is the lookahead token.
fn parse_object(tokens: &mut TokenIter) -> (r: Result<Node, SyntaxError>)
    requires
        0 <= tokens.position() < tokens.toks().len(),
        tokens.toks()[tokens.position()]@.kind == TokenType::LBrace,
    ensures
        final(tokens).toks() == old(tokens).toks(),
        0 <= final(tokens).position() <= final(tokens).toks().len(),
        ({
            let ts = tokens_model(old(tokens).toks());
            let i = old(tokens).position();
            match spec_object_first(ts, i + 1) {
                Ok(p) => {
                    &&& r matches Ok(n)
                    &&& node_model(r->Ok_0) == NodeModel::Object(p.0)
                    &&& final(tokens).position() == p.1
                },
                Err(m) => r matches Err(e) && e@ == m,
            }
        }),
    decreases tokens.toks().len() - tokens.position(), 0int,
{
    let ghost toks = tokens.toks();
    let ghost ts = tokens_model(tokens.toks());
    let ghost i0 = tokens.position();
    tokens.next();
    match tokens.peek() {
        None => {
            return Err(eof_err(tokens));
        },
        Some(t) => {
            if t.tok_type == TokenType::RBrace {
                tokens.next();
                let body: Vec<(String, Node)> = Vec::new();
                return Ok(Node::Object(body));
            }
        },
    }
    let mut body: Vec<(String, Node)> = Vec::new();
    loop
        invariant
            toks == old(tokens).toks(),
            ts == tokens_model(toks),
            i0 == old(tokens).position(),
            0 <= i0,
            tokens.toks() == toks,
            i0 + 1 <= tokens.position() <= ts.len(),
            spec_object_first(ts, i0 + 1) == spec_object_rest(ts, i0 + 1, Seq::empty()),
            spec_object_rest(ts, i0 + 1, Seq::empty()) == spec_object_rest(
                ts,
                tokens.position(),
                seq_pair_models(body@),
            ),
        decreases ts.len() - tokens.position(),
    {
        let ghost cur = tokens.position();
        let ghost acc = seq_pair_models(body@);
        proof {
            lemma_parse_pair_advances(ts, cur);
        }
        match parse_pair(tokens) {
            Ok(kv) => {
                let (k, v) = kv;
                obj_set(&mut body, k, v);
            },
            Err(e) => {
                return Err(e);
            },
        }
        let ghost j = tokens.position();
        match tokens.next() {
            None => {
                return Err(eof_err(tokens));
            },
            Some(t) => {
                if t.tok_type == TokenType::Comma {
                } else if t.tok_type == TokenType::RBrace {
                    return Ok(Node::Object(body));
                } else {
                    return Err(SyntaxError::UnexpectedToken(t.clone()));
                }
            },
        }
    }
}

/// Parses an array whose opening bracket is the lookahead token.
fn parse_array(tokens: &mut TokenIter) -> (r: Result<Node, SyntaxError>)
    requires
        0 <= tokens.position() < tokens.toks().len(),
        tokens.toks()[tokens.position()]@.kind == TokenType::LSqBrac,
    ensures
        final(tokens).toks() == old(tokens).toks(),
        0 <= final(tokens).position() <= final(tokens).toks().len(),
        ({
            let ts = tokens_model(old(tokens).toks());
            let i = old(tokens).position();
            match spec_array_first(ts, i + 1) {
                Ok(p) => {
                    &&& r matches Ok(n)
                    &&& node_model(r->Ok_0) == NodeModel::Array(p.0)
                    &&& final(tokens).position() == p.1
                },
                Err(m) => r matches Err(e) && e@ == m,
            }
        }),
    decreases tokens.toks().len() - tokens.position(), 0int,
{
    let ghost toks = tokens.toks();
    let ghost ts = tokens_model(tokens.toks());
    let ghost i0 = tokens.position();
    tokens.next();
    match tokens.peek() {
        None => {
            return Err(eof_err(tokens));
        },
        Some(t) => {
            if t.tok_type == TokenType::RSqBrac {
                tokens.next();
                let body: Vec<Node> = Vec::new();
                return Ok(Node::Array(body));
            }
        },
    }
    let mut body: Vec<Node> = Vec::new();
    loop
        invariant
            toks == old(tokens).toks(),
            ts == tokens_model(toks),
            i0 == old(tokens).position(),
            0 <= i0,
            tokens.toks() == toks,
            i0 + 1 <= tokens.position() <= ts.len(),
            spec_array_first(ts, i0 + 1) == spec_array_rest(ts, i0 + 1, Seq::empty()),
            spec_array_rest(ts, i0 + 1, Seq::empty()) == spec_array_rest(
                ts,
                tokens.position(),
                seq_node_models(body@),
            ),
        decreases ts.len() - tokens.position(),
    {
        let ghost cur = tokens.position();
        let ghost acc = seq_node_models(body@);
        proof {
            lemma_parse_value_advances(ts, cur);
        }
        match parse_value(tokens) {
            Ok(n) => {
                proof {
                    assert(body@.push(n).drop_last() =~= body@);
                }
                body.push(n);
            },
            Err(e) => {
                return Err(e);
            },
        }
        match tokens.next() {
            None => {
                return Err(eof_err(tokens));
            },
            Some(t) => {
                if t.tok_type == TokenType::Comma {
                } else if t.tok_type == TokenType::RSqBrac {
                    return Ok(Node::Array(body));
                } else {
                    return Err(SyntaxError::UnexpectedToken(t.clone()));
                }
            },
        }
    }
}

/// Parses a whole token list by recursive descent: every token must be
/// consumed to succeed; a zero-token list yields the `Empty` sentinel.  The
/// result is exactly what the spec-level parser `spec_parse` assigns to the
/// list.
pub fn parse(token_vec: &Vec<Token>) -> (r: Result<Node, SyntaxError>)
    ensures
        match spec_parse(tokens_model(token_vec@)) {
            Ok(m) => r matches Ok(n) && node_model(r->Ok_0) == m,
            Err(em) => r matches Err(e) && e@ == em,
        },
{
    let ghost ts = tokens_model(token_vec@);
    let mut tokens = TokenIter::new(token_vec);
    match tokens.peek() {
        None => {
            return Ok(Node::Empty);
        },
        Some(_) => {
        },
    }
    proof {
        lemma_parse_value_advances(ts, 0);
    }
    let out = match parse_value(&mut tokens) {
        Ok(n) => n,
        Err(e) => {
            return Err(e);
        },
    };
    let ghost p1 = tokens.position();
    match tokens.peek() {
        None => Ok(out),
        Some(_) => {
            let mut leftover: Vec<Token> = Vec::new();
            loop
                invariant
                    tokens.toks() == token_vec@,
                    ts == tokens_model(token_vec@),
                    0 <= p1 <= tokens.position() <= ts.len(),
                    tokens_model(leftover@) == ts.subrange(p1, tokens.position()),
                ensures
                    tokens.position() == ts.len(),
                    tokens_model(leftover@) == ts.subrange(p1, ts.len() as int),
                decreases ts.len() - tokens.position(),
            {
                let ghost lo = leftover@;
                let ghost op = tokens.position();
                match tokens.next() {
                    Some(t) => {
                        let tc = t.clone();
                        proof {
                            assert(ts.len() == token_vec@.len());
                            assert(op < ts.len());
                            assert(tc@ == ts[op]);
                        }
                        leftover.push(tc);
                        proof {
                            assert(tokens_model(leftover@) =~= tokens_model(lo).push(ts[op]));
                            assert(ts.subrange(p1, op).push(ts[op]) =~= ts.subrange(p1, op + 1));
                        }
                    },
                    None => {
                        break ;
                    },
                }
            }
            Err(SyntaxError::TrailingTokens(leftover))
        },
    }
}


} // verus!
