//! A self-contained JSON parsing engine.
//!
//! Raw Unicode text is first split into a classified token stream by the
//! lexer, then folded into an in-memory document tree by a recursive-descent
//! parser.  Both stages are fail-fast: the first lexical or syntactic
//! problem aborts the whole operation with a typed error that carries the
//! offending text and its source position.

pub mod lexer;
pub mod parser;
pub mod token;
pub mod utils;
