//! A small interpreter for a Scheme-like language: text in, value out.
//!
//! - `lexer` turns text into tokens, one at a time or all at once.
//! - `parser` builds one symbolic-expression tree from tokens.
//! - `env` holds the chain of scopes that names are looked up in.
//! - `eval` evaluates a tree, as a machine that its host steps.
//! - `semantics` says what evaluation means, and proves that the machine
//!   computes it.
//! - `roundtrip` proves that the text a tree prints as is read back as the
//!   tree.
//! - `object` is the one type of values and trees; `text` holds the few
//!   primitives on characters and numerals.
//!
//! The library does no floating-point work. A float is held as its bit
//! pattern and its decimal text. The host reads floats from the text of
//! tokens (`Token::promote`), computes the operations on floats that the
//! machine asks for (`Action::Compute`, `Machine::answer`), and so decides
//! what these are. The machine takes a boolean for a comparison and a float
//! for arithmetic, and nothing else.

pub mod env;
pub mod eval;
pub mod lexer;
pub mod object;
pub mod parser;
pub mod roundtrip;
pub mod semantics;
pub mod text;
