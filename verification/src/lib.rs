//! A reader for a small Lisp-family expression language.
//!
//! Bytes in, abstract syntax tree or parse failure out: the crate recognizes
//! atoms and boolean literals, integers in four radixes, double-quoted
//! strings with escaped quote characters, and parenthesized lists of
//! expressions.  It evaluates nothing.
//!
//! The grammar itself is stated as specification functions over byte
//! sequences in [`grammar`]; the executable parsers in [`parse`] are proved
//! to return exactly what the grammar says, and [`laws`] proves the
//! round-trip properties of the notation.

pub mod ast;
pub mod grammar;
pub mod laws;
pub mod parse;
