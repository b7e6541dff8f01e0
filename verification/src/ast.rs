//! The expression tree a parse produces, its mathematical model, and the
//! relations that tie executable parse results to the grammar's verdicts.

use vstd::prelude::*;

verus! {

/// One parsed expression.
///
/// Every value is a fully owned tree, built bottom-up during a single parse
/// and never mutated afterwards.  The grammar produces only proper lists, so
/// no variant models an improper (dotted) list.
#[derive(Debug, PartialEq)]
pub enum LispVal {
    /// An identifier or symbol token.
    Atom(String),
    /// A parenthesized, order-preserving sequence of expressions.
    List(Vec<LispVal>),
    /// An integer literal, normalized to its value whatever radix wrote it.
    Number(i64),
    /// A double-quoted string literal with escapes resolved.
    String(String),
    /// A `#t` or `#f` literal.
    Bool(bool),
}

/// Why a parse failed.
#[derive(Debug, PartialEq, Eq, Structural, Clone, Copy)]
pub enum ParseError {
    /// No alternative of the grammar matches at the current position, a
    /// required delimiter is missing, or a string's bytes are not valid text.
    Mismatch,
    /// A number literal denotes a value outside the signed 64-bit range.
    /// Unlike a mismatch, overflow is not recoverable: no later alternative
    /// is tried and the failure propagates to the entry point.
    Overflow,
}

/// The mathematical value of one expression produced by the expression
/// grammar.  The expression grammar is flat: a nested list is reachable only
/// through the dedicated list entry point, never as an expression
/// alternative, so `Form` needs no list variant.
pub enum Form {
    /// An atom, as the text of its token.
    Atom(Seq<char>),
    /// A number, as an unbounded integer.
    Num(int),
    /// A string literal, as its decoded content.
    Str(Seq<char>),
    /// A boolean literal.
    Bool(bool),
}

/// The grammar's verdict on one expression at one position: the form
/// recognized together with the position after it, or a failure.
pub enum Outcome {
    Val(Form, int),
    Fail(ParseError),
}

/// The grammar's verdict on a sequence of list elements: the forms
/// recognized in order together with the position after them, or a failure.
pub enum ListOutcome {
    Val(Seq<Form>, int),
    Fail(ParseError),
}

/// The form a parsed expression denotes, if it is one the expression
/// grammar can produce.  A list denotes no flat form.
pub open spec fn form_of(v: LispVal) -> Option<Form> {
    match v {
        LispVal::Atom(s) => Some(Form::Atom(s@)),
        LispVal::List(_) => None,
        LispVal::Number(n) => Some(Form::Num(n as int)),
        LispVal::String(s) => Some(Form::Str(s@)),
        LispVal::Bool(b) => Some(Form::Bool(b)),
    }
}

/// The executable result `r` agrees with the grammar's verdict `o`: on
/// success it carries a value denoting the recognized form and the position
/// after it, and on failure it carries exactly the grammar's error.
pub open spec fn res_models(r: Result<(LispVal, usize), ParseError>, o: Outcome) -> bool {
    match o {
        Outcome::Val(f, end) => (r matches Ok(p) && form_of(p.0) == Some(f) && p.1 as int == end),
        Outcome::Fail(pe) => (r matches Err(q) && q == pe),
    }
}

/// As [`res_models`], for a parsed sequence of list elements: on success the
/// vector holds, in order, one value for each recognized form.
pub open spec fn list_res_models(
    r: Result<(Vec<LispVal>, usize), ParseError>,
    o: ListOutcome,
) -> bool {
    match o {
        ListOutcome::Val(fs, end) => (r matches Ok(p) && p.1 as int == end && p.0@.len() == fs.len()
            && (forall|i: int| 0 <= i < fs.len() ==> form_of(#[trigger] p.0@[i]) == Some(fs[i]))),
        ListOutcome::Fail(pe) => (r matches Err(q) && q == pe),
    }
}

} // verus!
