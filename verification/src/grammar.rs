//! The grammar, stated mathematically.
//!
//! Every specification function here maps a byte sequence and a position to
//! the grammar's verdict at that position: the form recognized and the
//! position after it, or a failure.  An unsuccessful alternative consumes
//! nothing — the verdict simply names the position the attempt started at —
//! and an ordered alternation takes the first alternative that does not
//! mismatch.  The executable parsers in [`crate::parse`] are proved to
//! return exactly these verdicts.

use vstd::prelude::*;

use crate::ast::Form;
use crate::ast::ListOutcome;
use crate::ast::Outcome;
use crate::ast::ParseError;

verus! {

/// The double-quote byte `"`.
pub const QUOTE: u8 = 34;
/// The backslash byte `\`.
pub const BACKSLASH: u8 = 92;
/// The hash byte `#`, which opens radix prefixes and boolean literals.
pub const HASH: u8 = 35;
/// The opening parenthesis byte `(`.
pub const LPAREN: u8 = 40;
/// The closing parenthesis byte `)`.
pub const RPAREN: u8 = 41;

// ---------------------------------------------------------------------------
// Byte classifiers
// ---------------------------------------------------------------------------

/// An ASCII letter.
pub open spec fn is_letter(b: u8) -> bool {
    (65 <= b <= 90) || (97 <= b <= 122)
}

/// An ASCII decimal digit.
pub open spec fn is_digit(b: u8) -> bool {
    48 <= b <= 57
}

/// One of the extended punctuation set `! # $ % & | * + - / : < = > ? @ ^ _ ~`
/// permitted inside identifiers.
pub open spec fn is_symbol_byte(b: u8) -> bool {
    ||| b == 33  // !
    ||| b == 35  // #
    ||| b == 36  // $
    ||| b == 37  // %
    ||| b == 38  // &
    ||| b == 124  // |
    ||| b == 42  // *
    ||| b == 43  // +
    ||| b == 45  // -
    ||| b == 47  // /
    ||| b == 58  // :
    ||| b == 60  // <
    ||| b == 61  // =
    ||| b == 62  // >
    ||| b == 63  // ?
    ||| b == 64  // @
    ||| b == 94  // ^
    ||| b == 95  // _
    ||| b == 126  // ~
}

/// A binary digit.
pub open spec fn is_bin_digit(b: u8) -> bool {
    b == 48 || b == 49
}

/// An octal digit.
pub open spec fn is_oct_digit(b: u8) -> bool {
    48 <= b <= 55
}

/// A hexadecimal digit, either case.
pub open spec fn is_hex_digit(b: u8) -> bool {
    is_digit(b) || (97 <= b <= 102) || (65 <= b <= 70)
}

/// A byte that may open an atom token.
pub open spec fn is_atom_first(b: u8) -> bool {
    is_letter(b) || is_symbol_byte(b)
}

/// A byte that may continue an atom token.
pub open spec fn is_atom_rest(b: u8) -> bool {
    is_letter(b) || is_digit(b) || is_symbol_byte(b)
}

/// A whitespace byte separating list elements: space, tab, carriage return
/// or newline.
pub open spec fn is_whitespace(b: u8) -> bool {
    b == 32 || b == 9 || b == 13 || b == 10
}

/// The value of a digit byte in any of the four radixes; upper and lower
/// hexadecimal letters carry the same value.
pub open spec fn digit_val(b: u8) -> int {
    if 48 <= b <= 57 {
        b - 48
    } else if 97 <= b <= 102 {
        b - 87
    } else if 65 <= b <= 70 {
        b - 55
    } else {
        0
    }
}

/// The classes of bytes the parsers take maximal runs of.
#[derive(Clone, Copy)]
pub enum ByteClass {
    Digit,
    BinDigit,
    OctDigit,
    HexDigit,
    AtomRest,
    Whitespace,
    Space,
}

/// Membership of a byte in a class.
pub open spec fn in_class(c: ByteClass, b: u8) -> bool {
    match c {
        ByteClass::Digit => is_digit(b),
        ByteClass::BinDigit => is_bin_digit(b),
        ByteClass::OctDigit => is_oct_digit(b),
        ByteClass::HexDigit => is_hex_digit(b),
        ByteClass::AtomRest => is_atom_rest(b),
        ByteClass::Whitespace => is_whitespace(b),
        ByteClass::Space => b == 32,
    }
}

/// The length of the maximal run of bytes of class `c` starting at `pos`.
pub open spec fn run_len(s: Seq<u8>, pos: int, c: ByteClass) -> nat
    decreases s.len() - pos,
    when 0 <= pos <= s.len()
{
    if pos < s.len() && in_class(c, s[pos]) {
        1 + run_len(s, pos + 1, c)
    } else {
        0
    }
}

/// The maximal run of class `c` at `pos` stays inside the input, consists of
/// bytes of the class, and is followed by no byte of the class.
pub proof fn lemma_run_len(s: Seq<u8>, pos: int, c: ByteClass)
    requires
        0 <= pos <= s.len(),
    ensures
        pos + run_len(s, pos, c) <= s.len(),
        forall|i: int| pos <= i < pos + run_len(s, pos, c) ==> in_class(c, s[i]),
        pos + run_len(s, pos, c) < s.len() ==> !in_class(c, s[pos + run_len(s, pos, c)]),
    decreases s.len() - pos,
{
    if pos < s.len() && in_class(c, s[pos]) {
        lemma_run_len(s, pos + 1, c);
    }
}

/// A run of bytes that all belong to the class and end at a class boundary
/// is the maximal run.
pub proof fn lemma_run_len_exact(s: Seq<u8>, pos: int, end: int, c: ByteClass)
    requires
        0 <= pos <= end <= s.len(),
        forall|i: int| pos <= i < end ==> in_class(c, s[i]),
        end < s.len() ==> !in_class(c, s[end]),
    ensures
        run_len(s, pos, c) == end - pos,
    decreases end - pos,
{
    if pos < end {
        lemma_run_len_exact(s, pos + 1, end, c);
    }
}

// ---------------------------------------------------------------------------
// Number literals
// ---------------------------------------------------------------------------

/// The value of a digit string read in the given base, most significant
/// digit first.
pub open spec fn radix_val(digits: Seq<u8>, base: int) -> int
    decreases digits.len(),
{
    if digits.len() == 0 {
        0
    } else {
        radix_val(digits.drop_last(), base) * base + digit_val(digits.last())
    }
}

/// A digit string's value is never negative.
pub proof fn lemma_radix_val_nonneg(digits: Seq<u8>, base: int)
    requires
        base >= 1,
    ensures
        radix_val(digits, base) >= 0,
    decreases digits.len(),
{
    if digits.len() > 0 {
        lemma_radix_val_nonneg(digits.drop_last(), base);
        assert(radix_val(digits.drop_last(), base) * base >= 0) by (nonlinear_arith)
            requires
                radix_val(digits.drop_last(), base) >= 0,
                base >= 1,
        ;
    }
}

/// Appending digits never lowers a digit string's value: in particular, once
/// a prefix already exceeds a bound, the whole string does.
pub proof fn lemma_radix_val_prefix(digits: Seq<u8>, base: int, j: int)
    requires
        base >= 1,
        0 <= j <= digits.len(),
    ensures
        radix_val(digits.subrange(0, j), base) <= radix_val(digits, base),
    decreases digits.len() - j,
{
    if j == digits.len() {
        assert(digits.subrange(0, j) =~= digits);
    } else {
        lemma_radix_val_prefix(digits, base, j + 1);
        let shorter = digits.subrange(0, j);
        let longer = digits.subrange(0, j + 1);
        assert(longer.drop_last() =~= shorter);
        lemma_radix_val_nonneg(shorter, base);
        assert(radix_val(shorter, base) * base >= radix_val(shorter, base)) by (nonlinear_arith)
            requires
                radix_val(shorter, base) >= 0,
                base >= 1,
        ;
    }
}

/// A decimal literal: one or more digit bytes, read in base 10.  A value
/// outside the signed 64-bit range is an overflow, not a mismatch.
pub open spec fn spec_decimal(s: Seq<u8>, pos: int) -> Outcome {
    let n = run_len(s, pos, ByteClass::Digit);
    if n == 0 {
        Outcome::Fail(ParseError::Mismatch)
    } else {
        let v = radix_val(s.subrange(pos, pos + n), 10);
        if v > i64::MAX as int {
            Outcome::Fail(ParseError::Overflow)
        } else {
            Outcome::Val(Form::Num(v), pos + n)
        }
    }
}

/// A radix-prefixed literal: `#` and the marker byte, then one or more
/// digit bytes of the class, read in the given base.
pub open spec fn spec_radix_prefixed(
    s: Seq<u8>,
    pos: int,
    marker: u8,
    c: ByteClass,
    base: int,
) -> Outcome {
    if pos + 2 <= s.len() && s[pos] == HASH && s[pos + 1] == marker {
        let n = run_len(s, pos + 2, c);
        if n == 0 {
            Outcome::Fail(ParseError::Mismatch)
        } else {
            let v = radix_val(s.subrange(pos + 2, pos + 2 + n), base);
            if v > i64::MAX as int {
                Outcome::Fail(ParseError::Overflow)
            } else {
                Outcome::Val(Form::Num(v), pos + 2 + n)
            }
        }
    } else {
        Outcome::Fail(ParseError::Mismatch)
    }
}

/// A binary literal: `#b` then binary digits.
pub open spec fn spec_binary(s: Seq<u8>, pos: int) -> Outcome {
    spec_radix_prefixed(s, pos, 98, ByteClass::BinDigit, 2)
}

/// An octal literal: `#o` then octal digits.
pub open spec fn spec_octal(s: Seq<u8>, pos: int) -> Outcome {
    spec_radix_prefixed(s, pos, 111, ByteClass::OctDigit, 8)
}

/// A hexadecimal literal: `#x` then hexadecimal digits of either case.
pub open spec fn spec_hex(s: Seq<u8>, pos: int) -> Outcome {
    spec_radix_prefixed(s, pos, 120, ByteClass::HexDigit, 16)
}

/// Ordered alternation: the second alternative is reached only when the
/// first mismatches.  An overflow is final and is never backtracked past.
pub open spec fn alt(a: Outcome, b: Outcome) -> Outcome {
    match a {
        Outcome::Fail(ParseError::Mismatch) => b,
        _ => a,
    }
}

/// A number literal, in the alternation order octal, binary, hexadecimal,
/// decimal, so that every prefixed form is attempted before the unprefixed
/// decimal form.
pub open spec fn spec_number(s: Seq<u8>, pos: int) -> Outcome {
    alt(
        spec_octal(s, pos),
        alt(spec_binary(s, pos), alt(spec_hex(s, pos), spec_decimal(s, pos))),
    )
}

// ---------------------------------------------------------------------------
// Atoms and booleans
// ---------------------------------------------------------------------------

/// ASCII bytes read as characters, one for one.
pub open spec fn ascii_chars(s: Seq<u8>) -> Seq<char> {
    s.map(|i: int, b: u8| b as char)
}

/// A sequence of ASCII bytes is valid UTF-8 and decodes to its bytes read
/// as characters, one for one.
pub proof fn lemma_ascii_decode(s: Seq<u8>)
    requires
        forall|i: int| 0 <= i < s.len() ==> s[i] < 128,
    ensures
        vstd::utf8::valid_utf8(s),
        vstd::utf8::decode_utf8(s) == ascii_chars(s),
    decreases s.len(),
{
    if s.len() == 0 {
        assert(ascii_chars(s) =~= Seq::<char>::empty());
    } else {
        let b = s[0];
        let rest = s.subrange(1, s.len() as int);
        assert(vstd::utf8::is_leading_byte_width_1(b));
        assert(b & 0x7F == b) by (bit_vector)
            requires
                b < 128,
        ;
        assert(vstd::utf8::valid_first_scalar(s));
        assert(vstd::utf8::pop_first_scalar(s) == rest);
        lemma_ascii_decode(rest);
        assert(vstd::utf8::valid_utf8(s));
        let c = vstd::utf8::decode_first_scalar(s);
        assert(c == b as u32);
        assert((c as char) == (b as char)) by {
            vstd::utf8::char_u32_cast(b as char, c);
        }
        assert(ascii_chars(s) =~= seq![b as char] + ascii_chars(rest));
    }
}

/// An atom token: a letter or symbol byte, then the maximal run of letters,
/// digits and symbol bytes.  The exact tokens `#t` and `#f` are boolean
/// literals, distinguished only after the full token is collected; every
/// other token is an atom holding its text.
pub open spec fn spec_atom(s: Seq<u8>, pos: int) -> Outcome {
    if 0 <= pos < s.len() && is_atom_first(s[pos]) {
        let n = 1 + run_len(s, pos + 1, ByteClass::AtomRest);
        if n == 2 && s[pos] == HASH && s[pos + 1] == 116 {
            Outcome::Val(Form::Bool(true), pos + n)
        } else if n == 2 && s[pos] == HASH && s[pos + 1] == 102 {
            Outcome::Val(Form::Bool(false), pos + n)
        } else {
            Outcome::Val(Form::Atom(ascii_chars(s.subrange(pos, pos + n))), pos + n)
        }
    } else {
        Outcome::Fail(ParseError::Mismatch)
    }
}

// ---------------------------------------------------------------------------
// String literals
// ---------------------------------------------------------------------------

/// The body of a string literal from position `q` (just after the opening
/// quote): the content bytes with escapes resolved, and the position after
/// the closing quote.  Zero or more of {any byte but backslash or quote} or
/// {backslash followed by a quote, standing for a quote} precede the closing
/// quote; only the quote character is escapable.  `None` when the closing
/// quote is missing or a backslash is not followed by a quote.
pub open spec fn spec_string_body(s: Seq<u8>, q: int) -> Option<(Seq<u8>, int)>
    decreases s.len() - q,
    when 0 <= q <= s.len()
{
    if q >= s.len() {
        None
    } else if s[q] == QUOTE {
        Some((Seq::empty(), q + 1))
    } else if s[q] == BACKSLASH {
        if q + 1 < s.len() && s[q + 1] == QUOTE {
            match spec_string_body(s, q + 2) {
                Some(t) => Some((seq![QUOTE] + t.0, t.1)),
                None => None,
            }
        } else {
            None
        }
    } else {
        match spec_string_body(s, q + 1) {
            Some(t) => Some((seq![s[q]] + t.0, t.1)),
            None => None,
        }
    }
}

/// A string literal: an opening quote, a well-formed body, and content bytes
/// that are valid UTF-8; the recognized form is the decoded content.
/// Invalid encoding is a mismatch, not a panic.
pub open spec fn spec_string(s: Seq<u8>, pos: int) -> Outcome {
    if 0 <= pos < s.len() && s[pos] == QUOTE {
        match spec_string_body(s, pos + 1) {
            Some(t) => {
                if vstd::utf8::valid_utf8(t.0) {
                    Outcome::Val(Form::Str(vstd::utf8::decode_utf8(t.0)), t.1)
                } else {
                    Outcome::Fail(ParseError::Mismatch)
                }
            },
            None => Outcome::Fail(ParseError::Mismatch),
        }
    } else {
        Outcome::Fail(ParseError::Mismatch)
    }
}

// ---------------------------------------------------------------------------
// Expressions and lists
// ---------------------------------------------------------------------------

/// One expression: a number literal, else an atom or boolean, else a string
/// literal, in that order.  A nested list is not an expression alternative:
/// parenthesized forms are recognized only by the dedicated list grammar.
pub open spec fn spec_expr(s: Seq<u8>, pos: int) -> Outcome {
    alt(spec_number(s, pos), alt(spec_atom(s, pos), spec_string(s, pos)))
}

/// The position after the maximal whitespace run at `pos`.
pub open spec fn ws_end(s: Seq<u8>, pos: int) -> int {
    pos + run_len(s, pos, ByteClass::Whitespace)
}

/// List elements after the first: repeatedly, a (possibly empty) whitespace
/// run and one expression.  When the expression after a whitespace run
/// mismatches, the run is given back: the elements end at `pos`.  The
/// guard `w < e <= s.len()` always holds of a successful expression (see
/// [`lemma_expr_advances`]); it is written out to bound the recursion.
pub open spec fn spec_more_elems(s: Seq<u8>, pos: int) -> ListOutcome
    decreases s.len() - pos,
    when 0 <= pos <= s.len()
{
    let w = ws_end(s, pos);
    match spec_expr(s, w) {
        Outcome::Val(f, e) => {
            if w < e <= s.len() {
                match spec_more_elems(s, e) {
                    ListOutcome::Val(fs, end) => ListOutcome::Val(seq![f] + fs, end),
                    ListOutcome::Fail(pe) => ListOutcome::Fail(pe),
                }
            } else {
                ListOutcome::Val(seq![], pos)
            }
        },
        Outcome::Fail(ParseError::Mismatch) => ListOutcome::Val(seq![], pos),
        Outcome::Fail(pe) => ListOutcome::Fail(pe),
    }
}

/// The elements of a list: one expression directly at `pos` — no leading
/// whitespace — then the remaining elements; zero elements when the first
/// expression mismatches.
pub open spec fn spec_elems(s: Seq<u8>, pos: int) -> ListOutcome {
    match spec_expr(s, pos) {
        Outcome::Val(f, e) => {
            if pos < e <= s.len() {
                match spec_more_elems(s, e) {
                    ListOutcome::Val(fs, end) => ListOutcome::Val(seq![f] + fs, end),
                    ListOutcome::Fail(pe) => ListOutcome::Fail(pe),
                }
            } else {
                ListOutcome::Val(seq![], pos)
            }
        },
        Outcome::Fail(ParseError::Mismatch) => ListOutcome::Val(seq![], pos),
        Outcome::Fail(pe) => ListOutcome::Fail(pe),
    }
}

/// A list: `(`, the elements, `)`.  A missing closing parenthesis is a
/// mismatch.
pub open spec fn spec_list(s: Seq<u8>, pos: int) -> ListOutcome {
    if 0 <= pos < s.len() && s[pos] == LPAREN {
        match spec_elems(s, pos + 1) {
            ListOutcome::Val(fs, e) => {
                if e < s.len() && s[e] == RPAREN {
                    ListOutcome::Val(fs, e + 1)
                } else {
                    ListOutcome::Fail(ParseError::Mismatch)
                }
            },
            ListOutcome::Fail(pe) => ListOutcome::Fail(pe),
        }
    } else {
        ListOutcome::Fail(ParseError::Mismatch)
    }
}

/// A successful expression consumes at least one byte and stays inside the
/// input.
pub proof fn lemma_expr_advances(s: Seq<u8>, pos: int)
    requires
        0 <= pos <= s.len(),
    ensures
        spec_expr(s, pos) matches Outcome::Val(f, e) ==> pos < e <= s.len(),
{
    lemma_run_len(s, pos, ByteClass::Digit);
    if pos < s.len() {
        lemma_run_len(s, pos + 1, ByteClass::AtomRest);
    }
    if pos + 2 <= s.len() {
        lemma_run_len(s, pos + 2, ByteClass::BinDigit);
        lemma_run_len(s, pos + 2, ByteClass::OctDigit);
        lemma_run_len(s, pos + 2, ByteClass::HexDigit);
    }
    if 0 <= pos < s.len() && s[pos] == QUOTE {
        lemma_string_body_advances(s, pos + 1);
    }
}

/// A well-formed string body ends past where it starts and inside the input.
pub proof fn lemma_string_body_advances(s: Seq<u8>, q: int)
    requires
        0 <= q <= s.len(),
    ensures
        spec_string_body(s, q) matches Some(t) ==> q < t.1 <= s.len(),
    decreases s.len() - q,
{
    if q < s.len() {
        if s[q] == BACKSLASH {
            if q + 1 < s.len() && s[q + 1] == QUOTE {
                lemma_string_body_advances(s, q + 2);
            }
        } else if s[q] != QUOTE {
            lemma_string_body_advances(s, q + 1);
        }
    }
}

} // verus!
