//! The executable parsers.
//!
//! Each parser takes the whole input and a cursor position and returns
//! either a value with the position after it, or a failure; an unsuccessful
//! alternative leaves the cursor where it was, so an alternation simply
//! hands every alternative the same position.  Every parser's contract says
//! that its result is exactly the verdict of the corresponding grammar
//! function from [`crate::grammar`].

use vstd::prelude::*;

use crate::ast::Form;
use crate::ast::LispVal;
use crate::ast::ListOutcome;
use crate::ast::Outcome;
use crate::ast::ParseError;
use crate::ast::form_of;
use crate::ast::list_res_models;
use crate::ast::res_models;
use crate::grammar::ByteClass;
use crate::grammar::digit_val;
use crate::grammar::in_class;
use crate::grammar::is_digit;
use crate::grammar::is_letter;
use crate::grammar::is_symbol_byte;
use crate::grammar::lemma_radix_val_prefix;
use crate::grammar::radix_val;
use crate::grammar::run_len;
use crate::grammar::spec_atom;
use crate::grammar::spec_binary;
use crate::grammar::spec_decimal;
use crate::grammar::spec_elems;
use crate::grammar::spec_expr;
use crate::grammar::spec_hex;
use crate::grammar::spec_list;
use crate::grammar::spec_more_elems;
use crate::grammar::spec_number;
use crate::grammar::spec_octal;
use crate::grammar::spec_radix_prefixed;
use crate::grammar::spec_string;
use crate::grammar::spec_string_body;
use crate::grammar::BACKSLASH;
use crate::grammar::HASH;
use crate::grammar::LPAREN;
use crate::grammar::QUOTE;
use crate::grammar::RPAREN;

verus! {

/// Classifier for ASCII letters.
pub fn letter(b: u8) -> (r: bool)
    ensures
        r == is_letter(b),
{
    (65 <= b && b <= 90) || (97 <= b && b <= 122)
}

/// Classifier for ASCII decimal digits.
pub fn digit(b: u8) -> (r: bool)
    ensures
        r == is_digit(b),
{
    48 <= b && b <= 57
}

/// Classifier for the extended punctuation set permitted inside
/// identifiers.
pub fn symbol(b: u8) -> (r: bool)
    ensures
        r == is_symbol_byte(b),
{
    b == 33 || b == 35 || b == 36 || b == 37 || b == 38 || b == 124 || b == 42 || b == 43 || b == 45
        || b == 47 || b == 58 || b == 60 || b == 61 || b == 62 || b == 63 || b == 64 || b == 94
        || b == 95 || b == 126
}

/// Membership of a byte in a scanning class.
fn byte_in_class(c: ByteClass, b: u8) -> (r: bool)
    ensures
        r == in_class(c, b),
{
    match c {
        ByteClass::Digit => digit(b),
        ByteClass::BinDigit => b == 48 || b == 49,
        ByteClass::OctDigit => 48 <= b && b <= 55,
        ByteClass::HexDigit => digit(b) || (97 <= b && b <= 102) || (65 <= b && b <= 70),
        ByteClass::AtomRest => letter(b) || digit(b) || symbol(b),
        ByteClass::Whitespace => b == 32 || b == 9 || b == 13 || b == 10,
        ByteClass::Space => b == 32,
    }
}

/// The position after the maximal run of bytes of class `c` at `pos`.
fn scan_run(input: &[u8], pos: usize, c: ByteClass) -> (r: usize)
    requires
        pos <= input@.len(),
    ensures
        r as int == pos + run_len(input@, pos as int, c),
        pos <= r <= input@.len(),
{
    let ghost s = input@;
    let mut i = pos;
    loop
        invariant
            pos <= i <= s.len(),
            input@ == s,
            run_len(s, pos as int, c) == i - pos + run_len(s, i as int, c),
        ensures
            i == s.len() || !in_class(c, s[i as int]),
        decreases s.len() - i,
    {
        if i >= input.len() {
            break ;
        }
        if !byte_in_class(c, input[i]) {
            break ;
        }
        i = i + 1;
    }
    i
}

/// The position after the maximal run of space bytes at `pos`.
pub fn spaces(input: &[u8], pos: usize) -> (r: usize)
    requires
        pos <= input@.len(),
    ensures
        r as int == pos + run_len(input@, pos as int, ByteClass::Space),
        pos <= r <= input@.len(),
{
    scan_run(input, pos, ByteClass::Space)
}

/// The position after the maximal run of whitespace bytes at `pos`.
fn whitespace(input: &[u8], pos: usize) -> (r: usize)
    requires
        pos <= input@.len(),
    ensures
        r as int == pos + run_len(input@, pos as int, ByteClass::Whitespace),
        pos <= r <= input@.len(),
{
    scan_run(input, pos, ByteClass::Whitespace)
}

/// The value of a digit byte, in whatever radix admits it.
fn digit_value(b: u8) -> (r: u8)
    ensures
        r as int == digit_val(b),
{
    if 48 <= b && b <= 57 {
        b - 48
    } else if 97 <= b && b <= 102 {
        b - 87
    } else if 65 <= b && b <= 70 {
        b - 55
    } else {
        0
    }
}

/// Reads the digit run `input[start..end]` in the given base, or reports
/// overflow when its value does not fit a signed 64-bit integer.
fn digits_to_value(input: &[u8], start: usize, end: usize, c: ByteClass, base: i64) -> (r: Result<
    i64,
    ParseError,
>)
    requires
        start <= end <= input@.len(),
        2 <= base <= 16,
        forall|j: int| start <= j < end ==> in_class(c, #[trigger] input@[j]),
        forall|b: u8| in_class(c, b) ==> 0 <= digit_val(b) < base,
    ensures
        ({
            let v = radix_val(input@.subrange(start as int, end as int), base as int);
            match r {
                Ok(x) => v <= i64::MAX as int && x as int == v,
                Err(pe) => pe == ParseError::Overflow && v > i64::MAX as int,
            }
        }),
{
    let ghost s = input@;
    let ghost whole = input@.subrange(start as int, end as int);
    let mut v: i64 = 0;
    let mut i = start;
    while i < end
        invariant
            start <= i <= end <= s.len(),
            input@ == s,
            whole == s.subrange(start as int, end as int),
            2 <= base <= 16,
            forall|j: int| start <= j < end ==> in_class(c, #[trigger] s[j]),
            forall|b: u8| in_class(c, b) ==> 0 <= digit_val(b) < base,
            0 <= v,
            v as int == radix_val(s.subrange(start as int, i as int), base as int),
        decreases end - i,
    {
        let d = digit_value(input[i]) as i64;
        let ghost prefix = s.subrange(start as int, i as int);
        let ghost grown = s.subrange(start as int, i + 1);
        proof {
            assert(grown.drop_last() =~= prefix);
            assert(grown.last() == s[i as int]);
        }
        let w = match v.checked_mul(base) {
            Some(w) => w,
            None => {
                proof {
                    assert(v * base > i64::MAX as int) by (nonlinear_arith)
                        requires
                            v >= 0,
                            base >= 2,
                            !(i64::MIN as int <= v * base <= i64::MAX as int),
                    ;
                    assert(radix_val(grown, base as int) > i64::MAX as int);
                    lemma_radix_val_prefix(whole, base as int, i + 1 - start);
                    assert(whole.subrange(0, i + 1 - start) =~= grown);
                }
                return Err(ParseError::Overflow);
            },
        };
        let v2 = match w.checked_add(d) {
            Some(x) => x,
            None => {
                proof {
                    assert(radix_val(grown, base as int) > i64::MAX as int);
                    lemma_radix_val_prefix(whole, base as int, i + 1 - start);
                    assert(whole.subrange(0, i + 1 - start) =~= grown);
                }
                return Err(ParseError::Overflow);
            },
        };
        proof {
            assert(w >= 0) by (nonlinear_arith)
                requires
                    v >= 0,
                    base >= 2,
                    w as int == v * base,
            ;
        }
        v = v2;
        i = i + 1;
    }
    proof {
        assert(s.subrange(start as int, i as int) =~= whole);
    }
    Ok(v)
}

/// Parses a decimal number literal: one or more digit bytes, read in base
/// 10.
pub fn decimal_number(input: &[u8], pos: usize) -> (r: Result<(LispVal, usize), ParseError>)
    requires
        pos <= input@.len(),
    ensures
        res_models(r, spec_decimal(input@, pos as int)),
        r matches Ok(p) ==> pos < p.1 <= input@.len(),
{
    let end = scan_run(input, pos, ByteClass::Digit);
    if end == pos {
        return Err(ParseError::Mismatch);
    }
    proof {
        crate::grammar::lemma_run_len(input@, pos as int, ByteClass::Digit);
        assert(forall|b: u8| in_class(ByteClass::Digit, b) ==> 0 <= digit_val(b) < 10);
    }
    match digits_to_value(input, pos, end, ByteClass::Digit, 10) {
        Ok(v) => Ok((LispVal::Number(v), end)),
        Err(pe) => Err(pe),
    }
}

/// Parses a radix-prefixed number literal: `#` and the marker byte, then
/// one or more digits of the class, read in the given base.
fn radix_prefixed_number(input: &[u8], pos: usize, marker: u8, c: ByteClass, base: i64) -> (r:
    Result<(LispVal, usize), ParseError>)
    requires
        pos <= input@.len(),
        2 <= base <= 16,
        forall|b: u8| in_class(c, b) ==> 0 <= digit_val(b) < base,
    ensures
        res_models(r, spec_radix_prefixed(input@, pos as int, marker, c, base as int)),
        r matches Ok(p) ==> pos < p.1 <= input@.len(),
{
    if pos < input.len() && input[pos] == HASH && pos + 1 < input.len() && input[pos + 1]
        == marker {
        let end = scan_run(input, pos + 2, c);
        if end == pos + 2 {
            return Err(ParseError::Mismatch);
        }
        proof {
            crate::grammar::lemma_run_len(input@, pos + 2, c);
        }
        match digits_to_value(input, pos + 2, end, c, base) {
            Ok(v) => Ok((LispVal::Number(v), end)),
            Err(pe) => Err(pe),
        }
    } else {
        Err(ParseError::Mismatch)
    }
}

/// Parses a binary number literal, `#b` then binary digits.
pub fn binary_number(input: &[u8], pos: usize) -> (r: Result<(LispVal, usize), ParseError>)
    requires
        pos <= input@.len(),
    ensures
        res_models(r, spec_binary(input@, pos as int)),
        r matches Ok(p) ==> pos < p.1 <= input@.len(),
{
    radix_prefixed_number(input, pos, 98, ByteClass::BinDigit, 2)
}

/// Parses an octal number literal, `#o` then octal digits.
pub fn octal_number(input: &[u8], pos: usize) -> (r: Result<(LispVal, usize), ParseError>)
    requires
        pos <= input@.len(),
    ensures
        res_models(r, spec_octal(input@, pos as int)),
        r matches Ok(p) ==> pos < p.1 <= input@.len(),
{
    radix_prefixed_number(input, pos, 111, ByteClass::OctDigit, 8)
}

/// Parses a hexadecimal number literal, `#x` then hexadecimal digits of
/// either case.  No case normalization is needed: the digit values already
/// treat the two cases alike.
pub fn hex_number(input: &[u8], pos: usize) -> (r: Result<(LispVal, usize), ParseError>)
    requires
        pos <= input@.len(),
    ensures
        res_models(r, spec_hex(input@, pos as int)),
        r matches Ok(p) ==> pos < p.1 <= input@.len(),
{
    radix_prefixed_number(input, pos, 120, ByteClass::HexDigit, 16)
}

/// Parses a number literal, trying octal, binary, hexadecimal and decimal
/// forms in that order.  A mismatch moves on to the next form; an overflow
/// is final.
pub fn number(input: &[u8], pos: usize) -> (r: Result<(LispVal, usize), ParseError>)
    requires
        pos <= input@.len(),
    ensures
        res_models(r, spec_number(input@, pos as int)),
        r matches Ok(p) ==> pos < p.1 <= input@.len(),
{
    match octal_number(input, pos) {
        Ok(p) => return Ok(p),
        Err(ParseError::Overflow) => return Err(ParseError::Overflow),
        Err(ParseError::Mismatch) => {},
    }
    match binary_number(input, pos) {
        Ok(p) => return Ok(p),
        Err(ParseError::Overflow) => return Err(ParseError::Overflow),
        Err(ParseError::Mismatch) => {},
    }
    match hex_number(input, pos) {
        Ok(p) => return Ok(p),
        Err(ParseError::Overflow) => return Err(ParseError::Overflow),
        Err(ParseError::Mismatch) => {},
    }
    decimal_number(input, pos)
}

/// Relies on `String::from_utf8`: it succeeds exactly when the bytes are
/// valid UTF-8, and the string then holds their decoding.
#[verifier::external_body]
fn bytes_to_string(v: Vec<u8>) -> (r: Option<String>)
    ensures
        r is Some <==> vstd::utf8::valid_utf8(v@),
        r matches Some(s) ==> s@ == vstd::utf8::decode_utf8(v@),
{
    match String::from_utf8(v) {
        Ok(s) => Some(s),
        Err(_) => None,
    }
}

/// Parses an atom token or a boolean literal.  The token is the maximal run
/// of letters, digits and symbol bytes after a leading letter or symbol
/// byte; exactly the tokens `#t` and `#f` are booleans, everything else is
/// an atom holding its text.
pub fn atom(input: &[u8], pos: usize) -> (r: Result<(LispVal, usize), ParseError>)
    requires
        pos <= input@.len(),
    ensures
        res_models(r, spec_atom(input@, pos as int)),
        r matches Ok(p) ==> pos < p.1 <= input@.len(),
{
    let ghost s = input@;
    if pos < input.len() && (letter(input[pos]) || symbol(input[pos])) {
        let end = scan_run(input, pos + 1, ByteClass::AtomRest);
        if end - pos == 2 && input[pos] == HASH && input[pos + 1] == 116 {
            Ok((LispVal::Bool(true), end))
        } else if end - pos == 2 && input[pos] == HASH && input[pos + 1] == 102 {
            Ok((LispVal::Bool(false), end))
        } else {
            let mut tok: Vec<u8> = Vec::new();
            let mut i = pos;
            while i < end
                invariant
                    pos <= i <= end <= s.len(),
                    input@ == s,
                    tok@ == s.subrange(pos as int, i as int),
                decreases end - i,
            {
                tok.push(input[i]);
                proof {
                    assert(s.subrange(pos as int, i + 1) =~= s.subrange(pos as int, i as int).push(
                        s[i as int],
                    ));
                }
                i = i + 1;
            }
            proof {
                crate::grammar::lemma_run_len(s, pos + 1, ByteClass::AtomRest);
                assert forall|j: int| 0 <= j < tok@.len() implies tok@[j] < 128 by {
                    if j > 0 {
                        assert(in_class(ByteClass::AtomRest, s[pos + j]));
                    }
                }
                crate::grammar::lemma_ascii_decode(tok@);
            }
            match bytes_to_string(tok) {
                Some(st) => Ok((LispVal::Atom(st), end)),
                None => {
                    proof {
                        assert(false);
                    }
                    Err(ParseError::Mismatch)
                },
            }
        }
    } else {
        Err(ParseError::Mismatch)
    }
}

/// Parses a string literal: an opening quote, content in which only the
/// quote character is escapable, and a closing quote.  Content that is not
/// valid UTF-8 is a mismatch.
pub fn string(input: &[u8], pos: usize) -> (r: Result<(LispVal, usize), ParseError>)
    requires
        pos <= input@.len(),
    ensures
        res_models(r, spec_string(input@, pos as int)),
        r matches Ok(p) ==> pos < p.1 <= input@.len(),
{
    let ghost s = input@;
    if pos < input.len() && input[pos] == QUOTE {
        let mut content: Vec<u8> = Vec::new();
        let mut q = pos + 1;
        loop
            invariant
                pos + 1 <= q <= s.len(),
                input@ == s,
                pos < s.len(),
                s[pos as int] == QUOTE,
                ({
                    let full = spec_string_body(s, pos + 1);
                    match spec_string_body(s, q as int) {
                        Some(t) => (full matches Some(ft) && ft.0 == content@ + t.0 && ft.1
                            == t.1),
                        None => full is None,
                    }
                }),
            decreases s.len() - q,
        {
            if q >= input.len() {
                return Err(ParseError::Mismatch);
            }
            let b = input[q];
            if b == QUOTE {
                proof {
                    assert(content@ + Seq::<u8>::empty() =~= content@);
                }
                return match bytes_to_string(content) {
                    Some(st) => Ok((LispVal::String(st), q + 1)),
                    None => Err(ParseError::Mismatch),
                };
            } else if b == BACKSLASH {
                if q + 1 < input.len() && input[q + 1] == QUOTE {
                    let ghost c0 = content@;
                    content.push(QUOTE);
                    proof {
                        if let Some(t) = spec_string_body(s, q + 2) {
                            assert((c0 + (seq![QUOTE] + t.0)) =~= (c0 + seq![QUOTE]) + t.0);
                        }
                    }
                    q = q + 2;
                } else {
                    return Err(ParseError::Mismatch);
                }
            } else {
                let ghost c0 = content@;
                content.push(b);
                proof {
                    if let Some(t) = spec_string_body(s, q + 1) {
                        assert((c0 + (seq![b] + t.0)) =~= (c0 + seq![b]) + t.0);
                    }
                }
                q = q + 1;
            }
        }
    } else {
        Err(ParseError::Mismatch)
    }
}

/// Parses one expression: a number literal, else an atom or boolean, else a
/// string literal, in that order.  The first alternative that does not
/// mismatch wins; an overflow is final.
pub fn parse_expr(input: &[u8], pos: usize) -> (r: Result<(LispVal, usize), ParseError>)
    requires
        pos <= input@.len(),
    ensures
        res_models(r, spec_expr(input@, pos as int)),
        r matches Ok(p) ==> pos < p.1 <= input@.len(),
{
    match number(input, pos) {
        Ok(p) => return Ok(p),
        Err(ParseError::Overflow) => return Err(ParseError::Overflow),
        Err(ParseError::Mismatch) => {},
    }
    match atom(input, pos) {
        Ok(p) => return Ok(p),
        Err(ParseError::Overflow) => return Err(ParseError::Overflow),
        Err(ParseError::Mismatch) => {},
    }
    string(input, pos)
}

/// Parses a parenthesized, whitespace-separated list of expressions: `(`,
/// zero or more expressions, `)`.  The elements come back in input order.
pub fn parse_list(input: &[u8], pos: usize) -> (r: Result<(Vec<LispVal>, usize), ParseError>)
    requires
        pos <= input@.len(),
    ensures
        list_res_models(r, spec_list(input@, pos as int)),
        r matches Ok(p) ==> pos < p.1 <= input@.len(),
{
    let ghost s = input@;
    if !(pos < input.len() && input[pos] == LPAREN) {
        return Err(ParseError::Mismatch);
    }
    let mut vs: Vec<LispVal> = Vec::new();
    let ghost mut forms: Seq<Form> = seq![];
    let mut cur = pos + 1;
    match parse_expr(input, cur) {
        Err(ParseError::Overflow) => {
            return Err(ParseError::Overflow);
        },
        Err(ParseError::Mismatch) => {
            // zero elements: the closing parenthesis must follow at once
            if cur < input.len() && input[cur] == RPAREN {
                return Ok((vs, cur + 1));
            } else {
                return Err(ParseError::Mismatch);
            }
        },
        Ok((v, e)) => {
            proof {
                forms = seq![form_of(v).unwrap()];
            }
            vs.push(v);
            cur = e;
        },
    }
    loop
        invariant
            input@ == s,
            pos < s.len(),
            s[pos as int] == LPAREN,
            pos + 1 <= cur <= s.len(),
            forms.len() == vs@.len(),
            forall|i: int| 0 <= i < forms.len() ==> form_of(#[trigger] vs@[i]) == Some(forms[i]),
            ({
                let all = spec_elems(s, pos + 1);
                match spec_more_elems(s, cur as int) {
                    ListOutcome::Val(fs2, end) => (all matches ListOutcome::Val(fs, e) && fs
                        == forms + fs2 && e == end),
                    ListOutcome::Fail(pe) => all == ListOutcome::Fail(pe),
                }
            }),
        decreases s.len() - cur,
    {
        let w = whitespace(input, cur);
        match parse_expr(input, w) {
            Err(ParseError::Overflow) => {
                return Err(ParseError::Overflow);
            },
            Err(ParseError::Mismatch) => {
                // the whitespace run is given back: the elements end at `cur`
                proof {
                    assert(forms + Seq::<Form>::empty() =~= forms);
                }
                if cur < input.len() && input[cur] == RPAREN {
                    return Ok((vs, cur + 1));
                } else {
                    return Err(ParseError::Mismatch);
                }
            },
            Ok((v2, e2)) => {
                proof {
                    let f2 = form_of(v2).unwrap();
                    if let ListOutcome::Val(fs3, end) = spec_more_elems(s, e2 as int) {
                        assert((forms + (seq![f2] + fs3)) =~= ((forms + seq![f2]) + fs3));
                    }
                    forms = forms + seq![f2];
                }
                vs.push(v2);
                cur = e2;
            },
        }
    }
}

/// Parses one expression from the start of the input.  Trailing bytes after
/// the recognized expression are left unconsumed and unexamined.
pub fn read_expr(input: &[u8]) -> (r: Result<LispVal, ParseError>)
    ensures
        ({
            match spec_expr(input@, 0) {
                Outcome::Val(f, end) => (r matches Ok(v) && form_of(v) == Some(f)),
                Outcome::Fail(pe) => (r matches Err(q) && q == pe),
            }
        }),
{
    match parse_expr(input, 0) {
        Ok(p) => Ok(p.0),
        Err(pe) => Err(pe),
    }
}

/// Parses a list from the start of the input and returns it as a
/// [`LispVal::List`] holding the elements in input order.  Trailing bytes
/// after the closing parenthesis are left unconsumed and unexamined.
pub fn read_list(input: &[u8]) -> (r: Result<LispVal, ParseError>)
    ensures
        ({
            match spec_list(input@, 0) {
                ListOutcome::Val(fs, end) => (r matches Ok(v) && (v matches LispVal::List(es)
                    && es@.len() == fs.len() && (forall|i: int|
                    0 <= i < fs.len() ==> form_of(#[trigger] es@[i]) == Some(fs[i])))),
                ListOutcome::Fail(pe) => (r matches Err(q) && q == pe),
            }
        }),
{
    match parse_list(input, 0) {
        Ok(p) => Ok(LispVal::List(p.0)),
        Err(pe) => Err(pe),
    }
}

} // verus!
