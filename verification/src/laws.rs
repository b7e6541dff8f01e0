//! Round-trip laws of the notation.
//!
//! Each lemma states, over the grammar functions that the parsers'
//! contracts use, what a whole class of inputs parses to.  Together with
//! the entry points' contracts they pin down the result of
//! [`crate::parse::read_expr`] on every input of the class.

use vstd::prelude::*;

use crate::ast::Form;
use crate::ast::ListOutcome;
use crate::ast::Outcome;
use crate::ast::ParseError;
use crate::grammar::ascii_chars;
use crate::grammar::is_atom_first;
use crate::grammar::is_atom_rest;
use crate::grammar::is_bin_digit;
use crate::grammar::is_digit;
use crate::grammar::is_hex_digit;
use crate::grammar::is_oct_digit;
use crate::grammar::is_whitespace;
use crate::grammar::lemma_run_len_exact;
use crate::grammar::radix_val;
use crate::grammar::spec_expr;
use crate::grammar::spec_list;
use crate::grammar::spec_more_elems;
use crate::grammar::spec_string_body;
use crate::grammar::ByteClass;
use crate::grammar::BACKSLASH;
use crate::grammar::HASH;
use crate::grammar::LPAREN;
use crate::grammar::QUOTE;
use crate::grammar::RPAREN;

verus! {

/// Every decimal digit string whose value fits a signed 64-bit integer
/// parses as a number with its base-10 value, consuming the whole string.
pub proof fn lemma_decimal_literal(s: Seq<u8>)
    requires
        s.len() >= 1,
        forall|i: int| 0 <= i < s.len() ==> is_digit(#[trigger] s[i]),
        radix_val(s, 10) <= i64::MAX as int,
    ensures
        spec_expr(s, 0) == Outcome::Val(Form::Num(radix_val(s, 10)), s.len() as int),
{
    lemma_run_len_exact(s, 0, s.len() as int, ByteClass::Digit);
    assert(s.subrange(0, s.len() as int) =~= s);
}

/// Every `#b` literal over binary digits parses as a number with the
/// base-2 value of its digits: the prefixed form denotes the same number
/// its digit string denotes in base 2.
pub proof fn lemma_binary_literal(s: Seq<u8>)
    requires
        s.len() >= 3,
        s[0] == HASH,
        s[1] == 98,
        forall|i: int| 2 <= i < s.len() ==> is_bin_digit(#[trigger] s[i]),
        radix_val(s.subrange(2, s.len() as int), 2) <= i64::MAX as int,
    ensures
        spec_expr(s, 0) == Outcome::Val(
            Form::Num(radix_val(s.subrange(2, s.len() as int), 2)),
            s.len() as int,
        ),
{
    lemma_run_len_exact(s, 2, s.len() as int, ByteClass::BinDigit);
}

/// Every `#o` literal over octal digits parses as a number with the
/// base-8 value of its digits.
pub proof fn lemma_octal_literal(s: Seq<u8>)
    requires
        s.len() >= 3,
        s[0] == HASH,
        s[1] == 111,
        forall|i: int| 2 <= i < s.len() ==> is_oct_digit(#[trigger] s[i]),
        radix_val(s.subrange(2, s.len() as int), 8) <= i64::MAX as int,
    ensures
        spec_expr(s, 0) == Outcome::Val(
            Form::Num(radix_val(s.subrange(2, s.len() as int), 8)),
            s.len() as int,
        ),
{
    lemma_run_len_exact(s, 2, s.len() as int, ByteClass::OctDigit);
}

/// Every `#x` literal over hexadecimal digits of either case parses as a
/// number with the base-16 value of its digits.
pub proof fn lemma_hex_literal(s: Seq<u8>)
    requires
        s.len() >= 3,
        s[0] == HASH,
        s[1] == 120,
        forall|i: int| 2 <= i < s.len() ==> is_hex_digit(#[trigger] s[i]),
        radix_val(s.subrange(2, s.len() as int), 16) <= i64::MAX as int,
    ensures
        spec_expr(s, 0) == Outcome::Val(
            Form::Num(radix_val(s.subrange(2, s.len() as int), 16)),
            s.len() as int,
        ),
{
    lemma_run_len_exact(s, 2, s.len() as int, ByteClass::HexDigit);
}

/// Every token of the atom grammar parses as an atom holding exactly its
/// own text, consuming the whole token — except the boolean literals `#t`
/// and `#f`, and the tokens that open like a radix-prefixed number
/// (`#b`, `#o` or `#x` followed by a matching digit), which the ordered
/// alternation reads as numbers first.
pub proof fn lemma_atom_round_trip(s: Seq<u8>)
    requires
        s.len() >= 1,
        is_atom_first(s[0]),
        forall|i: int| 1 <= i < s.len() ==> is_atom_rest(#[trigger] s[i]),
        !(s.len() == 2 && s[0] == HASH && s[1] == 116),
        !(s.len() == 2 && s[0] == HASH && s[1] == 102),
        !(s.len() >= 3 && s[0] == HASH && s[1] == 98 && is_bin_digit(s[2])),
        !(s.len() >= 3 && s[0] == HASH && s[1] == 111 && is_oct_digit(s[2])),
        !(s.len() >= 3 && s[0] == HASH && s[1] == 120 && is_hex_digit(s[2])),
    ensures
        spec_expr(s, 0) == Outcome::Val(Form::Atom(ascii_chars(s)), s.len() as int),
{
    lemma_run_len_exact(s, 1, s.len() as int, ByteClass::AtomRest);
    assert(s.subrange(0, s.len() as int) =~= s);
}

/// The quote-escaping of a content byte sequence: each quote byte becomes
/// a backslash and a quote, every other byte stands for itself.
pub open spec fn escape_content(c: Seq<u8>) -> Seq<u8>
    decreases c.len(),
{
    if c.len() == 0 {
        Seq::empty()
    } else if c[0] == QUOTE {
        seq![BACKSLASH, QUOTE] + escape_content(c.skip(1))
    } else {
        seq![c[0]] + escape_content(c.skip(1))
    }
}

/// A well-formed string body reading `escape_content(c)` and then the
/// closing quote resolves the escapes back to exactly `c`, whatever
/// follows the closing quote.
proof fn lemma_body_of_escaped(s: Seq<u8>, q: int, r: int, c: Seq<u8>)
    requires
        0 <= q <= r <= s.len(),
        forall|i: int| 0 <= i < c.len() ==> #[trigger] c[i] != BACKSLASH,
        s.subrange(q, r) == escape_content(c) + seq![QUOTE],
    ensures
        spec_string_body(s, q) == Some((c, r)),
    decreases c.len(),
{
    let tail = s.subrange(q, r);
    if c.len() == 0 {
        assert(tail.len() == 1);
        assert(tail[0] == QUOTE);
        assert(s[q] == tail[0]);
        assert(c =~= Seq::<u8>::empty());
    } else if c[0] == QUOTE {
        let rest = escape_content(c.skip(1)) + seq![QUOTE];
        assert(tail.len() >= 3);
        assert(tail[0] == BACKSLASH);
        assert(tail[1] == QUOTE);
        assert(s[q] == tail[0]);
        assert(s[q + 1] == tail[1]);
        let sub2 = s.subrange(q + 2, r);
        assert forall|i: int| 0 <= i < sub2.len() implies sub2[i] == rest[i] by {
            assert(sub2[i] == s[q + 2 + i]);
            assert(tail[i + 2] == s[q + 2 + i]);
            assert(tail[i + 2] == rest[i]);
        }
        assert(sub2 =~= rest);
        lemma_body_of_escaped(s, q + 2, r, c.skip(1));
        assert(seq![QUOTE] + c.skip(1) =~= c);
    } else {
        let rest = escape_content(c.skip(1)) + seq![QUOTE];
        assert(tail.len() >= 2);
        assert(tail[0] == c[0]);
        assert(s[q] == tail[0]);
        assert(s[q] != QUOTE && s[q] != BACKSLASH);
        let sub1 = s.subrange(q + 1, r);
        assert forall|i: int| 0 <= i < sub1.len() implies sub1[i] == rest[i] by {
            assert(sub1[i] == s[q + 1 + i]);
            assert(tail[i + 1] == s[q + 1 + i]);
            assert(tail[i + 1] == rest[i]);
        }
        assert(sub1 =~= rest);
        lemma_body_of_escaped(s, q + 1, r, c.skip(1));
        assert(seq![c[0]] + c.skip(1) =~= c);
    }
}

/// Round trip of string literals: writing any backslash-free content
/// between quotes, with each quote escaped, parses back to a string
/// holding exactly that content — escapes resolved, quotes preserved.
/// Content with no quotes is written, and read back, verbatim.
pub proof fn lemma_string_round_trip(c: Seq<u8>)
    requires
        forall|i: int| 0 <= i < c.len() ==> #[trigger] c[i] != BACKSLASH,
        vstd::utf8::valid_utf8(c),
    ensures
        ({
            let s = seq![QUOTE] + escape_content(c) + seq![QUOTE];
            spec_expr(s, 0) == Outcome::Val(
                Form::Str(vstd::utf8::decode_utf8(c)),
                s.len() as int,
            )
        }),
{
    let s = seq![QUOTE] + escape_content(c) + seq![QUOTE];
    assert(s[0] == QUOTE);
    assert(s.subrange(1, s.len() as int) =~= escape_content(c) + seq![QUOTE]);
    lemma_body_of_escaped(s, 1, s.len() as int, c);
}

/// A byte sequence laid out as a concatenation splits into its parts.
proof fn lemma_split_concat(s: Seq<u8>, p: int, x: Seq<u8>, y: Seq<u8>)
    requires
        0 <= p,
        p + x.len() + y.len() <= s.len(),
        s.subrange(p, p + x.len() + y.len()) == x + y,
    ensures
        s.subrange(p, p + x.len()) == x,
        s.subrange(p + x.len(), p + x.len() + y.len()) == y,
{
    let whole = s.subrange(p, p + x.len() + y.len());
    assert forall|i: int| 0 <= i < x.len() implies s.subrange(p, p + x.len())[i] == x[i] by {
        assert(s.subrange(p, p + x.len())[i] == s[p + i]);
        assert(whole[i] == s[p + i]);
        assert(whole[i] == (x + y)[i]);
    }
    assert(s.subrange(p, p + x.len()) =~= x);
    assert forall|i: int| 0 <= i < y.len() implies s.subrange(
        p + x.len(),
        p + x.len() + y.len(),
    )[i] == y[i] by {
        assert(s.subrange(p + x.len(), p + x.len() + y.len())[i] == s[p + x.len() + i]);
        assert(whole[x.len() + i] == s[p + x.len() + i]);
        assert(whole[x.len() + i] == (x + y)[x.len() + i]);
    }
    assert(s.subrange(p + x.len(), p + x.len() + y.len()) =~= y);
}

/// No expression begins at a closing parenthesis.
proof fn lemma_expr_mismatch_at_rparen(s: Seq<u8>, p: int)
    requires
        0 <= p < s.len(),
        s[p] == RPAREN,
    ensures
        spec_expr(s, p) == Outcome::Fail(ParseError::Mismatch),
{
}

/// At a position holding a digit run followed by a non-digit byte, the
/// expression grammar reads exactly that number.
proof fn lemma_expr_at_number(s: Seq<u8>, p: int, d: Seq<u8>)
    requires
        d.len() >= 1,
        forall|i: int| 0 <= i < d.len() ==> is_digit(#[trigger] d[i]),
        radix_val(d, 10) <= i64::MAX as int,
        0 <= p,
        p + d.len() < s.len(),
        s.subrange(p, p + d.len()) == d,
        !is_digit(s[p + d.len()]),
    ensures
        spec_expr(s, p) == Outcome::Val(Form::Num(radix_val(d, 10)), p + d.len()),
{
    let seg = s.subrange(p, p + d.len());
    assert(s[p] == seg[0]);
    assert forall|i: int| p <= i < p + d.len() implies is_digit(s[i]) by {
        assert(s[i] == seg[i - p]);
    }
    lemma_run_len_exact(s, p, p + d.len(), ByteClass::Digit);
}

/// At a position holding a whole string literal, the expression grammar
/// reads exactly that string, whatever follows it.
proof fn lemma_expr_at_string(s: Seq<u8>, p: int, c: Seq<u8>)
    requires
        forall|i: int| 0 <= i < c.len() ==> #[trigger] c[i] != BACKSLASH,
        vstd::utf8::valid_utf8(c),
        0 <= p,
        p + escape_content(c).len() + 2 <= s.len(),
        s.subrange(p, p + escape_content(c).len() + 2) == seq![QUOTE] + escape_content(c)
            + seq![QUOTE],
    ensures
        spec_expr(s, p) == Outcome::Val(
            Form::Str(vstd::utf8::decode_utf8(c)),
            p + escape_content(c).len() + 2,
        ),
{
    let e = escape_content(c);
    let r = p + e.len() + 2;
    let seg = s.subrange(p, r);
    assert(seg =~= seq![QUOTE] + (e + seq![QUOTE]));
    assert(s[p] == seg[0]);
    assert(seg[0] == QUOTE);
    assert forall|i: int| 0 <= i < r - (p + 1) implies s.subrange(p + 1, r)[i] == (e
        + seq![QUOTE])[i] by {
        assert(s.subrange(p + 1, r)[i] == s[p + 1 + i]);
        assert(seg[1 + i] == s[p + 1 + i]);
        assert(seg[1 + i] == (e + seq![QUOTE])[i]);
    }
    assert(s.subrange(p + 1, r) =~= e + seq![QUOTE]);
    lemma_body_of_escaped(s, p + 1, r, c);
}

/// One written element of a list: the digits of a number literal, or the
/// content of a string literal.
pub enum Token {
    Num(Seq<u8>),
    Text(Seq<u8>),
}

/// A token that can be written down: a nonempty digit string whose value
/// fits, or backslash-free content that is valid UTF-8.
pub open spec fn token_ok(t: Token) -> bool {
    match t {
        Token::Num(d) => d.len() >= 1 && (forall|i: int|
            0 <= i < d.len() ==> is_digit(#[trigger] d[i])) && radix_val(d, 10)
            <= i64::MAX as int,
        Token::Text(c) => (forall|i: int| 0 <= i < c.len() ==> #[trigger] c[i] != BACKSLASH)
            && vstd::utf8::valid_utf8(c),
    }
}

/// The bytes that write a token down.
pub open spec fn token_bytes(t: Token) -> Seq<u8> {
    match t {
        Token::Num(d) => d,
        Token::Text(c) => seq![QUOTE] + escape_content(c) + seq![QUOTE],
    }
}

/// The form a token denotes.
pub open spec fn token_form(t: Token) -> Form {
    match t {
        Token::Num(d) => Form::Num(radix_val(d, 10)),
        Token::Text(c) => Form::Str(vstd::utf8::decode_utf8(c)),
    }
}

/// The forms a token sequence denotes, in order.
pub open spec fn token_forms(ts: Seq<Token>) -> Seq<Form> {
    ts.map(|k: int, t: Token| token_form(t))
}

/// The written elements after the first, each preceded by one space.
pub open spec fn rest_bytes(ts: Seq<Token>) -> Seq<u8>
    decreases ts.len(),
{
    if ts.len() == 0 {
        Seq::empty()
    } else {
        seq![32u8] + token_bytes(ts[0]) + rest_bytes(ts.skip(1))
    }
}

/// The written elements of a list, separated by single spaces.
pub open spec fn written_elems(ts: Seq<Token>) -> Seq<u8> {
    if ts.len() == 0 {
        Seq::empty()
    } else {
        token_bytes(ts[0]) + rest_bytes(ts.skip(1))
    }
}

/// The bytes of a written token start with a non-whitespace, non-digit
/// byte, and the token has at least one byte.
proof fn lemma_token_bytes_head(t: Token)
    requires
        token_ok(t),
    ensures
        token_bytes(t).len() >= 1,
        !is_whitespace(token_bytes(t)[0]),
{
}

/// Reading list elements laid out as space-prefixed tokens up to a closing
/// parenthesis yields exactly the tokens' forms, ending at the parenthesis.
proof fn lemma_more_elems_of_tokens(s: Seq<u8>, pos: int, ts: Seq<Token>)
    requires
        forall|k: int| 0 <= k < ts.len() ==> token_ok(#[trigger] ts[k]),
        0 <= pos,
        pos + rest_bytes(ts).len() < s.len(),
        s.subrange(pos, pos + rest_bytes(ts).len()) == rest_bytes(ts),
        s[pos + rest_bytes(ts).len()] == RPAREN,
    ensures
        spec_more_elems(s, pos) == ListOutcome::Val(token_forms(ts), pos + rest_bytes(ts).len()),
    decreases ts.len(),
{
    let rb = rest_bytes(ts);
    let r = pos + rb.len();
    if ts.len() == 0 {
        lemma_expr_mismatch_at_rparen(s, pos);
        assert(token_forms(ts) =~= Seq::<Form>::empty());
    } else {
        let t0 = ts[0];
        let tb = token_bytes(t0);
        let rest = ts.skip(1);
        let rbr = rest_bytes(rest);
        lemma_token_bytes_head(t0);
        assert(rb =~= seq![32u8] + (tb + rbr));
        lemma_split_concat(s, pos, seq![32u8], tb + rbr);
        assert(s[pos] == s.subrange(pos, pos + 1)[0]);
        assert(s[pos] == 32);
        lemma_split_concat(s, pos + 1, tb, rbr);
        let e0 = pos + 1 + tb.len();
        assert(s[pos + 1] == s.subrange(pos + 1, e0)[0]);
        assert(s[pos + 1] == tb[0]);
        lemma_run_len_exact(s, pos, pos + 1, ByteClass::Whitespace);
        // the byte after the token: a space before the next token, or the
        // closing parenthesis
        if rest.len() == 0 {
            assert(e0 == r);
        } else {
            assert(s[e0] == s.subrange(e0, r)[0]);
            assert(s[e0] == 32);
        }
        assert(!is_digit(s[e0]));
        match t0 {
            Token::Num(d) => {
                lemma_expr_at_number(s, pos + 1, d);
            },
            Token::Text(c) => {
                lemma_expr_at_string(s, pos + 1, c);
            },
        }
        assert(spec_expr(s, pos + 1) == Outcome::Val(token_form(t0), e0));
        lemma_more_elems_of_tokens(s, e0, rest);
        assert(seq![token_form(t0)] + token_forms(rest) =~= token_forms(ts));
    }
}

/// Round trip of whole lists: writing any sequence of number and string
/// tokens between parentheses, separated by single spaces, parses back to
/// exactly those tokens' forms, in input order, consuming the whole input.
/// An empty token sequence writes `()` and parses back to no forms.
pub proof fn lemma_list_round_trip(ts: Seq<Token>)
    requires
        forall|k: int| 0 <= k < ts.len() ==> token_ok(#[trigger] ts[k]),
    ensures
        ({
            let s = seq![LPAREN] + written_elems(ts) + seq![RPAREN];
            spec_list(s, 0) == ListOutcome::Val(token_forms(ts), s.len() as int)
        }),
{
    let w = written_elems(ts);
    let s = seq![LPAREN] + w + seq![RPAREN];
    assert(s =~= seq![LPAREN] + (w + seq![RPAREN]));
    assert(s[0] == LPAREN);
    assert(s.subrange(1, s.len() as int) =~= w + seq![RPAREN]);
    lemma_split_concat(s, 1, w, seq![RPAREN]);
    assert(s[1 + w.len() as int] == s.subrange(1 + w.len() as int, s.len() as int)[0]);
    assert(s[1 + w.len() as int] == RPAREN);
    if ts.len() == 0 {
        lemma_expr_mismatch_at_rparen(s, 1);
        assert(token_forms(ts) =~= Seq::<Form>::empty());
    } else {
        let t0 = ts[0];
        let tb = token_bytes(t0);
        let rest = ts.skip(1);
        let rbr = rest_bytes(rest);
        lemma_token_bytes_head(t0);
        assert(w =~= tb + rbr);
        lemma_split_concat(s, 1, tb, rbr);
        let e0: int = 1 + tb.len() as int;
        if rest.len() == 0 {
            assert(e0 == 1 + w.len() as int);
        } else {
            assert(s[e0] == s.subrange(e0, 1 + w.len() as int)[0]);
            assert(s[e0] == 32);
        }
        assert(!is_digit(s[e0]));
        match t0 {
            Token::Num(d) => {
                lemma_expr_at_number(s, 1, d);
            },
            Token::Text(c) => {
                lemma_expr_at_string(s, 1, c);
            },
        }
        assert(spec_expr(s, 1) == Outcome::Val(token_form(t0), e0));
        lemma_more_elems_of_tokens(s, e0, rest);
        assert(seq![token_form(t0)] + token_forms(rest) =~= token_forms(ts));
    }
}

} // verus!


