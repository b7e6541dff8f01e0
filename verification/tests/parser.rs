use lisp_reader::ast::LispVal;
use lisp_reader::ast::ParseError;
use lisp_reader::parse::read_expr;
use lisp_reader::parse::read_list;

#[test]
fn read_number() {
    assert_eq!(read_expr(b"123"), Ok(LispVal::Number(123)));
}

#[test]
fn read_binary_number() {
    assert_eq!(read_expr(b"#b11"), Ok(LispVal::Number(3)));
}

#[test]
fn read_octal_number() {
    assert_eq!(read_expr(b"#o321"), Ok(LispVal::Number(209)));
}

#[test]
fn read_hex_number() {
    assert_eq!(read_expr(b"#xFF"), Ok(LispVal::Number(255)));
}

#[test]
fn read_string() {
    assert_eq!(read_expr(b"\"123\""), Ok(LispVal::String("123".to_owned())));
}

#[test]
fn read_atom() {
    assert_eq!(read_expr(b"symbol"), Ok(LispVal::Atom("symbol".to_owned())));
}

#[test]
fn read_string_with_quote() {
    assert_eq!(
        read_expr(b"\"1\\\"23\""),
        Ok(LispVal::String("1\"23".to_owned()))
    );
}

#[test]
fn read_list_test() {
    assert_eq!(
        read_list(b"(1 2 3)"),
        Ok(LispVal::List(vec![
            LispVal::Number(1),
            LispVal::Number(2),
            LispVal::Number(3)
        ]))
    );
}

#[test]
fn read_list_strings() {
    assert_eq!(
        read_list(b"(1 2 \"Hello World\")"),
        Ok(LispVal::List(vec![
            LispVal::Number(1),
            LispVal::Number(2),
            LispVal::String("Hello World".to_string())
        ]))
    );
}

#[test]
fn decimal_with_leading_zeros() {
    assert_eq!(read_expr(b"007"), Ok(LispVal::Number(7)));
}

#[test]
fn hex_lower_case_same_value() {
    assert_eq!(read_expr(b"#xff"), Ok(LispVal::Number(255)));
    assert_eq!(read_expr(b"#xFf"), Ok(LispVal::Number(255)));
}

#[test]
fn booleans_are_not_atoms() {
    assert_eq!(read_expr(b"#t"), Ok(LispVal::Bool(true)));
    assert_eq!(read_expr(b"#f"), Ok(LispVal::Bool(false)));
}

#[test]
fn boolean_lookalikes_stay_atoms() {
    assert_eq!(read_expr(b"#true"), Ok(LispVal::Atom("#true".to_owned())));
    assert_eq!(read_expr(b"#T"), Ok(LispVal::Atom("#T".to_owned())));
}

#[test]
fn atom_with_digits_and_symbols() {
    assert_eq!(read_expr(b"a1!<=>"), Ok(LispVal::Atom("a1!<=>".to_owned())));
}

#[test]
fn radix_lookalike_without_digits_is_atom() {
    assert_eq!(read_expr(b"#b2"), Ok(LispVal::Atom("#b2".to_owned())));
    assert_eq!(read_expr(b"#oops"), Ok(LispVal::Atom("#oops".to_owned())));
}

#[test]
fn empty_string_literal() {
    assert_eq!(read_expr(b"\"\""), Ok(LispVal::String(String::new())));
}

#[test]
fn string_with_multibyte_text() {
    assert_eq!(
        read_expr("\"h\u{e9}llo\"".as_bytes()),
        Ok(LispVal::String("h\u{e9}llo".to_owned()))
    );
}

#[test]
fn string_with_invalid_encoding_fails() {
    assert_eq!(read_expr(b"\"\xff\""), Err(ParseError::Mismatch));
}

#[test]
fn string_missing_closing_quote_fails() {
    assert_eq!(read_expr(b"\"abc"), Err(ParseError::Mismatch));
}

#[test]
fn only_the_quote_is_escapable() {
    assert_eq!(read_expr(b"\"a\\n\""), Err(ParseError::Mismatch));
}

#[test]
fn largest_number_fits() {
    assert_eq!(
        read_expr(b"9223372036854775807"),
        Ok(LispVal::Number(i64::MAX))
    );
}

#[test]
fn decimal_overflow_fails() {
    assert_eq!(read_expr(b"9223372036854775808"), Err(ParseError::Overflow));
    assert_eq!(
        read_expr(b"99999999999999999999"),
        Err(ParseError::Overflow)
    );
}

#[test]
fn hex_overflow_fails() {
    assert_eq!(read_expr(b"#x10000000000000000"), Err(ParseError::Overflow));
}

#[test]
fn overflow_inside_list_fails() {
    assert_eq!(
        read_list(b"(1 99999999999999999999)"),
        Err(ParseError::Overflow)
    );
}

#[test]
fn nothing_matches_empty_input() {
    assert_eq!(read_expr(b""), Err(ParseError::Mismatch));
    assert_eq!(read_expr(b")"), Err(ParseError::Mismatch));
}

#[test]
fn trailing_input_is_ignored() {
    assert_eq!(read_expr(b"123)"), Ok(LispVal::Number(123)));
    assert_eq!(
        read_list(b"(1) extra"),
        Ok(LispVal::List(vec![LispVal::Number(1)]))
    );
}

#[test]
fn empty_list() {
    assert_eq!(read_list(b"()"), Ok(LispVal::List(vec![])));
}

#[test]
fn list_missing_closing_paren_fails() {
    assert_eq!(read_list(b"(1 2"), Err(ParseError::Mismatch));
}

#[test]
fn list_elements_separated_by_any_whitespace() {
    assert_eq!(
        read_list(b"(1\t2\r\n3)"),
        Ok(LispVal::List(vec![
            LispVal::Number(1),
            LispVal::Number(2),
            LispVal::Number(3)
        ]))
    );
}

#[test]
fn list_allows_no_padding_inside_parens() {
    assert_eq!(read_list(b"( 1)"), Err(ParseError::Mismatch));
    assert_eq!(read_list(b"(1 )"), Err(ParseError::Mismatch));
}

#[test]
fn list_of_mixed_forms_keeps_order() {
    assert_eq!(
        read_list(b"(#t sym \"s\" #b101)"),
        Ok(LispVal::List(vec![
            LispVal::Bool(true),
            LispVal::Atom("sym".to_owned()),
            LispVal::String("s".to_owned()),
            LispVal::Number(5)
        ]))
    );
}
