use saffron::lexer::lex_line;
use saffron::parser::{Atom, ParseError, PartialExpr, Value, combine_parts, parse_partial};

fn header_m() -> PartialExpr {
    PartialExpr::Partial(vec![Atom::Header("M".to_string())])
}

#[test]
fn empty_is_left_identity() {
    let combined = combine_parts(Ok(PartialExpr::Empty), Ok(header_m()));
    assert_eq!(combined, Ok(header_m()));
}

#[test]
fn empty_is_right_identity() {
    let combined = combine_parts(Ok(header_m()), Ok(PartialExpr::Empty));
    assert_eq!(combined, Ok(header_m()));
}

#[test]
fn empty_is_identity_on_errors() {
    let errs = || vec![ParseError::Unparsable];
    let combined = combine_parts(Ok(PartialExpr::Empty), Err(errs()));
    assert_eq!(combined, Err(errs()));
    let combined = combine_parts(Err(errs()), Ok(PartialExpr::Empty));
    assert_eq!(combined, Err(errs()));
}

#[test]
fn two_failing_lines_accumulate_two_errors() {
    let a = || vec![ParseError::Unparsable];
    let b = || vec![ParseError::MissingHeader];
    let one_way = combine_parts(Err(a()), Err(b()));
    let other_way = combine_parts(Err(b()), Err(a()));
    assert_eq!(one_way.as_ref().unwrap_err().len(), 2);
    assert_eq!(other_way.as_ref().unwrap_err().len(), 2);
}

#[test]
fn open_definition_joins_with_following_value() {
    let open = PartialExpr::Partial(vec![Atom::Open("x".to_string())]);
    let value = PartialExpr::Partial(vec![Atom::Val(Value::Str("v".to_string()))]);
    let combined = combine_parts(Ok(open), Ok(value));
    assert_eq!(
        combined,
        Ok(PartialExpr::Partial(vec![Atom::Def(
            "x".to_string(),
            Value::Str("v".to_string())
        )]))
    );
}

#[test]
fn combining_is_associative_across_a_seam() {
    let a = || Ok(PartialExpr::Partial(vec![Atom::Open("x".to_string())]));
    let b = || Ok(PartialExpr::Partial(vec![Atom::Val(Value::Str("v".to_string()))]));
    let c = || Ok(PartialExpr::Partial(vec![Atom::Open("y".to_string())]));
    let left_first = combine_parts(combine_parts(a(), b()), c());
    let right_first = combine_parts(a(), combine_parts(b(), c()));
    assert_eq!(left_first, right_first);
}

#[test]
fn header_line_parses_to_a_header_atom() {
    let tokens = lex_line("module Foo where").unwrap();
    let part = parse_partial(&tokens).unwrap();
    assert_eq!(part, PartialExpr::Partial(vec![Atom::Header("Foo".to_string())]));
}

#[test]
fn blank_line_parses_to_empty() {
    let tokens = lex_line("   ").unwrap();
    assert_eq!(parse_partial(&tokens).unwrap(), PartialExpr::Empty);
}

#[test]
fn definition_line_parses_to_a_def_atom() {
    let tokens = lex_line("x = \"v\"").unwrap();
    let part = parse_partial(&tokens).unwrap();
    assert_eq!(
        part,
        PartialExpr::Partial(vec![Atom::Def("x".to_string(), Value::Str("v".to_string()))])
    );
}

#[test]
fn open_definition_line_parses_to_an_open_atom() {
    let tokens = lex_line("x =").unwrap();
    let part = parse_partial(&tokens).unwrap();
    assert_eq!(part, PartialExpr::Partial(vec![Atom::Open("x".to_string())]));
}

#[test]
fn uninterpretable_line_is_a_line_error() {
    let tokens = lex_line("= =").unwrap();
    assert_eq!(parse_partial(&tokens), Err(ParseError::Unparsable));
}
