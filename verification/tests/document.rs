use saffron::ast::{Expr, Module, complete_expression};
use saffron::hover::hover_category;
use saffron::lexer::LexError;
use saffron::parser::{ParseError, PartialExpr};

fn main_module(text: &str) -> Module {
    saffron::ast::parse_expr(text).unwrap()
}

#[test]
fn header_only_document_parses_to_a_bare_module() {
    let m = main_module("module Foo where\n");
    assert_eq!(m.name, "Foo");
    assert!(m.imports.is_empty());
    assert!(m.definitions.is_empty());
}

#[test]
fn string_definition_is_collected() {
    let m = main_module("module Foo where\ngreeting = \"hi\"\n");
    assert_eq!(m.definitions.len(), 1);
    assert_eq!(m.definitions[0].name, "greeting");
    assert_eq!(m.definitions[0].def_type, None);
    assert_eq!(m.definitions[0].def_expr, Expr::StrLit("hi".to_string()));
}

#[test]
fn identifier_definition_is_collected() {
    let m = main_module("module Foo where\nx = y");
    assert_eq!(m.definitions.len(), 1);
    assert_eq!(m.definitions[0].def_expr, Expr::Ident("y".to_string()));
}

#[test]
fn definition_may_span_two_lines() {
    let m = main_module("module M where\nx =\n\"val\"");
    assert_eq!(m.definitions.len(), 1);
    assert_eq!(m.definitions[0].name, "x");
    assert_eq!(m.definitions[0].def_expr, Expr::StrLit("val".to_string()));
}

#[test]
fn blank_lines_contribute_nothing() {
    let m = main_module("module M where\n\n   \nx = \"1\"\n");
    assert_eq!(m.definitions.len(), 1);
}

#[test]
fn carriage_returns_are_stripped() {
    let m = main_module("module M where\r\nx = \"1\"\r\n");
    assert_eq!(m.name, "M");
    assert_eq!(m.definitions.len(), 1);
}

#[test]
fn empty_document_misses_its_header() {
    assert_eq!(
        saffron::ast::parse_expr(""),
        Err(vec![ParseError::MissingHeader])
    );
}

#[test]
fn document_without_header_is_rejected() {
    assert_eq!(
        saffron::ast::parse_expr("x = \"1\"\n"),
        Err(vec![ParseError::MissingHeader])
    );
}

#[test]
fn second_header_is_rejected() {
    assert_eq!(
        saffron::ast::parse_expr("module A where\nmodule B where\n"),
        Err(vec![ParseError::MisplacedHeader])
    );
}

#[test]
fn unclosed_definition_is_incomplete() {
    assert_eq!(
        saffron::ast::parse_expr("module A where\nx =\n"),
        Err(vec![ParseError::Incomplete])
    );
}

#[test]
fn dangling_value_is_an_orphan() {
    assert_eq!(
        saffron::ast::parse_expr("module A where\n\"dangling\"\n"),
        Err(vec![ParseError::OrphanValue])
    );
}

#[test]
fn duplicate_definition_names_are_rejected() {
    assert_eq!(
        saffron::ast::parse_expr("module A where\nx = \"1\"\nx = \"2\"\n"),
        Err(vec![ParseError::DuplicateDefinition])
    );
}

#[test]
fn lexing_failures_are_line_scoped_and_accumulate() {
    assert_eq!(
        saffron::ast::parse_expr("(\n)"),
        Err(vec![
            ParseError::Lex(LexError::IllegalChar),
            ParseError::Lex(LexError::IllegalChar)
        ])
    );
}

#[test]
fn lexing_and_parsing_failures_accumulate_together() {
    assert_eq!(
        saffron::ast::parse_expr("(\n= ="),
        Err(vec![ParseError::Lex(LexError::IllegalChar), ParseError::Unparsable])
    );
}

#[test]
fn finalizing_an_empty_result_misses_its_header() {
    assert_eq!(
        complete_expression(PartialExpr::Empty),
        Err(ParseError::MissingHeader)
    );
}

#[test]
fn hover_reports_the_token_covering_the_column() {
    assert_eq!(hover_category("module Foo where", 3), Some("module keyword"));
}

#[test]
fn hover_is_start_inclusive_end_exclusive() {
    assert_eq!(hover_category("module Foo where", 0), Some("module keyword"));
    assert_eq!(hover_category("module Foo where", 6), Some("whitespace"));
    assert_eq!(hover_category("module Foo where", 7), Some("symbol"));
    assert_eq!(hover_category("module Foo where", 11), Some("where keyword"));
}

#[test]
fn hover_past_the_line_end_reports_nothing() {
    assert_eq!(hover_category("module", 6), None);
    assert_eq!(hover_category("module", 100), None);
}

#[test]
fn hover_on_an_unlexable_line_reports_nothing() {
    assert_eq!(hover_category("(", 0), None);
}

#[test]
fn hover_describes_literals_and_operators() {
    assert_eq!(hover_category("x = \"v\"", 2), Some("equals operator"));
    assert_eq!(hover_category("x = \"v\"", 4), Some("string literal"));
}
