use prototype_parser::ast::Ast;
use prototype_parser::parser::{parse, Error, Expected};
use prototype_parser::token::Token;

fn lit(s: &str) -> Token {
    Token::Literal(s.to_string())
}

fn interp(s: &str) -> Token {
    Token::Interpolation(s.to_string())
}

fn opener(s: &str) -> Token {
    Token::SectionOpener(s.to_string())
}

fn closer(s: &str) -> Token {
    Token::SectionCloser(s.to_string())
}

#[test]
fn parser_it_works() {
    assert_eq!(
        Ast::Sequence(vec![Ast::Literal("text".to_string())]),
        parse(vec![lit("text")]).unwrap()
    )
}

#[test]
fn simple_section() {
    assert_eq!(
        Ast::Sequence(vec![
            Ast::Literal("text a".to_string()),
            Ast::Section {
                name: "x".to_string(),
                nested: Box::new(Ast::Sequence(vec![Ast::Literal("text b".to_string())])),
            },
            Ast::Literal("text c".to_string()),
        ]),
        parse(vec![
            lit("text a"),
            opener("x"),
            lit("text b"),
            closer("x"),
            lit("text c"),
        ])
        .unwrap()
    )
}

#[test]
fn section_closer_mismatch() {
    let res = parse(vec![opener("x"), closer("y")]);

    assert!(res.is_err())
}

#[test]
fn empty_input() {
    assert_eq!(Ast::Sequence(vec![]), parse(vec![]).unwrap());
}

#[test]
fn basic_interpolation() {
    assert_eq!(
        Ast::Sequence(vec![Ast::Interpolation("name".to_string())]),
        parse(vec![interp("name")]).unwrap()
    );
}

#[test]
fn empty_section_body() {
    assert_eq!(
        Ast::Sequence(vec![Ast::Section {
            name: "x".to_string(),
            nested: Box::new(Ast::Sequence(vec![])),
        }]),
        parse(vec![opener("x"), closer("x")]).unwrap()
    );
}

#[test]
fn name_mismatch_fields() {
    assert_eq!(
        Error::Mismatch {
            expected: Expected::SectionCloser,
            found: Some(closer("y")),
        },
        parse(vec![opener("x"), closer("y")]).unwrap_err()
    );
}

#[test]
fn unclosed_section() {
    assert_eq!(
        Error::Mismatch {
            expected: Expected::SectionCloser,
            found: None,
        },
        parse(vec![opener("x"), lit("text")]).unwrap_err()
    );
}

#[test]
fn trailing_closer() {
    assert_eq!(
        Error::Mismatch {
            expected: Expected::Eof,
            found: Some(closer("x")),
        },
        parse(vec![lit("text"), closer("x")]).unwrap_err()
    );
}

#[test]
fn deeply_nested_sections() {
    assert_eq!(
        Ast::Sequence(vec![Ast::Section {
            name: "a".to_string(),
            nested: Box::new(Ast::Sequence(vec![Ast::Section {
                name: "b".to_string(),
                nested: Box::new(Ast::Sequence(vec![Ast::Interpolation("v".to_string())])),
            }])),
        }]),
        parse(vec![
            opener("a"),
            opener("b"),
            interp("v"),
            closer("b"),
            closer("a"),
        ])
        .unwrap()
    );
}

#[test]
fn parse_is_deterministic() {
    let tokens = || vec![lit("text a"), opener("x"), interp("v"), closer("x")];
    assert_eq!(parse(tokens()), parse(tokens()));

    let bad = || vec![opener("x"), closer("y")];
    assert_eq!(parse(bad()), parse(bad()));
}

#[test]
fn expected_descriptions() {
    assert_eq!("literal", Expected::Literal.description());
    assert_eq!("interpolation", Expected::Interpolation.description());
    assert_eq!("section opener", Expected::SectionOpener.description());
    assert_eq!("section closer", Expected::SectionCloser.description());
    assert_eq!("EOF", Expected::Eof.description());
}

#[test]
fn case_sensitive_names() {
    let res = parse(vec![opener("x"), closer("X")]);
    assert_eq!(
        Error::Mismatch {
            expected: Expected::SectionCloser,
            found: Some(closer("X")),
        },
        res.unwrap_err()
    );
}
