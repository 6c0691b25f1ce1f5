//! Parser tests: from script text through the lexer into programs.

use fql::ast::{Expression, Op, Statement};
use fql::parser::{parse, ParseError};
use fql::token::{generate, Token};

#[test]
fn parses_a_single_select_statement() {
    let program = parse(generate(r##"SELECT * FROM "data.txt";"##)).unwrap();
    assert_eq!(program.len(), 1);
    match &program[0] {
        Statement::SelectStatement { counters, quantity, from, target, condition } => {
            assert!(counters.is_none());
            assert_eq!(quantity.as_ref().unwrap(), &Token::Star);
            assert_eq!(from, &Token::From);
            assert_eq!(target, "data.txt");
            assert!(condition.is_none());
        },
    }
}

#[test]
fn parses_a_where_like_clause() {
    let program = parse(generate(r##"SELECT * FROM "data.txt" WHERE LIKE "needle";"##)).unwrap();
    match &program[0] {
        Statement::SelectStatement { condition, .. } => match condition.as_ref().unwrap() {
            Expression::Where { conditional, target } => {
                assert_eq!(conditional.as_ref().unwrap(), &Token::Like);
                assert_eq!(target, "needle");
            },
        },
    }
}

#[test]
fn parses_a_where_not_like_clause() {
    let program = parse(generate(r##"SELECT * FROM "data.txt" WHERE NOTLIKE "needle";"##)).unwrap();
    match &program[0] {
        Statement::SelectStatement { condition, .. } => match condition.as_ref().unwrap() {
            Expression::Where { conditional, target } => {
                assert_eq!(conditional.as_ref().unwrap(), &Token::NotLike);
                assert_eq!(target, "needle");
            },
        },
    }
}

#[test]
fn parses_counters_and_selectors() {
    let program = parse(generate(r##"SELECT COUNTL TOP(2) FROM "data.txt";"##)).unwrap();
    match &program[0] {
        Statement::SelectStatement { counters, quantity, .. } => {
            assert_eq!(counters.as_ref().unwrap(), &Token::CountL);
            assert_eq!(quantity.as_ref().unwrap(), &Token::Top("TOP(2)".to_owned()));
        },
    }
}

#[test]
fn statement_count_matches_select_count() {
    let script = r##"SELECT * FROM "a"; SELECT COUNTC * FROM "b"; SELECT TAIL(3) FROM "c";"##;
    let program = parse(generate(script)).unwrap();
    assert_eq!(program.len(), 3);
}

#[test]
fn a_trailing_separator_is_optional() {
    let with = parse(generate(r##"SELECT * FROM "a";"##)).unwrap();
    let without = parse(generate(r##"SELECT * FROM "a""##)).unwrap();
    assert_eq!(with.len(), 1);
    assert_eq!(without.len(), 1);
}

#[test]
fn rejects_a_missing_quantity() {
    let err = parse(generate(r##"SELECT FROM "a";"##)).unwrap_err();
    match err {
        ParseError::UnexpectedToken(t) => assert_eq!(t, Token::From),
    }
}

#[test]
fn rejects_a_missing_source_string() {
    let err = parse(generate(r##"SELECT * FROM WHERE;"##)).unwrap_err();
    match err {
        ParseError::UnexpectedToken(t) => assert_eq!(t, Token::Where),
    }
}

#[test]
fn rejects_a_malformed_where_clause() {
    let err = parse(generate(r##"SELECT * FROM "a" WHERE "x";"##)).unwrap_err();
    match err {
        ParseError::UnexpectedToken(t) => assert_eq!(t, Token::Strings("x".to_owned())),
    }
}

#[test]
fn rejects_a_lexical_error_token() {
    let err = parse(generate(r##"SELECT @ FROM "a";"##)).unwrap_err();
    match err {
        ParseError::UnexpectedToken(t) => assert_eq!(t, Token::Error),
    }
}

#[test]
fn an_empty_script_is_an_empty_program() {
    let program = parse(generate("")).unwrap();
    assert_eq!(program.len(), 0);
}

#[test]
fn op_names_its_token() {
    assert_eq!(Op::token(Token::Like), Op::Like);
    assert_eq!(Op::token(Token::NotLike), Op::NotLike);
    assert_eq!(Op::token(Token::NotEquals), Op::NotEquals);
}
