//! Lexer tests: token recognition over whole script snippets.

use fql::token::{generate, Token};

#[test]
fn it_can_recognise_select_statements() {
    let tokens = generate(r##"SELECT * FROM "C:\temp\workflow2.json";"##);
    assert_eq!(tokens[0], Token::Select);
    assert_eq!(tokens[1], Token::Star);
    assert_eq!(tokens[2], Token::From);
    assert_eq!(tokens[3], Token::Strings(r"C:\temp\workflow2.json".to_owned()));
    assert_eq!(tokens[4], Token::Eos);
    assert_eq!(tokens.len(), 5);
}

#[test]
fn it_can_recognise_select_with_where_like_condition() {
    let tokens = generate(r##"SELECT * FROM "C:\temp\workflow2.json" WHERE LIKE "taskid";"##);
    assert_eq!(tokens[0], Token::Select);
    assert_eq!(tokens[1], Token::Star);
    assert_eq!(tokens[2], Token::From);
    assert_eq!(tokens[3], Token::Strings(r"C:\temp\workflow2.json".to_owned()));
    assert_eq!(tokens[4], Token::Where);
    assert_eq!(tokens[5], Token::Like);
    assert_eq!(tokens[6], Token::Strings(r"taskid".to_owned()));
    assert_eq!(tokens[7], Token::Eos);
}

#[test]
fn it_can_recognise_case_insensitive() {
    let tokens = generate(r##"select * fRom "C:\temp\workflow2.json" wHeRe LiKe "taskid";"##);
    assert_eq!(tokens[0], Token::Select);
    assert_eq!(tokens[1], Token::Star);
    assert_eq!(tokens[2], Token::From);
    assert_eq!(tokens[3], Token::Strings(r"C:\temp\workflow2.json".to_owned()));
    assert_eq!(tokens[4], Token::Where);
    assert_eq!(tokens[5], Token::Like);
    assert_eq!(tokens[6], Token::Strings(r"taskid".to_owned()));
    assert_eq!(tokens[7], Token::Eos);
}

#[test]
fn it_can_recognise_select_with_where_not_like_condition() {
    let tokens = generate(r##"SELECT * FROM "C:\temp\workflow2.json" WHERE NOTLIKE "taskid";"##);
    assert_eq!(tokens[0], Token::Select);
    assert_eq!(tokens[1], Token::Star);
    assert_eq!(tokens[2], Token::From);
    assert_eq!(tokens[3], Token::Strings(r"C:\temp\workflow2.json".to_owned()));
    assert_eq!(tokens[4], Token::Where);
    assert_eq!(tokens[5], Token::NotLike);
    assert_eq!(tokens[6], Token::Strings(r"taskid".to_owned()));
    assert_eq!(tokens[7], Token::Eos);
}

#[test]
fn it_can_recognise_select_with_count_statements() {
    let tokens = generate(
        r##"SELECT COUNTC * FROM "C:\temp\workflow2.json"; SELECT COUNTL * FROM "C:\temp\workflow2.json"; SELECT COUNTW * FROM "C:\temp\workflow2.json"; "##,
    );
    assert_eq!(tokens[0], Token::Select);
    assert_eq!(tokens[1], Token::CountC);
    assert_eq!(tokens[2], Token::Star);
    assert_eq!(tokens[3], Token::From);
    assert_eq!(tokens[4], Token::Strings(r"C:\temp\workflow2.json".to_owned()));
    assert_eq!(tokens[5], Token::Eos);
    assert_eq!(tokens[6], Token::Select);
    assert_eq!(tokens[7], Token::CountL);
    assert_eq!(tokens[8], Token::Star);
    assert_eq!(tokens[9], Token::From);
    assert_eq!(tokens[10], Token::Strings(r"C:\temp\workflow2.json".to_owned()));
    assert_eq!(tokens[11], Token::Eos);
    assert_eq!(tokens[12], Token::Select);
    assert_eq!(tokens[13], Token::CountW);
    assert_eq!(tokens[14], Token::Star);
    assert_eq!(tokens[15], Token::From);
    assert_eq!(tokens[16], Token::Strings(r"C:\temp\workflow2.json".to_owned()));
    assert_eq!(tokens[17], Token::Eos);
}

#[test]
fn it_can_recognise_reserved_keywords() {
    let tokens = generate("fn true false SELECT FROM WHERE CREATE");
    assert_eq!(tokens[0], Token::Fn);
    assert_eq!(tokens[1], Token::True);
    assert_eq!(tokens[2], Token::False);
    assert_eq!(tokens[3], Token::Select);
    assert_eq!(tokens[4], Token::From);
    assert_eq!(tokens[5], Token::Where);
    assert_eq!(tokens[6], Token::Create);
}

#[test]
fn it_can_recognise_numbers() {
    let tokens = generate("12345 6789.98 2.5 4.51");
    assert_eq!(tokens[0], Token::Number("12345".to_owned()));
    assert_eq!(tokens[1], Token::Number("6789.98".to_owned()));
    assert_eq!(tokens[2], Token::Number("2.5".to_owned()));
    assert_eq!(tokens[3], Token::Number("4.51".to_owned()));
}

#[test]
fn it_can_recognise_strings() {
    let tokens = generate(r##""testing" "testing with \"" "testing \n""##);
    assert_eq!(tokens[0], Token::Strings(r"testing".to_owned()));
    assert_eq!(tokens[1], Token::Strings(r#"testing with \""#.to_owned()));
    assert_eq!(tokens[2], Token::Strings(r#"testing \n"#.to_owned()));
}

#[test]
fn it_can_recognise_symbols() {
    let tokens = generate("( ) { } + - * /");
    assert_eq!(tokens[0], Token::LeftParen);
    assert_eq!(tokens[1], Token::RightParen);
    assert_eq!(tokens[2], Token::LeftBrace);
    assert_eq!(tokens[3], Token::RightBrace);
    assert_eq!(tokens[4], Token::Plus);
    assert_eq!(tokens[5], Token::Minus);
    assert_eq!(tokens[6], Token::Star);
    assert_eq!(tokens[7], Token::Slash);
}

#[test]
fn it_can_match_top_and_tail_lexis() {
    let tokens = generate(r##"Top(15) Top(100) Tail(15) Tail(100) tOp(12)"##);
    assert_eq!(tokens[0], Token::Top("TOP(15)".to_owned()));
    assert_eq!(tokens[1], Token::Top("TOP(100)".to_owned()));
    assert_eq!(tokens[2], Token::Tail("TAIL(15)".to_owned()));
    assert_eq!(tokens[3], Token::Tail("TAIL(100)".to_owned()));
    assert_eq!(tokens[4], Token::Top("TOP(12)".to_owned()));
}

#[test]
fn extra_whitespace_and_comments_change_no_tokens() {
    let plain = generate(r##"SELECT * FROM "f";"##);
    let padded = generate("  \t\nSELECT   *\t FROM\n \"f\" ;");
    assert_eq!(plain, padded);
    let commented = generate("-- a note\nSELECT * -- inline rest of line\n* FROM \"f\";");
    let uncommented = generate("SELECT * * FROM \"f\";");
    assert_eq!(commented, uncommented);
}

#[test]
fn unmatched_input_yields_one_error_token_per_run() {
    let tokens = generate("@@@ SELECT ###");
    assert_eq!(tokens.len(), 3);
    assert_eq!(tokens[0], Token::Error);
    assert_eq!(tokens[1], Token::Select);
    assert_eq!(tokens[2], Token::Error);
}

#[test]
fn comment_runs_to_end_of_line_only() {
    let tokens = generate("-- SELECT nothing\n;");
    assert_eq!(tokens.len(), 1);
    assert_eq!(tokens[0], Token::Eos);
}

#[test]
fn unterminated_string_is_an_error_run() {
    let tokens = generate(r##""abc"##);
    assert_eq!(tokens.len(), 1);
    assert_eq!(tokens[0], Token::Error);
}
