//! Interpreter tests: whole-pipeline runs against in-memory file lines.

use fql::interpreter::{
    execute_statement, get_n_from_token, interprete, run_counter, run_statement,
    statement_source, InterpreterError, QueryOutput, SourceFile,
};
use fql::parser::parse;
use fql::token::{generate, Token};

fn sample_lines() -> Vec<String> {
    vec![
        "alpha".to_string(),
        "beta".to_string(),
        "alphabet".to_string(),
        "gamma".to_string(),
    ]
}

fn sample_files() -> Vec<SourceFile> {
    vec![SourceFile { name: "f".to_string(), lines: sample_lines() }]
}

fn run_one(script: &str, files: &Vec<SourceFile>) -> Result<Vec<QueryOutput>, InterpreterError> {
    let program = parse(generate(script)).unwrap();
    interprete(&program, files)
}

#[test]
fn like_keeps_lines_containing_the_pattern() {
    let outputs = run_one(r##"SELECT * FROM "f" WHERE LIKE "alpha";"##, &sample_files()).unwrap();
    match &outputs[0] {
        QueryOutput::Rows(rows) => {
            assert_eq!(rows, &vec!["alpha".to_string(), "alphabet".to_string()]);
        },
        QueryOutput::Count(_) => panic!("expected rows"),
    }
}

#[test]
fn countl_top_two_counts_two_lines() {
    let outputs = run_one(r##"SELECT COUNTL TOP(2) FROM "f";"##, &sample_files()).unwrap();
    match &outputs[0] {
        QueryOutput::Count(n) => assert_eq!(*n, 2),
        QueryOutput::Rows(_) => panic!("expected a count"),
    }
}

#[test]
fn tail_two_keeps_the_last_two_lines() {
    let outputs = run_one(r##"SELECT TAIL(2) FROM "f";"##, &sample_files()).unwrap();
    match &outputs[0] {
        QueryOutput::Rows(rows) => {
            assert_eq!(rows, &vec!["alphabet".to_string(), "gamma".to_string()]);
        },
        QueryOutput::Count(_) => panic!("expected rows"),
    }
}

#[test]
fn an_empty_source_path_fails_before_any_lookup() {
    let files = vec![SourceFile { name: "".to_string(), lines: sample_lines() }];
    let err = run_one(r##"SELECT * FROM "";"##, &files).unwrap_err();
    match err {
        InterpreterError::InvalidOrUnavailableFile(path) => assert_eq!(path, ""),
        _ => panic!("expected the unavailable-file failure"),
    }
}

#[test]
fn a_pattern_matching_nothing_gives_empty_rows_not_an_error() {
    let outputs = run_one(r##"SELECT * FROM "f" WHERE LIKE "zzz";"##, &sample_files()).unwrap();
    match &outputs[0] {
        QueryOutput::Rows(rows) => assert_eq!(rows.len(), 0),
        QueryOutput::Count(_) => panic!("expected rows"),
    }
}

#[test]
fn countc_sums_the_characters_of_the_selected_lines() {
    let outputs = run_one(r##"SELECT COUNTC * FROM "f";"##, &sample_files()).unwrap();
    match &outputs[0] {
        QueryOutput::Count(n) => assert_eq!(*n, 22),
        QueryOutput::Rows(_) => panic!("expected a count"),
    }
}

#[test]
fn countw_sums_the_words_of_the_selected_lines() {
    let files = vec![SourceFile {
        name: "f".to_string(),
        lines: vec!["alpha beta".to_string(), "  gamma\tdelta epsilon ".to_string()],
    }];
    let outputs = run_one(r##"SELECT COUNTW * FROM "f";"##, &files).unwrap();
    match &outputs[0] {
        QueryOutput::Count(n) => assert_eq!(*n, 5),
        QueryOutput::Rows(_) => panic!("expected a count"),
    }
}

#[test]
fn notlike_is_the_complement_of_like() {
    let like = run_one(r##"SELECT * FROM "f" WHERE LIKE "alpha";"##, &sample_files()).unwrap();
    let notlike = run_one(r##"SELECT * FROM "f" WHERE NOTLIKE "alpha";"##, &sample_files())
        .unwrap();
    match (&like[0], &notlike[0]) {
        (QueryOutput::Rows(kept), QueryOutput::Rows(dropped)) => {
            assert_eq!(kept.len() + dropped.len(), sample_lines().len());
            assert_eq!(kept, &vec!["alpha".to_string(), "alphabet".to_string()]);
            assert_eq!(dropped, &vec!["beta".to_string(), "gamma".to_string()]);
        },
        _ => panic!("expected rows on both sides"),
    }
}

#[test]
fn top_clamps_to_the_available_lines() {
    let outputs = run_one(r##"SELECT TOP(100) FROM "f";"##, &sample_files()).unwrap();
    match &outputs[0] {
        QueryOutput::Rows(rows) => assert_eq!(rows, &sample_lines()),
        QueryOutput::Count(_) => panic!("expected rows"),
    }
}

#[test]
fn top_n_then_tail_n_returns_the_same_lines() {
    let top = run_one(r##"SELECT TOP(3) FROM "f";"##, &sample_files()).unwrap();
    let top_rows = match &top[0] {
        QueryOutput::Rows(rows) => rows.clone(),
        QueryOutput::Count(_) => panic!("expected rows"),
    };
    let narrowed = vec![SourceFile { name: "g".to_string(), lines: top_rows.clone() }];
    let tail = run_one(r##"SELECT TAIL(3) FROM "g";"##, &narrowed).unwrap();
    match &tail[0] {
        QueryOutput::Rows(rows) => assert_eq!(rows, &top_rows),
        QueryOutput::Count(_) => panic!("expected rows"),
    }
}

#[test]
fn countl_star_counts_every_line_of_the_file() {
    let outputs = run_one(r##"SELECT COUNTL * FROM "f";"##, &sample_files()).unwrap();
    match &outputs[0] {
        QueryOutput::Count(n) => assert_eq!(*n, sample_lines().len()),
        QueryOutput::Rows(_) => panic!("expected a count"),
    }
}

#[test]
fn a_missing_file_is_an_unavailable_file_failure() {
    let err = run_one(r##"SELECT * FROM "nope";"##, &sample_files()).unwrap_err();
    match err {
        InterpreterError::InvalidOrUnavailableFile(path) => assert_eq!(path, "nope"),
        _ => panic!("expected the unavailable-file failure"),
    }
}

#[test]
fn the_first_failure_aborts_the_run() {
    let script = r##"SELECT * FROM "nope"; SELECT * FROM "f";"##;
    assert!(run_one(script, &sample_files()).is_err());
}

#[test]
fn statements_run_in_source_order() {
    let script = r##"SELECT COUNTL * FROM "f"; SELECT TOP(1) FROM "f";"##;
    let outputs = run_one(script, &sample_files()).unwrap();
    assert_eq!(outputs.len(), 2);
    match &outputs[0] {
        QueryOutput::Count(n) => assert_eq!(*n, 4),
        QueryOutput::Rows(_) => panic!("expected a count first"),
    }
    match &outputs[1] {
        QueryOutput::Rows(rows) => assert_eq!(rows, &vec!["alpha".to_string()]),
        QueryOutput::Count(_) => panic!("expected rows second"),
    }
}

#[test]
fn selector_bounds_sum_every_digit_run() {
    assert_eq!(get_n_from_token(&"TOP(15)".to_string()), 15);
    assert_eq!(get_n_from_token(&"TAIL(100)".to_string()), 100);
    assert_eq!(get_n_from_token(&"TOP(1)2(3)".to_string()), 6);
    assert_eq!(get_n_from_token(&"TOP()".to_string()), 0);
}

#[test]
fn an_oversized_digit_run_falls_back_to_ten() {
    assert_eq!(get_n_from_token(&"TOP(999999999999999999999999999999)".to_string()), 10);
}

#[test]
fn run_counter_counts_lines_characters_and_words() {
    let lines = vec!["one two".to_string(), "three".to_string()];
    assert_eq!(run_counter(&Token::CountL, &lines), 2);
    assert_eq!(run_counter(&Token::CountC, &lines), 12);
    assert_eq!(run_counter(&Token::CountW, &lines), 3);
}

#[test]
fn statement_source_rejects_only_the_empty_path() {
    let program = parse(generate(r##"SELECT * FROM "data.txt";"##)).unwrap();
    assert_eq!(statement_source(&program[0]).unwrap(), "data.txt");
    let empty = parse(generate(r##"SELECT * FROM "";"##)).unwrap();
    assert!(statement_source(&empty[0]).is_err());
}

#[test]
fn execute_statement_works_on_supplied_lines() {
    let program = parse(generate(r##"SELECT TOP(2) FROM "f" WHERE NOTLIKE "beta";"##)).unwrap();
    let out = execute_statement(&program[0], &sample_lines()).unwrap();
    match out {
        QueryOutput::Rows(rows) => {
            assert_eq!(rows, vec!["alpha".to_string(), "alphabet".to_string()]);
        },
        QueryOutput::Count(_) => panic!("expected rows"),
    }
}

#[test]
fn run_statement_looks_up_the_named_file() {
    let program = parse(generate(r##"SELECT COUNTL * FROM "f";"##)).unwrap();
    let out = run_statement(&program[0], &sample_files()).unwrap();
    match out {
        QueryOutput::Count(n) => assert_eq!(n, 4),
        QueryOutput::Rows(_) => panic!("expected a count"),
    }
}
