//! A tiny query language for inspecting text files.
//!
//! A script is a sequence of `SELECT` statements.  Each statement names a
//! source file, may filter its lines by a literal substring (`WHERE LIKE` /
//! `WHERE NOTLIKE`), may keep only a leading or trailing slice (`TOP(n)` /
//! `TAIL(n)`), and may reduce the selected lines to a character, line or
//! word count (`COUNTC` / `COUNTL` / `COUNTW`).
//!
//! The pipeline has three stages, each verified against a mathematical
//! model of its behaviour:
//! - [`token::generate`] turns the script text into a token sequence,
//! - [`parser::parse`] turns the token sequence into a program,
//! - [`interpreter::interprete`] runs the program against file contents
//!   that the caller supplies as plain lines.
//!
//! Reading files and writing results is left to the embedding program.

pub mod ast;
pub mod interpreter;
pub mod parser;
pub mod token;
