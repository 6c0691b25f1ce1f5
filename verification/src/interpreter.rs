//! The interpreter: executes each statement of a program, in order,
//! against file contents supplied as plain lines.
//!
//! Reading files is left to the embedding program: it hands each
//! statement's lines to [`execute_statement`], or a whole set of available
//! files to [`interprete`].  The run aborts on the first failing
//! statement.

use vstd::prelude::*;

use crate::ast::{Expression, ExpressionModel, Program, Statement, StatementModel};
use crate::ast::{wf_condition, wf_program, wf_statement};
use crate::token::{chars_vec, digit_run, is_digit_char, lemma_digit_run_bounds};
use crate::token::{Token, TokenModel};

verus! {

/// A failure while executing a statement.
#[derive(Debug)]
pub enum InterpreterError {
    /// The named source file is empty, missing or unreadable.
    InvalidOrUnavailableFile(String),
    /// A required token was absent; carries a description of what was
    /// expected.
    InvalidQueryToken(String),
    /// Any other read or write fault; carries its description.
    IOError(String),
}

/// The mathematical value of an [`InterpreterError`].
pub enum InterpreterErrorModel {
    InvalidOrUnavailableFile(Seq<char>),
    InvalidQueryToken(Seq<char>),
    IOError(Seq<char>),
}

impl View for InterpreterError {
    type V = InterpreterErrorModel;

    open spec fn view(&self) -> InterpreterErrorModel {
        match self {
            InterpreterError::InvalidOrUnavailableFile(s) => {
                InterpreterErrorModel::InvalidOrUnavailableFile(s@)
            },
            InterpreterError::InvalidQueryToken(s) => InterpreterErrorModel::InvalidQueryToken(s@),
            InterpreterError::IOError(s) => InterpreterErrorModel::IOError(s@),
        }
    }
}

/// What one statement emits: the selected lines verbatim, or the single
/// value of an aggregate.
#[derive(Debug)]
pub enum QueryOutput {
    Rows(Vec<String>),
    Count(usize),
}

/// The mathematical value of a [`QueryOutput`].
pub enum QueryOutputModel {
    Rows(Seq<Seq<char>>),
    Count(int),
}

impl View for QueryOutput {
    type V = QueryOutputModel;

    open spec fn view(&self) -> QueryOutputModel {
        match self {
            QueryOutput::Rows(lines) => QueryOutputModel::Rows(lines.deep_view()),
            QueryOutput::Count(n) => QueryOutputModel::Count(*n as int),
        }
    }
}

impl DeepView for QueryOutput {
    type V = QueryOutputModel;

    open spec fn deep_view(&self) -> QueryOutputModel {
        self.view()
    }
}

/// One available source file: its path and its lines, newline-stripped.
pub struct SourceFile {
    pub name: String,
    pub lines: Vec<String>,
}

/// The mathematical value of a [`SourceFile`].
pub struct SourceFileModel {
    pub name: Seq<char>,
    pub lines: Seq<Seq<char>>,
}

impl View for SourceFile {
    type V = SourceFileModel;

    open spec fn view(&self) -> SourceFileModel {
        SourceFileModel { name: self.name@, lines: self.lines.deep_view() }
    }
}

impl DeepView for SourceFile {
    type V = SourceFileModel;

    open spec fn deep_view(&self) -> SourceFileModel {
        self.view()
    }
}

/// `pattern` occurs in `line` as a literal substring.
pub open spec fn line_contains(line: Seq<char>, pattern: Seq<char>) -> bool {
    exists|k: int|
        0 <= k && k + pattern.len() <= line.len() && #[trigger] line.subrange(
            k,
            k + pattern.len(),
        ) == pattern
}

/// The `WHERE` clause keeps this line: under `LIKE`, iff the line contains
/// the pattern; under `NOTLIKE`, iff it does not.
pub open spec fn keep_line(line: Seq<char>, condition: ExpressionModel) -> bool {
    match condition {
        ExpressionModel::Where { conditional, target } => match conditional {
            Some(TokenModel::Like) => line_contains(line, target),
            _ => !line_contains(line, target),
        },
    }
}

/// The lines that survive the `WHERE` clause, in their original order.
pub open spec fn spec_filter_lines(lines: Seq<Seq<char>>, condition: ExpressionModel) -> Seq<
    Seq<char>,
>
    decreases lines.len(),
{
    if lines.len() == 0 {
        Seq::empty()
    } else {
        let rest = spec_filter_lines(lines.drop_last(), condition);
        if keep_line(lines.last(), condition) {
            rest.push(lines.last())
        } else {
            rest
        }
    }
}

/// The numeric value of a digit sequence read in base ten.
pub open spec fn digits_val(ds: Seq<char>) -> int
    decreases ds.len(),
{
    if ds.len() == 0 {
        0
    } else {
        digits_val(ds.drop_last()) * 10 + ((ds.last() as u32) - 48)
    }
}

/// A value clamped to what a machine word can hold.
pub open spec fn clamp_usize(n: int) -> int {
    if n > usize::MAX as int {
        usize::MAX as int
    } else {
        n
    }
}

/// The digit run starting at a digit has positive length.
proof fn lemma_digit_run_positive(s: Seq<char>, i: int)
    requires
        0 <= i < s.len(),
        is_digit_char(s[i]),
    ensures
        digit_run(s, i) >= 1,
{
    lemma_digit_run_bounds(s, i + 1);
}

/// The bound a `TOP`/`TAIL` selector carries, summed over every maximal
/// digit run in its raw text: a run whose value a machine word cannot hold
/// contributes the fallback value 10 instead.
pub open spec fn sel_n_from(s: Seq<char>, i: int) -> int
    decreases s.len() - i,
        when 0 <= i
        via sel_n_from_decreases
{
    if i >= s.len() {
        0
    } else if is_digit_char(s[i]) {
        let d = digit_run(s, i);
        let v = digits_val(s.subrange(i, i + d));
        (if v > usize::MAX as int {
            10int
        } else {
            v
        }) + sel_n_from(s, i + d)
    } else {
        sel_n_from(s, i + 1)
    }
}

#[via_fn]
proof fn sel_n_from_decreases(s: Seq<char>, i: int) {
    if 0 <= i < s.len() && is_digit_char(s[i]) {
        lemma_digit_run_positive(s, i);
        lemma_digit_run_bounds(s, i);
    }
}

/// The bound carried by a selector's raw text.
pub open spec fn spec_sel_n(s: Seq<char>) -> int {
    sel_n_from(s, 0)
}

/// The first `n` lines, or all of them when fewer are available.
pub open spec fn spec_top(lines: Seq<Seq<char>>, n: int) -> Seq<Seq<char>> {
    lines.take(
        if n <= lines.len() {
            n
        } else {
            lines.len() as int
        },
    )
}

/// The last `n` lines, or all of them when fewer are available.
pub open spec fn spec_tail(lines: Seq<Seq<char>>, n: int) -> Seq<Seq<char>> {
    lines.skip(
        lines.len() - (if n <= lines.len() {
            n
        } else {
            lines.len() as int
        }),
    )
}

/// The lines the quantity selector keeps: everything under `*`, a leading
/// slice under `TOP(n)`, a trailing slice under `TAIL(n)`, each clamped to
/// the lines available.
pub open spec fn spec_selected(lines: Seq<Seq<char>>, quantity: TokenModel) -> Seq<Seq<char>> {
    match quantity {
        TokenModel::Top(s) => spec_top(lines, clamp_usize(spec_sel_n(s))),
        TokenModel::Tail(s) => spec_tail(lines, clamp_usize(spec_sel_n(s))),
        _ => lines,
    }
}

/// Whether a character separates words, as the word count sees it.
pub uninterp spec fn spec_is_space(c: char) -> bool;

/// Relies on char::is_whitespace: whether the character has the Unicode
/// white-space property, a function of the character alone.
#[verifier::external_body]
fn is_space(c: char) -> (r: bool)
    ensures
        r == spec_is_space(c),
{
    c.is_whitespace()
}

/// The number of words in a line: maximal runs of non-space characters.
pub open spec fn word_count_from(line: Seq<char>, i: int, prev_space: bool) -> int
    decreases line.len() - i,
{
    if i < 0 || i >= line.len() {
        0
    } else {
        let sp = spec_is_space(line[i]);
        (if !sp && prev_space {
            1int
        } else {
            0int
        }) + word_count_from(line, i + 1, sp)
    }
}

/// The number of whitespace-separated words in a line.
pub open spec fn spec_word_count(line: Seq<char>) -> int {
    word_count_from(line, 0, true)
}

/// The total number of characters over the lines.
pub open spec fn spec_count_chars(lines: Seq<Seq<char>>) -> int
    decreases lines.len(),
{
    if lines.len() == 0 {
        0
    } else {
        spec_count_chars(lines.drop_last()) + lines.last().len()
    }
}

/// The total number of words over the lines.
pub open spec fn spec_count_words(lines: Seq<Seq<char>>) -> int
    decreases lines.len(),
{
    if lines.len() == 0 {
        0
    } else {
        spec_count_words(lines.drop_last()) + spec_word_count(lines.last())
    }
}

/// The value an aggregate keyword computes over the selected lines.
pub open spec fn spec_counter(counter: TokenModel, lines: Seq<Seq<char>>) -> int {
    match counter {
        TokenModel::CountC => spec_count_chars(lines),
        TokenModel::CountL => lines.len() as int,
        TokenModel::CountW => spec_count_words(lines),
        _ => 0,
    }
}

/// What one statement computes from its file's lines: an empty source path
/// is rejected before anything else; then the `WHERE` clause filters, the
/// quantity selects (a missing quantity is an invalid-query failure), and
/// the aggregate, if any, reduces the selection to one value.
pub open spec fn spec_execute(stmt: StatementModel, lines: Seq<Seq<char>>) -> Result<
    QueryOutputModel,
    InterpreterErrorModel,
> {
    match stmt {
        StatementModel::SelectStatement { counters, quantity, from, target, condition } => {
            if target.len() == 0 {
                Err(InterpreterErrorModel::InvalidOrUnavailableFile(target))
            } else {
                let filtered = match condition {
                    Some(cond) => spec_filter_lines(lines, cond),
                    None => lines,
                };
                match quantity {
                    None => Err(
                        InterpreterErrorModel::InvalidQueryToken(
                            "* or TOP or TAIL token after SELECT"@,
                        ),
                    ),
                    Some(q) => {
                        let selected = spec_selected(filtered, q);
                        match counters {
                            Some(counter) => Ok(
                                QueryOutputModel::Count(clamp_usize(spec_counter(counter, selected))),
                            ),
                            None => Ok(QueryOutputModel::Rows(selected)),
                        }
                    },
                }
            }
        },
    }
}

/// The lines of the first available file with the given name, if any.
pub open spec fn lookup_from(files: Seq<SourceFileModel>, name: Seq<char>, i: int) -> Option<
    Seq<Seq<char>>,
>
    decreases files.len() - i,
{
    if i < 0 || i >= files.len() {
        None
    } else if files[i].name == name {
        Some(files[i].lines)
    } else {
        lookup_from(files, name, i + 1)
    }
}

/// The lines of the first available file with the given name, if any.
pub open spec fn spec_lookup(files: Seq<SourceFileModel>, name: Seq<char>) -> Option<
    Seq<Seq<char>>,
> {
    lookup_from(files, name, 0)
}

/// What one statement computes against the available files: an empty path
/// is rejected before any file is consulted; a name no file carries is an
/// unavailable-file failure.
pub open spec fn spec_run_statement(stmt: StatementModel, files: Seq<SourceFileModel>) -> Result<
    QueryOutputModel,
    InterpreterErrorModel,
> {
    match stmt {
        StatementModel::SelectStatement { target, .. } => {
            if target.len() == 0 {
                Err(InterpreterErrorModel::InvalidOrUnavailableFile(target))
            } else {
                match spec_lookup(files, target) {
                    None => Err(InterpreterErrorModel::InvalidOrUnavailableFile(target)),
                    Some(lines) => spec_execute(stmt, lines),
                }
            }
        },
    }
}

/// What a whole program computes, statement by statement in source order:
/// the outputs of every statement, or the first failure, which aborts the
/// run.
pub open spec fn spec_interprete_from(
    prog: Seq<StatementModel>,
    files: Seq<SourceFileModel>,
    i: int,
) -> Result<Seq<QueryOutputModel>, InterpreterErrorModel>
    decreases prog.len() - i,
{
    if i < 0 || i >= prog.len() {
        Ok(Seq::empty())
    } else {
        match spec_run_statement(prog[i], files) {
            Err(e) => Err(e),
            Ok(out) => match spec_interprete_from(prog, files, i + 1) {
                Err(e) => Err(e),
                Ok(rest) => Ok(seq![out] + rest),
            },
        }
    }
}

/// What a whole program computes against the available files.
pub open spec fn spec_interprete(
    prog: Seq<StatementModel>,
    files: Seq<SourceFileModel>,
) -> Result<Seq<QueryOutputModel>, InterpreterErrorModel> {
    spec_interprete_from(prog, files, 0)
}

/// Addition that clamps at the largest machine word.
fn sat_add(a: usize, b: usize) -> (r: usize)
    ensures
        r as int == clamp_usize(a as int + b as int),
{
    if a > usize::MAX - b {
        usize::MAX
    } else {
        a + b
    }
}

/// The value of an all-digit sequence is not negative.
proof fn lemma_digits_val_nonneg(ds: Seq<char>)
    requires
        forall|k: int| 0 <= k < ds.len() ==> is_digit_char(#[trigger] ds[k]),
    ensures
        digits_val(ds) >= 0,
    decreases ds.len(),
{
    if ds.len() > 0 {
        lemma_digits_val_nonneg(ds.drop_last());
    }
}

/// A selector bound is never negative.
proof fn lemma_sel_n_from_nonneg(s: Seq<char>, i: int)
    requires
        0 <= i,
    ensures
        sel_n_from(s, i) >= 0,
    decreases s.len() - i,
{
    if i < s.len() {
        if is_digit_char(s[i]) {
            lemma_digit_run_positive(s, i);
            lemma_digit_run_bounds(s, i);
            let d = digit_run(s, i);
            let run = s.subrange(i, i + d);
            assert forall|k: int| 0 <= k < run.len() implies is_digit_char(#[trigger] run[k]) by {
                assert(run[k] == s[i + k]);
            }
            lemma_digits_val_nonneg(run);
            lemma_sel_n_from_nonneg(s, i + d);
        } else {
            lemma_sel_n_from_nonneg(s, i + 1);
        }
    }
}

/// The bound carried by a `TOP`/`TAIL` selector's raw text: every maximal
/// run of decimal digits is read as a number and the numbers are summed; a
/// run too large for a machine word contributes the fallback value 10.
/// The sum itself clamps at the largest machine word.
#[verifier::loop_isolation(false)]
#[verifier::rlimit(100)]
pub fn get_n_from_token(token: &String) -> (n: usize)
    ensures
        n as int == clamp_usize(spec_sel_n(token@)),
{
    let ghost s = token@;
    let v = chars_vec(token.as_str());
    let len = v.len();
    let mut total: usize = 0;
    let mut i: usize = 0;
    while i < len
        invariant
            i <= len,
            clamp_usize(sel_n_from(s, 0)) == clamp_usize(total as int + sel_n_from(s, i as int)),
        decreases len - i,
    {
        if crate::token::is_digit(v[i]) {
            let d = crate::token::digit_run_len(&v, i);
            proof {
                lemma_digit_run_bounds(s, i as int);
                lemma_digit_run_positive(s, i as int);
            }
            let ghost run = s.subrange(i as int, i + d as int);
            let mut val: usize = 0;
            let mut over = false;
            let mut j = i;
            while j < i + d
                invariant
                    i <= j <= i + d,
                    i + d <= len,
                    !over ==> val as int == digits_val(s.subrange(i as int, j as int)),
                    over ==> digits_val(s.subrange(i as int, j as int)) > usize::MAX as int,
                decreases i + d - j,
            {
                proof {
                    assert(is_digit_char(s[j as int]));
                }
                let u = v[j] as u32;
                let dig = (u - 48) as usize;
                let ghost prev = digits_val(s.subrange(i as int, j as int));
                proof {
                    assert(s.subrange(i as int, j + 1 as int).drop_last() =~= s.subrange(
                        i as int,
                        j as int,
                    ));
                    assert(s.subrange(i as int, j + 1 as int).last() == s[j as int]);
                    assert(digits_val(s.subrange(i as int, j + 1 as int)) == prev * 10 + (
                    u as int - 48));
                }
                if over {
                    proof {
                        assert(prev * 10 >= prev) by (nonlinear_arith)
                            requires
                                prev > usize::MAX as int,
                        ;
                    }
                } else if val > (usize::MAX - dig) / 10 {
                    over = true;
                    proof {
                        vstd::arithmetic::div_mod::lemma_fundamental_div_mod(
                            usize::MAX as int - dig as int,
                            10,
                        );
                        assert(prev * 10 + dig as int > usize::MAX as int);
                    }
                } else {
                    proof {
                        vstd::arithmetic::div_mod::lemma_fundamental_div_mod(
                            usize::MAX as int - dig as int,
                            10,
                        );
                        assert(val * 10 + dig as int <= usize::MAX as int) by (nonlinear_arith)
                            requires
                                val as int <= (usize::MAX as int - dig as int) / 10,
                                usize::MAX as int - dig as int == 10 * ((usize::MAX as int
                                    - dig as int) / 10) + (usize::MAX as int - dig as int) % 10,
                                0 <= (usize::MAX as int - dig as int) % 10 < 10,
                                0 <= dig <= 9,
                        ;
                    }
                    val = val * 10 + dig;
                }
                j = j + 1;
            }
            let c: usize = if over {
                10
            } else {
                val
            };
            proof {
                lemma_sel_n_from_nonneg(s, i + d as int);
                lemma_digits_val_nonneg(run);
                assert(sel_n_from(s, i as int) == (if digits_val(run) > usize::MAX as int {
                    10int
                } else {
                    digits_val(run)
                }) + sel_n_from(s, i + d as int));
            }
            total = sat_add(total, c);
            i = i + d;
        } else {
            i = i + 1;
        }
    }
    total
}

/// A character count over lines is never negative.
proof fn lemma_count_chars_nonneg(lines: Seq<Seq<char>>)
    ensures
        spec_count_chars(lines) >= 0,
    decreases lines.len(),
{
    if lines.len() > 0 {
        lemma_count_chars_nonneg(lines.drop_last());
    }
}

/// A word count of one line is never negative.
proof fn lemma_word_count_from_nonneg(line: Seq<char>, i: int, prev_space: bool)
    ensures
        word_count_from(line, i, prev_space) >= 0,
    decreases line.len() - i,
{
    if 0 <= i < line.len() {
        lemma_word_count_from_nonneg(line, i + 1, spec_is_space(line[i]));
    }
}

/// A word count over lines is never negative.
proof fn lemma_count_words_nonneg(lines: Seq<Seq<char>>)
    ensures
        spec_count_words(lines) >= 0,
    decreases lines.len(),
{
    if lines.len() > 0 {
        lemma_count_words_nonneg(lines.drop_last());
        lemma_word_count_from_nonneg(lines.last(), 0, true);
    }
}

/// The total number of characters over the lines, clamped at the largest
/// machine word.
#[verifier::loop_isolation(false)]
fn count_chars(lines: &Vec<String>) -> (n: usize)
    ensures
        n as int == clamp_usize(spec_count_chars(lines.deep_view())),
{
    let ghost dv = lines.deep_view();
    let mut total: usize = 0;
    let mut idx: usize = 0;
    while idx < lines.len()
        invariant
            idx <= lines@.len(),
            total as int == clamp_usize(spec_count_chars(dv.take(idx as int))),
        decreases lines@.len() - idx,
    {
        let c = lines[idx].as_str().unicode_len();
        proof {
            assert(dv.take(idx + 1 as int).drop_last() =~= dv.take(idx as int));
            assert(dv.take(idx + 1 as int).last() == dv[idx as int]);
            lemma_count_chars_nonneg(dv.take(idx as int));
        }
        total = sat_add(total, c);
        idx = idx + 1;
    }
    proof {
        assert(dv.take(dv.len() as int) =~= dv);
    }
    total
}

/// The number of whitespace-separated words in one line.
#[verifier::loop_isolation(false)]
fn word_count_line(line: &String) -> (n: usize)
    ensures
        n as int == spec_word_count(line@),
{
    let ghost s = line@;
    let v = chars_vec(line.as_str());
    let len = v.len();
    let mut count: usize = 0;
    let mut prev_space = true;
    let mut i: usize = 0;
    while i < len
        invariant
            i <= len,
            count <= i,
            count as int + word_count_from(s, i as int, prev_space) == spec_word_count(s),
        decreases len - i,
    {
        let sp = is_space(v[i]);
        if !sp && prev_space {
            count = count + 1;
        }
        prev_space = sp;
        i = i + 1;
    }
    proof {
        lemma_word_count_from_nonneg(s, 0, true);
    }
    count
}

/// The total number of words over the lines, clamped at the largest
/// machine word.
#[verifier::loop_isolation(false)]
fn count_words(lines: &Vec<String>) -> (n: usize)
    ensures
        n as int == clamp_usize(spec_count_words(lines.deep_view())),
{
    let ghost dv = lines.deep_view();
    let mut total: usize = 0;
    let mut idx: usize = 0;
    while idx < lines.len()
        invariant
            idx <= lines@.len(),
            total as int == clamp_usize(spec_count_words(dv.take(idx as int))),
        decreases lines@.len() - idx,
    {
        let c = word_count_line(&lines[idx]);
        proof {
            assert(dv.take(idx + 1 as int).drop_last() =~= dv.take(idx as int));
            assert(dv.take(idx + 1 as int).last() == dv[idx as int]);
            lemma_count_words_nonneg(dv.take(idx as int));
            lemma_word_count_from_nonneg(dv[idx as int], 0, true);
        }
        total = sat_add(total, c);
        idx = idx + 1;
    }
    proof {
        assert(dv.take(dv.len() as int) =~= dv);
    }
    total
}

/// The value the aggregate keyword computes over the selected lines:
/// `COUNTC` sums the lines' character counts, `COUNTL` counts the lines,
/// `COUNTW` sums the lines' whitespace-separated word counts.
pub fn run_counter(counter: &Token, lines: &Vec<String>) -> (n: usize)
    requires
        counter@ is CountC || counter@ is CountL || counter@ is CountW,
    ensures
        n as int == clamp_usize(spec_counter(counter@, lines.deep_view())),
{
    match counter {
        Token::CountC => count_chars(lines),
        Token::CountL => lines.len(),
        Token::CountW => count_words(lines),
        _ => 0,
    }
}

/// The pattern occurs at position `k` of the line.
#[verifier::loop_isolation(false)]
fn match_at(lv: &Vec<char>, pv: &Vec<char>, k: usize) -> (r: bool)
    requires
        k + pv@.len() <= lv@.len(),
    ensures
        r == (lv@.subrange(k as int, k + pv@.len()) == pv@),
{
    let n = lv.len();
    let m = pv.len();
    let mut j: usize = 0;
    while j < m
        invariant
            k + m <= lv@.len(),
            j <= m,
            m == pv@.len(),
            forall|j2: int| 0 <= j2 < j ==> lv@[k + j2] == pv@[j2],
        decreases m - j,
    {
        if lv[k + j] != pv[j] {
            proof {
                assert(lv@.subrange(k as int, k + pv@.len())[j as int] == lv@[k + j]);
            }
            return false;
        }
        j = j + 1;
    }
    proof {
        assert(lv@.subrange(k as int, k + pv@.len()) =~= pv@);
    }
    true
}

/// The pattern occurs somewhere in the line as a literal substring.
#[verifier::loop_isolation(false)]
fn line_contains_exec(line: &String, pattern: &String) -> (r: bool)
    ensures
        r == line_contains(line@, pattern@),
{
    let lv = chars_vec(line.as_str());
    let pv = chars_vec(pattern.as_str());
    let n = lv.len();
    let m = pv.len();
    if m > n {
        return false;
    }
    let mut k: usize = 0;
    loop
        invariant
            m <= n,
            k <= n - m,
            forall|k2: int|
                0 <= k2 < k ==> #[trigger] line@.subrange(k2, k2 + pattern@.len()) != pattern@,
        decreases n - m - k,
    {
        if match_at(&lv, &pv, k) {
            proof {
                assert(line@.subrange(k as int, k + pattern@.len()) == pattern@);
            }
            return true;
        }
        proof {
            assert(line@.subrange(k as int, k + pattern@.len()) != pattern@);
        }
        if k == n - m {
            proof {
                assert forall|k2: int|
                    0 <= k2 && k2 + pattern@.len() <= line@.len() implies #[trigger] line@.subrange(
                    k2,
                    k2 + pattern@.len(),
                ) != pattern@ by {
                    assert(k2 <= k);
                }
            }
            return false;
        }
        k = k + 1;
    }
}

/// The lines kept by one `WHERE` clause, in their original order.
#[verifier::loop_isolation(false)]
fn filter_lines(lines: &Vec<String>, condition: &Expression) -> (kept: Vec<String>)
    requires
        wf_condition(condition@),
    ensures
        kept.deep_view() == spec_filter_lines(lines.deep_view(), condition@),
{
    let ghost dv = lines.deep_view();
    let (like, pattern): (bool, &String) = match condition {
        Expression::Where { conditional, target } => {
            match conditional {
                Some(Token::Like) => (true, target),
                _ => (false, target),
            }
        },
    };
    let mut kept: Vec<String> = Vec::new();
    let mut idx: usize = 0;
    while idx < lines.len()
        invariant
            idx <= lines@.len(),
            kept.deep_view() == spec_filter_lines(dv.take(idx as int), condition@),
        decreases lines@.len() - idx,
    {
        let ghost kdv = kept.deep_view();
        let keeps = line_contains_exec(&lines[idx], pattern);
        if keeps == like {
            kept.push(lines[idx].clone());
            proof {
                assert(kept.deep_view() =~= kdv.push(dv[idx as int]));
            }
        }
        proof {
            assert(dv.take(idx + 1 as int).drop_last() =~= dv.take(idx as int));
            assert(dv.take(idx + 1 as int).last() == dv[idx as int]);
        }
        idx = idx + 1;
    }
    proof {
        assert(dv.take(dv.len() as int) =~= dv);
    }
    kept
}

/// Clones the lines with indices in `start..end`.
#[verifier::loop_isolation(false)]
fn clone_lines_range(lines: &Vec<String>, start: usize, end: usize) -> (r: Vec<String>)
    requires
        start <= end <= lines@.len(),
    ensures
        r.deep_view() == lines.deep_view().subrange(start as int, end as int),
{
    let ghost dv = lines.deep_view();
    let mut r: Vec<String> = Vec::new();
    let mut idx = start;
    while idx < end
        invariant
            start <= idx <= end,
            r.deep_view() == dv.subrange(start as int, idx as int),
        decreases end - idx,
    {
        let ghost rdv = r.deep_view();
        r.push(lines[idx].clone());
        proof {
            assert(r.deep_view() =~= dv.subrange(start as int, idx + 1 as int));
        }
        idx = idx + 1;
    }
    r
}

/// The first `n` lines, or all of them when fewer are available.
fn take_top(lines: &Vec<String>, n: usize) -> (r: Vec<String>)
    ensures
        r.deep_view() == spec_top(lines.deep_view(), n as int),
{
    let m = if n <= lines.len() {
        n
    } else {
        lines.len()
    };
    let r = clone_lines_range(lines, 0, m);
    proof {
        assert(lines.deep_view().subrange(0, m as int) =~= spec_top(lines.deep_view(), n as int));
    }
    r
}

/// The last `n` lines, or all of them when fewer are available.
fn take_tail(lines: &Vec<String>, n: usize) -> (r: Vec<String>)
    ensures
        r.deep_view() == spec_tail(lines.deep_view(), n as int),
{
    let m = if n <= lines.len() {
        n
    } else {
        lines.len()
    };
    let start = lines.len() - m;
    let r = clone_lines_range(lines, start, lines.len());
    proof {
        assert(lines.deep_view().subrange(start as int, lines.deep_view().len() as int)
            =~= spec_tail(lines.deep_view(), n as int));
    }
    r
}

/// Executes one well-formed statement against its file's lines: rejects an
/// empty source path, filters by the `WHERE` clause, keeps the lines the
/// quantity selector names (failing when the quantity is absent), and
/// either emits them verbatim or reduces them to the aggregate's value.
pub fn execute_statement(statement: &Statement, lines: &Vec<String>) -> (r: Result<
    QueryOutput,
    InterpreterError,
>)
    requires
        wf_statement(statement@),
    ensures
        match r {
            Ok(out) => spec_execute(statement@, lines.deep_view()) == Ok::<
                QueryOutputModel,
                InterpreterErrorModel,
            >(out@),
            Err(e) => spec_execute(statement@, lines.deep_view()) == Err::<
                QueryOutputModel,
                InterpreterErrorModel,
            >(e@),
        },
{
    match statement {
        Statement::SelectStatement { counters, quantity, from, target, condition } => {
            if target.as_str().unicode_len() == 0 {
                return Err(InterpreterError::InvalidOrUnavailableFile(target.clone()));
            }
            let filtered: Vec<String> = match condition {
                Some(cond) => filter_lines(lines, cond),
                None => clone_lines_range(lines, 0, lines.len()),
            };
            proof {
                assert(lines.deep_view().subrange(0, lines.deep_view().len() as int)
                    =~= lines.deep_view());
            }
            let quantity_token: &Token = match quantity {
                Some(q) => q,
                None => {
                    return Err(
                        InterpreterError::InvalidQueryToken(
                            String::from_str("* or TOP or TAIL token after SELECT"),
                        ),
                    );
                },
            };
            let selected: Vec<String> = match quantity_token {
                Token::Top(raw) => {
                    let n = get_n_from_token(raw);
                    take_top(&filtered, n)
                },
                Token::Tail(raw) => {
                    let n = get_n_from_token(raw);
                    take_tail(&filtered, n)
                },
                _ => filtered,
            };
            match counters {
                Some(counter) => Ok(QueryOutput::Count(run_counter(counter, &selected))),
                None => Ok(QueryOutput::Rows(selected)),
            }
        },
    }
}

/// The source path a statement names, or the unavailable-file failure when
/// the path is empty, which is rejected before any file is consulted.
pub fn statement_source(statement: &Statement) -> (r: Result<String, InterpreterError>)
    ensures
        match statement@ {
            StatementModel::SelectStatement { target, .. } => match r {
                Ok(path) => target.len() > 0 && path@ == target,
                Err(e) => target.len() == 0 && e@
                    == InterpreterErrorModel::InvalidOrUnavailableFile(target),
            },
        },
{
    match statement {
        Statement::SelectStatement { target, .. } => {
            if target.as_str().unicode_len() == 0 {
                Err(InterpreterError::InvalidOrUnavailableFile(target.clone()))
            } else {
                Ok(target.clone())
            }
        },
    }
}

/// The lines of the first available file with the given name, if any.
#[verifier::loop_isolation(false)]
fn lookup_file<'a>(files: &'a Vec<SourceFile>, name: &String) -> (r: Option<&'a Vec<String>>)
    ensures
        match r {
            Some(lines) => spec_lookup(files.deep_view(), name@) == Some(lines.deep_view()),
            None => spec_lookup(files.deep_view(), name@) is None,
        },
{
    let ghost fv = files.deep_view();
    let mut idx: usize = 0;
    while idx < files.len()
        invariant
            idx <= files@.len(),
            lookup_from(fv, name@, 0) == lookup_from(fv, name@, idx as int),
        decreases files@.len() - idx,
    {
        if files[idx].name == *name {
            return Some(&files[idx].lines);
        }
        idx = idx + 1;
    }
    None
}

/// Executes one well-formed statement against the available files: an
/// empty source path is rejected before any file is consulted, a name no
/// file carries is an unavailable-file failure, and the named file's lines
/// feed [`execute_statement`].
pub fn run_statement(statement: &Statement, files: &Vec<SourceFile>) -> (r: Result<
    QueryOutput,
    InterpreterError,
>)
    requires
        wf_statement(statement@),
    ensures
        match r {
            Ok(out) => spec_run_statement(statement@, files.deep_view()) == Ok::<
                QueryOutputModel,
                InterpreterErrorModel,
            >(out@),
            Err(e) => spec_run_statement(statement@, files.deep_view()) == Err::<
                QueryOutputModel,
                InterpreterErrorModel,
            >(e@),
        },
{
    let target: &String = match statement {
        Statement::SelectStatement { target, .. } => target,
    };
    if target.as_str().unicode_len() == 0 {
        return Err(InterpreterError::InvalidOrUnavailableFile(target.clone()));
    }
    match lookup_file(files, target) {
        None => Err(InterpreterError::InvalidOrUnavailableFile(target.clone())),
        Some(lines) => execute_statement(statement, lines),
    }
}

/// Runs a well-formed program statement by statement, in source order,
/// against the available files, collecting every statement's output; the
/// first failing statement aborts the whole run.
#[verifier::loop_isolation(false)]
pub fn interprete(program: &Program, files: &Vec<SourceFile>) -> (r: Result<
    Vec<QueryOutput>,
    InterpreterError,
>)
    requires
        wf_program(program.deep_view()),
    ensures
        match r {
            Ok(outputs) => spec_interprete(program.deep_view(), files.deep_view()) == Ok::<
                Seq<QueryOutputModel>,
                InterpreterErrorModel,
            >(outputs.deep_view()),
            Err(e) => spec_interprete(program.deep_view(), files.deep_view()) == Err::<
                Seq<QueryOutputModel>,
                InterpreterErrorModel,
            >(e@),
        },
{
    let ghost pv = program.deep_view();
    let ghost fv = files.deep_view();
    let mut outputs: Vec<QueryOutput> = Vec::new();
    let mut idx: usize = 0;
    while idx < program.len()
        invariant
            idx <= program@.len(),
            match spec_interprete_from(pv, fv, idx as int) {
                Ok(rest) => spec_interprete_from(pv, fv, 0) == Ok::<
                    Seq<QueryOutputModel>,
                    InterpreterErrorModel,
                >(outputs.deep_view() + rest),
                Err(e) => spec_interprete_from(pv, fv, 0) == Err::<
                    Seq<QueryOutputModel>,
                    InterpreterErrorModel,
                >(e),
            },
        decreases program@.len() - idx,
    {
        let out = match run_statement(&program[idx], files) {
            Ok(out) => out,
            Err(e) => {
                return Err(e);
            },
        };
        let ghost ov = out@;
        let ghost odv = outputs.deep_view();
        outputs.push(out);
        proof {
            assert(outputs.deep_view() =~= odv + seq![ov]);
            match spec_interprete_from(pv, fv, idx + 1 as int) {
                Ok(rest) => {
                    assert(odv + (seq![ov] + rest) =~= (odv + seq![ov]) + rest);
                },
                Err(_) => {},
            }
        }
        idx = idx + 1;
    }
    proof {
        assert(outputs.deep_view() + Seq::<QueryOutputModel>::empty() =~= outputs.deep_view());
    }
    Ok(outputs)
}

/// The `WHERE LIKE` clause carrying the given pattern.
pub open spec fn like_condition(pattern: Seq<char>) -> ExpressionModel {
    ExpressionModel::Where { conditional: Some(TokenModel::Like), target: pattern }
}

/// The `WHERE NOTLIKE` clause carrying the given pattern.
pub open spec fn notlike_condition(pattern: Seq<char>) -> ExpressionModel {
    ExpressionModel::Where { conditional: Some(TokenModel::NotLike), target: pattern }
}

/// Every line the `WHERE` clause keeps satisfies the clause.
pub proof fn lemma_filter_lines_members(lines: Seq<Seq<char>>, condition: ExpressionModel)
    ensures
        forall|i: int|
            0 <= i < spec_filter_lines(lines, condition).len() ==> keep_line(
                #[trigger] spec_filter_lines(lines, condition)[i],
                condition,
            ),
    decreases lines.len(),
{
    if lines.len() > 0 {
        lemma_filter_lines_members(lines.drop_last(), condition);
        let f = spec_filter_lines(lines, condition);
        let fp = spec_filter_lines(lines.drop_last(), condition);
        assert forall|i: int| 0 <= i < f.len() implies keep_line(f[i], condition) by {
            if keep_line(lines.last(), condition) {
                assert(f == fp.push(lines.last()));
                if i < fp.len() {
                    assert(f[i] == fp[i]);
                } else {
                    assert(f[i] == lines.last());
                }
            } else {
                assert(f == fp);
                assert(f[i] == fp[i]);
            }
        }
    }
}

/// Filtering is the complement of itself: for one pattern, the lines the
/// `LIKE` clause keeps and the lines the `NOTLIKE` clause keeps partition
/// the original lines.  Their lengths sum to the original length, together
/// they recompose the original lines as a multiset, every line on the
/// `LIKE` side contains the pattern, and no line on the `NOTLIKE` side
/// does.
pub proof fn lemma_filter_partition(lines: Seq<Seq<char>>, pattern: Seq<char>)
    ensures
        spec_filter_lines(lines, like_condition(pattern)).len() + spec_filter_lines(
            lines,
            notlike_condition(pattern),
        ).len() == lines.len(),
        spec_filter_lines(lines, like_condition(pattern)).to_multiset().add(
            spec_filter_lines(lines, notlike_condition(pattern)).to_multiset(),
        ) == lines.to_multiset(),
        forall|i: int|
            0 <= i < spec_filter_lines(lines, like_condition(pattern)).len() ==> line_contains(
                #[trigger] spec_filter_lines(lines, like_condition(pattern))[i],
                pattern,
            ),
        forall|i: int|
            0 <= i < spec_filter_lines(lines, notlike_condition(pattern)).len() ==> !line_contains(
                #[trigger] spec_filter_lines(lines, notlike_condition(pattern))[i],
                pattern,
            ),
    decreases lines.len(),
{
    broadcast use vstd::seq_lib::group_to_multiset_ensures;

    lemma_filter_lines_members(lines, like_condition(pattern));
    lemma_filter_lines_members(lines, notlike_condition(pattern));
    if lines.len() == 0 {
        assert(spec_filter_lines(lines, like_condition(pattern)).to_multiset().add(
            spec_filter_lines(lines, notlike_condition(pattern)).to_multiset(),
        ) =~= lines.to_multiset());
    } else {
        let prefix = lines.drop_last();
        let x = lines.last();
        lemma_filter_partition(prefix, pattern);
        assert(lines =~= prefix.push(x));
        assert(lines.to_multiset() == prefix.to_multiset().insert(x));
        let lk = spec_filter_lines(prefix, like_condition(pattern));
        let nl = spec_filter_lines(prefix, notlike_condition(pattern));
        if line_contains(x, pattern) {
            assert(spec_filter_lines(lines, like_condition(pattern)) == lk.push(x));
            assert(lk.push(x).to_multiset() == lk.to_multiset().insert(x));
            assert(lk.to_multiset().insert(x).add(nl.to_multiset()) =~= lk.to_multiset().add(
                nl.to_multiset(),
            ).insert(x));
        } else {
            assert(spec_filter_lines(lines, notlike_condition(pattern)) == nl.push(x));
            assert(nl.push(x).to_multiset() == nl.to_multiset().insert(x));
            assert(lk.to_multiset().add(nl.to_multiset().insert(x)) =~= lk.to_multiset().add(
                nl.to_multiset(),
            ).insert(x));
        }
    }
}

/// Taking the first `n` lines and then the last `n` lines of that result
/// changes nothing: a `TOP(n)` selection is at most `n` lines long, so the
/// following `TAIL(n)` keeps it whole.
pub proof fn lemma_top_then_tail(lines: Seq<Seq<char>>, n: int)
    requires
        0 <= n,
    ensures
        spec_tail(spec_top(lines, n), n) == spec_top(lines, n),
{
    let t = spec_top(lines, n);
    assert(spec_tail(t, n) =~= t);
}

/// `COUNTL` over an unfiltered `*` selection is the file's total line
/// count.
pub proof fn lemma_countl_star(stmt: StatementModel, lines: Seq<Seq<char>>)
    requires
        stmt matches StatementModel::SelectStatement {
            counters: Some(TokenModel::CountL),
            quantity: Some(TokenModel::Star),
            condition: None,
            target,
            ..
        } && target.len() > 0,
        lines.len() <= usize::MAX,
    ensures
        spec_execute(stmt, lines) == Ok::<QueryOutputModel, InterpreterErrorModel>(
            QueryOutputModel::Count(lines.len() as int),
        ),
{
}

} // verus!
