//! The recursive-descent parser: from the token sequence to the program.

use vstd::prelude::*;

use crate::ast::{Expression, ExpressionModel, Program, Statement, StatementModel};
use crate::ast::{wf_program, wf_statement};
use crate::token::{Token, TokenModel};

verus! {

/// The token at position `i`, with `Eof` past either end.
pub open spec fn tok_at(ts: Seq<TokenModel>, i: int) -> TokenModel {
    if 0 <= i < ts.len() {
        ts[i]
    } else {
        TokenModel::Eof
    }
}

/// A small number distinguishing the variants of a token, so that two
/// tokens can be compared by kind alone, ignoring payloads.
pub open spec fn kind_id(t: TokenModel) -> int {
    match t {
        TokenModel::Create => 0,
        TokenModel::Fn => 1,
        TokenModel::Select => 2,
        TokenModel::CountC => 3,
        TokenModel::CountL => 4,
        TokenModel::CountW => 5,
        TokenModel::Star => 6,
        TokenModel::From => 7,
        TokenModel::Top(_) => 8,
        TokenModel::Tail(_) => 9,
        TokenModel::Where => 10,
        TokenModel::Export => 11,
        TokenModel::Number(_) => 12,
        TokenModel::Strings(_) => 13,
        TokenModel::LeftParen => 14,
        TokenModel::RightParen => 15,
        TokenModel::LeftBrace => 16,
        TokenModel::RightBrace => 17,
        TokenModel::Plus => 18,
        TokenModel::Minus => 19,
        TokenModel::Slash => 20,
        TokenModel::Assign => 21,
        TokenModel::True => 22,
        TokenModel::False => 23,
        TokenModel::Eos => 24,
        TokenModel::Let => 25,
        TokenModel::NotEquals => 26,
        TokenModel::Like => 27,
        TokenModel::NotLike => 28,
        TokenModel::Regex => 29,
        TokenModel::Eof => 30,
        TokenModel::Error => 31,
    }
}

/// Two tokens are of the same kind (same variant, payloads ignored).
pub open spec fn same_kind(a: TokenModel, b: TokenModel) -> bool {
    kind_id(a) == kind_id(b)
}

/// Parses one `SELECT` statement starting at position `i`.  On success the
/// result carries the statement and the position just past it; on failure
/// it carries the offending token.
pub open spec fn parse_select_at(ts: Seq<TokenModel>, i: int) -> Result<
    (StatementModel, int),
    TokenModel,
> {
    if !(tok_at(ts, i) is Select) {
        Err(tok_at(ts, i))
    } else {
        let ic = i + 1;
        let counters: Option<TokenModel> = if tok_at(ts, ic) is CountC || tok_at(ts, ic) is CountL
            || tok_at(ts, ic) is CountW {
            Some(tok_at(ts, ic))
        } else {
            None
        };
        let iq = if counters is Some {
            ic + 1
        } else {
            ic
        };
        if !(tok_at(ts, iq) is Top || tok_at(ts, iq) is Star || tok_at(ts, iq) is Tail) {
            Err(tok_at(ts, iq))
        } else {
            let quantity = tok_at(ts, iq);
            let ifrom = iq + 1;
            if !(tok_at(ts, ifrom) is From) {
                Err(tok_at(ts, ifrom))
            } else {
                let itgt = ifrom + 1;
                if !(tok_at(ts, itgt) is Strings) {
                    Err(tok_at(ts, itgt))
                } else {
                    let target = tok_at(ts, itgt)->Strings_0;
                    let iw = itgt + 1;
                    if tok_at(ts, iw) is Where {
                        let icond = iw + 1;
                        if !(tok_at(ts, icond) is Like || tok_at(ts, icond) is NotLike) {
                            Err(tok_at(ts, icond))
                        } else {
                            let conditional = tok_at(ts, icond);
                            let ipat = icond + 1;
                            if !(tok_at(ts, ipat) is Strings) {
                                Err(tok_at(ts, ipat))
                            } else {
                                let pattern = tok_at(ts, ipat)->Strings_0;
                                Ok(
                                    (
                                        StatementModel::SelectStatement {
                                            counters,
                                            quantity: Some(quantity),
                                            from: tok_at(ts, ifrom),
                                            target,
                                            condition: Some(
                                                ExpressionModel::Where {
                                                    conditional: Some(conditional),
                                                    target: pattern,
                                                },
                                            ),
                                        },
                                        ipat + 1,
                                    ),
                                )
                            }
                        }
                    } else {
                        Ok(
                            (
                                StatementModel::SelectStatement {
                                    counters,
                                    quantity: Some(quantity),
                                    from: tok_at(ts, ifrom),
                                    target,
                                    condition: None,
                                },
                                iw,
                            ),
                        )
                    }
                }
            }
        }
    }
}

/// The position after skipping one statement separator, if one stands at `i`.
pub open spec fn spec_skip_eos(ts: Seq<TokenModel>, i: int) -> int {
    if tok_at(ts, i) is Eos {
        i + 1
    } else {
        i
    }
}

/// A successfully parsed statement consumes at least its `SELECT`, `*`,
/// `FROM` and path tokens and never runs past the end of the sequence.
pub proof fn lemma_parse_select_advances(ts: Seq<TokenModel>, i: int)
    ensures
        parse_select_at(ts, i) matches Ok(p) ==> 0 <= i && i + 4 <= p.1 <= ts.len(),
{
    if parse_select_at(ts, i) is Ok {
        assert(tok_at(ts, i) is Select);
    }
}

/// Parses statements from position `i` until end of input, skipping one
/// separator before each statement.
pub open spec fn parse_from(ts: Seq<TokenModel>, i: int) -> Result<Seq<StatementModel>, TokenModel>
    decreases ts.len() - i,
        when 0 <= i
        via parse_from_decreases
{
    let i1 = spec_skip_eos(ts, i);
    if tok_at(ts, i1) is Eof {
        Ok(Seq::empty())
    } else {
        match parse_select_at(ts, i1) {
            Err(t) => Err(t),
            Ok(p) => match parse_from(ts, p.1) {
                Err(t) => Err(t),
                Ok(rest) => Ok(seq![p.0] + rest),
            },
        }
    }
}

#[via_fn]
proof fn parse_from_decreases(ts: Seq<TokenModel>, i: int) {
    lemma_parse_select_advances(ts, spec_skip_eos(ts, i));
}

/// The program denoted by a token sequence: the statements in source
/// order, or the first offending token.
pub open spec fn spec_parse(ts: Seq<TokenModel>) -> Result<Seq<StatementModel>, TokenModel> {
    parse_from(ts, 0)
}

/// Every statement the parser accepts is well-formed.
pub proof fn lemma_parse_select_wf(ts: Seq<TokenModel>, i: int)
    ensures
        parse_select_at(ts, i) matches Ok(p) ==> wf_statement(p.0),
{
}

/// The number of `SELECT` tokens at or after position `i`.
pub open spec fn count_selects_from(ts: Seq<TokenModel>, i: int) -> int
    decreases ts.len() - i,
{
    if i < 0 || i >= ts.len() {
        0
    } else {
        (if ts[i] is Select {
            1int
        } else {
            0int
        }) + count_selects_from(ts, i + 1)
    }
}

/// The number of `SELECT` tokens in the sequence.
pub open spec fn count_selects(ts: Seq<TokenModel>) -> int {
    count_selects_from(ts, 0)
}

/// A segment without `SELECT` tokens contributes nothing to the count.
proof fn lemma_count_segment(ts: Seq<TokenModel>, a: int, b: int)
    requires
        0 <= a <= b,
        forall|k: int| a <= k < b ==> !((#[trigger] tok_at(ts, k)) is Select),
    ensures
        count_selects_from(ts, a) == count_selects_from(ts, b),
    decreases b - a,
{
    if a < b {
        if a < ts.len() {
            assert(tok_at(ts, a) == ts[a]);
        }
        lemma_count_segment(ts, a + 1, b);
    }
}

/// Inside one parsed statement, no token after the opening `SELECT` is
/// itself a `SELECT`.
proof fn lemma_parse_select_selects(ts: Seq<TokenModel>, i: int)
    ensures
        parse_select_at(ts, i) matches Ok(p) ==> forall|k: int|
            i < k < p.1 ==> !((#[trigger] tok_at(ts, k)) is Select),
{
}

/// An accepted program has exactly one statement per `SELECT` token at or
/// after position `i`.
proof fn lemma_parse_from_count(ts: Seq<TokenModel>, i: int)
    requires
        0 <= i,
        forall|k: int| 0 <= k < ts.len() ==> !((#[trigger] ts[k]) is Eof),
    ensures
        parse_from(ts, i) matches Ok(prog) ==> prog.len() == count_selects_from(ts, i),
    decreases ts.len() - i,
{
    let i1 = spec_skip_eos(ts, i);
    if tok_at(ts, i1) is Eof {
        if parse_from(ts, i) is Ok {
            if 0 <= i1 < ts.len() {
                assert(!(ts[i1] is Eof));
            }
            assert(i1 >= ts.len());
            assert(count_selects_from(ts, i1) == 0);
            if i1 != i {
                assert(tok_at(ts, i) is Eos);
                assert(count_selects_from(ts, i) == count_selects_from(ts, i + 1));
            }
        }
    } else {
        match parse_select_at(ts, i1) {
            Err(_) => {},
            Ok(p) => {
                lemma_parse_select_advances(ts, i1);
                lemma_parse_select_selects(ts, i1);
                lemma_count_segment(ts, i1 + 1, p.1);
                lemma_parse_from_count(ts, p.1);
                assert(tok_at(ts, i1) is Select);
                assert(ts[i1] is Select);
                assert(count_selects_from(ts, i1) == 1 + count_selects_from(ts, i1 + 1));
                if i1 != i {
                    assert(tok_at(ts, i) is Eos);
                    assert(count_selects_from(ts, i) == count_selects_from(ts, i + 1));
                }
                if parse_from(ts, i) is Ok {
                    let prog = parse_from(ts, i)->Ok_0;
                    let rest = parse_from(ts, p.1)->Ok_0;
                    assert(prog == seq![p.0] + rest);
                    assert(prog.len() == 1 + rest.len());
                }
            },
        }
    }
}

/// For every token sequence the parser accepts, the number of statements
/// in the program equals the number of `SELECT` tokens in the sequence
/// (the lexer never produces the end-of-input marker, which is the one
/// token this statement sets aside).
pub proof fn lemma_statement_count(ts: Seq<TokenModel>)
    requires
        forall|k: int| 0 <= k < ts.len() ==> !((#[trigger] ts[k]) is Eof),
    ensures
        spec_parse(ts) matches Ok(prog) ==> prog.len() == count_selects(ts),
{
    lemma_parse_from_count(ts, 0);
}

/// For every script text whose token sequence the parser accepts, the
/// number of statements equals the number of `SELECT` tokens the lexer
/// found in the text.
pub proof fn lemma_script_statement_count(text: Seq<char>)
    ensures
        spec_parse(crate::token::spec_tokenize(text)) matches Ok(prog) ==> prog.len()
            == count_selects(crate::token::spec_tokenize(text)),
{
    crate::token::lemma_lex_from_no_eof(text, 0);
    lemma_statement_count(crate::token::spec_tokenize(text));
}

/// A parse failure: the token that did not fit the grammar.
#[derive(Debug)]
pub enum ParseError {
    UnexpectedToken(Token),
}

/// The mathematical value of a [`ParseError`].
pub enum ParseErrorModel {
    UnexpectedToken(TokenModel),
}

impl View for ParseError {
    type V = ParseErrorModel;

    open spec fn view(&self) -> ParseErrorModel {
        match self {
            ParseError::UnexpectedToken(t) => ParseErrorModel::UnexpectedToken(t@),
        }
    }
}

/// The offending token carried by a parse failure.
pub open spec fn err_token(e: ParseErrorModel) -> TokenModel {
    match e {
        ParseErrorModel::UnexpectedToken(t) => t,
    }
}

/// The two-token-lookahead cursor over the token sequence: an explicit
/// position plus the cached current and peek tokens.
pub struct Parser {
    tokens: Vec<Token>,
    pos: usize,
    current: Token,
    peek: Token,
}

impl Parser {
    /// The token sequence being parsed.
    pub closed spec fn toks(&self) -> Seq<TokenModel> {
        self.tokens.deep_view()
    }

    /// The position of the current token.
    pub closed spec fn cursor(&self) -> int {
        self.pos as int
    }

    /// The current token's value.
    pub open spec fn cur(&self) -> TokenModel {
        tok_at(self.toks(), self.cursor())
    }

    /// The cursor lies inside the sequence (or just past it) and the two
    /// cached tokens are the ones at and after it.
    pub closed spec fn wf(&self) -> bool {
        &&& self.pos <= self.tokens@.len()
        &&& self.current@ == tok_at(self.toks(), self.cursor())
        &&& self.peek@ == tok_at(self.toks(), self.cursor() + 1)
    }

    /// The token at `i`, or `Eof` past the end.
    fn token_at(tokens: &Vec<Token>, i: usize) -> (t: Token)
        ensures
            t@ == tok_at(tokens.deep_view(), i as int),
    {
        if i < tokens.len() {
            tokens[i].clone()
        } else {
            Token::Eof
        }
    }

    /// A parser positioned at the start of the token sequence.
    fn new(tokens: Vec<Token>) -> (parser: Parser)
        ensures
            parser.wf(),
            parser.toks() == tokens.deep_view(),
            parser.cursor() == 0,
    {
        let current = Self::token_at(&tokens, 0);
        let peek = Self::token_at(&tokens, 1);
        Parser { tokens, pos: 0, current, peek }
    }

    /// Advances the cursor by one token.
    fn read(&mut self)
        requires
            old(self).wf(),
            old(self).cursor() < old(self).toks().len(),
        ensures
            final(self).wf(),
            final(self).toks() == old(self).toks(),
            final(self).cursor() == old(self).cursor() + 1,
    {
        let n = self.tokens.len();
        proof {
            assert(self.toks().len() == n);
        }
        self.pos = self.pos + 1;
        self.current = Self::token_at(&self.tokens, self.pos);
        self.peek = if self.pos < self.tokens.len() {
            Self::token_at(&self.tokens, self.pos + 1)
        } else {
            Token::Eof
        };
    }

    /// The current token has the same kind as `token` (payloads ignored).
    fn current_is(&self, token: Token) -> (r: bool)
        requires
            self.wf(),
        ensures
            r == same_kind(self.cur(), token@),
    {
        Self::kind(&self.current) == Self::kind(&token)
    }

    /// A number distinguishing the token's variant, matching `kind_id`.
    fn kind(t: &Token) -> (k: u32)
        ensures
            k as int == kind_id(t@),
    {
        match t {
            Token::Create => 0,
            Token::Fn => 1,
            Token::Select => 2,
            Token::CountC => 3,
            Token::CountL => 4,
            Token::CountW => 5,
            Token::Star => 6,
            Token::From => 7,
            Token::Top(_) => 8,
            Token::Tail(_) => 9,
            Token::Where => 10,
            Token::Export => 11,
            Token::Number(_) => 12,
            Token::Strings(_) => 13,
            Token::LeftParen => 14,
            Token::RightParen => 15,
            Token::LeftBrace => 16,
            Token::RightBrace => 17,
            Token::Plus => 18,
            Token::Minus => 19,
            Token::Slash => 20,
            Token::Assign => 21,
            Token::True => 22,
            Token::False => 23,
            Token::Eos => 24,
            Token::Let => 25,
            Token::NotEquals => 26,
            Token::Like => 27,
            Token::NotLike => 28,
            Token::Regex => 29,
            Token::Eof => 30,
            Token::Error => 31,
        }
    }

    /// The current token, if it has the same kind as `token`; the parse
    /// failure naming it otherwise.  Consumes nothing.
    fn expect_token(&mut self, token: Token) -> (r: Result<Token, ParseError>)
        requires
            old(self).wf(),
        ensures
            *final(self) == *old(self),
            match r {
                Ok(t) => same_kind(old(self).cur(), token@) && t@ == old(self).cur(),
                Err(e) => !same_kind(old(self).cur(), token@) && err_token(e@) == old(self).cur(),
            },
    {
        if self.current_is(token) {
            Ok(self.current.clone())
        } else {
            Err(ParseError::UnexpectedToken(self.current.clone()))
        }
    }

    /// The current token, if it has the expected kind, advancing past it;
    /// the parse failure naming it otherwise, consuming nothing.
    fn expect_token_and_read(&mut self, token: Token) -> (r: Result<Token, ParseError>)
        requires
            old(self).wf(),
            !(token@ is Eof),
        ensures
            final(self).wf(),
            final(self).toks() == old(self).toks(),
            match r {
                Ok(t) => same_kind(old(self).cur(), token@) && t@ == old(self).cur()
                    && final(self).cursor() == old(self).cursor() + 1,
                Err(e) => *final(self) == *old(self) && !same_kind(old(self).cur(), token@)
                    && err_token(e@) == old(self).cur(),
            },
    {
        let result = match self.expect_token(token) {
            Ok(t) => t,
            Err(e) => {
                return Err(e);
            },
        };
        self.read();
        Ok(result)
    }

    /// The current token, if it is a string literal, advancing past it.
    fn expect_identifier_and_read(&mut self) -> (r: Result<Token, ParseError>)
        requires
            old(self).wf(),
        ensures
            final(self).wf(),
            final(self).toks() == old(self).toks(),
            match r {
                Ok(t) => old(self).cur() is Strings && t@ == old(self).cur()
                    && final(self).cursor() == old(self).cursor() + 1,
                Err(e) => *final(self) == *old(self) && !(old(self).cur() is Strings)
                    && err_token(e@) == old(self).cur(),
            },
    {
        self.expect_token_and_read(Token::Strings(String::new()))
    }

    /// The current token, if it is a `TOP(n)` selector, advancing past it.
    fn expect_top_token_and_read(&mut self) -> (r: Result<Token, ParseError>)
        requires
            old(self).wf(),
        ensures
            final(self).wf(),
            final(self).toks() == old(self).toks(),
            match r {
                Ok(t) => old(self).cur() is Top && t@ == old(self).cur()
                    && final(self).cursor() == old(self).cursor() + 1,
                Err(e) => *final(self) == *old(self) && !(old(self).cur() is Top)
                    && err_token(e@) == old(self).cur(),
            },
    {
        self.expect_token_and_read(Token::Top(String::new()))
    }

    /// The current token, if it is a `TAIL(n)` selector, advancing past it.
    fn expect_tail_token_and_read(&mut self) -> (r: Result<Token, ParseError>)
        requires
            old(self).wf(),
        ensures
            final(self).wf(),
            final(self).toks() == old(self).toks(),
            match r {
                Ok(t) => old(self).cur() is Tail && t@ == old(self).cur()
                    && final(self).cursor() == old(self).cursor() + 1,
                Err(e) => *final(self) == *old(self) && !(old(self).cur() is Tail)
                    && err_token(e@) == old(self).cur(),
            },
    {
        self.expect_token_and_read(Token::Tail(String::new()))
    }

    /// Parses one statement at the cursor, which must open with `SELECT`.
    fn parse_select_statement(&mut self) -> (r: Result<Statement, ParseError>)
        requires
            old(self).wf(),
        ensures
            final(self).wf(),
            final(self).toks() == old(self).toks(),
            match r {
                Ok(stmt) => parse_select_at(old(self).toks(), old(self).cursor()) == Ok::<
                    (StatementModel, int),
                    TokenModel,
                >((stmt@, final(self).cursor())),
                Err(e) => parse_select_at(old(self).toks(), old(self).cursor()) == Err::<
                    (StatementModel, int),
                    TokenModel,
                >(err_token(e@)),
            },
    {
        let _select = match self.expect_token_and_read(Token::Select) {
            Ok(t) => t,
            Err(e) => {
                return Err(e);
            },
        };
        let counters: Option<Token> = if self.current_is(Token::CountC) {
            let token = match self.expect_token_and_read(Token::CountC) {
                Ok(t) => t,
                Err(e) => {
                    return Err(e);
                },
            };
            Some(token)
        } else if self.current_is(Token::CountL) {
            let token = match self.expect_token_and_read(Token::CountL) {
                Ok(t) => t,
                Err(e) => {
                    return Err(e);
                },
            };
            Some(token)
        } else if self.current_is(Token::CountW) {
            let token = match self.expect_token_and_read(Token::CountW) {
                Ok(t) => t,
                Err(e) => {
                    return Err(e);
                },
            };
            Some(token)
        } else {
            None
        };
        let quantity: Token = if self.current_is(Token::Top(String::new())) {
            match self.expect_top_token_and_read() {
                Ok(t) => t,
                Err(e) => {
                    return Err(e);
                },
            }
        } else if self.current_is(Token::Star) {
            match self.expect_token_and_read(Token::Star) {
                Ok(t) => t,
                Err(e) => {
                    return Err(e);
                },
            }
        } else {
            match self.expect_tail_token_and_read() {
                Ok(t) => t,
                Err(e) => {
                    return Err(e);
                },
            }
        };
        let from = match self.expect_token_and_read(Token::From) {
            Ok(t) => t,
            Err(e) => {
                return Err(e);
            },
        };
        let target_token = match self.expect_identifier_and_read() {
            Ok(t) => t,
            Err(e) => {
                return Err(e);
            },
        };
        let target: String = target_token.text();
        let condition: Option<Expression> = if self.current_is(Token::Where) {
            let _where = match self.expect_token_and_read(Token::Where) {
                Ok(t) => t,
                Err(e) => {
                    return Err(e);
                },
            };
            let conditional: Token = if self.current_is(Token::Like) {
                match self.expect_token_and_read(Token::Like) {
                    Ok(t) => t,
                    Err(e) => {
                        return Err(e);
                    },
                }
            } else {
                match self.expect_token_and_read(Token::NotLike) {
                    Ok(t) => t,
                    Err(e) => {
                        return Err(e);
                    },
                }
            };
            let pattern_token = match self.expect_identifier_and_read() {
                Ok(t) => t,
                Err(e) => {
                    return Err(e);
                },
            };
            Some(Expression::Where { conditional: Some(conditional), target: pattern_token.text() })
        } else {
            None
        };
        Ok(
            Statement::SelectStatement {
                counters,
                quantity: Some(quantity),
                from,
                target,
                condition,
            },
        )
    }

    /// Parses one statement at the cursor, failing on anything but `SELECT`.
    fn parse_statement(&mut self) -> (r: Result<Statement, ParseError>)
        requires
            old(self).wf(),
        ensures
            final(self).wf(),
            final(self).toks() == old(self).toks(),
            match r {
                Ok(stmt) => parse_select_at(old(self).toks(), old(self).cursor()) == Ok::<
                    (StatementModel, int),
                    TokenModel,
                >((stmt@, final(self).cursor())),
                Err(e) => parse_select_at(old(self).toks(), old(self).cursor()) == Err::<
                    (StatementModel, int),
                    TokenModel,
                >(err_token(e@)),
            },
    {
        if self.current_is(Token::Select) {
            self.parse_select_statement()
        } else {
            Err(ParseError::UnexpectedToken(self.current.clone()))
        }
    }

    /// Skips one separator if one stands at the cursor, then parses the
    /// next statement, or reports that the input is exhausted.
    fn next(&mut self) -> (r: Result<Option<Statement>, ParseError>)
        requires
            old(self).wf(),
        ensures
            final(self).wf(),
            final(self).toks() == old(self).toks(),
            match r {
                Ok(Some(stmt)) => parse_select_at(
                    old(self).toks(),
                    spec_skip_eos(old(self).toks(), old(self).cursor()),
                ) == Ok::<(StatementModel, int), TokenModel>((stmt@, final(self).cursor())),
                Ok(None) => tok_at(
                    old(self).toks(),
                    spec_skip_eos(old(self).toks(), old(self).cursor()),
                ) is Eof,
                Err(e) => !(tok_at(
                    old(self).toks(),
                    spec_skip_eos(old(self).toks(), old(self).cursor()),
                ) is Eof) && parse_select_at(
                    old(self).toks(),
                    spec_skip_eos(old(self).toks(), old(self).cursor()),
                ) == Err::<(StatementModel, int), TokenModel>(err_token(e@)),
            },
    {
        if self.current_is(Token::Eos) {
            self.read();
        }
        if self.current_is(Token::Eof) {
            return Ok(None);
        }
        match self.parse_statement() {
            Ok(stmt) => Ok(Some(stmt)),
            Err(e) => Err(e),
        }
    }
}

/// Parses the whole token sequence into the program it denotes, or fails
/// with the first token that does not fit the grammar.  Every statement of
/// an accepted program is well-formed.
#[verifier::loop_isolation(false)]
pub fn parse(tokens: Vec<Token>) -> (r: Result<Program, ParseError>)
    ensures
        match r {
            Ok(program) => spec_parse(tokens.deep_view()) == Ok::<Seq<StatementModel>, TokenModel>(
                program.deep_view(),
            ) && wf_program(program.deep_view()),
            Err(e) => spec_parse(tokens.deep_view()) == Err::<Seq<StatementModel>, TokenModel>(
                err_token(e@),
            ),
        },
{
    let ghost ts = tokens.deep_view();
    let mut parser = Parser::new(tokens);
    let mut program: Program = Vec::new();
    loop
        invariant
            parser.wf(),
            parser.toks() == ts,
            match parse_from(ts, parser.cursor()) {
                Ok(rest) => parse_from(ts, 0) == Ok::<Seq<StatementModel>, TokenModel>(
                    program.deep_view() + rest,
                ),
                Err(t) => parse_from(ts, 0) == Err::<Seq<StatementModel>, TokenModel>(t),
            },
        decreases ts.len() + 1 - parser.cursor(),
    {
        let ghost c = parser.cursor();
        match parser.next() {
            Ok(Some(statement)) => {
                let ghost sv = statement@;
                let ghost pdv = program.deep_view();
                proof {
                    lemma_parse_select_advances(ts, spec_skip_eos(ts, c));
                }
                program.push(statement);
                proof {
                    assert(program.deep_view() =~= pdv + seq![sv]);
                    match parse_from(ts, parser.cursor()) {
                        Ok(rest) => {
                            assert(parse_from(ts, c) == Ok::<Seq<StatementModel>, TokenModel>(
                                seq![sv] + rest,
                            ));
                            assert(pdv + (seq![sv] + rest) =~= (pdv + seq![sv]) + rest);
                        },
                        Err(_) => {},
                    }
                }
            },
            Ok(None) => {
                proof {
                    assert(parse_from(ts, c) == Ok::<Seq<StatementModel>, TokenModel>(
                        Seq::<StatementModel>::empty(),
                    ));
                    assert(program.deep_view() + Seq::<StatementModel>::empty()
                        =~= program.deep_view());
                    lemma_parse_from_wf(ts, 0);
                }
                return Ok(program);
            },
            Err(e) => {
                proof {
                    assert(parse_from(ts, c) == Err::<Seq<StatementModel>, TokenModel>(
                        err_token(e@),
                    ));
                }
                return Err(e);
            },
        }
    }
}

/// Every program the parser accepts is well-formed.
pub proof fn lemma_parse_from_wf(ts: Seq<TokenModel>, i: int)
    requires
        0 <= i,
    ensures
        parse_from(ts, i) matches Ok(prog) ==> wf_program(prog),
    decreases ts.len() - i,
{
    let i1 = spec_skip_eos(ts, i);
    if !(tok_at(ts, i1) is Eof) {
        match parse_select_at(ts, i1) {
            Err(_) => {},
            Ok(p) => {
                lemma_parse_select_wf(ts, i1);
                lemma_parse_select_advances(ts, i1);
                lemma_parse_from_wf(ts, p.1);
            },
        }
    }
}

} // verus!
