//! The abstract syntax tree produced by the parser and read by the
//! interpreter.

use vstd::prelude::*;

use crate::token::{Token, TokenModel};

verus! {

/// A parsed program: the statements of the script, in source order.
pub type Program = Vec<Statement>;

/// A token carried verbatim inside a statement.
pub type ExpToken = Token;

/// A source path or search pattern.
pub type Identifier = String;

/// A statement of the query language.
///
/// `counters` is present iff a `COUNTC`/`COUNTL`/`COUNTW` keyword followed
/// `SELECT`; `quantity` is the selector token (`*`, `TOP(n)` or `TAIL(n)`);
/// `from` is the consumed `FROM` keyword token; `target` is the source
/// path; `condition` is present iff a `WHERE` clause followed the path.
#[derive(Debug)]
pub enum Statement {
    SelectStatement {
        counters: Option<ExpToken>,
        quantity: Option<ExpToken>,
        from: ExpToken,
        target: Identifier,
        condition: Option<Expression>,
    },
}

/// A `WHERE` clause: the conditional keyword (`LIKE` or `NOTLIKE`) and the
/// pattern to search for.
#[derive(Debug)]
pub enum Expression {
    Where { conditional: Option<Token>, target: Identifier },
}

/// A comparison operator, as named by its token.
#[derive(Debug, PartialEq, Eq, Structural)]
pub enum Op {
    Equals,
    NotEquals,
    Like,
    NotLike,
}

impl Op {
    /// The operator named by a conditional token.
    pub fn token(token: Token) -> (op: Op)
        requires
            token@ is Like || token@ is NotLike || token@ is NotEquals,
        ensures
            op == (match token@ {
                TokenModel::Like => Op::Like,
                TokenModel::NotLike => Op::NotLike,
                _ => Op::NotEquals,
            }),
    {
        match token {
            Token::Like => Op::Like,
            Token::NotLike => Op::NotLike,
            _ => Op::NotEquals,
        }
    }
}

/// The mathematical value of an [`Expression`].
pub enum ExpressionModel {
    Where { conditional: Option<TokenModel>, target: Seq<char> },
}

/// The mathematical value of a [`Statement`].
pub enum StatementModel {
    SelectStatement {
        counters: Option<TokenModel>,
        quantity: Option<TokenModel>,
        from: TokenModel,
        target: Seq<char>,
        condition: Option<ExpressionModel>,
    },
}

impl View for Expression {
    type V = ExpressionModel;

    open spec fn view(&self) -> ExpressionModel {
        match self {
            Expression::Where { conditional, target } => ExpressionModel::Where {
                conditional: match conditional {
                    Some(t) => Some(t@),
                    None => None,
                },
                target: target@,
            },
        }
    }
}

impl DeepView for Expression {
    type V = ExpressionModel;

    open spec fn deep_view(&self) -> ExpressionModel {
        self.view()
    }
}

impl View for Statement {
    type V = StatementModel;

    open spec fn view(&self) -> StatementModel {
        match self {
            Statement::SelectStatement { counters, quantity, from, target, condition } => {
                StatementModel::SelectStatement {
                    counters: match counters {
                        Some(t) => Some(t@),
                        None => None,
                    },
                    quantity: match quantity {
                        Some(t) => Some(t@),
                        None => None,
                    },
                    from: from@,
                    target: target@,
                    condition: match condition {
                        Some(e) => Some(e@),
                        None => None,
                    },
                }
            },
        }
    }
}

impl DeepView for Statement {
    type V = StatementModel;

    open spec fn deep_view(&self) -> StatementModel {
        self.view()
    }
}

/// A well-formed `WHERE` clause: the conditional is present and is `LIKE`
/// or `NOTLIKE`.
pub open spec fn wf_condition(e: ExpressionModel) -> bool {
    match e {
        ExpressionModel::Where { conditional, target } => match conditional {
            Some(t) => t is Like || t is NotLike,
            None => false,
        },
    }
}

/// A well-formed statement, as the parser produces it: an aggregate, if
/// present, is a `COUNTx` token; a quantity, if present, is `*`, `TOP(n)`
/// or `TAIL(n)`; a condition, if present, is a well-formed `WHERE` clause.
pub open spec fn wf_statement(s: StatementModel) -> bool {
    match s {
        StatementModel::SelectStatement { counters, quantity, from, target, condition } => {
            &&& (match counters {
                Some(t) => t is CountC || t is CountL || t is CountW,
                None => true,
            })
            &&& (match quantity {
                Some(t) => t is Star || t is Top || t is Tail,
                None => true,
            })
            &&& (match condition {
                Some(e) => wf_condition(e),
                None => true,
            })
        },
    }
}

/// A well-formed program: every statement is well-formed.
pub open spec fn wf_program(p: Seq<StatementModel>) -> bool {
    forall|i: int| 0 <= i < p.len() ==> wf_statement(#[trigger] p[i])
}

} // verus!
