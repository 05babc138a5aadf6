//! Abstract syntax tree (AST).

use vstd::prelude::*;
use crate::lexer::Symbol;

verus! {

/// Represents an expression.
#[derive(Debug, PartialEq, Eq)]
pub enum Expr {
    Boolean(bool),
    Integer(i64),
    Variable(String),
    BinOp { lhs: Box<Expr>, op: Symbol, rhs: Box<Expr> },
}

/// The mathematical value of an [Expr]: a variable is its sequence of characters.
pub enum ExprV {
    Boolean(bool),
    Integer(i64),
    Variable(Seq<char>),
    BinOp { lhs: Box<ExprV>, op: Symbol, rhs: Box<ExprV> },
}

/// The mathematical value of an expression.
pub open spec fn expr_view(e: Expr) -> ExprV
    decreases e,
{
    match e {
        Expr::Boolean(b) => ExprV::Boolean(b),
        Expr::Integer(i) => ExprV::Integer(i),
        Expr::Variable(x) => ExprV::Variable(x@),
        Expr::BinOp { lhs, op, rhs } => ExprV::BinOp {
            lhs: Box::new(expr_view(*lhs)),
            op,
            rhs: Box::new(expr_view(*rhs)),
        },
    }
}

impl View for Expr {
    type V = ExprV;

    open spec fn view(&self) -> ExprV {
        expr_view(*self)
    }
}

/// Represents a statement.
#[derive(Debug, PartialEq, Eq)]
pub enum Stmt {
    Declare(Vec<String>),
    Assign(String, Expr),
    Assume(Expr),
    Assert(Expr),
    If { condition: Expr, then_branch: Block, else_branch: Option<Block> },
    While { condition: Expr, loop_invariant: Expr, body: Block },
    // helper variants for parsing control flow
    Else,
    End,
    Empty,
}

/// Represents a sequence of statements.
#[derive(Debug, PartialEq, Eq)]
pub struct Block(pub Vec<Stmt>);

/// The mathematical value of a [Stmt]: names are sequences of characters and blocks are
/// sequences of statements.
pub enum StmtV {
    Declare(Seq<Seq<char>>),
    Assign(Seq<char>, ExprV),
    Assume(ExprV),
    Assert(ExprV),
    If { condition: ExprV, then_branch: Seq<StmtV>, else_branch: Option<Seq<StmtV>> },
    While { condition: ExprV, loop_invariant: ExprV, body: Seq<StmtV> },
    Else,
    End,
    Empty,
}

/// The characters of each name in a sequence of names.
pub open spec fn names_view(v: Seq<String>) -> Seq<Seq<char>> {
    v.map_values(|s: String| s@)
}

/// The mathematical value of a statement.
pub open spec fn stmt_view(s: Stmt) -> StmtV
    decreases s,
{
    match s {
        Stmt::Declare(v) => StmtV::Declare(names_view(v@)),
        Stmt::Assign(x, e) => StmtV::Assign(x@, e@),
        Stmt::Assume(e) => StmtV::Assume(e@),
        Stmt::Assert(e) => StmtV::Assert(e@),
        Stmt::If { condition, then_branch, else_branch } => StmtV::If {
            condition: condition@,
            then_branch: stmts_view(then_branch.0@),
            else_branch: match else_branch {
                Some(b) => Some(stmts_view(b.0@)),
                None => None,
            },
        },
        Stmt::While { condition, loop_invariant, body } => StmtV::While {
            condition: condition@,
            loop_invariant: loop_invariant@,
            body: stmts_view(body.0@),
        },
        Stmt::Else => StmtV::Else,
        Stmt::End => StmtV::End,
        Stmt::Empty => StmtV::Empty,
    }
}

/// The mathematical value of a sequence of statements.
pub open spec fn stmts_view(s: Seq<Stmt>) -> Seq<StmtV>
    decreases s,
{
    if s.len() == 0 {
        Seq::empty()
    } else {
        stmts_view(s.drop_last()).push(stmt_view(s.last()))
    }
}

impl View for Stmt {
    type V = StmtV;

    open spec fn view(&self) -> StmtV {
        stmt_view(*self)
    }
}

impl View for Block {
    type V = Seq<StmtV>;

    open spec fn view(&self) -> Seq<StmtV> {
        stmts_view(self.0@)
    }
}

/// The view of a sequence of statements has one entry per statement.
pub proof fn lemma_stmts_view(s: Seq<Stmt>)
    ensures
        stmts_view(s).len() == s.len(),
        forall|i: int| 0 <= i < s.len() ==> #[trigger] stmts_view(s)[i] == stmt_view(s[i]),
    decreases s.len(),
{
    if s.len() > 0 {
        lemma_stmts_view(s.drop_last());
    }
}

} // verus!
