//! Generation of verification conditions.
//!
//! A specification is compiled into a formula over integer variables, its verification
//! condition (VC), by computing weakest preconditions. Variables are numbered by their
//! position in the declaration. The VC is valid exactly when the specification is correct
//! with respect to its assumptions, assertions and loop invariants.

use vstd::prelude::*;
use crate::ast::{Block, Expr, ExprV, Stmt, StmtV, lemma_stmts_view, names_view, stmt_view, stmts_view};
use crate::errors::CompileError;
use crate::lexer::Symbol;

verus! {

/// An integer-valued term.
#[derive(Debug, PartialEq, Eq)]
pub enum IntTerm {
    /// An integer constant.
    Lit(i64),
    /// The variable with the given index in the environment.
    Var(usize),
    Add(Box<IntTerm>, Box<IntTerm>),
    Sub(Box<IntTerm>, Box<IntTerm>),
    Mul(Box<IntTerm>, Box<IntTerm>),
    /// Floored integer division: the quotient is rounded down.
    Div(Box<IntTerm>, Box<IntTerm>),
}

/// A boolean-valued term (a formula).
#[derive(Debug, PartialEq, Eq)]
pub enum BoolTerm {
    /// A boolean constant.
    Lit(bool),
    IntEq(Box<IntTerm>, Box<IntTerm>),
    IntNe(Box<IntTerm>, Box<IntTerm>),
    Lt(Box<IntTerm>, Box<IntTerm>),
    Gt(Box<IntTerm>, Box<IntTerm>),
    Le(Box<IntTerm>, Box<IntTerm>),
    Ge(Box<IntTerm>, Box<IntTerm>),
    /// Equality of two formulas.
    BoolEq(Box<BoolTerm>, Box<BoolTerm>),
    /// Disequality of two formulas.
    BoolNe(Box<BoolTerm>, Box<BoolTerm>),
    And(Box<BoolTerm>, Box<BoolTerm>),
    Or(Box<BoolTerm>, Box<BoolTerm>),
    Implies(Box<BoolTerm>, Box<BoolTerm>),
    Not(Box<BoolTerm>),
    /// The formula holds for all values of all the declared variables.
    Forall(Box<BoolTerm>),
}

/// Represents the encoding of boolean/arithmetic expressions.
#[derive(Debug, PartialEq, Eq)]
pub enum Encoding {
    Bool(BoolTerm),
    Int(IntTerm),
}

/// The declared variables, in the order of their declaration.
#[derive(Debug)]
pub struct Env {
    names: Vec<String>,
}

impl View for Env {
    type V = Seq<Seq<char>>;

    closed spec fn view(&self) -> Seq<Seq<char>> {
        names_view(self.names@)
    }
}

/// The index of the first occurrence of `x` in `names` at or after `i`.
pub open spec fn index_from(names: Seq<Seq<char>>, x: Seq<char>, i: int) -> Option<int>
    decreases names.len() - i,
{
    if i < 0 || i >= names.len() {
        None
    } else if names[i] == x {
        Some(i)
    } else {
        index_from(names, x, i + 1)
    }
}

/// The index of a variable in the environment, if it is declared.
pub open spec fn lookup(names: Seq<Seq<char>>, x: Seq<char>) -> Option<int> {
    index_from(names, x, 0)
}

pub proof fn lemma_index_from(names: Seq<Seq<char>>, x: Seq<char>, i: int)
    requires
        0 <= i <= names.len(),
    ensures
        match index_from(names, x, i) {
            Some(k) => i <= k < names.len() && names[k] == x && forall|m: int|
                i <= m < k ==> names[m] != x,
            None => forall|m: int| i <= m < names.len() ==> names[m] != x,
        },
    decreases names.len() - i,
{
    if i < names.len() && names[i] != x {
        lemma_index_from(names, x, i + 1);
    }
}

impl Env {
    /// An environment without variables.
    pub fn new() -> (env: Env)
        ensures
            env@ == Seq::<Seq<char>>::empty(),
    {
        let env = Env { names: Vec::new() };
        assert(env@ =~= Seq::<Seq<char>>::empty());
        env
    }

    /// The number of declared variables.
    pub fn len(&self) -> (n: usize)
        ensures
            n == self@.len(),
    {
        self.names.len()
    }

    /// The index of a declared variable, if it is declared.
    pub fn index_of(&self, x: &String) -> (r: Option<usize>)
        ensures
            match lookup(self@, x@) {
                Some(k) => r == Some(k as usize),
                None => r is None,
            },
    {
        let mut i: usize = 0;
        while i < self.names.len()
            invariant
                i <= self.names@.len(),
                self@.len() == self.names@.len(),
                lookup(self@, x@) == index_from(self@, x@, i as int),
            decreases self.names.len() - i,
        {
            assert(self@[i as int] == self.names@[i as int]@);
            if self.names[i] == *x {
                return Some(i);
            }
            i = i + 1;
        }
        None
    }

    /// The name of the variable with index `i`.
    pub fn name(&self, i: usize) -> (r: &String)
        requires
            i < self@.len(),
        ensures
            r@ == self@[i as int],
    {
        &self.names[i]
    }

    /// Declares a variable, unless it is declared already; tells whether it was added.
    pub fn declare(&mut self, x: String) -> (added: bool)
        ensures
            added == (lookup(old(self)@, x@) is None),
            final(self)@ == if added {
                old(self)@.push(x@)
            } else {
                old(self)@
            },
    {
        match self.index_of(&x) {
            Some(_) => false,
            None => {
                let ghost before = self.names@;
                self.names.push(x);
                assert(names_view(self.names@) =~= names_view(before).push(self.names@.last()@));
                true
            },
        }
    }
}

/// Encodes an expression into a term, or fails when it is ill-typed or uses an undeclared
/// variable. Subexpressions are encoded left to right.
pub open spec fn spec_encode(e: ExprV, env: Seq<Seq<char>>) -> Result<Encoding, CompileError>
    decreases e,
{
    match e {
        ExprV::Boolean(b) => Ok(Encoding::Bool(BoolTerm::Lit(b))),
        ExprV::Integer(i) => Ok(Encoding::Int(IntTerm::Lit(i))),
        ExprV::Variable(x) => match lookup(env, x) {
            Some(k) => Ok(Encoding::Int(IntTerm::Var(k as usize))),
            None => Err(CompileError::UnboundVariable),
        },
        ExprV::BinOp { lhs, op, rhs } => match spec_encode(*lhs, env) {
            Err(err) => Err(err),
            Ok(a) => match spec_encode(*rhs, env) {
                Err(err) => Err(err),
                Ok(b) => combine(a, op, b),
            },
        },
    }
}

/// Combines the encodings of two operands with an operator.
pub open spec fn combine(a: Encoding, op: Symbol, b: Encoding) -> Result<Encoding, CompileError> {
    match (a, b) {
        (Encoding::Int(x), Encoding::Int(y)) => {
            let (x, y) = (Box::new(x), Box::new(y));
            match op {
                Symbol::Add => Ok(Encoding::Int(IntTerm::Add(x, y))),
                Symbol::Sub => Ok(Encoding::Int(IntTerm::Sub(x, y))),
                Symbol::Mul => Ok(Encoding::Int(IntTerm::Mul(x, y))),
                Symbol::Div => Ok(Encoding::Int(IntTerm::Div(x, y))),
                Symbol::Lt => Ok(Encoding::Bool(BoolTerm::Lt(x, y))),
                Symbol::Gt => Ok(Encoding::Bool(BoolTerm::Gt(x, y))),
                Symbol::Le => Ok(Encoding::Bool(BoolTerm::Le(x, y))),
                Symbol::Ge => Ok(Encoding::Bool(BoolTerm::Ge(x, y))),
                Symbol::Eq => Ok(Encoding::Bool(BoolTerm::IntEq(x, y))),
                Symbol::Neq => Ok(Encoding::Bool(BoolTerm::IntNe(x, y))),
                _ => Err(CompileError::BadExpression),
            }
        },
        (Encoding::Bool(p), Encoding::Bool(q)) => {
            let (p, q) = (Box::new(p), Box::new(q));
            match op {
                Symbol::Eq => Ok(Encoding::Bool(BoolTerm::BoolEq(p, q))),
                Symbol::Neq => Ok(Encoding::Bool(BoolTerm::BoolNe(p, q))),
                Symbol::And => Ok(Encoding::Bool(BoolTerm::And(p, q))),
                Symbol::Or => Ok(Encoding::Bool(BoolTerm::Or(p, q))),
                _ => Err(CompileError::BadExpression),
            }
        },
        _ => Err(CompileError::BadExpression),
    }
}

/// The formula of a boolean encoding.
pub open spec fn as_bool(r: Result<Encoding, CompileError>) -> Result<BoolTerm, CompileError> {
    match r {
        Ok(Encoding::Bool(p)) => Ok(p),
        Ok(_) => Err(CompileError::BadExpression),
        Err(e) => Err(e),
    }
}

/// The term of an integer encoding.
pub open spec fn as_int(r: Result<Encoding, CompileError>) -> Result<IntTerm, CompileError> {
    match r {
        Ok(Encoding::Int(t)) => Ok(t),
        Ok(_) => Err(CompileError::BadExpression),
        Err(e) => Err(e),
    }
}

/// Replaces variable `i` by `r` in an integer term.
pub open spec fn subst_int(t: IntTerm, i: usize, r: IntTerm) -> IntTerm
    decreases t,
{
    match t {
        IntTerm::Lit(n) => IntTerm::Lit(n),
        IntTerm::Var(j) => if j == i {
            r
        } else {
            IntTerm::Var(j)
        },
        IntTerm::Add(a, b) => IntTerm::Add(Box::new(subst_int(*a, i, r)), Box::new(subst_int(*b, i, r))),
        IntTerm::Sub(a, b) => IntTerm::Sub(Box::new(subst_int(*a, i, r)), Box::new(subst_int(*b, i, r))),
        IntTerm::Mul(a, b) => IntTerm::Mul(Box::new(subst_int(*a, i, r)), Box::new(subst_int(*b, i, r))),
        IntTerm::Div(a, b) => IntTerm::Div(Box::new(subst_int(*a, i, r)), Box::new(subst_int(*b, i, r))),
    }
}

/// Replaces the free occurrences of variable `i` by `r` in a formula. A quantified formula
/// binds every variable, so it has none.
pub open spec fn subst_bool(f: BoolTerm, i: usize, r: IntTerm) -> BoolTerm
    decreases f,
{
    match f {
        BoolTerm::Lit(b) => BoolTerm::Lit(b),
        BoolTerm::IntEq(a, b) => BoolTerm::IntEq(Box::new(subst_int(*a, i, r)), Box::new(subst_int(*b, i, r))),
        BoolTerm::IntNe(a, b) => BoolTerm::IntNe(Box::new(subst_int(*a, i, r)), Box::new(subst_int(*b, i, r))),
        BoolTerm::Lt(a, b) => BoolTerm::Lt(Box::new(subst_int(*a, i, r)), Box::new(subst_int(*b, i, r))),
        BoolTerm::Gt(a, b) => BoolTerm::Gt(Box::new(subst_int(*a, i, r)), Box::new(subst_int(*b, i, r))),
        BoolTerm::Le(a, b) => BoolTerm::Le(Box::new(subst_int(*a, i, r)), Box::new(subst_int(*b, i, r))),
        BoolTerm::Ge(a, b) => BoolTerm::Ge(Box::new(subst_int(*a, i, r)), Box::new(subst_int(*b, i, r))),
        BoolTerm::BoolEq(p, q) => BoolTerm::BoolEq(Box::new(subst_bool(*p, i, r)), Box::new(subst_bool(*q, i, r))),
        BoolTerm::BoolNe(p, q) => BoolTerm::BoolNe(Box::new(subst_bool(*p, i, r)), Box::new(subst_bool(*q, i, r))),
        BoolTerm::And(p, q) => BoolTerm::And(Box::new(subst_bool(*p, i, r)), Box::new(subst_bool(*q, i, r))),
        BoolTerm::Or(p, q) => BoolTerm::Or(Box::new(subst_bool(*p, i, r)), Box::new(subst_bool(*q, i, r))),
        BoolTerm::Implies(p, q) => BoolTerm::Implies(Box::new(subst_bool(*p, i, r)), Box::new(subst_bool(*q, i, r))),
        BoolTerm::Not(p) => BoolTerm::Not(Box::new(subst_bool(*p, i, r))),
        BoolTerm::Forall(p) => BoolTerm::Forall(p),
    }
}

/// `p ==> q`
pub open spec fn mk_implies(p: BoolTerm, q: BoolTerm) -> BoolTerm {
    BoolTerm::Implies(Box::new(p), Box::new(q))
}

/// `p && q`
pub open spec fn mk_and(p: BoolTerm, q: BoolTerm) -> BoolTerm {
    BoolTerm::And(Box::new(p), Box::new(q))
}

/// `!p`
pub open spec fn mk_not(p: BoolTerm) -> BoolTerm {
    BoolTerm::Not(Box::new(p))
}

/// The weakest precondition of a statement with respect to the postcondition `post`.
///
/// See: <https://en.wikipedia.org/wiki/Predicate_transformer_semantics#Weakest_preconditions>
pub open spec fn spec_wp(s: StmtV, env: Seq<Seq<char>>, post: BoolTerm) -> Result<BoolTerm, CompileError>
    decreases s,
{
    match s {
        StmtV::Declare(_) => Err(CompileError::InvalidDeclaration),
        StmtV::Assume(e) => match as_bool(spec_encode(e, env)) {
            Ok(c) => Ok(mk_implies(c, post)),
            Err(err) => Err(err),
        },
        StmtV::Assert(e) => match as_bool(spec_encode(e, env)) {
            Ok(c) => Ok(mk_and(mk_implies(c, post), mk_implies(mk_not(c), BoolTerm::Lit(false)))),
            Err(err) => Err(err),
        },
        StmtV::Assign(x, e) => match lookup(env, x) {
            Some(k) => match as_int(spec_encode(e, env)) {
                Ok(t) => Ok(subst_bool(post, k as usize, t)),
                Err(err) => Err(err),
            },
            None => Err(CompileError::UnboundVariable),
        },
        StmtV::If { condition, then_branch, else_branch } => match as_bool(
            spec_encode(condition, env),
        ) {
            Err(err) => Err(err),
            Ok(c) => match spec_wp_block(then_branch, env, post) {
                Err(err) => Err(err),
                Ok(then_wp) => {
                    let else_wp = match else_branch {
                        Some(b) => spec_wp_block(b, env, post),
                        None => Ok(post),
                    };
                    match else_wp {
                        Err(err) => Err(err),
                        Ok(else_wp) => Ok(mk_and(mk_implies(c, then_wp), mk_implies(mk_not(c), else_wp))),
                    }
                },
            },
        },
        StmtV::While { condition, loop_invariant, body } => match as_bool(
            spec_encode(condition, env),
        ) {
            Err(err) => Err(err),
            Ok(c) => match as_bool(spec_encode(loop_invariant, env)) {
                Err(err) => Err(err),
                Ok(inv) => match spec_wp_block(body, env, inv) {
                    Err(err) => Err(err),
                    Ok(loop_wp) => Ok(
                        mk_and(
                            inv,
                            BoolTerm::Forall(
                                Box::new(
                                    mk_and(
                                        mk_implies(mk_and(c, inv), loop_wp),
                                        mk_implies(mk_and(mk_not(c), inv), post),
                                    ),
                                ),
                            ),
                        ),
                    ),
                },
            },
        },
        _ => Err(CompileError::BadStatement),
    }
}

/// The weakest precondition of a sequence of statements, computed from the last statement
/// back to the first.
pub open spec fn spec_wp_block(b: Seq<StmtV>, env: Seq<Seq<char>>, post: BoolTerm) -> Result<
    BoolTerm,
    CompileError,
>
    decreases b,
{
    if b.len() == 0 {
        Ok(post)
    } else {
        match spec_wp(b.last(), env, post) {
            Err(err) => Err(err),
            Ok(q) => spec_wp_block(b.drop_last(), env, q),
        }
    }
}

/// A copy of an integer term.
pub fn copy_int(t: &IntTerm) -> (r: IntTerm)
    ensures
        r == *t,
    decreases t,
{
    match t {
        IntTerm::Lit(n) => IntTerm::Lit(*n),
        IntTerm::Var(j) => IntTerm::Var(*j),
        IntTerm::Add(a, b) => IntTerm::Add(Box::new(copy_int(a)), Box::new(copy_int(b))),
        IntTerm::Sub(a, b) => IntTerm::Sub(Box::new(copy_int(a)), Box::new(copy_int(b))),
        IntTerm::Mul(a, b) => IntTerm::Mul(Box::new(copy_int(a)), Box::new(copy_int(b))),
        IntTerm::Div(a, b) => IntTerm::Div(Box::new(copy_int(a)), Box::new(copy_int(b))),
    }
}

/// A copy of a formula.
pub fn copy_bool(f: &BoolTerm) -> (r: BoolTerm)
    ensures
        r == *f,
    decreases f,
{
    match f {
        BoolTerm::Lit(b) => BoolTerm::Lit(*b),
        BoolTerm::IntEq(a, b) => BoolTerm::IntEq(Box::new(copy_int(a)), Box::new(copy_int(b))),
        BoolTerm::IntNe(a, b) => BoolTerm::IntNe(Box::new(copy_int(a)), Box::new(copy_int(b))),
        BoolTerm::Lt(a, b) => BoolTerm::Lt(Box::new(copy_int(a)), Box::new(copy_int(b))),
        BoolTerm::Gt(a, b) => BoolTerm::Gt(Box::new(copy_int(a)), Box::new(copy_int(b))),
        BoolTerm::Le(a, b) => BoolTerm::Le(Box::new(copy_int(a)), Box::new(copy_int(b))),
        BoolTerm::Ge(a, b) => BoolTerm::Ge(Box::new(copy_int(a)), Box::new(copy_int(b))),
        BoolTerm::BoolEq(p, q) => BoolTerm::BoolEq(Box::new(copy_bool(p)), Box::new(copy_bool(q))),
        BoolTerm::BoolNe(p, q) => BoolTerm::BoolNe(Box::new(copy_bool(p)), Box::new(copy_bool(q))),
        BoolTerm::And(p, q) => BoolTerm::And(Box::new(copy_bool(p)), Box::new(copy_bool(q))),
        BoolTerm::Or(p, q) => BoolTerm::Or(Box::new(copy_bool(p)), Box::new(copy_bool(q))),
        BoolTerm::Implies(p, q) => BoolTerm::Implies(Box::new(copy_bool(p)), Box::new(copy_bool(q))),
        BoolTerm::Not(p) => BoolTerm::Not(Box::new(copy_bool(p))),
        BoolTerm::Forall(p) => BoolTerm::Forall(Box::new(copy_bool(p))),
    }
}

/// Replaces variable `i` by `r` in an integer term.
pub fn substitute_int(t: &IntTerm, i: usize, r: &IntTerm) -> (out: IntTerm)
    ensures
        out == subst_int(*t, i, *r),
    decreases t,
{
    match t {
        IntTerm::Lit(n) => IntTerm::Lit(*n),
        IntTerm::Var(j) => if *j == i {
            copy_int(r)
        } else {
            IntTerm::Var(*j)
        },
        IntTerm::Add(a, b) => IntTerm::Add(Box::new(substitute_int(a, i, r)), Box::new(substitute_int(b, i, r))),
        IntTerm::Sub(a, b) => IntTerm::Sub(Box::new(substitute_int(a, i, r)), Box::new(substitute_int(b, i, r))),
        IntTerm::Mul(a, b) => IntTerm::Mul(Box::new(substitute_int(a, i, r)), Box::new(substitute_int(b, i, r))),
        IntTerm::Div(a, b) => IntTerm::Div(Box::new(substitute_int(a, i, r)), Box::new(substitute_int(b, i, r))),
    }
}

/// Replaces the free occurrences of variable `i` by `r` in a formula.
pub fn substitute_bool(f: &BoolTerm, i: usize, r: &IntTerm) -> (out: BoolTerm)
    ensures
        out == subst_bool(*f, i, *r),
    decreases f,
{
    match f {
        BoolTerm::Lit(b) => BoolTerm::Lit(*b),
        BoolTerm::IntEq(a, b) => BoolTerm::IntEq(Box::new(substitute_int(a, i, r)), Box::new(substitute_int(b, i, r))),
        BoolTerm::IntNe(a, b) => BoolTerm::IntNe(Box::new(substitute_int(a, i, r)), Box::new(substitute_int(b, i, r))),
        BoolTerm::Lt(a, b) => BoolTerm::Lt(Box::new(substitute_int(a, i, r)), Box::new(substitute_int(b, i, r))),
        BoolTerm::Gt(a, b) => BoolTerm::Gt(Box::new(substitute_int(a, i, r)), Box::new(substitute_int(b, i, r))),
        BoolTerm::Le(a, b) => BoolTerm::Le(Box::new(substitute_int(a, i, r)), Box::new(substitute_int(b, i, r))),
        BoolTerm::Ge(a, b) => BoolTerm::Ge(Box::new(substitute_int(a, i, r)), Box::new(substitute_int(b, i, r))),
        BoolTerm::BoolEq(p, q) => BoolTerm::BoolEq(Box::new(substitute_bool(p, i, r)), Box::new(substitute_bool(q, i, r))),
        BoolTerm::BoolNe(p, q) => BoolTerm::BoolNe(Box::new(substitute_bool(p, i, r)), Box::new(substitute_bool(q, i, r))),
        BoolTerm::And(p, q) => BoolTerm::And(Box::new(substitute_bool(p, i, r)), Box::new(substitute_bool(q, i, r))),
        BoolTerm::Or(p, q) => BoolTerm::Or(Box::new(substitute_bool(p, i, r)), Box::new(substitute_bool(q, i, r))),
        BoolTerm::Implies(p, q) => BoolTerm::Implies(Box::new(substitute_bool(p, i, r)), Box::new(substitute_bool(q, i, r))),
        BoolTerm::Not(p) => BoolTerm::Not(Box::new(substitute_bool(p, i, r))),
        BoolTerm::Forall(p) => BoolTerm::Forall(Box::new(copy_bool(p))),
    }
}

impl Encoding {
    /// Evaluates the encoding of a boolean expression.
    pub fn eval_bool(&self) -> (r: Result<BoolTerm, CompileError>)
        ensures
            r == as_bool(Ok(*self)),
    {
        match self {
            Encoding::Bool(p) => Ok(copy_bool(p)),
            _ => Err(CompileError::BadExpression),
        }
    }

    /// Evaluates the encoding of an arithmetic expression.
    pub fn eval_int(&self) -> (r: Result<IntTerm, CompileError>)
        ensures
            r == as_int(Ok(*self)),
    {
        match self {
            Encoding::Int(t) => Ok(copy_int(t)),
            _ => Err(CompileError::BadExpression),
        }
    }
}

fn combine_terms(a: Encoding, op: Symbol, b: Encoding) -> (r: Result<Encoding, CompileError>)
    ensures
        r == combine(a, op, b),
{
    match (a, b) {
        (Encoding::Int(x), Encoding::Int(y)) => {
            let (x, y) = (Box::new(x), Box::new(y));
            match op {
                Symbol::Add => Ok(Encoding::Int(IntTerm::Add(x, y))),
                Symbol::Sub => Ok(Encoding::Int(IntTerm::Sub(x, y))),
                Symbol::Mul => Ok(Encoding::Int(IntTerm::Mul(x, y))),
                Symbol::Div => Ok(Encoding::Int(IntTerm::Div(x, y))),
                Symbol::Lt => Ok(Encoding::Bool(BoolTerm::Lt(x, y))),
                Symbol::Gt => Ok(Encoding::Bool(BoolTerm::Gt(x, y))),
                Symbol::Le => Ok(Encoding::Bool(BoolTerm::Le(x, y))),
                Symbol::Ge => Ok(Encoding::Bool(BoolTerm::Ge(x, y))),
                Symbol::Eq => Ok(Encoding::Bool(BoolTerm::IntEq(x, y))),
                Symbol::Neq => Ok(Encoding::Bool(BoolTerm::IntNe(x, y))),
                _ => Err(CompileError::BadExpression),
            }
        },
        (Encoding::Bool(p), Encoding::Bool(q)) => {
            let (p, q) = (Box::new(p), Box::new(q));
            match op {
                Symbol::Eq => Ok(Encoding::Bool(BoolTerm::BoolEq(p, q))),
                Symbol::Neq => Ok(Encoding::Bool(BoolTerm::BoolNe(p, q))),
                Symbol::And => Ok(Encoding::Bool(BoolTerm::And(p, q))),
                Symbol::Or => Ok(Encoding::Bool(BoolTerm::Or(p, q))),
                _ => Err(CompileError::BadExpression),
            }
        },
        _ => Err(CompileError::BadExpression),
    }
}

impl Expr {
    /// Encodes an expression into a term that can be evaluated.
    pub fn smt_encode(&self, env: &Env) -> (r: Result<Encoding, CompileError>)
        ensures
            r == spec_encode(self@, env@),
        decreases self,
    {
        match self {
            Expr::Boolean(b) => Ok(Encoding::Bool(BoolTerm::Lit(*b))),
            Expr::Integer(i) => Ok(Encoding::Int(IntTerm::Lit(*i))),
            Expr::Variable(x) => match env.index_of(x) {
                Some(k) => Ok(Encoding::Int(IntTerm::Var(k))),
                None => Err(CompileError::UnboundVariable),
            },
            Expr::BinOp { lhs, op, rhs } => {
                let a = match lhs.smt_encode(env) {
                    Ok(a) => a,
                    Err(err) => {
                        return Err(err);
                    },
                };
                let b = match rhs.smt_encode(env) {
                    Ok(b) => b,
                    Err(err) => {
                        return Err(err);
                    },
                };
                combine_terms(a, *op, b)
            },
        }
    }
}

fn implies_term(p: BoolTerm, q: BoolTerm) -> (r: BoolTerm)
    ensures
        r == mk_implies(p, q),
{
    BoolTerm::Implies(Box::new(p), Box::new(q))
}

fn and_term(p: BoolTerm, q: BoolTerm) -> (r: BoolTerm)
    ensures
        r == mk_and(p, q),
{
    BoolTerm::And(Box::new(p), Box::new(q))
}

fn not_term(p: BoolTerm) -> (r: BoolTerm)
    ensures
        r == mk_not(p),
{
    BoolTerm::Not(Box::new(p))
}

impl Stmt {
    /// Calculates the weakest precondition of a statement.
    ///
    /// See: <https://en.wikipedia.org/wiki/Predicate_transformer_semantics#Weakest_preconditions>
    #[verifier::spinoff_prover]
    pub fn wp(&self, env: &Env, post: &BoolTerm) -> (r: Result<BoolTerm, CompileError>)
        ensures
            r == spec_wp(self@, env@, *post),
        decreases self,
    {
        match self {
            Stmt::Declare(_) => Err(CompileError::InvalidDeclaration),
            Stmt::Assume(expr) => {
                let c = match expr.smt_encode(env) {
                    Ok(enc) => enc.eval_bool(),
                    Err(err) => Err(err),
                };
                match c {
                    Ok(c) => Ok(implies_term(c, copy_bool(post))),
                    Err(err) => Err(err),
                }
            },
            Stmt::Assert(expr) => {
                let c = match expr.smt_encode(env) {
                    Ok(enc) => enc.eval_bool(),
                    Err(err) => Err(err),
                };
                match c {
                    Ok(c) => {
                        let p = implies_term(copy_bool(&c), copy_bool(post));
                        let q = implies_term(not_term(c), BoolTerm::Lit(false));
                        Ok(and_term(p, q))
                    },
                    Err(err) => Err(err),
                }
            },
            Stmt::Assign(id, expr) => match env.index_of(id) {
                Some(k) => {
                    let t = match expr.smt_encode(env) {
                        Ok(enc) => enc.eval_int(),
                        Err(err) => Err(err),
                    };
                    match t {
                        Ok(t) => Ok(substitute_bool(post, k, &t)),
                        Err(err) => Err(err),
                    }
                },
                None => Err(CompileError::UnboundVariable),
            },
            Stmt::If { condition, then_branch, else_branch } => {
                let c = match condition.smt_encode(env) {
                    Ok(enc) => enc.eval_bool(),
                    Err(err) => Err(err),
                };
                let c = match c {
                    Ok(c) => c,
                    Err(err) => {
                        return Err(err);
                    },
                };
                let then_wp = match then_branch.wp(env, post) {
                    Ok(q) => q,
                    Err(err) => {
                        return Err(err);
                    },
                };
                let else_wp = match else_branch {
                    Some(block) => match block.wp(env, post) {
                        Ok(q) => q,
                        Err(err) => {
                            return Err(err);
                        },
                    },
                    None => copy_bool(post),
                };
                Ok(
                    and_term(
                        implies_term(copy_bool(&c), then_wp),
                        implies_term(not_term(c), else_wp),
                    ),
                )
            },
            Stmt::While { condition, loop_invariant, body } => {
                let c = match condition.smt_encode(env) {
                    Ok(enc) => enc.eval_bool(),
                    Err(err) => Err(err),
                };
                let c = match c {
                    Ok(c) => c,
                    Err(err) => {
                        return Err(err);
                    },
                };
                let inv = match loop_invariant.smt_encode(env) {
                    Ok(enc) => enc.eval_bool(),
                    Err(err) => Err(err),
                };
                let inv = match inv {
                    Ok(inv) => inv,
                    Err(err) => {
                        return Err(err);
                    },
                };
                let loop_wp = match body.wp(env, &inv) {
                    Ok(q) => q,
                    Err(err) => {
                        return Err(err);
                    },
                };
                let step = implies_term(and_term(copy_bool(&c), copy_bool(&inv)), loop_wp);
                let exit = implies_term(and_term(not_term(c), copy_bool(&inv)), copy_bool(post));
                Ok(and_term(inv, BoolTerm::Forall(Box::new(and_term(step, exit)))))
            },
            _ => Err(CompileError::BadStatement),
        }
    }
}

impl Block {
    /// Calculates the weakest precondition for a sequence of statements.
    pub fn wp(&self, env: &Env, post: &BoolTerm) -> (r: Result<BoolTerm, CompileError>)
        ensures
            r == spec_wp_block(self@, env@, *post),
        decreases self,
    {
        let ghost b = self@;
        proof {
            lemma_stmts_view(self.0@);
        }
        let mut expr = copy_bool(post);
        let mut i = self.0.len();
        assert(b.take(i as int) =~= b);
        while i > 0
            invariant
                b == self@,
                b.len() == self.0@.len(),
                forall|k: int| 0 <= k < b.len() ==> #[trigger] b[k] == stmt_view(self.0@[k]),
                i <= self.0@.len(),
                spec_wp_block(b, env@, *post) == spec_wp_block(b.take(i as int), env@, expr),
            decreases i,
        {
            i = i - 1;
            assert(b.take(i + 1).drop_last() =~= b.take(i as int));
            assert(b.take(i + 1).last() == b[i as int]);
            expr = match self.0[i].wp(env, &expr) {
                Ok(q) => q,
                Err(err) => {
                    return Err(err);
                },
            };
        }
        assert(b.take(0) =~= Seq::<StmtV>::empty());
        Ok(expr)
    }
}

/// The formula that is always true.
pub open spec fn truth() -> BoolTerm {
    BoolTerm::Lit(true)
}

/// The verification condition of a program whose declared variables are `env`: the weakest
/// precondition of the program for the postcondition `TRUE`, under the precondition `TRUE`.
pub open spec fn spec_vc(b: Seq<StmtV>, env: Seq<Seq<char>>) -> Result<(BoolTerm, Seq<Seq<char>>), CompileError> {
    match spec_wp_block(b, env, truth()) {
        Ok(q) => Ok((mk_implies(truth(), q), env)),
        Err(e) => Err(e),
    }
}

/// Compiles a program: the verification condition and the declared variables, and the
/// statements that are left in the program afterwards. A leading declaration is removed
/// from the program when its names are distinct; no other declaration is allowed.
pub open spec fn spec_compile(b: Seq<StmtV>) -> (Result<(BoolTerm, Seq<Seq<char>>), CompileError>, Seq<StmtV>) {
    if b.len() > 0 && b[0] is Declare {
        let ids = b[0]->Declare_0;
        if !ids.no_duplicates() {
            (Err(CompileError::AlreadyDeclared), b)
        } else {
            (spec_vc(b.drop_first(), ids), b.drop_first())
        }
    } else {
        (spec_vc(b, Seq::empty()), b)
    }
}

/// The mathematical value of the result of [compile].
pub open spec fn compile_result_view(r: Result<(BoolTerm, Env), CompileError>) -> Result<
    (BoolTerm, Seq<Seq<char>>),
    CompileError,
> {
    match r {
        Ok((vc, env)) => Ok((vc, env@)),
        Err(e) => Err(e),
    }
}

proof fn lemma_lookup_none(names: Seq<Seq<char>>, x: Seq<char>)
    ensures
        lookup(names, x) is None <==> !names.contains(x),
{
    lemma_index_from(names, x, 0);
    if names.contains(x) {
        let k = choose|k: int| 0 <= k < names.len() && names[k] == x;
        assert(names[k] == x);
    }
}

/// Generates a verification condition from a specification's AST.
///
/// A leading declaration is removed from the program (the only one allowed); the other
/// statements must not declare variables.
pub fn compile(ast: &mut Block) -> (r: Result<(BoolTerm, Env), CompileError>)
    requires
        old(ast).0.len() > 0,
    ensures
        (compile_result_view(r), final(ast)@) == spec_compile(old(ast)@),
        r matches Ok((vc, env)) ==> bool_scoped(vc, env@.len()),
{
    proof {
        lemma_compile_scoped(old(ast)@);
    }
    let mut env = Env::new();
    let ghost b = ast@;
    proof {
        lemma_stmts_view(ast.0@);
    }
    assert(b[0] == stmt_view(ast.0@[0]));
    let declared = match &ast.0[0] {
        Stmt::Declare(identifiers) => {
            let ghost ids = names_view(identifiers@);
            let mut k: usize = 0;
            while k < identifiers.len()
                invariant
                    k <= identifiers@.len(),
                    ids == names_view(identifiers@),
                    b == old(ast)@,
                    b.len() > 0,
                    b[0] == StmtV::Declare(ids),
                    ast@ == b,
                    env@ == ids.take(k as int),
                    ids.take(k as int).no_duplicates(),
                decreases identifiers.len() - k,
            {
                let x = identifiers[k].clone();
                let ghost before = env@;
                proof {
                    lemma_lookup_none(before, x@);
                }
                assert(x@ == ids[k as int]);
                if !env.declare(x) {
                    proof {
                        assert(before.contains(ids[k as int]));
                        let j = choose|j: int| 0 <= j < before.len() && before[j] == ids[k as int];
                        assert(before[j] == ids[j]);
                        assert(ids[j] == ids[k as int] && j != k);
                        assert(!ids.no_duplicates());
                    }
                    return Err(CompileError::AlreadyDeclared);
                }
                assert(ids.take(k + 1) =~= ids.take(k as int).push(ids[k as int]));
                k = k + 1;
            }
            assert(ids.take(k as int) =~= ids);
            true
        },
        _ => false,
    };
    if declared {
        // Removes the only allowed declaration; any additional declarations will cause an error.
        let ghost before = ast.0@;
        ast.0.remove(0);
        proof {
            lemma_stmts_view(before);
            lemma_stmts_view(ast.0@);
            assert(ast.0@ =~= before.drop_first());
            assert(stmts_view(ast.0@) =~= b.drop_first());
        }
    } else {
        assert(env@ =~= Seq::<Seq<char>>::empty());
    }
    // pre and post condition set to true
    let pre = BoolTerm::Lit(true);
    let post = BoolTerm::Lit(true);
    match ast.wp(&env, &post) {
        Ok(q) => Ok((implies_term(pre, q), env)),
        Err(err) => Err(err),
    }
}

/// Every variable of an integer term has an index below `n`.
pub open spec fn int_scoped(t: IntTerm, n: nat) -> bool
    decreases t,
{
    match t {
        IntTerm::Lit(_) => true,
        IntTerm::Var(j) => j < n,
        IntTerm::Add(a, b) => int_scoped(*a, n) && int_scoped(*b, n),
        IntTerm::Sub(a, b) => int_scoped(*a, n) && int_scoped(*b, n),
        IntTerm::Mul(a, b) => int_scoped(*a, n) && int_scoped(*b, n),
        IntTerm::Div(a, b) => int_scoped(*a, n) && int_scoped(*b, n),
    }
}

/// Every variable of a formula has an index below `n`.
pub open spec fn bool_scoped(f: BoolTerm, n: nat) -> bool
    decreases f,
{
    match f {
        BoolTerm::Lit(_) => true,
        BoolTerm::IntEq(a, b) => int_scoped(*a, n) && int_scoped(*b, n),
        BoolTerm::IntNe(a, b) => int_scoped(*a, n) && int_scoped(*b, n),
        BoolTerm::Lt(a, b) => int_scoped(*a, n) && int_scoped(*b, n),
        BoolTerm::Gt(a, b) => int_scoped(*a, n) && int_scoped(*b, n),
        BoolTerm::Le(a, b) => int_scoped(*a, n) && int_scoped(*b, n),
        BoolTerm::Ge(a, b) => int_scoped(*a, n) && int_scoped(*b, n),
        BoolTerm::BoolEq(p, q) => bool_scoped(*p, n) && bool_scoped(*q, n),
        BoolTerm::BoolNe(p, q) => bool_scoped(*p, n) && bool_scoped(*q, n),
        BoolTerm::And(p, q) => bool_scoped(*p, n) && bool_scoped(*q, n),
        BoolTerm::Or(p, q) => bool_scoped(*p, n) && bool_scoped(*q, n),
        BoolTerm::Implies(p, q) => bool_scoped(*p, n) && bool_scoped(*q, n),
        BoolTerm::Not(p) => bool_scoped(*p, n),
        BoolTerm::Forall(p) => bool_scoped(*p, n),
    }
}

/// The terms of an encoding only use declared variables.
pub proof fn lemma_encode_scoped(e: ExprV, env: Seq<Seq<char>>)
    ensures
        spec_encode(e, env) matches Ok(Encoding::Int(t)) ==> int_scoped(t, env.len()),
        spec_encode(e, env) matches Ok(Encoding::Bool(p)) ==> bool_scoped(p, env.len()),
    decreases e,
{
    match e {
        ExprV::Variable(x) => {
            lemma_index_from(env, x, 0);
        },
        ExprV::BinOp { lhs, op, rhs } => {
            lemma_encode_scoped(*lhs, env);
            lemma_encode_scoped(*rhs, env);
        },
        _ => {},
    }
}

proof fn lemma_subst_int_scoped(t: IntTerm, i: usize, r: IntTerm, n: nat)
    requires
        int_scoped(t, n),
        int_scoped(r, n),
    ensures
        int_scoped(subst_int(t, i, r), n),
    decreases t,
{
    match t {
        IntTerm::Add(a, b) => {
            lemma_subst_int_scoped(*a, i, r, n);
            lemma_subst_int_scoped(*b, i, r, n);
        },
        IntTerm::Sub(a, b) => {
            lemma_subst_int_scoped(*a, i, r, n);
            lemma_subst_int_scoped(*b, i, r, n);
        },
        IntTerm::Mul(a, b) => {
            lemma_subst_int_scoped(*a, i, r, n);
            lemma_subst_int_scoped(*b, i, r, n);
        },
        IntTerm::Div(a, b) => {
            lemma_subst_int_scoped(*a, i, r, n);
            lemma_subst_int_scoped(*b, i, r, n);
        },
        _ => {},
    }
}

proof fn lemma_subst_bool_scoped(f: BoolTerm, i: usize, r: IntTerm, n: nat)
    requires
        bool_scoped(f, n),
        int_scoped(r, n),
    ensures
        bool_scoped(subst_bool(f, i, r), n),
    decreases f,
{
    match f {
        BoolTerm::IntEq(a, b) | BoolTerm::IntNe(a, b) | BoolTerm::Lt(a, b) | BoolTerm::Gt(a, b)
        | BoolTerm::Le(a, b) | BoolTerm::Ge(a, b) => {
            lemma_subst_int_scoped(*a, i, r, n);
            lemma_subst_int_scoped(*b, i, r, n);
        },
        BoolTerm::BoolEq(p, q) | BoolTerm::BoolNe(p, q) | BoolTerm::And(p, q) | BoolTerm::Or(p, q)
        | BoolTerm::Implies(p, q) => {
            lemma_subst_bool_scoped(*p, i, r, n);
            lemma_subst_bool_scoped(*q, i, r, n);
        },
        BoolTerm::Not(p) => {
            lemma_subst_bool_scoped(*p, i, r, n);
        },
        _ => {},
    }
}

/// Weakest preconditions only use declared variables when the postcondition does.
pub proof fn lemma_wp_scoped(s: StmtV, env: Seq<Seq<char>>, post: BoolTerm)
    requires
        bool_scoped(post, env.len()),
    ensures
        spec_wp(s, env, post) matches Ok(q) ==> bool_scoped(q, env.len()),
    decreases s,
{
    reveal_with_fuel(bool_scoped, 4);
    match s {
        StmtV::Assume(e) => {
            lemma_encode_scoped(e, env);
            if let Ok(c) = as_bool(spec_encode(e, env)) {
                assert(bool_scoped(c, env.len()));
                assert(bool_scoped(mk_implies(c, post), env.len()));
            }
        },
        StmtV::Assert(e) => {
            lemma_encode_scoped(e, env);
            if let Ok(c) = as_bool(spec_encode(e, env)) {
                assert(bool_scoped(c, env.len()));
                assert(bool_scoped(mk_and(mk_implies(c, post), mk_implies(mk_not(c), BoolTerm::Lit(false))), env.len()));
            }
        },
        StmtV::Assign(x, e) => {
            lemma_encode_scoped(e, env);
            if let Some(k) = lookup(env, x) {
                if let Ok(t) = as_int(spec_encode(e, env)) {
                    assert(int_scoped(t, env.len()));
                    lemma_subst_bool_scoped(post, k as usize, t, env.len());
                }
            }
        },
        StmtV::If { condition, then_branch, else_branch } => {
            lemma_encode_scoped(condition, env);
            lemma_wp_block_scoped(then_branch, env, post);
            if let Some(b) = else_branch {
                lemma_wp_block_scoped(b, env, post);
            }
            if let Ok(c) = as_bool(spec_encode(condition, env)) {
                assert(bool_scoped(c, env.len()));
                if let Ok(tw) = spec_wp_block(then_branch, env, post) {
                    let ew = match else_branch {
                        Some(b) => spec_wp_block(b, env, post),
                        None => Ok(post),
                    };
                    if let Ok(ew) = ew {
                        assert(bool_scoped(ew, env.len()));
                        assert(bool_scoped(mk_and(mk_implies(c, tw), mk_implies(mk_not(c), ew)), env.len()));
                    }
                }
            }
        },
        StmtV::While { condition, loop_invariant, body } => {
            lemma_encode_scoped(condition, env);
            lemma_encode_scoped(loop_invariant, env);
            if let Ok(inv) = as_bool(spec_encode(loop_invariant, env)) {
                lemma_wp_block_scoped(body, env, inv);
                if let Ok(c) = as_bool(spec_encode(condition, env)) {
                    if let Ok(lw) = spec_wp_block(body, env, inv) {
                        let inner = mk_and(mk_implies(mk_and(c, inv), lw), mk_implies(mk_and(mk_not(c), inv), post));
                        assert(bool_scoped(inner, env.len()));
                        assert(bool_scoped(mk_and(inv, BoolTerm::Forall(Box::new(inner))), env.len()));
                    }
                }
            }
        },
        _ => {},
    }
}

/// Weakest preconditions of blocks only use declared variables when the postcondition does.
pub proof fn lemma_wp_block_scoped(b: Seq<StmtV>, env: Seq<Seq<char>>, post: BoolTerm)
    requires
        bool_scoped(post, env.len()),
    ensures
        spec_wp_block(b, env, post) matches Ok(q) ==> bool_scoped(q, env.len()),
    decreases b,
{
    if b.len() > 0 {
        lemma_wp_scoped(b.last(), env, post);
        if let Ok(q) = spec_wp(b.last(), env, post) {
            lemma_wp_block_scoped(b.drop_last(), env, q);
        }
    }
}

/// A verification condition only uses the declared variables.
pub proof fn lemma_compile_scoped(b: Seq<StmtV>)
    ensures
        spec_compile(b).0 matches Ok((vc, env)) ==> bool_scoped(vc, env.len()),
{
    reveal_with_fuel(bool_scoped, 2);
    if b.len() > 0 && b[0] is Declare {
        lemma_wp_block_scoped(b.drop_first(), b[0]->Declare_0, truth());
    } else {
        lemma_wp_block_scoped(b, Seq::empty(), truth());
    }
}

proof fn lemma_wp_block_declare(b: Seq<StmtV>, env: Seq<Seq<char>>, post: BoolTerm, i: int)
    requires
        0 <= i < b.len(),
        b[i] is Declare,
    ensures
        spec_wp_block(b, env, post) is Err,
    decreases b.len(),
{
    if i < b.len() - 1 {
        if let Ok(q) = spec_wp(b.last(), env, post) {
            assert(b.drop_last()[i] == b[i]);
            lemma_wp_block_declare(b.drop_last(), env, q, i);
        }
    }
}

/// **One declaration.** Variables may only be declared by the first statement: a program
/// with a declaration anywhere else does not compile.
pub proof fn theorem_single_declaration(b: Seq<StmtV>, i: int)
    requires
        1 <= i < b.len(),
        b[i] is Declare,
    ensures
        spec_compile(b).0 is Err,
{
    if b[0] is Declare {
        if b[0]->Declare_0.no_duplicates() {
            assert(b.drop_first()[i - 1] == b[i]);
            lemma_wp_block_declare(b.drop_first(), b[0]->Declare_0, truth(), i - 1);
        }
    } else {
        lemma_wp_block_declare(b, Seq::empty(), truth(), i);
    }
}

/// **Sequential composition.** The weakest precondition of a block whose statements are
/// those of `s1` followed by those of `s2` is the weakest precondition of `s1` for the
/// weakest precondition of `s2`; later statements are processed first, and the empty block
/// leaves the postcondition as it is.
pub proof fn theorem_wp_block_split(s1: Seq<StmtV>, s2: Seq<StmtV>, env: Seq<Seq<char>>, q: BoolTerm)
    ensures
        spec_wp_block(Seq::empty(), env, q) == Ok::<BoolTerm, CompileError>(q),
        spec_wp_block(s1 + s2, env, q) == match spec_wp_block(s2, env, q) {
            Err(e) => Err(e),
            Ok(r) => spec_wp_block(s1, env, r),
        },
    decreases s2.len(),
{
    if s2.len() == 0 {
        assert(s1 + s2 =~= s1);
    } else {
        assert((s1 + s2).last() == s2.last());
        assert((s1 + s2).drop_last() =~= s1 + s2.drop_last());
        match spec_wp(s2.last(), env, q) {
            Err(_) => {},
            Ok(r) => {
                theorem_wp_block_split(s1, s2.drop_last(), env, r);
            },
        }
    }
}

/// **The declared variables.** A program that starts by declaring the names `ns` compiles
/// over exactly those variables, in the order of the declaration, and the rest of the
/// program is what the condition is about; a name declared twice is refused. A program
/// without a declaration has no variables.
pub proof fn theorem_declared_variables(ns: Seq<Seq<char>>, rest: Seq<StmtV>)
    ensures
        !ns.no_duplicates() ==> spec_compile(seq![StmtV::Declare(ns)] + rest).0
            == Err::<(BoolTerm, Seq<Seq<char>>), CompileError>(CompileError::AlreadyDeclared),
        spec_compile(seq![StmtV::Declare(ns)] + rest).0 is Ok ==> spec_compile(seq![StmtV::Declare(ns)] + rest).0->Ok_0.1 == ns
            && spec_compile(seq![StmtV::Declare(ns)] + rest).1 == rest,
        rest.len() > 0 && !(rest[0] is Declare) && spec_compile(rest).0 is Ok ==> spec_compile(rest).0->Ok_0.1
            == Seq::<Seq<char>>::empty(),
{
    let b = seq![StmtV::Declare(ns)] + rest;
    assert(b[0] == StmtV::Declare(ns));
    assert(b.drop_first() =~= rest);
}

} // verus!
