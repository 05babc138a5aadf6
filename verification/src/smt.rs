//! Checking verification conditions with the Z3 SMT solver.
//!
//! A verification condition is valid when its negation is unsatisfiable. The formula is
//! rebuilt as a Z3 term, with the integer constant named `v` and `i` for variable `i`, and the
//! solver is asked about its negation.
//!
//! Each Z3 term is kept together with the formula of integer arithmetic that it stands for
//! ([ZInt], [ZBool]), which the trusted wrappers of Z3's constructors state; lowering is
//! proved to keep the meaning of the condition, so the solver's answer says whether the
//! condition is valid.

use vstd::prelude::*;
use crate::compiler::{BoolTerm, Env, IntTerm, bool_scoped, int_scoped};
use crate::semantics::{holds, int_value, lemma_floor_div_product, valid};

verus! {

#[verifier::external_type_specification]
#[verifier::external_body]
pub struct ExZ3Bool(z3::ast::Bool);

#[verifier::external_type_specification]
#[verifier::external_body]
pub struct ExZ3Int(z3::ast::Int);

#[verifier::external_type_specification]
#[verifier::external_body]
pub struct ExZ3Solver(z3::Solver);

#[verifier::external_type_specification]
#[verifier::external_body]
pub struct ExZ3Model(z3::Model);

/// The answer of the solver to a satisfiability query.
#[derive(Debug, Clone, Copy, PartialEq, Eq, Structural)]
pub enum SatAnswer {
    Unsat,
    Unknown,
    Sat,
}

/// An integer term of Z3, as a formula of integer arithmetic over numbered constants.
pub enum ZInt {
    Num(int),
    /// The integer constant with the given number.
    Const(nat),
    Add(Box<ZInt>, Box<ZInt>),
    Sub(Box<ZInt>, Box<ZInt>),
    Mul(Box<ZInt>, Box<ZInt>),
    /// Integer division as in SMT-LIB: the remainder is never negative.
    Div(Box<ZInt>, Box<ZInt>),
}

/// A boolean term of Z3.
pub enum ZBool {
    Lit(bool),
    IntEq(Box<ZInt>, Box<ZInt>),
    IntNe(Box<ZInt>, Box<ZInt>),
    Lt(Box<ZInt>, Box<ZInt>),
    Gt(Box<ZInt>, Box<ZInt>),
    Le(Box<ZInt>, Box<ZInt>),
    Ge(Box<ZInt>, Box<ZInt>),
    BoolEq(Box<ZBool>, Box<ZBool>),
    BoolNe(Box<ZBool>, Box<ZBool>),
    And(Box<ZBool>, Box<ZBool>),
    Or(Box<ZBool>, Box<ZBool>),
    Implies(Box<ZBool>, Box<ZBool>),
    Not(Box<ZBool>),
    /// The body holds for all values of the listed constants.
    Forall(Seq<nat>, Box<ZBool>),
}

/// The value of a Z3 integer term when constant `k` has the value `s[k]`.
pub open spec fn zint_value(t: ZInt, s: Seq<int>) -> int
    decreases t,
{
    match t {
        ZInt::Num(v) => v,
        ZInt::Const(k) => s[k as int],
        ZInt::Add(x, y) => zint_value(*x, s) + zint_value(*y, s),
        ZInt::Sub(x, y) => zint_value(*x, s) - zint_value(*y, s),
        ZInt::Mul(x, y) => zint_value(*x, s) * zint_value(*y, s),
        ZInt::Div(x, y) => zint_value(*x, s) / zint_value(*y, s),
    }
}

/// Two states that differ at most on the constants `ks`.
pub open spec fn agree_outside(s: Seq<int>, s2: Seq<int>, ks: Seq<nat>) -> bool {
    forall|k: int| 0 <= k < s.len() && !ks.contains(k as nat) ==> s2[k] == s[k]
}

/// Whether a Z3 boolean term holds when constant `k` has the value `s[k]`.
pub open spec fn zholds(f: ZBool, s: Seq<int>) -> bool
    decreases f,
{
    match f {
        ZBool::Lit(b) => b,
        ZBool::IntEq(x, y) => zint_value(*x, s) == zint_value(*y, s),
        ZBool::IntNe(x, y) => zint_value(*x, s) != zint_value(*y, s),
        ZBool::Lt(x, y) => zint_value(*x, s) < zint_value(*y, s),
        ZBool::Gt(x, y) => zint_value(*x, s) > zint_value(*y, s),
        ZBool::Le(x, y) => zint_value(*x, s) <= zint_value(*y, s),
        ZBool::Ge(x, y) => zint_value(*x, s) >= zint_value(*y, s),
        ZBool::BoolEq(p, q) => zholds(*p, s) == zholds(*q, s),
        ZBool::BoolNe(p, q) => zholds(*p, s) != zholds(*q, s),
        ZBool::And(p, q) => zholds(*p, s) && zholds(*q, s),
        ZBool::Or(p, q) => zholds(*p, s) || zholds(*q, s),
        ZBool::Implies(p, q) => zholds(*p, s) ==> zholds(*q, s),
        ZBool::Not(p) => !zholds(*p, s),
        ZBool::Forall(ks, p) => forall|s2: Seq<int>|
            #[trigger] s2.len() == s.len() && agree_outside(s, s2, ks) ==> zholds(*p, s2),
    }
}

/// Every constant of a Z3 integer term is numbered below `n`.
pub open spec fn zint_below(t: ZInt, n: nat) -> bool
    decreases t,
{
    match t {
        ZInt::Num(_) => true,
        ZInt::Const(k) => k < n,
        ZInt::Add(x, y) => zint_below(*x, n) && zint_below(*y, n),
        ZInt::Sub(x, y) => zint_below(*x, n) && zint_below(*y, n),
        ZInt::Mul(x, y) => zint_below(*x, n) && zint_below(*y, n),
        ZInt::Div(x, y) => zint_below(*x, n) && zint_below(*y, n),
    }
}

/// Every constant of a Z3 boolean term is numbered below `n`.
pub open spec fn zbool_below(f: ZBool, n: nat) -> bool
    decreases f,
{
    match f {
        ZBool::Lit(_) => true,
        ZBool::IntEq(x, y) => zint_below(*x, n) && zint_below(*y, n),
        ZBool::IntNe(x, y) => zint_below(*x, n) && zint_below(*y, n),
        ZBool::Lt(x, y) => zint_below(*x, n) && zint_below(*y, n),
        ZBool::Gt(x, y) => zint_below(*x, n) && zint_below(*y, n),
        ZBool::Le(x, y) => zint_below(*x, n) && zint_below(*y, n),
        ZBool::Ge(x, y) => zint_below(*x, n) && zint_below(*y, n),
        ZBool::BoolEq(p, q) => zbool_below(*p, n) && zbool_below(*q, n),
        ZBool::BoolNe(p, q) => zbool_below(*p, n) && zbool_below(*q, n),
        ZBool::And(p, q) => zbool_below(*p, n) && zbool_below(*q, n),
        ZBool::Or(p, q) => zbool_below(*p, n) && zbool_below(*q, n),
        ZBool::Implies(p, q) => zbool_below(*p, n) && zbool_below(*q, n),
        ZBool::Not(p) => zbool_below(*p, n),
        ZBool::Forall(_, p) => zbool_below(*p, n),
    }
}

/// A Z3 integer term without division.
pub open spec fn zint_div_free(t: ZInt) -> bool
    decreases t,
{
    match t {
        ZInt::Num(_) => true,
        ZInt::Const(_) => true,
        ZInt::Add(x, y) => zint_div_free(*x) && zint_div_free(*y),
        ZInt::Sub(x, y) => zint_div_free(*x) && zint_div_free(*y),
        ZInt::Mul(x, y) => zint_div_free(*x) && zint_div_free(*y),
        ZInt::Div(_, _) => false,
    }
}

/// A Z3 boolean term without division.
pub open spec fn zbool_div_free(f: ZBool) -> bool
    decreases f,
{
    match f {
        ZBool::Lit(_) => true,
        ZBool::IntEq(x, y) => zint_div_free(*x) && zint_div_free(*y),
        ZBool::IntNe(x, y) => zint_div_free(*x) && zint_div_free(*y),
        ZBool::Lt(x, y) => zint_div_free(*x) && zint_div_free(*y),
        ZBool::Gt(x, y) => zint_div_free(*x) && zint_div_free(*y),
        ZBool::Le(x, y) => zint_div_free(*x) && zint_div_free(*y),
        ZBool::Ge(x, y) => zint_div_free(*x) && zint_div_free(*y),
        ZBool::BoolEq(p, q) => zbool_div_free(*p) && zbool_div_free(*q),
        ZBool::BoolNe(p, q) => zbool_div_free(*p) && zbool_div_free(*q),
        ZBool::And(p, q) => zbool_div_free(*p) && zbool_div_free(*q),
        ZBool::Or(p, q) => zbool_div_free(*p) && zbool_div_free(*q),
        ZBool::Implies(p, q) => zbool_div_free(*p) && zbool_div_free(*q),
        ZBool::Not(p) => zbool_div_free(*p),
        ZBool::Forall(_, p) => zbool_div_free(*p),
    }
}

/// Whether all the formulas hold in a state.
pub open spec fn all_hold(fs: Seq<ZBool>, s: Seq<int>) -> bool {
    forall|k: int| 0 <= k < fs.len() ==> zholds(#[trigger] fs[k], s)
}

/// Every constant of the formulas is numbered below `n`.
pub open spec fn all_below(fs: Seq<ZBool>, n: nat) -> bool {
    forall|k: int| 0 <= k < fs.len() ==> zbool_below(#[trigger] fs[k], n)
}

/// A Z3 integer term and the term of arithmetic that it stands for.
struct Z3Int {
    term: z3::ast::Int,
    model: Ghost<ZInt>,
}

/// A Z3 boolean term and the formula that it stands for.
struct Z3Bool {
    term: z3::ast::Bool,
    model: Ghost<ZBool>,
}

/// An integer constant of Z3, named by its number.
struct Z3Var {
    term: z3::ast::Int,
    index: Ghost<nat>,
}

/// A Z3 solver, the formulas asserted in it, and the answer of its last check since the
/// last assertion.
struct Z3Solver {
    solver: z3::Solver,
    asserted: Ghost<Seq<ZBool>>,
    answer: Ghost<Option<SatAnswer>>,
}

/// A Z3 model and the value that it fixes for each constant, if it fixes one; the
/// constants it leaves open are "don't cares".
struct Z3Model {
    model: z3::Model,
    fixed: Ghost<spec_fn(nat) -> Option<int>>,
}

/// A state agrees with the values that a model fixes.
pub open spec fn agrees(st: Seq<int>, fixed: spec_fn(nat) -> Option<int>) -> bool {
    forall|k: int| 0 <= k < st.len() ==> (#[trigger] fixed(k as nat) matches Some(v) ==> st[k] == v)
}

/// How Z3 prints the numeral `v`.
pub uninterp spec fn z3_numeral_text(v: int) -> Seq<char>;

/// The numbers of a sequence of constants.
spec fn var_indices(vs: Seq<Z3Var>) -> Seq<nat> {
    vs.map_values(|v: Z3Var| v.index@)
}

/// `z3::ast::Bool::from_bool`: the constant `b`.
#[verifier::external_body]
fn z3_bool_lit(b: bool) -> (r: Z3Bool)
    ensures
        r.model@ == ZBool::Lit(b),
{
    Z3Bool { term: z3::ast::Bool::from_bool(b), model: Ghost(ZBool::Lit(b)) }
}

/// `z3::ast::Int::from_i64`: the numeral `i`.
#[verifier::external_body]
fn z3_int_lit(i: i64) -> (r: Z3Int)
    ensures
        r.model@ == ZInt::Num(i as int),
{
    Z3Int { term: z3::ast::Int::from_i64(i), model: Ghost(ZInt::Num(i as int)) }
}

/// `z3::ast::Int::new_const` with the string symbol `v` followed by the decimal digits of
/// `i`: the integer constant so named. Constants of one sort with the same symbol are the
/// same constant, and with different symbols different ones; the symbol holds no NUL
/// character, which is all that `new_const` needs of it.
#[verifier::external_body]
fn z3_var(i: usize) -> (r: Z3Var)
    ensures
        r.index@ == i as nat,
{
    Z3Var { term: z3::ast::Int::new_const(format!("v{}", i)), index: Ghost(i as nat) }
}

/// `Clone` of `z3::ast::Int`, on a constant: the constant as a term.
#[verifier::external_body]
fn z3_var_term(v: &Z3Var) -> (r: Z3Int)
    ensures
        r.model@ == ZInt::Const(v.index@),
{
    Z3Int { term: v.term.clone(), model: Ghost(ZInt::Const(v.index@)) }
}

/// `Clone` of `z3::ast::Int`: the same term.
#[verifier::external_body]
fn z3_int_clone(x: &Z3Int) -> (r: Z3Int)
    ensures
        r.model@ == x.model@,
{
    Z3Int { term: x.term.clone(), model: Ghost(x.model@) }
}

/// `z3::ast::Int::add` of two terms: their sum.
#[verifier::external_body]
fn z3_add(a: &Z3Int, b: &Z3Int) -> (r: Z3Int)
    ensures
        r.model@ == ZInt::Add(Box::new(a.model@), Box::new(b.model@)),
{
    Z3Int { term: z3::ast::Int::add(&[&a.term, &b.term]), model: Ghost(ZInt::Add(Box::new(a.model@), Box::new(b.model@))) }
}

/// `z3::ast::Int::sub` of two terms: their difference.
#[verifier::external_body]
fn z3_sub(a: &Z3Int, b: &Z3Int) -> (r: Z3Int)
    ensures
        r.model@ == ZInt::Sub(Box::new(a.model@), Box::new(b.model@)),
{
    Z3Int { term: z3::ast::Int::sub(&[&a.term, &b.term]), model: Ghost(ZInt::Sub(Box::new(a.model@), Box::new(b.model@))) }
}

/// `z3::ast::Int::mul` of two terms: their product.
#[verifier::external_body]
fn z3_mul(a: &Z3Int, b: &Z3Int) -> (r: Z3Int)
    ensures
        r.model@ == ZInt::Mul(Box::new(a.model@), Box::new(b.model@)),
{
    Z3Int { term: z3::ast::Int::mul(&[&a.term, &b.term]), model: Ghost(ZInt::Mul(Box::new(a.model@), Box::new(b.model@))) }
}

/// `z3::ast::Int::div`: integer division as SMT-LIB defines it.
#[verifier::external_body]
fn z3_div(a: &Z3Int, b: &Z3Int) -> (r: Z3Int)
    ensures
        r.model@ == ZInt::Div(Box::new(a.model@), Box::new(b.model@)),
{
    Z3Int { term: a.term.div(&b.term), model: Ghost(ZInt::Div(Box::new(a.model@), Box::new(b.model@))) }
}

/// `z3::ast::Int::lt`.
#[verifier::external_body]
fn z3_lt(a: &Z3Int, b: &Z3Int) -> (r: Z3Bool)
    ensures
        r.model@ == ZBool::Lt(Box::new(a.model@), Box::new(b.model@)),
{
    Z3Bool { term: a.term.lt(&b.term), model: Ghost(ZBool::Lt(Box::new(a.model@), Box::new(b.model@))) }
}

/// `z3::ast::Int::gt`.
#[verifier::external_body]
fn z3_gt(a: &Z3Int, b: &Z3Int) -> (r: Z3Bool)
    ensures
        r.model@ == ZBool::Gt(Box::new(a.model@), Box::new(b.model@)),
{
    Z3Bool { term: a.term.gt(&b.term), model: Ghost(ZBool::Gt(Box::new(a.model@), Box::new(b.model@))) }
}

/// `z3::ast::Int::le`.
#[verifier::external_body]
fn z3_le(a: &Z3Int, b: &Z3Int) -> (r: Z3Bool)
    ensures
        r.model@ == ZBool::Le(Box::new(a.model@), Box::new(b.model@)),
{
    Z3Bool { term: a.term.le(&b.term), model: Ghost(ZBool::Le(Box::new(a.model@), Box::new(b.model@))) }
}

/// `z3::ast::Int::ge`.
#[verifier::external_body]
fn z3_ge(a: &Z3Int, b: &Z3Int) -> (r: Z3Bool)
    ensures
        r.model@ == ZBool::Ge(Box::new(a.model@), Box::new(b.model@)),
{
    Z3Bool { term: a.term.ge(&b.term), model: Ghost(ZBool::Ge(Box::new(a.model@), Box::new(b.model@))) }
}

/// `Ast::eq` on integer terms: their equality.
#[verifier::external_body]
fn z3_int_eq(a: &Z3Int, b: &Z3Int) -> (r: Z3Bool)
    ensures
        r.model@ == ZBool::IntEq(Box::new(a.model@), Box::new(b.model@)),
{
    Z3Bool { term: a.term.eq(&b.term), model: Ghost(ZBool::IntEq(Box::new(a.model@), Box::new(b.model@))) }
}

/// `Ast::ne` on integer terms: their disequality.
#[verifier::external_body]
fn z3_int_ne(a: &Z3Int, b: &Z3Int) -> (r: Z3Bool)
    ensures
        r.model@ == ZBool::IntNe(Box::new(a.model@), Box::new(b.model@)),
{
    Z3Bool { term: a.term.ne(&b.term), model: Ghost(ZBool::IntNe(Box::new(a.model@), Box::new(b.model@))) }
}

/// `Ast::eq` on boolean terms: their equivalence.
#[verifier::external_body]
fn z3_bool_eq(p: &Z3Bool, q: &Z3Bool) -> (r: Z3Bool)
    ensures
        r.model@ == ZBool::BoolEq(Box::new(p.model@), Box::new(q.model@)),
{
    Z3Bool { term: p.term.eq(&q.term), model: Ghost(ZBool::BoolEq(Box::new(p.model@), Box::new(q.model@))) }
}

/// `Ast::ne` on boolean terms: their difference.
#[verifier::external_body]
fn z3_bool_ne(p: &Z3Bool, q: &Z3Bool) -> (r: Z3Bool)
    ensures
        r.model@ == ZBool::BoolNe(Box::new(p.model@), Box::new(q.model@)),
{
    Z3Bool { term: p.term.ne(&q.term), model: Ghost(ZBool::BoolNe(Box::new(p.model@), Box::new(q.model@))) }
}

/// `z3::ast::Bool::and` of two terms: their conjunction.
#[verifier::external_body]
fn z3_and(p: &Z3Bool, q: &Z3Bool) -> (r: Z3Bool)
    ensures
        r.model@ == ZBool::And(Box::new(p.model@), Box::new(q.model@)),
{
    Z3Bool { term: z3::ast::Bool::and(&[&p.term, &q.term]), model: Ghost(ZBool::And(Box::new(p.model@), Box::new(q.model@))) }
}

/// `z3::ast::Bool::or` of two terms: their disjunction.
#[verifier::external_body]
fn z3_or(p: &Z3Bool, q: &Z3Bool) -> (r: Z3Bool)
    ensures
        r.model@ == ZBool::Or(Box::new(p.model@), Box::new(q.model@)),
{
    Z3Bool { term: z3::ast::Bool::or(&[&p.term, &q.term]), model: Ghost(ZBool::Or(Box::new(p.model@), Box::new(q.model@))) }
}

/// `z3::ast::Bool::implies`: the implication.
#[verifier::external_body]
fn z3_implies(p: &Z3Bool, q: &Z3Bool) -> (r: Z3Bool)
    ensures
        r.model@ == ZBool::Implies(Box::new(p.model@), Box::new(q.model@)),
{
    Z3Bool { term: p.term.implies(&q.term), model: Ghost(ZBool::Implies(Box::new(p.model@), Box::new(q.model@))) }
}

/// `z3::ast::Bool::not`: the negation.
#[verifier::external_body]
fn z3_not(p: &Z3Bool) -> (r: Z3Bool)
    ensures
        r.model@ == ZBool::Not(Box::new(p.model@)),
{
    Z3Bool { term: p.term.not(), model: Ghost(ZBool::Not(Box::new(p.model@))) }
}

/// `z3::ast::forall_const` over the given constants, without patterns: the body for all
/// values of the constants.
#[verifier::external_body]
fn z3_forall(bounds: &Vec<Z3Var>, body: &Z3Bool) -> (r: Z3Bool)
    ensures
        r.model@ == ZBool::Forall(var_indices(bounds@), Box::new(body.model@)),
{
    let terms: Vec<&dyn z3::ast::Ast> = bounds.iter().map(|v| &v.term as &dyn z3::ast::Ast).collect();
    Z3Bool { term: z3::ast::forall_const(&terms, &[], &body.term), model: Ghost(ZBool::Forall(var_indices(bounds@), Box::new(body.model@))) }
}

/// `z3::Solver::new`: a solver without assertions.
#[verifier::external_body]
fn z3_solver() -> (r: Z3Solver)
    ensures
        r.asserted@ == Seq::<ZBool>::empty(),
        r.answer@ is None,
{
    Z3Solver { solver: z3::Solver::new(), asserted: Ghost(Seq::empty()), answer: Ghost(None) }
}

/// `z3::Solver::assert`: adds a formula to the solver's assertions.
#[verifier::external_body]
fn z3_assert(s: &mut Z3Solver, f: &Z3Bool)
    ensures
        final(s).asserted@ == old(s).asserted@.push(f.model@),
        final(s).answer@ is None,
{
    s.solver.assert(&f.term)
}

/// `z3::Solver::check`: whether the assertions are satisfiable. `Unsat` means that no
/// values of the integer constants satisfy them, whatever values division by zero takes;
/// so no state that gives a value to each of their constants satisfies them, with division
/// as [zint_value] reads it. `Sat` means that values satisfying them exist; those come
/// with Z3's own reading of division by zero, so this is stated only of assertions without
/// division. `Unknown` says nothing.
#[verifier::external_body]
fn z3_check(s: &mut Z3Solver) -> (r: SatAnswer)
    ensures
        final(s).asserted@ == old(s).asserted@,
        final(s).answer@ == Some(r),
        r == SatAnswer::Unsat ==> forall|st: Seq<int>|
            all_below(old(s).asserted@, st.len()) ==> !#[trigger] all_hold(old(s).asserted@, st),
        r == SatAnswer::Sat && (forall|k: int| 0 <= k < old(s).asserted@.len() ==> zbool_div_free(#[trigger] old(s).asserted@[k]))
            ==> forall|n: nat| #[trigger] all_below(old(s).asserted@, n) ==> exists|st: Seq<int>|
            st.len() == n && #[trigger] all_hold(old(s).asserted@, st),
{
    match s.solver.check() {
        z3::SatResult::Unsat => SatAnswer::Unsat,
        z3::SatResult::Unknown => SatAnswer::Unknown,
        z3::SatResult::Sat => SatAnswer::Sat,
    }
}

/// `z3::Solver::get_model`: the model of the last check, if there is one. After a `Sat`
/// answer the model satisfies the assertions, and the constants that it leaves open are
/// don't cares: every state that agrees with the values it fixes satisfies them. As with
/// the check, this is stated only of assertions without division.
#[verifier::external_body]
fn z3_model(s: &Z3Solver) -> (r: Option<Z3Model>)
    ensures
        r matches Some(m) ==> (s.answer@ == Some(SatAnswer::Sat) && (forall|k: int|
            0 <= k < s.asserted@.len() ==> zbool_div_free(#[trigger] s.asserted@[k]))
            ==> forall|st: Seq<int>| all_below(s.asserted@, st.len()) && agrees(st, m.fixed@)
            ==> #[trigger] all_hold(s.asserted@, st)),
{
    match s.solver.get_model() {
        Some(model) => Some(Z3Model { model, fixed: Ghost(arbitrary()) }),
        None => None,
    }
}

/// `z3::Model::eval` without model completion, on a constant: its value, as a numeral,
/// when the model fixes one, and the constant itself when the model leaves it open.
#[verifier::external_body]
fn z3_eval(m: &Z3Model, x: &Z3Var) -> (r: Option<Z3Int>)
    ensures
        r matches Some(t) ==> match m.fixed@(x.index@) {
            Some(v) => t.model@ == ZInt::Num(v),
            None => t.model@ == ZInt::Const(x.index@),
        },
{
    match m.model.eval(&x.term, false) {
        Some(t) => Some(Z3Int { term: t, model: Ghost(arbitrary()) }),
        None => None,
    }
}

/// `PartialEq` of `z3::ast::Int`: whether a term is the constant itself. Terms are shared,
/// so it is the same term exactly when it stands for that constant.
#[verifier::external_body]
fn z3_same(a: &Z3Int, b: &Z3Var) -> (r: bool)
    ensures
        r == (a.model@ == ZInt::Const(b.index@)),
{
    a.term == b.term
}

/// `Display` of `z3::ast::Int`: the text of a term; for a numeral, the text of its value as
/// Z3 prints numerals.
#[verifier::external_body]
fn z3_int_text(x: &Z3Int) -> (r: String)
    ensures
        x.model@ matches ZInt::Num(v) ==> r@ == z3_numeral_text(v),
{
    format!("{}", x.term)
}

/// The Z3 term that an integer term is lowered to; floored division `x / y` becomes the
/// SMT-LIB division of `x * y` by `y * y`.
pub open spec fn zint_of(t: IntTerm) -> ZInt
    decreases t,
{
    match t {
        IntTerm::Lit(v) => ZInt::Num(v as int),
        IntTerm::Var(j) => ZInt::Const(j as nat),
        IntTerm::Add(x, y) => ZInt::Add(Box::new(zint_of(*x)), Box::new(zint_of(*y))),
        IntTerm::Sub(x, y) => ZInt::Sub(Box::new(zint_of(*x)), Box::new(zint_of(*y))),
        IntTerm::Mul(x, y) => ZInt::Mul(Box::new(zint_of(*x)), Box::new(zint_of(*y))),
        IntTerm::Div(x, y) => ZInt::Div(
            Box::new(ZInt::Mul(Box::new(zint_of(*x)), Box::new(zint_of(*y)))),
            Box::new(ZInt::Mul(Box::new(zint_of(*y)), Box::new(zint_of(*y)))),
        ),
    }
}

/// The numbers `0..n`.
pub open spec fn first_indices(n: nat) -> Seq<nat> {
    Seq::new(n, |k: int| k as nat)
}

/// The Z3 formula that a formula over `n` variables is lowered to.
pub open spec fn zbool_of(f: BoolTerm, n: nat) -> ZBool
    decreases f,
{
    match f {
        BoolTerm::Lit(b) => ZBool::Lit(b),
        BoolTerm::IntEq(x, y) => ZBool::IntEq(Box::new(zint_of(*x)), Box::new(zint_of(*y))),
        BoolTerm::IntNe(x, y) => ZBool::IntNe(Box::new(zint_of(*x)), Box::new(zint_of(*y))),
        BoolTerm::Lt(x, y) => ZBool::Lt(Box::new(zint_of(*x)), Box::new(zint_of(*y))),
        BoolTerm::Gt(x, y) => ZBool::Gt(Box::new(zint_of(*x)), Box::new(zint_of(*y))),
        BoolTerm::Le(x, y) => ZBool::Le(Box::new(zint_of(*x)), Box::new(zint_of(*y))),
        BoolTerm::Ge(x, y) => ZBool::Ge(Box::new(zint_of(*x)), Box::new(zint_of(*y))),
        BoolTerm::BoolEq(p, q) => ZBool::BoolEq(Box::new(zbool_of(*p, n)), Box::new(zbool_of(*q, n))),
        BoolTerm::BoolNe(p, q) => ZBool::BoolNe(Box::new(zbool_of(*p, n)), Box::new(zbool_of(*q, n))),
        BoolTerm::And(p, q) => ZBool::And(Box::new(zbool_of(*p, n)), Box::new(zbool_of(*q, n))),
        BoolTerm::Or(p, q) => ZBool::Or(Box::new(zbool_of(*p, n)), Box::new(zbool_of(*q, n))),
        BoolTerm::Implies(p, q) => ZBool::Implies(Box::new(zbool_of(*p, n)), Box::new(zbool_of(*q, n))),
        BoolTerm::Not(p) => ZBool::Not(Box::new(zbool_of(*p, n))),
        BoolTerm::Forall(p) => ZBool::Forall(first_indices(n), Box::new(zbool_of(*p, n))),
    }
}

/// An integer term without division.
pub open spec fn int_div_free(t: IntTerm) -> bool
    decreases t,
{
    match t {
        IntTerm::Lit(_) => true,
        IntTerm::Var(_) => true,
        IntTerm::Add(x, y) => int_div_free(*x) && int_div_free(*y),
        IntTerm::Sub(x, y) => int_div_free(*x) && int_div_free(*y),
        IntTerm::Mul(x, y) => int_div_free(*x) && int_div_free(*y),
        IntTerm::Div(_, _) => false,
    }
}

/// A formula without division.
pub open spec fn div_free(f: BoolTerm) -> bool
    decreases f,
{
    match f {
        BoolTerm::Lit(_) => true,
        BoolTerm::IntEq(x, y) => int_div_free(*x) && int_div_free(*y),
        BoolTerm::IntNe(x, y) => int_div_free(*x) && int_div_free(*y),
        BoolTerm::Lt(x, y) => int_div_free(*x) && int_div_free(*y),
        BoolTerm::Gt(x, y) => int_div_free(*x) && int_div_free(*y),
        BoolTerm::Le(x, y) => int_div_free(*x) && int_div_free(*y),
        BoolTerm::Ge(x, y) => int_div_free(*x) && int_div_free(*y),
        BoolTerm::BoolEq(p, q) => div_free(*p) && div_free(*q),
        BoolTerm::BoolNe(p, q) => div_free(*p) && div_free(*q),
        BoolTerm::And(p, q) => div_free(*p) && div_free(*q),
        BoolTerm::Or(p, q) => div_free(*p) && div_free(*q),
        BoolTerm::Implies(p, q) => div_free(*p) && div_free(*q),
        BoolTerm::Not(p) => div_free(*p),
        BoolTerm::Forall(p) => div_free(*p),
    }
}

/// Lowering keeps the value of an integer term over `n` variables, and its constants are
/// the variables.
proof fn lemma_zint_of(t: IntTerm, n: nat, s: Seq<int>)
    requires
        int_scoped(t, n),
        s.len() == n,
    ensures
        zint_value(zint_of(t), s) == int_value(t, s),
        zint_below(zint_of(t), n),
        int_div_free(t) ==> zint_div_free(zint_of(t)),
    decreases t,
{
    reveal_with_fuel(zint_value, 2);
    reveal_with_fuel(zint_below, 2);
    match t {
        IntTerm::Lit(_) => {},
        IntTerm::Var(_) => {},
        IntTerm::Add(x, y) | IntTerm::Sub(x, y) | IntTerm::Mul(x, y) => {
            lemma_zint_of(*x, n, s);
            lemma_zint_of(*y, n, s);
        },
        IntTerm::Div(x, y) => {
            lemma_zint_of(*x, n, s);
            lemma_zint_of(*y, n, s);
            lemma_floor_div_product(int_value(*x, s), int_value(*y, s));
        },
    }
}

/// Lowering keeps the meaning of a formula over `n` variables, and its constants are the
/// variables.
proof fn lemma_zbool_of(f: BoolTerm, n: nat, s: Seq<int>)
    requires
        bool_scoped(f, n),
        s.len() == n,
    ensures
        zholds(zbool_of(f, n), s) == holds(f, s),
        zbool_below(zbool_of(f, n), n),
        div_free(f) ==> zbool_div_free(zbool_of(f, n)),
    decreases f,
{
    match f {
        BoolTerm::Lit(_) => {},
        BoolTerm::IntEq(x, y) | BoolTerm::IntNe(x, y) | BoolTerm::Lt(x, y) | BoolTerm::Gt(x, y)
        | BoolTerm::Le(x, y) | BoolTerm::Ge(x, y) => {
            lemma_zint_of(*x, n, s);
            lemma_zint_of(*y, n, s);
        },
        BoolTerm::BoolEq(p, q) | BoolTerm::BoolNe(p, q) | BoolTerm::And(p, q) | BoolTerm::Or(p, q)
        | BoolTerm::Implies(p, q) => {
            lemma_zbool_of(*p, n, s);
            lemma_zbool_of(*q, n, s);
        },
        BoolTerm::Not(p) => {
            lemma_zbool_of(*p, n, s);
        },
        BoolTerm::Forall(p) => {
            let ks = first_indices(n);
            let zp = zbool_of(*p, n);
            lemma_zbool_of(*p, n, s);
            assert forall|s2: Seq<int>| #[trigger] s2.len() == s.len() implies agree_outside(s, s2, ks)
                && (zholds(zp, s2) == holds(*p, s2)) by {
                assert forall|k: int| 0 <= k < s.len() && !ks.contains(k as nat) implies s2[k] == s[k] by {
                    assert(ks[k] == k as nat);
                }
                lemma_zbool_of(*p, n, s2);
            }
            reveal_with_fuel(holds, 2);
            reveal_with_fuel(zholds, 2);
            assert(zholds(zbool_of(f, n), s) == holds(f, s));
        },
    }
}

/// Rebuilds an integer term in Z3, where `vars[i]` is the constant for variable `i`.
fn lower_int(t: &IntTerm, vars: &Vec<Z3Var>) -> (r: Z3Int)
    requires
        int_scoped(*t, vars@.len()),
        forall|k: int| 0 <= k < vars@.len() ==> #[trigger] vars@[k].index@ == k,
    ensures
        r.model@ == zint_of(*t),
    decreases t,
{
    match t {
        IntTerm::Lit(n) => z3_int_lit(*n),
        IntTerm::Var(j) => z3_var_term(&vars[*j]),
        IntTerm::Add(a, b) => z3_add(&lower_int(a, vars), &lower_int(b, vars)),
        IntTerm::Sub(a, b) => z3_sub(&lower_int(a, vars), &lower_int(b, vars)),
        IntTerm::Mul(a, b) => z3_mul(&lower_int(a, vars), &lower_int(b, vars)),
        IntTerm::Div(a, b) => {
            let x = lower_int(a, vars);
            let y = lower_int(b, vars);
            let y2 = z3_int_clone(&y);
            z3_div(&z3_mul(&x, &y), &z3_mul(&y, &y2))
        },
    }
}

/// Rebuilds a formula in Z3, where `vars[i]` is the constant for variable `i`; a
/// quantified formula binds all of `vars`.
fn lower_bool(f: &BoolTerm, vars: &Vec<Z3Var>) -> (r: Z3Bool)
    requires
        bool_scoped(*f, vars@.len()),
        forall|k: int| 0 <= k < vars@.len() ==> #[trigger] vars@[k].index@ == k,
    ensures
        r.model@ == zbool_of(*f, vars@.len()),
    decreases f,
{
    match f {
        BoolTerm::Lit(b) => z3_bool_lit(*b),
        BoolTerm::IntEq(a, b) => z3_int_eq(&lower_int(a, vars), &lower_int(b, vars)),
        BoolTerm::IntNe(a, b) => z3_int_ne(&lower_int(a, vars), &lower_int(b, vars)),
        BoolTerm::Lt(a, b) => z3_lt(&lower_int(a, vars), &lower_int(b, vars)),
        BoolTerm::Gt(a, b) => z3_gt(&lower_int(a, vars), &lower_int(b, vars)),
        BoolTerm::Le(a, b) => z3_le(&lower_int(a, vars), &lower_int(b, vars)),
        BoolTerm::Ge(a, b) => z3_ge(&lower_int(a, vars), &lower_int(b, vars)),
        BoolTerm::BoolEq(p, q) => z3_bool_eq(&lower_bool(p, vars), &lower_bool(q, vars)),
        BoolTerm::BoolNe(p, q) => z3_bool_ne(&lower_bool(p, vars), &lower_bool(q, vars)),
        BoolTerm::And(p, q) => z3_and(&lower_bool(p, vars), &lower_bool(q, vars)),
        BoolTerm::Or(p, q) => z3_or(&lower_bool(p, vars), &lower_bool(q, vars)),
        BoolTerm::Implies(p, q) => z3_implies(&lower_bool(p, vars), &lower_bool(q, vars)),
        BoolTerm::Not(p) => z3_not(&lower_bool(p, vars)),
        BoolTerm::Forall(p) => {
            let body = lower_bool(p, vars);
            assert(var_indices(vars@) =~= first_indices(vars@.len()));
            z3_forall(vars, &body)
        },
    }
}

/// A value that a counterexample gives to a variable, as the solver prints it.
#[derive(Debug, Clone, PartialEq, Eq)]
pub struct Assignment {
    pub name: String,
    pub value: String,
}

/// The outcome of checking a verification condition.
#[derive(Debug, Clone, PartialEq, Eq)]
pub enum SolverOutcome {
    /// The negation of the condition is unsatisfiable: the condition is valid.
    Unsat,
    /// The solver gave up.
    Unknown,
    /// The negation of the condition is satisfiable; the assignments of a model that it
    /// found, for the variables whose value the model fixes.
    Sat(Vec<Assignment>),
}

/// The mathematical value of a [SolverOutcome]: names and values are character sequences.
pub enum OutcomeV {
    Unsat,
    Unknown,
    Sat(Seq<(Seq<char>, Seq<char>)>),
}

/// The mathematical value of a sequence of assignments.
pub open spec fn assignments_view(s: Seq<Assignment>) -> Seq<(Seq<char>, Seq<char>)> {
    s.map_values(|a: Assignment| (a.name@, a.value@))
}

impl View for SolverOutcome {
    type V = OutcomeV;

    open spec fn view(&self) -> OutcomeV {
        match self {
            SolverOutcome::Unsat => OutcomeV::Unsat,
            SolverOutcome::Unknown => OutcomeV::Unknown,
            SolverOutcome::Sat(list) => OutcomeV::Sat(assignments_view(list@)),
        }
    }
}

/// What evaluating a variable in a model gave: whether the value is the variable itself
/// (the model leaves it open), and the text of the value.
pub type Eval = Option<(bool, String)>;

/// The mathematical value of the evaluations of the variables.
pub open spec fn evals_view(ev: Seq<Eval>) -> Seq<Option<(bool, Seq<char>)>> {
    ev.map_values(|e: Eval| match e {
        Some((same, t)) => Some((same, t@)),
        None => None,
    })
}

/// The assignments listed for the first `k` variables: each variable whose evaluation gave
/// a value other than itself, with the text of that value, in the order of declaration.
pub open spec fn listed(ev: Seq<Option<(bool, Seq<char>)>>, env: Seq<Seq<char>>, k: int) -> Seq<
    (Seq<char>, Seq<char>),
>
    decreases k,
{
    if k <= 0 {
        Seq::empty()
    } else {
        listed(ev, env, k - 1) + match ev[k - 1] {
            Some((false, t)) => seq![(env[k - 1], t)],
            _ => Seq::empty(),
        }
    }
}

/// The outcome for the solver's answer and the evaluations of the variables.
pub open spec fn spec_outcome(
    answer: SatAnswer,
    ev: Seq<Option<(bool, Seq<char>)>>,
    env: Seq<Seq<char>>,
) -> OutcomeV {
    match answer {
        SatAnswer::Unsat => OutcomeV::Unsat,
        SatAnswer::Unknown => OutcomeV::Unknown,
        SatAnswer::Sat => OutcomeV::Sat(listed(ev, env, ev.len() as int)),
    }
}

/// The outcome for the solver's answer and the evaluations of the variables of `env`:
/// no counterexample unless the answer is `Sat`, and then the variables whose value is not
/// themselves, with the text of their value, in the order of declaration.
pub fn outcome_of(answer: SatAnswer, evals: Vec<Eval>, env: &Env) -> (o: SolverOutcome)
    requires
        evals@.len() == env@.len(),
    ensures
        o@ == spec_outcome(answer, evals_view(evals@), env@),
{
    match answer {
        SatAnswer::Unsat => SolverOutcome::Unsat,
        SatAnswer::Unknown => SolverOutcome::Unknown,
        SatAnswer::Sat => {
            let ghost ev = evals_view(evals@);
            let mut list: Vec<Assignment> = Vec::new();
            let mut k: usize = 0;
            while k < evals.len()
                invariant
                    ev == evals_view(evals@),
                    evals@.len() == env@.len(),
                    k <= evals@.len(),
                    assignments_view(list@) == listed(ev, env@, k as int),
                decreases evals.len() - k,
            {
                let ghost before = list@;
                match &evals[k] {
                    Some((false, t)) => {
                        let a = Assignment { name: env.name(k).clone(), value: t.clone() };
                        list.push(a);
                        assert(assignments_view(list@) =~= assignments_view(before) + seq![(env@[k as int], ev[k as int]->Some_0.1)]);
                    },
                    _ => {
                        assert(assignments_view(list@) =~= assignments_view(before) + Seq::empty());
                    },
                }
                k = k + 1;
            }
            SolverOutcome::Sat(list)
        },
    }
}

/// A state of the `n` variables that refutes `vc`, and that gives each listed variable the
/// value whose text is listed. When every variable could be evaluated, every state that
/// gives the listed variables those values refutes `vc`.
pub open spec fn refutes(vals: Seq<int>, ev: Seq<Option<(bool, Seq<char>)>>, vc: BoolTerm, n: nat) -> bool {
    &&& vals.len() == n
    &&& !holds(vc, vals)
    &&& forall|k: int| 0 <= k < n ==> (#[trigger] ev[k] matches Some((false, t)) ==> t == z3_numeral_text(vals[k]))
    &&& (forall|k: int| 0 <= k < n ==> #[trigger] ev[k] is Some) ==> forall|st: Seq<int>|
        st.len() == n && (forall|k: int| 0 <= k < n ==> (#[trigger] ev[k] matches Some((false, _)) ==> st[k] == vals[k]))
        ==> !#[trigger] holds(vc, st)
}

/// What the solver's answer and the evaluations say of the condition `vc` over `n`
/// variables: `Unsat` means that it is valid; `Sat`, for a condition without division, that
/// a state refutes it, with the listed values.
pub open spec fn answer_fits(
    answer: SatAnswer,
    ev: Seq<Option<(bool, Seq<char>)>>,
    vc: BoolTerm,
    n: nat,
) -> bool {
    &&& ev.len() == n
    &&& answer == SatAnswer::Unsat ==> valid(vc, n)
    &&& answer == SatAnswer::Sat && div_free(vc) ==> exists|vals: Seq<int>| #[trigger] refutes(vals, ev, vc, n)
}

/// Asks the solver whether the verification condition `vc` over the variables of `env` is
/// valid, and for a counterexample when it is not.
///
/// The negation of the condition is asserted, with variable `i` lowered to the Z3 constant
/// named `v` and `i`; each variable is evaluated in the model of a satisfiable answer, and
/// [outcome_of] gives the outcome. An unsatisfiable negation means a valid condition; a
/// satisfiable one, for a condition without division, a state that refutes it with the
/// values listed.
pub fn check_vc(vc: &BoolTerm, env: &Env) -> (o: SolverOutcome)
    requires
        bool_scoped(*vc, env@.len()),
    ensures
        exists|answer: SatAnswer, ev: Seq<Option<(bool, Seq<char>)>>|
            #[trigger] answer_fits(answer, ev, *vc, env@.len()) && o@ == spec_outcome(answer, ev, env@),
{
    let n = env.len();
    let mut vars: Vec<Z3Var> = Vec::new();
    let mut i: usize = 0;
    while i < n
        invariant
            n == env@.len(),
            i <= n,
            vars@.len() == i,
            forall|k: int| 0 <= k < vars@.len() ==> #[trigger] vars@[k].index@ == k,
        decreases n - i,
    {
        let v = z3_var(i);
        vars.push(v);
        i = i + 1;
    }
    let f = lower_bool(vc, &vars);
    let mut solver = z3_solver();
    let nf = z3_not(&f);
    z3_assert(&mut solver, &nf);
    let ghost zf = zbool_of(*vc, n as nat);
    assert(solver.asserted@ =~= seq![ZBool::Not(Box::new(zf))]);
    let ghost asserted = solver.asserted@;
    let answer = z3_check(&mut solver);
    proof {
        lemma_zbool_of(*vc, n as nat, Seq::new(n as nat, |k: int| 0int));
        assert(asserted[0] == ZBool::Not(Box::new(zf)));
        assert(all_below(asserted, n as nat));
        if answer == SatAnswer::Unsat {
            assert forall|st: Seq<int>| st.len() == n implies #[trigger] holds(*vc, st) by {
                lemma_zbool_of(*vc, n as nat, st);
                assert(!all_hold(asserted, st));
            }
        }
    }
    let mut evals: Vec<Eval> = Vec::new();
    let model = if answer == SatAnswer::Sat { z3_model(&solver) } else { None };
    match model {
        Some(m) => {
            let mut k: usize = 0;
            while k < n
                invariant
                    n == env@.len(),
                    vars@.len() == n,
                    k <= n,
                    evals@.len() == k,
                    forall|j: int| 0 <= j < vars@.len() ==> #[trigger] vars@[j].index@ == j,
                    forall|j: int| 0 <= j < k ==> match #[trigger] evals_view(evals@)[j] {
                        Some((same, t)) => match m.fixed@(j as nat) {
                            Some(v) => !same && t == z3_numeral_text(v),
                            None => same,
                        },
                        None => true,
                    },
                decreases n - k,
            {
                let e = match z3_eval(&m, &vars[k]) {
                    Some(t) => {
                        let same = z3_same(&t, &vars[k]);
                        let text = z3_int_text(&t);
                        proof {
                            assert(vars@[k as int].index@ == k);
                            match m.fixed@(k as nat) {
                                Some(v) => {
                                    assert(t.model@ == ZInt::Num(v));
                                    assert(!same && text@ == z3_numeral_text(v));
                                },
                                None => {
                                    assert(same);
                                },
                            }
                        }
                        Some((same, text))
                    },
                    None => None,
                };
                let ghost before = evals@;
                evals.push(e);
                proof {
                    assert forall|j: int| 0 <= j < k + 1 implies match #[trigger] evals_view(evals@)[j] {
                        Some((same, t)) => match m.fixed@(j as nat) {
                            Some(v) => !same && t == z3_numeral_text(v),
                            None => same,
                        },
                        None => true,
                    } by {
                        if j < k {
                            assert(evals@[j] == before[j]);
                            assert(evals_view(before)[j] == evals_view(evals@)[j]);
                        } else {
                            assert(evals@[j] == e);
                        }
                    }
                }
                k = k + 1;
            }
            proof {
                let ev = evals_view(evals@);
                if div_free(*vc) {
                    assert(zbool_div_free(asserted[0]));
                    let vals = Seq::new(n as nat, |j: int| match m.fixed@(j as nat) {
                        Some(v) => v,
                        None => 0,
                    });
                    assert(agrees(vals, m.fixed@));
                    assert(all_hold(asserted, vals));
                    lemma_zbool_of(*vc, n as nat, vals);
                    assert forall|st: Seq<int>| st.len() == n && (forall|j: int| 0 <= j < n ==> (#[trigger] ev[j] matches Some((false, _)) ==> st[j] == vals[j]))
                        && (forall|j: int| 0 <= j < n ==> #[trigger] ev[j] is Some) implies !#[trigger] holds(*vc, st) by {
                        assert forall|j: int| 0 <= j < st.len() implies (#[trigger] m.fixed@(j as nat) matches Some(v) ==> st[j] == v) by {
                            if let Some(v) = m.fixed@(j as nat) {
                                assert(ev[j] is Some);
                            }
                        }
                        assert(agrees(st, m.fixed@));
                        assert(all_hold(asserted, st));
                        lemma_zbool_of(*vc, n as nat, st);
                    }
                    assert(refutes(vals, ev, *vc, n as nat));
                }
                assert(answer_fits(answer, ev, *vc, n as nat));
            }
        },
        None => {
            let mut k: usize = 0;
            while k < n
                invariant
                    k <= n,
                    evals@.len() == k,
                    forall|j: int| 0 <= j < k ==> #[trigger] evals@[j] is None,
                decreases n - k,
            {
                evals.push(None);
                k = k + 1;
            }
            proof {
                let ev = evals_view(evals@);
                if answer == SatAnswer::Sat && div_free(*vc) {
                    assert(zbool_div_free(asserted[0]));
                    let vals = choose|st: Seq<int>| st.len() == n && #[trigger] all_hold(asserted, st);
                    assert(zholds(asserted[0], vals));
                    lemma_zbool_of(*vc, n as nat, vals);
                    assert forall|j: int| 0 <= j < n implies #[trigger] ev[j] is None by {
                        assert(evals@[j] is None);
                    }
                    assert forall|st: Seq<int>| st.len() == n && (forall|j: int| 0 <= j < n ==> (#[trigger] ev[j] matches Some((false, _)) ==> st[j] == vals[j]))
                        && (forall|j: int| 0 <= j < n ==> #[trigger] ev[j] is Some) implies !#[trigger] holds(*vc, st) by {
                        if n > 0 {
                            assert(ev[0] is None);
                        } else {
                            assert(st =~= vals);
                        }
                    }
                    assert(refutes(vals, ev, *vc, n as nat));
                }
                assert(answer_fits(answer, ev, *vc, n as nat));
            }
        },
    }
    outcome_of(answer, evals, env)
}

/// The assignments listed for the first `k` variables pair variables with their own
/// evaluations, in increasing order, and miss no variable whose value is not itself.
proof fn lemma_listed_indices(ev: Seq<Option<(bool, Seq<char>)>>, env: Seq<Seq<char>>, k: int)
    requires
        0 <= k <= ev.len(),
        ev.len() == env.len(),
    ensures
        exists|idx: Seq<int>| #[trigger] names_own_values(listed(ev, env, k), idx, ev, env, k),
    decreases k,
{
    if k == 0 {
        assert(names_own_values(listed(ev, env, 0), Seq::empty(), ev, env, 0));
    } else {
        lemma_listed_indices(ev, env, k - 1);
        let prev = listed(ev, env, k - 1);
        let idx = choose|idx: Seq<int>| #[trigger] names_own_values(prev, idx, ev, env, k - 1);
        match ev[k - 1] {
            Some((false, t)) => {
                let list = listed(ev, env, k);
                let idx2 = idx.push(k - 1);
                assert(list =~= prev + seq![(env[k - 1], t)]);
                assert forall|m: int| 0 <= m < k && (#[trigger] ev[m] matches Some((false, _))) implies idx2.contains(m) by {
                    if m < k - 1 {
                        assert(idx.contains(m));
                        let j = choose|j: int| 0 <= j < idx.len() && idx[j] == m;
                        assert(idx2[j] == m);
                    } else {
                        assert(idx2[idx.len() as int] == m);
                    }
                }
                assert(names_own_values(list, idx2, ev, env, k));
            },
            _ => {
                let list = listed(ev, env, k);
                assert(list =~= prev);
                assert forall|m: int| 0 <= m < k && (#[trigger] ev[m] matches Some((false, _))) implies idx.contains(m) by {
                    if m < k - 1 {
                    }
                }
                assert(names_own_values(list, idx, ev, env, k));
            },
        }
    }
}

/// `list` names, in increasing order of declaration, variables among the first `k`
/// together with the text of their own evaluation, and holds every one of them whose value
/// is not the variable itself.
pub open spec fn names_own_values(
    list: Seq<(Seq<char>, Seq<char>)>,
    idx: Seq<int>,
    ev: Seq<Option<(bool, Seq<char>)>>,
    env: Seq<Seq<char>>,
    k: int,
) -> bool {
    &&& idx.len() == list.len()
    &&& forall|j: int| 0 <= j < idx.len() ==> 0 <= #[trigger] idx[j] < k && list[j].0 == env[idx[j]]
        && ev[idx[j]] == Some((false, list[j].1))
    &&& forall|j: int, m: int| 0 <= j < m < idx.len() ==> #[trigger] idx[j] < #[trigger] idx[m]
    &&& forall|m: int| 0 <= m < k && (#[trigger] ev[m] matches Some((false, _))) ==> idx.contains(m)
}

/// **A counterexample reports each variable's own value.** The outcome of a satisfiable
/// answer lists, in the order of declaration, exactly the variables whose evaluation gave a
/// value other than the variable itself, each with the text of its own value; the other
/// answers list nothing.
pub proof fn theorem_counterexample_names(
    answer: SatAnswer,
    ev: Seq<Option<(bool, Seq<char>)>>,
    env: Seq<Seq<char>>,
)
    requires
        ev.len() == env.len(),
    ensures
        answer == SatAnswer::Unsat ==> spec_outcome(answer, ev, env) == OutcomeV::Unsat,
        answer == SatAnswer::Unknown ==> spec_outcome(answer, ev, env) == OutcomeV::Unknown,
        answer == SatAnswer::Sat ==> spec_outcome(answer, ev, env) == OutcomeV::Sat(listed(ev, env, ev.len() as int)),
        exists|idx: Seq<int>| #[trigger] names_own_values(listed(ev, env, ev.len() as int), idx, ev, env, ev.len() as int),
{
    let n = ev.len() as int;
    lemma_listed_indices(ev, env, n);
    let list = listed(ev, env, n);
    let idx = choose|idx: Seq<int>| #[trigger] names_own_values(list, idx, ev, env, n);
    assert(names_own_values(list, idx, ev, env, n));
    if answer == SatAnswer::Sat {
        assert(spec_outcome(answer, ev, env) == OutcomeV::Sat(list));
    }
}

} // verus!
