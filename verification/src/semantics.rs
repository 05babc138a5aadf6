//! Meaning of formulas and programs.
//!
//! Formulas are evaluated over states that give an integer to each declared variable (by
//! index). Programs run on such states: an assertion that does not hold makes the run
//! fail, an assumption that does not hold blocks it. Loop invariants are annotations and
//! play no part in a run. Each loop iteration uses one unit of fuel; a run that needs more
//! fuel than it is given diverges.
//!
//! The laws here say what the verification conditions of [crate::compiler] mean: a valid
//! condition rules out failing runs, and for loop-free programs the converse holds too.

use vstd::prelude::*;
use vstd::arithmetic::div_mod::{lemma_fundamental_div_mod, lemma_fundamental_div_mod_converse, lemma_mod_bound};
use crate::ast::{ExprV, StmtV};
use crate::compiler::{
    BoolTerm, IntTerm, as_bool, as_int, bool_scoped, combine, int_scoped, lookup, lemma_index_from,
    spec_compile, spec_encode, spec_wp, spec_wp_block, subst_bool, subst_int, Encoding, truth,
    mk_implies, mk_and, mk_not, lemma_wp_scoped, lemma_wp_block_scoped, lemma_encode_scoped,
};
use crate::lexer::Symbol;

verus! {

/// Floored division: the quotient rounded down, so that a nonzero remainder has the sign of
/// the divisor (`7 / -2` is `-4`). Division by zero is left unspecified: whatever the
/// dividend, it gives the value of `0 / 0`.
pub open spec fn floor_div(x: int, y: int) -> int {
    if y > 0 {
        x / y
    } else if y < 0 {
        (-x) / (-y)
    } else {
        0int / 0int
    }
}

/// Floored division by `y` is Euclidean division of `x * y` by `y * y`, whose divisor is
/// never negative.
pub proof fn lemma_floor_div_product(x: int, y: int)
    ensures
        floor_div(x, y) == (x * y) / (y * y),
{
    if y > 0 {
        let q = x / y;
        let r = x % y;
        lemma_fundamental_div_mod(x, y);
        lemma_mod_bound(x, y);
        assert(x * y == q * (y * y) + r * y && 0 <= r * y < y * y) by (nonlinear_arith)
            requires
                x == y * q + r,
                0 <= r < y,
        ;
        lemma_fundamental_div_mod_converse(x * y, y * y, q, r * y);
    } else if y < 0 {
        let q = (-x) / (-y);
        let r = (-x) % (-y);
        lemma_fundamental_div_mod(-x, -y);
        lemma_mod_bound(-x, -y);
        assert(x * y == q * (y * y) + r * (-y) && 0 <= r * (-y) < y * y) by (nonlinear_arith)
            requires
                -x == (-y) * q + r,
                0 <= r < -y,
        ;
        lemma_fundamental_div_mod_converse(x * y, y * y, q, r * (-y));
    } else {
        assert(x * y == 0 && y * y == 0) by (nonlinear_arith)
            requires
                y == 0,
        ;
    }
}

/// The value of an integer term in state `s`; division is floored.
pub open spec fn int_value(t: IntTerm, s: Seq<int>) -> int
    decreases t,
{
    match t {
        IntTerm::Lit(n) => n as int,
        IntTerm::Var(j) => s[j as int],
        IntTerm::Add(a, b) => int_value(*a, s) + int_value(*b, s),
        IntTerm::Sub(a, b) => int_value(*a, s) - int_value(*b, s),
        IntTerm::Mul(a, b) => int_value(*a, s) * int_value(*b, s),
        IntTerm::Div(a, b) => floor_div(int_value(*a, s), int_value(*b, s)),
    }
}

/// Whether a formula holds in state `s`. A quantified formula holds when its body holds
/// in every state with as many variables.
pub open spec fn holds(f: BoolTerm, s: Seq<int>) -> bool
    decreases f,
{
    match f {
        BoolTerm::Lit(b) => b,
        BoolTerm::IntEq(a, b) => int_value(*a, s) == int_value(*b, s),
        BoolTerm::IntNe(a, b) => int_value(*a, s) != int_value(*b, s),
        BoolTerm::Lt(a, b) => int_value(*a, s) < int_value(*b, s),
        BoolTerm::Gt(a, b) => int_value(*a, s) > int_value(*b, s),
        BoolTerm::Le(a, b) => int_value(*a, s) <= int_value(*b, s),
        BoolTerm::Ge(a, b) => int_value(*a, s) >= int_value(*b, s),
        BoolTerm::BoolEq(p, q) => holds(*p, s) == holds(*q, s),
        BoolTerm::BoolNe(p, q) => holds(*p, s) != holds(*q, s),
        BoolTerm::And(p, q) => holds(*p, s) && holds(*q, s),
        BoolTerm::Or(p, q) => holds(*p, s) || holds(*q, s),
        BoolTerm::Implies(p, q) => holds(*p, s) ==> holds(*q, s),
        BoolTerm::Not(p) => !holds(*p, s),
        BoolTerm::Forall(p) => forall|s2: Seq<int>| #[trigger] s2.len() == s.len() ==> holds(*p, s2),
    }
}

/// A formula over `n` variables is valid when it holds in every state.
pub open spec fn valid(f: BoolTerm, n: nat) -> bool {
    forall|s: Seq<int>| s.len() == n ==> #[trigger] holds(f, s)
}

/// The value of an expression.
pub enum Val {
    Int(int),
    Bool(bool),
}

/// Applies an operator to two values; operands of the wrong kind give no value.
pub open spec fn apply(a: Val, op: Symbol, b: Val) -> Option<Val> {
    match (a, b) {
        (Val::Int(x), Val::Int(y)) => match op {
            Symbol::Add => Some(Val::Int(x + y)),
            Symbol::Sub => Some(Val::Int(x - y)),
            Symbol::Mul => Some(Val::Int(x * y)),
            Symbol::Div => Some(Val::Int(floor_div(x, y))),
            Symbol::Lt => Some(Val::Bool(x < y)),
            Symbol::Gt => Some(Val::Bool(x > y)),
            Symbol::Le => Some(Val::Bool(x <= y)),
            Symbol::Ge => Some(Val::Bool(x >= y)),
            Symbol::Eq => Some(Val::Bool(x == y)),
            Symbol::Neq => Some(Val::Bool(x != y)),
            _ => None,
        },
        (Val::Bool(p), Val::Bool(q)) => match op {
            Symbol::Eq => Some(Val::Bool(p == q)),
            Symbol::Neq => Some(Val::Bool(p != q)),
            Symbol::And => Some(Val::Bool(p && q)),
            Symbol::Or => Some(Val::Bool(p || q)),
            _ => None,
        },
        _ => None,
    }
}

/// The value of an expression in state `s`, where `env` names the variables; none when the
/// expression is ill-typed or uses an undeclared variable.
pub open spec fn eval_expr(e: ExprV, env: Seq<Seq<char>>, s: Seq<int>) -> Option<Val>
    decreases e,
{
    match e {
        ExprV::Boolean(b) => Some(Val::Bool(b)),
        ExprV::Integer(i) => Some(Val::Int(i as int)),
        ExprV::Variable(x) => match lookup(env, x) {
            Some(k) => Some(Val::Int(s[k])),
            None => None,
        },
        ExprV::BinOp { lhs, op, rhs } => match (eval_expr(*lhs, env, s), eval_expr(*rhs, env, s)) {
            (Some(a), Some(b)) => apply(a, op, b),
            _ => None,
        },
    }
}

/// How a run ends.
pub enum Outcome {
    /// The run ends normally in this state.
    Normal(Seq<int>),
    /// An assertion does not hold.
    Fail,
    /// An assumption does not hold; the run is not considered.
    Blocked,
    /// A statement cannot run (an ill-typed expression, an undeclared variable, a
    /// declaration).
    Stuck,
    /// The run needs more loop iterations than its fuel allows.
    Diverge,
}

/// Runs one statement from state `s`.
pub open spec fn run_stmt(st: StmtV, env: Seq<Seq<char>>, s: Seq<int>, fuel: nat) -> Outcome
    decreases fuel, st,
{
    match st {
        StmtV::Assume(e) => match eval_expr(e, env, s) {
            Some(Val::Bool(true)) => Outcome::Normal(s),
            Some(Val::Bool(false)) => Outcome::Blocked,
            _ => Outcome::Stuck,
        },
        StmtV::Assert(e) => match eval_expr(e, env, s) {
            Some(Val::Bool(true)) => Outcome::Normal(s),
            Some(Val::Bool(false)) => Outcome::Fail,
            _ => Outcome::Stuck,
        },
        StmtV::Assign(x, e) => match lookup(env, x) {
            Some(k) => match eval_expr(e, env, s) {
                Some(Val::Int(v)) => Outcome::Normal(s.update(k, v)),
                _ => Outcome::Stuck,
            },
            None => Outcome::Stuck,
        },
        StmtV::If { condition, then_branch, else_branch } => match eval_expr(condition, env, s) {
            Some(Val::Bool(true)) => run_block(then_branch, env, s, fuel),
            Some(Val::Bool(false)) => match else_branch {
                Some(b) => run_block(b, env, s, fuel),
                None => Outcome::Normal(s),
            },
            _ => Outcome::Stuck,
        },
        StmtV::While { condition, loop_invariant, body } => run_loop(condition, body, env, s, fuel),
        _ => Outcome::Stuck,
    }
}

/// Runs a loop from state `s`: while the condition holds, the body runs.
pub open spec fn run_loop(c: ExprV, body: Seq<StmtV>, env: Seq<Seq<char>>, s: Seq<int>, fuel: nat) -> Outcome
    decreases fuel, body,
{
    match eval_expr(c, env, s) {
        Some(Val::Bool(false)) => Outcome::Normal(s),
        Some(Val::Bool(true)) => if fuel == 0 {
            Outcome::Diverge
        } else {
            match run_block(body, env, s, (fuel - 1) as nat) {
                Outcome::Normal(s2) => run_loop(c, body, env, s2, (fuel - 1) as nat),
                other => other,
            }
        },
        _ => Outcome::Stuck,
    }
}

/// Runs a sequence of statements from state `s`.
pub open spec fn run_block(b: Seq<StmtV>, env: Seq<Seq<char>>, s: Seq<int>, fuel: nat) -> Outcome
    decreases fuel, b,
{
    if b.len() == 0 {
        Outcome::Normal(s)
    } else {
        match run_block(b.drop_last(), env, s, fuel) {
            Outcome::Normal(s1) => run_stmt(b.last(), env, s1, fuel),
            other => other,
        }
    }
}

/// An expression's encoding has the expression's value: an integer term the integer, a
/// formula the truth value.
pub proof fn lemma_encode_meaning(e: ExprV, env: Seq<Seq<char>>, s: Seq<int>)
    requires
        s.len() == env.len(),
        env.len() <= usize::MAX,
    ensures
        spec_encode(e, env) matches Ok(Encoding::Int(t)) ==> eval_expr(e, env, s) == Some(
            Val::Int(int_value(t, s)),
        ),
        spec_encode(e, env) matches Ok(Encoding::Bool(p)) ==> eval_expr(e, env, s) == Some(
            Val::Bool(holds(p, s)),
        ),
    decreases e,
{
    match e {
        ExprV::Variable(x) => {
            lemma_index_from(env, x, 0);
        },
        ExprV::BinOp { lhs, op, rhs } => {
            lemma_encode_meaning(*lhs, env, s);
            lemma_encode_meaning(*rhs, env, s);
        },
        _ => {},
    }
}

/// Substituting a term for a variable and evaluating is evaluating in the state where the
/// variable has the term's value.
pub proof fn lemma_subst_int_value(t: IntTerm, k: usize, r: IntTerm, s: Seq<int>)
    requires
        int_scoped(t, s.len()),
        k < s.len(),
    ensures
        int_value(subst_int(t, k, r), s) == int_value(t, s.update(k as int, int_value(r, s))),
    decreases t,
{
    match t {
        IntTerm::Add(a, b) | IntTerm::Sub(a, b) | IntTerm::Mul(a, b) | IntTerm::Div(a, b) => {
            lemma_subst_int_value(*a, k, r, s);
            lemma_subst_int_value(*b, k, r, s);
        },
        _ => {},
    }
}

/// Substituting a term for a variable in a formula and evaluating is evaluating in the
/// state where the variable has the term's value.
pub proof fn lemma_subst_holds(f: BoolTerm, k: usize, r: IntTerm, s: Seq<int>)
    requires
        bool_scoped(f, s.len()),
        k < s.len(),
    ensures
        holds(subst_bool(f, k, r), s) == holds(f, s.update(k as int, int_value(r, s))),
    decreases f,
{
    let u = s.update(k as int, int_value(r, s));
    match f {
        BoolTerm::IntEq(a, b) | BoolTerm::IntNe(a, b) | BoolTerm::Lt(a, b) | BoolTerm::Gt(a, b)
        | BoolTerm::Le(a, b) | BoolTerm::Ge(a, b) => {
            lemma_subst_int_value(*a, k, r, s);
            lemma_subst_int_value(*b, k, r, s);
        },
        BoolTerm::BoolEq(p, q) | BoolTerm::BoolNe(p, q) | BoolTerm::And(p, q) | BoolTerm::Or(p, q)
        | BoolTerm::Implies(p, q) => {
            lemma_subst_holds(*p, k, r, s);
            lemma_subst_holds(*q, k, r, s);
        },
        BoolTerm::Not(p) => {
            lemma_subst_holds(*p, k, r, s);
        },
        BoolTerm::Forall(p) => {
            assert(u.len() == s.len());
        },
        _ => {},
    }
}

/// A quantified formula holds in all states with the same number of variables or in none.
pub proof fn lemma_forall_state_free(p: BoolTerm, s: Seq<int>, s2: Seq<int>)
    requires
        s2.len() == s.len(),
    ensures
        holds(BoolTerm::Forall(Box::new(p)), s) == holds(BoolTerm::Forall(Box::new(p)), s2),
{
}

/// Soundness of the weakest precondition of a statement: from a state where it holds, a
/// run does not fail or get stuck, and a run that ends normally ends where `post` holds.
pub proof fn lemma_wp_sound(st: StmtV, env: Seq<Seq<char>>, post: BoolTerm, s: Seq<int>, fuel: nat)
    requires
        s.len() == env.len(),
        env.len() <= usize::MAX,
        bool_scoped(post, env.len()),
        spec_wp(st, env, post) is Ok,
        holds(spec_wp(st, env, post)->Ok_0, s),
    ensures
        !(run_stmt(st, env, s, fuel) is Fail),
        !(run_stmt(st, env, s, fuel) is Stuck),
        run_stmt(st, env, s, fuel) matches Outcome::Normal(s2) ==> s2.len() == s.len() && holds(
            post,
            s2,
        ),
    decreases fuel, st,
{
    reveal_with_fuel(holds, 4);
    match st {
        StmtV::Assume(e) => {
            lemma_encode_meaning(e, env, s);
        },
        StmtV::Assert(e) => {
            lemma_encode_meaning(e, env, s);
        },
        StmtV::Assign(x, e) => {
            lemma_encode_meaning(e, env, s);
            lemma_index_from(env, x, 0);
            let k = lookup(env, x)->Some_0;
            let t = as_int(spec_encode(e, env))->Ok_0;
            lemma_subst_holds(post, k as usize, t, s);
        },
        StmtV::If { condition, then_branch, else_branch } => {
            lemma_encode_meaning(condition, env, s);
            let c = as_bool(spec_encode(condition, env))->Ok_0;
            if holds(c, s) {
                lemma_wp_block_sound(then_branch, env, post, s, fuel);
            } else {
                if let Some(b) = else_branch {
                    lemma_wp_block_sound(b, env, post, s, fuel);
                }
            }
        },
        StmtV::While { condition, loop_invariant, body } => {
            let c = as_bool(spec_encode(condition, env))->Ok_0;
            let inv = as_bool(spec_encode(loop_invariant, env))->Ok_0;
            lemma_encode_scoped(loop_invariant, env);
            lemma_loop_sound(condition, c, inv, body, env, post, s, fuel);
        },
        _ => {},
    }
}

/// Soundness of the weakest precondition of a loop, for a state where the invariant holds
/// and the quantified part of the loop's weakest precondition holds.
pub proof fn lemma_loop_sound(
    cond: ExprV,
    c: BoolTerm,
    inv: BoolTerm,
    body: Seq<StmtV>,
    env: Seq<Seq<char>>,
    post: BoolTerm,
    s: Seq<int>,
    fuel: nat,
)
    requires
        s.len() == env.len(),
        env.len() <= usize::MAX,
        bool_scoped(post, env.len()),
        bool_scoped(inv, env.len()),
        as_bool(spec_encode(cond, env)) == Ok::<BoolTerm, crate::errors::CompileError>(c),
        spec_wp_block(body, env, inv) is Ok,
        holds(inv, s),
        holds(
            BoolTerm::Forall(
                Box::new(
                    mk_and(
                        mk_implies(mk_and(c, inv), spec_wp_block(body, env, inv)->Ok_0),
                        mk_implies(mk_and(mk_not(c), inv), post),
                    ),
                ),
            ),
            s,
        ),
    ensures
        !(run_loop(cond, body, env, s, fuel) is Fail),
        !(run_loop(cond, body, env, s, fuel) is Stuck),
        run_loop(cond, body, env, s, fuel) matches Outcome::Normal(s2) ==> s2.len() == s.len()
            && holds(post, s2),
    decreases fuel, body,
{
    reveal_with_fuel(holds, 4);
    let lw = spec_wp_block(body, env, inv)->Ok_0;
    let inner = mk_and(mk_implies(mk_and(c, inv), lw), mk_implies(mk_and(mk_not(c), inv), post));
    lemma_encode_meaning(cond, env, s);
    let f = BoolTerm::Forall(Box::new(inner));
    assert(holds(f, s));
    assert(forall|s2: Seq<int>| s2.len() == s.len() ==> #[trigger] holds(inner, s2));
    assert(holds(inner, s));
    if holds(c, s) && fuel > 0 {
        let f1 = (fuel - 1) as nat;
        lemma_wp_block_sound(body, env, inv, s, f1);
        if let Outcome::Normal(s2) = run_block(body, env, s, f1) {
            lemma_forall_state_free(inner, s, s2);
            lemma_loop_sound(cond, c, inv, body, env, post, s2, f1);
        }
    }
}

/// Soundness of the weakest precondition of a sequence of statements.
pub proof fn lemma_wp_block_sound(
    b: Seq<StmtV>,
    env: Seq<Seq<char>>,
    post: BoolTerm,
    s: Seq<int>,
    fuel: nat,
)
    requires
        s.len() == env.len(),
        env.len() <= usize::MAX,
        bool_scoped(post, env.len()),
        spec_wp_block(b, env, post) is Ok,
        holds(spec_wp_block(b, env, post)->Ok_0, s),
    ensures
        !(run_block(b, env, s, fuel) is Fail),
        !(run_block(b, env, s, fuel) is Stuck),
        run_block(b, env, s, fuel) matches Outcome::Normal(s2) ==> s2.len() == s.len() && holds(
            post,
            s2,
        ),
    decreases fuel, b,
{
    if b.len() > 0 {
        let q = spec_wp(b.last(), env, post)->Ok_0;
        lemma_wp_scoped(b.last(), env, post);
        lemma_wp_block_sound(b.drop_last(), env, q, s, fuel);
        if let Outcome::Normal(s1) = run_block(b.drop_last(), env, s, fuel) {
            lemma_wp_sound(b.last(), env, post, s1, fuel);
        }
    }
}

/// **Soundness of verification conditions.** When the verification condition of a program
/// is valid, no run of the program (what is left of it after its declaration), from any
/// values of its variables and with any number of loop iterations, fails an assertion or
/// gets stuck.
pub proof fn theorem_valid_vc_is_sound(prog: Seq<StmtV>, s: Seq<int>, fuel: nat)
    requires
        spec_compile(prog).0 is Ok,
        valid(spec_compile(prog).0->Ok_0.0, spec_compile(prog).0->Ok_0.1.len()),
        s.len() == spec_compile(prog).0->Ok_0.1.len(),
        s.len() <= usize::MAX,
    ensures
        !(run_block(spec_compile(prog).1, spec_compile(prog).0->Ok_0.1, s, fuel) is Fail),
        !(run_block(spec_compile(prog).1, spec_compile(prog).0->Ok_0.1, s, fuel) is Stuck),
{
    let (vc, env) = spec_compile(prog).0->Ok_0;
    let rest = spec_compile(prog).1;
    reveal_with_fuel(holds, 2);
    assert(holds(vc, s));
    assert(spec_wp_block(rest, env, truth()) is Ok);
    lemma_wp_block_sound(rest, env, truth(), s, fuel);
}

/// A statement without loops.
pub open spec fn loop_free(st: StmtV) -> bool
    decreases st,
{
    match st {
        StmtV::While { .. } => false,
        StmtV::If { condition, then_branch, else_branch } => loop_free_block(then_branch) && match else_branch {
            Some(b) => loop_free_block(b),
            None => true,
        },
        _ => true,
    }
}

/// A sequence of statements without loops.
pub open spec fn loop_free_block(b: Seq<StmtV>) -> bool
    decreases b,
{
    if b.len() == 0 {
        true
    } else {
        loop_free_block(b.drop_last()) && loop_free(b.last())
    }
}

/// For a statement without loops, the weakest precondition is exact: it holds in a state
/// exactly when no run from there fails and every run that ends normally ends where
/// `post` holds.
pub proof fn lemma_wp_exact(st: StmtV, env: Seq<Seq<char>>, post: BoolTerm, s: Seq<int>, fuel: nat)
    requires
        loop_free(st),
        s.len() == env.len(),
        env.len() <= usize::MAX,
        bool_scoped(post, env.len()),
        spec_wp(st, env, post) is Ok,
    ensures
        !(run_stmt(st, env, s, fuel) is Stuck),
        !(run_stmt(st, env, s, fuel) is Diverge),
        run_stmt(st, env, s, fuel) matches Outcome::Normal(s2) ==> s2.len() == s.len(),
        holds(spec_wp(st, env, post)->Ok_0, s) <==> (!(run_stmt(st, env, s, fuel) is Fail) && (
        run_stmt(st, env, s, fuel) matches Outcome::Normal(s2) ==> holds(post, s2))),
    decreases fuel, st,
{
    reveal_with_fuel(holds, 4);
    match st {
        StmtV::Assume(e) => {
            lemma_encode_meaning(e, env, s);
        },
        StmtV::Assert(e) => {
            lemma_encode_meaning(e, env, s);
        },
        StmtV::Assign(x, e) => {
            lemma_encode_meaning(e, env, s);
            lemma_index_from(env, x, 0);
            let k = lookup(env, x)->Some_0;
            let t = as_int(spec_encode(e, env))->Ok_0;
            lemma_subst_holds(post, k as usize, t, s);
        },
        StmtV::If { condition, then_branch, else_branch } => {
            lemma_encode_meaning(condition, env, s);
            lemma_wp_block_exact(then_branch, env, post, s, fuel);
            if let Some(b) = else_branch {
                lemma_wp_block_exact(b, env, post, s, fuel);
            }
        },
        _ => {},
    }
}

/// For a sequence of statements without loops, the weakest precondition is exact.
pub proof fn lemma_wp_block_exact(
    b: Seq<StmtV>,
    env: Seq<Seq<char>>,
    post: BoolTerm,
    s: Seq<int>,
    fuel: nat,
)
    requires
        loop_free_block(b),
        s.len() == env.len(),
        env.len() <= usize::MAX,
        bool_scoped(post, env.len()),
        spec_wp_block(b, env, post) is Ok,
    ensures
        !(run_block(b, env, s, fuel) is Stuck),
        !(run_block(b, env, s, fuel) is Diverge),
        run_block(b, env, s, fuel) matches Outcome::Normal(s2) ==> s2.len() == s.len(),
        holds(spec_wp_block(b, env, post)->Ok_0, s) <==> (!(run_block(b, env, s, fuel) is Fail)
            && (run_block(b, env, s, fuel) matches Outcome::Normal(s2) ==> holds(post, s2))),
    decreases fuel, b,
{
    if b.len() > 0 {
        let q = spec_wp(b.last(), env, post)->Ok_0;
        lemma_wp_scoped(b.last(), env, post);
        lemma_wp_block_exact(b.drop_last(), env, q, s, fuel);
        if let Outcome::Normal(s1) = run_block(b.drop_last(), env, s, fuel) {
            lemma_wp_exact(b.last(), env, post, s1, fuel);
        }
    }
}

/// **Exactness of verification conditions for loop-free programs.** For a program without
/// loops, the verification condition holds for given values of the variables exactly when
/// the run of the program from those values does not fail an assertion. So the condition
/// is valid exactly when no run fails.
pub proof fn theorem_loop_free_vc_is_exact(prog: Seq<StmtV>, s: Seq<int>, fuel: nat)
    requires
        spec_compile(prog).0 is Ok,
        loop_free_block(spec_compile(prog).1),
        s.len() == spec_compile(prog).0->Ok_0.1.len(),
        s.len() <= usize::MAX,
    ensures
        holds(spec_compile(prog).0->Ok_0.0, s) <==> !(run_block(
            spec_compile(prog).1,
            spec_compile(prog).0->Ok_0.1,
            s,
            fuel,
        ) is Fail),
{
    reveal_with_fuel(holds, 2);
    let (vc, env) = spec_compile(prog).0->Ok_0;
    let rest = spec_compile(prog).1;
    assert(spec_wp_block(rest, env, truth()) is Ok);
    lemma_wp_block_exact(rest, env, truth(), s, fuel);
}

} // verus!
