//! Verification system for testing programs.
//!
//! A program can be broken down into components that are tested individually for logical
//! correctness. By specifying each component's expectations and constraints, formulas can
//! be derived and verified with theorem solvers such as Z3. This library provides a small
//! imperative language for writing verifiable specifications.
//!
//! # Writing Specifications
//!
//! A specification is made of values, expressions, and statements.
//!
//! - Values: integers (64-bit signed), booleans (`TRUE` or `FALSE`), and variables holding
//!   integers.
//! - Arithmetic expressions: integers, variables and the operators `+ - * /`; **division is
//!   floored**.
//! - Boolean expressions: booleans and the connectors `< > <= >= == != && ||`.
//! - Expressions are evaluated left to right.
//!
//! Statements, one per line:
//!
//! - `var x, y`: declares the variables; only one declaration is allowed, on the first line.
//! - `assume e`: an assumption (a boolean expression).
//! - `assert e`: an assertion (a boolean expression).
//! - `x := e`: an assignment of an arithmetic expression.
//! - `if e then ... else ... end`: a conditional; the else branch is optional.
//! - `while e` / `invariant i` / ... / `end`: a loop with its required invariant.
//!
//! # Usage
//!
//! [verify] tokenizes the specification, parses it, generates its verification condition,
//! and checks the condition with Z3. The outcome is in the returned [Response].

use vstd::prelude::*;
use vstd::string::*;

pub mod ast;
pub mod compiler;
pub mod errors;
pub mod expr;
pub mod lexer;
pub mod parser;
pub mod semantics;
pub mod smt;
pub mod text;

use crate::ast::lemma_stmts_view;
use crate::compiler::{BoolTerm, compile, spec_compile};
use crate::errors::{CompileError, LexErrorV, ParseError, compile_error_text, lex_error_text, parse_error_text};
use crate::ast::StmtV;
use crate::lexer::{TokenV, spec_tokenize, tokenize, tokens_view};
use crate::parser::{parse, spec_parse, split_lines};
use crate::semantics::valid;
use crate::smt::{OutcomeV, SatAnswer, SolverOutcome, answer_fits, assignments_view, check_vc, spec_outcome};

verus! {

/// Result produced by the verifier.
#[derive(Debug, Clone, Copy, PartialEq, Eq, Structural)]
pub enum VerifierResult {
    /// The specification is provably correct.
    Correct,
    /// A counterexample has been found, so the specification is incorrect.
    Counterexample,
    /// An error occured before or during verification.
    Error,
}

/// Contains the verification result and message.
#[derive(Debug, Clone, PartialEq, Eq)]
pub struct Response {
    /// The verifier's assessment of the specification.
    pub result: VerifierResult,
    /// Contains error data, a counterexample, or confirmation of success.
    pub message: String,
}

/// The lines of a counterexample: `name = value` for each assignment.
pub open spec fn counterexample_lines(list: Seq<(Seq<char>, Seq<char>)>) -> Seq<char>
    decreases list.len(),
{
    if list.len() == 0 {
        Seq::empty()
    } else {
        counterexample_lines(list.drop_last()) + list.last().0 + " = "@ + list.last().1 + "\n"@
    }
}

/// The answer to give for an outcome of the solver.
pub open spec fn spec_respond(o: OutcomeV) -> (VerifierResult, Seq<char>) {
    match o {
        OutcomeV::Unsat => (VerifierResult::Correct, "specification is correct!"@),
        OutcomeV::Unknown => (VerifierResult::Error, "err[Z3]: unexpected error"@),
        OutcomeV::Sat(list) => (
            VerifierResult::Counterexample,
            "counterexample:\n\n"@ + counterexample_lines(list),
        ),
    }
}

/// The inputs on which [verify] is defined: the number of lines fits a line counter, and a
/// program that parses is not empty.
pub open spec fn verify_defined(s: Seq<char>) -> bool {
    match spec_tokenize(s) {
        Err(_) => true,
        Ok(ts) => split_lines(ts).len() + 1 <= u32::MAX && match spec_parse(ts) {
            Ok(b) => b.len() > 0,
            Err(_) => true,
        },
    }
}

/// The answer for an outcome of the solver: correct when the negated verification
/// condition is unsatisfiable, a counterexample when it is satisfiable (with the values of
/// the model), and an error when the solver could not decide.
pub fn respond(outcome: &SolverOutcome) -> (r: Response)
    ensures
        (r.result, r.message@) == spec_respond(outcome@),
{
    match outcome {
        SolverOutcome::Unsat => Response {
            result: VerifierResult::Correct,
            message: String::from_str("specification is correct!"),
        },
        SolverOutcome::Unknown => Response {
            result: VerifierResult::Error,
            message: String::from_str("err[Z3]: unexpected error"),
        },
        SolverOutcome::Sat(list) => {
            let mut msg = String::from_str("counterexample:\n\n");
            let ghost head = msg@;
            let ghost lv = assignments_view(list@);
            let mut k: usize = 0;
            assert(lv.take(0) =~= Seq::<(Seq<char>, Seq<char>)>::empty());
            while k < list.len()
                invariant
                    lv == assignments_view(list@),
                    k <= list@.len(),
                    msg@ == head + counterexample_lines(lv.take(k as int)),
                decreases list.len() - k,
            {
                msg.append(list[k].name.as_str());
                msg.append(" = ");
                msg.append(list[k].value.as_str());
                msg.append("\n");
                proof {
                    assert(lv.take(k + 1).drop_last() =~= lv.take(k as int));
                    assert(lv.take(k + 1).last() == lv[k as int]);
                    assert(msg@ =~= head + counterexample_lines(lv.take(k + 1)));
                }
                k = k + 1;
            }
            assert(lv.take(k as int) =~= lv);
            Response { result: VerifierResult::Counterexample, message: msg }
        },
    }
}

fn error_response(stage: &str, text: String) -> (r: Response)
    ensures
        r.result == VerifierResult::Error,
        r.message@ == stage@ + text@,
{
    let mut m = String::from_str(stage);
    m.append(text.as_str());
    Response { result: VerifierResult::Error, message: m }
}

/// The answer `(result, message)` is what [respond] gives for the solver's answer on the
/// condition `vc` over the variables `env` and the evaluations of the variables in its
/// model, where the answer and the evaluations say what [answer_fits] says of `vc`.
pub open spec fn answered(result: VerifierResult, message: Seq<char>, vc: BoolTerm, env: Seq<Seq<char>>) -> bool {
    exists|answer: SatAnswer, ev: Seq<Option<(bool, Seq<char>)>>|
        #[trigger] answer_fits(answer, ev, vc, env.len())
        && (result, message) == spec_respond(spec_outcome(answer, ev, env))
}

/// Verifies the correctness of a specification.
///
/// The specification is tokenized, parsed and compiled into a verification condition; an
/// error at any of these stages is reported with its stage. The negation of the condition
/// is then checked with Z3, and the answer is given by [respond] for the solver's outcome.
/// The answer is correct only when the condition is valid, and a counterexample for a
/// condition without division only when it is not.
pub fn verify(input: &str) -> (r: Response)
    requires
        verify_defined(input@),
    ensures
        match spec_tokenize(input@) {
            Err(e) => r.result == VerifierResult::Error && r.message@ == "error[LEXER]: "@
                + lex_error_text(e),
            Ok(ts) => match spec_parse(ts) {
                Err(e) => r.result == VerifierResult::Error && r.message@ == "error[PARSER]: "@
                    + parse_error_text(e),
                Ok(b) => match spec_compile(b).0 {
                    Err(e) => r.result == VerifierResult::Error && r.message@
                        == "error[COMPILER]: "@ + compile_error_text(e),
                    Ok((vc, env)) => answered(r.result, r.message@, vc, env),
                },
            },
        },
        r.result == VerifierResult::Correct ==> match spec_tokenize(input@) {
            Ok(ts) => match spec_parse(ts) {
                Ok(b) => match spec_compile(b).0 {
                    Ok((vc, env)) => valid(vc, env.len()),
                    Err(_) => false,
                },
                Err(_) => false,
            },
            Err(_) => false,
        },
{
    let tokens = match tokenize(input) {
        Ok(result) => result,
        Err(err) => {
            return error_response("error[LEXER]: ", err.message());
        },
    };
    let mut ast = match parse(tokens.as_slice()) {
        Ok(result) => result,
        Err(err) => {
            return error_response("error[PARSER]: ", err.message());
        },
    };
    proof {
        lemma_stmts_view(ast.0@);
    }
    let ghost b = ast@;
    let ghost ts = tokens_view(tokens@);
    assert(spec_tokenize(input@) == Ok::<Seq<TokenV>, LexErrorV>(ts));
    assert(spec_parse(ts) == Ok::<Seq<StmtV>, ParseError>(b));
    let compiled = compile(&mut ast);
    let (vc, env) = match compiled {
        Ok(result) => result,
        Err(err) => {
            return error_response("error[COMPILER]: ", err.message());
        },
    };
    // The negation of the verification condition is used to prove the correctness of the
    // specification. That means, a result of "sat" would provide a counterexample model.
    assert(spec_compile(b).0 == Ok::<(BoolTerm, Seq<Seq<char>>), CompileError>((vc, env@)));
    let outcome = check_vc(&vc, &env);
    let r = respond(&outcome);
    proof {
        let (answer, ev) = choose|answer: SatAnswer, ev: Seq<Option<(bool, Seq<char>)>>|
            #[trigger] answer_fits(answer, ev, vc, env@.len()) && outcome@ == spec_outcome(answer, ev, env@);
        assert(answer_fits(answer, ev, vc, env@.len()));
        assert((r.result, r.message@) == spec_respond(spec_outcome(answer, ev, env@)));
        assert(r.result == VerifierResult::Correct ==> answer == SatAnswer::Unsat);
        assert(answered(r.result, r.message@, vc, env@));
    }
    r
}

} // verus!
