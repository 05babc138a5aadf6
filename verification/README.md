# wp_verifier

A verifier for a small imperative specification language (declarations, assumptions,
assertions, assignments, conditionals and loops with invariants). A specification is
tokenized, parsed, compiled into a verification condition by weakest preconditions, and the
condition is checked with the Z3 SMT solver.

The library is written in Verus and proved against its contracts:

- `src/lexer.rs`: the token grammar as a scanner over characters, with its specification;
- `src/expr.rs`, `src/parser.rs`: the precedence-climbing expression parser and the
  line-oriented statement parser, each equal to a recursive specification;
- `src/compiler.rs`: the encoding of expressions into terms and the weakest-precondition
  calculus;
- `src/semantics.rs`: an operational semantics of the language, and the proofs that a valid
  verification condition means that no run fails an assertion (and, for loop-free programs,
  the converse);
- `src/smt.rs`: the hand-off of a condition to Z3, through small trusted wrappers that
  state which formula each Z3 term stands for, so that an unsatisfiable negation is proved
  to mean a valid condition;
- `src/lib.rs`: `verify`, which runs the stages and phrases the answer.

`app/` holds the command-line program, which reads a file and prints the answer.
