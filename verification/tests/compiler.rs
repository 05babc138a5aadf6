use wp_verifier::ast::{Block, Expr, Stmt};
use wp_verifier::compiler::{compile, BoolTerm, Encoding, Env, IntTerm};
use wp_verifier::errors::CompileError;
use wp_verifier::lexer::Symbol;

fn b<T>(x: T) -> Box<T> {
    Box::new(x)
}

fn env_with_x() -> Env {
    let mut env = Env::new();
    env.declare("x".to_string());
    env
}

#[test]
fn test_int_encoding() {
    assert_eq!(
        Expr::Boolean(true).smt_encode(&Env::new()).unwrap(),
        Encoding::Bool(BoolTerm::Lit(true))
    );
}

#[test]
fn test_bool_encoding() {
    assert_eq!(
        Expr::Integer(2).smt_encode(&Env::new()).unwrap(),
        Encoding::Int(IntTerm::Lit(2))
    );
}

#[test]
fn test_variable_encoding() {
    let env = env_with_x();

    assert_eq!(
        Expr::Variable("x".to_string()).smt_encode(&env).unwrap(),
        Encoding::Int(IntTerm::Var(env.index_of(&"x".to_string()).unwrap()))
    );
}

#[test]
fn test_arithmetic_eval() {
    assert_eq!(
        Expr::BinOp {
            lhs: Box::new(Expr::BinOp {
                lhs: Box::new(Expr::Integer(4)),
                op: Symbol::Sub,
                rhs: Box::new(Expr::BinOp {
                    lhs: Box::new(Expr::Integer(7)),
                    op: Symbol::Mul,
                    rhs: Box::new(Expr::Integer(-1))
                })
            }),
            op: Symbol::Add,
            rhs: Box::new(Expr::BinOp {
                // note: 3 // 2 = 1
                lhs: Box::new(Expr::Integer(3)),
                op: Symbol::Div,
                rhs: Box::new(Expr::Integer(2))
            })
        }
        .smt_encode(&Env::new())
        .unwrap()
        .eval_int()
        .unwrap(),
        IntTerm::Add(
            b(IntTerm::Sub(
                b(IntTerm::Lit(4)),
                b(IntTerm::Mul(b(IntTerm::Lit(7)), b(IntTerm::Lit(-1))))
            )),
            b(IntTerm::Div(b(IntTerm::Lit(3)), b(IntTerm::Lit(2))))
        )
    );
}

#[test]
fn test_boolean_eval() {
    assert_eq!(
        Expr::BinOp {
            lhs: Box::new(Expr::BinOp {
                lhs: Box::new(Expr::Boolean(true)),
                op: Symbol::Eq,
                rhs: Box::new(Expr::BinOp {
                    lhs: Box::new(Expr::Integer(0)),
                    op: Symbol::Gt,
                    rhs: Box::new(Expr::Integer(1))
                })
            }),
            op: Symbol::Or,
            rhs: Box::new(Expr::Boolean(true))
        }
        .smt_encode(&Env::new())
        .unwrap()
        .eval_bool()
        .unwrap(),
        BoolTerm::Or(
            b(BoolTerm::BoolEq(
                b(BoolTerm::Lit(true)),
                b(BoolTerm::Gt(b(IntTerm::Lit(0)), b(IntTerm::Lit(1))))
            )),
            b(BoolTerm::Lit(true))
        )
    );
}

#[test]
fn test_polynomial_expr() {
    let env = env_with_x();

    assert_eq!(
        Expr::BinOp {
            lhs: Box::new(Expr::Variable("x".to_string())),
            op: Symbol::Add,
            rhs: Box::new(Expr::Integer(1))
        }
        .smt_encode(&env)
        .unwrap()
        .eval_int()
        .unwrap(),
        IntTerm::Add(b(IntTerm::Var(0)), b(IntTerm::Lit(1)))
    );
}

#[test]
fn test_assume_wp() {
    assert_eq!(
        Stmt::Assume(Expr::Boolean(false))
            .wp(&Env::new(), &BoolTerm::Lit(true))
            .unwrap(),
        BoolTerm::Implies(b(BoolTerm::Lit(false)), b(BoolTerm::Lit(true)))
    );
}

#[test]
fn test_assert_wp() {
    assert_eq!(
        Stmt::Assert(Expr::Boolean(false))
            .wp(&Env::new(), &BoolTerm::Lit(true))
            .unwrap(),
        BoolTerm::And(
            b(BoolTerm::Implies(b(BoolTerm::Lit(false)), b(BoolTerm::Lit(true)))),
            b(BoolTerm::Implies(
                b(BoolTerm::Not(b(BoolTerm::Lit(false)))),
                b(BoolTerm::Lit(false))
            ))
        )
    );
}

#[test]
fn test_assign_wp() {
    let env = env_with_x();

    assert_eq!(
        Stmt::Assign("x".to_string(), Expr::Integer(1))
            .wp(&env, &BoolTerm::IntNe(b(IntTerm::Var(0)), b(IntTerm::Lit(0))))
            .unwrap(),
        BoolTerm::IntNe(b(IntTerm::Lit(1)), b(IntTerm::Lit(0)))
    );
}

#[test]
fn test_if_wp() {
    assert_eq!(
        Stmt::If {
            condition: Expr::Boolean(false),
            then_branch: Block(vec![]),
            else_branch: None,
        }
        .wp(&Env::new(), &BoolTerm::Lit(true))
        .unwrap(),
        BoolTerm::And(
            b(BoolTerm::Implies(b(BoolTerm::Lit(false)), b(BoolTerm::Lit(true)))),
            b(BoolTerm::Implies(
                b(BoolTerm::Not(b(BoolTerm::Lit(false)))),
                b(BoolTerm::Lit(true))
            ))
        )
    );
}

#[test]
fn test_while_wp() {
    let env = env_with_x();

    assert_eq!(
        Stmt::While {
            condition: Expr::Boolean(false),
            loop_invariant: Expr::Boolean(false),
            body: Block(vec![])
        }
        .wp(&env, &BoolTerm::Lit(true))
        .unwrap(),
        BoolTerm::And(
            b(BoolTerm::Lit(false)),
            b(BoolTerm::Forall(b(BoolTerm::And(
                b(BoolTerm::Implies(
                    b(BoolTerm::And(b(BoolTerm::Lit(false)), b(BoolTerm::Lit(false)))),
                    b(BoolTerm::Lit(false)) // loop postcondition is invariant
                )),
                b(BoolTerm::Implies(
                    b(BoolTerm::And(
                        b(BoolTerm::Not(b(BoolTerm::Lit(false)))),
                        b(BoolTerm::Lit(false))
                    )),
                    b(BoolTerm::Lit(true))
                ))
            ))))
        )
    );
}

#[test]
fn test_block() {
    let env = env_with_x();
    let quotient = || IntTerm::Div(b(IntTerm::Lit(40)), b(IntTerm::Lit(5)));
    let check = || BoolTerm::IntEq(b(quotient()), b(IntTerm::Lit(8)));

    assert_eq!(
        Block(vec![
            Stmt::Assign("x".to_string(), Expr::Integer(40)),
            Stmt::Assign(
                "x".to_string(),
                Expr::BinOp {
                    lhs: Box::new(Expr::Variable("x".to_string())),
                    op: Symbol::Div,
                    rhs: Box::new(Expr::Integer(5)),
                },
            ),
            Stmt::Assert(Expr::BinOp {
                lhs: Box::new(Expr::Variable("x".to_string())),
                op: Symbol::Eq,
                rhs: Box::new(Expr::Integer(8)),
            }),
        ])
        .wp(&env, &BoolTerm::Lit(true))
        .unwrap(),
        BoolTerm::And(
            b(BoolTerm::Implies(b(check()), b(BoolTerm::Lit(true)))),
            b(BoolTerm::Implies(b(BoolTerm::Not(b(check()))), b(BoolTerm::Lit(false))))
        )
    );
}

#[test]
fn test_err_invalid_declare() {
    assert_eq!(
        compile(&mut Block(vec![
            Stmt::Declare(vec!["x".to_string()]),
            Stmt::Declare(vec!["x".to_string()]),
        ]))
        .unwrap_err(),
        CompileError::InvalidDeclaration
    );
}

#[test]
fn test_err_repeated_variable() {
    assert_eq!(
        compile(&mut Block(vec![Stmt::Declare(vec![
            "x".to_string(),
            "x".to_string()
        ]),]))
        .unwrap_err(),
        CompileError::AlreadyDeclared
    );
}

#[test]
fn test_err_unbound_variable() {
    assert_eq!(
        compile(&mut Block(vec![
            Stmt::Declare(vec!["x".to_string()]),
            Stmt::Assign("y".to_string(), Expr::Integer(1)),
        ]))
        .unwrap_err(),
        CompileError::UnboundVariable
    );
}
