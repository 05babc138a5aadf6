use wp_verifier::ast::Expr;
use wp_verifier::errors::ParseError;
use wp_verifier::expr::{parse_expr, precedence};
use wp_verifier::lexer::{Symbol, Token};

#[test]
fn test_operator_precedence() {
    let symbols = [
        Symbol::And,
        Symbol::Or,
        Symbol::Eq,
        Symbol::Neq,
        Symbol::Lt,
        Symbol::Gt,
        Symbol::Le,
        Symbol::Ge,
        Symbol::Add,
        Symbol::Sub,
        Symbol::Mul,
        Symbol::Div,
    ];
    let mut prev_prec = 0;
    for sym in symbols {
        let prec = precedence(&Token::Op(sym), 0).unwrap();
        assert!(prec >= prev_prec);
        prev_prec = prec;
    }
}

#[test]
fn test_literal_parsing() {
    let tokens = [Token::Integer(42)];
    assert_eq!(parse_expr(&tokens, 0).unwrap(), Expr::Integer(42));
}

#[test]
fn test_expression_parsing() {
    let tokens = [
        Token::Integer(-10),
        Token::Op(Symbol::Add),
        Token::Integer(4),
        Token::Op(Symbol::Mul),
        Token::Integer(3),
        Token::Op(Symbol::Eq),
        Token::Integer(2),
    ];

    assert_eq!(
        parse_expr(&tokens, 0).unwrap(),
        Expr::BinOp {
            lhs: Box::new(Expr::BinOp {
                lhs: Box::new(Expr::Integer(-10)),
                op: Symbol::Add,
                rhs: Box::new(Expr::BinOp {
                    lhs: Box::new(Expr::Integer(4)),
                    op: Symbol::Mul,
                    rhs: Box::new(Expr::Integer(3)),
                }),
            }),
            op: Symbol::Eq,
            rhs: Box::new(Expr::Integer(2)),
        }
    );
}

#[test]
fn test_err_empty_expression() {
    assert_eq!(
        parse_expr(&[], 0).unwrap_err(),
        ParseError::MissingExpression(0)
    );
}

#[test]
fn test_err_invalid_expression() {
    let tokens = [
        Token::Op(Symbol::Add),
        Token::Identifier("x".to_string()),
        Token::Op(Symbol::Add),
    ];
    assert_eq!(
        parse_expr(&tokens, 0).unwrap_err(),
        ParseError::UnexpectedToken(0)
    );
}

#[test]
fn test_parenthesis() {
    let tokens = [
        Token::Op(Symbol::LParen),
        Token::Integer(1),
        Token::Op(Symbol::Add),
        Token::Integer(2),
        Token::Op(Symbol::RParen),
        Token::Op(Symbol::Add),
        Token::Integer(3),
    ];
    assert_eq!(
        parse_expr(&tokens, 0).unwrap(),
        Expr::BinOp {
            lhs: Box::new(Expr::BinOp {
                lhs: Box::new(Expr::Integer(1)),
                op: Symbol::Add,
                rhs: Box::new(Expr::Integer(2)),
            }),
            op: Symbol::Add,
            rhs: Box::new(Expr::Integer(3)),
        }
    );
}

#[test]
fn test_unclosed_parenthesis() {
    assert_eq!(
        parse_expr(&[Token::Op(Symbol::LParen), Token::Integer(1)], 0).unwrap_err(),
        ParseError::UnclosedParenthesis(0)
    );
}

#[test]
fn test_trailing_parenthesis() {
    assert_eq!(
        parse_expr(&[Token::Integer(1), Token::Op(Symbol::RParen)], 0).unwrap_err(),
        ParseError::TrailingParenthesis(0)
    );
}
