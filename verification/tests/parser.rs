use wp_verifier::ast::{Block, Expr, Stmt};
use wp_verifier::errors::ParseError;
use wp_verifier::lexer::{Symbol, Token};
use wp_verifier::parser::{parse, parse_block, ParseContext};

#[test]
fn test_declare_var() {
    assert_eq!(
        parse(&[Token::Declare, Token::Identifier("x".to_string())]).unwrap(),
        Block(vec![Stmt::Declare(vec!["x".to_string()])])
    );
}

#[test]
fn test_declare_multivar() {
    assert_eq!(
        parse(&[
            Token::Declare,
            Token::Identifier("x".to_string()),
            Token::Comma,
            Token::Identifier("y".to_string())
        ])
        .unwrap(),
        Block(vec![Stmt::Declare(vec!["x".to_string(), "y".to_string()])])
    );
}

#[test]
fn test_err_missing_comma() {
    assert_eq!(
        parse(&[
            Token::Declare,
            Token::Identifier("x".to_string()),
            Token::Identifier("y".to_string())
        ])
        .unwrap_err(),
        ParseError::MissingComma(1)
    );
}

#[test]
fn test_err_trailing_comma() {
    assert_eq!(
        parse(&[
            Token::Declare,
            Token::Identifier("x".to_string()),
            Token::Comma,
            Token::Identifier("y".to_string()),
            Token::Comma,
        ])
        .unwrap_err(),
        ParseError::TrailingComma(1)
    );
}

#[test]
fn test_assume() {
    assert_eq!(
        parse(&[Token::Assume, Token::Boolean(true)]).unwrap(),
        Block(vec![Stmt::Assume(Expr::Boolean(true))])
    );
}

#[test]
fn test_assert() {
    assert_eq!(
        parse(&[Token::Assert, Token::Boolean(true)]).unwrap(),
        Block(vec![Stmt::Assert(Expr::Boolean(true))])
    );
}

#[test]
fn test_assign() {
    assert_eq!(
        parse(&[
            Token::Identifier("x".to_string()),
            Token::Op(Symbol::Assign),
            Token::Integer(42)
        ])
        .unwrap(),
        Block(vec![Stmt::Assign("x".to_string(), Expr::Integer(42))])
    );
}

#[test]
fn test_err_invalid_assign() {
    assert_eq!(
        parse(&[
            Token::Integer(42),
            Token::Op(Symbol::Assign),
            Token::Integer(42)
        ])
        .unwrap_err(),
        ParseError::InvalidAssign(1)
    );
}

#[test]
fn test_if() {
    assert_eq!(
        parse(&[
            Token::If,
            Token::Boolean(true),
            Token::Then,
            Token::Newline,
            Token::Identifier("x".to_string()),
            Token::Op(Symbol::Assign),
            Token::Integer(1),
            Token::Newline,
            Token::End,
        ])
        .unwrap(),
        Block(vec![Stmt::If {
            condition: Expr::Boolean(true),
            then_branch: Block(vec![Stmt::Assign("x".to_string(), Expr::Integer(1))]),
            else_branch: None
        }])
    );
}

#[test]
fn test_if_else() {
    assert_eq!(
        parse(&[
            Token::If,
            Token::Boolean(true),
            Token::Then,
            Token::Newline,
            Token::Else,
            Token::Newline,
            Token::End,
        ])
        .unwrap(),
        Block(vec![Stmt::If {
            condition: Expr::Boolean(true),
            then_branch: Block(vec![]),
            else_branch: Some(Block(vec![]))
        }])
    );
}

#[test]
fn test_if_nested() {
    assert_eq!(
        parse(&[
            Token::If,
            Token::Boolean(true),
            Token::Then,
            Token::Newline,
            Token::If,
            Token::Boolean(true),
            Token::Then,
            Token::Newline,
            Token::End,
            Token::Newline,
            Token::End,
        ])
        .unwrap(),
        Block(vec![Stmt::If {
            condition: Expr::Boolean(true),
            then_branch: Block(vec![Stmt::If {
                condition: Expr::Boolean(true),
                then_branch: Block(vec![]),
                else_branch: None,
            }]),
            else_branch: None,
        }])
    );
}

#[test]
fn test_err_expected_else_or_end() {
    assert_eq!(
        parse(&[Token::If, Token::Boolean(true), Token::Then]).unwrap_err(),
        ParseError::ExpectedElseEnd(2)
    );
}

#[test]
fn test_err_unclosed_if() {
    assert_eq!(
        parse(&[
            Token::If,
            Token::Boolean(true),
            Token::Then,
            Token::Newline,
            Token::Else,
            Token::Newline,
            Token::Identifier("x".to_string()),
            Token::Op(Symbol::Assign),
            Token::Integer(1),
        ])
        .unwrap_err(),
        ParseError::ExpectedEnd(4)
    );
}

#[test]
fn test_while() {
    assert_eq!(
        parse(&[
            Token::While,
            Token::Identifier("x".to_string()),
            Token::Newline,
            Token::Invariant,
            Token::Boolean(true),
            Token::Newline,
            Token::Identifier("x".to_string()),
            Token::Op(Symbol::Assign),
            Token::Boolean(false),
            Token::Newline,
            Token::End,
        ])
        .unwrap(),
        Block(vec![Stmt::While {
            condition: Expr::Variable("x".to_string()),
            loop_invariant: Expr::Boolean(true),
            body: Block(vec![Stmt::Assign("x".to_string(), Expr::Boolean(false))])
        }])
    );
}

#[test]
fn test_err_missing_invariant() {
    assert_eq!(
        parse(&[
            Token::While,
            Token::Identifier("x".to_string()),
            Token::Newline,
            Token::Identifier("x".to_string()),
            Token::Op(Symbol::Assign),
            Token::Boolean(false),
            Token::Newline,
            Token::End,
        ])
        .unwrap_err(),
        ParseError::ExpectedInvariant(2)
    );
}

#[test]
fn test_err_unclosed_while() {
    assert_eq!(
        parse(&[
            Token::While,
            Token::Identifier("x".to_string()),
            Token::Newline,
            Token::Invariant,
            Token::Boolean(true),
            Token::Newline,
            Token::Identifier("x".to_string()),
            Token::Op(Symbol::Assign),
            Token::Boolean(false),
            Token::Newline,
            // empty line
        ])
        .unwrap_err(),
        ParseError::ExpectedEnd(5)
    );
}

#[test]
fn test_parser() {
    assert_eq!(
        parse(&[
            Token::Assume,
            Token::Boolean(true),
            Token::Newline,
            Token::Assert,
            Token::Boolean(true),
        ])
        .unwrap(),
        Block(vec![
            Stmt::Assume(Expr::Boolean(true)),
            Stmt::Assert(Expr::Boolean(true)),
        ])
    );
}

#[test]
fn test_err_trailing_terminal() {
    assert_eq!(
        parse(&[Token::End]).unwrap_err(),
        ParseError::ExpectedEof(1)
    );
}

#[test]
fn test_context() {
    let tokens = [
        Token::Identifier("x".to_string()),
        Token::Op(Symbol::Assign),
        Token::Integer(1),
        Token::Newline,
        // empty line
        Token::Newline,
        Token::End,
        Token::Newline,
        Token::Assert,
        Token::Boolean(true),
    ];

    let mut ctx = ParseContext::new(&tokens, 50);

    assert!(parse_block(&mut ctx).is_ok());
    assert!(ctx.peek().is_some());
    assert!(ctx.next_line().unwrap() == &[Token::Assert, Token::Boolean(true)]);
    assert_eq!(ctx.line(), 53);
}
