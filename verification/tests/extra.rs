use wp_verifier::ast::{Block, Expr, Stmt};
use wp_verifier::compiler::{compile, BoolTerm, Env};
use wp_verifier::errors::{CompileError, LexError, ParseError};
use wp_verifier::expr::parse_expr;
use wp_verifier::lexer::{tokenize, Symbol, Token};
use wp_verifier::parser::{line_count, parse};
use wp_verifier::smt::{outcome_of, Assignment, SatAnswer, SolverOutcome};
use wp_verifier::{respond, verify, VerifierResult};

fn ident(x: &str) -> Token {
    Token::Identifier(x.to_string())
}

fn bin(lhs: Expr, op: Symbol, rhs: Expr) -> Expr {
    Expr::BinOp { lhs: Box::new(lhs), op, rhs: Box::new(rhs) }
}

#[test]
fn newlines_become_newline_tokens() {
    let tokens = tokenize("a\n\n  b\t\n").unwrap();
    let newlines = tokens.iter().filter(|t| **t == Token::Newline).count();
    assert_eq!(newlines, 3);
    assert_eq!(line_count(&tokens), 4);
}

#[test]
fn integer_bounds() {
    assert_eq!(
        tokenize("-9223372036854775808").unwrap(),
        vec![Token::Integer(i64::MIN)]
    );
    assert_eq!(
        tokenize("9223372036854775807").unwrap(),
        vec![Token::Integer(i64::MAX)]
    );
    assert_eq!(
        tokenize("x 9223372036854775808").unwrap_err(),
        LexError::InvalidInt("9223372036854775808".to_string())
    );
    assert_eq!(
        tokenize("-9223372036854775809").unwrap_err(),
        LexError::InvalidInt("-9223372036854775809".to_string())
    );
}

#[test]
fn minus_and_numbers() {
    assert_eq!(
        tokenize("x-1").unwrap(),
        vec![ident("x"), Token::Integer(-1)]
    );
    assert_eq!(
        tokenize("x - 1").unwrap(),
        vec![ident("x"), Token::Op(Symbol::Sub), Token::Integer(1)]
    );
    assert_eq!(tokenize("007").unwrap(), vec![Token::Integer(7)]);
}

#[test]
fn words_and_keywords() {
    assert_eq!(
        tokenize("var_1 ends TRUEx").unwrap(),
        vec![ident("var_1"), ident("ends"), ident("TRUEx")]
    );
    assert_eq!(tokenize("x1y").unwrap(), vec![ident("x1y")]);
}

#[test]
fn lexer_errors() {
    assert_eq!(tokenize("").unwrap_err(), LexError::MissingInput);
    assert_eq!(
        tokenize("x = 1").unwrap_err(),
        LexError::InvalidToken("= 1".to_string())
    );
    assert_eq!(
        tokenize("a\r\n").unwrap_err(),
        LexError::InvalidToken("\r\n".to_string())
    );
    assert_eq!(
        Symbol::from_str("?").unwrap_err(),
        LexError::InvalidSymbol("?".to_string())
    );
    assert_eq!(Symbol::from_str("<=").unwrap(), Symbol::Le);
    assert_eq!(Symbol::from_str(":=").unwrap(), Symbol::Assign);
}

#[test]
fn error_messages() {
    assert_eq!(LexError::MissingInput.message(), "input is missing");
    assert_eq!(
        LexError::InvalidToken("$x".to_string()).message(),
        "invalid token\n-> \"$x\""
    );
    assert_eq!(
        LexError::InvalidInt("99".to_string()).message(),
        "failed to parse integer\n-> \"99\""
    );
    assert_eq!(
        ParseError::MissingComma(1203).message(),
        "missing comma\n-> Line 1203"
    );
    assert_eq!(ParseError::ExpectedEof(0).message(), "trailing terminal\n-> Line 0");
    assert_eq!(
        CompileError::UnboundVariable.message(),
        "attempted to use an undeclared variable"
    );
}

#[test]
fn left_associativity() {
    let tokens = [
        Token::Integer(1),
        Token::Op(Symbol::Sub),
        Token::Integer(2),
        Token::Op(Symbol::Sub),
        Token::Integer(3),
    ];
    assert_eq!(
        parse_expr(&tokens, 0).unwrap(),
        bin(
            bin(Expr::Integer(1), Symbol::Sub, Expr::Integer(2)),
            Symbol::Sub,
            Expr::Integer(3)
        )
    );
    let tokens = [ident("a"), Token::Op(Symbol::And), ident("b"), Token::Op(Symbol::Or), ident("c")];
    assert_eq!(
        parse_expr(&tokens, 7).unwrap(),
        bin(
            bin(Expr::Variable("a".into()), Symbol::And, Expr::Variable("b".into())),
            Symbol::Or,
            Expr::Variable("c".into())
        )
    );
}

#[test]
fn higher_precedence_binds_tighter() {
    let tokens = [
        Token::Integer(1),
        Token::Op(Symbol::Add),
        Token::Integer(2),
        Token::Op(Symbol::Mul),
        Token::Integer(3),
    ];
    assert_eq!(
        parse_expr(&tokens, 0).unwrap(),
        bin(
            Expr::Integer(1),
            Symbol::Add,
            bin(Expr::Integer(2), Symbol::Mul, Expr::Integer(3))
        )
    );
}

#[test]
fn parentheses_keep_the_expression() {
    let inner = [
        ident("x"),
        Token::Op(Symbol::Mul),
        Token::Op(Symbol::LParen),
        Token::Integer(2),
        Token::Op(Symbol::Add),
        Token::Integer(3),
        Token::Op(Symbol::RParen),
    ];
    let mut wrapped = vec![Token::Op(Symbol::LParen)];
    wrapped.extend(inner.iter().map(|t| match t {
        Token::Identifier(x) => Token::Identifier(x.clone()),
        Token::Integer(i) => Token::Integer(*i),
        Token::Op(s) => Token::Op(*s),
        _ => unreachable!(),
    }));
    wrapped.push(Token::Op(Symbol::RParen));
    assert_eq!(
        parse_expr(&wrapped, 3).unwrap(),
        parse_expr(&inner, 3).unwrap()
    );
}

#[test]
fn expression_errors() {
    assert_eq!(
        parse_expr(&[Token::Integer(1), Token::Comma], 4).unwrap_err(),
        ParseError::InvalidExpression(4)
    );
    assert_eq!(
        parse_expr(&[Token::Integer(1), Token::Op(Symbol::Assign), Token::Integer(2)], 4).unwrap_err(),
        ParseError::UnexpectedToken(4)
    );
}

#[test]
fn statement_errors() {
    assert_eq!(
        parse(&[Token::Declare, Token::Integer(1)]).unwrap_err(),
        ParseError::InvalidDeclare(1)
    );
    assert_eq!(
        parse(&[Token::Declare, ident("x"), Token::Comma, Token::Integer(1)]).unwrap_err(),
        ParseError::InvalidDeclare(1)
    );
    assert_eq!(
        parse(&[Token::Newline, Token::Then]).unwrap_err(),
        ParseError::InvalidStatement(2)
    );
    assert_eq!(
        parse(&[Token::Assert]).unwrap_err(),
        ParseError::MissingExpression(1)
    );
    assert_eq!(
        parse(&[
            Token::If,
            Token::Boolean(true),
            Token::Then,
            Token::Newline,
            Token::Else,
            Token::Newline,
            Token::Else,
        ])
        .unwrap_err(),
        ParseError::ExpectedEnd(3)
    );
    assert_eq!(
        parse(&[
            Token::While,
            Token::Boolean(true),
            Token::Newline,
            Token::Invariant,
            Token::Boolean(true),
            Token::Newline,
            Token::Else,
        ])
        .unwrap_err(),
        ParseError::ExpectedEnd(3)
    );
}

#[test]
fn blank_lines_are_skipped() {
    assert_eq!(
        parse(&[Token::Newline, Token::Newline, Token::Assert, Token::Boolean(true), Token::Newline]).unwrap(),
        Block(vec![Stmt::Assert(Expr::Boolean(true))])
    );
}

#[test]
fn compile_removes_the_declaration() {
    let mut ast = Block(vec![
        Stmt::Declare(vec!["x".to_string(), "y".to_string()]),
        Stmt::Assert(Expr::Boolean(true)),
    ]);
    let (vc, env) = compile(&mut ast).unwrap();
    assert_eq!(ast, Block(vec![Stmt::Assert(Expr::Boolean(true))]));
    assert_eq!(env.len(), 2);
    assert_eq!(env.name(1), "y");
    assert_eq!(
        vc,
        BoolTerm::Implies(
            Box::new(BoolTerm::Lit(true)),
            Box::new(BoolTerm::And(
                Box::new(BoolTerm::Implies(Box::new(BoolTerm::Lit(true)), Box::new(BoolTerm::Lit(true)))),
                Box::new(BoolTerm::Implies(
                    Box::new(BoolTerm::Not(Box::new(BoolTerm::Lit(true)))),
                    Box::new(BoolTerm::Lit(false))
                ))
            ))
        )
    );
}

#[test]
fn only_the_first_statement_declares() {
    assert_eq!(
        compile(&mut Block(vec![
            Stmt::Assert(Expr::Boolean(true)),
            Stmt::Declare(vec!["x".to_string()]),
            Stmt::Assert(Expr::Boolean(true)),
        ]))
        .unwrap_err(),
        CompileError::InvalidDeclaration
    );
}

#[test]
fn compile_errors() {
    assert_eq!(
        compile(&mut Block(vec![
            Stmt::Declare(vec!["x".to_string()]),
            Stmt::Assign("x".to_string(), Expr::Boolean(true)),
        ]))
        .unwrap_err(),
        CompileError::BadExpression
    );
    assert_eq!(
        compile(&mut Block(vec![Stmt::Assert(Expr::Integer(1))])).unwrap_err(),
        CompileError::BadExpression
    );
    assert_eq!(
        Stmt::Else.wp(&Env::new(), &BoolTerm::Lit(true)).unwrap_err(),
        CompileError::BadStatement
    );
}

#[test]
fn env_declare() {
    let mut env = Env::new();
    assert!(env.declare("a".to_string()));
    assert!(!env.declare("a".to_string()));
    assert!(env.declare("b".to_string()));
    assert_eq!(env.index_of(&"b".to_string()), Some(1));
    assert_eq!(env.index_of(&"c".to_string()), None);
}

#[test]
fn respond_to_outcomes() {
    let r = respond(&SolverOutcome::Unsat);
    assert_eq!(r.result, VerifierResult::Correct);
    assert_eq!(r.message, "specification is correct!");
    let r = respond(&SolverOutcome::Unknown);
    assert_eq!(r.result, VerifierResult::Error);
    assert_eq!(r.message, "err[Z3]: unexpected error");
    let r = respond(&SolverOutcome::Sat(vec![
        Assignment { name: "x".to_string(), value: "3".to_string() },
        Assignment { name: "y".to_string(), value: "(- 1)".to_string() },
    ]));
    assert_eq!(r.result, VerifierResult::Counterexample);
    assert_eq!(r.message, "counterexample:\n\nx = 3\ny = (- 1)\n");
}

#[test]
fn verify_reports_stage_errors() {
    let r = verify("");
    assert_eq!(r.result, VerifierResult::Error);
    assert_eq!(r.message, "error[LEXER]: input is missing");
    let r = verify("var x\nx := ");
    assert_eq!(r.result, VerifierResult::Error);
    assert_eq!(r.message, "error[PARSER]: missing expression\n-> Line 2");
    let r = verify("var x, x\nassert TRUE");
    assert_eq!(r.result, VerifierResult::Error);
    assert_eq!(r.message, "error[COMPILER]: a variable has been declared more than once");
}

#[test]
fn verify_loop_free_programs() {
    assert_eq!(verify("var x\nassert x == x").result, VerifierResult::Correct);
    assert_eq!(verify("assert 7 / 2 == 3").result, VerifierResult::Correct);
    // division is floored
    assert_eq!(verify("assert -7 / 2 == -4").result, VerifierResult::Correct);
    assert_eq!(verify("assert 7 / -2 == -4").result, VerifierResult::Correct);
    assert_eq!(verify("assert -7 / -2 == 3").result, VerifierResult::Correct);
    assert_eq!(verify("assert 6 / -2 == -3").result, VerifierResult::Correct);
    assert_eq!(verify("var x\nassume x > 0\nassert x / -1 == 0 - x").result, VerifierResult::Correct);
    assert_eq!(verify("assert 7 / -2 == -3").result, VerifierResult::Counterexample);
    let r = verify("var x\nassume x < 0\nassert x > 0");
    assert_eq!(r.result, VerifierResult::Counterexample);
    assert_eq!(verify("var x\nassume x > 3\nassert x > 0").result, VerifierResult::Correct);
    let r = verify("var x\nassume x == 5\nassert x > 5");
    assert_eq!(r.result, VerifierResult::Counterexample);
    assert_eq!(r.message, "counterexample:\n\nx = 5\n");
}

#[test]
fn verify_counts_lines_in_errors() {
    let r = verify("var x\n\n\nx := y");
    assert_eq!(r.message, "error[COMPILER]: attempted to use an undeclared variable");
    let r = verify("var x\n\n\nwhile x > 0\nx := 0\nend");
    assert_eq!(r.message, "error[PARSER]: expected invariant\n-> Line 5");
}

#[test]
fn indentation_is_ignored() {
    assert_eq!(
        tokenize("var x\n \t  assert x > 0\n\tx := 1").unwrap(),
        tokenize("var x\nassert x > 0\nx := 1").unwrap()
    );
    assert_eq!(
        tokenize("  var x").unwrap(),
        tokenize("var x").unwrap()
    );
    assert_eq!(
        tokenize("$\n  x").unwrap_err(),
        LexError::InvalidToken("$\n  x".to_string())
    );
    assert_eq!(tokenize("   ").unwrap(), vec![]);
}

#[test]
fn numbers_of_any_script() {
    // Arabic-Indic and fullwidth digits make numbers, which are not read as integers
    assert_eq!(
        tokenize("x \u{663}\u{664}").unwrap_err(),
        LexError::InvalidInt("\u{663}\u{664}".to_string())
    );
    assert_eq!(
        tokenize("-\u{FF11}").unwrap_err(),
        LexError::InvalidInt("-\u{FF11}".to_string())
    );
    assert_eq!(
        tokenize("12\u{966}").unwrap_err(),
        LexError::InvalidInt("12\u{966}".to_string())
    );
    // a letter-like numeral is no digit
    assert_eq!(
        tokenize("\u{2167}").unwrap_err(),
        LexError::InvalidToken("\u{2167}".to_string())
    );
}

#[test]
fn digit_class_is_unicode_decimal_number() {
    let digit = regex::Regex::new(r"^\d$").unwrap();
    for code in 0u32..=0x10FFFF {
        let c = match char::from_u32(code) {
            Some(c) => c,
            None => continue,
        };
        if c.is_ascii_alphabetic() || c == '\n' || c == ' ' || c == '\t' {
            continue;
        }
        let text = c.to_string();
        let number = match tokenize(&text) {
            Ok(ts) => matches!(ts.as_slice(), [Token::Integer(_)]),
            Err(e) => matches!(e, LexError::InvalidInt(_)),
        };
        assert_eq!(number, digit.is_match(&text), "{:?}", c);
    }
}

/// The token grammar written with regular expressions, scanned as the lexer scans: the
/// first pattern that matches at the unread position wins.
fn tokenize_by_patterns(patterns: &[regex::Regex; 4], source: &str) -> Result<Vec<Token>, LexError> {
    if source.is_empty() {
        return Err(LexError::MissingInput);
    }
    let [space, word, number, symbol] = patterns;
    let mut tokens = Vec::new();
    let mut index = 0;
    while index < source.len() {
        let unread = &source[index..];
        if let Some(m) = space.find(unread) {
            if m.as_str() == "\n" {
                tokens.push(Token::Newline);
            }
            index += m.end();
        } else if let Some(m) = word.find(unread) {
            // keywords and identifiers are told apart by the lexer itself
            tokens.extend(tokenize(m.as_str()).unwrap());
            index += m.end();
        } else if let Some(m) = number.find(unread) {
            let token = m
                .as_str()
                .parse::<i64>()
                .map(Token::Integer)
                .map_err(|_| LexError::InvalidInt(m.as_str().to_string()))?;
            tokens.push(token);
            index += m.end();
        } else if let Some(m) = symbol.find(unread) {
            tokens.push(match m.as_str() {
                "," => Token::Comma,
                sym => Token::Op(Symbol::from_str(sym)?),
            });
            index += m.end();
        } else {
            return Err(LexError::InvalidToken(unread.to_string()));
        }
    }
    Ok(tokens)
}

#[test]
fn lexer_follows_the_token_patterns() {
    let alphabet: Vec<char> = vec![
        'a', 'Z', 'x', '_', '0', '7', '9', '-', '+', '*', '/', '<', '>', '=', '!', '&', '|', ':',
        ',', '(', ')', ' ', '\t', '\n', '$', '\u{661}', '\u{FF15}', '\u{2167}',
    ];
    let patterns = [
        regex::Regex::new(r"^(?:\n|[ \t]+)").unwrap(),
        regex::Regex::new(r"^[A-Za-z][0-9A-Za-z_]*").unwrap(),
        regex::Regex::new(r"^-?\d+").unwrap(),
        regex::Regex::new(r"^(?:,|:=|==|!=|<=|>=|&&|\|\||[+\-*/<>()])").unwrap(),
    ];
    let mut seed: u64 = 0x2545_F491_4F6C_DD1D;
    for _ in 0..20000 {
        seed ^= seed << 13;
        seed ^= seed >> 7;
        seed ^= seed << 17;
        let len = (seed % 9) as usize;
        let mut text = String::new();
        let mut x = seed;
        for _ in 0..len {
            x = x.wrapping_mul(6364136223846793005).wrapping_add(1442695040888963407);
            text.push(alphabet[((x >> 33) % alphabet.len() as u64) as usize]);
        }
        assert_eq!(tokenize(&text), tokenize_by_patterns(&patterns, &text), "{:?}", text);
    }
    for text in ["99999999999999999999", "-9223372036854775808", "x-1", "a<=b", "a:=-3", "TRUE&&FALSE"] {
        assert_eq!(tokenize(text), tokenize_by_patterns(&patterns, text), "{:?}", text);
    }
}

#[test]
fn joining_lines_joins_tokens() {
    let mut joined = tokenize("var x, y").unwrap();
    joined.push(Token::Newline);
    joined.extend(tokenize("y := x-1").unwrap());
    assert_eq!(tokenize("var x, y\ny := x-1").unwrap(), joined);
}

#[test]
fn leading_blank_line_moves_errors_down() {
    let tokens = tokenize("var x\nx := ").unwrap();
    let mut shifted = vec![Token::Newline];
    shifted.extend(tokenize("var x\nx := ").unwrap());
    assert_eq!(parse(&tokens).unwrap_err(), ParseError::MissingExpression(2));
    assert_eq!(parse(&shifted).unwrap_err(), ParseError::MissingExpression(3));
    let tokens = tokenize("var x\nassert x > 0").unwrap();
    let mut shifted = vec![Token::Newline];
    shifted.extend(tokenize("var x\nassert x > 0").unwrap());
    assert_eq!(parse(&shifted).unwrap(), parse(&tokens).unwrap());
}

#[test]
fn weakest_precondition_of_a_split_block() {
    let mut env = Env::new();
    env.declare("x".to_string());
    let first = || vec![Stmt::Assign("x".to_string(), bin(Expr::Variable("x".into()), Symbol::Add, Expr::Integer(1)))];
    let second = || vec![Stmt::Assert(bin(Expr::Variable("x".into()), Symbol::Gt, Expr::Integer(0)))];
    let q = BoolTerm::Lit(true);
    let mut whole = first();
    whole.extend(second());
    let mid = Block(second()).wp(&env, &q).unwrap();
    assert_eq!(Block(whole).wp(&env, &q).unwrap(), Block(first()).wp(&env, &mid).unwrap());
    assert_eq!(Block(vec![]).wp(&env, &q).unwrap(), q);
}

#[test]
fn outcome_of_answers_and_evaluations() {
    let mut env = Env::new();
    env.declare("x".to_string());
    env.declare("y".to_string());
    env.declare("z".to_string());
    let evals = || vec![Some((false, "3".to_string())), Some((true, "v1".to_string())), None];
    assert_eq!(outcome_of(SatAnswer::Unsat, evals(), &env), SolverOutcome::Unsat);
    assert_eq!(outcome_of(SatAnswer::Unknown, evals(), &env), SolverOutcome::Unknown);
    assert_eq!(
        outcome_of(SatAnswer::Sat, evals(), &env),
        SolverOutcome::Sat(vec![Assignment { name: "x".to_string(), value: "3".to_string() }])
    );
}

#[test]
fn counterexample_lists_model_values() {
    let r = verify("var x\nassume x == -3\nassert x > 0");
    assert_eq!(r.result, VerifierResult::Counterexample);
    assert_eq!(r.message, "counterexample:\n\nx = (- 3)\n");
    let r = verify("var x, y\nassume x == 4\nassert x < 4");
    assert_eq!(r.result, VerifierResult::Counterexample);
    assert_eq!(r.message, "counterexample:\n\nx = 4\n");
}

fn written(e: &Expr, out: &mut Vec<Token>) {
    match e {
        Expr::Boolean(b) => out.push(Token::Boolean(*b)),
        Expr::Integer(i) => out.push(Token::Integer(*i)),
        Expr::Variable(x) => out.push(Token::Identifier(x.clone())),
        Expr::BinOp { lhs, op, rhs } => {
            written(lhs, out);
            out.push(Token::Op(*op));
            written(rhs, out);
        }
    }
}

#[test]
fn expression_keeps_its_tokens() {
    let tokens = tokenize("((x + 1) * (y - 2)) / z < 3 && TRUE").unwrap();
    let e = parse_expr(&tokens, 1).unwrap();
    let mut out = Vec::new();
    written(&e, &mut out);
    let expected: Vec<Token> = tokens
        .into_iter()
        .filter(|t| *t != Token::Op(Symbol::LParen) && *t != Token::Op(Symbol::RParen))
        .collect();
    assert_eq!(out, expected);
}
