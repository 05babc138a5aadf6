use wp_verifier::errors::LexError;
use wp_verifier::lexer::{tokenize, Symbol, Token};

#[test]
fn test_whitespace() {
    assert_eq!(
        tokenize("\n \t \n").unwrap(),
        vec![Token::Newline, Token::Newline]
    );
}

#[test]
fn test_keywords() {
    let keywords = [
        ("TRUE", vec![Token::Boolean(true)]),
        ("FALSE", vec![Token::Boolean(false)]),
        ("var", vec![Token::Declare]),
        ("assume", vec![Token::Assume]),
        ("assert", vec![Token::Assert]),
        ("if", vec![Token::If]),
        ("then", vec![Token::Then]),
        ("else", vec![Token::Else]),
        ("while", vec![Token::While]),
        ("invariant", vec![Token::Invariant]),
        ("end", vec![Token::End]),
    ];

    for (kw, expected) in keywords {
        assert_eq!(tokenize(kw).unwrap(), expected);
    }
}

#[test]
fn test_identifiers() {
    for ch in ('a'..='z').chain('A'..='Z') {
        let input = ch.to_string();
        assert_eq!(tokenize(&input).unwrap(), vec![Token::Identifier(input)]);
    }
}

#[test]
fn test_integers() {
    for n in -10..=10 {
        assert_eq!(tokenize(&n.to_string()).unwrap(), vec![Token::Integer(n)]);
    }
}

#[test]
fn test_symbols() {
    let operators = [
        ("+", vec![Token::Op(Symbol::Add)]),
        ("-", vec![Token::Op(Symbol::Sub)]),
        ("*", vec![Token::Op(Symbol::Mul)]),
        ("/", vec![Token::Op(Symbol::Div)]),
        ("<", vec![Token::Op(Symbol::Lt)]),
        (">", vec![Token::Op(Symbol::Gt)]),
        ("<=", vec![Token::Op(Symbol::Le)]),
        (">=", vec![Token::Op(Symbol::Ge)]),
        ("==", vec![Token::Op(Symbol::Eq)]),
        ("!=", vec![Token::Op(Symbol::Neq)]),
        ("&&", vec![Token::Op(Symbol::And)]),
        ("||", vec![Token::Op(Symbol::Or)]),
        (":=", vec![Token::Op(Symbol::Assign)]),
        ("(", vec![Token::Op(Symbol::LParen)]),
        (")", vec![Token::Op(Symbol::RParen)]),
        (",", vec![Token::Comma]),
    ];

    for (op, expected) in operators {
        assert_eq!(tokenize(op).unwrap(), expected);
    }
}

#[test]
fn test_invalid_tokens() {
    let allowed = [
        ">", "<", ">=", "<=", "&&", "||", ":=", "+", "-", "*", "/", ",", "(", ")",
    ];

    let invalid_inputs: Vec<String> = (0..0x7F)
        .filter_map(std::char::from_u32)
        .filter(|c| !c.is_ascii_alphanumeric())
        .filter(|c| !c.is_whitespace())
        .filter(|c| !allowed.iter().any(|s| s.starts_with(*c)))
        .map(|c| c.to_string())
        .collect();

    for inp in invalid_inputs {
        assert_eq!(tokenize(&inp).unwrap_err(), LexError::InvalidToken(inp));
    }
}

#[test]
fn test_example() {
    let source = r#"
        var x, y
        x := 42
        if x >= 10 && TRUE then
            assert x != 0
        end
        "#;

    assert_eq!(
        tokenize(source).unwrap(),
        vec![
            Token::Newline,
            Token::Declare,
            Token::Identifier("x".into()),
            Token::Comma,
            Token::Identifier("y".into()),
            Token::Newline,
            Token::Identifier("x".into()),
            Token::Op(Symbol::Assign),
            Token::Integer(42),
            Token::Newline,
            Token::If,
            Token::Identifier("x".into()),
            Token::Op(Symbol::Ge),
            Token::Integer(10),
            Token::Op(Symbol::And),
            Token::Boolean(true),
            Token::Then,
            Token::Newline,
            Token::Assert,
            Token::Identifier("x".into()),
            Token::Op(Symbol::Neq),
            Token::Integer(0),
            Token::Newline,
            Token::End,
            Token::Newline,
        ]
    );
}
