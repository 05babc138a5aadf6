//! Utility module for parsing expressions.
//!
//! Expressions are parsed by precedence climbing (a Pratt parser): operators of a higher
//! precedence level bind tighter, and operators of one level associate to the left.

use vstd::prelude::*;
use crate::ast::{Expr, ExprV};
use crate::errors::{ParseError, at_line};
use crate::lexer::{Symbol, Token, TokenV, tokens_view};

verus! {

/// Returns the precedence level of an operator token.
pub open spec fn spec_precedence(t: TokenV, line: u32) -> Result<i64, ParseError> {
    match t {
        TokenV::Op(sym) => match sym {
            Symbol::Mul => Ok(5),
            Symbol::Div => Ok(5),
            Symbol::Add => Ok(4),
            Symbol::Sub => Ok(4),
            Symbol::Lt => Ok(3),
            Symbol::Gt => Ok(3),
            Symbol::Le => Ok(3),
            Symbol::Ge => Ok(3),
            Symbol::Eq => Ok(2),
            Symbol::Neq => Ok(2),
            Symbol::And => Ok(1),
            Symbol::Or => Ok(1),
            _ => Err(ParseError::UnexpectedToken(line)),
        },
        _ => Err(ParseError::InvalidExpression(line)),
    }
}

/// Parses an atom (a literal, a variable, or a parenthesized expression) at position `pos`.
/// On success, gives the expression and the position after it.
pub open spec fn spec_atom(ts: Seq<TokenV>, pos: int, line: u32) -> Result<(ExprV, int), ParseError>
    decreases ts.len() - pos, 1int,
{
    if pos < 0 || pos >= ts.len() {
        Err(ParseError::UnexpectedToken(line))
    } else {
        match ts[pos] {
            TokenV::Op(Symbol::LParen) => match spec_pratt(ts, pos + 1, 0, line) {
                Err(e) => Err(e),
                Ok((e, p)) => if 0 <= p < ts.len() && ts[p] == TokenV::Op(Symbol::RParen) {
                    Ok((e, p + 1))
                } else {
                    Err(ParseError::UnclosedParenthesis(line))
                },
            },
            TokenV::Integer(i) => Ok((ExprV::Integer(i), pos + 1)),
            TokenV::Boolean(b) => Ok((ExprV::Boolean(b), pos + 1)),
            TokenV::Identifier(x) => Ok((ExprV::Variable(x), pos + 1)),
            _ => Err(ParseError::UnexpectedToken(line)),
        }
    }
}

/// Parses an expression at position `pos` whose operators all bind tighter than `prev`.
pub open spec fn spec_pratt(ts: Seq<TokenV>, pos: int, prev: i64, line: u32) -> Result<
    (ExprV, int),
    ParseError,
>
    decreases ts.len() - pos, 2int,
{
    match spec_atom(ts, pos, line) {
        Err(e) => Err(e),
        Ok((lhs, p)) => if pos < p <= ts.len() {
            spec_pratt_loop(ts, p, lhs, prev, line)
        } else {
            Ok((lhs, p))
        },
    }
}

/// Extends `lhs`, which ends at position `p`, with operators that bind tighter than `prev`.
pub open spec fn spec_pratt_loop(ts: Seq<TokenV>, p: int, lhs: ExprV, prev: i64, line: u32) -> Result<
    (ExprV, int),
    ParseError,
>
    decreases ts.len() - p, 3int,
{
    if p < 0 || p >= ts.len() {
        Ok((lhs, p))
    } else if ts[p] == TokenV::Op(Symbol::RParen) {
        Ok((lhs, p))
    } else {
        match spec_precedence(ts[p], line) {
            Err(e) => Err(e),
            Ok(q) => if !(q > prev) {
                Ok((lhs, p))
            } else {
                match ts[p] {
                    TokenV::Op(sym) => match spec_pratt(ts, p + 1, q, line) {
                        Err(e) => Err(e),
                        Ok((rhs, p2)) => {
                            let e = ExprV::BinOp { lhs: Box::new(lhs), op: sym, rhs: Box::new(rhs) };
                            if p < p2 <= ts.len() {
                                spec_pratt_loop(ts, p2, e, prev, line)
                            } else {
                                Ok((e, p2))
                            }
                        },
                    },
                    _ => Err(ParseError::InvalidExpression(line)),
                }
            },
        }
    }
}

/// The result of parsing a whole token sequence as one expression.
pub open spec fn spec_parse_expr(ts: Seq<TokenV>, line: u32) -> Result<ExprV, ParseError> {
    if ts.len() == 0 {
        Err(ParseError::MissingExpression(line))
    } else {
        match spec_pratt(ts, 0, 0, line) {
            Err(e) => Err(e),
            Ok((e, p)) => if p < ts.len() {
                Err(ParseError::TrailingParenthesis(line))
            } else {
                Ok(e)
            },
        }
    }
}

/// The mathematical value of a partial parse.
pub open spec fn partial_view(r: Result<(Expr, usize), ParseError>) -> Result<(ExprV, int), ParseError> {
    match r {
        Ok((e, p)) => Ok((e@, p as int)),
        Err(err) => Err(err),
    }
}

/// The mathematical value of an expression parse.
pub open spec fn expr_result_view(r: Result<Expr, ParseError>) -> Result<ExprV, ParseError> {
    match r {
        Ok(e) => Ok(e@),
        Err(err) => Err(err),
    }
}

/// Returns the precedence level of an operator.
pub fn precedence(token: &Token, line: u32) -> (r: Result<i64, ParseError>)
    ensures
        r == spec_precedence(token@, line),
{
    match token {
        Token::Op(sym) => match sym {
            Symbol::Mul => Ok(5),
            Symbol::Div => Ok(5),
            Symbol::Add => Ok(4),
            Symbol::Sub => Ok(4),
            Symbol::Lt => Ok(3),
            Symbol::Gt => Ok(3),
            Symbol::Le => Ok(3),
            Symbol::Ge => Ok(3),
            Symbol::Eq => Ok(2),
            Symbol::Neq => Ok(2),
            Symbol::And => Ok(1),
            Symbol::Or => Ok(1),
            _ => Err(ParseError::UnexpectedToken(line)),
        },
        _ => Err(ParseError::InvalidExpression(line)),
    }
}

fn is_rparen(t: &Token) -> (r: bool)
    ensures
        r == (t@ == TokenV::Op(Symbol::RParen)),
{
    match t {
        Token::Op(Symbol::RParen) => true,
        _ => false,
    }
}

/// Parses an atomic value.
fn parse_atom(ts: &[Token], pos: usize, line: u32) -> (r: Result<(Expr, usize), ParseError>)
    requires
        pos <= ts.len(),
    ensures
        partial_view(r) == spec_atom(tokens_view(ts@), pos as int, line),
        r matches Ok((_, p)) ==> pos < p <= ts.len(),
    decreases ts.len() - pos, 1int,
{
    let ghost v = tokens_view(ts@);
    if pos >= ts.len() {
        return Err(ParseError::UnexpectedToken(line));
    }
    assert(v[pos as int] == ts@[pos as int]@);
    match &ts[pos] {
        Token::Op(Symbol::LParen) => {
            let (expr, p) = match pratt_parser(ts, pos + 1, 0, line) {
                Ok(res) => res,
                Err(e) => {
                    return Err(e);
                },
            };
            // peel right parenthesis
            if p < ts.len() && is_rparen(&ts[p]) {
                assert(v[p as int] == ts@[p as int]@);
                Ok((expr, p + 1))
            } else {
                proof {
                    if 0 <= p < ts.len() {
                        assert(v[p as int] == ts@[p as int]@);
                    }
                }
                Err(ParseError::UnclosedParenthesis(line))
            }
        },
        Token::Integer(i) => Ok((Expr::Integer(*i), pos + 1)),
        Token::Boolean(b) => Ok((Expr::Boolean(*b), pos + 1)),
        Token::Identifier(x) => Ok((Expr::Variable(x.clone()), pos + 1)),
        _ => Err(ParseError::UnexpectedToken(line)),
    }
}

/// Parses expressions with operator precedence.
///
/// This implementation uses recursion to parse expressions by operator level (see
/// [precedence]). It does not handle right-associative operators such as *exponents* and
/// *assignments*.
///
/// See: <https://en.wikipedia.org/wiki/Operator_associativity>
fn pratt_parser(ts: &[Token], pos: usize, prev_prec: i64, line: u32) -> (r: Result<
    (Expr, usize),
    ParseError,
>)
    requires
        pos <= ts.len(),
    ensures
        partial_view(r) == spec_pratt(tokens_view(ts@), pos as int, prev_prec, line),
        r matches Ok((_, p)) ==> pos < p <= ts.len(),
    decreases ts.len() - pos, 2int,
{
    let ghost v = tokens_view(ts@);
    let (mut lhs, mut p) = match parse_atom(ts, pos, line) {
        Ok(res) => res,
        Err(e) => {
            return Err(e);
        },
    };
    while p < ts.len()
        invariant
            v == tokens_view(ts@),
            pos < p <= ts.len(),
            spec_pratt(v, pos as int, prev_prec, line) == spec_pratt_loop(
                v,
                p as int,
                lhs@,
                prev_prec,
                line,
            ),
        ensures
            pos < p <= ts.len(),
            spec_pratt(v, pos as int, prev_prec, line) == Ok::<(ExprV, int), ParseError>(
                (lhs@, p as int),
            ),
        decreases ts.len() - p,
    {
        assert(v[p as int] == ts@[p as int]@);
        if is_rparen(&ts[p]) {
            break ;
        }
        let q = match precedence(&ts[p], line) {
            Ok(q) => q,
            Err(e) => {
                return Err(e);
            },
        };
        if !(q > prev_prec) {
            break ;
        }
        let sym = match &ts[p] {
            Token::Op(sym) => *sym,
            _ => {
                return Err(ParseError::InvalidExpression(line));
            },
        };
        let (rhs, p2) = match pratt_parser(ts, p + 1, q, line) {
            Ok(res) => res,
            Err(e) => {
                return Err(e);
            },
        };
        lhs = Expr::BinOp { lhs: Box::new(lhs), op: sym, rhs: Box::new(rhs) };
        p = p2;
    }
    Ok((lhs, p))
}

/// Parses an expression from a slice of tokens.
pub fn parse_expr(tokens: &[Token], line: u32) -> (r: Result<Expr, ParseError>)
    ensures
        expr_result_view(r) == spec_parse_expr(tokens_view(tokens@), line),
{
    if tokens.len() == 0 {
        return Err(ParseError::MissingExpression(line));
    }
    let expr = pratt_parser(tokens, 0, 0, line);
    match expr {
        Ok((e, p)) => {
            if p < tokens.len() {
                Err(ParseError::TrailingParenthesis(line))
            } else {
                Ok(e)
            }
        },
        Err(e) => Err(e),
    }
}

/// A token that is an atom by itself: a literal or an identifier.
pub open spec fn is_atom(t: TokenV) -> bool {
    t is Integer || t is Boolean || t is Identifier
}

/// The expression of an atom token.
pub open spec fn atom_expr(t: TokenV) -> ExprV {
    match t {
        TokenV::Integer(i) => ExprV::Integer(i),
        TokenV::Boolean(b) => ExprV::Boolean(b),
        TokenV::Identifier(x) => ExprV::Variable(x),
        _ => ExprV::Boolean(false),
    }
}

/// The binary operation of `lhs`, the operator token `op` and `rhs`.
pub open spec fn bin(lhs: ExprV, op: TokenV, rhs: ExprV) -> ExprV {
    ExprV::BinOp { lhs: Box::new(lhs), op: op->Op_0, rhs: Box::new(rhs) }
}

/// **Precedence and associativity.** In `a o1 b o2 c`, where `a`, `b` and `c` are atoms and
/// `o1`, `o2` binary operators, the first operator is applied first when its precedence
/// is at least that of the second (operators of one level associate to the left, so
/// expressions are evaluated left to right); otherwise the second is applied first.
pub proof fn theorem_precedence_and_associativity(
    a: TokenV,
    o1: TokenV,
    b: TokenV,
    o2: TokenV,
    c: TokenV,
    line: u32,
)
    requires
        is_atom(a),
        is_atom(b),
        is_atom(c),
        spec_precedence(o1, line) is Ok,
        spec_precedence(o2, line) is Ok,
    ensures
        spec_parse_expr(seq![a, o1, b, o2, c], line) == Ok::<ExprV, ParseError>(
            if spec_precedence(o1, line)->Ok_0 >= spec_precedence(o2, line)->Ok_0 {
                bin(bin(atom_expr(a), o1, atom_expr(b)), o2, atom_expr(c))
            } else {
                bin(atom_expr(a), o1, bin(atom_expr(b), o2, atom_expr(c)))
            },
        ),
{
    reveal_with_fuel(spec_pratt, 4);
    reveal_with_fuel(spec_pratt_loop, 4);
    reveal_with_fuel(spec_atom, 2);
    let ts = seq![a, o1, b, o2, c];
    let p1 = spec_precedence(o1, line)->Ok_0;
    let p2 = spec_precedence(o2, line)->Ok_0;
    assert(ts[0] == a && ts[1] == o1 && ts[2] == b && ts[3] == o2 && ts[4] == c);
    assert(spec_atom(ts, 4, line) == Ok::<(ExprV, int), ParseError>((atom_expr(c), 5)));
    assert(spec_pratt_loop(ts, 5, atom_expr(c), p2, line) == Ok::<(ExprV, int), ParseError>((atom_expr(c), 5)));
    assert(spec_pratt(ts, 4, p2, line) == Ok::<(ExprV, int), ParseError>((atom_expr(c), 5)));
    assert(spec_atom(ts, 2, line) == Ok::<(ExprV, int), ParseError>((atom_expr(b), 3)));
    if p1 >= p2 {
        assert(spec_pratt_loop(ts, 3, atom_expr(b), p1, line) == Ok::<(ExprV, int), ParseError>((atom_expr(b), 3)));
        assert(spec_pratt(ts, 2, p1, line) == Ok::<(ExprV, int), ParseError>((atom_expr(b), 3)));
    } else {
        assert(spec_pratt_loop(ts, 5, bin(atom_expr(b), o2, atom_expr(c)), p1, line) == Ok::<(ExprV, int), ParseError>((bin(atom_expr(b), o2, atom_expr(c)), 5)));
        assert(spec_pratt_loop(ts, 3, atom_expr(b), p1, line) == Ok::<(ExprV, int), ParseError>((bin(atom_expr(b), o2, atom_expr(c)), 5)));
        assert(spec_pratt(ts, 2, p1, line) == Ok::<(ExprV, int), ParseError>((bin(atom_expr(b), o2, atom_expr(c)), 5)));
    }
    assert(spec_atom(ts, 0, line) == Ok::<(ExprV, int), ParseError>((atom_expr(a), 1)));
}

/// Moves the end position of a successful partial parse by `off`.
pub open spec fn shifted(r: Result<(ExprV, int), ParseError>, off: int) -> Result<(ExprV, int), ParseError> {
    match r {
        Ok((e, p)) => Ok((e, p + off)),
        Err(err) => Err(err),
    }
}

proof fn lemma_atom_bounds(ts: Seq<TokenV>, pos: int, line: u32)
    requires
        0 <= pos <= ts.len(),
    ensures
        spec_atom(ts, pos, line) matches Ok((_, p)) ==> pos < p <= ts.len(),
    decreases ts.len() - pos, 1int,
{
    if pos < ts.len() && ts[pos] == TokenV::Op(Symbol::LParen) {
        lemma_pratt_bounds(ts, pos + 1, 0, line);
    }
}

proof fn lemma_pratt_bounds(ts: Seq<TokenV>, pos: int, prev: i64, line: u32)
    requires
        0 <= pos <= ts.len(),
    ensures
        spec_pratt(ts, pos, prev, line) matches Ok((_, p)) ==> pos < p <= ts.len(),
    decreases ts.len() - pos, 2int,
{
    lemma_atom_bounds(ts, pos, line);
    if let Ok((lhs, p)) = spec_atom(ts, pos, line) {
        lemma_loop_bounds(ts, p, lhs, prev, line);
    }
}

proof fn lemma_loop_bounds(ts: Seq<TokenV>, p: int, lhs: ExprV, prev: i64, line: u32)
    requires
        0 <= p <= ts.len(),
    ensures
        spec_pratt_loop(ts, p, lhs, prev, line) matches Ok((_, p2)) ==> p <= p2 <= ts.len(),
    decreases ts.len() - p, 3int,
{
    if p < ts.len() && ts[p] != TokenV::Op(Symbol::RParen) {
        if let Ok(q) = spec_precedence(ts[p], line) {
            if q > prev {
                lemma_pratt_bounds(ts, p + 1, q, line);
                if let Ok((rhs, p2)) = spec_pratt(ts, p + 1, q, line) {
                    let e = ExprV::BinOp { lhs: Box::new(lhs), op: ts[p]->Op_0, rhs: Box::new(rhs) };
                    lemma_loop_bounds(ts, p2, e, prev, line);
                }
            }
        }
    }
}

/// Tokens of `ts` keep their meaning inside `l + ts + r` when `r` starts with `)`.
proof fn lemma_embed_index(ts: Seq<TokenV>, l: Seq<TokenV>, r: Seq<TokenV>, k: int)
    requires
        0 <= k <= ts.len(),
        r.len() >= 1,
    ensures
        (l + ts + r).len() == l.len() + ts.len() + r.len(),
        k < ts.len() ==> (l + ts + r)[k + l.len()] == ts[k],
        k == ts.len() ==> (l + ts + r)[k + l.len()] == r[0],
{
}

proof fn lemma_shift_atom(ts: Seq<TokenV>, l: Seq<TokenV>, r: Seq<TokenV>, pos: int, line: u32)
    requires
        0 <= pos <= ts.len(),
        r.len() >= 1,
        r[0] == TokenV::Op(Symbol::RParen),
        spec_atom(ts, pos, line) is Ok,
    ensures
        spec_atom(l + ts + r, pos + l.len(), line) == shifted(spec_atom(ts, pos, line), l.len() as int),
    decreases ts.len() - pos, 1int,
{
    let w = l + ts + r;
    lemma_embed_index(ts, l, r, pos);
    if ts[pos] == TokenV::Op(Symbol::LParen) {
        lemma_shift_pratt(ts, l, r, pos + 1, 0, line);
        lemma_pratt_bounds(ts, pos + 1, 0, line);
        let p = spec_pratt(ts, pos + 1, 0, line)->Ok_0.1;
        lemma_embed_index(ts, l, r, p);
    }
}

proof fn lemma_shift_pratt(ts: Seq<TokenV>, l: Seq<TokenV>, r: Seq<TokenV>, pos: int, prev: i64, line: u32)
    requires
        0 <= pos <= ts.len(),
        r.len() >= 1,
        r[0] == TokenV::Op(Symbol::RParen),
        spec_pratt(ts, pos, prev, line) is Ok,
    ensures
        spec_pratt(l + ts + r, pos + l.len(), prev, line) == shifted(
            spec_pratt(ts, pos, prev, line),
            l.len() as int,
        ),
    decreases ts.len() - pos, 2int,
{
    lemma_atom_bounds(ts, pos, line);
    lemma_shift_atom(ts, l, r, pos, line);
    let (lhs, p) = spec_atom(ts, pos, line)->Ok_0;
    lemma_shift_loop(ts, l, r, p, lhs, prev, line);
}

proof fn lemma_shift_loop(
    ts: Seq<TokenV>,
    l: Seq<TokenV>,
    r: Seq<TokenV>,
    p: int,
    lhs: ExprV,
    prev: i64,
    line: u32,
)
    requires
        0 <= p <= ts.len(),
        r.len() >= 1,
        r[0] == TokenV::Op(Symbol::RParen),
        spec_pratt_loop(ts, p, lhs, prev, line) is Ok,
    ensures
        spec_pratt_loop(l + ts + r, p + l.len(), lhs, prev, line) == shifted(
            spec_pratt_loop(ts, p, lhs, prev, line),
            l.len() as int,
        ),
    decreases ts.len() - p, 3int,
{
    lemma_embed_index(ts, l, r, p);
    if p < ts.len() && ts[p] != TokenV::Op(Symbol::RParen) {
        let q = spec_precedence(ts[p], line)->Ok_0;
        if q > prev {
            lemma_shift_pratt(ts, l, r, p + 1, q, line);
            lemma_pratt_bounds(ts, p + 1, q, line);
            let (rhs, p2) = spec_pratt(ts, p + 1, q, line)->Ok_0;
            let e = ExprV::BinOp { lhs: Box::new(lhs), op: ts[p]->Op_0, rhs: Box::new(rhs) };
            lemma_shift_loop(ts, l, r, p2, e, prev, line);
        }
    }
}

/// **Parentheses.** Wrapping an expression that parses in parentheses gives the same
/// expression.
pub proof fn theorem_parentheses(ts: Seq<TokenV>, line: u32)
    requires
        spec_parse_expr(ts, line) is Ok,
    ensures
        spec_parse_expr(seq![TokenV::Op(Symbol::LParen)] + ts + seq![TokenV::Op(Symbol::RParen)], line)
            == spec_parse_expr(ts, line),
{
    let l = seq![TokenV::Op(Symbol::LParen)];
    let r = seq![TokenV::Op(Symbol::RParen)];
    let w = l + ts + r;
    lemma_pratt_bounds(ts, 0, 0, line);
    lemma_shift_pratt(ts, l, r, 0, 0, line);
    let (e, p) = spec_pratt(ts, 0, 0, line)->Ok_0;
    assert(p == ts.len());
    lemma_embed_index(ts, l, r, p);
    assert(w[0] == TokenV::Op(Symbol::LParen));
    assert(spec_atom(w, 0, line) == Ok::<(ExprV, int), ParseError>((e, ts.len() + 2int)));
    assert(spec_pratt_loop(w, ts.len() + 2int, e, 0, line) == Ok::<(ExprV, int), ParseError>((e, ts.len() + 2int)));
}

/// A parse result with its error, if any, reported at line `l`.
pub open spec fn relined<T>(r: Result<T, ParseError>, l: u32) -> Result<T, ParseError> {
    match r {
        Ok(x) => Ok(x),
        Err(e) => Err(at_line(e, l)),
    }
}

proof fn lemma_atom_line(ts: Seq<TokenV>, pos: int, l1: u32, l2: u32)
    ensures
        spec_atom(ts, pos, l2) == relined(spec_atom(ts, pos, l1), l2),
    decreases ts.len() - pos, 1int,
{
    if 0 <= pos < ts.len() && ts[pos] == TokenV::Op(Symbol::LParen) {
        lemma_pratt_line(ts, pos + 1, 0, l1, l2);
    }
}

proof fn lemma_pratt_line(ts: Seq<TokenV>, pos: int, prev: i64, l1: u32, l2: u32)
    ensures
        spec_pratt(ts, pos, prev, l2) == relined(spec_pratt(ts, pos, prev, l1), l2),
    decreases ts.len() - pos, 2int,
{
    lemma_atom_line(ts, pos, l1, l2);
    if let Ok((lhs, p)) = spec_atom(ts, pos, l1) {
        if pos < p <= ts.len() {
            lemma_loop_line(ts, p, lhs, prev, l1, l2);
        }
    }
}

proof fn lemma_loop_line(ts: Seq<TokenV>, p: int, lhs: ExprV, prev: i64, l1: u32, l2: u32)
    ensures
        spec_pratt_loop(ts, p, lhs, prev, l2) == relined(spec_pratt_loop(ts, p, lhs, prev, l1), l2),
    decreases ts.len() - p, 3int,
{
    if 0 <= p < ts.len() && ts[p] != TokenV::Op(Symbol::RParen) {
        if let Ok(q) = spec_precedence(ts[p], l1) {
            if q > prev {
                if let TokenV::Op(sym) = ts[p] {
                    lemma_pratt_line(ts, p + 1, q, l1, l2);
                    if let Ok((rhs, p2)) = spec_pratt(ts, p + 1, q, l1) {
                        let e = ExprV::BinOp { lhs: Box::new(lhs), op: sym, rhs: Box::new(rhs) };
                        if p < p2 <= ts.len() {
                            lemma_loop_line(ts, p2, e, prev, l1, l2);
                        }
                    }
                }
            }
        }
    }
}

/// The line number given to the expression parser appears in its errors and nowhere else.
pub proof fn lemma_parse_expr_line(ts: Seq<TokenV>, l1: u32, l2: u32)
    ensures
        spec_parse_expr(ts, l2) == relined(spec_parse_expr(ts, l1), l2),
{
    lemma_pratt_line(ts, 0, 0, l1, l2);
}

/// The tokens that an expression is written with, leaving out parentheses.
pub open spec fn expr_tokens(e: ExprV) -> Seq<TokenV>
    decreases e,
{
    match e {
        ExprV::Boolean(b) => seq![TokenV::Boolean(b)],
        ExprV::Integer(i) => seq![TokenV::Integer(i)],
        ExprV::Variable(x) => seq![TokenV::Identifier(x)],
        ExprV::BinOp { lhs, op, rhs } => expr_tokens(*lhs) + seq![TokenV::Op(op)] + expr_tokens(*rhs),
    }
}

/// Whether a token is a parenthesis.
pub open spec fn is_paren(t: TokenV) -> bool {
    t == TokenV::Op(Symbol::LParen) || t == TokenV::Op(Symbol::RParen)
}

/// A token sequence without its parentheses.
pub open spec fn unparenthesized(ts: Seq<TokenV>) -> Seq<TokenV>
    decreases ts.len(),
{
    if ts.len() == 0 {
        Seq::empty()
    } else {
        unparenthesized(ts.drop_last()) + if is_paren(ts.last()) {
            Seq::<TokenV>::empty()
        } else {
            seq![ts.last()]
        }
    }
}

proof fn lemma_unparenthesized_add(a: Seq<TokenV>, b: Seq<TokenV>)
    ensures
        unparenthesized(a + b) == unparenthesized(a) + unparenthesized(b),
    decreases b.len(),
{
    if b.len() == 0 {
        assert(a + b =~= a);
        assert(unparenthesized(a) + unparenthesized(b) =~= unparenthesized(a));
    } else {
        lemma_unparenthesized_add(a, b.drop_last());
        assert((a + b).drop_last() =~= a + b.drop_last());
        assert((a + b).last() == b.last());
        let tail = if is_paren(b.last()) { Seq::<TokenV>::empty() } else { seq![b.last()] };
        assert(unparenthesized(a) + unparenthesized(b.drop_last()) + tail =~= unparenthesized(a) + (
        unparenthesized(b.drop_last()) + tail));
    }
}

/// The tokens of `ts` from `i` to `k` without parentheses are those from `i` to `j` and
/// from `j` to `k`.
proof fn lemma_unparenthesized_split(ts: Seq<TokenV>, i: int, j: int, k: int)
    requires
        0 <= i <= j <= k <= ts.len(),
    ensures
        unparenthesized(ts.subrange(i, k)) == unparenthesized(ts.subrange(i, j)) + unparenthesized(
            ts.subrange(j, k),
        ),
{
    assert(ts.subrange(i, k) =~= ts.subrange(i, j) + ts.subrange(j, k));
    lemma_unparenthesized_add(ts.subrange(i, j), ts.subrange(j, k));
}

proof fn lemma_unparenthesized_one(ts: Seq<TokenV>, i: int)
    requires
        0 <= i < ts.len(),
    ensures
        unparenthesized(ts.subrange(i, i + 1)) == if is_paren(ts[i]) {
            Seq::<TokenV>::empty()
        } else {
            seq![ts[i]]
        },
{
    let one = ts.subrange(i, i + 1);
    assert(one.drop_last() =~= Seq::<TokenV>::empty());
    assert(one.last() == ts[i]);
    assert(unparenthesized(Seq::<TokenV>::empty()) == Seq::<TokenV>::empty());
    assert(Seq::<TokenV>::empty() + seq![ts[i]] =~= seq![ts[i]]);
    assert(Seq::<TokenV>::empty() + Seq::<TokenV>::empty() =~= Seq::<TokenV>::empty());
}

proof fn lemma_atom_tokens(ts: Seq<TokenV>, pos: int, line: u32)
    requires
        0 <= pos <= ts.len(),
    ensures
        spec_atom(ts, pos, line) matches Ok((e, p)) ==> pos < p <= ts.len() && expr_tokens(e)
            == unparenthesized(ts.subrange(pos, p)),
    decreases ts.len() - pos, 1int,
{
    lemma_atom_bounds(ts, pos, line);
    if pos < ts.len() {
        lemma_unparenthesized_one(ts, pos);
        if ts[pos] == TokenV::Op(Symbol::LParen) {
            lemma_pratt_tokens(ts, pos + 1, 0, line);
            if let Ok((e, p)) = spec_pratt(ts, pos + 1, 0, line) {
                if 0 <= p < ts.len() && ts[p] == TokenV::Op(Symbol::RParen) {
                    lemma_unparenthesized_split(ts, pos, pos + 1, p + 1);
                    lemma_unparenthesized_split(ts, pos + 1, p, p + 1);
                    lemma_unparenthesized_one(ts, p);
                    assert(Seq::<TokenV>::empty() + (expr_tokens(e) + Seq::<TokenV>::empty()) =~= expr_tokens(e));
                }
            }
        }
    }
}

proof fn lemma_pratt_tokens(ts: Seq<TokenV>, pos: int, prev: i64, line: u32)
    requires
        0 <= pos <= ts.len(),
    ensures
        spec_pratt(ts, pos, prev, line) matches Ok((e, p)) ==> pos < p <= ts.len() && expr_tokens(e)
            == unparenthesized(ts.subrange(pos, p)),
    decreases ts.len() - pos, 2int,
{
    lemma_atom_tokens(ts, pos, line);
    if let Ok((lhs, p)) = spec_atom(ts, pos, line) {
        lemma_loop_tokens(ts, pos, p, lhs, prev, line);
    }
}

proof fn lemma_loop_tokens(ts: Seq<TokenV>, s: int, p: int, lhs: ExprV, prev: i64, line: u32)
    requires
        0 <= s < p <= ts.len(),
        expr_tokens(lhs) == unparenthesized(ts.subrange(s, p)),
    ensures
        spec_pratt_loop(ts, p, lhs, prev, line) matches Ok((e, p2)) ==> p <= p2 <= ts.len()
            && expr_tokens(e) == unparenthesized(ts.subrange(s, p2)),
    decreases ts.len() - p, 3int,
{
    if p < ts.len() && ts[p] != TokenV::Op(Symbol::RParen) {
        if let Ok(q) = spec_precedence(ts[p], line) {
            if q > prev {
                if let TokenV::Op(sym) = ts[p] {
                    lemma_pratt_tokens(ts, p + 1, q, line);
                    if let Ok((rhs, p2)) = spec_pratt(ts, p + 1, q, line) {
                        let e = ExprV::BinOp { lhs: Box::new(lhs), op: sym, rhs: Box::new(rhs) };
                        lemma_unparenthesized_split(ts, s, p, p2);
                        lemma_unparenthesized_split(ts, p, p + 1, p2);
                        lemma_unparenthesized_one(ts, p);
                        assert(!is_paren(ts[p]));
                        assert(expr_tokens(e) =~= unparenthesized(ts.subrange(s, p2)));
                        lemma_loop_tokens(ts, s, p2, e, prev, line);
                    }
                }
            }
        }
    }
}

/// **An expression is its tokens.** The expression parsed from a token sequence is written
/// with the same tokens, in the same order, but for the parentheses.
pub proof fn theorem_expression_tokens(ts: Seq<TokenV>, line: u32)
    ensures
        spec_parse_expr(ts, line) matches Ok(e) ==> expr_tokens(e) == unparenthesized(ts),
{
    lemma_pratt_tokens(ts, 0, 0, line);
    assert(ts.subrange(0, ts.len() as int) =~= ts);
}

/// The binding group of a binary operator, from the loosest to the tightest: `&&` and `||`,
/// then `==` and `!=`, then `<`, `>`, `<=` and `>=`, then `+` and `-`, then `*` and `/`.
/// Other symbols are no binary operators (group 0).
pub open spec fn operator_group(s: Symbol) -> int {
    if s == Symbol::And || s == Symbol::Or {
        1
    } else if s == Symbol::Eq || s == Symbol::Neq {
        2
    } else if s == Symbol::Lt || s == Symbol::Gt || s == Symbol::Le || s == Symbol::Ge {
        3
    } else if s == Symbol::Add || s == Symbol::Sub {
        4
    } else if s == Symbol::Mul || s == Symbol::Div {
        5
    } else {
        0
    }
}

/// **Operator groups.** For atoms `a`, `b`, `c` and binary operators `o1`, `o2`, the
/// expression `a o1 b o2 c` applies `o2` first exactly when `o2` is in a tighter group
/// than `o1`; operators of one group associate to the left.
pub proof fn theorem_operator_groups(a: TokenV, o1: Symbol, b: TokenV, o2: Symbol, c: TokenV, line: u32)
    requires
        is_atom(a),
        is_atom(b),
        is_atom(c),
        operator_group(o1) > 0,
        operator_group(o2) > 0,
    ensures
        spec_parse_expr(seq![a, TokenV::Op(o1), b, TokenV::Op(o2), c], line) == Ok::<ExprV, ParseError>(
            if operator_group(o2) > operator_group(o1) {
                ExprV::BinOp {
                    lhs: Box::new(atom_expr(a)),
                    op: o1,
                    rhs: Box::new(ExprV::BinOp { lhs: Box::new(atom_expr(b)), op: o2, rhs: Box::new(atom_expr(c)) }),
                }
            } else {
                ExprV::BinOp {
                    lhs: Box::new(ExprV::BinOp { lhs: Box::new(atom_expr(a)), op: o1, rhs: Box::new(atom_expr(b)) }),
                    op: o2,
                    rhs: Box::new(atom_expr(c)),
                }
            },
        ),
{
    assert(spec_precedence(TokenV::Op(o1), line) == Ok::<i64, ParseError>(operator_group(o1) as i64));
    assert(spec_precedence(TokenV::Op(o2), line) == Ok::<i64, ParseError>(operator_group(o2) as i64));
    theorem_precedence_and_associativity(a, TokenV::Op(o1), b, TokenV::Op(o2), c, line);
}

/// **Multiplication before subtraction.** `a - b * c` is `a - (b * c)`, and likewise for
/// `+` and `/`; `a * b - c` is `(a * b) - c`.
pub proof fn theorem_arithmetic_precedence(a: TokenV, o1: Symbol, b: TokenV, o2: Symbol, c: TokenV, line: u32)
    requires
        is_atom(a),
        is_atom(b),
        is_atom(c),
        o1 == Symbol::Add || o1 == Symbol::Sub,
        o2 == Symbol::Mul || o2 == Symbol::Div,
    ensures
        spec_parse_expr(seq![a, TokenV::Op(o1), b, TokenV::Op(o2), c], line) == Ok::<ExprV, ParseError>(
            ExprV::BinOp {
                lhs: Box::new(atom_expr(a)),
                op: o1,
                rhs: Box::new(ExprV::BinOp { lhs: Box::new(atom_expr(b)), op: o2, rhs: Box::new(atom_expr(c)) }),
            },
        ),
        spec_parse_expr(seq![a, TokenV::Op(o2), b, TokenV::Op(o1), c], line) == Ok::<ExprV, ParseError>(
            ExprV::BinOp {
                lhs: Box::new(ExprV::BinOp { lhs: Box::new(atom_expr(a)), op: o2, rhs: Box::new(atom_expr(b)) }),
                op: o1,
                rhs: Box::new(atom_expr(c)),
            },
        ),
{
    theorem_operator_groups(a, o1, b, o2, c, line);
    theorem_operator_groups(a, o2, b, o1, c, line);
}

} // verus!
