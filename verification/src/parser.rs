//! Parsing engine for building intermediate representations.
//!
//! The token stream is split into lines at [Token::Newline]; each line holds one statement.
//! Blocks of statements end at an `else` or `end` line, or at the end of the stream.

use vstd::prelude::*;
use crate::ast::{Block, Expr, ExprV, Stmt, StmtV, lemma_stmts_view, names_view, stmts_view};
use crate::errors::{ParseError, at_line, parse_error_line};
use crate::expr::{parse_expr, spec_parse_expr, expr_result_view, lemma_parse_expr_line, relined};
use crate::lexer::{Symbol, Token, TokenV, tokens_view};

verus! {

/// Splits a token sequence into lines at each newline token. A sequence with `n` newlines
/// has `n + 1` lines, some of which may be empty.
pub open spec fn split_lines(ts: Seq<TokenV>) -> Seq<Seq<TokenV>>
    decreases ts.len(),
{
    if ts.len() == 0 {
        seq![Seq::empty()]
    } else {
        let rest = split_lines(ts.drop_last());
        if ts.last() == TokenV::Newline {
            rest.push(Seq::empty())
        } else {
            rest.update(rest.len() - 1, rest.last().push(ts.last()))
        }
    }
}

/// Control flow indicators.
#[derive(Debug, Clone, Copy, PartialEq, Eq, Structural)]
pub enum BlockTerminal {
    /// Beginning of an else branch.
    Else,
    /// End of the current scope.
    End,
    /// End of the token stream.
    EOF,
}

/// The outcome of parsing a block: its statements, the terminal that ended it, the index of
/// the next unread line and the current line number.
pub type BlockOutcome = Result<(Seq<StmtV>, BlockTerminal, int, int), ParseError>;

/// The outcome of parsing one statement: the statement, the index of the next unread line
/// and the current line number.
pub type StmtOutcome = Result<(StmtV, int, int), ParseError>;

/// Parses the names of a declaration after its first one: a comma and a name, repeated.
pub open spec fn spec_declare_rest(toks: Seq<TokenV>, i: int, line: u32) -> Result<
    Seq<Seq<char>>,
    ParseError,
>
    decreases toks.len() - i,
{
    if i < 0 || i >= toks.len() {
        Ok(Seq::empty())
    } else if toks[i] == TokenV::Comma {
        if i + 1 >= toks.len() {
            Err(ParseError::TrailingComma(line))
        } else {
            match toks[i + 1] {
                TokenV::Identifier(x) => match spec_declare_rest(toks, i + 2, line) {
                    Ok(rest) => Ok(seq![x] + rest),
                    Err(e) => Err(e),
                },
                _ => Err(ParseError::InvalidDeclare(line)),
            }
        }
    } else {
        Err(ParseError::MissingComma(line))
    }
}

/// Parses a variable declaration from the tokens that follow the `var` keyword.
pub open spec fn spec_declare(toks: Seq<TokenV>, line: u32) -> Result<StmtV, ParseError> {
    if toks.len() >= 1 && toks[0] is Identifier {
        match spec_declare_rest(toks, 1, line) {
            Ok(rest) => Ok(StmtV::Declare(seq![toks[0]->Identifier_0] + rest)),
            Err(e) => Err(e),
        }
    } else {
        Err(ParseError::InvalidDeclare(line))
    }
}

/// Parses a sequence of statements from line `pos` on, where `line` is the number of the
/// line read last.
pub open spec fn spec_block(ls: Seq<Seq<TokenV>>, pos: int, line: int) -> BlockOutcome
    decreases ls.len() - pos, 0int,
{
    let line1 = line + 1;
    if pos < 0 || pos >= ls.len() {
        Ok((Seq::empty(), BlockTerminal::EOF, pos, line1))
    } else {
        match spec_statement(ls, pos + 1, line1, ls[pos]) {
            Err(e) => Err(e),
            Ok((s, p, l)) => if !(pos < p <= ls.len()) {
                Err(ParseError::InvalidStatement(l as u32))
            } else {
                match s {
                    StmtV::Empty => spec_block(ls, p, l),
                    StmtV::End => Ok((Seq::empty(), BlockTerminal::End, p, l)),
                    StmtV::Else => Ok((Seq::empty(), BlockTerminal::Else, p, l)),
                    _ => match spec_block(ls, p, l) {
                        Err(e) => Err(e),
                        Ok((rest, t, p2, l2)) => Ok((seq![s] + rest, t, p2, l2)),
                    },
                }
            },
        }
    }
}

/// Parses an if-then-else conditional whose condition is `cond`; its branches start at
/// line `pos`.
pub open spec fn spec_if(ls: Seq<Seq<TokenV>>, pos: int, line: int, cond: Seq<TokenV>) -> StmtOutcome
    decreases ls.len() - pos, 1int,
{
    match spec_parse_expr(cond, line as u32) {
        Err(e) => Err(e),
        Ok(c) => match spec_block(ls, pos, line) {
            Err(e) => Err(e),
            Ok((then_branch, t, p1, l1)) => match t {
                BlockTerminal::End => Ok(
                    (StmtV::If { condition: c, then_branch, else_branch: None }, p1, l1),
                ),
                BlockTerminal::Else => if !(pos <= p1 <= ls.len()) {
                    Err(ParseError::ExpectedEnd(l1 as u32))
                } else {
                    match spec_block(ls, p1, l1) {
                        Err(e) => Err(e),
                        Ok((else_branch, t2, p2, l2)) => match t2 {
                            BlockTerminal::End => Ok(
                                (
                                    StmtV::If {
                                        condition: c,
                                        then_branch,
                                        else_branch: Some(else_branch),
                                    },
                                    p2,
                                    l2,
                                ),
                            ),
                            _ => Err(ParseError::ExpectedEnd(l2 as u32)),
                        },
                    }
                },
                BlockTerminal::EOF => Err(ParseError::ExpectedElseEnd(l1 as u32)),
            },
        },
    }
}

/// Parses a while loop whose condition is `cond`; its invariant is on line `pos` and its
/// body follows.
pub open spec fn spec_while(ls: Seq<Seq<TokenV>>, pos: int, line: int, cond: Seq<TokenV>) -> StmtOutcome
    decreases ls.len() - pos, 1int,
{
    match spec_parse_expr(cond, line as u32) {
        Err(e) => Err(e),
        Ok(c) => {
            let line1 = line + 1;
            if 0 <= pos < ls.len() && ls[pos].len() >= 1 && ls[pos][0] == TokenV::Invariant {
                match spec_parse_expr(ls[pos].skip(1), line1 as u32) {
                    Err(e) => Err(e),
                    Ok(inv) => match spec_block(ls, pos + 1, line1) {
                        Err(e) => Err(e),
                        Ok((body, t, p, l)) => match t {
                            BlockTerminal::End => Ok(
                                (StmtV::While { condition: c, loop_invariant: inv, body }, p, l),
                            ),
                            _ => Err(ParseError::ExpectedEnd(l as u32)),
                        },
                    },
                }
            } else {
                Err(ParseError::ExpectedInvariant(line1 as u32))
            }
        },
    }
}

/// Wraps a parsed expression into a statement, leaving the position unchanged.
pub open spec fn simple_stmt(
    r: Result<ExprV, ParseError>,
    f: spec_fn(ExprV) -> StmtV,
    pos: int,
    line: int,
) -> StmtOutcome {
    match r {
        Ok(e) => Ok((f(e), pos, line)),
        Err(e) => Err(e),
    }
}

/// Parses the statement on one line, `toks`; the lines after it start at `pos`.
pub open spec fn spec_statement(ls: Seq<Seq<TokenV>>, pos: int, line: int, toks: Seq<TokenV>) -> StmtOutcome
    decreases ls.len() - pos, 2int,
{
    let n = toks.len();
    if n >= 1 && toks[0] == TokenV::Declare {
        match spec_declare(toks.skip(1), line as u32) {
            Ok(s) => Ok((s, pos, line)),
            Err(e) => Err(e),
        }
    } else if n >= 1 && toks[0] == TokenV::Assume {
        simple_stmt(spec_parse_expr(toks.skip(1), line as u32), |e| StmtV::Assume(e), pos, line)
    } else if n >= 1 && toks[0] == TokenV::Assert {
        simple_stmt(spec_parse_expr(toks.skip(1), line as u32), |e| StmtV::Assert(e), pos, line)
    } else if n >= 2 && toks[1] == TokenV::Op(Symbol::Assign) {
        match toks[0] {
            TokenV::Identifier(x) => simple_stmt(
                spec_parse_expr(toks.skip(2), line as u32),
                |e| StmtV::Assign(x, e),
                pos,
                line,
            ),
            _ => Err(ParseError::InvalidAssign(line as u32)),
        }
    } else if n >= 2 && toks[0] == TokenV::If && toks[n - 1] == TokenV::Then {
        spec_if(ls, pos, line, toks.subrange(1, n - 1))
    } else if n >= 1 && toks[0] == TokenV::While {
        spec_while(ls, pos, line, toks.skip(1))
    } else if n == 1 && toks[0] == TokenV::Else {
        Ok((StmtV::Else, pos, line))
    } else if n == 1 && toks[0] == TokenV::End {
        Ok((StmtV::End, pos, line))
    } else if n == 0 {
        Ok((StmtV::Empty, pos, line))
    } else {
        Err(ParseError::InvalidStatement(line as u32))
    }
}

/// The result of parsing a whole token stream.
pub open spec fn spec_parse(ts: Seq<TokenV>) -> Result<Seq<StmtV>, ParseError> {
    match spec_block(split_lines(ts), 0, 0) {
        Err(e) => Err(e),
        Ok((b, t, _, l)) => match t {
            BlockTerminal::EOF => Ok(b),
            _ => Err(ParseError::ExpectedEof(l as u32)),
        },
    }
}

/// The mathematical value of the result of [parse].
pub open spec fn parse_result_view(r: Result<Block, ParseError>) -> Result<Seq<StmtV>, ParseError> {
    match r {
        Ok(b) => Ok(b@),
        Err(e) => Err(e),
    }
}

/// The lines that a sequence of index ranges cuts out of a token sequence.
pub open spec fn ranges_lines(v: Seq<TokenV>, b: Seq<(usize, usize)>) -> Seq<Seq<TokenV>> {
    Seq::new(b.len(), |i: int| v.subrange(b[i].0 as int, b[i].1 as int))
}

/// Each range is well-formed within a sequence of length `n`.
pub open spec fn ranges_wf(b: Seq<(usize, usize)>, n: int) -> bool {
    forall|i: int| 0 <= i < b.len() ==> b[i].0 <= #[trigger] b[i].1 <= n
}

/// Used to share the parser's current state across functions: the token stream, its lines,
/// the index of the next unread line and the number of the line read last.
pub struct ParseContext<'a> {
    tokens: &'a [Token],
    bounds: Vec<(usize, usize)>,
    pos: usize,
    line: u32,
}

impl<'a> ParseContext<'a> {
    /// The lines of the token stream.
    pub closed spec fn lines(&self) -> Seq<Seq<TokenV>> {
        ranges_lines(tokens_view(self.tokens@), self.bounds@)
    }

    /// The index of the next unread line.
    pub closed spec fn next_pos(&self) -> int {
        self.pos as int
    }

    /// The number of the line read last (1-based; 0 before any).
    pub closed spec fn line_number(&self) -> int {
        self.line as int
    }

    /// The context's fields are consistent.
    pub closed spec fn wf(&self) -> bool {
        &&& ranges_wf(self.bounds@, self.tokens@.len() as int)
        &&& self.pos <= self.bounds@.len()
    }

    /// Line numbers cannot overflow while the rest of the stream is parsed.
    pub open spec fn has_room(&self) -> bool {
        self.line_number() + (self.lines().len() - self.next_pos()) + 1 <= u32::MAX
    }

    /// Creates a context that reads `tokens` line by line, with `line` as the number of
    /// the line read last.
    pub fn new(tokens: &'a [Token], line: u32) -> (ctx: Self)
        ensures
            ctx.wf(),
            ctx.lines() == split_lines(tokens_view(tokens@)),
            ctx.next_pos() == 0,
            ctx.line_number() == line,
    {
        let bounds = split_bounds(tokens);
        ParseContext { tokens, bounds, pos: 0, line }
    }

    /// The number of the line read last.
    pub fn line(&self) -> (l: u32)
        ensures
            l == self.line_number(),
    {
        self.line
    }

    /// The next unread line, if any, without reading it.
    pub fn peek(&self) -> (r: Option<&'a [Token]>)
        requires
            self.wf(),
        ensures
            match r {
                Some(s) => 0 <= self.next_pos() < self.lines().len() && tokens_view(s@)
                    == self.lines()[self.next_pos()],
                None => self.next_pos() >= self.lines().len(),
            },
    {
        if self.pos < self.bounds.len() {
            let (a, b) = self.bounds[self.pos];
            let s = vstd::slice::slice_subrange(self.tokens, a, b);
            proof {
                lemma_view_subrange(self.tokens@, a as int, b as int);
            }
            Some(s)
        } else {
            None
        }
    }

    /// Reads the next line, if any.
    pub fn next_line(&mut self) -> (r: Option<&'a [Token]>)
        requires
            old(self).wf(),
        ensures
            final(self).wf(),
            final(self).lines() == old(self).lines(),
            final(self).line_number() == old(self).line_number(),
            match r {
                Some(s) => 0 <= old(self).next_pos() < old(self).lines().len() && tokens_view(
                    s@,
                ) == old(self).lines()[old(self).next_pos()] && final(self).next_pos() == old(self).next_pos() + 1,
                None => old(self).next_pos() >= old(self).lines().len() && final(self).next_pos()
                    == old(self).next_pos(),
            },
    {
        let r = self.peek();
        if self.pos < self.bounds.len() {
            self.pos = self.pos + 1;
        }
        r
    }
}

/// Viewing a part of a token sequence is taking that part of its view.
pub proof fn lemma_view_subrange(s: Seq<Token>, a: int, b: int)
    requires
        0 <= a <= b <= s.len(),
    ensures
        tokens_view(s.subrange(a, b)) == tokens_view(s).subrange(a, b),
{
    assert(tokens_view(s.subrange(a, b)) =~= tokens_view(s).subrange(a, b));
}

fn is_newline(t: &Token) -> (r: bool)
    ensures
        r == (t@ == TokenV::Newline),
{
    match t {
        Token::Newline => true,
        _ => false,
    }
}

/// The index ranges of the lines of a token stream.
fn split_bounds(tokens: &[Token]) -> (b: Vec<(usize, usize)>)
    ensures
        ranges_wf(b@, tokens@.len() as int),
        ranges_lines(tokens_view(tokens@), b@) == split_lines(tokens_view(tokens@)),
{
    let ghost v = tokens_view(tokens@);
    let n = tokens.len();
    let mut bounds: Vec<(usize, usize)> = Vec::new();
    let mut start: usize = 0;
    let mut i: usize = 0;
    assert(v.take(0) =~= Seq::<TokenV>::empty());
    assert(ranges_lines(v, bounds@).push(v.subrange(0, 0)) =~= split_lines(v.take(0)));
    while i < n
        invariant
            n == tokens@.len(),
            v == tokens_view(tokens@),
            start <= i <= n,
            ranges_wf(bounds@, i as int),
            ranges_lines(v, bounds@).push(v.subrange(start as int, i as int)) == split_lines(
                v.take(i as int),
            ),
        decreases n - i,
    {
        let ghost old_lines = ranges_lines(v, bounds@);
        let ghost old_start = start;
        assert(v.take(i + 1).drop_last() =~= v.take(i as int));
        assert(v.take(i + 1).last() == v[i as int]);
        if is_newline(&tokens[i]) {
            bounds.push((start, i));
            start = i + 1;
            assert(v.subrange(start as int, i + 1) =~= Seq::<TokenV>::empty());
            assert(ranges_lines(v, bounds@) =~= old_lines.push(v.subrange(old_start as int, i as int)));
            assert(ranges_lines(v, bounds@).push(v.subrange(start as int, i + 1)) =~= split_lines(
                v.take(i + 1),
            ));
        } else {
            assert(v.subrange(start as int, i + 1) =~= v.subrange(start as int, i as int).push(v[i as int]));
            assert(ranges_lines(v, bounds@).push(v.subrange(start as int, i + 1)) =~= split_lines(
                v.take(i + 1),
            ));
        }
        i = i + 1;
    }
    let ghost old_lines = ranges_lines(v, bounds@);
    bounds.push((start, n));
    assert(v.take(n as int) =~= v);
    assert(ranges_lines(v, bounds@) =~= old_lines.push(v.subrange(start as int, n as int)));
    bounds
}

/// The mathematical value of the result of parsing one statement.
pub open spec fn stmt_result_view(r: Result<Stmt, ParseError>) -> Result<StmtV, ParseError> {
    match r {
        Ok(s) => Ok(s@),
        Err(e) => Err(e),
    }
}

/// The outcome of a statement parse, with the context it left behind.
pub open spec fn stmt_outcome(r: Result<Stmt, ParseError>, ctx: ParseContext) -> StmtOutcome {
    match r {
        Ok(s) => Ok((s@, ctx.next_pos(), ctx.line_number())),
        Err(e) => Err(e),
    }
}

/// The outcome of a block parse, with the context it left behind.
pub open spec fn block_outcome(r: Result<(Block, BlockTerminal), ParseError>, ctx: ParseContext) -> BlockOutcome {
    match r {
        Ok((b, t)) => Ok((b@, t, ctx.next_pos(), ctx.line_number())),
        Err(e) => Err(e),
    }
}

/// Puts names in front of the names of a successful declaration parse.
pub open spec fn prefix_names(p: Seq<Seq<char>>, r: Result<Seq<Seq<char>>, ParseError>) -> Result<
    Seq<Seq<char>>,
    ParseError,
> {
    match r {
        Ok(x) => Ok(p + x),
        Err(e) => Err(e),
    }
}

/// Puts statements in front of the statements of a successful block parse.
pub open spec fn prefix_stmts(p: Seq<StmtV>, r: BlockOutcome) -> BlockOutcome {
    match r {
        Ok((b, t, pos, line)) => Ok((p + b, t, pos, line)),
        Err(e) => Err(e),
    }
}

/// Parses a variable declaration from a slice of tokens.
///
/// A valid declaration statement contains the `var` keyword, followed by variable identifiers
/// that are delimited by commas. A variable declaration has two forms:
///
/// - *Single-Variable Declaration:* `var x`
/// - *Multi-Variable Declaration:* `var x, y, x`
///
/// The `tokens` argument is the slice of tokens following the `var` keyword.
fn parse_declare(tokens: &[Token], line: u32) -> (r: Result<Stmt, ParseError>)
    ensures
        stmt_result_view(r) == spec_declare(tokens_view(tokens@), line),
{
    let ghost v = tokens_view(tokens@);
    let n = tokens.len();
    if n == 0 {
        return Err(ParseError::InvalidDeclare(line));
    }
    assert(v[0] == tokens@[0]@);
    // extract first variable
    let first = match &tokens[0] {
        Token::Identifier(x) => x.clone(),
        _ => {
            return Err(ParseError::InvalidDeclare(line));
        },
    };
    let mut vars: Vec<String> = Vec::new();
    vars.push(first);
    let mut i: usize = 1;
    assert(names_view(vars@).drop_first() =~= Seq::<Seq<char>>::empty());
    // parse remaining variables if they exist; check comma delimiter
    while i < n
        invariant
            v == tokens_view(tokens@),
            n == tokens@.len(),
            1 <= i <= n,
            vars@.len() >= 1,
            v[0] is Identifier,
            names_view(vars@)[0] == v[0]->Identifier_0,
            spec_declare_rest(v, 1, line) == prefix_names(
                names_view(vars@).drop_first(),
                spec_declare_rest(v, i as int, line),
            ),
        decreases n - i,
    {
        assert(v[i as int] == tokens@[i as int]@);
        match &tokens[i] {
            Token::Comma => {
                if i + 1 >= n {
                    return Err(ParseError::TrailingComma(line));
                }
                assert(v[i + 1] == tokens@[i + 1]@);
                match &tokens[i + 1] {
                    Token::Identifier(x) => {
                        let ghost before = names_view(vars@).drop_first();
                        vars.push(x.clone());
                        assert(names_view(vars@).drop_first() =~= before + seq![x@]);
                        proof {
                            let r = spec_declare_rest(v, i + 2, line);
                            if let Ok(rest) = r {
                                assert(before + (seq![x@] + rest) =~= before + seq![x@] + rest);
                            }
                        }
                        i = i + 2;
                    },
                    _ => {
                        return Err(ParseError::InvalidDeclare(line));
                    },
                }
            },
            _ => {
                return Err(ParseError::MissingComma(line));
            },
        }
    }
    proof {
        assert(names_view(vars@) =~= seq![v[0]->Identifier_0] + names_view(vars@).drop_first());
    }
    Ok(Stmt::Declare(vars))
}

/// Parses an assumption from a slice of tokens.
///
/// A valid assume statement contains the `assume` keyword followed by an expression.
///
/// ```txt
/// assume 1 + 0 < 2
/// ```
///
/// The `tokens` argument is the slice of tokens following the `assume` keyword.
fn parse_assume(tokens: &[Token], line: u32) -> (r: Result<Stmt, ParseError>)
    ensures
        stmt_result_view(r) == match spec_parse_expr(tokens_view(tokens@), line) {
            Ok(e) => Ok(StmtV::Assume(e)),
            Err(e) => Err::<StmtV, ParseError>(e),
        },
{
    match parse_expr(tokens, line) {
        Ok(e) => Ok(Stmt::Assume(e)),
        Err(e) => Err(e),
    }
}

/// Parses an assertion from a slice of tokens.
///
/// A valid assert statement contains the `assert` keyword followed by an expression.
///
/// ```text
/// assert x != 0
/// ```
///
/// The `tokens` argument is the slice of tokens following the `assert` keyword.
fn parse_assert(tokens: &[Token], line: u32) -> (r: Result<Stmt, ParseError>)
    ensures
        stmt_result_view(r) == match spec_parse_expr(tokens_view(tokens@), line) {
            Ok(e) => Ok(StmtV::Assert(e)),
            Err(e) => Err::<StmtV, ParseError>(e),
        },
{
    match parse_expr(tokens, line) {
        Ok(e) => Ok(Stmt::Assert(e)),
        Err(e) => Err(e),
    }
}

/// Parses a variable assignment from a slice of tokens.
///
/// A valid assign statement contains a variable identifier, followed by the assignment symbol and
/// an expression.
///
/// ```txt
/// x := 4 + 3
/// ```
///
/// The `head` argument is a reference to the variable identifier token and the `tokens` argument
/// is the slice of tokens after the assignment symbol.
fn parse_assign(head: &Token, tokens: &[Token], line: u32) -> (r: Result<Stmt, ParseError>)
    ensures
        stmt_result_view(r) == match head@ {
            TokenV::Identifier(x) => match spec_parse_expr(tokens_view(tokens@), line) {
                Ok(e) => Ok(StmtV::Assign(x, e)),
                Err(e) => Err::<StmtV, ParseError>(e),
            },
            _ => Err(ParseError::InvalidAssign(line)),
        },
{
    match head {
        Token::Identifier(x) => match parse_expr(tokens, line) {
            Ok(e) => Ok(Stmt::Assign(x.clone(), e)),
            Err(e) => Err(e),
        },
        _ => Err(ParseError::InvalidAssign(line)),
    }
}

fn is_declare(t: &Token) -> (r: bool)
    ensures
        r == (t@ == TokenV::Declare),
{
    match t {
        Token::Declare => true,
        _ => false,
    }
}

fn is_assume(t: &Token) -> (r: bool)
    ensures
        r == (t@ == TokenV::Assume),
{
    match t {
        Token::Assume => true,
        _ => false,
    }
}

fn is_assert(t: &Token) -> (r: bool)
    ensures
        r == (t@ == TokenV::Assert),
{
    match t {
        Token::Assert => true,
        _ => false,
    }
}

fn is_if(t: &Token) -> (r: bool)
    ensures
        r == (t@ == TokenV::If),
{
    match t {
        Token::If => true,
        _ => false,
    }
}

fn is_then(t: &Token) -> (r: bool)
    ensures
        r == (t@ == TokenV::Then),
{
    match t {
        Token::Then => true,
        _ => false,
    }
}

fn is_while(t: &Token) -> (r: bool)
    ensures
        r == (t@ == TokenV::While),
{
    match t {
        Token::While => true,
        _ => false,
    }
}

fn is_else(t: &Token) -> (r: bool)
    ensures
        r == (t@ == TokenV::Else),
{
    match t {
        Token::Else => true,
        _ => false,
    }
}

fn is_end(t: &Token) -> (r: bool)
    ensures
        r == (t@ == TokenV::End),
{
    match t {
        Token::End => true,
        _ => false,
    }
}

fn is_invariant(t: &Token) -> (r: bool)
    ensures
        r == (t@ == TokenV::Invariant),
{
    match t {
        Token::Invariant => true,
        _ => false,
    }
}

fn is_assign_op(t: &Token) -> (r: bool)
    ensures
        r == (t@ == TokenV::Op(Symbol::Assign)),
{
    match t {
        Token::Op(Symbol::Assign) => true,
        _ => false,
    }
}

/// The tokens `tokens[lo..hi]`.
fn sub_tokens<'b>(tokens: &'b [Token], lo: usize, hi: usize) -> (r: &'b [Token])
    requires
        lo <= hi <= tokens@.len(),
    ensures
        tokens_view(r@) == tokens_view(tokens@).subrange(lo as int, hi as int),
{
    proof {
        lemma_view_subrange(tokens@, lo as int, hi as int);
    }
    vstd::slice::slice_subrange(tokens, lo, hi)
}

/// Parses an if-then-else conditional from a slice of tokens.
///
/// A valid if statement contains a consequent branch and an optional alternative branch. These two
/// branches are the "then" and "else" branches.
///
/// ```txt
/// if x then
///     x := true
/// else
///     x := false
/// end
/// ```
///
/// The `tokens` argument is the slice of tokens between the `if` and `then` keywords; it is parsed
/// as the conditional expression.
///
/// The `ctx` argument is the parsing context. The context is used to read the succeeding
/// lines, which contain statements for both branches and the `else`/`end` keywords.
fn parse_if(ctx: &mut ParseContext, tokens: &[Token]) -> (r: Result<Stmt, ParseError>)
    requires
        old(ctx).wf(),
        old(ctx).has_room(),
    ensures
        final(ctx).wf(),
        final(ctx).lines() == old(ctx).lines(),
        stmt_outcome(r, *final(ctx)) == spec_if(
            old(ctx).lines(),
            old(ctx).next_pos(),
            old(ctx).line_number(),
            tokens_view(tokens@),
        ),
        r is Ok ==> old(ctx).next_pos() <= final(ctx).next_pos() <= final(ctx).lines().len()
            && final(ctx).line_number() - final(ctx).next_pos() == old(ctx).line_number() - old(ctx).next_pos(),
    decreases old(ctx).lines().len() - old(ctx).next_pos(), 1int,
{
    let cond = match parse_expr(tokens, ctx.line) {
        Ok(e) => e,
        Err(e) => {
            return Err(e);
        },
    };
    let (then_branch, terminal) = match parse_block(ctx) {
        Ok(res) => res,
        Err(e) => {
            return Err(e);
        },
    };
    match terminal {
        BlockTerminal::End => Ok(Stmt::If { condition: cond, then_branch, else_branch: None }),
        BlockTerminal::Else => match parse_block(ctx) {
            Ok((else_block, BlockTerminal::End)) => Ok(
                Stmt::If { condition: cond, then_branch, else_branch: Some(else_block) },
            ),
            Ok(_) => Err(ParseError::ExpectedEnd(ctx.line)),
            Err(e) => Err(e),
        },
        BlockTerminal::EOF => Err(ParseError::ExpectedElseEnd(ctx.line)),
    }
}

/// Parses a while loop from a slice of tokens.
///
/// A valid while loop statement contains a loop condition and an invariant. The loop's body
/// contains a sequence of statements that are repeatedly executed as long as the condition
/// and invariant hold.
///
/// ```txt
/// while x > 0
/// invariant x != 0
///     x := x - 1
/// end
/// ```
///
/// The `tokens` argument is the slice of tokens following the `while` keyword; it is parsed as the
/// loop condition.
///
/// The `ctx` argument is the parsing context. The context is used to read the succeeding
/// lines, which contain the invariant, the loop body, and the `end` keyword.
fn parse_while(ctx: &mut ParseContext, tokens: &[Token]) -> (r: Result<Stmt, ParseError>)
    requires
        old(ctx).wf(),
        old(ctx).has_room(),
    ensures
        final(ctx).wf(),
        final(ctx).lines() == old(ctx).lines(),
        stmt_outcome(r, *final(ctx)) == spec_while(
            old(ctx).lines(),
            old(ctx).next_pos(),
            old(ctx).line_number(),
            tokens_view(tokens@),
        ),
        r is Ok ==> old(ctx).next_pos() <= final(ctx).next_pos() <= final(ctx).lines().len()
            && final(ctx).line_number() - final(ctx).next_pos() == old(ctx).line_number() - old(ctx).next_pos(),
    decreases old(ctx).lines().len() - old(ctx).next_pos(), 1int,
{
    let cond = match parse_expr(tokens, ctx.line) {
        Ok(e) => e,
        Err(e) => {
            return Err(e);
        },
    };
    ctx.line = ctx.line + 1;
    let inv = match ctx.next_line() {
        Some(inv_line) => {
            if inv_line.len() >= 1 && is_invariant(&inv_line[0]) {
                assert(tokens_view(inv_line@)[0] == inv_line@[0]@);
                let inv_tokens = sub_tokens(inv_line, 1, inv_line.len());
                match parse_expr(inv_tokens, ctx.line) {
                    Ok(e) => e,
                    Err(e) => {
                        return Err(e);
                    },
                }
            } else {
                proof {
                    if inv_line.len() >= 1 {
                        assert(tokens_view(inv_line@)[0] == inv_line@[0]@);
                    }
                }
                return Err(ParseError::ExpectedInvariant(ctx.line));
            }
        },
        None => {
            return Err(ParseError::ExpectedInvariant(ctx.line));
        },
    };
    let body = match parse_block(ctx) {
        Ok((block, BlockTerminal::End)) => block,
        Ok(_) => {
            return Err(ParseError::ExpectedEnd(ctx.line));
        },
        Err(e) => {
            return Err(e);
        },
    };
    Ok(Stmt::While { condition: cond, loop_invariant: inv, body })
}

/// Parses a statement from a slice of tokens.
fn parse_statement(ctx: &mut ParseContext, tokens: &[Token]) -> (r: Result<Stmt, ParseError>)
    requires
        old(ctx).wf(),
        old(ctx).has_room(),
    ensures
        final(ctx).wf(),
        final(ctx).lines() == old(ctx).lines(),
        stmt_outcome(r, *final(ctx)) == spec_statement(
            old(ctx).lines(),
            old(ctx).next_pos(),
            old(ctx).line_number(),
            tokens_view(tokens@),
        ),
        r is Ok ==> old(ctx).next_pos() <= final(ctx).next_pos() <= final(ctx).lines().len()
            && final(ctx).line_number() - final(ctx).next_pos() == old(ctx).line_number() - old(ctx).next_pos(),
    decreases old(ctx).lines().len() - old(ctx).next_pos(), 2int,
{
    let ghost v = tokens_view(tokens@);
    let n = tokens.len();
    let line = ctx.line;
    if n >= 1 {
        assert(v[0] == tokens@[0]@);
        assert(v[n - 1] == tokens@[n - 1]@);
    }
    if n >= 2 {
        assert(v[1] == tokens@[1]@);
    }
    if n >= 1 && is_declare(&tokens[0]) {
        parse_declare(sub_tokens(tokens, 1, n), line)
    } else if n >= 1 && is_assume(&tokens[0]) {
        parse_assume(sub_tokens(tokens, 1, n), line)
    } else if n >= 1 && is_assert(&tokens[0]) {
        parse_assert(sub_tokens(tokens, 1, n), line)
    } else if n >= 2 && is_assign_op(&tokens[1]) {
        parse_assign(&tokens[0], sub_tokens(tokens, 2, n), line)
    } else if n >= 2 && is_if(&tokens[0]) && is_then(&tokens[n - 1]) {
        parse_if(ctx, sub_tokens(tokens, 1, n - 1))
    } else if n >= 1 && is_while(&tokens[0]) {
        parse_while(ctx, sub_tokens(tokens, 1, n))
    } else if n == 1 && is_else(&tokens[0]) {
        Ok(Stmt::Else)
    } else if n == 1 && is_end(&tokens[0]) {
        Ok(Stmt::End)
    } else if n == 0 {
        Ok(Stmt::Empty)
    } else {
        Err(ParseError::InvalidStatement(line))
    }
}

/// Parses a sequence of statements.
///
/// Lines are read until a line holds `else` or `end`, or until the stream ends; the
/// terminal that ended the block is returned with its statements.
pub fn parse_block(ctx: &mut ParseContext) -> (r: Result<(Block, BlockTerminal), ParseError>)
    requires
        old(ctx).wf(),
        old(ctx).has_room(),
    ensures
        final(ctx).wf(),
        final(ctx).lines() == old(ctx).lines(),
        block_outcome(r, *final(ctx)) == spec_block(
            old(ctx).lines(),
            old(ctx).next_pos(),
            old(ctx).line_number(),
        ),
        r matches Ok((_, t)) ==> old(ctx).next_pos() <= final(ctx).next_pos() <= final(ctx).lines().len() && final(ctx).line_number() - final(ctx).next_pos() == old(ctx).line_number() - old(ctx).next_pos() + (if t == BlockTerminal::EOF {
            1int
        } else {
            0int
        }),
    decreases old(ctx).lines().len() - old(ctx).next_pos(), 0int,
{
    let ghost ls = ctx.lines();
    let ghost pos0 = ctx.next_pos();
    let ghost line0 = ctx.line_number();
    assert(ls == old(ctx).lines() && pos0 == old(ctx).next_pos() && line0 == old(ctx).line_number());
    let mut block: Vec<Stmt> = Vec::new();
    assert(stmts_view(block@) =~= Seq::<StmtV>::empty());
    assert(spec_block(ls, pos0, line0) =~~= prefix_stmts(
        stmts_view(block@),
        spec_block(ls, ctx.next_pos(), ctx.line_number()),
    ));
    loop
        invariant
            ctx.wf(),
            ctx.lines() == ls,
            ls == old(ctx).lines(),
            pos0 == old(ctx).next_pos(),
            line0 == old(ctx).line_number(),
            ctx.has_room(),
            pos0 <= ctx.next_pos() <= ls.len(),
            ctx.line_number() - ctx.next_pos() == line0 - pos0,
            spec_block(ls, pos0, line0) == prefix_stmts(
                stmts_view(block@),
                spec_block(ls, ctx.next_pos(), ctx.line_number()),
            ),
        decreases ls.len() - ctx.next_pos(),
    {
        let ghost p_before = ctx.next_pos();
        let ghost l_before = ctx.line_number();
        ctx.line = ctx.line + 1;
        match ctx.next_line() {
            None => {
                assert(stmts_view(block@) + Seq::<StmtV>::empty() =~= stmts_view(block@));
                return Ok((Block(block), BlockTerminal::EOF));
            },
            Some(tokens) => {
                let stmt = match parse_statement(ctx, tokens) {
                    Ok(s) => s,
                    Err(e) => {
                        return Err(e);
                    },
                };
                match stmt {
                    Stmt::Empty => {},
                    Stmt::End => {
                        assert(stmts_view(block@) + Seq::<StmtV>::empty() =~= stmts_view(block@));
                        return Ok((Block(block), BlockTerminal::End));
                    },
                    Stmt::Else => {
                        assert(stmts_view(block@) + Seq::<StmtV>::empty() =~= stmts_view(block@));
                        return Ok((Block(block), BlockTerminal::Else));
                    },
                    s => {
                        let ghost sv = s@;
                        let ghost before = stmts_view(block@);
                        let ghost old_block = block@;
                        block.push(s);
                        assert(block@.drop_last() =~= old_block);
                        assert(stmts_view(block@) =~= before.push(sv));
                        proof {
                            let rest = spec_block(ls, ctx.next_pos(), ctx.line_number());
                            if let Ok((b, t, p, l)) = rest {
                                assert(before + (seq![sv] + b) =~= before.push(sv) + b);
                            }
                        }
                    },
                }
            },
        }
    }
}

/// Parses an abstract syntax tree (AST) from a token stream.
///
/// The stream is split into lines at its newline tokens, and the lines are parsed as one
/// block that must reach the end of the stream.
pub fn parse(tokens: &[Token]) -> (r: Result<Block, ParseError>)
    requires
        split_lines(tokens_view(tokens@)).len() + 1 <= u32::MAX,
    ensures
        parse_result_view(r) == spec_parse(tokens_view(tokens@)),
{
    let mut ctx = ParseContext::new(tokens, 0);
    match parse_block(&mut ctx) {
        Ok((ast, BlockTerminal::EOF)) => Ok(ast),
        Ok(_) => Err(ParseError::ExpectedEof(ctx.line())),
        Err(e) => Err(e),
    }
}

/// The number of lines of a token stream: one more than its number of newline tokens.
pub fn line_count(tokens: &[Token]) -> (n: usize)
    ensures
        n == split_lines(tokens_view(tokens@)).len(),
{
    split_bounds(tokens).len()
}

/// A parser error moved one line down.
pub open spec fn next_line_error(e: ParseError) -> ParseError {
    at_line(e, (parse_error_line(e) + 1) as u32)
}

/// A parse result with its error, if any, moved one line down.
pub open spec fn next_line_result(r: Result<Seq<StmtV>, ParseError>) -> Result<Seq<StmtV>, ParseError> {
    match r {
        Ok(b) => Ok(b),
        Err(e) => Err(next_line_error(e)),
    }
}

spec fn shift_block(r: BlockOutcome) -> BlockOutcome {
    match r {
        Ok((b, t, p, l)) => Ok((b, t, p + 1, l + 1)),
        Err(e) => Err(next_line_error(e)),
    }
}

spec fn shift_stmt(r: StmtOutcome) -> StmtOutcome {
    match r {
        Ok((st, p, l)) => Ok((st, p + 1, l + 1)),
        Err(e) => Err(next_line_error(e)),
    }
}

/// A block outcome reads lines from `pos` to at most `n`, numbers lines as it reads them,
/// and reports errors at most one line past the end.
spec fn block_fits(r: BlockOutcome, pos: int, n: int) -> bool {
    match r {
        Ok((_, t, p, l)) => pos <= p <= n && l == (if t is EOF { p + 1 } else { p }),
        Err(e) => parse_error_line(e) <= n + 1,
    }
}

spec fn stmt_fits(r: StmtOutcome, pos: int, n: int) -> bool {
    match r {
        Ok((_, p, l)) => pos <= p <= n && l == p,
        Err(e) => parse_error_line(e) <= n + 1,
    }
}

proof fn lemma_declare_rest_line(toks: Seq<TokenV>, i: int, l1: u32, l2: u32)
    ensures
        spec_declare_rest(toks, i, l2) == relined(spec_declare_rest(toks, i, l1), l2),
    decreases toks.len() - i,
{
    if 0 <= i < toks.len() && toks[i] == TokenV::Comma && i + 1 < toks.len() {
        lemma_declare_rest_line(toks, i + 2, l1, l2);
    }
}

proof fn lemma_declare_line(toks: Seq<TokenV>, l1: u32, l2: u32)
    ensures
        spec_declare(toks, l2) == relined(spec_declare(toks, l1), l2),
{
    lemma_declare_rest_line(toks, 1, l1, l2);
}

proof fn lemma_block_shift(ls: Seq<Seq<TokenV>>, pos: int, line: int)
    requires
        0 <= pos <= ls.len(),
        line == pos,
        ls.len() + 2 <= u32::MAX,
    ensures
        spec_block(seq![Seq::empty()] + ls, pos + 1, line + 1) == shift_block(spec_block(ls, pos, line)),
        block_fits(spec_block(ls, pos, line), pos, ls.len() as int),
    decreases ls.len() - pos, 0int,
{
    let ls2 = seq![Seq::<TokenV>::empty()] + ls;
    if pos < ls.len() {
        assert(ls2[pos + 1] == ls[pos]);
        lemma_stmt_shift(ls, pos + 1, line + 1, ls[pos]);
        match spec_statement(ls, pos + 1, line + 1, ls[pos]) {
            Err(e) => {},
            Ok((st, p, l)) => {
                if pos < p <= ls.len() {
                    match st {
                        StmtV::Empty => {
                            lemma_block_shift(ls, p, l);
                        },
                        StmtV::End => {},
                        StmtV::Else => {},
                        _ => {
                            lemma_block_shift(ls, p, l);
                        },
                    }
                }
            },
        }
    }
}

proof fn lemma_stmt_shift(ls: Seq<Seq<TokenV>>, pos: int, line: int, toks: Seq<TokenV>)
    requires
        0 <= pos <= ls.len(),
        line == pos,
        ls.len() + 2 <= u32::MAX,
    ensures
        spec_statement(seq![Seq::empty()] + ls, pos + 1, line + 1, toks) == shift_stmt(
            spec_statement(ls, pos, line, toks),
        ),
        stmt_fits(spec_statement(ls, pos, line, toks), pos, ls.len() as int),
    decreases ls.len() - pos, 2int,
{
    let n = toks.len();
    let l1 = line as u32;
    let l2 = (line + 1) as u32;
    if n >= 1 && toks[0] == TokenV::Declare {
        lemma_declare_line(toks.skip(1), l1, l2);
        lemma_declare_line(toks.skip(1), l1, l1);
    } else if n >= 1 && (toks[0] == TokenV::Assume || toks[0] == TokenV::Assert) {
        lemma_parse_expr_line(toks.skip(1), l1, l2);
        lemma_parse_expr_line(toks.skip(1), l1, l1);
    } else if n >= 2 && toks[1] == TokenV::Op(Symbol::Assign) {
        lemma_parse_expr_line(toks.skip(2), l1, l2);
        lemma_parse_expr_line(toks.skip(2), l1, l1);
    } else if n >= 2 && toks[0] == TokenV::If && toks[n - 1] == TokenV::Then {
        lemma_if_shift(ls, pos, line, toks.subrange(1, n - 1));
    } else if n >= 1 && toks[0] == TokenV::While {
        lemma_while_shift(ls, pos, line, toks.skip(1));
    }
}

proof fn lemma_if_shift(ls: Seq<Seq<TokenV>>, pos: int, line: int, cond: Seq<TokenV>)
    requires
        0 <= pos <= ls.len(),
        line == pos,
        ls.len() + 2 <= u32::MAX,
    ensures
        spec_if(seq![Seq::empty()] + ls, pos + 1, line + 1, cond) == shift_stmt(spec_if(ls, pos, line, cond)),
        stmt_fits(spec_if(ls, pos, line, cond), pos, ls.len() as int),
    decreases ls.len() - pos, 1int,
{
    let l1 = line as u32;
    let l2 = (line + 1) as u32;
    lemma_parse_expr_line(cond, l1, l2);
    lemma_parse_expr_line(cond, l1, l1);
    lemma_block_shift(ls, pos, line);
    if let Ok((_, t, p1, l1b)) = spec_block(ls, pos, line) {
        if t is Else && pos <= p1 <= ls.len() {
            lemma_block_shift(ls, p1, l1b);
        }
    }
}

proof fn lemma_while_shift(ls: Seq<Seq<TokenV>>, pos: int, line: int, cond: Seq<TokenV>)
    requires
        0 <= pos <= ls.len(),
        line == pos,
        ls.len() + 2 <= u32::MAX,
    ensures
        spec_while(seq![Seq::empty()] + ls, pos + 1, line + 1, cond) == shift_stmt(
            spec_while(ls, pos, line, cond),
        ),
        stmt_fits(spec_while(ls, pos, line, cond), pos, ls.len() as int),
    decreases ls.len() - pos, 1int,
{
    let ls2 = seq![Seq::<TokenV>::empty()] + ls;
    let l1 = line as u32;
    let l2 = (line + 1) as u32;
    lemma_parse_expr_line(cond, l1, l2);
    lemma_parse_expr_line(cond, l1, l1);
    if pos < ls.len() {
        assert(ls2[pos + 1] == ls[pos]);
        let inv = ls[pos].skip(1);
        lemma_parse_expr_line(inv, (line + 1) as u32, (line + 2) as u32);
        lemma_parse_expr_line(inv, (line + 1) as u32, (line + 1) as u32);
        lemma_block_shift(ls, pos + 1, line + 1);
    }
}

proof fn lemma_split_lines_newline(ts: Seq<TokenV>)
    ensures
        split_lines(seq![TokenV::Newline] + ts) == seq![Seq::<TokenV>::empty()] + split_lines(ts),
        split_lines(ts).len() >= 1,
    decreases ts.len(),
{
    let t2 = seq![TokenV::Newline] + ts;
    if ts.len() == 0 {
        assert(t2.drop_last() =~= Seq::<TokenV>::empty());
        assert(t2.last() == TokenV::Newline);
        assert(split_lines(Seq::<TokenV>::empty()) == seq![Seq::<TokenV>::empty()]);
        assert(ts =~= Seq::<TokenV>::empty());
        assert(split_lines(t2) == split_lines(t2.drop_last()).push(Seq::<TokenV>::empty()));
        assert(split_lines(t2) =~= seq![Seq::<TokenV>::empty()] + split_lines(ts));
    } else {
        lemma_split_lines_newline(ts.drop_last());
        assert(t2.drop_last() =~= seq![TokenV::Newline] + ts.drop_last());
        assert(t2.last() == ts.last());
        let rest = split_lines(ts.drop_last());
        if ts.last() == TokenV::Newline {
            assert(split_lines(t2) =~= seq![Seq::<TokenV>::empty()] + split_lines(ts));
        } else {
            assert(split_lines(t2) =~= seq![Seq::<TokenV>::empty()] + split_lines(ts));
        }
    }
}

/// **A leading blank line moves only the line numbers.** Parsing a token stream that
/// starts with a newline gives the same program, or the same error one line further down.
pub proof fn theorem_leading_blank_line(ts: Seq<TokenV>)
    requires
        split_lines(ts).len() + 2 <= u32::MAX,
    ensures
        spec_parse(seq![TokenV::Newline] + ts) == next_line_result(spec_parse(ts)),
{
    let ls = split_lines(ts);
    let ls2 = seq![Seq::<TokenV>::empty()] + ls;
    lemma_split_lines_newline(ts);
    lemma_block_shift(ls, 0, 0);
    assert(ls2[0] == Seq::<TokenV>::empty());
    assert(spec_statement(ls2, 1, 1, ls2[0]) == Ok::<(StmtV, int, int), ParseError>((StmtV::Empty, 1, 1)));
    assert(spec_block(ls2, 0, 0) == spec_block(ls2, 1, 1));
}

/// A line without newline tokens.
pub open spec fn one_line(l: Seq<TokenV>) -> bool {
    forall|k: int| 0 <= k < l.len() ==> #[trigger] l[k] != TokenV::Newline
}

/// The token stream of the given lines, separated by newlines.
pub open spec fn join_lines(ls: Seq<Seq<TokenV>>) -> Seq<TokenV>
    decreases ls.len(),
{
    if ls.len() <= 1 {
        if ls.len() == 1 {
            ls[0]
        } else {
            Seq::empty()
        }
    } else {
        join_lines(ls.drop_last()) + seq![TokenV::Newline] + ls.last()
    }
}

/// A line holding one simple statement: an assumption, an assertion or an assignment.
pub open spec fn simple_line(l: Seq<TokenV>) -> bool {
    &&& one_line(l)
    &&& l.len() >= 1
    &&& (l[0] == TokenV::Assume || l[0] == TokenV::Assert || (l.len() >= 2 && l[0] is Identifier
        && l[1] == TokenV::Op(Symbol::Assign)))
}

proof fn lemma_split_one(b: Seq<TokenV>)
    requires
        one_line(b),
    ensures
        split_lines(b) == seq![b],
    decreases b.len(),
{
    if b.len() > 0 {
        lemma_split_one(b.drop_last());
        assert(b.last() != TokenV::Newline);
        assert(b.drop_last().push(b.last()) =~= b);
        assert(seq![b.drop_last()].update(0, b.drop_last().push(b.last())) =~= seq![b]);
    } else {
        assert(b =~= Seq::<TokenV>::empty());
    }
}

proof fn lemma_split_append(a: Seq<TokenV>, b: Seq<TokenV>)
    requires
        one_line(b),
    ensures
        split_lines(a + seq![TokenV::Newline] + b) == split_lines(a).push(b),
    decreases b.len(),
{
    let t = a + seq![TokenV::Newline] + b;
    if b.len() == 0 {
        assert(t.drop_last() =~= a);
        assert(t.last() == TokenV::Newline);
        assert(b =~= Seq::<TokenV>::empty());
    } else {
        lemma_split_append(a, b.drop_last());
        assert(t.drop_last() =~= a + seq![TokenV::Newline] + b.drop_last());
        assert(t.last() == b.last());
        assert(b.last() != TokenV::Newline);
        let rest = split_lines(a).push(b.drop_last());
        assert(b.drop_last().push(b.last()) =~= b);
        assert(rest.last() == b.drop_last());
        assert(rest.update(rest.len() - 1, rest.last().push(b.last())) =~= split_lines(a).push(b));
    }
}

/// Joining lines with newlines and splitting the result at the newlines gives back the
/// lines.
proof fn lemma_split_join(ls: Seq<Seq<TokenV>>)
    requires
        ls.len() >= 1,
        forall|k: int| 0 <= k < ls.len() ==> one_line(#[trigger] ls[k]),
    ensures
        split_lines(join_lines(ls)) == ls,
    decreases ls.len(),
{
    if ls.len() == 1 {
        lemma_split_one(ls[0]);
        assert(seq![ls[0]] =~= ls);
    } else {
        lemma_split_join(ls.drop_last());
        assert(one_line(ls[ls.len() - 1]));
        lemma_split_append(join_lines(ls.drop_last()), ls.last());
        assert(ls.drop_last().push(ls.last()) =~= ls);
    }
}

/// A simple line parses, anywhere, to the statement that it parses to on its own.
proof fn lemma_simple_line(ls: Seq<Seq<TokenV>>, pos: int, line: int, l: Seq<TokenV>)
    requires
        simple_line(l),
        spec_parse(l) is Ok,
    ensures
        spec_parse(l) == Ok::<Seq<StmtV>, ParseError>(seq![spec_statement(ls, pos, line, l)->Ok_0.0]),
        spec_statement(ls, pos, line, l) is Ok,
        spec_statement(ls, pos, line, l)->Ok_0.1 == pos,
        spec_statement(ls, pos, line, l)->Ok_0.2 == line,
        !(spec_statement(ls, pos, line, l)->Ok_0.0 is Empty),
        !(spec_statement(ls, pos, line, l)->Ok_0.0 is End),
        !(spec_statement(ls, pos, line, l)->Ok_0.0 is Else),
{
    lemma_split_one(l);
    let one = seq![l];
    assert(one[0] == l);
    let l1 = 1u32;
    let l2 = line as u32;
    if l[0] == TokenV::Assume || l[0] == TokenV::Assert {
        lemma_parse_expr_line(l.skip(1), l1, l2);
    } else {
        lemma_parse_expr_line(l.skip(2), l1, l2);
    }
    let r1 = spec_statement(one, 1, 1, l);
    assert(r1 is Ok);
    assert(spec_block(one, 1, 1) == Ok::<(Seq<StmtV>, BlockTerminal, int, int), ParseError>((Seq::empty(), BlockTerminal::EOF, 1, 2)));
    assert(seq![r1->Ok_0.0] + Seq::<StmtV>::empty() =~= seq![r1->Ok_0.0]);
}

/// The statements of a block.
spec fn run_parsed(r: BlockOutcome, ls: Seq<Seq<TokenV>>, pos: int, stop: int) -> bool {
    &&& r is Ok
    &&& r->Ok_0.1 == (if ls[stop] == seq![TokenV::Else] { BlockTerminal::Else } else { BlockTerminal::End })
    &&& r->Ok_0.2 == stop + 1
    &&& r->Ok_0.3 == stop + 1
    &&& r->Ok_0.0.len() == stop - pos
    &&& forall|j: int| 0 <= j < stop - pos ==> spec_parse(#[trigger] ls[pos + j]) == Ok::<Seq<StmtV>, ParseError>(
        seq![r->Ok_0.0[j]],
    )
}

/// A run of simple lines closed by `else` or `end` is a block of their statements.
proof fn lemma_simple_run(ls: Seq<Seq<TokenV>>, pos: int, stop: int)
    requires
        0 <= pos <= stop < ls.len(),
        forall|j: int| pos <= j < stop ==> simple_line(#[trigger] ls[j]) && spec_parse(ls[j]) is Ok,
        ls[stop] == seq![TokenV::Else] || ls[stop] == seq![TokenV::End],
    ensures
        run_parsed(spec_block(ls, pos, pos), ls, pos, stop),
    decreases stop - pos,
{
    if pos == stop {
        let r = spec_statement(ls, pos + 1, pos + 1, ls[pos]);
        assert(ls[pos].len() == 1);
        assert(ls[pos][0] == TokenV::Else || ls[pos][0] == TokenV::End);
        assert(r is Ok);
    } else {
        let l = ls[pos];
        assert(simple_line(l) && spec_parse(l) is Ok);
        lemma_simple_line(ls, pos + 1, pos + 1, l);
        lemma_simple_run(ls, pos + 1, stop);
        let st = spec_statement(ls, pos + 1, pos + 1, l)->Ok_0.0;
        let rest = spec_block(ls, pos + 1, pos + 1);
        let r = spec_block(ls, pos, pos);
        assert(r == Ok::<(Seq<StmtV>, BlockTerminal, int, int), ParseError>((seq![st] + rest->Ok_0.0, rest->Ok_0.1, rest->Ok_0.2, rest->Ok_0.3)));
        assert forall|j: int| 0 <= j < stop - pos implies spec_parse(#[trigger] ls[pos + j]) == Ok::<Seq<StmtV>, ParseError>(
            seq![r->Ok_0.0[j]],
        ) by {
            if j > 0 {
                assert(ls[pos + j] == ls[(pos + 1) + (j - 1)]);
            }
        }
    }
}

/// What a parsed conditional holds: its condition, and as its branches the statements that
/// the lines of each branch parse to on their own, one for each line, in order.
pub open spec fn if_holds(
    st: StmtV,
    c: Seq<TokenV>,
    a: Seq<Seq<TokenV>>,
    b: Seq<Seq<TokenV>>,
) -> bool {
    &&& st is If
    &&& spec_parse_expr(c, 1) == Ok::<ExprV, ParseError>(st->If_condition)
    &&& st->If_then_branch.len() == a.len()
    &&& forall|k: int| 0 <= k < a.len() ==> spec_parse(#[trigger] a[k]) == Ok::<Seq<StmtV>, ParseError>(
        seq![st->If_then_branch[k]],
    )
    &&& st->If_else_branch is Some
    &&& st->If_else_branch->0.len() == b.len()
    &&& forall|k: int| 0 <= k < b.len() ==> spec_parse(#[trigger] b[k]) == Ok::<Seq<StmtV>, ParseError>(
        seq![st->If_else_branch->0[k]],
    )
}

/// **Branches are whole blocks.** A program made of `if c then`, lines of simple
/// statements `a`, `else`, lines of simple statements `b`, and `end` parses to one
/// conditional: its condition is `c`, its then branch holds the statements of all the lines
/// of `a` and its else branch those of all the lines of `b`, each in order, each line giving
/// the statement that it gives on its own.
pub proof fn theorem_if_else_blocks(c: Seq<TokenV>, a: Seq<Seq<TokenV>>, b: Seq<Seq<TokenV>>)
    requires
        one_line(c),
        spec_parse_expr(c, 1) is Ok,
        forall|k: int| 0 <= k < a.len() ==> simple_line(#[trigger] a[k]) && spec_parse(a[k]) is Ok,
        forall|k: int| 0 <= k < b.len() ==> simple_line(#[trigger] b[k]) && spec_parse(b[k]) is Ok,
    ensures
        spec_parse(
            join_lines(
                seq![seq![TokenV::If] + c + seq![TokenV::Then]] + a + seq![seq![TokenV::Else]] + b + seq![
                    seq![TokenV::End],
                ],
            ),
        ) is Ok,
        spec_parse(
            join_lines(
                seq![seq![TokenV::If] + c + seq![TokenV::Then]] + a + seq![seq![TokenV::Else]] + b + seq![
                    seq![TokenV::End],
                ],
            ),
        )->Ok_0.len() == 1,
        if_holds(
            spec_parse(
                join_lines(
                    seq![seq![TokenV::If] + c + seq![TokenV::Then]] + a + seq![seq![TokenV::Else]] + b
                        + seq![seq![TokenV::End]],
                ),
            )->Ok_0[0],
            c,
            a,
            b,
        ),
{
    let ifl = seq![TokenV::If] + c + seq![TokenV::Then];
    let ls = seq![ifl] + a + seq![seq![TokenV::Else]] + b + seq![seq![TokenV::End]];
    let na = a.len() as int;
    let nb = b.len() as int;
    let len = ls.len() as int;
    assert(len == na + nb + 3);
    assert(ls[0] == ifl);
    assert forall|k: int| 0 <= k < na implies #[trigger] ls[1 + k] == a[k] by {}
    assert(ls[1 + na] == seq![TokenV::Else]);
    assert forall|k: int| 0 <= k < nb implies #[trigger] ls[2 + na + k] == b[k] by {}
    assert(ls[2 + na + nb] == seq![TokenV::End]);
    assert forall|k: int| 0 <= k < len implies one_line(#[trigger] ls[k]) by {
        if k == 0 {
            assert forall|m: int| 0 <= m < ifl.len() implies #[trigger] ifl[m] != TokenV::Newline by {
                if 1 <= m < ifl.len() - 1 {
                    assert(ifl[m] == c[m - 1]);
                }
            }
        } else if 1 <= k < 1 + na {
            assert(ls[1 + (k - 1)] == a[k - 1]);
        } else if 2 + na <= k < 2 + na + nb {
            assert(ls[2 + na + (k - 2 - na)] == b[k - 2 - na]);
        }
    }
    lemma_split_join(ls);
    // the condition starts with an atom or a parenthesis, so the line is no assignment
    let ce = spec_parse_expr(c, 1)->Ok_0;
    assert(c.len() >= 1);
    reveal_with_fuel(crate::expr::spec_pratt, 1);
    assert(c[0] != TokenV::Op(Symbol::Assign));
    assert(ifl[1] == c[0]);
    assert(ifl.subrange(1, ifl.len() - 1) =~= c);
    assert forall|j: int| 1 <= j < 1 + na implies simple_line(#[trigger] ls[j]) && spec_parse(ls[j]) is Ok by {
        assert(ls[1 + (j - 1)] == a[j - 1]);
    }
    lemma_simple_run(ls, 1, 1 + na);
    assert forall|j: int| 2 + na <= j < 2 + na + nb implies simple_line(#[trigger] ls[j]) && spec_parse(ls[j]) is Ok by {
        assert(ls[2 + na + (j - 2 - na)] == b[j - 2 - na]);
    }
    lemma_simple_run(ls, 2 + na, 2 + na + nb);
    let tb = spec_block(ls, 1, 1);
    let eb = spec_block(ls, 2 + na, 2 + na);
    let st = StmtV::If { condition: ce, then_branch: tb->Ok_0.0, else_branch: Some(eb->Ok_0.0) };
    assert(spec_if(ls, 1, 1, c) == Ok::<(StmtV, int, int), ParseError>((st, len, len)));
    assert(spec_statement(ls, 1, 1, ifl) == Ok::<(StmtV, int, int), ParseError>((st, len, len)));
    assert(spec_block(ls, len, len) == Ok::<(Seq<StmtV>, BlockTerminal, int, int), ParseError>((Seq::empty(), BlockTerminal::EOF, len, len + 1)));
    assert(seq![st] + Seq::<StmtV>::empty() =~= seq![st]);
    assert(spec_block(ls, 0, 0) == Ok::<(Seq<StmtV>, BlockTerminal, int, int), ParseError>((seq![st], BlockTerminal::EOF, len, len + 1)));
    assert forall|k: int| 0 <= k < na implies spec_parse(#[trigger] a[k]) == Ok::<Seq<StmtV>, ParseError>(
        seq![st->If_then_branch[k]],
    ) by {
        assert(ls[1 + k] == a[k]);
    }
    assert forall|k: int| 0 <= k < nb implies spec_parse(#[trigger] b[k]) == Ok::<Seq<StmtV>, ParseError>(
        seq![st->If_else_branch->0[k]],
    ) by {
        assert(ls[2 + na + k] == b[k]);
    }
    assert(if_holds(st, c, a, b));
}

/// What a parsed loop holds: its condition, its invariant, and as its body the statements
/// that the lines of the body parse to on their own, one for each line, in order.
pub open spec fn while_holds(st: StmtV, c: Seq<TokenV>, i: Seq<TokenV>, a: Seq<Seq<TokenV>>) -> bool {
    &&& st is While
    &&& spec_parse_expr(c, 1) == Ok::<ExprV, ParseError>(st->While_condition)
    &&& spec_parse_expr(i, 1) == Ok::<ExprV, ParseError>(st->While_loop_invariant)
    &&& st->While_body.len() == a.len()
    &&& forall|k: int| 0 <= k < a.len() ==> spec_parse(#[trigger] a[k]) == Ok::<Seq<StmtV>, ParseError>(
        seq![st->While_body[k]],
    )
}

/// **A loop body is a whole block.** A program made of `while c`, `invariant i`, lines of
/// simple statements `a`, and `end` parses to one loop with condition `c`, invariant `i`,
/// and as its body the statements of all the lines of `a`, in order.
pub proof fn theorem_while_block(c: Seq<TokenV>, i: Seq<TokenV>, a: Seq<Seq<TokenV>>)
    requires
        one_line(c),
        one_line(i),
        spec_parse_expr(c, 1) is Ok,
        spec_parse_expr(i, 1) is Ok,
        forall|k: int| 0 <= k < a.len() ==> simple_line(#[trigger] a[k]) && spec_parse(a[k]) is Ok,
    ensures
        spec_parse(
            join_lines(seq![seq![TokenV::While] + c, seq![TokenV::Invariant] + i] + a + seq![seq![TokenV::End]]),
        ) is Ok,
        spec_parse(
            join_lines(seq![seq![TokenV::While] + c, seq![TokenV::Invariant] + i] + a + seq![seq![TokenV::End]]),
        )->Ok_0.len() == 1,
        while_holds(
            spec_parse(
                join_lines(seq![seq![TokenV::While] + c, seq![TokenV::Invariant] + i] + a + seq![seq![TokenV::End]]),
            )->Ok_0[0],
            c,
            i,
            a,
        ),
{
    let wl = seq![TokenV::While] + c;
    let il = seq![TokenV::Invariant] + i;
    let ls = seq![wl, il] + a + seq![seq![TokenV::End]];
    let na = a.len() as int;
    let len = ls.len() as int;
    assert(len == na + 3);
    assert(ls[0] == wl && ls[1] == il);
    assert(ls[2 + na] == seq![TokenV::End]);
    assert forall|k: int| 0 <= k < len implies one_line(#[trigger] ls[k]) by {
        if k == 0 {
            assert forall|m: int| 0 <= m < wl.len() implies #[trigger] wl[m] != TokenV::Newline by {
                if m >= 1 {
                    assert(wl[m] == c[m - 1]);
                }
            }
        } else if k == 1 {
            assert forall|m: int| 0 <= m < il.len() implies #[trigger] il[m] != TokenV::Newline by {
                if m >= 1 {
                    assert(il[m] == i[m - 1]);
                }
            }
        } else if 2 <= k < 2 + na {
            assert(ls[2 + (k - 2)] == a[k - 2]);
        }
    }
    lemma_split_join(ls);
    let ce = spec_parse_expr(c, 1)->Ok_0;
    lemma_parse_expr_line(i, 1, 2);
    let ie = spec_parse_expr(i, 1)->Ok_0;
    assert(c.len() >= 1);
    reveal_with_fuel(crate::expr::spec_pratt, 1);
    assert(c[0] != TokenV::Op(Symbol::Assign));
    assert(wl[1] == c[0]);
    assert(wl.skip(1) =~= c);
    assert(il.skip(1) =~= i);
    assert forall|j: int| 2 <= j < 2 + na implies simple_line(#[trigger] ls[j]) && spec_parse(ls[j]) is Ok by {
        assert(ls[2 + (j - 2)] == a[j - 2]);
    }
    lemma_simple_run(ls, 2, 2 + na);
    let body = spec_block(ls, 2, 2);
    let st = StmtV::While { condition: ce, loop_invariant: ie, body: body->Ok_0.0 };
    assert(spec_while(ls, 1, 1, c) == Ok::<(StmtV, int, int), ParseError>((st, len, len)));
    assert(spec_statement(ls, 1, 1, wl) == Ok::<(StmtV, int, int), ParseError>((st, len, len)));
    assert(spec_block(ls, len, len) == Ok::<(Seq<StmtV>, BlockTerminal, int, int), ParseError>((Seq::empty(), BlockTerminal::EOF, len, len + 1)));
    assert(seq![st] + Seq::<StmtV>::empty() =~= seq![st]);
    assert(spec_block(ls, 0, 0) == Ok::<(Seq<StmtV>, BlockTerminal, int, int), ParseError>((seq![st], BlockTerminal::EOF, len, len + 1)));
    assert forall|k: int| 0 <= k < na implies spec_parse(#[trigger] a[k]) == Ok::<Seq<StmtV>, ParseError>(
        seq![st->While_body[k]],
    ) by {
        assert(ls[2 + k] == a[k]);
    }
    assert(while_holds(st, c, i, a));
}

/// The tokens of the names after the first of a declaration: a comma and a name each.
pub open spec fn more_names(ns: Seq<Seq<char>>) -> Seq<TokenV>
    decreases ns.len(),
{
    if ns.len() == 0 {
        Seq::empty()
    } else {
        seq![TokenV::Comma, TokenV::Identifier(ns[0])] + more_names(ns.skip(1))
    }
}

proof fn lemma_declare_names(pre: Seq<TokenV>, ns: Seq<Seq<char>>, line: u32)
    ensures
        spec_declare_rest(pre + more_names(ns), pre.len() as int, line) == Ok::<Seq<Seq<char>>, ParseError>(ns),
    decreases ns.len(),
{
    let t = pre + more_names(ns);
    if ns.len() == 0 {
        assert(t =~= pre);
        assert(ns =~= Seq::<Seq<char>>::empty());
    } else {
        assert(more_names(ns).len() >= 2);
        let pre2 = pre + seq![TokenV::Comma, TokenV::Identifier(ns[0])];
        assert(t =~= pre2 + more_names(ns.skip(1)));
        assert(t[pre.len() as int] == TokenV::Comma);
        assert(t[pre.len() as int + 1] == TokenV::Identifier(ns[0]));
        lemma_declare_names(pre2, ns.skip(1), line);
        assert(pre2.len() == pre.len() + 2);
        assert(seq![ns[0]] + ns.skip(1) =~= ns);
    }
}

/// **A declaration lists its names.** `var x1, x2, ..., xn` parses to the declaration of
/// exactly the names `x1` to `xn`, in order.
pub proof fn theorem_declaration_names(ns: Seq<Seq<char>>)
    requires
        ns.len() >= 1,
    ensures
        spec_parse(seq![TokenV::Declare, TokenV::Identifier(ns[0])] + more_names(ns.skip(1)))
            == Ok::<Seq<StmtV>, ParseError>(seq![StmtV::Declare(ns)]),
{
    let l = seq![TokenV::Declare, TokenV::Identifier(ns[0])] + more_names(ns.skip(1));
    let rest = seq![TokenV::Identifier(ns[0])] + more_names(ns.skip(1));
    assert(l.skip(1) =~= rest);
    lemma_declare_names(seq![TokenV::Identifier(ns[0])], ns.skip(1), 1);
    assert(seq![ns[0]] + ns.skip(1) =~= ns);
    assert(spec_declare(rest, 1) == Ok::<StmtV, ParseError>(StmtV::Declare(ns)));
    lemma_more_names_one_line(ns.skip(1));
    assert forall|k: int| 0 <= k < l.len() implies #[trigger] l[k] != TokenV::Newline by {
        if k >= 2 {
            assert(l[k] == more_names(ns.skip(1))[k - 2]);
        }
    }
    lemma_split_one(l);
    let one = seq![l];
    assert(one[0] == l);
    assert(spec_statement(one, 1, 1, l) == Ok::<(StmtV, int, int), ParseError>((StmtV::Declare(ns), 1, 1)));
    assert(spec_block(one, 1, 1) == Ok::<(Seq<StmtV>, BlockTerminal, int, int), ParseError>((Seq::empty(), BlockTerminal::EOF, 1, 2)));
    assert(seq![StmtV::Declare(ns)] + Seq::<StmtV>::empty() =~= seq![StmtV::Declare(ns)]);
}

proof fn lemma_more_names_one_line(ns: Seq<Seq<char>>)
    ensures
        one_line(more_names(ns)),
    decreases ns.len(),
{
    if ns.len() > 0 {
        lemma_more_names_one_line(ns.skip(1));
        let m = more_names(ns);
        assert forall|k: int| 0 <= k < m.len() implies #[trigger] m[k] != TokenV::Newline by {
            if k >= 2 {
                assert(m[k] == more_names(ns.skip(1))[k - 2]);
            }
        }
    }
}

proof fn lemma_one_statement(l: Seq<TokenV>, st: StmtV)
    requires
        one_line(l),
        spec_statement(seq![l], 1, 1, l) == Ok::<(StmtV, int, int), ParseError>((st, 1, 1)),
        !(st is Empty),
        !(st is End),
        !(st is Else),
    ensures
        spec_parse(l) == Ok::<Seq<StmtV>, ParseError>(seq![st]),
{
    lemma_split_one(l);
    let one = seq![l];
    assert(one[0] == l);
    assert(spec_block(one, 1, 1) == Ok::<(Seq<StmtV>, BlockTerminal, int, int), ParseError>((Seq::empty(), BlockTerminal::EOF, 1, 2)));
    assert(seq![st] + Seq::<StmtV>::empty() =~= seq![st]);
}

/// **Simple statements.** `assume e` is the assumption of the expression `e`, `assert e`
/// its assertion, and `x := e` the assignment of `e` to `x`.
pub proof fn theorem_simple_statements(e: Seq<TokenV>, x: Seq<char>)
    requires
        one_line(e),
        spec_parse_expr(e, 1) is Ok,
    ensures
        spec_parse(seq![TokenV::Assume] + e) == Ok::<Seq<StmtV>, ParseError>(
            seq![StmtV::Assume(spec_parse_expr(e, 1)->Ok_0)],
        ),
        spec_parse(seq![TokenV::Assert] + e) == Ok::<Seq<StmtV>, ParseError>(
            seq![StmtV::Assert(spec_parse_expr(e, 1)->Ok_0)],
        ),
        spec_parse(seq![TokenV::Identifier(x), TokenV::Op(Symbol::Assign)] + e) == Ok::<Seq<StmtV>, ParseError>(
            seq![StmtV::Assign(x, spec_parse_expr(e, 1)->Ok_0)],
        ),
{
    let pe = spec_parse_expr(e, 1)->Ok_0;
    let l1 = seq![TokenV::Assume] + e;
    let l2 = seq![TokenV::Assert] + e;
    let l3 = seq![TokenV::Identifier(x), TokenV::Op(Symbol::Assign)] + e;
    assert(l1.skip(1) =~= e);
    assert(l2.skip(1) =~= e);
    assert(l3.skip(2) =~= e);
    assert forall|k: int| 0 <= k < l1.len() implies #[trigger] l1[k] != TokenV::Newline by {
        if k >= 1 {
            assert(l1[k] == e[k - 1]);
        }
    }
    assert forall|k: int| 0 <= k < l2.len() implies #[trigger] l2[k] != TokenV::Newline by {
        if k >= 1 {
            assert(l2[k] == e[k - 1]);
        }
    }
    assert forall|k: int| 0 <= k < l3.len() implies #[trigger] l3[k] != TokenV::Newline by {
        if k >= 2 {
            assert(l3[k] == e[k - 2]);
        }
    }
    assert(spec_statement(seq![l1], 1, 1, l1) == Ok::<(StmtV, int, int), ParseError>((StmtV::Assume(pe), 1, 1)));
    lemma_one_statement(l1, StmtV::Assume(pe));
    assert(spec_statement(seq![l2], 1, 1, l2) == Ok::<(StmtV, int, int), ParseError>((StmtV::Assert(pe), 1, 1)));
    lemma_one_statement(l2, StmtV::Assert(pe));
    assert(spec_statement(seq![l3], 1, 1, l3) == Ok::<(StmtV, int, int), ParseError>((StmtV::Assign(x, pe), 1, 1)));
    lemma_one_statement(l3, StmtV::Assign(x, pe));
}

} // verus!
