//! Error types of the lexer, the parser and the compiler.

use vstd::prelude::*;
use vstd::string::*;
use crate::text::{decimal, push_decimal};

verus! {

/// Errors produced by the lexer.
#[derive(Debug, Clone, PartialEq, Eq)]
pub enum LexError {
    /// Received an empty input string.
    MissingInput,
    /// Encountered an invalid substring.
    InvalidToken(String),
    /// Encountered an invalid symbol.
    InvalidSymbol(String),
    /// Failed to parse an integer.
    InvalidInt(String),
}

/// The mathematical value of a [LexError]: its text payload as characters.
pub enum LexErrorV {
    MissingInput,
    InvalidToken(Seq<char>),
    InvalidSymbol(Seq<char>),
    InvalidInt(Seq<char>),
}

impl View for LexError {
    type V = LexErrorV;

    open spec fn view(&self) -> LexErrorV {
        match self {
            LexError::MissingInput => LexErrorV::MissingInput,
            LexError::InvalidToken(s) => LexErrorV::InvalidToken(s@),
            LexError::InvalidSymbol(s) => LexErrorV::InvalidSymbol(s@),
            LexError::InvalidInt(s) => LexErrorV::InvalidInt(s@),
        }
    }
}

/// The text of a lexer error, as it is shown to the user.
pub open spec fn lex_error_text(e: LexErrorV) -> Seq<char> {
    match e {
        LexErrorV::MissingInput => "input is missing"@,
        LexErrorV::InvalidToken(t) => "invalid token\n-> \""@ + t + "\""@,
        LexErrorV::InvalidSymbol(t) => "invalid symbol\n-> \""@ + t + "\""@,
        LexErrorV::InvalidInt(t) => "failed to parse integer\n-> \""@ + t + "\""@,
    }
}

impl LexError {
    /// The text of the error, as it is shown to the user.
    pub fn message(&self) -> (r: String)
        ensures
            r@ == lex_error_text(self@),
    {
        match self {
            LexError::MissingInput => String::from_str("input is missing"),
            LexError::InvalidToken(t) => {
                let mut r = String::from_str("invalid token\n-> \"");
                r.append(t.as_str());
                r.append("\"");
                r
            },
            LexError::InvalidSymbol(t) => {
                let mut r = String::from_str("invalid symbol\n-> \"");
                r.append(t.as_str());
                r.append("\"");
                r
            },
            LexError::InvalidInt(t) => {
                let mut r = String::from_str("failed to parse integer\n-> \"");
                r.append(t.as_str());
                r.append("\"");
                r
            },
        }
    }
}

/// Errors produced by the parser; each carries the (1-based) line number.
#[derive(Debug, Clone, Copy, PartialEq, Eq, Structural)]
pub enum ParseError {
    /// Encountered an unexpected token.
    UnexpectedToken(u32),
    /// Failed to parse an invalid declaration.
    InvalidDeclare(u32),
    /// Failed to parse a declaration because of a missing comma.
    MissingComma(u32),
    /// Failed to parse a declaration because of a trailing comma.
    TrailingComma(u32),
    /// Failed to parse an invalid assignment.
    InvalidAssign(u32),
    /// Failed to parse an invalid expression.
    InvalidExpression(u32),
    /// Expected a closing parenthesis.
    UnclosedParenthesis(u32),
    /// Encountered a trailing parenthesis.
    TrailingParenthesis(u32),
    /// Expected an `else` or `end` terminal.
    ExpectedElseEnd(u32),
    /// Expected the `end` terminal.
    ExpectedEnd(u32),
    /// Encountered a trailing terminal.
    ExpectedEof(u32),
    /// Expected an invariant statement.
    ExpectedInvariant(u32),
    /// Encountered an invalid statement.
    InvalidStatement(u32),
    /// Expected an expression in the statement.
    MissingExpression(u32),
}

/// The line number that a parser error reports.
pub open spec fn parse_error_line(e: ParseError) -> u32 {
    match e {
        ParseError::UnexpectedToken(l) => l,
        ParseError::InvalidDeclare(l) => l,
        ParseError::MissingComma(l) => l,
        ParseError::TrailingComma(l) => l,
        ParseError::InvalidAssign(l) => l,
        ParseError::InvalidExpression(l) => l,
        ParseError::UnclosedParenthesis(l) => l,
        ParseError::TrailingParenthesis(l) => l,
        ParseError::ExpectedElseEnd(l) => l,
        ParseError::ExpectedEnd(l) => l,
        ParseError::ExpectedEof(l) => l,
        ParseError::ExpectedInvariant(l) => l,
        ParseError::InvalidStatement(l) => l,
        ParseError::MissingExpression(l) => l,
    }
}

/// A parser error of the same kind, reported at line `l`.
pub open spec fn at_line(e: ParseError, l: u32) -> ParseError {
    match e {
        ParseError::UnexpectedToken(_) => ParseError::UnexpectedToken(l),
        ParseError::InvalidDeclare(_) => ParseError::InvalidDeclare(l),
        ParseError::MissingComma(_) => ParseError::MissingComma(l),
        ParseError::TrailingComma(_) => ParseError::TrailingComma(l),
        ParseError::InvalidAssign(_) => ParseError::InvalidAssign(l),
        ParseError::InvalidExpression(_) => ParseError::InvalidExpression(l),
        ParseError::UnclosedParenthesis(_) => ParseError::UnclosedParenthesis(l),
        ParseError::TrailingParenthesis(_) => ParseError::TrailingParenthesis(l),
        ParseError::ExpectedElseEnd(_) => ParseError::ExpectedElseEnd(l),
        ParseError::ExpectedEnd(_) => ParseError::ExpectedEnd(l),
        ParseError::ExpectedEof(_) => ParseError::ExpectedEof(l),
        ParseError::ExpectedInvariant(_) => ParseError::ExpectedInvariant(l),
        ParseError::InvalidStatement(_) => ParseError::InvalidStatement(l),
        ParseError::MissingExpression(_) => ParseError::MissingExpression(l),
    }
}

/// The description of a parser error, without its line number.
pub open spec fn parse_error_title(e: ParseError) -> Seq<char> {
    match e {
        ParseError::UnexpectedToken(_) => "unexpected token"@,
        ParseError::InvalidDeclare(_) => "invalid declaration"@,
        ParseError::MissingComma(_) => "missing comma"@,
        ParseError::TrailingComma(_) => "trailing comma"@,
        ParseError::InvalidAssign(_) => "invalid assignment"@,
        ParseError::InvalidExpression(_) => "invalid expression"@,
        ParseError::UnclosedParenthesis(_) => "unclosed parenthesis"@,
        ParseError::TrailingParenthesis(_) => "trailing parenthesis"@,
        ParseError::ExpectedElseEnd(_) => "expected else or end"@,
        ParseError::ExpectedEnd(_) => "expected end"@,
        ParseError::ExpectedEof(_) => "trailing terminal"@,
        ParseError::ExpectedInvariant(_) => "expected invariant"@,
        ParseError::InvalidStatement(_) => "invalid statement"@,
        ParseError::MissingExpression(_) => "missing expression"@,
    }
}

/// The text of a parser error, as it is shown to the user.
pub open spec fn parse_error_text(e: ParseError) -> Seq<char> {
    parse_error_title(e) + "\n-> Line "@ + decimal(parse_error_line(e) as nat)
}

impl ParseError {
    /// The line number that the error reports.
    pub fn line(&self) -> (l: u32)
        ensures
            l == parse_error_line(*self),
    {
        match self {
            ParseError::UnexpectedToken(l) => *l,
            ParseError::InvalidDeclare(l) => *l,
            ParseError::MissingComma(l) => *l,
            ParseError::TrailingComma(l) => *l,
            ParseError::InvalidAssign(l) => *l,
            ParseError::InvalidExpression(l) => *l,
            ParseError::UnclosedParenthesis(l) => *l,
            ParseError::TrailingParenthesis(l) => *l,
            ParseError::ExpectedElseEnd(l) => *l,
            ParseError::ExpectedEnd(l) => *l,
            ParseError::ExpectedEof(l) => *l,
            ParseError::ExpectedInvariant(l) => *l,
            ParseError::InvalidStatement(l) => *l,
            ParseError::MissingExpression(l) => *l,
        }
    }

    /// The text of the error, as it is shown to the user.
    pub fn message(&self) -> (r: String)
        ensures
            r@ == parse_error_text(*self),
    {
        let mut r = match self {
            ParseError::UnexpectedToken(_) => String::from_str("unexpected token"),
            ParseError::InvalidDeclare(_) => String::from_str("invalid declaration"),
            ParseError::MissingComma(_) => String::from_str("missing comma"),
            ParseError::TrailingComma(_) => String::from_str("trailing comma"),
            ParseError::InvalidAssign(_) => String::from_str("invalid assignment"),
            ParseError::InvalidExpression(_) => String::from_str("invalid expression"),
            ParseError::UnclosedParenthesis(_) => String::from_str("unclosed parenthesis"),
            ParseError::TrailingParenthesis(_) => String::from_str("trailing parenthesis"),
            ParseError::ExpectedElseEnd(_) => String::from_str("expected else or end"),
            ParseError::ExpectedEnd(_) => String::from_str("expected end"),
            ParseError::ExpectedEof(_) => String::from_str("trailing terminal"),
            ParseError::ExpectedInvariant(_) => String::from_str("expected invariant"),
            ParseError::InvalidStatement(_) => String::from_str("invalid statement"),
            ParseError::MissingExpression(_) => String::from_str("missing expression"),
        };
        r.append("\n-> Line ");
        push_decimal(&mut r, self.line());
        r
    }
}

/// Errors produced by the compiler.
#[derive(Debug, Clone, Copy, PartialEq, Eq, Structural)]
pub enum CompileError {
    /// Encountered an illegal variable declaration.
    InvalidDeclaration,
    /// Variable has already been declared.
    AlreadyDeclared,
    /// Encountered an undeclared variable.
    UnboundVariable,
    /// Failed to compile an invalid expression.
    BadExpression,
    /// Failed to compile an invalid statement.
    BadStatement,
}

/// The text of a compiler error, as it is shown to the user.
pub open spec fn compile_error_text(e: CompileError) -> Seq<char> {
    match e {
        CompileError::InvalidDeclaration => "variables may only be declared once"@,
        CompileError::AlreadyDeclared => "a variable has been declared more than once"@,
        CompileError::UnboundVariable => "attempted to use an undeclared variable"@,
        CompileError::BadExpression => "failed to evaluate expression"@,
        CompileError::BadStatement => "failed to evaluate statement"@,
    }
}

impl CompileError {
    /// The text of the error, as it is shown to the user.
    pub fn message(&self) -> (r: String)
        ensures
            r@ == compile_error_text(*self),
    {
        match self {
            CompileError::InvalidDeclaration => String::from_str("variables may only be declared once"),
            CompileError::AlreadyDeclared => String::from_str("a variable has been declared more than once"),
            CompileError::UnboundVariable => String::from_str("attempted to use an undeclared variable"),
            CompileError::BadExpression => String::from_str("failed to evaluate expression"),
            CompileError::BadStatement => String::from_str("failed to evaluate statement"),
        }
    }
}

} // verus!
