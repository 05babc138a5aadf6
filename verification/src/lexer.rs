//! Lexical analyzer for token generation.
//!
//! The token grammar, scanned left to right from the first unread character:
//!
//! - whitespace: a newline (`\n`), which yields a [Token::Newline], or a space or tab,
//!   which yields nothing;
//! - a word: an ASCII letter followed by ASCII letters, digits and underscores; keywords
//!   become their own tokens, any other word an identifier;
//! - a number: an optional `-` followed by one or more decimal digits of any script
//!   (Unicode `Nd`); it becomes an integer token when its digits are ASCII digits and its
//!   value fits in an `i64`, and is an invalid integer otherwise;
//! - a symbol: `,`, `:=`, `==`, `!=`, `<=`, `>=`, `&&`, `||`, or one of `+ - * / < > ( )`.
//!
//! Anything else is an invalid token.

use vstd::prelude::*;
use vstd::string::*;
use crate::errors::{LexError, LexErrorV};
use crate::text::{chars_of, decimal, digit_char, string_of};

verus! {

/// Represents expression operators.
///
/// There are four types of operations in the language:
///
/// - *Arithmetic* operations (`+`, `-`, `*`, `/`)
/// - *Relational* operations (`<`, `>`, `<=`, `>=`, `==`, `!=`)
/// - *Logical* operations (`&&`, `||`)
/// - *Assignment* operations (`:=`)
#[derive(Debug, Clone, Copy, PartialEq, Eq, Structural)]
pub enum Symbol {
    /// Addition (`+`)
    Add,
    /// Subtraction (`-`)
    Sub,
    /// Multiplication (`*`)
    Mul,
    /// Division (`/`)
    Div,
    /// Less than (`<`)
    Lt,
    /// Greater than (`>`)
    Gt,
    /// Less than or equal to (`<=`)
    Le,
    /// Greater than or equal to (`>=`)
    Ge,
    /// Equal to (`==`)
    Eq,
    /// Not equal to (`!=`)
    Neq,
    /// And (`&&`)
    And,
    /// Or (`||`)
    Or,
    /// Assign (`:=`)
    Assign,
    /// Left parenthesis (`(`)
    LParen,
    /// Right parenthesis (`)`)
    RParen,
}

/// The one-character symbol that `c` spells, if any.
pub open spec fn symbol_of_char(c: char) -> Option<Symbol> {
    if c == '+' {
        Some(Symbol::Add)
    } else if c == '-' {
        Some(Symbol::Sub)
    } else if c == '*' {
        Some(Symbol::Mul)
    } else if c == '/' {
        Some(Symbol::Div)
    } else if c == '<' {
        Some(Symbol::Lt)
    } else if c == '>' {
        Some(Symbol::Gt)
    } else if c == '(' {
        Some(Symbol::LParen)
    } else if c == ')' {
        Some(Symbol::RParen)
    } else {
        None
    }
}

/// The two-character symbol that `a` followed by `b` spells, if any.
pub open spec fn symbol_of_pair(a: char, b: char) -> Option<Symbol> {
    if a == '<' && b == '=' {
        Some(Symbol::Le)
    } else if a == '>' && b == '=' {
        Some(Symbol::Ge)
    } else if a == '=' && b == '=' {
        Some(Symbol::Eq)
    } else if a == '!' && b == '=' {
        Some(Symbol::Neq)
    } else if a == '&' && b == '&' {
        Some(Symbol::And)
    } else if a == '|' && b == '|' {
        Some(Symbol::Or)
    } else if a == ':' && b == '=' {
        Some(Symbol::Assign)
    } else {
        None
    }
}

/// The symbol that a text spells, if any.
pub open spec fn symbol_of(s: Seq<char>) -> Option<Symbol> {
    if s.len() == 1 {
        symbol_of_char(s[0])
    } else if s.len() == 2 {
        symbol_of_pair(s[0], s[1])
    } else {
        None
    }
}

/// Whether the characters `v[lo..]` begin with `lit`.
fn starts_with(v: &Vec<char>, lo: usize, lit: &Vec<char>, Ghost(w): Ghost<Seq<char>>) -> (r: bool)
    requires
        lo <= v.len(),
        lit@ =~= w,
    ensures
        r == (lo + w.len() <= v.len() && v@.subrange(lo as int, lo + w.len()) == w),
{
    if lit.len() > v.len() - lo {
        return false;
    }
    let mut k: usize = 0;
    while k < lit.len()
        invariant
            lo + lit.len() <= v.len(),
            k <= lit.len(),
            lit@ == w,
            forall|m: int| 0 <= m < k ==> v@[lo + m] == lit@[m],
        decreases lit.len() - k,
    {
        if v[lo + k] != lit[k] {
            assert(v@.subrange(lo as int, lo + lit.len())[k as int] != w[k as int]);
            return false;
        }
        k = k + 1;
    }
    assert(v@.subrange(lo as int, lo + lit.len()) =~= lit@);
    true
}

/// Whether the characters `v[lo..hi]` are exactly `lit`.
fn range_is(v: &Vec<char>, lo: usize, hi: usize, lit: &Vec<char>, Ghost(w): Ghost<Seq<char>>) -> (r: bool)
    requires
        lo <= hi <= v.len(),
        lit@ =~= w,
    ensures
        r == (v@.subrange(lo as int, hi as int) == w),
{
    if hi - lo != lit.len() {
        return false;
    }
    starts_with(v, lo, lit, Ghost(w))
}

/// The one-character symbol that `c` spells, if any.
fn char_symbol(c: char) -> (r: Option<Symbol>)
    ensures
        r == symbol_of_char(c),
{
    if c == '+' {
        Some(Symbol::Add)
    } else if c == '-' {
        Some(Symbol::Sub)
    } else if c == '*' {
        Some(Symbol::Mul)
    } else if c == '/' {
        Some(Symbol::Div)
    } else if c == '<' {
        Some(Symbol::Lt)
    } else if c == '>' {
        Some(Symbol::Gt)
    } else if c == '(' {
        Some(Symbol::LParen)
    } else if c == ')' {
        Some(Symbol::RParen)
    } else {
        None
    }
}

/// The two-character symbol that `a` followed by `b` spells, if any.
fn pair_symbol(a: char, b: char) -> (r: Option<Symbol>)
    ensures
        r == symbol_of_pair(a, b),
{
    if a == '<' && b == '=' {
        Some(Symbol::Le)
    } else if a == '>' && b == '=' {
        Some(Symbol::Ge)
    } else if a == '=' && b == '=' {
        Some(Symbol::Eq)
    } else if a == '!' && b == '=' {
        Some(Symbol::Neq)
    } else if a == '&' && b == '&' {
        Some(Symbol::And)
    } else if a == '|' && b == '|' {
        Some(Symbol::Or)
    } else if a == ':' && b == '=' {
        Some(Symbol::Assign)
    } else {
        None
    }
}

/// The symbol that the characters `v[lo..hi]` spell, if any.
fn symbol_in(v: &Vec<char>, lo: usize, hi: usize) -> (r: Option<Symbol>)
    requires
        lo <= hi <= v.len(),
    ensures
        r == symbol_of(v@.subrange(lo as int, hi as int)),
{
    if hi - lo == 1 {
        char_symbol(v[lo])
    } else if hi - lo == 2 {
        pair_symbol(v[lo], v[lo + 1])
    } else {
        None
    }
}

impl Symbol {
    /// Parses a symbol from its string representation.
    pub fn from_str(s: &str) -> (r: Result<Self, LexError>)
        ensures
            match symbol_of(s@) {
                Some(sym) => r == Ok::<Symbol, LexError>(sym),
                None => r matches Err(e) && e@ == LexErrorV::InvalidSymbol(s@),
            },
    {
        let v = chars_of(s);
        let n = v.len();
        assert(v@.subrange(0, n as int) =~= s@);
        let r = symbol_in(&v, 0, n);
        match r {
            Some(sym) => Ok(sym),
            None => Err(LexError::InvalidSymbol(String::from_str(s))),
        }
    }
}

/// A lexical token produced by the tokenizer.
///
/// There are four type of tokens:
///
/// - *Literal* tokens for variables and values
/// - *Keyword* tokens for statements and control flow
/// - *Symbolic* tokens for operators (see [Symbol])
/// - *Syntactic* tokens (for syntax)
#[derive(Debug, PartialEq, Eq)]
pub enum Token {
    // Literals
    Identifier(String),
    Integer(i64),
    Boolean(bool),
    // Keywords
    Declare,
    Assume,
    Assert,
    If,
    Then,
    Else,
    While,
    Invariant,
    End,
    // Symbols
    Op(Symbol),
    // Syntax
    Comma,
    Newline,
}

/// The mathematical value of a [Token]: an identifier is its sequence of characters.
pub enum TokenV {
    Identifier(Seq<char>),
    Integer(i64),
    Boolean(bool),
    Declare,
    Assume,
    Assert,
    If,
    Then,
    Else,
    While,
    Invariant,
    End,
    Op(Symbol),
    Comma,
    Newline,
}

impl View for Token {
    type V = TokenV;

    open spec fn view(&self) -> TokenV {
        match self {
            Token::Identifier(s) => TokenV::Identifier(s@),
            Token::Integer(i) => TokenV::Integer(*i),
            Token::Boolean(b) => TokenV::Boolean(*b),
            Token::Declare => TokenV::Declare,
            Token::Assume => TokenV::Assume,
            Token::Assert => TokenV::Assert,
            Token::If => TokenV::If,
            Token::Then => TokenV::Then,
            Token::Else => TokenV::Else,
            Token::While => TokenV::While,
            Token::Invariant => TokenV::Invariant,
            Token::End => TokenV::End,
            Token::Op(sym) => TokenV::Op(*sym),
            Token::Comma => TokenV::Comma,
            Token::Newline => TokenV::Newline,
        }
    }
}

/// The mathematical value of a sequence of tokens.
pub open spec fn tokens_view(ts: Seq<Token>) -> Seq<TokenV> {
    ts.map_values(|t: Token| t@)
}

/// The mathematical value of the result of [tokenize].
pub open spec fn lex_result_view(r: Result<Vec<Token>, LexError>) -> Result<Seq<TokenV>, LexErrorV> {
    match r {
        Ok(ts) => Ok(tokens_view(ts@)),
        Err(e) => Err(e@),
    }
}

/// An ASCII letter.
pub open spec fn is_letter(c: char) -> bool {
    ('a' <= c && c <= 'z') || ('A' <= c && c <= 'Z')
}

/// An ASCII decimal digit.
pub open spec fn is_digit(c: char) -> bool {
    '0' <= c && c <= '9'
}

/// Whether `lo <= u <= hi`.
pub open spec fn within(u: u32, lo: u32, hi: u32) -> bool {
    lo <= u && u <= hi
}

/// A decimal digit of any script: a character of the Unicode general category `Nd`
/// (Decimal_Number), as of Unicode 16.0. The ASCII digits are among them.
pub open spec fn is_decimal(c: char) -> bool {
    let u = c as u32;
    ||| within(u, 0x30, 0x39)
    ||| within(u, 0x660, 0x669)
    ||| within(u, 0x6F0, 0x6F9)
    ||| within(u, 0x7C0, 0x7C9)
    ||| within(u, 0x966, 0x96F)
    ||| within(u, 0x9E6, 0x9EF)
    ||| within(u, 0xA66, 0xA6F)
    ||| within(u, 0xAE6, 0xAEF)
    ||| within(u, 0xB66, 0xB6F)
    ||| within(u, 0xBE6, 0xBEF)
    ||| within(u, 0xC66, 0xC6F)
    ||| within(u, 0xCE6, 0xCEF)
    ||| within(u, 0xD66, 0xD6F)
    ||| within(u, 0xDE6, 0xDEF)
    ||| within(u, 0xE50, 0xE59)
    ||| within(u, 0xED0, 0xED9)
    ||| within(u, 0xF20, 0xF29)
    ||| within(u, 0x1040, 0x1049)
    ||| within(u, 0x1090, 0x1099)
    ||| within(u, 0x17E0, 0x17E9)
    ||| within(u, 0x1810, 0x1819)
    ||| within(u, 0x1946, 0x194F)
    ||| within(u, 0x19D0, 0x19D9)
    ||| within(u, 0x1A80, 0x1A89)
    ||| within(u, 0x1A90, 0x1A99)
    ||| within(u, 0x1B50, 0x1B59)
    ||| within(u, 0x1BB0, 0x1BB9)
    ||| within(u, 0x1C40, 0x1C49)
    ||| within(u, 0x1C50, 0x1C59)
    ||| within(u, 0xA620, 0xA629)
    ||| within(u, 0xA8D0, 0xA8D9)
    ||| within(u, 0xA900, 0xA909)
    ||| within(u, 0xA9D0, 0xA9D9)
    ||| within(u, 0xA9F0, 0xA9F9)
    ||| within(u, 0xAA50, 0xAA59)
    ||| within(u, 0xABF0, 0xABF9)
    ||| within(u, 0xFF10, 0xFF19)
    ||| within(u, 0x104A0, 0x104A9)
    ||| within(u, 0x10D30, 0x10D39)
    ||| within(u, 0x10D40, 0x10D49)
    ||| within(u, 0x11066, 0x1106F)
    ||| within(u, 0x110F0, 0x110F9)
    ||| within(u, 0x11136, 0x1113F)
    ||| within(u, 0x111D0, 0x111D9)
    ||| within(u, 0x112F0, 0x112F9)
    ||| within(u, 0x11450, 0x11459)
    ||| within(u, 0x114D0, 0x114D9)
    ||| within(u, 0x11650, 0x11659)
    ||| within(u, 0x116C0, 0x116C9)
    ||| within(u, 0x116D0, 0x116E3)
    ||| within(u, 0x11730, 0x11739)
    ||| within(u, 0x118E0, 0x118E9)
    ||| within(u, 0x11950, 0x11959)
    ||| within(u, 0x11BF0, 0x11BF9)
    ||| within(u, 0x11C50, 0x11C59)
    ||| within(u, 0x11D50, 0x11D59)
    ||| within(u, 0x11DA0, 0x11DA9)
    ||| within(u, 0x11F50, 0x11F59)
    ||| within(u, 0x16130, 0x16139)
    ||| within(u, 0x16A60, 0x16A69)
    ||| within(u, 0x16AC0, 0x16AC9)
    ||| within(u, 0x16B50, 0x16B59)
    ||| within(u, 0x16D70, 0x16D79)
    ||| within(u, 0x1CCF0, 0x1CCF9)
    ||| within(u, 0x1D7CE, 0x1D7FF)
    ||| within(u, 0x1E140, 0x1E149)
    ||| within(u, 0x1E2F0, 0x1E2F9)
    ||| within(u, 0x1E4F0, 0x1E4F9)
    ||| within(u, 0x1E5F1, 0x1E5FA)
    ||| within(u, 0x1E950, 0x1E959)
    ||| within(u, 0x1FBF0, 0x1FBF9)
}

/// A character that may continue a word.
pub open spec fn is_word_char(c: char) -> bool {
    is_letter(c) || is_digit(c) || c == '_'
}

/// The end of the longest run of word characters in `s` that starts at `i`.
pub open spec fn word_end(s: Seq<char>, i: int) -> int
    decreases s.len() - i,
{
    if 0 <= i < s.len() && is_word_char(s[i]) {
        word_end(s, i + 1)
    } else {
        i
    }
}

/// The end of the longest run of decimal digits in `s` that starts at `i`.
pub open spec fn digits_end(s: Seq<char>, i: int) -> int
    decreases s.len() - i,
{
    if 0 <= i < s.len() && is_decimal(s[i]) {
        digits_end(s, i + 1)
    } else {
        i
    }
}

/// The value of a sequence of decimal digits.
pub open spec fn digits_value(d: Seq<char>) -> nat
    decreases d.len(),
{
    if d.len() == 0 {
        0
    } else {
        digits_value(d.drop_last()) * 10 + ((d.last() as int) - ('0' as int)) as nat
    }
}

/// The digits of a number text: the text without its sign.
pub open spec fn number_digits(t: Seq<char>) -> Seq<char> {
    if t.len() > 0 && t[0] == '-' {
        t.skip(1)
    } else {
        t
    }
}

/// Whether the digits of a number text are all ASCII digits, the only ones that an
/// integer can be read from.
pub open spec fn ascii_number(t: Seq<char>) -> bool {
    forall|k: int| 0 <= k < number_digits(t).len() ==> is_digit(#[trigger] number_digits(t)[k])
}

/// The integer that a number text with ASCII digits (`-?[0-9]+`) denotes.
pub open spec fn number_value(t: Seq<char>) -> int {
    if t.len() > 0 && t[0] == '-' {
        -(digits_value(t.skip(1)) as int)
    } else {
        digits_value(t) as int
    }
}

/// The token that a word stands for: a keyword or an identifier.
pub open spec fn word_token(w: Seq<char>) -> TokenV {
    if w == seq!['T', 'R', 'U', 'E'] {
        TokenV::Boolean(true)
    } else if w == seq!['F', 'A', 'L', 'S', 'E'] {
        TokenV::Boolean(false)
    } else if w == seq!['v', 'a', 'r'] {
        TokenV::Declare
    } else if w == seq!['a', 's', 's', 'u', 'm', 'e'] {
        TokenV::Assume
    } else if w == seq!['a', 's', 's', 'e', 'r', 't'] {
        TokenV::Assert
    } else if w == seq!['i', 'f'] {
        TokenV::If
    } else if w == seq!['t', 'h', 'e', 'n'] {
        TokenV::Then
    } else if w == seq!['e', 'l', 's', 'e'] {
        TokenV::Else
    } else if w == seq!['w', 'h', 'i', 'l', 'e'] {
        TokenV::While
    } else if w == seq!['i', 'n', 'v', 'a', 'r', 'i', 'a', 'n', 't'] {
        TokenV::Invariant
    } else if w == seq!['e', 'n', 'd'] {
        TokenV::End
    } else {
        TokenV::Identifier(w)
    }
}

/// The length of the symbol text that starts at position `i` of `s`, if one does.
/// Two-character symbols are preferred to their one-character prefixes.
pub open spec fn symbol_len(s: Seq<char>, i: int) -> int {
    if i + 2 <= s.len() && (symbol_of(s.subrange(i, i + 2)) is Some) {
        2
    } else if i + 1 <= s.len() && (s[i] == ',' || symbol_of(s.subrange(i, i + 1)) is Some) {
        1
    } else {
        0
    }
}

/// The token of the symbol text `t` (a comma or a [Symbol]).
pub open spec fn symbol_token(t: Seq<char>) -> TokenV {
    if t.len() == 1 && t[0] == ',' {
        TokenV::Comma
    } else {
        TokenV::Op(symbol_of(t).unwrap())
    }
}

/// Puts a token in front of the tokens of a successful scan.
pub open spec fn cons_token(t: TokenV, r: Result<Seq<TokenV>, LexErrorV>) -> Result<
    Seq<TokenV>,
    LexErrorV,
> {
    match r {
        Ok(ts) => Ok(seq![t] + ts),
        Err(e) => Err(e),
    }
}

/// Puts tokens in front of the tokens of a successful scan.
pub open spec fn prefix_tokens(p: Seq<TokenV>, r: Result<Seq<TokenV>, LexErrorV>) -> Result<
    Seq<TokenV>,
    LexErrorV,
> {
    match r {
        Ok(ts) => Ok(p + ts),
        Err(e) => Err(e),
    }
}

/// Whether a number starts at position `i` of `s`.
pub open spec fn number_starts(s: Seq<char>, i: int) -> bool {
    is_decimal(s[i]) || (s[i] == '-' && i + 1 < s.len() && is_decimal(s[i + 1]))
}

/// Scans `s` from position `i` to its end.
pub open spec fn scan(s: Seq<char>, i: int) -> Result<Seq<TokenV>, LexErrorV>
    decreases s.len() - i,
{
    if i < 0 || i >= s.len() {
        Ok(Seq::empty())
    } else if s[i] == '\n' {
        cons_token(TokenV::Newline, scan(s, i + 1))
    } else if s[i] == ' ' || s[i] == '\t' {
        scan(s, i + 1)
    } else if is_letter(s[i]) {
        let j = word_end(s, i + 1);
        proof {
            lemma_word_end(s, i + 1);
        }
        cons_token(word_token(s.subrange(i, j)), scan(s, j))
    } else if number_starts(s, i) {
        let j = digits_end(s, i + 1);
        let t = s.subrange(i, j);
        let v = number_value(t);
        proof {
            lemma_digits_end(s, i + 1);
        }
        if ascii_number(t) && i64::MIN <= v <= i64::MAX {
            cons_token(TokenV::Integer(v as i64), scan(s, j))
        } else {
            Err(LexErrorV::InvalidInt(t))
        }
    } else if symbol_len(s, i) > 0 {
        let n = symbol_len(s, i);
        cons_token(symbol_token(s.subrange(i, i + n)), scan(s, i + n))
    } else {
        Err(LexErrorV::InvalidToken(s.subrange(i, s.len() as int)))
    }
}

/// The result of tokenizing a source text.
pub open spec fn spec_tokenize(s: Seq<char>) -> Result<Seq<TokenV>, LexErrorV> {
    if s.len() == 0 {
        Err(LexErrorV::MissingInput)
    } else {
        scan(s, 0)
    }
}

pub proof fn lemma_word_end(s: Seq<char>, i: int)
    requires
        0 <= i <= s.len(),
    ensures
        i <= word_end(s, i) <= s.len(),
        forall|k: int| i <= k < word_end(s, i) ==> is_word_char(s[k]),
        word_end(s, i) < s.len() ==> !is_word_char(s[word_end(s, i)]),
    decreases s.len() - i,
{
    if i < s.len() && is_word_char(s[i]) {
        lemma_word_end(s, i + 1);
    }
}

pub proof fn lemma_digits_end(s: Seq<char>, i: int)
    requires
        0 <= i <= s.len(),
    ensures
        i <= digits_end(s, i) <= s.len(),
        forall|k: int| i <= k < digits_end(s, i) ==> is_decimal(s[k]),
        digits_end(s, i) < s.len() ==> !is_decimal(s[digits_end(s, i)]),
    decreases s.len() - i,
{
    if i < s.len() && is_decimal(s[i]) {
        lemma_digits_end(s, i + 1);
    }
}

fn char_is_letter(c: char) -> (r: bool)
    ensures
        r == is_letter(c),
{
    ('a' <= c && c <= 'z') || ('A' <= c && c <= 'Z')
}

fn char_is_digit(c: char) -> (r: bool)
    ensures
        r == is_digit(c),
{
    '0' <= c && c <= '9'
}

fn in_range(u: u32, lo: u32, hi: u32) -> (r: bool)
    ensures
        r == within(u, lo, hi),
{
    lo <= u && u <= hi
}

fn char_is_decimal(c: char) -> (r: bool)
    ensures
        r == is_decimal(c),
{
    let u = c as u32;
    if u < 0x80 {
        return in_range(u, 0x30, 0x39);
    }
    in_range(u, 0x30, 0x39)
        || in_range(u, 0x660, 0x669)
        || in_range(u, 0x6F0, 0x6F9)
        || in_range(u, 0x7C0, 0x7C9)
        || in_range(u, 0x966, 0x96F)
        || in_range(u, 0x9E6, 0x9EF)
        || in_range(u, 0xA66, 0xA6F)
        || in_range(u, 0xAE6, 0xAEF)
        || in_range(u, 0xB66, 0xB6F)
        || in_range(u, 0xBE6, 0xBEF)
        || in_range(u, 0xC66, 0xC6F)
        || in_range(u, 0xCE6, 0xCEF)
        || in_range(u, 0xD66, 0xD6F)
        || in_range(u, 0xDE6, 0xDEF)
        || in_range(u, 0xE50, 0xE59)
        || in_range(u, 0xED0, 0xED9)
        || in_range(u, 0xF20, 0xF29)
        || in_range(u, 0x1040, 0x1049)
        || in_range(u, 0x1090, 0x1099)
        || in_range(u, 0x17E0, 0x17E9)
        || in_range(u, 0x1810, 0x1819)
        || in_range(u, 0x1946, 0x194F)
        || in_range(u, 0x19D0, 0x19D9)
        || in_range(u, 0x1A80, 0x1A89)
        || in_range(u, 0x1A90, 0x1A99)
        || in_range(u, 0x1B50, 0x1B59)
        || in_range(u, 0x1BB0, 0x1BB9)
        || in_range(u, 0x1C40, 0x1C49)
        || in_range(u, 0x1C50, 0x1C59)
        || in_range(u, 0xA620, 0xA629)
        || in_range(u, 0xA8D0, 0xA8D9)
        || in_range(u, 0xA900, 0xA909)
        || in_range(u, 0xA9D0, 0xA9D9)
        || in_range(u, 0xA9F0, 0xA9F9)
        || in_range(u, 0xAA50, 0xAA59)
        || in_range(u, 0xABF0, 0xABF9)
        || in_range(u, 0xFF10, 0xFF19)
        || in_range(u, 0x104A0, 0x104A9)
        || in_range(u, 0x10D30, 0x10D39)
        || in_range(u, 0x10D40, 0x10D49)
        || in_range(u, 0x11066, 0x1106F)
        || in_range(u, 0x110F0, 0x110F9)
        || in_range(u, 0x11136, 0x1113F)
        || in_range(u, 0x111D0, 0x111D9)
        || in_range(u, 0x112F0, 0x112F9)
        || in_range(u, 0x11450, 0x11459)
        || in_range(u, 0x114D0, 0x114D9)
        || in_range(u, 0x11650, 0x11659)
        || in_range(u, 0x116C0, 0x116C9)
        || in_range(u, 0x116D0, 0x116E3)
        || in_range(u, 0x11730, 0x11739)
        || in_range(u, 0x118E0, 0x118E9)
        || in_range(u, 0x11950, 0x11959)
        || in_range(u, 0x11BF0, 0x11BF9)
        || in_range(u, 0x11C50, 0x11C59)
        || in_range(u, 0x11D50, 0x11D59)
        || in_range(u, 0x11DA0, 0x11DA9)
        || in_range(u, 0x11F50, 0x11F59)
        || in_range(u, 0x16130, 0x16139)
        || in_range(u, 0x16A60, 0x16A69)
        || in_range(u, 0x16AC0, 0x16AC9)
        || in_range(u, 0x16B50, 0x16B59)
        || in_range(u, 0x16D70, 0x16D79)
        || in_range(u, 0x1CCF0, 0x1CCF9)
        || in_range(u, 0x1D7CE, 0x1D7FF)
        || in_range(u, 0x1E140, 0x1E149)
        || in_range(u, 0x1E2F0, 0x1E2F9)
        || in_range(u, 0x1E4F0, 0x1E4F9)
        || in_range(u, 0x1E5F1, 0x1E5FA)
        || in_range(u, 0x1E950, 0x1E959)
        || in_range(u, 0x1FBF0, 0x1FBF9)
}

fn digit_of(c: char) -> (d: i64)
    requires
        is_digit(c),
    ensures
        d == (c as int) - ('0' as int),
        0 <= d <= 9,
{
    if c == '0' {
        0
    } else if c == '1' {
        1
    } else if c == '2' {
        2
    } else if c == '3' {
        3
    } else if c == '4' {
        4
    } else if c == '5' {
        5
    } else if c == '6' {
        6
    } else if c == '7' {
        7
    } else if c == '8' {
        8
    } else {
        9
    }
}

/// The value of the number text `v[lo..hi]`, if its digits are ASCII digits and it fits in
/// an `i64`.
fn number_at(v: &Vec<char>, lo: usize, hi: usize) -> (r: Option<i64>)
    requires
        lo < hi <= v.len(),
        number_starts(v@, lo as int),
        hi == digits_end(v@, lo + 1),
    ensures
        ({
            let t = v@.subrange(lo as int, hi as int);
            match r {
                Some(x) => ascii_number(t) && x == number_value(t),
                None => !(ascii_number(t) && i64::MIN <= number_value(t) <= i64::MAX),
            }
        }),
{
    proof {
        lemma_digits_end(v@, lo + 1);
    }
    let ghost t = v@.subrange(lo as int, hi as int);
    let neg = v[lo] == '-';
    let start = if neg { lo + 1 } else { lo };
    let ghost d = v@.subrange(start as int, hi as int);
    assert(number_digits(t) =~= d);
    assert forall|m: int| start <= m < hi && ascii_number(t) implies is_digit(v@[m]) by {
        assert(number_digits(t)[m - start] == v@[m]);
    }
    // accumulate with the sign of the result, so that i64::MIN is reachable
    let mut acc: i64 = 0;
    let mut k = start;
    while k < hi
        invariant
            lo <= start <= k <= hi <= v.len(),
            neg == (v@[lo as int] == '-'),
            start == (if neg { lo + 1 } else { lo as int }),
            t == v@.subrange(lo as int, hi as int),
            d == v@.subrange(start as int, hi as int),
            number_digits(t) == d,
            forall|m: int| start <= m < hi ==> (is_digit(v@[m]) <== ascii_number(t)),
            forall|m: int| start <= m < k ==> is_digit(v@[m]),
            neg ==> acc == -(digits_value(v@.subrange(start as int, k as int)) as int),
            !neg ==> acc == digits_value(v@.subrange(start as int, k as int)) as int,
        decreases hi - k,
    {
        if !char_is_digit(v[k]) {
            assert(number_digits(t)[k - start] == v@[k as int]);
            return None;
        }
        let dg = digit_of(v[k]);
        assert(v@.subrange(start as int, k + 1).drop_last() =~= v@.subrange(start as int, k as int));
        let m = acc.checked_mul(10);
        match m {
            None => {
                proof {
                    if ascii_number(t) {
                        lemma_number_overflow(v@, lo as int, start as int, k as int, hi as int);
                    }
                }
                return None;
            },
            Some(m) => {
                let next = if neg { m.checked_sub(dg) } else { m.checked_add(dg) };
                match next {
                    None => {
                        proof {
                            if ascii_number(t) {
                                lemma_number_overflow(v@, lo as int, start as int, k as int, hi as int);
                            }
                        }
                        return None;
                    },
                    Some(n) => {
                        acc = n;
                    },
                }
            },
        }
        k = k + 1;
    }
    assert(forall|m: int| 0 <= m < d.len() ==> d[m] == v@[start + m]);
    assert(ascii_number(t));
    assert(v@.subrange(start as int, hi as int) =~= d);
    if neg {
        assert(t.skip(1) =~= d);
    } else {
        assert(t =~= d);
    }
    Some(acc)
}

/// When the value of a prefix of the digits of a number is out of the range of `i64`
/// (with the number's sign), so is the value of the number.
proof fn lemma_number_overflow(v: Seq<char>, lo: int, start: int, k: int, hi: int)
    requires
        0 <= lo <= start <= k < hi <= v.len(),
        start == lo || start == lo + 1,
        (start == lo + 1) == (v[lo] == '-'),
        forall|m: int| start <= m < hi ==> is_digit(v[m]),
        (v[lo] == '-') ==> -(digits_value(v.subrange(start, k + 1)) as int) < i64::MIN,
        (v[lo] != '-') ==> digits_value(v.subrange(start, k + 1)) as int > i64::MAX,
    ensures
        !(i64::MIN <= number_value(v.subrange(lo, hi)) <= i64::MAX),
{
    let d = v.subrange(start, hi);
    assert forall|m: int| 0 <= m < d.len() implies is_digit(d[m]) by {
        assert(d[m] == v[start + m]);
    }
    lemma_digits_value_monotone(d, k - start + 1);
    assert(d.take(k - start + 1) =~= v.subrange(start, k + 1));
    if v[lo] == '-' {
        assert(v.subrange(lo, hi).skip(1) =~= d);
    } else {
        assert(v.subrange(lo, hi) =~= d);
    }
}

/// Prefixes of a digit text have values no greater than the whole.
proof fn lemma_digits_value_monotone(d: Seq<char>, k: int)
    requires
        0 <= k <= d.len(),
        forall|m: int| 0 <= m < d.len() ==> is_digit(d[m]),
    ensures
        digits_value(d.take(k)) <= digits_value(d),
    decreases d.len() - k,
{
    if k < d.len() {
        lemma_digits_value_monotone(d, k + 1);
        assert(d.take(k + 1).drop_last() =~= d.take(k));
    } else {
        assert(d.take(k) =~= d);
    }
}

/// The token of the word `v[lo..hi]`.
fn word_at(v: &Vec<char>, lo: usize, hi: usize) -> (t: Token)
    requires
        lo <= hi <= v.len(),
    ensures
        t@ == word_token(v@.subrange(lo as int, hi as int)),
{
    let ghost w = seq!['T', 'R', 'U', 'E'];
    let hit = range_is(v, lo, hi, &vec!['T', 'R', 'U', 'E'], Ghost(w));
    if hit {
        return Token::Boolean(true);
    }
    let ghost w = seq!['F', 'A', 'L', 'S', 'E'];
    let hit = range_is(v, lo, hi, &vec!['F', 'A', 'L', 'S', 'E'], Ghost(w));
    if hit {
        return Token::Boolean(false);
    }
    let ghost w = seq!['v', 'a', 'r'];
    let hit = range_is(v, lo, hi, &vec!['v', 'a', 'r'], Ghost(w));
    if hit {
        return Token::Declare;
    }
    let ghost w = seq!['a', 's', 's', 'u', 'm', 'e'];
    let hit = range_is(v, lo, hi, &vec!['a', 's', 's', 'u', 'm', 'e'], Ghost(w));
    if hit {
        return Token::Assume;
    }
    let ghost w = seq!['a', 's', 's', 'e', 'r', 't'];
    let hit = range_is(v, lo, hi, &vec!['a', 's', 's', 'e', 'r', 't'], Ghost(w));
    if hit {
        return Token::Assert;
    }
    let ghost w = seq!['i', 'f'];
    let hit = range_is(v, lo, hi, &vec!['i', 'f'], Ghost(w));
    if hit {
        return Token::If;
    }
    let ghost w = seq!['t', 'h', 'e', 'n'];
    let hit = range_is(v, lo, hi, &vec!['t', 'h', 'e', 'n'], Ghost(w));
    if hit {
        return Token::Then;
    }
    let ghost w = seq!['e', 'l', 's', 'e'];
    let hit = range_is(v, lo, hi, &vec!['e', 'l', 's', 'e'], Ghost(w));
    if hit {
        return Token::Else;
    }
    let ghost w = seq!['w', 'h', 'i', 'l', 'e'];
    let hit = range_is(v, lo, hi, &vec!['w', 'h', 'i', 'l', 'e'], Ghost(w));
    if hit {
        return Token::While;
    }
    let ghost w = seq!['i', 'n', 'v', 'a', 'r', 'i', 'a', 'n', 't'];
    let hit = range_is(v, lo, hi, &vec!['i', 'n', 'v', 'a', 'r', 'i', 'a', 'n', 't'], Ghost(w));
    if hit {
        return Token::Invariant;
    }
    let ghost w = seq!['e', 'n', 'd'];
    let hit = range_is(v, lo, hi, &vec!['e', 'n', 'd'], Ghost(w));
    if hit {
        return Token::End;
    }
    Token::Identifier(string_of(v, lo, hi))
}

/// The token of the symbol text that starts at position `i` of `v`, and its length.
fn symbol_at(v: &Vec<char>, i: usize) -> (r: Option<(Token, usize)>)
    requires
        i < v.len(),
    ensures
        match r {
            Some((t, n)) => n == symbol_len(v@, i as int) && n > 0 && t@ == symbol_token(
                v@.subrange(i as int, i + n),
            ),
            None => symbol_len(v@, i as int) == 0,
        },
{
    if i + 1 < v.len() {
        match pair_symbol(v[i], v[i + 1]) {
            Some(sym) => {
                return Some((Token::Op(sym), 2));
            },
            None => {},
        }
    }
    if v[i] == ',' {
        return Some((Token::Comma, 1));
    }
    match char_symbol(v[i]) {
        Some(sym) => Some((Token::Op(sym), 1)),
        None => None,
    }
}

/// Putting a token in front of a scan, then a prefix in front of that, is putting the longer
/// prefix in front of the scan.
proof fn lemma_prefix_cons(p: Seq<TokenV>, t: TokenV, r: Result<Seq<TokenV>, LexErrorV>)
    ensures
        prefix_tokens(p, cons_token(t, r)) == prefix_tokens(p.push(t), r),
{
    if let Ok(ts) = r {
        assert(p + (seq![t] + ts) =~= p.push(t) + ts);
    }
}

/// Tokenizes a string slice.
///
/// The source is scanned from left to right (see the grammar at the top of this module), and
/// a [Token] is made for each match found. A vector of tokens is returned if the source is a
/// valid program. Otherwise, [LexError] is returned for the first invalid match or
/// unrecognizable sequence.
pub fn tokenize(source: &str) -> (r: Result<Vec<Token>, LexError>)
    ensures
        lex_result_view(r) == spec_tokenize(source@),
{
    if source.is_empty() {
        return Err(LexError::MissingInput);
    }
    let s = chars_of(source);
    let n = s.len();
    let mut tokens: Vec<Token> = Vec::new();
    let mut i: usize = 0;
    while i < n
        invariant
            n == s.len(),
            s@ == source@,
            i <= n,
            scan(s@, 0) == prefix_tokens(tokens_view(tokens@), scan(s@, i as int)),
        decreases n - i,
    {
        let c = s[i];
        let ghost before = tokens_view(tokens@);
        if c == '\n' {
            tokens.push(Token::Newline);
            i = i + 1;
            assert(tokens_view(tokens@) =~= before.push(TokenV::Newline));
            proof {
                lemma_prefix_cons(before, TokenV::Newline, scan(s@, i as int));
            }
        } else if c == ' ' || c == '\t' {
            i = i + 1;
        } else if char_is_letter(c) {
            let mut j = i + 1;
            while j < n && (char_is_letter(s[j]) || char_is_digit(s[j]) || s[j] == '_')
                invariant
                    i < j <= n,
                    n == s.len(),
                    word_end(s@, i + 1) == word_end(s@, j as int),
                decreases n - j,
            {
                j = j + 1;
            }
            let tok = word_at(&s, i, j);
            proof {
                lemma_word_end(s@, j as int);
                lemma_prefix_cons(before, tok@, scan(s@, j as int));
            }
            i = j;
            assert(tokens_view(tokens@.push(tok)) =~= before.push(tok@));
            tokens.push(tok);
        } else if char_is_decimal(c) || (c == '-' && i + 1 < n && char_is_decimal(s[i + 1])) {
            let mut j = i + 1;
            while j < n && char_is_decimal(s[j])
                invariant
                    i < j <= n,
                    n == s.len(),
                    digits_end(s@, i + 1) == digits_end(s@, j as int),
                decreases n - j,
            {
                j = j + 1;
            }
            match number_at(&s, i, j) {
                Some(value) => {
                    proof {
                        lemma_digits_end(s@, j as int);
                        lemma_prefix_cons(before, TokenV::Integer(value), scan(s@, j as int));
                    }
                    i = j;
                    assert(tokens_view(tokens@.push(Token::Integer(value))) =~= before.push(
                        TokenV::Integer(value),
                    ));
                    tokens.push(Token::Integer(value));
                },
                None => {
                    proof {
                        lemma_digits_end(s@, j as int);
                    }
                    return Err(LexError::InvalidInt(string_of(&s, i, j)));
                },
            }
        } else {
            match symbol_at(&s, i) {
                Some((tok, len)) => {
                    proof {
                        lemma_prefix_cons(before, tok@, scan(s@, i + len));
                    }
                    i = i + len;
                    assert(tokens_view(tokens@.push(tok)) =~= before.push(tok@));
                    tokens.push(tok);
                },
                None => {
                    return Err(LexError::InvalidToken(string_of(&s, i, n)));
                },
            }
        }
        proof {
            assert(scan(s@, 0) == prefix_tokens(tokens_view(tokens@), scan(s@, i as int)));
        }
    }
    Ok(tokens)
}

/// The number of newline tokens in a token sequence.
pub open spec fn newline_tokens(ts: Seq<TokenV>) -> nat
    decreases ts.len(),
{
    if ts.len() == 0 {
        0
    } else {
        newline_tokens(ts.drop_last()) + if ts.last() == TokenV::Newline {
            1nat
        } else {
            0nat
        }
    }
}

/// The number of newline characters in `s` at or after position `i`.
pub open spec fn newline_chars_from(s: Seq<char>, i: int) -> nat
    decreases s.len() - i,
{
    if i < 0 || i >= s.len() {
        0
    } else {
        newline_chars_from(s, i + 1) + if s[i] == '\n' {
            1nat
        } else {
            0nat
        }
    }
}

proof fn lemma_newline_tokens_cons(t: TokenV, ts: Seq<TokenV>)
    ensures
        newline_tokens(seq![t] + ts) == newline_tokens(ts) + if t == TokenV::Newline {
            1nat
        } else {
            0nat
        },
    decreases ts.len(),
{
    if ts.len() > 0 {
        lemma_newline_tokens_cons(t, ts.drop_last());
        assert((seq![t] + ts).drop_last() =~= seq![t] + ts.drop_last());
        assert((seq![t] + ts).last() == ts.last());
    } else {
        assert((seq![t] + ts).drop_last() =~= Seq::<TokenV>::empty());
        assert((seq![t] + ts).last() == t);
        assert(newline_tokens(Seq::<TokenV>::empty()) == 0);
        assert(seq![t] + ts =~= seq![t]);
    }
}

proof fn lemma_no_newline_run(s: Seq<char>, i: int, j: int)
    requires
        0 <= i <= j <= s.len(),
        forall|k: int| i <= k < j ==> s[k] != '\n',
    ensures
        newline_chars_from(s, i) == newline_chars_from(s, j),
    decreases j - i,
{
    if i < j {
        lemma_no_newline_run(s, i + 1, j);
    }
}

proof fn lemma_scan_newlines(s: Seq<char>, i: int)
    requires
        0 <= i <= s.len(),
    ensures
        scan(s, i) matches Ok(ts) ==> newline_tokens(ts) == newline_chars_from(s, i),
    decreases s.len() - i,
{
    if i < s.len() {
        if s[i] == '\n' {
            lemma_scan_newlines(s, i + 1);
            if let Ok(ts) = scan(s, i + 1) {
                lemma_newline_tokens_cons(TokenV::Newline, ts);
            }
        } else if s[i] == ' ' || s[i] == '\t' {
            lemma_scan_newlines(s, i + 1);
        } else if is_letter(s[i]) {
            let j = word_end(s, i + 1);
            lemma_word_end(s, i + 1);
            lemma_scan_newlines(s, j);
            lemma_no_newline_run(s, i, j);
            if let Ok(ts) = scan(s, j) {
                lemma_newline_tokens_cons(word_token(s.subrange(i, j)), ts);
            }
        } else if number_starts(s, i) {
            let j = digits_end(s, i + 1);
            lemma_digits_end(s, i + 1);
            lemma_scan_newlines(s, j);
            lemma_no_newline_run(s, i, j);
            if let Ok(ts) = scan(s, j) {
                lemma_newline_tokens_cons(TokenV::Integer(number_value(s.subrange(i, j)) as i64), ts);
            }
        } else if symbol_len(s, i) > 0 {
            let n = symbol_len(s, i);
            lemma_scan_newlines(s, i + n);
            lemma_no_newline_run(s, i, i + n);
            if let Ok(ts) = scan(s, i + n) {
                lemma_newline_tokens_cons(symbol_token(s.subrange(i, i + n)), ts);
            }
        }
    }
}

/// **Newlines make lines.** When a source tokenizes, its tokens hold one newline token for
/// each newline character of the source, and no other; so the lines that the parser
/// numbers are the lines of the source.
pub proof fn theorem_newlines_preserved(s: Seq<char>)
    ensures
        spec_tokenize(s) matches Ok(ts) ==> newline_tokens(ts) == newline_chars_from(s, 0),
{
    lemma_scan_newlines(s, 0);
}

/// Two scans agree: the same tokens, or the same error, except that two invalid-token
/// errors may quote different remainders of the input.
pub open spec fn scans_agree(
    a: Result<Seq<TokenV>, LexErrorV>,
    b: Result<Seq<TokenV>, LexErrorV>,
) -> bool {
    match (a, b) {
        (Err(LexErrorV::InvalidToken(_)), Err(LexErrorV::InvalidToken(_))) => true,
        _ => a == b,
    }
}

proof fn lemma_skip_blanks(s: Seq<char>, i: int, m: int)
    requires
        0 <= i,
        0 <= m,
        i + m <= s.len(),
        forall|k: int| i <= k < i + m ==> s[k] == ' ' || s[k] == '\t',
    ensures
        scan(s, i) == scan(s, i + m),
    decreases m,
{
    if m > 0 {
        lemma_skip_blanks(s, i + 1, m - 1);
    }
}

proof fn lemma_suffix_step(s1: Seq<char>, s2: Seq<char>, i1: int, i2: int, d: int)
    requires
        0 <= i1 <= s1.len(),
        0 <= i2 <= s2.len(),
        s1.subrange(i1, s1.len() as int) == s2.subrange(i2, s2.len() as int),
        0 <= d <= s1.len() - i1,
    ensures
        s1.len() - i1 == s2.len() - i2,
        s1.subrange(i1 + d, s1.len() as int) == s2.subrange(i2 + d, s2.len() as int),
        d < s1.len() - i1 ==> s1[i1 + d] == s2[i2 + d],
        s1.subrange(i1, i1 + d) == s2.subrange(i2, i2 + d),
{
    let t1 = s1.subrange(i1, s1.len() as int);
    let t2 = s2.subrange(i2, s2.len() as int);
    assert(t1.len() == t2.len());
    assert(s1.subrange(i1 + d, s1.len() as int) =~= t1.skip(d));
    assert(s2.subrange(i2 + d, s2.len() as int) =~= t2.skip(d));
    assert(s1.subrange(i1, i1 + d) =~= t1.take(d));
    assert(s2.subrange(i2, i2 + d) =~= t2.take(d));
    if d < s1.len() - i1 {
        assert(t1[d] == s1[i1 + d]);
        assert(t2[d] == s2[i2 + d]);
    }
}

proof fn lemma_word_end_shift(s1: Seq<char>, s2: Seq<char>, i1: int, i2: int)
    requires
        0 <= i1 <= s1.len(),
        0 <= i2 <= s2.len(),
        s1.subrange(i1, s1.len() as int) == s2.subrange(i2, s2.len() as int),
    ensures
        word_end(s1, i1) - i1 == word_end(s2, i2) - i2,
        digits_end(s1, i1) - i1 == digits_end(s2, i2) - i2,
    decreases s1.len() - i1,
{
    lemma_suffix_step(s1, s2, i1, i2, 0);
    if i1 < s1.len() {
        lemma_suffix_step(s1, s2, i1, i2, 1);
        lemma_word_end_shift(s1, s2, i1 + 1, i2 + 1);
    }
}

/// What the scanner does from a position depends only on the characters from there on.
proof fn lemma_scan_shift(s1: Seq<char>, s2: Seq<char>, i1: int, i2: int)
    requires
        0 <= i1 <= s1.len(),
        0 <= i2 <= s2.len(),
        s1.subrange(i1, s1.len() as int) == s2.subrange(i2, s2.len() as int),
    ensures
        scan(s1, i1) == scan(s2, i2),
    decreases s1.len() - i1,
{
    lemma_suffix_step(s1, s2, i1, i2, 0);
    if i1 < s1.len() {
        lemma_suffix_step(s1, s2, i1, i2, 1);
        if i1 + 1 < s1.len() {
            lemma_suffix_step(s1, s2, i1, i2, 2);
        }
        let c = s1[i1];
        if c == '\n' || c == ' ' || c == '\t' {
            lemma_scan_shift(s1, s2, i1 + 1, i2 + 1);
        } else if is_letter(c) {
            lemma_word_end_shift(s1, s2, i1 + 1, i2 + 1);
            let j1 = word_end(s1, i1 + 1);
            let j2 = word_end(s2, i2 + 1);
            lemma_word_end(s1, i1 + 1);
            lemma_suffix_step(s1, s2, i1, i2, j1 - i1);
            lemma_scan_shift(s1, s2, j1, j2);
        } else if number_starts(s1, i1) {
            assert(number_starts(s2, i2));
            lemma_word_end_shift(s1, s2, i1 + 1, i2 + 1);
            let j1 = digits_end(s1, i1 + 1);
            let j2 = digits_end(s2, i2 + 1);
            lemma_digits_end(s1, i1 + 1);
            lemma_suffix_step(s1, s2, i1, i2, j1 - i1);
            lemma_scan_shift(s1, s2, j1, j2);
        } else {
            assert(!number_starts(s2, i2));
            assert(symbol_len(s1, i1) == symbol_len(s2, i2));
            let n = symbol_len(s1, i1);
            if n > 0 {
                lemma_suffix_step(s1, s2, i1, i2, n);
                lemma_scan_shift(s1, s2, i1 + n, i2 + n);
            }
        }
    }
}

proof fn lemma_run_end_in_line(p: Seq<char>, x: Seq<char>, i: int)
    requires
        p.len() > 0,
        p.last() == '\n',
        0 <= i < p.len(),
    ensures
        word_end(p + x, i) == word_end(p, i) < p.len(),
        digits_end(p + x, i) == digits_end(p, i) < p.len(),
    decreases p.len() - i,
{
    assert((p + x)[i] == p[i]);
    if i < p.len() - 1 {
        lemma_run_end_in_line(p, x, i + 1);
    }
}

/// Scanning a prefix that ends a line does not look past it, but for the text that an
/// invalid token quotes.
proof fn lemma_scan_in_lines(p: Seq<char>, x1: Seq<char>, x2: Seq<char>, i: int)
    requires
        p.len() > 0,
        p.last() == '\n',
        0 <= i <= p.len(),
        scans_agree(scan(p + x1, p.len() as int), scan(p + x2, p.len() as int)),
    ensures
        scans_agree(scan(p + x1, i), scan(p + x2, i)),
    decreases p.len() - i,
{
    let s1 = p + x1;
    let s2 = p + x2;
    let n = p.len() as int;
    if i < n {
        assert(s1[i] == p[i] && s2[i] == p[i]);
        assert(s1[n - 1] == '\n' && s2[n - 1] == '\n');
        let c = p[i];
        if c == '\n' || c == ' ' || c == '\t' {
            lemma_scan_in_lines(p, x1, x2, i + 1);
        } else if is_letter(c) {
            lemma_run_end_in_line(p, x1, i + 1);
            lemma_run_end_in_line(p, x2, i + 1);
            let j = word_end(s1, i + 1);
            lemma_word_end(s1, i + 1);
            assert(s1.subrange(i, j) =~= s2.subrange(i, j));
            lemma_scan_in_lines(p, x1, x2, j);
        } else if number_starts(s1, i) {
            assert(s1[i + 1] == p[i + 1] && s2[i + 1] == p[i + 1]);
            assert(number_starts(s2, i));
            lemma_run_end_in_line(p, x1, i + 1);
            lemma_run_end_in_line(p, x2, i + 1);
            let j = digits_end(s1, i + 1);
            lemma_digits_end(s1, i + 1);
            assert(s1.subrange(i, j) =~= s2.subrange(i, j));
            lemma_scan_in_lines(p, x1, x2, j);
        } else {
            assert(s1[i + 1] == p[i + 1] && s2[i + 1] == p[i + 1]);
            assert(!number_starts(s2, i));
            assert(s1.subrange(i, i + 2) =~= s2.subrange(i, i + 2));
            assert(s1.subrange(i, i + 1) =~= s2.subrange(i, i + 1));
            assert(symbol_len(s1, i) == symbol_len(s2, i));
            let k = symbol_len(s1, i);
            if k > 0 {
                assert(s1.subrange(i, i + k) =~= s2.subrange(i, i + k));
                lemma_scan_in_lines(p, x1, x2, i + k);
            }
        }
    }
}

/// **Indentation is not significant.** Blanks (spaces and tabs) at the start of a line
/// leave the tokens of a source unchanged, and its errors too, but for the text that an
/// invalid-token error quotes, which is the rest of the source as it stands.
pub proof fn theorem_indentation_ignored(p: Seq<char>, w: Seq<char>, r: Seq<char>)
    requires
        p.len() == 0 || p.last() == '\n',
        forall|k: int| 0 <= k < w.len() ==> w[k] == ' ' || w[k] == '\t',
        (p + r).len() > 0,
    ensures
        scans_agree(spec_tokenize(p + w + r), spec_tokenize(p + r)),
{
    let s1 = p + (w + r);
    let s2 = p + r;
    let n = p.len() as int;
    let m = w.len() as int;
    assert(p + w + r =~= s1);
    lemma_skip_blanks(s1, n, m);
    assert(s1.subrange(n + m, s1.len() as int) =~= s2.subrange(n, s2.len() as int));
    lemma_scan_shift(s1, s2, n + m, n);
    if n > 0 {
        lemma_scan_in_lines(p, w + r, r, 0);
    }
}

proof fn lemma_cons_prefix(t: TokenV, p: Seq<TokenV>, r: Result<Seq<TokenV>, LexErrorV>)
    ensures
        cons_token(t, prefix_tokens(p, r)) == prefix_tokens(seq![t] + p, r),
{
    if let Ok(ts) = r {
        assert(seq![t] + (p + ts) =~= (seq![t] + p) + ts);
    }
}

proof fn lemma_run_end_before_newline(a: Seq<char>, x: Seq<char>, k: int)
    requires
        x.len() > 0,
        x[0] == '\n',
        0 <= k <= a.len(),
    ensures
        word_end(a + x, k) == word_end(a, k),
        digits_end(a + x, k) == digits_end(a, k),
    decreases a.len() - k,
{
    if k < a.len() {
        assert((a + x)[k] == a[k]);
        lemma_run_end_before_newline(a, x, k + 1);
    } else {
        assert((a + x)[k] == '\n');
    }
}

/// A source whose rest starts with a newline is scanned up to the newline as if the rest
/// were not there.
proof fn lemma_scan_split(a: Seq<char>, x: Seq<char>, i: int)
    requires
        x.len() > 0,
        x[0] == '\n',
        0 <= i <= a.len(),
        scan(a, i) is Ok,
    ensures
        scan(a + x, i) == prefix_tokens(scan(a, i)->Ok_0, scan(a + x, a.len() as int)),
    decreases a.len() - i,
{
    let s = a + x;
    let n = a.len() as int;
    assert(s[n] == '\n');
    if i == n {
        if let Ok(ts) = scan(s, n) {
            assert(Seq::<TokenV>::empty() + ts =~= ts);
        }
    } else {
        let c = a[i];
        assert(s[i] == c);
        if i + 1 < n {
            assert(s[i + 1] == a[i + 1]);
        }
        if c == '\n' {
            lemma_scan_split(a, x, i + 1);
            lemma_cons_prefix(TokenV::Newline, scan(a, i + 1)->Ok_0, scan(s, n));
        } else if c == ' ' || c == '\t' {
            lemma_scan_split(a, x, i + 1);
        } else if is_letter(c) {
            lemma_run_end_before_newline(a, x, i + 1);
            lemma_word_end(a, i + 1);
            let j = word_end(a, i + 1);
            assert(s.subrange(i, j) =~= a.subrange(i, j));
            lemma_scan_split(a, x, j);
            lemma_cons_prefix(word_token(a.subrange(i, j)), scan(a, j)->Ok_0, scan(s, n));
        } else if number_starts(a, i) {
            assert(number_starts(s, i));
            lemma_run_end_before_newline(a, x, i + 1);
            lemma_digits_end(a, i + 1);
            let j = digits_end(a, i + 1);
            assert(s.subrange(i, j) =~= a.subrange(i, j));
            lemma_scan_split(a, x, j);
            let v = number_value(a.subrange(i, j));
            lemma_cons_prefix(TokenV::Integer(v as i64), scan(a, j)->Ok_0, scan(s, n));
        } else {
            assert(!number_starts(s, i));
            if i + 2 <= n {
                assert(s.subrange(i, i + 2) =~= a.subrange(i, i + 2));
            } else {
                assert(s.subrange(i, i + 2) =~= seq![c, '\n']);
            }
            assert(s.subrange(i, i + 1) =~= a.subrange(i, i + 1));
            assert(symbol_len(s, i) == symbol_len(a, i));
            let k = symbol_len(a, i);
            assert(s.subrange(i, i + k) =~= a.subrange(i, i + k));
            lemma_scan_split(a, x, i + k);
            lemma_cons_prefix(symbol_token(a.subrange(i, i + k)), scan(a, i + k)->Ok_0, scan(s, n));
        }
    }
}

/// **No token spans a newline.** Joining two sources that tokenize with a newline gives the
/// tokens of the first, one newline token, and the tokens of the second.
pub proof fn theorem_newline_join(a: Seq<char>, b: Seq<char>)
    requires
        spec_tokenize(a) is Ok,
        spec_tokenize(b) is Ok,
    ensures
        spec_tokenize(a + seq!['\n'] + b) == Ok::<Seq<TokenV>, LexErrorV>(
            spec_tokenize(a)->Ok_0 + seq![TokenV::Newline] + spec_tokenize(b)->Ok_0,
        ),
{
    let x = seq!['\n'] + b;
    let s = a + x;
    let n = a.len() as int;
    assert(a + seq!['\n'] + b =~= s);
    lemma_scan_split(a, x, 0);
    assert(s[n] == '\n');
    assert(s.subrange(n + 1, s.len() as int) =~= b.subrange(0, b.len() as int));
    lemma_scan_shift(s, b, n + 1, 0);
    let ta = spec_tokenize(a)->Ok_0;
    let tb = spec_tokenize(b)->Ok_0;
    assert(scan(s, n) == cons_token(TokenV::Newline, scan(s, n + 1)));
    assert(ta + (seq![TokenV::Newline] + tb) =~= ta + seq![TokenV::Newline] + tb);
}

/// A word: an ASCII letter followed by ASCII letters, digits and underscores.
pub open spec fn is_word(w: Seq<char>) -> bool {
    &&& w.len() >= 1
    &&& is_letter(w[0])
    &&& forall|k: int| 1 <= k < w.len() ==> is_word_char(#[trigger] w[k])
}

/// The keywords of the language.
pub open spec fn is_keyword(w: Seq<char>) -> bool {
    ||| w == seq!['T', 'R', 'U', 'E']
    ||| w == seq!['F', 'A', 'L', 'S', 'E']
    ||| w == seq!['v', 'a', 'r']
    ||| w == seq!['a', 's', 's', 'u', 'm', 'e']
    ||| w == seq!['a', 's', 's', 'e', 'r', 't']
    ||| w == seq!['i', 'f']
    ||| w == seq!['t', 'h', 'e', 'n']
    ||| w == seq!['e', 'l', 's', 'e']
    ||| w == seq!['w', 'h', 'i', 'l', 'e']
    ||| w == seq!['i', 'n', 'v', 'a', 'r', 'i', 'a', 'n', 't']
    ||| w == seq!['e', 'n', 'd']
}

proof fn lemma_word_end_of_word(w: Seq<char>, r: Seq<char>)
    requires
        is_word(w),
        r.len() == 0 || !is_word_char(r[0]),
    ensures
        word_end(w + r, 1) == w.len(),
{
    let s = w + r;
    lemma_word_end(s, 1);
    let j = word_end(s, 1);
    if j < w.len() {
        assert(s[j] == w[j]);
        assert(is_word_char(w[j]));
    }
    if j > w.len() {
        assert(s[w.len() as int] == r[0]);
        assert(is_word_char(s[w.len() as int]));
    }
}

/// **A word is one token.** A word that is not a keyword becomes an identifier holding the
/// whole word, however long: on its own, and followed by a blank and the rest of a source,
/// whose tokens follow it.
pub proof fn theorem_identifier_is_whole_word(w: Seq<char>, r: Seq<char>)
    requires
        is_word(w),
        !is_keyword(w),
    ensures
        spec_tokenize(w) == Ok::<Seq<TokenV>, LexErrorV>(seq![TokenV::Identifier(w)]),
        r.len() > 0 ==> spec_tokenize(w + seq![' '] + r) == cons_token(TokenV::Identifier(w), spec_tokenize(r)),
{
    let e = Seq::<char>::empty();
    assert(w + e =~= w);
    lemma_word_end_of_word(w, e);
    assert(w.subrange(0, w.len() as int) =~= w);
    assert(word_token(w) == TokenV::Identifier(w));
    assert(scan(w, w.len() as int) == Ok::<Seq<TokenV>, LexErrorV>(Seq::empty()));
    assert(seq![TokenV::Identifier(w)] + Seq::<TokenV>::empty() =~= seq![TokenV::Identifier(w)]);
    if r.len() > 0 {
        let x = seq![' '] + r;
        let s = w + x;
        let n = w.len() as int;
        assert(w + seq![' '] + r =~= s);
        assert(x[0] == ' ');
        lemma_word_end_of_word(w, x);
        assert(s[0] == w[0]);
        assert(s.subrange(0, n) =~= w);
        assert(s[n] == ' ');
        assert(scan(s, n) == scan(s, n + 1));
        assert(s.subrange(n + 1, s.len() as int) =~= r.subrange(0, r.len() as int));
        lemma_scan_shift(s, r, n + 1, 0);
    }
}

proof fn lemma_single_word(w: Seq<char>)
    requires
        is_word(w),
    ensures
        spec_tokenize(w) == Ok::<Seq<TokenV>, LexErrorV>(seq![word_token(w)]),
{
    let e = Seq::<char>::empty();
    assert(w + e =~= w);
    lemma_word_end_of_word(w, e);
    assert(w.subrange(0, w.len() as int) =~= w);
    assert(scan(w, w.len() as int) == Ok::<Seq<TokenV>, LexErrorV>(Seq::empty()));
    assert(seq![word_token(w)] + Seq::<TokenV>::empty() =~= seq![word_token(w)]);
}

/// **Keywords.** Each keyword, written alone, is its own token.
pub proof fn theorem_keyword_tokens()
    ensures
        spec_tokenize(seq!['T', 'R', 'U', 'E']) == Ok::<Seq<TokenV>, LexErrorV>(seq![TokenV::Boolean(true)]),
        spec_tokenize(seq!['F', 'A', 'L', 'S', 'E']) == Ok::<Seq<TokenV>, LexErrorV>(seq![TokenV::Boolean(false)]),
        spec_tokenize(seq!['v', 'a', 'r']) == Ok::<Seq<TokenV>, LexErrorV>(seq![TokenV::Declare]),
        spec_tokenize(seq!['a', 's', 's', 'u', 'm', 'e']) == Ok::<Seq<TokenV>, LexErrorV>(seq![TokenV::Assume]),
        spec_tokenize(seq!['a', 's', 's', 'e', 'r', 't']) == Ok::<Seq<TokenV>, LexErrorV>(seq![TokenV::Assert]),
        spec_tokenize(seq!['i', 'f']) == Ok::<Seq<TokenV>, LexErrorV>(seq![TokenV::If]),
        spec_tokenize(seq!['t', 'h', 'e', 'n']) == Ok::<Seq<TokenV>, LexErrorV>(seq![TokenV::Then]),
        spec_tokenize(seq!['e', 'l', 's', 'e']) == Ok::<Seq<TokenV>, LexErrorV>(seq![TokenV::Else]),
        spec_tokenize(seq!['w', 'h', 'i', 'l', 'e']) == Ok::<Seq<TokenV>, LexErrorV>(seq![TokenV::While]),
        spec_tokenize(seq!['i', 'n', 'v', 'a', 'r', 'i', 'a', 'n', 't']) == Ok::<Seq<TokenV>, LexErrorV>(seq![TokenV::Invariant]),
        spec_tokenize(seq!['e', 'n', 'd']) == Ok::<Seq<TokenV>, LexErrorV>(seq![TokenV::End]),
{
    lemma_single_word(seq!['T', 'R', 'U', 'E']);
    lemma_single_word(seq!['F', 'A', 'L', 'S', 'E']);
    lemma_single_word(seq!['v', 'a', 'r']);
    lemma_single_word(seq!['a', 's', 's', 'u', 'm', 'e']);
    lemma_single_word(seq!['a', 's', 's', 'e', 'r', 't']);
    lemma_single_word(seq!['i', 'f']);
    lemma_single_word(seq!['t', 'h', 'e', 'n']);
    lemma_single_word(seq!['e', 'l', 's', 'e']);
    lemma_single_word(seq!['w', 'h', 'i', 'l', 'e']);
    lemma_single_word(seq!['i', 'n', 'v', 'a', 'r', 'i', 'a', 'n', 't']);
    lemma_single_word(seq!['e', 'n', 'd']);
}

proof fn lemma_decimal_digits(n: nat)
    ensures
        decimal(n).len() >= 1,
        forall|k: int| 0 <= k < decimal(n).len() ==> is_digit(#[trigger] decimal(n)[k]),
        digits_value(decimal(n)) == n,
    decreases n,
{
    let d = decimal(n);
    if n < 10 {
        assert(d.drop_last() =~= Seq::<char>::empty());
        assert(digits_value(Seq::<char>::empty()) == 0);
        assert((digit_char(n) as int) - ('0' as int) == n);
    } else {
        lemma_decimal_digits(n / 10);
        let m = n % 10;
        assert(d.drop_last() =~= decimal(n / 10));
        assert(d.last() == digit_char(m));
        assert((digit_char(m) as int) - ('0' as int) == m);
        assert forall|k: int| 0 <= k < d.len() implies is_digit(#[trigger] d[k]) by {
            if k < d.len() - 1 {
                assert(d[k] == decimal(n / 10)[k]);
            }
        }
    }
}

proof fn lemma_number_text(s: Seq<char>, i: int)
    requires
        0 <= i < s.len(),
        forall|k: int| i <= k < s.len() ==> is_digit(#[trigger] s[k]),
    ensures
        digits_end(s, i) == s.len(),
{
    lemma_digits_end(s, i);
    if digits_end(s, i) < s.len() {
        assert(is_digit(s[digits_end(s, i)]));
    }
}

/// **Numbers read back.** The decimal text of an integer of `i64` is one integer token of
/// that value, and so is the text of a negative one, written with `-`.
pub proof fn theorem_decimal_numbers(n: nat)
    ensures
        n <= i64::MAX ==> spec_tokenize(decimal(n)) == Ok::<Seq<TokenV>, LexErrorV>(seq![TokenV::Integer(n as i64)]),
        1 <= n <= 0x8000_0000_0000_0000 ==> spec_tokenize(seq!['-'] + decimal(n)) == Ok::<Seq<TokenV>, LexErrorV>(
            seq![TokenV::Integer((-n) as i64)],
        ),
{
    lemma_decimal_digits(n);
    let d = decimal(n);
    if n <= i64::MAX {
        assert(d[0] == d[0]);
        assert(is_digit(d[0]));
        if d.len() > 1 {
            lemma_number_text(d, 1);
        }
        assert(d.subrange(0, d.len() as int) =~= d);
        assert(number_digits(d) == d);
        assert(ascii_number(d));
        assert(scan(d, d.len() as int) == Ok::<Seq<TokenV>, LexErrorV>(Seq::empty()));
        assert(seq![TokenV::Integer(n as i64)] + Seq::<TokenV>::empty() =~= seq![TokenV::Integer(n as i64)]);
    }
    if 1 <= n <= 0x8000_0000_0000_0000 {
        let s = seq!['-'] + d;
        assert(s[1] == d[0]);
        assert forall|k: int| 1 <= k < s.len() implies is_digit(#[trigger] s[k]) by {
            assert(s[k] == d[k - 1]);
        }
        lemma_number_text(s, 1);
        assert(s.subrange(0, s.len() as int) =~= s);
        assert(s.skip(1) =~= d);
        assert(number_digits(s) == d);
        assert(ascii_number(s));
        assert(number_value(s) == -(n as int));
        assert(scan(s, s.len() as int) == Ok::<Seq<TokenV>, LexErrorV>(Seq::empty()));
        assert(seq![TokenV::Integer((-n) as i64)] + Seq::<TokenV>::empty() =~= seq![TokenV::Integer((-n) as i64)]);
    }
}

proof fn lemma_symbol_text(t: Seq<char>, sym: Symbol)
    requires
        1 <= t.len() <= 2,
        symbol_of(t) == Some(sym),
        t.len() == 1 ==> !number_starts(t, 0) && !is_letter(t[0]) && t[0] != ' ' && t[0] != '\t' && t[0] != '\n',
        t.len() == 2 ==> !is_letter(t[0]) && !is_decimal(t[0]) && t[0] != '-' && t[0] != ' ' && t[0] != '\t' && t[0] != '\n',
    ensures
        spec_tokenize(t) == Ok::<Seq<TokenV>, LexErrorV>(seq![TokenV::Op(sym)]),
{
    assert(t.subrange(0, t.len() as int) =~= t);
    if t.len() == 1 {
        assert(t.subrange(0, 1) =~= t);
    } else {
        assert(t.subrange(0, 2) =~= t);
    }
    assert(symbol_len(t, 0) == t.len());
    assert(symbol_token(t) == TokenV::Op(sym));
    assert(scan(t, t.len() as int) == Ok::<Seq<TokenV>, LexErrorV>(Seq::empty()));
    assert(seq![TokenV::Op(sym)] + Seq::<TokenV>::empty() =~= seq![TokenV::Op(sym)]);
}

/// **Symbols.** Each operator, written alone, is the token of its operator; two-character
/// operators are one token.
pub proof fn theorem_symbol_tokens()
    ensures
        spec_tokenize(seq!['+']) == Ok::<Seq<TokenV>, LexErrorV>(seq![TokenV::Op(Symbol::Add)]),
        spec_tokenize(seq!['-']) == Ok::<Seq<TokenV>, LexErrorV>(seq![TokenV::Op(Symbol::Sub)]),
        spec_tokenize(seq!['*']) == Ok::<Seq<TokenV>, LexErrorV>(seq![TokenV::Op(Symbol::Mul)]),
        spec_tokenize(seq!['/']) == Ok::<Seq<TokenV>, LexErrorV>(seq![TokenV::Op(Symbol::Div)]),
        spec_tokenize(seq!['<']) == Ok::<Seq<TokenV>, LexErrorV>(seq![TokenV::Op(Symbol::Lt)]),
        spec_tokenize(seq!['>']) == Ok::<Seq<TokenV>, LexErrorV>(seq![TokenV::Op(Symbol::Gt)]),
        spec_tokenize(seq!['(']) == Ok::<Seq<TokenV>, LexErrorV>(seq![TokenV::Op(Symbol::LParen)]),
        spec_tokenize(seq![')']) == Ok::<Seq<TokenV>, LexErrorV>(seq![TokenV::Op(Symbol::RParen)]),
        spec_tokenize(seq!['<', '=']) == Ok::<Seq<TokenV>, LexErrorV>(seq![TokenV::Op(Symbol::Le)]),
        spec_tokenize(seq!['>', '=']) == Ok::<Seq<TokenV>, LexErrorV>(seq![TokenV::Op(Symbol::Ge)]),
        spec_tokenize(seq!['=', '=']) == Ok::<Seq<TokenV>, LexErrorV>(seq![TokenV::Op(Symbol::Eq)]),
        spec_tokenize(seq!['!', '=']) == Ok::<Seq<TokenV>, LexErrorV>(seq![TokenV::Op(Symbol::Neq)]),
        spec_tokenize(seq!['&', '&']) == Ok::<Seq<TokenV>, LexErrorV>(seq![TokenV::Op(Symbol::And)]),
        spec_tokenize(seq!['|', '|']) == Ok::<Seq<TokenV>, LexErrorV>(seq![TokenV::Op(Symbol::Or)]),
        spec_tokenize(seq![':', '=']) == Ok::<Seq<TokenV>, LexErrorV>(seq![TokenV::Op(Symbol::Assign)]),
{
    lemma_symbol_text(seq!['+'], Symbol::Add);
    lemma_symbol_text(seq!['-'], Symbol::Sub);
    lemma_symbol_text(seq!['*'], Symbol::Mul);
    lemma_symbol_text(seq!['/'], Symbol::Div);
    lemma_symbol_text(seq!['<'], Symbol::Lt);
    lemma_symbol_text(seq!['>'], Symbol::Gt);
    lemma_symbol_text(seq!['('], Symbol::LParen);
    lemma_symbol_text(seq![')'], Symbol::RParen);
    lemma_symbol_text(seq!['<', '='], Symbol::Le);
    lemma_symbol_text(seq!['>', '='], Symbol::Ge);
    lemma_symbol_text(seq!['=', '='], Symbol::Eq);
    lemma_symbol_text(seq!['!', '='], Symbol::Neq);
    lemma_symbol_text(seq!['&', '&'], Symbol::And);
    lemma_symbol_text(seq!['|', '|'], Symbol::Or);
    lemma_symbol_text(seq![':', '='], Symbol::Assign);
}

} // verus!
