//! Lexical tokens, their mathematical model, and the error kinds shared by
//! the scanner and the parser.

use vstd::prelude::*;

verus! {

/// One lexical unit of a JSON document: a structural marker or a decoded
/// literal value.  A `Number` carries the exact source run that denotes the
/// value; the scanner has already checked the run against the number
/// grammar, and extracting the 64-bit value it denotes is the caller's
/// floating-point business, not the tree's.
#[derive(Debug)]
pub enum Token {
    LeftBrace,
    RightBrace,
    LeftBracket,
    RightBracket,
    Colon,
    Comma,
    String(String),
    Number(String),
    Boolean(bool),
    Null,
}

/// Mathematical image of a `Token`: string content is a sequence of
/// characters rather than an owned `String`.
pub enum Lexeme {
    LeftBrace,
    RightBrace,
    LeftBracket,
    RightBracket,
    Colon,
    Comma,
    Strng(Seq<char>),
    Number(Seq<char>),
    Boolean(bool),
    Null,
}

/// The model of one token.
pub open spec fn lex_of(t: Token) -> Lexeme {
    match t {
        Token::LeftBrace => Lexeme::LeftBrace,
        Token::RightBrace => Lexeme::RightBrace,
        Token::LeftBracket => Lexeme::LeftBracket,
        Token::RightBracket => Lexeme::RightBracket,
        Token::Colon => Lexeme::Colon,
        Token::Comma => Lexeme::Comma,
        Token::String(s) => Lexeme::Strng(s@),
        Token::Number(run) => Lexeme::Number(run@),
        Token::Boolean(b) => Lexeme::Boolean(b),
        Token::Null => Lexeme::Null,
    }
}

impl View for Token {
    type V = Lexeme;

    open spec fn view(&self) -> Lexeme {
        lex_of(*self)
    }
}

/// The model of a token sequence.
pub open spec fn lex_seq(ts: Seq<Token>) -> Seq<Lexeme> {
    ts.map_values(|t: Token| lex_of(t))
}

/// Every way a scan or a parse can fail.  Each kind that points at a place
/// in the input carries it: a character index for scanner errors, a token
/// index for parser errors.  The first failure aborts the whole operation.
#[derive(Clone, Copy, PartialEq, Eq, Debug)]
pub enum JsonError {
    /// A backslash followed by a character that is not one of the eight
    /// recognized escapes (character index of that character).
    InvalidEscape(usize),
    /// A numeric run that the number grammar rejects (character index of
    /// the start of the run).
    InvalidNumber(usize),
    /// A character that no token can start with (its character index).
    UnexpectedChar(usize),
    /// A `t`, `f` or `n` that does not begin the exact literal `true`,
    /// `false` or `null` (character index of that first character).
    BadLiteral(usize),
    /// The token sequence ended where a value was required.
    UnexpectedEnd,
    /// A token that cannot start a value (its token index).
    UnexpectedToken(usize),
    /// An object member whose key is not a string (token index of the key).
    KeyNotString(usize),
    /// A missing colon between a key and its value (token index where the
    /// colon was required).
    ExpectedColon(usize),
    /// A token other than a comma or closing brace after an object member
    /// (its token index).
    ExpectedCommaOrBrace(usize),
    /// A token other than a comma or closing bracket after an array element
    /// (its token index).
    ExpectedCommaOrBracket(usize),
    /// The token sequence ended inside an object.
    UnclosedObject,
    /// The token sequence ended inside an array.
    UnclosedArray,
}

} // verus!
