//! The token data model: the reserved-word set, the token variants, the
//! positioned token that refers back to the shared source buffer, and the
//! error type, together with their mathematical views.

use std::rc::Rc;
use vstd::prelude::*;

verus! {

/// A reserved word, matched exactly against its lowercase spelling.
#[derive(Clone, Copy, Debug, PartialEq, Eq, Structural)]
pub enum Keyword {
    If,
    Fi,
}

/// One lexical token. String-carrying variants hold the exact source text
/// they were scanned from; `Integer` holds the parsed value instead.
#[derive(Debug)]
pub enum Token {
    /// Reserved keyword.
    Keyword(Keyword),
    /// Identifier: a letter or underscore followed by letters, digits and
    /// underscores, that is not a keyword.
    Identifier(String),
    /// Integer literal, decimal or `0x`-prefixed hexadecimal, always signed.
    Integer(i64),
    /// Quoted string: the raw text including both delimiters, and the quote
    /// character that delimited it (`'`, `"` or a backtick).
    String(String, char),
    /// One of `{ } ( ) [ ]`, stored as the literal character.
    Paren(char),
    /// One or two ASCII punctuation characters.
    Symbol(String),
    /// A line break, holding the number of the line it terminates.
    Newline(usize),
}

/// A token together with its half-open span `[start, end)` of character
/// indices in the source buffer, and a shared handle to that buffer.
#[derive(Debug)]
pub struct TokenWithInfo {
    /// Index of the first character of the token.
    pub start: usize,
    /// Index one past the last character of the token.
    pub end: usize,
    /// The whole source buffer the token was scanned from.
    pub buffer: Rc<String>,
    /// The token itself.
    pub token: Token,
}

/// Why a scan was aborted. The scanner fails fast: the first bad literal
/// ends the pass and nothing after it is tokenized.
#[derive(Debug)]
pub enum TokenizeError {
    /// A numeric literal exceeds the signed 64-bit range. Carries the index
    /// of its first character and its raw text.
    IntegerOverflow { start: usize, raw: String },
    /// A digit followed by `x` announced a hexadecimal literal, but no
    /// hexadecimal digit followed. Carries the index of the first character.
    MalformedHexInteger { start: usize },
}

/// The mathematical value of a [`Token`]: text as a sequence of characters,
/// numbers as unbounded integers.
pub ghost enum TokenView {
    Keyword(Keyword),
    Identifier(Seq<char>),
    Integer(int),
    Str(Seq<char>, char),
    Paren(char),
    Symbol(Seq<char>),
    Newline(int),
}

/// The mathematical value of a [`TokenWithInfo`]: the span and the token
/// value. The buffer is shared by every token of one scan and is related to
/// the input by the scanner's contract instead.
pub ghost struct TokenInfoView {
    pub start: int,
    pub end: int,
    pub token: TokenView,
}

/// The mathematical value of a [`TokenizeError`].
pub ghost enum ScanError {
    IntegerOverflow { start: int, raw: Seq<char> },
    MalformedHexInteger { start: int },
}

impl View for Token {
    type V = TokenView;

    open spec fn view(&self) -> TokenView {
        match self {
            Token::Keyword(k) => TokenView::Keyword(*k),
            Token::Identifier(text) => TokenView::Identifier(text@),
            Token::Integer(value) => TokenView::Integer(*value as int),
            Token::String(raw, quote) => TokenView::Str(raw@, *quote),
            Token::Paren(c) => TokenView::Paren(*c),
            Token::Symbol(text) => TokenView::Symbol(text@),
            Token::Newline(line) => TokenView::Newline(*line as int),
        }
    }
}

impl View for TokenWithInfo {
    type V = TokenInfoView;

    open spec fn view(&self) -> TokenInfoView {
        TokenInfoView { start: self.start as int, end: self.end as int, token: self.token@ }
    }
}

impl View for TokenizeError {
    type V = ScanError;

    open spec fn view(&self) -> ScanError {
        match self {
            TokenizeError::IntegerOverflow { start, raw } => ScanError::IntegerOverflow {
                start: *start as int,
                raw: raw@,
            },
            TokenizeError::MalformedHexInteger { start } => ScanError::MalformedHexInteger {
                start: *start as int,
            },
        }
    }
}

} // verus!
