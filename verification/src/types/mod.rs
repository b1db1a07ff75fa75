//! The data that the lexer hands out: token kinds, tokens and positions.

use vstd::prelude::*;

pub mod lexer;
pub mod position;

pub use self::lexer::LexError;
pub use self::lexer::Lexer;
pub use self::lexer::Token;
pub use self::lexer::TokenValue;
pub use self::position::Position;

verus! {

/// The lexical category of a token.
#[derive(Clone, Copy, Debug, PartialEq, Eq, Structural)]
pub enum TokenTypes {
    Int,
    Float,
    String,
    Identifier,
    Keyword,
    Plus,
    Minus,
    Div,
    Eq,
    Lparen,
    Rparen,
    Lsquare,
    Rsquare,
    Lbrace,
    Rbrace,
    Pow,
    EE,
    NE,
    LT,
    GT,
    LTE,
    GTE,
    EOF,
    Comma,
    Newline,
    Arrow,
    Dot,
    And,
    Star,
}

} // verus!
