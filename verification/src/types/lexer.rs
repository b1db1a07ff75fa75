//! The lexer's state, the tokens it makes and the error it reports.

use vstd::prelude::*;
use crate::grammar::byte_at;
use crate::grammar::ErrorView;
use crate::grammar::TokenView;
use crate::grammar::ValueView;
use crate::types::position::Position;
use crate::types::position::MAX_TEXT_LEN;
use crate::types::TokenTypes;

verus! {

/// A scanner over one source text.
pub struct Lexer<'a> {
    /// The name under which the text is known.
    pub fn_name: &'a str,
    /// The source text.
    pub text: &'a [u8],
    /// The reserved words.
    pub keywords: &'a [&'a [u8]],
    /// Where the scanner stands.
    pub pos: Position<'a>,
    /// The byte at `pos`, or `None` outside the text.
    pub current_char: Option<u8>,
}

/// The words that a list of keywords reserves.
pub open spec fn reserved_words(keywords: Seq<&[u8]>) -> Set<Seq<u8>> {
    Set::new(|word: Seq<u8>| exists|k: int| 0 <= k < keywords.len() && #[trigger] keywords[k]@ == word)
}

impl<'a> Lexer<'a> {
    /// The cursor carries the line and column of its offset, in the text,
    /// just before it or behind it, and `current_char` is the byte under
    /// it: `None` wherever the cursor stands outside the text.
    pub open spec fn wf(&self) -> bool {
        &&& self.text@.len() <= MAX_TEXT_LEN
        &&& self.pos.locates(self.fn_name, self.text)
        &&& self.current_char == byte_at(self.text@, self.pos.idx as int)
    }

    /// The set of reserved words.
    pub open spec fn reserved(&self) -> Set<Seq<u8>> {
        reserved_words(self.keywords@)
    }

    /// Two states of one lexer: same name, text and keywords.
    pub open spec fn same_source(&self, other: &Lexer<'a>) -> bool {
        &&& self.fn_name@ == other.fn_name@
        &&& self.text@ == other.text@
        &&& self.keywords@ == other.keywords@
    }
}

/// What a literal, an identifier or a keyword carries.
#[derive(Clone, Debug, PartialEq, Eq)]
pub enum TokenValue {
    /// A decimal literal with a point, as written: digits, one point, digits.
    Float(Vec<u8>),
    /// The value of a run of digits.
    Integer(i64),
    /// The text of an identifier or keyword, or the unescaped content of a
    /// string literal.
    Str(Vec<u8>),
}

impl View for TokenValue {
    type V = ValueView;

    open spec fn view(&self) -> ValueView {
        match *self {
            TokenValue::Float(literal) => ValueView::Float(literal@),
            TokenValue::Integer(value) => ValueView::Integer(value),
            TokenValue::Str(bytes) => ValueView::Str(bytes@),
        }
    }
}

/// The view of an optional payload.
pub open spec fn payload_view(value: Option<TokenValue>) -> Option<ValueView> {
    match value {
        Some(v) => Some(v@),
        None => None,
    }
}

/// One lexical unit, with the positions of its first and last byte.
#[derive(Clone, Debug, PartialEq, Eq)]
pub struct Token<'a> {
    pub kind: TokenTypes,
    pub value: Option<TokenValue>,
    pub pos_start: Position<'a>,
    pub pos_end: Position<'a>,
}

impl<'a> View for Token<'a> {
    type V = TokenView;

    open spec fn view(&self) -> TokenView {
        TokenView {
            kind: self.kind,
            value: payload_view(self.value),
            start: self.pos_start.idx as int,
            end: self.pos_end.idx as int,
        }
    }
}

impl<'a> Token<'a> {
    /// Both positions belong to `text` and carry the line and column of
    /// their offsets.
    pub open spec fn anchored(&self, name: &str, text: &[u8]) -> bool {
        self.pos_start.locates(name, text) && self.pos_end.locates(name, text)
    }
}

/// The views of a sequence of tokens.
pub open spec fn token_views(tokens: Seq<Token>) -> Seq<TokenView> {
    Seq::new(tokens.len(), |k: int| tokens[k]@)
}

/// A token from its parts.
pub fn new_token<'a>(
    token_type: TokenTypes,
    value: Option<TokenValue>,
    pos_start: Position<'a>,
    pos_end: Position<'a>,
) -> (token: Token<'a>)
    ensures
        token.kind == token_type,
        token.value == value,
        token.pos_start == pos_start,
        token.pos_end == pos_end,
{
    Token { kind: token_type, value, pos_start, pos_end }
}

/// The one error of the lexer: a byte that starts no token, or a string
/// literal that never closes.
#[derive(Clone, Debug, PartialEq, Eq)]
pub struct LexError<'a> {
    /// The byte that starts no token; `None` for an unterminated string.
    pub character: Option<u8>,
    /// Where the byte stands, or where the string literal opens.
    pub pos: Position<'a>,
}

impl<'a> View for LexError<'a> {
    type V = ErrorView;

    open spec fn view(&self) -> ErrorView {
        ErrorView { character: self.character, offset: self.pos.idx as int }
    }
}

impl<'a> LexError<'a> {
    /// A short description of the error.
    pub fn message(&self) -> (text: &'static str)
        ensures
            text@ == (if self.character is Some {
                "Illegal character"@
            } else {
                "Unterminated string literal"@
            }),
    {
        if self.character.is_some() {
            "Illegal character"
        } else {
            "Unterminated string literal"
        }
    }
}

} // verus!
