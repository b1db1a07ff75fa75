//! What the lexer computes, stated over sequences of bytes: the classes of
//! bytes, where each kind of token ends, and the tokens of a whole text.

use vstd::prelude::*;
use crate::types::position::LINE_FEED;
use crate::types::TokenTypes;

verus! {

pub const TAB: u8 = 9;
pub const CARRIAGE_RETURN: u8 = 13;
pub const SPACE: u8 = 32;
pub const BANG: u8 = 33;
pub const QUOTE: u8 = 34;
pub const AMPERSAND: u8 = 38;
pub const LEFT_PAREN: u8 = 40;
pub const RIGHT_PAREN: u8 = 41;
pub const ASTERISK: u8 = 42;
pub const PLUS_SIGN: u8 = 43;
pub const COMMA_SIGN: u8 = 44;
pub const HYPHEN: u8 = 45;
pub const POINT: u8 = 46;
pub const SLASH: u8 = 47;
pub const DIGIT_ZERO: u8 = 48;
pub const DIGIT_NINE: u8 = 57;
pub const SEMICOLON: u8 = 59;
pub const LESS_THAN: u8 = 60;
pub const EQUALS_SIGN: u8 = 61;
pub const GREATER_THAN: u8 = 62;
pub const LEFT_SQUARE: u8 = 91;
pub const BACKSLASH: u8 = 92;
pub const RIGHT_SQUARE: u8 = 93;
pub const CARET: u8 = 94;
pub const UNDERSCORE: u8 = 95;
pub const LETTER_N: u8 = 110;
pub const LETTER_T: u8 = 116;
pub const LEFT_BRACE: u8 = 123;
pub const RIGHT_BRACE: u8 = 125;

/// An ASCII digit.
pub open spec fn is_digit_byte(c: u8) -> bool {
    DIGIT_ZERO <= c <= DIGIT_NINE
}

/// An ASCII letter or the underscore.
pub open spec fn is_letter_byte(c: u8) -> bool {
    (65 <= c <= 90) || (97 <= c <= 122) || c == UNDERSCORE
}

/// A byte that may stand inside an identifier.
pub open spec fn is_word_byte(c: u8) -> bool {
    is_letter_byte(c) || is_digit_byte(c)
}

/// Space, tab or carriage return: skipped between tokens.
pub open spec fn is_blank_byte(c: u8) -> bool {
    c == SPACE || c == TAB || c == CARRIAGE_RETURN
}

/// Line feed or semicolon: each ends a statement.
pub open spec fn is_separator_byte(c: u8) -> bool {
    c == LINE_FEED || c == SEMICOLON
}

/// The byte at `i`, or `None` outside the text.
pub open spec fn byte_at(text: Seq<u8>, i: int) -> Option<u8> {
    if 0 <= i < text.len() {
        Some(text[i])
    } else {
        None
    }
}

/// A payload, over sequences.
pub enum ValueView {
    Float(Seq<u8>),
    Integer(i64),
    Str(Seq<u8>),
}

/// A token, over sequences: its kind, its payload, and the offsets of its
/// first and last byte.
pub struct TokenView {
    pub kind: TokenTypes,
    pub value: Option<ValueView>,
    pub start: int,
    pub end: int,
}

/// An error: the offending byte, if there is one, and its offset.
pub struct ErrorView {
    pub character: Option<u8>,
    pub offset: int,
}

/// What scanning at one offset gives.
pub enum Scan {
    Token(TokenView),
    Illegal(ErrorView),
    /// A run of digits whose value no `i64` holds, and the offset of its
    /// first digit.
    TooLarge(int),
}

/// What scanning a text gives.
pub enum Outcome {
    Tokens(Seq<TokenView>),
    Illegal(ErrorView),
    /// A run of digits whose value no `i64` holds, and the offset of its
    /// first digit.
    TooLarge(int),
}

/// Where the run of digits that starts at `i` ends (one past its last byte).
pub open spec fn digits_end(text: Seq<u8>, i: int) -> int
    decreases text.len() - i,
{
    if 0 <= i < text.len() && is_digit_byte(text[i]) {
        digits_end(text, i + 1)
    } else {
        i
    }
}

/// Where the run of word bytes that starts at `i` ends (one past its last byte).
pub open spec fn word_end(text: Seq<u8>, i: int) -> int
    decreases text.len() - i,
{
    if 0 <= i < text.len() && is_word_byte(text[i]) {
        word_end(text, i + 1)
    } else {
        i
    }
}

/// The value of a sequence of digits, read as a decimal number.
pub open spec fn decimal_value(digits: Seq<u8>) -> nat
    decreases digits.len(),
{
    if digits.len() == 0 {
        0
    } else {
        decimal_value(digits.drop_last()) * 10 + (digits.last() - DIGIT_ZERO) as nat
    }
}

/// The byte that an escape stands for: `n` a line feed, `t` a tab, any
/// other byte itself.
pub open spec fn unescaped(c: u8) -> u8 {
    if c == LETTER_N {
        LINE_FEED
    } else if c == LETTER_T {
        TAB
    } else {
        c
    }
}

/// The offset of the quote that closes a string whose content starts at
/// `j`, or the text's length if none does. A backslash takes the next byte
/// with it.
pub open spec fn string_close(text: Seq<u8>, j: int) -> int
    decreases text.len() - j,
{
    if j < 0 || j >= text.len() {
        text.len() as int
    } else if text[j] == QUOTE {
        j
    } else if text[j] == BACKSLASH {
        if j + 1 < text.len() {
            string_close(text, j + 2)
        } else {
            text.len() as int
        }
    } else {
        string_close(text, j + 1)
    }
}

/// The content of a string from `j` to its closing quote, escapes resolved.
pub open spec fn string_payload(text: Seq<u8>, j: int) -> Seq<u8>
    decreases text.len() - j,
{
    if j < 0 || j >= text.len() || text[j] == QUOTE {
        Seq::empty()
    } else if text[j] == BACKSLASH {
        if j + 1 < text.len() {
            seq![unescaped(text[j + 1])] + string_payload(text, j + 2)
        } else {
            Seq::empty()
        }
    } else {
        seq![text[j]] + string_payload(text, j + 1)
    }
}

/// The table of fixed symbols: the kind and the width of the longest symbol
/// that starts with `first`, given the byte `second` that follows it.
pub open spec fn fixed_symbol(first: u8, second: Option<u8>) -> Option<(TokenTypes, int)> {
    if first == PLUS_SIGN {
        Some((TokenTypes::Plus, 1))
    } else if first == HYPHEN {
        if second == Some(GREATER_THAN) {
            Some((TokenTypes::Arrow, 2))
        } else {
            Some((TokenTypes::Minus, 1))
        }
    } else if first == ASTERISK {
        Some((TokenTypes::Star, 1))
    } else if first == SLASH {
        Some((TokenTypes::Div, 1))
    } else if first == CARET {
        Some((TokenTypes::Pow, 1))
    } else if first == EQUALS_SIGN {
        if second == Some(EQUALS_SIGN) {
            Some((TokenTypes::EE, 2))
        } else {
            Some((TokenTypes::Eq, 1))
        }
    } else if first == BANG {
        if second == Some(EQUALS_SIGN) {
            Some((TokenTypes::NE, 2))
        } else {
            None
        }
    } else if first == LESS_THAN {
        if second == Some(EQUALS_SIGN) {
            Some((TokenTypes::LTE, 2))
        } else {
            Some((TokenTypes::LT, 1))
        }
    } else if first == GREATER_THAN {
        if second == Some(EQUALS_SIGN) {
            Some((TokenTypes::GTE, 2))
        } else {
            Some((TokenTypes::GT, 1))
        }
    } else if first == LEFT_PAREN {
        Some((TokenTypes::Lparen, 1))
    } else if first == RIGHT_PAREN {
        Some((TokenTypes::Rparen, 1))
    } else if first == LEFT_SQUARE {
        Some((TokenTypes::Lsquare, 1))
    } else if first == RIGHT_SQUARE {
        Some((TokenTypes::Rsquare, 1))
    } else if first == LEFT_BRACE {
        Some((TokenTypes::Lbrace, 1))
    } else if first == RIGHT_BRACE {
        Some((TokenTypes::Rbrace, 1))
    } else if first == COMMA_SIGN {
        Some((TokenTypes::Comma, 1))
    } else if first == POINT {
        Some((TokenTypes::Dot, 1))
    } else if first == AMPERSAND {
        Some((TokenTypes::And, 1))
    } else {
        None
    }
}

/// The identifier or keyword that starts at `i`.
pub open spec fn word_at(text: Seq<u8>, reserved: Set<Seq<u8>>, i: int) -> TokenView {
    let end = word_end(text, i);
    let word = text.subrange(i, end);
    TokenView {
        kind: if reserved.contains(word) {
            TokenTypes::Keyword
        } else {
            TokenTypes::Identifier
        },
        value: Some(ValueView::Str(word)),
        start: i,
        end: end - 1,
    }
}

/// The number that starts at `i`: a run of digits, and if a point follows
/// it, the point and the run of digits behind it. A second point is not
/// part of the number.
pub open spec fn number_at(text: Seq<u8>, i: int) -> Scan {
    let whole_end = digits_end(text, i);
    if byte_at(text, whole_end) == Some(POINT) {
        let end = digits_end(text, whole_end + 1);
        Scan::Token(
            TokenView {
                kind: TokenTypes::Float,
                value: Some(ValueView::Float(text.subrange(i, end))),
                start: i,
                end: end - 1,
            },
        )
    } else if decimal_value(text.subrange(i, whole_end)) <= i64::MAX {
        Scan::Token(
            TokenView {
                kind: TokenTypes::Int,
                value: Some(ValueView::Integer(decimal_value(text.subrange(i, whole_end)) as i64)),
                start: i,
                end: whole_end - 1,
            },
        )
    } else {
        Scan::TooLarge(i)
    }
}

/// The string literal whose opening quote stands at `i`. Without a closing
/// quote it is an error at `i`.
pub open spec fn string_at(text: Seq<u8>, i: int) -> Scan {
    let close = string_close(text, i + 1);
    if close < text.len() {
        Scan::Token(
            TokenView {
                kind: TokenTypes::String,
                value: Some(ValueView::Str(string_payload(text, i + 1))),
                start: i,
                end: close,
            },
        )
    } else {
        Scan::Illegal(ErrorView { character: None, offset: i })
    }
}

/// The fixed symbol that starts at `i`, the longest that matches. A byte
/// that starts none is an error.
pub open spec fn symbol_at(text: Seq<u8>, i: int) -> Scan {
    match fixed_symbol(text[i], byte_at(text, i + 1)) {
        Some((kind, width)) => Scan::Token(
            TokenView { kind, value: None, start: i, end: i + width - 1 },
        ),
        None => Scan::Illegal(ErrorView { character: Some(text[i]), offset: i }),
    }
}

/// What stands at `i`, where `i` is the offset of a byte that is not blank.
pub open spec fn token_at(text: Seq<u8>, reserved: Set<Seq<u8>>, i: int) -> Scan {
    let c = text[i];
    if is_letter_byte(c) {
        Scan::Token(word_at(text, reserved, i))
    } else if is_digit_byte(c) {
        number_at(text, i)
    } else if is_separator_byte(c) {
        Scan::Token(TokenView { kind: TokenTypes::Newline, value: None, start: i, end: i })
    } else if c == QUOTE {
        string_at(text, i)
    } else {
        symbol_at(text, i)
    }
}

/// The marker that ends a sequence of tokens scanned from offset `from`: it
/// has no width and stands behind the text's last byte, or at `from` where
/// that lies further behind.
pub open spec fn end_marker_at(text: Seq<u8>, from: int) -> TokenView {
    let offset = if from > text.len() {
        from
    } else {
        text.len() as int
    };
    TokenView { kind: TokenTypes::EOF, value: None, start: offset, end: offset }
}

/// The marker that ends the tokens of a whole text.
pub open spec fn end_marker(text: Seq<u8>) -> TokenView {
    end_marker_at(text, 0)
}

/// `tokens` in front of what follows them; an error stays an error.
pub open spec fn prepend(tokens: Seq<TokenView>, rest: Outcome) -> Outcome {
    match rest {
        Outcome::Tokens(more) => Outcome::Tokens(tokens + more),
        Outcome::Illegal(e) => Outcome::Illegal(e),
        Outcome::TooLarge(at) => Outcome::TooLarge(at),
    }
}

/// The tokens of `text` from offset `i` on: blanks are skipped, each token
/// is followed by the tokens behind it, the end marker comes last, and the
/// first error ends the scan. From behind the text there is the end marker
/// alone.
pub open spec fn lex_from(text: Seq<u8>, reserved: Set<Seq<u8>>, i: int) -> Outcome
    decreases text.len() - i,
    via lex_from_decreases
{
    if i < 0 || i >= text.len() {
        Outcome::Tokens(seq![end_marker_at(text, i)])
    } else if is_blank_byte(text[i]) {
        lex_from(text, reserved, i + 1)
    } else {
        match token_at(text, reserved, i) {
            Scan::Token(t) => prepend(seq![t], lex_from(text, reserved, t.end + 1)),
            Scan::Illegal(e) => Outcome::Illegal(e),
            Scan::TooLarge(at) => Outcome::TooLarge(at),
        }
    }
}

#[via_fn]
proof fn lex_from_decreases(text: Seq<u8>, reserved: Set<Seq<u8>>, i: int) {
    if 0 <= i < text.len() {
        lemma_token_extent(text, reserved, i);
    }
}

/// The tokens of a whole text.
pub open spec fn lex(text: Seq<u8>, reserved: Set<Seq<u8>>) -> Outcome {
    lex_from(text, reserved, 0)
}

/// A run of digits ends at or behind its start, inside the text, in front
/// of a byte that is no digit; every byte of it is a digit.
pub proof fn lemma_digits_end(text: Seq<u8>, i: int)
    requires
        0 <= i <= text.len(),
    ensures
        i <= digits_end(text, i) <= text.len(),
        forall|k: int| i <= k < digits_end(text, i) ==> is_digit_byte(#[trigger] text[k]),
        digits_end(text, i) < text.len() ==> !is_digit_byte(text[digits_end(text, i)]),
        i < text.len() && is_digit_byte(text[i]) ==> i < digits_end(text, i),
    decreases text.len() - i,
{
    if i < text.len() && is_digit_byte(text[i]) {
        lemma_digits_end(text, i + 1);
    }
}

/// A run of word bytes ends at or behind its start, inside the text, in
/// front of a byte that is no word byte; every byte of it is a word byte.
pub proof fn lemma_word_end(text: Seq<u8>, i: int)
    requires
        0 <= i <= text.len(),
    ensures
        i <= word_end(text, i) <= text.len(),
        forall|k: int| i <= k < word_end(text, i) ==> is_word_byte(#[trigger] text[k]),
        word_end(text, i) < text.len() ==> !is_word_byte(text[word_end(text, i)]),
        i < text.len() && is_word_byte(text[i]) ==> i < word_end(text, i),
    decreases text.len() - i,
{
    if i < text.len() && is_word_byte(text[i]) {
        lemma_word_end(text, i + 1);
    }
}

/// The closing quote of a string stands at or behind the start of its
/// content, and is a quote.
pub proof fn lemma_string_close(text: Seq<u8>, j: int)
    requires
        0 <= j <= text.len(),
    ensures
        j <= string_close(text, j) <= text.len(),
        string_close(text, j) < text.len() ==> text[string_close(text, j)] == QUOTE,
    decreases text.len() - j,
{
    if j < text.len() && text[j] != QUOTE {
        if text[j] == BACKSLASH {
            if j + 1 < text.len() {
                lemma_string_close(text, j + 2);
            }
        } else {
            lemma_string_close(text, j + 1);
        }
    }
}

/// A token starts where it was scanned and ends inside the text.
pub proof fn lemma_token_extent(text: Seq<u8>, reserved: Set<Seq<u8>>, i: int)
    requires
        0 <= i < text.len(),
    ensures
        match token_at(text, reserved, i) {
            Scan::Token(t) => t.start == i && i <= t.end < text.len(),
            Scan::Illegal(e) => i == e.offset,
            Scan::TooLarge(at) => at == i,
        },
{
    lemma_word_end(text, i);
    lemma_digits_end(text, i);
    let whole_end = digits_end(text, i);
    if whole_end < text.len() {
        lemma_digits_end(text, whole_end + 1);
    }
    lemma_string_close(text, i + 1);
}

} // verus!
