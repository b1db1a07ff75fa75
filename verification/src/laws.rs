//! What holds of every text that is scanned.

use vstd::prelude::*;
use crate::grammar::byte_at;
use crate::grammar::decimal_value;
use crate::grammar::digits_end;
use crate::grammar::end_marker;
use crate::grammar::fixed_symbol;
use crate::grammar::is_blank_byte;
use crate::grammar::is_digit_byte;
use crate::grammar::is_letter_byte;
use crate::grammar::is_separator_byte;
use crate::grammar::is_word_byte;
use crate::grammar::lemma_digits_end;
use crate::grammar::lemma_string_close;
use crate::grammar::lemma_token_extent;
use crate::grammar::lemma_word_end;
use crate::grammar::lex;
use crate::grammar::lex_from;
use crate::grammar::string_close;
use crate::grammar::string_payload;
use crate::grammar::token_at;
use crate::grammar::ErrorView;
use crate::grammar::Outcome;
use crate::grammar::Scan;
use crate::grammar::TokenView;
use crate::grammar::ValueView;
use crate::grammar::BANG;
use crate::grammar::POINT;
use crate::grammar::QUOTE;
use crate::types::position::col_at;
use crate::types::position::line_at;
use crate::types::TokenTypes;

verus! {

/// The text holds nothing but blanks, line feeds and semicolons.
pub open spec fn only_blanks_and_separators(text: Seq<u8>) -> bool {
    forall|k: int|
        0 <= k < text.len() ==> is_blank_byte(#[trigger] text[k]) || is_separator_byte(text[k])
}

/// The number of line feeds and semicolons at or behind offset `i`.
pub open spec fn separator_count(text: Seq<u8>, i: int) -> nat
    decreases text.len() - i,
{
    if i < 0 || i >= text.len() {
        0
    } else if is_separator_byte(text[i]) {
        1 + separator_count(text, i + 1)
    } else {
        separator_count(text, i + 1)
    }
}

/// The tokens are `Newline` tokens, as many as `count`, and the end marker.
pub open spec fn newlines_then_end(text: Seq<u8>, outcome: Outcome, count: nat) -> bool {
    match outcome {
        Outcome::Tokens(tokens) => {
            &&& tokens.len() == count + 1
            &&& tokens.last() == end_marker(text)
            &&& forall|k: int|
                0 <= k < tokens.len() - 1 ==> {
                    &&& (#[trigger] tokens[k]).kind == TokenTypes::Newline
                    &&& tokens[k].value is None
                    &&& tokens[k].start == tokens[k].end
                }
        },
        _ => false,
    }
}

proof fn lemma_blank_text_from(text: Seq<u8>, reserved: Set<Seq<u8>>, i: int)
    requires
        only_blanks_and_separators(text),
        0 <= i <= text.len(),
    ensures
        newlines_then_end(text, lex_from(text, reserved, i), separator_count(text, i)),
    decreases text.len() - i,
{
    if i < text.len() {
        assert(is_blank_byte(text[i]) || is_separator_byte(text[i]));
        lemma_blank_text_from(text, reserved, i + 1);
        if !is_blank_byte(text[i]) {
            let rest = lex_from(text, reserved, i + 1)->Tokens_0;
            let here = TokenView { kind: TokenTypes::Newline, value: None, start: i, end: i };
            assert(token_at(text, reserved, i) == Scan::Token(here));
            let all = seq![here] + rest;
            assert(lex_from(text, reserved, i) == Outcome::Tokens(all));
            assert(all.last() == rest.last());
            assert forall|k: int| 0 <= k < all.len() - 1 implies {
                &&& (#[trigger] all[k]).kind == TokenTypes::Newline
                &&& all[k].value is None
                &&& all[k].start == all[k].end
            } by {
                if k > 0 {
                    assert(all[k] == rest[k - 1]);
                }
            }
        }
    }
}

/// A text of blanks, line feeds and semicolons alone gives one `Newline`
/// token for each line feed or semicolon, none for the blanks, and then the
/// end marker.
pub proof fn lemma_blank_text(text: Seq<u8>, reserved: Set<Seq<u8>>)
    requires
        only_blanks_and_separators(text),
    ensures
        newlines_then_end(text, lex(text, reserved), separator_count(text, 0)),
{
    lemma_blank_text_from(text, reserved, 0);
}

/// A byte that belongs to one of the classes that the scanner knows.
pub open spec fn is_classified_byte(c: u8) -> bool {
    ||| is_letter_byte(c)
    ||| is_digit_byte(c)
    ||| is_blank_byte(c)
    ||| is_separator_byte(c)
    ||| c == QUOTE
    ||| c == BANG
    ||| fixed_symbol(c, None) is Some
}

/// Blanks in front change nothing: scanning from the start of a run of
/// blanks is scanning from its end.
pub proof fn lemma_blanks_skipped(text: Seq<u8>, reserved: Set<Seq<u8>>, from: int, to: int)
    requires
        0 <= from <= to <= text.len(),
        forall|k: int| from <= k < to ==> is_blank_byte(#[trigger] text[k]),
    ensures
        lex_from(text, reserved, from) == lex_from(text, reserved, to),
    decreases to - from,
{
    if from < to {
        assert(is_blank_byte(text[from]));
        lemma_blanks_skipped(text, reserved, from + 1, to);
    }
}

/// A byte of no class, with nothing but blanks in front of it, is the
/// error, reported at its own offset; a text that starts with it reports
/// offset 0, line 0, column 0.
pub proof fn lemma_unclassified_byte(text: Seq<u8>, reserved: Set<Seq<u8>>, i: int)
    requires
        0 <= i < text.len(),
        forall|k: int| 0 <= k < i ==> is_blank_byte(#[trigger] text[k]),
        !is_classified_byte(text[i]),
    ensures
        lex(text, reserved) == Outcome::Illegal(ErrorView { character: Some(text[i]), offset: i }),
        i == 0 ==> line_at(text, i) == 0 && col_at(text, i) == 0,
{
    lemma_blanks_skipped(text, reserved, 0, i);
    assert(col_at(text, -1) == -1);
}

/// A byte of the given class stands right behind the token.
pub open spec fn follows(text: Seq<u8>, t: TokenView, class: spec_fn(u8) -> bool) -> bool {
    match byte_at(text, t.end + 1) {
        Some(c) => class(c),
        None => false,
    }
}

/// The token is spelled by the bytes from its first to its last offset:
/// they lie in the text, have the shape of the token's kind, and give its
/// payload; a word or a number is as long as it can be, so no byte that
/// could continue it stands behind it; a word is a keyword exactly if it is
/// reserved.
pub open spec fn literal_matches(text: Seq<u8>, reserved: Set<Seq<u8>>, t: TokenView) -> bool {
    let literal = text.subrange(t.start, t.end + 1);
    &&& 0 <= t.start <= t.end < text.len()
    &&& match t.kind {
        TokenTypes::Identifier | TokenTypes::Keyword => {
            &&& is_letter_byte(literal[0])
            &&& forall|k: int| 0 <= k < literal.len() ==> is_word_byte(#[trigger] literal[k])
            &&& !follows(text, t, |c: u8| is_word_byte(c))
            &&& t.kind == TokenTypes::Keyword <==> reserved.contains(literal)
            &&& t.value == Some(ValueView::Str(literal))
        },
        TokenTypes::Int => {
            &&& forall|k: int| 0 <= k < literal.len() ==> is_digit_byte(#[trigger] literal[k])
            &&& !follows(text, t, |c: u8| is_digit_byte(c) || c == POINT)
            &&& decimal_value(literal) <= i64::MAX
            &&& t.value == Some(ValueView::Integer(decimal_value(literal) as i64))
        },
        TokenTypes::Float => {
            &&& is_digit_byte(literal[0])
            &&& forall|k: int|
                0 <= k < literal.len() ==> is_digit_byte(#[trigger] literal[k]) || literal[k]
                    == POINT
            &&& !follows(text, t, |c: u8| is_digit_byte(c))
            &&& t.value == Some(ValueView::Float(literal))
        },
        TokenTypes::String => {
            &&& literal.len() >= 2
            &&& literal[0] == QUOTE
            &&& literal.last() == QUOTE
            &&& string_close(text, t.start + 1) == t.end
            &&& t.value == Some(ValueView::Str(string_payload(text, t.start + 1)))
        },
        TokenTypes::Newline => {
            &&& literal.len() == 1
            &&& is_separator_byte(literal[0])
            &&& t.value is None
        },
        TokenTypes::EOF => false,
        _ => {
            &&& fixed_symbol(text[t.start], byte_at(text, t.start + 1)) == Some(
                (t.kind, literal.len() as int),
            )
            &&& t.value is None
        },
    }
}

/// The token scanned at an offset is spelled by the bytes it covers.
pub proof fn lemma_token_literal(text: Seq<u8>, reserved: Set<Seq<u8>>, i: int)
    requires
        0 <= i < text.len(),
        !is_blank_byte(text[i]),
    ensures
        match token_at(text, reserved, i) {
            Scan::Token(t) => t.start == i && literal_matches(text, reserved, t),
            Scan::Illegal(e) => e.offset == i,
            Scan::TooLarge(at) => at == i,
        },
{
    lemma_token_extent(text, reserved, i);
    lemma_word_end(text, i);
    lemma_digits_end(text, i);
    let whole_end = digits_end(text, i);
    if whole_end < text.len() {
        lemma_digits_end(text, whole_end + 1);
    }
    lemma_string_close(text, i + 1);
}

/// Every byte from `from` up to, not including, `to` is a blank.
pub open spec fn gap_is_blank(text: Seq<u8>, from: int, to: int) -> bool {
    forall|j: int| from <= j < to && 0 <= j < text.len() ==> is_blank_byte(#[trigger] text[j])
}

/// The tokens stand in the text in their order, each ends before the
/// next starts, nothing but blanks stands between them, each but the last
/// is spelled by the bytes from its first to its last offset, and the last
/// is the end marker, the only one.
pub open spec fn tokens_cover(
    text: Seq<u8>,
    reserved: Set<Seq<u8>>,
    tokens: Seq<TokenView>,
    from: int,
) -> bool {
    &&& tokens.len() >= 1
    &&& tokens.last() == end_marker(text)
    &&& forall|k: int|
        0 <= k < tokens.len() - 1 ==> {
            &&& from <= (#[trigger] tokens[k]).start
            &&& literal_matches(text, reserved, tokens[k])
        }
    &&& forall|j: int, k: int|
        0 <= j < k < tokens.len() ==> (#[trigger] tokens[j]).end < (#[trigger] tokens[k]).start
    &&& gap_is_blank(text, from, tokens[0].start)
    &&& forall|j: int, k: int|
        0 <= j && k == j + 1 && k < tokens.len() ==> gap_is_blank(
            text,
            (#[trigger] tokens[j]).end + 1,
            (#[trigger] tokens[k]).start,
        )
}

/// One token in front of tokens that cover the text behind it.
proof fn lemma_cover_step(
    text: Seq<u8>,
    reserved: Set<Seq<u8>>,
    t: TokenView,
    rest: Seq<TokenView>,
    i: int,
)
    requires
        t.start == i,
        literal_matches(text, reserved, t),
        tokens_cover(text, reserved, rest, t.end + 1),
    ensures
        tokens_cover(text, reserved, seq![t] + rest, i),
{
    let all = seq![t] + rest;
    assert(all.last() == rest.last());
    assert forall|k: int| 0 <= k < all.len() - 1 implies {
        &&& i <= (#[trigger] all[k]).start
        &&& literal_matches(text, reserved, all[k])
    } by {
        if k > 0 {
            assert(all[k] == rest[k - 1]);
        }
    }
    assert forall|j: int, k: int| 0 <= j < k < all.len() implies (#[trigger] all[j]).end < (
    #[trigger] all[k]).start by {
        assert(all[k] == rest[k - 1]);
        if j > 0 {
            assert(all[j] == rest[j - 1]);
        }
    }
    assert forall|j: int, k: int| 0 <= j && k == j + 1 && k < all.len() implies gap_is_blank(
        text,
        (#[trigger] all[j]).end + 1,
        (#[trigger] all[k]).start,
    ) by {
        assert(all[k] == rest[k - 1]);
        if j > 0 {
            assert(all[j] == rest[j - 1]);
        }
    }
}

/// One blank in front of tokens that cover the text behind it.
proof fn lemma_cover_blank(text: Seq<u8>, reserved: Set<Seq<u8>>, tokens: Seq<TokenView>, i: int)
    requires
        0 <= i < text.len(),
        is_blank_byte(text[i]),
        tokens_cover(text, reserved, tokens, i + 1),
    ensures
        tokens_cover(text, reserved, tokens, i),
{
}

/// Whatever is scanned from offset `i`: the tokens cover the text from `i`
/// on, and an error lies at or behind `i`.
pub proof fn lemma_tokens_from(text: Seq<u8>, reserved: Set<Seq<u8>>, i: int)
    requires
        0 <= i <= text.len(),
    ensures
        match lex_from(text, reserved, i) {
            Outcome::Tokens(tokens) => tokens_cover(text, reserved, tokens, i),
            Outcome::Illegal(e) => i <= e.offset < text.len(),
            Outcome::TooLarge(at) => i <= at < text.len(),
        },
    decreases text.len() - i,
{
    if i < text.len() {
        if is_blank_byte(text[i]) {
            lemma_tokens_from(text, reserved, i + 1);
            match lex_from(text, reserved, i + 1) {
                Outcome::Tokens(tokens) => {
                    lemma_cover_blank(text, reserved, tokens, i);
                },
                _ => {},
            }
        } else {
            lemma_token_literal(text, reserved, i);
            match token_at(text, reserved, i) {
                Scan::Token(t) => {
                    lemma_tokens_from(text, reserved, t.end + 1);
                    match lex_from(text, reserved, t.end + 1) {
                        Outcome::Tokens(rest) => {
                            lemma_cover_step(text, reserved, t, rest, i);
                        },
                        _ => {},
                    }
                },
                _ => {},
            }
        }
    }
}

/// Every token of a text but the end marker spans exactly the bytes that
/// spell it, so its last offset less its first, plus one, is the length of
/// its literal; the end marker stands behind the text and has no width.
/// The tokens come in the order of the text, and the bytes that belong to
/// no token are blanks.
pub proof fn lemma_token_extents(text: Seq<u8>, reserved: Set<Seq<u8>>)
    ensures
        match lex(text, reserved) {
            Outcome::Tokens(tokens) => tokens_cover(text, reserved, tokens, 0),
            Outcome::Illegal(e) => 0 <= e.offset < text.len(),
            Outcome::TooLarge(at) => 0 <= at < text.len(),
        },
{
    lemma_tokens_from(text, reserved, 0);
}

} // verus!
