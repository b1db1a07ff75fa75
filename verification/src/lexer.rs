//! The scanner: one forward pass over the text, one sub-scanner for each
//! kind of token.

use vstd::prelude::*;
use crate::grammar::byte_at;
use crate::grammar::decimal_value;
use crate::grammar::digits_end;
use crate::grammar::fixed_symbol;
use crate::grammar::is_blank_byte;
use crate::grammar::is_digit_byte;
use crate::grammar::is_letter_byte;
use crate::grammar::is_word_byte;
use crate::grammar::lemma_digits_end;
use crate::grammar::lemma_token_extent;
use crate::grammar::lemma_word_end;
use crate::grammar::lex_from;
use crate::grammar::number_at;
use crate::grammar::prepend;
use crate::grammar::string_at;
use crate::grammar::string_close;
use crate::grammar::string_payload;
use crate::grammar::symbol_at;
use crate::grammar::unescaped;
use crate::grammar::word_at;
use crate::grammar::word_end;
use crate::grammar::Outcome;
use crate::grammar::Scan;
use crate::grammar::TokenView;
use crate::grammar::AMPERSAND;
use crate::grammar::ASTERISK;
use crate::grammar::BACKSLASH;
use crate::grammar::BANG;
use crate::grammar::CARET;
use crate::grammar::CARRIAGE_RETURN;
use crate::grammar::COMMA_SIGN;
use crate::grammar::DIGIT_NINE;
use crate::grammar::DIGIT_ZERO;
use crate::grammar::EQUALS_SIGN;
use crate::grammar::GREATER_THAN;
use crate::grammar::HYPHEN;
use crate::grammar::LEFT_BRACE;
use crate::grammar::LEFT_PAREN;
use crate::grammar::LEFT_SQUARE;
use crate::grammar::LESS_THAN;
use crate::grammar::LETTER_N;
use crate::grammar::LETTER_T;
use crate::grammar::PLUS_SIGN;
use crate::grammar::POINT;
use crate::grammar::QUOTE;
use crate::grammar::RIGHT_BRACE;
use crate::grammar::RIGHT_PAREN;
use crate::grammar::RIGHT_SQUARE;
use crate::grammar::SEMICOLON;
use crate::grammar::SLASH;
use crate::grammar::SPACE;
use crate::grammar::TAB;
use crate::grammar::UNDERSCORE;
use crate::types::lexer::new_token;
use crate::types::lexer::reserved_words;
use crate::types::lexer::token_views;
use crate::types::position::lemma_advance_keeps_place;
use crate::types::position::lemma_line_col_bounds;
use crate::types::position::new_position;
use crate::types::position::LINE_FEED;
use crate::types::position::MAX_TEXT_LEN;
use crate::types::LexError;
use crate::types::Lexer;
use crate::types::Token;
use crate::types::TokenTypes;
use crate::types::TokenValue;

verus! {

/// Whether `ch` is an ASCII digit.
pub fn is_digit(ch: u8) -> (r: bool)
    ensures
        r == is_digit_byte(ch),
{
    DIGIT_ZERO <= ch && ch <= DIGIT_NINE
}

/// Whether `ch` is an ASCII letter or the underscore.
pub fn is_letter(ch: u8) -> (r: bool)
    ensures
        r == is_letter_byte(ch),
{
    (65 <= ch && ch <= 90) || (97 <= ch && ch <= 122) || ch == UNDERSCORE
}

/// Whether `ch` is skipped between tokens.
pub fn is_blank(ch: u8) -> (r: bool)
    ensures
        r == is_blank_byte(ch),
{
    ch == SPACE || ch == TAB || ch == CARRIAGE_RETURN
}

/// The byte that stands behind a backslash in a string literal, resolved.
pub fn unescape(ch: u8) -> (r: u8)
    ensures
        r == unescaped(ch),
{
    if ch == LETTER_N {
        LINE_FEED
    } else if ch == LETTER_T {
        TAB
    } else {
        ch
    }
}

/// Looks a symbol up by its first byte and the byte behind it: the kind and
/// the width (1 or 2) of the longest fixed symbol that matches, if any.
pub fn symbol(first: u8, second: Option<u8>) -> (r: Option<(TokenTypes, u8)>)
    ensures
        match r {
            Some((kind, width)) => fixed_symbol(first, second) == Some((kind, width as int)),
            None => fixed_symbol(first, second) is None,
        },
{
    let then_equals = match second {
        Some(c) => c == EQUALS_SIGN,
        None => false,
    };
    let then_greater = match second {
        Some(c) => c == GREATER_THAN,
        None => false,
    };
    if first == PLUS_SIGN {
        Some((TokenTypes::Plus, 1))
    } else if first == HYPHEN {
        if then_greater {
            Some((TokenTypes::Arrow, 2))
        } else {
            Some((TokenTypes::Minus, 1))
        }
    } else if first == ASTERISK {
        Some((TokenTypes::Star, 1))
    } else if first == SLASH {
        Some((TokenTypes::Div, 1))
    } else if first == CARET {
        Some((TokenTypes::Pow, 1))
    } else if first == EQUALS_SIGN {
        if then_equals {
            Some((TokenTypes::EE, 2))
        } else {
            Some((TokenTypes::Eq, 1))
        }
    } else if first == BANG {
        if then_equals {
            Some((TokenTypes::NE, 2))
        } else {
            None
        }
    } else if first == LESS_THAN {
        if then_equals {
            Some((TokenTypes::LTE, 2))
        } else {
            Some((TokenTypes::LT, 1))
        }
    } else if first == GREATER_THAN {
        if then_equals {
            Some((TokenTypes::GTE, 2))
        } else {
            Some((TokenTypes::GT, 1))
        }
    } else if first == LEFT_PAREN {
        Some((TokenTypes::Lparen, 1))
    } else if first == RIGHT_PAREN {
        Some((TokenTypes::Rparen, 1))
    } else if first == LEFT_SQUARE {
        Some((TokenTypes::Lsquare, 1))
    } else if first == RIGHT_SQUARE {
        Some((TokenTypes::Rsquare, 1))
    } else if first == LEFT_BRACE {
        Some((TokenTypes::Lbrace, 1))
    } else if first == RIGHT_BRACE {
        Some((TokenTypes::Rbrace, 1))
    } else if first == COMMA_SIGN {
        Some((TokenTypes::Comma, 1))
    } else if first == POINT {
        Some((TokenTypes::Dot, 1))
    } else if first == AMPERSAND {
        Some((TokenTypes::And, 1))
    } else {
        None
    }
}

/// Whether two byte strings are the same.
pub fn bytes_equal(a: &[u8], b: &[u8]) -> (r: bool)
    ensures
        r == (a@ == b@),
{
    if a.len() != b.len() {
        return false;
    }
    let mut k: usize = 0;
    while k < a.len()
        invariant
            a@.len() == b@.len(),
            k <= a@.len(),
            forall|j: int| 0 <= j < k ==> a@[j] == b@[j],
        decreases a@.len() - k,
    {
        if a[k] != b[k] {
            return false;
        }
        k += 1;
    }
    proof {
        assert(a@ =~= b@);
    }
    true
}

/// Whether `word` is one of `keywords`.
pub fn is_keyword(keywords: &[&[u8]], word: &[u8]) -> (r: bool)
    ensures
        r == reserved_words(keywords@).contains(word@),
{
    let mut k: usize = 0;
    while k < keywords.len()
        invariant
            k <= keywords@.len(),
            forall|j: int| 0 <= j < k ==> (#[trigger] keywords@[j])@ != word@,
        decreases keywords@.len() - k,
    {
        if bytes_equal(keywords[k], word) {
            return true;
        }
        k += 1;
    }
    false
}

/// A prefix of a sequence of digits is worth no more than the whole.
pub proof fn lemma_decimal_prefix(digits: Seq<u8>, k: int)
    requires
        0 <= k <= digits.len(),
        forall|j: int| 0 <= j < digits.len() ==> is_digit_byte(#[trigger] digits[j]),
    ensures
        decimal_value(digits.subrange(0, k)) <= decimal_value(digits),
    decreases digits.len(),
{
    if k == digits.len() {
        assert(digits.subrange(0, k) =~= digits);
    } else {
        lemma_decimal_prefix(digits.drop_last(), k);
        assert(digits.drop_last().subrange(0, k) =~= digits.subrange(0, k));
    }
}

/// The value of a sequence of digits, if an `i64` holds it.
pub fn parse_decimal(digits: &[u8]) -> (r: Option<i64>)
    requires
        forall|j: int| 0 <= j < digits@.len() ==> is_digit_byte(#[trigger] digits@[j]),
    ensures
        match r {
            Some(value) => value == decimal_value(digits@),
            None => decimal_value(digits@) > i64::MAX,
        },
{
    let mut value: i64 = 0;
    let mut k: usize = 0;
    while k < digits.len()
        invariant
            k <= digits@.len(),
            0 <= value,
            value == decimal_value(digits@.subrange(0, k as int)),
            forall|j: int| 0 <= j < digits@.len() ==> is_digit_byte(#[trigger] digits@[j]),
        decreases digits@.len() - k,
    {
        let byte = digits[k];
        assert(is_digit_byte(digits@[k as int]));
        let digit: i64 = (byte - DIGIT_ZERO) as i64;
        proof {
            assert(digits@.subrange(0, k + 1).drop_last() =~= digits@.subrange(0, k as int));
            lemma_decimal_prefix(digits@, k + 1);
        }
        if value > (i64::MAX - digit) / 10 {
            return None;
        }
        value = value * 10 + digit;
        k += 1;
    }
    proof {
        assert(digits@.subrange(0, k as int) =~= digits@);
    }
    Some(value)
}

/// One more token behind those already made.
pub proof fn lemma_extend(tokens: Seq<Token>, token: Token, rest: Outcome)
    ensures
        prepend(token_views(tokens), prepend(seq![token@], rest)) == prepend(
            token_views(tokens.push(token)),
            rest,
        ),
{
    assert(token_views(tokens.push(token)) =~= token_views(tokens).push(token@));
    match rest {
        Outcome::Tokens(more) => {
            assert(token_views(tokens) + (seq![token@] + more) =~= token_views(tokens).push(token@)
                + more);
        },
        _ => {},
    }
}

/// A lexer over `text`, known as `filename`, with `keywords` reserved; it
/// stands on the first byte.
pub fn new_lexer<'a>(
    filename: &'a str,
    text: &'a [u8],
    keywords: &'a [&'a [u8]],
) -> (lexer: Lexer<'a>)
    requires
        text@.len() <= MAX_TEXT_LEN,
    ensures
        lexer.wf(),
        lexer.pos.idx == 0,
        lexer.pos.ln == 0,
        lexer.pos.col == 0,
        lexer.fn_name@ == filename@,
        lexer.text@ == text@,
        lexer.keywords@ == keywords@,
{
    let mut lexer = Lexer {
        fn_name: filename,
        text,
        keywords,
        pos: new_position(-1, 0, -1, filename, text),
        current_char: None,
    };
    lexer.advance();
    lexer
}

impl<'a> Lexer<'a> {
    /// Moves the cursor one byte on and reads the byte under it, in any
    /// state: behind the text there is no byte, the line stays and the
    /// column goes on counting.
    pub fn advance(&mut self)
        requires
            old(self).wf(),
            old(self).pos.idx < i64::MAX,
            old(self).pos.col < i32::MAX,
        ensures
            final(self).wf(),
            final(self).same_source(old(self)),
            final(self).fn_name == old(self).fn_name,
            final(self).text == old(self).text,
            final(self).keywords == old(self).keywords,
            final(self).pos.idx == old(self).pos.idx + 1,
            final(self).pos == old(self).pos.after(
                match old(self).current_char {
                    Some(c) => c,
                    None => 0,
                },
            ),
    {
        let consumed: u8 = match self.current_char {
            Some(c) => c,
            None => 0,
        };
        proof {
            lemma_advance_keeps_place(self.pos, self.fn_name, self.text, consumed);
        }
        self.pos.advance(consumed);
        let len: i64 = self.text.len() as i64;
        if 0 <= self.pos.idx && self.pos.idx < len {
            self.current_char = Some(self.text[self.pos.idx as usize]);
        } else {
            self.current_char = None;
        }
    }

    /// The byte behind the one under the cursor.
    pub fn peek(&self) -> (next: Option<u8>)
        requires
            self.wf(),
        ensures
            next == byte_at(self.text@, self.pos.idx + 1),
    {
        let len: i64 = self.text.len() as i64;
        if -1 <= self.pos.idx && self.pos.idx < len - 1 {
            Some(self.text[(self.pos.idx + 1) as usize])
        } else {
            None
        }
    }

    /// Whether the cursor stands on a byte of an identifier.
    fn on_word_byte(&self) -> (r: bool)
        requires
            self.wf(),
        ensures
            r == match byte_at(self.text@, self.pos.idx as int) {
                Some(c) => is_word_byte(c),
                None => false,
            },
    {
        match self.current_char {
            Some(c) => is_letter(c) || is_digit(c),
            None => false,
        }
    }

    /// Whether the cursor stands on a byte that continues a number: a
    /// digit, or the first decimal point.
    fn on_number_byte(&self, dot_count: u8) -> (r: bool)
        requires
            self.wf(),
        ensures
            r == match byte_at(self.text@, self.pos.idx as int) {
                Some(c) => is_digit_byte(c) || (c == POINT && dot_count == 0),
                None => false,
            },
    {
        match self.current_char {
            Some(c) => is_digit(c) || (c == POINT && dot_count == 0),
            None => false,
        }
    }

    /// Scans the identifier or keyword that starts under the cursor.
    pub fn make_identifier(&mut self) -> (token: Token<'a>)
        requires
            old(self).wf(),
            0 <= old(self).pos.idx < old(self).text@.len(),
            is_letter_byte(old(self).text@[old(self).pos.idx as int]),
        ensures
            final(self).wf(),
            final(self).same_source(old(self)),
            token@ == word_at(old(self).text@, old(self).reserved(), old(self).pos.idx as int),
            token.anchored(old(self).fn_name, old(self).text),
            final(self).pos.idx == token@.end + 1,
    {
        let ghost start = self.pos.idx as int;
        let ghost text = self.text@;
        let ghost before = *self;
        let pos_start = self.pos.snapshot();
        let mut pos_end = self.pos.snapshot();
        let mut word: Vec<u8> = Vec::new();
        proof {
            lemma_word_end(text, start);
            assert(word@ =~= text.subrange(start, start));
        }
        while self.on_word_byte()
            invariant
                self.wf(),
                self.same_source(&before),
                before == *old(self),
                0 <= start == before.pos.idx,
                before.text@ == text,
                start <= self.pos.idx <= text.len(),
                word@ == text.subrange(start, self.pos.idx as int),
                word_end(text, start) == word_end(text, self.pos.idx as int),
                pos_end.locates(before.fn_name, before.text),
                self.pos.idx > start ==> pos_end.idx == self.pos.idx - 1,
            decreases text.len() - self.pos.idx,
        {
            let ch = self.text[self.pos.idx as usize];
            proof {
                assert(text.subrange(start, self.pos.idx as int).push(ch) =~= text.subrange(
                    start,
                    self.pos.idx + 1,
                ));
            }
            word.push(ch);
            pos_end = self.pos.snapshot();
            proof {
                lemma_line_col_bounds(self.text@, self.pos.idx as int);
            }
            self.advance();
        }
        let kind = if is_keyword(self.keywords, word.as_slice()) {
            TokenTypes::Keyword
        } else {
            TokenTypes::Identifier
        };
        new_token(kind, Some(TokenValue::Str(word)), pos_start, pos_end)
    }

    /// Scans the number that starts under the cursor. `None` where it is a
    /// run of digits whose value no `i64` holds.
    pub fn make_number(&mut self) -> (token: Option<Token<'a>>)
        requires
            old(self).wf(),
            0 <= old(self).pos.idx < old(self).text@.len(),
            is_digit_byte(old(self).text@[old(self).pos.idx as int]),
        ensures
            final(self).wf(),
            final(self).same_source(old(self)),
            match token {
                Some(t) => {
                    &&& number_at(old(self).text@, old(self).pos.idx as int) == Scan::Token(t@)
                    &&& t.anchored(old(self).fn_name, old(self).text)
                    &&& final(self).pos.idx == t@.end + 1
                },
                None => {
                    &&& number_at(old(self).text@, old(self).pos.idx as int) == Scan::TooLarge(
                        old(self).pos.idx as int,
                    )
                    &&& final(self).pos.idx == digits_end(
                        old(self).text@,
                        old(self).pos.idx as int,
                    )
                },
            },
    {
        let ghost start = self.pos.idx as int;
        let ghost text = self.text@;
        let ghost before = *self;
        let ghost whole_end = digits_end(text, start);
        let pos_start = self.pos.snapshot();
        let mut pos_end = self.pos.snapshot();
        let mut num_string: Vec<u8> = Vec::new();
        let mut dot_count: u8 = 0;
        proof {
            lemma_digits_end(text, start);
            assert(num_string@ =~= text.subrange(start, start));
        }
        while self.on_number_byte(dot_count)
            invariant
                self.wf(),
                self.same_source(&before),
                before == *old(self),
                0 <= start == before.pos.idx,
                before.text@ == text,
                start <= self.pos.idx <= text.len(),
                dot_count <= 1,
                start < whole_end == digits_end(text, start),
                num_string@ == text.subrange(start, self.pos.idx as int),
                pos_end.locates(before.fn_name, before.text),
                self.pos.idx > start ==> pos_end.idx == self.pos.idx - 1,
                dot_count == 0 ==> whole_end == digits_end(text, self.pos.idx as int),
                dot_count == 0 ==> forall|k: int|
                    start <= k < self.pos.idx ==> is_digit_byte(#[trigger] text[k]),
                dot_count == 1 ==> {
                    &&& start < whole_end < self.pos.idx
                    &&& text[whole_end] == POINT
                    &&& digits_end(text, whole_end + 1) == digits_end(text, self.pos.idx as int)
                },
            decreases text.len() - self.pos.idx,
        {
            let ch = self.text[self.pos.idx as usize];
            proof {
                assert(text.subrange(start, self.pos.idx as int).push(ch) =~= text.subrange(
                    start,
                    self.pos.idx + 1,
                ));
            }
            if ch == POINT {
                dot_count = 1;
            }
            num_string.push(ch);
            pos_end = self.pos.snapshot();
            proof {
                lemma_line_col_bounds(self.text@, self.pos.idx as int);
            }
            self.advance();
        }
        if dot_count == 1 {
            Some(new_token(TokenTypes::Float, Some(TokenValue::Float(num_string)), pos_start, pos_end))
        } else {
            match parse_decimal(num_string.as_slice()) {
                Some(value) => Some(
                    new_token(TokenTypes::Int, Some(TokenValue::Integer(value)), pos_start, pos_end),
                ),
                None => None,
            }
        }
    }

    /// Scans the string literal whose opening quote stands under the
    /// cursor. Without a closing quote the error names the opening one.
    pub fn make_string(&mut self) -> (r: Result<Token<'a>, LexError<'a>>)
        requires
            old(self).wf(),
            0 <= old(self).pos.idx < old(self).text@.len(),
            old(self).text@[old(self).pos.idx as int] == QUOTE,
        ensures
            final(self).wf(),
            final(self).same_source(old(self)),
            match r {
                Ok(t) => {
                    &&& string_at(old(self).text@, old(self).pos.idx as int) == Scan::Token(t@)
                    &&& t.anchored(old(self).fn_name, old(self).text)
                    &&& final(self).pos.idx == t@.end + 1
                },
                Err(e) => {
                    &&& string_at(old(self).text@, old(self).pos.idx as int) == Scan::Illegal(e@)
                    &&& e.pos.locates(old(self).fn_name, old(self).text)
                    &&& final(self).pos.idx == old(self).text@.len()
                },
            },
    {
        let ghost start = self.pos.idx as int;
        let ghost text = self.text@;
        let ghost before = *self;
        let pos_start = self.pos.snapshot();
        let mut content: Vec<u8> = Vec::new();
        proof {
            lemma_line_col_bounds(self.text@, self.pos.idx as int);
        }
        self.advance();
        proof {
            assert(string_payload(text, start + 1) =~= content@ + string_payload(text, start + 1));
        }
        loop
            invariant
                self.wf(),
                self.same_source(&before),
                before == *old(self),
                0 <= start == before.pos.idx,
                before.text@ == text,
                pos_start.locates(before.fn_name, before.text),
                pos_start.idx == start,
                start < self.pos.idx <= text.len(),
                string_close(text, start + 1) == string_close(text, self.pos.idx as int),
                string_payload(text, start + 1) == content@ + string_payload(
                    text,
                    self.pos.idx as int,
                ),
            decreases text.len() - self.pos.idx,
        {
            match self.current_char {
                None => {
                    return Err(LexError { character: None, pos: pos_start });
                },
                Some(ch) => {
                    if ch == QUOTE {
                        let pos_end = self.pos.snapshot();
                        proof {
                            lemma_line_col_bounds(self.text@, self.pos.idx as int);
                        }
                        self.advance();
                        proof {
                            assert(content@ + Seq::<u8>::empty() =~= content@);
                        }
                        return Ok(
                            new_token(
                                TokenTypes::String,
                                Some(TokenValue::Str(content)),
                                pos_start,
                                pos_end,
                            ),
                        );
                    } else if ch == BACKSLASH {
                        proof {
                            lemma_line_col_bounds(self.text@, self.pos.idx as int);
                        }
                        self.advance();
                        match self.current_char {
                            None => {
                                return Err(LexError { character: None, pos: pos_start });
                            },
                            Some(escaped) => {
                                let ghost tail = string_payload(text, self.pos.idx + 1);
                                proof {
                                    assert(content@ + (seq![unescaped(escaped)] + tail)
                                        =~= content@.push(unescaped(escaped)) + tail);
                                }
                                content.push(unescape(escaped));
                                proof {
                                    lemma_line_col_bounds(self.text@, self.pos.idx as int);
                                }
                                self.advance();
                            },
                        }
                    } else {
                        let ghost tail = string_payload(text, self.pos.idx + 1);
                        proof {
                            assert(content@ + (seq![ch] + tail) =~= content@.push(ch) + tail);
                        }
                        content.push(ch);
                        proof {
                            lemma_line_col_bounds(self.text@, self.pos.idx as int);
                        }
                        self.advance();
                    }
                },
            }
        }
    }

    /// Scans the fixed symbol that starts under the cursor, the longest
    /// that matches. A byte that starts none is the error, and is passed.
    pub fn make_symbol(&mut self) -> (r: Result<Token<'a>, LexError<'a>>)
        requires
            old(self).wf(),
            0 <= old(self).pos.idx < old(self).text@.len(),
        ensures
            final(self).wf(),
            final(self).same_source(old(self)),
            match r {
                Ok(t) => {
                    &&& symbol_at(old(self).text@, old(self).pos.idx as int) == Scan::Token(t@)
                    &&& t.anchored(old(self).fn_name, old(self).text)
                    &&& final(self).pos.idx == t@.end + 1
                },
                Err(e) => {
                    &&& symbol_at(old(self).text@, old(self).pos.idx as int) == Scan::Illegal(e@)
                    &&& e.pos.locates(old(self).fn_name, old(self).text)
                    &&& final(self).pos.idx == old(self).pos.idx + 1
                },
            },
    {
        let first = self.text[self.pos.idx as usize];
        let second = self.peek();
        let pos_start = self.pos.snapshot();
        match symbol(first, second) {
            Some((kind, width)) => {
                if width == 2 {
                    proof {
                        lemma_line_col_bounds(self.text@, self.pos.idx as int);
                    }
                    self.advance();
                }
                let pos_end = self.pos.snapshot();
                proof {
                    lemma_line_col_bounds(self.text@, self.pos.idx as int);
                }
                self.advance();
                Ok(new_token(kind, None, pos_start, pos_end))
            },
            None => {
                proof {
                    lemma_line_col_bounds(self.text@, self.pos.idx as int);
                }
                self.advance();
                Err(LexError { character: Some(first), pos: pos_start })
            },
        }
    }

    /// Scans the text from the cursor to its end. `Some(Ok(..))` holds the
    /// tokens, the end marker last; `Some(Err(..))` the first error; `None`
    /// says that a run of digits has a value that no `i64` holds. After
    /// success the cursor stands behind the text (where it stood, if that
    /// was further behind: the end marker then stands there), after an
    /// illegal byte behind that byte, after an unterminated string behind
    /// the text, after an oversized run of digits behind that run.
    pub fn try_make_tokens(&mut self) -> (r: Option<Result<Vec<Token<'a>>, LexError<'a>>>)
        requires
            old(self).wf(),
            old(self).pos.idx >= 0,
        ensures
            final(self).wf(),
            final(self).same_source(old(self)),
            match r {
                Some(Ok(tokens)) => {
                    &&& lex_from(old(self).text@, old(self).reserved(), old(self).pos.idx as int)
                        == Outcome::Tokens(token_views(tokens@))
                    &&& forall|k: int|
                        0 <= k < tokens@.len() ==> (#[trigger] tokens@[k]).anchored(
                            old(self).fn_name,
                            old(self).text,
                        )
                    &&& final(self).pos.idx == if old(self).pos.idx > old(self).text@.len() {
                        old(self).pos.idx as int
                    } else {
                        old(self).text@.len() as int
                    }
                },
                Some(Err(e)) => {
                    &&& lex_from(old(self).text@, old(self).reserved(), old(self).pos.idx as int)
                        == Outcome::Illegal(e@)
                    &&& e.pos.locates(old(self).fn_name, old(self).text)
                    &&& final(self).pos.idx == if e.character is Some {
                        e.pos.idx + 1
                    } else {
                        old(self).text@.len() as int
                    }
                },
                None => {
                    &&& lex_from(old(self).text@, old(self).reserved(), old(self).pos.idx as int)
                        matches Outcome::TooLarge(at)
                    &&& final(self).pos.idx == digits_end(old(self).text@, at)
                },
            },
    {
        let ghost start = self.pos.idx as int;
        let ghost text = self.text@;
        let ghost reserved = self.reserved();
        let ghost before = *self;
        let mut tokens: Vec<Token<'a>> = Vec::new();
        proof {
            assert(token_views(tokens@) =~= Seq::empty());
            let rest = lex_from(text, reserved, start);
            match rest {
                Outcome::Tokens(more) => {
                    assert(Seq::<TokenView>::empty() + more =~= more);
                },
                _ => {},
            }
        }
        loop
            invariant
                self.wf(),
                self.same_source(&before),
                before == *old(self),
                0 <= start == before.pos.idx,
                before.text@ == text,
                before.reserved() == reserved,
                start <= self.pos.idx,
                self.pos.idx <= text.len() || self.pos.idx == start,
                lex_from(text, reserved, start) == prepend(
                    token_views(tokens@),
                    lex_from(text, reserved, self.pos.idx as int),
                ),
                forall|k: int|
                    0 <= k < tokens@.len() ==> (#[trigger] tokens@[k]).anchored(
                        before.fn_name,
                        before.text,
                    ),
            decreases text.len() - self.pos.idx,
        {
            let ghost here = self.pos.idx as int;
            let ghost made = tokens@;
            match self.current_char {
                None => {
                    let end = self.pos.snapshot();
                    let marker = new_token(TokenTypes::EOF, None, end, end);
                    proof {
                        assert(token_views(made) + seq![marker@] =~= token_views(made.push(marker)));
                    }
                    tokens.push(marker);
                    return Some(Ok(tokens));
                },
                Some(ch) => {
                    proof {
                        lemma_token_extent(text, reserved, here);
                    }
                    if is_blank(ch) {
                        proof {
                            lemma_line_col_bounds(self.text@, self.pos.idx as int);
                        }
                        self.advance();
                    } else if is_letter(ch) {
                        let token = self.make_identifier();
                        proof {
                            lemma_extend(made, token, lex_from(text, reserved, token@.end + 1));
                        }
                        tokens.push(token);
                    } else if is_digit(ch) {
                        match self.make_number() {
                            Some(token) => {
                                proof {
                                    lemma_extend(
                                        made,
                                        token,
                                        lex_from(text, reserved, token@.end + 1),
                                    );
                                }
                                tokens.push(token);
                            },
                            None => {
                                return None;
                            },
                        }
                    } else if ch == LINE_FEED || ch == SEMICOLON {
                        let at = self.pos.snapshot();
                        let token = new_token(TokenTypes::Newline, None, at, at);
                        proof {
                            lemma_line_col_bounds(self.text@, self.pos.idx as int);
                        }
                        self.advance();
                        proof {
                            lemma_extend(made, token, lex_from(text, reserved, token@.end + 1));
                        }
                        tokens.push(token);
                    } else if ch == QUOTE {
                        match self.make_string() {
                            Ok(token) => {
                                proof {
                                    lemma_extend(
                                        made,
                                        token,
                                        lex_from(text, reserved, token@.end + 1),
                                    );
                                }
                                tokens.push(token);
                            },
                            Err(e) => {
                                return Some(Err(e));
                            },
                        }
                    } else {
                        match self.make_symbol() {
                            Ok(token) => {
                                proof {
                                    lemma_extend(
                                        made,
                                        token,
                                        lex_from(text, reserved, token@.end + 1),
                                    );
                                }
                                tokens.push(token);
                            },
                            Err(e) => {
                                return Some(Err(e));
                            },
                        }
                    }
                },
            }
        }
    }

    /// Scans the text from the cursor to its end: the tokens, the end
    /// marker last, or the first error.
    pub fn make_tokens(&mut self) -> (r: Result<Vec<Token<'a>>, LexError<'a>>)
        requires
            old(self).wf(),
            old(self).pos.idx >= 0,
            !(lex_from(old(self).text@, old(self).reserved(), old(self).pos.idx as int)
                is TooLarge),
        ensures
            final(self).wf(),
            final(self).same_source(old(self)),
            match r {
                Ok(tokens) => {
                    &&& lex_from(old(self).text@, old(self).reserved(), old(self).pos.idx as int)
                        == Outcome::Tokens(token_views(tokens@))
                    &&& forall|k: int|
                        0 <= k < tokens@.len() ==> (#[trigger] tokens@[k]).anchored(
                            old(self).fn_name,
                            old(self).text,
                        )
                    &&& final(self).pos.idx == if old(self).pos.idx > old(self).text@.len() {
                        old(self).pos.idx as int
                    } else {
                        old(self).text@.len() as int
                    }
                },
                Err(e) => {
                    &&& lex_from(old(self).text@, old(self).reserved(), old(self).pos.idx as int)
                        == Outcome::Illegal(e@)
                    &&& e.pos.locates(old(self).fn_name, old(self).text)
                    &&& final(self).pos.idx == if e.character is Some {
                        e.pos.idx + 1
                    } else {
                        old(self).text@.len() as int
                    }
                },
            },
    {
        match self.try_make_tokens() {
            Some(r) => r,
            None => vstd::pervasive::unreached(),
        }
    }
}

} // verus!
