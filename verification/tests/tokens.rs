use script_lexer::new_lexer;
use script_lexer::LexError;
use script_lexer::Token;
use script_lexer::TokenTypes;
use script_lexer::TokenValue;

const KEYWORDS: [&[u8]; 3] = [b"if", b"while", b"fun"];

fn scan<'a>(text: &'a [u8]) -> Result<Vec<Token<'a>>, LexError<'a>> {
    let mut lexer = new_lexer("script", text, &KEYWORDS);
    lexer.try_make_tokens().expect("an integer literal exceeds the 64-bit range")
}

fn kinds(text: &[u8]) -> Vec<TokenTypes> {
    scan(text).unwrap().iter().map(|t| t.kind).collect()
}

fn float_of(token: &Token) -> f64 {
    match &token.value {
        Some(TokenValue::Float(literal)) => {
            std::str::from_utf8(literal).unwrap().parse::<f64>().unwrap()
        }
        other => panic!("not a float: {:?}", other),
    }
}

#[test]
fn empty_text_gives_only_the_end_marker() {
    let tokens = scan(b"").unwrap();
    assert_eq!(tokens.len(), 1);
    assert_eq!(tokens[0].kind, TokenTypes::EOF);
    assert_eq!(tokens[0].value, None);
    assert_eq!(tokens[0].pos_start.idx, 0);
    assert_eq!(tokens[0].pos_end.idx, 0);
}

#[test]
fn blanks_and_newlines_give_newline_tokens_only() {
    assert_eq!(
        kinds(b"  \n\t \r\n ;  \n"),
        vec![
            TokenTypes::Newline,
            TokenTypes::Newline,
            TokenTypes::Newline,
            TokenTypes::Newline,
            TokenTypes::EOF
        ]
    );
    assert_eq!(kinds(b"    \t\r "), vec![TokenTypes::EOF]);
}

#[test]
fn integer_literal() {
    let tokens = scan(b"123").unwrap();
    assert_eq!(tokens.len(), 2);
    assert_eq!(tokens[0].kind, TokenTypes::Int);
    assert_eq!(tokens[0].value, Some(TokenValue::Integer(123)));
    assert_eq!(tokens[0].pos_start.idx, 0);
    assert_eq!(tokens[0].pos_end.idx, 2);
    assert_eq!(tokens[1].kind, TokenTypes::EOF);
    assert_eq!(tokens[1].pos_start.idx, 3);
}

#[test]
fn integer_literal_with_leading_zeros() {
    let tokens = scan(b"007").unwrap();
    assert_eq!(tokens[0].value, Some(TokenValue::Integer(7)));
    assert_eq!(tokens[0].pos_end.idx - tokens[0].pos_start.idx + 1, 3);
}

#[test]
fn largest_integer_literal() {
    let tokens = scan(b"9223372036854775807").unwrap();
    assert_eq!(tokens[0].value, Some(TokenValue::Integer(i64::MAX)));
}

#[test]
fn integer_literal_beyond_the_range_is_reported() {
    let mut lexer = new_lexer("script", b"9223372036854775808", &KEYWORDS);
    assert!(lexer.try_make_tokens().is_none());
    let mut lexer = new_lexer("script", b"x = 99999999999999999999999 + 1", &KEYWORDS);
    assert!(lexer.try_make_tokens().is_none());
    assert_eq!(lexer.pos.idx, 27);
}

#[test]
fn cursor_after_a_scan() {
    let mut lexer = new_lexer("script", b"a + b", &KEYWORDS);
    assert!(lexer.make_tokens().is_ok());
    assert_eq!(lexer.pos.idx, 5);
    assert_eq!(lexer.current_char, None);

    let mut lexer = new_lexer("script", b"a $ b", &KEYWORDS);
    assert!(lexer.make_tokens().is_err());
    assert_eq!(lexer.pos.idx, 3);

    let mut lexer = new_lexer("script", b"a \"bc", &KEYWORDS);
    assert!(lexer.make_tokens().is_err());
    assert_eq!(lexer.pos.idx, 5);
}

#[test]
fn error_before_an_oversized_integer_wins() {
    let err = scan(b"$ 99999999999999999999999").unwrap_err();
    assert_eq!(err.character, Some(b'$'));
}

#[test]
fn float_literal() {
    let tokens = scan(b"123.45").unwrap();
    assert_eq!(tokens.len(), 2);
    assert_eq!(tokens[0].kind, TokenTypes::Float);
    assert_eq!(tokens[0].value, Some(TokenValue::Float(b"123.45".to_vec())));
    assert_eq!(float_of(&tokens[0]), 123.45);
    assert_eq!(tokens[0].pos_start.idx, 0);
    assert_eq!(tokens[0].pos_end.idx, 5);
}

#[test]
fn float_literal_with_many_digits_is_no_integer_overflow() {
    let tokens = scan(b"1.99999999999999999999999").unwrap();
    assert_eq!(tokens[0].kind, TokenTypes::Float);
}

#[test]
fn second_decimal_point_ends_the_number() {
    let tokens = scan(b"1.2.3").unwrap();
    assert_eq!(tokens.len(), 4);
    assert_eq!(tokens[0].kind, TokenTypes::Float);
    assert_eq!(float_of(&tokens[0]), 1.2);
    assert_eq!((tokens[0].pos_start.idx, tokens[0].pos_end.idx), (0, 2));
    assert_eq!(tokens[1].kind, TokenTypes::Dot);
    assert_eq!(tokens[1].value, None);
    assert_eq!((tokens[1].pos_start.idx, tokens[1].pos_end.idx), (3, 3));
    assert_eq!(tokens[2].kind, TokenTypes::Int);
    assert_eq!(tokens[2].value, Some(TokenValue::Integer(3)));
    assert_eq!((tokens[2].pos_start.idx, tokens[2].pos_end.idx), (4, 4));
    assert_eq!(tokens[3].kind, TokenTypes::EOF);
}

#[test]
fn trailing_decimal_point_belongs_to_the_number() {
    let tokens = scan(b"1. x").unwrap();
    assert_eq!(tokens[0].kind, TokenTypes::Float);
    assert_eq!(tokens[0].value, Some(TokenValue::Float(b"1.".to_vec())));
    assert_eq!(float_of(&tokens[0]), 1.0);
    assert_eq!(tokens[1].kind, TokenTypes::Identifier);
}

#[test]
fn identifier_is_not_a_keyword() {
    let tokens = scan(b"foo_1").unwrap();
    assert_eq!(tokens.len(), 2);
    assert_eq!(tokens[0].kind, TokenTypes::Identifier);
    assert_eq!(tokens[0].value, Some(TokenValue::Str(b"foo_1".to_vec())));
    assert_eq!((tokens[0].pos_start.idx, tokens[0].pos_end.idx), (0, 4));
}

#[test]
fn identifier_may_start_with_an_underscore() {
    let tokens = scan(b"_x9 Zz").unwrap();
    assert_eq!(tokens[0].kind, TokenTypes::Identifier);
    assert_eq!(tokens[0].value, Some(TokenValue::Str(b"_x9".to_vec())));
    assert_eq!(tokens[1].value, Some(TokenValue::Str(b"Zz".to_vec())));
}

#[test]
fn reserved_word_is_a_keyword() {
    let tokens = scan(b"if").unwrap();
    assert_eq!(tokens.len(), 2);
    assert_eq!(tokens[0].kind, TokenTypes::Keyword);
    assert_eq!(tokens[0].value, Some(TokenValue::Str(b"if".to_vec())));
    let tokens = scan(b"iff while").unwrap();
    assert_eq!(tokens[0].kind, TokenTypes::Identifier);
    assert_eq!(tokens[1].kind, TokenTypes::Keyword);
}

#[test]
fn keywords_are_what_the_caller_supplies() {
    let none: [&[u8]; 0] = [];
    let mut lexer = new_lexer("script", b"if", &none);
    let tokens = lexer.make_tokens().unwrap();
    assert_eq!(tokens[0].kind, TokenTypes::Identifier);
}

#[test]
fn string_literal() {
    let tokens = scan(b"\"hello\"").unwrap();
    assert_eq!(tokens.len(), 2);
    assert_eq!(tokens[0].kind, TokenTypes::String);
    assert_eq!(tokens[0].value, Some(TokenValue::Str(b"hello".to_vec())));
    assert_eq!((tokens[0].pos_start.idx, tokens[0].pos_end.idx), (0, 6));
}

#[test]
fn string_escapes_are_resolved() {
    let tokens = scan(b"\"a\\\"b\\\\c\\nd\\te\\q\" x").unwrap();
    assert_eq!(tokens[0].kind, TokenTypes::String);
    assert_eq!(tokens[0].value, Some(TokenValue::Str(b"a\"b\\c\nd\teq".to_vec())));
    assert_eq!((tokens[0].pos_start.idx, tokens[0].pos_end.idx), (0, 16));
    assert_eq!(tokens[1].kind, TokenTypes::Identifier);
}

#[test]
fn empty_string_literal() {
    let tokens = scan(b"\"\"").unwrap();
    assert_eq!(tokens[0].value, Some(TokenValue::Str(Vec::new())));
    assert_eq!((tokens[0].pos_start.idx, tokens[0].pos_end.idx), (0, 1));
}

#[test]
fn unterminated_string_reports_its_opening_quote() {
    let err = scan(b"\"unterminated").unwrap_err();
    assert_eq!(err.character, None);
    assert_eq!((err.pos.idx, err.pos.ln, err.pos.col), (0, 0, 0));
    assert_eq!(err.message(), "Unterminated string literal");

    let err = scan(b"x\n  \"abc\\").unwrap_err();
    assert_eq!(err.character, None);
    assert_eq!((err.pos.idx, err.pos.ln, err.pos.col), (4, 1, 2));

    let err = scan(b"\"abc\\\"").unwrap_err();
    assert_eq!(err.pos.idx, 0);
}

#[test]
fn longest_symbol_wins() {
    let cases: [(&[u8], TokenTypes, i64); 7] = [
        (b"==", TokenTypes::EE, 1),
        (b"=", TokenTypes::Eq, 0),
        (b"!=", TokenTypes::NE, 1),
        (b"<=", TokenTypes::LTE, 1),
        (b"<", TokenTypes::LT, 0),
        (b"->", TokenTypes::Arrow, 1),
        (b"-", TokenTypes::Minus, 0),
    ];
    for (text, kind, end) in cases {
        let tokens = scan(text).unwrap();
        assert_eq!(tokens.len(), 2);
        assert_eq!(tokens[0].kind, kind);
        assert_eq!(tokens[0].value, None);
        assert_eq!(tokens[0].pos_start.idx, 0);
        assert_eq!(tokens[0].pos_end.idx, end);
        assert_eq!(tokens[1].kind, TokenTypes::EOF);
    }
}

#[test]
fn every_fixed_symbol() {
    assert_eq!(
        kinds(b"+ - * / ^ = ( ) [ ] { } , . & == != < > <= >= ->"),
        vec![
            TokenTypes::Plus,
            TokenTypes::Minus,
            TokenTypes::Star,
            TokenTypes::Div,
            TokenTypes::Pow,
            TokenTypes::Eq,
            TokenTypes::Lparen,
            TokenTypes::Rparen,
            TokenTypes::Lsquare,
            TokenTypes::Rsquare,
            TokenTypes::Lbrace,
            TokenTypes::Rbrace,
            TokenTypes::Comma,
            TokenTypes::Dot,
            TokenTypes::And,
            TokenTypes::EE,
            TokenTypes::NE,
            TokenTypes::LT,
            TokenTypes::GT,
            TokenTypes::LTE,
            TokenTypes::GTE,
            TokenTypes::Arrow,
            TokenTypes::EOF
        ]
    );
}

#[test]
fn symbols_without_blanks_between_them() {
    assert_eq!(
        kinds(b"===>=-->"),
        vec![
            TokenTypes::EE,
            TokenTypes::Eq,
            TokenTypes::GTE,
            TokenTypes::Minus,
            TokenTypes::Arrow,
            TokenTypes::EOF
        ]
    );
}

#[test]
fn unclassified_character_is_an_error_at_its_position() {
    let err = scan(b"$").unwrap_err();
    assert_eq!(err.character, Some(b'$'));
    assert_eq!((err.pos.idx, err.pos.ln, err.pos.col), (0, 0, 0));
    assert_eq!(err.pos.fn_name, "script");
    assert_eq!(err.pos.ftxt, b"$");
    assert_eq!(err.message(), "Illegal character");

    let err = scan(b"a = 1\nb = @").unwrap_err();
    assert_eq!(err.character, Some(b'@'));
    assert_eq!((err.pos.idx, err.pos.ln, err.pos.col), (10, 1, 4));
}

#[test]
fn lone_bang_is_an_error() {
    let err = scan(b"a ! b").unwrap_err();
    assert_eq!(err.character, Some(b'!'));
    assert_eq!((err.pos.idx, err.pos.ln, err.pos.col), (2, 0, 2));
    let err = scan(b"!").unwrap_err();
    assert_eq!(err.character, Some(b'!'));
}

#[test]
fn first_error_stops_the_scan() {
    let err = scan(b"1 # 2 $ \"open").unwrap_err();
    assert_eq!(err.character, Some(b'#'));
    assert_eq!(err.pos.idx, 2);
}

#[test]
fn lines_and_columns_are_tracked() {
    let tokens = scan(b"ab\n  cd;e").unwrap();
    let places: Vec<(TokenTypes, i64, i32, i32, i64, i32, i32)> = tokens
        .iter()
        .map(|t| {
            (
                t.kind,
                t.pos_start.idx,
                t.pos_start.ln,
                t.pos_start.col,
                t.pos_end.idx,
                t.pos_end.ln,
                t.pos_end.col,
            )
        })
        .collect();
    assert_eq!(
        places,
        vec![
            (TokenTypes::Identifier, 0, 0, 0, 1, 0, 1),
            (TokenTypes::Newline, 2, 0, 2, 2, 0, 2),
            (TokenTypes::Identifier, 5, 1, 2, 6, 1, 3),
            (TokenTypes::Newline, 7, 1, 4, 7, 1, 4),
            (TokenTypes::Identifier, 8, 1, 5, 8, 1, 5),
            (TokenTypes::EOF, 9, 1, 6, 9, 1, 6),
        ]
    );
}

#[test]
fn token_extent_matches_its_literal() {
    let text: &[u8] = b"if x1 >= 10.5 -> \"a\\nb\" ; 42";
    let literals: [&[u8]; 8] = [b"if", b"x1", b">=", b"10.5", b"->", b"\"a\\nb\"", b";", b"42"];
    let tokens = scan(text).unwrap();
    assert_eq!(tokens.len(), literals.len() + 1);
    for (token, literal) in tokens.iter().zip(literals.iter()) {
        let start = token.pos_start.idx as usize;
        let end = token.pos_end.idx as usize;
        assert_eq!(end - start + 1, literal.len());
        assert_eq!(&text[start..=end], *literal);
    }
    let last = &tokens[tokens.len() - 1];
    assert_eq!(last.kind, TokenTypes::EOF);
    assert_eq!(last.pos_start, last.pos_end);
    assert_eq!(last.pos_start.idx, text.len() as i64);
}

#[test]
fn positions_keep_the_source() {
    let tokens = scan(b"a b").unwrap();
    for token in tokens.iter() {
        assert_eq!(token.pos_start.fn_name, "script");
        assert_eq!(token.pos_start.ftxt, b"a b");
        assert_eq!(token.pos_end.fn_name, "script");
        assert_eq!(token.pos_end.ftxt, b"a b");
    }
}

#[test]
fn a_small_program() {
    let tokens = scan(b"fun add(a, b) -> a + b\nx = add(1, 2.5)").unwrap();
    let got: Vec<TokenTypes> = tokens.iter().map(|t| t.kind).collect();
    assert_eq!(
        got,
        vec![
            TokenTypes::Keyword,
            TokenTypes::Identifier,
            TokenTypes::Lparen,
            TokenTypes::Identifier,
            TokenTypes::Comma,
            TokenTypes::Identifier,
            TokenTypes::Rparen,
            TokenTypes::Arrow,
            TokenTypes::Identifier,
            TokenTypes::Plus,
            TokenTypes::Identifier,
            TokenTypes::Newline,
            TokenTypes::Identifier,
            TokenTypes::Eq,
            TokenTypes::Identifier,
            TokenTypes::Lparen,
            TokenTypes::Int,
            TokenTypes::Comma,
            TokenTypes::Float,
            TokenTypes::Rparen,
            TokenTypes::EOF,
        ]
    );
}
