use foo_lang::lexer::{lex_chars, lexer, lexer_with_spans, LexError, Span};
use foo_lang::token::Token;

fn num(text: &str) -> Token {
    Token::Num(text.to_string())
}

fn ident(name: &str) -> Token {
    Token::Ident(name.to_string())
}

#[test]
fn empty_input_has_no_tokens() {
    assert_eq!(lexer(""), Ok(vec![]));
    assert_eq!(lexer("  \t\r\n "), Ok(vec![]));
}

#[test]
fn lexes_a_declaration() {
    assert_eq!(
        lexer("let x = 3.14;"),
        Ok(vec![Token::Let, ident("x"), Token::Eq, num("3.14"), Token::Semi])
    );
}

#[test]
fn lexes_every_symbol() {
    assert_eq!(
        lexer("+-*/,=();"),
        Ok(vec![
            Token::Plus,
            Token::Minus,
            Token::Times,
            Token::Div,
            Token::Comma,
            Token::Eq,
            Token::OpenParen,
            Token::CloseParen,
            Token::Semi,
        ])
    );
}

#[test]
fn keywords_are_whole_words() {
    assert_eq!(lexer("fn"), Ok(vec![Token::Fn]));
    assert_eq!(lexer("let"), Ok(vec![Token::Let]));
    assert_eq!(lexer("fnord"), Ok(vec![ident("fnord")]));
    assert_eq!(lexer("letter"), Ok(vec![ident("letter")]));
    assert_eq!(lexer("f"), Ok(vec![ident("f")]));
    assert_eq!(lexer("le"), Ok(vec![ident("le")]));
    assert_eq!(lexer("Fn Let"), Ok(vec![ident("Fn"), ident("Let")]));
    assert_eq!(lexer("fn let"), Ok(vec![Token::Fn, Token::Let]));
}

#[test]
fn identifiers_hold_letters_digits_and_underscores() {
    assert_eq!(lexer("_x1 a_b Z9_"), Ok(vec![ident("_x1"), ident("a_b"), ident("Z9_")]));
    assert_eq!(lexer("_"), Ok(vec![ident("_")]));
}

#[test]
fn a_number_keeps_its_text() {
    assert_eq!(lexer("0"), Ok(vec![num("0")]));
    assert_eq!(lexer("42"), Ok(vec![num("42")]));
    assert_eq!(lexer("007"), Ok(vec![num("007")]));
    assert_eq!(lexer("3.14"), Ok(vec![num("3.14")]));
    assert_eq!(lexer("0.50"), Ok(vec![num("0.50")]));
    assert_ne!(lexer("1.0"), lexer("1"));
}

#[test]
fn a_point_needs_a_digit_on_each_side() {
    assert_eq!(lexer("3."), Err(LexError { position: 1 }));
    assert_eq!(lexer(".5"), Err(LexError { position: 0 }));
    assert_eq!(lexer("3.x"), Err(LexError { position: 1 }));
    assert_eq!(lexer("1.2.3"), Err(LexError { position: 3 }));
}

#[test]
fn a_number_ends_where_a_word_starts() {
    assert_eq!(lexer("12abc"), Ok(vec![num("12"), ident("abc")]));
    assert_eq!(lexer("abc12"), Ok(vec![ident("abc12")]));
}

#[test]
fn white_space_separates_and_is_dropped() {
    assert_eq!(lexer("1 2"), Ok(vec![num("1"), num("2")]));
    assert_eq!(lexer(" 1\t+\n2 "), Ok(vec![num("1"), Token::Plus, num("2")]));
    assert_eq!(lexer("1+2"), lexer("  1  +  2  "));
    assert_eq!(
        lexer("a\u{a0}b\u{3000}c\u{2003}d"),
        Ok(vec![ident("a"), ident("b"), ident("c"), ident("d")])
    );
    assert_eq!(
        lexer("a\u{85}b\u{1680}c\u{2028}d\u{2029}e\u{202f}f\u{205f}g\u{b}h\u{c}i"),
        lexer("a b c d e f g h i")
    );
}

#[test]
fn white_space_is_what_the_standard_library_calls_so() {
    let mut code: u32 = 0;
    while code < 0x11000 {
        if let Some(c) = char::from_u32(code) {
            let text = format!("a{}b", c);
            let separated = lexer(&text) == Ok(vec![ident("a"), ident("b")]);
            assert_eq!(separated, c.is_whitespace(), "U+{:04X}", code);
        }
        code += 1;
    }
}

#[test]
fn the_error_names_the_first_bad_character() {
    assert_eq!(lexer("1 + $"), Err(LexError { position: 4 }));
    assert_eq!(lexer("$"), Err(LexError { position: 0 }));
    assert_eq!(lexer("a ? b ! c"), Err(LexError { position: 2 }));
    assert_eq!(lexer("x.y"), Err(LexError { position: 1 }));
    assert_eq!(lexer("x = [1]"), Err(LexError { position: 4 }));
}

#[test]
fn the_error_position_counts_characters() {
    assert_eq!(lexer("\u{3000}\u{3000}1 \u{e9}"), Err(LexError { position: 4 }));
    assert_eq!(lexer("\u{e9}"), Err(LexError { position: 0 }));
}

#[test]
fn letters_outside_ascii_start_no_token() {
    assert_eq!(lexer("\u{3b1}"), Err(LexError { position: 0 }));
    assert_eq!(lexer("a\u{3b1}"), Err(LexError { position: 1 }));
    assert_eq!(lexer("\u{661}"), Err(LexError { position: 0 }));
}

#[test]
fn lex_chars_agrees_with_lexer() {
    let text = "fn add a b = a + b; add(2, 3.5)";
    let chars: Vec<char> = text.chars().collect();
    assert_eq!(lex_chars(&chars), lexer(text));
    let bad: Vec<char> = "1 # 2".chars().collect();
    assert_eq!(lex_chars(&bad), Err(LexError { position: 2 }));
}

#[test]
fn canonical_text_of_each_token() {
    assert_eq!(num("3.14").to_string(), "3.14");
    assert_eq!(ident("x_1").to_string(), "x_1");
    assert_eq!(Token::Minus.to_string(), "-");
    assert_eq!(Token::Plus.to_string(), "+");
    assert_eq!(Token::Times.to_string(), "*");
    assert_eq!(Token::Div.to_string(), "/");
    assert_eq!(Token::Fn.to_string(), "fn");
    assert_eq!(Token::Let.to_string(), "let");
    assert_eq!(Token::OpenParen.to_string(), "(");
    assert_eq!(Token::CloseParen.to_string(), ")");
    assert_eq!(Token::Eq.to_string(), "=");
    assert_eq!(Token::Comma.to_string(), ",");
    assert_eq!(Token::Semi.to_string(), ";");
}

#[test]
fn the_text_of_a_token_lexes_to_that_token() {
    let tokens = vec![
        num("0"),
        num("12"),
        num("3.14"),
        num("007.100"),
        ident("x"),
        ident("_"),
        ident("fn_"),
        ident("lets"),
        Token::Minus,
        Token::Plus,
        Token::Times,
        Token::Div,
        Token::Fn,
        Token::Let,
        Token::OpenParen,
        Token::CloseParen,
        Token::Eq,
        Token::Comma,
        Token::Semi,
    ];
    for t in tokens {
        assert_eq!(lexer(&t.to_string()), Ok(vec![t.clone()]));
    }
}

#[test]
fn the_texts_of_lexed_tokens_lex_to_the_same_tokens() {
    let text = "fn area w h = w * h; let s = -2.50; area(s, (s + 1) / 3,)";
    let tokens = lexer(text).unwrap();
    let mut spelled = String::new();
    for t in &tokens {
        spelled.push_str(&t.to_string());
        spelled.push(' ');
    }
    assert_eq!(lexer(&spelled), Ok(tokens));
}

#[test]
fn tokens_are_equal_when_spelled_alike() {
    assert_eq!(num("1.0"), num("1.0"));
    assert_ne!(num("1.0"), num("1.00"));
    assert_ne!(num("1"), ident("1"));
    assert_ne!(Token::Minus, Token::Plus);
}

fn span(start: usize, end: usize) -> Span {
    Span { start, end }
}

#[test]
fn each_token_has_its_span() {
    let (tokens, spans) = lexer_with_spans("let x = 3.14;").unwrap();
    assert_eq!(tokens, vec![Token::Let, ident("x"), Token::Eq, num("3.14"), Token::Semi]);
    assert_eq!(spans, vec![span(0, 3), span(4, 5), span(6, 7), span(8, 12), span(12, 13)]);
    let (tokens, spans) = lexer_with_spans("  f(1,\n\t22 )  ").unwrap();
    assert_eq!(tokens.len(), 6);
    assert_eq!(
        spans,
        vec![span(2, 3), span(3, 4), span(4, 5), span(5, 6), span(8, 10), span(11, 12)]
    );
    assert_eq!(lexer_with_spans(""), Ok((vec![], vec![])));
}

#[test]
fn spans_count_characters() {
    let (tokens, spans) = lexer_with_spans("\u{3000}a\u{a0}\u{2003}bc").unwrap();
    assert_eq!(tokens, vec![ident("a"), ident("bc")]);
    assert_eq!(spans, vec![span(1, 2), span(4, 6)]);
}

#[test]
fn the_text_at_a_span_is_the_text_of_the_token() {
    let text = "fn area w h = w * h; let s = -2.50; area(s, (s + 1) / 3,)";
    let chars: Vec<char> = text.chars().collect();
    let (tokens, spans) = lexer_with_spans(text).unwrap();
    assert_eq!(tokens.len(), spans.len());
    let mut behind = 0;
    for (t, s) in tokens.iter().zip(&spans) {
        assert!(behind <= s.start && s.start < s.end && s.end <= chars.len());
        assert!(chars[behind..s.start].iter().all(|c| c.is_whitespace()));
        let spelled: String = chars[s.start..s.end].iter().collect();
        assert_eq!(spelled, t.to_string());
        behind = s.end;
    }
    assert!(chars[behind..].iter().all(|c| c.is_whitespace()));
}

#[test]
fn lexer_with_spans_agrees_with_lexer() {
    for text in ["1 + 2", "let x = f(y,);", "a $ b", "3.", "", "fn\tfn"] {
        assert_eq!(lexer_with_spans(text).map(|both| both.0), lexer(text));
    }
    assert_eq!(lexer_with_spans("ab ?"), Err(LexError { position: 3 }));
}
