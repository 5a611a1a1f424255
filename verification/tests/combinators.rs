use chumsky::error::Simple;
use chumsky::primitive::{choice, end, just};
use chumsky::text::{digits, ident, TextParser};
use chumsky::Parser;
use foo_lang::lexer::lexer;
use foo_lang::token::Token;

/// The lexical grammar once more, put together from parser combinators.
fn combined() -> impl Parser<char, Vec<Token>, Error = Simple<char>> {
    let word = ident::<char, Simple<char>>().map(|s: String| match s.as_str() {
        "fn" => Token::Fn,
        "let" => Token::Let,
        _ => Token::Ident(s),
    });
    let real = digits::<char, Simple<char>>(10)
        .chain::<char, _, _>(just('.'))
        .chain::<char, _, _>(digits(10))
        .collect::<String>()
        .map(Token::Num);
    let int = digits::<char, Simple<char>>(10).map(Token::Num);
    let symbol = choice((
        just('+').to(Token::Plus),
        just('-').to(Token::Minus),
        just('*').to(Token::Times),
        just('/').to(Token::Div),
        just(',').to(Token::Comma),
        just('=').to(Token::Eq),
        just('(').to(Token::OpenParen),
        just(')').to(Token::CloseParen),
        just(';').to(Token::Semi),
    ));
    choice((word, real, int, symbol)).padded().repeated().padded().then_ignore(end())
}

fn agree(grammar: &impl Parser<char, Vec<Token>, Error = Simple<char>>, text: &str) {
    let ours = lexer(text);
    let theirs = grammar.parse(text);
    match (ours, theirs) {
        (Ok(a), Ok(b)) => assert_eq!(a, b, "tokens of {:?}", text),
        (Err(_), Err(_)) => {}
        (a, b) => panic!("{:?}: {:?} against {:?}", text, a, b.is_ok()),
    }
}

#[test]
fn combinators_read_the_same_programs() {
    let grammar = combined();
    let programs = [
        "",
        "   ",
        "2 + 3 * 4",
        "(2 + 3) * 4",
        "- - 5",
        "let x = 5; x + 1",
        "let x = 1; let x = 2; x",
        "fn add a b = a + b; add(2, 3)",
        "fn add a b = a + b; add(1)",
        "f(1, 2,)",
        "fn fact n = n; fact(5)",
        "3.14 * r * r",
        "1.2.3",
        "3.",
        ".5",
        "x.y",
        "12abc",
        "007",
        "1 2",
        "fnord letter fn let _fn let_",
        "a\tb\nc\r\nd",
        "a\u{a0}b\u{2003}c\u{3000}",
        "1 $ 2",
        "\u{3b1} + 1",
        "x = [1]",
    ];
    for text in programs {
        agree(&grammar, text);
    }
}

#[test]
fn combinators_read_the_same_short_texts() {
    let grammar = combined();
    let alphabet = ['f', 'n', 'l', 'e', 't', '_', 'A', '0', '7', '.', ' ', '\n', '+', '(', '$'];
    let mut texts: Vec<String> = vec![String::new()];
    let mut from = 0;
    for _ in 0..4 {
        let upto = texts.len();
        for i in from..upto {
            for c in alphabet {
                let mut longer = texts[i].clone();
                longer.push(c);
                texts.push(longer);
            }
        }
        from = upto;
    }
    assert_eq!(texts.len(), 1 + 15 + 225 + 3375 + 50625);
    for text in &texts {
        agree(&grammar, text);
    }
}
