use foo_lang::ast::Expr;
use foo_lang::lexer::lexer;
use foo_lang::parser::{parser, Expected, ParseError};
use foo_lang::token::Token;

fn parse(text: &str) -> Result<Expr, ParseError> {
    parser(&lexer(text).unwrap())
}

fn num(text: &str) -> Expr {
    Expr::Num(text.to_string())
}

fn var(name: &str) -> Expr {
    Expr::Var(name.to_string())
}

fn neg(e: Expr) -> Expr {
    Expr::Neg(Box::new(e))
}

fn add(l: Expr, r: Expr) -> Expr {
    Expr::Add(Box::new(l), Box::new(r))
}

fn sub(l: Expr, r: Expr) -> Expr {
    Expr::Sub(Box::new(l), Box::new(r))
}

fn mul(l: Expr, r: Expr) -> Expr {
    Expr::Mul(Box::new(l), Box::new(r))
}

fn div(l: Expr, r: Expr) -> Expr {
    Expr::Div(Box::new(l), Box::new(r))
}

fn call(name: &str, args: Vec<Expr>) -> Expr {
    Expr::Call(name.to_string(), args)
}

fn let_in(name: &str, rhs: Expr, then: Expr) -> Expr {
    Expr::Let { name: name.to_string(), rhs: Box::new(rhs), then: Box::new(then) }
}

fn fn_in(name: &str, args: &[&str], body: Expr, then: Expr) -> Expr {
    Expr::Fn {
        name: name.to_string(),
        args: args.iter().map(|a| a.to_string()).collect(),
        body: Box::new(body),
        then: Box::new(then),
    }
}

fn failure(position: usize, found: Option<Token>, expected: Expected) -> ParseError {
    ParseError { position, found, expected }
}

#[test]
fn parses_atoms() {
    assert_eq!(parse("42"), Ok(num("42")));
    assert_eq!(parse("3.14"), Ok(num("3.14")));
    assert_eq!(parse("x"), Ok(var("x")));
    assert_eq!(parse("(x)"), Ok(var("x")));
    assert_eq!(parse("((7))"), Ok(num("7")));
}

#[test]
fn a_number_keeps_the_text_of_its_token() {
    assert_eq!(parse("1.50"), Ok(num("1.50")));
    assert_ne!(parse("1.50"), parse("1.5"));
}

#[test]
fn product_binds_tighter_than_sum() {
    assert_eq!(parse("2 + 3 * 4"), Ok(add(num("2"), mul(num("3"), num("4")))));
    assert_eq!(parse("2 * 3 + 4"), Ok(add(mul(num("2"), num("3")), num("4"))));
    assert_eq!(parse("2 - 6 / 3"), Ok(sub(num("2"), div(num("6"), num("3")))));
    assert_eq!(parse("(2 + 3) * 4"), Ok(mul(add(num("2"), num("3")), num("4"))));
}

#[test]
fn operators_fold_to_the_left() {
    assert_eq!(parse("1 - 2 - 3"), Ok(sub(sub(num("1"), num("2")), num("3"))));
    assert_eq!(parse("1 - 2 + 3"), Ok(add(sub(num("1"), num("2")), num("3"))));
    assert_eq!(parse("8 / 4 / 2"), Ok(div(div(num("8"), num("4")), num("2"))));
    assert_eq!(parse("8 / 4 * 2"), Ok(mul(div(num("8"), num("4")), num("2"))));
    assert_eq!(parse("1 - (2 - 3)"), Ok(sub(num("1"), sub(num("2"), num("3")))));
}

#[test]
fn each_minus_sign_wraps_once() {
    assert_eq!(parse("-5"), Ok(neg(num("5"))));
    assert_eq!(parse("- - 5"), Ok(neg(neg(num("5")))));
    assert_eq!(parse("---x"), Ok(neg(neg(neg(var("x"))))));
    assert_eq!(parse("1 - -2"), Ok(sub(num("1"), neg(num("2")))));
    assert_eq!(parse("-1 * -2"), Ok(mul(neg(num("1")), neg(num("2")))));
    assert_eq!(parse("-(1 + 2)"), Ok(neg(add(num("1"), num("2")))));
    assert_eq!(parse("-f(1)"), Ok(neg(call("f", vec![num("1")]))));
}

#[test]
fn parses_calls() {
    assert_eq!(parse("f()"), Ok(call("f", vec![])));
    assert_eq!(parse("f(1)"), Ok(call("f", vec![num("1")])));
    assert_eq!(parse("f(1, 2)"), Ok(call("f", vec![num("1"), num("2")])));
    assert_eq!(
        parse("f(a + 1, g(b), (c))"),
        Ok(call("f", vec![add(var("a"), num("1")), call("g", vec![var("b")]), var("c")]))
    );
    assert_eq!(parse("f(1) * 2"), Ok(mul(call("f", vec![num("1")]), num("2"))));
}

#[test]
fn trailing_comma_in_call_arguments_is_accepted() {
    assert_eq!(parse("f(1, 2,)"), parse("f(1, 2)"));
    assert_eq!(parse("f(1, 2,)"), Ok(call("f", vec![num("1"), num("2")])));
    assert_eq!(parse("f(1,)"), Ok(call("f", vec![num("1")])));
    assert_eq!(parse("f(g(1,),)"), parse("f(g(1))"));
}

#[test]
fn a_comma_needs_an_argument_before_it() {
    assert_eq!(parse("f(,)"), Err(failure(2, Some(Token::Comma), Expected::Expression)));
    assert_eq!(parse("f(1,,)"), Err(failure(4, Some(Token::Comma), Expected::Expression)));
    assert_eq!(parse("f(1,,2)"), Err(failure(4, Some(Token::Comma), Expected::Expression)));
}

#[test]
fn an_identifier_is_a_call_only_before_a_parenthesis() {
    assert_eq!(parse("f"), Ok(var("f")));
    assert_eq!(parse("f + (1)"), Ok(add(var("f"), num("1"))));
    assert_eq!(
        parse("f (1)"),
        Ok(call("f", vec![num("1")]))
    );
    assert_eq!(
        parse("f(1 2)"),
        Err(failure(3, Some(Token::Num("2".to_string())), Expected::CommaOrCloseParen))
    );
}

#[test]
fn parses_let() {
    assert_eq!(
        parse("let x = 5; x + 1"),
        Ok(let_in("x", num("5"), add(var("x"), num("1"))))
    );
    assert_eq!(
        parse("let x = 1; let x = 2; x"),
        Ok(let_in("x", num("1"), let_in("x", num("2"), var("x"))))
    );
}

#[test]
fn parses_fn() {
    assert_eq!(
        parse("fn add a b = a + b; add(2, 3)"),
        Ok(fn_in(
            "add",
            &["a", "b"],
            add(var("a"), var("b")),
            call("add", vec![num("2"), num("3")])
        ))
    );
    assert_eq!(parse("fn one = 1; one()"), Ok(fn_in("one", &[], num("1"), call("one", vec![]))));
    assert_eq!(
        parse("fn f x = x; let y = f(1); fn g = y; g()"),
        Ok(fn_in(
            "f",
            &["x"],
            var("x"),
            let_in(
                "y",
                call("f", vec![num("1")]),
                fn_in("g", &[], var("y"), call("g", vec![]))
            )
        ))
    );
}

#[test]
fn a_declaration_is_no_expression() {
    assert_eq!(parse("1 + let x = 2; x"), Err(failure(2, Some(Token::Let), Expected::Expression)));
    assert_eq!(parse("(let x = 2; x)"), Err(failure(1, Some(Token::Let), Expected::Expression)));
    assert_eq!(
        parse("let x = let y = 1; y; x"),
        Err(failure(3, Some(Token::Let), Expected::Expression))
    );
    assert_eq!(parse("f(fn g = 1; g())"), Err(failure(2, Some(Token::Fn), Expected::Expression)));
}

#[test]
fn a_declaration_chain_ends_in_an_expression() {
    assert_eq!(parse("let x = 1;"), Err(failure(5, None, Expected::Expression)));
    assert_eq!(parse("fn f = 1;"), Err(failure(5, None, Expected::Expression)));
    assert_eq!(parse("let x = 1; let y = 2;"), Err(failure(10, None, Expected::Expression)));
}

#[test]
fn the_error_names_place_token_and_expectation() {
    assert_eq!(parse(""), Err(failure(0, None, Expected::Expression)));
    assert_eq!(parse("1 +"), Err(failure(2, None, Expected::Expression)));
    assert_eq!(parse("1 + *"), Err(failure(2, Some(Token::Times), Expected::Expression)));
    assert_eq!(parse("-"), Err(failure(1, None, Expected::Expression)));
    assert_eq!(parse(")"), Err(failure(0, Some(Token::CloseParen), Expected::Expression)));
    assert_eq!(parse("(1"), Err(failure(2, None, Expected::CloseParen)));
    assert_eq!(parse("(1 2"), Err(failure(2, Some(Token::Num("2".to_string())), Expected::CloseParen)));
    assert_eq!(parse("f(1"), Err(failure(3, None, Expected::CommaOrCloseParen)));
    assert_eq!(parse("f("), Err(failure(2, None, Expected::Expression)));
    assert_eq!(parse("let"), Err(failure(1, None, Expected::Identifier)));
    assert_eq!(parse("let = 1; x"), Err(failure(1, Some(Token::Eq), Expected::Identifier)));
    assert_eq!(parse("let fn = 1; x"), Err(failure(1, Some(Token::Fn), Expected::Identifier)));
    assert_eq!(
        parse("let x 1; x"),
        Err(failure(2, Some(Token::Num("1".to_string())), Expected::Equals))
    );
    assert_eq!(
        parse("let x = 1 x"),
        Err(failure(4, Some(Token::Ident("x".to_string())), Expected::Semicolon))
    );
    assert_eq!(parse("fn = 1; x"), Err(failure(1, Some(Token::Eq), Expected::Identifier)));
    assert_eq!(
        parse("fn f a 1 = a; f(1)"),
        Err(failure(3, Some(Token::Num("1".to_string())), Expected::Equals))
    );
    assert_eq!(parse("fn f a"), Err(failure(3, None, Expected::Equals)));
    assert_eq!(parse("fn f a = a f(1)"), Err(failure(5, Some(Token::Ident("f".to_string())), Expected::Semicolon)));
}

#[test]
fn no_token_may_be_left_over() {
    assert_eq!(parse("1 2"), Err(failure(1, Some(Token::Num("2".to_string())), Expected::EndOfInput)));
    assert_eq!(parse("(1))"), Err(failure(3, Some(Token::CloseParen), Expected::EndOfInput)));
    assert_eq!(parse("x = 1"), Err(failure(1, Some(Token::Eq), Expected::EndOfInput)));
    assert_eq!(parse("1;"), Err(failure(1, Some(Token::Semi), Expected::EndOfInput)));
    assert_eq!(parse("f(1)(2)"), Err(failure(4, Some(Token::OpenParen), Expected::EndOfInput)));
}

#[test]
fn parses_tokens_that_no_text_spells() {
    let tokens = vec![Token::Ident("let".to_string()), Token::Plus, Token::Num("x".to_string())];
    assert_eq!(parser(&tokens), Ok(add(var("let"), num("x"))));
}

#[test]
fn parses_long_chains() {
    let mut text = String::from("0");
    let mut expected = num("0");
    for i in 1..2000 {
        text.push_str(&format!(" + {}", i));
        expected = add(expected, num(&i.to_string()));
    }
    assert_eq!(parse(&text), Ok(expected));
    let mut args = String::from("f(");
    let mut values = Vec::new();
    for i in 0..2000 {
        args.push_str(&format!("{},", i));
        values.push(num(&i.to_string()));
    }
    args.push(')');
    assert_eq!(parse(&args), Ok(call("f", values)));
}
