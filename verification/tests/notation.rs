use foo_lang::ast::Expr;
use foo_lang::lexer::lexer;
use foo_lang::parser::parser;

fn copy(e: &Expr) -> Expr {
    match e {
        Expr::Num(text) => Expr::Num(text.clone()),
        Expr::Var(name) => Expr::Var(name.clone()),
        Expr::Neg(inner) => Expr::Neg(Box::new(copy(inner))),
        Expr::Add(l, r) => Expr::Add(Box::new(copy(l)), Box::new(copy(r))),
        Expr::Sub(l, r) => Expr::Sub(Box::new(copy(l)), Box::new(copy(r))),
        Expr::Mul(l, r) => Expr::Mul(Box::new(copy(l)), Box::new(copy(r))),
        Expr::Div(l, r) => Expr::Div(Box::new(copy(l)), Box::new(copy(r))),
        Expr::Call(name, args) => Expr::Call(name.clone(), args.iter().map(copy).collect()),
        Expr::Let { name, rhs, then } => Expr::Let {
            name: name.clone(),
            rhs: Box::new(copy(rhs)),
            then: Box::new(copy(then)),
        },
        Expr::Fn { name, args, body, then } => Expr::Fn {
            name: name.clone(),
            args: args.clone(),
            body: Box::new(copy(body)),
            then: Box::new(copy(then)),
        },
    }
}

fn rank(e: &Expr) -> u8 {
    match e {
        Expr::Add(_, _) | Expr::Sub(_, _) => 0,
        Expr::Mul(_, _) | Expr::Div(_, _) => 1,
        Expr::Neg(_) => 2,
        _ => 3,
    }
}

fn binary(l: &Expr, op: &str, r: &Expr, level: u8) -> String {
    format!("{} {} {}", write(l, level), op, write(r, level + 1))
}

/// The usual notation: parentheses only where the tree needs them.
fn write(e: &Expr, level: u8) -> String {
    if rank(e) < level {
        return format!("({})", write(e, 0));
    }
    match e {
        Expr::Num(text) => text.clone(),
        Expr::Var(name) => name.clone(),
        Expr::Neg(inner) => format!("-{}", write(inner, 2)),
        Expr::Add(l, r) => binary(l, "+", r, 0),
        Expr::Sub(l, r) => binary(l, "-", r, 0),
        Expr::Mul(l, r) => binary(l, "*", r, 1),
        Expr::Div(l, r) => binary(l, "/", r, 1),
        Expr::Call(name, args) => {
            let args: Vec<String> = args.iter().map(|a| write(a, 0)).collect();
            format!("{}({})", name, args.join(", "))
        }
        Expr::Let { name, rhs, then } => {
            format!("let {} = {}; {}", name, write(rhs, 0), write(then, 0))
        }
        Expr::Fn { name, args, body, then } => {
            format!("fn {} {} = {}; {}", name, args.join(" "), write(body, 0), write(then, 0))
        }
    }
}

fn read(text: &str) -> Expr {
    parser(&lexer(text).unwrap()).unwrap()
}

fn grow(smaller: &[Expr]) -> Vec<Expr> {
    let mut trees: Vec<Expr> = smaller.iter().map(copy).collect();
    trees.push(Expr::Call("f".to_string(), vec![]));
    for a in smaller {
        trees.push(Expr::Neg(Box::new(copy(a))));
        trees.push(Expr::Call("f".to_string(), vec![copy(a)]));
        for b in smaller {
            trees.push(Expr::Add(Box::new(copy(a)), Box::new(copy(b))));
            trees.push(Expr::Sub(Box::new(copy(a)), Box::new(copy(b))));
            trees.push(Expr::Mul(Box::new(copy(a)), Box::new(copy(b))));
            trees.push(Expr::Div(Box::new(copy(a)), Box::new(copy(b))));
            trees.push(Expr::Call("g".to_string(), vec![copy(a), copy(b)]));
        }
    }
    trees
}

#[test]
fn the_notation_puts_parentheses_where_needed() {
    assert_eq!(write(&read("1 + 2 * 3"), 0), "1 + 2 * 3");
    assert_eq!(write(&read("(1 + 2) * 3"), 0), "(1 + 2) * 3");
    assert_eq!(write(&read("1 - (2 - 3)"), 0), "1 - (2 - 3)");
    assert_eq!(write(&read("(1 - 2) - 3"), 0), "1 - 2 - 3");
    assert_eq!(write(&read("((1)) * ((2 / 3))"), 0), "1 * (2 / 3)");
    assert_eq!(write(&read("-(-x) * -(y + 1)"), 0), "--x * -(y + 1)");
    assert_eq!(write(&read("f((1), g(2,), )"), 0), "f(1, g(2))");
    assert_eq!(
        write(&read("fn f a b=(a+b)*2;let x=f(1,2);x"), 0),
        "fn f a b = (a + b) * 2; let x = f(1, 2); x"
    );
}

#[test]
fn every_small_expression_is_read_back_from_its_notation() {
    let leaves = vec![Expr::Num("1".to_string()), Expr::Var("x".to_string())];
    let trees = grow(&grow(&leaves));
    assert_eq!(trees.len(), 3727);
    for e in &trees {
        let text = write(e, 0);
        assert_eq!(&read(&text), e, "{}", text);
    }
}

#[test]
fn every_small_program_is_read_back_from_its_notation() {
    let leaves = vec![Expr::Num("2.5".to_string()), Expr::Var("y".to_string())];
    let bodies = grow(&leaves);
    let mut count = 0;
    for rhs in &bodies {
        for last in &bodies {
            let bound = Expr::Let {
                name: "y".to_string(),
                rhs: Box::new(copy(rhs)),
                then: Box::new(copy(last)),
            };
            let program = Expr::Fn {
                name: "f".to_string(),
                args: vec!["a".to_string(), "b".to_string()],
                body: Box::new(copy(last)),
                then: Box::new(bound),
            };
            let text = write(&program, 0);
            assert_eq!(read(&text), program, "{}", text);
            count += 1;
        }
    }
    assert_eq!(count, 27 * 27);
}
