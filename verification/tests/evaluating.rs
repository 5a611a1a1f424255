use foo_lang::ast::Expr;
use foo_lang::eval::{
    eval, eval_in, eval_with_depth, Binding, EvalError, Function, Program, Step, MAX_DEPTH,
};
use foo_lang::lexer::lexer;
use foo_lang::parser::parser;

fn tree(text: &str) -> Expr {
    parser(&lexer(text).unwrap()).unwrap()
}

fn compute(program: &Program) -> f64 {
    let mut results: Vec<f64> = Vec::new();
    for step in &program.steps {
        let x = match step {
            Step::Num(text) => text.parse::<f64>().unwrap(),
            Step::Neg(a) => -results[*a],
            Step::Add(a, b) => results[*a] + results[*b],
            Step::Sub(a, b) => results[*a] - results[*b],
            Step::Mul(a, b) => results[*a] * results[*b],
            Step::Div(a, b) => results[*a] / results[*b],
        };
        results.push(x);
    }
    results[program.result]
}

fn value(text: &str) -> Result<f64, EvalError> {
    eval(&tree(text)).map(|program| compute(&program))
}

fn steps(text: &str) -> (Vec<Step>, usize) {
    let program = eval(&tree(text)).unwrap();
    (program.steps, program.result)
}

fn lit(text: &str) -> Step {
    Step::Num(text.to_string())
}

#[test]
fn arithmetic_respects_precedence() {
    assert_eq!(value("2 + 3 * 4"), Ok(14.0));
    assert_eq!(value("(2 + 3) * 4"), Ok(20.0));
    assert_eq!(value("2 * 3 + 4"), Ok(10.0));
    assert_eq!(value("10 - 4 / 2"), Ok(8.0));
    assert_eq!(value("1.5 + 2.25"), Ok(3.75));
    assert_eq!(value("42"), Ok(42.0));
}

#[test]
fn arithmetic_goes_from_left_to_right() {
    assert_eq!(value("10 - 4 - 3"), Ok(3.0));
    assert_eq!(value("10 - (4 - 3)"), Ok(9.0));
    assert_eq!(value("16 / 4 / 2"), Ok(2.0));
    assert_eq!(value("16 / (4 / 2)"), Ok(8.0));
    assert_eq!(value("2 * 3 / 4"), Ok(1.5));
    assert_eq!(value("0.1 + 0.2 + 0.3"), Ok((0.1 + 0.2) + 0.3));
    assert_ne!(value("0.1 + 0.2 + 0.3"), value("0.1 + (0.2 + 0.3)"));
}

#[test]
fn unary_minus_stacks() {
    assert_eq!(value("- - 5"), Ok(5.0));
    assert_eq!(value("- 5"), Ok(-5.0));
    assert_eq!(value("---5"), Ok(-5.0));
    assert_eq!(value("3 - -2"), Ok(5.0));
    assert_eq!(value("-2 * -3"), Ok(6.0));
}

#[test]
fn let_binds_a_value() {
    assert_eq!(value("let x = 5; x + 1"), Ok(6.0));
    assert_eq!(value("let x = 2; let y = x * 3; x + y"), Ok(8.0));
}

#[test]
fn a_later_binding_shadows_an_earlier_one() {
    assert_eq!(value("let x = 1; let x = 2; x"), Ok(2.0));
    assert_eq!(value("let x = 1; let x = x + 1; let x = x * 10; x"), Ok(20.0));
    assert_eq!(value("let x = 1; let y = 5; let x = 2; x + y"), Ok(7.0));
}

#[test]
fn function_definition_and_call() {
    assert_eq!(value("fn add a b = a + b; add(2, 3)"), Ok(5.0));
    assert_eq!(value("fn add a b = a + b; add(2, 3,)"), Ok(5.0));
    assert_eq!(value("fn seven = 7; seven() * 2"), Ok(14.0));
    assert_eq!(value("fn sub a b = a - b; sub(1, 10)"), Ok(-9.0));
    assert_eq!(value("fn sq x = x * x; sq(sq(3))"), Ok(81.0));
}

#[test]
fn a_later_definition_shadows_an_earlier_one() {
    assert_eq!(value("fn f x = x + 1; fn f x = x * 2; f(10)"), Ok(20.0));
    assert_eq!(value("fn f x = x + 1; let a = f(10); fn f x = x * 2; a + f(10)"), Ok(31.0));
}

#[test]
fn the_last_of_two_parameters_of_one_name_wins() {
    assert_eq!(value("fn f a a = a; f(1, 2)"), Ok(2.0));
}

#[test]
fn arguments_are_evaluated_where_the_call_stands() {
    assert_eq!(value("let x = 2; fn sq a = a * a; sq(x + 1)"), Ok(9.0));
    assert_eq!(value("fn f x = x + 1; let x = 10; f(x * 2)"), Ok(21.0));
}

#[test]
fn a_body_sees_its_parameters_only() {
    assert_eq!(
        value("let x = 1; fn f a = x; f(2)"),
        Err(EvalError::UndefinedVariable("x".to_string()))
    );
    assert_eq!(value("let a = 1; fn f a = a; f(2) + a"), Ok(3.0));
}

#[test]
fn a_function_that_does_not_call_itself_terminates() {
    assert_eq!(value("fn fact n = n; fact(5)"), Ok(5.0));
}

#[test]
fn a_body_sees_the_functions_defined_at_the_call() {
    assert_eq!(value("fn g m = m + 1; fn f n = n * g(n); f(3)"), Ok(12.0));
    assert_eq!(value("fn f n = n * g(n); fn g m = m + 1; f(3)"), Ok(12.0));
    assert_eq!(
        value("fn f n = g(n); let a = f(1); fn g m = m; a"),
        Err(EvalError::UndefinedFunction("g".to_string()))
    );
    assert_eq!(value("fn g m = 1; fn f n = g(n); fn g m = 2; f(0)"), Ok(2.0));
}

#[test]
fn a_function_sees_itself() {
    assert_eq!(value("fn f n = f(n); f(1)"), Err(EvalError::DepthLimitExceeded));
    assert_eq!(value("fn f n = n * f(n - 1); f(5)"), Err(EvalError::DepthLimitExceeded));
    assert_eq!(value("fn f a = g(a); fn g a = f(a); f(1)"), Err(EvalError::DepthLimitExceeded));
}

#[test]
fn arity_mismatch_names_function_and_counts() {
    assert_eq!(
        value("fn add a b = a + b; add(1)"),
        Err(EvalError::ArityMismatch("add".to_string(), 2, 1))
    );
    assert_eq!(
        value("fn add a b = a + b; add(1, 2, 3)"),
        Err(EvalError::ArityMismatch("add".to_string(), 2, 3))
    );
    assert_eq!(
        value("fn one = 1; one(1)"),
        Err(EvalError::ArityMismatch("one".to_string(), 0, 1))
    );
    assert_eq!(
        value("fn id x = x; id()"),
        Err(EvalError::ArityMismatch("id".to_string(), 1, 0))
    );
}

#[test]
fn undefined_variable_is_named() {
    assert_eq!(value("y"), Err(EvalError::UndefinedVariable("y".to_string())));
    assert_eq!(value("let x = 1; x + y"), Err(EvalError::UndefinedVariable("y".to_string())));
    assert_eq!(value("let x = x; x"), Err(EvalError::UndefinedVariable("x".to_string())));
    assert_eq!(value("fn f a = b; f(1)"), Err(EvalError::UndefinedVariable("b".to_string())));
}

#[test]
fn undefined_function_is_named() {
    assert_eq!(value("f(1)"), Err(EvalError::UndefinedFunction("f".to_string())));
    assert_eq!(value("let f = 1; f(1)"), Err(EvalError::UndefinedFunction("f".to_string())));
    assert_eq!(value("fn f a = a; f"), Err(EvalError::UndefinedVariable("f".to_string())));
}

#[test]
fn an_unused_body_is_not_evaluated() {
    assert_eq!(value("fn f a = nothing(b); 1"), Ok(1.0));
}

#[test]
fn the_first_error_is_reported() {
    assert_eq!(value("a + b"), Err(EvalError::UndefinedVariable("a".to_string())));
    assert_eq!(value("1 + b * c"), Err(EvalError::UndefinedVariable("b".to_string())));
    assert_eq!(value("g(y)"), Err(EvalError::UndefinedFunction("g".to_string())));
    assert_eq!(
        value("fn f a = a; f(y, z)"),
        Err(EvalError::UndefinedVariable("y".to_string()))
    );
    assert_eq!(
        value("fn f a = a; f(1, z)"),
        Err(EvalError::UndefinedVariable("z".to_string()))
    );
    assert_eq!(
        value("fn f a = a; f(1, g(2))"),
        Err(EvalError::UndefinedFunction("g".to_string()))
    );
    assert_eq!(
        value("fn f a = f(a); f()"),
        Err(EvalError::ArityMismatch("f".to_string(), 1, 0))
    );
    assert_eq!(value("let x = y; z"), Err(EvalError::UndefinedVariable("y".to_string())));
}

#[test]
fn division_by_zero_follows_the_floats() {
    assert_eq!(value("1 / 0"), Ok(f64::INFINITY));
    assert_eq!(value("-1 / 0"), Ok(f64::NEG_INFINITY));
    assert!(value("0 / 0").unwrap().is_nan());
    assert_eq!(value("1 / (1 / 0)"), Ok(0.0));
}

#[test]
fn a_program_is_one_step_for_each_operation() {
    assert_eq!(steps("1 + 2"), (vec![lit("1"), lit("2"), Step::Add(0, 1)], 2));
    assert_eq!(steps("7"), (vec![lit("7")], 0));
    assert_eq!(steps("-7"), (vec![lit("7"), Step::Neg(0)], 1));
    assert_eq!(
        steps("1 - 2 * 3 / 4"),
        (vec![lit("1"), lit("2"), lit("3"), Step::Mul(1, 2), lit("4"), Step::Div(3, 4), Step::Sub(0, 5)], 6)
    );
    assert_eq!(steps("1.50"), (vec![lit("1.50")], 0));
}

#[test]
fn a_bound_value_is_computed_once() {
    assert_eq!(
        steps("let x = 1 + 2; x * x"),
        (vec![lit("1"), lit("2"), Step::Add(0, 1), Step::Mul(2, 2)], 3)
    );
    assert_eq!(steps("let x = 5; x"), (vec![lit("5")], 0));
    assert_eq!(
        steps("fn twice a = a + a; twice(3)"),
        (vec![lit("3"), Step::Add(0, 0)], 1)
    );
    assert_eq!(steps("let unused = 1; 2"), (vec![lit("1"), lit("2")], 1));
}

#[test]
fn repeated_doubling_stays_small() {
    let mut text = String::from("let x = 2;");
    for _ in 0..64 {
        text.push_str(" let x = x * x;");
    }
    text.push_str(" x");
    let program = eval(&tree(&text)).unwrap();
    assert_eq!(program.steps.len(), 65);
    assert_eq!(compute(&program), f64::INFINITY);
}

#[test]
fn every_step_uses_earlier_steps() {
    let program =
        eval(&tree("fn f a b = a * b - a; let x = f(1, 2); let y = f(x, x + 1); -y / x")).unwrap();
    assert!(program.result < program.steps.len());
    for (i, step) in program.steps.iter().enumerate() {
        match step {
            Step::Num(_) => {}
            Step::Neg(a) => assert!(*a < i),
            Step::Add(a, b) | Step::Sub(a, b) | Step::Mul(a, b) | Step::Div(a, b) => {
                assert!(*a < i && *b < i)
            }
        }
    }
    assert_eq!(compute(&program), -1.0);
}

#[test]
fn calls_nest_as_deep_as_allowed() {
    let one = tree("fn f a = a; f(1)");
    assert_eq!(eval_with_depth(&one, 0), Err(EvalError::DepthLimitExceeded));
    assert_eq!(eval_with_depth(&one, 1).map(|p| compute(&p)), Ok(1.0));
    let two = tree("fn f a = a; fn g a = f(a) + f(a); g(1)");
    assert_eq!(eval_with_depth(&two, 1), Err(EvalError::DepthLimitExceeded));
    assert_eq!(eval_with_depth(&two, 2).map(|p| compute(&p)), Ok(2.0));
    let none = tree("let x = 1; x + 2");
    assert_eq!(eval_with_depth(&none, 0).map(|p| compute(&p)), Ok(3.0));
}

#[test]
fn arguments_do_not_count_as_depth() {
    let text = "fn f a = a + 1; f(f(f(f(0))))";
    assert_eq!(eval_with_depth(&tree(text), 1).map(|p| compute(&p)), Ok(4.0));
}

#[test]
fn the_default_depth_is_the_constant() {
    let mut text = String::from("fn f0 a = a;");
    for i in 1..MAX_DEPTH {
        text.push_str(&format!(" fn f{} a = f{}(a);", i, i - 1));
    }
    let fits = format!("{} f{}(9)", text, MAX_DEPTH - 1);
    assert_eq!(value(&fits), Ok(9.0));
    let too_deep = format!(
        "{} fn f{} a = f{}(a); f{}(9)",
        text,
        MAX_DEPTH,
        MAX_DEPTH - 1,
        MAX_DEPTH
    );
    assert_eq!(value(&too_deep), Err(EvalError::DepthLimitExceeded));
    assert_eq!(
        eval_with_depth(&tree(&too_deep), MAX_DEPTH + 1).map(|p| compute(&p)),
        Ok(9.0)
    );
}

#[test]
fn arity_is_checked_before_depth() {
    let text = tree("fn f a = a; f()");
    assert_eq!(eval_with_depth(&text, 0), Err(EvalError::ArityMismatch("f".to_string(), 1, 0)));
}

#[test]
fn eval_in_keeps_the_environments() {
    let x = "x".to_string();
    let params = vec!["a".to_string()];
    let body = tree("a * a");
    let sq = "sq".to_string();
    let mut steps = vec![lit("3")];
    let mut vars = vec![Binding { name: &x, value: 0 }];
    let mut fns = vec![Function { name: &sq, params: &params, body: &body }];
    let e = tree("let y = sq(x); fn g a = a; g(y) + x");
    let r = eval_in(&e, &mut vars, &mut fns, &mut steps, 4);
    assert_eq!(r, Ok(2));
    assert_eq!(steps, vec![lit("3"), Step::Mul(0, 0), Step::Add(1, 0)]);
    assert_eq!(vars.len(), 1);
    assert_eq!(vars[0].name, "x");
    assert_eq!(fns.len(), 1);
    assert_eq!(fns[0].name, "sq");
    let bad = tree("let y = 1; y + z");
    let r = eval_in(&bad, &mut vars, &mut fns, &mut steps, 4);
    assert_eq!(r, Err(EvalError::UndefinedVariable("z".to_string())));
    assert_eq!(vars.len(), 1);
    assert_eq!(fns.len(), 1);
    assert_eq!(&steps[..3], &[lit("3"), Step::Mul(0, 0), Step::Add(1, 0)]);
}

#[test]
fn a_tree_built_by_hand_evaluates() {
    let e = Expr::Let {
        name: "x".to_string(),
        rhs: Box::new(Expr::Num("4".to_string())),
        then: Box::new(Expr::Div(
            Box::new(Expr::Var("x".to_string())),
            Box::new(Expr::Neg(Box::new(Expr::Num("8".to_string())))),
        )),
    };
    assert_eq!(eval(&e).map(|p| compute(&p)), Ok(-0.5));
}
