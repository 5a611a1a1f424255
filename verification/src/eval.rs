//! From a syntax tree to the arithmetic it stands for.
//!
//! Evaluation resolves every variable, binding, function definition and
//! call of a tree. No choice in the language depends on a number, so what
//! is left is plain arithmetic on the number literals: an [`Arith`] term.
//! [`eval_expr`] says which term, or which error, a tree has in given
//! environments.
//!
//! The executable evaluator writes the term down as a [`Program`]: a list
//! of steps, each a literal or one operation on the results of earlier
//! steps. A value that is used twice is computed once.
//!
//! Calls may nest only to a given depth. The language has no way to stop a
//! function that calls itself, so such a call ends in
//! [`EvalError::DepthLimitExceeded`] instead of using up the stack.
use crate::ast::{all_literals_valid, exprs_view, lemma_call_view, Expr, ExprView};
use crate::token::is_number;
use vstd::prelude::*;

verus! {

/// Arithmetic on number literals, with every name resolved.
pub enum Arith {
    Num(Seq<char>),
    Neg(Box<Arith>),
    Add(Box<Arith>, Box<Arith>),
    Sub(Box<Arith>, Box<Arith>),
    Mul(Box<Arith>, Box<Arith>),
    Div(Box<Arith>, Box<Arith>),
}

/// A function definition: its name, its parameter names in order and its
/// body.
pub struct FunctionView {
    pub name: Seq<char>,
    pub params: Seq<Seq<char>>,
    pub body: ExprView,
}

/// The mathematical value of an [`EvalError`].
pub enum EvalErrorView {
    UndefinedVariable(Seq<char>),
    UndefinedFunction(Seq<char>),
    ArityMismatch(Seq<char>, nat, nat),
    DepthLimitExceeded,
}

/// The variable environment: bindings in the order in which they were made.
pub type Vars = Seq<(Seq<char>, Arith)>;

/// The function environment: definitions in the order in which they were
/// made.
pub type Fns = Seq<FunctionView>;

/// The value of the binding of `name` that was made last, if there is one.
pub open spec fn find_var(vars: Vars, name: Seq<char>) -> Option<Arith>
    decreases vars.len(),
{
    if vars.len() == 0 {
        None
    } else if vars.last().0 == name {
        Some(vars.last().1)
    } else {
        find_var(vars.drop_last(), name)
    }
}

/// The definition of `name` that was made last, if there is one.
pub open spec fn find_fn(fns: Fns, name: Seq<char>) -> Option<FunctionView>
    decreases fns.len(),
{
    if fns.len() == 0 {
        None
    } else if fns.last().name == name {
        Some(fns.last())
    } else {
        find_fn(fns.drop_last(), name)
    }
}

/// The environment of a function body: each parameter bound to the argument
/// at its place.
pub open spec fn bind_params(params: Seq<Seq<char>>, values: Seq<Arith>) -> Vars
    recommends
        params.len() == values.len(),
{
    Seq::new(params.len(), |k: int| (params[k], values[k]))
}

/// What `e` evaluates to with the variables `vars` and the functions `fns`,
/// where calls may nest `depth` deep.
///
/// A call looks its function up in `fns` as they are at the call, so a body
/// sees the function itself and whatever was defined before the call; of the
/// variables it sees its parameters only.
pub open spec fn eval_expr(e: ExprView, vars: Vars, fns: Fns, depth: nat) -> Result<
    Arith,
    EvalErrorView,
>
    decreases depth, e, 0nat,
{
    match e {
        ExprView::Num(text) => Ok(Arith::Num(text)),
        ExprView::Var(name) => match find_var(vars, name) {
            Some(value) => Ok(value),
            None => Err(EvalErrorView::UndefinedVariable(name)),
        },
        ExprView::Neg(inner) => match eval_expr(*inner, vars, fns, depth) {
            Ok(value) => Ok(Arith::Neg(Box::new(value))),
            Err(err) => Err(err),
        },
        ExprView::Add(l, r) => match eval_expr(*l, vars, fns, depth) {
            Ok(a) => match eval_expr(*r, vars, fns, depth) {
                Ok(b) => Ok(Arith::Add(Box::new(a), Box::new(b))),
                Err(err) => Err(err),
            },
            Err(err) => Err(err),
        },
        ExprView::Sub(l, r) => match eval_expr(*l, vars, fns, depth) {
            Ok(a) => match eval_expr(*r, vars, fns, depth) {
                Ok(b) => Ok(Arith::Sub(Box::new(a), Box::new(b))),
                Err(err) => Err(err),
            },
            Err(err) => Err(err),
        },
        ExprView::Mul(l, r) => match eval_expr(*l, vars, fns, depth) {
            Ok(a) => match eval_expr(*r, vars, fns, depth) {
                Ok(b) => Ok(Arith::Mul(Box::new(a), Box::new(b))),
                Err(err) => Err(err),
            },
            Err(err) => Err(err),
        },
        ExprView::Div(l, r) => match eval_expr(*l, vars, fns, depth) {
            Ok(a) => match eval_expr(*r, vars, fns, depth) {
                Ok(b) => Ok(Arith::Div(Box::new(a), Box::new(b))),
                Err(err) => Err(err),
            },
            Err(err) => Err(err),
        },
        ExprView::Call(name, args) => match find_fn(fns, name) {
            None => Err(EvalErrorView::UndefinedFunction(name)),
            Some(f) => match eval_args(args, 0, vars, fns, depth) {
                Err(err) => Err(err),
                Ok(values) => if values.len() != f.params.len() {
                    Err(EvalErrorView::ArityMismatch(name, f.params.len(), values.len()))
                } else if depth == 0 {
                    Err(EvalErrorView::DepthLimitExceeded)
                } else {
                    eval_expr(f.body, bind_params(f.params, values), fns, (depth - 1) as nat)
                },
            },
        },
        ExprView::Let { name, rhs, then } => match eval_expr(*rhs, vars, fns, depth) {
            Ok(value) => eval_expr(*then, vars.push((name, value)), fns, depth),
            Err(err) => Err(err),
        },
        ExprView::Fn { name, args, body, then } => eval_expr(
            *then,
            vars,
            fns.push(FunctionView { name, params: args, body: *body }),
            depth,
        ),
    }
}

/// What the arguments `args[k..]` of a call evaluate to, from left to right;
/// the error of the first that fails.
pub open spec fn eval_args(args: Seq<ExprView>, k: int, vars: Vars, fns: Fns, depth: nat) -> Result<
    Seq<Arith>,
    EvalErrorView,
>
    decreases depth, args, args.len() - k,
{
    if 0 <= k < args.len() {
        match eval_expr(args[k], vars, fns, depth) {
            Ok(value) => match eval_args(args, k + 1, vars, fns, depth) {
                Ok(rest) => Ok(seq![value] + rest),
                Err(err) => Err(err),
            },
            Err(err) => Err(err),
        }
    } else {
        Ok(Seq::empty())
    }
}

/// What the program `e` evaluates to: both environments start empty.
pub open spec fn eval_program(e: ExprView, depth: nat) -> Result<Arith, EvalErrorView> {
    eval_expr(e, Seq::empty(), Seq::empty(), depth)
}

/// A lookup finds the binding that was made last: a new binding of `name`
/// hides every earlier one, and changes no other name.
pub proof fn lemma_find_var_push(vars: Vars, name: Seq<char>, value: Arith, other: Seq<char>)
    ensures
        find_var(vars.push((name, value)), other) == if other == name {
            Some(value)
        } else {
            find_var(vars, other)
        },
{
    assert(vars.push((name, value)).drop_last() =~= vars);
}

/// A lookup finds the definition that was made last: a new definition of a
/// name hides every earlier one, and changes no other name.
pub proof fn lemma_find_fn_push(fns: Fns, f: FunctionView, other: Seq<char>)
    ensures
        find_fn(fns.push(f), other) == if other == f.name {
            Some(f)
        } else {
            find_fn(fns, other)
        },
{
    assert(fns.push(f).drop_last() =~= fns);
}

/// A lookup succeeds exactly on the names that are bound, and gives the
/// value of the binding behind which no binding of that name stands.
pub proof fn lemma_find_var_is_last(vars: Vars, name: Seq<char>)
    ensures
        match find_var(vars, name) {
            Some(value) => exists|k: int|
                {
                    &&& 0 <= k < vars.len()
                    &&& #[trigger] vars[k] == (name, value)
                    &&& forall|j: int| k < j < vars.len() ==> (#[trigger] vars[j]).0 != name
                },
            None => forall|k: int| 0 <= k < vars.len() ==> (#[trigger] vars[k]).0 != name,
        },
    decreases vars.len(),
{
    if vars.len() > 0 {
        let last = vars.len() - 1;
        if vars.last().0 == name {
            assert(vars[last] == (name, vars.last().1));
        } else {
            let front = vars.drop_last();
            lemma_find_var_is_last(front, name);
            match find_var(front, name) {
                Some(value) => {
                    let k = choose|k: int|
                        {
                            &&& 0 <= k < front.len()
                            &&& #[trigger] front[k] == (name, value)
                            &&& forall|j: int|
                                k < j < front.len() ==> (#[trigger] front[j]).0 != name
                        };
                    assert(vars[k] == (name, value));
                    assert forall|j: int| k < j < vars.len() implies (#[trigger] vars[j]).0
                        != name by {
                        if j < last {
                            assert(front[j].0 != name);
                        }
                    }
                },
                None => {
                    assert forall|k: int| 0 <= k < vars.len() implies (#[trigger] vars[k]).0
                        != name by {
                        if k < last {
                            assert(front[k].0 != name);
                        }
                    }
                },
            }
        }
    }
}

/// A lookup succeeds exactly on the names that are defined, and gives the
/// definition behind which no definition of that name stands.
pub proof fn lemma_find_fn_is_last(fns: Fns, name: Seq<char>)
    ensures
        match find_fn(fns, name) {
            Some(f) => exists|k: int|
                {
                    &&& 0 <= k < fns.len()
                    &&& #[trigger] fns[k] == f
                    &&& f.name == name
                    &&& forall|j: int| k < j < fns.len() ==> (#[trigger] fns[j]).name != name
                },
            None => forall|k: int| 0 <= k < fns.len() ==> (#[trigger] fns[k]).name != name,
        },
    decreases fns.len(),
{
    if fns.len() > 0 {
        let last = fns.len() - 1;
        if fns.last().name == name {
            assert(fns[last] == fns.last());
        } else {
            let front = fns.drop_last();
            lemma_find_fn_is_last(front, name);
            match find_fn(front, name) {
                Some(f) => {
                    let k = choose|k: int|
                        {
                            &&& 0 <= k < front.len()
                            &&& #[trigger] front[k] == f
                            &&& f.name == name
                            &&& forall|j: int|
                                k < j < front.len() ==> (#[trigger] front[j]).name != name
                        };
                    assert(fns[k] == f);
                    assert forall|j: int| k < j < fns.len() implies (#[trigger] fns[j]).name
                        != name by {
                        if j < last {
                            assert(front[j].name != name);
                        }
                    }
                },
                None => {
                    assert forall|k: int| 0 <= k < fns.len() implies (#[trigger] fns[k]).name
                        != name by {
                        if k < last {
                            assert(front[k].name != name);
                        }
                    }
                },
            }
        }
    }
}

/// A name that no binding in scope has is an undefined variable, and no
/// other use of a name is.
pub proof fn lemma_undefined_variable(name: Seq<char>, vars: Vars, fns: Fns, depth: nat)
    ensures
        eval_expr(ExprView::Var(name), vars, fns, depth) == Err::<Arith, EvalErrorView>(
            EvalErrorView::UndefinedVariable(name),
        ) <==> forall|k: int| 0 <= k < vars.len() ==> (#[trigger] vars[k]).0 != name,
{
    lemma_find_var_is_last(vars, name);
}

/// A call with a number of arguments other than the number of parameters
/// fails with an arity mismatch that names the function and both numbers,
/// provided that the function is defined and the arguments have values.
pub proof fn lemma_arity_mismatch(
    name: Seq<char>,
    args: Seq<ExprView>,
    vars: Vars,
    fns: Fns,
    depth: nat,
)
    requires
        find_fn(fns, name) is Some,
        eval_args(args, 0, vars, fns, depth) is Ok,
        args.len() != find_fn(fns, name)->0.params.len(),
    ensures
        eval_expr(ExprView::Call(name, args), vars, fns, depth) == Err::<Arith, EvalErrorView>(
            EvalErrorView::ArityMismatch(name, find_fn(fns, name)->0.params.len(), args.len()),
        ),
{
    lemma_eval_args_len(args, 0, vars, fns, depth);
}

/// Arguments that have values have one value each.
pub proof fn lemma_eval_args_len(args: Seq<ExprView>, k: int, vars: Vars, fns: Fns, depth: nat)
    requires
        0 <= k <= args.len(),
    ensures
        eval_args(args, k, vars, fns, depth) matches Ok(values) ==> values.len() == args.len()
            - k,
    decreases args.len() - k,
{
    if k < args.len() {
        lemma_eval_args_len(args, k + 1, vars, fns, depth);
    }
}

/// A function that is defined and then called is applied to the values of
/// its arguments: its body is evaluated with each parameter bound to the
/// argument at its place and nothing else, and with the functions that are
/// defined at the call, the function itself among them.
pub proof fn lemma_define_then_call(
    name: Seq<char>,
    params: Seq<Seq<char>>,
    body: ExprView,
    args: Seq<ExprView>,
    vars: Vars,
    fns: Fns,
    depth: nat,
)
    requires
        depth > 0,
        args.len() == params.len(),
        eval_args(
            args,
            0,
            vars,
            fns.push(FunctionView { name, params, body }),
            depth,
        ) is Ok,
    ensures
        ({
            let defined = fns.push(FunctionView { name, params, body });
            let values = eval_args(args, 0, vars, defined, depth)->Ok_0;
            eval_expr(
                ExprView::Fn {
                    name,
                    args: params,
                    body: Box::new(body),
                    then: Box::new(ExprView::Call(name, args)),
                },
                vars,
                fns,
                depth,
            ) == eval_expr(body, bind_params(params, values), defined, (depth - 1) as nat)
        }),
{
    reveal_with_fuel(eval_expr, 2);
    let f = FunctionView { name, params, body };
    lemma_find_fn_push(fns, f, name);
    lemma_eval_args_len(args, 0, vars, fns.push(f), depth);
}

/// A name that is bound and then used has the value it was bound to,
/// whatever was bound to it before.
pub proof fn lemma_let_then_use(name: Seq<char>, rhs: ExprView, vars: Vars, fns: Fns, depth: nat)
    ensures
        eval_expr(
            ExprView::Let { name, rhs: Box::new(rhs), then: Box::new(ExprView::Var(name)) },
            vars,
            fns,
            depth,
        ) == eval_expr(rhs, vars, fns, depth),
{
    reveal_with_fuel(eval_expr, 2);
    if let Ok(value) = eval_expr(rhs, vars, fns, depth) {
        lemma_find_var_push(vars, name, value, name);
    }
}

/// `e` holds numbers and arithmetic only: no name, call or declaration.
pub open spec fn is_arithmetic(e: ExprView) -> bool
    decreases e,
{
    match e {
        ExprView::Num(_) => true,
        ExprView::Neg(inner) => is_arithmetic(*inner),
        ExprView::Add(l, r) | ExprView::Sub(l, r) | ExprView::Mul(l, r) | ExprView::Div(l, r) =>
            is_arithmetic(*l) && is_arithmetic(*r),
        _ => false,
    }
}

/// The arithmetic that an arithmetic tree is.
pub open spec fn arithmetic_of(e: ExprView) -> Arith
    recommends
        is_arithmetic(e),
    decreases e,
{
    match e {
        ExprView::Num(text) => Arith::Num(text),
        ExprView::Neg(inner) => Arith::Neg(Box::new(arithmetic_of(*inner))),
        ExprView::Add(l, r) => Arith::Add(
            Box::new(arithmetic_of(*l)),
            Box::new(arithmetic_of(*r)),
        ),
        ExprView::Sub(l, r) => Arith::Sub(
            Box::new(arithmetic_of(*l)),
            Box::new(arithmetic_of(*r)),
        ),
        ExprView::Mul(l, r) => Arith::Mul(
            Box::new(arithmetic_of(*l)),
            Box::new(arithmetic_of(*r)),
        ),
        ExprView::Div(l, r) => Arith::Div(
            Box::new(arithmetic_of(*l)),
            Box::new(arithmetic_of(*r)),
        ),
        _ => arbitrary(),
    }
}

/// A tree of numbers and arithmetic evaluates to exactly that arithmetic:
/// operand by operand in the shape that the parser gave it, in every
/// environment and at every depth.
pub proof fn lemma_eval_arithmetic(e: ExprView, vars: Vars, fns: Fns, depth: nat)
    requires
        is_arithmetic(e),
    ensures
        eval_expr(e, vars, fns, depth) == Ok::<Arith, EvalErrorView>(arithmetic_of(e)),
    decreases e,
{
    match e {
        ExprView::Neg(inner) => {
            lemma_eval_arithmetic(*inner, vars, fns, depth);
        },
        ExprView::Add(l, r) | ExprView::Sub(l, r) | ExprView::Mul(l, r) | ExprView::Div(l, r) => {
            lemma_eval_arithmetic(*l, vars, fns, depth);
            lemma_eval_arithmetic(*r, vars, fns, depth);
        },
        _ => {},
    }
}

/// The depth limit shows in one error only: an evaluation that does not
/// exceed it has the same outcome at every greater depth.
pub proof fn lemma_eval_depth(e: ExprView, vars: Vars, fns: Fns, depth: nat, deeper: nat)
    requires
        depth <= deeper,
        eval_expr(e, vars, fns, depth) != Err::<Arith, EvalErrorView>(
            EvalErrorView::DepthLimitExceeded,
        ),
    ensures
        eval_expr(e, vars, fns, deeper) == eval_expr(e, vars, fns, depth),
    decreases depth, e, 0nat,
{
    match e {
        ExprView::Num(_) => {},
        ExprView::Var(_) => {},
        ExprView::Neg(inner) => {
            lemma_eval_depth(*inner, vars, fns, depth, deeper);
        },
        ExprView::Add(l, r) | ExprView::Sub(l, r) | ExprView::Mul(l, r) | ExprView::Div(l, r) => {
            lemma_eval_depth(*l, vars, fns, depth, deeper);
            if eval_expr(*l, vars, fns, depth) is Ok {
                lemma_eval_depth(*r, vars, fns, depth, deeper);
            }
        },
        ExprView::Call(name, args) => {
            if let Some(f) = find_fn(fns, name) {
                lemma_eval_args_depth(args, 0, vars, fns, depth, deeper);
                if let Ok(values) = eval_args(args, 0, vars, fns, depth) {
                    if values.len() == f.params.len() {
                        lemma_eval_depth(
                            f.body,
                            bind_params(f.params, values),
                            fns,
                            (depth - 1) as nat,
                            (deeper - 1) as nat,
                        );
                    }
                }
            }
        },
        ExprView::Let { name, rhs, then } => {
            lemma_eval_depth(*rhs, vars, fns, depth, deeper);
            if let Ok(value) = eval_expr(*rhs, vars, fns, depth) {
                lemma_eval_depth(*then, vars.push((name, value)), fns, depth, deeper);
            }
        },
        ExprView::Fn { name, args, body, then } => {
            lemma_eval_depth(
                *then,
                vars,
                fns.push(FunctionView { name, params: args, body: *body }),
                depth,
                deeper,
            );
        },
    }
}

/// Arguments that do not exceed the depth limit have the same outcome at
/// every greater depth.
pub proof fn lemma_eval_args_depth(
    args: Seq<ExprView>,
    k: int,
    vars: Vars,
    fns: Fns,
    depth: nat,
    deeper: nat,
)
    requires
        depth <= deeper,
        eval_args(args, k, vars, fns, depth) != Err::<Seq<Arith>, EvalErrorView>(
            EvalErrorView::DepthLimitExceeded,
        ),
    ensures
        eval_args(args, k, vars, fns, deeper) == eval_args(args, k, vars, fns, depth),
    decreases depth, args, args.len() - k,
{
    if 0 <= k < args.len() {
        lemma_eval_depth(args[k], vars, fns, depth, deeper);
        if eval_expr(args[k], vars, fns, depth) is Ok {
            lemma_eval_args_depth(args, k + 1, vars, fns, depth, deeper);
        }
    }
}

/// Why a tree has no value.
#[derive(Debug, Clone, PartialEq, Eq)]
pub enum EvalError {
    /// No binding of this name is in scope.
    UndefinedVariable(String),
    /// No function of this name is defined at the call.
    UndefinedFunction(String),
    /// A call of this function gave a number of arguments (last) other than
    /// the number of its parameters (middle).
    ArityMismatch(String, usize, usize),
    /// Calls nest deeper than the limit allows.
    DepthLimitExceeded,
}

impl View for EvalError {
    type V = EvalErrorView;

    open spec fn view(&self) -> EvalErrorView {
        match self {
            EvalError::UndefinedVariable(name) => EvalErrorView::UndefinedVariable(name@),
            EvalError::UndefinedFunction(name) => EvalErrorView::UndefinedFunction(name@),
            EvalError::ArityMismatch(name, expected, got) => EvalErrorView::ArityMismatch(
                name@,
                *expected as nat,
                *got as nat,
            ),
            EvalError::DepthLimitExceeded => EvalErrorView::DepthLimitExceeded,
        }
    }
}

/// One step of a [`Program`]: a number literal, or an operation on the
/// results of earlier steps, named by their indices.
#[derive(Debug, Clone, PartialEq, Eq)]
pub enum Step {
    Num(String),
    Neg(usize),
    Add(usize, usize),
    Sub(usize, usize),
    Mul(usize, usize),
    Div(usize, usize),
}

impl Step {
    /// Every operand of the step, taken as step `i`, is an earlier step.
    pub open spec fn looks_back(self, i: int) -> bool {
        match self {
            Step::Num(_) => true,
            Step::Neg(a) => a < i,
            Step::Add(a, b) | Step::Sub(a, b) | Step::Mul(a, b) | Step::Div(a, b) => a < i && b
                < i,
        }
    }
}

/// Every step of `steps` uses the results of earlier steps only.
pub open spec fn well_formed(steps: Seq<Step>) -> bool {
    forall|i: int| 0 <= i < steps.len() ==> (#[trigger] steps[i]).looks_back(i)
}

/// The arithmetic that step `i` of `steps` computes.
pub open spec fn term_at(steps: Seq<Step>, i: int) -> Arith
    recommends
        well_formed(steps),
        0 <= i < steps.len(),
    decreases i,
{
    if 0 <= i < steps.len() && steps[i].looks_back(i) {
        match steps[i] {
            Step::Num(text) => Arith::Num(text@),
            Step::Neg(a) => Arith::Neg(Box::new(term_at(steps, a as int))),
            Step::Add(a, b) => Arith::Add(
                Box::new(term_at(steps, a as int)),
                Box::new(term_at(steps, b as int)),
            ),
            Step::Sub(a, b) => Arith::Sub(
                Box::new(term_at(steps, a as int)),
                Box::new(term_at(steps, b as int)),
            ),
            Step::Mul(a, b) => Arith::Mul(
                Box::new(term_at(steps, a as int)),
                Box::new(term_at(steps, b as int)),
            ),
            Step::Div(a, b) => Arith::Div(
                Box::new(term_at(steps, a as int)),
                Box::new(term_at(steps, b as int)),
            ),
        }
    } else {
        arbitrary()
    }
}

/// Every number among `steps` holds a number literal.
pub open spec fn literals_valid(steps: Seq<Step>) -> bool {
    forall|i: int|
        0 <= i < steps.len() ==> ((#[trigger] steps[i]) matches Step::Num(text) ==> is_number(
            text@,
        ))
}

/// Every body among `fns` holds number literals only.
pub open spec fn bodies_valid(fns: Fns) -> bool {
    forall|k: int| 0 <= k < fns.len() ==> (#[trigger] fns[k]).body.literals_valid()
}

/// A definition that a lookup finds is one of the definitions.
pub proof fn lemma_find_fn_valid(fns: Fns, name: Seq<char>)
    requires
        bodies_valid(fns),
    ensures
        find_fn(fns, name) matches Some(f) ==> f.body.literals_valid(),
    decreases fns.len(),
{
    if fns.len() > 0 && fns.last().name != name {
        assert forall|k: int| 0 <= k < fns.drop_last().len() implies (
        #[trigger] fns.drop_last()[k]).body.literals_valid() by {
            assert(fns[k].body.literals_valid());
        }
        lemma_find_fn_valid(fns.drop_last(), name);
    }
}

/// `longer` starts with the steps of `shorter`.
pub open spec fn extends(longer: Seq<Step>, shorter: Seq<Step>) -> bool {
    &&& shorter.len() <= longer.len()
    &&& forall|i: int| 0 <= i < shorter.len() ==> longer[i] == shorter[i]
}

/// Steps that are added behind a step do not change what it computes.
pub proof fn lemma_term_at_extends(longer: Seq<Step>, shorter: Seq<Step>, i: int)
    requires
        extends(longer, shorter),
        0 <= i < shorter.len(),
    ensures
        term_at(longer, i) == term_at(shorter, i),
    decreases i,
{
    if shorter[i].looks_back(i) {
        match shorter[i] {
            Step::Num(_) => {},
            Step::Neg(a) => {
                lemma_term_at_extends(longer, shorter, a as int);
            },
            Step::Add(a, b) | Step::Sub(a, b) | Step::Mul(a, b) | Step::Div(a, b) => {
                lemma_term_at_extends(longer, shorter, a as int);
                lemma_term_at_extends(longer, shorter, b as int);
            },
        }
    }
}

/// Arithmetic as a list of steps, and the step whose result is the value of
/// the whole.
#[derive(Debug, Clone, PartialEq, Eq)]
pub struct Program {
    pub steps: Vec<Step>,
    pub result: usize,
}

impl Program {
    /// Every step uses earlier steps only, and the result is one of the
    /// steps.
    pub open spec fn well_formed(&self) -> bool {
        well_formed(self.steps@) && self.result < self.steps.len()
    }

    /// The arithmetic that the program computes.
    pub open spec fn term(&self) -> Arith {
        term_at(self.steps@, self.result as int)
    }

    /// Every number among the steps holds a number literal.
    pub open spec fn literals_valid(&self) -> bool {
        literals_valid(self.steps@)
    }
}

/// A variable of the executable environment: its name and the step that
/// computes its value.
#[derive(Debug, Clone, Copy)]
pub struct Binding<'a> {
    pub name: &'a String,
    pub value: usize,
}

/// A function of the executable environment.
#[derive(Debug, Clone, Copy)]
pub struct Function<'a> {
    pub name: &'a String,
    pub params: &'a Vec<String>,
    pub body: &'a Expr,
}

impl<'a> View for Function<'a> {
    type V = FunctionView;

    open spec fn view(&self) -> FunctionView {
        FunctionView { name: self.name@, params: self.params.deep_view(), body: self.body@ }
    }
}

/// The variable environment that `vars` stand for while `steps` are the
/// steps written so far.
pub open spec fn vars_view(vars: Seq<Binding<'_>>, steps: Seq<Step>) -> Vars {
    Seq::new(vars.len(), |k: int| (vars[k].name@, term_at(steps, vars[k].value as int)))
}

/// The function environment that `fns` stand for.
pub open spec fn fns_view(fns: Seq<Function<'_>>) -> Fns {
    Seq::new(fns.len(), |k: int| fns[k]@)
}

/// Every binding of `vars` names one of the first `n` steps.
pub open spec fn vars_within(vars: Seq<Binding<'_>>, n: int) -> bool {
    forall|k: int| 0 <= k < vars.len() ==> (#[trigger] vars[k]).value < n
}

/// Every index of `values` names one of the first `n` steps.
pub open spec fn values_within(values: Seq<usize>, n: int) -> bool {
    forall|k: int| 0 <= k < values.len() ==> (#[trigger] values[k]) < n
}

/// The arithmetic that the steps named by `values` compute.
pub open spec fn terms_at(steps: Seq<Step>, values: Seq<usize>) -> Seq<Arith> {
    Seq::new(values.len(), |k: int| term_at(steps, values[k] as int))
}

/// The value of an executable result, read in `steps`.
pub open spec fn outcome(r: Result<usize, EvalError>, steps: Seq<Step>) -> Result<
    Arith,
    EvalErrorView,
> {
    match r {
        Ok(i) => Ok(term_at(steps, i as int)),
        Err(err) => Err(err@),
    }
}

/// The values of executable results, read in `steps`.
pub open spec fn outcomes(r: Result<Vec<usize>, EvalError>, steps: Seq<Step>) -> Result<
    Seq<Arith>,
    EvalErrorView,
> {
    match r {
        Ok(values) => Ok(terms_at(steps, values@)),
        Err(err) => Err(err@),
    }
}

/// `done`, followed by the values that `rest` holds; the error of `rest`
/// where it is one.
pub open spec fn prepend_values(done: Seq<Arith>, rest: Result<Seq<Arith>, EvalErrorView>) -> Result<
    Seq<Arith>,
    EvalErrorView,
> {
    match rest {
        Ok(values) => Ok(done + values),
        Err(err) => Err(err),
    }
}

/// Steps that are added do not change the environment that bindings to
/// earlier steps stand for.
pub proof fn lemma_vars_view_extends(vars: Seq<Binding<'_>>, longer: Seq<Step>, shorter: Seq<Step>)
    requires
        extends(longer, shorter),
        vars_within(vars, shorter.len() as int),
    ensures
        vars_view(vars, longer) == vars_view(vars, shorter),
{
    assert forall|k: int| 0 <= k < vars.len() implies vars_view(vars, longer)[k] == vars_view(
        vars,
        shorter,
    )[k] by {
        assert(vars[k].value < shorter.len());
        lemma_term_at_extends(longer, shorter, vars[k].value as int);
    }
    assert(vars_view(vars, longer) =~= vars_view(vars, shorter));
}

/// Steps that are added do not change what earlier steps compute.
pub proof fn lemma_terms_at_extends(values: Seq<usize>, longer: Seq<Step>, shorter: Seq<Step>)
    requires
        extends(longer, shorter),
        values_within(values, shorter.len() as int),
    ensures
        terms_at(longer, values) == terms_at(shorter, values),
{
    assert forall|k: int| 0 <= k < values.len() implies terms_at(longer, values)[k] == terms_at(
        shorter,
        values,
    )[k] by {
        assert(values[k] < shorter.len());
        lemma_term_at_extends(longer, shorter, values[k] as int);
    }
    assert(terms_at(longer, values) =~= terms_at(shorter, values));
}

/// Finds the binding of `name` that was made last.
fn lookup_var(vars: &Vec<Binding<'_>>, name: &String, Ghost(steps): Ghost<Seq<Step>>) -> (r: Option<
    usize,
>)
    ensures
        match r {
            Some(k) => k < vars.len() && find_var(vars_view(vars@, steps), name@) == Some(
                term_at(steps, vars[k as int].value as int),
            ),
            None => find_var(vars_view(vars@, steps), name@) is None,
        },
{
    let ghost view = vars_view(vars@, steps);
    let mut k: usize = vars.len();
    assert(view.take(k as int) =~= view);
    while k > 0
        invariant
            k <= vars.len(),
            view == vars_view(vars@, steps),
            find_var(view, name@) == find_var(view.take(k as int), name@),
        decreases k,
    {
        k -= 1;
        assert(view.take(k + 1).drop_last() =~= view.take(k as int));
        if *vars[k].name == *name {
            return Some(k);
        }
    }
    None
}

/// Finds the definition of `name` that was made last.
fn lookup_fn<'a>(fns: &Vec<Function<'a>>, name: &String) -> (r: Option<Function<'a>>)
    ensures
        match r {
            Some(f) => find_fn(fns_view(fns@), name@) == Some(f@),
            None => find_fn(fns_view(fns@), name@) is None,
        },
{
    let ghost view = fns_view(fns@);
    let mut k: usize = fns.len();
    assert(view.take(k as int) =~= view);
    while k > 0
        invariant
            k <= fns.len(),
            view == fns_view(fns@),
            find_fn(view, name@) == find_fn(view.take(k as int), name@),
        decreases k,
    {
        k -= 1;
        assert(view.take(k + 1).drop_last() =~= view.take(k as int));
        if *fns[k].name == *name {
            return Some(fns[k]);
        }
    }
    None
}

/// Writes `step` behind the steps written so far and returns its index.
fn emit(steps: &mut Vec<Step>, step: Step) -> (i: usize)
    requires
        well_formed(old(steps)@),
        step.looks_back(old(steps).len() as int),
    ensures
        final(steps)@ == old(steps)@.push(step),
        i == old(steps).len(),
        well_formed(final(steps)@),
        extends(final(steps)@, old(steps)@),
{
    let i = steps.len();
    steps.push(step);
    i
}

/// Evaluates the arguments of a call from left to right.
fn eval_arguments<'a>(
    args: &'a Vec<Expr>,
    vars: &mut Vec<Binding<'a>>,
    fns: &mut Vec<Function<'a>>,
    steps: &mut Vec<Step>,
    depth: usize,
) -> (r: Result<Vec<usize>, EvalError>)
    requires
        well_formed(old(steps)@),
        vars_within(old(vars)@, old(steps).len() as int),
    ensures
        final(vars)@ == old(vars)@,
        final(fns)@ == old(fns)@,
        well_formed(final(steps)@),
        extends(final(steps)@, old(steps)@),
        r matches Ok(values) ==> values_within(values@, final(steps).len() as int),
        literals_valid(old(steps)@) && all_literals_valid(exprs_view(args@)) && bodies_valid(
            fns_view(old(fns)@),
        ) ==> literals_valid(final(steps)@),
        outcomes(r, final(steps)@) == eval_args(
            exprs_view(args@),
            0,
            vars_view(old(vars)@, old(steps)@),
            fns_view(old(fns)@),
            depth as nat,
        ),
    decreases depth, args, 1nat,
{
    let ghost steps0 = steps@;
    let ghost env = vars_view(vars@, steps@);
    let ghost defs = fns_view(fns@);
    let ghost views = exprs_view(args@);
    let mut values: Vec<usize> = Vec::new();
    let mut k: usize = 0;
    assert(prepend_values(terms_at(steps@, values@), eval_args(views, 0, env, defs, depth as nat))
        == eval_args(views, 0, env, defs, depth as nat)) by {
        if let Ok(rest) = eval_args(views, 0, env, defs, depth as nat) {
            assert(terms_at(steps@, values@) + rest =~= rest);
        }
    }
    while k < args.len()
        invariant
            k <= args.len(),
            views == exprs_view(args@),
            steps0 == old(steps)@,
            vars@ == old(vars)@,
            fns@ == old(fns)@,
            defs == fns_view(fns@),
            env == vars_view(vars@, steps0),
            vars_within(vars@, steps0.len() as int),
            well_formed(steps@),
            extends(steps@, steps0),
            values_within(values@, steps.len() as int),
            literals_valid(steps0) && all_literals_valid(views) && bodies_valid(defs)
                ==> literals_valid(steps@),
            eval_args(views, 0, env, defs, depth as nat) == prepend_values(
                terms_at(steps@, values@),
                eval_args(views, k as int, env, defs, depth as nat),
            ),
        decreases args.len() - k,
    {
        let ghost steps1 = steps@;
        let ghost done = terms_at(steps1, values@);
        proof {
            lemma_vars_view_extends(vars@, steps1, steps0);
        }
        match eval_in(&args[k], vars, fns, steps, depth) {
            Ok(i) => {
                proof {
                    lemma_terms_at_extends(values@, steps@, steps1);
                }
                let ghost value = term_at(steps@, i as int);
                values.push(i);
                assert(terms_at(steps@, values@) =~= done + seq![value]);
                assert(prepend_values(
                    done,
                    prepend_values(seq![value], eval_args(views, k + 1, env, defs, depth as nat)),
                ) == prepend_values(
                    done + seq![value],
                    eval_args(views, k + 1, env, defs, depth as nat),
                )) by {
                    if let Ok(rest) = eval_args(views, k + 1, env, defs, depth as nat) {
                        assert(done + (seq![value] + rest) =~= (done + seq![value]) + rest);
                    }
                }
                k += 1;
            },
            Err(err) => {
                assert(extends(steps@, steps0)) by {
                    assert forall|j: int| 0 <= j < steps0.len() implies steps@[j] == steps0[j] by {
                        assert(steps1[j] == steps0[j]);
                    }
                }
                assert(eval_args(views, k as int, env, defs, depth as nat) == Err::<
                    Seq<Arith>,
                    EvalErrorView,
                >(err@));
                return Err(err);
            },
        }
    }
    assert(terms_at(steps@, values@) + Seq::<Arith>::empty() =~= terms_at(steps@, values@));
    Ok(values)
}

/// Binds each parameter to the argument at its place.
fn bind<'a>(params: &'a Vec<String>, values: &Vec<usize>, Ghost(steps): Ghost<Seq<Step>>) -> (frame:
    Vec<Binding<'a>>)
    requires
        params.len() == values.len(),
        values_within(values@, steps.len() as int),
    ensures
        vars_view(frame@, steps) == bind_params(params.deep_view(), terms_at(steps, values@)),
        vars_within(frame@, steps.len() as int),
{
    let mut frame: Vec<Binding<'a>> = Vec::new();
    let mut k: usize = 0;
    while k < params.len()
        invariant
            k <= params.len(),
            params.len() == values.len(),
            values_within(values@, steps.len() as int),
            frame.len() == k,
            forall|j: int|
                0 <= j < k ==> (#[trigger] frame[j]).name@ == params[j]@ && frame[j].value
                    == values[j],
        decreases params.len() - k,
    {
        frame.push(Binding { name: &params[k], value: values[k] });
        k += 1;
    }
    assert(vars_view(frame@, steps) =~= bind_params(
        params.deep_view(),
        terms_at(steps, values@),
    ));
    frame
}

/// Evaluates `e` with the variables `vars` and the functions `fns`, and
/// writes the steps that compute its value behind `steps`.
///
/// Returns the index of the step that holds the value of `e`, or the error
/// that [`eval_expr`] gives. Both environments are left as they were; only
/// new steps are added. Calls may nest `depth` deep.
pub fn eval_in<'a>(
    e: &'a Expr,
    vars: &mut Vec<Binding<'a>>,
    fns: &mut Vec<Function<'a>>,
    steps: &mut Vec<Step>,
    depth: usize,
) -> (r: Result<usize, EvalError>)
    requires
        well_formed(old(steps)@),
        vars_within(old(vars)@, old(steps).len() as int),
    ensures
        final(vars)@ == old(vars)@,
        final(fns)@ == old(fns)@,
        well_formed(final(steps)@),
        extends(final(steps)@, old(steps)@),
        r matches Ok(i) ==> i < final(steps).len(),
        literals_valid(old(steps)@) && e@.literals_valid() && bodies_valid(fns_view(old(fns)@))
            ==> literals_valid(final(steps)@),
        outcome(r, final(steps)@) == eval_expr(
            e@,
            vars_view(old(vars)@, old(steps)@),
            fns_view(old(fns)@),
            depth as nat,
        ),
    decreases depth, e, 0nat,
{
    let ghost steps0 = steps@;
    let ghost vars0 = vars@;
    let ghost fns0 = fns@;
    match e {
        Expr::Num(text) => Ok(emit(steps, Step::Num(text.clone()))),
        Expr::Var(name) => match lookup_var(vars, name, Ghost(steps@)) {
            Some(k) => Ok(vars[k].value),
            None => Err(EvalError::UndefinedVariable(name.clone())),
        },
        Expr::Neg(inner) => match eval_in(inner, vars, fns, steps, depth) {
            Ok(a) => {
                let ghost steps1 = steps@;
                let i = emit(steps, Step::Neg(a));
                proof {
                    lemma_term_at_extends(steps@, steps1, a as int);
                }
                Ok(i)
            },
            Err(err) => Err(err),
        },
        Expr::Add(l, r) | Expr::Sub(l, r) | Expr::Mul(l, r) | Expr::Div(l, r) => {
            let a = match eval_in(l, vars, fns, steps, depth) {
                Ok(a) => a,
                Err(err) => {
                    return Err(err);
                },
            };
            let ghost steps1 = steps@;
            proof {
                lemma_vars_view_extends(vars@, steps1, steps0);
            }
            let b = match eval_in(r, vars, fns, steps, depth) {
                Ok(b) => b,
                Err(err) => {
                    return Err(err);
                },
            };
            let ghost steps2 = steps@;
            let step = match e {
                Expr::Add(_, _) => Step::Add(a, b),
                Expr::Sub(_, _) => Step::Sub(a, b),
                Expr::Mul(_, _) => Step::Mul(a, b),
                _ => Step::Div(a, b),
            };
            let i = emit(steps, step);
            proof {
                lemma_term_at_extends(steps2, steps1, a as int);
                lemma_term_at_extends(steps@, steps2, a as int);
                lemma_term_at_extends(steps@, steps2, b as int);
            }
            Ok(i)
        },
        Expr::Call(name, args) => {
            proof {
                lemma_call_view(*name, *args);
                if bodies_valid(fns_view(fns@)) {
                    lemma_find_fn_valid(fns_view(fns@), name@);
                }
            }
            let f = match lookup_fn(fns, name) {
                Some(f) => f,
                None => {
                    return Err(EvalError::UndefinedFunction(name.clone()));
                },
            };
            let values = match eval_arguments(args, vars, fns, steps, depth) {
                Ok(values) => values,
                Err(err) => {
                    return Err(err);
                },
            };
            if values.len() != f.params.len() {
                return Err(EvalError::ArityMismatch(name.clone(), f.params.len(), values.len()));
            }
            if depth == 0 {
                return Err(EvalError::DepthLimitExceeded);
            }
            let ghost steps1 = steps@;
            let mut frame = bind(f.params, &values, Ghost(steps@));
            let r = eval_in(f.body, &mut frame, fns, steps, depth - 1);
            r
        },
        Expr::Let { name, rhs, then } => match eval_in(rhs, vars, fns, steps, depth) {
            Ok(value) => {
                let ghost steps1 = steps@;
                proof {
                    lemma_vars_view_extends(vars0, steps1, steps0);
                }
                vars.push(Binding { name, value });
                assert(vars_view(vars@, steps1) =~= vars_view(vars0, steps0).push(
                    (name@, term_at(steps1, value as int)),
                ));
                let r = eval_in(then, vars, fns, steps, depth);
                vars.pop();
                assert(vars@ =~= vars0);
                r
            },
            Err(err) => Err(err),
        },
        Expr::Fn { name, args, body, then } => {
            fns.push(Function { name, params: args, body });
            assert(fns_view(fns@) =~= fns_view(fns0).push(
                FunctionView { name: name@, params: args.deep_view(), body: body@ },
            ));
            let r = eval_in(then, vars, fns, steps, depth);
            fns.pop();
            assert(fns@ =~= fns0);
            r
        },
    }
}

/// The greatest depth to which [`eval`] lets calls nest.
pub const MAX_DEPTH: usize = 128;

/// Evaluates the program `e`, starting with empty environments.
///
/// Returns the arithmetic that `e` stands for as a well-formed
/// [`Program`], or the error that [`eval_program`] gives. Calls may nest
/// `depth` deep.
pub fn eval_with_depth(e: &Expr, depth: usize) -> (r: Result<Program, EvalError>)
    ensures
        match r {
            Ok(program) => program.well_formed() && eval_program(e@, depth as nat) == Ok::<
                Arith,
                EvalErrorView,
            >(program.term()),
            Err(err) => eval_program(e@, depth as nat) == Err::<Arith, EvalErrorView>(err@),
        },
        e@.literals_valid() ==> (r matches Ok(program) ==> program.literals_valid()),
{
    let mut vars: Vec<Binding<'_>> = Vec::new();
    let mut fns: Vec<Function<'_>> = Vec::new();
    let mut steps: Vec<Step> = Vec::new();
    assert(vars_view(vars@, steps@) =~= Seq::empty());
    assert(fns_view(fns@) =~= Seq::empty());
    match eval_in(e, &mut vars, &mut fns, &mut steps, depth) {
        Ok(result) => Ok(Program { steps, result }),
        Err(err) => Err(err),
    }
}

/// Evaluates the program `e`, starting with empty environments and letting
/// calls nest [`MAX_DEPTH`] deep.
pub fn eval(e: &Expr) -> (r: Result<Program, EvalError>)
    ensures
        match r {
            Ok(program) => program.well_formed() && eval_program(e@, MAX_DEPTH as nat) == Ok::<
                Arith,
                EvalErrorView,
            >(program.term()),
            Err(err) => eval_program(e@, MAX_DEPTH as nat) == Err::<Arith, EvalErrorView>(err@),
        },
        e@.literals_valid() ==> (r matches Ok(program) ==> program.literals_valid()),
{
    eval_with_depth(e, MAX_DEPTH)
}

} // verus!
