//! The canonical notation of a tree, and the law that the parser reads it
//! back.
//!
//! [`render`] writes a tree in the usual way: a product binds tighter than a
//! sum, operators of one rank group to the left, a minus sign binds tighter
//! than both, and parentheses stand exactly where the tree would otherwise
//! be read differently. [`lemma_parse_render`] shows that [`parse`] gives
//! every program back from its notation.
use crate::ast::ExprView;
use crate::parser::{
    lemma_expr_advances, lemma_names_end_bounds, lemma_product_advances, lemma_unary_advances,
    names, names_end, parse,
    parse_args, parse_atom, parse_bound, parse_decl, parse_expr, parse_product,
    parse_product_rest, parse_sum_rest, parse_unary, peek, ParseErrorView,
};
use crate::eval::{
    arithmetic_of, eval_program, is_arithmetic, lemma_eval_arithmetic, Arith, EvalErrorView,
};
use crate::lexer::{lemma_lex_spaced, lex, spell_spaced, LexError};
use crate::token::{all_well_formed, is_identifier, TokenView};
use vstd::prelude::*;

verus! {

/// `e` is an expression: it holds no declaration.
pub open spec fn is_expression(e: ExprView) -> bool
    decreases e,
{
    match e {
        ExprView::Num(_) => true,
        ExprView::Var(_) => true,
        ExprView::Neg(inner) => is_expression(*inner),
        ExprView::Add(l, r) | ExprView::Sub(l, r) | ExprView::Mul(l, r) | ExprView::Div(l, r) =>
            is_expression(*l) && is_expression(*r),
        ExprView::Call(_, args) => forall|k: int|
            0 <= k < args.len() ==> is_expression(#[trigger] args[k]),
        ExprView::Let { .. } => false,
        ExprView::Fn { .. } => false,
    }
}

/// How tightly the outermost operator of `e` binds: 0 for a sum, 1 for a
/// product, 2 for a minus sign, 3 for an atom.
pub open spec fn rank(e: ExprView) -> int {
    match e {
        ExprView::Add(_, _) | ExprView::Sub(_, _) => 0,
        ExprView::Mul(_, _) | ExprView::Div(_, _) => 1,
        ExprView::Neg(_) => 2,
        _ => 3,
    }
}

/// The notation of the expression `e` in a place that takes operators of
/// rank `level` and above: in parentheses where `e` binds less tightly.
pub open spec fn render(e: ExprView, level: int) -> Seq<TokenView>
    decreases e, level,
{
    if 0 <= rank(e) < level {
        seq![TokenView::OpenParen] + render(e, 0) + seq![TokenView::CloseParen]
    } else {
        match e {
            ExprView::Num(text) => seq![TokenView::Num(text)],
            ExprView::Var(name) => seq![TokenView::Ident(name)],
            ExprView::Neg(inner) => seq![TokenView::Minus] + render(*inner, 2),
            ExprView::Add(l, r) => render(*l, 0) + seq![TokenView::Plus] + render(*r, 1),
            ExprView::Sub(l, r) => render(*l, 0) + seq![TokenView::Minus] + render(*r, 1),
            ExprView::Mul(l, r) => render(*l, 1) + seq![TokenView::Times] + render(*r, 2),
            ExprView::Div(l, r) => render(*l, 1) + seq![TokenView::Div] + render(*r, 2),
            ExprView::Call(name, args) => seq![TokenView::Ident(name), TokenView::OpenParen]
                + render_args(args, 0) + seq![TokenView::CloseParen],
            _ => Seq::empty(),
        }
    }
}

/// The notation of the arguments `args[k..]`, with commas between them.
pub open spec fn render_args(args: Seq<ExprView>, k: int) -> Seq<TokenView>
    decreases args, args.len() - k,
{
    if 0 <= k < args.len() {
        if k + 1 < args.len() {
            render(args[k], 0) + seq![TokenView::Comma] + render_args(args, k + 1)
        } else {
            render(args[k], 0)
        }
    } else {
        Seq::empty()
    }
}

/// The tokens `r` stand in `ts` from `i` on.
pub open spec fn has_at(ts: Seq<TokenView>, i: int, r: Seq<TokenView>) -> bool {
    &&& 0 <= i
    &&& i + r.len() <= ts.len()
    &&& forall|k: int| 0 <= k < r.len() ==> ts[i + k] == #[trigger] r[k]
}

/// Where a sequence stands, its front part stands, and its back part behind
/// that.
pub proof fn lemma_has_at_split(ts: Seq<TokenView>, i: int, a: Seq<TokenView>, b: Seq<TokenView>)
    requires
        has_at(ts, i, a + b),
    ensures
        has_at(ts, i, a),
        has_at(ts, i + a.len(), b),
{
    assert forall|k: int| 0 <= k < a.len() implies ts[i + k] == #[trigger] a[k] by {
        assert((a + b)[k] == a[k]);
    }
    assert forall|k: int| 0 <= k < b.len() implies ts[i + a.len() + k] == #[trigger] b[k] by {
        assert((a + b)[a.len() + k] == b[k]);
    }
}

/// The token at `i` is none of `*`, `/` and `(`.
pub open spec fn ends_product(ts: Seq<TokenView>, i: int) -> bool {
    &&& peek(ts, i) != Some(TokenView::Times)
    &&& peek(ts, i) != Some(TokenView::Div)
    &&& peek(ts, i) != Some(TokenView::OpenParen)
}

/// The token at `i` is none of `+`, `-`, `*`, `/` and `(`.
pub open spec fn ends_expr(ts: Seq<TokenView>, i: int) -> bool {
    &&& ends_product(ts, i)
    &&& peek(ts, i) != Some(TokenView::Plus)
    &&& peek(ts, i) != Some(TokenView::Minus)
}

/// The order in which the three statements about one tree rest on each
/// other.
pub open spec fn turn(e: ExprView, level: int) -> int {
    let r = if rank(e) > 2 {
        2
    } else {
        rank(e)
    };
    (r - level + 3) % 3
}

/// The notation of a unary expression is read back as a unary expression.
pub proof fn lemma_unary_render(e: ExprView, ts: Seq<TokenView>, i: int)
    requires
        is_expression(e),
        has_at(ts, i, render(e, 2)),
        peek(ts, i + render(e, 2).len()) != Some(TokenView::OpenParen),
    ensures
        parse_unary(ts, i) == Ok::<(ExprView, int), ParseErrorView>(
            (e, i + render(e, 2).len()),
        ),
    decreases e, turn(e, 2),
{
    let end = i + render(e, 2).len();
    match e {
        ExprView::Num(_) => {
            assert(ts[i] == render(e, 2)[0]);
            assert(parse_atom(ts, i) == Ok::<(ExprView, int), ParseErrorView>((e, end)));
        },
        ExprView::Var(_) => {
            assert(ts[i] == render(e, 2)[0]);
            assert(parse_atom(ts, i) == Ok::<(ExprView, int), ParseErrorView>((e, end)));
        },
        ExprView::Neg(inner) => {
            lemma_has_at_split(ts, i, seq![TokenView::Minus], render(*inner, 2));
            assert(ts[i] == seq![TokenView::Minus][0]);
            lemma_unary_render(*inner, ts, i + 1);
        },
        ExprView::Call(name, args) => {
            let head = seq![TokenView::Ident(name), TokenView::OpenParen];
            lemma_has_at_split(
                ts,
                i,
                head + render_args(args, 0),
                seq![TokenView::CloseParen],
            );
            lemma_has_at_split(ts, i, head, render_args(args, 0));
            assert(ts[i] == head[0]);
            assert(ts[i + 1] == head[1]);
            assert(ts[i + 2 + render_args(args, 0).len()] == seq![TokenView::CloseParen][0]);
            lemma_args_render(args, 0, ts, i + 2);
            assert(args.skip(0) =~= args);
            assert(parse_atom(ts, i) == Ok::<(ExprView, int), ParseErrorView>((e, end)));
        },
        ExprView::Add(_, _) | ExprView::Sub(_, _) | ExprView::Mul(_, _) | ExprView::Div(_, _) => {
            let open = seq![TokenView::OpenParen];
            let close = seq![TokenView::CloseParen];
            lemma_has_at_split(ts, i, open + render(e, 0), close);
            lemma_has_at_split(ts, i, open, render(e, 0));
            assert(ts[i] == open[0]);
            assert(ts[end - 1] == close[0]);
            lemma_sum_render(e, ts, i + 1);
            assert(parse_atom(ts, i) == Ok::<(ExprView, int), ParseErrorView>((e, end)));
        },
        _ => {},
    }
}

/// The notation of a product is read as far as a product goes: what is left
/// to read is the rest of a product whose left operand is the tree.
pub proof fn lemma_product_render(e: ExprView, ts: Seq<TokenView>, i: int)
    requires
        is_expression(e),
        has_at(ts, i, render(e, 1)),
        peek(ts, i + render(e, 1).len()) != Some(TokenView::OpenParen),
    ensures
        parse_product(ts, i) == parse_product_rest(ts, i + render(e, 1).len(), e),
    decreases e, turn(e, 1),
{
    let end = i + render(e, 1).len();
    match e {
        ExprView::Mul(l, r) => {
            let op = seq![TokenView::Times];
            lemma_has_at_split(ts, i, render(*l, 1) + op, render(*r, 2));
            lemma_has_at_split(ts, i, render(*l, 1), op);
            let mid = i + render(*l, 1).len();
            assert(ts[mid] == op[0]);
            lemma_product_render(*l, ts, i);
            lemma_unary_render(*r, ts, mid + 1);
            lemma_unary_advances(ts, mid + 1);
        },
        ExprView::Div(l, r) => {
            let op = seq![TokenView::Div];
            lemma_has_at_split(ts, i, render(*l, 1) + op, render(*r, 2));
            lemma_has_at_split(ts, i, render(*l, 1), op);
            let mid = i + render(*l, 1).len();
            assert(ts[mid] == op[0]);
            lemma_product_render(*l, ts, i);
            lemma_unary_render(*r, ts, mid + 1);
            lemma_unary_advances(ts, mid + 1);
        },
        _ => {
            assert(render(e, 1) == render(e, 2));
            lemma_unary_render(e, ts, i);
            lemma_unary_advances(ts, i);
        },
    }
}

/// The notation of a sum is read as far as a sum goes: what is left to read
/// is the rest of a sum whose left operand is the tree.
pub proof fn lemma_sum_render(e: ExprView, ts: Seq<TokenView>, i: int)
    requires
        is_expression(e),
        has_at(ts, i, render(e, 0)),
        ends_product(ts, i + render(e, 0).len()),
    ensures
        parse_expr(ts, i) == parse_sum_rest(ts, i + render(e, 0).len(), e),
    decreases e, turn(e, 0),
{
    let end = i + render(e, 0).len();
    match e {
        ExprView::Add(l, r) => {
            let op = seq![TokenView::Plus];
            lemma_has_at_split(ts, i, render(*l, 0) + op, render(*r, 1));
            lemma_has_at_split(ts, i, render(*l, 0), op);
            let mid = i + render(*l, 0).len();
            assert(ts[mid] == op[0]);
            lemma_sum_render(*l, ts, i);
            lemma_product_render(*r, ts, mid + 1);
            lemma_product_advances(ts, mid + 1);
        },
        ExprView::Sub(l, r) => {
            let op = seq![TokenView::Minus];
            lemma_has_at_split(ts, i, render(*l, 0) + op, render(*r, 1));
            lemma_has_at_split(ts, i, render(*l, 0), op);
            let mid = i + render(*l, 0).len();
            assert(ts[mid] == op[0]);
            lemma_sum_render(*l, ts, i);
            lemma_product_render(*r, ts, mid + 1);
            lemma_product_advances(ts, mid + 1);
        },
        _ => {
            assert(render(e, 0) == render(e, 1));
            lemma_product_render(e, ts, i);
            lemma_product_advances(ts, i);
        },
    }
}

/// The notation of arguments, closed by `)`, is read back as those
/// arguments.
pub proof fn lemma_args_render(args: Seq<ExprView>, k: int, ts: Seq<TokenView>, i: int)
    requires
        forall|m: int| 0 <= m < args.len() ==> is_expression(#[trigger] args[m]),
        0 <= k <= args.len(),
        has_at(ts, i, render_args(args, k)),
        peek(ts, i + render_args(args, k).len()) == Some(TokenView::CloseParen),
    ensures
        parse_args(ts, i) == Ok::<(Seq<ExprView>, int), ParseErrorView>(
            (args.skip(k), i + render_args(args, k).len() + 1),
        ),
    decreases args, args.len() - k,
{
    if k == args.len() {
        assert(args.skip(k) =~= Seq::<ExprView>::empty());
    } else {
        let e = args[k];
        let first = render(e, 0);
        if k + 1 < args.len() {
            let comma = seq![TokenView::Comma];
            lemma_has_at_split(ts, i, first + comma, render_args(args, k + 1));
            lemma_has_at_split(ts, i, first, comma);
            let mid = i + first.len();
            assert(ts[mid] == comma[0]);
            lemma_expr_render(e, ts, i);
            lemma_args_render(args, k + 1, ts, mid + 1);
            assert(seq![e] + args.skip(k + 1) =~= args.skip(k));
        } else {
            lemma_expr_render(e, ts, i);
            assert(seq![e] =~= args.skip(k));
        }
        lemma_starts_no_close(ts, i);
    }
}

/// No expression starts with `)`.
proof fn lemma_starts_no_close(ts: Seq<TokenView>, i: int)
    requires
        parse_expr(ts, i) is Ok,
    ensures
        peek(ts, i) != Some(TokenView::CloseParen),
{
    if peek(ts, i) == Some(TokenView::CloseParen) {
        assert(parse_atom(ts, i) is Err);
        assert(parse_unary(ts, i) is Err);
        assert(parse_product(ts, i) is Err);
    }
}

/// The notation of an expression is read back as that expression, where no
/// operator and no `(` follows it.
pub proof fn lemma_expr_render(e: ExprView, ts: Seq<TokenView>, i: int)
    requires
        is_expression(e),
        has_at(ts, i, render(e, 0)),
        ends_expr(ts, i + render(e, 0).len()),
    ensures
        parse_expr(ts, i) == Ok::<(ExprView, int), ParseErrorView>(
            (e, i + render(e, 0).len()),
        ),
    decreases e, 3int,
{
    lemma_sum_render(e, ts, i);
}

/// `e` is a program: a chain of declarations that bind expressions and end
/// in an expression.
pub open spec fn is_program(e: ExprView) -> bool
    decreases e,
{
    match e {
        ExprView::Let { rhs, then, .. } => is_expression(*rhs) && is_program(*then),
        ExprView::Fn { body, then, .. } => is_expression(*body) && is_program(*then),
        _ => is_expression(e),
    }
}

/// One identifier for each of `names`.
pub open spec fn idents(names: Seq<Seq<char>>) -> Seq<TokenView> {
    Seq::new(names.len(), |k: int| TokenView::Ident(names[k]))
}

/// The notation of the program `e`.
pub open spec fn render_program(e: ExprView) -> Seq<TokenView>
    decreases e,
{
    match e {
        ExprView::Let { name, rhs, then } => seq![
            TokenView::Let,
            TokenView::Ident(name),
            TokenView::Eq,
        ] + render(*rhs, 0) + seq![TokenView::Semi] + render_program(*then),
        ExprView::Fn { name, args, body, then } => seq![TokenView::Fn, TokenView::Ident(name)]
            + idents(args) + seq![TokenView::Eq] + render(*body, 0) + seq![TokenView::Semi]
            + render_program(*then),
        _ => render(e, 0),
    }
}

/// No expression starts with `let` or `fn`.
proof fn lemma_starts_no_keyword(ts: Seq<TokenView>, i: int)
    requires
        parse_expr(ts, i) is Ok,
    ensures
        peek(ts, i) != Some(TokenView::Let),
        peek(ts, i) != Some(TokenView::Fn),
{
    if peek(ts, i) == Some(TokenView::Let) || peek(ts, i) == Some(TokenView::Fn) {
        assert(parse_atom(ts, i) is Err);
        assert(parse_unary(ts, i) is Err);
        assert(parse_product(ts, i) is Err);
    }
}

/// A run of `n` identifiers that no identifier follows ends behind them.
proof fn lemma_names_run(ts: Seq<TokenView>, i: int, n: int)
    requires
        0 <= i,
        0 <= n,
        i + n <= ts.len(),
        forall|k: int| i <= k < i + n ==> (#[trigger] ts[k]) is Ident,
        !(peek(ts, i + n) is Some && peek(ts, i + n)->0 is Ident),
    ensures
        names_end(ts, i) == i + n,
    decreases n,
{
    if n > 0 {
        assert(ts[i] is Ident);
        lemma_names_run(ts, i + 1, n - 1);
    }
}

/// A `let` declaration is read from its parts.
proof fn lemma_let_read(
    ts: Seq<TokenView>,
    i: int,
    name: Seq<char>,
    rhs: ExprView,
    then: ExprView,
    mid: int,
    end: int,
)
    requires
        peek(ts, i) == Some(TokenView::Let),
        peek(ts, i + 1) == Some(TokenView::Ident(name)),
        peek(ts, i + 2) == Some(TokenView::Eq),
        parse_expr(ts, i + 3) == Ok::<(ExprView, int), ParseErrorView>((rhs, mid)),
        peek(ts, mid) == Some(TokenView::Semi),
        parse_decl(ts, mid + 1) == Ok::<(ExprView, int), ParseErrorView>((then, end)),
    ensures
        parse_decl(ts, i) == Ok::<(ExprView, int), ParseErrorView>(
            (ExprView::Let { name, rhs: Box::new(rhs), then: Box::new(then) }, end),
        ),
{
    lemma_expr_advances(ts, i + 3);
    assert(parse_bound(ts, i + 3) == Ok::<(ExprView, ExprView, int), ParseErrorView>(
        (rhs, then, end),
    ));
}

/// A `fn` declaration is read from its parts.
proof fn lemma_fn_read(
    ts: Seq<TokenView>,
    i: int,
    name: Seq<char>,
    args: Seq<Seq<char>>,
    body: ExprView,
    then: ExprView,
    p: int,
    mid: int,
    end: int,
)
    requires
        peek(ts, i) == Some(TokenView::Fn),
        peek(ts, i + 1) == Some(TokenView::Ident(name)),
        names_end(ts, i + 2) == p,
        names(ts, i + 2, p) == args,
        peek(ts, p) == Some(TokenView::Eq),
        parse_expr(ts, p + 1) == Ok::<(ExprView, int), ParseErrorView>((body, mid)),
        peek(ts, mid) == Some(TokenView::Semi),
        parse_decl(ts, mid + 1) == Ok::<(ExprView, int), ParseErrorView>((then, end)),
    ensures
        parse_decl(ts, i) == Ok::<(ExprView, int), ParseErrorView>(
            (ExprView::Fn { name, args, body: Box::new(body), then: Box::new(then) }, end),
        ),
{
    lemma_expr_advances(ts, p + 1);
    assert(parse_bound(ts, p + 1) == Ok::<(ExprView, ExprView, int), ParseErrorView>(
        (body, then, end),
    ));
}

/// The parameter names of a `fn` declaration are read from their
/// identifiers.
proof fn lemma_params_read(ts: Seq<TokenView>, i: int, args: Seq<Seq<char>>)
    requires
        has_at(ts, i, idents(args)),
        peek(ts, i + args.len()) == Some(TokenView::Eq),
    ensures
        names_end(ts, i) == i + args.len(),
        names(ts, i, i + args.len()) == args,
{
    let params = idents(args);
    let p = i + args.len();
    assert forall|k: int| i <= k < p implies (#[trigger] ts[k]) is Ident by {
        assert(ts[i + (k - i)] == params[k - i]);
    }
    lemma_names_run(ts, i, args.len() as int);
    assert(names(ts, i, p) =~= args) by {
        assert forall|k: int| 0 <= k < args.len() implies names(ts, i, p)[k] == args[k] by {
            assert(ts[i + k] == params[k]);
        }
    }
}

/// The notation of a program is read back as that program, where no
/// operator and no `(` follows it.
pub proof fn lemma_program_render(e: ExprView, ts: Seq<TokenView>, i: int)
    requires
        is_program(e),
        has_at(ts, i, render_program(e)),
        ends_expr(ts, i + render_program(e).len()),
    ensures
        parse_decl(ts, i) == Ok::<(ExprView, int), ParseErrorView>(
            (e, i + render_program(e).len()),
        ),
    decreases e,
{
    let end = i + render_program(e).len();
    match e {
        ExprView::Let { name, rhs, then } => {
            let head = seq![TokenView::Let, TokenView::Ident(name), TokenView::Eq];
            let semi = seq![TokenView::Semi];
            let bound = render(*rhs, 0);
            lemma_has_at_split(ts, i, head + bound + semi, render_program(*then));
            lemma_has_at_split(ts, i, head + bound, semi);
            lemma_has_at_split(ts, i, head, bound);
            assert(ts[i] == head[0]);
            assert(ts[i + 1] == head[1]);
            assert(ts[i + 2] == head[2]);
            let mid = i + 3 + bound.len();
            assert(ts[mid] == semi[0]);
            lemma_expr_render(*rhs, ts, i + 3);
            lemma_program_render(*then, ts, mid + 1);
            lemma_let_read(ts, i, name, *rhs, *then, mid, end);
        },
        ExprView::Fn { name, args, body, then } => {
            let head = seq![TokenView::Fn, TokenView::Ident(name)];
            let params = idents(args);
            let eq = seq![TokenView::Eq];
            let semi = seq![TokenView::Semi];
            let bound = render(*body, 0);
            lemma_has_at_split(
                ts,
                i,
                head + params + eq + bound + semi,
                render_program(*then),
            );
            lemma_has_at_split(ts, i, head + params + eq + bound, semi);
            lemma_has_at_split(ts, i, head + params + eq, bound);
            lemma_has_at_split(ts, i, head + params, eq);
            lemma_has_at_split(ts, i, head, params);
            assert(ts[i] == head[0]);
            assert(ts[i + 1] == head[1]);
            let p = i + 2 + params.len();
            assert(ts[p] == eq[0]);
            lemma_params_read(ts, i + 2, args);
            let mid = p + 1 + bound.len();
            assert(ts[mid] == semi[0]);
            lemma_expr_render(*body, ts, p + 1);
            lemma_program_render(*then, ts, mid + 1);
            lemma_fn_read(ts, i, name, args, *body, *then, p, mid, end);
        },
        _ => {
            lemma_expr_render(e, ts, i);
            lemma_starts_no_keyword(ts, i);
        },
    }
}

/// An atom that the parser reads is an expression.
pub proof fn lemma_atom_is_expression(ts: Seq<TokenView>, i: int)
    ensures
        parse_atom(ts, i) matches Ok((e, _)) ==> is_expression(e),
    decreases ts.len() - i, 0int,
{
    match peek(ts, i) {
        Some(TokenView::OpenParen) => {
            lemma_expr_is_expression(ts, i + 1);
        },
        Some(TokenView::Ident(_)) => {
            if peek(ts, i + 1) == Some(TokenView::OpenParen) {
                lemma_args_are_expressions(ts, i + 2);
            }
        },
        _ => {},
    }
}

/// A unary expression that the parser reads is an expression.
pub proof fn lemma_unary_is_expression(ts: Seq<TokenView>, i: int)
    ensures
        parse_unary(ts, i) matches Ok((e, _)) ==> is_expression(e),
    decreases ts.len() - i, 1int,
{
    if peek(ts, i) == Some(TokenView::Minus) {
        lemma_unary_is_expression(ts, i + 1);
    } else {
        lemma_atom_is_expression(ts, i);
    }
}

/// The rest of a product that the parser reads makes an expression of an
/// expression.
pub proof fn lemma_product_rest_is_expression(ts: Seq<TokenView>, i: int, lhs: ExprView)
    requires
        is_expression(lhs),
    ensures
        parse_product_rest(ts, i, lhs) matches Ok((e, _)) ==> is_expression(e),
    decreases ts.len() - i, 2int,
{
    if peek(ts, i) == Some(TokenView::Times) || peek(ts, i) == Some(TokenView::Div) {
        lemma_unary_is_expression(ts, i + 1);
        lemma_unary_advances(ts, i + 1);
        if let Ok((rhs, j)) = parse_unary(ts, i + 1) {
            if peek(ts, i) == Some(TokenView::Times) {
                lemma_product_rest_is_expression(
                    ts,
                    j,
                    ExprView::Mul(Box::new(lhs), Box::new(rhs)),
                );
            } else {
                lemma_product_rest_is_expression(
                    ts,
                    j,
                    ExprView::Div(Box::new(lhs), Box::new(rhs)),
                );
            }
        }
    }
}

/// A product that the parser reads is an expression.
pub proof fn lemma_product_is_expression(ts: Seq<TokenView>, i: int)
    ensures
        parse_product(ts, i) matches Ok((e, _)) ==> is_expression(e),
    decreases ts.len() - i, 3int,
{
    lemma_unary_is_expression(ts, i);
    lemma_unary_advances(ts, i);
    if let Ok((lhs, j)) = parse_unary(ts, i) {
        lemma_product_rest_is_expression(ts, j, lhs);
    }
}

/// The rest of a sum that the parser reads makes an expression of an
/// expression.
pub proof fn lemma_sum_rest_is_expression(ts: Seq<TokenView>, i: int, lhs: ExprView)
    requires
        is_expression(lhs),
    ensures
        parse_sum_rest(ts, i, lhs) matches Ok((e, _)) ==> is_expression(e),
    decreases ts.len() - i, 4int,
{
    if peek(ts, i) == Some(TokenView::Plus) || peek(ts, i) == Some(TokenView::Minus) {
        lemma_product_is_expression(ts, i + 1);
        lemma_product_advances(ts, i + 1);
        if let Ok((rhs, j)) = parse_product(ts, i + 1) {
            if peek(ts, i) == Some(TokenView::Plus) {
                lemma_sum_rest_is_expression(
                    ts,
                    j,
                    ExprView::Add(Box::new(lhs), Box::new(rhs)),
                );
            } else {
                lemma_sum_rest_is_expression(
                    ts,
                    j,
                    ExprView::Sub(Box::new(lhs), Box::new(rhs)),
                );
            }
        }
    }
}

/// An expression that the parser reads holds no declaration.
pub proof fn lemma_expr_is_expression(ts: Seq<TokenView>, i: int)
    ensures
        parse_expr(ts, i) matches Ok((e, _)) ==> is_expression(e),
    decreases ts.len() - i, 5int,
{
    lemma_product_is_expression(ts, i);
    lemma_product_advances(ts, i);
    if let Ok((lhs, j)) = parse_product(ts, i) {
        lemma_sum_rest_is_expression(ts, j, lhs);
    }
}

/// The arguments that the parser reads are expressions.
pub proof fn lemma_args_are_expressions(ts: Seq<TokenView>, i: int)
    ensures
        parse_args(ts, i) matches Ok((args, _)) ==> forall|k: int|
            0 <= k < args.len() ==> is_expression(#[trigger] args[k]),
    decreases ts.len() - i, 6int,
{
    if peek(ts, i) != Some(TokenView::CloseParen) {
        lemma_expr_is_expression(ts, i);
        lemma_expr_advances(ts, i);
        if let Ok((e, j)) = parse_expr(ts, i) {
            if peek(ts, j) == Some(TokenView::Comma) {
                lemma_args_are_expressions(ts, j + 1);
            }
        }
    }
}

/// What the parser reads behind a declaration's `=` is an expression and a
/// program.
pub proof fn lemma_bound_is_program(ts: Seq<TokenView>, i: int)
    ensures
        parse_bound(ts, i) matches Ok((bound, then, _)) ==> is_expression(bound) && is_program(
            then,
        ),
    decreases ts.len() - i, 7int,
{
    lemma_expr_is_expression(ts, i);
    lemma_expr_advances(ts, i);
    if let Ok((e, j)) = parse_expr(ts, i) {
        if peek(ts, j) == Some(TokenView::Semi) {
            lemma_decl_is_program(ts, j + 1);
        }
    }
}

/// A declaration chain that the parser reads is a program.
pub proof fn lemma_decl_is_program(ts: Seq<TokenView>, i: int)
    ensures
        parse_decl(ts, i) matches Ok((e, _)) ==> is_program(e),
    decreases ts.len() - i, 8int,
{
    match peek(ts, i) {
        Some(TokenView::Let) => {
            if peek(ts, i + 2) == Some(TokenView::Eq) {
                lemma_bound_is_program(ts, i + 3);
            }
        },
        Some(TokenView::Fn) => {
            if peek(ts, i + 1) is Some {
                lemma_names_end_bounds(ts, i + 2);
                let p = names_end(ts, i + 2);
                if peek(ts, p) == Some(TokenView::Eq) {
                    lemma_bound_is_program(ts, p + 1);
                }
            }
        },
        _ => {
            lemma_expr_is_expression(ts, i);
        },
    }
}

/// Whatever the parser reads is a program: declarations stand in a chain
/// in front of an expression and nowhere else.
pub proof fn lemma_parse_is_program(ts: Seq<TokenView>)
    ensures
        parse(ts) matches Ok(e) ==> is_program(e),
{
    lemma_decl_is_program(ts, 0);
}

/// The notation of an expression that can be written down is made of
/// well-formed tokens.
pub proof fn lemma_render_well_formed(e: ExprView, level: int)
    requires
        e.valid(),
    ensures
        all_well_formed(render(e, level)),
    decreases e, level,
{
    if 0 <= rank(e) < level {
        lemma_render_well_formed(e, 0);
        lemma_concat_well_formed(seq![TokenView::OpenParen], render(e, 0));
        lemma_concat_well_formed(
            seq![TokenView::OpenParen] + render(e, 0),
            seq![TokenView::CloseParen],
        );
    } else {
        match e {
            ExprView::Neg(inner) => {
                lemma_render_well_formed(*inner, 2);
                lemma_concat_well_formed(seq![TokenView::Minus], render(*inner, 2));
            },
            ExprView::Add(l, r) => {
                lemma_render_well_formed(*l, 0);
                lemma_render_well_formed(*r, 1);
                lemma_concat_well_formed(render(*l, 0), seq![TokenView::Plus]);
                lemma_concat_well_formed(render(*l, 0) + seq![TokenView::Plus], render(*r, 1));
            },
            ExprView::Sub(l, r) => {
                lemma_render_well_formed(*l, 0);
                lemma_render_well_formed(*r, 1);
                lemma_concat_well_formed(render(*l, 0), seq![TokenView::Minus]);
                lemma_concat_well_formed(render(*l, 0) + seq![TokenView::Minus], render(*r, 1));
            },
            ExprView::Mul(l, r) => {
                lemma_render_well_formed(*l, 1);
                lemma_render_well_formed(*r, 2);
                lemma_concat_well_formed(render(*l, 1), seq![TokenView::Times]);
                lemma_concat_well_formed(render(*l, 1) + seq![TokenView::Times], render(*r, 2));
            },
            ExprView::Div(l, r) => {
                lemma_render_well_formed(*l, 1);
                lemma_render_well_formed(*r, 2);
                lemma_concat_well_formed(render(*l, 1), seq![TokenView::Div]);
                lemma_concat_well_formed(render(*l, 1) + seq![TokenView::Div], render(*r, 2));
            },
            ExprView::Call(name, args) => {
                let head = seq![TokenView::Ident(name), TokenView::OpenParen];
                lemma_render_args_well_formed(args, 0);
                lemma_concat_well_formed(head, render_args(args, 0));
                lemma_concat_well_formed(
                    head + render_args(args, 0),
                    seq![TokenView::CloseParen],
                );
            },
            _ => {},
        }
    }
}

/// The notation of arguments that can be written down is made of
/// well-formed tokens.
pub proof fn lemma_render_args_well_formed(args: Seq<ExprView>, k: int)
    requires
        forall|m: int| 0 <= m < args.len() ==> (#[trigger] args[m]).valid(),
    ensures
        all_well_formed(render_args(args, k)),
    decreases args, args.len() - k,
{
    if 0 <= k < args.len() {
        lemma_render_well_formed(args[k], 0);
        if k + 1 < args.len() {
            lemma_render_args_well_formed(args, k + 1);
            lemma_concat_well_formed(render(args[k], 0), seq![TokenView::Comma]);
            lemma_concat_well_formed(
                render(args[k], 0) + seq![TokenView::Comma],
                render_args(args, k + 1),
            );
        }
    }
}

/// Well-formed tokens behind well-formed tokens are well-formed tokens.
pub proof fn lemma_concat_well_formed(a: Seq<TokenView>, b: Seq<TokenView>)
    requires
        all_well_formed(a),
        all_well_formed(b),
    ensures
        all_well_formed(a + b),
{
    assert forall|k: int| 0 <= k < (a + b).len() implies (#[trigger] (a + b)[k]).well_formed() by {
        if k < a.len() {
            assert(a[k].well_formed());
        } else {
            assert(b[k - a.len()].well_formed());
        }
    }
}

/// The notation of a program that can be written down is made of
/// well-formed tokens.
pub proof fn lemma_render_program_well_formed(e: ExprView)
    requires
        e.valid(),
    ensures
        all_well_formed(render_program(e)),
    decreases e,
{
    match e {
        ExprView::Let { name, rhs, then } => {
            let head = seq![TokenView::Let, TokenView::Ident(name), TokenView::Eq];
            let semi = seq![TokenView::Semi];
            lemma_render_well_formed(*rhs, 0);
            lemma_render_program_well_formed(*then);
            lemma_concat_well_formed(head, render(*rhs, 0));
            lemma_concat_well_formed(head + render(*rhs, 0), semi);
            lemma_concat_well_formed(head + render(*rhs, 0) + semi, render_program(*then));
        },
        ExprView::Fn { name, args, body, then } => {
            let head = seq![TokenView::Fn, TokenView::Ident(name)];
            let params = idents(args);
            let eq = seq![TokenView::Eq];
            let semi = seq![TokenView::Semi];
            assert forall|k: int| 0 <= k < params.len() implies (
            #[trigger] params[k]).well_formed() by {
                assert(is_identifier(args[k]));
            }
            lemma_render_well_formed(*body, 0);
            lemma_render_program_well_formed(*then);
            lemma_concat_well_formed(head, params);
            lemma_concat_well_formed(head + params, eq);
            lemma_concat_well_formed(head + params + eq, render(*body, 0));
            lemma_concat_well_formed(head + params + eq + render(*body, 0), semi);
            lemma_concat_well_formed(
                head + params + eq + render(*body, 0) + semi,
                render_program(*then),
            );
        },
        _ => {
            lemma_render_well_formed(e, 0);
        },
    }
}

/// The front end reads every program back from its notation: written as
/// text, token by token with blanks between, a program that can be written
/// down lexes to the tokens of its notation, and they parse to the program.
pub proof fn lemma_front_end_round_trip(e: ExprView)
    requires
        is_program(e),
        e.valid(),
    ensures
        lex(spell_spaced(render_program(e))) == Ok::<Seq<TokenView>, LexError>(
            render_program(e),
        ),
        parse(render_program(e)) == Ok::<ExprView, ParseErrorView>(e),
{
    lemma_render_program_well_formed(e);
    lemma_lex_spaced(render_program(e));
    lemma_parse_render(e);
}

/// The notation of arithmetic is read and evaluated to that arithmetic:
/// product before sum, operators of one rank from left to right, a minus
/// sign first of all, and parentheses before any of them.
pub proof fn lemma_arithmetic_notation(e: ExprView, depth: nat)
    requires
        is_arithmetic(e),
    ensures
        parse(render(e, 0)) == Ok::<ExprView, ParseErrorView>(e),
        eval_program(e, depth) == Ok::<Arith, EvalErrorView>(arithmetic_of(e)),
{
    lemma_arithmetic_is_expression(e);
    assert(render_program(e) == render(e, 0));
    lemma_parse_render(e);
    lemma_eval_arithmetic(e, Seq::empty(), Seq::empty(), depth);
}

/// Arithmetic is an expression.
pub proof fn lemma_arithmetic_is_expression(e: ExprView)
    requires
        is_arithmetic(e),
    ensures
        is_expression(e),
    decreases e,
{
    match e {
        ExprView::Neg(inner) => {
            lemma_arithmetic_is_expression(*inner);
        },
        ExprView::Add(l, r) | ExprView::Sub(l, r) | ExprView::Mul(l, r) | ExprView::Div(l, r) => {
            lemma_arithmetic_is_expression(*l);
            lemma_arithmetic_is_expression(*r);
        },
        _ => {},
    }
}

/// The parser reads every program back from its notation.
pub proof fn lemma_parse_render(e: ExprView)
    requires
        is_program(e),
    ensures
        parse(render_program(e)) == Ok::<ExprView, ParseErrorView>(e),
{
    lemma_program_render(e, render_program(e), 0);
}

} // verus!
