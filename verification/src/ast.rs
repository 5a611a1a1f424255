//! The syntax tree.
use crate::token::{is_identifier, is_number};
use vstd::prelude::*;

verus! {

/// An expression or a declaration chain.
///
/// Every node owns its children. A number keeps the text of its literal.
#[derive(Debug, PartialEq, Eq)]
pub enum Expr {
    Num(String),
    Var(String),
    Neg(Box<Expr>),
    Add(Box<Expr>, Box<Expr>),
    Sub(Box<Expr>, Box<Expr>),
    Mul(Box<Expr>, Box<Expr>),
    Div(Box<Expr>, Box<Expr>),
    Call(String, Vec<Expr>),
    Let { name: String, rhs: Box<Expr>, then: Box<Expr> },
    Fn { name: String, args: Vec<String>, body: Box<Expr>, then: Box<Expr> },
}

/// The mathematical value of an [`Expr`]: the same tree over sequences.
pub enum ExprView {
    Num(Seq<char>),
    Var(Seq<char>),
    Neg(Box<ExprView>),
    Add(Box<ExprView>, Box<ExprView>),
    Sub(Box<ExprView>, Box<ExprView>),
    Mul(Box<ExprView>, Box<ExprView>),
    Div(Box<ExprView>, Box<ExprView>),
    Call(Seq<char>, Seq<ExprView>),
    Let { name: Seq<char>, rhs: Box<ExprView>, then: Box<ExprView> },
    Fn { name: Seq<char>, args: Seq<Seq<char>>, body: Box<ExprView>, then: Box<ExprView> },
}

impl ExprView {
    /// Every number of the tree holds a number literal.
    pub open spec fn literals_valid(self) -> bool
        decreases self,
    {
        match self {
            ExprView::Num(text) => is_number(text),
            ExprView::Var(_) => true,
            ExprView::Neg(inner) => inner.literals_valid(),
            ExprView::Add(l, r) | ExprView::Sub(l, r) | ExprView::Mul(l, r) | ExprView::Div(
                l,
                r,
            ) => l.literals_valid() && r.literals_valid(),
            ExprView::Call(_, args) => forall|i: int|
                0 <= i < args.len() ==> (#[trigger] args[i]).literals_valid(),
            ExprView::Let { rhs, then, .. } => rhs.literals_valid() && then.literals_valid(),
            ExprView::Fn { body, then, .. } => body.literals_valid() && then.literals_valid(),
        }
    }
}

impl ExprView {
    /// Every name of the tree, bound or used, is an identifier.
    pub open spec fn names_valid(self) -> bool
        decreases self,
    {
        match self {
            ExprView::Num(_) => true,
            ExprView::Var(name) => is_identifier(name),
            ExprView::Neg(inner) => inner.names_valid(),
            ExprView::Add(l, r) | ExprView::Sub(l, r) | ExprView::Mul(l, r) | ExprView::Div(
                l,
                r,
            ) => l.names_valid() && r.names_valid(),
            ExprView::Call(name, args) => is_identifier(name) && forall|i: int|
                0 <= i < args.len() ==> (#[trigger] args[i]).names_valid(),
            ExprView::Let { name, rhs, then } => is_identifier(name) && rhs.names_valid()
                && then.names_valid(),
            ExprView::Fn { name, args, body, then } => is_identifier(name) && (forall|i: int|
                0 <= i < args.len() ==> is_identifier(#[trigger] args[i])) && body.names_valid()
                && then.names_valid(),
        }
    }

    /// The tree can be written down: every number holds a number literal
    /// and every name is an identifier.
    pub open spec fn valid(self) -> bool {
        self.literals_valid() && self.names_valid()
    }
}

/// Every tree of `es` can be written down.
pub open spec fn all_valid(es: Seq<ExprView>) -> bool {
    forall|k: int| 0 <= k < es.len() ==> (#[trigger] es[k]).valid()
}

/// Every tree of `es` holds number literals only.
pub open spec fn all_literals_valid(es: Seq<ExprView>) -> bool {
    forall|k: int| 0 <= k < es.len() ==> (#[trigger] es[k]).literals_valid()
}

impl Expr {
    /// The tree as a mathematical value.
    pub open spec fn as_view(&self) -> ExprView
        decreases self,
    {
        match self {
            Expr::Num(text) => ExprView::Num(text@),
            Expr::Var(name) => ExprView::Var(name@),
            Expr::Neg(e) => ExprView::Neg(Box::new(e.as_view())),
            Expr::Add(l, r) => ExprView::Add(Box::new(l.as_view()), Box::new(r.as_view())),
            Expr::Sub(l, r) => ExprView::Sub(Box::new(l.as_view()), Box::new(r.as_view())),
            Expr::Mul(l, r) => ExprView::Mul(Box::new(l.as_view()), Box::new(r.as_view())),
            Expr::Div(l, r) => ExprView::Div(Box::new(l.as_view()), Box::new(r.as_view())),
            Expr::Call(name, args) => ExprView::Call(
                name@,
                Seq::new(
                    args.len() as nat,
                    |i: int|
                        if 0 <= i < args.len() {
                            args[i].as_view()
                        } else {
                            arbitrary()
                        },
                ),
            ),
            Expr::Let { name, rhs, then } => ExprView::Let {
                name: name@,
                rhs: Box::new(rhs.as_view()),
                then: Box::new(then.as_view()),
            },
            Expr::Fn { name, args, body, then } => ExprView::Fn {
                name: name@,
                args: args.deep_view(),
                body: Box::new(body.as_view()),
                then: Box::new(then.as_view()),
            },
        }
    }
}

/// The values of the trees of `es`, in order.
pub open spec fn exprs_view(es: Seq<Expr>) -> Seq<ExprView> {
    Seq::new(es.len(), |i: int| es[i].as_view())
}

/// The value of a call holds the values of its arguments.
pub proof fn lemma_call_view(name: String, args: Vec<Expr>)
    ensures
        Expr::Call(name, args).as_view() == ExprView::Call(name@, exprs_view(args@)),
{
    assert(Expr::Call(name, args).as_view()->Call_1 =~= exprs_view(args@));
}

impl View for Expr {
    type V = ExprView;

    open spec fn view(&self) -> ExprView {
        self.as_view()
    }
}

impl DeepView for Expr {
    type V = ExprView;

    open spec fn deep_view(&self) -> ExprView {
        self@
    }
}

} // verus!
