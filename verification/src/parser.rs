//! From tokens to one syntax tree.
//!
//! The grammar is given by [`parse`] and the functions below it, each of
//! which reads one construct at a position of the token sequence and tells
//! where it ends:
//!
//! ```text
//! decl    := 'let' IDENT '=' expr ';' decl
//!          | 'fn' IDENT IDENT* '=' expr ';' decl
//!          | expr
//! expr    := product (('+' | '-') product)*
//! product := unary (('*' | '/') unary)*
//! unary   := '-'* atom
//! atom    := NUMBER | '(' expr ')' | IDENT '(' args | IDENT
//! args    := ')' | expr ')' | expr ',' args
//! ```
//!
//! A function that goes on behind a construct does so only where the
//! construct ended behind its start. That is always so
//! ([`lemma_parse_advances`]); the test is what makes the definitions well
//! founded.
use crate::ast::{all_valid, exprs_view, lemma_call_view, Expr, ExprView};
use crate::token::{all_well_formed, is_identifier, Token, TokenView};
use vstd::prelude::*;

verus! {

/// What the grammar asked for at the place where parsing failed.
#[derive(Debug, Clone, Copy, PartialEq, Eq)]
pub enum Expected {
    /// A number, an identifier, `(` or `-`.
    Expression,
    /// A name to bind.
    Identifier,
    /// `=`.
    Equals,
    /// `;`.
    Semicolon,
    /// `)`.
    CloseParen,
    /// `,` or `)` behind an argument.
    CommaOrCloseParen,
    /// Nothing more.
    EndOfInput,
}

/// The token at `position` does not fit the grammar.
#[derive(Debug, PartialEq, Eq)]
pub struct ParseError {
    /// Index into the token sequence; its length where the input ended early.
    pub position: usize,
    /// The token at that index, `None` at the end of the input.
    pub found: Option<Token>,
    /// What would have fitted.
    pub expected: Expected,
}

/// The mathematical value of a [`ParseError`].
pub struct ParseErrorView {
    pub position: int,
    pub found: Option<TokenView>,
    pub expected: Expected,
}

impl View for ParseError {
    type V = ParseErrorView;

    open spec fn view(&self) -> ParseErrorView {
        ParseErrorView {
            position: self.position as int,
            found: match self.found {
                Some(t) => Some(t@),
                None => None,
            },
            expected: self.expected,
        }
    }
}

/// A construct and the position behind it, or the failure.
pub type Parsed = Result<(ExprView, int), ParseErrorView>;

/// An argument list and the position behind its `)`, or the failure.
pub type ParsedArgs = Result<(Seq<ExprView>, int), ParseErrorView>;

/// The token at `i`, `None` outside the sequence.
pub open spec fn peek(ts: Seq<TokenView>, i: int) -> Option<TokenView> {
    if 0 <= i < ts.len() {
        Some(ts[i])
    } else {
        None
    }
}

/// The failure at `i`, where `expected` was asked for.
pub open spec fn failure(ts: Seq<TokenView>, i: int, expected: Expected) -> ParseErrorView {
    ParseErrorView { position: i, found: peek(ts, i), expected }
}

/// A construct that starts at `i` and ends at `j` holds a token and lies
/// inside the sequence.
pub open spec fn advances(ts: Seq<TokenView>, i: int, j: int) -> bool {
    i < j <= ts.len()
}

/// The end of the run of identifiers that starts at `i`.
pub open spec fn names_end(ts: Seq<TokenView>, i: int) -> int
    decreases ts.len() - i,
{
    if peek(ts, i) is Some && peek(ts, i)->0 is Ident {
        names_end(ts, i + 1)
    } else {
        i
    }
}

/// The names of the identifiers from `i` up to `j`.
pub open spec fn names(ts: Seq<TokenView>, i: int, j: int) -> Seq<Seq<char>> {
    Seq::new((j - i) as nat, |k: int| ts[i + k]->Ident_0)
}

/// `atom := NUMBER | '(' expr ')' | IDENT '(' args | IDENT`
pub open spec fn parse_atom(ts: Seq<TokenView>, i: int) -> Parsed
    decreases ts.len() - i, 0int,
{
    match peek(ts, i) {
        Some(TokenView::Num(text)) => Ok((ExprView::Num(text), i + 1)),
        Some(TokenView::OpenParen) => match parse_expr(ts, i + 1) {
            Ok((e, j)) => if peek(ts, j) == Some(TokenView::CloseParen) {
                Ok((e, j + 1))
            } else {
                Err(failure(ts, j, Expected::CloseParen))
            },
            Err(err) => Err(err),
        },
        Some(TokenView::Ident(name)) => if peek(ts, i + 1) == Some(TokenView::OpenParen) {
            match parse_args(ts, i + 2) {
                Ok((args, j)) => Ok((ExprView::Call(name, args), j)),
                Err(err) => Err(err),
            }
        } else {
            Ok((ExprView::Var(name), i + 1))
        },
        _ => Err(failure(ts, i, Expected::Expression)),
    }
}

/// `unary := '-'* atom`
pub open spec fn parse_unary(ts: Seq<TokenView>, i: int) -> Parsed
    decreases ts.len() - i, 1int,
{
    if peek(ts, i) == Some(TokenView::Minus) {
        match parse_unary(ts, i + 1) {
            Ok((e, j)) => Ok((ExprView::Neg(Box::new(e)), j)),
            Err(err) => Err(err),
        }
    } else {
        parse_atom(ts, i)
    }
}

/// What follows the left operand `lhs` of a product, which ends at `i`:
/// `(('*' | '/') unary)*`, folded to the left.
pub open spec fn parse_product_rest(ts: Seq<TokenView>, i: int, lhs: ExprView) -> Parsed
    decreases ts.len() - i, 2int,
{
    match peek(ts, i) {
        Some(TokenView::Times) => match parse_unary(ts, i + 1) {
            Ok((rhs, j)) => if advances(ts, i, j) {
                parse_product_rest(ts, j, ExprView::Mul(Box::new(lhs), Box::new(rhs)))
            } else {
                arbitrary()
            },
            Err(err) => Err(err),
        },
        Some(TokenView::Div) => match parse_unary(ts, i + 1) {
            Ok((rhs, j)) => if advances(ts, i, j) {
                parse_product_rest(ts, j, ExprView::Div(Box::new(lhs), Box::new(rhs)))
            } else {
                arbitrary()
            },
            Err(err) => Err(err),
        },
        _ => Ok((lhs, i)),
    }
}

/// `product := unary (('*' | '/') unary)*`
pub open spec fn parse_product(ts: Seq<TokenView>, i: int) -> Parsed
    decreases ts.len() - i, 3int,
{
    match parse_unary(ts, i) {
        Ok((lhs, j)) => if advances(ts, i, j) {
            parse_product_rest(ts, j, lhs)
        } else {
            arbitrary()
        },
        Err(err) => Err(err),
    }
}

/// What follows the left operand `lhs` of a sum, which ends at `i`:
/// `(('+' | '-') product)*`, folded to the left.
pub open spec fn parse_sum_rest(ts: Seq<TokenView>, i: int, lhs: ExprView) -> Parsed
    decreases ts.len() - i, 4int,
{
    match peek(ts, i) {
        Some(TokenView::Plus) => match parse_product(ts, i + 1) {
            Ok((rhs, j)) => if advances(ts, i, j) {
                parse_sum_rest(ts, j, ExprView::Add(Box::new(lhs), Box::new(rhs)))
            } else {
                arbitrary()
            },
            Err(err) => Err(err),
        },
        Some(TokenView::Minus) => match parse_product(ts, i + 1) {
            Ok((rhs, j)) => if advances(ts, i, j) {
                parse_sum_rest(ts, j, ExprView::Sub(Box::new(lhs), Box::new(rhs)))
            } else {
                arbitrary()
            },
            Err(err) => Err(err),
        },
        _ => Ok((lhs, i)),
    }
}

/// `expr := product (('+' | '-') product)*`
pub open spec fn parse_expr(ts: Seq<TokenView>, i: int) -> Parsed
    decreases ts.len() - i, 5int,
{
    match parse_product(ts, i) {
        Ok((lhs, j)) => if advances(ts, i, j) {
            parse_sum_rest(ts, j, lhs)
        } else {
            arbitrary()
        },
        Err(err) => Err(err),
    }
}

/// `args := ')' | expr ')' | expr ',' args`: the arguments of a call from
/// behind its `(`, a trailing comma allowed.
pub open spec fn parse_args(ts: Seq<TokenView>, i: int) -> ParsedArgs
    decreases ts.len() - i, 6int,
{
    if peek(ts, i) == Some(TokenView::CloseParen) {
        Ok((Seq::empty(), i + 1))
    } else {
        match parse_expr(ts, i) {
            Ok((e, j)) => match peek(ts, j) {
                Some(TokenView::Comma) => if advances(ts, i, j) {
                    match parse_args(ts, j + 1) {
                        Ok((rest, k)) => Ok((seq![e] + rest, k)),
                        Err(err) => Err(err),
                    }
                } else {
                    arbitrary()
                },
                Some(TokenView::CloseParen) => Ok((seq![e], j + 1)),
                _ => Err(failure(ts, j, Expected::CommaOrCloseParen)),
            },
            Err(err) => Err(err),
        }
    }
}

/// `expr ';' decl`: the bound expression of a declaration and what follows
/// it.
pub open spec fn parse_bound(ts: Seq<TokenView>, i: int) -> Result<
    (ExprView, ExprView, int),
    ParseErrorView,
>
    decreases ts.len() - i, 7int,
{
    match parse_expr(ts, i) {
        Ok((bound, j)) => if peek(ts, j) == Some(TokenView::Semi) {
            if advances(ts, i, j) {
                match parse_decl(ts, j + 1) {
                    Ok((then, k)) => Ok((bound, then, k)),
                    Err(err) => Err(err),
                }
            } else {
                arbitrary()
            }
        } else {
            Err(failure(ts, j, Expected::Semicolon))
        },
        Err(err) => Err(err),
    }
}

/// `decl := 'let' IDENT '=' expr ';' decl | 'fn' IDENT IDENT* '=' expr ';' decl | expr`
pub open spec fn parse_decl(ts: Seq<TokenView>, i: int) -> Parsed
    decreases ts.len() - i, 8int,
{
    match peek(ts, i) {
        Some(TokenView::Let) => match peek(ts, i + 1) {
            Some(TokenView::Ident(name)) => if peek(ts, i + 2) == Some(TokenView::Eq) {
                match parse_bound(ts, i + 3) {
                    Ok((rhs, then, k)) => Ok(
                        (ExprView::Let { name, rhs: Box::new(rhs), then: Box::new(then) }, k),
                    ),
                    Err(err) => Err(err),
                }
            } else {
                Err(failure(ts, i + 2, Expected::Equals))
            },
            _ => Err(failure(ts, i + 1, Expected::Identifier)),
        },
        Some(TokenView::Fn) => match peek(ts, i + 1) {
            Some(TokenView::Ident(name)) => {
                let p = names_end(ts, i + 2);
                if peek(ts, p) == Some(TokenView::Eq) {
                    proof {
                        lemma_names_end_bounds(ts, i + 2);
                    }
                    match parse_bound(ts, p + 1) {
                        Ok((body, then, k)) => Ok(
                            (
                                ExprView::Fn {
                                    name,
                                    args: names(ts, i + 2, p),
                                    body: Box::new(body),
                                    then: Box::new(then),
                                },
                                k,
                            ),
                        ),
                        Err(err) => Err(err),
                    }
                } else {
                    Err(failure(ts, p, Expected::Equals))
                }
            },
            _ => Err(failure(ts, i + 1, Expected::Identifier)),
        },
        _ => parse_expr(ts, i),
    }
}

/// The syntax tree of the whole token sequence `ts`, or the first place at
/// which it does not fit the grammar.
pub open spec fn parse(ts: Seq<TokenView>) -> Result<ExprView, ParseErrorView> {
    match parse_decl(ts, 0) {
        Ok((e, k)) => if k == ts.len() {
            Ok(e)
        } else {
            Err(failure(ts, k, Expected::EndOfInput))
        },
        Err(err) => Err(err),
    }
}

/// A run of identifiers ends at or behind its start, inside the sequence, on
/// a token that is no identifier; all tokens of the run are identifiers.
pub proof fn lemma_names_end_bounds(ts: Seq<TokenView>, i: int)
    requires
        0 <= i <= ts.len(),
    ensures
        i <= names_end(ts, i) <= ts.len(),
        forall|k: int| i <= k < names_end(ts, i) ==> (#[trigger] ts[k]) is Ident,
        names_end(ts, i) < ts.len() ==> !(ts[names_end(ts, i)] is Ident),
    decreases ts.len() - i,
{
    if i < ts.len() && ts[i] is Ident {
        lemma_names_end_bounds(ts, i + 1);
    }
}

/// An atom ends behind its start, inside the sequence.
pub proof fn lemma_atom_advances(ts: Seq<TokenView>, i: int)
    ensures
        parse_atom(ts, i) matches Ok((_, k)) ==> advances(ts, i, k),
    decreases ts.len() - i, 0int,
{
    match peek(ts, i) {
        Some(TokenView::OpenParen) => {
            lemma_expr_advances(ts, i + 1);
        },
        Some(TokenView::Ident(_)) => {
            if peek(ts, i + 1) == Some(TokenView::OpenParen) {
                lemma_args_advances(ts, i + 2);
            }
        },
        _ => {},
    }
}

/// A unary expression ends behind its start, inside the sequence.
pub proof fn lemma_unary_advances(ts: Seq<TokenView>, i: int)
    ensures
        parse_unary(ts, i) matches Ok((_, k)) ==> advances(ts, i, k),
    decreases ts.len() - i, 1int,
{
    if peek(ts, i) == Some(TokenView::Minus) {
        lemma_unary_advances(ts, i + 1);
    } else {
        lemma_atom_advances(ts, i);
    }
}

/// The rest of a product ends at or behind its start, inside the sequence.
pub proof fn lemma_product_rest_advances(ts: Seq<TokenView>, i: int, lhs: ExprView)
    requires
        0 <= i <= ts.len(),
    ensures
        parse_product_rest(ts, i, lhs) matches Ok((_, k)) ==> i <= k <= ts.len(),
    decreases ts.len() - i, 2int,
{
    match peek(ts, i) {
        Some(TokenView::Times) => {
            lemma_unary_advances(ts, i + 1);
            if let Ok((rhs, j)) = parse_unary(ts, i + 1) {
                lemma_product_rest_advances(
                    ts,
                    j,
                    ExprView::Mul(Box::new(lhs), Box::new(rhs)),
                );
            }
        },
        Some(TokenView::Div) => {
            lemma_unary_advances(ts, i + 1);
            if let Ok((rhs, j)) = parse_unary(ts, i + 1) {
                lemma_product_rest_advances(
                    ts,
                    j,
                    ExprView::Div(Box::new(lhs), Box::new(rhs)),
                );
            }
        },
        _ => {},
    }
}

/// A product ends behind its start, inside the sequence.
pub proof fn lemma_product_advances(ts: Seq<TokenView>, i: int)
    ensures
        parse_product(ts, i) matches Ok((_, k)) ==> advances(ts, i, k),
    decreases ts.len() - i, 3int,
{
    lemma_unary_advances(ts, i);
    if let Ok((lhs, j)) = parse_unary(ts, i) {
        lemma_product_rest_advances(ts, j, lhs);
    }
}

/// The rest of a sum ends at or behind its start, inside the sequence.
pub proof fn lemma_sum_rest_advances(ts: Seq<TokenView>, i: int, lhs: ExprView)
    requires
        0 <= i <= ts.len(),
    ensures
        parse_sum_rest(ts, i, lhs) matches Ok((_, k)) ==> i <= k <= ts.len(),
    decreases ts.len() - i, 4int,
{
    match peek(ts, i) {
        Some(TokenView::Plus) => {
            lemma_product_advances(ts, i + 1);
            if let Ok((rhs, j)) = parse_product(ts, i + 1) {
                lemma_sum_rest_advances(ts, j, ExprView::Add(Box::new(lhs), Box::new(rhs)));
            }
        },
        Some(TokenView::Minus) => {
            lemma_product_advances(ts, i + 1);
            if let Ok((rhs, j)) = parse_product(ts, i + 1) {
                lemma_sum_rest_advances(ts, j, ExprView::Sub(Box::new(lhs), Box::new(rhs)));
            }
        },
        _ => {},
    }
}

/// An expression ends behind its start, inside the sequence.
pub proof fn lemma_expr_advances(ts: Seq<TokenView>, i: int)
    ensures
        parse_expr(ts, i) matches Ok((_, k)) ==> advances(ts, i, k),
    decreases ts.len() - i, 5int,
{
    lemma_product_advances(ts, i);
    if let Ok((lhs, j)) = parse_product(ts, i) {
        lemma_sum_rest_advances(ts, j, lhs);
    }
}

/// An argument list ends behind its start, inside the sequence.
pub proof fn lemma_args_advances(ts: Seq<TokenView>, i: int)
    ensures
        parse_args(ts, i) matches Ok((_, k)) ==> advances(ts, i, k),
    decreases ts.len() - i, 6int,
{
    if peek(ts, i) != Some(TokenView::CloseParen) {
        lemma_expr_advances(ts, i);
        if let Ok((e, j)) = parse_expr(ts, i) {
            if peek(ts, j) == Some(TokenView::Comma) {
                lemma_args_advances(ts, j + 1);
            }
        }
    }
}

/// A bound expression and what follows it end behind their start, inside
/// the sequence.
pub proof fn lemma_bound_advances(ts: Seq<TokenView>, i: int)
    ensures
        parse_bound(ts, i) matches Ok((_, _, k)) ==> advances(ts, i, k),
    decreases ts.len() - i, 7int,
{
    lemma_expr_advances(ts, i);
    if let Ok((e, j)) = parse_expr(ts, i) {
        if peek(ts, j) == Some(TokenView::Semi) {
            lemma_parse_advances(ts, j + 1);
        }
    }
}

/// A declaration chain ends behind its start, inside the sequence: the
/// tests of [`advances`] in the grammar never fail.
pub proof fn lemma_parse_advances(ts: Seq<TokenView>, i: int)
    ensures
        parse_decl(ts, i) matches Ok((_, k)) ==> advances(ts, i, k),
    decreases ts.len() - i, 8int,
{
    match peek(ts, i) {
        Some(TokenView::Let) => {
            if peek(ts, i + 2) == Some(TokenView::Eq) {
                lemma_bound_advances(ts, i + 3);
            }
        },
        Some(TokenView::Fn) => {
            if peek(ts, i + 1) is Some {
                lemma_names_end_bounds(ts, i + 2);
                let p = names_end(ts, i + 2);
                if peek(ts, p) == Some(TokenView::Eq) {
                    lemma_bound_advances(ts, p + 1);
                }
            }
        },
        _ => {
            lemma_expr_advances(ts, i);
        },
    }
}

/// A comma between the last argument of a call and its `)` changes nothing
/// but the place where the call ends.
pub proof fn lemma_trailing_comma(ts: Seq<TokenView>, i: int)
    ensures
        parse_expr(ts, i) matches Ok((e, j)) ==> {
            &&& peek(ts, j) == Some(TokenView::CloseParen) ==> parse_args(ts, i) == Ok::<
                (Seq<ExprView>, int),
                ParseErrorView,
            >((seq![e], j + 1))
            &&& peek(ts, j) == Some(TokenView::Comma) && peek(ts, j + 1) == Some(
                TokenView::CloseParen,
            ) ==> parse_args(ts, i) == Ok::<(Seq<ExprView>, int), ParseErrorView>(
                (seq![e], j + 2),
            )
        },
{
    lemma_expr_advances(ts, i);
    lemma_atom_advances(ts, i);
    lemma_unary_advances(ts, i);
    lemma_product_advances(ts, i);
    if let Ok((e, j)) = parse_expr(ts, i) {
        assert(peek(ts, i) != Some(TokenView::CloseParen)) by {
            if peek(ts, i) == Some(TokenView::CloseParen) {
                assert(parse_atom(ts, i) is Err);
                assert(parse_unary(ts, i) is Err);
                assert(parse_product(ts, i) is Err);
            }
        }
        if peek(ts, j) == Some(TokenView::Comma) && peek(ts, j + 1) == Some(
            TokenView::CloseParen,
        ) {
            assert(parse_args(ts, j + 1) == Ok::<(Seq<ExprView>, int), ParseErrorView>(
                (Seq::empty(), j + 2),
            ));
            assert(seq![e] + Seq::<ExprView>::empty() =~= seq![e]);
        }
    }
}

/// An atom read from well-formed tokens can be written down.
pub proof fn lemma_atom_valid(ts: Seq<TokenView>, i: int)
    requires
        all_well_formed(ts),
    ensures
        parse_atom(ts, i) matches Ok((e, _)) ==> e.valid(),
    decreases ts.len() - i, 0int,
{
    match peek(ts, i) {
        Some(TokenView::Num(_)) => {
            assert(ts[i].well_formed());
        },
        Some(TokenView::OpenParen) => {
            lemma_expr_valid(ts, i + 1);
        },
        Some(TokenView::Ident(_)) => {
            assert(ts[i].well_formed());
            if peek(ts, i + 1) == Some(TokenView::OpenParen) {
                lemma_args_valid(ts, i + 2);
            }
        },
        _ => {},
    }
}

/// A unary expression read from well-formed tokens can be written down.
pub proof fn lemma_unary_valid(ts: Seq<TokenView>, i: int)
    requires
        all_well_formed(ts),
    ensures
        parse_unary(ts, i) matches Ok((e, _)) ==> e.valid(),
    decreases ts.len() - i, 1int,
{
    if peek(ts, i) == Some(TokenView::Minus) {
        lemma_unary_valid(ts, i + 1);
    } else {
        lemma_atom_valid(ts, i);
    }
}

/// The rest of a product read from well-formed tokens keeps that.
pub proof fn lemma_product_rest_valid(ts: Seq<TokenView>, i: int, lhs: ExprView)
    requires
        all_well_formed(ts),
        lhs.valid(),
    ensures
        parse_product_rest(ts, i, lhs) matches Ok((e, _)) ==> e.valid(),
    decreases ts.len() - i, 2int,
{
    match peek(ts, i) {
        Some(TokenView::Times) => {
            lemma_unary_valid(ts, i + 1);
            lemma_unary_advances(ts, i + 1);
            if let Ok((rhs, j)) = parse_unary(ts, i + 1) {
                if advances(ts, i, j) {
                    lemma_product_rest_valid(
                        ts,
                        j,
                        ExprView::Mul(Box::new(lhs), Box::new(rhs)),
                    );
                }
            }
        },
        Some(TokenView::Div) => {
            lemma_unary_valid(ts, i + 1);
            lemma_unary_advances(ts, i + 1);
            if let Ok((rhs, j)) = parse_unary(ts, i + 1) {
                if advances(ts, i, j) {
                    lemma_product_rest_valid(
                        ts,
                        j,
                        ExprView::Div(Box::new(lhs), Box::new(rhs)),
                    );
                }
            }
        },
        _ => {},
    }
}

/// A product read from well-formed tokens can be written down.
pub proof fn lemma_product_valid(ts: Seq<TokenView>, i: int)
    requires
        all_well_formed(ts),
    ensures
        parse_product(ts, i) matches Ok((e, _)) ==> e.valid(),
    decreases ts.len() - i, 3int,
{
    lemma_unary_valid(ts, i);
    lemma_unary_advances(ts, i);
    if let Ok((lhs, j)) = parse_unary(ts, i) {
        lemma_product_rest_valid(ts, j, lhs);
    }
}

/// The rest of a sum read from well-formed tokens keeps that.
pub proof fn lemma_sum_rest_valid(ts: Seq<TokenView>, i: int, lhs: ExprView)
    requires
        all_well_formed(ts),
        lhs.valid(),
    ensures
        parse_sum_rest(ts, i, lhs) matches Ok((e, _)) ==> e.valid(),
    decreases ts.len() - i, 4int,
{
    match peek(ts, i) {
        Some(TokenView::Plus) => {
            lemma_product_valid(ts, i + 1);
            lemma_product_advances(ts, i + 1);
            if let Ok((rhs, j)) = parse_product(ts, i + 1) {
                if advances(ts, i, j) {
                    lemma_sum_rest_valid(ts, j, ExprView::Add(Box::new(lhs), Box::new(rhs)));
                }
            }
        },
        Some(TokenView::Minus) => {
            lemma_product_valid(ts, i + 1);
            lemma_product_advances(ts, i + 1);
            if let Ok((rhs, j)) = parse_product(ts, i + 1) {
                if advances(ts, i, j) {
                    lemma_sum_rest_valid(ts, j, ExprView::Sub(Box::new(lhs), Box::new(rhs)));
                }
            }
        },
        _ => {},
    }
}

/// An expression read from well-formed tokens can be written down.
pub proof fn lemma_expr_valid(ts: Seq<TokenView>, i: int)
    requires
        all_well_formed(ts),
    ensures
        parse_expr(ts, i) matches Ok((e, _)) ==> e.valid(),
    decreases ts.len() - i, 5int,
{
    lemma_product_valid(ts, i);
    lemma_product_advances(ts, i);
    if let Ok((lhs, j)) = parse_product(ts, i) {
        lemma_sum_rest_valid(ts, j, lhs);
    }
}

/// Arguments read from well-formed tokens can be written down.
pub proof fn lemma_args_valid(ts: Seq<TokenView>, i: int)
    requires
        all_well_formed(ts),
    ensures
        parse_args(ts, i) matches Ok((args, _)) ==> all_valid(args),
    decreases ts.len() - i, 6int,
{
    if peek(ts, i) != Some(TokenView::CloseParen) {
        lemma_expr_valid(ts, i);
        lemma_expr_advances(ts, i);
        if let Ok((e, j)) = parse_expr(ts, i) {
            if peek(ts, j) == Some(TokenView::Comma) {
                lemma_args_valid(ts, j + 1);
            }
        }
    }
}

/// A bound expression and what follows it, read from well-formed tokens,
/// can be written down.
pub proof fn lemma_bound_valid(ts: Seq<TokenView>, i: int)
    requires
        all_well_formed(ts),
    ensures
        parse_bound(ts, i) matches Ok((bound, then, _)) ==> bound.valid()
            && then.valid(),
    decreases ts.len() - i, 7int,
{
    lemma_expr_valid(ts, i);
    lemma_expr_advances(ts, i);
    if let Ok((e, j)) = parse_expr(ts, i) {
        if peek(ts, j) == Some(TokenView::Semi) {
            lemma_decl_valid(ts, j + 1);
        }
    }
}

/// A declaration chain read from well-formed tokens can be written down.
pub proof fn lemma_decl_valid(ts: Seq<TokenView>, i: int)
    requires
        all_well_formed(ts),
    ensures
        parse_decl(ts, i) matches Ok((e, _)) ==> e.valid(),
    decreases ts.len() - i, 8int,
{
    match peek(ts, i) {
        Some(TokenView::Let) => {
            if peek(ts, i + 2) == Some(TokenView::Eq) {
                assert(ts[i + 1].well_formed());
                lemma_bound_valid(ts, i + 3);
            }
        },
        Some(TokenView::Fn) => {
            if peek(ts, i + 1) is Some {
                assert(ts[i + 1].well_formed());
                lemma_names_end_bounds(ts, i + 2);
                let p = names_end(ts, i + 2);
                if peek(ts, p) == Some(TokenView::Eq) {
                    assert forall|k: int| 0 <= k < p - (i + 2) implies is_identifier(
                        #[trigger] names(ts, i + 2, p)[k],
                    ) by {
                        assert(ts[i + 2 + k].well_formed());
                    }
                    lemma_bound_valid(ts, p + 1);
                }
            }
        },
        _ => {
            lemma_expr_valid(ts, i);
        },
    }
}

/// A tree that was parsed from well-formed tokens, such as the lexer gives,
/// can be written down: its numbers hold number literals, its names are
/// identifiers.
pub proof fn lemma_parse_valid(ts: Seq<TokenView>)
    requires
        all_well_formed(ts),
    ensures
        parse(ts) matches Ok(e) ==> e.valid(),
{
    lemma_decl_valid(ts, 0);
}

/// The value of an executable result.
pub open spec fn parsed_view(r: Result<(Expr, usize), ParseError>) -> Parsed {
    match r {
        Ok((e, k)) => Ok((e@, k as int)),
        Err(err) => Err(err@),
    }
}

/// `done`, followed by the arguments that `rest` holds; the failure of
/// `rest` where it is one.
pub open spec fn prepend_args(done: Seq<ExprView>, rest: ParsedArgs) -> ParsedArgs {
    match rest {
        Ok((args, k)) => Ok((done + args, k)),
        Err(err) => Err(err),
    }
}

/// Makes a token with the same value.
fn token_copy(t: &Token) -> (r: Token)
    ensures
        r@ == t@,
{
    match t {
        Token::Num(text) => Token::Num(text.clone()),
        Token::Ident(name) => Token::Ident(name.clone()),
        Token::Minus => Token::Minus,
        Token::Plus => Token::Plus,
        Token::Times => Token::Times,
        Token::Div => Token::Div,
        Token::Fn => Token::Fn,
        Token::Let => Token::Let,
        Token::OpenParen => Token::OpenParen,
        Token::CloseParen => Token::CloseParen,
        Token::Eq => Token::Eq,
        Token::Comma => Token::Comma,
        Token::Semi => Token::Semi,
    }
}

/// Looks at the token at `i`, if there is one.
fn look(tokens: &Vec<Token>, i: usize) -> (r: Option<&Token>)
    ensures
        match r {
            Some(t) => i < tokens.len() && peek(tokens.deep_view(), i as int) == Some(t@),
            None => i >= tokens.len() && peek(tokens.deep_view(), i as int) is None,
        },
{
    if i < tokens.len() {
        Some(&tokens[i])
    } else {
        None
    }
}

/// Makes the failure at `i`.
fn fail(tokens: &Vec<Token>, i: usize, expected: Expected) -> (err: ParseError)
    ensures
        err@ == failure(tokens.deep_view(), i as int, expected),
{
    let found = match look(tokens, i) {
        Some(t) => Some(token_copy(t)),
        None => None,
    };
    ParseError { position: i, found, expected }
}

/// Reads an atom at `i`.
fn atom(tokens: &Vec<Token>, i: usize) -> (r: Result<(Expr, usize), ParseError>)
    ensures
        parsed_view(r) == parse_atom(tokens.deep_view(), i as int),
        r matches Ok((_, k)) ==> i < k <= tokens.len(),
    decreases tokens.len() - i, 0int,
{
    match look(tokens, i) {
        Some(Token::Num(text)) => Ok((Expr::Num(text.clone()), i + 1)),
        Some(Token::OpenParen) => match expr(tokens, i + 1) {
            Ok((e, j)) => match look(tokens, j) {
                Some(Token::CloseParen) => Ok((e, j + 1)),
                _ => Err(fail(tokens, j, Expected::CloseParen)),
            },
            Err(err) => Err(err),
        },
        Some(Token::Ident(name)) => match look(tokens, i + 1) {
            Some(Token::OpenParen) => match arguments(tokens, i + 2) {
                Ok((args, j)) => {
                    let callee = name.clone();
                    proof {
                        lemma_call_view(callee, args);
                    }
                    Ok((Expr::Call(callee, args), j))
                },
                Err(err) => Err(err),
            },
            _ => Ok((Expr::Var(name.clone()), i + 1)),
        },
        _ => Err(fail(tokens, i, Expected::Expression)),
    }
}

/// Reads minus signs and the atom behind them at `i`.
fn unary(tokens: &Vec<Token>, i: usize) -> (r: Result<(Expr, usize), ParseError>)
    ensures
        parsed_view(r) == parse_unary(tokens.deep_view(), i as int),
        r matches Ok((_, k)) ==> i < k <= tokens.len(),
    decreases tokens.len() - i, 1int,
{
    match look(tokens, i) {
        Some(Token::Minus) => match unary(tokens, i + 1) {
            Ok((e, j)) => Ok((Expr::Neg(Box::new(e)), j)),
            Err(err) => Err(err),
        },
        _ => atom(tokens, i),
    }
}

/// Reads a product at `i`.
fn product(tokens: &Vec<Token>, i: usize) -> (r: Result<(Expr, usize), ParseError>)
    ensures
        parsed_view(r) == parse_product(tokens.deep_view(), i as int),
        r matches Ok((_, k)) ==> i < k <= tokens.len(),
    decreases tokens.len() - i, 3int,
{
    let ghost ts = tokens.deep_view();
    let (mut lhs, mut j) = match unary(tokens, i) {
        Ok(first) => first,
        Err(err) => {
            return Err(err);
        },
    };
    loop
        invariant
            ts == tokens.deep_view(),
            i < j <= tokens.len(),
            parse_product(ts, i as int) == parse_product_rest(ts, j as int, lhs@),
        decreases tokens.len() - j,
    {
        match look(tokens, j) {
            Some(Token::Times) => match unary(tokens, j + 1) {
                Ok((rhs, k)) => {
                    lhs = Expr::Mul(Box::new(lhs), Box::new(rhs));
                    j = k;
                },
                Err(err) => {
                    return Err(err);
                },
            },
            Some(Token::Div) => match unary(tokens, j + 1) {
                Ok((rhs, k)) => {
                    lhs = Expr::Div(Box::new(lhs), Box::new(rhs));
                    j = k;
                },
                Err(err) => {
                    return Err(err);
                },
            },
            _ => {
                return Ok((lhs, j));
            },
        }
    }
}

/// Reads an expression at `i`.
fn expr(tokens: &Vec<Token>, i: usize) -> (r: Result<(Expr, usize), ParseError>)
    ensures
        parsed_view(r) == parse_expr(tokens.deep_view(), i as int),
        r matches Ok((_, k)) ==> i < k <= tokens.len(),
    decreases tokens.len() - i, 5int,
{
    let ghost ts = tokens.deep_view();
    let (mut lhs, mut j) = match product(tokens, i) {
        Ok(first) => first,
        Err(err) => {
            return Err(err);
        },
    };
    loop
        invariant
            ts == tokens.deep_view(),
            i < j <= tokens.len(),
            parse_expr(ts, i as int) == parse_sum_rest(ts, j as int, lhs@),
        decreases tokens.len() - j,
    {
        match look(tokens, j) {
            Some(Token::Plus) => match product(tokens, j + 1) {
                Ok((rhs, k)) => {
                    lhs = Expr::Add(Box::new(lhs), Box::new(rhs));
                    j = k;
                },
                Err(err) => {
                    return Err(err);
                },
            },
            Some(Token::Minus) => match product(tokens, j + 1) {
                Ok((rhs, k)) => {
                    lhs = Expr::Sub(Box::new(lhs), Box::new(rhs));
                    j = k;
                },
                Err(err) => {
                    return Err(err);
                },
            },
            _ => {
                return Ok((lhs, j));
            },
        }
    }
}

/// Reads the arguments of a call from behind its `(`.
fn arguments(tokens: &Vec<Token>, i: usize) -> (r: Result<(Vec<Expr>, usize), ParseError>)
    requires
        i <= tokens.len(),
    ensures
        match r {
            Ok((args, k)) => parse_args(tokens.deep_view(), i as int) == Ok::<
                (Seq<ExprView>, int),
                ParseErrorView,
            >((exprs_view(args@), k as int)) && i < k <= tokens.len(),
            Err(err) => parse_args(tokens.deep_view(), i as int) == Err::<
                (Seq<ExprView>, int),
                ParseErrorView,
            >(err@),
        },
    decreases tokens.len() - i, 6int,
{
    let ghost ts = tokens.deep_view();
    let mut args: Vec<Expr> = Vec::new();
    let mut j: usize = i;
    assert(prepend_args(exprs_view(args@), parse_args(ts, i as int)) == parse_args(ts, i as int))
        by {
        if let Ok((rest, k)) = parse_args(ts, i as int) {
            assert(exprs_view(args@) + rest =~= rest);
        }
    }
    loop
        invariant
            ts == tokens.deep_view(),
            i <= j <= tokens.len(),
            parse_args(ts, i as int) == prepend_args(exprs_view(args@), parse_args(ts, j as int)),
        decreases tokens.len() - j,
    {
        if let Some(Token::CloseParen) = look(tokens, j) {
            assert(exprs_view(args@) + Seq::<ExprView>::empty() =~= exprs_view(args@));
            return Ok((args, j + 1));
        }
        match expr(tokens, j) {
            Ok((e, k)) => {
                let ghost done = exprs_view(args@);
                let ghost value = e@;
                args.push(e);
                assert(exprs_view(args@) =~= done + seq![value]);
                match look(tokens, k) {
                    Some(Token::Comma) => {
                        assert(prepend_args(done, prepend_args(seq![value], parse_args(ts, k + 1)))
                            == prepend_args(done + seq![value], parse_args(ts, k + 1))) by {
                            if let Ok((rest, _)) = parse_args(ts, k + 1) {
                                assert(done + (seq![value] + rest) =~= (done + seq![value]) + rest);
                            }
                        }
                        j = k + 1;
                    },
                    Some(Token::CloseParen) => {
                        return Ok((args, k + 1));
                    },
                    _ => {
                        return Err(fail(tokens, k, Expected::CommaOrCloseParen));
                    },
                }
            },
            Err(err) => {
                return Err(err);
            },
        }
    }
}

/// Reads the bound expression of a declaration at `i`, the `;` behind it and
/// what follows.
fn bound(tokens: &Vec<Token>, i: usize) -> (r: Result<(Expr, Expr, usize), ParseError>)
    ensures
        match r {
            Ok((bound, then, k)) => parse_bound(tokens.deep_view(), i as int) == Ok::<
                (ExprView, ExprView, int),
                ParseErrorView,
            >((bound@, then@, k as int)) && i < k <= tokens.len(),
            Err(err) => parse_bound(tokens.deep_view(), i as int) == Err::<
                (ExprView, ExprView, int),
                ParseErrorView,
            >(err@),
        },
    decreases tokens.len() - i, 7int,
{
    match expr(tokens, i) {
        Ok((bound, j)) => match look(tokens, j) {
            Some(Token::Semi) => match decl(tokens, j + 1) {
                Ok((then, k)) => Ok((bound, then, k)),
                Err(err) => Err(err),
            },
            _ => Err(fail(tokens, j, Expected::Semicolon)),
        },
        Err(err) => Err(err),
    }
}

/// Reads the parameter names of a function declaration from `i` on.
fn parameters(tokens: &Vec<Token>, i: usize) -> (r: (Vec<String>, usize))
    requires
        i <= tokens.len(),
    ensures
        r.1 == names_end(tokens.deep_view(), i as int),
        r.0.deep_view() == names(tokens.deep_view(), i as int, r.1 as int),
        i <= r.1 <= tokens.len(),
{
    let ghost ts = tokens.deep_view();
    let mut params: Vec<String> = Vec::new();
    let mut j: usize = i;
    assert(params.deep_view() =~= names(ts, i as int, j as int));
    loop
        invariant
            ts == tokens.deep_view(),
            i <= j <= tokens.len(),
            names_end(ts, i as int) == names_end(ts, j as int),
            params.deep_view() == names(ts, i as int, j as int),
        decreases tokens.len() - j,
    {
        match look(tokens, j) {
            Some(Token::Ident(name)) => {
                let ghost before = params.deep_view();
                params.push(name.clone());
                assert(params.deep_view() =~= before.push(name@));
                assert(before.push(name@) =~= names(ts, i as int, j + 1));
                j += 1;
            },
            _ => {
                return (params, j);
            },
        }
    }
}

/// Reads a declaration chain at `i`.
fn decl(tokens: &Vec<Token>, i: usize) -> (r: Result<(Expr, usize), ParseError>)
    ensures
        parsed_view(r) == parse_decl(tokens.deep_view(), i as int),
        r matches Ok((_, k)) ==> i < k <= tokens.len(),
    decreases tokens.len() - i, 8int,
{
    match look(tokens, i) {
        Some(Token::Let) => match look(tokens, i + 1) {
            Some(Token::Ident(name)) => match look(tokens, i + 2) {
                Some(Token::Eq) => match bound(tokens, i + 3) {
                    Ok((rhs, then, k)) => Ok(
                        (
                            Expr::Let {
                                name: name.clone(),
                                rhs: Box::new(rhs),
                                then: Box::new(then),
                            },
                            k,
                        ),
                    ),
                    Err(err) => Err(err),
                },
                _ => Err(fail(tokens, i + 2, Expected::Equals)),
            },
            _ => Err(fail(tokens, i + 1, Expected::Identifier)),
        },
        Some(Token::Fn) => match look(tokens, i + 1) {
            Some(Token::Ident(name)) => {
                let (args, p) = parameters(tokens, i + 2);
                match look(tokens, p) {
                    Some(Token::Eq) => match bound(tokens, p + 1) {
                        Ok((body, then, k)) => Ok(
                            (
                                Expr::Fn {
                                    name: name.clone(),
                                    args,
                                    body: Box::new(body),
                                    then: Box::new(then),
                                },
                                k,
                            ),
                        ),
                        Err(err) => Err(err),
                    },
                    _ => Err(fail(tokens, p, Expected::Equals)),
                }
            },
            _ => Err(fail(tokens, i + 1, Expected::Identifier)),
        },
        _ => expr(tokens, i),
    }
}

/// Parses a whole token sequence into one syntax tree.
///
/// The result is the tree that the grammar gives to `tokens`, or the first
/// place at which they do not fit it: the position, the token found there
/// and what was expected instead. A declaration chain must end in an
/// expression, and no token may be left over.
pub fn parser(tokens: &Vec<Token>) -> (r: Result<Expr, ParseError>)
    ensures
        match r {
            Ok(e) => parse(tokens.deep_view()) == Ok::<ExprView, ParseErrorView>(e@),
            Err(err) => parse(tokens.deep_view()) == Err::<ExprView, ParseErrorView>(err@),
        },
        all_well_formed(tokens.deep_view()) ==> (r matches Ok(e) ==> e@.valid()),
{
    proof {
        if all_well_formed(tokens.deep_view()) {
            lemma_parse_valid(tokens.deep_view());
        }
    }
    match decl(tokens, 0) {
        Ok((e, k)) => if k == tokens.len() {
            Ok(e)
        } else {
            Err(fail(tokens, k, Expected::EndOfInput))
        },
        Err(err) => Err(err),
    }
}

} // verus!
