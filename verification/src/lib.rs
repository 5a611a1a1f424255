//! A small expression language: numbers, arithmetic, `let` bindings and
//! user-defined functions.
//!
//! ```text
//! fn area w h = w * h;
//! let side = 2.5;
//! area(side, side + 1) / 2
//! ```
//!
//! Source text goes through three stages, each with its own error type and
//! each tried only where the one before succeeded:
//!
//! * [`lexer`] turns characters into [`Token`]s ([`lexer::lex`]);
//! * [`parser`] turns tokens into one syntax tree, an [`Expr`]
//!   ([`parser::parse`]);
//! * [`eval`] resolves every name, binding and call of the tree
//!   ([`eval::eval_expr`]) and hands back the arithmetic that is left, a
//!   [`Program`] of steps on number literals. Carrying that arithmetic out
//!   in floating point is left to the caller.
//!
//! What each stage computes is fixed by the specification function named
//! beside it; the executable functions are proved to compute exactly that.
//! The module [`notation`] relates the stages to the way programs are
//! written: every program is read back from its usual notation.
use vstd::prelude::*;

pub mod ast;
pub mod chars;
pub mod eval;
pub mod lexer;
pub mod notation;
pub mod parser;
pub mod token;

pub use ast::Expr;
pub use eval::{eval, eval_in, eval_with_depth, EvalError, Program, Step};
pub use lexer::{lexer, lexer_with_spans, LexError, Span};
pub use parser::{parser, Expected, ParseError};
pub use token::Token;
