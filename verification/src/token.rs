//! The lexical alphabet and its canonical text.
use crate::chars::{is_digit, is_word_part, is_word_start};
use vstd::prelude::*;

verus! {

/// One lexical unit.
///
/// A number keeps the text it was written with, so that two tokens are equal
/// exactly when they were spelled alike.
#[derive(Debug, Clone, PartialEq, Eq, Hash)]
pub enum Token {
    Num(String),
    Ident(String),
    Minus,
    Plus,
    Times,
    Div,
    Fn,
    Let,
    OpenParen,
    CloseParen,
    Eq,
    Comma,
    Semi,
}

/// The mathematical value of a [`Token`]: the same alphabet, with texts as
/// sequences of characters.
pub enum TokenView {
    Num(Seq<char>),
    Ident(Seq<char>),
    Minus,
    Plus,
    Times,
    Div,
    Fn,
    Let,
    OpenParen,
    CloseParen,
    Eq,
    Comma,
    Semi,
}

impl View for Token {
    type V = TokenView;

    open spec fn view(&self) -> TokenView {
        match self {
            Token::Num(text) => TokenView::Num(text@),
            Token::Ident(name) => TokenView::Ident(name@),
            Token::Minus => TokenView::Minus,
            Token::Plus => TokenView::Plus,
            Token::Times => TokenView::Times,
            Token::Div => TokenView::Div,
            Token::Fn => TokenView::Fn,
            Token::Let => TokenView::Let,
            Token::OpenParen => TokenView::OpenParen,
            Token::CloseParen => TokenView::CloseParen,
            Token::Eq => TokenView::Eq,
            Token::Comma => TokenView::Comma,
            Token::Semi => TokenView::Semi,
        }
    }
}

impl DeepView for Token {
    type V = TokenView;

    open spec fn deep_view(&self) -> TokenView {
        self@
    }
}

/// Every character of `s` is a decimal digit.
pub open spec fn all_digits(s: Seq<char>) -> bool {
    forall|i: int| 0 <= i < s.len() ==> is_digit(#[trigger] s[i])
}

/// `s` is a number literal: one or more digits, optionally followed by a
/// point and one or more digits.
pub open spec fn is_number(s: Seq<char>) -> bool {
    ||| s.len() > 0 && all_digits(s)
    ||| exists|k: int|
        0 < k < s.len() - 1 && #[trigger] s[k] == '.' && all_digits(s.subrange(0, k))
            && all_digits(s.subrange(k + 1, s.len() as int))
}

/// `s` is a word: a letter or underscore, then letters, digits and
/// underscores.
pub open spec fn is_word(s: Seq<char>) -> bool {
    &&& s.len() > 0
    &&& is_word_start(s[0])
    &&& forall|i: int| 0 < i < s.len() ==> is_word_part(#[trigger] s[i])
}

/// The spelling of the keyword `fn`.
pub open spec fn fn_keyword() -> Seq<char> {
    seq!['f', 'n']
}

/// The spelling of the keyword `let`.
pub open spec fn let_keyword() -> Seq<char> {
    seq!['l', 'e', 't']
}

/// `s` is a word that is not reserved as a keyword.
pub open spec fn is_identifier(s: Seq<char>) -> bool {
    is_word(s) && s != fn_keyword() && s != let_keyword()
}

impl TokenView {
    /// The canonical text of the token.
    pub open spec fn text(self) -> Seq<char> {
        match self {
            TokenView::Num(text) => text,
            TokenView::Ident(name) => name,
            TokenView::Minus => seq!['-'],
            TokenView::Plus => seq!['+'],
            TokenView::Times => seq!['*'],
            TokenView::Div => seq!['/'],
            TokenView::Fn => fn_keyword(),
            TokenView::Let => let_keyword(),
            TokenView::OpenParen => seq!['('],
            TokenView::CloseParen => seq![')'],
            TokenView::Eq => seq!['='],
            TokenView::Comma => seq![','],
            TokenView::Semi => seq![';'],
        }
    }

    /// The token is one that the lexer can produce: a number holds a number
    /// literal, an identifier holds a word that is no keyword.
    pub open spec fn well_formed(self) -> bool {
        match self {
            TokenView::Num(text) => is_number(text),
            TokenView::Ident(name) => is_identifier(name),
            _ => true,
        }
    }
}

/// Every token of `ts` is well formed.
pub open spec fn all_well_formed(ts: Seq<TokenView>) -> bool {
    forall|i: int| 0 <= i < ts.len() ==> (#[trigger] ts[i]).well_formed()
}

impl Token {
    /// Returns the canonical text of the token.
    pub fn to_string(&self) -> (s: String)
        ensures
            s@ == self@.text(),
    {
        proof {
            reveal_strlit("-");
            reveal_strlit("+");
            reveal_strlit("*");
            reveal_strlit("/");
            reveal_strlit("fn");
            reveal_strlit("let");
            reveal_strlit("(");
            reveal_strlit(")");
            reveal_strlit("=");
            reveal_strlit(",");
            reveal_strlit(";");
        }
        let s = match self {
            Token::Num(text) => text.clone(),
            Token::Ident(name) => name.clone(),
            Token::Minus => "-".to_owned(),
            Token::Plus => "+".to_owned(),
            Token::Times => "*".to_owned(),
            Token::Div => "/".to_owned(),
            Token::Fn => "fn".to_owned(),
            Token::Let => "let".to_owned(),
            Token::OpenParen => "(".to_owned(),
            Token::CloseParen => ")".to_owned(),
            Token::Eq => "=".to_owned(),
            Token::Comma => ",".to_owned(),
            Token::Semi => ";".to_owned(),
        };
        assert(s@ =~= self@.text());
        s
    }
}

} // verus!
