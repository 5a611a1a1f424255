//! From source text to tokens.
//!
//! The grammar is given by [`lex`], a function on sequences of characters.
//! At each position, after white space, it reads the longest word, else the
//! longest number, else a one-character symbol, and fails where none starts.
use crate::chars::{digit, is_digit, is_space, is_word_start, word_start, CharClass};
use crate::token::{all_digits, all_well_formed, fn_keyword, let_keyword, Token, TokenView};
use vstd::prelude::*;

verus! {

/// No token starts at `position`, an index into the characters of the
/// source.
#[derive(Debug, Clone, Copy, PartialEq, Eq)]
pub struct LexError {
    pub position: usize,
}

/// Where a token stands in the source: the index of its first character
/// and the index behind its last.
#[derive(Debug, Clone, Copy, PartialEq, Eq)]
pub struct Span {
    pub start: usize,
    pub end: usize,
}

/// The end of the longest run of characters of `class` that starts at `i`.
pub open spec fn run_end(s: Seq<char>, i: int, class: CharClass) -> int
    decreases s.len() - i,
{
    if 0 <= i < s.len() && class.has(s[i]) {
        run_end(s, i + 1, class)
    } else {
        i
    }
}

/// The end of the number literal that starts at `i`: its digits, and a
/// fraction where a point and a digit follow them.
pub open spec fn number_end(s: Seq<char>, i: int) -> int {
    let k = run_end(s, i, CharClass::Digit);
    if 0 <= k && k + 1 < s.len() && s[k] == '.' && is_digit(s[k + 1]) {
        run_end(s, k + 1, CharClass::Digit)
    } else {
        k
    }
}

/// The token that a word stands for: a keyword, else an identifier.
pub open spec fn word_token(w: Seq<char>) -> TokenView {
    if w == fn_keyword() {
        TokenView::Fn
    } else if w == let_keyword() {
        TokenView::Let
    } else {
        TokenView::Ident(w)
    }
}

/// The token that a single character stands for, if any.
pub open spec fn symbol_token(c: char) -> Option<TokenView> {
    if c == '+' {
        Some(TokenView::Plus)
    } else if c == '-' {
        Some(TokenView::Minus)
    } else if c == '*' {
        Some(TokenView::Times)
    } else if c == '/' {
        Some(TokenView::Div)
    } else if c == ',' {
        Some(TokenView::Comma)
    } else if c == '=' {
        Some(TokenView::Eq)
    } else if c == '(' {
        Some(TokenView::OpenParen)
    } else if c == ')' {
        Some(TokenView::CloseParen)
    } else if c == ';' {
        Some(TokenView::Semi)
    } else {
        None
    }
}

/// The token that starts at `i`, with the position behind it; `None` where
/// no token starts there.
pub open spec fn token_at(s: Seq<char>, i: int) -> Option<(TokenView, int)>
    recommends
        0 <= i < s.len(),
{
    if is_word_start(s[i]) {
        let k = run_end(s, i, CharClass::WordPart);
        Some((word_token(s.subrange(i, k)), k))
    } else if is_digit(s[i]) {
        let k = number_end(s, i);
        Some((TokenView::Num(s.subrange(i, k)), k))
    } else {
        match symbol_token(s[i]) {
            Some(t) => Some((t, i + 1)),
            None => None,
        }
    }
}

/// `done`, followed by what `rest` holds; the error of `rest` where it is
/// one.
pub open spec fn prepend(done: Seq<TokenView>, rest: Result<Seq<TokenView>, LexError>) -> Result<
    Seq<TokenView>,
    LexError,
> {
    match rest {
        Ok(ts) => Ok(done + ts),
        Err(e) => Err(e),
    }
}

/// The tokens of `s` from `i` on, or the first position at which no token
/// starts.
pub open spec fn lex_from(s: Seq<char>, i: int) -> Result<Seq<TokenView>, LexError>
    decreases s.len() - i,
{
    let j = run_end(s, i, CharClass::Space);
    if i < 0 || j >= s.len() {
        Ok(Seq::empty())
    } else {
        match token_at(s, j) {
            None => Err(LexError { position: j as usize }),
            Some((t, k)) => {
                proof {
                    lemma_run_end_bounds(s, i, CharClass::Space);
                    lemma_token_at_advances(s, j);
                }
                prepend(seq![t], lex_from(s, k))
            },
        }
    }
}

/// The tokens of the source text `s`, or the first position at which no
/// token starts.
pub open spec fn lex(s: Seq<char>) -> Result<Seq<TokenView>, LexError> {
    lex_from(s, 0)
}

/// The places of the tokens of `s` from `i` on: for each token that
/// [`lex_from`] reads, where it starts and where it ends.
pub open spec fn spans_from(s: Seq<char>, i: int) -> Seq<(int, int)>
    decreases s.len() - i,
{
    let j = run_end(s, i, CharClass::Space);
    if i < 0 || j >= s.len() {
        Seq::empty()
    } else {
        match token_at(s, j) {
            None => Seq::empty(),
            Some((_, k)) => {
                proof {
                    lemma_run_end_bounds(s, i, CharClass::Space);
                    lemma_token_at_advances(s, j);
                }
                seq![(j, k)] + spans_from(s, k)
            },
        }
    }
}

/// The places that `spans` name.
pub open spec fn spans_view(spans: Seq<Span>) -> Seq<(int, int)> {
    Seq::new(spans.len(), |m: int| (spans[m].start as int, spans[m].end as int))
}

/// A run ends at or behind its start, inside the text, on a character that
/// is not of the class; all characters of the run are of the class.
pub proof fn lemma_run_end_bounds(s: Seq<char>, i: int, class: CharClass)
    requires
        0 <= i <= s.len(),
    ensures
        i <= run_end(s, i, class) <= s.len(),
        forall|k: int| i <= k < run_end(s, i, class) ==> class.has(#[trigger] s[k]),
        run_end(s, i, class) < s.len() ==> !class.has(s[run_end(s, i, class)]),
        i < s.len() && class.has(s[i]) ==> i < run_end(s, i, class),
    decreases s.len() - i,
{
    if i < s.len() && class.has(s[i]) {
        lemma_run_end_bounds(s, i + 1, class);
    }
}

/// A number literal that starts on a digit ends behind it, inside the text.
pub proof fn lemma_number_end_bounds(s: Seq<char>, i: int)
    requires
        0 <= i < s.len(),
        is_digit(s[i]),
    ensures
        i < number_end(s, i) <= s.len(),
{
    lemma_run_end_bounds(s, i, CharClass::Digit);
    let k = run_end(s, i, CharClass::Digit);
    if k + 1 < s.len() {
        lemma_run_end_bounds(s, k + 1, CharClass::Digit);
    }
}

/// A token ends behind its start, inside the text.
pub proof fn lemma_token_at_advances(s: Seq<char>, i: int)
    requires
        0 <= i < s.len(),
    ensures
        token_at(s, i) matches Some((_, k)) ==> i < k <= s.len(),
{
    if is_word_start(s[i]) {
        lemma_run_end_bounds(s, i, CharClass::WordPart);
    } else if is_digit(s[i]) {
        lemma_number_end_bounds(s, i);
    }
}

/// A run that is known to consist of characters of the class, and to stop on
/// another character or at the end of the text, ends there.
pub proof fn lemma_run_end_is(s: Seq<char>, i: int, j: int, class: CharClass)
    requires
        0 <= i <= j <= s.len(),
        forall|k: int| i <= k < j ==> class.has(#[trigger] s[k]),
        j < s.len() ==> !class.has(s[j]),
    ensures
        run_end(s, i, class) == j,
    decreases j - i,
{
    if i < j {
        lemma_run_end_is(s, i + 1, j, class);
    }
}

/// Re-lexing the canonical text of a well-formed token gives that token back,
/// and nothing else.
pub proof fn lemma_lex_text_round_trip(t: TokenView)
    requires
        t.well_formed(),
    ensures
        lex(t.text()) == Ok::<Seq<TokenView>, LexError>(seq![t]),
{
    let s = t.text();
    let n = s.len() as int;
    assert(n > 0 && !is_space(s[0]) && token_at(s, 0) == Some((t, n))) by {
        match t {
            TokenView::Num(text) => {
                if text.len() > 0 && all_digits(text) {
                    lemma_run_end_is(s, 0, n, CharClass::Digit);
                } else {
                    let k = choose|k: int|
                        0 < k < s.len() - 1 && #[trigger] s[k] == '.' && all_digits(
                            s.subrange(0, k),
                        ) && all_digits(s.subrange(k + 1, s.len() as int));
                    assert forall|m: int| 0 <= m < k implies CharClass::Digit.has(
                        #[trigger] s[m],
                    ) by {
                        assert(s.subrange(0, k)[m] == s[m]);
                    }
                    assert forall|m: int| k + 1 <= m < n implies CharClass::Digit.has(
                        #[trigger] s[m],
                    ) by {
                        assert(s.subrange(k + 1, n)[m - (k + 1)] == s[m]);
                    }
                    lemma_run_end_is(s, 0, k, CharClass::Digit);
                    lemma_run_end_is(s, k + 1, n, CharClass::Digit);
                }
                assert(s.subrange(0, n) =~= s);
            },
            TokenView::Ident(name) => {
                lemma_run_end_is(s, 0, n, CharClass::WordPart);
                assert(s.subrange(0, n) =~= s);
            },
            TokenView::Fn => {
                lemma_run_end_is(s, 0, n, CharClass::WordPart);
                assert(s.subrange(0, n) =~= s);
            },
            TokenView::Let => {
                lemma_run_end_is(s, 0, n, CharClass::WordPart);
                assert(s.subrange(0, n) =~= s);
                assert(let_keyword().len() != fn_keyword().len());
            },
            _ => {},
        }
    }
    lemma_run_end_is(s, 0, 0, CharClass::Space);
    assert(lex_from(s, n) == Ok::<Seq<TokenView>, LexError>(Seq::empty()));
    assert(seq![t] + Seq::<TokenView>::empty() =~= seq![t]);
}

/// Every token that the lexer reads is well formed.
pub proof fn lemma_token_at_well_formed(s: Seq<char>, i: int)
    requires
        0 <= i < s.len(),
    ensures
        token_at(s, i) matches Some((t, _)) ==> t.well_formed(),
{
    if is_word_start(s[i]) {
        lemma_run_end_bounds(s, i, CharClass::WordPart);
    } else if is_digit(s[i]) {
        lemma_run_end_bounds(s, i, CharClass::Digit);
        lemma_number_end_bounds(s, i);
        let k = run_end(s, i, CharClass::Digit);
        let e = number_end(s, i);
        let text = s.subrange(i, e);
        if e == k {
            assert(all_digits(text));
        } else {
            lemma_run_end_bounds(s, k + 1, CharClass::Digit);
            assert(text[k - i] == '.');
            assert(all_digits(text.subrange(0, k - i)));
            assert(all_digits(text.subrange(k - i + 1, text.len() as int)));
        }
    }
}

/// Every token of a lexed text is well formed.
pub proof fn lemma_lex_well_formed(s: Seq<char>, i: int)
    requires
        0 <= i <= s.len(),
    ensures
        lex_from(s, i) matches Ok(ts) ==> all_well_formed(ts),
    decreases s.len() - i,
{
    lemma_run_end_bounds(s, i, CharClass::Space);
    let j = run_end(s, i, CharClass::Space);
    if j < s.len() {
        lemma_token_at_advances(s, j);
        lemma_token_at_well_formed(s, j);
        if let Some((t, k)) = token_at(s, j) {
            lemma_lex_well_formed(s, k);
        }
    }
}

/// Where lexing fails, it names a character of the text that is neither white
/// space nor the start of any token.
pub proof fn lemma_lex_error_position(s: Seq<char>, i: int)
    requires
        0 <= i <= s.len(),
        s.len() <= usize::MAX,
    ensures
        lex_from(s, i) matches Err(e) ==> {
            &&& i <= e.position < s.len()
            &&& !is_space(s[e.position as int])
            &&& token_at(s, e.position as int) is None
        },
    decreases s.len() - i,
{
    lemma_run_end_bounds(s, i, CharClass::Space);
    let j = run_end(s, i, CharClass::Space);
    if j < s.len() {
        lemma_token_at_advances(s, j);
        if let Some((t, k)) = token_at(s, j) {
            lemma_lex_error_position(s, k);
        }
    }
}

/// The characters that are no white space.
pub open spec fn visible() -> spec_fn(char) -> bool {
    |c: char| !is_space(c)
}

/// The canonical texts of `ts`, one after the other.
pub open spec fn spell(ts: Seq<TokenView>) -> Seq<char>
    decreases ts.len(),
{
    if ts.len() == 0 {
        Seq::empty()
    } else {
        ts.first().text() + spell(ts.drop_first())
    }
}

/// Nothing is left of white space when white space is removed.
proof fn lemma_filter_spaces(s: Seq<char>)
    requires
        forall|i: int| 0 <= i < s.len() ==> is_space(#[trigger] s[i]),
    ensures
        s.filter(visible()) == Seq::<char>::empty(),
    decreases s.len(),
{
    reveal(Seq::filter);
    if s.len() > 0 {
        lemma_filter_spaces(s.drop_last());
    }
}

/// A text without white space stays as it is when white space is removed.
proof fn lemma_filter_visible(s: Seq<char>)
    requires
        forall|i: int| 0 <= i < s.len() ==> !is_space(#[trigger] s[i]),
    ensures
        s.filter(visible()) == s,
    decreases s.len(),
{
    reveal(Seq::filter);
    if s.len() > 0 {
        lemma_filter_visible(s.drop_last());
        assert(s.drop_last().push(s.last()) =~= s);
    }
}

/// The canonical text of a token that the lexer reads is the text it was
/// read from, which holds no white space.
pub proof fn lemma_token_at_text(s: Seq<char>, i: int)
    requires
        0 <= i < s.len(),
    ensures
        token_at(s, i) matches Some((t, k)) ==> {
            &&& i < k <= s.len()
            &&& t.text() == s.subrange(i, k)
            &&& forall|m: int| i <= m < k ==> !is_space(#[trigger] s[m])
        },
{
    lemma_token_at_advances(s, i);
    if is_word_start(s[i]) {
        lemma_run_end_bounds(s, i, CharClass::WordPart);
    } else if is_digit(s[i]) {
        lemma_run_end_bounds(s, i, CharClass::Digit);
        let k = run_end(s, i, CharClass::Digit);
        if k + 1 < s.len() {
            lemma_run_end_bounds(s, k + 1, CharClass::Digit);
        }
    } else if let Some(t) = symbol_token(s[i]) {
        assert(t.text() =~= s.subrange(i, i + 1));
    }
}

/// The tokens of a text from `i` on spell that part of the text, white space
/// apart.
pub proof fn lemma_lex_from_spells(s: Seq<char>, i: int)
    requires
        0 <= i <= s.len(),
    ensures
        lex_from(s, i) matches Ok(ts) ==> spell(ts) == s.subrange(i, s.len() as int).filter(
            visible(),
        ),
    decreases s.len() - i,
{
    let n = s.len() as int;
    lemma_run_end_bounds(s, i, CharClass::Space);
    let j = run_end(s, i, CharClass::Space);
    let spaces = s.subrange(i, j);
    lemma_filter_spaces(spaces);
    if j >= n {
        assert(s.subrange(i, n) =~= spaces);
    } else if let Some((t, k)) = token_at(s, j) {
        lemma_token_at_text(s, j);
        if let Ok(rest) = lex_from(s, k) {
            lemma_lex_from_spells(s, k);
            let text = s.subrange(j, k);
            let tail = s.subrange(k, n);
            lemma_filter_visible(text);
            Seq::filter_distributes_over_add(spaces, text + tail, visible());
            Seq::filter_distributes_over_add(text, tail, visible());
            assert(s.subrange(i, n) =~= spaces + (text + tail));
            assert(spaces.filter(visible()) + (text + tail.filter(visible())) =~= text
                + tail.filter(visible()));
            let ts = seq![t] + rest;
            assert(ts.first() == t);
            assert(ts.drop_first() =~= rest);
        }
    }
}

/// The tokens of a text spell the text: their canonical texts, one after the
/// other, are the text without its white space.
pub proof fn lemma_lex_spells(s: Seq<char>)
    ensures
        lex(s) matches Ok(ts) ==> spell(ts) == s.filter(visible()),
{
    lemma_lex_from_spells(s, 0);
    assert(s.subrange(0, s.len() as int) =~= s);
}

/// The canonical texts of `ts`, each followed by one blank.
pub open spec fn spell_spaced(ts: Seq<TokenView>) -> Seq<char>
    decreases ts.len(),
{
    if ts.len() == 0 {
        Seq::empty()
    } else {
        ts.first().text() + seq![' '] + spell_spaced(ts.drop_first())
    }
}

/// Where the canonical text of a well-formed token stands in front of a
/// blank, the lexer reads that token and stops at the blank.
pub proof fn lemma_token_at_spelled(s: Seq<char>, i: int, t: TokenView)
    requires
        t.well_formed(),
        0 <= i,
        i + t.text().len() < s.len(),
        s.subrange(i, i + t.text().len()) == t.text(),
        s[i + t.text().len()] == ' ',
    ensures
        t.text().len() > 0,
        !is_space(s[i]),
        token_at(s, i) == Some((t, i + t.text().len())),
{
    let text = t.text();
    let n = text.len() as int;
    assert forall|k: int| 0 <= k < n implies s[i + k] == #[trigger] text[k] by {
        assert(s.subrange(i, i + n)[k] == s[i + k]);
    }
    match t {
        TokenView::Num(_) => {
            if text.len() > 0 && all_digits(text) {
                assert forall|m: int| i <= m < i + n implies CharClass::Digit.has(
                    #[trigger] s[m],
                ) by {
                    assert(s[m] == text[m - i]);
                }
                lemma_run_end_is(s, i, i + n, CharClass::Digit);
            } else {
                let k = choose|k: int|
                    0 < k < text.len() - 1 && #[trigger] text[k] == '.' && all_digits(
                        text.subrange(0, k),
                    ) && all_digits(text.subrange(k + 1, text.len() as int));
                assert forall|m: int| i <= m < i + k implies CharClass::Digit.has(
                    #[trigger] s[m],
                ) by {
                    assert(text.subrange(0, k)[m - i] == text[m - i]);
                    assert(s[m] == text[m - i]);
                }
                assert forall|m: int| i + k + 1 <= m < i + n implies CharClass::Digit.has(
                    #[trigger] s[m],
                ) by {
                    assert(text.subrange(k + 1, n)[m - i - (k + 1)] == text[m - i]);
                    assert(s[m] == text[m - i]);
                }
                assert(s[i + k] == text[k]);
                assert(s[i] == text[0]);
                lemma_run_end_is(s, i, i + k, CharClass::Digit);
                lemma_run_end_is(s, i + k + 1, i + n, CharClass::Digit);
            }
            assert(s[i] == text[0]);
        },
        TokenView::Ident(_) | TokenView::Fn | TokenView::Let => {
            assert forall|m: int| i <= m < i + n implies CharClass::WordPart.has(
                #[trigger] s[m],
            ) by {
                assert(s[m] == text[m - i]);
            }
            assert(s[i] == text[0]);
            lemma_run_end_is(s, i, i + n, CharClass::WordPart);
            assert(let_keyword().len() != fn_keyword().len());
        },
        _ => {
            assert(s[i] == text[0]);
        },
    }
}

/// Where the spaced spelling of well-formed tokens stands from `i` to the
/// end of a text, the lexer reads those tokens from `i` on.
pub proof fn lemma_lex_from_spaced(s: Seq<char>, i: int, ts: Seq<TokenView>)
    requires
        all_well_formed(ts),
        0 <= i <= s.len(),
        s.subrange(i, s.len() as int) == spell_spaced(ts),
    ensures
        lex_from(s, i) == Ok::<Seq<TokenView>, LexError>(ts),
    decreases ts.len(),
{
    let tail = s.subrange(i, s.len() as int);
    if ts.len() == 0 {
        assert(tail.len() == 0);
        assert(ts =~= Seq::<TokenView>::empty());
    } else {
        let t = ts.first();
        let rest = ts.drop_first();
        let text = t.text();
        let n = text.len() as int;
        assert(t.well_formed());
        assert(tail == text + seq![' '] + spell_spaced(rest));
        assert(s.subrange(i, i + n) =~= text) by {
            assert forall|k: int| 0 <= k < n implies s.subrange(i, i + n)[k] == text[k] by {
                assert(tail[k] == text[k]);
            }
        }
        assert(s[i + n] == ' ') by {
            assert(tail[n] == ' ');
        }
        assert(s.subrange(i + n + 1, s.len() as int) =~= spell_spaced(rest)) by {
            assert forall|k: int| 0 <= k < spell_spaced(rest).len() implies s[i + n + 1 + k]
                == spell_spaced(rest)[k] by {
                assert(tail[n + 1 + k] == spell_spaced(rest)[k]);
            }
        }
        assert forall|m: int| 0 <= m < rest.len() implies (#[trigger] rest[m]).well_formed() by {
            assert(ts[m + 1].well_formed());
        }
        lemma_token_at_spelled(s, i, t);
        lemma_lex_from_spaced(s, i + n + 1, rest);
        assert(run_end(s, i, CharClass::Space) == i);
        assert(run_end(s, i + n, CharClass::Space) == run_end(s, i + n + 1, CharClass::Space));
        assert(lex_from(s, i + n) == lex_from(s, i + n + 1));
        assert(seq![t] + rest =~= ts);
    }
}

/// Re-lexing the canonical texts of well-formed tokens, written one after
/// the other with blanks between them, gives those tokens back.
pub proof fn lemma_lex_spaced(ts: Seq<TokenView>)
    requires
        all_well_formed(ts),
    ensures
        lex(spell_spaced(ts)) == Ok::<Seq<TokenView>, LexError>(ts),
{
    let s = spell_spaced(ts);
    assert(s.subrange(0, s.len() as int) =~= s);
    lemma_lex_from_spaced(s, 0, ts);
}

/// Each token of a lexed text has its place: the places lie inside the text
/// in the order of the tokens, they do not overlap, and the text at the
/// place of a token is the canonical text of that token.
pub proof fn lemma_spans_from(s: Seq<char>, i: int)
    requires
        0 <= i <= s.len(),
    ensures
        lex_from(s, i) matches Ok(ts) ==> {
            let places = spans_from(s, i);
            &&& places.len() == ts.len()
            &&& forall|m: int|
                0 <= m < places.len() ==> {
                    &&& i <= (#[trigger] places[m]).0 < places[m].1 <= s.len()
                    &&& ts[m].text() == s.subrange(places[m].0, places[m].1)
                }
            &&& forall|m: int, n: int|
                0 <= m < n < places.len() ==> (#[trigger] places[m]).1 <= (
                #[trigger] places[n]).0
        },
    decreases s.len() - i,
{
    lemma_run_end_bounds(s, i, CharClass::Space);
    let j = run_end(s, i, CharClass::Space);
    if j < s.len() {
        if let Some((t, k)) = token_at(s, j) {
            lemma_token_at_text(s, j);
            lemma_spans_from(s, k);
            if let Ok(rest) = lex_from(s, k) {
                let ts = seq![t] + rest;
                let tail = spans_from(s, k);
                let places = seq![(j, k)] + tail;
                assert forall|m: int| 0 <= m < places.len() implies {
                    &&& i <= (#[trigger] places[m]).0 < places[m].1 <= s.len()
                    &&& ts[m].text() == s.subrange(places[m].0, places[m].1)
                } by {
                    if m > 0 {
                        assert(places[m] == tail[m - 1]);
                        assert(ts[m] == rest[m - 1]);
                    }
                }
                assert forall|m: int, n: int| 0 <= m < n < places.len() implies (
                #[trigger] places[m]).1 <= (#[trigger] places[n]).0 by {
                    assert(places[n] == tail[n - 1]);
                    if m > 0 {
                        assert(places[m] == tail[m - 1]);
                    }
                }
            }
        }
    }
}

/// Taken on trust from the standard library: `String::push` appends the
/// character `c` to the end of the string and changes nothing else of it.
pub assume_specification[ String::push ](s: &mut String, c: char)
    ensures
        final(s)@ == old(s)@.push(c),
;

/// The characters of `src`, in order.
fn chars_of(src: &str) -> (cs: Vec<char>)
    ensures
        cs@ == src@,
{
    broadcast use vstd::string::group_string_axioms;

    let mut cs: Vec<char> = Vec::new();
    for c in it: src.chars()
        invariant
            it.seq() == src@,
            cs@ == src@.take(it.index()),
    {
        cs.push(c);
    }
    cs
}

/// Finds the end of the longest run of characters of `class` from `i`.
fn scan(cs: &Vec<char>, i: usize, class: CharClass) -> (j: usize)
    requires
        i <= cs.len(),
    ensures
        j == run_end(cs@, i as int, class),
        i <= j <= cs.len(),
{
    let mut j: usize = i;
    while j < cs.len() && class.contains(cs[j])
        invariant
            i <= j <= cs.len(),
            run_end(cs@, i as int, class) == run_end(cs@, j as int, class),
        decreases cs.len() - j,
    {
        j += 1;
    }
    j
}

/// Finds the end of the number literal that starts at `i`.
fn scan_number(cs: &Vec<char>, i: usize) -> (j: usize)
    requires
        i < cs.len(),
        is_digit(cs[i as int]),
    ensures
        j == number_end(cs@, i as int),
        i < j <= cs.len(),
{
    proof {
        lemma_number_end_bounds(cs@, i as int);
    }
    let k = scan(cs, i, CharClass::Digit);
    if k < cs.len() && k + 1 < cs.len() && cs[k] == '.' && digit(cs[k + 1]) {
        scan(cs, k + 1, CharClass::Digit)
    } else {
        k
    }
}

/// Copies the characters from `from` up to `to` into a string.
fn text_between(cs: &Vec<char>, from: usize, to: usize) -> (text: String)
    requires
        from <= to <= cs.len(),
    ensures
        text@ == cs@.subrange(from as int, to as int),
{
    let mut text = String::new();
    let mut i: usize = from;
    while i < to
        invariant
            from <= i <= to <= cs.len(),
            text@ == cs@.subrange(from as int, i as int),
        decreases to - i,
    {
        text.push(cs[i]);
        i += 1;
        assert(cs@.subrange(from as int, i as int) == cs@.subrange(from as int, i - 1).push(
            cs@[i - 1],
        ));
    }
    text
}

/// Reads the word between `from` and `to` as a keyword or an identifier.
fn word(cs: &Vec<char>, from: usize, to: usize) -> (t: Token)
    requires
        from <= to <= cs.len(),
    ensures
        t@ == word_token(cs@.subrange(from as int, to as int)),
{
    let ghost w = cs@.subrange(from as int, to as int);
    if to - from == 2 && cs[from] == 'f' && cs[from + 1] == 'n' {
        assert(w =~= fn_keyword());
        Token::Fn
    } else if to - from == 3 && cs[from] == 'l' && cs[from + 1] == 'e' && cs[from + 2] == 't' {
        assert(w =~= let_keyword());
        assert(w != fn_keyword()) by {
            assert(fn_keyword().len() == 2);
        }
        Token::Let
    } else {
        assert(w != fn_keyword()) by {
            if w == fn_keyword() {
                assert(w.len() == 2 && w[0] == 'f' && w[1] == 'n');
            }
        }
        assert(w != let_keyword()) by {
            if w == let_keyword() {
                assert(w.len() == 3 && w[0] == 'l' && w[1] == 'e' && w[2] == 't');
            }
        }
        Token::Ident(text_between(cs, from, to))
    }
}

/// Reads a one-character symbol.
fn symbol(c: char) -> (t: Option<Token>)
    ensures
        match t {
            Some(t) => symbol_token(c) == Some(t@),
            None => symbol_token(c) is None,
        },
{
    if c == '+' {
        Some(Token::Plus)
    } else if c == '-' {
        Some(Token::Minus)
    } else if c == '*' {
        Some(Token::Times)
    } else if c == '/' {
        Some(Token::Div)
    } else if c == ',' {
        Some(Token::Comma)
    } else if c == '=' {
        Some(Token::Eq)
    } else if c == '(' {
        Some(Token::OpenParen)
    } else if c == ')' {
        Some(Token::CloseParen)
    } else if c == ';' {
        Some(Token::Semi)
    } else {
        None
    }
}

/// Reads the token that starts at `i`, and the position behind it.
fn read_token(cs: &Vec<char>, i: usize) -> (r: Option<(Token, usize)>)
    requires
        i < cs.len(),
    ensures
        match r {
            Some((t, k)) => token_at(cs@, i as int) == Some((t@, k as int)) && i < k <= cs.len(),
            None => token_at(cs@, i as int) is None,
        },
{
    let c = cs[i];
    if word_start(c) {
        let k = scan(cs, i, CharClass::WordPart);
        proof {
            lemma_run_end_bounds(cs@, i as int, CharClass::WordPart);
        }
        Some((word(cs, i, k), k))
    } else if digit(c) {
        let k = scan_number(cs, i);
        Some((Token::Num(text_between(cs, i, k)), k))
    } else {
        match symbol(c) {
            Some(t) => Some((t, i + 1)),
            None => None,
        }
    }
}

/// Splits the characters `cs` into tokens and notes the place of each.
fn lex_both(cs: &Vec<char>) -> (r: Result<(Vec<Token>, Vec<Span>), LexError>)
    ensures
        match r {
            Ok((tokens, spans)) => {
                &&& lex(cs@) == Ok::<Seq<TokenView>, LexError>(tokens.deep_view())
                &&& spans_view(spans@) == spans_from(cs@, 0)
                &&& all_well_formed(tokens.deep_view())
            },
            Err(e) => lex(cs@) == Err::<Seq<TokenView>, LexError>(e),
        },
{
    let mut tokens: Vec<Token> = Vec::new();
    let mut spans: Vec<Span> = Vec::new();
    let mut i: usize = 0;
    assert(tokens.deep_view() =~= Seq::empty());
    assert(prepend(Seq::empty(), lex_from(cs@, 0)) == lex_from(cs@, 0)) by {
        if let Ok(ts) = lex_from(cs@, 0) {
            assert(Seq::<TokenView>::empty() + ts =~= ts);
        }
    }
    assert(spans_view(spans@) + spans_from(cs@, 0) =~= spans_from(cs@, 0));
    loop
        invariant
            i <= cs.len(),
            lex(cs@) == prepend(tokens.deep_view(), lex_from(cs@, i as int)),
            spans_from(cs@, 0) == spans_view(spans@) + spans_from(cs@, i as int),
        decreases cs.len() - i,
    {
        let j = scan(cs, i, CharClass::Space);
        if j >= cs.len() {
            proof {
                assert(tokens.deep_view() + Seq::<TokenView>::empty() =~= tokens.deep_view());
                assert(spans_view(spans@) + Seq::<(int, int)>::empty() =~= spans_view(spans@));
                lemma_lex_well_formed(cs@, 0);
            }
            return Ok((tokens, spans));
        }
        match read_token(cs, j) {
            None => {
                return Err(LexError { position: j });
            },
            Some((t, k)) => {
                let ghost done = tokens.deep_view();
                let ghost places = spans_view(spans@);
                tokens.push(t);
                spans.push(Span { start: j, end: k });
                assert(tokens.deep_view() =~= done + seq![t@]);
                assert(spans_view(spans@) =~= places + seq![(j as int, k as int)]);
                assert(prepend(done, prepend(seq![t@], lex_from(cs@, k as int))) == prepend(
                    done + seq![t@],
                    lex_from(cs@, k as int),
                )) by {
                    if let Ok(ts) = lex_from(cs@, k as int) {
                        assert(done + (seq![t@] + ts) =~= (done + seq![t@]) + ts);
                    }
                }
                assert(places + (seq![(j as int, k as int)] + spans_from(cs@, k as int)) =~= (
                places + seq![(j as int, k as int)]) + spans_from(cs@, k as int));
                i = k;
            },
        }
    }
}

/// Splits the characters `cs` into tokens.
pub fn lex_chars(cs: &Vec<char>) -> (r: Result<Vec<Token>, LexError>)
    ensures
        match r {
            Ok(tokens) => lex(cs@) == Ok::<Seq<TokenView>, LexError>(tokens.deep_view()),
            Err(e) => lex(cs@) == Err::<Seq<TokenView>, LexError>(e),
        },
        r matches Ok(tokens) ==> all_well_formed(tokens.deep_view()),
{
    match lex_both(cs) {
        Ok((tokens, _)) => Ok(tokens),
        Err(e) => Err(e),
    }
}

/// Splits source text into tokens.
///
/// White space between tokens is skipped. The result is the whole token
/// sequence of `src`, or the position of the first character at which no
/// token starts.
pub fn lexer(src: &str) -> (r: Result<Vec<Token>, LexError>)
    ensures
        match r {
            Ok(tokens) => lex(src@) == Ok::<Seq<TokenView>, LexError>(tokens.deep_view()),
            Err(e) => lex(src@) == Err::<Seq<TokenView>, LexError>(e),
        },
        r matches Ok(tokens) ==> all_well_formed(tokens.deep_view()),
{
    let cs = chars_of(src);
    lex_chars(&cs)
}

/// Splits source text into tokens, as [`lexer`] does, and tells where each
/// token stands.
///
/// The second list holds one span for each token, in the same order; spans
/// count characters, as the position of a [`LexError`] does.
pub fn lexer_with_spans(src: &str) -> (r: Result<(Vec<Token>, Vec<Span>), LexError>)
    ensures
        match r {
            Ok((tokens, spans)) => {
                &&& lex(src@) == Ok::<Seq<TokenView>, LexError>(tokens.deep_view())
                &&& spans_view(spans@) == spans_from(src@, 0)
                &&& spans.len() == tokens.len()
                &&& forall|m: int|
                    0 <= m < spans.len() ==> {
                        &&& (#[trigger] spans[m]).start < spans[m].end <= src@.len()
                        &&& tokens[m]@.text() == src@.subrange(
                            spans[m].start as int,
                            spans[m].end as int,
                        )
                    }
                &&& all_well_formed(tokens.deep_view())
            },
            Err(e) => lex(src@) == Err::<Seq<TokenView>, LexError>(e),
        },
{
    let cs = chars_of(src);
    match lex_both(&cs) {
        Ok((tokens, spans)) => {
            proof {
                lemma_spans_from(cs@, 0);
                let places = spans_from(cs@, 0);
                assert forall|m: int| 0 <= m < spans.len() implies {
                    &&& (#[trigger] spans[m]).start < spans[m].end <= src@.len()
                    &&& tokens[m]@.text() == src@.subrange(
                        spans[m].start as int,
                        spans[m].end as int,
                    )
                } by {
                    assert(spans_view(spans@)[m] == places[m]);
                    assert(tokens.deep_view()[m] == tokens[m]@);
                }
            }
            Ok((tokens, spans))
        },
        Err(e) => Err(e),
    }
}

} // verus!
