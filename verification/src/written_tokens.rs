//! Finding single tokens at the start of what is written.

use vstd::prelude::*;

use crate::lexer::{entered, lemma_blanks, lemma_layout, lemma_line_len, lemma_next, lex_from};
use crate::lexer::{marks, next_in_text, next_outside, spec_indentation, spec_layout, spec_next};
use crate::lexer::{Cursor, LayoutView, LexedView, NextView, StateView};
use crate::parse::not_comment;
use crate::pattern::{begins_with, blanks, braces_at, has_content, is_blank, is_lower_or_digit};
use crate::pattern::{is_name_char, line_len, name_len, run_len, Pattern};
use crate::text::{is_mixed, lemma_chars_in_bytes};
use crate::token::{TokenKind, TokenView};
use crate::token_laws::all_blank;
use crate::written::{clean, one, Bare};

verus! {

/// A run ends where what it is a run of does.
pub proof fn lemma_run(a: Seq<char>, b: Seq<char>, p: spec_fn(char) -> bool)
    requires
        forall|i: int| 0 <= i < a.len() ==> p(#[trigger] a[i]),
        b.len() == 0 || !p(b[0]),
    ensures
        run_len(a + b, p) == a.len(),
    decreases a.len(),
{
    if a.len() > 0 {
        assert((a + b).skip(1) =~= a.skip(1) + b);
        assert forall|i: int| 0 <= i < a.skip(1).len() implies p(#[trigger] a.skip(1)[i]) by {
            assert(a.skip(1)[i] == a[i + 1]);
        }
        lemma_run(a.skip(1), b, p);
    } else {
        assert(a + b =~= b);
    }
}

/// The blanks at the start of a text are those before what is not blank.
pub proof fn lemma_blanks_before(prefix: Seq<char>, s: Seq<char>)
    requires
        all_blank(prefix),
        s.len() == 0 || !is_blank(s[0]),
    ensures
        blanks(prefix + s) == prefix.len(),
        (prefix + s).skip(prefix.len() as int) == s,
        (prefix + s).take(prefix.len() as int) == prefix,
{
    lemma_run(prefix, s, |c: char| is_blank(c));
    assert((prefix + s).skip(prefix.len() as int) =~= s);
    assert((prefix + s).take(prefix.len() as int) =~= prefix);
}

/// Whether `lexeme` is all that a token of class `class` takes at the start of `lexeme + tail`.
pub open spec fn parts(class: TokenKind, lexeme: Seq<char>, tail: Seq<char>) -> bool {
    match class {
        TokenKind::Name => {
            &&& lexeme.len() > 0
            &&& forall|i: int| 0 <= i < lexeme.len() ==> is_name_char(#[trigger] lexeme[i])
            &&& tail.len() == 0 || !is_name_char(tail[0])
        },
        TokenKind::Colon => lexeme == seq![':'],
        TokenKind::Equals => lexeme == seq!['='],
        TokenKind::Plus => lexeme == seq!['+'],
        TokenKind::StringToken => {
            &&& lexeme.len() == 3
            &&& lexeme[0] == '"'
            &&& is_lower_or_digit(lexeme[1])
            &&& lexeme[2] == '"'
        },
        TokenKind::Comment => {
            &&& lexeme.len() > 1
            &&& lexeme[0] == '#'
            &&& lexeme[1] != '!'
            &&& forall|i: int| 0 <= i < lexeme.len() ==> #[trigger] lexeme[i] != '\n'
            &&& tail.len() == 0 || tail[0] == '\n'
        },
        TokenKind::InterpolationEnd => lexeme == seq!['}', '}'],
        TokenKind::Eol => lexeme == seq!['\n'],
        _ => false,
    }
}

/// The pattern of a class of tokens.
spec fn pattern_of(class: TokenKind) -> Pattern {
    match class {
        TokenKind::Name => Pattern::Name,
        TokenKind::Colon => Pattern::Colon,
        TokenKind::Equals => Pattern::Equals,
        TokenKind::Plus => Pattern::Plus,
        TokenKind::StringToken => Pattern::StringToken,
        TokenKind::Comment => Pattern::Comment,
        TokenKind::InterpolationEnd => Pattern::InterpolationEnd,
        _ => Pattern::Eol,
    }
}

/// A token takes all that is its own.
proof fn lemma_token_len(class: TokenKind, lexeme: Seq<char>, tail: Seq<char>)
    requires
        parts(class, lexeme, tail),
    ensures
        pattern_of(class).token_len(lexeme + tail) == Some(lexeme.len()),
        lexeme.len() > 0,
        !is_blank(lexeme[0]),
{
    let s = lexeme + tail;
    match class {
        TokenKind::Name => {
            assert(is_name_char(lexeme[0]));
            lemma_run(lexeme, tail, |c: char| is_name_char(c));
        },
        TokenKind::Comment => {
            let rest = lexeme.skip(2);
            assert(s.skip(2) =~= rest + tail);
            lemma_run(rest, tail, |c: char| c != '\n');
        },
        _ => {},
    }
}

/// A token outside of the text of recipe lines is found after the blanks before it.
pub proof fn lemma_found_outside(
    state: StateView,
    column: nat,
    prefix: Seq<char>,
    lexeme: Seq<char>,
    class: TokenKind,
    tail: Seq<char>,
)
    requires
        state is Start || state is Interpolation,
        class == TokenKind::Eol ==> state is Start,
        all_blank(prefix),
        parts(class, lexeme, tail),
    ensures
        spec_next(state, column, prefix + lexeme + tail) == (NextView::Token {
            prefix,
            lexeme,
            class,
            state: match state {
                StateView::Interpolation(indent) if class == TokenKind::InterpolationEnd =>
                    StateView::Text(indent),
                _ => state,
            },
        }),
        Pattern::Eof.spec_captures(prefix + lexeme + tail) is None,
{
    let s = lexeme + tail;
    let rest = prefix + lexeme + tail;
    let n = prefix.len() as int;
    lemma_token_len(class, lexeme, tail);
    assert(rest =~= prefix + s);
    lemma_blanks_before(prefix, s);
    assert(s[0] == lexeme[0]);
    assert(rest.subrange(n, n + lexeme.len()) =~= lexeme);
    let found = pattern_of(class).spec_captures(rest);
    assert(found->0.first == Some(prefix));
    assert(found->0.second == Some(lexeme));
    if s[0] != '}' && !is_name_char(s[0]) {
        assert(name_len(s) == 0);
    }
    assert(spec_next(state, column, rest) == next_outside(state, rest));
}

/// Braces after a clean text are the first in it.
proof fn lemma_braces(lexeme: Seq<char>, tail: Seq<char>, from: int)
    requires
        clean(lexeme, begins_with(tail, '{', '{')),
        begins_with(tail, '{', '{') || tail.len() == 0 || tail[0] == '\n',
        1 <= from <= lexeme.len(),
    ensures
        braces_at(lexeme + tail, from) == (if begins_with(tail, '{', '{') {
            Some(lexeme.len() as int)
        } else {
            None
        }),
    decreases lexeme.len() - from,
{
    let s = lexeme + tail;
    if from < lexeme.len() {
        assert(s[from] == lexeme[from]);
        if from + 1 < lexeme.len() {
            assert(s[from + 1] == lexeme[from + 1]);
        }
        lemma_braces(lexeme, tail, from + 1);
    } else if tail.len() > 0 {
        assert(s[from] == tail[0]);
        if tail.len() > 1 {
            assert(s[from + 1] == tail[1]);
        }
    }
}

/// A text on a recipe line is found up to an interpolation or the end of the line.
pub proof fn lemma_found_text(indent: Seq<char>, column: nat, lexeme: Seq<char>, tail: Seq<char>)
    requires
        clean(lexeme, begins_with(tail, '{', '{')),
        begins_with(tail, '{', '{') || tail.len() == 0 || tail[0] == '\n',
        tail.len() == 0 ==> !all_blank(lexeme),
    ensures
        spec_next(StateView::Text(indent), column, lexeme + tail) == (NextView::Token {
            prefix: Seq::empty(),
            lexeme,
            class: TokenKind::Text,
            state: StateView::Text(indent),
        }),
        Pattern::Eof.spec_captures(lexeme + tail) is None,
{
    let s = lexeme + tail;
    lemma_blanks(s);
    if blanks(s) == s.len() {
        assert forall|i: int| 0 <= i < lexeme.len() implies is_blank(#[trigger] lexeme[i]) by {
            assert(s[i] == lexeme[i]);
        }
        if tail.len() > 0 {
            assert(is_blank(s[lexeme.len() as int]));
            assert(s[lexeme.len() as int] == tail[0]);
        }
    }
    assert(s.skip(blanks(s) as int).len() > 0);
    assert(s[0] == lexeme[0]);
    if lexeme.len() > 1 {
        assert(s[1] == lexeme[1]);
    } else if tail.len() > 0 {
        assert(s[1] == tail[0]);
        assert(lexeme.last() == lexeme[0]);
    }
    assert(!begins_with(s, '{', '{'));
    lemma_braces(lexeme, tail, 1);
    assert(s.take(lexeme.len() as int) =~= lexeme);
    if !begins_with(tail, '{', '{') {
        lemma_run(lexeme, tail, |c: char| c != '\n');
        assert(line_len(s) == lexeme.len());
    }
    assert(spec_next(StateView::Text(indent), column, s) == next_in_text(indent, s));
}

/// The start of an interpolation on a recipe line is found.
pub proof fn lemma_found_braces(indent: Seq<char>, column: nat, tail: Seq<char>)
    ensures
        spec_next(StateView::Text(indent), column, seq!['{', '{'] + tail) == (NextView::Token {
            prefix: Seq::empty(),
            lexeme: seq!['{', '{'],
            class: TokenKind::InterpolationStart,
            state: StateView::Interpolation(indent),
        }),
        Pattern::Eof.spec_captures(seq!['{', '{'] + tail) is None,
{
    let s = seq!['{', '{'] + tail;
    lemma_blanks(s);
    assert(s[0] == '{' && s[1] == '{');
    assert(blanks(s) == 0);
    assert(s.skip(0).len() > 0);
    assert(s.take(2) =~= seq!['{', '{']);
}

/// The end of a recipe line is found.
pub proof fn lemma_found_line_end(indent: Seq<char>, column: nat, tail: Seq<char>)
    ensures
        spec_next(StateView::Text(indent), column, seq!['\n'] + tail) == (NextView::Token {
            prefix: Seq::empty(),
            lexeme: seq!['\n'],
            class: TokenKind::Eol,
            state: StateView::Indent(indent),
        }),
        Pattern::Eof.spec_captures(seq!['\n'] + tail) is None,
{
    let s = seq!['\n'] + tail;
    lemma_blanks(s);
    assert(s[0] == '\n');
    assert(blanks(s) == 0);
    assert(s.skip(0) =~= s);
    assert(line_len(s) == 0);
    assert(s.take(0) =~= Seq::<char>::empty());
    assert(s.subrange(0, 1) =~= seq!['\n']);
}

/// Four spaces.
pub open spec fn four() -> Seq<char> {
    seq![' ', ' ', ' ', ' ']
}

/// What follows four spaces has as many blanks less at its start.
proof fn lemma_four(s: Seq<char>)
    requires
        has_content(s),
    ensures
        blanks(four() + s) == 4 + blanks(s),
        has_content(four() + s),
{
    lemma_blanks(s);
    let n = blanks(s) as int;
    let prefix = four() + s.take(n);
    assert forall|i: int| 0 <= i < prefix.len() implies is_blank(#[trigger] prefix[i]) by {
        if i >= 4 {
            assert(prefix[i] == s[i - 4]);
        }
    }
    assert(four() + s =~= prefix + s.skip(n));
    assert(s.skip(n)[0] == s[n]);
    lemma_blanks_before(prefix, s.skip(n));
    assert((four() + s)[4 + n] == s[n]);
}

/// The start of a recipe line is found. The first line of a recipe has nothing but four spaces
/// before it.
pub proof fn lemma_found_line(state: StateView, s: Seq<char>)
    requires
        has_content(s),
        match state {
            StateView::Start => blanks(s) == 0,
            StateView::Indent(indent) => indent == four(),
            _ => false,
        },
    ensures
        spec_layout(state, 0, four() + s) == (if state is Start {
            LayoutView::Enter(four())
        } else {
            LayoutView::Same
        }),
        spec_next(StateView::Indent(four()), 0, four() + s) == (NextView::Token {
            prefix: four(),
            lexeme: Seq::empty(),
            class: TokenKind::Line,
            state: StateView::Text(four()),
        }),
        Pattern::Eof.spec_captures(four() + s) is None,
{
    let rest = four() + s;
    lemma_four(s);
    lemma_blanks(rest);
    let n = blanks(rest) as int;
    let current = rest.take(n);
    assert(spec_indentation(rest) == Some(current));
    assert(four().is_prefix_of(current)) by {
        assert(four() =~= current.take(4));
    }
    if state is Start {
        assert(current =~= four());
        assert(!is_mixed(four()));
    }
    let whole = Pattern::Line.spec_captures(rest)->0.whole;
    lemma_line_len(rest.skip(n));
    assert(four().is_prefix_of(whole)) by {
        assert(four() =~= whole.take(4));
    }
    assert(rest.skip(n).len() > 0);
}

/// An item starts in the first column: after a recipe with lines, that ends the recipe.
pub proof fn lemma_found_item(state: StateView, rest: Seq<char>)
    requires
        rest.len() > 0,
        is_name_char(rest[0]),
        state is Start || state is Indent,
    ensures
        spec_layout(state, 0, rest) == (if state is Start {
            LayoutView::Same
        } else {
            LayoutView::Leave
        }),
{
    lemma_blanks(rest);
    assert(blanks(rest) == 0);
    assert(rest.take(0) =~= Seq::<char>::empty());
    assert(spec_indentation(rest) == Some(Seq::<char>::empty()));
}

/// How far what is written has been cut into tokens, and the tokens.
pub struct Spot {
    pub at: Cursor,
    pub done: Seq<TokenView>,
}

/// The tokens that are not comments, without their places.
pub open spec fn kept(tokens: Seq<TokenView>) -> Seq<Bare> {
    tokens.filter(not_comment()).map_values(|t: TokenView| t.bare())
}

/// One more token is kept if it is not a comment.
pub proof fn lemma_kept(tokens: Seq<TokenView>, token: TokenView)
    ensures
        kept(tokens.push(token)) == kept(tokens) + (if token.class == TokenKind::Comment {
            Seq::empty()
        } else {
            one(token.class, token.lexeme)
        }),
{
    reveal(Seq::filter);
    assert(tokens.push(token).drop_last() =~= tokens);
    assert(kept(tokens.push(token)) =~= kept(tokens) + (if token.class == TokenKind::Comment {
        Seq::empty()
    } else {
        one(token.class, token.lexeme)
    }));
}

/// Whether cutting goes on from `from` at `to`, with the tokens `bares` between them and `tail`
/// after them.
pub open spec fn leads(
    text: Seq<char>,
    from: Spot,
    to: Spot,
    bares: Seq<Bare>,
    tail: Seq<char>,
) -> bool {
    &&& to.at.wf(text)
    &&& to.at.rest(text) == tail
    &&& lex_from(text, from.at, from.done) == lex_from(text, to.at, to.done)
    &&& kept(to.done) == kept(from.done) + bares
}

/// What leads to where something else leads on from, leads there too.
pub proof fn lemma_leads(
    text: Seq<char>,
    a: Spot,
    b: Spot,
    c: Spot,
    first: Seq<Bare>,
    second: Seq<Bare>,
    middle: Seq<char>,
    tail: Seq<char>,
)
    requires
        leads(text, a, b, first, middle),
        leads(text, b, c, second, tail),
    ensures
        leads(text, a, c, first + second, tail),
{
    assert(kept(a.done) + first + second =~= kept(a.done) + (first + second));
}

/// The token without characters that marks the start or the end of a recipe.
pub open spec fn mark_bares(mark: Option<TokenKind>) -> Seq<Bare> {
    match mark {
        Some(class) => one(class, Seq::empty()),
        None => Seq::empty(),
    }
}

/// The mark that a layout gives.
pub open spec fn mark_of(layout: LayoutView) -> Option<TokenKind> {
    match layout {
        LayoutView::Enter(_) => Some(TokenKind::Indent),
        LayoutView::Leave => Some(TokenKind::Dedent),
        _ => None,
    }
}

/// One token leads on.
pub proof fn lemma_step(
    text: Seq<char>,
    from: Spot,
    prefix: Seq<char>,
    lexeme: Seq<char>,
    class: TokenKind,
    state: StateView,
    tail: Seq<char>,
) -> (to: Spot)
    requires
        from.at.wf(text),
        from.at.rest(text) == prefix + lexeme + tail,
        Pattern::Eof.spec_captures(prefix + lexeme + tail) is None,
        ({
            let layout = spec_layout(from.at.state, from.at.column, prefix + lexeme + tail);
            &&& layout !is Bad
            &&& spec_next(
                entered(from.at.state, layout),
                from.at.column,
                prefix + lexeme + tail,
            ) == (NextView::Token { prefix, lexeme, class, state })
        }),
        class != TokenKind::Eof,
    ensures
        leads(
            text,
            from,
            to,
            mark_bares(
                mark_of(spec_layout(from.at.state, from.at.column, prefix + lexeme + tail)),
            ) + (if class == TokenKind::Comment {
                Seq::empty()
            } else {
                one(class, lexeme)
            }),
            tail,
        ),
        to.at.state == state,
        class == TokenKind::Eol ==> to.at.column == 0,
        class != TokenKind::Eol ==> to.at.column > 0,
{
    let rest = prefix + lexeme + tail;
    let layout = spec_layout(from.at.state, from.at.column, rest);
    lemma_layout(from.at.state, from.at.column, rest);
    lemma_next(entered(from.at.state, layout), from.at.column, rest);
    let token = from.at.token(text, prefix, lexeme, class);
    let ms = marks(text, from.at);
    let tokens = (from.done + ms).push(token);
    let at = from.at.after(prefix + lexeme, class, state);
    lemma_chars_in_bytes(prefix + lexeme);
    assert(at.rest(text) =~= tail) by {
        assert(text.skip(from.at.pos as int) == rest);
        assert(forall|i: int|
            0 <= i < tail.len() ==> rest[(prefix + lexeme).len() + i] == #[trigger] tail[i]);
    }
    lemma_kept(from.done + ms, token);
    match mark_of(layout) {
        Some(c) => {
            let none = Seq::<char>::empty();
            assert(from.done + ms =~= from.done.push(from.at.token(text, none, none, c)));
            lemma_kept(from.done, from.at.token(text, none, none, c));
        },
        None => {
            assert(from.done + ms =~= from.done);
        },
    }
    let own = if class == TokenKind::Comment {
        Seq::empty()
    } else {
        one(class, lexeme)
    };
    assert(kept(tokens) =~= kept(from.done) + (mark_bares(mark_of(layout)) + own));
    Spot { at, done: tokens }
}

/// At the end of what is written there is the end of the recipe that it ends in, if it ends in one,
/// and the end.
pub proof fn lemma_end(text: Seq<char>, from: Spot) -> (tokens: Seq<TokenView>)
    requires
        from.at.wf(text),
        from.at.rest(text).len() == 0,
        from.at.state is Start || from.at.state is Text,
    ensures
        lex_from(text, from.at, from.done) == LexedView::Tokens(tokens),
        kept(tokens) == kept(from.done) + mark_bares(
            if from.at.state is Start {
                None
            } else {
                Some(TokenKind::Dedent)
            },
        ) + one(TokenKind::Eof, Seq::empty()),
{
    let none = Seq::<char>::empty();
    let rest = from.at.rest(text);
    assert(rest =~= none);
    lemma_blanks(rest);
    assert(rest.skip(0) =~= none);
    assert(rest.take(0) =~= none);
    assert(rest.subrange(0, 0) =~= none);
    assert(spec_layout(from.at.state, from.at.column, rest) is Same);
    let token = from.at.token(text, none, none, TokenKind::Eof);
    let ms = marks(text, from.at);
    let tokens = (from.done + ms).push(token);
    lemma_kept(from.done + ms, token);
    if from.at.state is Start {
        assert(from.done + ms =~= from.done);
        assert(kept(from.done) + mark_bares(None) =~= kept(from.done));
    } else {
        let dedent = from.at.token(text, none, none, TokenKind::Dedent);
        assert(from.done + ms =~= from.done.push(dedent));
        lemma_kept(from.done, dedent);
    }
    tokens
}

} // verus!
