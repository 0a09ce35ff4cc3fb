//! In which order tokens come: where recipes begin, what stands in them, and where they end.

use vstd::prelude::*;

use crate::lexer::{entered, lemma_blanks, lemma_layout, lemma_next, lex_from, lex_spec, marks};
use crate::lexer::{spec_layout, spec_next, Cursor, LayoutView, LexedView, NextView, StateView};
use crate::parse::not_comment;
use crate::pattern::{blanks, Pattern};
use crate::token::{TokenKind, TokenView};
use crate::token_laws::lemma_eof;

verus! {

/// Where a token stands.
pub enum Phase {
    /// Outside of the lines of recipes.
    Outside,
    /// Where a line of a recipe can begin.
    Body,
    /// On a line of a recipe.
    Line,
}

/// Where the token after one of class `class` stands, if that class can stand there.
pub open spec fn phase_after(phase: Phase, class: TokenKind) -> Option<Phase> {
    match phase {
        Phase::Outside => match class {
            TokenKind::Indent => Some(Phase::Body),
            TokenKind::Dedent | TokenKind::Line | TokenKind::Text => None,
            _ => Some(Phase::Outside),
        },
        Phase::Body => match class {
            TokenKind::Line => Some(Phase::Line),
            TokenKind::Eol => Some(Phase::Body),
            TokenKind::Dedent => Some(Phase::Outside),
            _ => None,
        },
        Phase::Line => match class {
            TokenKind::Eol => Some(Phase::Body),
            TokenKind::Dedent => Some(Phase::Outside),
            TokenKind::Indent | TokenKind::Line | TokenKind::Eof => None,
            _ => Some(Phase::Line),
        },
    }
}

/// Where what follows `tokens` stands, if each of them can stand where it does.
pub open spec fn phase_of(tokens: Seq<TokenView>) -> Option<Phase>
    decreases tokens.len(),
{
    if tokens.len() == 0 {
        Some(Phase::Outside)
    } else {
        match phase_of(tokens.drop_last()) {
            Some(phase) => phase_after(phase, tokens.last().class),
            None => None,
        }
    }
}

/// Where what stands next is, in a state of the lexer.
spec fn phase_in(state: StateView) -> Phase {
    match state {
        StateView::Start => Phase::Outside,
        StateView::Indent(_) => Phase::Body,
        _ => Phase::Line,
    }
}

/// One more token.
pub proof fn lemma_phase_push(tokens: Seq<TokenView>, token: TokenView)
    ensures
        phase_of(tokens.push(token)) == match phase_of(tokens) {
            Some(phase) => phase_after(phase, token.class),
            None => None,
        },
{
    assert(tokens.push(token).drop_last() =~= tokens);
}

/// Where lines of a recipe begin, only a line, a blank line or the recipe's end can follow.
proof fn lemma_next_in_body(state: StateView, rest: Seq<char>)
    requires
        state is Indent,
        spec_layout(state, 0, rest) is Same,
    ensures
        spec_next(state, 0, rest) matches NextView::Token { class, state: to, .. } ==> class
            == TokenKind::Line && to is Text || class == TokenKind::Eol && to is Indent || class
            == TokenKind::Eof,
{
    lemma_blanks(rest);
    let n = blanks(rest) as int;
    let tail = rest.skip(n);
    if Pattern::Line.spec_captures(rest) is None && n < rest.len() {
        assert(rest[n] == '\n' || rest[n] == '\r');
        assert(tail[0] == rest[n]);
        crate::lexer::lemma_run_len(
            tail,
            |c: char| crate::pattern::is_name_char(c),
        );
    }
}

/// Tokens come in an order that the phases allow.
proof fn lemma_phases(text: Seq<char>, at: Cursor, done: Seq<TokenView>)
    requires
        at.wf(text),
        at.state is Indent ==> at.column == 0,
        phase_of(done) == Some(phase_in(at.state)),
    ensures
        lex_from(text, at, done) matches LexedView::Tokens(tokens) ==> phase_of(tokens) is Some,
    decreases text.len() - at.pos,
{
    let none = Seq::<char>::empty();
    let rest = at.rest(text);
    let layout = spec_layout(at.state, at.column, rest);
    let state = entered(at.state, layout);
    let ended = Pattern::Eof.spec_captures(rest) is Some;
    lemma_blanks(rest);
    if layout !is Bad {
        lemma_layout(at.state, at.column, rest);
        lemma_next(state, at.column, rest);
        lemma_eof(state, at.column, rest);
        let indent = at.token(text, none, none, TokenKind::Indent);
        let dedent = at.token(text, none, none, TokenKind::Dedent);
        let first = match layout {
            LayoutView::Enter(_) => done.push(indent),
            LayoutView::Leave => done.push(dedent),
            _ => done,
        };
        lemma_phase_push(done, indent);
        lemma_phase_push(done, dedent);
        assert(phase_of(first) == Some(phase_in(state)));
        lemma_phase_push(first, dedent);
        let marked = done + marks(text, at);
        if state !is Start && ended {
            assert(marked =~= first.push(dedent));
        } else {
            assert(marked =~= first);
        }
        if let NextView::Token { prefix, lexeme, class, state: to } = spec_next(
            state,
            at.column,
            rest,
        ) {
            let token = at.token(text, prefix, lexeme, class);
            let tokens = marked.push(token);
            lemma_phase_push(marked, token);
            if class == TokenKind::Eof {
                assert(phase_of(marked) == Some(Phase::Outside));
            } else {
                if state is Indent {
                    assert(spec_layout(state, 0, rest) is Same);
                    lemma_next_in_body(state, rest);
                }
                assert(phase_of(tokens) == Some(phase_in(to)));
                lemma_phases(text, at.after(prefix + lexeme, class, to), tokens);
            }
        }
    }
}

/// Each token of a text can stand where it does: lines stand in recipes only, what stands in a
/// recipe is a line, a blank line or its end, and text stands on such lines only.
pub proof fn law_tokens_come_in_order(text: Seq<char>, tokens: Seq<TokenView>)
    requires
        lex_spec(text) == LexedView::Tokens(tokens),
    ensures
        phase_of(tokens) is Some,
{
    lemma_phases(text, Cursor::start(), Seq::empty());
}

/// Without comments, the other tokens can still stand where they do.
pub proof fn lemma_phase_filter(tokens: Seq<TokenView>)
    requires
        phase_of(tokens) is Some,
    ensures
        phase_of(tokens.filter(not_comment())) == phase_of(tokens),
    decreases tokens.len(),
{
    reveal(Seq::filter);
    if tokens.len() > 0 {
        let fewer = tokens.drop_last();
        lemma_phase_filter(fewer);
        if tokens.last().class != TokenKind::Comment {
            lemma_phase_push(fewer.filter(not_comment()), tokens.last());
        }
    }
}

/// What holds of all tokens holds of the first of them: each can stand where it does.
pub proof fn lemma_phase_take(tokens: Seq<TokenView>, k: int)
    requires
        phase_of(tokens) is Some,
        0 <= k <= tokens.len(),
    ensures
        phase_of(tokens.take(k)) is Some,
        k < tokens.len() ==> phase_of(tokens.take(k + 1)) == phase_after(
            phase_of(tokens.take(k))->0,
            tokens[k].class,
        ) && phase_of(tokens.take(k + 1)) is Some,
    decreases tokens.len() - k,
{
    if k < tokens.len() {
        lemma_phase_take(tokens, k + 1);
        assert(tokens.take(k + 1).drop_last() =~= tokens.take(k));
    } else {
        assert(tokens.take(k) =~= tokens);
    }
}

} // verus!
