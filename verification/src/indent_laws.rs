//! What the lines of recipes are indented by.

use vstd::prelude::*;

use crate::lexer::{entered, lemma_layout, lemma_next, lex_from, lex_spec, marks, spec_layout};
use crate::lexer::{spec_next, Cursor, LayoutView, LexedView, NextView, StateView};
use crate::token::{TokenKind, TokenView};
use crate::token_laws::lemma_eof;

verus! {

/// Whether `s` is made of one character or more, all of which are spaces or all of which are tabs.
pub open spec fn is_uniform(s: Seq<char>) -> bool {
    &&& s.len() > 0
    &&& (forall|i: int| 0 <= i < s.len() ==> #[trigger] s[i] == ' ') || (forall|i: int|
        0 <= i < s.len() ==> #[trigger] s[i] == '\t')
}

/// Whether no recipe ends between the tokens at `i` and at `j`.
pub open spec fn no_dedent(tokens: Seq<TokenView>, i: int, j: int) -> bool {
    forall|k: int| i < k < j ==> (#[trigger] tokens[k]).class != TokenKind::Dedent
}

/// Whether all lines are indented by spaces or by tabs, and those of one recipe by the same.
pub open spec fn is_indented(tokens: Seq<TokenView>) -> bool {
    &&& forall|i: int|
        0 <= i < tokens.len() && (#[trigger] tokens[i]).class == TokenKind::Line ==> is_uniform(
            tokens[i].prefix,
        )
    &&& forall|i: int, j: int|
        0 <= i < j < tokens.len() && (#[trigger] tokens[i]).class == TokenKind::Line && (
        #[trigger] tokens[j]).class == TokenKind::Line && no_dedent(tokens, i, j)
            ==> tokens[i].prefix == tokens[j].prefix
}

/// What the lines of the recipe that the lexer is in are indented by.
spec fn indent_of(state: StateView) -> Option<Seq<char>> {
    match state {
        StateView::Start => None,
        StateView::Indent(indent) => Some(indent),
        StateView::Text(indent) => Some(indent),
        StateView::Interpolation(indent) => Some(indent),
    }
}

/// Whether the lines of the recipe that the lexer is in are indented by what it keeps.
spec fn is_kept(tokens: Seq<TokenView>, state: StateView) -> bool {
    &&& indent_of(state) matches Some(indent) ==> is_uniform(indent)
    &&& forall|i: int|
        0 <= i < tokens.len() && (#[trigger] tokens[i]).class == TokenKind::Line && no_dedent(
            tokens,
            i,
            tokens.len() as int,
        ) ==> indent_of(state) == Some(tokens[i].prefix)
}

/// The next token is in the same recipe, and a line is indented by what the lexer keeps.
proof fn lemma_same_indent(state: StateView, column: nat, rest: Seq<char>)
    ensures
        spec_next(state, column, rest) matches NextView::Token { prefix, lexeme, class, state: to }
            ==> {
            &&& class != TokenKind::Dedent
            &&& indent_of(to) == indent_of(state)
            &&& class == TokenKind::Line ==> indent_of(state) == Some(prefix)
        },
{
}

/// One more token that does not end a recipe.
proof fn lemma_other_token(tokens: Seq<TokenView>, state: StateView, token: TokenView)
    requires
        is_indented(tokens),
        is_kept(tokens, state),
        token.class != TokenKind::Dedent,
        token.class == TokenKind::Line ==> indent_of(state) == Some(token.prefix),
    ensures
        is_indented(tokens.push(token)),
        is_kept(tokens.push(token), state),
{
    let more = tokens.push(token);
    assert forall|i: int, j: int|
        0 <= i < j < more.len() && (#[trigger] more[i]).class == TokenKind::Line && (
        #[trigger] more[j]).class == TokenKind::Line && no_dedent(more, i, j) implies more[i].prefix
        == more[j].prefix by {
        assert(more[i] == tokens[i]);
        assert(no_dedent(tokens, i, j)) by {
            assert forall|k: int| i < k < j implies (#[trigger] tokens[k]).class
                != TokenKind::Dedent by {
                assert(more[k] == tokens[k]);
            }
        }
        if j < tokens.len() {
            assert(more[j] == tokens[j]);
        }
    }
    assert forall|i: int|
        0 <= i < more.len() && (#[trigger] more[i]).class == TokenKind::Line && no_dedent(
            more,
            i,
            more.len() as int,
        ) implies indent_of(state) == Some(more[i].prefix) by {
        if i < tokens.len() {
            assert(more[i] == tokens[i]);
            assert forall|k: int| i < k < tokens.len() implies (#[trigger] tokens[k]).class
                != TokenKind::Dedent by {
                assert(more[k] == tokens[k]);
            }
            assert(no_dedent(tokens, i, tokens.len() as int));
        }
    }
}

/// One more token that ends a recipe.
proof fn lemma_dedent(tokens: Seq<TokenView>, token: TokenView)
    requires
        is_indented(tokens),
        token.class == TokenKind::Dedent,
    ensures
        is_indented(tokens.push(token)),
        is_kept(tokens.push(token), StateView::Start),
{
    let more = tokens.push(token);
    assert forall|i: int, j: int|
        0 <= i < j < more.len() && (#[trigger] more[i]).class == TokenKind::Line && (
        #[trigger] more[j]).class == TokenKind::Line && no_dedent(more, i, j) implies more[i].prefix
        == more[j].prefix by {
        assert(more[i] == tokens[i] && more[j] == tokens[j]);
        assert forall|k: int| i < k < j implies (#[trigger] tokens[k]).class
            != TokenKind::Dedent by {
            assert(more[k] == tokens[k]);
        }
        assert(no_dedent(tokens, i, j));
    }
    assert forall|i: int|
        0 <= i < more.len() && (#[trigger] more[i]).class == TokenKind::Line implies !no_dedent(
        more,
        i,
        more.len() as int,
    ) by {
        assert(more[tokens.len() as int].class == TokenKind::Dedent);
    }
}

/// The lines that are found are indented by spaces or by tabs, and those of one recipe by the same.
proof fn lemma_indents(text: Seq<char>, at: Cursor, done: Seq<TokenView>)
    requires
        at.wf(text),
        is_indented(done),
        is_kept(done, at.state),
    ensures
        lex_from(text, at, done) matches LexedView::Tokens(tokens) ==> is_indented(tokens),
    decreases text.len() - at.pos,
{
    let none = Seq::<char>::empty();
    let rest = at.rest(text);
    let layout = spec_layout(at.state, at.column, rest);
    let state = entered(at.state, layout);
    let indent = at.token(text, none, none, TokenKind::Indent);
    let dedent = at.token(text, none, none, TokenKind::Dedent);
    if layout !is Bad {
        lemma_layout(at.state, at.column, rest);
        lemma_next(state, at.column, rest);
        lemma_same_indent(state, at.column, rest);
        let first = match layout {
            LayoutView::Enter(_) => done.push(indent),
            LayoutView::Leave => done.push(dedent),
            _ => done,
        };
        if layout is Enter {
            lemma_other_token(done, at.state, indent);
        } else if layout is Leave {
            lemma_dedent(done, dedent);
        }
        assert(is_kept(first, state));
        lemma_dedent(first, dedent);
        let marked = done + marks(text, at);
        assert(marked =~= first || marked =~= first.push(dedent));
        if let NextView::Token { prefix, lexeme, class, state: to } = spec_next(
            state,
            at.column,
            rest,
        ) {
            let token = at.token(text, prefix, lexeme, class);
            if class == TokenKind::Eof {
                lemma_other_token(first, state, token);
                lemma_other_token(first.push(dedent), StateView::Start, token);
            } else {
                lemma_eof(state, at.column, rest);
                assert(marked =~= first);
                lemma_other_token(first, state, token);
                assert(is_kept(first.push(token), to));
                lemma_indents(text, at.after(prefix + lexeme, class, to), first.push(token));
            }
        }
    }
}

/// A line of a recipe is indented by spaces or by tabs, and not by both; and all lines up to the end
/// of the recipe are indented by the same.
pub proof fn law_lines_are_indented_alike(text: Seq<char>, tokens: Seq<TokenView>, i: int, j: int)
    requires
        lex_spec(text) == LexedView::Tokens(tokens),
        0 <= i <= j < tokens.len(),
        tokens[i].class == TokenKind::Line,
        tokens[j].class == TokenKind::Line,
        no_dedent(tokens, i, j),
    ensures
        is_uniform(tokens[i].prefix),
        tokens[i].prefix == tokens[j].prefix,
{
    lemma_indents(text, Cursor::start(), Seq::empty());
}

} // verus!
