//! Where tokens and errors stand in a text, and in which order tokens come.

use vstd::prelude::*;

use crate::error::ErrorView;
use crate::lexer::{entered, lemma_blanks, lemma_layout, lemma_next, lex_from, lex_spec, marks};
use crate::lexer::{spec_layout, spec_next, Cursor, LexedView, NextView, StateView};
use crate::pattern::blanks;
use crate::text::{byte_len, lemma_encode_concat, line_after};
use crate::token::{all_tokens, TokenKind, TokenView};
use crate::token_laws::{all_shaped, behind, blank_indent, count, joined};
use crate::token_laws::{law_tokens_are_of_their_class, law_tokens_hold_the_text};
use crate::token_laws::{law_tokens_stand_where_they_say, lemma_eof, lemma_joined_at, lemma_marks};
use crate::token_laws::{lemma_push, lemma_shape, lemma_start, lemma_state, shaped};

verus! {

/// How many line feeds there are in `s`.
pub open spec fn line_feeds_in(s: Seq<char>) -> nat
    decreases s.len(),
{
    if s.len() == 0 {
        0
    } else {
        line_feeds_in(s.skip(1)) + (if s[0] == '\n' {
            1nat
        } else {
            0nat
        })
    }
}

/// The line feeds of two strings are those of the one and of the other.
pub proof fn lemma_line_feeds_concat(a: Seq<char>, b: Seq<char>)
    ensures
        line_feeds_in(a + b) == line_feeds_in(a) + line_feeds_in(b),
    decreases a.len(),
{
    if a.len() == 0 {
        assert(a + b =~= b);
    } else {
        lemma_line_feeds_concat(a.skip(1), b);
        assert((a + b).skip(1) =~= a.skip(1) + b);
    }
}

/// There are no more line feeds than characters.
pub proof fn lemma_line_feeds_bound(s: Seq<char>)
    ensures
        line_feeds_in(s) <= s.len(),
    decreases s.len(),
{
    if s.len() > 0 {
        lemma_line_feeds_bound(s.skip(1));
    }
}

/// There is a line after `n` line feeds, unless the text ends there.
pub proof fn lemma_line_exists(text: Seq<char>, from: int, to: int, n: nat)
    requires
        0 <= from <= to < text.len(),
        n <= line_feeds_in(text.subrange(from, to)),
    ensures
        line_after(text, from, n) is Some,
    decreases to - from,
{
    let piece = text.subrange(from, to);
    if n > 0 {
        assert(piece.skip(1) =~= text.subrange(from + 1, to));
        if text[from] == '\n' {
            lemma_line_exists(text, from + 1, to, (n - 1) as nat);
        } else {
            lemma_line_exists(text, from + 1, to, n);
        }
    }
}

/// Whether a place is in `text`, and its line is there too, unless the place is the text's end.
pub open spec fn is_place(text: Seq<char>, index: nat, width: nat, line: nat) -> bool {
    &&& index + width <= byte_len(text)
    &&& line_after(text, 0, line) is Some || index == byte_len(text)
}

/// Whether an error points into `text`.
pub open spec fn points_into(text: Seq<char>, error: ErrorView) -> bool {
    &&& error.text == text
    &&& is_place(
        text,
        error.index,
        match error.width {
            Some(width) => width,
            None => 0,
        },
        error.line,
    )
}

/// That errors at a token point into `text`.
pub open spec fn pointing(text: Seq<char>) -> spec_fn(TokenView) -> bool {
    |token: TokenView|
        {
            &&& token.text == text
            &&& is_place(
                text,
                token.index + byte_len(token.prefix),
                byte_len(token.lexeme),
                token.line,
            )
        }
}

/// The end of a line holds a line feed.
proof fn lemma_eol_feeds(token: TokenView)
    requires
        shaped(token),
        token.class == TokenKind::Eol,
    ensures
        line_feeds_in(token.prefix + token.lexeme) >= 1,
{
    let lexeme = token.lexeme;
    lemma_line_feeds_concat(token.prefix, lexeme);
    reveal_with_fuel(line_feeds_in, 3);
    if lexeme.len() == 2 {
        assert(lexeme.skip(1)[0] == '\n');
    }
}

/// There are no more ends of lines than line feeds.
pub proof fn lemma_lines_counted(tokens: Seq<TokenView>)
    requires
        all_shaped(tokens),
    ensures
        count(tokens, TokenKind::Eol) <= line_feeds_in(joined(tokens)),
    decreases tokens.len(),
{
    if tokens.len() > 0 {
        let fewer = tokens.drop_last();
        let last = tokens.last();
        assert(all_shaped(fewer)) by {
            assert forall|i: int| 0 <= i < fewer.len() implies shaped(#[trigger] fewer[i]) by {
                assert(fewer[i] == tokens[i]);
            }
        }
        lemma_lines_counted(fewer);
        lemma_line_feeds_concat(joined(fewer), last.prefix + last.lexeme);
        assert(joined(tokens) =~= joined(fewer) + (last.prefix + last.lexeme));
        assert(shaped(tokens[tokens.len() - 1]));
        if last.class == TokenKind::Eol {
            lemma_eol_feeds(last);
        }
    }
}

/// A place after `before` is in a text that starts with it.
proof fn lemma_place(text: Seq<char>, before: Seq<char>, piece: Seq<char>, line: nat)
    requires
        (before + piece).is_prefix_of(text),
        line <= line_feeds_in(before),
    ensures
        is_place(text, byte_len(before), byte_len(piece), line),
{
    let both = before + piece;
    let rest = text.skip(both.len() as int);
    lemma_encode_concat(before, piece);
    lemma_encode_concat(both, rest);
    assert(text =~= both + rest);
    if before.len() < text.len() {
        assert(text.subrange(0, before.len() as int) =~= before);
        lemma_line_exists(text, 0, before.len() as int, line);
    } else {
        assert(before =~= text);
    }
}

/// Each token points into the text that it was cut from, and so does an error at it.
pub proof fn law_tokens_point_into_the_text(text: Seq<char>, tokens: Seq<TokenView>)
    requires
        lex_spec(text) == LexedView::Tokens(tokens),
    ensures
        all_tokens(tokens, pointing(text)),
{
    law_tokens_hold_the_text(text, tokens);
    law_tokens_stand_where_they_say(text, tokens);
    law_tokens_are_of_their_class(text, tokens);
    assert forall|i: int| 0 <= i < tokens.len() implies pointing(text)(#[trigger] tokens[i]) by {
        let token = tokens[i];
        let fewer = tokens.take(i);
        let before = joined(fewer);
        let rest = lemma_joined_at(tokens, i);
        assert forall|k: int| 0 <= k < fewer.len() implies shaped(#[trigger] fewer[k]) by {
            assert(fewer[k] == tokens[k]);
        }
        lemma_lines_counted(fewer);
        lemma_line_feeds_concat(before, token.prefix);
        lemma_encode_concat(before, token.prefix);
        assert((before + token.prefix + token.lexeme).is_prefix_of(text));
        lemma_place(text, before + token.prefix, token.lexeme, token.line);
    }
}

/// The place where the text cannot be cut into tokens is not its end.
proof fn lemma_bad_before_end(state: StateView, column: nat, rest: Seq<char>)
    ensures
        spec_layout(state, column, rest) is Bad ==> rest.len() > 0,
        spec_next(state, column, rest) is Bad ==> rest.len() > 0,
{
    lemma_blanks(rest);
    if rest.len() == 0 {
        assert(rest.skip(blanks(rest) as int).len() == 0);
    }
}

/// Where the text cannot be cut into tokens is a place in it.
proof fn lemma_lexer_error_points(text: Seq<char>, at: Cursor, done: Seq<TokenView>)
    requires
        behind(text, at, done),
        blank_indent(at.state),
        line_feeds_in(joined(done)) >= at.line,
    ensures
        lex_from(text, at, done) matches LexedView::Fail(error) ==> points_into(text, error),
    decreases text.len() - at.pos,
{
    let rest = at.rest(text);
    let layout = spec_layout(at.state, at.column, rest);
    let state = entered(at.state, layout);
    let before = text.take(at.pos as int);
    lemma_bad_before_end(at.state, at.column, rest);
    lemma_bad_before_end(state, at.column, rest);
    lemma_blanks(rest);
    assert(before + Seq::<char>::empty() =~= before);
    lemma_place(text, before, Seq::empty(), at.line);
    if layout !is Bad {
        lemma_layout(at.state, at.column, rest);
        lemma_next(state, at.column, rest);
        lemma_eof(state, at.column, rest);
        lemma_marks(text, at, done);
        lemma_state(state, at.column, rest);
        let marked = done + marks(text, at);
        if let NextView::Token { prefix, lexeme, class, state: to } = spec_next(
            state,
            at.column,
            rest,
        ) {
            let token = at.token(text, prefix, lexeme, class);
            let tokens = marked.push(token);
            let lexed = prefix + lexeme;
            lemma_push(text, marked, token);
            lemma_line_feeds_concat(joined(marked), lexed);
            assert(text.take(at.pos as int) + lexed =~= text.take((at.pos + lexed.len()) as int));
            if class != TokenKind::Eof {
                lemma_shape(text, at, state, rest);
                if class == TokenKind::Eol {
                    lemma_eol_feeds(token);
                }
                lemma_lexer_error_points(text, at.after(lexed, class, to), tokens);
            }
        }
    }
}

/// An error of the lexer points into the text.
pub proof fn law_lexer_errors_point_into_the_text(text: Seq<char>, error: ErrorView)
    requires
        lex_spec(text) == LexedView::Fail(error),
    ensures
        points_into(text, error),
{
    lemma_start(text);
    lemma_lexer_error_points(text, Cursor::start(), Seq::empty());
}

} // verus!
