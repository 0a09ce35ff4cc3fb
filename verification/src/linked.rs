//! How the tokens of recipe lines follow each other.

use vstd::prelude::*;

use crate::lexer::{entered, lemma_blanks, lemma_layout, lemma_line_len, lemma_next, lex_from};
use crate::lexer::{lex_spec, marks, next_in_text, spec_layout, spec_next, Cursor, LexedView};
use crate::lexer::{NextView, StateView};
use crate::parse::not_comment;
use crate::pattern::{begins_with, blanks, braces_at, has_content, is_blank, line_len, Pattern};
use crate::token::{TokenKind, TokenView};
use crate::token_laws::{all_blank, blank_indent, lemma_shape};
use crate::written::clean;
use crate::written_lexing::ends;
use crate::written_tokens::lemma_blanks_before;

verus! {

/// Whether no line of a text ends in a blank.
pub open spec fn is_tidy(text: Seq<char>) -> bool {
    forall|i: int|
        0 <= i < text.len() && is_blank(#[trigger] text[i]) ==> i + 1 < text.len() && text[i + 1]
            != '\n'
}

/// Whether `b` may follow `a`, where `before` stands before that: a recipe starts with a line, and
/// a line with a text or an interpolation; an interpolation or the end of the line follows a text.
pub open spec fn link(before: Option<TokenKind>, a: TokenView, b: TokenView, tidy: bool) -> bool {
    match a.class {
        TokenKind::Indent => b.class == TokenKind::Line,
        TokenKind::Line => {
            &&& b.class == TokenKind::InterpolationStart || b.class == TokenKind::Text
            &&& b.class == TokenKind::Text && before == Some(TokenKind::Indent) ==> b.lexeme.len()
                > 0 && !is_blank(b.lexeme[0])
        },
        TokenKind::Text => {
            let braces = b.class == TokenKind::InterpolationStart;
            &&& braces || b.class == TokenKind::Eol || b.class == TokenKind::Dedent
            &&& clean(a.lexeme, braces)
            &&& before == Some(TokenKind::Line) ==> has_content(a.lexeme) || (all_blank(a.lexeme)
                && braces)
            &&& tidy ==> braces || !all_blank(a.lexeme)
        },
        _ => true,
    }
}

/// The class of the token before the one at `i`.
pub open spec fn class_before(tokens: Seq<TokenView>, i: int) -> Option<TokenKind> {
    if i > 0 {
        Some(tokens[i - 1].class)
    } else {
        None
    }
}

/// Whether each token may follow the one before it.
pub open spec fn linked(tokens: Seq<TokenView>, tidy: bool) -> bool {
    forall|i: int|
        0 <= i < tokens.len() - 1 ==> link(
            class_before(tokens, i),
            #[trigger] tokens[i],
            tokens[i + 1],
            tidy,
        )
}

/// Tokens stay linked with one more that may follow the last.
proof fn lemma_linked_push(tokens: Seq<TokenView>, token: TokenView, tidy: bool)
    requires
        linked(tokens, tidy),
        tokens.len() > 0 ==> link(
            class_before(tokens, tokens.len() - 1),
            tokens.last(),
            token,
            tidy,
        ),
    ensures
        linked(tokens.push(token), tidy),
{
    let more = tokens.push(token);
    assert forall|i: int| 0 <= i < more.len() - 1 implies link(
        class_before(more, i),
        #[trigger] more[i],
        more[i + 1],
        tidy,
    ) by {
        assert(more[i] == tokens[i]);
        assert(class_before(more, i) == class_before(tokens, i));
        if i < tokens.len() - 1 {
            assert(link(class_before(tokens, i), tokens[i], tokens[i + 1], tidy));
        }
    }
}

/// Whether the last of `tokens` is such that what is left may follow it.
pub open spec fn is_ready(tokens: Seq<TokenView>, state: StateView, rest: Seq<char>, tidy: bool) -> bool {
    tokens.len() > 0 ==> {
        let before = class_before(tokens, tokens.len() - 1);
        let last = tokens.last();
        match last.class {
            TokenKind::Indent => false,
            TokenKind::Line => {
                &&& state is Text
                &&& has_content(rest)
                &&& before == Some(TokenKind::Indent) ==> blanks(rest) == 0
            },
            TokenKind::Text => {
                let braces = begins_with(rest, '{', '{');
                &&& state is Text
                &&& braces || ends(rest)
                &&& clean(last.lexeme, braces)
                &&& before == Some(TokenKind::Line) ==> has_content(last.lexeme) || (all_blank(
                    last.lexeme,
                ) && braces)
                &&& tidy ==> braces || !all_blank(last.lexeme)
            },
            _ => true,
        }
    }
}

/// Before the first braces there is no line feed and there are no others.
proof fn lemma_first_braces(s: Seq<char>, from: int)
    requires
        from >= 0,
    ensures
        match braces_at(s, from) {
            Some(at) => from <= at < s.len() - 1 && s[at] == '{' && s[at + 1] == '{' && forall|
                i: int,
            |
                from <= i < at ==> #[trigger] s[i] != '\n' && !(s[i] == '{' && s[i + 1] == '{'),
            None => forall|i: int|
                from <= i < s.len() - 1 && #[trigger] s[i] == '{' && s[i + 1] == '{' ==> exists|
                    k: int,
                |
                    from <= k < i && #[trigger] s[k] == '\n',
        },
    decreases s.len() - from,
{
    if from + 1 < s.len() && !(s[from] == '{' && s[from + 1] == '{') && s[from] != '\n' {
        lemma_first_braces(s, from + 1);
    }
}

/// What a text on a recipe line is, and what follows it.
proof fn lemma_text_cut(indent: Seq<char>, rest: Seq<char>)
    requires
        rest.len() > 0,
        rest[0] != '\n',
        !begins_with(rest, '{', '{'),
    ensures
        next_in_text(indent, rest) matches NextView::Token { prefix, lexeme, class, state }
            && class == TokenKind::Text && state == StateView::Text(indent) && prefix.len() == 0
            && {
            let tail = rest.skip(lexeme.len() as int);
            &&& lexeme.len() <= rest.len()
            &&& lexeme == rest.take(lexeme.len() as int)
            &&& begins_with(tail, '{', '{') || ends(tail)
            &&& clean(lexeme, begins_with(tail, '{', '{'))
        },
{
    lemma_first_braces(rest, 1);
    lemma_line_len(rest);
    match braces_at(rest, 1) {
        Some(at) => {
            let lexeme = rest.take(at);
            let tail = rest.skip(at);
            assert(tail[0] == '{' && tail[1] == '{');
            assert forall|i: int| 0 <= i < lexeme.len() implies #[trigger] lexeme[i] != '\n' by {
                assert(lexeme[i] == rest[i]);
            }
            assert forall|i: int| 0 <= i < lexeme.len() - 1 && #[trigger] lexeme[i]
                == '{' implies lexeme[i + 1] != '{' by {
                assert(lexeme[i] == rest[i]);
                assert(lexeme[i + 1] == rest[i + 1]);
            }
            assert(lexeme.last() == rest[at - 1]);
        },
        None => {
            assert(line_len(rest) > 0);
            let n = line_len(rest) as int;
            let lexeme = rest.take(n);
            let tail = rest.skip(n);
            if tail.len() > 0 {
                assert(tail[0] == rest[n]);
            }
            assert forall|i: int| 0 <= i < lexeme.len() - 1 && #[trigger] lexeme[i]
                == '{' implies lexeme[i + 1] != '{' by {
                assert(lexeme[i] == rest[i]);
                assert(lexeme[i + 1] == rest[i + 1]);
            }
        },
    }
}

/// After a line's start comes what is on the line; and after a text what ends it.
proof fn lemma_ready_next(
    tokens: Seq<TokenView>,
    column: nat,
    state: StateView,
    rest: Seq<char>,
    tidy: bool,
)
    requires
        is_ready(tokens, state, rest, tidy),
        tokens.len() > 0,
        tokens.last().class == TokenKind::Line || tokens.last().class == TokenKind::Text,
        column > 0,
    ensures
        tokens.last().class == TokenKind::Line ==> Pattern::Eof.spec_captures(rest) is None,
        Pattern::Eof.spec_captures(rest) is None ==> (spec_next(state, column, rest)
            matches NextView::Token { prefix, lexeme, class, state: to } && forall|token: TokenView|
            token.class == class && token.lexeme == lexeme ==> #[trigger] link(
                class_before(tokens, tokens.len() - 1),
                tokens.last(),
                token,
                tidy,
            )),
{
    lemma_blanks(rest);
    let indent = state->Text_0;
    let n = blanks(rest) as int;
    if tokens.last().class == TokenKind::Line {
        assert(rest.skip(n).len() > 0);
        assert(rest[0] != '\n');
        if !begins_with(rest, '{', '{') {
            lemma_text_cut(indent, rest);
            let lexeme = next_in_text(indent, rest)->lexeme;
            assert(lexeme[0] == rest[0]);
        }
    } else if rest.len() > 0 && rest[0] == '\n' {
        assert(blanks(rest) == 0);
        assert(rest.skip(0) =~= rest);
        assert(line_len(rest) == 0);
    } else if rest.len() == 0 {
        assert(rest.skip(n).len() == 0);
    }
}

/// What is on a line after its start has more than blanks at its own start.
proof fn lemma_line_ready(indent: Seq<char>, rest: Seq<char>)
    requires
        has_content(rest),
        all_blank(indent),
        indent.is_prefix_of(rest),
    ensures
        has_content(rest.skip(indent.len() as int)),
        blanks(rest) == indent.len() + blanks(rest.skip(indent.len() as int)),
{
    lemma_blanks(rest);
    let n = blanks(rest) as int;
    let k = indent.len() as int;
    let tail = rest.skip(k);
    assert(k <= n) by {
        if n < k {
            assert(is_blank(indent[n]));
            assert(indent[n] == rest[n]);
        }
    }
    let prefix = rest.subrange(k, n);
    assert(tail =~= prefix + rest.skip(n));
    assert(rest.skip(n)[0] == rest[n]);
    lemma_blanks_before(prefix, rest.skip(n));
    assert(tail[n - k] == rest[n]);
}

/// A text on a recipe line is such that what is left may follow it.
proof fn lemma_text_ready(
    text: Seq<char>,
    pos: int,
    lexeme: Seq<char>,
    starts: bool,
)
    requires
        0 <= pos <= text.len(),
        0 < lexeme.len() <= text.skip(pos).len(),
        lexeme == text.skip(pos).take(lexeme.len() as int),
        Pattern::Eof.spec_captures(text.skip(pos)) is None,
        starts ==> has_content(text.skip(pos)),
        ({
            let tail = text.skip(pos).skip(lexeme.len() as int);
            begins_with(tail, '{', '{') || ends(tail)
        }),
    ensures
        ({
            let braces = begins_with(text.skip(pos).skip(lexeme.len() as int), '{', '{');
            &&& starts ==> has_content(lexeme) || (all_blank(lexeme) && braces)
            &&& is_tidy(text) ==> braces || !all_blank(lexeme)
        }),
{
    let rest = text.skip(pos);
    let n = lexeme.len() as int;
    let tail = rest.skip(n);
    let b = blanks(rest) as int;
    let braces = begins_with(tail, '{', '{');
    lemma_blanks(rest);
    lemma_blanks(lexeme);
    assert(rest =~= lexeme + tail);
    assert(rest.skip(b).len() > 0);
    if b < n {
        let prefix = lexeme.take(b);
        assert(lexeme =~= prefix + lexeme.skip(b));
        assert forall|i: int| 0 <= i < prefix.len() implies is_blank(#[trigger] prefix[i]) by {
            assert(prefix[i] == rest[i]);
        }
        assert(lexeme.skip(b)[0] == rest[b]);
        lemma_blanks_before(prefix, lexeme.skip(b));
        assert(lexeme[b] == rest[b]);
        assert(!all_blank(lexeme));
    } else {
        assert forall|i: int| 0 <= i < n implies is_blank(#[trigger] lexeme[i]) by {
            assert(lexeme[i] == rest[i]);
        }
        if !braces {
            assert(tail.len() > 0);
            assert(rest[n] == tail[0]);
            assert(b == n);
            assert(is_blank(text[pos + n - 1])) by {
                assert(lexeme[n - 1] == rest[n - 1]);
            }
            assert(text[pos + n] == rest[n]);
        }
    }
}

/// The next token is such that what is left may follow it.
#[verifier::rlimit(30)]
proof fn lemma_token_ready(text: Seq<char>, at: Cursor, done: Seq<TokenView>)
    requires
        at.wf(text),
        blank_indent(at.state),
        is_ready(done, at.state, at.rest(text), is_tidy(text)),
        spec_layout(at.state, at.column, at.rest(text)) !is Bad,
    ensures
        ({
            let rest = at.rest(text);
            let layout = spec_layout(at.state, at.column, rest);
            spec_next(entered(at.state, layout), at.column, rest) matches NextView::Token {
                prefix,
                lexeme,
                class,
                state: to,
            } ==> class == TokenKind::Eof || is_ready(
                (done + marks(text, at)).push(at.token(text, prefix, lexeme, class)),
                to,
                at.after(prefix + lexeme, class, to).rest(text),
                is_tidy(text),
            )
        }),
{
    let rest = at.rest(text);
    let layout = spec_layout(at.state, at.column, rest);
    let state = entered(at.state, layout);
    lemma_layout(at.state, at.column, rest);
    lemma_next(state, at.column, rest);
    lemma_blanks(rest);
    if let NextView::Token { prefix, lexeme, class, state: to } = spec_next(
        state,
        at.column,
        rest,
    ) {
        let tokens = (done + marks(text, at)).push(at.token(text, prefix, lexeme, class));
        let then = at.after(prefix + lexeme, class, to);
        if class == TokenKind::Line {
            let indent = state->Indent_0;
            assert(then.rest(text) =~= rest.skip(indent.len() as int));
            assert(prefix + lexeme =~= indent);
            if layout !is Enter {
                assert(marks(text, at).len() == 0) by {
                    assert(rest.skip(blanks(rest) as int).len() > 0);
                }
                assert(done + marks(text, at) =~= done);
            }
            lemma_line_ready(indent, rest);
        } else if class == TokenKind::Text {
            assert(marks(text, at).len() == 0);
            assert(done + marks(text, at) =~= done);
            let indent = state->Text_0;
            lemma_line_len(rest);
            lemma_text_cut(indent, rest);
            assert(prefix + lexeme =~= lexeme);
            assert(then.rest(text) =~= rest.skip(lexeme.len() as int));
            let starts = class_before(tokens, tokens.len() - 1) == Some(TokenKind::Line);
            lemma_text_ready(text, at.pos as int, lexeme, starts);
        }
    }
}

/// The tokens that are found follow each other as they may.
#[verifier::rlimit(30)]
proof fn lemma_links(text: Seq<char>, at: Cursor, done: Seq<TokenView>)
    requires
        at.wf(text),
        blank_indent(at.state),
        linked(done, is_tidy(text)),
        is_ready(done, at.state, at.rest(text), is_tidy(text)),
    ensures
        lex_from(text, at, done) matches LexedView::Tokens(tokens) ==> linked(
            tokens,
            is_tidy(text),
        ),
    decreases text.len() - at.pos,
{
    let tidy = is_tidy(text);
    let rest = at.rest(text);
    let layout = spec_layout(at.state, at.column, rest);
    let state = entered(at.state, layout);
    lemma_blanks(rest);
    if layout !is Bad {
        lemma_layout(at.state, at.column, rest);
        lemma_next(state, at.column, rest);
        lemma_shape(text, at, state, rest);
        lemma_token_ready(text, at, done);
        let ms = marks(text, at);
        if let NextView::Token { prefix, lexeme, class, state: to } = spec_next(
            state,
            at.column,
            rest,
        ) {
            let token = at.token(text, prefix, lexeme, class);
            let tokens = (done + ms).push(token);
            lemma_step_links(text, at, done);
            if class != TokenKind::Eof {
                lemma_links(text, at.after(prefix + lexeme, class, to), tokens);
            }
        }
    }
}

/// The next token, and the marks before it, follow the tokens before them as they may.
#[verifier::rlimit(30)]
proof fn lemma_step_links(text: Seq<char>, at: Cursor, done: Seq<TokenView>)
    requires
        at.wf(text),
        linked(done, is_tidy(text)),
        is_ready(done, at.state, at.rest(text), is_tidy(text)),
        spec_layout(at.state, at.column, at.rest(text)) !is Bad,
    ensures
        ({
            let rest = at.rest(text);
            let layout = spec_layout(at.state, at.column, rest);
            spec_next(entered(at.state, layout), at.column, rest) matches NextView::Token {
                prefix,
                lexeme,
                class,
                state: to,
            } ==> linked(
                (done + marks(text, at)).push(at.token(text, prefix, lexeme, class)),
                is_tidy(text),
            )
        }),
{
    let tidy = is_tidy(text);
    let rest = at.rest(text);
    let layout = spec_layout(at.state, at.column, rest);
    let state = entered(at.state, layout);
    let ms = marks(text, at);
    lemma_blanks(rest);
    if let NextView::Token { prefix, lexeme, class, state: to } = spec_next(
        state,
        at.column,
        rest,
    ) {
        let token = at.token(text, prefix, lexeme, class);
        if done.len() > 0 && (done.last().class == TokenKind::Line || done.last().class
            == TokenKind::Text) {
            lemma_ready_next(done, at.column, at.state, rest, tidy);
        }
        if ms.len() == 0 {
            assert(done + ms =~= done);
            lemma_linked_push(done, token, tidy);
        } else {
            let ended = Pattern::Eof.spec_captures(rest) is Some;
            if layout is Enter || layout is Leave {
                assert(rest.skip(blanks(rest) as int).len() > 0);
                assert(!ended);
            }
            assert(ms.len() == 1);
            assert(done + ms =~= done.push(ms[0]));
            lemma_linked_push(done, ms[0], tidy);
            lemma_linked_push(done.push(ms[0]), token, tidy);
        }
    }
}

/// Whether another token than a comment always follows one of that class.
spec fn is_sticky(class: TokenKind) -> bool {
    class == TokenKind::Indent || class == TokenKind::Line || class == TokenKind::Text
}

/// Tokens follow each other as they may when comments are left out.
proof fn lemma_linked_filter(tokens: Seq<TokenView>, tidy: bool)
    requires
        linked(tokens, tidy),
    ensures
        ({
            let ts = tokens.filter(not_comment());
            &&& linked(ts, tidy)
            &&& ts.len() > 0 && is_sticky(ts.last().class) ==> tokens.len() > 0 && tokens.last()
                == ts.last()
            &&& ts.len() > 1 && tokens.last() == ts.last() && is_sticky(ts[ts.len() - 2].class)
                ==> tokens.len() > 1 && tokens[tokens.len() - 2] == ts[ts.len() - 2]
        }),
    decreases tokens.len(),
{
    reveal(Seq::filter);
    if tokens.len() > 0 {
        let fewer = tokens.drop_last();
        let token = tokens.last();
        assert forall|i: int| 0 <= i < fewer.len() - 1 implies link(
            class_before(fewer, i),
            #[trigger] fewer[i],
            fewer[i + 1],
            tidy,
        ) by {
            assert(fewer[i] == tokens[i]);
            assert(class_before(fewer, i) == class_before(tokens, i));
        }
        lemma_linked_filter(fewer, tidy);
        let ts = fewer.filter(not_comment());
        if fewer.len() > 0 {
            let i = fewer.len() - 1;
            assert(link(class_before(tokens, i), tokens[i], tokens[i + 1], tidy));
            assert(tokens[i] == fewer.last());
        }
        if token.class == TokenKind::Comment {
            assert(tokens.filter(not_comment()) == ts);
            if ts.len() > 0 {
                lemma_no_comment_last(fewer);
            }
        } else {
            assert(tokens.filter(not_comment()) == ts.push(token));
            if ts.len() > 0 && is_sticky(ts.last().class) {
                assert(fewer.last() == ts.last());
            }
            lemma_linked_push(ts, token, tidy);
        }
    }
}

/// Where comments are left out, the last token is none.
proof fn lemma_no_comment_last(tokens: Seq<TokenView>)
    requires
        tokens.filter(not_comment()).len() > 0,
    ensures
        tokens.filter(not_comment()).last().class != TokenKind::Comment,
    decreases tokens.len(),
{
    reveal(Seq::filter);
    if tokens.len() > 0 && tokens.last().class == TokenKind::Comment {
        lemma_no_comment_last(tokens.drop_last());
    }
}

/// The tokens of a text follow each other as they may, also when comments are left out.
pub proof fn lemma_text_linked(text: Seq<char>, tokens: Seq<TokenView>)
    requires
        lex_spec(text) == LexedView::Tokens(tokens),
    ensures
        linked(tokens.filter(not_comment()), is_tidy(text)),
{
    lemma_links(text, Cursor::start(), Seq::empty());
    lemma_linked_filter(tokens, is_tidy(text));
}

} // verus!
