//! What holds of the tokens of every text.

use vstd::prelude::*;
use vstd::utf8::*;

use crate::error::{ErrorKindView, ErrorView};
use crate::lexer::{entered, lemma_blanks, lemma_layout, lemma_line_len, lemma_next, lemma_run_len};
use crate::lexer::{lex_from, lex_spec, marks, spec_indentation, spec_layout, spec_next, Cursor};
use crate::lexer::{LayoutView, LexedView, NextView, StateView};
use crate::pattern::{begins, begins_with, blanks, braces_at, is_blank, is_lower_or_digit};
use crate::pattern::{is_name_char, line_len, Pattern};
use crate::text::byte_len;
use crate::token::{TokenKind, TokenView};

verus! {

/// The characters of `tokens`, one after the other, with the blanks before each.
pub open spec fn joined(tokens: Seq<TokenView>) -> Seq<char>
    decreases tokens.len(),
{
    if tokens.len() == 0 {
        Seq::empty()
    } else {
        joined(tokens.drop_last()) + tokens.last().prefix + tokens.last().lexeme
    }
}

/// How many tokens of class `class` are among `tokens`.
pub open spec fn count(tokens: Seq<TokenView>, class: TokenKind) -> nat
    decreases tokens.len(),
{
    if tokens.len() == 0 {
        0
    } else if tokens.last().class == class {
        count(tokens.drop_last(), class) + 1
    } else {
        count(tokens.drop_last(), class)
    }
}

/// How many bytes `tokens` hold after the last end of a line.
pub open spec fn column_after(tokens: Seq<TokenView>) -> nat
    decreases tokens.len(),
{
    if tokens.len() == 0 || tokens.last().class == TokenKind::Eol {
        0
    } else {
        column_after(tokens.drop_last()) + byte_len(
            tokens.last().prefix + tokens.last().lexeme,
        )
    }
}

/// Whether the place of each token is what the tokens before it leave behind.
pub open spec fn placed(text: Seq<char>, tokens: Seq<TokenView>) -> bool {
    forall|i: int|
        0 <= i < tokens.len() ==> {
            let token = #[trigger] tokens[i];
            &&& token.text == text
            &&& token.index == byte_len(joined(tokens.take(i)))
            &&& token.line == count(tokens.take(i), TokenKind::Eol)
            &&& token.column == column_after(tokens.take(i))
        }
}

/// Adding a token adds its characters, its class and its place.
pub proof fn lemma_push(text: Seq<char>, tokens: Seq<TokenView>, token: TokenView)
    ensures
        joined(tokens.push(token)) == joined(tokens) + (token.prefix + token.lexeme),
        forall|class: TokenKind| #[trigger]
            count(tokens.push(token), class) == count(tokens, class) + (if token.class == class {
                1nat
            } else {
                0nat
            }),
        column_after(tokens.push(token)) == if token.class == TokenKind::Eol {
            0
        } else {
            column_after(tokens) + byte_len(token.prefix + token.lexeme)
        },
        placed(text, tokens) && token.text == text && token.index == byte_len(joined(tokens))
            && token.line == count(tokens, TokenKind::Eol) && token.column == column_after(tokens)
            ==> placed(text, tokens.push(token)),
{
    let more = tokens.push(token);
    assert(more.drop_last() =~= tokens);
    assert(joined(more) =~= joined(tokens) + (token.prefix + token.lexeme));
    if placed(text, tokens) && token.text == text && token.index == byte_len(joined(tokens))
        && token.line == count(tokens, TokenKind::Eol) && token.column == column_after(tokens) {
        assert forall|i: int| 0 <= i < more.len() implies {
            let t = #[trigger] more[i];
            &&& t.text == text
            &&& t.index == byte_len(joined(more.take(i)))
            &&& t.line == count(more.take(i), TokenKind::Eol)
            &&& t.column == column_after(more.take(i))
        } by {
            assert(more.take(i) =~= tokens.take(i));
            if i < tokens.len() {
                assert(more[i] == tokens[i]);
            } else {
                assert(tokens.take(i) =~= tokens);
            }
        }
    }
}

/// A token stands between what the tokens before it hold and the rest.
pub proof fn lemma_joined_at(tokens: Seq<TokenView>, i: int) -> (rest: Seq<char>)
    requires
        0 <= i < tokens.len(),
    ensures
        joined(tokens) == joined(tokens.take(i)) + tokens[i].prefix + tokens[i].lexeme + rest,
    decreases tokens.len(),
{
    let fewer = tokens.drop_last();
    let last = tokens.last();
    if i == tokens.len() - 1 {
        assert(tokens.take(i) =~= fewer);
        assert(joined(tokens) =~= joined(tokens.take(i)) + tokens[i].prefix + tokens[i].lexeme
            + Seq::empty());
        Seq::empty()
    } else {
        let rest = lemma_joined_at(fewer, i);
        assert(fewer.take(i) =~= tokens.take(i));
        let more = rest + last.prefix + last.lexeme;
        assert(joined(tokens) =~= joined(tokens.take(i)) + tokens[i].prefix + tokens[i].lexeme
            + more);
        more
    }
}

/// What holds of the tokens `done` at the place `at` that they lead to.
pub open spec fn behind(text: Seq<char>, at: Cursor, done: Seq<TokenView>) -> bool {
    &&& at.wf(text)
    &&& joined(done) == text.take(at.pos as int)
    &&& placed(text, done)
    &&& at.line == count(done, TokenKind::Eol)
    &&& at.column == column_after(done)
    &&& count(done, TokenKind::Eof) == 0
    &&& count(done, TokenKind::Indent) == count(done, TokenKind::Dedent) + (if at.state is Start {
        0nat
    } else {
        1nat
    })
}

/// The marks before a token hold no characters, stand where the token does, and keep the count of
/// the recipes that have begun.
pub proof fn lemma_marks(text: Seq<char>, at: Cursor, done: Seq<TokenView>)
    requires
        behind(text, at, done),
        spec_layout(at.state, at.column, at.rest(text)) !is Bad,
    ensures
        ({
            let state = entered(at.state, spec_layout(at.state, at.column, at.rest(text)));
            let marked = done + marks(text, at);
            let ended = Pattern::Eof.spec_captures(at.rest(text)) is Some;
            &&& joined(marked) == joined(done)
            &&& placed(text, marked)
            &&& count(marked, TokenKind::Eol) == at.line
            &&& column_after(marked) == at.column
            &&& count(marked, TokenKind::Eof) == 0
            &&& count(marked, TokenKind::Indent) == count(marked, TokenKind::Dedent) + (if state
                is Start || ended {
                0nat
            } else {
                1nat
            })
        }),
{
    let none = Seq::<char>::empty();
    assert(byte_len(none + none) == 0) by {
        assert(none + none =~= none);
    }
    let layout = spec_layout(at.state, at.column, at.rest(text));
    let state = entered(at.state, layout);
    let ended = Pattern::Eof.spec_captures(at.rest(text)) is Some;
    let indent = at.token(text, none, none, TokenKind::Indent);
    let dedent = at.token(text, none, none, TokenKind::Dedent);
    lemma_push(text, done, indent);
    lemma_push(text, done, dedent);
    assert(joined(done) + (none + none) =~= joined(done));
    let first = match layout {
        LayoutView::Enter(_) => done.push(indent),
        LayoutView::Leave => done.push(dedent),
        _ => done,
    };
    lemma_push(text, first, dedent);
    lemma_blanks(at.rest(text));
    if state !is Start && ended {
        assert(done + marks(text, at) =~= first.push(dedent));
    } else {
        assert(done + marks(text, at) =~= first);
    }
}

/// Unless the text ends here, the next token is not its end.
pub proof fn lemma_eof(state: StateView, column: nat, rest: Seq<char>)
    ensures
        spec_next(state, column, rest) matches NextView::Token { class, .. } ==> (class
            == TokenKind::Eof) == (Pattern::Eof.spec_captures(rest) is Some),
{
    lemma_blanks(rest);
}

/// The tokens that are found hold the text, stand where they say, and end with its end.
#[verifier::rlimit(50)]
proof fn lemma_lex_from(text: Seq<char>, at: Cursor, done: Seq<TokenView>)
    requires
        behind(text, at, done),
    ensures
        lex_from(text, at, done) matches LexedView::Tokens(tokens) ==> {
            &&& joined(tokens) == text
            &&& placed(text, tokens)
            &&& tokens.len() > 0
            &&& tokens.last().class == TokenKind::Eof
            &&& count(tokens.drop_last(), TokenKind::Eof) == 0
            &&& count(tokens, TokenKind::Indent) == count(tokens, TokenKind::Dedent)
        },
    decreases text.len() - at.pos,
{
    let rest = at.rest(text);
    let layout = spec_layout(at.state, at.column, rest);
    let state = entered(at.state, layout);
    if layout !is Bad {
        lemma_layout(at.state, at.column, rest);
        lemma_next(state, at.column, rest);
        lemma_eof(state, at.column, rest);
        lemma_marks(text, at, done);
        let marked = done + marks(text, at);
        if let NextView::Token { prefix, lexeme, class, state: to } = spec_next(
            state,
            at.column,
            rest,
        ) {
            let token = at.token(text, prefix, lexeme, class);
            let tokens = marked.push(token);
            let lexed = prefix + lexeme;
            lemma_push(text, marked, token);
            assert(text.take(at.pos as int) + lexed =~= text.take((at.pos + lexed.len()) as int));
            if class == TokenKind::Eof {
                assert(text.take(at.pos as int) + lexed =~= text);
                assert(tokens.drop_last() =~= marked);
            } else {
                let next = at.after(lexed, class, to);
                lemma_state(state, at.column, rest);
                lemma_lex_from(text, next, tokens);
            }
        }
    }
}

/// A token leads out of a recipe or into one only by the layout of its line.
pub proof fn lemma_state(state: StateView, column: nat, rest: Seq<char>)
    ensures
        spec_next(state, column, rest) matches NextView::Token { state: to, .. } ==> (to is Start)
            == (state is Start),
{
}

/// The start of a text has nothing behind it.
pub proof fn lemma_start(text: Seq<char>)
    ensures
        behind(text, Cursor::start(), Seq::empty()),
{
    assert(text.take(0) =~= Seq::empty());
}

/// Cutting a text into tokens loses nothing: the tokens, with the blanks before each, are the text.
pub proof fn law_tokens_hold_the_text(text: Seq<char>, tokens: Seq<TokenView>)
    requires
        lex_spec(text) == LexedView::Tokens(tokens),
    ensures
        joined(tokens) == text,
{
    lemma_start(text);
    lemma_lex_from(text, Cursor::start(), Seq::empty());
}

/// Each token stands where it says: its index counts the bytes before it, its line the ends of
/// lines before it, and its column the bytes since the last of them.
pub proof fn law_tokens_stand_where_they_say(text: Seq<char>, tokens: Seq<TokenView>)
    requires
        lex_spec(text) == LexedView::Tokens(tokens),
    ensures
        placed(text, tokens),
{
    lemma_start(text);
    lemma_lex_from(text, Cursor::start(), Seq::empty());
}

/// The last token is the end of the text, and no other token is.
pub proof fn law_tokens_end_with_eof(text: Seq<char>, tokens: Seq<TokenView>)
    requires
        lex_spec(text) == LexedView::Tokens(tokens),
    ensures
        tokens.len() > 0,
        tokens.last().class == TokenKind::Eof,
        count(tokens.drop_last(), TokenKind::Eof) == 0,
{
    lemma_start(text);
    lemma_lex_from(text, Cursor::start(), Seq::empty());
}

/// What is indented is dedented: there are as many dedents as indents.
pub proof fn law_indents_are_dedented(text: Seq<char>, tokens: Seq<TokenView>)
    requires
        lex_spec(text) == LexedView::Tokens(tokens),
    ensures
        count(tokens, TokenKind::Indent) == count(tokens, TokenKind::Dedent),
{
    lemma_start(text);
    lemma_lex_from(text, Cursor::start(), Seq::empty());
}

/// Whether the characters of a token are those of its class, with only blanks before them.
pub open spec fn shaped(token: TokenView) -> bool {
    let lexeme = token.lexeme;
    &&& all_blank(token.prefix)
    &&& match token.class {
        TokenKind::Name => lexeme.len() > 0 && forall|i: int|
            0 <= i < lexeme.len() ==> is_name_char(#[trigger] lexeme[i]),
        TokenKind::Colon => lexeme == seq![':'],
        TokenKind::StringToken => lexeme.len() == 3 && lexeme[0] == '"' && is_lower_or_digit(
            lexeme[1],
        ) && lexeme[2] == '"',
        TokenKind::Plus => lexeme == seq!['+'],
        TokenKind::Equals => lexeme == seq!['='],
        TokenKind::Comment => begins(lexeme, '#') && !begins_with(lexeme, '#', '!'),
        TokenKind::Indent => lexeme.len() == 0 && token.prefix.len() == 0,
        TokenKind::Dedent => lexeme.len() == 0 && token.prefix.len() == 0,
        TokenKind::InterpolationStart => lexeme == seq!['{', '{'],
        TokenKind::InterpolationEnd => lexeme == seq!['}', '}'],
        TokenKind::Text => lexeme.len() > 0 && forall|i: int|
            0 <= i < lexeme.len() ==> #[trigger] lexeme[i] != '\n',
        TokenKind::Line => lexeme.len() == 0 && token.prefix.len() > 0,
        TokenKind::Eol => lexeme == seq!['\n'] || lexeme == seq!['\r', '\n'],
        TokenKind::Eof => lexeme.len() == 0,
    }
}

/// Whether all of `s` is blank.
pub open spec fn all_blank(s: Seq<char>) -> bool {
    forall|i: int| 0 <= i < s.len() ==> is_blank(#[trigger] s[i])
}

/// Whether what the lines of a recipe are indented by is blank.
pub open spec fn blank_indent(state: StateView) -> bool {
    match state {
        StateView::Start => true,
        StateView::Indent(indent) => all_blank(indent),
        StateView::Text(indent) => all_blank(indent),
        StateView::Interpolation(indent) => all_blank(indent),
    }
}

/// A token that leading text is found before holds no line break.
proof fn lemma_leading_text(s: Seq<char>, from: int)
    requires
        from >= 0,
    ensures
        braces_at(s, from) matches Some(at) ==> {
            &&& from <= at && at + 1 < s.len()
            &&& forall|i: int| from <= i < at ==> #[trigger] s[i] != '\n'
        },
    decreases s.len() - from,
{
    if from + 1 < s.len() {
        lemma_leading_text(s, from + 1);
    }
}

/// The token that a token pattern finds is of that pattern's class.
proof fn lemma_token_shape(p: Pattern, s: Seq<char>, token: TokenView)
    requires
        p.is_token(),
        p.spec_captures(s) matches Some(found) && token.prefix == found.first->0 && token.lexeme
            == found.second->0,
        token.class == class_of(p),
    ensures
        shaped(token),
{
    let n = blanks(s) as int;
    let tail = s.skip(n);
    let len = p.token_len(tail)->0 as int;
    lemma_blanks(s);
    lemma_run_len(tail, |c: char| is_name_char(c));
    if tail.len() >= 2 {
        lemma_line_len(tail.skip(2));
    }
    assert(0 <= len <= tail.len());
    assert(token.prefix == s.take(n));
    assert forall|i: int| 0 <= i < token.prefix.len() implies is_blank(
        #[trigger] token.prefix[i],
    ) by {
        assert(token.prefix[i] == s[i]);
    }
    assert(token.lexeme =~= tail.take(len));
    let lexeme = token.lexeme;
    assert forall|i: int| 0 <= i < lexeme.len() implies #[trigger] lexeme[i] == tail[i] by {}
    match p {
        Pattern::Colon => assert(lexeme =~= seq![':']),
        Pattern::Plus => assert(lexeme =~= seq!['+']),
        Pattern::Equals => assert(lexeme =~= seq!['=']),
        Pattern::InterpolationStartToken => assert(lexeme =~= seq!['{', '{']),
        Pattern::InterpolationEnd => assert(lexeme =~= seq!['}', '}']),
        Pattern::Eol => if tail[0] == '\n' {
            assert(lexeme =~= seq!['\n']);
        } else {
            assert(lexeme =~= seq!['\r', '\n']);
        },
        _ => {},
    }
}

/// The class of the tokens that a token pattern finds.
spec fn class_of(p: Pattern) -> TokenKind {
    match p {
        Pattern::Name => TokenKind::Name,
        Pattern::Colon => TokenKind::Colon,
        Pattern::Equals => TokenKind::Equals,
        Pattern::Plus => TokenKind::Plus,
        Pattern::Comment => TokenKind::Comment,
        Pattern::StringToken => TokenKind::StringToken,
        Pattern::Eol => TokenKind::Eol,
        Pattern::InterpolationEnd => TokenKind::InterpolationEnd,
        Pattern::InterpolationStartToken => TokenKind::InterpolationStart,
        _ => TokenKind::Eof,
    }
}

/// The next token is of its class.
pub proof fn lemma_shape(text: Seq<char>, at: Cursor, state: StateView, rest: Seq<char>)
    requires
        state.wf(),
        blank_indent(state),
    ensures
        spec_next(state, at.column, rest) matches NextView::Token {
            prefix,
            lexeme,
            class,
            state: to,
        } ==> shaped(at.token(text, prefix, lexeme, class)) && blank_indent(to),
{
    lemma_leading_text(rest, 1);
    lemma_line_len(rest);
    if let NextView::Token { prefix, lexeme, class, state: to } = spec_next(
        state,
        at.column,
        rest,
    ) {
        let token = at.token(text, prefix, lexeme, class);
        if class == TokenKind::Line {
            assert(shaped(token));
        } else if state is Text && class == TokenKind::InterpolationStart {
            assert(lexeme =~= seq!['{', '{']);
            assert(shaped(token));
        } else if state is Text && class == TokenKind::Text {
            assert forall|i: int| 0 <= i < lexeme.len() implies #[trigger] lexeme[i] != '\n' by {
                assert(lexeme[i] == rest[i]);
            }
            assert(shaped(token));
        } else {
            let p = match class {
                TokenKind::Name => Pattern::Name,
                TokenKind::Colon => Pattern::Colon,
                TokenKind::Equals => Pattern::Equals,
                TokenKind::Plus => Pattern::Plus,
                TokenKind::Comment => Pattern::Comment,
                TokenKind::StringToken => Pattern::StringToken,
                TokenKind::Eol => Pattern::Eol,
                TokenKind::InterpolationEnd => Pattern::InterpolationEnd,
                TokenKind::InterpolationStart => Pattern::InterpolationStartToken,
                _ => Pattern::Eof,
            };
            lemma_token_shape(p, rest, token);
        }
    }
}

/// Whether an error is one that a text can be cut short by.
pub open spec fn is_lexical(kind: ErrorKindView) -> bool {
    ||| kind is MixedLeadingWhitespace
    ||| kind is InconsistentLeadingWhitespace
    ||| kind is OuterShebang
    ||| kind is UnknownStartOfToken
}

/// Where a line has a layout, the lexer knows what to make of it.
proof fn lemma_no_internal_error(state: StateView, column: nat, rest: Seq<char>)
    requires
        state.wf(),
        column == 0 ==> state.begins_line(),
        spec_layout(state, column, rest) !is Bad,
    ensures
        spec_next(entered(state, spec_layout(state, column, rest)), column, rest) matches NextView::Bad(
            kind,
        ) ==> is_lexical(kind),
{
    let layout = spec_layout(state, column, rest);
    let n = blanks(rest) as int;
    lemma_blanks(rest);
    lemma_line_len(rest);
    if let StateView::Indent(indent) = entered(state, layout) {
        if column == 0 && Pattern::Line.spec_captures(rest) is Some {
            let whole = Pattern::Line.spec_captures(rest)->0.whole;
            let current = rest.take(n);
            lemma_line_len(rest.skip(n));
            assert(spec_indentation(rest) == Some(current));
            assert(indent.is_prefix_of(current));
            assert(indent =~= whole.subrange(0, indent.len() as int)) by {
                assert(indent == current.subrange(0, indent.len() as int));
            }
        }
    }
    if entered(state, layout) is Text && Pattern::Eof.spec_captures(rest) is None {
        if line_len(rest) == 0 {
            assert(rest[0] == '\n');
            assert(n == 0);
            assert(rest.skip(0) =~= rest);
        }
    }
}

/// The tokens that are found are of their class, and an error that is found is lexical.
proof fn lemma_shapes(text: Seq<char>, at: Cursor, done: Seq<TokenView>)
    requires
        at.wf(text),
        blank_indent(at.state),
        all_shaped(done),
    ensures
        lex_from(text, at, done) matches LexedView::Tokens(tokens) ==> all_shaped(tokens),
        lex_from(text, at, done) matches LexedView::Fail(error) ==> {
            &&& is_lexical(error.kind)
            &&& error.text == text
            &&& error.width is None
        },
    decreases text.len() - at.pos,
{
    let rest = at.rest(text);
    let layout = spec_layout(at.state, at.column, rest);
    let state = entered(at.state, layout);
    lemma_blanks(rest);
    if layout !is Bad {
        lemma_layout(at.state, at.column, rest);
        lemma_no_internal_error(at.state, at.column, rest);
        lemma_next(state, at.column, rest);
        lemma_shape(text, at, state, rest);
        let marked = done + marks(text, at);
        assert forall|i: int| 0 <= i < marked.len() implies shaped(#[trigger] marked[i]) by {
            if i < done.len() {
                assert(marked[i] == done[i]);
            } else {
                assert(marked[i] == marks(text, at)[i - done.len()]);
            }
        }
        if let NextView::Token { prefix, lexeme, class, state: to } = spec_next(
            state,
            at.column,
            rest,
        ) {
            let tokens = marked.push(at.token(text, prefix, lexeme, class));
            if class != TokenKind::Eof {
                lemma_shapes(text, at.after(prefix + lexeme, class, to), tokens);
            }
        }
    }
}

/// Whether the characters of each of `tokens` are those of its class.
pub open spec fn all_shaped(tokens: Seq<TokenView>) -> bool {
    forall|i: int| 0 <= i < tokens.len() ==> shaped(#[trigger] tokens[i])
}

/// Each token holds the characters of its class, and only blanks stand between tokens.
pub proof fn law_tokens_are_of_their_class(text: Seq<char>, tokens: Seq<TokenView>)
    requires
        lex_spec(text) == LexedView::Tokens(tokens),
    ensures
        all_shaped(tokens),
{
    let none = Seq::<TokenView>::empty();
    lemma_shapes(text, Cursor::start(), none);
    assert(lex_spec(text) == lex_from(text, Cursor::start(), none));
}

/// A text that cannot be cut into tokens is at fault itself: the lexer never reports an internal
/// error.
pub proof fn law_lexer_has_no_internal_errors(text: Seq<char>, error: ErrorView)
    requires
        lex_spec(text) == LexedView::Fail(error),
    ensures
        is_lexical(error.kind),
        error.text == text,
        error.width is None,
{
    let none = Seq::<TokenView>::empty();
    lemma_shapes(text, Cursor::start(), none);
    assert(lex_spec(text) == lex_from(text, Cursor::start(), none));
}

} // verus!
