//! What stands next in a text, in terms of its characters.

use vstd::prelude::*;

use crate::error::{ErrorKindView, ErrorView};
use crate::indent_laws::is_uniform;
use crate::lexer::{entered, lemma_blanks, lemma_layout, lemma_line_len, lemma_next, lemma_run_len};
use crate::lexer::{lex_from, marks, next_outside, spec_indentation, spec_layout, spec_next, Cursor};
use crate::lexer::{LayoutView, LexedView, NextView, StateView};
use crate::pattern::{begins, begins_with, blanks, has_content, is_blank, is_good_name};
use crate::pattern::{is_lower_or_digit, is_name_char, line_len, name_len, Pattern};
use crate::text::{byte_len, is_mixed, lemma_chars_in_bytes, lemma_encode_concat};
use crate::token::{TokenKind, TokenView};
use crate::token_laws::all_blank;
use crate::written::clean;
use crate::written_lexing::ends;
use crate::written_tokens::{lemma_blanks_before, lemma_found_braces, lemma_found_line_end};
use crate::written_tokens::{lemma_found_text, lemma_run};

verus! {

/// Whether a character ends a line, or is one that does with another after it.
pub open spec fn is_break(c: char) -> bool {
    c == '\n' || c == '\r'
}

/// What the blanks at the start of a line mean. They mean nothing on a blank line, nor within a line.
/// Outside of recipes, a line without any is outside too, and one with spaces only, or with tabs only,
/// starts a recipe's lines; a mix is refused. Inside of a recipe, a line without any ends it, one that
/// begins with what the first was indented by goes on with it, and any other is refused.
pub proof fn law_indentation(indent: Seq<char>, tail: Seq<char>, previous: Seq<char>, column: nat)
    requires
        all_blank(indent),
        tail.len() > 0 ==> !is_blank(tail[0]),
    ensures
        ({
            let rest = indent + tail;
            let outside = spec_layout(StateView::Start, 0, rest);
            let inside = spec_layout(StateView::Indent(previous), 0, rest);
            if tail.len() == 0 || is_break(tail[0]) {
                outside is Same && inside is Same
            } else {
                &&& indent.len() == 0 ==> outside is Same && inside is Leave
                &&& is_uniform(indent) ==> outside == LayoutView::Enter(indent)
                &&& indent.len() > 0 && !is_uniform(indent) ==> outside == LayoutView::Bad(
                    ErrorKindView::MixedLeadingWhitespace { whitespace: indent },
                )
                &&& indent.len() > 0 && previous.len() <= indent.len() && previous == indent.take(
                    previous.len() as int,
                ) ==> inside is Same
                &&& indent.len() > 0 && !(previous.len() <= indent.len() && previous == indent.take(
                    previous.len() as int,
                )) ==> inside == LayoutView::Bad(
                    ErrorKindView::InconsistentLeadingWhitespace {
                        expected: previous,
                        found: indent,
                    },
                )
            }
        }),
        forall|state: StateView|
            column > 0 ==> (#[trigger] spec_layout(state, column, indent + tail)) is Same,
{
    let rest = indent + tail;
    lemma_blanks_before(indent, tail);
    if tail.len() > 0 {
        assert(rest[indent.len() as int] == tail[0]);
    }
    if tail.len() > 0 && !is_break(tail[0]) {
        assert(spec_indentation(rest) == Some(indent));
        if indent.len() > 0 && !is_mixed(indent) {
            if exists|i: int| 0 <= i < indent.len() && indent[i] != ' ' {
                assert forall|i: int| 0 <= i < indent.len() implies #[trigger] indent[i] == '\t' by {
                    if indent[i] != '\t' {
                        assert(is_mixed(indent));
                    }
                }
            }
        }
        if is_mixed(indent) && is_uniform(indent) {
            let i = choose|i: int| 0 <= i < indent.len() && indent[i] != ' ';
            let j = choose|j: int| 0 <= j < indent.len() && indent[j] != '\t';
            assert(indent[i] != ' ' && indent[j] != '\t');
        }
        assert(previous.is_prefix_of(indent) == (previous.len() <= indent.len() && previous
            == indent.take(previous.len() as int))) by {
            if previous.is_prefix_of(indent) {
                assert(previous =~= indent.take(previous.len() as int));
            }
        }
    }
}

/// Whether `s` begins with one lowercase letter or digit between quotes.
pub open spec fn begins_string(s: Seq<char>) -> bool {
    s.len() >= 3 && s[0] == '"' && is_lower_or_digit(s[1]) && s[2] == '"'
}

/// Whether `s` begins with the end of a line.
pub open spec fn begins_break(s: Seq<char>) -> bool {
    begins(s, '\n') || begins_with(s, '\r', '\n')
}

/// Whether a token stands at the start of `s`, outside of the text of recipe lines.
pub open spec fn begins_token(s: Seq<char>) -> bool {
    ||| s.len() == 0
    ||| begins_with(s, '{', '{')
    ||| begins_with(s, '}', '}')
    ||| is_name_char(s[0])
    ||| begins_break(s)
    ||| begins(s, ':')
    ||| begins(s, '+')
    ||| begins(s, '=')
    ||| begins(s, '#') && !begins_with(s, '#', '!')
    ||| begins_string(s)
}

/// What the first characters after blanks are, outside of the text of recipe lines and in its
/// interpolations: the token that they begin, up to where it ends, or something that is refused.
#[verifier::rlimit(60)]
pub proof fn law_tokens_outside_of_text(
    state: StateView,
    column: nat,
    prefix: Seq<char>,
    s: Seq<char>,
    n: int,
)
    requires
        state is Start || state is Interpolation,
        all_blank(prefix),
        s.len() > 0 ==> !is_blank(s[0]),
        0 <= n <= s.len(),
    ensures
        ({
            let next = spec_next(state, column, prefix + s);
            let token = |lexeme: Seq<char>, class: TokenKind|
                NextView::Token { prefix, lexeme, class, state };
            &&& s.len() == 0 ==> next == token(Seq::empty(), TokenKind::Eof)
            &&& begins_with(s, '{', '{') ==> next == token(
                seq!['{', '{'],
                TokenKind::InterpolationStart,
            )
            &&& begins_with(s, '}', '}') ==> next == (NextView::Token {
                prefix,
                lexeme: seq!['}', '}'],
                class: TokenKind::InterpolationEnd,
                state: match state {
                    StateView::Interpolation(indent) => StateView::Text(indent),
                    _ => state,
                },
            })
            &&& s.len() > 0 && is_name_char(s[0]) && (forall|i: int|
                0 <= i < n ==> is_name_char(#[trigger] s[i])) && (n < s.len() ==> !is_name_char(s[n]))
                ==> next == token(s.take(n), TokenKind::Name)
            &&& begins_break(s) && state is Interpolation ==> next is Unclosed
            &&& begins(s, '\n') && state is Start ==> next == token(seq!['\n'], TokenKind::Eol)
            &&& begins_with(s, '\r', '\n') && state is Start ==> next == token(
                seq!['\r', '\n'],
                TokenKind::Eol,
            )
            &&& begins(s, ':') ==> next == token(seq![':'], TokenKind::Colon)
            &&& begins(s, '+') ==> next == token(seq!['+'], TokenKind::Plus)
            &&& begins(s, '=') ==> next == token(seq!['='], TokenKind::Equals)
            &&& s == seq!['#'] ==> next == token(s, TokenKind::Comment)
            &&& begins(s, '#') && n >= 2 && s[1] != '!' && (forall|i: int|
                2 <= i < n ==> #[trigger] s[i] != '\n') && (n < s.len() ==> s[n] == '\n') ==> next
                == token(s.take(n), TokenKind::Comment)
            &&& begins_string(s) ==> next == token(s.take(3), TokenKind::StringToken)
            &&& !begins_token(s) ==> next == NextView::Bad(
                if prefix.len() == 0 && begins_with(s, '#', '!') {
                    ErrorKindView::OuterShebang
                } else {
                    ErrorKindView::UnknownStartOfToken
                },
            )
        }),
{
    let rest = prefix + s;
    let p = prefix.len() as int;
    lemma_blanks_before(prefix, s);
    assert(rest.skip(p) == s);
    assert(rest.take(p) == prefix);
    assert forall|k: int| 0 <= k <= s.len() implies #[trigger] rest.subrange(p, p + k) == s.take(
        k,
    ) by {
        assert(rest.subrange(p, p + k) =~= s.take(k));
    }
    lemma_run_len(s, |c: char| is_name_char(c));
    if s.len() == 0 {
        assert(rest.subrange(p, p + 0) =~= Seq::empty());
    } else {
        assert(Pattern::Eof.spec_captures(rest) is None);
        assert(spec_next(state, column, rest) == next_outside(state, rest));
        assert(s.take(1) =~= seq![s[0]]);
        if s.len() > 1 {
            assert(s.take(2) =~= seq![s[0], s[1]]);
        }
        if is_name_char(s[0]) {
            assert(name_len(s) > 0) by {
                assert(s.skip(1).len() >= 0);
            }
            if (forall|i: int| 0 <= i < n ==> is_name_char(#[trigger] s[i])) && (n < s.len()
                ==> !is_name_char(s[n])) {
                lemma_run(s.take(n), s.skip(n), |c: char| is_name_char(c));
                assert(s.take(n) + s.skip(n) =~= s);
                assert(name_len(s) == n);
                assert(rest.subrange(p, p + n) == s.take(n));
            }
        } else {
            assert(name_len(s) == 0);
        }
        if begins(s, '#') && n >= 2 && (forall|i: int| 2 <= i < n ==> #[trigger] s[i] != '\n') && (n
            < s.len() ==> s[n] == '\n') {
            let line = s.subrange(2, n);
            assert(s.skip(2) =~= line + s.skip(n));
            lemma_run(line, s.skip(n), |c: char| c != '\n');
            assert(line_len(s.skip(2)) == n - 2);
            assert(rest.subrange(p, p + n) == s.take(n));
        }
        if s == seq!['#'] {
            assert(rest.subrange(p, p + 1) == s.take(1));
            assert(s.take(1) =~= s);
        }
        assert(rest.subrange(p, p + 1) == s.take(1));
        if s.len() > 1 {
            assert(rest.subrange(p, p + 2) == s.take(2));
        }
        if s.len() > 2 {
            assert(rest.subrange(p, p + 3) == s.take(3));
        }
        assert(begins_with(rest, '#', '!') == (prefix.len() == 0 && begins_with(s, '#', '!'))) by {
            if prefix.len() > 0 {
                assert(rest[0] == prefix[0]);
                assert(is_blank(prefix[0]));
            } else {
                assert(rest =~= s);
            }
        }
    }
}

/// What the first characters are in the text of a recipe line: two braces start an interpolation, a
/// line feed ends the line, blanks up to the end of the text are left out, and anything else is text,
/// up to two braces, a line feed or the end.
pub proof fn law_tokens_in_text(
    indent: Seq<char>,
    column: nat,
    lexeme: Seq<char>,
    tail: Seq<char>,
)
    requires
        column > 0,
    ensures
        ({
            let text = StateView::Text(indent);
            let none = Seq::<char>::empty();
            &&& spec_next(text, column, seq!['{', '{'] + tail) == (NextView::Token {
                prefix: none,
                lexeme: seq!['{', '{'],
                class: TokenKind::InterpolationStart,
                state: StateView::Interpolation(indent),
            })
            &&& spec_next(text, column, seq!['\n'] + tail) == (NextView::Token {
                prefix: none,
                lexeme: seq!['\n'],
                class: TokenKind::Eol,
                state: StateView::Indent(indent),
            })
            &&& all_blank(lexeme) ==> spec_next(text, column, lexeme) == (NextView::Token {
                prefix: lexeme,
                lexeme: none,
                class: TokenKind::Eof,
                state: text,
            })
            &&& clean(lexeme, begins_with(tail, '{', '{')) && (begins_with(tail, '{', '{') || ends(
                tail,
            )) && (tail.len() == 0 ==> !all_blank(lexeme)) ==> spec_next(
                text,
                column,
                lexeme + tail,
            ) == (NextView::Token { prefix: none, lexeme, class: TokenKind::Text, state: text })
        }),
{
    lemma_found_braces(indent, column, tail);
    lemma_found_line_end(indent, column, tail);
    if all_blank(lexeme) {
        let none = Seq::<char>::empty();
        lemma_blanks_before(lexeme, none);
        assert(lexeme + none =~= lexeme);
        let n = lexeme.len() as int;
        assert(lexeme.skip(n) =~= none);
        assert(lexeme.take(n) =~= lexeme);
        assert(lexeme.subrange(n, n) =~= none);
    }
    if clean(lexeme, begins_with(tail, '{', '{')) && (begins_with(tail, '{', '{') || ends(tail)) && (
    tail.len() == 0 ==> !all_blank(lexeme)) {
        lemma_found_text(indent, column, lexeme, tail);
    }
}

/// Where the lines of a recipe begin: a line that is indented by what the first was, and has more on
/// it than blanks, starts after that indentation. A blank line is only its end.
#[verifier::rlimit(40)]
pub proof fn law_lines_of_recipes(indent: Seq<char>, blank: Seq<char>, tail: Seq<char>)
    requires
        indent.len() > 0,
        all_blank(indent),
        all_blank(blank),
        tail.len() > 0 ==> !is_blank(tail[0]),
    ensures
        ({
            let state = StateView::Indent(indent);
            let none = Seq::<char>::empty();
            &&& tail.len() > 0 && !is_break(tail[0]) ==> spec_next(
                state,
                0,
                indent + blank + tail,
            ) == (NextView::Token {
                prefix: indent,
                lexeme: none,
                class: TokenKind::Line,
                state: StateView::Text(indent),
            })
            &&& begins(tail, '\n') ==> spec_next(state, 0, blank + tail) == (NextView::Token {
                prefix: blank,
                lexeme: seq!['\n'],
                class: TokenKind::Eol,
                state,
            })
            &&& begins_with(tail, '\r', '\n') ==> spec_next(state, 0, blank + tail) == (
            NextView::Token { prefix: blank, lexeme: seq!['\r', '\n'], class: TokenKind::Eol, state })
            &&& tail.len() == 0 ==> spec_next(state, 0, blank + tail) == (NextView::Token {
                prefix: blank,
                lexeme: none,
                class: TokenKind::Eof,
                state,
            })
        }),
{
    let state = StateView::Indent(indent);
    let none = Seq::<char>::empty();
    if tail.len() > 0 && !is_break(tail[0]) {
        let all = indent + blank;
        let rest = all + tail;
        assert forall|i: int| 0 <= i < all.len() implies is_blank(#[trigger] all[i]) by {
            if i < indent.len() {
                assert(all[i] == indent[i]);
            } else {
                assert(all[i] == blank[i - indent.len()]);
            }
        }
        lemma_blanks_before(all, tail);
        assert(rest[all.len() as int] == tail[0]);
        assert(has_content(rest));
        let whole = Pattern::Line.spec_captures(rest)->0.whole;
        lemma_line_len(rest.skip(all.len() as int));
        assert(indent =~= whole.take(indent.len() as int));
    } else {
        let rest = blank + tail;
        let n = blank.len() as int;
        lemma_blanks_before(blank, tail);
        if tail.len() > 0 {
            assert(rest[n] == tail[0]);
        }
        assert(Pattern::Line.spec_captures(rest) is None);
        if tail.len() == 0 {
            assert(rest.subrange(n, n) =~= none);
        } else {
            assert(name_len(tail) == 0);
            if begins(tail, '\n') {
                assert(rest.subrange(n, n + 1) =~= seq!['\n']);
            } else if begins_with(tail, '\r', '\n') {
                assert(rest.subrange(n, n + 2) =~= seq!['\r', '\n']);
            }
        }
    }
}

/// Which characters blanks, names and strings are made of.
pub proof fn law_characters(c: char)
    ensures
        is_blank(c) <==> c == ' ' || c == '\t',
        is_lower_or_digit(c) <==> 'a' <= c <= 'z' || '0' <= c <= '9',
        is_name_char(c) <==> 'a' <= c <= 'z' || 'A' <= c <= 'Z' || '0' <= c <= '9' || c == '_' || c
            == '-',
{
}

/// Which names are good: a lowercase letter, and any good name with a lowercase letter or a digit
/// after it, or with a dash and one of those. There are no others.
pub proof fn law_good_names(s: Seq<char>, c: char)
    ensures
        !is_good_name(seq![]),
        is_good_name(seq![c]) <==> 'a' <= c <= 'z',
        is_good_name(s) && ('a' <= c <= 'z' || '0' <= c <= '9') ==> is_good_name(s.push(c))
            && is_good_name(s.push('-').push(c)),
        is_good_name(s) && s.len() > 1 ==> {
            let last = s.last();
            &&& 'a' <= last <= 'z' || '0' <= last <= '9'
            &&& is_good_name(s.drop_last()) || s[s.len() - 2] == '-' && is_good_name(
                s.take(s.len() - 2),
            )
        },
{
    let one = seq![c];
    assert(one[0] == c);
    if is_good_name(s) && ('a' <= c <= 'z' || '0' <= c <= '9') {
        let more = s.push(c);
        assert forall|i: int| 0 <= i < more.len() implies is_lower_or_digit(#[trigger] more[i])
            || more[i] == '-' by {
            if i < s.len() {
                assert(more[i] == s[i]);
            }
        }
        assert forall|i: int| 0 <= i < more.len() && #[trigger] more[i] == '-' implies i + 1
            < more.len() && is_lower_or_digit(more[i + 1]) by {
            if i < s.len() {
                assert(s[i] == '-');
                assert(more[i + 1] == s[i + 1]);
            }
        }
        let dashed = s.push('-').push(c);
        assert forall|i: int| 0 <= i < dashed.len() implies is_lower_or_digit(#[trigger] dashed[i])
            || dashed[i] == '-' by {
            if i < s.len() {
                assert(dashed[i] == s[i]);
            }
        }
        assert forall|i: int| 0 <= i < dashed.len() && #[trigger] dashed[i] == '-' implies i + 1
            < dashed.len() && is_lower_or_digit(dashed[i + 1]) by {
            if i < s.len() {
                assert(s[i] == '-');
                assert(dashed[i + 1] == s[i + 1]);
            }
        }
    }
    if is_good_name(s) && s.len() > 1 {
        let n = s.len() as int;
        assert(s[n - 1] == s.last());
        assert(s[n - 2] != '-' || is_lower_or_digit(s[n - 1]));
        let less = if s[n - 2] == '-' {
            s.take(n - 2)
        } else {
            s.drop_last()
        };
        if s[n - 2] == '-' && n > 2 {
            assert(s[n - 3] != '-' || is_lower_or_digit(s[n - 2]));
        }
        assert forall|i: int| 0 <= i < less.len() implies is_lower_or_digit(#[trigger] less[i])
            || less[i] == '-' by {
            assert(less[i] == s[i]);
        }
        assert forall|i: int| 0 <= i < less.len() && #[trigger] less[i] == '-' implies i + 1
            < less.len() && is_lower_or_digit(less[i + 1]) by {
            assert(s[i] == '-');
            assert(is_lower_or_digit(s[i + 1]));
        }
    }
}

/// The regular expressions that the patterns are.
pub proof fn law_patterns_are_regular_expressions(p: Pattern)
    ensures
        match p {
            Pattern::Eof => p.spec_source() == r"^(?m)([ \t]*)("@ + r"(?-m)$"@ + ")"@,
            Pattern::Name => p.spec_source() == r"^(?m)([ \t]*)("@ + r"([a-zA-Z0-9_-]+)"@ + ")"@,
            Pattern::Colon => p.spec_source() == r"^(?m)([ \t]*)("@ + r":"@ + ")"@,
            Pattern::Equals => p.spec_source() == r"^(?m)([ \t]*)("@ + r"="@ + ")"@,
            Pattern::Plus => p.spec_source() == r"^(?m)([ \t]*)("@ + r"[+]"@ + ")"@,
            Pattern::Comment => p.spec_source() == r"^(?m)([ \t]*)("@ + r"#([^!].*)?$"@ + ")"@,
            Pattern::StringToken => p.spec_source() == r"^(?m)([ \t]*)("@ + "\"[a-z0-9]\""@ + ")"@,
            Pattern::Eol => p.spec_source() == r"^(?m)([ \t]*)("@ + r"\n|\r\n"@ + ")"@,
            Pattern::InterpolationEnd => p.spec_source() == r"^(?m)([ \t]*)("@ + r"[}][}]"@ + ")"@,
            Pattern::InterpolationStartToken => p.spec_source() == r"^(?m)([ \t]*)("@
                + r"[{][{]"@ + ")"@,
            Pattern::Line => p.spec_source() == r"^(?m)[ \t]+[^ \t\n\r].*$"@,
            Pattern::Indent => p.spec_source() == r"^([ \t]*)[^ \t\n\r]"@,
            Pattern::InterpolationStart => p.spec_source() == r"^[{][{]"@,
            Pattern::LeadingText => p.spec_source() == r"^(?m)(.+?)[{][{]"@,
            Pattern::Text => p.spec_source() == r"^(?m)(.+)"@,
            Pattern::GoodName => p.spec_source() == r"^[a-z](-?[a-z0-9])*$"@,
        },
{
}

/// A text is cut from one place to the next. What cannot stand at a place is reported there. Where the
/// lines of a recipe begin, a mark without characters comes before the token, and another where they
/// end, be it that the next line is not indented or that the text ends. Then comes the token, with
/// all that stands before it, and the next place is behind it: on the same line, further on by the
/// bytes of the token, or at the start of the next line.
pub proof fn law_texts_are_cut(text: Seq<char>, at: Cursor, done: Seq<TokenView>)
    requires
        at.wf(text),
    ensures
        ({
            let rest = text.skip(at.pos as int);
            let index = byte_len(text.take(at.pos as int));
            let result = lex_from(text, at, done);
            let layout = spec_layout(at.state, at.column, rest);
            let state = match layout {
                LayoutView::Enter(indent) => StateView::Indent(indent),
                LayoutView::Leave => StateView::Start,
                _ => at.state,
            };
            let next = spec_next(state, at.column, rest);
            let fault = |kind: ErrorKindView|
                ErrorView { text, index, line: at.line, column: at.column, width: None, kind };
            let token = |prefix: Seq<char>, lexeme: Seq<char>, class: TokenKind|
                TokenView { text, index, line: at.line, column: at.column, prefix, lexeme, class };
            let mark = |class: TokenKind| token(Seq::empty(), Seq::empty(), class);
            let marked = if layout is Enter {
                done.push(mark(TokenKind::Indent))
            } else if layout is Leave || at.state !is Start && all_blank(rest) {
                done.push(mark(TokenKind::Dedent))
            } else {
                done
            };
            let all = marked.push(token(next->prefix, next->lexeme, next->class));
            let len = next->prefix.len() + next->lexeme.len();
            let behind = if next->class == TokenKind::Eol {
                Cursor {
                    pos: at.pos + len,
                    line: at.line + 1,
                    column: 0,
                    state: next->state,
                }
            } else {
                Cursor {
                    pos: at.pos + len,
                    line: at.line,
                    column: at.column + byte_len(next->prefix) + byte_len(next->lexeme),
                    state: next->state,
                }
            };
            &&& layout is Bad ==> result == LexedView::Fail(fault(layout->Bad_0))
            &&& !(layout is Bad) && next is Bad ==> result == LexedView::Fail(fault(next->Bad_0))
            &&& !(layout is Bad) && next is Unclosed ==> result is Unclosed
            &&& !(layout is Bad) && next is Token && next->class == TokenKind::Eof ==> result
                == LexedView::Tokens(all)
            &&& !(layout is Bad) && next is Token && next->class != TokenKind::Eof ==> result
                == lex_from(text, behind, all)
        }),
{
    let rest = at.rest(text);
    let layout = spec_layout(at.state, at.column, rest);
    let n = blanks(rest) as int;
    lemma_blanks(rest);
    assert((Pattern::Eof.spec_captures(rest) is Some) == all_blank(rest)) by {
        if rest.skip(n).len() == 0 {
            assert(n == rest.len());
        } else {
            assert(!is_blank(rest[n]));
        }
    }
    if all_blank(rest) {
        assert(n == rest.len()) by {
            if n < rest.len() {
                assert(!is_blank(rest[n]));
            }
        }
        assert(layout is Same);
    }
    if !(layout is Bad) {
        let next = spec_next(entered(at.state, layout), at.column, rest);
        lemma_layout(at.state, at.column, rest);
        lemma_next(entered(at.state, layout), at.column, rest);
        if let NextView::Token { prefix, lexeme, class, state } = next {
            lemma_encode_concat(prefix, lexeme);
            assert(done + seq![] =~= done);
            let none = Seq::<char>::empty();
            let indent = at.token(text, none, none, TokenKind::Indent);
            let dedent = at.token(text, none, none, TokenKind::Dedent);
            assert(done + seq![indent] =~= done.push(indent));
            assert(done + seq![dedent] =~= done.push(dedent));
            assert(seq![].push(dedent) =~= seq![dedent]);
            let marked = if layout is Enter {
                done.push(indent)
            } else if layout is Leave || at.state !is Start && all_blank(rest) {
                done.push(dedent)
            } else {
                done
            };
            assert(marked == done + marks(text, at));
            let behind = at.after(prefix + lexeme, class, state);
            assert(behind.pos == at.pos + (prefix.len() + lexeme.len()));
            assert(byte_len(prefix + lexeme) == byte_len(prefix) + byte_len(lexeme));
            assert(class != TokenKind::Eol ==> behind.column == at.column + byte_len(prefix)
                + byte_len(lexeme));
            let all = marked.push(at.token(text, prefix, lexeme, class));
            if class != TokenKind::Eof {
                let lexed = prefix + lexeme;
                assert(0 < lexed.len() <= rest.len());
                if byte_len(lexed) == 0 {
                    lemma_chars_in_bytes(lexed);
                }
                assert(behind.wf(text));
                assert(lex_from(text, at, done) == lex_from(text, behind, all));
            }
        }
    }
}

} // verus!
