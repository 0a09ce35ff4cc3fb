//! Cutting a justfile that is written out into tokens.

use vstd::prelude::*;
use vstd::string::*;

use crate::expression::ExpressionView;
use crate::justfile::{assignment_shown, JustfileView};
use crate::lexer::{lemma_blanks, lex_from, lex_spec, spec_layout, Cursor, LexedView, StateView};
use crate::pattern::{begins_with, blanks, has_content, is_good_name, is_name_char};
use crate::recipe::{line_shown, lines_shown, pieces_shown, FragmentView, RecipeView};
use crate::table::lookup;
use crate::text::{joined_by, spaced};
use crate::token::{TokenKind, TokenView};
use crate::token_laws::all_blank;
use crate::written::{after_item, all_good, begins_blank, body_ends_in_blanks, eol};
use crate::written::{expression_bares, item_bares, items_bares, line_ends_in_blanks, lines_bares};
use crate::written::{names_bares, one, piece_bares, pieces_bares, plain_expression, plain_line};
use crate::written::{plain_piece, plain_recipe, plain_value, Bare};
use crate::written_tokens::{four, kept, leads, lemma_blanks_before, lemma_end, lemma_found_braces};
use crate::written_tokens::{lemma_found_item, lemma_found_line, lemma_found_line_end};
use crate::written_tokens::{lemma_found_outside, lemma_found_text, lemma_leads, lemma_step};
use crate::written_tokens::{mark_bares, parts, Spot};

verus! {

/// Whether a name ends where `tail` follows.
pub open spec fn stops(tail: Seq<char>) -> bool {
    tail.len() == 0 || !is_name_char(tail[0])
}

/// Whether a line ends where `tail` follows.
pub open spec fn ends(tail: Seq<char>) -> bool {
    tail.len() == 0 || tail[0] == '\n'
}

/// Whether a spot is one within a line, outside of the text of recipe lines.
pub open spec fn is_inside(text: Seq<char>, spot: Spot) -> bool {
    &&& spot.at.wf(text)
    &&& spot.at.column > 0
    &&& spot.at.state is Start || spot.at.state is Interpolation
}

/// A token within a line leads on.
proof fn lemma_inside(
    text: Seq<char>,
    from: Spot,
    prefix: Seq<char>,
    lexeme: Seq<char>,
    class: TokenKind,
    tail: Seq<char>,
) -> (to: Spot)
    requires
        is_inside(text, from),
        class != TokenKind::Eol,
        class != TokenKind::InterpolationEnd,
        from.at.rest(text) == prefix + lexeme + tail,
        all_blank(prefix),
        parts(class, lexeme, tail),
    ensures
        leads(
            text,
            from,
            to,
            if class == TokenKind::Comment {
                Seq::empty()
            } else {
                one(class, lexeme)
            },
            tail,
        ),
        to.at.state == from.at.state,
        is_inside(text, to),
{
    let state = from.at.state;
    lemma_found_outside(state, from.at.column, prefix, lexeme, class, tail);
    assert(spec_layout(state, from.at.column, prefix + lexeme + tail) is Same);
    let to = lemma_step(text, from, prefix, lexeme, class, state, tail);
    let own = if class == TokenKind::Comment {
        Seq::empty()
    } else {
        one(class, lexeme)
    };
    assert(mark_bares(None) + own =~= own);
    to
}

/// A good name is made of the characters of names.
proof fn lemma_good_name(name: Seq<char>, tail: Seq<char>)
    requires
        is_good_name(name),
        stops(tail),
    ensures
        parts(TokenKind::Name, name, tail),
{
}

/// An expression leads on.
proof fn lemma_expression(
    text: Seq<char>,
    from: Spot,
    prefix: Seq<char>,
    e: ExpressionView,
    tail: Seq<char>,
) -> (to: Spot)
    requires
        is_inside(text, from),
        from.at.rest(text) == prefix + e.shown() + tail,
        all_blank(prefix),
        plain_expression(e),
        stops(tail),
    ensures
        leads(text, from, to, expression_bares(e), tail),
        to.at.state == from.at.state,
        is_inside(text, to),
    decreases e,
{
    match e {
        ExpressionView::Variable { name, token } => {
            lemma_good_name(name, tail);
            lemma_inside(text, from, prefix, name, TokenKind::Name, tail)
        },
        ExpressionView::String { contents } => {
            reveal_strlit("\"");
            let lexeme = seq!['"'] + contents + seq!['"'];
            assert("\""@ =~= seq!['"']);
            lemma_inside(text, from, prefix, lexeme, TokenKind::StringToken, tail)
        },
        ExpressionView::Concatination { lhs, rhs } => {
            reveal_strlit(" + ");
            let space = seq![' '];
            let plus = seq!['+'];
            let last = space + rhs.shown() + tail;
            let middle = space + plus + last;
            assert(prefix + e.shown() + tail =~= prefix + lhs.shown() + middle);
            assert(middle[0] == ' ');
            let a = lemma_expression(text, from, prefix, *lhs, middle);
            let b = lemma_inside(text, a, space, plus, TokenKind::Plus, last);
            let c = lemma_expression(text, b, space, *rhs, tail);
            let first = expression_bares(*lhs);
            let second = one(TokenKind::Plus, plus);
            let third = expression_bares(*rhs);
            lemma_leads(text, from, a, b, first, second, middle, last);
            lemma_leads(text, from, b, c, first + second, third, last, tail);
            c
        },
    }
}

/// Names lead on.
proof fn lemma_names(text: Seq<char>, from: Spot, names: Seq<Seq<char>>, tail: Seq<char>) -> (to:
    Spot)
    requires
        is_inside(text, from),
        from.at.rest(text) == spaced(names) + tail,
        all_good(names),
        stops(tail),
    ensures
        leads(text, from, to, names_bares(names), tail),
        to.at.state == from.at.state,
        is_inside(text, to),
    decreases names.len(),
{
    if names.len() == 0 {
        assert(spaced(names) + tail =~= tail);
        assert(kept(from.done) + names_bares(names) =~= kept(from.done));
        from
    } else {
        reveal_strlit(" ");
        let fewer = names.drop_last();
        let last = names.last();
        let space = seq![' '];
        let middle = space + last + tail;
        assert(" "@ =~= space);
        assert(spaced(names) + tail =~= spaced(fewer) + middle);
        assert(is_good_name(names[names.len() - 1]));
        assert forall|i: int| 0 <= i < fewer.len() implies is_good_name(#[trigger] fewer[i]) by {
            assert(fewer[i] == names[i]);
        }
        let a = lemma_names(text, from, fewer, middle);
        lemma_good_name(last, tail);
        let b = lemma_inside(text, a, space, last, TokenKind::Name, tail);
        let own = one(TokenKind::Name, last);
        lemma_leads(text, from, a, b, names_bares(fewer), own, middle, tail);
        assert(names_bares(fewer) + own =~= names_bares(names));
        b
    }
}

/// Whether a spot is one in the text of a recipe line.
pub open spec fn is_in_text(text: Seq<char>, spot: Spot) -> bool {
    &&& spot.at.wf(text)
    &&& spot.at.column > 0
    &&& spot.at.state == StateView::Text(four())
}

/// The pieces of a line from the one at `i` on, as they are written.
spec fn pieces_from(line: Seq<FragmentView>, i: nat) -> Seq<char>
    decreases line.len() - i,
{
    if i >= line.len() {
        Seq::empty()
    } else {
        line[i as int].shown() + pieces_from(line, i + 1)
    }
}

/// The first pieces of a line and those after them are all that is written of it.
proof fn lemma_pieces_from(line: Seq<FragmentView>, i: nat)
    requires
        i <= line.len(),
    ensures
        pieces_shown(line.take(i as int)) + pieces_from(line, i) == pieces_shown(line),
    decreases line.len() - i,
{
    if i < line.len() {
        lemma_pieces_from(line, i + 1);
        let more = line.take(i as int + 1);
        assert(more.drop_last() =~= line.take(i as int));
        assert(pieces_shown(line.take(i as int)) + pieces_from(line, i) =~= pieces_shown(more)
            + pieces_from(line, i + 1));
    } else {
        assert(line.take(i as int) =~= line);
        assert(pieces_shown(line) + pieces_from(line, i) =~= pieces_shown(line));
    }
}

/// An interpolation starts with two braces.
proof fn lemma_braces_shown(expression: ExpressionView, tail: Seq<char>)
    ensures
        begins_with((FragmentView::Expression { expression }).shown() + tail, '{', '{'),
        (FragmentView::Expression { expression }).shown() + tail == seq!['{', '{'] + (
        expression.shown() + (seq!['}', '}'] + tail)),
{
    reveal_strlit("{{");
    reveal_strlit("}}");
    let shown = (FragmentView::Expression { expression }).shown();
    assert(shown + tail =~= seq!['{', '{'] + (expression.shown() + (seq!['}', '}'] + tail)));
}

/// An interpolation leads on.
proof fn lemma_interpolation(
    text: Seq<char>,
    from: Spot,
    expression: ExpressionView,
    tail: Seq<char>,
) -> (to: Spot)
    requires
        is_in_text(text, from),
        from.at.rest(text) == (FragmentView::Expression { expression }).shown() + tail,
        plain_expression(expression),
    ensures
        leads(text, from, to, piece_bares(FragmentView::Expression { expression }), tail),
        is_in_text(text, to),
{
    let none = Seq::<char>::empty();
    let braces = seq!['{', '{'];
    let close = seq!['}', '}'];
    let last = close + tail;
    let middle = expression.shown() + last;
    let column = from.at.column;
    lemma_braces_shown(expression, tail);
    lemma_found_braces(four(), column, middle);
    assert(none + braces + middle =~= braces + middle);
    assert(spec_layout(from.at.state, column, braces + middle) is Same);
    let inner = StateView::Interpolation(four());
    let a = lemma_step(text, from, none, braces, TokenKind::InterpolationStart, inner, middle);
    let first = one(TokenKind::InterpolationStart, braces);
    assert(mark_bares(None) + first =~= first);
    assert(none + expression.shown() + last =~= middle);
    assert(last[0] == '}');
    let b = lemma_expression(text, a, none, expression, last);
    let second = expression_bares(expression);
    lemma_found_outside(inner, b.at.column, none, close, TokenKind::InterpolationEnd, tail);
    assert(none + close + tail =~= last);
    assert(spec_layout(inner, b.at.column, last) is Same);
    let outer = StateView::Text(four());
    let c = lemma_step(text, b, none, close, TokenKind::InterpolationEnd, outer, tail);
    let third = one(TokenKind::InterpolationEnd, close);
    assert(mark_bares(None) + third =~= third);
    lemma_leads(text, from, a, b, first, second, middle, last);
    lemma_leads(text, from, b, c, first + second, third, last, tail);
    c
}

/// The pieces of a line lead on, up to its end.
proof fn lemma_pieces(
    text: Seq<char>,
    from: Spot,
    line: Seq<FragmentView>,
    i: nat,
    tail: Seq<char>,
) -> (to: Spot)
    requires
        is_in_text(text, from),
        i <= line.len(),
        from.at.rest(text) == pieces_from(line, i) + tail,
        forall|k: int| 0 <= k < line.len() ==> #[trigger] plain_piece(line, k),
        ends(tail),
        tail.len() == 0 ==> !line_ends_in_blanks(line),
    ensures
        leads(text, from, to, pieces_bares(line, i), tail),
        is_in_text(text, to),
    decreases line.len() - i,
{
    if i >= line.len() {
        assert(pieces_from(line, i) + tail =~= tail);
        assert(kept(from.done) + pieces_bares(line, i) =~= kept(from.done));
        from
    } else {
        let rest = pieces_from(line, i + 1) + tail;
        assert(plain_piece(line, i as int));
        assert(pieces_from(line, i) + tail =~= line[i as int].shown() + rest);
        let a = match line[i as int] {
            FragmentView::Text { text: token } => {
                let none = Seq::<char>::empty();
                let lexeme = token.lexeme;
                if i + 1 < line.len() {
                    let expression = line[i as int + 1]->expression;
                    let after = pieces_from(line, i + 2) + tail;
                    assert(rest =~= line[i as int + 1].shown() + after);
                    lemma_braces_shown(expression, after);
                } else {
                    assert(rest =~= tail);
                }
                lemma_found_text(four(), from.at.column, lexeme, rest);
                assert(none + lexeme + rest =~= lexeme + rest);
                let state = StateView::Text(four());
                assert(spec_layout(state, from.at.column, lexeme + rest) is Same);
                let to = lemma_step(text, from, none, lexeme, TokenKind::Text, state, rest);
                let own = one(TokenKind::Text, lexeme);
                assert(mark_bares(None) + own =~= own);
                to
            },
            FragmentView::Expression { expression } => {
                lemma_interpolation(text, from, expression, rest)
            },
        };
        let b = lemma_pieces(text, a, line, i + 1, tail);
        let own = piece_bares(line[i as int]);
        lemma_leads(text, from, a, b, own, pieces_bares(line, i + 1), rest, tail);
        b
    }
}

/// What is written of a line starts with more than blanks.
proof fn lemma_content(line: Seq<FragmentView>, tail: Seq<char>)
    requires
        plain_line(line),
    ensures
        has_content(pieces_from(line, 0) + tail),
        !begins_blank(line) ==> blanks(pieces_from(line, 0) + tail) == 0,
{
    let rest = pieces_from(line, 1) + tail;
    let s = pieces_from(line, 0) + tail;
    assert(s =~= line[0].shown() + rest);
    assert(plain_piece(line, 0));
    lemma_blanks(s);
    match line[0] {
        FragmentView::Expression { expression } => {
            lemma_braces_shown(expression, rest);
            assert(blanks(s) == 0);
        },
        FragmentView::Text { text } => {
            let lexeme = text.lexeme;
            assert(s[0] == lexeme[0]);
            if has_content(lexeme) {
                lemma_blanks(lexeme);
                let n = blanks(lexeme) as int;
                let prefix = lexeme.take(n);
                let more = lexeme.skip(n) + rest;
                assert(s =~= prefix + more);
                assert(more[0] == lexeme[n]);
                lemma_blanks_before(prefix, more);
                assert(s[n] == lexeme[n]);
            } else {
                let expression = line[1]->expression;
                let after = pieces_from(line, 2) + tail;
                assert(rest =~= line[1].shown() + after);
                lemma_braces_shown(expression, after);
                lemma_blanks_before(lexeme, rest);
                assert(s[lexeme.len() as int] == rest[0]);
            }
        },
    }
}

/// The first column of a line that is within a recipe, or that a recipe may start in.
pub open spec fn is_at_line(text: Seq<char>, spot: Spot) -> bool {
    &&& spot.at.wf(text)
    &&& spot.at.column == 0
    &&& spot.at.state == StateView::Start || spot.at.state == StateView::Indent(four())
}

/// A line leads on.
proof fn lemma_line(text: Seq<char>, from: Spot, line: Seq<FragmentView>, tail: Seq<char>) -> (to:
    Spot)
    requires
        is_at_line(text, from),
        from.at.state is Start ==> !begins_blank(line),
        from.at.rest(text) == line_shown(line) + tail,
        plain_line(line),
        ends(tail),
        tail.len() == 0 ==> !line_ends_in_blanks(line),
    ensures
        leads(
            text,
            from,
            to,
            mark_bares(
                if from.at.state is Start {
                    Some(TokenKind::Indent)
                } else {
                    None
                },
            ) + one(TokenKind::Line, Seq::empty()) + pieces_bares(line, 0),
            tail,
        ),
        is_in_text(text, to),
{
    reveal_strlit("    ");
    let none = Seq::<char>::empty();
    let s = pieces_from(line, 0) + tail;
    lemma_pieces_from(line, 0);
    assert(pieces_shown(line) =~= pieces_from(line, 0)) by {
        assert(line.take(0) =~= Seq::<FragmentView>::empty());
        assert(pieces_shown(line.take(0)) =~= none);
    }
    assert("    "@ =~= four());
    assert(line_shown(line) + tail =~= four() + s);
    lemma_content(line, tail);
    lemma_found_line(from.at.state, s);
    assert(four() + none + s =~= four() + s);
    let state = StateView::Text(four());
    let a = lemma_step(text, from, four(), none, TokenKind::Line, state, s);
    let b = lemma_pieces(text, a, line, 0, tail);
    let first = mark_bares(
        if from.at.state is Start {
            Some(TokenKind::Indent)
        } else {
            None
        },
    ) + one(TokenKind::Line, none);
    lemma_leads(text, from, a, b, first, pieces_bares(line, 0), s, tail);
    b
}

/// The end of a line leads to the first column of the next.
proof fn lemma_line_end(text: Seq<char>, from: Spot, tail: Seq<char>) -> (to: Spot)
    requires
        is_in_text(text, from) || (is_inside(text, from) && from.at.state is Start),
        from.at.rest(text) == seq!['\n'] + tail,
    ensures
        leads(text, from, to, eol(), tail),
        is_at_line(text, to),
        to.at.state is Start == from.at.state is Start,
{
    let none = Seq::<char>::empty();
    let lexeme = seq!['\n'];
    assert(none + lexeme + tail =~= lexeme + tail);
    assert(spec_layout(from.at.state, from.at.column, lexeme + tail) is Same);
    assert(mark_bares(None) + eol() =~= eol());
    if from.at.state is Start {
        lemma_found_outside(
            StateView::Start,
            from.at.column,
            none,
            lexeme,
            TokenKind::Eol,
            tail,
        );
        lemma_step(text, from, none, lexeme, TokenKind::Eol, StateView::Start, tail)
    } else {
        lemma_found_line_end(four(), from.at.column, tail);
        lemma_step(text, from, none, lexeme, TokenKind::Eol, StateView::Indent(four()), tail)
    }
}

/// What is joined starts with the first part.
proof fn lemma_joined(parts: Seq<Seq<char>>, separator: Seq<char>)
    requires
        parts.len() > 1,
    ensures
        joined_by(parts, separator) == parts[0] + separator + joined_by(parts.skip(1), separator),
    decreases parts.len(),
{
    let fewer = parts.drop_last();
    let rest = parts.skip(1);
    if parts.len() == 2 {
        assert(joined_by(fewer, separator) == parts[0]);
        assert(joined_by(rest, separator) == parts[1]);
    } else {
        lemma_joined(fewer, separator);
        assert(fewer.skip(1) =~= rest.drop_last());
        assert(joined_by(parts, separator) =~= parts[0] + separator + joined_by(rest, separator));
    }
}

/// The tokens of lines from the one at `i` on, without the end of the last.
spec fn lines_core(lines: Seq<Seq<FragmentView>>, i: nat) -> Seq<Bare>
    decreases lines.len() - i,
{
    if i >= lines.len() {
        Seq::empty()
    } else {
        one(TokenKind::Line, Seq::empty()) + pieces_bares(lines[i as int], 0) + (if i + 1
            < lines.len() {
            eol() + lines_core(lines, i + 1)
        } else {
            Seq::empty()
        })
    }
}

/// The tokens of lines are those without the end of the last, and that end.
proof fn lemma_lines_core(lines: Seq<Seq<FragmentView>>, i: nat, last: bool)
    requires
        i < lines.len(),
    ensures
        lines_bares(lines, i, last) == lines_core(lines, i) + after_item(last),
    decreases lines.len() - i,
{
    if i + 1 < lines.len() {
        lemma_lines_core(lines, i + 1, last);
    } else {
        assert(lines_bares(lines, i + 1, last) =~= Seq::empty());
    }
    assert(lines_bares(lines, i, last) =~= lines_core(lines, i) + after_item(last));
}

/// The lines of a recipe lead on.
proof fn lemma_lines(
    text: Seq<char>,
    from: Spot,
    lines: Seq<Seq<FragmentView>>,
    i: nat,
    tail: Seq<char>,
) -> (to: Spot)
    requires
        is_at_line(text, from),
        i < lines.len(),
        from.at.state is Start == (i == 0),
        from.at.rest(text) == joined_by(lines_shown(lines).skip(i as int), "\n"@) + tail,
        forall|k: int| 0 <= k < lines.len() ==> plain_line(#[trigger] lines[k]),
        !begins_blank(lines[0]),
        ends(tail),
        tail.len() == 0 ==> !body_ends_in_blanks(lines),
    ensures
        leads(
            text,
            from,
            to,
            mark_bares(
                if i == 0 {
                    Some(TokenKind::Indent)
                } else {
                    None
                },
            ) + lines_core(lines, i),
            tail,
        ),
        is_in_text(text, to),
    decreases lines.len() - i,
{
    let line = lines[i as int];
    let mark = mark_bares(
        if i == 0 {
            Some(TokenKind::Indent)
        } else {
            None
        },
    );
    let first = mark + one(TokenKind::Line, Seq::empty()) + pieces_bares(line, 0);
    lemma_lines_text(lines, i, tail);
    lemma_lines_split(mark, lines, i);
    if i + 1 < lines.len() {
        let rest = joined_by(lines_shown(lines).skip(i as int + 1), "\n"@) + tail;
        let middle = seq!['\n'] + rest;
        let a = lemma_line(text, from, line, middle);
        let b = lemma_line_end(text, a, rest);
        let c = lemma_lines(text, b, lines, i + 1, tail);
        let third = mark_bares(None) + lines_core(lines, i + 1);
        lemma_leads(text, from, a, b, first, eol(), middle, rest);
        lemma_leads(text, from, b, c, first + eol(), third, rest, tail);
        c
    } else {
        lemma_line(text, from, line, tail)
    }
}

/// What is written of lines is the first of them, and then the others.
proof fn lemma_lines_text(lines: Seq<Seq<FragmentView>>, i: nat, tail: Seq<char>)
    requires
        i < lines.len(),
    ensures
        joined_by(lines_shown(lines).skip(i as int), "\n"@) + tail == line_shown(lines[i as int])
            + (if i + 1 < lines.len() {
            seq!['\n'] + (joined_by(lines_shown(lines).skip(i as int + 1), "\n"@) + tail)
        } else {
            tail
        }),
{
    reveal_strlit("\n");
    let shown = lines_shown(lines).skip(i as int);
    let feed = seq!['\n'];
    assert("\n"@ =~= feed);
    assert(shown[0] == line_shown(lines[i as int]));
    if i + 1 < lines.len() {
        lemma_joined(shown, "\n"@);
        let more = lines_shown(lines).skip(i as int + 1);
        assert(shown.skip(1) =~= more);
        let rest = joined_by(more, "\n"@);
        assert(shown[0] + feed + rest + tail =~= shown[0] + (feed + (rest + tail)));
    }
}

/// The tokens of lines are those of the first of them, and then those of the others.
proof fn lemma_lines_split(mark: Seq<Bare>, lines: Seq<Seq<FragmentView>>, i: nat)
    requires
        i < lines.len(),
    ensures
        ({
            let first = mark + one(TokenKind::Line, Seq::empty()) + pieces_bares(
                lines[i as int],
                0,
            );
            mark + lines_core(lines, i) == (if i + 1 < lines.len() {
                first + eol() + (mark_bares(None) + lines_core(lines, i + 1))
            } else {
                first
            })
        }),
{
    let start = one(TokenKind::Line, Seq::empty());
    let pieces = pieces_bares(lines[i as int], 0);
    let first = mark + start + pieces;
    if i + 1 < lines.len() {
        let rest = lines_core(lines, i + 1);
        assert(mark_bares(None) + rest =~= rest);
        assert(mark + (start + pieces + (eol() + rest)) =~= first + eol() + rest);
    } else {
        assert(mark + (start + pieces + Seq::<Bare>::empty()) =~= first);
    }
}

/// The tokens of a recipe after its dependencies, without the end of the last line.
spec fn recipe_core(r: RecipeView) -> Seq<Bare> {
    if r.lines.len() == 0 {
        Seq::empty()
    } else {
        eol() + (one(TokenKind::Indent, Seq::empty()) + lines_core(r.lines, 0))
    }
}

/// The mark of the end of the recipe in which a spot is.
pub open spec fn pending(state: StateView) -> Option<TokenKind> {
    if state is Start {
        None
    } else {
        Some(TokenKind::Dedent)
    }
}

/// A recipe, of which the name is behind, leads on.
#[verifier::rlimit(30)]
proof fn lemma_recipe(text: Seq<char>, from: Spot, r: RecipeView, tail: Seq<char>) -> (to: Spot)
    requires
        is_inside(text, from),
        from.at.state is Start,
        r.name + from.at.rest(text) == r.shown() + tail,
        plain_recipe(r),
        ends(tail),
        tail.len() == 0 ==> !body_ends_in_blanks(r.lines),
    ensures
        leads(
            text,
            from,
            to,
            names_bares(r.arguments) + one(TokenKind::Colon, seq![':']) + names_bares(
                r.dependencies,
            ) + recipe_core(r),
            tail,
        ),
        to.at.state is Start == (r.lines.len() == 0),
        is_in_text(text, to) || (is_inside(text, to) && to.at.state is Start),
{
    reveal_strlit(":");
    reveal_strlit("\n");
    let none = Seq::<char>::empty();
    let colon = seq![':'];
    let feed = seq!['\n'];
    let body = if r.lines.len() == 0 {
        none
    } else {
        feed + joined_by(lines_shown(r.lines), "\n"@)
    };
    let end = body + tail;
    let last = spaced(r.dependencies) + end;
    let middle = colon + last;
    assert(":"@ =~= colon);
    assert("\n"@ =~= feed);
    let rest = from.at.rest(text);
    assert(rest =~= spaced(r.arguments) + middle) by {
        assert(r.shown() + tail =~= r.name + (spaced(r.arguments) + middle));
        assert(rest =~= (r.name + rest).skip(r.name.len() as int));
        assert(spaced(r.arguments) + middle =~= (r.name + (spaced(r.arguments) + middle)).skip(
            r.name.len() as int,
        ));
    }
    assert(middle[0] == ':');
    let a = lemma_names(text, from, r.arguments, middle);
    assert(none + colon + last =~= middle);
    let b = lemma_inside(text, a, none, colon, TokenKind::Colon, last);
    assert(stops(end));
    let c = lemma_names(text, b, r.dependencies, end);
    let first = names_bares(r.arguments);
    let second = one(TokenKind::Colon, colon);
    let third = names_bares(r.dependencies);
    lemma_leads(text, from, a, b, first, second, middle, last);
    lemma_leads(text, from, b, c, first + second, third, last, end);
    if r.lines.len() == 0 {
        assert(end =~= tail);
        assert(first + second + third + recipe_core(r) =~= first + second + third);
        c
    } else {
        let shown = joined_by(lines_shown(r.lines), "\n"@);
        assert(end =~= feed + (shown + tail));
        let d = lemma_line_end(text, c, shown + tail);
        assert(lines_shown(r.lines).skip(0) =~= lines_shown(r.lines));
        let e = lemma_lines(text, d, r.lines, 0, tail);
        let fourth = one(TokenKind::Indent, Seq::empty()) + lines_core(r.lines, 0);
        lemma_leads(text, c, d, e, eol(), fourth, shown + tail, tail);
        lemma_leads(text, from, c, e, first + second + third, eol() + fourth, end, tail);
        e
    }
}

/// The name of an item leads on, from the first column.
proof fn lemma_item_name(text: Seq<char>, from: Spot, name: Seq<char>, tail: Seq<char>) -> (to: Spot)
    requires
        is_at_line(text, from),
        from.at.rest(text) == name + tail,
        is_good_name(name),
        stops(tail),
    ensures
        leads(
            text,
            from,
            to,
            mark_bares(pending(from.at.state)) + one(TokenKind::Name, name),
            tail,
        ),
        is_inside(text, to),
        to.at.state is Start,
{
    let none = Seq::<char>::empty();
    let state = from.at.state;
    lemma_good_name(name, tail);
    assert(none + name + tail =~= name + tail);
    lemma_found_item(state, name + tail);
    lemma_found_outside(StateView::Start, 0, none, name, TokenKind::Name, tail);
    lemma_step(text, from, none, name, TokenKind::Name, StateView::Start, tail)
}

/// An assignment, of which the name is behind, leads on.
proof fn lemma_assignment(
    text: Seq<char>,
    from: Spot,
    name: Seq<char>,
    e: ExpressionView,
    value: Seq<char>,
    tail: Seq<char>,
) -> (to: Spot)
    requires
        is_inside(text, from),
        from.at.state is Start,
        name + from.at.rest(text) == assignment_shown(name, e, value) + tail,
        plain_expression(e),
        plain_value(value),
        ends(tail),
    ensures
        leads(
            text,
            from,
            to,
            one(TokenKind::Equals, seq!['=']) + expression_bares(e),
            tail,
        ),
        is_inside(text, to),
        to.at.state is Start,
{
    reveal_strlit(" = ");
    reveal_strlit(" # \"");
    reveal_strlit("\"");
    let space = seq![' '];
    let equals = seq!['='];
    let comment = seq!['#', ' ', '"'] + value + seq!['"'];
    let last = space + comment + tail;
    let middle = space + e.shown() + last;
    let rest = from.at.rest(text);
    assert(rest =~= space + equals + middle) by {
        assert(assignment_shown(name, e, value) + tail =~= name + (space + equals + middle));
        assert(rest =~= (name + rest).skip(name.len() as int));
        assert(space + equals + middle =~= (name + (space + equals + middle)).skip(
            name.len() as int,
        ));
    }
    assert(last[0] == ' ');
    let a = lemma_inside(text, from, space, equals, TokenKind::Equals, middle);
    let b = lemma_expression(text, a, space, e, last);
    assert forall|i: int| 0 <= i < comment.len() implies #[trigger] comment[i] != '\n' by {
        if 3 <= i < 3 + value.len() {
            assert(comment[i] == value[i - 3]);
        }
    }
    let c = lemma_inside(text, b, space, comment, TokenKind::Comment, tail);
    let first = one(TokenKind::Equals, equals);
    let second = expression_bares(e);
    lemma_leads(text, from, a, b, first, second, middle, last);
    lemma_leads(text, from, b, c, first + second, Seq::empty(), last, tail);
    assert(first + second + Seq::<Bare>::empty() =~= first + second);
    c
}

/// The items of a justfile as they are written.
pub open spec fn items_shown(j: JustfileView) -> Seq<Seq<char>> {
    j.assignments_shown() + j.recipes_shown()
}

/// An item of a justfile leads on, up to the end of its last line.
#[verifier::rlimit(30)]
proof fn lemma_item(text: Seq<char>, from: Spot, j: JustfileView, k: nat, tail: Seq<char>) -> (to:
    Spot)
    requires
        j.is_plain(),
        k < j.items(),
        is_at_line(text, from),
        from.at.rest(text) == items_shown(j)[k as int] + tail,
        ends(tail),
        tail.len() == 0 ==> k + 1 == j.items() && !j.ends_in_blanks(),
    ensures
        is_in_text(text, to) || (is_inside(text, to) && to.at.state is Start),
        leads(text, from, to, mark_bares(pending(from.at.state)) + item_core(j, k as int), tail),
        item_bares(j, k as int) == item_core(j, k as int) + after_item(k + 1 == j.items())
            + mark_bares(pending(to.at.state)),
{
    let m = j.assignments.len();
    let last = k + 1 == j.items();
    if k < m {
        let entry = j.assignments[k as int];
        let value = lookup(j.values, entry.0)->0;
        assert(items_shown(j)[k as int] == j.assignments_shown()[k as int]);
        let shown = assignment_shown(entry.0, entry.1, value);
        assert(j.assignments_shown()[k as int] == shown);
        let rest = (shown + tail).skip(entry.0.len() as int);
        reveal_strlit(" = ");
        assert(shown + tail =~= entry.0 + rest);
        assert(rest[0] == ' ');
        let a = lemma_item_name(text, from, entry.0, rest);
        let b = lemma_assignment(text, a, entry.0, entry.1, value, tail);
        let first = mark_bares(pending(from.at.state)) + one(TokenKind::Name, entry.0);
        let second = one(TokenKind::Equals, seq!['=']) + expression_bares(entry.1);
        lemma_leads(text, from, a, b, first, second, rest, tail);
        assert(first + second =~= mark_bares(pending(from.at.state)) + item_core(j, k as int));
        assert(item_bares(j, k as int) =~= item_core(j, k as int) + after_item(last)
            + mark_bares(pending(b.at.state)));
        b
    } else {
        let entry = j.recipes[k - m];
        let r = entry.1;
        assert(items_shown(j)[k as int] == j.recipes_shown()[k - m]);
        assert(j.recipes_shown()[k - m] == r.shown());
        assert(plain_recipe(r));
        let rest = (r.shown() + tail).skip(r.name.len() as int);
        lemma_recipe_head(r);
        assert(r.shown() + tail =~= r.name + rest);
        assert(rest[0] == r.shown()[r.name.len() as int]);
        let a = lemma_item_name(text, from, r.name, rest);
        if tail.len() == 0 {
            assert(j.recipes.last() == entry);
        }
        let b = lemma_recipe(text, a, r, tail);
        let first = mark_bares(pending(from.at.state)) + one(TokenKind::Name, r.name);
        let second = names_bares(r.arguments) + one(TokenKind::Colon, seq![':']) + names_bares(
            r.dependencies,
        ) + recipe_core(r);
        lemma_leads(text, from, a, b, first, second, rest, tail);
        assert(first + second =~= mark_bares(pending(from.at.state)) + item_core(j, k as int));
        if r.lines.len() > 0 {
            lemma_lines_core(r.lines, 0, last);
        }
        assert(item_bares(j, k as int) =~= item_core(j, k as int) + after_item(last)
            + mark_bares(pending(b.at.state)));
        b
    }
}

/// What is written of a recipe is its name, and then a space or a colon.
proof fn lemma_recipe_head(r: RecipeView)
    ensures
        r.name.len() < r.shown().len(),
        r.shown().take(r.name.len() as int) == r.name,
        !is_name_char(r.shown()[r.name.len() as int]),
{
    reveal_strlit(":");
    reveal_strlit(" ");
    let after = spaced(r.arguments) + ":"@;
    lemma_spaced_head(r.arguments);
    assert(!is_name_char(after[0]));
    let shown = r.shown();
    assert(shown.take(r.name.len() as int) =~= r.name);
    assert(shown[r.name.len() as int] == after[0]);
}

/// What is spaced starts with a space.
proof fn lemma_spaced_head(parts: Seq<Seq<char>>)
    ensures
        parts.len() == 0 ==> spaced(parts).len() == 0,
        parts.len() > 0 ==> spaced(parts).len() > 0 && spaced(parts)[0] == ' ',
    decreases parts.len(),
{
    reveal_strlit(" ");
    if parts.len() > 0 {
        lemma_spaced_head(parts.drop_last());
    }
}

/// The tokens of an item of a justfile up to the end of its last line.
spec fn item_core(j: JustfileView, k: int) -> Seq<Bare> {
    if k < j.assignments.len() {
        one(TokenKind::Name, j.assignments[k].0) + (one(TokenKind::Equals, seq!['='])
            + expression_bares(j.assignments[k].1))
    } else {
        let r = j.recipes[k - j.assignments.len()].1;
        one(TokenKind::Name, r.name) + (names_bares(r.arguments) + one(TokenKind::Colon, seq![':'])
            + names_bares(r.dependencies) + recipe_core(r))
    }
}

/// The items of a justfile from the `k`th on lead to the end.
#[verifier::rlimit(30)]
proof fn lemma_items(text: Seq<char>, from: Spot, j: JustfileView, k: nat) -> (tokens: Seq<
    TokenView,
>)
    requires
        j.is_plain(),
        !j.ends_in_blanks(),
        k < j.items(),
        is_at_line(text, from),
        from.at.rest(text) == joined_by(items_shown(j).skip(k as int), "\n"@),
    ensures
        lex_from(text, from.at, from.done) == LexedView::Tokens(tokens),
        kept(tokens) == kept(from.done) + mark_bares(pending(from.at.state)) + items_bares(j, k),
    decreases j.items() - k,
{
    let mark = mark_bares(pending(from.at.state));
    let core = item_core(j, k as int);
    lemma_items_text(j, k);
    if k + 1 == j.items() {
        let a = lemma_item(text, from, j, k, Seq::empty());
        let end = mark_bares(pending(a.at.state));
        let tokens = lemma_end(text, a);
        lemma_items_split(kept(from.done), mark, core, Seq::empty(), end, items_bares(j, k + 1));
        tokens
    } else {
        let rest = joined_by(items_shown(j).skip(k as int + 1), "\n"@);
        let middle = seq!['\n'] + rest;
        let a = lemma_item(text, from, j, k, middle);
        let b = lemma_line_end(text, a, rest);
        let end = mark_bares(pending(b.at.state));
        lemma_leads(text, from, a, b, mark + core, eol(), middle, rest);
        let tokens = lemma_items(text, b, j, k + 1);
        lemma_items_split(kept(from.done), mark, core, eol(), end, items_bares(j, k + 1));
        tokens
    }
}

/// What is written of items is the first of them, and then the others.
proof fn lemma_items_text(j: JustfileView, k: nat)
    requires
        k < j.items(),
    ensures
        joined_by(items_shown(j).skip(k as int), "\n"@) == items_shown(j)[k as int] + (if k + 1
            < j.items() {
            seq!['\n'] + joined_by(items_shown(j).skip(k as int + 1), "\n"@)
        } else {
            Seq::empty()
        }),
{
    reveal_strlit("\n");
    let feed = seq!['\n'];
    assert("\n"@ =~= feed);
    let shown = items_shown(j).skip(k as int);
    assert(items_shown(j).len() == j.items());
    assert(shown[0] == items_shown(j)[k as int]);
    if k + 1 < j.items() {
        lemma_joined(shown, "\n"@);
        let more = items_shown(j).skip(k as int + 1);
        assert(shown.skip(1) =~= more);
        assert(shown[0] + feed + joined_by(more, "\n"@) =~= shown[0] + (feed + joined_by(
            more,
            "\n"@,
        )));
    } else {
        assert(shown[0] + Seq::<char>::empty() =~= shown[0]);
    }
}

/// Tokens after tokens, taken together in two ways.
proof fn lemma_items_split(
    done: Seq<Bare>,
    mark: Seq<Bare>,
    core: Seq<Bare>,
    after: Seq<Bare>,
    end: Seq<Bare>,
    rest: Seq<Bare>,
)
    ensures
        done + (mark + core + after) + end + rest == done + mark + (core + after + end + rest),
        after.len() == 0 ==> done + (mark + core) + end + rest == done + mark + (core + after + end
            + rest),
{
    assert(done + (mark + core + after) + end + rest =~= done + mark + (core + after + end + rest));
    if after.len() == 0 {
        assert(mark + core + after =~= mark + core);
    }
}

/// What is written of a justfile is cut into its tokens, and comments.
pub proof fn lemma_written(j: JustfileView) -> (tokens: Seq<TokenView>)
    requires
        j.is_plain(),
        !j.ends_in_blanks(),
    ensures
        lex_spec(j.shown()) == LexedView::Tokens(tokens),
        kept(tokens) == items_bares(j, 0),
{
    let text = j.shown();
    let from = Spot { at: Cursor::start(), done: Seq::empty() };
    reveal(Seq::filter);
    assert(kept(from.done) =~= Seq::empty());
    assert(text.skip(0) =~= text);
    assert(items_shown(j).len() == j.items());
    if j.items() == 0 {
        let tokens = lemma_end(text, from);
        assert(kept(tokens) =~= items_bares(j, 0));
        tokens
    } else {
        assert(items_shown(j).skip(0) =~= items_shown(j));
        let tokens = lemma_items(text, from, j, 0);
        assert(kept(tokens) =~= items_bares(j, 0));
        tokens
    }
}

} // verus!
