//! What a justfile that is parsed is made of.

use vstd::prelude::*;

use crate::evaluator::{evaluate_assignment, evaluate_assignments, evaluate_expression};
use crate::evaluator::{evaluate_line, evaluate_recipes, with_line, Assignments, Evaluated};
use crate::evaluator::{EvaluatorView, Filled};
use crate::expression::ExpressionView;
use crate::file::{parse_items, Items, ParsedFile};
use crate::justfile::JustfileView;
use crate::lexer::lex_spec;
use crate::linked::{class_before, is_tidy, lemma_text_linked, link, linked};
use crate::parse::{lemma_filter_all, lemma_quoted, not_comment, parse_text};
use crate::parse_laws::{law_parsed_values_hold, lemma_no_bad_name, lemma_parsed};
use crate::parser::{is_extra, is_shebang, lemma_expression_advances, lemma_pieces_advance};
use crate::parser::{lemma_recipe_advances, parse_expression, parse_lines, parse_names};
use crate::parser::{parse_pieces, parse_recipe, Parsed};
use crate::pattern::{is_good_name, is_lower_or_digit};
use crate::recipe::{FragmentView, RecipeView};
use crate::table::{inserted, is_key, is_sorted, law_lookup_after_insert, lemma_found};
use crate::table::{lemma_inserted, lemma_outside, lookup, outside};
use crate::text::is_before;
use crate::token::{all_tokens, lexemes, TokenKind, TokenView};
use crate::token_laws::{law_tokens_are_of_their_class, shaped};
use crate::written::{all_good, begins_blank, begins_extra, has_start, line_ends_in_blanks};
use crate::written::{plain_expression, plain_line, plain_piece, plain_recipe, plain_value};

verus! {

/// That a name is a good one, and that a string has one character between its quotes.
pub open spec fn proper() -> spec_fn(TokenView) -> bool {
    |token: TokenView|
        {
            &&& token.class == TokenKind::Name ==> is_good_name(token.lexeme)
            &&& token.class == TokenKind::StringToken ==> token.lexeme.len() == 3
                && token.lexeme[0] == '"' && is_lower_or_digit(token.lexeme[1]) && token.lexeme[2]
                == '"'
        }
}

/// An expression that is parsed is plain.
proof fn lemma_expression_plain(ts: Seq<TokenView>, pos: nat, interpolation: bool)
    requires
        all_tokens(ts, proper()),
    ensures
        parse_expression(ts, pos, interpolation) matches Parsed::Done { value, at }
            ==> plain_expression(value),
    decreases ts.len() - pos,
{
    if pos + 1 < ts.len() {
        let token = ts[pos as int];
        assert(proper()(token));
        if token.class == TokenKind::StringToken {
            lemma_quoted(token.lexeme);
        }
        lemma_expression_plain(ts, pos + 2, interpolation);
        reveal_with_fuel(plain_expression, 2);
    }
}

/// Names that are parsed are good ones.
proof fn lemma_names_good(
    ts: Seq<TokenView>,
    pos: nat,
    recipe: Seq<char>,
    arguments: bool,
    done: Seq<TokenView>,
)
    requires
        all_tokens(ts, proper()),
        all_good(lexemes(done)),
    ensures
        parse_names(ts, pos, recipe, arguments, done) matches Parsed::Done { value, at }
            ==> all_good(lexemes(value)),
    decreases ts.len() - pos,
{
    if pos < ts.len() {
        let token = ts[pos as int];
        assert(proper()(token));
        if token.class == TokenKind::Name {
            assert(lexemes(done.push(token)) =~= lexemes(done).push(token.lexeme));
            lemma_names_good(ts, pos + 1, recipe, arguments, done.push(token));
        }
    }
}

/// Whether the pieces `done` of the line that starts at `start` are such as are parsed, where the
/// tokens up to the one at `pos` are behind.
spec fn line_so_far(
    ts: Seq<TokenView>,
    start: nat,
    pos: nat,
    first_line: bool,
    shebang: bool,
    done: Seq<FragmentView>,
) -> bool {
    &&& start < pos
    &&& start < ts.len()
    &&& ts[start as int].class == TokenKind::Line
    &&& done.len() == 0 ==> pos == start + 1
    &&& done.len() == 1 && done[0] is Text ==> pos == start + 2
    &&& done.len() > 1 ==> has_start(done)
    &&& forall|i: int| 0 <= i < done.len() - 1 ==> #[trigger] plain_piece(done, i)
    &&& done.len() > 0 ==> match done.last() {
        FragmentView::Text { text } => pos <= ts.len() && text == ts[pos - 1] && text.class
            == TokenKind::Text,
        FragmentView::Expression { expression } => plain_expression(expression),
    }
    &&& class_before(ts, start as int) == Some(TokenKind::Indent) ==> !begins_blank(done)
    &&& !first_line ==> !begins_extra(done, shebang)
}

/// The pieces of a line stay such as are parsed with one more text.
proof fn lemma_text_so_far(
    ts: Seq<TokenView>,
    start: nat,
    pos: nat,
    first_line: bool,
    shebang: bool,
    done: Seq<FragmentView>,
    tidy: bool,
)
    requires
        linked(ts, tidy),
        line_so_far(ts, start, pos, first_line, shebang, done),
        pos < ts.len(),
        ts[pos as int].class == TokenKind::Text,
        !(done.len() == 0 && !first_line && is_extra(ts[pos as int].lexeme, shebang)),
    ensures
        line_so_far(
            ts,
            start,
            pos + 1,
            first_line,
            shebang,
            done.push(FragmentView::Text { text: ts[pos as int] }),
        ),
{
    let token = ts[pos as int];
    let more = done.push(FragmentView::Text { text: token });
    assert(link(class_before(ts, pos - 1), ts[pos - 1], ts[pos - 1 + 1], tidy));
    if done.len() > 0 {
        assert(more[0] == done[0]);
        assert(done.last() is Expression);
    }
    assert forall|i: int| 0 <= i < more.len() - 1 implies #[trigger] plain_piece(more, i) by {
        assert(more[i] == done[i]);
        if i < done.len() - 1 {
            assert(plain_piece(done, i));
            assert(more[i + 1] == done[i + 1]);
        }
    }
}

/// The pieces of a line stay such as are parsed with one more interpolation.
proof fn lemma_interpolation_so_far(
    ts: Seq<TokenView>,
    start: nat,
    pos: nat,
    at: nat,
    first_line: bool,
    shebang: bool,
    done: Seq<FragmentView>,
    expression: ExpressionView,
    tidy: bool,
)
    requires
        linked(ts, tidy),
        line_so_far(ts, start, pos, first_line, shebang, done),
        pos < at < ts.len(),
        ts[pos as int].class == TokenKind::InterpolationStart,
        plain_expression(expression),
    ensures
        line_so_far(
            ts,
            start,
            at + 1,
            first_line,
            shebang,
            done.push(FragmentView::Expression { expression }),
        ),
{
    let piece = FragmentView::Expression { expression };
    let more = done.push(piece);
    assert(link(class_before(ts, pos - 1), ts[pos - 1], ts[pos - 1 + 1], tidy));
    if done.len() > 0 {
        assert(more[0] == done[0]);
    }
    assert forall|i: int| 0 <= i < more.len() - 1 implies #[trigger] plain_piece(more, i) by {
        assert(more[i] == done[i]);
        if i < done.len() - 1 {
            assert(plain_piece(done, i));
            assert(more[i + 1] == done[i + 1]);
        } else {
            assert(more[i + 1] == piece);
        }
    }
}

/// The pieces of a line are such as are parsed when the line ends.
proof fn lemma_line_so_far(
    ts: Seq<TokenView>,
    start: nat,
    pos: nat,
    first_line: bool,
    shebang: bool,
    done: Seq<FragmentView>,
    tidy: bool,
)
    requires
        linked(ts, tidy),
        line_so_far(ts, start, pos, first_line, shebang, done),
        pos < ts.len(),
        ts[pos as int].class == TokenKind::Eol || ts[pos as int].class == TokenKind::Dedent,
    ensures
        plain_line(done),
        tidy ==> !line_ends_in_blanks(done),
{
    assert(link(class_before(ts, pos - 1), ts[pos - 1], ts[pos - 1 + 1], tidy));
    assert forall|i: int| 0 <= i < done.len() implies #[trigger] plain_piece(done, i) by {}
}

/// A line that is parsed is plain.
#[verifier::rlimit(30)]
proof fn lemma_pieces_plain(
    ts: Seq<TokenView>,
    start: nat,
    pos: nat,
    first_line: bool,
    shebang: bool,
    done: Seq<FragmentView>,
    tidy: bool,
)
    requires
        all_tokens(ts, proper()),
        linked(ts, tidy),
        line_so_far(ts, start, pos, first_line, shebang, done),
    ensures
        parse_pieces(ts, pos, first_line, shebang, done) matches Parsed::Done { value, at } ==> {
            &&& plain_line(value.0)
            &&& tidy ==> !line_ends_in_blanks(value.0)
            &&& class_before(ts, start as int) == Some(TokenKind::Indent) ==> !begins_blank(value.0)
            &&& !first_line ==> !begins_extra(value.0, shebang) && value.1 == shebang
        },
    decreases ts.len() - pos,
{
    if pos < ts.len() {
        let token = ts[pos as int];
        match token.class {
            TokenKind::Eol | TokenKind::Dedent => {
                lemma_line_so_far(ts, start, pos, first_line, shebang, done, tidy);
            },
            TokenKind::Text => {
                if !(done.len() == 0 && !first_line && is_extra(token.lexeme, shebang)) {
                    let starts = done.len() == 0 && first_line && is_shebang(
                        token.lexeme,
                    );
                    let more = done.push(FragmentView::Text { text: token });
                    lemma_text_so_far(ts, start, pos, first_line, shebang, done, tidy);
                    assert(line_so_far(ts, start, pos + 1, first_line, shebang || starts, more));
                    lemma_pieces_plain(
                        ts,
                        start,
                        pos + 1,
                        first_line,
                        shebang || starts,
                        more,
                        tidy,
                    );
                }
            },
            TokenKind::InterpolationStart => {
                lemma_expression_advances(ts, pos + 1, true);
                lemma_expression_plain(ts, pos + 1, true);
                if let Parsed::Done { value, at } = parse_expression(ts, pos + 1, true) {
                    if at < ts.len() && ts[at as int].class == TokenKind::InterpolationEnd {
                        let piece = FragmentView::Expression { expression: value };
                        lemma_interpolation_so_far(
                            ts,
                            start,
                            pos,
                            at,
                            first_line,
                            shebang,
                            done,
                            value,
                            tidy,
                        );
                        lemma_pieces_plain(
                            ts,
                            start,
                            at + 1,
                            first_line,
                            shebang,
                            done.push(piece),
                            tidy,
                        );
                    }
                }
            },
            _ => {},
        }
    }
}

/// Whether lines are such as are parsed, where `shebang` says whether they are a script.
spec fn lines_plain(lines: Seq<Seq<FragmentView>>, shebang: bool, tidy: bool) -> bool {
    &&& forall|i: int| 0 <= i < lines.len() ==> plain_line(#[trigger] lines[i])
    &&& lines.len() > 0 ==> !begins_blank(lines[0])
    &&& forall|i: int| 1 <= i < lines.len() ==> !begins_extra(#[trigger] lines[i], shebang)
    &&& tidy ==> forall|i: int| 0 <= i < lines.len() ==> !line_ends_in_blanks(#[trigger] lines[i])
}

/// The lines of a recipe that are parsed are plain.
proof fn lemma_lines_plain(
    ts: Seq<TokenView>,
    pos: nat,
    shebang: bool,
    done: Seq<Seq<FragmentView>>,
    tidy: bool,
)
    requires
        all_tokens(ts, proper()),
        linked(ts, tidy),
        done.len() == 0 ==> class_before(ts, pos as int) == Some(TokenKind::Indent),
        lines_plain(done, shebang, tidy),
    ensures
        parse_lines(ts, pos, shebang, done) matches Parsed::Done { value, at } ==> lines_plain(
            value.0,
            value.1,
            tidy,
        ),
    decreases ts.len() - pos,
{
    if pos < ts.len() {
        let token = ts[pos as int];
        if done.len() == 0 {
            assert(link(class_before(ts, pos - 1), ts[pos - 1], ts[pos - 1 + 1], tidy));
        }
        if token.class == TokenKind::Eol {
            lemma_lines_plain(ts, pos + 1, shebang, done, tidy);
        } else if token.class == TokenKind::Line {
            let none = Seq::<FragmentView>::empty();
            lemma_pieces_advance(ts, pos + 1, done.len() == 0, shebang, none);
            lemma_pieces_plain(ts, pos, pos + 1, done.len() == 0, shebang, none, tidy);
            if let Parsed::Done { value, at } = parse_pieces(
                ts,
                pos + 1,
                done.len() == 0,
                shebang,
                none,
            ) {
                let more = done.push(value.0);
                assert forall|i: int| 0 <= i < more.len() implies plain_line(#[trigger] more[i])
                    && (tidy ==> !line_ends_in_blanks(more[i])) by {
                    if i < done.len() {
                        assert(more[i] == done[i]);
                    }
                }
                assert forall|i: int| 1 <= i < more.len() implies !begins_extra(
                    #[trigger] more[i],
                    value.1,
                ) by {
                    if i < done.len() {
                        assert(more[i] == done[i]);
                    }
                }
                if done.len() > 0 {
                    assert(more[0] == done[0]);
                }
                lemma_lines_plain(ts, at, value.1, more, tidy);
            }
        }
    }
}

/// Whether the names and lines of a recipe are such as are parsed.
spec fn recipe_plain(r: RecipeView, tidy: bool) -> bool {
    &&& all_good(r.arguments)
    &&& all_good(r.dependencies)
    &&& lines_plain(r.lines, r.shebang, tidy)
}

/// A recipe that is parsed is plain.
proof fn lemma_recipe_plain(
    ts: Seq<TokenView>,
    pos: nat,
    name: Seq<char>,
    line_number: nat,
    tidy: bool,
)
    requires
        all_tokens(ts, proper()),
        linked(ts, tidy),
    ensures
        parse_recipe(ts, pos, name, line_number) matches Parsed::Done { value, at } ==> recipe_plain(
            value,
            tidy,
        ),
{
    let none = Seq::<TokenView>::empty();
    lemma_names_good(ts, pos, name, true, none);
    if let Parsed::Done { value: arguments, at } = parse_names(ts, pos, name, true, none) {
        lemma_names_good(ts, at + 1, name, false, none);
        if let Parsed::Done { value: dependencies, at: end } = parse_names(
            ts,
            at + 1,
            name,
            false,
            none,
        ) {
            let class = ts[end as int].class;
            let body = if class == TokenKind::Eol {
                end + 1
            } else {
                end
            };
            if body < ts.len() && ts[body as int].class == TokenKind::Indent {
                lemma_lines_plain(ts, body + 1, false, Seq::empty(), tidy);
            }
        }
    }
}

/// Whether items are such as are parsed.
spec fn items_plain(items: Items, tidy: bool) -> bool {
    &&& items.wf()
    &&& forall|k: int|
        0 <= k < items.recipes.len() ==> recipe_plain((#[trigger] items.recipes[k]).1, tidy)
    &&& forall|k: int|
        0 <= k < items.assignments.len() ==> plain_expression((#[trigger] items.assignments[k]).1)
}

/// Items stay plain when a plain assignment is added.
proof fn lemma_assigned_plain(items: Items, token: TokenView, value: ExpressionView, tidy: bool)
    requires
        items_plain(items, tidy),
        plain_expression(value),
    ensures
        items_plain(items.assigned(token, value), tidy),
{
    let name = token.lexeme;
    let more = items.assigned(token, value);
    law_lookup_after_insert(items.assignments, name, value, name);
    law_lookup_after_insert(items.assignment_tokens, name, token, name);
    assert forall|k: int| 0 <= k < more.assignments.len() implies plain_expression(
        (#[trigger] more.assignments[k]).1,
    ) by {
        lemma_inserted(items.assignments, name, value, k);
    }
}

/// Items stay plain when a plain recipe is added.
proof fn lemma_defined_plain(items: Items, token: TokenView, recipe: RecipeView, tidy: bool)
    requires
        items_plain(items, tidy),
        recipe_plain(recipe, tidy),
    ensures
        items_plain(items.defined(token, recipe), tidy),
{
    let name = token.lexeme;
    let more = items.defined(token, recipe);
    law_lookup_after_insert(items.recipes, name, recipe, name);
    assert forall|k: int| 0 <= k < more.recipes.len() implies recipe_plain(
        (#[trigger] more.recipes[k]).1,
        tidy,
    ) by {
        lemma_inserted(items.recipes, name, recipe, k);
    }
}

/// Items that are parsed are plain.
proof fn lemma_items_plain(
    text: Seq<char>,
    ts: Seq<TokenView>,
    pos: nat,
    done: Items,
    tidy: bool,
)
    requires
        all_tokens(ts, proper()),
        linked(ts, tidy),
        items_plain(done, tidy),
    ensures
        parse_items(text, ts, pos, done) matches Parsed::Done { value, at } ==> items_plain(
            value,
            tidy,
        ),
    decreases ts.len() - pos,
{
    if pos < ts.len() {
        let token = ts[pos as int];
        if token.class == TokenKind::Eol {
            lemma_items_plain(text, ts, pos + 1, done, tidy);
        } else if token.class == TokenKind::Name && pos + 1 < ts.len() {
            if ts[pos as int + 1].class == TokenKind::Equals {
                lemma_expression_advances(ts, pos + 2, false);
                lemma_expression_plain(ts, pos + 2, false);
                if let Parsed::Done { value, at } = parse_expression(ts, pos + 2, false) {
                    lemma_assigned_plain(done, token, value, tidy);
                    lemma_items_plain(text, ts, at, done.assigned(token, value), tidy);
                }
            } else {
                lemma_recipe_advances(ts, pos + 1, token.lexeme, token.line);
                lemma_recipe_plain(ts, pos + 1, token.lexeme, token.line, tidy);
                if let Parsed::Done { value, at } = parse_recipe(
                    ts,
                    pos + 1,
                    token.lexeme,
                    token.line,
                ) {
                    lemma_defined_plain(done, token, value, tidy);
                    lemma_items_plain(text, ts, at, done.defined(token, value), tidy);
                }
            }
        }
    }
}

/// Whether all assigned expressions are plain.
spec fn all_plain(expressions: Seq<(Seq<char>, ExpressionView)>) -> bool {
    forall|k: int| 0 <= k < expressions.len() ==> plain_expression((#[trigger] expressions[k]).1)
}

/// Whether all values are plain.
spec fn plain_values(values: Seq<(Seq<char>, Seq<char>)>) -> bool {
    &&& is_sorted(values)
    &&& forall|k: int| 0 <= k < values.len() ==> plain_value((#[trigger] values[k]).1)
}

/// The value of a plain expression is plain.
proof fn lemma_value_plain(assignments: Assignments, state: EvaluatorView, e: ExpressionView)
    requires
        all_plain(assignments.expressions),
        plain_values(state.evaluated),
        plain_expression(e),
    ensures
        evaluate_expression(assignments, state, e) matches Evaluated::Done { value, state: then_state }
            ==> plain_value(value) && plain_values(then_state.evaluated),
    decreases outside(assignments.expressions, state.seen), 0int, e.size(),
{
    match e {
        ExpressionView::String { contents } => {},
        ExpressionView::Variable { name, token } => {
            if is_key(state.evaluated, name) {
                let i = lemma_found(state.evaluated, name);
                assert(plain_value(state.evaluated[i].1));
            } else if !state.seen.contains(name) && is_key(assignments.expressions, name) {
                lemma_outside(assignments.expressions, state.seen, state.seen.insert(name));
                lemma_assignment_plain(assignments, state, name);
            }
        },
        ExpressionView::Concatination { lhs, rhs } => {
            lemma_value_plain(assignments, state, *lhs);
            if let Evaluated::Done { value, state: then_state } = evaluate_expression(
                assignments,
                state,
                *lhs,
            ) {
                if outside(assignments.expressions, then_state.seen) <= outside(
                    assignments.expressions,
                    state.seen,
                ) {
                    lemma_value_plain(assignments, then_state, *rhs);
                }
            }
        },
    }
}

/// The value of a plain assignment is plain.
proof fn lemma_assignment_plain(assignments: Assignments, state: EvaluatorView, name: Seq<char>)
    requires
        all_plain(assignments.expressions),
        plain_values(state.evaluated),
    ensures
        evaluate_assignment(assignments, state, name) matches Evaluated::Done {
            value,
            state: then_state,
        } ==> plain_values(then_state.evaluated) && is_key(then_state.evaluated, name) && plain_value(
            lookup(then_state.evaluated, name)->0,
        ),
    decreases outside(assignments.expressions, state.seen.insert(name)), 1int, 0nat,
{
    if is_key(state.evaluated, name) {
        let i = lemma_found(state.evaluated, name);
        assert(plain_value(state.evaluated[i].1));
    } else if is_key(assignments.expressions, name) {
        let i = lemma_found(assignments.expressions, name);
        let expression = assignments.expressions[i].1;
        lemma_value_plain(assignments, state.entered(name), expression);
        if let Evaluated::Done { value, state: then_state } = evaluate_expression(
            assignments,
            state.entered(name),
            expression,
        ) {
            let before = then_state.evaluated;
            let after = inserted(before, name, value);
            law_lookup_after_insert(before, name, value, name);
            assert forall|k: int| 0 <= k < after.len() implies plain_value(
                (#[trigger] after[k]).1,
            ) by {
                lemma_inserted(before, name, value, k);
            }
        }
    }
}

/// The values of plain assignments are plain.
proof fn lemma_assignments_plain(assignments: Assignments, state: EvaluatorView, i: nat)
    requires
        all_plain(assignments.expressions),
        plain_values(state.evaluated),
    ensures
        evaluate_assignments(assignments, state, i) matches Evaluated::Done {
            value,
            state: then_state,
        } ==> plain_values(then_state.evaluated),
    decreases assignments.expressions.len() - i,
{
    if i < assignments.expressions.len() {
        let name = assignments.expressions[i as int].0;
        lemma_assignment_plain(assignments, state, name);
        if let Evaluated::Done { value, state: then_state } = evaluate_assignment(
            assignments,
            state,
            name,
        ) {
            lemma_assignments_plain(assignments, then_state, i + 1);
        }
    }
}

/// Evaluating a line leaves values plain.
proof fn lemma_line_keeps_plain(
    assignments: Assignments,
    state: EvaluatorView,
    line: Seq<FragmentView>,
    i: nat,
    done: Seq<char>,
)
    requires
        all_plain(assignments.expressions),
        plain_values(state.evaluated),
        forall|k: int| 0 <= k < line.len() ==> #[trigger] plain_piece(line, k),
    ensures
        evaluate_line(assignments, state, line, i, done) matches Evaluated::Done {
            value,
            state: then_state,
        } ==> plain_values(then_state.evaluated),
    decreases line.len() - i,
{
    if i < line.len() {
        assert(plain_piece(line, i as int));
        match line[i as int] {
            FragmentView::Text { text } => {
                lemma_line_keeps_plain(assignments, state, line, i + 1, done + text.lexeme);
            },
            FragmentView::Expression { expression } => {
                lemma_value_plain(assignments, state, expression);
                if let Evaluated::Done { value, state: then_state } = evaluate_expression(
                    assignments,
                    state,
                    expression,
                ) {
                    lemma_line_keeps_plain(assignments, then_state, line, i + 1, done + value);
                }
            },
        }
    }
}

/// Evaluating the lines of recipes leaves values plain.
proof fn lemma_recipes_keep_plain(
    assignments: Assignments,
    state: EvaluatorView,
    recipes: Seq<(Seq<char>, RecipeView)>,
    i: nat,
    j: nat,
    tidy: bool,
)
    requires
        all_plain(assignments.expressions),
        plain_values(state.evaluated),
        forall|k: int| 0 <= k < recipes.len() ==> recipe_plain((#[trigger] recipes[k]).1, tidy),
    ensures
        evaluate_recipes(assignments, state, recipes, i, j) matches Filled::Done {
            recipes: filled,
            state: then_state,
        } ==> plain_values(then_state.evaluated),
    decreases recipes.len() - i, recipes[i as int].1.lines.len() - j,
{
    if i < recipes.len() {
        assert(recipe_plain(recipes[i as int].1, tidy));
        if j >= recipes[i as int].1.lines.len() {
            lemma_recipes_keep_plain(assignments, state, recipes, i + 1, 0, tidy);
        } else {
            let line = recipes[i as int].1.lines[j as int];
            assert(plain_line(line));
            lemma_line_keeps_plain(assignments, state, line, 0, Seq::empty());
            if let Evaluated::Done { value, state: then_state } = evaluate_line(
                assignments,
                state,
                line,
                0,
                Seq::empty(),
            ) {
                let more = with_line(recipes, i as int, value);
                assert forall|k: int| 0 <= k < more.len() implies recipe_plain(
                    (#[trigger] more[k]).1,
                    tidy,
                ) by {
                    assert(recipe_plain(recipes[k].1, tidy));
                }
                lemma_recipes_keep_plain(assignments, then_state, more, i, j + 1, tidy);
            }
        }
    }
}

/// A justfile that is parsed is plain. If no line of its text ends in a blank, no line of it does.
pub proof fn lemma_parsed_plain(text: Seq<char>, justfile: JustfileView)
    requires
        parse_text(text) == (ParsedFile::Done { justfile }),
    ensures
        justfile.is_plain(),
        is_tidy(text) ==> !justfile.ends_in_blanks(),
{
    let (items, state) = lemma_parsed(text, justfile);
    let tokens = lex_spec(text)->Tokens_0;
    let ts = tokens.filter(not_comment());
    let tidy = is_tidy(text);
    lemma_text_linked(text, tokens);
    lemma_no_bad_name(ts, 0);
    law_tokens_are_of_their_class(text, tokens);
    let formed = |t: TokenView| shaped(t);
    lemma_filter_all(tokens, not_comment(), formed);
    assert forall|i: int| 0 <= i < ts.len() implies proper()(#[trigger] ts[i]) by {
        assert(formed(ts[i]));
    }
    lemma_items_plain(text, ts, 0, Items::none(), tidy);
    assert(items_plain(items, tidy));
    let assignments = items.variables();
    let initial = EvaluatorView::initial();
    lemma_assignments_plain(assignments, initial, 0);
    let first = evaluate_assignments(assignments, initial, 0)->Done_state;
    lemma_recipes_keep_plain(assignments, first, items.recipes, 0, 0, tidy);
    assert(plain_values(justfile.values));
    law_parsed_values_hold(text, justfile);
    assert forall|i: int| 0 <= i < justfile.assignments.len() implies is_good_name(
        (#[trigger] justfile.assignments[i]).0,
    ) && plain_expression(justfile.assignments[i].1) && plain_value(
        lookup(justfile.values, justfile.assignments[i].0)->0,
    ) by {
        let k = lemma_found(justfile.values, justfile.assignments[i].0);
        assert(plain_value(justfile.values[k].1));
    }
    assert forall|i: int| 0 <= i < justfile.recipes.len() implies plain_recipe(
        (#[trigger] justfile.recipes[i]).1,
    ) && justfile.recipes[i].1.name == justfile.recipes[i].0 by {
        assert(recipe_plain(items.recipes[i].1, tidy));
        assert(items.recipes[i].1.is_well_made());
    }
    assert(is_sorted(justfile.recipes)) by {
        assert forall|i: int, j: int| 0 <= i < j < justfile.recipes.len() implies
            is_before(
            (#[trigger] justfile.recipes[i]).0,
            (#[trigger] justfile.recipes[j]).0,
        ) by {
            assert(items.recipes[i].0 == justfile.recipes[i].0);
            assert(items.recipes[j].0 == justfile.recipes[j].0);
        }
    }
    if tidy && justfile.ends_in_blanks() {
        let last = justfile.recipes.len() - 1;
        assert(recipe_plain(items.recipes[last].1, tidy));
        assert(justfile.recipes[last].1.lines == items.recipes[last].1.lines);
    }
}

} // verus!
