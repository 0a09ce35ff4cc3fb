//! What holds of the errors in justfiles: they point into the text, and the text is at fault.

use vstd::prelude::*;

use crate::error::{ErrorKindView, ErrorView};
use crate::evaluator::{evaluate_assignment, evaluate_assignments, evaluate_expression};
use crate::evaluator::{evaluate_line, evaluate_recipes, lemma_expression_keeps, with_line};
use crate::evaluator::{Assignments, Evaluated, EvaluatorView, Filled};
use crate::expression::ExpressionView;
use crate::file::{check_recipes, finish, first_shadow, lemma_assigned_all, lemma_defined_all};
use crate::file::{lemma_expression_all, lemma_recipe_all, lines_variables, parse_file, parse_items};
use crate::file::{Checked, Items, ParsedFile};
use crate::lexer::{lex_spec, LexedView};
use crate::parse::{ended, first_bad_name, genuine, lemma_filter_all, lemma_filter_ends};
use crate::parse::{lemma_first_unknown_all, lemma_items_end, lemma_lines_variables_all};
use crate::parse::{lemma_tokens_genuine, not_comment, parse_text};
use crate::parser::{is_shebang, lemma_expression_advances, lemma_names_advance};
use crate::parser::{lemma_pieces_advance, lemma_recipe_advances, parse_expression, parse_lines};
use crate::parser::{parse_names, parse_pieces, parse_recipe, Parsed};
use crate::pattern::is_good_name;
use crate::phase_laws::{law_tokens_come_in_order, lemma_phase_filter, lemma_phase_take, phase_of};
use crate::phase_laws::Phase;
use crate::place_laws::{law_lexer_errors_point_into_the_text, law_tokens_point_into_the_text};
use crate::place_laws::{pointing, points_into};
use crate::recipe::{line_all, lines_all, FragmentView, RecipeView};
use crate::resolver::{lemma_unseen, resolve_all, resolve_from, unseen, Resolution, ResolverView};
use crate::table::{is_key, lemma_found, lemma_outside, lookup, outside};
use crate::token::{all_tokens, TokenKind, TokenView};
use crate::token_laws::law_lexer_has_no_internal_errors;

verus! {

/// Whether an error points into `text`, and says something of the text rather than of the program.
pub open spec fn is_fault(text: Seq<char>, error: ErrorView) -> bool {
    &&& points_into(text, error)
    &&& error.kind !is InternalError
}

/// Whether an error is a fault that is found once all names are known to be good ones.
pub open spec fn is_later_fault(text: Seq<char>, error: ErrorView) -> bool {
    &&& is_fault(text, error)
    &&& error.kind !is BadName
}

/// What is wrong with an expression is a fault.
proof fn lemma_expression_faults(
    text: Seq<char>,
    ts: Seq<TokenView>,
    pos: nat,
    interpolation: bool,
)
    requires
        all_tokens(ts, pointing(text)),
    ensures
        parse_expression(ts, pos, interpolation) matches Parsed::Fail { error, at } ==> is_later_fault(
            text,
            error,
        ),
    decreases ts.len() - pos,
{
    if pos < ts.len() {
        assert(pointing(text)(ts[pos as int]));
        if pos + 1 < ts.len() {
            assert(pointing(text)(ts[pos as int + 1]));
            lemma_expression_faults(text, ts, pos + 2, interpolation);
        }
    }
}

/// What is wrong with arguments or dependencies is a fault.
proof fn lemma_names_faults(
    text: Seq<char>,
    ts: Seq<TokenView>,
    pos: nat,
    recipe: Seq<char>,
    arguments: bool,
    done: Seq<TokenView>,
)
    requires
        all_tokens(ts, pointing(text)),
    ensures
        parse_names(ts, pos, recipe, arguments, done) matches Parsed::Fail { error, at }
            ==> is_later_fault(text, error),
    decreases ts.len() - pos,
{
    if pos < ts.len() {
        assert(pointing(text)(ts[pos as int]));
        lemma_names_faults(text, ts, pos + 1, recipe, arguments, done.push(ts[pos as int]));
    }
}

/// After an expression in an interpolation, the line goes on or has ended.
proof fn lemma_expression_phase(ts: Seq<TokenView>, pos: nat)
    requires
        phase_of(ts) is Some,
        pos <= ts.len(),
        phase_of(ts.take(pos as int)) == Some(Phase::Line),
    ensures
        parse_expression(ts, pos, true) matches Parsed::Done { value, at } ==> at <= ts.len() && (
        phase_of(ts.take(at as int)) == Some(Phase::Line) || phase_of(ts.take(at as int)) == Some(
            Phase::Body,
        )),
    decreases ts.len() - pos,
{
    if pos + 1 < ts.len() {
        lemma_phase_take(ts, pos as int);
        lemma_phase_take(ts, pos as int + 1);
        if ts[pos as int + 1].class == TokenKind::Plus && (ts[pos as int].class == TokenKind::Name
            || ts[pos as int].class == TokenKind::StringToken) {
            lemma_expression_phase(ts, pos + 2);
        }
    }
}

/// What is wrong with a line is a fault; after a line another begins or the recipe ends.
#[verifier::rlimit(40)]
proof fn lemma_pieces_faults(
    text: Seq<char>,
    ts: Seq<TokenView>,
    pos: nat,
    first_line: bool,
    shebang: bool,
    done: Seq<FragmentView>,
)
    requires
        all_tokens(ts, pointing(text)),
        phase_of(ts) is Some,
        pos <= ts.len(),
        phase_of(ts.take(pos as int)) == Some(Phase::Line),
    ensures
        match parse_pieces(ts, pos, first_line, shebang, done) {
            Parsed::Done { value, at } => at <= ts.len() && (phase_of(ts.take(at as int)) == Some(
                Phase::Body,
            ) || at < ts.len() && ts[at as int].class == TokenKind::Dedent),
            Parsed::Fail { error, at } => is_later_fault(text, error),
            Parsed::Stuck => true,
        },
    decreases ts.len() - pos,
{
    if pos < ts.len() {
        let token = ts[pos as int];
        assert(pointing(text)(token));
        lemma_phase_take(ts, pos as int);
        if token.class == TokenKind::Text {
            let starts = done.len() == 0 && first_line && is_shebang(token.lexeme);
            let piece = FragmentView::Text { text: token };
            lemma_pieces_faults(
                text,
                ts,
                pos + 1,
                first_line,
                shebang || starts,
                done.push(piece),
            );
        } else if token.class == TokenKind::InterpolationStart {
            lemma_expression_advances(ts, pos + 1, true);
            lemma_expression_faults(text, ts, pos + 1, true);
            lemma_expression_phase(ts, pos + 1);
            if let Parsed::Done { value, at } = parse_expression(ts, pos + 1, true) {
                if at < ts.len() {
                    assert(pointing(text)(ts[at as int]));
                    if ts[at as int].class == TokenKind::InterpolationEnd {
                        lemma_phase_take(ts, at as int);
                        let piece = FragmentView::Expression { expression: value };
                        lemma_pieces_faults(
                            text,
                            ts,
                            at + 1,
                            first_line,
                            shebang,
                            done.push(piece),
                        );
                    }
                }
            }
        }
    }
}

/// What is wrong with the lines of a recipe is a fault.
proof fn lemma_lines_faults(
    text: Seq<char>,
    ts: Seq<TokenView>,
    pos: nat,
    shebang: bool,
    done: Seq<Seq<FragmentView>>,
)
    requires
        all_tokens(ts, pointing(text)),
        phase_of(ts) is Some,
        pos <= ts.len(),
        phase_of(ts.take(pos as int)) == Some(Phase::Body) || pos < ts.len()
            && ts[pos as int].class == TokenKind::Dedent,
    ensures
        parse_lines(ts, pos, shebang, done) matches Parsed::Fail { error, at } ==> is_later_fault(
            text,
            error,
        ),
    decreases ts.len() - pos,
{
    if pos < ts.len() {
        let class = ts[pos as int].class;
        lemma_phase_take(ts, pos as int);
        if class == TokenKind::Eol {
            lemma_lines_faults(text, ts, pos + 1, shebang, done);
        } else if class == TokenKind::Line {
            lemma_pieces_advance(ts, pos + 1, done.len() == 0, shebang, Seq::empty());
            lemma_pieces_faults(text, ts, pos + 1, done.len() == 0, shebang, Seq::empty());
            if let Parsed::Done { value, at } = parse_pieces(
                ts,
                pos + 1,
                done.len() == 0,
                shebang,
                Seq::empty(),
            ) {
                lemma_lines_faults(text, ts, at, value.1, done.push(value.0));
            }
        }
    }
}

/// What is wrong with a recipe is a fault.
proof fn lemma_recipe_faults(
    text: Seq<char>,
    ts: Seq<TokenView>,
    pos: nat,
    name: Seq<char>,
    line_number: nat,
)
    requires
        all_tokens(ts, pointing(text)),
        phase_of(ts) is Some,
    ensures
        parse_recipe(ts, pos, name, line_number) matches Parsed::Fail { error, at } ==> is_later_fault(
            text,
            error,
        ),
{
    lemma_names_faults(text, ts, pos, name, true, Seq::empty());
    lemma_names_advance(ts, pos, name, true, Seq::empty());
    if let Parsed::Done { value: arguments, at } = parse_names(ts, pos, name, true, Seq::empty()) {
        assert(pointing(text)(ts[at as int]));
        lemma_names_faults(text, ts, at + 1, name, false, Seq::empty());
        lemma_names_advance(ts, at + 1, name, false, Seq::empty());
        if let Parsed::Done { value: dependencies, at: end } = parse_names(
            ts,
            at + 1,
            name,
            false,
            Seq::empty(),
        ) {
            assert(pointing(text)(ts[end as int]));
            if ts[end as int].class == TokenKind::Eol && end + 1 < ts.len() && ts[end as int
                + 1].class == TokenKind::Indent {
                lemma_phase_take(ts, end as int + 1);
                lemma_lines_faults(text, ts, end + 2, false, Seq::empty());
            }
        }
    }
}

/// What is wrong with the items of a text is a fault.
proof fn lemma_items_faults(text: Seq<char>, ts: Seq<TokenView>, pos: nat, done: Items)
    requires
        all_tokens(ts, pointing(text)),
        all_tokens(ts, not_comment()),
        phase_of(ts) is Some,
        ended(ts),
        pos < ts.len(),
        all_tokens(ts, genuine(text)),
        done.wf(),
        done.all(pointing(text)),
    ensures
        match parse_items(text, ts, pos, done) {
            Parsed::Done { value, at } => value.all(pointing(text)),
            Parsed::Fail { error, at } => is_later_fault(text, error),
            Parsed::Stuck => true,
        },
    decreases ts.len() - pos,
{
    let p = pointing(text);
    let token = ts[pos as int];
    assert(p(token));
    assert(not_comment()(token));
    if token.class == TokenKind::Eol {
        lemma_items_faults(text, ts, pos + 1, done);
    } else if token.class == TokenKind::Name {
        if ts[pos as int + 1].class == TokenKind::Equals {
            crate::parse::lemma_expression_ends(text, ts, pos + 2, false);
            lemma_expression_advances(ts, pos + 2, false);
            lemma_expression_faults(text, ts, pos + 2, false);
            lemma_expression_all(ts, pos + 2, false, p);
            if let Parsed::Done { value, at } = parse_expression(ts, pos + 2, false) {
                lemma_assigned_all(done, token, value, p);
                lemma_items_faults(text, ts, at, done.assigned(token, value));
            }
        } else {
            crate::parse::lemma_recipe_ends(text, ts, pos + 1, token.lexeme, token.line);
            lemma_recipe_advances(ts, pos + 1, token.lexeme, token.line);
            lemma_recipe_faults(text, ts, pos + 1, token.lexeme, token.line);
            lemma_recipe_all(ts, pos + 1, token.lexeme, token.line, p);
            if let Parsed::Done { value, at } = parse_recipe(
                ts,
                pos + 1,
                token.lexeme,
                token.line,
            ) {
                lemma_defined_all(done, token, value, p);
                lemma_items_faults(text, ts, at, done.defined(token, value));
            }
        }
    }
}

/// What is wrong with the dependencies of a recipe is a fault.
proof fn lemma_resolve_faults(
    text: Seq<char>,
    recipes: Seq<(Seq<char>, RecipeView)>,
    state: ResolverView,
    recipe: RecipeView,
    i: nat,
)
    requires
        forall|k: int| 0 <= k < recipes.len() ==> (#[trigger] recipes[k]).1.all(pointing(text)),
        recipe.all(pointing(text)),
    ensures
        resolve_from(recipes, state, recipe, i) matches Resolution::Fail { error, state } ==> is_later_fault(
            text,
            error,
        ),
    decreases unseen(recipes, state.seen), recipe.dependency_tokens.len() - i,
{
    if i < recipe.dependency_tokens.len() {
        let token = recipe.dependency_tokens[i as int];
        assert(pointing(text)(token));
        if is_key(recipes, token.lexeme) {
            let k = lemma_found(recipes, token.lexeme);
            let dependency = recipes[k].1;
            if state.resolved.contains(dependency.name) {
                lemma_resolve_faults(text, recipes, state, recipe, i + 1);
            } else if !state.seen.contains(dependency.name) {
                lemma_unseen(recipes, state.seen, state.seen.insert(dependency.name));
                lemma_resolve_faults(
                    text,
                    recipes,
                    state.entered(dependency.name),
                    dependency,
                    0,
                );
            }
        }
    }
}

/// What is wrong with dependencies is a fault.
proof fn lemma_resolve_all_faults(
    text: Seq<char>,
    recipes: Seq<(Seq<char>, RecipeView)>,
    state: ResolverView,
    i: nat,
)
    requires
        forall|k: int| 0 <= k < recipes.len() ==> (#[trigger] recipes[k]).1.all(pointing(text)),
    ensures
        resolve_all(recipes, state, i) matches Resolution::Fail { error, state } ==> is_later_fault(
            text,
            error,
        ),
    decreases recipes.len() - i,
{
    if i < recipes.len() {
        let recipe = recipes[i as int].1;
        let entered = state.entered(recipe.name);
        lemma_resolve_faults(text, recipes, entered, recipe, 0);
        if state.resolved.contains(recipe.name) {
            lemma_resolve_all_faults(text, recipes, state, i + 1);
        } else if let Resolution::Done { state: then_state } = resolve_from(
            recipes,
            entered,
            recipe,
            0,
        ) {
            lemma_resolve_all_faults(text, recipes, then_state, i + 1);
        }
    }
}

/// An argument that shadows a variable points into the text.
proof fn lemma_shadow_faults(
    text: Seq<char>,
    tokens: Seq<TokenView>,
    assignments: Seq<(Seq<char>, ExpressionView)>,
    i: nat,
)
    requires
        all_tokens(tokens, pointing(text)),
    ensures
        first_shadow(tokens, assignments, i) matches Some(token) ==> pointing(text)(token),
    decreases tokens.len() - i,
{
    if i < tokens.len() {
        lemma_shadow_faults(text, tokens, assignments, i + 1);
    }
}

/// What is wrong with the arguments and variables of recipes is a fault.
proof fn lemma_check_faults(
    text: Seq<char>,
    assignments: Seq<(Seq<char>, ExpressionView)>,
    recipes: Seq<(Seq<char>, RecipeView)>,
    i: nat,
)
    requires
        forall|k: int| 0 <= k < recipes.len() ==> (#[trigger] recipes[k]).1.all(pointing(text)),
    ensures
        check_recipes(text, assignments, recipes, i) matches Checked::Wrong { error } ==> is_later_fault(
            text,
            error,
        ),
    decreases recipes.len() - i,
{
    if i < recipes.len() {
        let recipe = recipes[i as int].1;
        let variables = lines_variables(recipe.lines, 0);
        lemma_shadow_faults(text, recipe.argument_tokens, assignments, 0);
        lemma_lines_variables_all(recipe.lines, 0, pointing(text));
        lemma_first_unknown_all(variables, assignments, recipe.arguments, pointing(text));
        lemma_check_faults(text, assignments, recipes, i + 1);
    }
}

/// Whether errors at the tokens of assignments point into `text`.
spec fn assignments_point(text: Seq<char>, assignments: Assignments) -> bool {
    &&& forall|i: int|
        0 <= i < assignments.expressions.len() ==> (#[trigger] assignments.expressions[i]).1.all(
            pointing(text),
        )
    &&& forall|i: int|
        0 <= i < assignments.tokens.len() ==> pointing(text)(
            (#[trigger] assignments.tokens[i]).1,
        )
}

/// Why an expression cannot be evaluated is a fault.
proof fn lemma_expression_value_faults(
    text: Seq<char>,
    assignments: Assignments,
    state: EvaluatorView,
    expression: ExpressionView,
)
    requires
        assignments_point(text, assignments),
        expression.all(pointing(text)),
    ensures
        evaluate_expression(assignments, state, expression) matches Evaluated::Fail {
            error,
            state,
        } ==> is_later_fault(text, error),
    decreases outside(assignments.expressions, state.seen), 0int, expression.size(),
{
    match expression {
        ExpressionView::String { contents } => {},
        ExpressionView::Variable { name, token } => {
            if !is_key(state.evaluated, name) {
                if state.seen.contains(name) {
                    if is_key(assignments.tokens, name) {
                        let k = choose|k: int|
                            0 <= k < assignments.tokens.len() && (
                            #[trigger] assignments.tokens[k]).0 == name;
                        assert(pointing(text)(assignments.tokens[k].1));
                    }
                } else if is_key(assignments.expressions, name) {
                    lemma_outside(assignments.expressions, state.seen, state.seen.insert(name));
                    lemma_assignment_faults(text, assignments, state, name);
                }
            }
        },
        ExpressionView::Concatination { lhs, rhs } => {
            lemma_expression_value_faults(text, assignments, state, *lhs);
            lemma_expression_keeps(assignments, state, *lhs);
            if let Evaluated::Done { value, state: then_state } = evaluate_expression(
                assignments,
                state,
                *lhs,
            ) {
                lemma_outside(assignments.expressions, state.seen, then_state.seen);
                lemma_expression_value_faults(text, assignments, then_state, *rhs);
            }
        },
    }
}

/// Why an assignment cannot be evaluated is a fault.
proof fn lemma_assignment_faults(
    text: Seq<char>,
    assignments: Assignments,
    state: EvaluatorView,
    name: Seq<char>,
)
    requires
        assignments_point(text, assignments),
    ensures
        evaluate_assignment(assignments, state, name) matches Evaluated::Fail { error, state }
            ==> is_later_fault(text, error),
    decreases outside(assignments.expressions, state.seen.insert(name)), 1int, 0nat,
{
    if is_key(assignments.expressions, name) {
        let k = choose|k: int|
            0 <= k < assignments.expressions.len() && (#[trigger] assignments.expressions[k]).0
                == name;
        assert(assignments.expressions[k].1.all(pointing(text)));
        let expression = lookup(assignments.expressions, name)->0;
        lemma_expression_value_faults(text, assignments, state.entered(name), expression);
    } else if is_key(assignments.tokens, name) {
        let k = choose|k: int|
            0 <= k < assignments.tokens.len() && (#[trigger] assignments.tokens[k]).0 == name;
        assert(pointing(text)(assignments.tokens[k].1));
    }
}

/// Why assignments cannot be evaluated is a fault.
proof fn lemma_assignments_faults(
    text: Seq<char>,
    assignments: Assignments,
    state: EvaluatorView,
    i: nat,
)
    requires
        assignments_point(text, assignments),
    ensures
        evaluate_assignments(assignments, state, i) matches Evaluated::Fail { error, state }
            ==> is_later_fault(text, error),
    decreases assignments.expressions.len() - i,
{
    if i < assignments.expressions.len() {
        let name = assignments.expressions[i as int].0;
        lemma_assignment_faults(text, assignments, state, name);
        if let Evaluated::Done { value, state: then_state } = evaluate_assignment(
            assignments,
            state,
            name,
        ) {
            lemma_assignments_faults(text, assignments, then_state, i + 1);
        }
    }
}

/// Why a line cannot be evaluated is a fault.
proof fn lemma_line_faults(
    text: Seq<char>,
    assignments: Assignments,
    state: EvaluatorView,
    line: Seq<FragmentView>,
    i: nat,
    done: Seq<char>,
)
    requires
        assignments_point(text, assignments),
        line_all(line, pointing(text)),
    ensures
        evaluate_line(assignments, state, line, i, done) matches Evaluated::Fail { error, state }
            ==> is_later_fault(text, error),
    decreases line.len() - i,
{
    if i < line.len() {
        match line[i as int] {
            FragmentView::Text { text: token } => {
                lemma_line_faults(text, assignments, state, line, i + 1, done + token.lexeme);
            },
            FragmentView::Expression { expression } => {
                lemma_expression_value_faults(text, assignments, state, expression);
                if let Evaluated::Done { value, state: then_state } = evaluate_expression(
                    assignments,
                    state,
                    expression,
                ) {
                    lemma_line_faults(text, assignments, then_state, line, i + 1, done + value);
                }
            },
        }
    }
}

/// Why the lines of recipes cannot be evaluated is a fault.
proof fn lemma_recipes_faults(
    text: Seq<char>,
    assignments: Assignments,
    state: EvaluatorView,
    recipes: Seq<(Seq<char>, RecipeView)>,
    i: nat,
    j: nat,
)
    requires
        assignments_point(text, assignments),
        forall|k: int|
            0 <= k < recipes.len() ==> lines_all((#[trigger] recipes[k]).1.lines, pointing(text)),
    ensures
        evaluate_recipes(assignments, state, recipes, i, j) matches Filled::Fail {
            recipes,
            error,
        } ==> is_later_fault(text, error),
    decreases recipes.len() - i, recipes[i as int].1.lines.len() - j,
{
    if i < recipes.len() {
        if j >= recipes[i as int].1.lines.len() {
            lemma_recipes_faults(text, assignments, state, recipes, i + 1, 0);
        } else {
            let line = recipes[i as int].1.lines[j as int];
            lemma_line_faults(text, assignments, state, line, 0, Seq::empty());
            if let Evaluated::Done { value, state: then_state } = evaluate_line(
                assignments,
                state,
                line,
                0,
                Seq::empty(),
            ) {
                let more = with_line(recipes, i as int, value);
                lemma_recipes_faults(text, assignments, then_state, more, i, j + 1);
            }
        }
    }
}

/// What is wrong with items that are parsed is a fault.
proof fn lemma_finish_faults(text: Seq<char>, items: Items)
    requires
        items.all(pointing(text)),
    ensures
        finish(text, items) matches ParsedFile::Fail { error } ==> is_later_fault(text, error),
{
    let variables = items.variables();
    lemma_resolve_all_faults(text, items.recipes, ResolverView::initial(), 0);
    lemma_check_faults(text, items.assignments, items.recipes, 0);
    lemma_assignments_faults(text, variables, EvaluatorView::initial(), 0);
    if let Evaluated::Done { value, state } = evaluate_assignments(
        variables,
        EvaluatorView::initial(),
        0,
    ) {
        lemma_recipes_faults(text, variables, state, items.recipes, 0, 0);
    }
}

/// A bad name points into the text.
proof fn lemma_bad_name_faults(text: Seq<char>, ts: Seq<TokenView>, i: nat)
    requires
        all_tokens(ts, pointing(text)),
    ensures
        first_bad_name(ts, i) matches Some(token) ==> pointing(text)(token),
    decreases ts.len() - i,
{
    if i < ts.len() {
        lemma_bad_name_faults(text, ts, i + 1);
    }
}

/// What is kept of tokens is not a comment.
proof fn lemma_no_comments(tokens: Seq<TokenView>)
    ensures
        all_tokens(tokens.filter(not_comment()), not_comment()),
    decreases tokens.len(),
{
    reveal(Seq::filter);
    if tokens.len() > 0 {
        lemma_no_comments(tokens.drop_last());
    }
}

/// Whether a token is a name, but not a good one.
pub open spec fn is_bad_name(token: TokenView) -> bool {
    token.class == TokenKind::Name && !is_good_name(token.lexeme)
}

/// Whether the token at `i` is the first bad name.
pub open spec fn is_first_bad_name(tokens: Seq<TokenView>, i: int) -> bool {
    &&& 0 <= i < tokens.len()
    &&& is_bad_name(tokens[i])
    &&& forall|j: int| 0 <= j < i ==> !is_bad_name(#[trigger] tokens[j])
}

/// A search finds the first bad name.
proof fn lemma_search(ts: Seq<TokenView>, from: nat)
    ensures
        match first_bad_name(ts, from) {
            Some(token) => exists|i: int|
                from <= i < ts.len() && (#[trigger] ts[i]) == token && is_bad_name(token) && forall|
                    j: int,
                | from <= j < i ==> !is_bad_name(#[trigger] ts[j]),
            None => forall|j: int| from <= j < ts.len() ==> !is_bad_name(#[trigger] ts[j]),
        },
    decreases ts.len() - from,
{
    if from < ts.len() {
        if is_bad_name(ts[from as int]) {
            assert(ts[from as int] == ts[from as int]);
        } else {
            lemma_search(ts, from + 1);
            if let Some(token) = first_bad_name(ts, from + 1) {
                let i = choose|i: int|
                    from + 1 <= i < ts.len() && (#[trigger] ts[i]) == token && is_bad_name(token)
                        && forall|j: int| from + 1 <= j < i ==> !is_bad_name(#[trigger] ts[j]);
                assert(ts[i] == token);
                assert forall|j: int| from <= j < i implies !is_bad_name(#[trigger] ts[j]) by {}
            }
        }
    }
}

/// The first bad name is found whether comments are left out or not.
proof fn lemma_search_filtered(tokens: Seq<TokenView>)
    ensures
        first_bad_name(tokens.filter(not_comment()), 0) == first_bad_name(tokens, 0),
    decreases tokens.len(),
{
    reveal(Seq::filter);
    if tokens.len() > 0 {
        let fewer = tokens.drop_last();
        let kept = fewer.filter(not_comment());
        lemma_search_filtered(fewer);
        lemma_search_push(fewer, tokens.last(), 0);
        lemma_search_push(kept, tokens.last(), 0);
        assert(fewer.push(tokens.last()) =~= tokens);
    }
}

/// One more token is the first bad name only if there was none before.
proof fn lemma_search_push(ts: Seq<TokenView>, token: TokenView, from: nat)
    requires
        from <= ts.len(),
    ensures
        first_bad_name(ts.push(token), from) == match first_bad_name(ts, from) {
            Some(found) => Some(found),
            None => if is_bad_name(token) {
                Some(token)
            } else {
                None
            },
        },
    decreases ts.len() - from,
{
    if from < ts.len() {
        lemma_search_push(ts, token, from + 1);
        assert(ts.push(token)[from as int] == ts[from as int]);
    } else {
        assert(first_bad_name(ts.push(token), from + 1) is None);
    }
}

/// Of a text that is cut into tokens, a bad name is reported if and only if one of the tokens is
/// one. It is then the first, whatever else is wrong with the text.
pub proof fn law_bad_names_are_reported(text: Seq<char>, tokens: Seq<TokenView>)
    requires
        lex_spec(text) == LexedView::Tokens(tokens),
    ensures
        (parse_text(text) matches ParsedFile::Fail { error } && error.kind is BadName) == (exists|
            i: int,
        |
            0 <= i < tokens.len() && is_bad_name(#[trigger] tokens[i])),
        forall|i: int| #[trigger]
            is_first_bad_name(tokens, i) ==> parse_text(text) == (ParsedFile::Fail {
                error: tokens[i].error(ErrorKindView::BadName { name: tokens[i].lexeme }),
            }),
{
    let ts = tokens.filter(not_comment());
    lemma_search(tokens, 0);
    lemma_search_filtered(tokens);
    match first_bad_name(tokens, 0) {
        Some(token) => {
            let k = choose|k: int|
                0 <= k < tokens.len() && (#[trigger] tokens[k]) == token && is_bad_name(token)
                    && forall|j: int| 0 <= j < k ==> !is_bad_name(#[trigger] tokens[j]);
            assert(is_bad_name(tokens[k]));
            assert forall|i: int| #[trigger] is_first_bad_name(tokens, i) implies tokens[i]
                == token by {
                if i < k {
                    assert(!is_bad_name(tokens[i]));
                } else if k < i {
                    assert(!is_bad_name(tokens[k]));
                }
            }
        },
        None => {
            lemma_tokens_fault(text, tokens);
            assert forall|i: int| !#[trigger] is_first_bad_name(tokens, i) by {
                if 0 <= i < tokens.len() {
                    assert(!is_bad_name(tokens[i]));
                }
            }
        },
    }
}

/// What is wrong with tokens of which all names are good is a later fault.
proof fn lemma_tokens_fault(text: Seq<char>, tokens: Seq<TokenView>)
    requires
        lex_spec(text) == LexedView::Tokens(tokens),
    ensures
        parse_file(text, tokens.filter(not_comment()), 0) matches ParsedFile::Fail { error }
            ==> is_later_fault(text, error),
{
    let ts = tokens.filter(not_comment());
    law_tokens_point_into_the_text(text, tokens);
    law_tokens_come_in_order(text, tokens);
    lemma_tokens_genuine(text, tokens);
    lemma_filter_all(tokens, not_comment(), pointing(text));
    lemma_filter_all(tokens, not_comment(), genuine(text));
    lemma_filter_ends(text, tokens);
    lemma_phase_filter(tokens);
    lemma_no_comments(tokens);
    lemma_items_faults(text, ts, 0, Items::none());
    lemma_items_end(text, ts, 0, Items::none());
    if let Parsed::Done { value: items, at } = parse_items(text, ts, 0, Items::none()) {
        lemma_finish_faults(text, items);
    }
}

/// An error in a text points into the text: at something in it, on a line that it has, or at its
/// end. And it is the text that is at fault: no error is an internal one.
pub proof fn law_errors_are_faults_of_the_text(text: Seq<char>, error: ErrorView)
    requires
        parse_text(text) == (ParsedFile::Fail { error }),
    ensures
        is_fault(text, error),
{
    match lex_spec(text) {
        LexedView::Fail(lexical) => {
            law_lexer_errors_point_into_the_text(text, lexical);
            law_lexer_has_no_internal_errors(text, lexical);
        },
        LexedView::Tokens(tokens) => {
            let ts = tokens.filter(not_comment());
            law_tokens_point_into_the_text(text, tokens);
            lemma_filter_all(tokens, not_comment(), pointing(text));
            lemma_bad_name_faults(text, ts, 0);
            lemma_tokens_fault(text, tokens);
        },
        LexedView::Unclosed => {},
    }
}

} // verus!
