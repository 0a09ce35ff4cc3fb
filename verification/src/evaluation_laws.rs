//! What comes of evaluating expressions, assignments and lines, case by case, and where what is
//! reported stands.

use vstd::prelude::*;

use crate::error::{ErrorKindView, ErrorView};
use crate::evaluator::{evaluate_all, evaluate_assignment, evaluate_assignments};
use crate::evaluator::{evaluate_expression, evaluate_line, evaluate_recipes};
use crate::evaluator::{lemma_expression_keeps, with_line, Assignments, Evaluated, EvaluatorView};
use crate::evaluator::Filled;
use crate::expression::ExpressionView;
use crate::recipe::{FragmentView, RecipeView};
use crate::table::{is_key, is_sorted, law_lookup_after_insert, lemma_found, lemma_lookup};
use crate::table::{lemma_outside, lookup, outside};
use crate::token::TokenView;

verus! {

/// What a variable comes to. One that has a value is that value. One without, whose evaluation has
/// started, is circular, which is reported at its assignment with all variables from the first on. One
/// that is not assigned is unknown, which is reported where it stands. Any other is what its
/// assignment comes to, with the variable known to be on the way, and has a value afterwards.
pub proof fn law_variables_are_evaluated(
    assignments: Assignments,
    state: EvaluatorView,
    name: Seq<char>,
    token: TokenView,
    other: Seq<char>,
)
    requires
        is_sorted(state.evaluated),
    ensures
        ({
            let result = evaluate_expression(
                assignments,
                state,
                ExpressionView::Variable { name, token },
            );
            let has = lookup(state.evaluated, name);
            let seen = state.seen.contains(name);
            let assigned = lookup(assignments.expressions, name);
            let on_the_way = EvaluatorView {
                stack: state.stack.push(name),
                seen: state.seen.insert(name),
                evaluated: state.evaluated,
            };
            let inner = evaluate_expression(assignments, on_the_way, assigned->0);
            &&& has is Some ==> result == (Evaluated::Done { value: has->0, state })
            &&& has is None && seen && lookup(assignments.tokens, name) is Some ==> {
                &&& result is Fail
                &&& result->error == lookup(assignments.tokens, name)->0.error(
                    ErrorKindView::CircularVariableDependency {
                        variable: name,
                        circle: state.stack.push(name),
                    },
                )
            }
            &&& has is None && !seen && assigned is None ==> {
                &&& result is Fail
                &&& result->error == token.error(ErrorKindView::UnknownVariable { variable: name })
            }
            &&& has is None && !seen && assigned is Some && inner is Fail ==> result == inner
            &&& has is None && !seen && assigned is Some && inner is Done ==> {
                &&& result is Done
                &&& result->value == inner->value
                &&& result->Done_state.stack == state.stack
                &&& result->Done_state.seen == inner->Done_state.seen
                &&& lookup(result->Done_state.evaluated, name) == Some(inner->value)
                &&& other != name ==> lookup(result->Done_state.evaluated, other) == lookup(
                    inner->Done_state.evaluated,
                    other,
                )
            }
        }),
{
    if !is_key(state.evaluated, name) && !state.seen.contains(name) && is_key(
        assignments.expressions,
        name,
    ) {
        let expression = lookup(assignments.expressions, name)->0;
        let on_the_way = state.entered(name);
        lemma_expression_keeps(assignments, on_the_way, expression);
        let inner = evaluate_expression(assignments, on_the_way, expression);
        let step = evaluate_assignment(assignments, state, name);
        assert(inner is Fail ==> step is Fail && step->error == inner->error && step->Fail_state
            == inner->Fail_state);
        assert(inner is Done ==> step == (Evaluated::Done {
            value: (),
            state: inner->Done_state.left(name, inner->value),
        }));
        if let Evaluated::Done { value, state: then_state } = evaluate_expression(
            assignments,
            on_the_way,
            expression,
        ) {
            law_lookup_after_insert(then_state.evaluated, name, value, name);
            law_lookup_after_insert(then_state.evaluated, name, value, other);
            assert(then_state.left(name, value).stack =~= state.stack);
        }
    }
}

/// A string comes to what is between its quotes. A concatenation comes to what its left side comes to
/// and after it what its right side comes to then, and fails as the first of them that fails.
pub proof fn law_concatenations_are_evaluated(
    assignments: Assignments,
    state: EvaluatorView,
    contents: Seq<char>,
    lhs: ExpressionView,
    rhs: ExpressionView,
)
    ensures
        ({
            let both = ExpressionView::Concatination { lhs: Box::new(lhs), rhs: Box::new(rhs) };
            let result = evaluate_expression(assignments, state, both);
            let left = evaluate_expression(assignments, state, lhs);
            let right = evaluate_expression(assignments, left->Done_state, rhs);
            &&& evaluate_expression(assignments, state, ExpressionView::String { contents }) == (
            Evaluated::Done { value: contents, state })
            &&& left is Fail ==> result == left
            &&& left is Done && right is Fail ==> result == right
            &&& left is Done && right is Done ==> result == (Evaluated::Done {
                value: left->value + right->value,
                state: right->Done_state,
            })
        }),
{
    lemma_expression_keeps(assignments, state, lhs);
    if let Evaluated::Done { value, state: then_state } = evaluate_expression(
        assignments,
        state,
        lhs,
    ) {
        lemma_outside(assignments.expressions, state.seen, then_state.seen);
    }
}

/// Assignments are evaluated in their order, as variables are, and what is evaluated already is not
/// evaluated again. The first that fails decides.
pub proof fn law_assignments_are_evaluated_in_turn(
    assignments: Assignments,
    state: EvaluatorView,
    i: nat,
    token: TokenView,
)
    requires
        i < assignments.expressions.len(),
        lookup(assignments.expressions, assignments.expressions[i as int].0) is Some,
    ensures
        ({
            let name = assignments.expressions[i as int].0;
            let rest = |s: EvaluatorView| evaluate_assignments(assignments, s, i + 1);
            let result = evaluate_assignments(assignments, state, i);
            let one = evaluate_expression(
                assignments,
                state,
                ExpressionView::Variable { name, token },
            );
            &&& lookup(state.evaluated, name) is Some ==> result == rest(state)
            &&& !state.seen.contains(name) && one is Done ==> result == rest(one->Done_state)
            &&& !state.seen.contains(name) && one is Fail ==> {
                &&& result is Fail
                &&& result->error == one->error
            }
        }),
{
}

/// The pieces of a line are evaluated in their order: a text comes to itself, and an expression to its
/// value. The first that fails decides.
pub proof fn law_lines_are_evaluated_in_turn(
    assignments: Assignments,
    state: EvaluatorView,
    line: Seq<FragmentView>,
    i: nat,
    done: Seq<char>,
)
    ensures
        ({
            let result = evaluate_line(assignments, state, line, i, done);
            let piece = line[i as int];
            let value = evaluate_expression(assignments, state, piece->expression);
            &&& i >= line.len() ==> result == (Evaluated::Done { value: done, state })
            &&& i < line.len() && piece is Text ==> result == evaluate_line(
                assignments,
                state,
                line,
                i + 1,
                done + piece->text.lexeme,
            )
            &&& i < line.len() && piece is Expression && value is Done ==> result == evaluate_line(
                assignments,
                value->Done_state,
                line,
                i + 1,
                done + value->value,
            )
            &&& i < line.len() && piece is Expression && value is Fail ==> {
                &&& result is Fail
                &&& result->error == value->error
            }
        }),
{
}

/// Whether the variable of `token` stands in `expression`.
pub open spec fn stands_in(expression: ExpressionView, name: Seq<char>, token: TokenView) -> bool
    decreases expression,
{
    match expression {
        ExpressionView::Variable { name: n, token: t } => n == name && t == token,
        ExpressionView::String { contents } => false,
        ExpressionView::Concatination { lhs, rhs } => stands_in(*lhs, name, token) || stands_in(
            *rhs,
            name,
            token,
        ),
    }
}

/// Whether the variable of `token` stands in an assignment.
pub open spec fn stands_in_assignment(
    expressions: Seq<(Seq<char>, ExpressionView)>,
    name: Seq<char>,
    token: TokenView,
) -> bool {
    exists|i: int| 0 <= i < expressions.len() && stands_in(#[trigger] expressions[i].1, name, token)
}

/// Whether the variable of `token` stands in a line.
pub open spec fn stands_in_line(line: Seq<FragmentView>, name: Seq<char>, token: TokenView) -> bool {
    exists|i: int|
        0 <= i < line.len() && #[trigger] line[i] is Expression && stands_in(
            line[i]->expression,
            name,
            token,
        )
}

/// Whether the variable of `token` stands in a line of a recipe.
pub open spec fn stands_in_recipe(
    recipes: Seq<(Seq<char>, RecipeView)>,
    name: Seq<char>,
    token: TokenView,
) -> bool {
    exists|i: int, j: int|
        0 <= i < recipes.len() && 0 <= j < recipes[i].1.lines.len() && stands_in_line(
            #[trigger] recipes[i].1.lines[j],
            name,
            token,
        )
}

/// Whether `error` is where it belongs: an unknown variable where it stands, which is in an assignment
/// or where `stands` says, and a circular one at the name that its assignment begins with.
pub open spec fn is_at_its_place(
    assignments: Assignments,
    error: ErrorView,
    stands: spec_fn(Seq<char>, TokenView) -> bool,
) -> bool {
    match error.kind {
        ErrorKindView::UnknownVariable { variable } => exists|token: TokenView|
            (stands(variable, token) || stands_in_assignment(
                assignments.expressions,
                variable,
                token,
            )) && error == #[trigger] token.error(error.kind),
        ErrorKindView::CircularVariableDependency { variable, circle } => {
            &&& lookup(assignments.tokens, variable) is Some
            &&& error == lookup(assignments.tokens, variable)->0.error(error.kind)
        },
        _ => false,
    }
}

/// An error that is at its place is at its place wherever more stands.
proof fn lemma_wider(
    assignments: Assignments,
    error: ErrorView,
    some: spec_fn(Seq<char>, TokenView) -> bool,
    more: spec_fn(Seq<char>, TokenView) -> bool,
)
    requires
        is_at_its_place(assignments, error, some),
        forall|name: Seq<char>, token: TokenView|
            #[trigger] some(name, token) ==> more(name, token) || stands_in_assignment(
                assignments.expressions,
                name,
                token,
            ),
    ensures
        is_at_its_place(assignments, error, more),
{
    if let ErrorKindView::UnknownVariable { variable } = error.kind {
        let token = choose|token: TokenView|
            (some(variable, token) || stands_in_assignment(
                assignments.expressions,
                variable,
                token,
            )) && error == #[trigger] token.error(error.kind);
        assert(error == token.error(error.kind));
    }
}

/// What is reported of an expression is at its place.
proof fn lemma_place_in_expression(
    assignments: Assignments,
    state: EvaluatorView,
    expression: ExpressionView,
)
    ensures
        evaluate_expression(assignments, state, expression) matches Evaluated::Fail {
            error,
            state: then_state,
        } ==> is_at_its_place(
            assignments,
            error,
            |name: Seq<char>, token: TokenView| stands_in(expression, name, token),
        ),
    decreases outside(assignments.expressions, state.seen), expression.size(),
{
    let here = |name: Seq<char>, token: TokenView| stands_in(expression, name, token);
    match expression {
        ExpressionView::String { contents } => {},
        ExpressionView::Variable { name, token } => {
            if is_key(state.evaluated, name) {
            } else if state.seen.contains(name) {
            } else if !is_key(assignments.expressions, name) {
                let kind = ErrorKindView::UnknownVariable { variable: name };
                assert(here(name, token));
                assert(token.error(kind).kind == kind);
            } else {
                let inside = lookup(assignments.expressions, name)->0;
                let i = lemma_found(assignments.expressions, name);
                lemma_outside(assignments.expressions, state.seen, state.seen.insert(name));
                lemma_place_in_expression(assignments, state.entered(name), inside);
                let inner = evaluate_expression(assignments, state.entered(name), inside);
                let step = evaluate_assignment(assignments, state, name);
                assert(step is Fail ==> inner is Fail && step->error == inner->error);
                if let Evaluated::Fail { error, state: then_state } = evaluate_expression(
                    assignments,
                    state.entered(name),
                    inside,
                ) {
                    let there = |name: Seq<char>, token: TokenView| stands_in(inside, name, token);
                    assert forall|n: Seq<char>, t: TokenView| #[trigger]
                        there(n, t) implies here(n, t) || stands_in_assignment(
                        assignments.expressions,
                        n,
                        t,
                    ) by {
                        assert(stands_in(assignments.expressions[i].1, n, t));
                    }
                    lemma_wider(assignments, error, there, here);
                }
            }
        },
        ExpressionView::Concatination { lhs, rhs } => {
            lemma_place_in_expression(assignments, state, *lhs);
            let left = |name: Seq<char>, token: TokenView| stands_in(*lhs, name, token);
            let right = |name: Seq<char>, token: TokenView| stands_in(*rhs, name, token);
            match evaluate_expression(assignments, state, *lhs) {
                Evaluated::Done { value, state: then_state } => {
                    lemma_expression_keeps(assignments, state, *lhs);
                    lemma_outside(assignments.expressions, state.seen, then_state.seen);
                    lemma_place_in_expression(assignments, then_state, *rhs);
                    if let Evaluated::Fail { error, state: end } = evaluate_expression(
                        assignments,
                        then_state,
                        *rhs,
                    ) {
                        lemma_wider(assignments, error, right, here);
                    }
                },
                Evaluated::Fail { error, state: end } => {
                    lemma_wider(assignments, error, left, here);
                },
                Evaluated::Stuck => {},
            }
        },
    }
}

/// What is reported of assignments is at its place.
proof fn lemma_place_in_assignments(assignments: Assignments, state: EvaluatorView, i: nat)
    requires
        is_sorted(assignments.expressions),
    ensures
        evaluate_assignments(assignments, state, i) matches Evaluated::Fail {
            error,
            state: then_state,
        } ==> is_at_its_place(assignments, error, |name: Seq<char>, token: TokenView| false),
    decreases assignments.expressions.len() - i,
{
    if i < assignments.expressions.len() {
        let name = assignments.expressions[i as int].0;
        let inside = assignments.expressions[i as int].1;
        lemma_lookup(assignments.expressions, i as int);
        match evaluate_assignment(assignments, state, name) {
            Evaluated::Done { value, state: then_state } => {
                lemma_place_in_assignments(assignments, then_state, i + 1);
            },
            Evaluated::Fail { error, state: then_state } => {
                lemma_place_in_expression(assignments, state.entered(name), inside);
                let there = |name: Seq<char>, token: TokenView| stands_in(inside, name, token);
                let nowhere = |name: Seq<char>, token: TokenView| false;
                assert forall|n: Seq<char>, t: TokenView| #[trigger]
                    there(n, t) implies nowhere(n, t) || stands_in_assignment(
                    assignments.expressions,
                    n,
                    t,
                ) by {
                    assert(stands_in(assignments.expressions[i as int].1, n, t));
                }
                lemma_wider(assignments, error, there, nowhere);
            },
            Evaluated::Stuck => {},
        }
    }
}

/// What is reported of a line is at its place.
proof fn lemma_place_in_line(
    assignments: Assignments,
    state: EvaluatorView,
    line: Seq<FragmentView>,
    i: nat,
    done: Seq<char>,
)
    ensures
        evaluate_line(assignments, state, line, i, done) matches Evaluated::Fail {
            error,
            state: then_state,
        } ==> is_at_its_place(
            assignments,
            error,
            |name: Seq<char>, token: TokenView| stands_in_line(line, name, token),
        ),
    decreases line.len() - i,
{
    if i < line.len() {
        match line[i as int] {
            FragmentView::Text { text } => {
                lemma_place_in_line(assignments, state, line, i + 1, done + text.lexeme);
            },
            FragmentView::Expression { expression } => {
                lemma_place_in_expression(assignments, state, expression);
                match evaluate_expression(assignments, state, expression) {
                    Evaluated::Done { value, state: then_state } => {
                        lemma_place_in_line(assignments, then_state, line, i + 1, done + value);
                    },
                    Evaluated::Fail { error, state: then_state } => {
                        let there = |n: Seq<char>, t: TokenView| stands_in(expression, n, t);
                        let here = |n: Seq<char>, t: TokenView| stands_in_line(line, n, t);
                        assert forall|n: Seq<char>, t: TokenView| #[trigger]
                            there(n, t) implies here(n, t) by {
                            assert(line[i as int] is Expression);
                        }
                        lemma_wider(assignments, error, there, here);
                    },
                    Evaluated::Stuck => {},
                }
            },
        }
    }
}

/// What is reported of the lines of recipes is at its place.
proof fn lemma_place_in_recipes(
    assignments: Assignments,
    state: EvaluatorView,
    recipes: Seq<(Seq<char>, RecipeView)>,
    i: nat,
    j: nat,
)
    ensures
        evaluate_recipes(assignments, state, recipes, i, j) matches Filled::Fail {
            recipes: filled,
            error,
        } ==> is_at_its_place(
            assignments,
            error,
            |name: Seq<char>, token: TokenView| stands_in_recipe(recipes, name, token),
        ),
    decreases recipes.len() - i, recipes[i as int].1.lines.len() - j,
{
    let here = |n: Seq<char>, t: TokenView| stands_in_recipe(recipes, n, t);
    if i < recipes.len() {
        if j >= recipes[i as int].1.lines.len() {
            lemma_place_in_recipes(assignments, state, recipes, i + 1, 0);
        } else {
            let line = recipes[i as int].1.lines[j as int];
            lemma_place_in_line(assignments, state, line, 0, Seq::empty());
            match evaluate_line(assignments, state, line, 0, Seq::empty()) {
                Evaluated::Done { value, state: then_state } => {
                    let more = with_line(recipes, i as int, value);
                    lemma_place_in_recipes(assignments, then_state, more, i, j + 1);
                    let there = |n: Seq<char>, t: TokenView| stands_in_recipe(more, n, t);
                    assert forall|n: Seq<char>, t: TokenView| #[trigger]
                        there(n, t) implies here(n, t) by {
                        let (k, l) = choose|k: int, l: int|
                            0 <= k < more.len() && 0 <= l < more[k].1.lines.len()
                                && stands_in_line(#[trigger] more[k].1.lines[l], n, t);
                        assert(stands_in_line(recipes[k].1.lines[l], n, t));
                    }
                    if let Filled::Fail { recipes: filled, error } = evaluate_recipes(
                        assignments,
                        then_state,
                        more,
                        i,
                        j + 1,
                    ) {
                        lemma_wider(assignments, error, there, here);
                    }
                },
                Evaluated::Fail { error, state: then_state } => {
                    let there = |n: Seq<char>, t: TokenView| stands_in_line(line, n, t);
                    assert forall|n: Seq<char>, t: TokenView| #[trigger]
                        there(n, t) implies here(n, t) by {
                        assert(stands_in_line(recipes[i as int].1.lines[j as int], n, t));
                    }
                    lemma_wider(assignments, error, there, here);
                },
                Evaluated::Stuck => {},
            }
        }
    }
}

/// What is reported of assignments and lines is where it belongs: an unknown variable where it stands,
/// and a circular one at its assignment.
pub proof fn law_faults_of_evaluation_are_at_their_places(
    assignments: Assignments,
    recipes: Seq<(Seq<char>, RecipeView)>,
    filled: Seq<(Seq<char>, RecipeView)>,
    error: ErrorView,
)
    requires
        is_sorted(assignments.expressions),
        evaluate_all(assignments, recipes) == (Filled::Fail { recipes: filled, error }),
    ensures
        is_at_its_place(
            assignments,
            error,
            |name: Seq<char>, token: TokenView| stands_in_recipe(recipes, name, token),
        ),
{
    let here = |n: Seq<char>, t: TokenView| stands_in_recipe(recipes, n, t);
    let start = EvaluatorView::initial();
    lemma_place_in_assignments(assignments, start, 0);
    match evaluate_assignments(assignments, start, 0) {
        Evaluated::Done { value, state } => {
            lemma_place_in_recipes(assignments, state, recipes, 0, 0);
        },
        Evaluated::Fail { error: first, state } => {
            let nowhere = |n: Seq<char>, t: TokenView| false;
            lemma_wider(assignments, first, nowhere, here);
        },
        Evaluated::Stuck => {},
    }
}

/// Assignments come before lines: where an assignment fails, that is what is reported, and no line
/// has been evaluated.
pub proof fn law_assignments_come_before_lines(
    assignments: Assignments,
    recipes: Seq<(Seq<char>, RecipeView)>,
)
    ensures
        ({
            let first = evaluate_assignments(assignments, EvaluatorView::initial(), 0);
            let all = evaluate_all(assignments, recipes);
            &&& first is Fail ==> all == (Filled::Fail { recipes, error: first->error })
            &&& all is Done ==> first is Done
        }),
{
}

/// The lines of recipes are evaluated in their order, recipe by recipe. Each adds what it comes to,
/// at the end of what its recipe has, to no other recipe. The first that fails decides.
pub proof fn law_recipes_are_evaluated_in_turn(
    assignments: Assignments,
    state: EvaluatorView,
    recipes: Seq<(Seq<char>, RecipeView)>,
    i: nat,
    j: nat,
    more: Seq<(Seq<char>, RecipeView)>,
)
    ensures
        ({
            let result = evaluate_recipes(assignments, state, recipes, i, j);
            let lines = recipes[i as int].1.lines;
            let line = evaluate_line(assignments, state, lines[j as int], 0, Seq::empty());
            let next = j + 1;
            &&& i >= recipes.len() ==> result == (Filled::Done { recipes, state })
            &&& i < recipes.len() && j >= lines.len() ==> result == evaluate_recipes(
                assignments,
                state,
                recipes,
                i + 1,
                0,
            )
            &&& i < recipes.len() && j < lines.len() && line is Fail ==> result == (Filled::Fail {
                recipes,
                error: line->error,
            })
            &&& i < recipes.len() && j < lines.len() && line is Done && more.len() == recipes.len()
                && (forall|k: int|
                0 <= k < recipes.len() && k != i ==> #[trigger] more[k] == recipes[k])
                && more[i as int].0 == recipes[i as int].0 && more[i as int].1 == (RecipeView {
                evaluated_lines: recipes[i as int].1.evaluated_lines.push(line->value),
                ..recipes[i as int].1
            }) ==> result == evaluate_recipes(assignments, line->Done_state, more, i, next)
        }),
{
    let lines = recipes[i as int].1.lines;
    let line = evaluate_line(assignments, state, lines[j as int], 0, Seq::empty());
    if i < recipes.len() && j < lines.len() && line is Done && more.len() == recipes.len() && (
    forall|k: int| 0 <= k < recipes.len() && k != i ==> #[trigger] more[k] == recipes[k])
        && more[i as int].0 == recipes[i as int].0 && more[i as int].1 == (RecipeView {
        evaluated_lines: recipes[i as int].1.evaluated_lines.push(line->value),
        ..recipes[i as int].1
    }) {
        let added = with_line(recipes, i as int, line->value);
        assert forall|k: int| 0 <= k < more.len() implies more[k] == added[k] by {
            if k != i {
                assert(more[k] == recipes[k]);
            }
        }
        assert(more =~= added);
    }
}

} // verus!
