//! What holds of the values of variables.

use vstd::prelude::*;

use crate::error::{ErrorKindView, ErrorView};
use crate::evaluator::{evaluate_all, evaluate_assignment, evaluate_assignments};
use crate::evaluator::{evaluate_expression, evaluate_line, evaluate_recipes};
use crate::evaluator::{lemma_expression_keeps, with_line, Assignments, Evaluated, EvaluatorView};
use crate::evaluator::Filled;
use crate::expression::ExpressionView;
use crate::graph::{is_circle, is_path, lemma_circle, lemma_first_step, lemma_no_circle};
use crate::graph::{lemma_path_push, settled};
use crate::recipe::{FragmentView, RecipeView};
use crate::table::{is_key, is_sorted, law_lookup_after_insert, lemma_keys, lemma_outside, lookup};
use crate::table::outside;

verus! {

impl ExpressionView {
    /// Whether the variable `variable` occurs in the expression.
    pub open spec fn mentions(self, variable: Seq<char>) -> bool
        decreases self,
    {
        match self {
            ExpressionView::Variable { name, token } => name == variable,
            ExpressionView::String { contents } => false,
            ExpressionView::Concatination { lhs, rhs } => lhs.mentions(variable) || rhs.mentions(
                variable,
            ),
        }
    }

    /// The value of the expression, where `values` are the values of the variables.
    pub open spec fn value(self, values: Seq<(Seq<char>, Seq<char>)>) -> Option<Seq<char>>
        decreases self,
    {
        match self {
            ExpressionView::Variable { name, token } => lookup(values, name),
            ExpressionView::String { contents } => Some(contents),
            ExpressionView::Concatination { lhs, rhs } => match (
                lhs.value(values),
                rhs.value(values),
            ) {
                (Some(left), Some(right)) => Some(left + right),
                _ => None,
            },
        }
    }
}

/// That the second variable occurs in what is assigned to the first.
pub open spec fn uses(expressions: Seq<(Seq<char>, ExpressionView)>) -> spec_fn(
    Seq<char>,
    Seq<char>,
) -> bool {
    |name: Seq<char>, other: Seq<char>|
        lookup(expressions, name) matches Some(expression) && expression.mentions(other)
}

/// Whether the value under each name is that of the expression that is assigned to it.
pub open spec fn values_hold(
    expressions: Seq<(Seq<char>, ExpressionView)>,
    values: Seq<(Seq<char>, Seq<char>)>,
) -> bool {
    forall|name: Seq<char>| #[trigger]
        is_key(values, name) ==> (lookup(expressions, name) matches Some(expression)
            && expression.value(values) == lookup(values, name))
}

/// Whether `more` has the values of `values`, and maybe others.
spec fn extends(
    values: Seq<(Seq<char>, Seq<char>)>,
    more: Seq<(Seq<char>, Seq<char>)>,
) -> bool {
    forall|name: Seq<char>| #[trigger]
        is_key(values, name) ==> is_key(more, name) && lookup(more, name) == lookup(values, name)
}

/// With more values an expression keeps its value.
proof fn lemma_value_kept(
    expression: ExpressionView,
    values: Seq<(Seq<char>, Seq<char>)>,
    more: Seq<(Seq<char>, Seq<char>)>,
)
    requires
        extends(values, more),
        expression.value(values) is Some,
    ensures
        expression.value(more) == expression.value(values),
    decreases expression,
{
    match expression {
        ExpressionView::Variable { name, token } => {
            assert(is_key(values, name));
        },
        ExpressionView::String { contents } => {},
        ExpressionView::Concatination { lhs, rhs } => {
            lemma_value_kept(*lhs, values, more);
            lemma_value_kept(*rhs, values, more);
        },
    }
}

/// The variables of an expression that has a value have values.
proof fn lemma_mentioned(
    expression: ExpressionView,
    values: Seq<(Seq<char>, Seq<char>)>,
    name: Seq<char>,
)
    requires
        expression.value(values) is Some,
        expression.mentions(name),
    ensures
        is_key(values, name),
    decreases expression,
{
    if let ExpressionView::Concatination { lhs, rhs } = expression {
        if lhs.mentions(name) {
            lemma_mentioned(*lhs, values, name);
        } else {
            lemma_mentioned(*rhs, values, name);
        }
    }
}

/// What holds of an evaluator that has evaluated the variables `order`, one after the other.
spec fn sound(assignments: Assignments, state: EvaluatorView, order: Seq<Seq<char>>) -> bool {
    let leads = uses(assignments.expressions);
    &&& is_sorted(state.evaluated)
    &&& order.no_duplicates()
    &&& forall|name: Seq<char>| #[trigger] order.contains(name) == is_key(state.evaluated, name)
    &&& settled(leads, order)
    &&& values_hold(assignments.expressions, state.evaluated)
    &&& is_path(leads, state.stack)
    &&& forall|name: Seq<char>| #[trigger]
        state.seen.contains(name) ==> is_key(state.evaluated, name) || state.stack.contains(name)
    &&& forall|name: Seq<char>| #[trigger]
        state.stack.contains(name) ==> state.seen.contains(name) && !is_key(state.evaluated, name)
}

/// Whether `error` is of a kind that evaluation reports, and what it says is true. The variable
/// `variable` occurs where `occurs` says, or in an assignment.
pub open spec fn is_true(
    expressions: Seq<(Seq<char>, ExpressionView)>,
    error: ErrorKindView,
    occurs: spec_fn(Seq<char>) -> bool,
) -> bool {
    match error {
        ErrorKindView::UnknownVariable { variable } => {
            &&& !is_key(expressions, variable)
            &&& occurs(variable) || occurs_in(expressions, variable)
        },
        ErrorKindView::CircularVariableDependency { variable, circle } => {
            &&& is_path(uses(expressions), circle)
            &&& circle.len() > 0 && circle.last() == variable
            &&& circle.drop_last().contains(variable)
        },
        _ => false,
    }
}

/// Whether the variable `variable` occurs in an assignment.
pub open spec fn occurs_in(
    expressions: Seq<(Seq<char>, ExpressionView)>,
    variable: Seq<char>,
) -> bool {
    exists|name: Seq<char>| #[trigger] uses(expressions)(name, variable)
}

/// Whether what is at the top of the stack leads to all variables of `expression`.
spec fn on_top(
    assignments: Assignments,
    state: EvaluatorView,
    expression: ExpressionView,
) -> bool {
    state.stack.len() > 0 ==> forall|name: Seq<char>| #[trigger]
        expression.mentions(name) ==> uses(assignments.expressions)(state.stack.last(), name)
}

/// Evaluating an expression gives its value, or an error that is true.
#[verifier::rlimit(50)]
proof fn lemma_expression_value(
    assignments: Assignments,
    state: EvaluatorView,
    order: Seq<Seq<char>>,
    expression: ExpressionView,
) -> (more: Seq<Seq<char>>)
    requires
        sound(assignments, state, order),
        on_top(assignments, state, expression),
    ensures
        match evaluate_expression(assignments, state, expression) {
            Evaluated::Done { value, state: then_state } => {
                &&& sound(assignments, then_state, more)
                &&& then_state.stack == state.stack
                &&& extends(state.evaluated, then_state.evaluated)
                &&& expression.value(then_state.evaluated) == Some(value)
            },
            Evaluated::Fail { error, state: then_state } => is_true(
                assignments.expressions,
                error.kind,
                |name: Seq<char>| expression.mentions(name),
            ),
            Evaluated::Stuck => true,
        },
    decreases outside(assignments.expressions, state.seen), 0int, expression.size(),
{
    match expression {
        ExpressionView::String { contents } => order,
        ExpressionView::Variable { name, token } => {
            assert(expression.mentions(name));
            if is_key(state.evaluated, name) {
                order
            } else if state.seen.contains(name) {
                let circle = state.stack.push(name);
                assert(state.stack.contains(name));
                lemma_path_push(uses(assignments.expressions), state.stack, name);
                assert(circle.drop_last() =~= state.stack);
                order
            } else if !is_key(assignments.expressions, name) {
                order
            } else {
                lemma_outside(assignments.expressions, state.seen, state.seen.insert(name));
                lemma_assignment_value(assignments, state, order, name)
            }
        },
        ExpressionView::Concatination { lhs, rhs } => {
            assert forall|name: Seq<char>| #[trigger] lhs.mentions(name) implies expression.mentions(
                name,
            ) by {}
            assert forall|name: Seq<char>| #[trigger] rhs.mentions(name) implies expression.mentions(
                name,
            ) by {}
            let first = lemma_expression_value(assignments, state, order, *lhs);
            lemma_expression_keeps(assignments, state, *lhs);
            if let Evaluated::Done { value, state: then_state } = evaluate_expression(
                assignments,
                state,
                *lhs,
            ) {
                lemma_outside(assignments.expressions, state.seen, then_state.seen);
                let second = lemma_expression_value(assignments, then_state, first, *rhs);
                if let Evaluated::Done { value: right, state: last_state } = evaluate_expression(
                    assignments,
                    then_state,
                    *rhs,
                ) {
                    lemma_value_kept(*lhs, then_state.evaluated, last_state.evaluated);
                }
                second
            } else {
                order
            }
        },
    }
}

/// Evaluating an assignment gives the variable its value, or an error that is true.
#[verifier::rlimit(50)]
proof fn lemma_assignment_value(
    assignments: Assignments,
    state: EvaluatorView,
    order: Seq<Seq<char>>,
    name: Seq<char>,
) -> (more: Seq<Seq<char>>)
    requires
        sound(assignments, state, order),
        !state.seen.contains(name),
        !is_key(state.evaluated, name),
        is_key(assignments.expressions, name),
        state.stack.len() > 0 ==> uses(assignments.expressions)(state.stack.last(), name),
    ensures
        match evaluate_assignment(assignments, state, name) {
            Evaluated::Done { value, state: then_state } => {
                &&& sound(assignments, then_state, more)
                &&& then_state.stack == state.stack
                &&& extends(state.evaluated, then_state.evaluated)
                &&& is_key(then_state.evaluated, name)
            },
            Evaluated::Fail { error, state: then_state } => is_true(
                assignments.expressions,
                error.kind,
                |name: Seq<char>| false,
            ),
            Evaluated::Stuck => true,
        },
    decreases outside(assignments.expressions, state.seen.insert(name)), 1int, 0nat,
{
    let expression = lookup(assignments.expressions, name)->0;
    let entered = state.entered(name);
    lemma_entered(assignments, state, order, name);
    assert(on_top(assignments, entered, expression));
    let inner = lemma_expression_value(assignments, entered, order, expression);
    match evaluate_expression(assignments, entered, expression) {
        Evaluated::Done { value, state: then_state } => {
            lemma_left(assignments, state, then_state, inner, name, value);
            inner.push(name)
        },
        Evaluated::Fail { error, state: then_state } => {
            if let ErrorKindView::UnknownVariable { variable } = error.kind {
                if expression.mentions(variable) {
                    assert(uses(assignments.expressions)(name, variable));
                }
            }
            order
        },
        Evaluated::Stuck => order,
    }
}

/// An evaluator stays sound when the evaluation of a variable starts.
proof fn lemma_entered(
    assignments: Assignments,
    state: EvaluatorView,
    order: Seq<Seq<char>>,
    name: Seq<char>,
)
    requires
        sound(assignments, state, order),
        !state.seen.contains(name),
        !is_key(state.evaluated, name),
        state.stack.len() > 0 ==> uses(assignments.expressions)(state.stack.last(), name),
    ensures
        sound(assignments, state.entered(name), order),
{
    let entered = state.entered(name);
    lemma_path_push(uses(assignments.expressions), state.stack, name);
    assert forall|n: Seq<char>| #[trigger] entered.seen.contains(n) implies is_key(
        entered.evaluated,
        n,
    ) || entered.stack.contains(n) by {
        if n == name {
            assert(entered.stack[state.stack.len() as int] == n);
        } else if state.stack.contains(n) {
            let i = choose|i: int| 0 <= i < state.stack.len() && state.stack[i] == n;
            assert(entered.stack[i] == n);
        } else {
            assert(state.seen.contains(n));
        }
    }
    assert forall|n: Seq<char>| #[trigger] entered.stack.contains(n) implies entered.seen.contains(
        n,
    ) && !is_key(entered.evaluated, n) by {
        let i = choose|i: int| 0 <= i < entered.stack.len() && entered.stack[i] == n;
        if i < state.stack.len() {
            assert(state.stack[i] == n);
            assert(state.stack.contains(n));
        }
    }
}

/// An evaluator stays sound when the evaluation of a variable ends.
proof fn lemma_left(
    assignments: Assignments,
    state: EvaluatorView,
    inner: EvaluatorView,
    order: Seq<Seq<char>>,
    name: Seq<char>,
    value: Seq<char>,
)
    requires
        sound(assignments, inner, order),
        inner.stack == state.stack.push(name),
        !state.stack.contains(name),
        lookup(assignments.expressions, name) matches Some(expression) && expression.value(
            inner.evaluated,
        ) == Some(value),
    ensures
        sound(assignments, inner.left(name, value), order.push(name)),
        inner.left(name, value).stack == state.stack,
        extends(inner.evaluated, inner.left(name, value).evaluated),
        is_key(inner.left(name, value).evaluated, name),
{
    let leads = uses(assignments.expressions);
    let expression = lookup(assignments.expressions, name)->0;
    let after = inner.left(name, value);
    let more = order.push(name);
    assert(inner.stack[state.stack.len() as int] == name);
    assert(inner.stack.contains(name));
    assert(!is_key(inner.evaluated, name));
    assert(after.stack =~= state.stack);
    law_lookup_after_insert(inner.evaluated, name, value, name);
    assert forall|n: Seq<char>| #[trigger] is_key(inner.evaluated, n) implies is_key(
        after.evaluated,
        n,
    ) && lookup(after.evaluated, n) == lookup(inner.evaluated, n) by {
        lemma_keys(inner.evaluated, name, value, n);
        law_lookup_after_insert(inner.evaluated, name, value, n);
    }
    lemma_keys(inner.evaluated, name, value, name);
    assert(!order.contains(name));
    assert forall|n: Seq<char>| #[trigger] more.contains(n) == is_key(after.evaluated, n) by {
        lemma_keys(inner.evaluated, name, value, n);
        if n == name {
            assert(more[order.len() as int] == n);
        } else {
            if order.contains(n) {
                let i = choose|i: int| 0 <= i < order.len() && order[i] == n;
                assert(more[i] == n);
            }
            if more.contains(n) {
                let i = choose|i: int| 0 <= i < more.len() && more[i] == n;
                assert(order[i] == n);
            }
            assert(order.contains(n) == is_key(inner.evaluated, n));
        }
    }
    assert forall|k: int, n: Seq<char>|
        0 <= k < more.len() && #[trigger] leads(more[k], n) implies more.take(k).contains(n) by {
        if k < order.len() {
            assert(leads(order[k], n));
            assert(more.take(k) =~= order.take(k));
        } else {
            lemma_mentioned(expression, inner.evaluated, n);
            assert(order.contains(n));
            assert(more.take(k) =~= order);
        }
    }
    assert forall|n: Seq<char>| #[trigger] is_key(after.evaluated, n) implies (lookup(
        assignments.expressions,
        n,
    ) matches Some(e) && e.value(after.evaluated) == lookup(after.evaluated, n)) by {
        lemma_keys(inner.evaluated, name, value, n);
        if n == name {
            lemma_value_kept(expression, inner.evaluated, after.evaluated);
        } else {
            assert(is_key(inner.evaluated, n));
            lemma_value_kept(
                lookup(assignments.expressions, n)->0,
                inner.evaluated,
                after.evaluated,
            );
        }
    }
    assert(is_path(leads, after.stack)) by {
        assert(inner.stack.drop_last() =~= state.stack);
    }
    assert forall|n: Seq<char>| #[trigger] after.seen.contains(n) implies is_key(
        after.evaluated,
        n,
    ) || after.stack.contains(n) by {
        lemma_keys(inner.evaluated, name, value, n);
        assert(inner.seen.contains(n));
        if !is_key(inner.evaluated, n) {
            let i = choose|i: int| 0 <= i < inner.stack.len() && inner.stack[i] == n;
            if i < state.stack.len() {
                assert(after.stack[i] == n);
            }
        }
    }
    assert forall|n: Seq<char>| #[trigger] after.stack.contains(n) implies after.seen.contains(n)
        && !is_key(after.evaluated, n) by {
        let i = choose|i: int| 0 <= i < after.stack.len() && after.stack[i] == n;
        assert(inner.stack[i] == n);
        assert(inner.stack.contains(n));
        assert(state.stack.contains(n));
        lemma_keys(inner.evaluated, name, value, n);
    }
}

/// Whether there is a token for each variable that is assigned.
pub open spec fn tokens_cover(assignments: Assignments) -> bool {
    forall|name: Seq<char>|
        is_key(assignments.expressions, name) ==> #[trigger] is_key(assignments.tokens, name)
}

/// Whether there is a token for each variable of which the evaluation has started.
pub open spec fn seen_covered(assignments: Assignments, state: EvaluatorView) -> bool {
    forall|name: Seq<char>|
        state.seen.contains(name) ==> #[trigger] is_key(assignments.tokens, name)
}

/// Where there is a token for each variable, an expression is evaluated or found to be wrong.
proof fn lemma_evaluation_ends(
    assignments: Assignments,
    state: EvaluatorView,
    expression: ExpressionView,
)
    requires
        tokens_cover(assignments),
        seen_covered(assignments, state),
    ensures
        match evaluate_expression(assignments, state, expression) {
            Evaluated::Done { value, state: then_state } => seen_covered(assignments, then_state),
            Evaluated::Fail { error, state: then_state } => true,
            Evaluated::Stuck => false,
        },
    decreases outside(assignments.expressions, state.seen), 0int, expression.size(),
{
    match expression {
        ExpressionView::String { contents } => {},
        ExpressionView::Variable { name, token } => {
            if !is_key(state.evaluated, name) {
                if state.seen.contains(name) {
                    assert(is_key(assignments.tokens, name));
                } else if is_key(assignments.expressions, name) {
                    lemma_outside(assignments.expressions, state.seen, state.seen.insert(name));
                    lemma_assignment_ends(assignments, state, name);
                }
            }
        },
        ExpressionView::Concatination { lhs, rhs } => {
            lemma_evaluation_ends(assignments, state, *lhs);
            lemma_expression_keeps(assignments, state, *lhs);
            if let Evaluated::Done { value, state: then_state } = evaluate_expression(
                assignments,
                state,
                *lhs,
            ) {
                lemma_outside(assignments.expressions, state.seen, then_state.seen);
                lemma_evaluation_ends(assignments, then_state, *rhs);
            }
        },
    }
}

/// Where there is a token for each variable, an assignment is evaluated or found to be wrong.
proof fn lemma_assignment_ends(assignments: Assignments, state: EvaluatorView, name: Seq<char>)
    requires
        tokens_cover(assignments),
        seen_covered(assignments, state),
        is_key(assignments.expressions, name),
    ensures
        match evaluate_assignment(assignments, state, name) {
            Evaluated::Done { value, state: then_state } => seen_covered(assignments, then_state),
            Evaluated::Fail { error, state: then_state } => true,
            Evaluated::Stuck => false,
        },
    decreases outside(assignments.expressions, state.seen.insert(name)), 1int, 0nat,
{
    assert(is_key(assignments.tokens, name));
    if let Some(expression) = lookup(assignments.expressions, name) {
        lemma_evaluation_ends(assignments, state.entered(name), expression);
    }
}

/// Where there is a token for each variable, assignments are evaluated or found to be wrong.
proof fn lemma_assignments_end(assignments: Assignments, state: EvaluatorView, i: nat)
    requires
        tokens_cover(assignments),
        seen_covered(assignments, state),
    ensures
        match evaluate_assignments(assignments, state, i) {
            Evaluated::Done { value, state: then_state } => seen_covered(assignments, then_state),
            Evaluated::Fail { error, state: then_state } => true,
            Evaluated::Stuck => false,
        },
    decreases assignments.expressions.len() - i,
{
    if i < assignments.expressions.len() {
        let name = assignments.expressions[i as int].0;
        assert(is_key(assignments.expressions, name));
        lemma_assignment_ends(assignments, state, name);
        if let Evaluated::Done { value, state: then_state } = evaluate_assignment(
            assignments,
            state,
            name,
        ) {
            lemma_assignments_end(assignments, then_state, i + 1);
        }
    }
}

/// Where there is a token for each variable, a line is evaluated or found to be wrong.
proof fn lemma_line_ends(
    assignments: Assignments,
    state: EvaluatorView,
    line: Seq<FragmentView>,
    i: nat,
    done: Seq<char>,
)
    requires
        tokens_cover(assignments),
        seen_covered(assignments, state),
    ensures
        match evaluate_line(assignments, state, line, i, done) {
            Evaluated::Done { value, state: then_state } => seen_covered(assignments, then_state),
            Evaluated::Fail { error, state: then_state } => true,
            Evaluated::Stuck => false,
        },
    decreases line.len() - i,
{
    if i < line.len() {
        match line[i as int] {
            FragmentView::Text { text } => {
                lemma_line_ends(assignments, state, line, i + 1, done + text.lexeme);
            },
            FragmentView::Expression { expression } => {
                lemma_evaluation_ends(assignments, state, expression);
                if let Evaluated::Done { value, state: then_state } = evaluate_expression(
                    assignments,
                    state,
                    expression,
                ) {
                    lemma_line_ends(assignments, then_state, line, i + 1, done + value);
                }
            },
        }
    }
}

/// Where there is a token for each variable, all lines are evaluated or found to be wrong.
proof fn lemma_recipes_end(
    assignments: Assignments,
    state: EvaluatorView,
    recipes: Seq<(Seq<char>, RecipeView)>,
    i: nat,
    j: nat,
)
    requires
        tokens_cover(assignments),
        seen_covered(assignments, state),
    ensures
        evaluate_recipes(assignments, state, recipes, i, j) !is Stuck,
    decreases recipes.len() - i, recipes[i as int].1.lines.len() - j,
{
    if i < recipes.len() {
        if j >= recipes[i as int].1.lines.len() {
            lemma_recipes_end(assignments, state, recipes, i + 1, 0);
        } else {
            let line = recipes[i as int].1.lines[j as int];
            lemma_line_ends(assignments, state, line, 0, Seq::empty());
            if let Evaluated::Done { value, state: then_state } = evaluate_line(
                assignments,
                state,
                line,
                0,
                Seq::empty(),
            ) {
                lemma_recipes_end(
                    assignments,
                    then_state,
                    with_line(recipes, i as int, value),
                    i,
                    j + 1,
                );
            }
        }
    }
}

/// Where there is a token for each variable, assignments and lines are evaluated, or something is
/// found to be wrong with them.
pub proof fn law_evaluation_ends(
    assignments: Assignments,
    recipes: Seq<(Seq<char>, RecipeView)>,
)
    requires
        tokens_cover(assignments),
    ensures
        evaluate_all(assignments, recipes) !is Stuck,
{
    lemma_assignments_end(assignments, EvaluatorView::initial(), 0);
    if let Evaluated::Done { value, state } = evaluate_assignments(
        assignments,
        EvaluatorView::initial(),
        0,
    ) {
        lemma_recipes_end(assignments, state, recipes, 0, 0);
    }
}

/// Evaluating assignments gives the variables their values, or an error that is true.
proof fn lemma_assignments_value(
    assignments: Assignments,
    state: EvaluatorView,
    order: Seq<Seq<char>>,
    i: nat,
) -> (more: Seq<Seq<char>>)
    requires
        sound(assignments, state, order),
        state.stack.len() == 0,
        forall|k: int|
            0 <= k < i && k < assignments.expressions.len() ==> is_key(
                state.evaluated,
                (#[trigger] assignments.expressions[k]).0,
            ),
    ensures
        match evaluate_assignments(assignments, state, i) {
            Evaluated::Done { value, state: then_state } => {
                &&& sound(assignments, then_state, more)
                &&& then_state.stack.len() == 0
                &&& forall|k: int|
                    0 <= k < assignments.expressions.len() ==> is_key(
                        then_state.evaluated,
                        (#[trigger] assignments.expressions[k]).0,
                    )
            },
            Evaluated::Fail { error, state: then_state } => is_true(
                assignments.expressions,
                error.kind,
                |name: Seq<char>| false,
            ),
            Evaluated::Stuck => true,
        },
    decreases assignments.expressions.len() - i,
{
    if i >= assignments.expressions.len() {
        order
    } else {
        let name = assignments.expressions[i as int].0;
        assert(is_key(assignments.expressions, name));
        if is_key(state.evaluated, name) {
            lemma_assignments_value(assignments, state, order, i + 1)
        } else {
            assert(!state.seen.contains(name)) by {
                if state.seen.contains(name) {
                    assert(state.stack.contains(name));
                }
            }
            let next = lemma_assignment_value(assignments, state, order, name);
            match evaluate_assignment(assignments, state, name) {
                Evaluated::Done { value, state: then_state } => {
                    lemma_assignments_value(assignments, then_state, next, i + 1)
                },
                _ => order,
            }
        }
    }
}

/// Before anything is evaluated, an evaluator is sound.
proof fn lemma_initial(assignments: Assignments)
    ensures
        sound(assignments, EvaluatorView::initial(), Seq::empty()),
{
}

/// Once all assignments are evaluated, each variable that is assigned has a value, no other has
/// one, and the value is that of what is assigned to it.
pub proof fn law_values_satisfy_assignments(assignments: Assignments, state: EvaluatorView)
    requires
        evaluate_assignments(assignments, EvaluatorView::initial(), 0) == (Evaluated::Done {
            value: (),
            state,
        }),
    ensures
        values_hold(assignments.expressions, state.evaluated),
        forall|name: Seq<char>| #[trigger]
            is_key(state.evaluated, name) == is_key(assignments.expressions, name),
{
    lemma_initial(assignments);
    let order = lemma_assignments_value(
        assignments,
        EvaluatorView::initial(),
        Seq::empty(),
        0,
    );
    assert forall|name: Seq<char>| #[trigger] is_key(state.evaluated, name) == is_key(
        assignments.expressions,
        name,
    ) by {
        if is_key(assignments.expressions, name) {
            let i = choose|i: int|
                0 <= i < assignments.expressions.len() && (
                #[trigger] assignments.expressions[i]).0 == name;
            assert(is_key(state.evaluated, assignments.expressions[i].0));
        }
    }
}

/// What is reported of assignments that cannot be evaluated is true: an unknown variable occurs and
/// is not assigned, and a circular one is reached from itself by the variables that are reported.
pub proof fn law_evaluation_errors_are_true(
    assignments: Assignments,
    error: ErrorView,
    state: EvaluatorView,
)
    requires
        evaluate_assignments(assignments, EvaluatorView::initial(), 0) == (Evaluated::<()>::Fail {
            error,
            state,
        }),
    ensures
        is_true(assignments.expressions, error.kind, |name: Seq<char>| false),
{
    lemma_initial(assignments);
    let order = lemma_assignments_value(
        assignments,
        EvaluatorView::initial(),
        Seq::empty(),
        0,
    );
}

/// Whether each variable that occurs in an assignment is assigned, and no variable leads back to
/// itself.
pub open spec fn is_grounded(expressions: Seq<(Seq<char>, ExpressionView)>) -> bool {
    &&& forall|name: Seq<char>| #[trigger] occurs_in(expressions, name) ==> is_key(expressions, name)
    &&& forall|path: Seq<Seq<char>>| !#[trigger] is_circle(uses(expressions), path)
}

/// Assignments are evaluated if and only if each variable that occurs in them is assigned and none
/// leads back to itself.
pub proof fn law_evaluation_succeeds_if_it_can(assignments: Assignments)
    requires
        tokens_cover(assignments),
    ensures
        (evaluate_assignments(assignments, EvaluatorView::initial(), 0) is Done) == is_grounded(
            assignments.expressions,
        ),
{
    let expressions = assignments.expressions;
    let leads = uses(expressions);
    lemma_initial(assignments);
    let order = lemma_assignments_value(
        assignments,
        EvaluatorView::initial(),
        Seq::empty(),
        0,
    );
    lemma_assignments_end(assignments, EvaluatorView::initial(), 0);
    match evaluate_assignments(assignments, EvaluatorView::initial(), 0) {
        Evaluated::Done { value, state } => {
            law_values_satisfy_assignments(assignments, state);
            assert forall|name: Seq<char>| #[trigger] occurs_in(expressions, name) implies is_key(
                expressions,
                name,
            ) by {
                let user = choose|user: Seq<char>| #[trigger] leads(user, name);
                assert(is_key(expressions, user));
                assert(is_key(state.evaluated, user));
                lemma_mentioned(lookup(expressions, user)->0, state.evaluated, name);
                assert(is_key(state.evaluated, name));
            }
            assert forall|path: Seq<Seq<char>>| !#[trigger] is_circle(leads, path) by {
                if is_circle(leads, path) {
                    lemma_first_step(leads, path);
                    assert(is_key(expressions, path[0]));
                    assert(is_key(state.evaluated, path[0]));
                    assert(order.contains(path[0]));
                    let i = choose|i: int| 0 <= i < order.len() && order[i] == path[0];
                    lemma_no_circle(leads, order, path, i);
                }
            }
        },
        Evaluated::Fail { error, state } => {
            if let ErrorKindView::CircularVariableDependency { variable, circle } = error.kind {
                let k = choose|k: int|
                    0 <= k < circle.drop_last().len() && circle.drop_last()[k] == variable;
                assert(circle[k] == circle.last());
                lemma_circle(leads, circle, k);
                assert(is_circle(leads, circle.skip(k)));
            } else if let ErrorKindView::UnknownVariable { variable } = error.kind {
                assert(occurs_in(expressions, variable));
            }
        },
        Evaluated::Stuck => {},
    }
}

/// Whether everything is evaluated that can be.
pub open spec fn finished(assignments: Assignments, state: EvaluatorView) -> bool {
    &&& forall|name: Seq<char>| #[trigger]
        is_key(state.evaluated, name) == is_key(assignments.expressions, name)
    &&& forall|name: Seq<char>| #[trigger]
        state.seen.contains(name) ==> is_key(state.evaluated, name)
}

/// The value of a piece of a line, where `values` are the values of the variables.
pub open spec fn piece_value(
    piece: FragmentView,
    values: Seq<(Seq<char>, Seq<char>)>,
) -> Option<Seq<char>> {
    match piece {
        FragmentView::Text { text } => Some(text.lexeme),
        FragmentView::Expression { expression } => expression.value(values),
    }
}

/// The value of the pieces of a line from the one at `i` on.
pub open spec fn line_value(
    line: Seq<FragmentView>,
    values: Seq<(Seq<char>, Seq<char>)>,
    i: nat,
) -> Option<Seq<char>>
    decreases line.len() - i,
{
    if i >= line.len() {
        Some(Seq::empty())
    } else {
        match (piece_value(line[i as int], values), line_value(line, values, i + 1)) {
            (Some(first), Some(rest)) => Some(first + rest),
            _ => None,
        }
    }
}

/// Whether the variable `variable` occurs in a piece of a line.
pub open spec fn piece_mentions(piece: FragmentView, variable: Seq<char>) -> bool {
    piece matches FragmentView::Expression { expression } && expression.mentions(variable)
}

/// Whether the variable `variable` occurs in a line.
pub open spec fn line_mentions(line: Seq<FragmentView>, variable: Seq<char>) -> bool {
    exists|i: int| 0 <= i < line.len() && piece_mentions(#[trigger] line[i], variable)
}

/// Whether the variable `variable` occurs in a line of a recipe.
pub open spec fn recipe_mentions(recipe: RecipeView, variable: Seq<char>) -> bool {
    exists|j: int| 0 <= j < recipe.lines.len() && line_mentions(#[trigger] recipe.lines[j], variable)
}

/// That a variable occurs in a line of one of `recipes`.
pub open spec fn in_lines(recipes: Seq<(Seq<char>, RecipeView)>) -> spec_fn(Seq<char>) -> bool {
    |variable: Seq<char>|
        exists|k: int| 0 <= k < recipes.len() && recipe_mentions((#[trigger] recipes[k]).1, variable)
}

/// Whether the evaluated lines of a recipe are the values of its lines.
pub open spec fn lines_hold(recipe: RecipeView, values: Seq<(Seq<char>, Seq<char>)>) -> bool {
    &&& recipe.evaluated_lines.len() == recipe.lines.len()
    &&& forall|k: int|
        0 <= k < recipe.lines.len() ==> line_value(#[trigger] recipe.lines[k], values, 0) == Some(
            recipe.evaluated_lines[k],
        )
}

/// Once everything is evaluated, evaluating an expression changes nothing.
proof fn lemma_expression_finished(
    assignments: Assignments,
    state: EvaluatorView,
    expression: ExpressionView,
)
    requires
        finished(assignments, state),
    ensures
        match expression.value(state.evaluated) {
            Some(value) => evaluate_expression(assignments, state, expression) == (
            Evaluated::Done { value, state }),
            None => evaluate_expression(assignments, state, expression) matches Evaluated::Fail {
                error,
                state: then_state,
            } && (error.kind matches ErrorKindView::UnknownVariable { variable } && !is_key(
                assignments.expressions,
                variable,
            ) && expression.mentions(variable)),
        },
    decreases expression,
{
    match expression {
        ExpressionView::Variable { name, token } => {
            if !is_key(state.evaluated, name) {
                assert(!state.seen.contains(name));
                assert(!is_key(assignments.expressions, name));
            }
        },
        ExpressionView::String { contents } => {},
        ExpressionView::Concatination { lhs, rhs } => {
            lemma_expression_finished(assignments, state, *lhs);
            lemma_expression_finished(assignments, state, *rhs);
        },
    }
}

/// Once everything is evaluated, a line is evaluated to its value.
proof fn lemma_line_value(
    assignments: Assignments,
    state: EvaluatorView,
    line: Seq<FragmentView>,
    i: nat,
    done: Seq<char>,
)
    requires
        finished(assignments, state),
    ensures
        match line_value(line, state.evaluated, i) {
            Some(value) => evaluate_line(assignments, state, line, i, done) == (Evaluated::Done {
                value: done + value,
                state,
            }),
            None => evaluate_line(assignments, state, line, i, done) matches Evaluated::Fail {
                error,
                state: then_state,
            } && (error.kind matches ErrorKindView::UnknownVariable { variable } && !is_key(
                assignments.expressions,
                variable,
            ) && line_mentions(line, variable)),
        },
    decreases line.len() - i,
{
    if i >= line.len() {
        assert(done + Seq::<char>::empty() =~= done);
    } else {
        match line[i as int] {
            FragmentView::Text { text } => {
                let rest = line_value(line, state.evaluated, i + 1);
                lemma_line_value(assignments, state, line, i + 1, done + text.lexeme);
                if let Some(value) = rest {
                    assert(done + text.lexeme + value =~= done + (text.lexeme + value));
                }
            },
            FragmentView::Expression { expression } => {
                lemma_expression_finished(assignments, state, expression);
                if let Some(first) = expression.value(state.evaluated) {
                    lemma_line_value(assignments, state, line, i + 1, done + first);
                    if let Some(value) = line_value(line, state.evaluated, i + 1) {
                        assert(done + first + value =~= done + (first + value));
                    }
                } else if let Evaluated::Fail { error, state: then_state } = evaluate_expression(
                    assignments,
                    state,
                    expression,
                ) {
                    assert(piece_mentions(line[i as int], error.kind->UnknownVariable_variable));
                }
            },
        }
    }
}

/// Whether `after` is `before` with the values of its first `j` lines after the lines that had been
/// evaluated.
pub open spec fn lines_added(
    before: RecipeView,
    after: RecipeView,
    values: Seq<(Seq<char>, Seq<char>)>,
    j: nat,
) -> bool {
    let had = before.evaluated_lines;
    &&& after == (RecipeView { evaluated_lines: after.evaluated_lines, ..before })
    &&& had.is_prefix_of(after.evaluated_lines)
    &&& after.evaluated_lines.len() == had.len() + j
    &&& j <= before.lines.len()
    &&& forall|k: int|
        0 <= k < j ==> line_value(#[trigger] before.lines[k], values, 0) == Some(
            after.evaluated_lines[had.len() + k],
        )
}

/// Whether `recipes` are `base` with the lines before line `j` of the recipe at `i` evaluated, and
/// no others.
spec fn filled_up_to(
    base: Seq<(Seq<char>, RecipeView)>,
    recipes: Seq<(Seq<char>, RecipeView)>,
    values: Seq<(Seq<char>, Seq<char>)>,
    i: nat,
    j: nat,
) -> bool {
    &&& base.len() == recipes.len()
    &&& forall|k: int|
        0 <= k < recipes.len() ==> (#[trigger] recipes[k]).0 == base[k].0 && lines_added(
            base[k].1,
            recipes[k].1,
            values,
            if k < i {
                base[k].1.lines.len()
            } else if k == i {
                j
            } else {
                0
            },
        )
}

/// One more line is added.
proof fn lemma_line_added(
    before: RecipeView,
    after: RecipeView,
    values: Seq<(Seq<char>, Seq<char>)>,
    j: nat,
    value: Seq<char>,
)
    requires
        lines_added(before, after, values, j),
        j < before.lines.len(),
        line_value(before.lines[j as int], values, 0) == Some(value),
    ensures
        lines_added(
            before,
            (RecipeView { evaluated_lines: after.evaluated_lines.push(value), ..after }),
            values,
            j + 1,
        ),
{
    let had = before.evaluated_lines;
    let lines = after.evaluated_lines.push(value);
    assert(had.is_prefix_of(lines)) by {
        assert(had =~= after.evaluated_lines.take(had.len() as int));
        assert(had =~= lines.take(had.len() as int));
    }
    assert forall|k: int| 0 <= k < j + 1 implies line_value(#[trigger] before.lines[k], values, 0)
        == Some(lines[had.len() + k]) by {
        if k < j {
            assert(line_value(before.lines[k], values, 0) == Some(
                after.evaluated_lines[had.len() + k],
            ));
        }
    }
}

/// Once everything is evaluated, the lines of recipes are evaluated to their values.
proof fn lemma_recipes_value(
    assignments: Assignments,
    state: EvaluatorView,
    base: Seq<(Seq<char>, RecipeView)>,
    recipes: Seq<(Seq<char>, RecipeView)>,
    i: nat,
    j: nat,
)
    requires
        finished(assignments, state),
        filled_up_to(base, recipes, state.evaluated, i, j),
    ensures
        evaluate_recipes(assignments, state, recipes, i, j) matches Filled::Done {
            recipes: filled,
            state: then_state,
        } ==> then_state == state && filled_up_to(base, filled, state.evaluated, base.len(), 0),
    decreases recipes.len() - i, recipes[i as int].1.lines.len() - j,
{
    let values = state.evaluated;
    if i < recipes.len() {
        let before = base[i as int].1;
        let now = recipes[i as int].1;
        assert(lines_added(before, now, values, j));
        if j >= now.lines.len() {
            lemma_recipes_value(assignments, state, base, recipes, i + 1, 0);
        } else {
            let line = now.lines[j as int];
            lemma_line_value(assignments, state, line, 0, Seq::empty());
            if let Some(value) = line_value(line, values, 0) {
                assert(Seq::<char>::empty() + value =~= value);
                lemma_line_added(before, now, values, j, value);
                let more = with_line(recipes, i as int, value);
                assert forall|k: int| 0 <= k < more.len() && k != i implies #[trigger] more[k]
                    == recipes[k] by {}
                lemma_recipes_value(assignments, state, base, more, i, j + 1);
            }
        }
    }
}

/// Evaluating adds the values of their lines to what has been evaluated of recipes, and changes
/// nothing else of them; and the values of the variables satisfy their assignments.
pub proof fn law_values_of_lines_are_added(
    assignments: Assignments,
    recipes: Seq<(Seq<char>, RecipeView)>,
    filled: Seq<(Seq<char>, RecipeView)>,
    state: EvaluatorView,
)
    requires
        evaluate_all(assignments, recipes) == (Filled::Done { recipes: filled, state }),
    ensures
        values_hold(assignments.expressions, state.evaluated),
        forall|name: Seq<char>| #[trigger]
            is_key(state.evaluated, name) == is_key(assignments.expressions, name),
        filled.len() == recipes.len(),
        forall|k: int|
            0 <= k < recipes.len() ==> (#[trigger] filled[k]).0 == recipes[k].0 && lines_added(
                recipes[k].1,
                filled[k].1,
                state.evaluated,
                recipes[k].1.lines.len(),
            ),
{
    if let Evaluated::Done { value, state: first } = evaluate_assignments(
        assignments,
        EvaluatorView::initial(),
        0,
    ) {
        law_values_satisfy_assignments(assignments, first);
        lemma_finished(assignments, first);
        assert forall|k: int| 0 <= k < recipes.len() implies lines_added(
            (#[trigger] recipes[k]).1,
            recipes[k].1,
            first.evaluated,
            0,
        ) by {
            let had = recipes[k].1.evaluated_lines;
            assert(had.is_prefix_of(had)) by {
                assert(had =~= had.take(had.len() as int));
            }
        }
        assert(filled_up_to(recipes, recipes, first.evaluated, 0, 0));
        lemma_recipes_value(assignments, first, recipes, recipes, 0, 0);
        assert forall|k: int| 0 <= k < recipes.len() implies (#[trigger] filled[k]).0 == recipes[k].0
            && lines_added(
            recipes[k].1,
            filled[k].1,
            state.evaluated,
            recipes[k].1.lines.len(),
        ) by {
            assert(filled_up_to(recipes, filled, first.evaluated, recipes.len(), 0));
        }
    }
}

/// Where nothing had been evaluated, the evaluated lines of recipes are the values of their lines.
pub proof fn law_lines_hold_values(
    assignments: Assignments,
    recipes: Seq<(Seq<char>, RecipeView)>,
    filled: Seq<(Seq<char>, RecipeView)>,
    state: EvaluatorView,
)
    requires
        forall|k: int| 0 <= k < recipes.len() ==> (#[trigger] recipes[k]).1.evaluated_lines.len() == 0,
        evaluate_all(assignments, recipes) == (Filled::Done { recipes: filled, state }),
    ensures
        forall|k: int|
            0 <= k < filled.len() ==> lines_hold((#[trigger] filled[k]).1, state.evaluated),
{
    law_values_of_lines_are_added(assignments, recipes, filled, state);
    assert forall|k: int| 0 <= k < filled.len() implies lines_hold(
        (#[trigger] filled[k]).1,
        state.evaluated,
    ) by {
        assert(lines_added(
            recipes[k].1,
            filled[k].1,
            state.evaluated,
            recipes[k].1.lines.len(),
        ));
        assert(recipes[k].1.evaluated_lines.len() == 0);
    }
}

/// Once everything is evaluated, only a variable that is not assigned is wrong with a line.
proof fn lemma_recipes_fault(
    assignments: Assignments,
    state: EvaluatorView,
    recipes: Seq<(Seq<char>, RecipeView)>,
    i: nat,
    j: nat,
)
    requires
        finished(assignments, state),
    ensures
        evaluate_recipes(assignments, state, recipes, i, j) !is Stuck,
        evaluate_recipes(assignments, state, recipes, i, j) matches Filled::Fail {
            recipes: filled,
            error,
        } ==> (error.kind matches ErrorKindView::UnknownVariable { variable } && !is_key(
            assignments.expressions,
            variable,
        ) && in_lines(recipes)(variable)),
    decreases recipes.len() - i, recipes[i as int].1.lines.len() - j,
{
    if i < recipes.len() {
        let recipe = recipes[i as int].1;
        if j >= recipe.lines.len() {
            lemma_recipes_fault(assignments, state, recipes, i + 1, 0);
        } else {
            let line = recipe.lines[j as int];
            lemma_line_value(assignments, state, line, 0, Seq::empty());
            if let Some(value) = line_value(line, state.evaluated, 0) {
                assert(Seq::<char>::empty() + value =~= value);
                let more = with_line(recipes, i as int, value);
                lemma_recipes_fault(assignments, state, more, i, j + 1);
                assert forall|variable: Seq<char>| #[trigger] in_lines(more)(variable) implies
                    in_lines(recipes)(variable) by {
                    let k = choose|k: int|
                        0 <= k < more.len() && recipe_mentions((#[trigger] more[k]).1, variable);
                    assert(more[k].1.lines == recipes[k].1.lines);
                    let l = choose|l: int|
                        0 <= l < more[k].1.lines.len() && line_mentions(
                            #[trigger] more[k].1.lines[l],
                            variable,
                        );
                    assert(line_mentions(recipes[k].1.lines[l], variable));
                    assert(recipe_mentions(recipes[k].1, variable));
                }
            } else if let Evaluated::Fail { error, state: then_state } = evaluate_line(
                assignments,
                state,
                line,
                0,
                Seq::empty(),
            ) {
                let variable = error.kind->UnknownVariable_variable;
                assert(line_mentions(recipe.lines[j as int], variable));
                assert(recipe_mentions(recipes[i as int].1, variable));
            }
        }
    }
}

/// Once all assignments are evaluated, nothing is left to be evaluated.
proof fn lemma_finished(assignments: Assignments, state: EvaluatorView)
    requires
        evaluate_assignments(assignments, EvaluatorView::initial(), 0) == (Evaluated::Done {
            value: (),
            state,
        }),
    ensures
        finished(assignments, state),
{
    lemma_initial(assignments);
    let order = lemma_assignments_value(
        assignments,
        EvaluatorView::initial(),
        Seq::empty(),
        0,
    );
    law_values_satisfy_assignments(assignments, state);
    assert forall|name: Seq<char>| #[trigger] state.seen.contains(name) implies is_key(
        state.evaluated,
        name,
    ) by {
        assert(!state.stack.contains(name));
    }
}

/// What is reported of assignments and lines that cannot be evaluated is true: an unknown variable
/// occurs in one of them and is not assigned, and a circular one is reached from itself by the
/// variables that are reported.
pub proof fn law_errors_of_evaluation_are_true(
    assignments: Assignments,
    recipes: Seq<(Seq<char>, RecipeView)>,
    filled: Seq<(Seq<char>, RecipeView)>,
    error: ErrorView,
)
    requires
        evaluate_all(assignments, recipes) == (Filled::Fail { recipes: filled, error }),
    ensures
        is_true(assignments.expressions, error.kind, in_lines(recipes)),
{
    match evaluate_assignments(assignments, EvaluatorView::initial(), 0) {
        Evaluated::Done { value, state } => {
            lemma_finished(assignments, state);
            lemma_recipes_fault(assignments, state, recipes, 0, 0);
        },
        Evaluated::Fail { error: first, state } => {
            law_evaluation_errors_are_true(assignments, first, state);
        },
        Evaluated::Stuck => {},
    }
}

/// A variable that occurs in a line that has a value has one itself.
proof fn lemma_mentioned_in_line(
    line: Seq<FragmentView>,
    values: Seq<(Seq<char>, Seq<char>)>,
    i: nat,
    p: int,
    variable: Seq<char>,
)
    requires
        line_value(line, values, i) is Some,
        i <= p < line.len(),
        piece_mentions(line[p], variable),
    ensures
        is_key(values, variable),
    decreases line.len() - i,
{
    if i < p {
        lemma_mentioned_in_line(line, values, i + 1, p, variable);
    } else if let FragmentView::Expression { expression } = line[p] {
        lemma_mentioned(expression, values, variable);
    }
}

/// Assignments and lines are evaluated if and only if each variable that occurs in them is assigned
/// and none leads back to itself.
pub proof fn law_all_is_evaluated_if_it_can(
    assignments: Assignments,
    recipes: Seq<(Seq<char>, RecipeView)>,
)
    requires
        tokens_cover(assignments),
    ensures
        (evaluate_all(assignments, recipes) is Done) == (is_grounded(assignments.expressions)
            && forall|variable: Seq<char>| #[trigger]
            in_lines(recipes)(variable) ==> is_key(assignments.expressions, variable)),
{
    let expressions = assignments.expressions;
    law_evaluation_ends(assignments, recipes);
    law_evaluation_succeeds_if_it_can(assignments);
    match evaluate_all(assignments, recipes) {
        Filled::Done { recipes: filled, state } => {
            law_values_of_lines_are_added(assignments, recipes, filled, state);
            assert forall|variable: Seq<char>| #[trigger] in_lines(recipes)(variable) implies is_key(
                expressions,
                variable,
            ) by {
                let k = choose|k: int|
                    0 <= k < recipes.len() && recipe_mentions((#[trigger] recipes[k]).1, variable);
                let recipe = recipes[k].1;
                let j = choose|j: int|
                    0 <= j < recipe.lines.len() && line_mentions(
                        #[trigger] recipe.lines[j],
                        variable,
                    );
                let line = recipe.lines[j];
                let p = choose|p: int|
                    0 <= p < line.len() && piece_mentions(#[trigger] line[p], variable);
                assert(lines_added(recipe, filled[k].1, state.evaluated, recipe.lines.len()));
                assert(line_value(recipe.lines[j], state.evaluated, 0) is Some);
                lemma_mentioned_in_line(line, state.evaluated, 0, p, variable);
                assert(is_key(state.evaluated, variable));
            }
        },
        Filled::Fail { recipes: filled, error } => {
            if let Evaluated::Done { value, state } = evaluate_assignments(
                assignments,
                EvaluatorView::initial(),
                0,
            ) {
                lemma_finished(assignments, state);
                lemma_recipes_fault(assignments, state, recipes, 0, 0);
                assert(in_lines(recipes)(error.kind->UnknownVariable_variable));
            }
        },
        Filled::Stuck => {},
    }
}

} // verus!
