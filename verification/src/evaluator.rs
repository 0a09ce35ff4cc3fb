//! Evaluating assignments, and the interpolations in the lines of recipes.

use vstd::prelude::*;
use vstd::string::*;

use crate::error::{Error, ErrorKind, ErrorKindView, ErrorView};
use crate::expression::{Expression, ExpressionView};
use crate::recipe::{fragment_views, line_all, lines_all, Fragment, FragmentView, Recipe};
use crate::recipe::RecipeView;
use crate::table::{inserted, is_key, is_sorted, lemma_outside, lookup, outside, Names, Table};
use crate::text::{names, string_views};
use crate::token::{countable, Token, TokenView};

verus! {

/// What is known of the variables of a justfile.
pub struct Evaluator<'a, 'b> {
    /// The variables that led to the one that is being evaluated, and that one.
    pub stack: Vec<&'a str>,
    /// The variables of which the evaluation has started.
    pub seen: Names<'a>,
    /// The values of the variables of which the evaluation has ended.
    pub evaluated: Table<'a, String>,
    pub assignments: &'b Table<'a, Expression<'a>>,
    /// The names of the variables, where they are assigned.
    pub assignment_tokens: &'b Table<'a, Token<'a>>,
}

/// The view of an [`Evaluator`], without the assignments.
#[verifier::ext_equal]
pub struct EvaluatorView {
    pub stack: Seq<Seq<char>>,
    pub seen: Set<Seq<char>>,
    pub evaluated: Seq<(Seq<char>, Seq<char>)>,
}

impl<'a, 'b> View for Evaluator<'a, 'b> {
    type V = EvaluatorView;

    open spec fn view(&self) -> EvaluatorView {
        EvaluatorView { stack: names(self.stack@), seen: self.seen@, evaluated: self.evaluated@ }
    }
}

/// Assignments, and where they are.
pub struct Assignments {
    pub expressions: Seq<(Seq<char>, ExpressionView)>,
    pub tokens: Seq<(Seq<char>, TokenView)>,
}

/// What comes of evaluating.
pub enum Evaluated<T> {
    Done { value: T, state: EvaluatorView },
    Fail { error: ErrorView, state: EvaluatorView },
    /// There is an error in an assignment of which there is no token.
    Stuck,
}

impl EvaluatorView {
    /// Nothing has been evaluated.
    pub open spec fn initial() -> EvaluatorView {
        EvaluatorView { stack: Seq::empty(), seen: Set::empty(), evaluated: Seq::empty() }
    }

    /// The evaluation of `name` has started.
    pub open spec fn entered(self, name: Seq<char>) -> EvaluatorView {
        EvaluatorView { stack: self.stack.push(name), seen: self.seen.insert(name), ..self }
    }

    /// The evaluation of `name`, the last that has started, has ended with `value`.
    pub open spec fn left(self, name: Seq<char>, value: Seq<char>) -> EvaluatorView {
        EvaluatorView {
            stack: self.stack.drop_last(),
            evaluated: inserted(self.evaluated, name, value),
            ..self
        }
    }

    /// `name` is on the stack.
    pub open spec fn reached(self, name: Seq<char>) -> EvaluatorView {
        EvaluatorView { stack: self.stack.push(name), ..self }
    }
}

/// What comes of evaluating an expression.
pub open spec fn evaluate_expression(
    assignments: Assignments,
    state: EvaluatorView,
    expression: ExpressionView,
) -> Evaluated<Seq<char>>
    decreases outside(assignments.expressions, state.seen), 0int, expression.size(),
{
    match expression {
        ExpressionView::String { contents } => Evaluated::Done { value: contents, state },
        ExpressionView::Variable { name, token } => if is_key(state.evaluated, name) {
            Evaluated::Done { value: lookup(state.evaluated, name)->0, state }
        } else if state.seen.contains(name) {
            match lookup(assignments.tokens, name) {
                Some(token) => Evaluated::Fail {
                    error: token.error(
                        ErrorKindView::CircularVariableDependency {
                            variable: name,
                            circle: state.reached(name).stack,
                        },
                    ),
                    state: state.reached(name),
                },
                None => Evaluated::Stuck,
            }
        } else if !is_key(assignments.expressions, name) {
            Evaluated::Fail {
                error: token.error(ErrorKindView::UnknownVariable { variable: name }),
                state,
            }
        } else {
            proof {
                lemma_outside(assignments.expressions, state.seen, state.seen.insert(name));
            }
            match evaluate_assignment(assignments, state, name) {
                Evaluated::Done { value, state } => Evaluated::Done {
                    value: lookup(state.evaluated, name)->0,
                    state,
                },
                Evaluated::Fail { error, state } => Evaluated::Fail { error, state },
                Evaluated::Stuck => Evaluated::Stuck,
            }
        },
        ExpressionView::Concatination { lhs, rhs } => match evaluate_expression(
            assignments,
            state,
            *lhs,
        ) {
            // the variables that are seen stay seen: the first condition always holds
            Evaluated::Done { value: left, state: then_state } => if outside(
                assignments.expressions,
                then_state.seen,
            ) <= outside(assignments.expressions, state.seen) {
                match evaluate_expression(assignments, then_state, *rhs) {
                    Evaluated::Done { value, state } => Evaluated::Done {
                        value: left + value,
                        state,
                    },
                    failed => failed,
                }
            } else {
                Evaluated::Stuck
            },
            failed => failed,
        },
    }
}

/// What comes of evaluating the assignment to `name`.
pub open spec fn evaluate_assignment(
    assignments: Assignments,
    state: EvaluatorView,
    name: Seq<char>,
) -> Evaluated<()>
    decreases outside(assignments.expressions, state.seen.insert(name)), 1int, 0nat,
{
    if is_key(state.evaluated, name) {
        Evaluated::Done { value: (), state }
    } else {
        match lookup(assignments.expressions, name) {
            Some(expression) => match evaluate_expression(
                assignments,
                state.entered(name),
                expression,
            ) {
                Evaluated::Done { value, state } => Evaluated::Done {
                    value: (),
                    state: state.left(name, value),
                },
                Evaluated::Fail { error, state } => Evaluated::Fail { error, state },
                Evaluated::Stuck => Evaluated::Stuck,
            },
            None => match lookup(assignments.tokens, name) {
                Some(token) => Evaluated::Fail {
                    error: token.error(ErrorKindView::UnknownVariable { variable: name }),
                    state: state.entered(name),
                },
                None => Evaluated::Stuck,
            },
        }
    }
}

/// Evaluating an expression forgets nothing, and leaves the stack as it was.
pub proof fn lemma_expression_keeps(
    assignments: Assignments,
    state: EvaluatorView,
    expression: ExpressionView,
)
    ensures
        evaluate_expression(assignments, state, expression) matches Evaluated::Done {
            value,
            state: then_state,
        } ==> {
            &&& state.seen.subset_of(then_state.seen)
            &&& state.stack == then_state.stack
            &&& is_sorted(state.evaluated) ==> is_sorted(then_state.evaluated)
        },
    decreases outside(assignments.expressions, state.seen), 0int, expression.size(),
{
    match expression {
        ExpressionView::String { contents } => {},
        ExpressionView::Variable { name, token } => {
            if !is_key(state.evaluated, name) && !state.seen.contains(name) && is_key(
                assignments.expressions,
                name,
            ) {
                lemma_outside(assignments.expressions, state.seen, state.seen.insert(name));
                lemma_assignment_keeps(assignments, state, name);
            }
        },
        ExpressionView::Concatination { lhs, rhs } => {
            lemma_expression_keeps(assignments, state, *lhs);
            if let Evaluated::Done { value, state: then_state } = evaluate_expression(
                assignments,
                state,
                *lhs,
            ) {
                lemma_outside(assignments.expressions, state.seen, then_state.seen);
                lemma_expression_keeps(assignments, then_state, *rhs);
            }
        },
    }
}

/// Evaluating an assignment forgets nothing, and leaves the stack as it was.
pub proof fn lemma_assignment_keeps(
    assignments: Assignments,
    state: EvaluatorView,
    name: Seq<char>,
)
    ensures
        evaluate_assignment(assignments, state, name) matches Evaluated::Done {
            value,
            state: then_state,
        } ==> {
            &&& state.seen.subset_of(then_state.seen)
            &&& state.stack == then_state.stack
            &&& is_sorted(state.evaluated) ==> is_sorted(then_state.evaluated) && is_key(
                then_state.evaluated,
                name,
            )
        },
    decreases outside(assignments.expressions, state.seen.insert(name)), 1int, 0nat,
{
    if !is_key(state.evaluated, name) {
        if let Some(expression) = lookup(assignments.expressions, name) {
            lemma_expression_keeps(assignments, state.entered(name), expression);
            if let Evaluated::Done { value, state: then_state } = evaluate_expression(
                assignments,
                state.entered(name),
                expression,
            ) {
                assert(then_state.left(name, value).stack =~= state.stack);
                if is_sorted(state.evaluated) {
                    crate::table::law_lookup_after_insert(then_state.evaluated, name, value, name);
                }
            }
        }
    }
}

impl<'a, 'b> Evaluator<'a, 'b> {
    /// The assignments.
    pub open spec fn context(self) -> Assignments {
        Assignments { expressions: self.assignments@, tokens: self.assignment_tokens@ }
    }

    /// Whether the tables are well formed.
    pub open spec fn wf(self) -> bool {
        &&& self.seen.wf()
        &&& self.evaluated.wf()
        &&& self.assignments.wf()
        &&& self.assignment_tokens.wf()
        &&& forall|i: int|
            0 <= i < self.assignments@.len() ==> (#[trigger] self.assignments@[i]).1.all(countable())
        &&& forall|i: int|
            0 <= i < self.assignment_tokens@.len() ==> (#[trigger] self.assignment_tokens@[i]).1.fits()
    }

    /// Whether this is `before` with other variables evaluated.
    pub open spec fn moved(self, before: Self, state: EvaluatorView) -> bool {
        &&& self@ == state
        &&& self.wf()
        &&& self.assignments == before.assignments
        &&& self.assignment_tokens == before.assignment_tokens
    }

    /// Evaluates the assignment to `name`.
    pub fn evaluate_assignment(&mut self, name: &'a str) -> (r: Result<(), Error<'a>>)
        requires
            old(self).wf(),
            evaluate_assignment(old(self).context(), old(self)@, name@) !is Stuck,
        ensures
            match evaluate_assignment(old(self).context(), old(self)@, name@) {
                Evaluated::Done { value, state } => r is Ok && final(self).moved(*old(self), state),
                Evaluated::Fail { error, state } => (r matches Err(e) && e@ == error)
                    && final(self).moved(*old(self), state),
                Evaluated::Stuck => true,
            },
        decreases
                outside(old(self).assignments@, old(self).seen@.insert(name@)),
                1int,
                0nat,
    {
        if self.evaluated.contains_key(name) {
            return Ok(());
        }
        let ghost before = self@;
        let ghost context = self.context();
        let assignments: &'b Table<'a, Expression<'a>> = self.assignments;
        self.stack.push(name);
        self.seen.insert(name);
        proof {
            assert(self@ =~= before.entered(name@));
            assert(self.context() == context);
        }
        match assignments.get(name) {
            Some(expression) => {
                let ghost at = choose|k: int|
                    0 <= k < assignments@.len() && (#[trigger] assignments@[k]) == (
                        name@,
                        expression@,
                    );
                assert(assignments@[at].1.all(countable()));
                match self.evaluate_expression(expression) {
                    Ok(value) => {
                        let ghost state = self@;
                        let ghost view = value@;
                        proof {
                            lemma_expression_keeps(context, before.entered(name@), expression@);
                        }
                        self.evaluated.insert(name, value);
                        let _ = self.stack.pop();
                        proof {
                            assert(names(self.stack@) =~= state.stack.drop_last());
                            assert(self@ =~= state.left(name@, view));
                        }
                        Ok(())
                    },
                    Err(error) => Err(error),
                }
            },
            None => {
                let token: &Token<'a> = self.assignment_tokens.get(name).unwrap();
                let ghost at = choose|k: int|
                    0 <= k < self.assignment_tokens@.len() && (
                    #[trigger] self.assignment_tokens@[k]) == (name@, token@);
                assert(self.assignment_tokens@[at].1.fits());
                Err(token.error(ErrorKind::UnknownVariable { variable: name }))
            },
        }
    }

    /// Evaluates an expression.
    pub fn evaluate_expression(&mut self, expression: &Expression<'a>) -> (r: Result<
        String,
        Error<'a>,
    >)
        requires
            old(self).wf(),
            expression@.all(countable()),
            evaluate_expression(old(self).context(), old(self)@, expression@) !is Stuck,
        ensures
            match evaluate_expression(old(self).context(), old(self)@, expression@) {
                Evaluated::Done { value, state } => (r matches Ok(v) && v@ == value)
                    && final(self).moved(*old(self), state),
                Evaluated::Fail { error, state } => (r matches Err(e) && e@ == error)
                    && final(self).moved(*old(self), state),
                Evaluated::Stuck => true,
            },
        decreases outside(old(self).assignments@, old(self).seen@), 0int, expression@.size(),
    {
        let ghost before = self@;
        let ghost context = self.context();
        match expression {
            Expression::Variable { name, token } => {
                if let Some(value) = self.evaluated.get(name) {
                    return Ok(value.clone());
                }
                if self.seen.contains(name) {
                    let token: &Token<'a> = self.assignment_tokens.get(name).unwrap();
                    let ghost at = choose|k: int|
                        0 <= k < self.assignment_tokens@.len() && (
                        #[trigger] self.assignment_tokens@[k]) == (name@, token@);
                    assert(self.assignment_tokens@[at].1.fits());
                    let ghost was = names(self.stack@);
                    self.stack.push(name);
                    proof {
                        assert(names(self.stack@) =~= was.push(name@));
                        assert(self@ =~= before.reached(name@));
                    }
                    let circle: Vec<&'a str> = self.stack.clone();
                    proof {
                        assert(names(circle@) =~= names(self.stack@));
                    }
                    Err(
                        token.error(
                            ErrorKind::CircularVariableDependency { variable: name, circle },
                        ),
                    )
                } else if !self.assignments.contains_key(name) {
                    Err(token.error(ErrorKind::UnknownVariable { variable: name }))
                } else {
                    proof {
                        lemma_outside(
                            context.expressions,
                            before.seen,
                            before.seen.insert(name@),
                        );
                        lemma_assignment_keeps(context, before, name@);
                    }
                    match self.evaluate_assignment(name) {
                        Err(error) => Err(error),
                        Ok(()) => Ok(self.evaluated.get(name).unwrap().clone()),
                    }
                }
            },
            Expression::String { contents } => Ok(String::from_str(contents)),
            Expression::Concatination { lhs, rhs } => {
                proof {
                    lemma_expression_keeps(context, before, lhs@);
                }
                let mut value: String = match self.evaluate_expression(lhs) {
                    Ok(value) => value,
                    Err(error) => {
                        return Err(error);
                    },
                };
                proof {
                    lemma_outside(context.expressions, before.seen, self@.seen);
                }
                match self.evaluate_expression(rhs) {
                    Ok(right) => {
                        value.append(right.as_str());
                        Ok(value)
                    },
                    Err(error) => Err(error),
                }
            },
        }
    }
}

/// What comes of evaluating the pieces of a line from the one at `i` on, after `done`.
pub open spec fn evaluate_line(
    assignments: Assignments,
    state: EvaluatorView,
    line: Seq<FragmentView>,
    i: nat,
    done: Seq<char>,
) -> Evaluated<Seq<char>>
    decreases line.len() - i,
{
    if i >= line.len() {
        Evaluated::Done { value: done, state }
    } else {
        match line[i as int] {
            FragmentView::Text { text } => evaluate_line(
                assignments,
                state,
                line,
                i + 1,
                done + text.lexeme,
            ),
            FragmentView::Expression { expression } => match evaluate_expression(
                assignments,
                state,
                expression,
            ) {
                Evaluated::Done { value, state } => evaluate_line(
                    assignments,
                    state,
                    line,
                    i + 1,
                    done + value,
                ),
                failed => failed,
            },
        }
    }
}

/// What comes of evaluating the assignments from the one at `i` on.
pub open spec fn evaluate_assignments(
    assignments: Assignments,
    state: EvaluatorView,
    i: nat,
) -> Evaluated<()>
    decreases assignments.expressions.len() - i,
{
    if i >= assignments.expressions.len() {
        Evaluated::Done { value: (), state }
    } else {
        match evaluate_assignment(assignments, state, assignments.expressions[i as int].0) {
            Evaluated::Done { value, state } => evaluate_assignments(assignments, state, i + 1),
            failed => failed,
        }
    }
}

/// Recipes, and what came of evaluating their lines.
pub enum Filled {
    Done { recipes: Seq<(Seq<char>, RecipeView)>, state: EvaluatorView },
    Fail { recipes: Seq<(Seq<char>, RecipeView)>, error: ErrorView },
    /// There is an error in an assignment of which there is no token.
    Stuck,
}

/// `recipes` with one more evaluated line in the recipe at `i`.
pub open spec fn with_line(
    recipes: Seq<(Seq<char>, RecipeView)>,
    i: int,
    line: Seq<char>,
) -> Seq<(Seq<char>, RecipeView)> {
    let recipe = recipes[i].1;
    recipes.update(
        i,
        (
            recipes[i].0,
            (RecipeView { evaluated_lines: recipe.evaluated_lines.push(line), ..recipe }),
        ),
    )
}

/// What comes of evaluating the lines from line `j` of the recipe at `i` on.
pub open spec fn evaluate_recipes(
    assignments: Assignments,
    state: EvaluatorView,
    recipes: Seq<(Seq<char>, RecipeView)>,
    i: nat,
    j: nat,
) -> Filled
    decreases recipes.len() - i, recipes[i as int].1.lines.len() - j,
{
    if i >= recipes.len() {
        Filled::Done { recipes, state }
    } else if j >= recipes[i as int].1.lines.len() {
        evaluate_recipes(assignments, state, recipes, i + 1, 0)
    } else {
        match evaluate_line(
            assignments,
            state,
            recipes[i as int].1.lines[j as int],
            0,
            Seq::empty(),
        ) {
            Evaluated::Done { value, state } => evaluate_recipes(
                assignments,
                state,
                with_line(recipes, i as int, value),
                i,
                j + 1,
            ),
            Evaluated::Fail { error, state } => Filled::Fail { recipes, error },
            Evaluated::Stuck => Filled::Stuck,
        }
    }
}

/// Whether `after` is `before` but for evaluated lines that were added.
pub open spec fn only_lines_added(
    before: Seq<(Seq<char>, RecipeView)>,
    after: Seq<(Seq<char>, RecipeView)>,
) -> bool {
    &&& before.len() == after.len()
    &&& forall|k: int|
        0 <= k < before.len() ==> {
            &&& (#[trigger] after[k]).0 == before[k].0
            &&& before[k].1.evaluated_lines.is_prefix_of(after[k].1.evaluated_lines)
            &&& after[k].1 == (RecipeView {
                evaluated_lines: after[k].1.evaluated_lines,
                ..before[k].1
            })
        }
}

/// Evaluating the lines of recipes only adds evaluated lines.
pub proof fn lemma_only_lines_added(
    assignments: Assignments,
    state: EvaluatorView,
    recipes: Seq<(Seq<char>, RecipeView)>,
    i: nat,
    j: nat,
)
    ensures
        match evaluate_recipes(assignments, state, recipes, i, j) {
            Filled::Done { recipes: filled, state } => only_lines_added(recipes, filled),
            Filled::Fail { recipes: filled, error } => only_lines_added(recipes, filled),
            Filled::Stuck => true,
        },
    decreases recipes.len() - i, recipes[i as int].1.lines.len() - j,
{
    if i < recipes.len() {
        if j >= recipes[i as int].1.lines.len() {
            lemma_only_lines_added(assignments, state, recipes, i + 1, 0);
        } else {
            let line = recipes[i as int].1.lines[j as int];
            if let Evaluated::Done { value, state: then_state } = evaluate_line(
                assignments,
                state,
                line,
                0,
                Seq::empty(),
            ) {
                let more = with_line(recipes, i as int, value);
                lemma_only_lines_added(assignments, then_state, more, i, j + 1);
                let lines = recipes[i as int].1.evaluated_lines;
                assert(lines.is_prefix_of(lines.push(value)));
                assert(only_lines_added(recipes, more));
            }
        }
    }
}

/// What comes of evaluating all assignments and then the lines of all recipes.
pub open spec fn evaluate_all(
    assignments: Assignments,
    recipes: Seq<(Seq<char>, RecipeView)>,
) -> Filled {
    match evaluate_assignments(assignments, EvaluatorView::initial(), 0) {
        Evaluated::Done { value, state } => evaluate_recipes(assignments, state, recipes, 0, 0),
        Evaluated::Fail { error, state } => Filled::Fail { recipes, error },
        Evaluated::Stuck => Filled::Stuck,
    }
}

impl<'a, 'b> Evaluator<'a, 'b> {
    /// Evaluates a line.
    fn line(&mut self, line: &Vec<Fragment<'a>>) -> (r: Result<String, Error<'a>>)
        requires
            old(self).wf(),
            line_all(fragment_views(line@), countable()),
            evaluate_line(
                old(self).context(),
                old(self)@,
                fragment_views(line@),
                0,
                Seq::empty(),
            ) !is Stuck,
        ensures
            match evaluate_line(
                old(self).context(),
                old(self)@,
                fragment_views(line@),
                0,
                Seq::empty(),
            ) {
                Evaluated::Done { value, state } => (r matches Ok(v) && v@ == value)
                    && final(self).moved(*old(self), state),
                Evaluated::Fail { error, state } => (r matches Err(e) && e@ == error)
                    && final(self).moved(*old(self), state),
                Evaluated::Stuck => true,
            },
    {
        let ghost pieces = fragment_views(line@);
        let mut value: String = String::new();
        let mut i: usize = 0;
        proof {
            assert(value@ =~= Seq::empty());
        }
        while i < line.len()
            invariant
                i <= line@.len(),
                pieces == fragment_views(line@),
                line_all(pieces, countable()),
                self.moved(*old(self), self@),
                evaluate_line(old(self).context(), old(self)@, pieces, 0, Seq::empty()) !is Stuck,
                evaluate_line(old(self).context(), old(self)@, pieces, 0, Seq::empty())
                    == evaluate_line(old(self).context(), self@, pieces, i as nat, value@),
            decreases line@.len() - i,
        {
            assert(pieces[i as int] == line@[i as int]@);
            match &line[i] {
                Fragment::Text { text } => {
                    value.append(text.lexeme);
                },
                Fragment::Expression { expression } => {
                    assert(self.context() == old(self).context());
                    match self.evaluate_expression(expression) {
                        Ok(piece) => {
                            value.append(piece.as_str());
                        },
                        Err(error) => {
                            return Err(error);
                        },
                    }
                },
            }
            i += 1;
        }
        Ok(value)
    }
}

/// Evaluates the assignments, and then the lines of the recipes. Gives the values of the variables.
pub fn evaluate<'a>(
    assignments: &Table<'a, Expression<'a>>,
    assignment_tokens: &Table<'a, Token<'a>>,
    recipes: &mut Table<'a, Recipe<'a>>,
) -> (r: Result<Table<'a, String>, Error<'a>>)
    requires
        assignments.wf(),
        assignment_tokens.wf(),
        old(recipes).wf(),
        forall|i: int|
            0 <= i < assignments@.len() ==> (#[trigger] assignments@[i]).1.all(countable()),
        forall|i: int|
            0 <= i < assignment_tokens@.len() ==> (#[trigger] assignment_tokens@[i]).1.fits(),
        forall|i: int|
            0 <= i < old(recipes)@.len() ==> lines_all(
                (#[trigger] old(recipes)@[i]).1.lines,
                countable(),
            ),
        evaluate_all(
            (Assignments { expressions: assignments@, tokens: assignment_tokens@ }),
            old(recipes)@,
        ) !is Stuck,
    ensures
        final(recipes).wf(),
        match evaluate_all(
            (Assignments { expressions: assignments@, tokens: assignment_tokens@ }),
            old(recipes)@,
        ) {
            Filled::Done { recipes: filled, state } => final(recipes)@ == filled && (r matches Ok(
                values,
            ) && values.wf() && values@ == state.evaluated),
            Filled::Fail { recipes: filled, error } => final(recipes)@ == filled && (r matches Err(
                e,
            ) && e@ == error),
            Filled::Stuck => true,
        },
{
    let mut evaluator: Evaluator<'a, '_> = Evaluator {
        stack: Vec::new(),
        seen: Names::new(),
        evaluated: Table::new(),
        assignments,
        assignment_tokens,
    };
    let ghost context = evaluator.context();
    let ghost start = evaluator;
    let ghost all = evaluate_all(context, recipes@);
    proof {
        assert(evaluator@ =~= EvaluatorView::initial());
    }
    let mut i: usize = 0;
    while i < assignments.entries.len()
        invariant
            i <= assignments@.len(),
            assignments@.len() == assignments.entries@.len(),
            assignments == start.assignments,
            context == start.context(),
            evaluator.moved(start, evaluator@),
            evaluate_assignments(context, EvaluatorView::initial(), 0) !is Stuck,
            evaluate_assignments(context, EvaluatorView::initial(), 0) == evaluate_assignments(
                context,
                evaluator@,
                i as nat,
            ),
            *recipes == *old(recipes),
            old(recipes).wf(),
            all == evaluate_all(context, old(recipes)@),
            context == (Assignments { expressions: assignments@, tokens: assignment_tokens@ }),
        decreases assignments@.len() - i,
    {
        assert(assignments@[i as int].0 == assignments.entries@[i as int].0@);
        assert(evaluator.context() == context);
        match evaluator.evaluate_assignment(assignments.entries[i].0) {
            Ok(()) => {},
            Err(error) => {
                return Err(error);
            },
        }
        i += 1;
    }
    let mut i: usize = 0;
    let ghost count = recipes@.len();
    while i < recipes.entries.len()
        invariant
            i <= recipes@.len(),
            count == recipes@.len(),
            recipes@.len() == recipes.entries@.len(),
            recipes.wf(),
            forall|k: int|
                0 <= k < recipes@.len() ==> lines_all(
                    (#[trigger] recipes@[k]).1.lines,
                    countable(),
                ),
            context == start.context(),
            evaluator.moved(start, evaluator@),
            all !is Stuck,
            all == evaluate_recipes(context, evaluator@, recipes@, i as nat, 0),
            all == evaluate_all(context, old(recipes)@),
            context == (Assignments { expressions: assignments@, tokens: assignment_tokens@ }),
        decreases count - i,
    {
        let mut j: usize = 0;
        while j < recipes.entries[i].1.lines.len()
            invariant
                i < recipes@.len(),
                count == recipes@.len(),
                j <= recipes@[i as int].1.lines.len(),
                recipes@.len() == recipes.entries@.len(),
                recipes.wf(),
                forall|k: int|
                    0 <= k < recipes@.len() ==> lines_all(
                        (#[trigger] recipes@[k]).1.lines,
                        countable(),
                    ),
                context == start.context(),
                evaluator.moved(start, evaluator@),
                all !is Stuck,
                all == evaluate_recipes(context, evaluator@, recipes@, i as nat, j as nat),
                all == evaluate_all(context, old(recipes)@),
                context == (Assignments { expressions: assignments@, tokens: assignment_tokens@ }),
            decreases recipes@[i as int].1.lines.len() - j,
        {
            let ghost was = recipes@;
            proof {
                assert(recipes@[i as int] == (
                    recipes.entries@[i as int].0@,
                    recipes.entries@[i as int].1@,
                ));
                assert(recipes@[i as int].1.lines[j as int] == fragment_views(
                    recipes.entries@[i as int].1.lines@[j as int]@,
                ));
                assert(lines_all(recipes@[i as int].1.lines, countable()));
                assert(evaluator.context() == context);
            }
            match evaluator.line(&recipes.entries[i].1.lines[j]) {
                Ok(line) => {
                    let ghost view = line@;
                    let ghost entries = recipes.entries@;
                    recipes.entries[i].1.evaluated_lines.push(line);
                    proof {
                        assert(string_views(recipes.entries@[i as int].1.evaluated_lines@)
                            =~= string_views(entries[i as int].1.evaluated_lines@).push(view));
                        assert(recipes@[i as int] == with_line(was, i as int, view)[i as int]);
                        assert forall|k: int| 0 <= k < was.len() && k != i implies #[trigger] recipes@[k]
                            == was[k] by {
                            assert(recipes.entries@[k] == entries[k]);
                        }
                        assert(recipes@ =~= with_line(was, i as int, view));
                    }
                },
                Err(error) => {
                    return Err(error);
                },
            }
            j += 1;
        }
        i += 1;
    }
    Ok(evaluator.evaluated)
}

} // verus!
