//! What is the same but for where its tokens stand: it is resolved, checked, evaluated and written
//! in the same way.

use vstd::prelude::*;

use crate::evaluator::{evaluate_assignment, evaluate_assignments, evaluate_expression};
use crate::evaluator::{evaluate_line, evaluate_recipes, with_line, Assignments, Evaluated};
use crate::evaluator::{EvaluatorView, Filled};
use crate::expression::ExpressionView;
use crate::file::{check_recipe, check_recipes, finish, first_shadow, first_unknown, line_variables};
use crate::file::{lines_variables, walked, Items, ParsedFile};
use crate::justfile::JustfileView;
use crate::recipe::{lines_shown, pieces_shown, FragmentView, RecipeView};
use crate::resolver::{lemma_unseen, resolve_all, resolve_from, resolve_recipe, unseen, Resolution};
use crate::resolver::ResolverView;
use crate::table::{is_key, is_sorted, lemma_found, lemma_lookup, lemma_outside, lookup, outside};
use crate::text::is_before;
use crate::token::{lexemes, TokenView};

verus! {

/// Whether two expressions are the same but for where their tokens stand.
pub open spec fn alike_expressions(a: ExpressionView, b: ExpressionView) -> bool
    decreases a,
{
    match a {
        ExpressionView::Variable { name, token } => b matches ExpressionView::Variable {
            name: other,
            token: other_token,
        } && name == other && token.lexeme == other_token.lexeme,
        ExpressionView::String { contents } => b matches ExpressionView::String { contents: other }
            && contents == other,
        ExpressionView::Concatination { lhs, rhs } => b matches ExpressionView::Concatination {
            lhs: other_lhs,
            rhs: other_rhs,
        } && alike_expressions(*lhs, *other_lhs) && alike_expressions(*rhs, *other_rhs),
    }
}

/// Whether two pieces are the same but for where their tokens stand.
pub open spec fn alike_pieces(a: FragmentView, b: FragmentView) -> bool {
    match a {
        FragmentView::Text { text } => b matches FragmentView::Text { text: other } && text.lexeme
            == other.lexeme,
        FragmentView::Expression { expression } => b matches FragmentView::Expression {
            expression: other,
        } && alike_expressions(expression, other),
    }
}

/// Whether two lines are the same but for where their tokens stand.
pub open spec fn alike_lines(a: Seq<FragmentView>, b: Seq<FragmentView>) -> bool {
    &&& a.len() == b.len()
    &&& forall|i: int| 0 <= i < a.len() ==> alike_pieces(#[trigger] a[i], b[i])
}

/// Whether the lines of two bodies are the same but for where their tokens stand.
pub open spec fn alike_bodies(a: Seq<Seq<FragmentView>>, b: Seq<Seq<FragmentView>>) -> bool {
    &&& a.len() == b.len()
    &&& forall|i: int| 0 <= i < a.len() ==> alike_lines(#[trigger] a[i], b[i])
}

/// Whether two recipes are the same but for where their tokens stand and for what has been
/// evaluated.
pub open spec fn alike_recipes(a: RecipeView, b: RecipeView) -> bool {
    &&& a.name == b.name
    &&& a.dependencies == b.dependencies
    &&& lexemes(a.dependency_tokens) == lexemes(b.dependency_tokens)
    &&& a.arguments == b.arguments
    &&& lexemes(a.argument_tokens) == lexemes(b.argument_tokens)
    &&& a.shebang == b.shebang
    &&& alike_bodies(a.lines, b.lines)
}

/// Whether the names in two tables are the same.
pub open spec fn same_keys<S, T>(a: Seq<(Seq<char>, S)>, b: Seq<(Seq<char>, T)>) -> bool {
    &&& a.len() == b.len()
    &&& forall|i: int| 0 <= i < a.len() ==> (#[trigger] a[i]).0 == b[i].0
}

/// Whether two tables hold assignments that are the same but for where their tokens stand.
pub open spec fn alike_assignments(
    a: Seq<(Seq<char>, ExpressionView)>,
    b: Seq<(Seq<char>, ExpressionView)>,
) -> bool {
    &&& same_keys(a, b)
    &&& forall|i: int| 0 <= i < a.len() ==> alike_expressions((#[trigger] a[i]).1, b[i].1)
}

/// Whether two tables hold recipes that are the same but for where their tokens stand and for what
/// has been evaluated.
pub open spec fn alike_tables(
    a: Seq<(Seq<char>, RecipeView)>,
    b: Seq<(Seq<char>, RecipeView)>,
) -> bool {
    &&& same_keys(a, b)
    &&& forall|i: int| 0 <= i < a.len() ==> alike_recipes((#[trigger] a[i]).1, b[i].1)
}

/// Whether two justfiles hold the same items but for where their tokens stand.
pub open spec fn alike_items(a: Items, b: Items) -> bool {
    &&& alike_tables(a.recipes, b.recipes)
    &&& alike_assignments(a.assignments, b.assignments)
}

/// Tables with the same names are sorted in the same way.
proof fn lemma_same_sorted<S, T>(a: Seq<(Seq<char>, S)>, b: Seq<(Seq<char>, T)>)
    requires
        same_keys(a, b),
        is_sorted(a),
    ensures
        is_sorted(b),
{
    assert forall|i: int, j: int| 0 <= i < j < b.len() implies is_before(
        (#[trigger] b[i]).0,
        (#[trigger] b[j]).0,
    ) by {
        assert(a[i].0 == b[i].0);
        assert(a[j].0 == b[j].0);
    }
}

/// Tables with the same names have the same names in them.
proof fn lemma_same_keys<S, T>(a: Seq<(Seq<char>, S)>, b: Seq<(Seq<char>, T)>, name: Seq<char>)
    requires
        same_keys(a, b),
    ensures
        is_key(a, name) == is_key(b, name),
{
    if is_key(a, name) {
        let i = lemma_found(a, name);
        assert(b[i].0 == name);
    }
    if is_key(b, name) {
        let i = lemma_found(b, name);
        assert(a[i].0 == name);
    }
}

/// In tables with the same names, what stands under a name stands at the same place.
proof fn lemma_same_place<S, T>(
    a: Seq<(Seq<char>, S)>,
    b: Seq<(Seq<char>, T)>,
    name: Seq<char>,
) -> (i: int)
    requires
        same_keys(a, b),
        is_sorted(a),
        is_key(a, name),
    ensures
        0 <= i < a.len(),
        a[i].0 == name,
        lookup(a, name) == Some(a[i].1),
        lookup(b, name) == Some(b[i].1),
{
    let i = lemma_found(a, name);
    lemma_same_sorted(a, b);
    assert(a[i].0 == b[i].0);
    lemma_lookup(b, i);
    i
}

/// As many names are outside of tables with the same names.
proof fn lemma_same_outside<S, T>(
    a: Seq<(Seq<char>, S)>,
    b: Seq<(Seq<char>, T)>,
    inside: Set<Seq<char>>,
)
    requires
        same_keys(a, b),
    ensures
        outside(a, inside) == outside(b, inside),
    decreases a.len(),
{
    if a.len() > 0 {
        assert(a.last().0 == b.last().0);
        assert forall|i: int| 0 <= i < a.drop_last().len() implies (#[trigger] a.drop_last()[i]).0
            == b.drop_last()[i].0 by {
            assert(a[i].0 == b[i].0);
        }
        lemma_same_outside(a.drop_last(), b.drop_last(), inside);
    }
}

/// Expressions that are alike are as large, have alike leaves, and are written in the same way.
pub proof fn lemma_alike_expressions(a: ExpressionView, b: ExpressionView)
    requires
        alike_expressions(a, b),
    ensures
        a.size() == b.size(),
        a.shown() == b.shown(),
        alike_leaves(a.leaves(), b.leaves()),
    decreases a,
{
    match a {
        ExpressionView::Concatination { lhs, rhs } => {
            if let ExpressionView::Concatination { lhs: other_lhs, rhs: other_rhs } = b {
                lemma_alike_expressions(*lhs, *other_lhs);
                lemma_alike_expressions(*rhs, *other_rhs);
            }
        },
        _ => {},
    }
}

/// Whether the leaves of two expressions are alike.
pub open spec fn alike_leaves(a: Seq<Option<TokenView>>, b: Seq<Option<TokenView>>) -> bool {
    &&& a.len() == b.len()
    &&& forall|i: int|
        0 <= i < a.len() ==> ((#[trigger] a[i]) is Some) == (b[i] is Some) && (a[i] is Some
            ==> a[i]->0.lexeme == b[i]->0.lexeme)
}

/// Expressions that are alike have the same value.
proof fn lemma_alike_values(
    x: Assignments,
    y: Assignments,
    state: EvaluatorView,
    a: ExpressionView,
    b: ExpressionView,
)
    requires
        is_sorted(x.expressions),
        alike_assignments(x.expressions, y.expressions),
        alike_expressions(a, b),
    ensures
        evaluate_expression(x, state, a) is Done ==> evaluate_expression(y, state, b)
            == evaluate_expression(x, state, a),
    decreases outside(x.expressions, state.seen), 0int, a.size(),
{
    match a {
        ExpressionView::String { contents } => {},
        ExpressionView::Variable { name, token } => {
            lemma_same_keys(x.expressions, y.expressions, name);
            if !is_key(state.evaluated, name) && !state.seen.contains(name) && is_key(
                x.expressions,
                name,
            ) {
                lemma_outside(x.expressions, state.seen, state.seen.insert(name));
                lemma_alike_assignment(x, y, state, name);
            }
        },
        ExpressionView::Concatination { lhs, rhs } => {
            if let ExpressionView::Concatination { lhs: other_lhs, rhs: other_rhs } = b {
                lemma_alike_values(x, y, state, *lhs, *other_lhs);
                if let Evaluated::Done { value, state: then_state } = evaluate_expression(
                    x,
                    state,
                    *lhs,
                ) {
                    lemma_same_outside(x.expressions, y.expressions, state.seen);
                    lemma_same_outside(x.expressions, y.expressions, then_state.seen);
                    if outside(x.expressions, then_state.seen) <= outside(
                        x.expressions,
                        state.seen,
                    ) {
                        lemma_alike_values(x, y, then_state, *rhs, *other_rhs);
                    }
                }
            }
        },
    }
}

/// Assignments that are alike have the same value.
proof fn lemma_alike_assignment(
    x: Assignments,
    y: Assignments,
    state: EvaluatorView,
    name: Seq<char>,
)
    requires
        is_sorted(x.expressions),
        alike_assignments(x.expressions, y.expressions),
    ensures
        evaluate_assignment(x, state, name) is Done ==> evaluate_assignment(y, state, name)
            == evaluate_assignment(x, state, name),
    decreases outside(x.expressions, state.seen.insert(name)), 1int, 0nat,
{
    if !is_key(state.evaluated, name) && is_key(x.expressions, name) {
        let i = lemma_same_place(x.expressions, y.expressions, name);
        let a = x.expressions[i].1;
        lemma_alike_values(x, y, state.entered(name), a, y.expressions[i].1);
    }
}

/// All assignments have the same values.
proof fn lemma_alike_evaluations(x: Assignments, y: Assignments, state: EvaluatorView, i: nat)
    requires
        is_sorted(x.expressions),
        alike_assignments(x.expressions, y.expressions),
    ensures
        evaluate_assignments(x, state, i) is Done ==> evaluate_assignments(y, state, i)
            == evaluate_assignments(x, state, i),
    decreases x.expressions.len() - i,
{
    if i < x.expressions.len() {
        let name = x.expressions[i as int].0;
        assert(name == y.expressions[i as int].0);
        lemma_alike_assignment(x, y, state, name);
        if let Evaluated::Done { value, state: then_state } = evaluate_assignment(x, state, name) {
            lemma_alike_evaluations(x, y, then_state, i + 1);
        }
    }
}

/// Lines that are alike have the same value.
proof fn lemma_alike_line(
    x: Assignments,
    y: Assignments,
    state: EvaluatorView,
    a: Seq<FragmentView>,
    b: Seq<FragmentView>,
    i: nat,
    done: Seq<char>,
)
    requires
        is_sorted(x.expressions),
        alike_assignments(x.expressions, y.expressions),
        alike_lines(a, b),
    ensures
        evaluate_line(x, state, a, i, done) is Done ==> evaluate_line(y, state, b, i, done)
            == evaluate_line(x, state, a, i, done),
    decreases a.len() - i,
{
    if i < a.len() {
        assert(alike_pieces(a[i as int], b[i as int]));
        match a[i as int] {
            FragmentView::Text { text } => {
                lemma_alike_line(x, y, state, a, b, i + 1, done + text.lexeme);
            },
            FragmentView::Expression { expression } => {
                lemma_alike_values(x, y, state, expression, b[i as int]->expression);
                if let Evaluated::Done { value, state: then_state } = evaluate_expression(
                    x,
                    state,
                    expression,
                ) {
                    lemma_alike_line(x, y, then_state, a, b, i + 1, done + value);
                }
            },
        }
    }
}

/// Recipes that are alike are evaluated in the same way, and stay alike.
proof fn lemma_alike_filled(
    x: Assignments,
    y: Assignments,
    state: EvaluatorView,
    a: Seq<(Seq<char>, RecipeView)>,
    b: Seq<(Seq<char>, RecipeView)>,
    i: nat,
    j: nat,
)
    requires
        is_sorted(x.expressions),
        alike_assignments(x.expressions, y.expressions),
        alike_tables(a, b),
    ensures
        evaluate_recipes(x, state, a, i, j) matches Filled::Done { recipes, state: last } ==> (
        evaluate_recipes(y, state, b, i, j) matches Filled::Done { recipes: others, state: ended }
            && last == ended && alike_tables(recipes, others)),
    decreases a.len() - i, a[i as int].1.lines.len() - j,
{
    if i < a.len() {
        assert(alike_recipes(a[i as int].1, b[i as int].1));
        if j >= a[i as int].1.lines.len() {
            lemma_alike_filled(x, y, state, a, b, i + 1, 0);
        } else {
            let line = a[i as int].1.lines[j as int];
            let other = b[i as int].1.lines[j as int];
            assert(alike_lines(line, other));
            lemma_alike_line(x, y, state, line, other, 0, Seq::empty());
            if let Evaluated::Done { value, state: then_state } = evaluate_line(
                x,
                state,
                line,
                0,
                Seq::empty(),
            ) {
                let more = with_line(a, i as int, value);
                let others = with_line(b, i as int, value);
                assert forall|k: int| 0 <= k < more.len() implies (#[trigger] more[k]).0
                    == others[k].0 && alike_recipes(more[k].1, others[k].1) by {
                    assert(a[k].0 == b[k].0);
                    assert(alike_recipes(a[k].1, b[k].1));
                }
                lemma_alike_filled(x, y, then_state, more, others, i, j + 1);
            }
        }
    }
}

/// The dependencies of recipes that are alike are resolved in the same way.
proof fn lemma_alike_resolved(
    a: Seq<(Seq<char>, RecipeView)>,
    b: Seq<(Seq<char>, RecipeView)>,
    state: ResolverView,
    r: RecipeView,
    s: RecipeView,
    i: nat,
)
    requires
        is_sorted(a),
        alike_tables(a, b),
        alike_recipes(r, s),
    ensures
        resolve_from(a, state, r, i) is Done ==> resolve_from(b, state, s, i) == resolve_from(
            a,
            state,
            r,
            i,
        ),
    decreases unseen(a, state.seen), r.dependency_tokens.len() - i,
{
    assert(lexemes(r.dependency_tokens).len() == lexemes(s.dependency_tokens).len());
    if i < r.dependency_tokens.len() {
        let name = r.dependency_tokens[i as int].lexeme;
        assert(name == lexemes(r.dependency_tokens)[i as int]);
        assert(name == lexemes(s.dependency_tokens)[i as int]);
        if is_key(a, name) {
            let k = lemma_same_place(a, b, name);
            let dependency = a[k].1;
            assert(alike_recipes(dependency, b[k].1));
            if state.resolved.contains(dependency.name) {
                lemma_alike_resolved(a, b, state, r, s, i + 1);
            } else if !state.seen.contains(dependency.name) {
                lemma_unseen(a, state.seen, state.seen.insert(dependency.name));
                lemma_alike_resolved(
                    a,
                    b,
                    state.entered(dependency.name),
                    dependency,
                    b[k].1,
                    0,
                );
            }
        }
    }
}

/// Recipes that are alike are resolved in the same way.
proof fn lemma_alike_resolutions(
    a: Seq<(Seq<char>, RecipeView)>,
    b: Seq<(Seq<char>, RecipeView)>,
    state: ResolverView,
    i: nat,
)
    requires
        is_sorted(a),
        alike_tables(a, b),
    ensures
        resolve_all(a, state, i) is Done ==> resolve_all(b, state, i) == resolve_all(a, state, i),
    decreases a.len() - i,
{
    if i < a.len() {
        let r = a[i as int].1;
        let s = b[i as int].1;
        assert(alike_recipes(r, s));
        lemma_alike_resolved(a, b, state.entered(r.name), r, s, 0);
        if let Resolution::Done { state: then_state } = resolve_recipe(a, state, r) {
            lemma_alike_resolutions(a, b, then_state, i + 1);
        }
    }
}

/// Walks over leaves that are alike meet variables with the same names.
proof fn lemma_alike_walks(a: Seq<Option<TokenView>>, b: Seq<Option<TokenView>>)
    requires
        alike_leaves(a, b),
    ensures
        lexemes(walked(a)) == lexemes(walked(b)),
    decreases a.len(),
{
    if a.len() > 0 && a[0] is Some {
        assert(a[0]->0.lexeme == b[0]->0.lexeme);
        assert forall|i: int| 0 <= i < a.skip(1).len() implies ((#[trigger] a.skip(1)[i]) is Some)
            == (b.skip(1)[i] is Some) && (a.skip(1)[i] is Some ==> a.skip(1)[i]->0.lexeme
            == b.skip(1)[i]->0.lexeme) by {
            assert(a[i + 1] == a.skip(1)[i]);
        }
        lemma_alike_walks(a.skip(1), b.skip(1));
        lemma_lexemes_joined(seq![a[0]->0], walked(a.skip(1)));
        lemma_lexemes_joined(seq![b[0]->0], walked(b.skip(1)));
        assert(lexemes(seq![a[0]->0]) =~= lexemes(seq![b[0]->0]));
    } else if a.len() > 0 {
        assert(b[0] is None);
    }
}

/// The characters of tokens after others stand after theirs.
proof fn lemma_lexemes_joined(a: Seq<TokenView>, b: Seq<TokenView>)
    ensures
        lexemes(a + b) == lexemes(a) + lexemes(b),
{
    assert(lexemes(a + b) =~= lexemes(a) + lexemes(b));
}

/// Lines that are alike have variables with the same names.
proof fn lemma_alike_line_variables(a: Seq<FragmentView>, b: Seq<FragmentView>, i: nat)
    requires
        alike_lines(a, b),
    ensures
        lexemes(line_variables(a, i)) == lexemes(line_variables(b, i)),
    decreases a.len() - i,
{
    if i < a.len() {
        assert(alike_pieces(a[i as int], b[i as int]));
        lemma_alike_line_variables(a, b, i + 1);
        match a[i as int] {
            FragmentView::Text { text } => {
                assert(line_variables(a, i) =~= line_variables(a, i + 1));
                assert(line_variables(b, i) =~= line_variables(b, i + 1));
            },
            FragmentView::Expression { expression } => {
                let other = b[i as int]->expression;
                lemma_alike_expressions(expression, other);
                lemma_alike_walks(expression.leaves(), other.leaves());
                lemma_lexemes_joined(walked(expression.leaves()), line_variables(a, i + 1));
                lemma_lexemes_joined(walked(other.leaves()), line_variables(b, i + 1));
            },
        }
    }
}

/// Bodies that are alike have variables with the same names.
proof fn lemma_alike_variables(a: Seq<Seq<FragmentView>>, b: Seq<Seq<FragmentView>>, i: nat)
    requires
        alike_bodies(a, b),
    ensures
        lexemes(lines_variables(a, i)) == lexemes(lines_variables(b, i)),
    decreases a.len() - i,
{
    if i < a.len() {
        assert(alike_lines(a[i as int], b[i as int]));
        lemma_alike_variables(a, b, i + 1);
        lemma_alike_line_variables(a[i as int], b[i as int], 0);
        lemma_lexemes_joined(line_variables(a[i as int], 0), lines_variables(a, i + 1));
        lemma_lexemes_joined(line_variables(b[i as int], 0), lines_variables(b, i + 1));
    }
}

/// Among tokens with the same characters, if none of the one shadows a variable, none of the other
/// does.
proof fn lemma_alike_shadows(
    a: Seq<TokenView>,
    b: Seq<TokenView>,
    x: Seq<(Seq<char>, ExpressionView)>,
    y: Seq<(Seq<char>, ExpressionView)>,
    i: nat,
)
    requires
        lexemes(a) == lexemes(b),
        same_keys(x, y),
        first_shadow(a, x, i) is None,
    ensures
        first_shadow(b, y, i) is None,
    decreases a.len() - i,
{
    assert(lexemes(a).len() == a.len());
    assert(lexemes(b).len() == b.len());
    if i < a.len() {
        assert(a[i as int].lexeme == lexemes(a)[i as int]);
        assert(b[i as int].lexeme == lexemes(b)[i as int]);
        lemma_same_keys(x, y, a[i as int].lexeme);
        lemma_alike_shadows(a, b, x, y, i + 1);
    }
}

/// Among tokens with the same characters, if none of the one is unknown, none of the other is.
proof fn lemma_alike_unknown(
    a: Seq<TokenView>,
    b: Seq<TokenView>,
    x: Seq<(Seq<char>, ExpressionView)>,
    y: Seq<(Seq<char>, ExpressionView)>,
    arguments: Seq<Seq<char>>,
)
    requires
        lexemes(a) == lexemes(b),
        same_keys(x, y),
        first_unknown(a, x, arguments) is None,
    ensures
        first_unknown(b, y, arguments) is None,
    decreases a.len(),
{
    assert(lexemes(a).len() == a.len());
    assert(lexemes(b).len() == b.len());
    if a.len() > 0 {
        assert(a[0].lexeme == lexemes(a)[0]);
        assert(b[0].lexeme == lexemes(b)[0]);
        lemma_same_keys(x, y, a[0].lexeme);
        assert(lexemes(a.skip(1)) =~= lexemes(a).skip(1));
        assert(lexemes(b.skip(1)) =~= lexemes(b).skip(1));
        lemma_alike_unknown(a.skip(1), b.skip(1), x, y, arguments);
    }
}

/// If recipes go with their assignments, those that are alike do.
proof fn lemma_alike_checks(
    text: Seq<char>,
    other: Seq<char>,
    x: Seq<(Seq<char>, ExpressionView)>,
    y: Seq<(Seq<char>, ExpressionView)>,
    a: Seq<(Seq<char>, RecipeView)>,
    b: Seq<(Seq<char>, RecipeView)>,
    i: nat,
)
    requires
        same_keys(x, y),
        alike_tables(a, b),
        check_recipes(text, x, a, i) is Fine,
    ensures
        check_recipes(other, y, b, i) is Fine,
    decreases a.len() - i,
{
    if i < a.len() {
        let r = a[i as int].1;
        let s = b[i as int].1;
        assert(alike_recipes(r, s));
        assert(check_recipe(text, x, r) is Fine);
        assert(first_shadow(r.argument_tokens, x, 0) is None);
        lemma_alike_shadows(r.argument_tokens, s.argument_tokens, x, y, 0);
        if let Some(token) = first_unknown(lines_variables(r.lines, 0), x, r.arguments) {
            assert(false);
        }
        lemma_alike_variables(r.lines, s.lines, 0);
        lemma_alike_unknown(
            lines_variables(r.lines, 0),
            lines_variables(s.lines, 0),
            x,
            y,
            r.arguments,
        );
        lemma_alike_checks(text, other, x, y, a, b, i + 1);
    }
}

/// If items make a justfile, items that are alike make one with the same values, and with recipes
/// that are alike.
pub proof fn lemma_alike_finish(text: Seq<char>, other: Seq<char>, a: Items, b: Items)
    requires
        a.wf(),
        alike_items(a, b),
    ensures
        finish(text, a) matches ParsedFile::Done { justfile } ==> (finish(other, b)
            matches ParsedFile::Done { justfile: made } && made.values == justfile.values
            && alike_assignments(justfile.assignments, made.assignments) && alike_tables(
            justfile.recipes,
            made.recipes,
        )),
{
    if finish(text, a) is Done {
        let x = Assignments { expressions: a.assignments, tokens: a.assignment_tokens };
        let y = Assignments { expressions: b.assignments, tokens: b.assignment_tokens };
        lemma_alike_resolutions(a.recipes, b.recipes, ResolverView::initial(), 0);
        assert(check_recipes(text, a.assignments, a.recipes, 0) is Fine);
        lemma_alike_checks(text, other, a.assignments, b.assignments, a.recipes, b.recipes, 0);
        lemma_alike_evaluations(x, y, EvaluatorView::initial(), 0);
        let state = evaluate_assignments(x, EvaluatorView::initial(), 0)->Done_state;
        lemma_alike_filled(x, y, state, a.recipes, b.recipes, 0, 0);
    }
}

/// Pieces that are alike are written in the same way.
proof fn lemma_alike_pieces_shown(a: Seq<FragmentView>, b: Seq<FragmentView>)
    requires
        alike_lines(a, b),
    ensures
        pieces_shown(a) == pieces_shown(b),
    decreases a.len(),
{
    if a.len() > 0 {
        let last = a.len() - 1;
        assert(alike_pieces(a[last], b[last]));
        assert forall|i: int| 0 <= i < a.drop_last().len() implies alike_pieces(
            #[trigger] a.drop_last()[i],
            b.drop_last()[i],
        ) by {
            assert(alike_pieces(a[i], b[i]));
        }
        lemma_alike_pieces_shown(a.drop_last(), b.drop_last());
        if let FragmentView::Expression { expression } = a[last] {
            lemma_alike_expressions(expression, b[last]->expression);
        }
    }
}

/// Recipes that are alike are written in the same way.
pub proof fn lemma_alike_recipes_shown(a: RecipeView, b: RecipeView)
    requires
        alike_recipes(a, b),
    ensures
        a.shown() == b.shown(),
{
    assert forall|i: int| 0 <= i < a.lines.len() implies lines_shown(a.lines)[i] == lines_shown(
        b.lines,
    )[i] by {
        assert(alike_lines(a.lines[i], b.lines[i]));
        lemma_alike_pieces_shown(a.lines[i], b.lines[i]);
    }
    assert(lines_shown(a.lines) =~= lines_shown(b.lines));
}

/// Justfiles that are alike and have the same values are written in the same way.
pub proof fn lemma_alike_shown(a: JustfileView, b: JustfileView)
    requires
        a.values == b.values,
        alike_assignments(a.assignments, b.assignments),
        alike_tables(a.recipes, b.recipes),
    ensures
        a.shown() == b.shown(),
{
    assert forall|i: int| 0 <= i < a.assignments.len() implies a.assignments_shown()[i]
        == b.assignments_shown()[i] by {
        assert(a.assignments[i].0 == b.assignments[i].0);
        lemma_alike_expressions(a.assignments[i].1, b.assignments[i].1);
    }
    assert(a.assignments_shown() =~= b.assignments_shown());
    assert forall|i: int| 0 <= i < a.recipes.len() implies a.recipes_shown()[i]
        == b.recipes_shown()[i] by {
        lemma_alike_recipes_shown(a.recipes[i].1, b.recipes[i].1);
    }
    assert(a.recipes_shown() =~= b.recipes_shown());
}

} // verus!
