//! What is looked for in the lines of recipes, and which of several faults is reported.

use vstd::prelude::*;

use crate::error::{ErrorKindView, ErrorView};
use crate::expression::ExpressionView;
use crate::file::{check_recipe, check_recipes, first_shadow, first_unknown, is_unknown};
use crate::file::{line_variables, lines_variables, walked, Checked, ParsedFile};
use crate::lexer::{lex_spec, LexedView};
use crate::parse::{genuine, lemma_tokens_genuine, parse_text};
use crate::place_laws::{law_tokens_point_into_the_text, pointing};
use crate::recipe::{FragmentView, RecipeView};
use crate::table::is_key;
use crate::text::{byte_len, byte_slice};
use crate::token::TokenView;

verus! {

/// Whether a string stands in the expression.
pub open spec fn has_string(e: ExpressionView) -> bool
    decreases e,
{
    match e {
        ExpressionView::Variable { name, token } => false,
        ExpressionView::String { contents } => true,
        ExpressionView::Concatination { lhs, rhs } => has_string(*lhs) || has_string(*rhs),
    }
}

/// What is walked of two sequences of leaves is what is walked of the first, and then of the second,
/// unless the first has a string.
proof fn lemma_walked_concat(a: Seq<Option<TokenView>>, b: Seq<Option<TokenView>>)
    ensures
        a.contains(None) ==> walked(a + b) == walked(a),
        !a.contains(None) ==> walked(a + b) == walked(a) + walked(b),
    decreases a.len(),
{
    if a.len() == 0 {
        assert(a + b =~= b);
        assert(walked(a) + walked(b) =~= walked(b));
    } else {
        let rest = a.skip(1);
        assert((a + b).skip(1) =~= rest + b);
        assert((a + b)[0] == a[0]);
        if let Some(token) = a[0] {
            lemma_walked_concat(rest, b);
            if a.contains(None) {
                let i = choose|i: int| 0 <= i < a.len() && a[i] is None;
                assert(rest[i - 1] is None);
                assert(rest.contains(None));
            }
            if rest.contains(None) {
                let i = choose|i: int| 0 <= i < rest.len() && rest[i] is None;
                assert(a[i + 1] is None);
                assert(a.contains(None));
            }
            assert(seq![token] + (walked(rest) + walked(b)) =~= seq![token] + walked(rest) + walked(
                b,
            ));
        } else {
            assert(a.contains(a[0]));
        }
    }
}

/// The leaves of an expression tell whether a string stands in it.
proof fn lemma_leaves_tell_strings(e: ExpressionView)
    ensures
        e.leaves().contains(None) == has_string(e),
    decreases e,
{
    match e {
        ExpressionView::Variable { name, token } => {
            let leaves = e.leaves();
            assert(leaves.len() == 1 && leaves[0] == Some(token));
        },
        ExpressionView::String { contents } => {
            let leaves = e.leaves();
            assert(leaves[0] == None::<TokenView>);
        },
        ExpressionView::Concatination { lhs, rhs } => {
            lemma_leaves_tell_strings(*lhs);
            lemma_leaves_tell_strings(*rhs);
            let left = lhs.leaves();
            let right = rhs.leaves();
            let all = right + left;
            if right.contains(None) {
                let i = choose|i: int| 0 <= i < right.len() && right[i] is None;
                assert(all[i] is None);
            }
            if left.contains(None) {
                let i = choose|i: int| 0 <= i < left.len() && left[i] is None;
                assert(all[right.len() + i] is None);
            }
            if all.contains(None) {
                let i = choose|i: int| 0 <= i < all.len() && all[i] is None;
                if i < right.len() {
                    assert(right[i] is None);
                } else {
                    assert(left[i - right.len()] is None);
                }
            }
        },
    }
}

/// Which variables of an expression are looked at: those on the right before those on the left, up to
/// the first string from the right.
pub proof fn law_variables_are_walked(
    name: Seq<char>,
    token: TokenView,
    contents: Seq<char>,
    lhs: ExpressionView,
    rhs: ExpressionView,
)
    ensures
        ({
            let both = ExpressionView::Concatination { lhs: Box::new(lhs), rhs: Box::new(rhs) };
            let none = Seq::<TokenView>::empty();
            &&& walked((ExpressionView::Variable { name, token }).leaves()) == seq![token]
            &&& walked((ExpressionView::String { contents }).leaves()) == none
            &&& has_string(rhs) ==> walked(both.leaves()) == walked(rhs.leaves())
            &&& !has_string(rhs) ==> walked(both.leaves()) == walked(rhs.leaves()) + walked(
                lhs.leaves(),
            )
        }),
{
    let one = (ExpressionView::Variable { name, token }).leaves();
    assert(walked(one.skip(1)) =~= Seq::empty());
    assert(walked(one) =~= seq![token]);
    lemma_walked_concat(rhs.leaves(), lhs.leaves());
    lemma_leaves_tell_strings(rhs);
}

proof fn lemma_line_from(a: Seq<FragmentView>, b: Seq<FragmentView>, i: nat)
    requires
        i <= a.len(),
    ensures
        line_variables(a + b, i) == line_variables(a, i) + line_variables(b, 0),
    decreases a.len() - i,
{
    if i < a.len() {
        lemma_line_from(a, b, i + 1);
        assert((a + b)[i as int] == a[i as int]);
        assert(line_variables(a + b, i) =~= line_variables(a, i) + line_variables(b, 0));
    } else {
        lemma_line_behind(a, b, 0);
        assert(line_variables(a, i) =~= Seq::empty());
        assert(line_variables(a + b, i) =~= line_variables(a, i) + line_variables(b, 0));
    }
}

proof fn lemma_line_behind(a: Seq<FragmentView>, b: Seq<FragmentView>, i: nat)
    requires
        i <= b.len(),
    ensures
        line_variables(a + b, a.len() + i) == line_variables(b, i),
    decreases b.len() - i,
{
    if i < b.len() {
        lemma_line_behind(a, b, i + 1);
        assert((a + b)[a.len() as int + i] == b[i as int]);
    }
}

proof fn lemma_lines_from(a: Seq<Seq<FragmentView>>, b: Seq<Seq<FragmentView>>, i: nat)
    requires
        i <= a.len(),
    ensures
        lines_variables(a + b, i) == lines_variables(a, i) + lines_variables(b, 0),
    decreases a.len() - i,
{
    if i < a.len() {
        lemma_lines_from(a, b, i + 1);
        assert((a + b)[i as int] == a[i as int]);
        assert(lines_variables(a + b, i) =~= lines_variables(a, i) + lines_variables(b, 0));
    } else {
        lemma_lines_behind(a, b, 0);
        assert(lines_variables(a, i) =~= Seq::empty());
        assert(lines_variables(a + b, i) =~= lines_variables(a, i) + lines_variables(b, 0));
    }
}

proof fn lemma_lines_behind(a: Seq<Seq<FragmentView>>, b: Seq<Seq<FragmentView>>, i: nat)
    requires
        i <= b.len(),
    ensures
        lines_variables(a + b, a.len() + i) == lines_variables(b, i),
    decreases b.len() - i,
{
    if i < b.len() {
        lemma_lines_behind(a, b, i + 1);
        assert((a + b)[a.len() as int + i] == b[i as int]);
    }
}

/// Which variables of the lines of a recipe are looked at: those of each expression, piece by piece
/// and line by line. Texts have none.
pub proof fn law_lines_are_walked(
    piece: FragmentView,
    line: Seq<FragmentView>,
    more: Seq<FragmentView>,
    lines: Seq<Seq<FragmentView>>,
    others: Seq<Seq<FragmentView>>,
)
    ensures
        piece is Text ==> line_variables(seq![piece], 0) == Seq::<TokenView>::empty(),
        piece is Expression ==> line_variables(seq![piece], 0) == walked(piece->expression.leaves()),
        line_variables(line + more, 0) == line_variables(line, 0) + line_variables(more, 0),
        lines_variables(seq![line], 0) == line_variables(line, 0),
        lines_variables(lines + others, 0) == lines_variables(lines, 0) + lines_variables(others, 0),
{
    let one = seq![piece];
    assert(line_variables(one, 1) =~= Seq::empty());
    assert(one[0] == piece);
    assert(piece is Expression ==> line_variables(one, 0) =~= walked(piece->expression.leaves()));
    let single = seq![line];
    assert(lines_variables(single, 1) =~= Seq::empty());
    assert(single[0] == line);
    assert(lines_variables(single, 0) =~= line_variables(line, 0));
    lemma_line_from(line, more, 0);
    lemma_lines_from(lines, others, 0);
}

proof fn lemma_first_unknown(
    variables: Seq<TokenView>,
    assignments: Seq<(Seq<char>, ExpressionView)>,
    arguments: Seq<Seq<char>>,
    i: int,
)
    requires
        0 <= i <= variables.len(),
        forall|j: int| 0 <= j < i ==> !is_unknown(#[trigger] variables[j], assignments, arguments),
        i < variables.len() ==> is_unknown(variables[i], assignments, arguments),
    ensures
        first_unknown(variables, assignments, arguments) == (if i < variables.len() {
            Some(variables[i])
        } else {
            None
        }),
    decreases i,
{
    if i > 0 {
        let rest = variables.skip(1);
        assert(!is_unknown(variables[0], assignments, arguments));
        assert forall|j: int| 0 <= j < i - 1 implies !is_unknown(
            #[trigger] rest[j],
            assignments,
            arguments,
        ) by {
            assert(rest[j] == variables[j + 1]);
        }
        lemma_first_unknown(rest, assignments, arguments, i - 1);
    }
}

proof fn lemma_first_shadow(
    tokens: Seq<TokenView>,
    assignments: Seq<(Seq<char>, ExpressionView)>,
    from: nat,
    i: nat,
)
    requires
        from <= i <= tokens.len(),
        forall|j: int| from <= j < i ==> !is_key(assignments, (#[trigger] tokens[j]).lexeme),
        i < tokens.len() ==> is_key(assignments, tokens[i as int].lexeme),
    ensures
        first_shadow(tokens, assignments, from) == (if i < tokens.len() {
            Some(tokens[i as int])
        } else {
            None
        }),
    decreases i - from,
{
    if from < i {
        lemma_first_shadow(tokens, assignments, from + 1, i);
    }
}

/// What is wrong with a recipe: its first argument that has the name of a variable; or, if none has,
/// the first variable of its lines that is neither assigned nor an argument, where it stands; or
/// nothing.
pub proof fn law_recipes_are_checked(
    text: Seq<char>,
    assignments: Seq<(Seq<char>, ExpressionView)>,
    recipe: RecipeView,
    i: int,
    j: int,
)
    requires
        0 <= i <= recipe.argument_tokens.len(),
        0 <= j <= lines_variables(recipe.lines, 0).len(),
        forall|k: int|
            0 <= k < i ==> !is_key(assignments, (#[trigger] recipe.argument_tokens[k]).lexeme),
        forall|k: int|
            0 <= k < j ==> {
                let name = (#[trigger] lines_variables(recipe.lines, 0)[k]).lexeme;
                is_key(assignments, name) || recipe.arguments.contains(name)
            },
    ensures
        ({
            let variables = lines_variables(recipe.lines, 0);
            let result = check_recipe(text, assignments, recipe);
            let argument = recipe.argument_tokens[i];
            let variable = variables[j];
            let all = i == recipe.argument_tokens.len();
            &&& !all && is_key(assignments, argument.lexeme) ==> result == (Checked::Wrong {
                error: argument.error(
                    ErrorKindView::ArgumentShadowsVariable { argument: argument.lexeme },
                ),
            })
            &&& all && j < variables.len() && !is_key(assignments, variable.lexeme)
                && !recipe.arguments.contains(variable.lexeme) && genuine(text)(variable)
                && variable.text == text ==> result == (Checked::Wrong {
                error: variable.error(ErrorKindView::UnknownVariable { variable: variable.lexeme }),
            })
            &&& all && j == variables.len() ==> result is Fine
        }),
{
    let variables = lines_variables(recipe.lines, 0);
    let argument = recipe.argument_tokens[i];
    let all = i == recipe.argument_tokens.len();
    if !all && is_key(assignments, argument.lexeme) {
        lemma_first_shadow(recipe.argument_tokens, assignments, 0, i as nat);
    } else if all {
        lemma_first_shadow(recipe.argument_tokens, assignments, 0, i as nat);
        assert forall|k: int| 0 <= k < j implies !is_unknown(
            #[trigger] variables[k],
            assignments,
            recipe.arguments,
        ) by {
            let name = variables[k].lexeme;
            assert(is_key(assignments, name) || recipe.arguments.contains(name));
        }
        if j == variables.len() || is_unknown(variables[j], assignments, recipe.arguments) {
            lemma_first_unknown(variables, assignments, recipe.arguments, j);
        }
    }
}

/// Recipes are checked in their order, all of them, and the first with which something is wrong
/// decides.
pub proof fn law_recipes_are_checked_in_turn(
    text: Seq<char>,
    assignments: Seq<(Seq<char>, ExpressionView)>,
    recipes: Seq<(Seq<char>, RecipeView)>,
    from: nat,
    k: nat,
)
    requires
        from <= k <= recipes.len(),
        forall|j: int|
            from <= j < k ==> check_recipe(text, assignments, (#[trigger] recipes[j]).1) is Fine,
    ensures
        k == recipes.len() ==> check_recipes(text, assignments, recipes, from) is Fine,
        k < recipes.len() && check_recipe(text, assignments, recipes[k as int].1) is Wrong
            ==> check_recipes(text, assignments, recipes, from) == check_recipe(
            text,
            assignments,
            recipes[k as int].1,
        ),
    decreases k - from,
{
    if from < k {
        law_recipes_are_checked_in_turn(text, assignments, recipes, from + 1, k);
    }
}

/// An error at a token points at the characters of the token, without the blanks before them: from
/// where they start, and as many bytes as they are.
pub proof fn law_errors_point_at_tokens(
    text: Seq<char>,
    tokens: Seq<TokenView>,
    i: int,
    kind: ErrorKindView,
)
    requires
        lex_spec(text) == LexedView::Tokens(tokens),
        0 <= i < tokens.len(),
    ensures
        ({
            let token = tokens[i];
            let error = token.error(kind);
            let from = error.index as int;
            &&& error.kind == kind
            &&& error.text == text
            &&& error.line == token.line
            &&& error.column == token.column + byte_len(token.prefix)
            &&& error.index == token.index + byte_len(token.prefix)
            &&& error.width is Some
            &&& byte_slice(text, from, from + error.width->0) == Some(token.lexeme)
        }),
{
    lemma_tokens_genuine(text, tokens);
    law_tokens_point_into_the_text(text, tokens);
    assert(genuine(text)(tokens[i]));
    assert(pointing(text)(tokens[i]));
}

/// A text that cannot be cut into tokens is refused for what is wrong there, whatever else is wrong
/// with it.
pub proof fn law_faults_of_tokens_come_first(text: Seq<char>, error: ErrorView)
    requires
        lex_spec(text) == LexedView::Fail(error),
    ensures
        parse_text(text) == (ParsedFile::Fail { error }),
{
}

} // verus!
