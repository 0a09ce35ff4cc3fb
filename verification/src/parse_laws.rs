//! What holds of every justfile that is parsed.

use vstd::prelude::*;

use crate::evaluator::{evaluate_all, evaluate_assignments, lemma_only_lines_added};
use crate::evaluator::{only_lines_added, EvaluatorView, Filled};
use crate::evaluator_laws::{is_grounded, law_evaluation_succeeds_if_it_can, law_lines_hold_values};
use crate::evaluator_laws::{law_values_of_lines_are_added, lines_hold, tokens_cover, values_hold};
use crate::expression::ExpressionView;
use crate::file::{check_recipe, check_recipes, finish, first_shadow, lemma_items_named};
use crate::file::{parse_items, Items, ParsedFile};
use crate::graph::is_circle;
use crate::justfile::{named, JustfileView};
use crate::lexer::{lex_spec, LexedView};
use crate::parse::{first_bad_name, genuine, lemma_filter_all, lemma_filter_ends, lemma_items_end};
use crate::parse::{lemma_tokens_genuine, not_comment, parse_text};
use crate::parser::{is_shebang, lemma_expression_advances, lemma_pieces_advance};
use crate::parser::{lemma_recipe_advances, parse_expression, parse_lines, parse_names};
use crate::parser::{parse_pieces, parse_recipe, Parsed};
use crate::pattern::is_good_name;
use crate::place_laws::{lemma_line_feeds_bound, lemma_lines_counted};
use crate::recipe::{FragmentView, RecipeView};
use crate::resolver::{resolve_all, ResolverView};
use crate::resolver_laws::{first_depends, law_first_dependencies_end};
use crate::table::{is_key, is_sorted, law_lookup_after_insert, lemma_found, lemma_inserted};
use crate::table::lemma_lookup;
use crate::text::{byte_len, is_before, lemma_chars_in_bytes};
use crate::token::{all_tokens, lexemes, TokenKind, TokenView};
use crate::token_laws::{joined, law_tokens_are_of_their_class, law_tokens_hold_the_text};
use crate::token_laws::{law_tokens_stand_where_they_say, lemma_joined_at, shaped};

verus! {

/// Whether a line starts a script.
pub open spec fn starts_script(line: Seq<FragmentView>) -> bool {
    line.len() > 0 && (line[0] matches FragmentView::Text { text } && is_shebang(text.lexeme))
}

impl RecipeView {
    /// Whether no argument and no dependency is repeated, each is what its token holds, and the
    /// recipe is a script if and only if its first line says so.
    pub open spec fn is_well_made(self) -> bool {
        &&& self.arguments == lexemes(self.argument_tokens)
        &&& self.arguments.no_duplicates()
        &&& self.dependencies == lexemes(self.dependency_tokens)
        &&& self.dependencies.no_duplicates()
        &&& self.shebang == (self.lines.len() > 0 && starts_script(self.lines[0]))
    }
}

/// No argument and no dependency is repeated.
proof fn lemma_names_distinct(
    ts: Seq<TokenView>,
    pos: nat,
    recipe: Seq<char>,
    arguments: bool,
    done: Seq<TokenView>,
)
    requires
        lexemes(done).no_duplicates(),
    ensures
        parse_names(ts, pos, recipe, arguments, done) matches Parsed::Done { value, at } ==> lexemes(
            value,
        ).no_duplicates(),
    decreases ts.len() - pos,
{
    if pos < ts.len() {
        let token = ts[pos as int];
        if !lexemes(done).contains(token.lexeme) {
            let more = done.push(token);
            assert(lexemes(more) =~= lexemes(done).push(token.lexeme));
            assert(lexemes(more).no_duplicates()) by {
                assert forall|i: int, j: int| 0 <= i < j < more.len() implies lexemes(more)[i]
                    != lexemes(more)[j] by {
                    if j == done.len() && lexemes(more)[i] == token.lexeme {
                        assert(lexemes(done)[i] == token.lexeme);
                    }
                }
            }
            lemma_names_distinct(ts, pos + 1, recipe, arguments, more);
        }
    }
}

/// Only the start of the first line makes a recipe a script.
proof fn lemma_pieces_script(
    ts: Seq<TokenView>,
    pos: nat,
    first_line: bool,
    shebang: bool,
    done: Seq<FragmentView>,
)
    ensures
        parse_pieces(ts, pos, first_line, shebang, done) matches Parsed::Done { value, at } ==> {
            &&& done.is_prefix_of(value.0)
            &&& value.1 == (shebang || first_line && done.len() == 0 && starts_script(value.0))
        },
    decreases ts.len() - pos,
{
    if pos < ts.len() {
        let token = ts[pos as int];
        if token.class == TokenKind::Text {
            let starts = done.len() == 0 && first_line && is_shebang(token.lexeme);
            let more = done.push(FragmentView::Text { text: token });
            lemma_pieces_script(ts, pos + 1, first_line, shebang || starts, more);
            if let Parsed::Done { value, at } = parse_pieces(
                ts,
                pos + 1,
                first_line,
                shebang || starts,
                more,
            ) {
                assert(value.0[done.len() as int] == more[done.len() as int]);
                assert(done.is_prefix_of(value.0));
            }
        } else if token.class == TokenKind::InterpolationStart {
            lemma_expression_advances(ts, pos + 1, true);
            if let Parsed::Done { value: expression, at } = parse_expression(ts, pos + 1, true) {
                if at < ts.len() {
                    let more = done.push(FragmentView::Expression { expression });
                    lemma_pieces_script(ts, at + 1, first_line, shebang, more);
                    if let Parsed::Done { value, at } = parse_pieces(
                        ts,
                        at + 1,
                        first_line,
                        shebang,
                        more,
                    ) {
                        assert(value.0[done.len() as int] == more[done.len() as int]);
                        assert(done.is_prefix_of(value.0));
                    }
                }
            }
        }
    }
}

/// A recipe is a script if its first line starts one.
proof fn lemma_lines_script(
    ts: Seq<TokenView>,
    pos: nat,
    shebang: bool,
    done: Seq<Seq<FragmentView>>,
)
    requires
        shebang == (done.len() > 0 && starts_script(done[0])),
    ensures
        parse_lines(ts, pos, shebang, done) matches Parsed::Done { value, at } ==> value.1 == (
        value.0.len() > 0 && starts_script(value.0[0])),
    decreases ts.len() - pos,
{
    if pos < ts.len() {
        lemma_lines_script(ts, pos + 1, shebang, done);
        lemma_pieces_advance(ts, pos + 1, done.len() == 0, shebang, Seq::empty());
        lemma_pieces_script(ts, pos + 1, done.len() == 0, shebang, Seq::empty());
        if let Parsed::Done { value, at } = parse_pieces(
            ts,
            pos + 1,
            done.len() == 0,
            shebang,
            Seq::empty(),
        ) {
            let more = done.push(value.0);
            if done.len() > 0 {
                assert(more[0] == done[0]);
            }
            lemma_lines_script(ts, at, value.1, more);
        }
    }
}

/// A recipe that is parsed is well made, and none of its lines is evaluated yet.
proof fn lemma_recipe_well_made(
    ts: Seq<TokenView>,
    pos: nat,
    name: Seq<char>,
    line_number: nat,
)
    ensures
        parse_recipe(ts, pos, name, line_number) matches Parsed::Done { value, at } ==> {
            &&& value.is_well_made()
            &&& value.name == name
            &&& value.line_number == line_number
            &&& value.evaluated_lines.len() == 0
        },
{
    let none = Seq::<TokenView>::empty();
    assert(lexemes(none).no_duplicates());
    lemma_names_distinct(ts, pos, name, true, none);
    if let Parsed::Done { value: arguments, at } = parse_names(ts, pos, name, true, none) {
        lemma_names_distinct(ts, at + 1, name, false, none);
        if let Parsed::Done { value: dependencies, at: end } = parse_names(
            ts,
            at + 1,
            name,
            false,
            none,
        ) {
            lemma_lines_script(ts, end + 1, false, Seq::empty());
            lemma_lines_script(ts, end + 2, false, Seq::empty());
        }
    }
}

/// That a name is a good one, on a line that can be counted with the bytes of `text`.
pub open spec fn good(text: Seq<char>) -> spec_fn(TokenView) -> bool {
    |token: TokenView|
        token.class == TokenKind::Name ==> is_good_name(token.lexeme) && token.line < byte_len(text)
}

/// Whether the names of items are good, and the recipes well made and not yet evaluated.
pub open spec fn items_good(text: Seq<char>, items: Items) -> bool {
    &&& items.wf()
    &&& forall|k: int|
        0 <= k < items.recipes.len() ==> {
            let recipe = (#[trigger] items.recipes[k]).1;
            &&& is_good_name(items.recipes[k].0)
            &&& recipe.is_well_made()
            &&& recipe.line_number < byte_len(text)
            &&& recipe.evaluated_lines.len() == 0
        }
    &&& forall|k: int|
        0 <= k < items.assignments.len() ==> is_good_name((#[trigger] items.assignments[k]).0)
}

/// The items of a text with good names are good.
#[verifier::rlimit(40)]
proof fn lemma_items_good(text: Seq<char>, ts: Seq<TokenView>, pos: nat, done: Items)
    requires
        all_tokens(ts, good(text)),
        items_good(text, done),
    ensures
        parse_items(text, ts, pos, done) matches Parsed::Done { value, at } ==> items_good(
            text,
            value,
        ),
    decreases ts.len() - pos,
{
    if pos < ts.len() {
        let token = ts[pos as int];
        assert(good(text)(token));
        if token.class == TokenKind::Eol {
            lemma_items_good(text, ts, pos + 1, done);
        } else if token.class == TokenKind::Name && pos + 1 < ts.len() {
            if ts[pos as int + 1].class == TokenKind::Equals {
                lemma_expression_advances(ts, pos + 2, false);
                if let Parsed::Done { value, at } = parse_expression(ts, pos + 2, false) {
                    lemma_assigned_good(text, done, token, value);
                    lemma_items_good(text, ts, at, done.assigned(token, value));
                }
            } else {
                lemma_recipe_advances(ts, pos + 1, token.lexeme, token.line);
                lemma_recipe_well_made(ts, pos + 1, token.lexeme, token.line);
                if let Parsed::Done { value, at } = parse_recipe(
                    ts,
                    pos + 1,
                    token.lexeme,
                    token.line,
                ) {
                    lemma_defined_good(text, done, token, value);
                    lemma_items_good(text, ts, at, done.defined(token, value));
                }
            }
        }
    }
}

/// Items stay good when an assignment to a good name is added.
proof fn lemma_assigned_good(
    text: Seq<char>,
    items: Items,
    token: TokenView,
    value: ExpressionView,
)
    requires
        items_good(text, items),
        is_good_name(token.lexeme),
    ensures
        items_good(text, items.assigned(token, value)),
{
    let more = items.assigned(token, value);
    law_lookup_after_insert(items.assignments, token.lexeme, value, token.lexeme);
    law_lookup_after_insert(items.assignment_tokens, token.lexeme, token, token.lexeme);
    assert forall|k: int| 0 <= k < more.assignments.len() implies is_good_name(
        (#[trigger] more.assignments[k]).0,
    ) by {
        lemma_inserted(items.assignments, token.lexeme, value, k);
    }
}

/// Items stay good when a recipe with a good name is added.
proof fn lemma_defined_good(
    text: Seq<char>,
    items: Items,
    token: TokenView,
    recipe: RecipeView,
)
    requires
        items_good(text, items),
        is_good_name(token.lexeme),
        recipe.is_well_made(),
        recipe.line_number < byte_len(text),
        recipe.evaluated_lines.len() == 0,
    ensures
        items_good(text, items.defined(token, recipe)),
{
    let more = items.defined(token, recipe);
    law_lookup_after_insert(items.recipes, token.lexeme, recipe, token.lexeme);
    assert forall|k: int| 0 <= k < more.recipes.len() implies {
        let r = (#[trigger] more.recipes[k]).1;
        &&& is_good_name(more.recipes[k].0)
        &&& r.is_well_made()
        &&& r.line_number < byte_len(text)
        &&& r.evaluated_lines.len() == 0
    } by {
        lemma_inserted(items.recipes, token.lexeme, recipe, k);
    }
}

/// The line that a name stands on can be counted with the bytes of the text.
proof fn lemma_name_line(text: Seq<char>, tokens: Seq<TokenView>, i: int)
    requires
        lex_spec(text) == LexedView::Tokens(tokens),
        0 <= i < tokens.len(),
        tokens[i].class == TokenKind::Name,
    ensures
        tokens[i].line < byte_len(text),
{
    law_tokens_hold_the_text(text, tokens);
    law_tokens_stand_where_they_say(text, tokens);
    law_tokens_are_of_their_class(text, tokens);
    let token = tokens[i];
    let fewer = tokens.take(i);
    let before = joined(fewer);
    let rest = lemma_joined_at(tokens, i);
    assert forall|k: int| 0 <= k < fewer.len() implies shaped(#[trigger] fewer[k]) by {
        assert(fewer[k] == tokens[k]);
    }
    lemma_lines_counted(fewer);
    lemma_line_feeds_bound(before);
    assert(shaped(token));
    assert(before.len() < text.len());
    lemma_chars_in_bytes(text);
}

/// Where none is found to be bad, all names are good.
pub proof fn lemma_no_bad_name(ts: Seq<TokenView>, i: nat)
    requires
        first_bad_name(ts, i) is None,
    ensures
        forall|k: int|
            i <= k < ts.len() && (#[trigger] ts[k]).class == TokenKind::Name ==> is_good_name(
                ts[k].lexeme,
            ),
    decreases ts.len() - i,
{
    if i < ts.len() {
        lemma_no_bad_name(ts, i + 1);
    }
}

/// What a justfile was made from.
pub proof fn lemma_parsed(text: Seq<char>, justfile: JustfileView) -> (made: (Items, EvaluatorView))
    requires
        parse_text(text) == (ParsedFile::Done { justfile }),
    ensures
        lex_spec(text) is Tokens,
        ({
            let ts = lex_spec(text)->Tokens_0.filter(not_comment());
            &&& first_bad_name(ts, 0) is None
            &&& parse_items(text, ts, 0, Items::none()) matches Parsed::Done { value, at } && value
                == made.0
        }),
        finish(text, made.0) == (ParsedFile::Done { justfile }),
        items_good(text, made.0),
        named(made.0.recipes),
        tokens_cover(made.0.variables()),
        resolve_all(made.0.recipes, ResolverView::initial(), 0) is Done,
        check_recipes(text, made.0.assignments, made.0.recipes, 0) is Fine,
        evaluate_all(made.0.variables(), made.0.recipes) == (Filled::Done {
            recipes: justfile.recipes,
            state: made.1,
        }),
        justfile.values == made.1.evaluated,
        justfile.assignments == made.0.assignments,
        only_lines_added(made.0.recipes, justfile.recipes),
{
    let tokens = lex_spec(text)->Tokens_0;
    let ts = tokens.filter(not_comment());
    lemma_tokens_genuine(text, tokens);
    lemma_filter_all(tokens, not_comment(), genuine(text));
    lemma_filter_ends(text, tokens);
    lemma_no_bad_name(ts, 0);
    let lined = |token: TokenView| token.class == TokenKind::Name ==> token.line < byte_len(text);
    assert forall|i: int| 0 <= i < tokens.len() implies lined(#[trigger] tokens[i]) by {
        if tokens[i].class == TokenKind::Name {
            lemma_name_line(text, tokens, i);
        }
    }
    lemma_filter_all(tokens, not_comment(), lined);
    assert forall|i: int| 0 <= i < ts.len() implies good(text)(#[trigger] ts[i]) by {
        assert(lined(ts[i]));
    }
    lemma_items_end(text, ts, 0, Items::none());
    lemma_items_named(text, ts, 0, Items::none());
    lemma_items_good(text, ts, 0, Items::none());
    let items = parse_items(text, ts, 0, Items::none())->value;
    let first = evaluate_assignments(items.variables(), EvaluatorView::initial(), 0)->Done_state;
    lemma_only_lines_added(items.variables(), first, items.recipes, 0, 0);
    let state = evaluate_all(items.variables(), items.recipes)->state;
    (items, state)
}

/// In a justfile that is parsed, each variable has the value of what is assigned to it, no variable
/// leads back to itself, and the evaluated lines of recipes are the values of their lines.
pub proof fn law_parsed_values_hold(text: Seq<char>, justfile: JustfileView)
    requires
        parse_text(text) == (ParsedFile::Done { justfile }),
    ensures
        values_hold(justfile.assignments, justfile.values),
        forall|name: Seq<char>| #[trigger]
            is_key(justfile.values, name) == is_key(justfile.assignments, name),
        is_grounded(justfile.assignments),
        justfile.has_values(),
        forall|k: int|
            0 <= k < justfile.recipes.len() ==> lines_hold(
                (#[trigger] justfile.recipes[k]).1,
                justfile.values,
            ),
{
    let (items, state) = lemma_parsed(text, justfile);
    law_values_of_lines_are_added(items.variables(), items.recipes, justfile.recipes, state);
    law_lines_hold_values(items.variables(), items.recipes, justfile.recipes, state);
    law_evaluation_succeeds_if_it_can(items.variables());
    assert forall|i: int| 0 <= i < justfile.assignments.len() implies is_key(
        justfile.values,
        (#[trigger] justfile.assignments[i]).0,
    ) by {
        assert(is_key(justfile.assignments, justfile.assignments[i].0));
    }
}

/// In a justfile that is parsed, each recipe stands under its own name, which is a good one; no
/// argument and no dependency of it is repeated; each of its lines is evaluated; and it has a job,
/// since a script has a first line.
pub proof fn law_parsed_recipes_are_well_made(text: Seq<char>, justfile: JustfileView, k: int)
    requires
        parse_text(text) == (ParsedFile::Done { justfile }),
        0 <= k < justfile.recipes.len(),
    ensures
        ({
            let (name, recipe) = justfile.recipes[k];
            &&& recipe.name == name
            &&& is_good_name(name)
            &&& recipe.is_well_made()
            &&& recipe.evaluated_lines.len() == recipe.lines.len()
            &&& recipe.shebang ==> recipe.evaluated_lines.len() > 0
            &&& recipe.line_number < byte_len(text)
        }),
{
    let (items, state) = lemma_parsed(text, justfile);
    law_parsed_values_hold(text, justfile);
    let before = items.recipes[k].1;
    let after = justfile.recipes[k].1;
    assert(lines_hold(justfile.recipes[k].1, justfile.values));
    assert(before.is_well_made());
    assert(after.lines == before.lines && after.shebang == before.shebang);
}

/// In a justfile that is parsed, each variable has a good name, and the tables are sorted.
pub proof fn law_parsed_variables_have_good_names(text: Seq<char>, justfile: JustfileView)
    requires
        parse_text(text) == (ParsedFile::Done { justfile }),
    ensures
        is_sorted(justfile.recipes),
        is_sorted(justfile.assignments),
        forall|k: int|
            0 <= k < justfile.assignments.len() ==> is_good_name(
                (#[trigger] justfile.assignments[k]).0,
            ),
{
    let (items, state) = lemma_parsed(text, justfile);
    assert forall|i: int, j: int| 0 <= i < j < justfile.recipes.len() implies is_before(
        (#[trigger] justfile.recipes[i]).0,
        (#[trigger] justfile.recipes[j]).0,
    ) by {
        assert(justfile.recipes[i].0 == items.recipes[i].0);
        assert(justfile.recipes[j].0 == items.recipes[j].0);
    }
}

/// Where none is found to shadow a variable, none does.
proof fn lemma_no_shadow(
    tokens: Seq<TokenView>,
    assignments: Seq<(Seq<char>, ExpressionView)>,
    i: nat,
)
    requires
        first_shadow(tokens, assignments, i) is None,
    ensures
        forall|k: int| i <= k < tokens.len() ==> !is_key(assignments, (#[trigger] tokens[k]).lexeme),
    decreases tokens.len() - i,
{
    if i < tokens.len() {
        lemma_no_shadow(tokens, assignments, i + 1);
    }
}

/// Where all recipes are fine, each is.
proof fn lemma_all_checked(
    text: Seq<char>,
    assignments: Seq<(Seq<char>, ExpressionView)>,
    recipes: Seq<(Seq<char>, RecipeView)>,
    i: nat,
    k: int,
)
    requires
        check_recipes(text, assignments, recipes, i) is Fine,
        i <= k < recipes.len(),
    ensures
        check_recipe(text, assignments, recipes[k].1) is Fine,
    decreases recipes.len() - i,
{
    if i < k {
        lemma_all_checked(text, assignments, recipes, i + 1, k);
    }
}

/// In a justfile that is parsed, no argument of a recipe has the name of a variable.
pub proof fn law_parsed_arguments_shadow_nothing(
    text: Seq<char>,
    justfile: JustfileView,
    k: int,
    argument: Seq<char>,
)
    requires
        parse_text(text) == (ParsedFile::Done { justfile }),
        0 <= k < justfile.recipes.len(),
        justfile.recipes[k].1.arguments.contains(argument),
    ensures
        !is_key(justfile.assignments, argument),
{
    let (items, state) = lemma_parsed(text, justfile);
    let before = items.recipes[k].1;
    let after = justfile.recipes[k].1;
    assert(after.arguments == before.arguments);
    assert(before.is_well_made());
    lemma_all_checked(text, items.assignments, items.recipes, 0, k);
    lemma_no_shadow(before.argument_tokens, items.assignments, 0);
    let i = choose|i: int| 0 <= i < after.arguments.len() && after.arguments[i] == argument;
    assert(before.argument_tokens[i].lexeme == argument);
}

/// In a justfile that is parsed, the first dependency of each recipe is a recipe, and first
/// dependencies never lead back to where they started.
pub proof fn law_parsed_first_dependencies_end(text: Seq<char>, justfile: JustfileView)
    requires
        parse_text(text) == (ParsedFile::Done { justfile }),
    ensures
        forall|name: Seq<char>, dependency: Seq<char>| #[trigger]
            first_depends(justfile.recipes)(name, dependency) ==> is_key(
                justfile.recipes,
                dependency,
            ),
        forall|path: Seq<Seq<char>>| !#[trigger] is_circle(first_depends(justfile.recipes), path),
{
    let (items, state) = lemma_parsed(text, justfile);
    let before = items.recipes;
    let after = justfile.recipes;
    law_parsed_variables_have_good_names(text, justfile);
    law_first_dependencies_end(
        before,
        resolve_all(before, ResolverView::initial(), 0)->Done_state,
    );
    assert forall|name: Seq<char>| #[trigger] is_key(after, name) == is_key(before, name) by {
        if is_key(after, name) {
            let i = lemma_found(after, name);
            assert(before[i].0 == name);
        }
        if is_key(before, name) {
            let i = lemma_found(before, name);
            assert(after[i].0 == name);
        }
    }
    assert(first_depends(after) =~= first_depends(before)) by {
        assert forall|a: Seq<char>, b: Seq<char>| #[trigger]
            first_depends(after)(a, b) == first_depends(before)(a, b) by {
            assert(is_key(after, a) == is_key(before, a));
            if is_key(after, a) {
                let i = lemma_found(after, a);
                lemma_lookup(before, i);
                assert(after[i].1.dependency_tokens == before[i].1.dependency_tokens);
            }
        }
    }
}

} // verus!
