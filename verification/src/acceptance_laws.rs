//! Which texts are justfiles: what their tokens spell, and what must hold of what they define.

use vstd::prelude::*;

use crate::definition_laws::{count_assignments, count_recipes, gathered, is_gathered};
use crate::definition_laws::{law_definitions_are_parsed, law_parsed_definitions_are_spelled};
use crate::error::{ErrorKindView, ErrorView};
use crate::evaluator::{evaluate_all, Filled};
use crate::evaluator_laws::{in_lines, is_grounded, law_all_is_evaluated_if_it_can};
use crate::evaluator_laws::{law_errors_of_evaluation_are_true, line_mentions, occurs_in};
use crate::evaluator_laws::{piece_mentions, recipe_mentions, tokens_cover, uses};
use crate::expression::ExpressionView;
use crate::fault_laws::is_bad_name;
use crate::file::{check_recipe, check_recipes, finish, first_shadow, first_unknown};
use crate::file::{lemma_items_named, lines_variables, Checked, Items, ParsedFile};
use crate::grammar::{defines_recipe, defines_variable, is_split, lines_agree, may_follow};
use crate::grammar::{piece_width, pieces_width, recipe_at, spells_expression, spells_lines};
use crate::grammar::{spells_part, spells_pieces, width, Definition, Part};
use crate::graph::is_path;
use crate::justfile::{named, JustfileView};
use crate::lexer::{lex_spec, LexedView};
use crate::parse::{ended, first_bad_name, genuine, lemma_filter_all, lemma_filter_ends};
use crate::parse::{lemma_items_end, lemma_lines_variables_all, lemma_tokens_genuine, not_comment};
use crate::parse::parse_text;
use crate::parse_laws::lemma_parsed;
use crate::phase_laws::{law_tokens_come_in_order, lemma_phase_filter, phase_of};
use crate::recipe::{line_all, lines_all, FragmentView, RecipeView};
use crate::resolver::{resolve_all, Resolution, ResolverView};
use crate::resolver_laws::{depends, law_resolution_errors_are_true};
use crate::table::{is_key, is_sorted, lemma_found, lemma_lookup, lookup};
use crate::text::is_before;
use crate::token::{all_tokens, TokenKind, TokenView};
use crate::token_laws::{all_shaped, law_tokens_are_of_their_class, shaped};

verus! {

/// The tokens of a text that are not comments.
pub open spec fn spoken(tokens: Seq<TokenView>) -> Seq<TokenView> {
    tokens.filter(|token: TokenView| token.class != TokenKind::Comment)
}

/// What holds of the tokens of a text when comments are left out.
proof fn lemma_spoken(text: Seq<char>, tokens: Seq<TokenView>)
    requires
        lex_spec(text) == LexedView::Tokens(tokens),
    ensures
        spoken(tokens) == tokens.filter(not_comment()),
        all_shaped(spoken(tokens)),
        ended(spoken(tokens)),
        phase_of(spoken(tokens)) is Some,
        all_tokens(spoken(tokens), genuine(text)),
{
    let ts = spoken(tokens);
    assert((|token: TokenView| token.class != TokenKind::Comment) =~= not_comment());
    law_tokens_are_of_their_class(text, tokens);
    law_tokens_come_in_order(text, tokens);
    lemma_phase_filter(tokens);
    lemma_filter_ends(text, tokens);
    lemma_tokens_genuine(text, tokens);
    lemma_filter_all(tokens, not_comment(), genuine(text));
    let formed = |t: TokenView| shaped(t);
    lemma_filter_all(tokens, not_comment(), formed);
    assert forall|i: int| 0 <= i < ts.len() implies shaped(#[trigger] ts[i]) by {
        assert(formed(ts[i]));
    }
}

/// A text that is parsed is cut into tokens that spell definitions, none of which is repeated. There
/// are as many recipes and as many assignments in the justfile as the tokens spell, and each is in it
/// as it is spelled.
pub proof fn law_parsed_texts_are_spelled(text: Seq<char>, justfile: JustfileView) -> (parts: Seq<
    Part,
>)
    requires
        parse_text(text) == (ParsedFile::Done { justfile }),
    ensures
        lex_spec(text) matches LexedView::Tokens(tokens) && {
            let ts = spoken(tokens);
            &&& is_split(ts, parts, (ts.len() - 1) as nat)
            &&& justfile.recipes.len() == count_recipes(parts)
            &&& justfile.assignments.len() == count_assignments(parts)
            &&& forall|name: Seq<char>, value: ExpressionView| #[trigger]
                defines_variable(ts, parts, name, value) <==> lookup(justfile.assignments, name)
                    == Some(value)
            &&& forall|name: Seq<char>, recipe: RecipeView| #[trigger]
                defines_recipe(ts, parts, name, recipe) ==> (lookup(justfile.recipes, name) matches
                    Some(filled) && recipe == (RecipeView {
                    evaluated_lines: Seq::empty(),
                    ..filled
                }))
        },
{
    let (items, state) = lemma_parsed(text, justfile);
    let tokens = lex_spec(text)->Tokens_0;
    let ts = spoken(tokens);
    lemma_spoken(text, tokens);
    let parts = law_parsed_definitions_are_spelled(text, ts);
    assert(is_gathered(ts, parts, items));
    assert forall|name: Seq<char>, recipe: RecipeView| #[trigger]
        defines_recipe(ts, parts, name, recipe) implies (lookup(justfile.recipes, name) matches Some(
        filled,
    ) && recipe == (RecipeView { evaluated_lines: Seq::empty(), ..filled })) by {
        assert(lookup(items.recipes, name) == Some(recipe));
        let k = lemma_found(items.recipes, name);
        lemma_defined(ts, parts, (ts.len() - 1) as nat, name, recipe);
        assert(recipe.evaluated_lines =~= Seq::empty());
        assert(justfile.recipes[k].0 == items.recipes[k].0);
        lemma_same_table(items.recipes, justfile.recipes);
        lemma_lookup(justfile.recipes, k);
    }
    parts
}

/// Tables with the same names are sorted in the same way.
proof fn lemma_same_table(
    a: Seq<(Seq<char>, RecipeView)>,
    b: Seq<(Seq<char>, RecipeView)>,
)
    requires
        is_sorted(a),
        a.len() == b.len(),
        forall|k: int| 0 <= k < a.len() ==> (#[trigger] b[k]).0 == a[k].0,
    ensures
        is_sorted(b),
{
    assert forall|i: int, j: int| 0 <= i < j < b.len() implies is_before(
        (#[trigger] b[i]).0,
        (#[trigger] b[j]).0,
    ) by {
        assert(b[i].0 == a[i].0);
        assert(b[j].0 == a[j].0);
    }
}

/// A recipe that is defined is spelled.
proof fn lemma_defined(
    ts: Seq<TokenView>,
    parts: Seq<Part>,
    end: nat,
    name: Seq<char>,
    recipe: RecipeView,
) -> (k: int)
    requires
        is_split(ts, parts, end),
        defines_recipe(ts, parts, name, recipe),
    ensures
        0 <= k < parts.len(),
        ts[parts[k].from as int].lexeme == name,
        parts[k].definition == (Definition::Recipe { recipe }),
        recipe.name == name,
        recipe_at(ts, parts[k].from + 1, recipe, parts[k].to),
{
    let k = choose|k: int|
        0 <= k < parts.len() && (#[trigger] parts[k]).definition == (Definition::Recipe { recipe })
            && ts[parts[k].from as int].lexeme == name;
    assert(spells_part(ts, parts[k]));
    k
}

/// A recipe of a text that is parsed is a script if and only if its first line begins with a text of
/// which the first two characters are a number sign and an exclamation mark. No other line begins
/// with a tab, and one begins with a space only in a script.
pub proof fn law_scripts_say_so(text: Seq<char>, justfile: JustfileView, k: int, i: int)
    requires
        parse_text(text) == (ParsedFile::Done { justfile }),
        0 <= k < justfile.recipes.len(),
    ensures
        ({
            let recipe = justfile.recipes[k].1;
            &&& recipe.shebang <==> recipe.lines.len() > 0 && recipe.lines[0].len() > 0 && (
            recipe.lines[0][0] matches FragmentView::Text { text: first } && first.lexeme.len() >= 2
                && first.lexeme[0] == '#' && first.lexeme[1] == '!')
            &&& 0 < i < recipe.lines.len() && recipe.lines[i].len() > 0 ==> (
            recipe.lines[i][0] matches FragmentView::Text { text: first } ==> first.lexeme.len() > 0
                ==> first.lexeme[0] != '\t' && (first.lexeme[0] == ' ' ==> recipe.shebang))
        }),
{
    let (items, state) = lemma_parsed(text, justfile);
    let tokens = lex_spec(text)->Tokens_0;
    let ts = spoken(tokens);
    lemma_spoken(text, tokens);
    let parts = law_parsed_definitions_are_spelled(text, ts);
    let name = items.recipes[k].0;
    let recipe = items.recipes[k].1;
    assert(is_gathered(ts, parts, items));
    lemma_lookup(items.recipes, k);
    assert(lookup(items.recipes, name) == Some(recipe));
    assert(defines_recipe(ts, parts, name, recipe));
    let at = lemma_defined(ts, parts, (ts.len() - 1) as nat, name, recipe);
    assert(lines_agree(recipe.lines, recipe.shebang));
    assert(justfile.recipes[k].1.lines == recipe.lines);
    assert(justfile.recipes[k].1.shebang == recipe.shebang);
    if 0 < i < recipe.lines.len() {
        assert(may_follow(recipe.lines[i], recipe.shebang));
    }
}

/// That something holds of the characters of a token.
pub open spec fn by_name(q: spec_fn(Seq<char>) -> bool) -> spec_fn(TokenView) -> bool {
    |token: TokenView| q(token.lexeme)
}

/// That a variable is assigned, or an argument.
pub open spec fn known(
    assignments: Seq<(Seq<char>, ExpressionView)>,
    arguments: Seq<Seq<char>>,
) -> spec_fn(Seq<char>) -> bool {
    |name: Seq<char>| is_key(assignments, name) || arguments.contains(name)
}

/// Where all variables of an expression are such, so are their tokens.
proof fn lemma_expression_known(
    ts: Seq<TokenView>,
    e: ExpressionView,
    q: spec_fn(Seq<char>) -> bool,
)
    requires
        spells_expression(ts, e),
        forall|v: Seq<char>| #[trigger]
            e.mentions(v) ==> q(v),
    ensures
        e.all(by_name(q)),
    decreases e,
{
    match e {
        ExpressionView::Variable { name, token } => {
            assert(e.mentions(name));
        },
        ExpressionView::String { contents } => {},
        ExpressionView::Concatination { lhs, rhs } => {
            assert forall|v: Seq<char>| #[trigger] lhs.mentions(v) implies q(v) by {
                assert(e.mentions(v));
            }
            assert forall|v: Seq<char>| #[trigger] rhs.mentions(v) implies q(v) by {
                assert(e.mentions(v));
            }
            lemma_expression_known(ts.take(1), *lhs, q);
            lemma_expression_known(ts.skip(2), *rhs, q);
        },
    }
}

/// Where all variables of a line are such, so are their tokens.
proof fn lemma_line_known(
    ts: Seq<TokenView>,
    line: Seq<FragmentView>,
    q: spec_fn(Seq<char>) -> bool,
)
    requires
        spells_pieces(ts, line),
        forall|v: Seq<char>| #[trigger]
            line_mentions(line, v) ==> q(v),
    ensures
        line_all(line, by_name(q)),
    decreases line.len(),
{
    if line.len() > 0 {
        let rest = line.skip(1);
        let w = piece_width(line[0]) as int;
        assert forall|v: Seq<char>| #[trigger] line_mentions(rest, v) implies q(v) by {
            let i = choose|i: int| 0 <= i < rest.len() && piece_mentions(#[trigger] rest[i], v);
            assert(piece_mentions(line[i + 1], v));
            assert(line_mentions(line, v));
        }
        lemma_line_known(ts.skip(w), rest, q);
        if let FragmentView::Expression { expression } = line[0] {
            assert forall|v: Seq<char>| #[trigger] expression.mentions(v) implies q(v) by {
                assert(piece_mentions(line[0], v));
                assert(line_mentions(line, v));
            }
            lemma_expression_known(
                ts.take(w).subrange(1, width(expression) as int + 1),
                expression,
                q,
            );
        }
        assert forall|i: int| 0 <= i < line.len() implies ((
        #[trigger] line[i]) matches FragmentView::Expression { expression } ==> expression.all(
            by_name(q),
        )) by {
            if i > 0 {
                assert(rest[i - 1] == line[i]);
            }
        }
    }
}

/// Where all variables of lines are such, so are their tokens.
proof fn lemma_lines_known(
    ts: Seq<TokenView>,
    lines: Seq<Seq<FragmentView>>,
    q: spec_fn(Seq<char>) -> bool,
)
    requires
        spells_lines(ts, lines),
        forall|i: int, v: Seq<char>|
            0 <= i < lines.len() && #[trigger] line_mentions(lines[i], v) ==> q(v),
    ensures
        lines_all(lines, by_name(q)),
    decreases ts.len(),
{
    if ts.len() > 0 {
        if ts[0].class == TokenKind::Eol {
            lemma_lines_known(ts.skip(1), lines, q);
        } else {
            let w = pieces_width(lines[0]) as int + 1;
            assert forall|v: Seq<char>| #[trigger] line_mentions(lines[0], v) implies q(v) by {}
            lemma_line_known(ts.subrange(1, w), lines[0], q);
            if w < ts.len() {
                let rest = lines.skip(1);
                assert forall|i: int, v: Seq<char>|
                    0 <= i < rest.len() && #[trigger] line_mentions(rest[i], v) implies q(v) by {
                    assert(rest[i] == lines[i + 1]);
                    assert(line_mentions(lines[i + 1], v));
                }
                lemma_lines_known(ts.skip(w + 1), rest, q);
                assert forall|i: int| 0 <= i < lines.len() implies line_all(
                    #[trigger] lines[i],
                    by_name(q),
                ) by {
                    if i > 0 {
                        assert(rest[i - 1] == lines[i]);
                    }
                }
            }
        }
    }
}

/// Whether no argument of a recipe is a variable, and each variable in its lines is assigned or an
/// argument.
pub open spec fn goes_with(
    recipe: RecipeView,
    assignments: Seq<(Seq<char>, ExpressionView)>,
) -> bool {
    &&& forall|i: int|
        0 <= i < recipe.argument_tokens.len() ==> !is_key(
            assignments,
            (#[trigger] recipe.argument_tokens[i]).lexeme,
        )
    &&& forall|v: Seq<char>| #[trigger]
        recipe_mentions(recipe, v) ==> is_key(assignments, v) || recipe.arguments.contains(v)
}

/// Before the first argument that is a variable, none is.
proof fn lemma_shadow(
    tokens: Seq<TokenView>,
    assignments: Seq<(Seq<char>, ExpressionView)>,
    from: nat,
    i: nat,
)
    requires
        from <= i <= tokens.len(),
        forall|k: int| from <= k < i ==> !is_key(assignments, (#[trigger] tokens[k]).lexeme),
        i < tokens.len() ==> is_key(assignments, tokens[i as int].lexeme),
    ensures
        first_shadow(tokens, assignments, from) == if i < tokens.len() {
            Some(tokens[i as int])
        } else {
            None
        },
    decreases i - from,
{
    if from < i {
        lemma_shadow(tokens, assignments, from + 1, i);
    }
}

/// Where all variables are known, none is unknown.
proof fn lemma_none_unknown(
    variables: Seq<TokenView>,
    assignments: Seq<(Seq<char>, ExpressionView)>,
    arguments: Seq<Seq<char>>,
)
    requires
        all_tokens(variables, by_name(known(assignments, arguments))),
    ensures
        first_unknown(variables, assignments, arguments) is None,
    decreases variables.len(),
{
    if variables.len() > 0 {
        let rest = variables.skip(1);
        let p = by_name(known(assignments, arguments));
        assert(p(variables[0]));
        assert forall|i: int| 0 <= i < rest.len() implies p(#[trigger] rest[i]) by {
            assert(rest[i] == variables[i + 1]);
        }
        lemma_none_unknown(rest, assignments, arguments);
    }
}

/// A recipe that goes with assignments is found to be fine.
proof fn lemma_goes_with(
    text: Seq<char>,
    ts: Seq<TokenView>,
    pos: nat,
    at: nat,
    recipe: RecipeView,
    assignments: Seq<(Seq<char>, ExpressionView)>,
)
    requires
        recipe_at(ts, pos, recipe, at),
        goes_with(recipe, assignments),
    ensures
        check_recipe(text, assignments, recipe) is Fine,
{
    let tokens = recipe.argument_tokens;
    lemma_shadow(tokens, assignments, 0, tokens.len());
    let end = pos + tokens.len() + 1 + recipe.dependency_tokens.len();
    if recipe.lines.len() > 0 {
        assert forall|i: int, v: Seq<char>|
            0 <= i < recipe.lines.len() && #[trigger] line_mentions(recipe.lines[i], v) implies known(
            assignments,
            recipe.arguments,
        )(v) by {
            assert(recipe_mentions(recipe, v));
        }
        lemma_lines_known(
            ts.subrange(end as int + 2, at - 1),
            recipe.lines,
            known(assignments, recipe.arguments),
        );
    }
    lemma_lines_variables_all(recipe.lines, 0, by_name(known(assignments, recipe.arguments)));
    lemma_none_unknown(lines_variables(recipe.lines, 0), assignments, recipe.arguments);
}

/// Recipes that go with assignments are passed over.
proof fn lemma_checked_up_to(
    text: Seq<char>,
    assignments: Seq<(Seq<char>, ExpressionView)>,
    recipes: Seq<(Seq<char>, RecipeView)>,
    from: nat,
    k: nat,
)
    requires
        from <= k <= recipes.len(),
        forall|j: int|
            from <= j < k ==> check_recipe(text, assignments, (#[trigger] recipes[j]).1) is Fine,
    ensures
        check_recipes(text, assignments, recipes, from) == check_recipes(
            text,
            assignments,
            recipes,
            k,
        ),
    decreases k - from,
{
    if from < k {
        assert(check_recipe(text, assignments, recipes[from as int].1) is Fine);
        lemma_checked_up_to(text, assignments, recipes, from + 1, k);
    }
}

/// Where all recipes are found to be fine, so is each.
proof fn lemma_each_checked(
    text: Seq<char>,
    assignments: Seq<(Seq<char>, ExpressionView)>,
    recipes: Seq<(Seq<char>, RecipeView)>,
    from: nat,
    k: int,
)
    requires
        check_recipes(text, assignments, recipes, from) is Fine,
        from <= k < recipes.len(),
    ensures
        check_recipe(text, assignments, recipes[k].1) is Fine,
    decreases recipes.len() - from,
{
    if from < k {
        lemma_each_checked(text, assignments, recipes, from + 1, k);
    }
}

/// Where all names are good, none is found to be bad.
proof fn lemma_names_are_good(ts: Seq<TokenView>, i: nat)
    requires
        forall|k: int| 0 <= k < ts.len() ==> !is_bad_name(#[trigger] ts[k]),
    ensures
        first_bad_name(ts, i) is None,
    decreases ts.len() - i,
{
    if i < ts.len() {
        assert(!is_bad_name(ts[i as int]));
        lemma_names_are_good(ts, i + 1);
    }
}

/// What comes of a text with good names of which the tokens spell definitions.
proof fn lemma_spelled_text(text: Seq<char>, tokens: Seq<TokenView>, parts: Seq<Part>)
    requires
        lex_spec(text) == LexedView::Tokens(tokens),
        forall|k: int| 0 <= k < spoken(tokens).len() ==> !is_bad_name(#[trigger] spoken(tokens)[k]),
        is_split(spoken(tokens), parts, (spoken(tokens).len() - 1) as nat),
    ensures
        parse_text(text) == finish(text, gathered(spoken(tokens), parts)),
        is_gathered(spoken(tokens), parts, gathered(spoken(tokens), parts)),
        named(gathered(spoken(tokens), parts).recipes),
        tokens_cover(gathered(spoken(tokens), parts).variables()),
        gathered(spoken(tokens), parts).all(genuine(text)),
{
    let ts = spoken(tokens);
    lemma_spoken(text, tokens);
    lemma_names_are_good(ts, 0);
    law_definitions_are_parsed(text, ts, parts, (ts.len() - 1) as nat);
    lemma_items_end(text, ts, 0, Items::none());
    lemma_items_named(text, ts, 0, Items::none());
}

/// A recipe that is gathered is spelled.
proof fn lemma_gathered_recipe(
    ts: Seq<TokenView>,
    parts: Seq<Part>,
    end: nat,
    k: int,
) -> (part: Part)
    requires
        is_split(ts, parts, end),
        is_gathered(ts, parts, gathered(ts, parts)),
        0 <= k < gathered(ts, parts).recipes.len(),
    ensures
        recipe_at(ts, part.from + 1, gathered(ts, parts).recipes[k].1, part.to),
{
    let items = gathered(ts, parts);
    let name = items.recipes[k].0;
    let recipe = items.recipes[k].1;
    lemma_lookup(items.recipes, k);
    assert(lookup(items.recipes, name) == Some(recipe));
    assert(defines_recipe(ts, parts, name, recipe));
    let at = lemma_defined(ts, parts, end, name, recipe);
    parts[at]
}

/// Whether definitions make a justfile: dependencies can be resolved, no argument has the name of a
/// variable, and each variable that occurs is assigned and does not lead back to itself.
pub open spec fn is_sensible(items: Items) -> bool {
    &&& resolve_all(items.recipes, ResolverView::initial(), 0) is Done
    &&& forall|k: int, i: int|
        0 <= k < items.recipes.len() && 0 <= i < items.recipes[k].1.argument_tokens.len()
            ==> !is_key(
            items.assignments,
            (#[trigger] items.recipes[k].1.argument_tokens[i]).lexeme,
        )
    &&& is_grounded(items.assignments)
    &&& forall|v: Seq<char>| #[trigger]
        in_lines(items.recipes)(v) ==> is_key(items.assignments, v)
}

/// A text with good names of which the tokens spell definitions is parsed if and only if these make
/// a justfile.
pub proof fn law_texts_are_accepted(text: Seq<char>, tokens: Seq<TokenView>, parts: Seq<Part>)
    requires
        lex_spec(text) == LexedView::Tokens(tokens),
        forall|k: int| 0 <= k < spoken(tokens).len() ==> !is_bad_name(#[trigger] spoken(tokens)[k]),
        is_split(spoken(tokens), parts, (spoken(tokens).len() - 1) as nat),
    ensures
        is_gathered(spoken(tokens), parts, gathered(spoken(tokens), parts)),
        parse_text(text) is Done <==> is_sensible(gathered(spoken(tokens), parts)),
{
    let ts = spoken(tokens);
    let end = (ts.len() - 1) as nat;
    let items = gathered(ts, parts);
    let x = items.assignments;
    lemma_spelled_text(text, tokens, parts);
    law_all_is_evaluated_if_it_can(items.variables(), items.recipes);
    if is_sensible(items) {
        assert forall|j: int| 0 <= j < items.recipes.len() implies check_recipe(
            text,
            x,
            (#[trigger] items.recipes[j]).1,
        ) is Fine by {
            let recipe = items.recipes[j].1;
            assert forall|i: int| 0 <= i < recipe.argument_tokens.len() implies !is_key(
                x,
                (#[trigger] recipe.argument_tokens[i]).lexeme,
            ) by {
                assert(!is_key(x, items.recipes[j].1.argument_tokens[i].lexeme));
            }
            assert forall|v: Seq<char>| #[trigger] recipe_mentions(recipe, v) implies is_key(x, v)
                || recipe.arguments.contains(v) by {
                assert(in_lines(items.recipes)(v));
            }
            let part = lemma_gathered_recipe(ts, parts, end, j);
            lemma_goes_with(text, ts, part.from + 1, part.to, recipe, x);
        }
        lemma_checked_up_to(text, x, items.recipes, 0, items.recipes.len());
    }
    if parse_text(text) is Done {
        assert(check_recipes(text, x, items.recipes, 0) is Fine);
        assert forall|k: int, i: int|
            0 <= k < items.recipes.len() && 0 <= i < items.recipes[k].1.argument_tokens.len()
                implies !is_key(
            x,
            (#[trigger] items.recipes[k].1.argument_tokens[i]).lexeme,
        ) by {
            lemma_each_checked(text, x, items.recipes, 0, k);
            lemma_no_shadow_before(items.recipes[k].1.argument_tokens, x, 0, i);
        }
    }
}

/// Where no argument is found to be a variable, none is.
proof fn lemma_no_shadow_before(
    tokens: Seq<TokenView>,
    assignments: Seq<(Seq<char>, ExpressionView)>,
    from: nat,
    i: int,
)
    requires
        first_shadow(tokens, assignments, from) is None,
        from <= i < tokens.len(),
    ensures
        !is_key(assignments, tokens[i].lexeme),
    decreases tokens.len() - from,
{
    if from < i {
        lemma_no_shadow_before(tokens, assignments, from + 1, i);
    }
}

/// Of definitions that are spelled, what is wrong with the dependencies is reported first; then, of
/// the first recipe with which something is wrong, the first argument that has the name of a
/// variable; and, where every recipe goes with the assignments, what is wrong with their values.
pub proof fn law_faults_of_definitions_come_in_order(
    text: Seq<char>,
    tokens: Seq<TokenView>,
    parts: Seq<Part>,
    k: int,
    i: int,
)
    requires
        lex_spec(text) == LexedView::Tokens(tokens),
        forall|k: int| 0 <= k < spoken(tokens).len() ==> !is_bad_name(#[trigger] spoken(tokens)[k]),
        is_split(spoken(tokens), parts, (spoken(tokens).len() - 1) as nat),
    ensures
        ({
            let items = gathered(spoken(tokens), parts);
            let resolution = resolve_all(items.recipes, ResolverView::initial(), 0);
            let filled = evaluate_all(items.variables(), items.recipes);
            let recipe = items.recipes[k].1;
            let token = recipe.argument_tokens[i];
            &&& resolution is Fail ==> parse_text(text) == (ParsedFile::Fail {
                error: resolution->Fail_error,
            })
            &&& resolution is Done && 0 <= k < items.recipes.len() && 0 <= i
                < recipe.argument_tokens.len() && is_key(items.assignments, token.lexeme) && (
            forall|j: int|
                0 <= j < k ==> goes_with((#[trigger] items.recipes[j]).1, items.assignments)) && (
            forall|j: int|
                0 <= j < i ==> !is_key(
                    items.assignments,
                    (#[trigger] recipe.argument_tokens[j]).lexeme,
                )) ==> parse_text(text) == (ParsedFile::Fail {
                error: token.error(
                    ErrorKindView::ArgumentShadowsVariable { argument: token.lexeme },
                ),
            })
            &&& resolution is Done && (forall|j: int|
                0 <= j < items.recipes.len() ==> goes_with(
                    (#[trigger] items.recipes[j]).1,
                    items.assignments,
                )) && filled is Fail ==> parse_text(text) == (ParsedFile::Fail {
                error: filled->Fail_error,
            })
        }),
{
    let ts = spoken(tokens);
    let end = (ts.len() - 1) as nat;
    let items = gathered(ts, parts);
    let x = items.assignments;
    lemma_spelled_text(text, tokens, parts);
    assert forall|j: int|
        0 <= j < items.recipes.len() && goes_with((#[trigger] items.recipes[j]).1, x) implies
        check_recipe(text, x, items.recipes[j].1) is Fine by {
        let part = lemma_gathered_recipe(ts, parts, end, j);
        lemma_goes_with(text, ts, part.from + 1, part.to, items.recipes[j].1, x);
    }
    if forall|j: int| 0 <= j < items.recipes.len() ==> goes_with((#[trigger] items.recipes[j]).1, x) {
        lemma_checked_up_to(text, x, items.recipes, 0, items.recipes.len());
    }
    if 0 <= k < items.recipes.len() && 0 <= i < items.recipes[k].1.argument_tokens.len() {
        let recipe = items.recipes[k].1;
        if is_key(x, recipe.argument_tokens[i].lexeme) && (forall|j: int|
            0 <= j < k ==> goes_with((#[trigger] items.recipes[j]).1, x)) && (forall|j: int|
            0 <= j < i ==> !is_key(x, (#[trigger] recipe.argument_tokens[j]).lexeme)) {
            lemma_checked_up_to(text, x, items.recipes, 0, k as nat);
            lemma_shadow(recipe.argument_tokens, x, 0, i as nat);
        }
    }
}

/// A variable that is found to be unknown is neither assigned nor an argument, and is one of those
/// that were looked at.
proof fn lemma_unknown(
    variables: Seq<TokenView>,
    assignments: Seq<(Seq<char>, ExpressionView)>,
    arguments: Seq<Seq<char>>,
    p: spec_fn(TokenView) -> bool,
)
    requires
        all_tokens(variables, p),
    ensures
        first_unknown(variables, assignments, arguments) matches Some(token) ==> p(token) && !is_key(
            assignments,
            token.lexeme,
        ) && !arguments.contains(token.lexeme),
    decreases variables.len(),
{
    if variables.len() > 0 {
        let rest = variables.skip(1);
        assert(p(variables[0]));
        assert forall|i: int| 0 <= i < rest.len() implies p(#[trigger] rest[i]) by {
            assert(rest[i] == variables[i + 1]);
        }
        lemma_unknown(rest, assignments, arguments, p);
    }
}

/// An argument that is found to be a variable is one.
proof fn lemma_shadow_found(
    tokens: Seq<TokenView>,
    assignments: Seq<(Seq<char>, ExpressionView)>,
    from: nat,
) -> (i: int)
    requires
        first_shadow(tokens, assignments, from) is Some,
    ensures
        from <= i < tokens.len(),
        first_shadow(tokens, assignments, from) == Some(tokens[i]),
        is_key(assignments, tokens[i].lexeme),
    decreases tokens.len() - from,
{
    if is_key(assignments, tokens[from as int].lexeme) {
        from as int
    } else {
        lemma_shadow_found(tokens, assignments, from + 1)
    }
}

/// Whether what is reported of definitions is true. An unknown variable is not assigned, and occurs
/// in a line or in an assignment. An argument that shadows a variable is one of a recipe, and has the
/// name of a variable.
pub open spec fn is_true_of(items: Items, kind: ErrorKindView) -> bool {
    match kind {
        ErrorKindView::UnknownVariable { variable } => {
            &&& !is_key(items.assignments, variable)
            &&& in_lines(items.recipes)(variable) || occurs_in(items.assignments, variable)
        },
        ErrorKindView::ArgumentShadowsVariable { argument } => {
            &&& is_key(items.assignments, argument)
            &&& exists|k: int|
                0 <= k < items.recipes.len() && (
                #[trigger] items.recipes[k]).1.arguments.contains(argument)
        },
        ErrorKindView::CircularVariableDependency { variable, circle } => {
            &&& is_path(uses(items.assignments), circle)
            &&& circle.len() > 0 && circle.last() == variable
            &&& circle.drop_last().contains(variable)
        },
        ErrorKindView::UnknownDependency { recipe, unknown } => {
            &&& depends(items.recipes)(recipe, unknown)
            &&& !is_key(items.recipes, unknown)
        },
        ErrorKindView::CircularRecipeDependency { recipe, circle } => {
            &&& circle.len() > 0
            &&& depends(items.recipes)(recipe, circle[0])
            &&& is_key(items.recipes, circle[0])
        },
        _ => false,
    }
}

/// What is wrong with one of the recipes is what is reported.
proof fn lemma_wrong_recipe(
    text: Seq<char>,
    assignments: Seq<(Seq<char>, ExpressionView)>,
    recipes: Seq<(Seq<char>, RecipeView)>,
    from: nat,
) -> (k: int)
    requires
        check_recipes(text, assignments, recipes, from) is Wrong,
    ensures
        from <= k < recipes.len(),
        check_recipe(text, assignments, recipes[k].1) == check_recipes(
            text,
            assignments,
            recipes,
            from,
        ),
    decreases recipes.len() - from,
{
    if check_recipe(text, assignments, recipes[from as int].1) is Fine {
        lemma_wrong_recipe(text, assignments, recipes, from + 1)
    } else {
        from as int
    }
}

/// What is wrong with a recipe is true.
proof fn lemma_wrong_is_true(
    text: Seq<char>,
    ts: Seq<TokenView>,
    pos: nat,
    at: nat,
    items: Items,
    k: int,
)
    requires
        0 <= k < items.recipes.len(),
        recipe_at(ts, pos, items.recipes[k].1, at),
        items.recipes[k].1.all(genuine(text)),
    ensures
        check_recipe(text, items.assignments, items.recipes[k].1) matches Checked::Wrong { error }
            ==> is_true_of(items, error.kind),
{
    let recipe = items.recipes[k].1;
    let x = items.assignments;
    if first_shadow(recipe.argument_tokens, x, 0) is Some {
        let i = lemma_shadow_found(recipe.argument_tokens, x, 0);
        assert(recipe.arguments[i] == recipe.argument_tokens[i].lexeme);
        assert(items.recipes[k].1.arguments.contains(recipe.argument_tokens[i].lexeme));
    } else {
        let q = |v: Seq<char>| recipe_mentions(recipe, v);
        let end = pos + recipe.argument_tokens.len() + 1 + recipe.dependency_tokens.len();
        if recipe.lines.len() > 0 {
            assert forall|i: int, v: Seq<char>|
                0 <= i < recipe.lines.len() && #[trigger] line_mentions(
                    recipe.lines[i],
                    v,
                ) implies q(v) by {
                assert(recipe_mentions(recipe, v));
            }
            lemma_lines_known(ts.subrange(end as int + 2, at - 1), recipe.lines, q);
        }
        let variables = lines_variables(recipe.lines, 0);
        lemma_lines_variables_all(recipe.lines, 0, by_name(q));
        lemma_lines_variables_all(recipe.lines, 0, genuine(text));
        lemma_unknown(variables, x, recipe.arguments, by_name(q));
        lemma_unknown(variables, x, recipe.arguments, genuine(text));
        if let Some(token) = first_unknown(variables, x, recipe.arguments) {
            assert(recipe_mentions(items.recipes[k].1, token.lexeme));
            assert(in_lines(items.recipes)(token.lexeme));
        }
    }
}

/// What is reported of definitions that are spelled is true of them, and is one of five things: that
/// a dependency or a variable is unknown or circular, or that an argument shadows a variable.
pub proof fn law_faults_of_definitions_are_true(
    text: Seq<char>,
    tokens: Seq<TokenView>,
    parts: Seq<Part>,
    error: ErrorView,
)
    requires
        lex_spec(text) == LexedView::Tokens(tokens),
        forall|k: int| 0 <= k < spoken(tokens).len() ==> !is_bad_name(#[trigger] spoken(tokens)[k]),
        is_split(spoken(tokens), parts, (spoken(tokens).len() - 1) as nat),
        parse_text(text) == (ParsedFile::Fail { error }),
    ensures
        is_true_of(gathered(spoken(tokens), parts), error.kind),
{
    let ts = spoken(tokens);
    let end = (ts.len() - 1) as nat;
    let items = gathered(ts, parts);
    let x = items.assignments;
    lemma_spelled_text(text, tokens, parts);
    match resolve_all(items.recipes, ResolverView::initial(), 0) {
        Resolution::Fail { error: first, state } => {
            law_resolution_errors_are_true(items.recipes, first, state);
        },
        Resolution::Done { state } => {
            match check_recipes(text, x, items.recipes, 0) {
                Checked::Wrong { error: first } => {
                    let k = lemma_wrong_recipe(text, x, items.recipes, 0);
                    let part = lemma_gathered_recipe(ts, parts, end, k);
                    lemma_wrong_is_true(text, ts, part.from + 1, part.to, items, k);
                },
                Checked::Fine => {
                    if let Filled::Fail { recipes, error: first } = evaluate_all(
                        items.variables(),
                        items.recipes,
                    ) {
                        law_errors_of_evaluation_are_true(
                            items.variables(),
                            items.recipes,
                            recipes,
                            first,
                        );
                    }
                },
                Checked::Stuck => {},
            }
        },
    }
}

} // verus!
