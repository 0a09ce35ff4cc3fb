//! What holds of the definitions of a justfile: each is parsed, none is lost, and none is repeated.

use vstd::prelude::*;

use crate::error::ErrorKindView;
use crate::expression::ExpressionView;
use crate::file::{parse_items, Items};
use crate::grammar::{clash, defines_recipe, defines_variable, is_split, meets, spells_part, width};
use crate::grammar::{Definition, Part};
use crate::grammar_laws::{lemma_expression_classes, lemma_expression_read};
use crate::grammar_laws::{lemma_expression_spelled, lemma_recipe_read, lemma_recipe_spelled};
use crate::grammar_laws::lemma_still_outside;
use crate::parse::ended;
use crate::parser::{lemma_expression_advances, lemma_recipe_advances, parse_expression};
use crate::parser::{parse_recipe, Parsed};
use crate::phase_laws::{lemma_phase_take, phase_of, Phase};
use crate::recipe::RecipeView;
use crate::table::{is_key, law_lookup_after_insert, lemma_inserted_len, lookup};
use crate::token::{TokenKind, TokenView};
use crate::token_laws::all_shaped;

verus! {

/// What `parts` define.
pub open spec fn gathered(ts: Seq<TokenView>, parts: Seq<Part>) -> Items
    decreases parts.len(),
{
    if parts.len() == 0 {
        Items::none()
    } else {
        let before = gathered(ts, parts.drop_last());
        let token = ts[parts.last().from as int];
        match parts.last().definition {
            Definition::Blank => before,
            Definition::Assignment { value } => before.assigned(token, value),
            Definition::Recipe { recipe } => before.defined(token, recipe),
        }
    }
}

/// How many of `parts` are recipes.
pub open spec fn count_recipes(parts: Seq<Part>) -> nat
    decreases parts.len(),
{
    if parts.len() == 0 {
        0
    } else {
        count_recipes(parts.drop_last()) + if parts.last().definition is Recipe {
            1nat
        } else {
            0nat
        }
    }
}

/// How many of `parts` are assignments.
pub open spec fn count_assignments(parts: Seq<Part>) -> nat
    decreases parts.len(),
{
    if parts.len() == 0 {
        0
    } else {
        count_assignments(parts.drop_last()) + if parts.last().definition is Assignment {
            1nat
        } else {
            0nat
        }
    }
}

/// Whether items are what `parts` define: each under its name, and nothing else.
pub open spec fn is_gathered(ts: Seq<TokenView>, parts: Seq<Part>, items: Items) -> bool {
    &&& items.wf()
    &&& items.recipes.len() == count_recipes(parts)
    &&& items.assignments.len() == count_assignments(parts)
    &&& forall|name: Seq<char>, recipe: RecipeView| #[trigger]
        defines_recipe(ts, parts, name, recipe) <==> lookup(items.recipes, name) == Some(recipe)
    &&& forall|name: Seq<char>, value: ExpressionView| #[trigger]
        defines_variable(ts, parts, name, value) <==> lookup(items.assignments, name) == Some(value)
}

/// A part less is a shorter beginning.
proof fn lemma_split_less(ts: Seq<TokenView>, parts: Seq<Part>, end: nat)
    requires
        is_split(ts, parts, end),
        parts.len() > 0,
    ensures
        is_split(ts, parts.drop_last(), parts.last().from),
{
    let fewer = parts.drop_last();
    if fewer.len() > 0 {
        assert(meets(parts, fewer.len() - 1));
    }
    assert forall|k: int| 0 <= k < fewer.len() - 1 implies #[trigger] meets(fewer, k) by {
        assert(meets(parts, k));
    }
    assert forall|j: int, k: int| 0 <= j < k < fewer.len() implies !#[trigger] clash(
        ts,
        fewer[j],
        fewer[k],
    ) by {
        assert(!clash(ts, parts[j], parts[k]));
    }
    assert forall|k: int| 0 <= k < fewer.len() implies #[trigger] spells_part(ts, fewer[k]) by {
        assert(spells_part(ts, parts[k]));
    }
}

/// What is defined with one part more.
proof fn lemma_defines_more(
    ts: Seq<TokenView>,
    fewer: Seq<Part>,
    part: Part,
    name: Seq<char>,
    recipe: RecipeView,
    value: ExpressionView,
)
    ensures
        defines_recipe(ts, fewer.push(part), name, recipe) == (defines_recipe(
            ts,
            fewer,
            name,
            recipe,
        ) || (part.definition == (Definition::Recipe { recipe }) && ts[part.from as int].lexeme
            == name)),
        defines_variable(ts, fewer.push(part), name, value) == (defines_variable(
            ts,
            fewer,
            name,
            value,
        ) || (part.definition == (Definition::Assignment { value }) && ts[part.from as int].lexeme
            == name)),
{
    let parts = fewer.push(part);
    if defines_recipe(ts, fewer, name, recipe) {
        let k = choose|k: int|
            0 <= k < fewer.len() && (#[trigger] fewer[k]).definition == (Definition::Recipe {
                recipe,
            }) && ts[fewer[k].from as int].lexeme == name;
        assert(parts[k] == fewer[k]);
    }
    if defines_variable(ts, fewer, name, value) {
        let k = choose|k: int|
            0 <= k < fewer.len() && (#[trigger] fewer[k]).definition == (Definition::Assignment {
                value,
            }) && ts[fewer[k].from as int].lexeme == name;
        assert(parts[k] == fewer[k]);
    }
    assert(parts[fewer.len() as int] == part);
    if defines_recipe(ts, parts, name, recipe) {
        let k = choose|k: int|
            0 <= k < parts.len() && (#[trigger] parts[k]).definition == (Definition::Recipe {
                recipe,
            }) && ts[parts[k].from as int].lexeme == name;
        if k < fewer.len() {
            assert(fewer[k] == parts[k]);
        }
    }
    if defines_variable(ts, parts, name, value) {
        let k = choose|k: int|
            0 <= k < parts.len() && (#[trigger] parts[k]).definition == (Definition::Assignment {
                value,
            }) && ts[parts[k].from as int].lexeme == name;
        if k < fewer.len() {
            assert(fewer[k] == parts[k]);
        }
    }
}

/// Whether a part of the same kind with that name is among `parts`.
pub open spec fn is_defined(
    ts: Seq<TokenView>,
    parts: Seq<Part>,
    name: Seq<char>,
    recipe: bool,
) -> bool {
    exists|k: int|
        0 <= k < parts.len() && ts[(#[trigger] parts[k]).from as int].lexeme == name
            && if recipe {
            parts[k].definition is Recipe
        } else {
            parts[k].definition is Assignment
        }
}

/// What is in the tables is defined.
proof fn lemma_in_tables(ts: Seq<TokenView>, parts: Seq<Part>, items: Items, name: Seq<char>)
    requires
        is_gathered(ts, parts, items),
    ensures
        is_key(items.recipes, name) == is_defined(ts, parts, name, true),
        is_key(items.assignments, name) == is_defined(ts, parts, name, false),
{
    if is_key(items.recipes, name) {
        let recipe = lookup(items.recipes, name)->0;
        assert(defines_recipe(ts, parts, name, recipe));
    }
    if is_key(items.assignments, name) {
        let value = lookup(items.assignments, name)->0;
        assert(defines_variable(ts, parts, name, value));
    }
    if is_defined(ts, parts, name, true) {
        let k = choose|k: int|
            0 <= k < parts.len() && ts[(#[trigger] parts[k]).from as int].lexeme == name
                && parts[k].definition is Recipe;
        assert(defines_recipe(ts, parts, name, parts[k].definition->recipe));
    }
    if is_defined(ts, parts, name, false) {
        let k = choose|k: int|
            0 <= k < parts.len() && ts[(#[trigger] parts[k]).from as int].lexeme == name
                && parts[k].definition is Assignment;
        assert(defines_variable(ts, parts, name, parts[k].definition->value));
    }
}

/// Items are gathered with one part more.
#[verifier::rlimit(60)]
proof fn lemma_gathered_more(ts: Seq<TokenView>, fewer: Seq<Part>, part: Part, items: Items)
    requires
        is_gathered(ts, fewer, items),
        part.definition is Recipe ==> !is_key(items.recipes, ts[part.from as int].lexeme),
        part.definition is Assignment ==> !is_key(items.assignments, ts[part.from as int].lexeme),
    ensures
        is_gathered(
            ts,
            fewer.push(part),
            match part.definition {
                Definition::Blank => items,
                Definition::Assignment { value } => items.assigned(ts[part.from as int], value),
                Definition::Recipe { recipe } => items.defined(ts[part.from as int], recipe),
            },
        ),
{
    let parts = fewer.push(part);
    let token = ts[part.from as int];
    let own = token.lexeme;
    let more = match part.definition {
        Definition::Blank => items,
        Definition::Assignment { value } => items.assigned(token, value),
        Definition::Recipe { recipe } => items.defined(token, recipe),
    };
    assert(parts.drop_last() =~= fewer);
    match part.definition {
        Definition::Blank => {},
        Definition::Assignment { value } => {
            lemma_inserted_len(items.assignments, own, value);
            law_lookup_after_insert(items.assignments, own, value, own);
            law_lookup_after_insert(items.assignment_tokens, own, token, own);
        },
        Definition::Recipe { recipe } => {
            lemma_inserted_len(items.recipes, own, recipe);
            law_lookup_after_insert(items.recipes, own, recipe, own);
        },
    }
    assert forall|name: Seq<char>, recipe: RecipeView| #[trigger]
        defines_recipe(ts, parts, name, recipe) <==> lookup(more.recipes, name) == Some(
            recipe,
        ) by {
        lemma_defines_more(ts, fewer, part, name, recipe, ExpressionView::String {
            contents: Seq::empty(),
        });
        assert(defines_recipe(ts, fewer, name, recipe) <==> lookup(items.recipes, name) == Some(
            recipe,
        ));
        if let Definition::Recipe { recipe: new } = part.definition {
            law_lookup_after_insert(items.recipes, own, new, name);
        }
    }
    assert forall|name: Seq<char>, value: ExpressionView| #[trigger]
        defines_variable(ts, parts, name, value) <==> lookup(more.assignments, name) == Some(
            value,
        ) by {
        lemma_variable_more(ts, fewer, part, name, value);
        assert(defines_variable(ts, fewer, name, value) <==> lookup(items.assignments, name)
            == Some(value));
        if let Definition::Assignment { value: new } = part.definition {
            law_lookup_after_insert(items.assignments, own, new, name);
        }
    }
}

/// What is assigned with one part more.
proof fn lemma_variable_more(
    ts: Seq<TokenView>,
    fewer: Seq<Part>,
    part: Part,
    name: Seq<char>,
    value: ExpressionView,
)
    ensures
        defines_variable(ts, fewer.push(part), name, value) == (defines_variable(
            ts,
            fewer,
            name,
            value,
        ) || (part.definition == (Definition::Assignment { value }) && ts[part.from as int].lexeme
            == name)),
{
    let none = Seq::<TokenView>::empty();
    let recipe = RecipeView {
        line_number: 0,
        name,
        lines: Seq::empty(),
        evaluated_lines: Seq::empty(),
        dependencies: Seq::empty(),
        dependency_tokens: none,
        arguments: Seq::empty(),
        argument_tokens: none,
        shebang: false,
    };
    lemma_defines_more(ts, fewer, part, name, recipe, value);
}

/// What is gathered from parts that do not clash is what they define.
proof fn lemma_gathered(ts: Seq<TokenView>, parts: Seq<Part>, end: nat)
    requires
        is_split(ts, parts, end),
    ensures
        is_gathered(ts, parts, gathered(ts, parts)),
    decreases parts.len(),
{
    if parts.len() > 0 {
        let fewer = parts.drop_last();
        let part = parts.last();
        let last = parts.len() - 1;
        let items = gathered(ts, fewer);
        let own = ts[part.from as int].lexeme;
        lemma_split_less(ts, parts, end);
        lemma_gathered(ts, fewer, part.from);
        lemma_in_tables(ts, fewer, items, own);
        if is_defined(ts, fewer, own, true) && part.definition is Recipe {
            let k = choose|k: int|
                0 <= k < fewer.len() && ts[(#[trigger] fewer[k]).from as int].lexeme == own
                    && fewer[k].definition is Recipe;
            assert(clash(ts, parts[k], parts[last]));
        }
        if is_defined(ts, fewer, own, false) && part.definition is Assignment {
            let k = choose|k: int|
                0 <= k < fewer.len() && ts[(#[trigger] fewer[k]).from as int].lexeme == own
                    && fewer[k].definition is Assignment;
            assert(clash(ts, parts[k], parts[last]));
        }
        lemma_gathered_more(ts, fewer, part, items);
        assert(fewer.push(part) =~= parts);
    }
}

/// Parts that are spelled, none of which defines what another does, are parsed, and what they define
/// is what is in the tables then: each recipe and each assignment under its name, and no others.
#[verifier::rlimit(60)]
pub proof fn law_definitions_are_parsed(
    text: Seq<char>,
    ts: Seq<TokenView>,
    parts: Seq<Part>,
    end: nat,
)
    requires
        all_shaped(ts),
        is_split(ts, parts, end),
        end < ts.len(),
    ensures
        is_gathered(ts, parts, gathered(ts, parts)),
        parse_items(text, ts, 0, Items::none()) == parse_items(text, ts, end, gathered(ts, parts)),
        ts[end as int].class == TokenKind::Eof ==> parse_items(text, ts, 0, Items::none()) == (
        Parsed::Done { value: gathered(ts, parts), at: end + 1 }),
    decreases parts.len(),
{
    lemma_gathered(ts, parts, end);
    if parts.len() > 0 {
        let fewer = parts.drop_last();
        let part = parts.last();
        let last = parts.len() - 1;
        let items = gathered(ts, fewer);
        let own = ts[part.from as int].lexeme;
        let from = part.from;
        assert(spells_part(ts, parts[last]));
        lemma_split_less(ts, parts, end);
        law_definitions_are_parsed(text, ts, fewer, from);
        lemma_in_tables(ts, fewer, items, own);
        match part.definition {
            Definition::Blank => {},
            Definition::Assignment { value } => {
                assert(!is_defined(ts, fewer, own, false)) by {
                    if is_defined(ts, fewer, own, false) {
                        let k = choose|k: int|
                            0 <= k < fewer.len() && ts[(#[trigger] fewer[k]).from as int].lexeme
                                == own && fewer[k].definition is Assignment;
                        assert(clash(ts, parts[k], parts[last]));
                    }
                }
                lemma_expression_spelled(ts, from + 2, false, value, part.to);
            },
            Definition::Recipe { recipe } => {
                assert(!is_defined(ts, fewer, own, true)) by {
                    if is_defined(ts, fewer, own, true) {
                        let k = choose|k: int|
                            0 <= k < fewer.len() && ts[(#[trigger] fewer[k]).from as int].lexeme
                                == own && fewer[k].definition is Recipe;
                        assert(clash(ts, parts[k], parts[last]));
                    }
                }
                lemma_recipe_spelled(ts, from + 1, recipe, part.to);
            },
        }
    }
}

/// A part more is a longer beginning.
proof fn lemma_split_more(ts: Seq<TokenView>, parts: Seq<Part>, part: Part)
    requires
        is_split(ts, parts, part.from),
        spells_part(ts, part),
        !is_defined(ts, parts, ts[part.from as int].lexeme, true) || part.definition !is Recipe,
        !is_defined(ts, parts, ts[part.from as int].lexeme, false) || part.definition !is Assignment,
    ensures
        is_split(ts, parts.push(part), part.to),
{
    let more = parts.push(part);
    assert forall|k: int| 0 <= k < more.len() - 1 implies #[trigger] meets(more, k) by {
        if k < parts.len() - 1 {
            assert(meets(parts, k));
        }
    }
    assert forall|j: int, k: int| 0 <= j < k < more.len() implies !#[trigger] clash(
        ts,
        more[j],
        more[k],
    ) by {
        assert(more[j] == parts[j]);
        if k < parts.len() {
            assert(!clash(ts, parts[j], parts[k]));
        } else if clash(ts, more[j], part) {
            assert(ts[parts[j].from as int].lexeme == ts[part.from as int].lexeme);
            assert(is_defined(
                ts,
                parts,
                ts[part.from as int].lexeme,
                part.definition is Recipe,
            ));
        }
    }
    assert forall|k: int| 0 <= k < more.len() implies #[trigger] spells_part(ts, more[k]) by {
        if k < parts.len() {
            assert(spells_part(ts, parts[k]));
        }
    }
    if parts.len() > 0 {
        assert(more[0] == parts[0]);
    }
}

/// After a part, what follows stands outside of the lines of recipes.
#[verifier::rlimit(40)]
proof fn lemma_outside_after(ts: Seq<TokenView>, part: Part)
    requires
        phase_of(ts) is Some,
        spells_part(ts, part),
        phase_of(ts.take(part.from as int)) == Some(Phase::Outside),
    ensures
        phase_of(ts.take(part.to as int)) == Some(Phase::Outside),
{
    let from = part.from;
    match part.definition {
        Definition::Blank => {
            lemma_still_outside(ts, from, part.to);
        },
        Definition::Assignment { value } => {
            let end = from + 2 + width(value);
            let inner = ts.subrange(from as int + 2, end as int);
            lemma_expression_classes(inner, value);
            assert forall|k: int| from <= k < part.to implies (#[trigger] ts[k]).class
                != TokenKind::Indent by {
                if from + 2 <= k < end {
                    assert(inner[k - from - 2] == ts[k]);
                }
            }
            lemma_still_outside(ts, from, part.to);
        },
        Definition::Recipe { recipe } => {
            let colon = from + 1 + recipe.argument_tokens.len();
            let end = colon + 1 + recipe.dependency_tokens.len();
            if ts[part.to - 1].class == TokenKind::Dedent {
                lemma_phase_take(ts, part.to - 1);
            } else {
                assert forall|k: int| from <= k < part.to implies (#[trigger] ts[k]).class
                    != TokenKind::Indent by {
                    if from < k < colon {
                        assert(ts[k].class == TokenKind::Name);
                    } else if colon < k < end {
                        assert(ts[k].class == TokenKind::Name);
                    }
                }
                lemma_still_outside(ts, from, part.to);
            }
        },
    }
}

/// What is parsed as a justfile is spelled.
#[verifier::rlimit(60)]
proof fn lemma_items_read(
    text: Seq<char>,
    ts: Seq<TokenView>,
    pos: nat,
    done: Items,
    parts: Seq<Part>,
) -> (all: Seq<Part>)
    requires
        all_shaped(ts),
        phase_of(ts) is Some,
        ended(ts),
        pos < ts.len(),
        phase_of(ts.take(pos as int)) == Some(Phase::Outside),
        is_split(ts, parts, pos),
        done == gathered(ts, parts),
        parse_items(text, ts, pos, done) is Done,
    ensures
        is_split(ts, all, (ts.len() - 1) as nat),
        parse_items(text, ts, pos, done) == (Parsed::Done {
            value: gathered(ts, all),
            at: ts.len(),
        }),
    decreases ts.len() - pos,
{
    let token = ts[pos as int];
    lemma_gathered(ts, parts, pos);
    lemma_in_tables(ts, parts, done, token.lexeme);
    if token.class == TokenKind::Eof {
        assert(pos == ts.len() - 1);
        parts
    } else if token.class == TokenKind::Eol {
        let part = Part { from: pos, to: pos + 1, definition: Definition::Blank };
        let more = parts.push(part);
        assert(pos + 1 < ts.len());
        lemma_split_more(ts, parts, part);
        lemma_outside_after(ts, part);
        assert(more.drop_last() =~= parts);
        lemma_items_read(text, ts, pos + 1, done, more)
    } else if ts[pos as int + 1].class == TokenKind::Equals {
        lemma_expression_read(ts, pos + 2, false);
        lemma_expression_advances(ts, pos + 2, false);
        let value = parse_expression(ts, pos + 2, false)->Done_value;
        let at = parse_expression(ts, pos + 2, false)->Done_at;
        let part = Part { from: pos, to: at, definition: Definition::Assignment { value } };
        let more = parts.push(part);
        assert(at < ts.len()) by {
            let end = pos + 2 + width(value);
            if ts[end as int].class == TokenKind::Eol {
                assert(end < ts.len() - 1);
            }
        }
        lemma_split_more(ts, parts, part);
        lemma_outside_after(ts, part);
        assert(more.drop_last() =~= parts);
        lemma_items_read(text, ts, at, done.assigned(token, value), more)
    } else {
        lemma_phase_take(ts, pos as int);
        lemma_recipe_read(ts, pos + 1, token.lexeme, token.line);
        lemma_recipe_advances(ts, pos + 1, token.lexeme, token.line);
        let recipe = parse_recipe(ts, pos + 1, token.lexeme, token.line)->Done_value;
        let at = parse_recipe(ts, pos + 1, token.lexeme, token.line)->Done_at;
        let part = Part { from: pos, to: at, definition: Definition::Recipe { recipe } };
        let more = parts.push(part);
        assert(at < ts.len()) by {
            if at == ts.len() {
                assert(ts[at - 1].class == TokenKind::Eof);
            }
        }
        lemma_split_more(ts, parts, part);
        lemma_outside_after(ts, part);
        assert(more.drop_last() =~= parts);
        lemma_items_read(text, ts, at, done.defined(token, recipe), more)
    }
}

/// What is parsed as a justfile is spelled by its tokens, part after part, up to their end. No recipe
/// and no variable is defined twice, and what is in the tables is what the parts define.
pub proof fn law_parsed_definitions_are_spelled(text: Seq<char>, ts: Seq<TokenView>) -> (parts: Seq<
    Part,
>)
    requires
        all_shaped(ts),
        phase_of(ts) is Some,
        ended(ts),
        parse_items(text, ts, 0, Items::none()) is Done,
    ensures
        is_split(ts, parts, (ts.len() - 1) as nat),
        parse_items(text, ts, 0, Items::none()) matches Parsed::Done { value, at } && at == ts.len()
            && is_gathered(ts, parts, value),
{
    assert(ts.take(0) =~= Seq::empty());
    let parts = lemma_items_read(text, ts, 0, Items::none(), Seq::empty());
    lemma_gathered(ts, parts, (ts.len() - 1) as nat);
    parts
}

/// After parts that are spelled: a second recipe of a name is reported, with the line of the first,
/// whatever either holds; a second assignment to a name is reported; what begins with anything but a
/// name is reported; and otherwise what is wrong with the next definition.
pub proof fn law_faults_in_definitions(
    text: Seq<char>,
    ts: Seq<TokenView>,
    parts: Seq<Part>,
    end: nat,
    k: int,
)
    requires
        all_shaped(ts),
        is_split(ts, parts, end),
        end + 1 < ts.len(),
        0 <= k < parts.len() || parts.len() == 0,
    ensures
        ({
            let token = ts[end as int];
            let equals = ts[end as int + 1].class == TokenKind::Equals;
            let came = parse_items(text, ts, 0, Items::none());
            let value = parse_expression(ts, end + 2, false);
            let recipe = parse_recipe(ts, end + 1, token.lexeme, token.line);
            &&& token.class == TokenKind::Name && !equals && parts.len() > 0
                && parts[k].definition is Recipe && ts[parts[k].from as int].lexeme == token.lexeme
                ==> came == (Parsed::<Items>::Fail {
                error: token.error(
                    ErrorKindView::DuplicateRecipe {
                        recipe: token.lexeme,
                        first: ts[parts[k].from as int].line,
                    },
                ),
                at: end + 1,
            })
            &&& token.class == TokenKind::Name && equals && parts.len() > 0
                && parts[k].definition is Assignment && ts[parts[k].from as int].lexeme
                == token.lexeme ==> came == (Parsed::<Items>::Fail {
                error: token.error(ErrorKindView::DuplicateVariable { variable: token.lexeme }),
                at: end + 2,
            })
            &&& token.class == TokenKind::Name && equals && !is_defined(
                ts,
                parts,
                token.lexeme,
                false,
            ) && value is Fail ==> came == (Parsed::<Items>::Fail {
                error: value->Fail_error,
                at: value->Fail_at,
            })
            &&& token.class == TokenKind::Name && !equals && !is_defined(
                ts,
                parts,
                token.lexeme,
                true,
            ) && recipe is Fail ==> came == (Parsed::<Items>::Fail {
                error: recipe->Fail_error,
                at: recipe->Fail_at,
            })
            &&& token.class != TokenKind::Name && token.class != TokenKind::Eol && token.class
                != TokenKind::Eof && token.class != TokenKind::Comment ==> came == (Parsed::<
                Items,
            >::Fail {
                error: token.error(
                    ErrorKindView::UnexpectedToken {
                        expected: seq![TokenKind::Name],
                        found: token.class,
                    },
                ),
                at: end + 1,
            })
        }),
{
    let token = ts[end as int];
    let items = gathered(ts, parts);
    law_definitions_are_parsed(text, ts, parts, end);
    lemma_in_tables(ts, parts, items, token.lexeme);
    if parts.len() > 0 && ts[parts[k].from as int].lexeme == token.lexeme {
        assert(spells_part(ts, parts[k]));
        match parts[k].definition {
            Definition::Recipe { recipe } => {
                assert(defines_recipe(ts, parts, token.lexeme, recipe));
                assert(is_defined(ts, parts, token.lexeme, true));
            },
            Definition::Assignment { value } => {
                assert(is_defined(ts, parts, token.lexeme, false));
            },
            Definition::Blank => {},
        }
    }
}

} // verus!
