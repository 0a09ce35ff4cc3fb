//! What holds of resolved recipes.

use vstd::prelude::*;

use crate::error::{ErrorKindView, ErrorView};
use crate::graph::{is_circle, is_path, lemma_first_step, lemma_no_circle, lemma_path_push};
use crate::graph::{lemma_path_skip, settled};
use crate::justfile::named;
use crate::recipe::RecipeView;
use crate::resolver::{from_name, lemma_unseen, resolve_all, resolve_from, unseen, Resolution};
use crate::resolver::ResolverView;
use crate::table::{is_key, is_sorted, lemma_found, lemma_lookup, lookup};
use crate::token::lexemes;

verus! {

/// That the recipe under the first name depends on the second name.
pub open spec fn depends(recipes: Seq<(Seq<char>, RecipeView)>) -> spec_fn(
    Seq<char>,
    Seq<char>,
) -> bool {
    |name: Seq<char>, other: Seq<char>|
        lookup(recipes, name) matches Some(recipe) && lexemes(recipe.dependency_tokens).contains(
            other,
        )
}

/// That the second name is the first dependency of the recipe under the first name.
pub open spec fn first_depends(recipes: Seq<(Seq<char>, RecipeView)>) -> spec_fn(
    Seq<char>,
    Seq<char>,
) -> bool {
    |name: Seq<char>, other: Seq<char>|
        lookup(recipes, name) matches Some(recipe) && recipe.dependency_tokens.len() > 0
            && recipe.dependency_tokens[0].lexeme == other
}

/// What holds of a resolver that has resolved the recipes `order`, one after the other.
spec fn sound(
    recipes: Seq<(Seq<char>, RecipeView)>,
    state: ResolverView,
    order: Seq<Seq<char>>,
) -> bool {
    &&& order.no_duplicates()
    &&& forall|name: Seq<char>| #[trigger] order.contains(name) == state.resolved.contains(name)
    &&& forall|name: Seq<char>| #[trigger] order.contains(name) ==> is_key(recipes, name)
    &&& settled(depends(recipes), order)
    &&& forall|name: Seq<char>| #[trigger]
        state.seen.contains(name) ==> state.resolved.contains(name) || state.stack.contains(name)
}

/// What is cut off a list at one of its names starts with the name.
proof fn lemma_from_name(list: Seq<Seq<char>>, name: Seq<char>)
    requires
        list.contains(name),
    ensures
        from_name(list, name).len() > 0,
        from_name(list, name)[0] == name,
    decreases list.len(),
{
    if list[0] != name {
        let i = choose|i: int| 0 <= i < list.len() && list[i] == name;
        assert(list.skip(1)[i - 1] == name);
        lemma_from_name(list.skip(1), name);
    }
}

/// A resolver stays sound when a recipe is looked at.
proof fn lemma_entered(
    recipes: Seq<(Seq<char>, RecipeView)>,
    state: ResolverView,
    order: Seq<Seq<char>>,
    name: Seq<char>,
)
    requires
        sound(recipes, state, order),
    ensures
        sound(recipes, state.entered(name), order),
{
    let entered = state.entered(name);
    assert forall|n: Seq<char>| #[trigger] entered.seen.contains(n) implies entered.resolved.contains(
        n,
    ) || entered.stack.contains(n) by {
        if n == name {
            assert(entered.stack[state.stack.len() as int] == n);
        } else {
            assert(state.seen.contains(n));
            if state.stack.contains(n) {
                let i = choose|i: int| 0 <= i < state.stack.len() && state.stack[i] == n;
                assert(entered.stack[i] == n);
            }
        }
    }
}

/// What is looked up under a name has that name.
proof fn lemma_named(recipes: Seq<(Seq<char>, RecipeView)>, name: Seq<char>)
    requires
        named(recipes),
        is_key(recipes, name),
    ensures
        lookup(recipes, name) matches Some(recipe) && recipe.name == name,
{
    let i = choose|i: int| 0 <= i < recipes.len() && (#[trigger] recipes[i]).0 == name;
    assert(recipes[i].1.name == name);
}

/// A resolver stays sound when the dependencies of a recipe are all resolved.
proof fn lemma_left(
    recipes: Seq<(Seq<char>, RecipeView)>,
    state: ResolverView,
    order: Seq<Seq<char>>,
    recipe: RecipeView,
)
    requires
        sound(recipes, state, order),
        lookup(recipes, recipe.name) == Some(recipe),
        !state.resolved.contains(recipe.name),
        state.stack.len() > 0 && state.stack.last() == recipe.name,
        forall|k: int|
            0 <= k < recipe.dependency_tokens.len() ==> state.resolved.contains(
                (#[trigger] recipe.dependency_tokens[k]).lexeme,
            ),
    ensures
        sound(recipes, state.left(recipe.name), order.push(recipe.name)),
{
    let name = recipe.name;
    let more = order.push(name);
    let after = state.left(name);
    assert(!order.contains(name));
    assert forall|n: Seq<char>| #[trigger] after.seen.contains(n) implies after.resolved.contains(n)
        || after.stack.contains(n) by {
        assert(state.seen.contains(n));
        if !state.resolved.contains(n) && n != name {
            let i = choose|i: int| 0 <= i < state.stack.len() && state.stack[i] == n;
            assert(after.stack[i] == n);
        }
    }
    assert forall|n: Seq<char>| #[trigger] more.contains(n) == after.resolved.contains(n) by {
        if order.contains(n) {
            let i = choose|i: int| 0 <= i < order.len() && order[i] == n;
            assert(more[i] == n);
        }
        if n == name {
            assert(more[order.len() as int] == n);
        }
        if more.contains(n) && n != name {
            let i = choose|i: int| 0 <= i < more.len() && more[i] == n;
            assert(order[i] == n);
        }
        assert(order.contains(n) == state.resolved.contains(n));
    }
    assert forall|n: Seq<char>| #[trigger] more.contains(n) implies is_key(recipes, n) by {
        let i = choose|i: int| 0 <= i < more.len() && more[i] == n;
        if i < order.len() {
            assert(order[i] == n);
            assert(order.contains(n));
        }
    }
    assert forall|k: int, n: Seq<char>|
        0 <= k < more.len() && #[trigger] depends(recipes)(more[k], n) implies more.take(
        k,
    ).contains(n) by {
        if k < order.len() {
            assert(depends(recipes)(order[k], n));
            assert(more.take(k) =~= order.take(k));
        } else {
            let list = lexemes(recipe.dependency_tokens);
            let i = choose|i: int| 0 <= i < list.len() && list[i] == n;
            assert(recipe.dependency_tokens[i].lexeme == n);
            assert(order.contains(n));
            assert(more.take(k) =~= order);
        }
    }
}

/// Whether what is reported of a dependency is true: an unknown one is not a recipe, and one with
/// which a circle is said to start is a recipe that the recipe depends on.
pub open spec fn is_true(
    recipes: Seq<(Seq<char>, RecipeView)>,
    error: ErrorKindView,
) -> bool {
    match error {
        ErrorKindView::UnknownDependency { recipe, unknown } => {
            &&& depends(recipes)(recipe, unknown)
            &&& !is_key(recipes, unknown)
        },
        ErrorKindView::CircularRecipeDependency { recipe, circle } => {
            &&& circle.len() > 0
            &&& depends(recipes)(recipe, circle[0])
            &&& is_key(recipes, circle[0])
        },
        _ => false,
    }
}

/// Resolving keeps a resolver sound, or gives an error that is true.
proof fn lemma_from(
    recipes: Seq<(Seq<char>, RecipeView)>,
    state: ResolverView,
    order: Seq<Seq<char>>,
    recipe: RecipeView,
    i: nat,
) -> (more: Seq<Seq<char>>)
    requires
        named(recipes),
        sound(recipes, state, order),
        lookup(recipes, recipe.name) == Some(recipe),
        !state.resolved.contains(recipe.name),
        state.stack.len() > 0 && state.stack.last() == recipe.name,
        forall|k: int|
            0 <= k < i && k < recipe.dependency_tokens.len() ==> state.resolved.contains(
                (#[trigger] recipe.dependency_tokens[k]).lexeme,
            ),
    ensures
        match resolve_from(recipes, state, recipe, i) {
            Resolution::Done { state: then_state } => {
                &&& sound(recipes, then_state, more)
                &&& state.resolved.subset_of(then_state.resolved)
                &&& i < recipe.dependency_tokens.len() ==> is_key(
                    recipes,
                    recipe.dependency_tokens[i as int].lexeme,
                )
            },
            Resolution::Fail { error, state: then_state } => is_true(recipes, error.kind),
        },
    decreases unseen(recipes, state.seen), recipe.dependency_tokens.len() - i,
{
    if i >= recipe.dependency_tokens.len() {
        lemma_left(recipes, state, order, recipe);
        order.push(recipe.name)
    } else {
        let name = recipe.dependency_tokens[i as int].lexeme;
        assert(lexemes(recipe.dependency_tokens)[i as int] == name);
        assert(depends(recipes)(recipe.name, name));
        if is_key(recipes, name) {
            lemma_named(recipes, name);
            let dependency = lookup(recipes, name)->0;
            if state.resolved.contains(name) {
                lemma_from(recipes, state, order, recipe, i + 1)
            } else if state.seen.contains(name) {
                let stack = state.back().stack;
                let k = choose|k: int| 0 <= k < state.stack.len() && state.stack[k] == name;
                assert(stack[k] == name);
                lemma_from_name(stack, name);
                order
            } else {
                lemma_unseen(recipes, state.seen, state.seen.insert(name));
                lemma_entered(recipes, state, order, name);
                lemma_from(recipes, state.entered(name), order, dependency, 0)
            }
        } else {
            order
        }
    }
}

/// Resolving all recipes keeps a resolver sound, or gives an error that is true.
proof fn lemma_all(
    recipes: Seq<(Seq<char>, RecipeView)>,
    state: ResolverView,
    order: Seq<Seq<char>>,
    i: nat,
) -> (more: Seq<Seq<char>>)
    requires
        is_sorted(recipes),
        named(recipes),
        sound(recipes, state, order),
    ensures
        match resolve_all(recipes, state, i) {
            Resolution::Done { state: then_state } => {
                &&& sound(recipes, then_state, more)
                &&& forall|k: int|
                    i <= k < recipes.len() && (#[trigger] recipes[k]).1.dependency_tokens.len() > 0
                        ==> is_key(recipes, recipes[k].1.dependency_tokens[0].lexeme)
            },
            Resolution::Fail { error, state: then_state } => is_true(recipes, error.kind),
        },
    decreases recipes.len() - i,
{
    if i >= recipes.len() {
        order
    } else {
        let recipe = recipes[i as int].1;
        lemma_lookup(recipes, i as int);
        if state.resolved.contains(recipe.name) {
            if recipe.dependency_tokens.len() > 0 {
                let name = recipe.dependency_tokens[0].lexeme;
                assert(order.contains(recipe.name));
                let k = choose|k: int| 0 <= k < order.len() && order[k] == recipe.name;
                assert(lexemes(recipe.dependency_tokens)[0] == name);
                assert(depends(recipes)(order[k], name));
                let j = choose|j: int| 0 <= j < order.take(k).len() && order.take(k)[j] == name;
                assert(order[j] == name);
                assert(order.contains(name));
            }
            lemma_all(recipes, state, order, i + 1)
        } else {
            let entered = state.entered(recipe.name);
            lemma_entered(recipes, state, order, recipe.name);
            let next = lemma_from(recipes, entered, order, recipe, 0);
            match resolve_from(recipes, entered, recipe, 0) {
                Resolution::Done { state: then_state } => {
                    lemma_all(recipes, then_state, next, i + 1)
                },
                Resolution::Fail { error, state: then_state } => order,
            }
        }
    }
}

/// A resolved recipe depends only on resolved recipes, and no circle goes through it.
pub proof fn law_resolved_recipes_are_settled(
    recipes: Seq<(Seq<char>, RecipeView)>,
    state: ResolverView,
    name: Seq<char>,
)
    requires
        is_sorted(recipes),
        named(recipes),
        resolve_all(recipes, ResolverView::initial(), 0) == (Resolution::Done { state }),
        state.resolved.contains(name),
    ensures
        is_key(recipes, name),
        forall|dependency: Seq<char>| #[trigger]
            depends(recipes)(name, dependency) ==> is_key(recipes, dependency)
                && state.resolved.contains(dependency),
        forall|path: Seq<Seq<char>>|
            path.len() > 0 && path[0] == name ==> !#[trigger] is_circle(depends(recipes), path),
{
    let order = lemma_all(recipes, ResolverView::initial(), Seq::empty(), 0);
    assert(order.contains(name));
    let k = choose|k: int| 0 <= k < order.len() && order[k] == name;
    assert forall|dependency: Seq<char>| #[trigger] depends(recipes)(name, dependency) implies is_key(
        recipes,
        dependency,
    ) && state.resolved.contains(dependency) by {
        assert(depends(recipes)(order[k], dependency));
        let j = choose|j: int| 0 <= j < order.take(k).len() && order.take(k)[j] == dependency;
        assert(order[j] == dependency);
        assert(order.contains(dependency));
    }
    assert forall|path: Seq<Seq<char>>|
        path.len() > 0 && path[0] == name implies !#[trigger] is_circle(depends(recipes), path) by {
        let i = choose|i: int| 0 <= i < order.len() && order[i] == path[0];
        lemma_no_circle(depends(recipes), order, path, i);
    }
}

/// What is reported of recipes that cannot be resolved is true: an unknown dependency is one of the
/// recipe and not a recipe itself.
pub proof fn law_resolution_errors_are_true(
    recipes: Seq<(Seq<char>, RecipeView)>,
    error: ErrorView,
    state: ResolverView,
)
    requires
        is_sorted(recipes),
        named(recipes),
        resolve_all(recipes, ResolverView::initial(), 0) == (Resolution::Fail { error, state }),
    ensures
        is_true(recipes, error.kind),
{
    let order = lemma_all(recipes, ResolverView::initial(), Seq::empty(), 0);
}

/// Whether the first dependency of each recipe called by a name in `names` is such a name.
spec fn trapped(recipes: Seq<(Seq<char>, RecipeView)>, trap: Set<Seq<char>>) -> bool {
    forall|name: Seq<char>| #[trigger]
        trap.contains(name) ==> (lookup(recipes, name) matches Some(recipe)
            && recipe.dependency_tokens.len() > 0 && trap.contains(
            recipe.dependency_tokens[0].lexeme,
        ))
}

/// From a recipe of which the first dependencies never end, nothing can be resolved.
proof fn lemma_trapped(
    recipes: Seq<(Seq<char>, RecipeView)>,
    state: ResolverView,
    recipe: RecipeView,
    trap: Set<Seq<char>>,
)
    requires
        named(recipes),
        trapped(recipes, trap),
        trap.contains(recipe.name),
        lookup(recipes, recipe.name) == Some(recipe),
        trap.disjoint(state.resolved),
    ensures
        resolve_from(recipes, state, recipe, 0) is Fail,
    decreases unseen(recipes, state.seen),
{
    let name = recipe.dependency_tokens[0].lexeme;
    assert(trap.contains(name));
    assert(is_key(recipes, name));
    lemma_named(recipes, name);
    if !state.seen.contains(name) {
        lemma_unseen(recipes, state.seen, state.seen.insert(name));
        lemma_trapped(recipes, state.entered(name), lookup(recipes, name)->0, trap);
    }
}

/// Whether a circle goes through each name in `trap`.
spec fn circled(recipes: Seq<(Seq<char>, RecipeView)>, trap: Set<Seq<char>>) -> bool {
    forall|name: Seq<char>| #[trigger]
        trap.contains(name) ==> exists|path: Seq<Seq<char>>| #[trigger]
            is_circle(depends(recipes), path) && path[0] == name
}

/// A recipe that a circle goes through is not resolved.
proof fn lemma_circled(
    recipes: Seq<(Seq<char>, RecipeView)>,
    state: ResolverView,
    order: Seq<Seq<char>>,
    trap: Set<Seq<char>>,
)
    requires
        sound(recipes, state, order),
        circled(recipes, trap),
    ensures
        trap.disjoint(state.resolved),
{
    assert forall|name: Seq<char>| trap.contains(name) implies !state.resolved.contains(name) by {
        let path = choose|path: Seq<Seq<char>>| #[trigger]
            is_circle(depends(recipes), path) && path[0] == name;
        if state.resolved.contains(name) {
            assert(order.contains(name));
            let i = choose|i: int| 0 <= i < order.len() && order[i] == path[0];
            lemma_no_circle(depends(recipes), order, path, i);
        }
    }
}

/// Where the first dependencies of a recipe never end, not all recipes are resolved.
proof fn lemma_trap_found(
    recipes: Seq<(Seq<char>, RecipeView)>,
    state: ResolverView,
    order: Seq<Seq<char>>,
    i: nat,
    at: int,
    trap: Set<Seq<char>>,
)
    requires
        is_sorted(recipes),
        named(recipes),
        sound(recipes, state, order),
        i <= at < recipes.len(),
        trap.contains(recipes[at].0),
        trapped(recipes, trap),
        circled(recipes, trap),
    ensures
        resolve_all(recipes, state, i) is Fail,
    decreases recipes.len() - i,
{
    lemma_circled(recipes, state, order, trap);
    let recipe = recipes[i as int].1;
    let entered = state.entered(recipe.name);
    lemma_lookup(recipes, i as int);
    if i == at {
        assert(recipe.name == recipes[at].0);
        lemma_trapped(recipes, entered, recipe, trap);
    } else if state.resolved.contains(recipe.name) {
        lemma_trap_found(recipes, state, order, i + 1, at, trap);
    } else {
        lemma_entered(recipes, state, order, recipe.name);
        let next = lemma_from(recipes, entered, order, recipe, 0);
        if let Resolution::Done { state: then_state } = resolve_from(recipes, entered, recipe, 0) {
            lemma_trap_found(recipes, then_state, next, i + 1, at, trap);
        }
    }
}

/// A path of first dependencies is a path of dependencies.
proof fn lemma_first_path(recipes: Seq<(Seq<char>, RecipeView)>, path: Seq<Seq<char>>)
    requires
        is_path(first_depends(recipes), path),
    ensures
        is_path(depends(recipes), path),
    decreases path.len(),
{
    if path.len() > 1 {
        lemma_first_path(recipes, path.drop_last());
        let recipe = lookup(recipes, path[path.len() - 2])->0;
        assert(lexemes(recipe.dependency_tokens)[0] == path.last());
    }
}

/// Each name on a path leads to the next.
proof fn lemma_step(
    leads: spec_fn(Seq<char>, Seq<char>) -> bool,
    path: Seq<Seq<char>>,
    k: int,
)
    requires
        is_path(leads, path),
        0 <= k < path.len() - 1,
    ensures
        leads(path[k], path[k + 1]),
    decreases path.len(),
{
    if k < path.len() - 2 {
        lemma_step(leads, path.drop_last(), k);
    }
}

/// A circle can start at any of its names.
proof fn lemma_rotate(
    leads: spec_fn(Seq<char>, Seq<char>) -> bool,
    circle: Seq<Seq<char>>,
    k: int,
) -> (rotated: Seq<Seq<char>>)
    requires
        is_circle(leads, circle),
        0 <= k < circle.len() - 1,
    ensures
        is_circle(leads, rotated),
        rotated[0] == circle[k],
    decreases k,
{
    if k == 0 {
        circle
    } else {
        let rest = circle.skip(1);
        lemma_path_skip(leads, circle, 1);
        lemma_first_step(leads, circle);
        let next = rest.push(circle[1]);
        lemma_path_push(leads, rest, circle[1]);
        lemma_rotate(leads, next, k - 1)
    }
}

/// If all recipes are resolved, the first dependency of each is a recipe, and first dependencies
/// never lead back to where they started.
pub proof fn law_first_dependencies_end(
    recipes: Seq<(Seq<char>, RecipeView)>,
    state: ResolverView,
)
    requires
        is_sorted(recipes),
        named(recipes),
        resolve_all(recipes, ResolverView::initial(), 0) == (Resolution::Done { state }),
    ensures
        forall|name: Seq<char>, dependency: Seq<char>| #[trigger]
            first_depends(recipes)(name, dependency) ==> is_key(recipes, dependency),
        forall|path: Seq<Seq<char>>| !#[trigger] is_circle(first_depends(recipes), path),
{
    let leads = first_depends(recipes);
    let order = lemma_all(recipes, ResolverView::initial(), Seq::empty(), 0);
    assert forall|name: Seq<char>, dependency: Seq<char>| #[trigger]
        leads(name, dependency) implies is_key(recipes, dependency) by {
        let k = choose|k: int| 0 <= k < recipes.len() && (#[trigger] recipes[k]).0 == name;
        lemma_lookup(recipes, k);
        assert(recipes[k].1.dependency_tokens[0].lexeme == dependency);
    }
    assert forall|path: Seq<Seq<char>>| !#[trigger] is_circle(leads, path) by {
        if is_circle(leads, path) {
            let trap = path.to_set();
            assert forall|name: Seq<char>| #[trigger] trap.contains(name) implies (lookup(
                recipes,
                name,
            ) matches Some(recipe) && recipe.dependency_tokens.len() > 0 && trap.contains(
                recipe.dependency_tokens[0].lexeme,
            )) by {
                let k = choose|k: int| 0 <= k < path.len() && path[k] == name;
                let k0 = if k == path.len() - 1 { 0 } else { k };
                assert(path[k0] == name);
                lemma_step(leads, path, k0);
                assert(path.contains(path[k0 + 1]));
            }
            assert(circled(recipes, trap)) by {
                assert forall|name: Seq<char>| #[trigger] trap.contains(name) implies exists|
                    p: Seq<Seq<char>>,
                | #[trigger] is_circle(depends(recipes), p) && p[0] == name by {
                    let k = choose|k: int| 0 <= k < path.len() && path[k] == name;
                    let k0 = if k == path.len() - 1 { 0 } else { k };
                    assert(path[k0] == name);
                    let p = lemma_rotate(leads, path, k0);
                    lemma_first_path(recipes, p);
                    assert(is_circle(depends(recipes), p));
                }
            }
            lemma_step(leads, path, 0);
            assert(path.contains(path[0]));
            assert(is_key(recipes, path[0]));
            let at = choose|at: int| 0 <= at < recipes.len() && (#[trigger] recipes[at]).0 == path[0];
            lemma_trap_found(recipes, ResolverView::initial(), Seq::empty(), 0, at, trap);
        }
    }
}

/// Whether each dependency of a recipe is one of the recipes before it.
pub open spec fn is_ordered(recipes: Seq<(Seq<char>, RecipeView)>) -> bool {
    forall|i: int, k: int|
        0 <= i < recipes.len() && 0 <= k < recipes[i].1.dependency_tokens.len() ==> exists|j: int|
            0 <= j < i && (#[trigger] recipes[j]).0 == (
            #[trigger] recipes[i].1.dependency_tokens[k]).lexeme
}

/// The dependencies of a recipe are passed over when they are all resolved.
proof fn lemma_all_resolved(
    recipes: Seq<(Seq<char>, RecipeView)>,
    state: ResolverView,
    recipe: RecipeView,
    i: nat,
)
    requires
        named(recipes),
        forall|k: int|
            0 <= k < recipe.dependency_tokens.len() ==> is_key(
                recipes,
                (#[trigger] recipe.dependency_tokens[k]).lexeme,
            ) && state.resolved.contains(recipe.dependency_tokens[k].lexeme),
    ensures
        resolve_from(recipes, state, recipe, i) == (Resolution::Done {
            state: state.left(recipe.name),
        }),
    decreases recipe.dependency_tokens.len() - i,
{
    if i < recipe.dependency_tokens.len() {
        lemma_named(recipes, recipe.dependency_tokens[i as int].lexeme);
        lemma_all_resolved(recipes, state, recipe, i + 1);
    }
}

/// Recipes that depend only on recipes before them are resolved one after the other.
proof fn lemma_ordered(recipes: Seq<(Seq<char>, RecipeView)>, state: ResolverView, i: nat)
    requires
        is_sorted(recipes),
        named(recipes),
        is_ordered(recipes),
        forall|j: int|
            0 <= j < i && j < recipes.len() ==> state.resolved.contains((#[trigger] recipes[j]).0),
    ensures
        resolve_all(recipes, state, i) matches Resolution::Done { state: then_state } && (forall|
            j: int,
        |
            0 <= j < recipes.len() ==> then_state.resolved.contains((#[trigger] recipes[j]).0)),
    decreases recipes.len() - i,
{
    if i < recipes.len() {
        let recipe = recipes[i as int].1;
        assert(recipe.name == recipes[i as int].0);
        if state.resolved.contains(recipe.name) {
            lemma_ordered(recipes, state, i + 1);
        } else {
            let entered = state.entered(recipe.name);
            assert forall|k: int| 0 <= k < recipe.dependency_tokens.len() implies is_key(
                recipes,
                (#[trigger] recipe.dependency_tokens[k]).lexeme,
            ) && entered.resolved.contains(recipe.dependency_tokens[k].lexeme) by {
                let j = choose|j: int|
                    0 <= j < i && (#[trigger] recipes[j]).0
                        == recipes[i as int].1.dependency_tokens[k].lexeme;
                assert(state.resolved.contains(recipes[j].0));
            }
            lemma_all_resolved(recipes, entered, recipe, 0);
            lemma_ordered(recipes, entered.left(recipe.name), i + 1);
        }
    }
}

/// Recipes that depend only on recipes with earlier names are all resolved.
pub proof fn law_ordered_recipes_are_resolved(recipes: Seq<(Seq<char>, RecipeView)>)
    requires
        is_sorted(recipes),
        named(recipes),
        is_ordered(recipes),
    ensures
        resolve_all(recipes, ResolverView::initial(), 0) matches Resolution::Done { state } && (
        forall|j: int|
            0 <= j < recipes.len() ==> state.resolved.contains((#[trigger] recipes[j]).0)),
{
    lemma_ordered(recipes, ResolverView::initial(), 0);
}

/// Whether the first `i` dependencies of a recipe are recipes that are resolved.
pub open spec fn is_passed(
    recipes: Seq<(Seq<char>, RecipeView)>,
    recipe: RecipeView,
    resolved: Set<Seq<char>>,
    i: int,
) -> bool {
    forall|k: int|
        0 <= k < i ==> is_key(recipes, (#[trigger] recipe.dependency_tokens[k]).lexeme)
            && resolved.contains(recipe.dependency_tokens[k].lexeme)
}

/// Whether `name` stands at `k` in `list`, and not before.
pub open spec fn is_first_at(list: Seq<Seq<char>>, name: Seq<char>, k: int) -> bool {
    &&& 0 <= k < list.len()
    &&& list[k] == name
    &&& forall|j: int| 0 <= j < k ==> #[trigger] list[j] != name
}

/// A list is cut off at the first occurrence of a name.
proof fn lemma_cut_at(list: Seq<Seq<char>>, name: Seq<char>, k: int)
    requires
        is_first_at(list, name, k),
    ensures
        from_name(list, name) == list.skip(k),
    decreases k,
{
    if k > 0 {
        assert(list[0] != name);
        assert forall|j: int| 0 <= j < k - 1 implies #[trigger] list.skip(1)[j] != name by {
            assert(list[j + 1] != name);
        }
        lemma_cut_at(list.skip(1), name, k - 1);
        assert(list.skip(1).skip(k - 1) =~= list.skip(k));
    } else {
        assert(list.skip(0) =~= list);
    }
}

/// Dependencies that are resolved are passed over.
proof fn lemma_passed(
    recipes: Seq<(Seq<char>, RecipeView)>,
    state: ResolverView,
    recipe: RecipeView,
    j: nat,
    i: nat,
)
    requires
        named(recipes),
        j <= i <= recipe.dependency_tokens.len(),
        is_passed(recipes, recipe, state.resolved, i as int),
    ensures
        resolve_from(recipes, state, recipe, j) == resolve_from(recipes, state, recipe, i),
    decreases i - j,
{
    if j < i {
        let name = recipe.dependency_tokens[j as int].lexeme;
        assert(is_key(recipes, name));
        lemma_named_lookup(recipes, name);
        lemma_passed(recipes, state, recipe, j + 1, i);
    }
}

/// What stands under a name has that name.
proof fn lemma_named_lookup(recipes: Seq<(Seq<char>, RecipeView)>, name: Seq<char>)
    requires
        named(recipes),
        is_key(recipes, name),
    ensures
        lookup(recipes, name) matches Some(recipe) && recipe.name == name,
{
    let k = lemma_found(recipes, name);
    assert(recipes[k].1.name == recipes[k].0);
}

/// Of the dependencies of a recipe, at whatever place it stands, the first that is not resolved
/// decides: if it is not a recipe, it is reported as unknown; if it was looked at before, it is
/// reported as circular, with what led to it from its first occurrence on, and then what was looked
/// at first; and otherwise it is looked at next. If all are resolved, so is the recipe.
pub proof fn law_first_pending_dependency_decides(
    recipes: Seq<(Seq<char>, RecipeView)>,
    state: ResolverView,
    recipe: RecipeView,
    i: nat,
)
    requires
        named(recipes),
        state.stack.len() > 0,
        i <= recipe.dependency_tokens.len(),
        is_passed(recipes, recipe, state.resolved, i as int),
    ensures
        ({
            let came = resolve_from(recipes, state, recipe, 0);
            if i == recipe.dependency_tokens.len() {
                came == (Resolution::Done {
                    state: ResolverView {
                        stack: state.stack.drop_last(),
                        seen: state.seen,
                        resolved: state.resolved.insert(recipe.name),
                    },
                })
            } else {
                let token = recipe.dependency_tokens[i as int];
                let name = token.lexeme;
                let path = state.stack.push(state.stack[0]);
                &&& !is_key(recipes, name) ==> came == (Resolution::Fail {
                    error: token.error(
                        ErrorKindView::UnknownDependency { recipe: recipe.name, unknown: name },
                    ),
                    state,
                })
                &&& is_key(recipes, name) && !state.resolved.contains(name) && state.seen.contains(
                    name,
                ) ==> {
                    &&& came matches Resolution::Fail { error, state: then_state }
                    &&& error.kind is CircularRecipeDependency
                    &&& error == token.error(error.kind)
                    &&& forall|k: int| #[trigger]
                        is_first_at(path, name, k) ==> error.kind
                            == (ErrorKindView::CircularRecipeDependency {
                            recipe: recipe.name,
                            circle: path.skip(k),
                        })
                }
                &&& is_key(recipes, name) && !state.resolved.contains(name)
                    && !state.seen.contains(name) ==> came == resolve_from(
                    recipes,
                    ResolverView {
                        stack: state.stack.push(name),
                        seen: state.seen.insert(name),
                        resolved: state.resolved,
                    },
                    lookup(recipes, name)->0,
                    0,
                )
            }
        }),
{
    lemma_passed(recipes, state, recipe, 0, i);
    if i < recipe.dependency_tokens.len() {
        let name = recipe.dependency_tokens[i as int].lexeme;
        let path = state.stack.push(state.stack[0]);
        if is_key(recipes, name) {
            lemma_named_lookup(recipes, name);
            assert forall|k: int| #[trigger] is_first_at(path, name, k) implies from_name(path, name)
                == path.skip(k) by {
                lemma_cut_at(path, name, k);
            }
        }
    }
}

/// What is known when a recipe is looked at: its name, and the recipes that are resolved.
pub struct Visit {
    pub name: Seq<char>,
    pub resolved: Set<Seq<char>>,
}

/// Whether a recipe called `name` was looked at in one of the first `k` visits.
pub open spec fn was_visited(log: Seq<Visit>, name: Seq<char>, k: int) -> bool {
    exists|j: int| 0 <= j < k && j < log.len() && (#[trigger] log[j]).name == name
}

/// Whether the dependency at `i` is the first of the recipe that is not resolved.
pub open spec fn is_pending(recipe: RecipeView, resolved: Set<Seq<char>>, i: int) -> bool {
    &&& 0 <= i < recipe.dependency_tokens.len()
    &&& !resolved.contains(recipe.dependency_tokens[i].lexeme)
    &&& forall|k: int|
        0 <= k < i ==> resolved.contains((#[trigger] recipe.dependency_tokens[k]).lexeme)
}

/// Whether all dependencies of the recipe are resolved.
pub open spec fn is_free(recipe: RecipeView, resolved: Set<Seq<char>>) -> bool {
    forall|k: int|
        0 <= k < recipe.dependency_tokens.len() ==> resolved.contains(
            (#[trigger] recipe.dependency_tokens[k]).lexeme,
        )
}

/// Whether the visit after the one at `k` is the one that follows from it. Where a dependency is not
/// resolved, the first such one is a recipe, was not looked at before, and is looked at next.
/// Otherwise the recipe is resolved then.
pub open spec fn follows(recipes: Seq<(Seq<char>, RecipeView)>, log: Seq<Visit>, k: int) -> bool {
    let recipe = lookup(recipes, log[k].name)->0;
    let resolved = log[k].resolved;
    &&& is_key(recipes, log[k].name)
    &&& forall|i: int| #[trigger]
        is_pending(recipe, resolved, i) ==> {
            let name = recipe.dependency_tokens[i].lexeme;
            &&& is_key(recipes, name)
            &&& !was_visited(log, name, k + 1)
            &&& k + 1 < log.len()
            &&& log[k + 1].name == name
            &&& log[k + 1].resolved == resolved
        }
    &&& is_free(recipe, resolved) && k + 1 < log.len() ==> log[k + 1].resolved == resolved.insert(
        log[k].name,
    ) && !log[k + 1].resolved.contains(log[k + 1].name)
}

/// Whether `log` says how recipes were looked at: at first none was resolved.
pub open spec fn is_log(recipes: Seq<(Seq<char>, RecipeView)>, log: Seq<Visit>) -> bool {
    &&& log.len() > 0 ==> log[0].resolved == Set::<Seq<char>>::empty()
    &&& forall|k: int| 0 <= k < log.len() ==> follows(recipes, log, k)
}

/// Whether `log` says so up to its last visit.
spec fn is_started(
    recipes: Seq<(Seq<char>, RecipeView)>,
    log: Seq<Visit>,
    seen: Set<Seq<char>>,
) -> bool {
    &&& log.len() > 0 ==> log[0].resolved == Set::<Seq<char>>::empty()
    &&& forall|k: int| 0 <= k < log.len() - 1 ==> #[trigger] follows(recipes, log, k)
    &&& forall|name: Seq<char>| #[trigger]
        seen.contains(name) == was_visited(log, name, log.len() as int)
}

/// How many of the first dependencies of a recipe are resolved.
spec fn passed(recipe: RecipeView, resolved: Set<Seq<char>>, from: nat) -> nat
    decreases recipe.dependency_tokens.len() - from,
{
    if from < recipe.dependency_tokens.len() && resolved.contains(
        recipe.dependency_tokens[from as int].lexeme,
    ) {
        passed(recipe, resolved, from + 1)
    } else {
        from
    }
}

/// The dependencies before the first that is not resolved are resolved.
proof fn lemma_pending(recipe: RecipeView, resolved: Set<Seq<char>>, from: nat)
    requires
        from <= recipe.dependency_tokens.len(),
        forall|k: int|
            0 <= k < from ==> resolved.contains((#[trigger] recipe.dependency_tokens[k]).lexeme),
    ensures
        ({
            let i = passed(recipe, resolved, from);
            if i < recipe.dependency_tokens.len() {
                is_pending(recipe, resolved, i as int) && !is_free(recipe, resolved)
            } else {
                i == recipe.dependency_tokens.len() && is_free(recipe, resolved)
            }
        }),
    decreases recipe.dependency_tokens.len() - from,
{
    if from < recipe.dependency_tokens.len() && resolved.contains(
        recipe.dependency_tokens[from as int].lexeme,
    ) {
        lemma_pending(recipe, resolved, from + 1);
    }
}

/// Only one dependency is the first that is not resolved.
proof fn lemma_one_pending(recipe: RecipeView, resolved: Set<Seq<char>>, i: int, j: int)
    requires
        is_pending(recipe, resolved, i),
        is_pending(recipe, resolved, j),
    ensures
        i == j,
{
    if i < j {
        assert(resolved.contains(recipe.dependency_tokens[i].lexeme));
    } else if j < i {
        assert(resolved.contains(recipe.dependency_tokens[j].lexeme));
    }
}

/// What follows stays so when a visit is added that follows from the last.
proof fn lemma_follows_push(
    recipes: Seq<(Seq<char>, RecipeView)>,
    log: Seq<Visit>,
    seen: Set<Seq<char>>,
    visit: Visit,
)
    requires
        is_started(recipes, log, seen),
        log.len() > 0 ==> follows(recipes, log.push(visit), log.len() - 1),
        log.len() == 0 ==> visit.resolved == Set::<Seq<char>>::empty(),
    ensures
        is_started(recipes, log.push(visit), seen.insert(visit.name)),
{
    let more = log.push(visit);
    assert forall|k: int| 0 <= k < more.len() - 1 implies #[trigger] follows(recipes, more, k) by {
        if k < log.len() - 1 {
            assert(follows(recipes, log, k));
            assert(more[k] == log[k] && more[k + 1] == log[k + 1]);
            let n = k + 1;
            assert forall|name: Seq<char>| #[trigger] was_visited(more, name, n) implies was_visited(
                log,
                name,
                n,
            ) by {
                let j = choose|j: int|
                    0 <= j < n && j < more.len() && (#[trigger] more[j]).name == name;
                assert(log[j].name == name);
            }
        }
    }
    assert forall|name: Seq<char>| #[trigger]
        seen.insert(visit.name).contains(name) == was_visited(more, name, more.len() as int) by {
        if was_visited(more, name, more.len() as int) {
            let j = choose|j: int|
                0 <= j < more.len() && j < more.len() && (#[trigger] more[j]).name == name;
            if j < log.len() {
                assert(log[j].name == name);
                assert(was_visited(log, name, log.len() as int));
            }
        }
        if name == visit.name {
            assert(more[log.len() as int].name == name);
        } else if seen.contains(name) {
            let j = choose|j: int|
                0 <= j < log.len() && j < log.len() && (#[trigger] log[j]).name == name;
            assert(more[j].name == name);
        }
    }
    if log.len() > 0 {
        assert(more[0] == log[0]);
    }
}

/// How a recipe was looked at that led to nothing wrong.
proof fn lemma_logged_from(
    recipes: Seq<(Seq<char>, RecipeView)>,
    state: ResolverView,
    recipe: RecipeView,
    log: Seq<Visit>,
) -> (more: Seq<Visit>)
    requires
        named(recipes),
        state.stack.len() > 0,
        is_started(recipes, log, state.seen),
        log.len() > 0,
        log.last() == (Visit { name: recipe.name, resolved: state.resolved }),
        lookup(recipes, recipe.name) == Some(recipe),
        forall|name: Seq<char>| #[trigger] state.resolved.contains(name) ==> is_key(recipes, name),
        resolve_from(recipes, state, recipe, 0) is Done,
    ensures
        resolve_from(recipes, state, recipe, 0) matches Resolution::Done { state: then_state } && {
            &&& is_started(recipes, more, then_state.seen)
            &&& log.is_prefix_of(more)
            &&& more.len() > 0
            &&& is_key(recipes, more.last().name)
            &&& is_free(lookup(recipes, more.last().name)->0, more.last().resolved)
            &&& then_state.resolved == more.last().resolved.insert(more.last().name)
            &&& forall|name: Seq<char>| #[trigger]
                then_state.resolved.contains(name) ==> is_key(recipes, name)
        },
    decreases unseen(recipes, state.seen),
{
    let resolved = state.resolved;
    let i = passed(recipe, resolved, 0);
    lemma_pending(recipe, resolved, 0);
    assert forall|k: int| 0 <= k < i implies is_key(
        recipes,
        (#[trigger] recipe.dependency_tokens[k]).lexeme,
    ) && resolved.contains(recipe.dependency_tokens[k].lexeme) by {
        if i < recipe.dependency_tokens.len() {
            assert(is_pending(recipe, resolved, i as int));
        }
        assert(resolved.contains(recipe.dependency_tokens[k].lexeme));
    }
    law_first_pending_dependency_decides(recipes, state, recipe, i);
    if i == recipe.dependency_tokens.len() {
        assert(log.is_prefix_of(log)) by {
            assert(log =~= log.take(log.len() as int));
        }
        log
    } else {
        let name = recipe.dependency_tokens[i as int].lexeme;
        let dependency = lookup(recipes, name)->0;
        lemma_named_lookup(recipes, name);
        let visit = Visit { name, resolved };
        let more = log.push(visit);
        let last = log.len() - 1;
        assert(more[last] == log[last]);
        assert(!was_visited(more, name, last + 1)) by {
            if was_visited(more, name, last + 1) {
                let j = choose|j: int|
                    0 <= j < last + 1 && j < more.len() && (#[trigger] more[j]).name == name;
                assert(log[j].name == name);
                assert(was_visited(log, name, log.len() as int));
            }
        }
        assert(follows(recipes, more, last)) by {
            assert forall|j: int| #[trigger] is_pending(recipe, resolved, j) implies j == i by {
                lemma_one_pending(recipe, resolved, i as int, j);
            }
        }
        lemma_follows_push(recipes, log, state.seen, visit);
        let deeper = ResolverView {
            stack: state.stack.push(name),
            seen: state.seen.insert(name),
            resolved,
        };
        let at = lemma_found(recipes, name);
        assert(recipes[at].1.name == name);
        lemma_unseen(recipes, state.seen, deeper.seen);
        let end = lemma_logged_from(recipes, deeper, dependency, more);
        assert(log.is_prefix_of(end)) by {
            assert(log =~= more.take(log.len() as int));
            assert(more =~= end.take(more.len() as int));
            assert(log =~= end.take(log.len() as int));
        }
        end
    }
}

/// What is said in a log is said in a longer one.
proof fn lemma_still_visited(log: Seq<Visit>, more: Seq<Visit>, name: Seq<char>)
    requires
        log.is_prefix_of(more),
        was_visited(log, name, log.len() as int),
    ensures
        was_visited(more, name, more.len() as int),
{
    let j = choose|j: int|
        0 <= j < log.len() && j < log.len() && (#[trigger] log[j]).name == name;
    assert(log =~= more.take(log.len() as int));
    assert(more[j].name == name);
}

/// How recipes were looked at that led to nothing wrong.
proof fn lemma_logged(
    recipes: Seq<(Seq<char>, RecipeView)>,
    state: ResolverView,
    i: nat,
    log: Seq<Visit>,
) -> (more: Seq<Visit>)
    requires
        is_sorted(recipes),
        named(recipes),
        is_log(recipes, log),
        is_started(recipes, log, state.seen),
        log.len() == 0 ==> state.resolved == Set::<Seq<char>>::empty(),
        log.len() > 0 ==> state.resolved == log.last().resolved.insert(log.last().name) && is_free(
            lookup(recipes, log.last().name)->0,
            log.last().resolved,
        ),
        forall|name: Seq<char>| #[trigger] state.resolved.contains(name) ==> is_key(recipes, name),
        forall|name: Seq<char>| #[trigger] state.resolved.contains(name) ==> state.seen.contains(
            name,
        ),
        forall|k: int|
            0 <= k < i && k < recipes.len() ==> was_visited(
                log,
                (#[trigger] recipes[k]).0,
                log.len() as int,
            ),
        resolve_all(recipes, state, i) is Done,
    ensures
        resolve_all(recipes, state, i) matches Resolution::Done { state: then_state } && {
            &&& is_log(recipes, more)
            &&& forall|k: int|
                0 <= k < recipes.len() ==> was_visited(
                    more,
                    (#[trigger] recipes[k]).0,
                    more.len() as int,
                )
            &&& forall|name: Seq<char>| #[trigger]
                then_state.seen.contains(name) == was_visited(more, name, more.len() as int)
            &&& more.len() > 0 ==> then_state.resolved == more.last().resolved.insert(
                more.last().name,
            )
        },
    decreases recipes.len() - i,
{
    if i >= recipes.len() {
        log
    } else {
        let recipe = recipes[i as int].1;
        let name = recipes[i as int].0;
        assert(recipe.name == name);
        lemma_lookup(recipes, i as int);
        if state.resolved.contains(name) {
            assert(was_visited(log, name, log.len() as int)) by {
                assert(state.seen.contains(name));
            }
            lemma_logged(recipes, state, i + 1, log)
        } else {
            let visit = Visit { name, resolved: state.resolved };
            let started = log.push(visit);
            let entered = state.entered(name);
            if log.len() > 0 {
                let last = log.len() - 1;
                assert(follows(recipes, log, last));
                assert(started[last] == log[last]);
                assert(started[last + 1] == visit);
                let had = lookup(recipes, log[last].name)->0;
                assert forall|j: int| !#[trigger] is_pending(had, log[last].resolved, j) by {
                    if 0 <= j < had.dependency_tokens.len() {
                        assert(log[last].resolved.contains(had.dependency_tokens[j].lexeme));
                    }
                }
                assert(follows(recipes, started, last));
            }
            lemma_follows_push(recipes, log, state.seen, visit);
            let more = lemma_logged_from(recipes, entered, recipe, started);
            let then_state = resolve_from(recipes, entered, recipe, 0)->Done_state;
            lemma_closed_log(recipes, more, then_state.seen);
            assert forall|k: int| 0 <= k < i + 1 && k < recipes.len() implies was_visited(
                more,
                (#[trigger] recipes[k]).0,
                more.len() as int,
            ) by {
                if k < i {
                    assert(log.is_prefix_of(started)) by {
                        assert(log =~= started.take(log.len() as int));
                    }
                    lemma_still_visited(log, started, recipes[k].0);
                } else {
                    assert(started[log.len() as int].name == name);
                }
                lemma_still_visited(started, more, recipes[k].0);
            }
            assert forall|n: Seq<char>| #[trigger] then_state.resolved.contains(n) implies
                then_state.seen.contains(n) by {
                lemma_resolved_is_seen(recipes, entered, recipe, n);
            }
            lemma_logged(recipes, then_state, i + 1, more)
        }
    }
}

/// A log that ends with a recipe that is resolved is whole.
proof fn lemma_closed_log(
    recipes: Seq<(Seq<char>, RecipeView)>,
    log: Seq<Visit>,
    seen: Set<Seq<char>>,
)
    requires
        is_started(recipes, log, seen),
        log.len() > 0,
        is_key(recipes, log.last().name),
        is_free(lookup(recipes, log.last().name)->0, log.last().resolved),
    ensures
        is_log(recipes, log),
{
    let last = log.len() - 1;
    let recipe = lookup(recipes, log[last].name)->0;
    assert forall|j: int| !#[trigger] is_pending(recipe, log[last].resolved, j) by {
        if 0 <= j < recipe.dependency_tokens.len() {
            assert(log[last].resolved.contains(recipe.dependency_tokens[j].lexeme));
        }
    }
    assert(follows(recipes, log, last));
}

/// What is resolved was looked at.
proof fn lemma_resolved_is_seen(
    recipes: Seq<(Seq<char>, RecipeView)>,
    state: ResolverView,
    recipe: RecipeView,
    name: Seq<char>,
)
    requires
        named(recipes),
        state.stack.len() > 0,
        state.seen.contains(recipe.name),
        state.resolved.contains(name) ==> state.seen.contains(name),
        forall|n: Seq<char>| #[trigger] state.resolved.contains(n) ==> is_key(recipes, n),
        resolve_from(recipes, state, recipe, 0) is Done,
    ensures
        resolve_from(recipes, state, recipe, 0) matches Resolution::Done { state: then_state } && (
        then_state.resolved.contains(name) ==> then_state.seen.contains(name)),
    decreases unseen(recipes, state.seen),
{
    let resolved = state.resolved;
    let i = passed(recipe, resolved, 0);
    lemma_pending(recipe, resolved, 0);
    assert forall|k: int| 0 <= k < i implies is_key(
        recipes,
        (#[trigger] recipe.dependency_tokens[k]).lexeme,
    ) && resolved.contains(recipe.dependency_tokens[k].lexeme) by {
        if i < recipe.dependency_tokens.len() {
            assert(is_pending(recipe, resolved, i as int));
        }
        assert(resolved.contains(recipe.dependency_tokens[k].lexeme));
    }
    law_first_pending_dependency_decides(recipes, state, recipe, i);
    if i < recipe.dependency_tokens.len() {
        let next = recipe.dependency_tokens[i as int].lexeme;
        let at = lemma_found(recipes, next);
        lemma_named_lookup(recipes, next);
        assert(recipes[at].1.name == next);
        let deeper = ResolverView {
            stack: state.stack.push(next),
            seen: state.seen.insert(next),
            resolved,
        };
        lemma_unseen(recipes, state.seen, deeper.seen);
        lemma_resolved_is_seen(recipes, deeper, lookup(recipes, next)->0, name);
    }
}

/// Where nothing is found to be wrong with dependencies, every recipe was looked at; and whenever
/// one was, the first of its dependencies that was not resolved then, if there was one, was a recipe
/// that had not been looked at before. So no dependency that leads back to a recipe that waits for it
/// is passed over in silence.
pub proof fn law_no_pending_dependency_was_seen(
    recipes: Seq<(Seq<char>, RecipeView)>,
    state: ResolverView,
) -> (log: Seq<Visit>)
    requires
        is_sorted(recipes),
        named(recipes),
        resolve_all(recipes, ResolverView::initial(), 0) == (Resolution::Done { state }),
    ensures
        is_log(recipes, log),
        forall|k: int|
            0 <= k < recipes.len() ==> was_visited(
                log,
                (#[trigger] recipes[k]).0,
                log.len() as int,
            ),
        log.len() > 0 ==> state.resolved == log.last().resolved.insert(log.last().name),
{
    lemma_logged(recipes, ResolverView::initial(), 0, Seq::empty())
}

/// Recipes are looked at in their order, and what is resolved already is not looked at again. The first
/// with which something is wrong decides.
pub proof fn law_recipes_are_resolved_in_turn(
    recipes: Seq<(Seq<char>, RecipeView)>,
    state: ResolverView,
    i: nat,
)
    ensures
        ({
            let result = resolve_all(recipes, state, i);
            let recipe = recipes[i as int].1;
            let looked_at = ResolverView {
                stack: state.stack.push(recipe.name),
                seen: state.seen.insert(recipe.name),
                resolved: state.resolved,
            };
            let one = resolve_from(recipes, looked_at, recipe, 0);
            let resolved = state.resolved.contains(recipe.name);
            &&& i >= recipes.len() ==> result == (Resolution::Done { state })
            &&& i < recipes.len() && resolved ==> result == resolve_all(recipes, state, i + 1)
            &&& i < recipes.len() && !resolved && one is Fail ==> result == one
            &&& i < recipes.len() && !resolved && one is Done ==> result == resolve_all(
                recipes,
                one->Done_state,
                i + 1,
            )
        }),
{
}

} // verus!
