//! What holds of the order in which recipes are run.

use vstd::prelude::*;

use crate::graph::{is_circle, is_path, lemma_circle, lemma_first_step, lemma_no_circle};
use crate::graph::lemma_path_push;
use crate::justfile::{is_first, is_run, keys, lemma_deeper, lemma_none_missing, named, not_in};
use crate::justfile::{plan_all, plan_from, plan_recipe, run_all, PlanView};
use crate::recipe::RecipeView;
use crate::resolver::{resolve_all, Resolution, ResolverView};
use crate::resolver_laws::{depends, law_resolved_recipes_are_settled};
use crate::run::RunErrorView;
use crate::table::{is_key, is_sorted, lemma_found, lookup, outside};
use crate::token::lexemes;

verus! {

/// That the recipe under the first name needs that under the second to be run first.
pub open spec fn needs(recipes: Seq<(Seq<char>, RecipeView)>) -> spec_fn(
    Seq<char>,
    Seq<char>,
) -> bool {
    |name: Seq<char>, other: Seq<char>|
        lookup(recipes, name) matches Some(recipe) && recipe.dependencies.contains(other)
}

/// Whether the dependencies of each recipe from the one at `from` on are run before it.
pub open spec fn is_ready(order: Seq<RecipeView>, from: int) -> bool {
    forall|k: int, dependency: Seq<char>|
        from <= k < order.len() && #[trigger] order[k].dependencies.contains(dependency) ==> is_run(
            order.take(k),
            dependency,
        )
}

/// Whether no recipe from the one at `from` on is run twice.
pub open spec fn is_distinct(order: Seq<RecipeView>, from: int) -> bool {
    forall|i: int, j: int|
        from <= i < j < order.len() ==> (#[trigger] order[i]).name != (#[trigger] order[j]).name
}

/// Whether a recipe called `name` is among those that are run from the one at `from` on.
pub open spec fn is_run_from(order: Seq<RecipeView>, name: Seq<char>, from: int) -> bool {
    exists|i: int| from <= i < order.len() && (#[trigger] order[i]).name == name
}

/// What is run stays run when more is.
proof fn lemma_still_run(order: Seq<RecipeView>, more: Seq<RecipeView>, name: Seq<char>)
    requires
        order.is_prefix_of(more),
        is_run(order, name),
    ensures
        is_run(more, name),
{
    let i = choose|i: int| 0 <= i < order.len() && (#[trigger] order[i]).name == name;
    assert(more[i] == order[i]);
}

/// A recipe can be run after its dependencies.
proof fn lemma_ready_push(order: Seq<RecipeView>, recipe: RecipeView, from: int)
    requires
        0 <= from,
        is_ready(order, from),
        forall|k: int|
            0 <= k < recipe.dependencies.len() ==> is_run(order, #[trigger] recipe.dependencies[k]),
    ensures
        is_ready(order.push(recipe), from),
{
    let more = order.push(recipe);
    assert forall|k: int, dependency: Seq<char>|
        from <= k < more.len() && #[trigger] more[k].dependencies.contains(dependency) implies is_run(
        more.take(k),
        dependency,
    ) by {
        if k < order.len() {
            assert(order[k].dependencies.contains(dependency));
            assert(more.take(k) =~= order.take(k));
        } else {
            let i = choose|i: int|
                0 <= i < recipe.dependencies.len() && recipe.dependencies[i] == dependency;
            assert(is_run(order, recipe.dependencies[i]));
            assert(more.take(k) =~= order);
        }
    }
}

/// What is planned for a recipe is ready, goes on from what was planned, and ends with it.
proof fn lemma_plan_ready(
    recipes: Seq<(Seq<char>, RecipeView)>,
    recipe: RecipeView,
    stack: Seq<Seq<char>>,
    i: nat,
    order: Seq<RecipeView>,
    from: int,
)
    requires
        named(recipes),
        0 <= from,
        is_ready(order, from),
        forall|k: int|
            0 <= k < i && k < recipe.dependencies.len() ==> is_run(
                order,
                #[trigger] recipe.dependencies[k],
            ),
    ensures
        ({
            let plan = plan_from(recipes, recipe, stack, i, order);
            &&& is_ready(plan.order, from)
            &&& order.is_prefix_of(plan.order)
            &&& plan.complete ==> plan.order.len() > order.len() && plan.order.last() == recipe
        }),
    decreases outside(recipes, stack.to_set()), recipe.dependencies.len() - i,
{
    if i >= recipe.dependencies.len() {
        lemma_ready_push(order, recipe, from);
    } else {
        let name = recipe.dependencies[i as int];
        if is_run(order, name) {
            lemma_plan_ready(recipes, recipe, stack, i + 1, order, from);
        } else if is_key(recipes, name) && !stack.contains(name) {
            let dependency = lookup(recipes, name)->0;
            lemma_deeper(recipes, stack, name);
            lemma_plan_ready(recipes, dependency, stack.push(name), 0, order, from);
            let inner = plan_from(recipes, dependency, stack.push(name), 0, order);
            if inner.complete {
                assert(dependency.name == name) by {
                    let k = choose|k: int|
                        0 <= k < recipes.len() && (#[trigger] recipes[k]).0 == name;
                    assert(recipes[k].1.name == name);
                }
                assert(inner.order[inner.order.len() - 1].name == name);
                assert(is_run(inner.order, name));
                assert forall|k: int| 0 <= k < i + 1 && k < recipe.dependencies.len() implies is_run(
                    inner.order,
                    #[trigger] recipe.dependencies[k],
                ) by {
                    if k < i {
                        lemma_still_run(order, inner.order, recipe.dependencies[k]);
                    }
                }
                lemma_plan_ready(recipes, recipe, stack, i + 1, inner.order, from);
            }
        }
    }
}

/// What is planned for a recipe goes on from what was planned. From `from` on it is planned once,
/// and what waits is not planned yet; and nothing is planned again but the recipe itself.
proof fn lemma_plan_distinct(
    recipes: Seq<(Seq<char>, RecipeView)>,
    recipe: RecipeView,
    stack: Seq<Seq<char>>,
    i: nat,
    order: Seq<RecipeView>,
    from: int,
)
    requires
        named(recipes),
        0 <= from <= order.len(),
        is_distinct(order, from),
        stack.contains(recipe.name),
        forall|name: Seq<char>| #[trigger] stack.contains(name) ==> !is_run_from(order, name, from),
    ensures
        ({
            let plan = plan_from(recipes, recipe, stack, i, order);
            &&& order.is_prefix_of(plan.order)
            &&& is_distinct(plan.order, from)
            &&& forall|name: Seq<char>| #[trigger]
                stack.contains(name) && is_run_from(plan.order, name, from) ==> plan.complete
                    && name == recipe.name
            &&& forall|k: int|
                order.len() <= k < plan.order.len() && is_run(
                    order,
                    (#[trigger] plan.order[k]).name,
                ) ==> plan.order[k].name == recipe.name
        }),
    decreases outside(recipes, stack.to_set()), recipe.dependencies.len() - i,
{
    if i >= recipe.dependencies.len() {
        let more = order.push(recipe);
        assert(!is_run_from(order, recipe.name, from));
        assert forall|a: int, b: int| from <= a < b < more.len() implies (#[trigger] more[a]).name
            != (#[trigger] more[b]).name by {
            assert(more[a] == order[a]);
            if b < order.len() {
                assert(more[b] == order[b]);
            }
        }
        assert forall|name: Seq<char>| #[trigger]
            stack.contains(name) && is_run_from(more, name, from) implies name == recipe.name by {
            let k = choose|k: int| from <= k < more.len() && (#[trigger] more[k]).name == name;
            if k < order.len() {
                assert(order[k].name == name);
                assert(is_run_from(order, name, from));
            }
        }
    } else {
        let name = recipe.dependencies[i as int];
        if is_run(order, name) {
            lemma_plan_distinct(recipes, recipe, stack, i + 1, order, from);
        } else if is_key(recipes, name) && !stack.contains(name) {
            let dependency = lookup(recipes, name)->0;
            let deeper = stack.push(name);
            lemma_deeper(recipes, stack, name);
            assert(dependency.name == name) by {
                let k = choose|k: int| 0 <= k < recipes.len() && (#[trigger] recipes[k]).0 == name;
                assert(recipes[k].1.name == name);
            }
            assert(deeper[stack.len() as int] == name);
            assert forall|n: Seq<char>| #[trigger] deeper.contains(n) implies !is_run_from(
                order,
                n,
                from,
            ) by {
                let k = choose|k: int| 0 <= k < deeper.len() && deeper[k] == n;
                if k < stack.len() {
                    assert(stack[k] == n);
                    assert(stack.contains(n));
                }
            }
            lemma_plan_distinct(recipes, dependency, deeper, 0, order, from);
            let inner = plan_from(recipes, dependency, deeper, 0, order);
            assert forall|n: Seq<char>| #[trigger] stack.contains(n) implies !is_run_from(
                inner.order,
                n,
                from,
            ) by {
                let k = choose|k: int| 0 <= k < stack.len() && stack[k] == n;
                assert(deeper[k] == n);
                assert(deeper.contains(n));
            }
            if inner.complete {
                lemma_plan_distinct(recipes, recipe, stack, i + 1, inner.order, from);
                let plan = plan_from(recipes, recipe, stack, i + 1, inner.order);
                assert forall|k: int|
                    order.len() <= k < plan.order.len() && is_run(
                        order,
                        (#[trigger] plan.order[k]).name,
                    ) implies plan.order[k].name == recipe.name by {
                    if k < inner.order.len() {
                        assert(plan.order[k] == inner.order[k]);
                    } else {
                        lemma_still_run(order, inner.order, plan.order[k].name);
                    }
                }
            }
        }
    }
}

/// Whether each recipe from `from` on, but for the last, is a dependency of a later one.
spec fn is_needed(order: Seq<RecipeView>, from: int) -> bool {
    forall|k: int|
        from <= k < order.len() - 1 ==> needed_later(order, #[trigger] order[k].name, k)
}

/// Whether `name` is a dependency of a recipe that is run after the one at `k`.
pub open spec fn needed_later(order: Seq<RecipeView>, name: Seq<char>, k: int) -> bool {
    exists|j: int| k < j < order.len() && (#[trigger] order[j]).dependencies.contains(name)
}

/// What is planned for a recipe is needed by what is planned later.
proof fn lemma_plan_needed(
    recipes: Seq<(Seq<char>, RecipeView)>,
    recipe: RecipeView,
    stack: Seq<Seq<char>>,
    i: nat,
    order: Seq<RecipeView>,
    from: int,
)
    requires
        named(recipes),
        0 <= from <= order.len(),
        forall|k: int|
            from <= k < order.len() ==> needed_later(order, #[trigger] order[k].name, k)
                || recipe.dependencies.contains(order[k].name),
    ensures
        ({
            let plan = plan_from(recipes, recipe, stack, i, order);
            plan.complete ==> {
                &&& order.is_prefix_of(plan.order)
                &&& plan.order.len() > order.len()
                &&& plan.order.last() == recipe
                &&& is_needed(plan.order, from)
            }
        }),
    decreases outside(recipes, stack.to_set()), recipe.dependencies.len() - i,
{
    if i >= recipe.dependencies.len() {
        let more = order.push(recipe);
        assert forall|k: int| from <= k < more.len() - 1 implies needed_later(
            more,
            #[trigger] more[k].name,
            k,
        ) by {
            let name = order[k].name;
            if needed_later(order, name, k) {
                let j = choose|j: int|
                    k < j < order.len() && (#[trigger] order[j]).dependencies.contains(name);
                assert(more[j].dependencies.contains(name));
            } else {
                assert(more[order.len() as int].dependencies.contains(name));
            }
        }
    } else {
        let name = recipe.dependencies[i as int];
        if is_run(order, name) {
            lemma_plan_needed(recipes, recipe, stack, i + 1, order, from);
        } else if is_key(recipes, name) && !stack.contains(name) {
            let dependency = lookup(recipes, name)->0;
            lemma_deeper(recipes, stack, name);
            assert(dependency.name == name) by {
                let k = choose|k: int| 0 <= k < recipes.len() && (#[trigger] recipes[k]).0 == name;
                assert(recipes[k].1.name == name);
            }
            lemma_plan_needed(
                recipes,
                dependency,
                stack.push(name),
                0,
                order,
                order.len() as int,
            );
            let inner = plan_from(recipes, dependency, stack.push(name), 0, order);
            if inner.complete {
                let more = inner.order;
                assert forall|k: int| from <= k < more.len() implies needed_later(
                    more,
                    #[trigger] more[k].name,
                    k,
                ) || recipe.dependencies.contains(more[k].name) by {
                    if k < order.len() {
                        assert(more[k] == order[k]);
                        if needed_later(order, order[k].name, k) {
                            let j = choose|j: int|
                                k < j < order.len() && (
                                #[trigger] order[j]).dependencies.contains(order[k].name);
                            assert(more[j] == order[j]);
                            assert(more[j].dependencies.contains(more[k].name));
                        }
                    } else if k == more.len() - 1 {
                        assert(recipe.dependencies[i as int] == more[k].name);
                    }
                }
                lemma_plan_needed(recipes, recipe, stack, i + 1, more, from);
            }
        }
    }
}

/// The dependencies of each recipe that is run are run before it.
pub proof fn law_dependencies_run_first(
    recipes: Seq<(Seq<char>, RecipeView)>,
    wanted: Seq<Seq<char>>,
    plan: PlanView,
)
    requires
        named(recipes),
        run_all(recipes, wanted) == Ok::<PlanView, RunErrorView>(plan),
    ensures
        is_ready(plan.order, 0),
{
    lemma_none_missing(recipes, wanted);
    lemma_all_ready(recipes, wanted, 0, Seq::empty());
}

/// What is planned for several recipes is ready.
proof fn lemma_all_ready(
    recipes: Seq<(Seq<char>, RecipeView)>,
    wanted: Seq<Seq<char>>,
    i: nat,
    order: Seq<RecipeView>,
)
    requires
        named(recipes),
        is_ready(order, 0),
    ensures
        is_ready(plan_all(recipes, wanted, i, order).order, 0),
    decreases wanted.len() - i,
{
    if i < wanted.len() {
        let recipe = lookup(recipes, wanted[i as int])->0;
        let plan = plan_recipe(recipes, recipe, order);
        lemma_plan_ready(recipes, recipe, seq![recipe.name], 0, order, 0);
        if plan.complete {
            lemma_all_ready(recipes, wanted, i + 1, plan.order);
        }
    }
}

/// For one recipe no recipe is run twice. And after `order` none is run that is in it, unless it is
/// the recipe itself.
pub proof fn law_no_recipe_runs_twice(
    recipes: Seq<(Seq<char>, RecipeView)>,
    recipe: RecipeView,
    order: Seq<RecipeView>,
    plan: PlanView,
)
    requires
        named(recipes),
        plan == plan_recipe(recipes, recipe, order),
    ensures
        order.is_prefix_of(plan.order),
        is_distinct(plan.order, order.len() as int),
        forall|k: int|
            order.len() <= k < plan.order.len() && is_run(order, (#[trigger] plan.order[k]).name)
                ==> plan.order[k].name == recipe.name,
        !is_run(order, recipe.name) ==> forall|k: int|
            order.len() <= k < plan.order.len() ==> !is_run(order, (#[trigger] plan.order[k]).name),
{
    assert(seq![recipe.name][0] == recipe.name);
    lemma_plan_distinct(recipes, recipe, seq![recipe.name], 0, order, order.len() as int);
}

/// For one recipe, after `order`, nothing is run but the recipe itself, as the last, and what a
/// later one depends on; and the dependencies of what is run are run before it.
pub proof fn law_only_dependencies_run(
    recipes: Seq<(Seq<char>, RecipeView)>,
    recipe: RecipeView,
    order: Seq<RecipeView>,
    plan: PlanView,
)
    requires
        named(recipes),
        plan == plan_recipe(recipes, recipe, order),
    ensures
        is_ready(plan.order, order.len() as int),
        plan.complete ==> {
            &&& plan.order.len() > order.len()
            &&& plan.order.last() == recipe
            &&& forall|k: int|
                order.len() <= k < plan.order.len() - 1 ==> needed_later(
                    plan.order,
                    #[trigger] plan.order[k].name,
                    k,
                )
        },
{
    let from = order.len() as int;
    lemma_plan_ready(recipes, recipe, seq![recipe.name], 0, order, from);
    lemma_plan_needed(recipes, recipe, seq![recipe.name], 0, order, from);
}

/// Of several recipes that are asked for, only what is asked for is run twice.
pub proof fn law_only_wanted_recipes_run_twice(
    recipes: Seq<(Seq<char>, RecipeView)>,
    wanted: Seq<Seq<char>>,
    plan: PlanView,
    i: int,
    j: int,
)
    requires
        named(recipes),
        run_all(recipes, wanted) == Ok::<PlanView, RunErrorView>(plan),
        0 <= i < j < plan.order.len(),
        plan.order[i].name == plan.order[j].name,
    ensures
        wanted.contains(plan.order[i].name),
{
    lemma_none_missing(recipes, wanted);
    lemma_all_wanted(recipes, wanted, 0, Seq::empty());
}

/// Whether only recipes that are asked for are run twice.
spec fn is_wanted(order: Seq<RecipeView>, wanted: Seq<Seq<char>>) -> bool {
    forall|i: int, j: int|
        0 <= i < j < order.len() && (#[trigger] order[i]).name == (#[trigger] order[j]).name
            ==> wanted.contains(order[i].name)
}

/// What is planned twice for several recipes is asked for.
proof fn lemma_all_wanted(
    recipes: Seq<(Seq<char>, RecipeView)>,
    wanted: Seq<Seq<char>>,
    i: nat,
    order: Seq<RecipeView>,
)
    requires
        named(recipes),
        forall|k: int| 0 <= k < wanted.len() ==> is_key(recipes, #[trigger] wanted[k]),
        is_wanted(order, wanted),
    ensures
        is_wanted(plan_all(recipes, wanted, i, order).order, wanted),
    decreases wanted.len() - i,
{
    if i < wanted.len() {
        let name = wanted[i as int];
        let recipe = lookup(recipes, name)->0;
        let plan = plan_recipe(recipes, recipe, order);
        assert(is_key(recipes, name));
        assert(recipe.name == name) by {
            let k = lemma_found(recipes, name);
            assert(recipes[k].1.name == recipes[k].0);
        }
        law_no_recipe_runs_twice(recipes, recipe, order, plan);
        let more = plan.order;
        assert forall|a: int, b: int|
            0 <= a < b < more.len() && (#[trigger] more[a]).name == (
            #[trigger] more[b]).name implies wanted.contains(more[a].name) by {
            if b < order.len() {
                assert(more[a] == order[a] && more[b] == order[b]);
            } else if a < order.len() {
                assert(order[a].name == more[b].name);
                assert(is_run(order, more[b].name));
                assert(wanted[i as int] == more[a].name);
            }
        }
        if plan.complete {
            lemma_all_wanted(recipes, wanted, i + 1, more);
        }
    }
}

/// Of several recipes that are asked for, nothing is run but what is asked for and what a later one
/// depends on.
pub proof fn law_only_wanted_and_needed_recipes_run(
    recipes: Seq<(Seq<char>, RecipeView)>,
    wanted: Seq<Seq<char>>,
    plan: PlanView,
)
    requires
        named(recipes),
        run_all(recipes, wanted) == Ok::<PlanView, RunErrorView>(plan),
        plan.complete,
    ensures
        is_called_for(plan.order, wanted),
{
    lemma_none_missing(recipes, wanted);
    lemma_all_called_for(recipes, wanted, 0, Seq::empty());
}

/// Whether each recipe is asked for or a dependency of a later one.
pub open spec fn is_called_for(order: Seq<RecipeView>, wanted: Seq<Seq<char>>) -> bool {
    forall|k: int|
        0 <= k < order.len() ==> wanted.contains((#[trigger] order[k]).name) || needed_later(
            order,
            order[k].name,
            k,
        )
}

/// What is planned for several recipes is asked for, or a later one depends on it.
proof fn lemma_all_called_for(
    recipes: Seq<(Seq<char>, RecipeView)>,
    wanted: Seq<Seq<char>>,
    i: nat,
    order: Seq<RecipeView>,
)
    requires
        named(recipes),
        forall|k: int| 0 <= k < wanted.len() ==> is_key(recipes, #[trigger] wanted[k]),
        is_called_for(order, wanted),
    ensures
        ({
            let plan = plan_all(recipes, wanted, i, order);
            plan.complete ==> is_called_for(plan.order, wanted)
        }),
    decreases wanted.len() - i,
{
    if i < wanted.len() {
        let name = wanted[i as int];
        let recipe = lookup(recipes, name)->0;
        let plan = plan_recipe(recipes, recipe, order);
        assert(is_key(recipes, name));
        assert(recipe.name == name) by {
            let k = lemma_found(recipes, name);
            assert(recipes[k].1.name == recipes[k].0);
        }
        law_no_recipe_runs_twice(recipes, recipe, order, plan);
        law_only_dependencies_run(recipes, recipe, order, plan);
        if plan.complete {
            let more = plan.order;
            assert forall|k: int| 0 <= k < more.len() implies wanted.contains(
                (#[trigger] more[k]).name,
            ) || needed_later(more, more[k].name, k) by {
                if k < order.len() {
                    assert(more[k] == order[k]);
                    if needed_later(order, order[k].name, k) {
                        let j = choose|j: int|
                            k < j < order.len() && (#[trigger] order[j]).dependencies.contains(
                                order[k].name,
                            );
                        assert(more[j] == order[j]);
                        assert(more[j].dependencies.contains(more[k].name));
                    }
                } else if k == more.len() - 1 {
                    assert(wanted[i as int] == more[k].name);
                }
            }
            lemma_all_called_for(recipes, wanted, i + 1, more);
        }
    }
}

/// Whether each dependency of each recipe is a recipe.
pub open spec fn is_known(recipes: Seq<(Seq<char>, RecipeView)>) -> bool {
    forall|name: Seq<char>, other: Seq<char>| #[trigger]
        needs(recipes)(name, other) ==> is_key(recipes, other)
}

/// Without unknown dependencies and circles, a plan is complete.
proof fn lemma_plan_complete(
    recipes: Seq<(Seq<char>, RecipeView)>,
    recipe: RecipeView,
    stack: Seq<Seq<char>>,
    i: nat,
    order: Seq<RecipeView>,
)
    requires
        named(recipes),
        is_known(recipes),
        is_path(needs(recipes), stack),
        stack.len() > 0 && stack.last() == recipe.name,
        lookup(recipes, recipe.name) == Some(recipe),
        forall|path: Seq<Seq<char>>| !#[trigger] is_circle(needs(recipes), path),
    ensures
        plan_from(recipes, recipe, stack, i, order).complete,
    decreases outside(recipes, stack.to_set()), recipe.dependencies.len() - i,
{
    if i < recipe.dependencies.len() {
        let name = recipe.dependencies[i as int];
        assert(recipe.dependencies.contains(name));
        assert(needs(recipes)(recipe.name, name));
        if is_run(order, name) {
            lemma_plan_complete(recipes, recipe, stack, i + 1, order);
        } else {
            let deeper = stack.push(name);
            lemma_path_push(needs(recipes), stack, name);
            if stack.contains(name) {
                let k = choose|k: int| 0 <= k < stack.len() && stack[k] == name;
                assert(deeper[k] == deeper.last());
                lemma_circle(needs(recipes), deeper, k);
                assert(is_circle(needs(recipes), deeper.skip(k)));
            }
            let dependency = lookup(recipes, name)->0;
            lemma_deeper(recipes, stack, name);
            assert(dependency.name == name) by {
                let k = choose|k: int| 0 <= k < recipes.len() && (#[trigger] recipes[k]).0 == name;
                assert(recipes[k].1.name == name);
            }
            lemma_plan_complete(recipes, dependency, deeper, 0, order);
            let inner = plan_from(recipes, dependency, deeper, 0, order);
            lemma_plan_complete(recipes, recipe, stack, i + 1, inner.order);
        }
    }
}

/// Where each dependency is a recipe and none leads back to itself, a plan is complete.
pub proof fn law_plans_are_complete_if_they_can(
    recipes: Seq<(Seq<char>, RecipeView)>,
    name: Seq<char>,
    order: Seq<RecipeView>,
)
    requires
        named(recipes),
        is_key(recipes, name),
        is_known(recipes),
        forall|path: Seq<Seq<char>>| !#[trigger] is_circle(needs(recipes), path),
    ensures
        lookup(recipes, name) matches Some(recipe) && plan_recipe(recipes, recipe, order).complete,
{
    let recipe = lookup(recipes, name)->0;
    let k = choose|k: int| 0 <= k < recipes.len() && (#[trigger] recipes[k]).0 == name;
    assert(recipes[k].1.name == name);
    let stack = seq![recipe.name];
    lemma_plan_complete(recipes, recipe, stack, 0, order);
}

/// The names of recipes.
spec fn names_of(order: Seq<RecipeView>) -> Seq<Seq<char>> {
    order.map_values(|recipe: RecipeView| recipe.name)
}

/// Whether each recipe that is run is the one that stands under its name.
spec fn is_listed(recipes: Seq<(Seq<char>, RecipeView)>, order: Seq<RecipeView>) -> bool {
    forall|k: int|
        0 <= k < order.len() ==> lookup(recipes, (#[trigger] order[k]).name) == Some(order[k])
}

/// What is planned stands under its own name.
proof fn lemma_plan_listed(
    recipes: Seq<(Seq<char>, RecipeView)>,
    recipe: RecipeView,
    stack: Seq<Seq<char>>,
    i: nat,
    order: Seq<RecipeView>,
)
    requires
        named(recipes),
        is_listed(recipes, order),
        lookup(recipes, recipe.name) == Some(recipe),
    ensures
        is_listed(recipes, plan_from(recipes, recipe, stack, i, order).order),
    decreases outside(recipes, stack.to_set()), recipe.dependencies.len() - i,
{
    if i < recipe.dependencies.len() {
        let name = recipe.dependencies[i as int];
        if is_run(order, name) {
            lemma_plan_listed(recipes, recipe, stack, i + 1, order);
        } else if is_key(recipes, name) && !stack.contains(name) {
            let dependency = lookup(recipes, name)->0;
            lemma_deeper(recipes, stack, name);
            assert(dependency.name == name) by {
                let k = choose|k: int| 0 <= k < recipes.len() && (#[trigger] recipes[k]).0 == name;
                assert(recipes[k].1.name == name);
            }
            lemma_plan_listed(recipes, dependency, stack.push(name), 0, order);
            let inner = plan_from(recipes, dependency, stack.push(name), 0, order);
            if inner.complete {
                lemma_plan_listed(recipes, recipe, stack, i + 1, inner.order);
            }
        }
    }
}

/// No circle goes through recipes that are run after their dependencies.
proof fn lemma_ready_has_no_circles(
    recipes: Seq<(Seq<char>, RecipeView)>,
    order: Seq<RecipeView>,
    path: Seq<Seq<char>>,
)
    requires
        is_ready(order, 0),
        is_listed(recipes, order),
        path.len() > 0,
        is_run(order, path[0]),
    ensures
        !is_circle(needs(recipes), path),
{
    let list = names_of(order);
    assert forall|k: int, other: Seq<char>|
        0 <= k < list.len() && #[trigger] needs(recipes)(list[k], other) implies list.take(
        k,
    ).contains(other) by {
        assert(order[k].dependencies.contains(other));
        let before = order.take(k);
        let j = choose|j: int| 0 <= j < before.len() && (#[trigger] before[j]).name == other;
        assert(list.take(k)[j] == other);
    }
    let k = choose|k: int| 0 <= k < order.len() && (#[trigger] order[k]).name == path[0];
    lemma_no_circle(needs(recipes), list, path, k);
}

/// No circle goes through a recipe that is run for one recipe.
pub proof fn law_plans_have_no_circles(
    recipes: Seq<(Seq<char>, RecipeView)>,
    recipe: RecipeView,
    plan: PlanView,
    path: Seq<Seq<char>>,
)
    requires
        named(recipes),
        lookup(recipes, recipe.name) == Some(recipe),
        plan == plan_recipe(recipes, recipe, Seq::empty()),
        path.len() > 0,
        is_run(plan.order, path[0]),
    ensures
        !is_circle(needs(recipes), path),
{
    let none = Seq::<RecipeView>::empty();
    let stack = seq![recipe.name];
    lemma_plan_ready(recipes, recipe, stack, 0, none, 0);
    lemma_plan_listed(recipes, recipe, stack, 0, none);
    lemma_ready_has_no_circles(recipes, plan.order, path);
}

/// What is planned for several recipes stands under its own name.
proof fn lemma_all_listed(
    recipes: Seq<(Seq<char>, RecipeView)>,
    wanted: Seq<Seq<char>>,
    i: nat,
    order: Seq<RecipeView>,
)
    requires
        named(recipes),
        forall|k: int| 0 <= k < wanted.len() ==> is_key(recipes, #[trigger] wanted[k]),
        is_listed(recipes, order),
    ensures
        is_listed(recipes, plan_all(recipes, wanted, i, order).order),
    decreases wanted.len() - i,
{
    if i < wanted.len() {
        let name = wanted[i as int];
        let recipe = lookup(recipes, name)->0;
        let plan = plan_recipe(recipes, recipe, order);
        assert(is_key(recipes, name));
        let k = lemma_found(recipes, name);
        assert(recipes[k].1.name == recipes[k].0);
        lemma_plan_listed(recipes, recipe, seq![recipe.name], 0, order);
        if plan.complete {
            lemma_all_listed(recipes, wanted, i + 1, plan.order);
        }
    }
}

/// No circle goes through a recipe that is run for several that are asked for.
pub proof fn law_what_is_run_has_no_circles(
    recipes: Seq<(Seq<char>, RecipeView)>,
    wanted: Seq<Seq<char>>,
    plan: PlanView,
    path: Seq<Seq<char>>,
)
    requires
        named(recipes),
        run_all(recipes, wanted) == Ok::<PlanView, RunErrorView>(plan),
        path.len() > 0,
        is_run(plan.order, path[0]),
    ensures
        !is_circle(needs(recipes), path),
{
    lemma_none_missing(recipes, wanted);
    law_dependencies_run_first(recipes, wanted, plan);
    lemma_all_listed(recipes, wanted, 0, Seq::empty());
    lemma_ready_has_no_circles(recipes, plan.order, path);
}

/// What is planned for several recipes is complete where each can be planned.
proof fn lemma_all_complete(
    recipes: Seq<(Seq<char>, RecipeView)>,
    wanted: Seq<Seq<char>>,
    i: nat,
    order: Seq<RecipeView>,
)
    requires
        named(recipes),
        forall|k: int| 0 <= k < wanted.len() ==> is_key(recipes, #[trigger] wanted[k]),
        is_known(recipes),
        forall|path: Seq<Seq<char>>| !#[trigger] is_circle(needs(recipes), path),
    ensures
        plan_all(recipes, wanted, i, order).complete,
    decreases wanted.len() - i,
{
    if i < wanted.len() {
        let name = wanted[i as int];
        assert(is_key(recipes, name));
        law_plans_are_complete_if_they_can(recipes, name, order);
        let recipe = lookup(recipes, name)->0;
        lemma_all_complete(recipes, wanted, i + 1, plan_recipe(recipes, recipe, order).order);
    }
}

/// Where each dependency is a recipe and none leads back to itself, everything that is asked for is
/// run.
pub proof fn law_what_is_wanted_is_run_if_it_can(
    recipes: Seq<(Seq<char>, RecipeView)>,
    wanted: Seq<Seq<char>>,
    plan: PlanView,
    i: int,
)
    requires
        named(recipes),
        is_known(recipes),
        forall|path: Seq<Seq<char>>| !#[trigger] is_circle(needs(recipes), path),
        run_all(recipes, wanted) == Ok::<PlanView, RunErrorView>(plan),
        0 <= i < wanted.len(),
    ensures
        plan.complete,
        is_run(plan.order, wanted[i]),
{
    lemma_none_missing(recipes, wanted);
    lemma_all_complete(recipes, wanted, 0, Seq::empty());
    lemma_all_run(recipes, wanted, 0, Seq::empty(), i);
}

/// What is asked for is run where a plan is complete.
proof fn lemma_all_run(
    recipes: Seq<(Seq<char>, RecipeView)>,
    wanted: Seq<Seq<char>>,
    i: nat,
    order: Seq<RecipeView>,
    k: int,
)
    requires
        named(recipes),
        forall|k: int| 0 <= k < wanted.len() ==> is_key(recipes, #[trigger] wanted[k]),
        0 <= k < wanted.len(),
        k < i ==> is_run(order, wanted[k]),
    ensures
        ({
            let plan = plan_all(recipes, wanted, i, order);
            plan.complete ==> is_run(plan.order, wanted[k])
        }),
    decreases wanted.len() - i,
{
    if i < wanted.len() {
        let name = wanted[i as int];
        let recipe = lookup(recipes, name)->0;
        let plan = plan_recipe(recipes, recipe, order);
        assert(is_key(recipes, name));
        let at = lemma_found(recipes, name);
        assert(recipes[at].1.name == recipes[at].0);
        law_no_recipe_runs_twice(recipes, recipe, order, plan);
        law_only_dependencies_run(recipes, recipe, order, plan);
        if plan.complete {
            if k < i {
                lemma_still_run(order, plan.order, wanted[k]);
            } else if k == i {
                assert(plan.order[plan.order.len() - 1].name == name);
            }
            lemma_all_run(recipes, wanted, i + 1, plan.order, k);
        }
    }
}

/// Where all recipes are resolved, each can be run with all its dependencies.
pub proof fn law_resolved_recipes_can_be_run(
    recipes: Seq<(Seq<char>, RecipeView)>,
    state: ResolverView,
    name: Seq<char>,
    order: Seq<RecipeView>,
)
    requires
        is_sorted(recipes),
        named(recipes),
        forall|k: int|
            0 <= k < recipes.len() ==> (#[trigger] recipes[k]).1.dependencies == lexemes(
                recipes[k].1.dependency_tokens,
            ),
        resolve_all(recipes, ResolverView::initial(), 0) == (Resolution::Done { state }),
        forall|k: int| 0 <= k < recipes.len() ==> state.resolved.contains((#[trigger] recipes[k]).0),
        is_key(recipes, name),
    ensures
        lookup(recipes, name) matches Some(recipe) && plan_recipe(recipes, recipe, order).complete,
{
    assert(needs(recipes) =~= depends(recipes)) by {
        assert forall|a: Seq<char>, b: Seq<char>| #[trigger]
            needs(recipes)(a, b) == depends(recipes)(a, b) by {
            if is_key(recipes, a) {
                let k = choose|k: int| 0 <= k < recipes.len() && (#[trigger] recipes[k]).0 == a;
                assert(recipes[k].1.dependencies == lexemes(recipes[k].1.dependency_tokens));
            }
        }
    }
    assert forall|a: Seq<char>, b: Seq<char>| #[trigger] needs(recipes)(a, b) implies is_key(
        recipes,
        b,
    ) by {
        let k = choose|k: int| 0 <= k < recipes.len() && (#[trigger] recipes[k]).0 == a;
        assert(state.resolved.contains(recipes[k].0));
        law_resolved_recipes_are_settled(recipes, state, a);
        assert(depends(recipes)(a, b));
    }
    assert forall|path: Seq<Seq<char>>| !#[trigger] is_circle(needs(recipes), path) by {
        if is_circle(needs(recipes), path) {
            lemma_first_step(needs(recipes), path);
            let k = choose|k: int| 0 <= k < recipes.len() && (#[trigger] recipes[k]).0 == path[0];
            assert(state.resolved.contains(recipes[k].0));
            law_resolved_recipes_are_settled(recipes, state, path[0]);
            assert(is_circle(depends(recipes), path));
        }
    }
    law_plans_are_complete_if_they_can(recipes, name, order);
}

/// The names that a run was refused for because they are not recipes.
pub open spec fn refused(came: Result<PlanView, RunErrorView>) -> Seq<Seq<char>> {
    match came {
        Err(RunErrorView::UnknownRecipes { recipes }) => recipes,
        _ => Seq::empty(),
    }
}

/// However many names are asked for: if one of them is not a recipe, the run is refused for that,
/// with those names, in their order and as often as they are asked for; otherwise, if one of them is
/// a recipe with arguments, it is refused for that; and otherwise it is not refused.
pub proof fn law_runs_are_refused(
    recipes: Seq<(Seq<char>, RecipeView)>,
    wanted: Seq<Seq<char>>,
    name: Seq<char>,
)
    ensures
        ({
            let came = run_all(recipes, wanted);
            let unknown = exists|i: int| 0 <= i < wanted.len() && !is_key(recipes, #[trigger] wanted[i]);
            let arguments = exists|i: int|
                0 <= i < wanted.len() && is_key(recipes, #[trigger] wanted[i]) && lookup(
                    recipes,
                    wanted[i],
                )->0.arguments.len() > 0;
            &&& (came matches Err(RunErrorView::UnknownRecipes { recipes: names })) <==> unknown
            &&& came == Err::<PlanView, RunErrorView>(RunErrorView::MissingArguments) <==> !unknown
                && arguments
            &&& came is Ok <==> !unknown && !arguments
        }),
        refused(run_all(recipes, wanted.push(name))) == if is_key(recipes, name) {
            refused(run_all(recipes, wanted))
        } else {
            refused(run_all(recipes, wanted)).push(name)
        },
        refused(run_all(recipes, Seq::empty())).len() == 0,
{
    reveal(Seq::filter);
    lemma_missing(recipes, wanted);
    lemma_missing(recipes, wanted.push(name));
    assert(wanted.push(name).drop_last() =~= wanted);
    let missing = wanted.filter(not_in(recipes));
    if missing.len() == 0 {
        assert(missing =~= Seq::empty());
        lemma_none_missing(recipes, wanted);
    }
}

/// Names are missing if and only if one of those asked for is not a recipe.
proof fn lemma_missing(recipes: Seq<(Seq<char>, RecipeView)>, wanted: Seq<Seq<char>>)
    ensures
        (wanted.filter(not_in(recipes)).len() > 0) == (exists|i: int|
            0 <= i < wanted.len() && !is_key(recipes, #[trigger] wanted[i])),
    decreases wanted.len(),
{
    reveal(Seq::filter);
    if wanted.len() > 0 {
        let fewer = wanted.drop_last();
        lemma_missing(recipes, fewer);
        let last = wanted.len() - 1;
        if !is_key(recipes, wanted[last]) {
            assert(!is_key(recipes, wanted[last]));
        } else if exists|i: int| 0 <= i < wanted.len() && !is_key(recipes, #[trigger] wanted[i]) {
            let i = choose|i: int| 0 <= i < wanted.len() && !is_key(recipes, #[trigger] wanted[i]);
            assert(fewer[i] == wanted[i]);
        } else if exists|i: int| 0 <= i < fewer.len() && !is_key(recipes, #[trigger] fewer[i]) {
            let i = choose|i: int| 0 <= i < fewer.len() && !is_key(recipes, #[trigger] fewer[i]);
            assert(wanted[i] == fewer[i]);
        }
    }
}

/// Recipes that are asked for are run one after the other: what is run for one more is what is run
/// for it after the others, unless they cannot all be run.
pub proof fn law_wanted_recipes_run_in_turn(
    recipes: Seq<(Seq<char>, RecipeView)>,
    wanted: Seq<Seq<char>>,
    name: Seq<char>,
    plan: PlanView,
    more: PlanView,
)
    requires
        run_all(recipes, wanted) == Ok::<PlanView, RunErrorView>(plan),
        run_all(recipes, wanted.push(name)) == Ok::<PlanView, RunErrorView>(more),
    ensures
        more == if plan.complete {
            plan_recipe(recipes, lookup(recipes, name)->0, plan.order)
        } else {
            plan
        },
        wanted.len() == 0 ==> plan == (PlanView { order: Seq::empty(), complete: true }),
{
    lemma_in_turn(recipes, wanted, name, 0, Seq::empty());
}

/// What is planned for one more recipe is planned after the others.
proof fn lemma_in_turn(
    recipes: Seq<(Seq<char>, RecipeView)>,
    wanted: Seq<Seq<char>>,
    name: Seq<char>,
    i: nat,
    order: Seq<RecipeView>,
)
    requires
        i <= wanted.len(),
    ensures
        ({
            let plan = plan_all(recipes, wanted, i, order);
            plan_all(recipes, wanted.push(name), i, order) == if plan.complete {
                plan_recipe(recipes, lookup(recipes, name)->0, plan.order)
            } else {
                plan
            }
        }),
    decreases wanted.len() - i,
{
    let more = wanted.push(name);
    if i < wanted.len() {
        assert(more[i as int] == wanted[i as int]);
        let plan = plan_recipe(recipes, lookup(recipes, wanted[i as int])->0, order);
        if plan.complete {
            lemma_in_turn(recipes, wanted, name, i + 1, plan.order);
        }
    } else {
        let plan = plan_recipe(recipes, lookup(recipes, name)->0, order);
        assert(more[i as int] == name);
        if plan.complete {
            assert(plan_all(recipes, more, i + 1, plan.order) == plan);
        }
    }
}

/// What is planned with fewer recipes waiting is the same, where it can be planned at all.
proof fn lemma_fewer_waiting(
    recipes: Seq<(Seq<char>, RecipeView)>,
    recipe: RecipeView,
    stack: Seq<Seq<char>>,
    fewer: Seq<Seq<char>>,
    i: nat,
    order: Seq<RecipeView>,
)
    requires
        forall|name: Seq<char>| #[trigger] fewer.contains(name) ==> stack.contains(name),
        plan_from(recipes, recipe, stack, i, order).complete,
    ensures
        plan_from(recipes, recipe, fewer, i, order) == plan_from(recipes, recipe, stack, i, order),
    decreases outside(recipes, stack.to_set()), recipe.dependencies.len() - i,
{
    if i < recipe.dependencies.len() {
        let name = recipe.dependencies[i as int];
        if is_run(order, name) {
            lemma_fewer_waiting(recipes, recipe, stack, fewer, i + 1, order);
        } else if is_key(recipes, name) && !stack.contains(name) {
            let dependency = lookup(recipes, name)->0;
            lemma_deeper(recipes, stack, name);
            assert(!fewer.contains(name));
            assert forall|n: Seq<char>| #[trigger] fewer.push(name).contains(n) implies stack.push(
                name,
            ).contains(n) by {
                let k = choose|k: int| 0 <= k < fewer.push(name).len() && fewer.push(name)[k] == n;
                if k < fewer.len() {
                    assert(fewer[k] == n);
                    assert(fewer.contains(n));
                    let l = choose|l: int| 0 <= l < stack.len() && stack[l] == n;
                    assert(stack.push(name)[l] == n);
                } else {
                    assert(stack.push(name)[stack.len() as int] == n);
                }
            }
            lemma_fewer_waiting(
                recipes,
                dependency,
                stack.push(name),
                fewer.push(name),
                0,
                order,
            );
            let inner = plan_from(recipes, dependency, stack.push(name), 0, order);
            if inner.complete {
                lemma_fewer_waiting(recipes, recipe, stack, fewer, i + 1, inner.order);
            }
        }
    }
}

/// Whether `steps` are what has been run before each dependency of a recipe and after the last:
/// a dependency that has been run is passed over, and for any other all that it needs is run, and it.
pub open spec fn are_steps(
    recipes: Seq<(Seq<char>, RecipeView)>,
    recipe: RecipeView,
    steps: Seq<Seq<RecipeView>>,
) -> bool {
    &&& steps.len() == recipe.dependencies.len() + 1
    &&& forall|k: int|
        0 <= k < recipe.dependencies.len() ==> {
            let name = #[trigger] recipe.dependencies[k];
            if is_run(steps[k], name) {
                steps[k + 1] == steps[k]
            } else {
                &&& is_key(recipes, name)
                &&& plan_recipe(recipes, lookup(recipes, name)->0, steps[k]) == (PlanView {
                    order: steps[k + 1],
                    complete: true,
                })
            }
        }
}

/// What has been run before each dependency, from the one at `i` on.
proof fn lemma_steps(
    recipes: Seq<(Seq<char>, RecipeView)>,
    recipe: RecipeView,
    stack: Seq<Seq<char>>,
    i: nat,
    order: Seq<RecipeView>,
    steps: Seq<Seq<RecipeView>>,
) -> (all: Seq<Seq<RecipeView>>)
    requires
        named(recipes),
        i <= recipe.dependencies.len(),
        steps.len() == i + 1,
        steps.last() == order,
        forall|k: int|
            0 <= k < i ==> {
                let name = #[trigger] recipe.dependencies[k];
                if is_run(steps[k], name) {
                    steps[k + 1] == steps[k]
                } else {
                    &&& is_key(recipes, name)
                    &&& plan_recipe(recipes, lookup(recipes, name)->0, steps[k]) == (PlanView {
                        order: steps[k + 1],
                        complete: true,
                    })
                }
            },
        plan_from(recipes, recipe, stack, i, order).complete,
    ensures
        are_steps(recipes, recipe, all),
        steps.is_prefix_of(all),
        plan_from(recipes, recipe, stack, i, order).order == all.last().push(recipe),
    decreases recipe.dependencies.len() - i,
{
    if i >= recipe.dependencies.len() {
        assert(steps =~= steps.take(steps.len() as int));
        steps
    } else {
        let name = recipe.dependencies[i as int];
        if is_run(order, name) {
            let more = steps.push(order);
            let all = lemma_steps(recipes, recipe, stack, i + 1, order, more);
            assert(steps =~= more.take(steps.len() as int));
            assert(more =~= all.take(more.len() as int));
            assert(steps =~= all.take(steps.len() as int));
            all
        } else {
            let dependency = lookup(recipes, name)->0;
            let deeper = stack.push(name);
            let inner = plan_from(recipes, dependency, deeper, 0, order);
            let at = lemma_found(recipes, name);
            assert(recipes[at].1.name == name);
            assert forall|n: Seq<char>| #[trigger] seq![name].contains(n) implies deeper.contains(
                n,
            ) by {
                assert(deeper[stack.len() as int] == n);
            }
            lemma_fewer_waiting(recipes, dependency, deeper, seq![name], 0, order);
            let more = steps.push(inner.order);
            let all = lemma_steps(recipes, recipe, stack, i + 1, inner.order, more);
            assert(steps =~= more.take(steps.len() as int));
            assert(more =~= all.take(more.len() as int));
            assert(steps =~= all.take(steps.len() as int));
            all
        }
    }
}

/// What is run for a recipe is run for its dependencies, one after the other in the order in which
/// it names them, and then it is run itself.
pub proof fn law_dependencies_run_in_turn(
    recipes: Seq<(Seq<char>, RecipeView)>,
    recipe: RecipeView,
    order: Seq<RecipeView>,
) -> (steps: Seq<Seq<RecipeView>>)
    requires
        named(recipes),
        plan_recipe(recipes, recipe, order).complete,
    ensures
        are_steps(recipes, recipe, steps),
        steps[0] == order,
        plan_recipe(recipes, recipe, order).order == steps.last().push(recipe),
{
    let steps = lemma_steps(recipes, recipe, seq![recipe.name], 0, order, seq![order]);
    assert(seq![order] =~= steps.take(1));
    assert(steps[0] == steps.take(1)[0]);
    steps
}

/// The first recipe of a justfile is one that no other stands before: it stands on the smallest
/// line, and of several there it has the smallest name. In a justfile with recipes there is one, and
/// only one.
pub proof fn law_first_recipe(recipes: Seq<(Seq<char>, RecipeView)>, i: int, j: int) -> (first: int)
    requires
        recipes.len() > 0,
        0 <= j < recipes.len(),
    ensures
        is_first(recipes, first),
        is_first(recipes, i) ==> {
            &&& i == first
            &&& 0 <= i < recipes.len()
            &&& recipes[i].1.line_number <= recipes[j].1.line_number
            &&& j < i ==> recipes[i].1.line_number < recipes[j].1.line_number
        },
{
    let first = lemma_first(recipes, recipes.len() - 1);
    if is_first(recipes, i) {
        if i < first {
            assert(recipes[first].1.line_number < recipes[i].1.line_number);
        } else if first < i {
            assert(recipes[i].1.line_number < recipes[first].1.line_number);
        }
    }
    first
}

/// There is a first among the recipes up to the one at `n`.
proof fn lemma_first(recipes: Seq<(Seq<char>, RecipeView)>, n: int) -> (first: int)
    requires
        0 <= n < recipes.len(),
    ensures
        0 <= first <= n,
        forall|j: int|
            0 <= j <= n ==> recipes[first].1.line_number <= (#[trigger] recipes[j]).1.line_number,
        forall|j: int|
            0 <= j < first ==> recipes[first].1.line_number < (#[trigger] recipes[j]).1.line_number,
    decreases n,
{
    if n == 0 {
        0
    } else {
        let before = lemma_first(recipes, n - 1);
        if recipes[n].1.line_number < recipes[before].1.line_number {
            n
        } else {
            before
        }
    }
}

/// After a recipe of a plan that did not fail comes the next one, if there is one. After one that
/// failed comes none, and its error is what the plan comes to.
pub proof fn law_next_recipe(plan: PlanView, at: nat, error: RunErrorView)
    ensures
        at + 1 < plan.order.len() ==> plan.after(at, Ok(())) == Ok::<_, RunErrorView>(
            Some((at + 1) as nat),
        ),
        at + 1 >= plan.order.len() ==> plan.after(at, Ok(())) == Ok::<_, RunErrorView>(None::<nat>),
        plan.after(at, Err(error)) == Err::<Option<nat>, _>(error),
{
}

/// The names of entries are listed one for one, in the order of the entries.
pub proof fn law_names_are_listed<T>(entries: Seq<(Seq<char>, T)>, i: int)
    requires
        0 <= i < entries.len(),
    ensures
        keys(entries).len() == entries.len(),
        keys(entries)[i] == entries[i].0,
{
}

} // verus!
