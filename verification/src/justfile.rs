//! Justfiles: recipes, and the variables that they use.

use vstd::prelude::*;
use vstd::string::*;

use crate::expression::{Expression, ExpressionView};
use crate::recipe::{Recipe, RecipeView};
use crate::run::{RunError, RunErrorView};
use crate::table::{contains, is_key, lemma_outside, lookup, outside, Table};
use crate::text::{join_strings, joined_by, names, same, string_views};

verus! {

/// A justfile.
pub struct Justfile<'a> {
    pub recipes: Table<'a, Recipe<'a>>,
    pub assignments: Table<'a, Expression<'a>>,
    pub values: Table<'a, String>,
}

/// The view of a [`Justfile`].
#[verifier::ext_equal]
pub struct JustfileView {
    pub recipes: Seq<(Seq<char>, RecipeView)>,
    pub assignments: Seq<(Seq<char>, ExpressionView)>,
    pub values: Seq<(Seq<char>, Seq<char>)>,
}

impl<'a> View for Justfile<'a> {
    type V = JustfileView;

    open spec fn view(&self) -> JustfileView {
        JustfileView {
            recipes: self.recipes@,
            assignments: self.assignments@,
            values: self.values@,
        }
    }
}

/// Whether each recipe stands under its own name.
pub open spec fn named(recipes: Seq<(Seq<char>, RecipeView)>) -> bool {
    forall|i: int| 0 <= i < recipes.len() ==> (#[trigger] recipes[i]).1.name == recipes[i].0
}

impl<'a> Justfile<'a> {
    /// Whether the tables are well formed, and each recipe stands under its own name.
    pub open spec fn wf(self) -> bool {
        &&& self.recipes.wf()
        &&& self.assignments.wf()
        &&& self.values.wf()
        &&& named(self@.recipes)
    }
}

/// The names in a table.
pub open spec fn keys<T>(entries: Seq<(Seq<char>, T)>) -> Seq<Seq<char>> {
    entries.map_values(|e: (Seq<char>, T)| e.0)
}

/// Recipes in the order in which they are run.
pub struct Plan<'a, 'b> {
    pub order: Vec<&'b Recipe<'a>>,
    /// Whether nothing is missing from the order: a dependency that is not a recipe, or that leads
    /// back to a recipe that waits for it, cannot be run.
    pub complete: bool,
}

/// The view of a [`Plan`].
#[verifier::ext_equal]
pub struct PlanView {
    pub order: Seq<RecipeView>,
    pub complete: bool,
}

/// The views of a sequence of recipes.
pub open spec fn recipe_views(recipes: Seq<&Recipe<'_>>) -> Seq<RecipeView> {
    recipes.map_values(|r: &Recipe| r@)
}

impl<'a, 'b> View for Plan<'a, 'b> {
    type V = PlanView;

    open spec fn view(&self) -> PlanView {
        PlanView { order: recipe_views(self.order@), complete: self.complete }
    }
}

impl PlanView {
    /// Which recipe of the plan comes after the one at `at`, of which this is the result.
    pub open spec fn after(self, at: nat, result: Result<(), RunErrorView>) -> Result<
        Option<nat>,
        RunErrorView,
    > {
        match result {
            Err(error) => Err(error),
            Ok(()) => if at + 1 < self.order.len() {
                Ok(Some(at + 1))
            } else {
                Ok(None)
            },
        }
    }
}

/// The view of what came of running a recipe.
pub open spec fn result_view(result: Result<(), RunError<'_>>) -> Result<(), RunErrorView> {
    match result {
        Ok(()) => Ok(()),
        Err(error) => Err(error@),
    }
}

impl<'a, 'b> Plan<'a, 'b> {
    /// Which recipe of the plan is the first.
    pub fn begin(&self) -> (r: Option<usize>)
        ensures
            r == (if self@.order.len() == 0 {
                None
            } else {
                Some(0usize)
            }),
    {
        if self.order.len() > 0 {
            Some(0)
        } else {
            None
        }
    }

    /// Which recipe of the plan comes after the one at `at`, of which this is the result. After one
    /// that failed comes none.
    pub fn next<'e>(&self, at: usize, result: Result<(), RunError<'e>>) -> (r: Result<
        Option<usize>,
        RunError<'e>,
    >)
        requires
            at < self@.order.len(),
        ensures
            match self@.after(at as nat, result_view(result)) {
                Ok(None) => r matches Ok(None),
                Ok(Some(next)) => r matches Ok(Some(n)) && n == next,
                Err(error) => r matches Err(e) && e@ == error,
            },
    {
        match result {
            Err(error) => Err(error),
            Ok(()) => {
                if self.order.len() - at > 1 {
                    Ok(Some(at + 1))
                } else {
                    Ok(None)
                }
            },
        }
    }
}

/// Whether a recipe called `name` is among those that are run.
pub open spec fn is_run(order: Seq<RecipeView>, name: Seq<char>) -> bool {
    exists|i: int| 0 <= i < order.len() && (#[trigger] order[i]).name == name
}

/// What is run for the dependencies of `recipe` from the one at `i` on, and then for the recipe
/// itself, after `order`. The recipes on the stack wait for their dependencies.
pub open spec fn plan_from(
    recipes: Seq<(Seq<char>, RecipeView)>,
    recipe: RecipeView,
    stack: Seq<Seq<char>>,
    i: nat,
    order: Seq<RecipeView>,
) -> PlanView
    decreases outside(recipes, stack.to_set()), recipe.dependencies.len() - i,
{
    if i >= recipe.dependencies.len() {
        PlanView { order: order.push(recipe), complete: true }
    } else {
        let name = recipe.dependencies[i as int];
        if is_run(order, name) {
            plan_from(recipes, recipe, stack, i + 1, order)
        } else {
            match lookup(recipes, name) {
                None => PlanView { order, complete: false },
                Some(dependency) => if stack.contains(name) {
                    PlanView { order, complete: false }
                } else {
                    proof {
                        lemma_deeper(recipes, stack, name);
                    }
                    let inner = plan_from(recipes, dependency, stack.push(name), 0, order);
                    if inner.complete {
                        plan_from(recipes, recipe, stack, i + 1, inner.order)
                    } else {
                        inner
                    }
                },
            }
        }
    }
}

/// The deeper the stack, the fewer recipes are not on it.
pub proof fn lemma_deeper<T>(
    recipes: Seq<(Seq<char>, T)>,
    stack: Seq<Seq<char>>,
    name: Seq<char>,
)
    requires
        is_key(recipes, name),
        !stack.contains(name),
    ensures
        outside(recipes, stack.push(name).to_set()) < outside(recipes, stack.to_set()),
{
    let less = stack.to_set();
    let more = stack.push(name).to_set();
    assert forall|n: Seq<char>| less.contains(n) implies more.contains(n) by {
        let i = choose|i: int| 0 <= i < stack.len() && stack[i] == n;
        assert(stack.push(name)[i] == n);
    }
    assert(stack.push(name)[stack.len() as int] == name);
    lemma_outside(recipes, less, more);
}

/// What is run for `recipe`, after `order`.
pub open spec fn plan_recipe(
    recipes: Seq<(Seq<char>, RecipeView)>,
    recipe: RecipeView,
    order: Seq<RecipeView>,
) -> PlanView {
    plan_from(recipes, recipe, seq![recipe.name], 0, order)
}

/// What is run for the recipes called `wanted`, from the one at `i` on, after `order`.
pub open spec fn plan_all(
    recipes: Seq<(Seq<char>, RecipeView)>,
    wanted: Seq<Seq<char>>,
    i: nat,
    order: Seq<RecipeView>,
) -> PlanView
    decreases wanted.len() - i,
{
    if i >= wanted.len() {
        PlanView { order, complete: true }
    } else {
        let plan = plan_recipe(recipes, lookup(recipes, wanted[i as int])->0, order);
        if plan.complete {
            plan_all(recipes, wanted, i + 1, plan.order)
        } else {
            plan
        }
    }
}

/// That there is no recipe of a name.
pub open spec fn not_in(recipes: Seq<(Seq<char>, RecipeView)>) -> spec_fn(Seq<char>) -> bool {
    |name: Seq<char>| !is_key(recipes, name)
}

/// Whether one of the recipes called `wanted` has arguments.
pub open spec fn some_have_arguments(
    recipes: Seq<(Seq<char>, RecipeView)>,
    wanted: Seq<Seq<char>>,
) -> bool {
    exists|i: int|
        0 <= i < wanted.len() && (lookup(recipes, #[trigger] wanted[i]) matches Some(recipe)
            && recipe.arguments.len() > 0)
}

/// What comes of running the recipes called `wanted`: all are to be recipes, without arguments.
pub open spec fn run_all(
    recipes: Seq<(Seq<char>, RecipeView)>,
    wanted: Seq<Seq<char>>,
) -> Result<PlanView, RunErrorView> {
    let missing = wanted.filter(not_in(recipes));
    if missing.len() > 0 {
        Err(RunErrorView::UnknownRecipes { recipes: missing })
    } else if some_have_arguments(recipes, wanted) {
        Err(RunErrorView::MissingArguments)
    } else {
        Ok(plan_all(recipes, wanted, 0, Seq::empty()))
    }
}

/// Whether the recipe at `i` is the first: none stands on an earlier line, and none on the same
/// line has an earlier name.
pub open spec fn is_first(recipes: Seq<(Seq<char>, RecipeView)>, i: int) -> bool {
    &&& 0 <= i < recipes.len()
    &&& forall|j: int|
        0 <= j < recipes.len() ==> recipes[i].1.line_number <= (#[trigger] recipes[j]).1.line_number
    &&& forall|j: int|
        0 <= j < i ==> recipes[i].1.line_number < (#[trigger] recipes[j]).1.line_number
}

/// An assignment as it is written, with its value.
pub open spec fn assignment_shown(
    name: Seq<char>,
    expression: ExpressionView,
    value: Seq<char>,
) -> Seq<char> {
    name + " = "@ + expression.shown() + " # \""@ + value + "\""@
}

impl JustfileView {
    /// The assignments as they are written, with their values.
    pub open spec fn assignments_shown(self) -> Seq<Seq<char>> {
        self.assignments.map_values(
            |e: (Seq<char>, ExpressionView)|
                assignment_shown(e.0, e.1, lookup(self.values, e.0)->0),
        )
    }

    /// The recipes as they are written.
    pub open spec fn recipes_shown(self) -> Seq<Seq<char>> {
        self.recipes.map_values(|e: (Seq<char>, RecipeView)| e.1.shown())
    }

    /// The justfile as it is written: assignments, then recipes.
    pub open spec fn shown(self) -> Seq<char> {
        joined_by(self.assignments_shown() + self.recipes_shown(), "\n"@)
    }

    /// Whether each variable has a value.
    pub open spec fn has_values(self) -> bool {
        forall|i: int|
            0 <= i < self.assignments.len() ==> is_key(
                self.values,
                (#[trigger] self.assignments[i]).0,
            )
    }
}

impl<'a> Justfile<'a> {
    /// The name of the first recipe.
    pub fn first(&self) -> (r: Option<&'a str>)
        ensures
            match r {
                Some(name) => exists|i: int| #[trigger]
                    is_first(self@.recipes, i) && self@.recipes[i].1.name == name@,
                None => self@.recipes.len() == 0,
            },
    {
        let entries: &Vec<(&'a str, Recipe<'a>)> = &self.recipes.entries;
        let ghost recipes = self@.recipes;
        if entries.len() == 0 {
            return None;
        }
        let mut first: usize = 0;
        let mut i: usize = 1;
        while i < entries.len()
            invariant
                first < i <= entries@.len(),
                entries == &self.recipes.entries,
                recipes == self@.recipes,
                forall|j: int|
                    0 <= j < i ==> recipes[first as int].1.line_number <= (
                    #[trigger] recipes[j]).1.line_number,
                forall|j: int|
                    0 <= j < first ==> recipes[first as int].1.line_number < (
                    #[trigger] recipes[j]).1.line_number,
            decreases entries@.len() - i,
        {
            if entries[i].1.line_number < entries[first].1.line_number {
                first = i;
            }
            i += 1;
        }
        assert(is_first(recipes, first as int));
        Some(entries[first].1.name)
    }

    /// How many recipes there are.
    pub fn count(&self) -> (r: usize)
        ensures
            r == self@.recipes.len(),
    {
        self.recipes.len()
    }

    /// The names of the recipes, in order.
    pub fn recipes(&self) -> (r: Vec<&'a str>)
        ensures
            names(r@) == keys(self@.recipes),
    {
        let mut list: Vec<&'a str> = Vec::new();
        let mut i: usize = 0;
        while i < self.recipes.entries.len()
            invariant
                i <= self.recipes.entries@.len(),
                names(list@) == keys(self@.recipes).take(i as int),
            decreases self.recipes.entries@.len() - i,
        {
            let ghost had = names(list@);
            list.push(self.recipes.entries[i].0);
            i += 1;
            proof {
                assert(names(list@) =~= had.push(keys(self@.recipes)[i - 1]));
                assert(names(list@) =~= keys(self@.recipes).take(i as int));
            }
        }
        proof {
            assert(names(list@) =~= keys(self@.recipes));
        }
        list
    }

    /// The recipe called `name`.
    pub fn get(&self, name: &str) -> (r: Option<&Recipe<'a>>)
        requires
            self.wf(),
        ensures
            match r {
                Some(recipe) => lookup(self@.recipes, name@) == Some(recipe@),
                None => lookup(self@.recipes, name@) is None,
            },
    {
        self.recipes.get(name)
    }

    /// Adds to `order` what is run for `recipe`. The recipes on the stack wait for their
    /// dependencies.
    fn plan<'b>(
        &'b self,
        recipe: &'b Recipe<'a>,
        stack: &mut Vec<&'b str>,
        order: &mut Vec<&'b Recipe<'a>>,
    ) -> (complete: bool)
        requires
            self.wf(),
        ensures
            final(stack)@ == old(stack)@,
            (PlanView { order: recipe_views(final(order)@), complete }) == plan_from(
                self@.recipes,
                recipe@,
                names(old(stack)@),
                0,
                recipe_views(old(order)@),
            ),
        decreases outside(self@.recipes, names(old(stack)@).to_set()),
    {
        let ghost all = plan_from(
            self@.recipes,
            recipe@,
            names(stack@),
            0,
            recipe_views(order@),
        );
        let ghost waiting = names(stack@);
        let mut i: usize = 0;
        while i < recipe.dependencies.len()
            invariant
                i <= recipe.dependencies@.len(),
                self.wf(),
                stack@ == old(stack)@,
                waiting == names(stack@),
                all == plan_from(
                    self@.recipes,
                    recipe@,
                    waiting,
                    0,
                    recipe_views(old(order)@),
                ),
                all == plan_from(
                    self@.recipes,
                    recipe@,
                    waiting,
                    i as nat,
                    recipe_views(order@),
                ),
            decreases recipe.dependencies@.len() - i,
        {
            let name: &'b str = recipe.dependencies[i];
            assert(recipe@.dependencies[i as int] == name@);
            if !ran(order, name) {
                match self.recipes.get(name) {
                    None => {
                        return false;
                    },
                    Some(dependency) => {
                        if contains(stack, name) {
                            return false;
                        }
                        proof {
                            lemma_deeper(self@.recipes, waiting, name@);
                        }
                        stack.push(name);
                        assert(names(stack@) =~= waiting.push(name@));
                        if !self.plan(dependency, stack, order) {
                            let _ = stack.pop();
                            assert(stack@ =~= old(stack)@);
                            return false;
                        }
                        let _ = stack.pop();
                        assert(stack@ =~= old(stack)@);
                    },
                }
            }
            i += 1;
        }
        let ghost had = recipe_views(order@);
        order.push(recipe);
        assert(recipe_views(order@) =~= had.push(recipe@));
        true
    }

    /// Adds to `order` what is run for `recipe`. Gives whether that is all.
    pub fn run_recipe<'b>(
        &'b self,
        recipe: &'b Recipe<'a>,
        order: &mut Vec<&'b Recipe<'a>>,
    ) -> (complete: bool)
        requires
            self.wf(),
        ensures
            (PlanView { order: recipe_views(final(order)@), complete }) == plan_recipe(
                self@.recipes,
                recipe@,
                recipe_views(old(order)@),
            ),
    {
        let mut stack: Vec<&'b str> = Vec::new();
        stack.push(recipe.name);
        assert(names(stack@) =~= seq![recipe.name@]);
        self.plan(recipe, &mut stack, order)
    }

    /// What is run for the recipes called `wanted`.
    pub fn run<'b>(&'b self, wanted: &[&'b str]) -> (r: Result<Plan<'a, 'b>, RunError<'b>>)
        requires
            self.wf(),
        ensures
            match run_all(self@.recipes, names(wanted@)) {
                Ok(plan) => r matches Ok(p) && p@ == plan,
                Err(error) => r matches Err(e) && e@ == error,
            },
    {
        let ghost recipes = self@.recipes;
        let ghost list = names(wanted@);
        let mut missing: Vec<&'b str> = Vec::new();
        let mut i: usize = 0;
        proof {
            reveal(Seq::filter);
            assert(names(missing@) =~= list.take(0).filter(not_in(recipes)));
        }
        while i < wanted.len()
            invariant
                i <= wanted@.len(),
                self.wf(),
                recipes == self@.recipes,
                list == names(wanted@),
                names(missing@) == list.take(i as int).filter(not_in(recipes)),
            decreases wanted@.len() - i,
        {
            let ghost had = names(missing@);
            proof {
                reveal(Seq::filter);
                assert(list.take(i + 1).drop_last() =~= list.take(i as int));
                assert(list.take(i + 1).last() == wanted@[i as int]@);
            }
            if !self.recipes.contains_key(wanted[i]) {
                missing.push(wanted[i]);
                assert(names(missing@) =~= had.push(wanted@[i as int]@));
            }
            i += 1;
        }
        proof {
            assert(list.take(i as int) =~= list);
        }
        if missing.len() > 0 {
            return Err(RunError::UnknownRecipes { recipes: missing });
        }
        proof {
            lemma_none_missing(recipes, list);
        }
        let mut found: Vec<&'b Recipe<'a>> = Vec::new();
        let mut i: usize = 0;
        while i < wanted.len()
            invariant
                i <= wanted@.len(),
                self.wf(),
                recipes == self@.recipes,
                list == names(wanted@),
                list.filter(not_in(recipes)).len() == 0,
                forall|k: int| 0 <= k < list.len() ==> is_key(recipes, #[trigger] list[k]),
                found@.len() == i,
                forall|k: int|
                    0 <= k < i ==> lookup(recipes, #[trigger] list[k]) == Some(found@[k]@)
                        && found@[k]@.arguments.len() == 0,
            decreases wanted@.len() - i,
        {
            assert(list[i as int] == wanted@[i as int]@);
            let recipe: &'b Recipe<'a> = self.recipes.get(wanted[i]).unwrap();
            if recipe.arguments.len() > 0 {
                assert(some_have_arguments(recipes, list)) by {
                    assert(lookup(recipes, list[i as int]) == Some(recipe@));
                }
                return Err(RunError::MissingArguments);
            }
            found.push(recipe);
            i += 1;
        }
        assert(!some_have_arguments(recipes, list));
        let mut order: Vec<&'b Recipe<'a>> = Vec::new();
        let mut i: usize = 0;
        assert(recipe_views(order@) =~= Seq::empty());
        while i < found.len()
            invariant
                i <= found@.len(),
                found@.len() == list.len(),
                self.wf(),
                recipes == self@.recipes,
                list == names(wanted@),
                run_all(recipes, list) == Ok::<PlanView, RunErrorView>(
                    plan_all(recipes, list, 0, Seq::empty()),
                ),
                forall|k: int|
                    0 <= k < list.len() ==> lookup(recipes, #[trigger] list[k]) == Some(found@[k]@),
                plan_all(recipes, list, 0, Seq::empty()) == plan_all(
                    recipes,
                    list,
                    i as nat,
                    recipe_views(order@),
                ),
            decreases found@.len() - i,
        {
            assert(lookup(recipes, list[i as int]) == Some(found@[i as int]@));
            if !self.run_recipe(found[i], &mut order) {
                return Ok(Plan { order, complete: false });
            }
            i += 1;
        }
        Ok(Plan { order, complete: true })
    }

    /// The justfile as it is written.
    pub fn to_string(&self) -> (r: String)
        requires
            self.wf(),
            self@.has_values(),
        ensures
            r@ == self@.shown(),
    {
        let ghost first = self@.assignments_shown();
        let ghost second = self@.recipes_shown();
        let mut parts: Vec<String> = Vec::new();
        let mut i: usize = 0;
        while i < self.assignments.entries.len()
            invariant
                i <= self.assignments.entries@.len(),
                self.wf(),
                self@.has_values(),
                first == self@.assignments_shown(),
                string_views(parts@) == first.take(i as int),
            decreases self.assignments.entries@.len() - i,
        {
            let ghost had = string_views(parts@);
            let name: &'a str = self.assignments.entries[i].0;
            assert(self@.assignments[i as int].0 == name@);
            let expression: String = self.assignments.entries[i].1.to_string();
            let value: &String = self.values.get(name).unwrap();
            let mut shown: String = String::from_str(name);
            shown.append(" = ");
            shown.append(expression.as_str());
            shown.append(" # \"");
            shown.append(value.as_str());
            shown.append("\"");
            let ghost view = shown@;
            assert(view == first[i as int]);
            parts.push(shown);
            i += 1;
            proof {
                assert(string_views(parts@) =~= had.push(view));
                assert(string_views(parts@) =~= first.take(i as int));
            }
        }
        assert(string_views(parts@) =~= first + second.take(0));
        let mut i: usize = 0;
        while i < self.recipes.entries.len()
            invariant
                i <= self.recipes.entries@.len(),
                second == self@.recipes_shown(),
                string_views(parts@) == first + second.take(i as int),
            decreases self.recipes.entries@.len() - i,
        {
            let ghost had = string_views(parts@);
            let shown: String = self.recipes.entries[i].1.to_string();
            let ghost view = shown@;
            assert(view == second[i as int]);
            parts.push(shown);
            i += 1;
            proof {
                assert(string_views(parts@) =~= had.push(view));
                assert(string_views(parts@) =~= first + second.take(i as int));
            }
        }
        assert(second.take(i as int) =~= second);
        join_strings(&parts, "\n")
    }
}

/// Whether a recipe called `name` is among those that are run.
fn ran(order: &Vec<&Recipe<'_>>, name: &str) -> (r: bool)
    ensures
        r == is_run(recipe_views(order@), name@),
{
    let mut i: usize = 0;
    while i < order.len()
        invariant
            i <= order@.len(),
            forall|j: int| 0 <= j < i ==> (#[trigger] recipe_views(order@)[j]).name != name@,
        decreases order@.len() - i,
    {
        if same(order[i].name, name) {
            assert(recipe_views(order@)[i as int].name == name@);
            return true;
        }
        i += 1;
    }
    false
}

/// Where no name is missing, each is the name of a recipe.
pub proof fn lemma_none_missing(recipes: Seq<(Seq<char>, RecipeView)>, list: Seq<Seq<char>>)
    requires
        list.filter(not_in(recipes)).len() == 0,
    ensures
        forall|k: int| 0 <= k < list.len() ==> is_key(recipes, #[trigger] list[k]),
    decreases list.len(),
{
    reveal(Seq::filter);
    if list.len() > 0 {
        let fewer = list.drop_last();
        lemma_none_missing(recipes, fewer);
        assert forall|k: int| 0 <= k < list.len() implies is_key(recipes, #[trigger] list[k]) by {
            if k < fewer.len() {
                assert(fewer[k] == list[k]);
            } else {
                assert(list[k] == list.last());
            }
        }
    }
}

} // verus!
