//! Resolving dependencies.
//!
//! The recipes are looked at one after the other. Of a recipe, the dependencies are passed over that
//! are resolved already. The first that is not is looked at in the recipe's place: it is to be a
//! recipe, and one that was not looked at before. The recipe itself stays unresolved then, and what
//! it depends on further is not looked at. A recipe of which all dependencies are resolved is
//! resolved.

use vstd::prelude::*;
use vstd::string::*;

use crate::error::{Error, ErrorKind, ErrorKindView, ErrorView};
use crate::recipe::{Recipe, RecipeView};
use crate::table::{lookup, Names, Table};
use crate::text::{names, same};
use crate::token::{all_tokens, countable, Token};

verus! {

/// What is known of the recipes of a justfile.
pub struct Resolver<'a, 'b> {
    /// The recipes that led to the one that is being looked at.
    pub stack: Vec<&'a str>,
    /// The recipes that were looked at.
    pub seen: Names<'a>,
    /// The recipes of which all dependencies are resolved.
    pub resolved: Names<'a>,
    pub recipes: &'b Table<'a, Recipe<'a>>,
}

/// The view of a [`Resolver`], without the recipes.
#[verifier::ext_equal]
pub struct ResolverView {
    pub stack: Seq<Seq<char>>,
    pub seen: Set<Seq<char>>,
    pub resolved: Set<Seq<char>>,
}

impl<'a, 'b> View for Resolver<'a, 'b> {
    type V = ResolverView;

    open spec fn view(&self) -> ResolverView {
        ResolverView { stack: names(self.stack@), seen: self.seen@, resolved: self.resolved@ }
    }
}

/// What comes of resolving.
pub enum Resolution {
    Done { state: ResolverView },
    Fail { error: ErrorView, state: ResolverView },
}

impl ResolverView {
    /// Nothing has been looked at.
    pub open spec fn initial() -> ResolverView {
        ResolverView { stack: Seq::empty(), seen: Set::empty(), resolved: Set::empty() }
    }

    /// Recipe `name` is being looked at.
    pub open spec fn entered(self, name: Seq<char>) -> ResolverView {
        ResolverView { stack: self.stack.push(name), seen: self.seen.insert(name), ..self }
    }

    /// Recipe `name`, the last to be looked at, is resolved.
    pub open spec fn left(self, name: Seq<char>) -> ResolverView {
        ResolverView {
            stack: self.stack.drop_last(),
            resolved: self.resolved.insert(name),
            ..self
        }
    }

    /// The stack that is reported when a circle is found: it goes back to its first recipe.
    pub open spec fn back(self) -> ResolverView {
        ResolverView { stack: self.stack.push(self.stack[0]), ..self }
    }
}

/// `list` from the first occurrence of `name` on.
pub open spec fn from_name(list: Seq<Seq<char>>, name: Seq<char>) -> Seq<Seq<char>>
    decreases list.len(),
{
    if list.len() == 0 || list[0] == name {
        list
    } else {
        from_name(list.skip(1), name)
    }
}

/// How many recipes have names that are not among `seen`.
pub open spec fn unseen(recipes: Seq<(Seq<char>, RecipeView)>, seen: Set<Seq<char>>) -> nat
    decreases recipes.len(),
{
    if recipes.len() == 0 {
        0
    } else {
        unseen(recipes.drop_last(), seen) + (if seen.contains(recipes.last().1.name) {
            0nat
        } else {
            1nat
        })
    }
}

/// The more names are seen, the fewer are not; and when a recipe becomes seen, one fewer is not.
pub proof fn lemma_unseen(
    recipes: Seq<(Seq<char>, RecipeView)>,
    less: Set<Seq<char>>,
    more: Set<Seq<char>>,
)
    requires
        less.subset_of(more),
    ensures
        unseen(recipes, more) <= unseen(recipes, less),
        (exists|i: int|
            0 <= i < recipes.len() && more.contains((#[trigger] recipes[i]).1.name)
                && !less.contains(recipes[i].1.name)) ==> unseen(recipes, more) < unseen(
            recipes,
            less,
        ),
    decreases recipes.len(),
{
    if recipes.len() > 0 {
        let rest = recipes.drop_last();
        lemma_unseen(rest, less, more);
        if exists|i: int|
            0 <= i < recipes.len() && more.contains((#[trigger] recipes[i]).1.name)
                && !less.contains(recipes[i].1.name) {
            let i = choose|i: int|
                0 <= i < recipes.len() && more.contains((#[trigger] recipes[i]).1.name)
                    && !less.contains(recipes[i].1.name);
            if i < rest.len() {
                assert(rest[i] == recipes[i]);
            }
        }
    }
}

/// What comes of looking at the dependencies of `recipe` from the one at `i` on. The recipe is on
/// the stack. The first dependency that is not resolved is looked at in its place.
pub open spec fn resolve_from(
    recipes: Seq<(Seq<char>, RecipeView)>,
    state: ResolverView,
    recipe: RecipeView,
    i: nat,
) -> Resolution
    decreases unseen(recipes, state.seen), recipe.dependency_tokens.len() - i,
{
    if i >= recipe.dependency_tokens.len() {
        Resolution::Done { state: state.left(recipe.name) }
    } else {
        let token = recipe.dependency_tokens[i as int];
        match lookup(recipes, token.lexeme) {
            None => Resolution::Fail {
                error: token.error(
                    ErrorKindView::UnknownDependency { recipe: recipe.name, unknown: token.lexeme },
                ),
                state,
            },
            Some(dependency) => if state.resolved.contains(dependency.name) {
                resolve_from(recipes, state, recipe, i + 1)
            } else if state.seen.contains(dependency.name) {
                Resolution::Fail {
                    error: token.error(
                        ErrorKindView::CircularRecipeDependency {
                            recipe: recipe.name,
                            circle: from_name(state.back().stack, dependency.name),
                        },
                    ),
                    state: state.back(),
                }
            } else {
                proof {
                    lemma_unseen(recipes, state.seen, state.seen.insert(dependency.name));
                }
                resolve_from(recipes, state.entered(dependency.name), dependency, 0)
            },
        }
    }
}

/// What comes of looking at `recipe`.
pub open spec fn resolve_recipe(
    recipes: Seq<(Seq<char>, RecipeView)>,
    state: ResolverView,
    recipe: RecipeView,
) -> Resolution {
    if state.resolved.contains(recipe.name) {
        Resolution::Done { state }
    } else {
        resolve_from(recipes, state.entered(recipe.name), recipe, 0)
    }
}

/// What comes of looking at the recipes from the one at `i` on.
pub open spec fn resolve_all(
    recipes: Seq<(Seq<char>, RecipeView)>,
    state: ResolverView,
    i: nat,
) -> Resolution
    decreases recipes.len() - i,
{
    if i >= recipes.len() {
        Resolution::Done { state }
    } else {
        match resolve_recipe(recipes, state, recipes[i as int].1) {
            Resolution::Done { state } => resolve_all(recipes, state, i + 1),
            failed => failed,
        }
    }
}

/// `list` from the first occurrence of `name` on.
fn skip_to<'a>(list: &Vec<&'a str>, name: &str) -> (r: Vec<&'a str>)
    ensures
        names(r@) == from_name(names(list@), name@),
{
    let ghost all = names(list@);
    let mut i: usize = 0;
    proof {
        assert(all.skip(0) =~= all);
    }
    while i < list.len() && !same(list[i], name)
        invariant
            i <= list@.len(),
            all == names(list@),
            from_name(all, name@) == from_name(all.skip(i as int), name@),
        ensures
            i <= list@.len(),
            from_name(all, name@) == all.skip(i as int),
        decreases list@.len() - i,
    {
        proof {
            assert(all.skip(i as int).skip(1) =~= all.skip(i + 1));
        }
        i += 1;
    }
    let mut r: Vec<&'a str> = Vec::new();
    let ghost from = i;
    while i < list.len()
        invariant
            from <= i <= list@.len(),
            all == names(list@),
            names(r@) == all.subrange(from as int, i as int),
        decreases list@.len() - i,
    {
        let ghost had = names(r@);
        r.push(list[i]);
        i += 1;
        proof {
            assert(names(r@) =~= had.push(all[i - 1]));
            assert(names(r@) =~= all.subrange(from as int, i as int));
        }
    }
    proof {
        assert(all.skip(from as int) =~= all.subrange(from as int, all.len() as int));
    }
    r
}

impl<'a, 'b> Resolver<'a, 'b> {
    /// Whether the sets and the recipes are well formed.
    pub open spec fn wf(self) -> bool {
        &&& self.seen.wf()
        &&& self.resolved.wf()
        &&& self.recipes.wf()
        &&& forall|i: int|
            0 <= i < self.recipes@.len() ==> all_tokens(
                (#[trigger] self.recipes@[i]).1.dependency_tokens,
                countable(),
            )
    }

    /// Looks at `recipe`.
    pub fn resolve(&mut self, recipe: &Recipe<'a>) -> (r: Result<(), Error<'a>>)
        requires
            old(self).wf(),
            all_tokens(recipe@.dependency_tokens, countable()),
        ensures
            final(self).wf(),
            final(self).recipes == old(self).recipes,
            match resolve_recipe(old(self).recipes@, old(self)@, recipe@) {
                Resolution::Done { state } => r is Ok && final(self)@ == state,
                Resolution::Fail { error, state } => (r matches Err(e) && e@ == error)
                    && final(self)@ == state,
            },
        decreases unseen(old(self).recipes@, old(self).seen@.insert(recipe.name@)),
    {
        if self.resolved.contains(recipe.name) {
            return Ok(());
        }
        let ghost before = self@;
        let recipes: &'b Table<'a, Recipe<'a>> = self.recipes;
        self.stack.push(recipe.name);
        self.seen.insert(recipe.name);
        proof {
            assert(self@ =~= before.entered(recipe.name@));
        }
        let mut i: usize = 0;
        while i < recipe.dependency_tokens.len()
            invariant
                i <= recipe.dependency_tokens@.len(),
                self.wf(),
                self.recipes == recipes,
                recipes == old(self).recipes,
                before == old(self)@,
                self@ == before.entered(recipe.name@),
                all_tokens(recipe@.dependency_tokens, countable()),
                resolve_recipe(recipes@, before, recipe@) == resolve_from(
                    recipes@,
                    self@,
                    recipe@,
                    i as nat,
                ),
            decreases recipe.dependency_tokens@.len() - i,
        {
            let token: Token<'a> = recipe.dependency_tokens[i];
            proof {
                assert(recipe@.dependency_tokens[i as int] == token@);
            }
            match recipes.get(token.lexeme) {
                Some(dependency) => {
                    let ghost at = choose|k: int|
                        0 <= k < recipes@.len() && (#[trigger] recipes@[k]) == (
                            token.lexeme@,
                            dependency@,
                        );
                    assert(recipes@[at].1 == dependency@);
                    if !self.resolved.contains(dependency.name) {
                        if self.seen.contains(dependency.name) {
                            let first: &'a str = self.stack[0];
                            let ghost was = names(self.stack@);
                            self.stack.push(first);
                            proof {
                                assert(names(self.stack@) =~= was.push(was[0]));
                                assert(self@ =~= before.entered(recipe.name@).back());
                            }
                            let circle: Vec<&'a str> = skip_to(&self.stack, dependency.name);
                            return Err(
                                token.error(
                                    ErrorKind::CircularRecipeDependency {
                                        recipe: recipe.name,
                                        circle,
                                    },
                                ),
                            );
                        }
                        proof {
                            lemma_unseen(
                                recipes@,
                                self.seen@,
                                self.seen@.insert(dependency.name@),
                            );
                        }
                        return self.resolve(dependency);
                    }
                },
                None => {
                    return Err(
                        token.error(
                            ErrorKind::UnknownDependency {
                                recipe: recipe.name,
                                unknown: token.lexeme,
                            },
                        ),
                    );
                },
            }
            i += 1;
        }
        self.resolved.insert(recipe.name);
        let ghost was = names(self.stack@);
        let _ = self.stack.pop();
        proof {
            assert(names(self.stack@) =~= was.drop_last());
            assert(self@ =~= before.entered(recipe.name@).left(recipe.name@));
        }
        Ok(())
    }
}

/// Looks at every recipe, in the order of their names.
pub fn resolve<'a>(recipes: &Table<'a, Recipe<'a>>) -> (r: Result<(), Error<'a>>)
    requires
        recipes.wf(),
        forall|i: int|
            0 <= i < recipes@.len() ==> all_tokens(
                (#[trigger] recipes@[i]).1.dependency_tokens,
                countable(),
            ),
    ensures
        match resolve_all(recipes@, ResolverView::initial(), 0) {
            Resolution::Done { state } => r is Ok,
            Resolution::Fail { error, state } => r matches Err(e) && e@ == error,
        },
{
    let mut resolver: Resolver<'a, '_> = Resolver {
        stack: Vec::new(),
        seen: Names::new(),
        resolved: Names::new(),
        recipes,
    };
    proof {
        assert(resolver@ =~= ResolverView::initial());
    }
    let mut i: usize = 0;
    while i < recipes.entries.len()
        invariant
            i <= recipes@.len(),
            recipes@.len() == recipes.entries@.len(),
            resolver.wf(),
            resolver.recipes == recipes,
            resolve_all(recipes@, ResolverView::initial(), 0) == resolve_all(
                recipes@,
                resolver@,
                i as nat,
            ),
        decreases recipes@.len() - i,
    {
        proof {
            assert(recipes@[i as int].1 == recipes.entries@[i as int].1@);
        }
        match resolver.resolve(&recipes.entries[i].1) {
            Ok(()) => {},
            Err(error) => {
                return Err(error);
            },
        }
        i += 1;
    }
    Ok(())
}

} // verus!
