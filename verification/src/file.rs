//! Parsing whole justfiles.

use vstd::prelude::*;
use vstd::string::*;

use crate::error::{Error, ErrorKind, ErrorKindView, ErrorView};
use crate::evaluator::{evaluate, evaluate_all, evaluate_assignments, lemma_only_lines_added};
use crate::evaluator::{Assignments, Evaluated, EvaluatorView, Filled};
use crate::expression::{Expression, ExpressionView, Variables};
use crate::justfile::{named, Justfile, JustfileView};
use crate::parser::{is_shebang, lemma_expression_advances, lemma_pieces_advance};
use crate::parser::{lemma_recipe_advances, parse_expression, parse_lines, parse_names};
use crate::parser::{parse_pieces, parse_recipe, Parsed, Parser};
use crate::recipe::{fragment_views, line_all, line_views, lines_all, Fragment, FragmentView};
use crate::recipe::{Recipe, RecipeView};
use crate::resolver::{resolve, resolve_all, Resolution, ResolverView};
use crate::table::{contains, inserted, is_key, is_sorted, law_lookup_after_insert, lemma_inserted};
use crate::table::{lookup, Table};
use crate::text::{byte_len, byte_slice, names, slice};
use crate::token::{all_tokens, countable, token_views, Token, TokenKind, TokenView};

verus! {

/// What stands in a justfile.
#[verifier::ext_equal]
pub struct Items {
    pub recipes: Seq<(Seq<char>, RecipeView)>,
    pub assignments: Seq<(Seq<char>, ExpressionView)>,
    /// The names of the variables, where they are assigned.
    pub assignment_tokens: Seq<(Seq<char>, TokenView)>,
}

impl Items {
    /// Nothing.
    pub open spec fn none() -> Items {
        Items {
            recipes: Seq::empty(),
            assignments: Seq::empty(),
            assignment_tokens: Seq::empty(),
        }
    }

    /// With an assignment of `value` to the variable that `token` names.
    pub open spec fn assigned(self, token: TokenView, value: ExpressionView) -> Items {
        Items {
            assignments: inserted(self.assignments, token.lexeme, value),
            assignment_tokens: inserted(self.assignment_tokens, token.lexeme, token),
            ..self
        }
    }

    /// With a recipe that `token` names.
    pub open spec fn defined(self, token: TokenView, recipe: RecipeView) -> Items {
        Items { recipes: inserted(self.recipes, token.lexeme, recipe), ..self }
    }
}

/// The items of a justfile, after those that are `done`.
pub open spec fn parse_items(
    text: Seq<char>,
    ts: Seq<TokenView>,
    pos: nat,
    done: Items,
) -> Parsed<Items>
    decreases ts.len() - pos,
{
    if pos >= ts.len() {
        Parsed::Fail {
            error: ErrorView {
                text,
                index: 0,
                line: 0,
                column: 0,
                width: None,
                kind: ErrorKindView::InternalError { message: "unexpected end of token stream"@ },
            },
            at: pos,
        }
    } else {
        let token = ts[pos as int];
        match token.class {
            TokenKind::Eof => Parsed::Done { value: done, at: pos + 1 },
            TokenKind::Eol => parse_items(text, ts, pos + 1, done),
            TokenKind::Name => if pos + 1 >= ts.len() {
                Parsed::Stuck
            } else if ts[pos as int + 1].class == TokenKind::Equals {
                proof {
                    lemma_expression_advances(ts, pos + 2, false);
                }
                if is_key(done.assignments, token.lexeme) {
                    Parsed::Fail {
                        error: token.error(
                            ErrorKindView::DuplicateVariable { variable: token.lexeme },
                        ),
                        at: pos + 2,
                    }
                } else {
                    match parse_expression(ts, pos + 2, false) {
                        Parsed::Done { value, at } => parse_items(
                            text,
                            ts,
                            at,
                            done.assigned(token, value),
                        ),
                        Parsed::Fail { error, at } => Parsed::Fail { error, at },
                        Parsed::Stuck => Parsed::Stuck,
                    }
                }
            } else {
                proof {
                    lemma_recipe_advances(ts, pos + 1, token.lexeme, token.line);
                }
                match lookup(done.recipes, token.lexeme) {
                    Some(recipe) => Parsed::Fail {
                        error: token.error(
                            ErrorKindView::DuplicateRecipe {
                                recipe: recipe.name,
                                first: recipe.line_number,
                            },
                        ),
                        at: pos + 1,
                    },
                    None => match parse_recipe(ts, pos + 1, token.lexeme, token.line) {
                        Parsed::Done { value, at } => parse_items(
                            text,
                            ts,
                            at,
                            done.defined(token, value),
                        ),
                        Parsed::Fail { error, at } => Parsed::Fail { error, at },
                        Parsed::Stuck => Parsed::Stuck,
                    },
                }
            },
            TokenKind::Comment => Parsed::Fail {
                error: token.error(
                    ErrorKindView::InternalError { message: "found comment in token stream"@ },
                ),
                at: pos + 1,
            },
            _ => Parsed::Fail { error: token.unexpected(seq![TokenKind::Name]), at: pos + 1 },
        }
    }
}

/// The first of `tokens`, from the one at `i` on, that shadows a variable.
pub open spec fn first_shadow(
    tokens: Seq<TokenView>,
    assignments: Seq<(Seq<char>, ExpressionView)>,
    i: nat,
) -> Option<TokenView>
    decreases tokens.len() - i,
{
    if i >= tokens.len() {
        None
    } else if is_key(assignments, tokens[i as int].lexeme) {
        Some(tokens[i as int])
    } else {
        first_shadow(tokens, assignments, i + 1)
    }
}

/// The variables that a walk over `leaves` meets: it ends at a string.
pub open spec fn walked(leaves: Seq<Option<TokenView>>) -> Seq<TokenView>
    decreases leaves.len(),
{
    if leaves.len() == 0 {
        Seq::empty()
    } else {
        match leaves[0] {
            Some(token) => seq![token] + walked(leaves.skip(1)),
            None => Seq::empty(),
        }
    }
}

/// The variables that are met in the pieces of a line from the one at `i` on.
pub open spec fn line_variables(line: Seq<FragmentView>, i: nat) -> Seq<TokenView>
    decreases line.len() - i,
{
    if i >= line.len() {
        Seq::empty()
    } else {
        (match line[i as int] {
            FragmentView::Text { text } => Seq::empty(),
            FragmentView::Expression { expression } => walked(expression.leaves()),
        }) + line_variables(line, i + 1)
    }
}

/// The variables that are met in lines from the one at `i` on.
pub open spec fn lines_variables(lines: Seq<Seq<FragmentView>>, i: nat) -> Seq<TokenView>
    decreases lines.len() - i,
{
    if i >= lines.len() {
        Seq::empty()
    } else {
        line_variables(lines[i as int], 0) + lines_variables(lines, i + 1)
    }
}

/// Whether a variable is neither assigned nor an argument.
pub open spec fn is_unknown(
    variable: TokenView,
    assignments: Seq<(Seq<char>, ExpressionView)>,
    arguments: Seq<Seq<char>>,
) -> bool {
    !(is_key(assignments, variable.lexeme) || arguments.contains(variable.lexeme))
}

/// The first of `variables` that is neither assigned nor an argument.
pub open spec fn first_unknown(
    variables: Seq<TokenView>,
    assignments: Seq<(Seq<char>, ExpressionView)>,
    arguments: Seq<Seq<char>>,
) -> Option<TokenView>
    decreases variables.len(),
{
    if variables.len() == 0 {
        None
    } else if is_unknown(variables[0], assignments, arguments) {
        Some(variables[0])
    } else {
        first_unknown(variables.skip(1), assignments, arguments)
    }
}

/// What comes of looking at a recipe.
pub enum Checked {
    Fine,
    Wrong { error: ErrorView },
    /// A variable is not where its token says.
    Stuck,
}

/// Whether the arguments and the variables of a recipe go with the assignments.
pub open spec fn check_recipe(
    text: Seq<char>,
    assignments: Seq<(Seq<char>, ExpressionView)>,
    recipe: RecipeView,
) -> Checked {
    match first_shadow(recipe.argument_tokens, assignments, 0) {
        Some(token) => Checked::Wrong {
            error: token.error(ErrorKindView::ArgumentShadowsVariable { argument: token.lexeme }),
        },
        None => match first_unknown(
            lines_variables(recipe.lines, 0),
            assignments,
            recipe.arguments,
        ) {
            Some(token) => unknown_variable(text, token),
            None => Checked::Fine,
        },
    }
}

/// The error that a variable is unknown. It names the variable as it stands in the text.
pub open spec fn unknown_variable(text: Seq<char>, token: TokenView) -> Checked {
    let from = token.index + byte_len(token.prefix);
    match byte_slice(text, from as int, (from + byte_len(token.lexeme)) as int) {
        Some(variable) => Checked::Wrong {
            error: ErrorView { text, ..token.error(ErrorKindView::UnknownVariable { variable }) },
        },
        None => Checked::Stuck,
    }
}

/// Whether the recipes from the one at `i` on go with the assignments.
pub open spec fn check_recipes(
    text: Seq<char>,
    assignments: Seq<(Seq<char>, ExpressionView)>,
    recipes: Seq<(Seq<char>, RecipeView)>,
    i: nat,
) -> Checked
    decreases recipes.len() - i,
{
    if i >= recipes.len() {
        Checked::Fine
    } else {
        match check_recipe(text, assignments, recipes[i as int].1) {
            Checked::Fine => check_recipes(text, assignments, recipes, i + 1),
            wrong => wrong,
        }
    }
}

/// What comes of parsing a justfile.
pub enum ParsedFile {
    Done { justfile: JustfileView },
    Fail { error: ErrorView },
    /// The tokens do not end as they should, or one is not what it says.
    Stuck,
}

/// What comes of items: they are resolved, checked and evaluated.
pub open spec fn finish(text: Seq<char>, items: Items) -> ParsedFile {
    match resolve_all(items.recipes, ResolverView::initial(), 0) {
        Resolution::Fail { error, state } => ParsedFile::Fail { error },
        Resolution::Done { state } => match check_recipes(
            text,
            items.assignments,
            items.recipes,
            0,
        ) {
            Checked::Stuck => ParsedFile::Stuck,
            Checked::Wrong { error } => ParsedFile::Fail { error },
            Checked::Fine => match evaluate_all(
                Assignments { expressions: items.assignments, tokens: items.assignment_tokens },
                items.recipes,
            ) {
                Filled::Stuck => ParsedFile::Stuck,
                Filled::Fail { recipes, error } => ParsedFile::Fail { error },
                Filled::Done { recipes, state } => ParsedFile::Done {
                    justfile: JustfileView {
                        recipes,
                        assignments: items.assignments,
                        values: state.evaluated,
                    },
                },
            },
        },
    }
}

/// What comes of parsing the tokens from the one at `pos` on.
pub open spec fn parse_file(text: Seq<char>, ts: Seq<TokenView>, pos: nat) -> ParsedFile {
    match parse_items(text, ts, pos, Items::none()) {
        Parsed::Stuck => ParsedFile::Stuck,
        Parsed::Fail { error, at } => ParsedFile::Fail { error },
        Parsed::Done { value: items, at } => if at < ts.len() {
            ParsedFile::Fail {
                error: ts[at as int].error(
                    ErrorKindView::InternalError {
                        message: "unexpected token remaining after parsing completed: "@
                            + ts[at as int].class.spelled(),
                    },
                ),
            }
        } else {
            finish(text, items)
        },
    }
}

impl Items {
    /// Whether `p` holds of the tokens of the items.
    pub open spec fn all(self, p: spec_fn(TokenView) -> bool) -> bool {
        &&& forall|i: int| 0 <= i < self.recipes.len() ==> (#[trigger] self.recipes[i]).1.all(p)
        &&& forall|i: int|
            0 <= i < self.assignments.len() ==> (#[trigger] self.assignments[i]).1.all(p)
        &&& forall|i: int|
            0 <= i < self.assignment_tokens.len() ==> p((#[trigger] self.assignment_tokens[i]).1)
    }

    /// Whether the tables are sorted.
    pub open spec fn wf(self) -> bool {
        &&& is_sorted(self.recipes)
        &&& is_sorted(self.assignments)
        &&& is_sorted(self.assignment_tokens)
    }
}

/// What holds of all tokens holds of those of an expression's variables.
pub proof fn lemma_expression_all(
    ts: Seq<TokenView>,
    pos: nat,
    interpolation: bool,
    p: spec_fn(TokenView) -> bool,
)
    requires
        all_tokens(ts, p),
    ensures
        parse_expression(ts, pos, interpolation) matches Parsed::Done { value, at } ==> value.all(p),
    decreases ts.len() - pos,
{
    if pos + 1 < ts.len() {
        lemma_expression_all(ts, pos + 2, interpolation, p);
        reveal_with_fuel(ExpressionView::all, 2);
    }
}

/// What holds of all tokens holds of those of a recipe's arguments or dependencies.
proof fn lemma_names_all(
    ts: Seq<TokenView>,
    pos: nat,
    recipe: Seq<char>,
    arguments: bool,
    done: Seq<TokenView>,
    p: spec_fn(TokenView) -> bool,
)
    requires
        all_tokens(ts, p),
        all_tokens(done, p),
    ensures
        parse_names(ts, pos, recipe, arguments, done) matches Parsed::Done { value, at }
            ==> all_tokens(value, p),
    decreases ts.len() - pos,
{
    if pos < ts.len() {
        lemma_names_all(ts, pos + 1, recipe, arguments, done.push(ts[pos as int]), p);
    }
}

/// What holds of all tokens holds of those of the variables in a line.
proof fn lemma_pieces_all(
    ts: Seq<TokenView>,
    pos: nat,
    first_line: bool,
    shebang: bool,
    done: Seq<FragmentView>,
    p: spec_fn(TokenView) -> bool,
)
    requires
        all_tokens(ts, p),
        line_all(done, p),
    ensures
        parse_pieces(ts, pos, first_line, shebang, done) matches Parsed::Done { value, at }
            ==> line_all(value.0, p),
    decreases ts.len() - pos,
{
    if pos < ts.len() {
        let token = ts[pos as int];
        let starts = done.len() == 0 && first_line && is_shebang(token.lexeme);
        let text = FragmentView::Text { text: token };
        lemma_pieces_all(ts, pos + 1, first_line, shebang || starts, done.push(text), p);
        lemma_expression_advances(ts, pos + 1, true);
        lemma_expression_all(ts, pos + 1, true, p);
        if let Parsed::Done { value, at } = parse_expression(ts, pos + 1, true) {
            if at < ts.len() {
                let piece = FragmentView::Expression { expression: value };
                lemma_pieces_all(ts, at + 1, first_line, shebang, done.push(piece), p);
            }
        }
    }
}

/// What holds of all tokens holds of those of the variables in a recipe's lines.
proof fn lemma_lines_all(
    ts: Seq<TokenView>,
    pos: nat,
    shebang: bool,
    done: Seq<Seq<FragmentView>>,
    p: spec_fn(TokenView) -> bool,
)
    requires
        all_tokens(ts, p),
        lines_all(done, p),
    ensures
        parse_lines(ts, pos, shebang, done) matches Parsed::Done { value, at } ==> lines_all(
            value.0,
            p,
        ),
    decreases ts.len() - pos,
{
    if pos < ts.len() {
        lemma_lines_all(ts, pos + 1, shebang, done, p);
        lemma_pieces_advance(ts, pos + 1, done.len() == 0, shebang, Seq::empty());
        lemma_pieces_all(ts, pos + 1, done.len() == 0, shebang, Seq::empty(), p);
        if let Parsed::Done { value, at } = parse_pieces(
            ts,
            pos + 1,
            done.len() == 0,
            shebang,
            Seq::empty(),
        ) {
            lemma_lines_all(ts, at, value.1, done.push(value.0), p);
        }
    }
}

/// What holds of all tokens holds of those of a recipe.
pub proof fn lemma_recipe_all(
    ts: Seq<TokenView>,
    pos: nat,
    name: Seq<char>,
    line_number: nat,
    p: spec_fn(TokenView) -> bool,
)
    requires
        all_tokens(ts, p),
    ensures
        parse_recipe(ts, pos, name, line_number) matches Parsed::Done { value, at } ==> value.all(p),
{
    lemma_names_all(ts, pos, name, true, Seq::empty(), p);
    if let Parsed::Done { value: arguments, at } = parse_names(ts, pos, name, true, Seq::empty()) {
        lemma_names_all(ts, at + 1, name, false, Seq::empty(), p);
        if let Parsed::Done { value: dependencies, at: end } = parse_names(
            ts,
            at + 1,
            name,
            false,
            Seq::empty(),
        ) {
            lemma_lines_all(ts, end + 1, false, Seq::empty(), p);
            lemma_lines_all(ts, end + 2, false, Seq::empty(), p);
        }
    }
}

/// An assignment of which the tokens meet `p` can be added to items of which they do.
pub proof fn lemma_assigned_all(
    items: Items,
    token: TokenView,
    value: ExpressionView,
    p: spec_fn(TokenView) -> bool,
)
    requires
        items.wf(),
        items.all(p),
        p(token),
        value.all(p),
    ensures
        items.assigned(token, value).wf(),
        items.assigned(token, value).all(p),
{
    let more = items.assigned(token, value);
    law_lookup_after_insert(items.assignments, token.lexeme, value, token.lexeme);
    law_lookup_after_insert(items.assignment_tokens, token.lexeme, token, token.lexeme);
    assert forall|i: int| 0 <= i < more.assignments.len() implies (
    #[trigger] more.assignments[i]).1.all(p) by {
        lemma_inserted(items.assignments, token.lexeme, value, i);
    }
    assert forall|i: int| 0 <= i < more.assignment_tokens.len() implies p(
        (#[trigger] more.assignment_tokens[i]).1,
    ) by {
        lemma_inserted(items.assignment_tokens, token.lexeme, token, i);
    }
}

/// A recipe of which the tokens meet `p` can be added to items of which they do.
pub proof fn lemma_defined_all(
    items: Items,
    token: TokenView,
    recipe: RecipeView,
    p: spec_fn(TokenView) -> bool,
)
    requires
        items.wf(),
        items.all(p),
        recipe.all(p),
    ensures
        items.defined(token, recipe).wf(),
        items.defined(token, recipe).all(p),
{
    let more = items.defined(token, recipe);
    law_lookup_after_insert(items.recipes, token.lexeme, recipe, token.lexeme);
    assert forall|i: int| 0 <= i < more.recipes.len() implies (#[trigger] more.recipes[i]).1.all(
        p,
    ) by {
        lemma_inserted(items.recipes, token.lexeme, recipe, i);
    }
}

/// Each recipe among the items stands under its own name.
pub proof fn lemma_items_named(text: Seq<char>, ts: Seq<TokenView>, pos: nat, done: Items)
    requires
        done.wf(),
        named(done.recipes),
    ensures
        parse_items(text, ts, pos, done) matches Parsed::Done { value, at } ==> named(
            value.recipes,
        ),
    decreases ts.len() - pos,
{
    if pos < ts.len() {
        let token = ts[pos as int];
        lemma_items_named(text, ts, pos + 1, done);
        lemma_expression_advances(ts, pos + 2, false);
        lemma_recipe_advances(ts, pos + 1, token.lexeme, token.line);
        if let Parsed::Done { value, at } = parse_expression(ts, pos + 2, false) {
            let more = done.assigned(token, value);
            law_lookup_after_insert(done.assignments, token.lexeme, value, token.lexeme);
            law_lookup_after_insert(done.assignment_tokens, token.lexeme, token, token.lexeme);
            lemma_items_named(text, ts, at, more);
        }
        if let Parsed::Done { value, at } = parse_recipe(ts, pos + 1, token.lexeme, token.line) {
            let more = done.defined(token, value);
            law_lookup_after_insert(done.recipes, token.lexeme, value, token.lexeme);
            assert forall|i: int| 0 <= i < more.recipes.len() implies (
            #[trigger] more.recipes[i]).1.name == more.recipes[i].0 by {
                lemma_inserted(done.recipes, token.lexeme, value, i);
            }
            lemma_items_named(text, ts, at, more);
        }
    }
}

/// What holds of the tokens of an expression's variables holds of its leaves.
pub proof fn lemma_leaves_all(expression: ExpressionView, p: spec_fn(TokenView) -> bool)
    requires
        expression.all(p),
    ensures
        leaves_all(expression.leaves(), p),
    decreases expression,
{
    if let ExpressionView::Concatination { lhs, rhs } = expression {
        lemma_leaves_all(*lhs, p);
        lemma_leaves_all(*rhs, p);
    }
}

/// Whether `p` holds of the leaves that are variables.
pub open spec fn leaves_all(leaves: Seq<Option<TokenView>>, p: spec_fn(TokenView) -> bool) -> bool {
    forall|i: int| 0 <= i < leaves.len() ==> ((#[trigger] leaves[i]) matches Some(token) ==> p(token))
}

/// The first unknown variable of two lists is that of the first list, or else that of the second.
proof fn lemma_first_unknown(
    a: Seq<TokenView>,
    b: Seq<TokenView>,
    assignments: Seq<(Seq<char>, ExpressionView)>,
    arguments: Seq<Seq<char>>,
)
    ensures
        first_unknown(a + b, assignments, arguments) == (match first_unknown(
            a,
            assignments,
            arguments,
        ) {
            Some(token) => Some(token),
            None => first_unknown(b, assignments, arguments),
        }),
    decreases a.len(),
{
    if a.len() == 0 {
        assert(a + b =~= b);
    } else {
        lemma_first_unknown(a.skip(1), b, assignments, arguments);
        assert((a + b).skip(1) =~= a.skip(1) + b);
    }
}

/// The first variable of an expression that is neither assigned nor an argument.
fn unknown_in_expression<'s>(
    expression: &'s Expression<'s>,
    assignments: &Table<'_, Expression<'_>>,
    arguments: &Vec<&str>,
) -> (r: Option<&'s Token<'s>>)
    requires
        assignments.wf(),
        expression@.all(countable()),
    ensures
        match first_unknown(walked(expression@.leaves()), assignments@, names(arguments@)) {
            Some(token) => (r matches Some(t) && t@ == token) && token.fits(),
            None => r is None,
        },
{
    let mut variables: Variables<'s> = expression.variables();
    let ghost all = first_unknown(walked(expression@.leaves()), assignments@, names(arguments@));
    proof {
        lemma_leaves_all(expression@, countable());
    }
    loop
        invariant
            assignments.wf(),
            leaves_all(variables.leaves(), countable()),
            all == first_unknown(walked(expression@.leaves()), assignments@, names(arguments@)),
            all == first_unknown(walked(variables.leaves()), assignments@, names(arguments@)),
        decreases variables.leaves().len(),
    {
        let ghost leaves = variables.leaves();
        match variables.next() {
            None => {
                return None;
            },
            Some(token) => {
                proof {
                    let rest = walked(leaves.skip(1));
                    assert(walked(leaves) == seq![token@] + rest);
                    assert((seq![token@] + rest).skip(1) =~= rest);
                    assert(leaves_all(leaves.skip(1), countable()));
                }
                if !(assignments.contains_key(token.lexeme) || contains(arguments, token.lexeme)) {
                    return Some(token);
                }
            },
        }
    }
}

/// The first variable in the lines of a recipe that is neither assigned nor an argument.
fn unknown_in_lines<'s>(
    lines: &'s Vec<Vec<Fragment<'s>>>,
    assignments: &Table<'_, Expression<'_>>,
    arguments: &Vec<&str>,
) -> (r: Option<&'s Token<'s>>)
    requires
        assignments.wf(),
        lines_all(line_views(lines@), countable()),
    ensures
        match first_unknown(
            lines_variables(line_views(lines@), 0),
            assignments@,
            names(arguments@),
        ) {
            Some(token) => (r matches Some(t) && t@ == token) && token.fits(),
            None => r is None,
        },
{
    let ghost views = line_views(lines@);
    let ghost all = first_unknown(lines_variables(views, 0), assignments@, names(arguments@));
    let mut i: usize = 0;
    while i < lines.len()
        invariant
            i <= lines@.len(),
            assignments.wf(),
            views == line_views(lines@),
            lines_all(views, countable()),
            all == first_unknown(lines_variables(views, 0), assignments@, names(arguments@)),
            all == first_unknown(
                lines_variables(views, i as nat),
                assignments@,
                names(arguments@),
            ),
        decreases lines@.len() - i,
    {
        let line: &'s Vec<Fragment<'s>> = &lines[i];
        let ghost pieces = fragment_views(line@);
        let ghost rest = lines_variables(views, i as nat + 1);
        let mut j: usize = 0;
        assert(views[i as int] == pieces);
        while j < line.len()
            invariant
                j <= line@.len(),
                assignments.wf(),
                pieces == fragment_views(line@),
                line_all(pieces, countable()),
                views == line_views(lines@),
                all == first_unknown(lines_variables(views, 0), assignments@, names(arguments@)),
                all == first_unknown(
                    line_variables(pieces, j as nat) + rest,
                    assignments@,
                    names(arguments@),
                ),
            decreases line@.len() - j,
        {
            let ghost after = line_variables(pieces, j as nat + 1);
            assert(pieces[j as int] == line@[j as int]@);
            match &line[j] {
                Fragment::Text { text: _ } => {
                    assert(Seq::<TokenView>::empty() + after =~= after);
                },
                Fragment::Expression { expression } => {
                    proof {
                        let here = walked(expression@.leaves());
                        assert(here + after + rest =~= here + (after + rest));
                        lemma_first_unknown(here, after + rest, assignments@, names(arguments@));
                    }
                    let unknown: Option<&'s Token<'s>> = unknown_in_expression(
                        expression,
                        assignments,
                        arguments,
                    );
                    if unknown.is_some() {
                        return unknown;
                    }
                },
            }
            j += 1;
        }
        proof {
            assert(line_variables(pieces, j as nat) + rest =~= rest);
        }
        i += 1;
    }
    None
}

/// Whether the arguments and the variables of a recipe go with the assignments.
fn check<'a>(
    text: &'a str,
    assignments: &Table<'a, Expression<'a>>,
    recipe: &Recipe<'a>,
) -> (r: Result<(), Error<'a>>)
    requires
        assignments.wf(),
        recipe@.all(countable()),
        check_recipe(text@, assignments@, recipe@) !is Stuck,
    ensures
        match check_recipe(text@, assignments@, recipe@) {
            Checked::Fine => r is Ok,
            Checked::Wrong { error } => r matches Err(e) && e@ == error,
            Checked::Stuck => true,
        },
{
    let ghost tokens = recipe@.argument_tokens;
    let mut i: usize = 0;
    while i < recipe.argument_tokens.len()
        invariant
            i <= recipe.argument_tokens@.len(),
            tokens == token_views(recipe.argument_tokens@),
            tokens == recipe@.argument_tokens,
            all_tokens(tokens, countable()),
            assignments.wf(),
            first_shadow(tokens, assignments@, 0) == first_shadow(tokens, assignments@, i as nat),
        decreases recipe.argument_tokens@.len() - i,
    {
        let argument: Token<'a> = recipe.argument_tokens[i];
        assert(tokens[i as int] == argument@);
        if assignments.contains_key(argument.lexeme) {
            return Err(
                argument.error(ErrorKind::ArgumentShadowsVariable { argument: argument.lexeme }),
            );
        }
        i += 1;
    }
    match unknown_in_lines(&recipe.lines, assignments, &recipe.arguments) {
        None => Ok(()),
        Some(variable) => {
            let error = variable.error(ErrorKind::UnknownVariable { variable: variable.lexeme });
            let width: usize = crate::text::len(variable.lexeme);
            proof {
                crate::text::lemma_slice_in_range(
                    text@,
                    error.index as int,
                    error.index as int + width,
                );
            }
            // the bytes of a text can be counted
            let _size: usize = crate::text::len(text);
            Err(
                Error {
                    text,
                    index: error.index,
                    line: error.line,
                    column: error.column,
                    width: error.width,
                    kind: ErrorKind::UnknownVariable {
                        variable: slice(text, error.index, error.index + width),
                    },
                },
            )
        },
    }
}

/// The items that three tables hold.
pub open spec fn items_view(
    recipes: Table<'_, Recipe<'_>>,
    assignments: Table<'_, Expression<'_>>,
    assignment_tokens: Table<'_, Token<'_>>,
) -> Items {
    Items {
        recipes: recipes@,
        assignments: assignments@,
        assignment_tokens: assignment_tokens@,
    }
}

impl<'a> Parser<'a> {
    /// Parses the items of a justfile: recipes, assignments, and the names of the latter.
    #[verifier::rlimit(60)]
    fn items(&mut self) -> (r: Result<
        (Table<'a, Recipe<'a>>, Table<'a, Expression<'a>>, Table<'a, Token<'a>>),
        Error<'a>,
    >)
        requires
            old(self).wf(),
            parse_items(
                old(self).text@,
                old(self).all(),
                old(self).position as nat,
                Items::none(),
            ) !is Stuck,
        ensures
            final(self).moved(*old(self), final(self).position as nat),
            match parse_items(
                old(self).text@,
                old(self).all(),
                old(self).position as nat,
                Items::none(),
            ) {
                Parsed::Done { value, at } => final(self).position == at && (r matches Ok(tables)
                    && items_view(tables.0, tables.1, tables.2) == value && value.wf() && value.all(
                    countable(),
                )),
                Parsed::Fail { error, at } => final(self).position == at && (r matches Err(e)
                    && e@ == error),
                Parsed::Stuck => true,
            },
    {
        let ghost ts = self.all();
        let ghost start = self.position as nat;
        let mut recipes: Table<'a, Recipe<'a>> = Table::new();
        let mut assignments: Table<'a, Expression<'a>> = Table::new();
        let mut assignment_tokens: Table<'a, Token<'a>> = Table::new();
        let ghost all = parse_items(self.text@, ts, start, Items::none());
        proof {
            assert(items_view(recipes, assignments, assignment_tokens) =~= Items::none());
        }
        while self.position < self.tokens.len()
            invariant
                self.moved(*old(self), self.position as nat),
                self.all().len() == self.tokens@.len(),
                ts == old(self).all(),
                ts == self.all(),
                start == old(self).position,
                items_view(recipes, assignments, assignment_tokens).wf(),
                items_view(recipes, assignments, assignment_tokens).all(countable()),
                all !is Stuck,
                all == parse_items(old(self).text@, ts, start, Items::none()),
                all == parse_items(
                    old(self).text@,
                    ts,
                    self.position as nat,
                    items_view(recipes, assignments, assignment_tokens),
                ),
            decreases ts.len() - self.position,
        {
            let ghost done = items_view(recipes, assignments, assignment_tokens);
            let ghost at = self.position as nat;
            let token: Token<'a> = self.advance();
            assert(ts[at as int] == token@);
            match token.class {
                TokenKind::Eof => {
                    return Ok((recipes, assignments, assignment_tokens));
                },
                TokenKind::Eol => {},
                TokenKind::Name => {
                    if self.accepted(TokenKind::Equals) {
                        if assignments.contains_key(token.lexeme) {
                            return Err(
                                token.error(
                                    ErrorKind::DuplicateVariable { variable: token.lexeme },
                                ),
                            );
                        }
                        proof {
                            lemma_expression_advances(ts, at + 2, false);
                            lemma_expression_all(ts, at + 2, false, countable());
                        }
                        match self.expression(false) {
                            Err(error) => {
                                return Err(error);
                            },
                            Ok(expression) => {
                                proof {
                                    lemma_assigned_all(done, token@, expression@, countable());
                                }
                                let ghost view = expression@;
                                assignments.insert(token.lexeme, expression);
                                assignment_tokens.insert(token.lexeme, token);
                                assert(items_view(recipes, assignments, assignment_tokens)
                                    =~= done.assigned(token@, view));
                            },
                        }
                    } else {
                        if let Some(recipe) = recipes.get(token.lexeme) {
                            return Err(
                                token.error(
                                    ErrorKind::DuplicateRecipe {
                                        recipe: recipe.name,
                                        first: recipe.line_number,
                                    },
                                ),
                            );
                        }
                        proof {
                            lemma_recipe_advances(ts, at + 1, token.lexeme@, token.line as nat);
                            lemma_recipe_all(
                                ts,
                                at + 1,
                                token.lexeme@,
                                token.line as nat,
                                countable(),
                            );
                        }
                        match self.recipe(token.lexeme, token.line) {
                            Err(error) => {
                                return Err(error);
                            },
                            Ok(recipe) => {
                                proof {
                                    lemma_defined_all(done, token@, recipe@, countable());
                                }
                                let ghost view = recipe@;
                                recipes.insert(token.lexeme, recipe);
                                assert(items_view(recipes, assignments, assignment_tokens)
                                    =~= done.defined(token@, view));
                            },
                        }
                    }
                },
                TokenKind::Comment => {
                    return Err(
                        token.error(
                            ErrorKind::InternalError {
                                message: String::from_str("found comment in token stream"),
                            },
                        ),
                    );
                },
                _ => {
                    let expected: [TokenKind; 1] = [TokenKind::Name];
                    proof {
                        assert(expected@ =~= seq![TokenKind::Name]);
                    }
                    return Err(self.unexpected_token(&token, &expected));
                },
            }
        }
        Err(
            Error {
                text: self.text,
                index: 0,
                line: 0,
                column: 0,
                width: None,
                kind: ErrorKind::InternalError {
                    message: String::from_str("unexpected end of token stream"),
                },
            },
        )
    }

    /// Parses a justfile.
    pub fn file(self) -> (r: Result<Justfile<'a>, Error<'a>>)
        requires
            self.wf(),
            parse_file(self.text@, self.all(), self.position as nat) !is Stuck,
        ensures
            match parse_file(self.text@, self.all(), self.position as nat) {
                ParsedFile::Done { justfile } => r matches Ok(j) && j.wf() && j@ == justfile,
                ParsedFile::Fail { error } => r matches Err(e) && e@ == error,
                ParsedFile::Stuck => true,
            },
    {
        let mut parser: Parser<'a> = self;
        let (mut recipes, assignments, assignment_tokens) = match parser.items() {
            Ok(tables) => tables,
            Err(error) => {
                return Err(error);
            },
        };
        let ghost items = items_view(recipes, assignments, assignment_tokens);
        if parser.position < parser.tokens.len() {
            let token: Token<'a> = parser.advance();
            let mut message: String = String::from_str(
                "unexpected token remaining after parsing completed: ",
            );
            message.append(token.class.identifier());
            return Err(token.error(ErrorKind::InternalError { message }));
        }
        match resolve(&recipes) {
            Ok(()) => {},
            Err(error) => {
                return Err(error);
            },
        }
        let mut i: usize = 0;
        while i < recipes.entries.len()
            invariant
                i <= recipes@.len(),
                recipes@.len() == recipes.entries@.len(),
                recipes@ == items.recipes,
                assignments@ == items.assignments,
                items.wf(),
                items.all(countable()),
                parser.text == self.text,
                check_recipes(self.text@, items.assignments, items.recipes, 0) !is Stuck,
                check_recipes(self.text@, items.assignments, items.recipes, 0) == check_recipes(
                    self.text@,
                    items.assignments,
                    items.recipes,
                    i as nat,
                ),
                assignment_tokens@ == items.assignment_tokens,
                parse_items(self.text@, self.all(), self.position as nat, Items::none()) matches (
                Parsed::Done { value, at }) && value == items && at >= self.all().len(),
                resolve_all(items.recipes, ResolverView::initial(), 0) is Done,
                check_recipes(self.text@, items.assignments, items.recipes, 0) matches Checked::Wrong {
                    error,
                } ==> parse_file(self.text@, self.all(), self.position as nat) == (
                ParsedFile::Fail { error }),
            decreases recipes@.len() - i,
        {
            assert(recipes@[i as int].1 == recipes.entries@[i as int].1@);
            assert(items.recipes[i as int].1.all(countable()));
            match check(parser.text, &assignments, &recipes.entries[i].1) {
                Ok(()) => {},
                Err(error) => {
                    return Err(error);
                },
            }
            i += 1;
        }
        proof {
            let variables = Assignments {
                expressions: items.assignments,
                tokens: items.assignment_tokens,
            };
            lemma_items_named(self.text@, self.all(), self.position as nat, Items::none());
            if let Evaluated::Done { value, state } = evaluate_assignments(
                variables,
                EvaluatorView::initial(),
                0,
            ) {
                lemma_only_lines_added(variables, state, items.recipes, 0, 0);
            }
        }
        match evaluate(&assignments, &assignment_tokens, &mut recipes) {
            Ok(values) => Ok(Justfile { recipes, assignments, values }),
            Err(error) => Err(error),
        }
    }
}

} // verus!
