//! What holds of writing a justfile out and parsing it again.

use vstd::prelude::*;

use crate::alike::{alike_assignments, alike_items, alike_recipes, alike_tables, lemma_alike_finish};
use crate::alike::lemma_alike_shown;
use crate::expression::ExpressionView;
use crate::file::{finish, parse_items, Items, ParsedFile};
use crate::justfile::JustfileView;
use crate::linked::is_tidy;
use crate::parse::{first_bad_name, not_comment, parse_text};
use crate::parse_laws::lemma_parsed;
use crate::pattern::is_good_name;
use crate::recipe::{FragmentView, RecipeView};
use crate::token::{TokenKind, TokenView};
use crate::written::{assignment_bares, expression_bares, item_bares, items_bares, lines_bares};
use crate::written::{names_bares, piece_bares, pieces_bares, plain_expression, plain_line};
use crate::written::{plain_piece, plain_recipe, recipe_bares, recipe_tail_bares, stands, Bare};
use crate::written_lexing::lemma_written;
use crate::written_parsing::lemma_items_parsed;
use crate::written_shape::lemma_parsed_plain;
use crate::written_tokens::kept;

verus! {

/// Whether all names among tokens are good ones.
spec fn good_bares(bares: Seq<Bare>) -> bool {
    forall|i: int|
        0 <= i < bares.len() && (#[trigger] bares[i]).class == TokenKind::Name ==> is_good_name(
            bares[i].lexeme,
        )
}

/// The names in an expression are good ones.
proof fn lemma_expression_names(e: ExpressionView)
    requires
        plain_expression(e),
    ensures
        good_bares(expression_bares(e)),
    decreases e,
{
    if let ExpressionView::Concatination { lhs, rhs } = e {
        lemma_expression_names(*lhs);
        lemma_expression_names(*rhs);
    }
}

/// The names in a line are good ones.
proof fn lemma_pieces_names(line: Seq<FragmentView>, i: nat)
    requires
        forall|k: int| 0 <= k < line.len() ==> #[trigger] plain_piece(line, k),
    ensures
        good_bares(pieces_bares(line, i)),
    decreases line.len() - i,
{
    if i < line.len() {
        assert(plain_piece(line, i as int));
        if let FragmentView::Expression { expression } = line[i as int] {
            lemma_expression_names(expression);
        }
        assert(good_bares(piece_bares(line[i as int])));
        lemma_pieces_names(line, i + 1);
    }
}

/// The names in lines are good ones.
proof fn lemma_lines_names(lines: Seq<Seq<FragmentView>>, i: nat, last: bool)
    requires
        forall|k: int| 0 <= k < lines.len() ==> plain_line(#[trigger] lines[k]),
    ensures
        good_bares(lines_bares(lines, i, last)),
    decreases lines.len() - i,
{
    if i < lines.len() {
        assert(plain_line(lines[i as int]));
        lemma_pieces_names(lines[i as int], 0);
        lemma_lines_names(lines, i + 1, last);
    }
}

/// The names in a recipe are good ones.
proof fn lemma_recipe_names(r: RecipeView, last: bool)
    requires
        plain_recipe(r),
    ensures
        good_bares(recipe_bares(r, last)),
{
    lemma_lines_names(r.lines, 0, last);
    assert(good_bares(names_bares(r.arguments)));
    assert(good_bares(names_bares(r.dependencies)));
    assert(good_bares(recipe_tail_bares(r, last)));
}

/// The names in a justfile are good ones.
proof fn lemma_items_names(j: JustfileView, k: nat)
    requires
        j.is_plain(),
    ensures
        good_bares(items_bares(j, k)),
    decreases j.items() - k,
{
    if k < j.items() {
        let m = j.assignments.len();
        let last = k + 1 == j.items();
        if k < m {
            lemma_expression_names(j.assignments[k as int].1);
            assert(good_bares(assignment_bares(j.assignments[k as int].1, last)));
        } else {
            assert(plain_recipe(j.recipes[k - m].1));
            lemma_recipe_names(j.recipes[k - m].1, last);
        }
        assert(good_bares(item_bares(j, k as int)));
        lemma_items_names(j, k + 1);
    }
}

/// Where all names are good, none is found to be bad.
proof fn lemma_all_names_good(ts: Seq<TokenView>, i: nat)
    requires
        forall|k: int|
            0 <= k < ts.len() && (#[trigger] ts[k]).class == TokenKind::Name ==> is_good_name(
                ts[k].lexeme,
            ),
    ensures
        first_bad_name(ts, i) is None,
    decreases ts.len() - i,
{
    if i < ts.len() {
        lemma_all_names_good(ts, i + 1);
    }
}

/// What is written of a plain justfile is parsed as items that are the same but for where they
/// stand.
proof fn lemma_written_items(j: JustfileView) -> (items: Items)
    requires
        j.is_plain(),
        !j.ends_in_blanks(),
    ensures
        alike_assignments(j.assignments, items.assignments),
        alike_tables(j.recipes, items.recipes),
        parse_text(j.shown()) == finish(j.shown(), items),
{
    let text = j.shown();
    let tokens = lemma_written(j);
    let ts = tokens.filter(not_comment());
    let bares = items_bares(j, 0);
    assert(kept(tokens).len() == ts.len());
    assert forall|i: int| 0 <= i < ts.len() implies (#[trigger] ts[i]).bare() == bares[i] by {
        assert(kept(tokens)[i] == ts[i].bare());
    }
    assert(stands(ts, 0, bares));
    lemma_items_names(j, 0);
    assert forall|k: int|
        0 <= k < ts.len() && (#[trigger] ts[k]).class == TokenKind::Name implies is_good_name(
        ts[k].lexeme,
    ) by {
        assert(ts[k].bare() == bares[k]);
    }
    lemma_all_names_good(ts, 0);
    assert(j.assignments.take(0) =~= Seq::empty());
    assert(j.recipes.take(0) =~= Seq::empty());
    lemma_items_parsed(text, ts, 0, j, 0, Items::none());
    parse_items(text, ts, 0, Items::none())->Done_value
}

/// A justfile that was parsed is parsed again from what is written of it, with the same values, and
/// then the same is written of it: the two differ in nothing but where things stand.
///
/// One thing is not read back: blanks at the very end of what is written, after an interpolation.
pub proof fn law_written_justfiles_are_read_back(text: Seq<char>, justfile: JustfileView)
    requires
        parse_text(text) == (ParsedFile::Done { justfile }),
        !justfile.ends_in_blanks(),
    ensures
        parse_text(justfile.shown()) matches ParsedFile::Done { justfile: again } && {
            &&& again.shown() == justfile.shown()
            &&& again.values == justfile.values
            &&& alike_assignments(justfile.assignments, again.assignments)
            &&& alike_tables(justfile.recipes, again.recipes)
        },
{
    let (items, state) = lemma_parsed(text, justfile);
    lemma_parsed_plain(text, justfile);
    let made = lemma_written_items(justfile);
    assert forall|i: int| 0 <= i < items.recipes.len() implies (#[trigger] items.recipes[i]).0
        == made.recipes[i].0 && alike_recipes(items.recipes[i].1, made.recipes[i].1) by {
        assert(justfile.recipes[i].0 == items.recipes[i].0);
        assert(alike_recipes(justfile.recipes[i].1, made.recipes[i].1));
    }
    assert(alike_items(items, made));
    lemma_alike_finish(text, justfile.shown(), items, made);
    let again = parse_text(justfile.shown())->justfile;
    lemma_alike_shown(justfile, again);
}

/// Where no line of a text ends in a blank, what is written of its justfile is parsed again, and
/// then the same is written.
pub proof fn law_tidy_texts_are_read_back(text: Seq<char>, justfile: JustfileView)
    requires
        parse_text(text) == (ParsedFile::Done { justfile }),
        is_tidy(text),
    ensures
        parse_text(justfile.shown()) matches ParsedFile::Done { justfile: again } && again.shown()
            == justfile.shown(),
{
    lemma_parsed_plain(text, justfile);
    law_written_justfiles_are_read_back(text, justfile);
}

} // verus!
