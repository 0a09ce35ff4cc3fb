//! Parsing the tokens of a justfile that is written out.

use vstd::prelude::*;

use crate::alike::{alike_assignments, alike_bodies, alike_expressions, alike_lines, alike_pieces};
use crate::alike::{alike_recipes, alike_tables};
use crate::expression::ExpressionView;
use crate::file::{parse_items, Items};
use crate::justfile::JustfileView;
use crate::parse::lemma_quoted;
use crate::parse_laws::starts_script;
use crate::parser::{is_shebang, parse_body, parse_expression, parse_leaf, parse_lines, parse_names};
use crate::parser::{parse_pieces, parse_recipe, Parsed};
use crate::recipe::{FragmentView, RecipeView};
use crate::table::{is_key, lemma_inserted_last, lookup};
use crate::text::is_before;
use crate::token::{lexemes, TokenKind, TokenView};
use crate::written::{after_item, begins_extra, eol, expression_bares, item_bares, items_bares};
use crate::written::{lemma_stands, lemma_stands_one, lines_bares, names_bares, one, piece_bares};
use crate::written::{pieces_bares, plain_body, plain_expression, plain_line, plain_piece};
use crate::written::{plain_recipe, recipe_bares, recipe_tail_bares, stands};

verus! {

/// The tokens of an expression are parsed as one that is alike.
proof fn lemma_expression_parsed(
    ts: Seq<TokenView>,
    pos: nat,
    interpolation: bool,
    e: ExpressionView,
)
    requires
        plain_expression(e),
        stands(ts, pos, expression_bares(e)),
        pos + expression_bares(e).len() < ts.len(),
        ({
            let class = ts[(pos + expression_bares(e).len()) as int].class;
            if interpolation {
                class == TokenKind::InterpolationEnd
            } else {
                class == TokenKind::Eol || class == TokenKind::Eof
            }
        }),
    ensures
        ({
            let end = pos + expression_bares(e).len();
            parse_expression(ts, pos, interpolation) matches Parsed::Done { value, at }
                && alike_expressions(e, value) && at == (if ts[end as int].class == TokenKind::Eol {
                end + 1
            } else {
                end
            })
        }),
    decreases e,
{
    match e {
        ExpressionView::Variable { name, token } => {
            lemma_stands_one(ts, pos, TokenKind::Name, name);
        },
        ExpressionView::String { contents } => {
            let lexeme = seq!['"'] + contents + seq!['"'];
            lemma_stands_one(ts, pos, TokenKind::StringToken, lexeme);
            lemma_quoted(lexeme);
            assert(contents =~= seq![lexeme[1]]);
        },
        ExpressionView::Concatination { lhs, rhs } => {
            let first = expression_bares(*lhs);
            let plus = one(TokenKind::Plus, seq!['+']);
            let rest = expression_bares(*rhs);
            assert(expression_bares(e) =~= first + (plus + rest));
            lemma_stands(ts, pos, first, plus + rest);
            lemma_stands(ts, pos + first.len(), plus, rest);
            lemma_stands_one(ts, pos + first.len(), TokenKind::Plus, seq!['+']);
            assert(first.len() == 1);
            lemma_leaf_parsed(ts, pos, *lhs);
            lemma_expression_parsed(ts, pos + 2, interpolation, *rhs);
        },
    }
}

/// The token of a leaf is parsed as one that is alike.
proof fn lemma_leaf_parsed(ts: Seq<TokenView>, pos: nat, e: ExpressionView)
    requires
        plain_expression(e),
        e !is Concatination,
        stands(ts, pos, expression_bares(e)),
    ensures
        ts[pos as int].class == TokenKind::Name || ts[pos as int].class == TokenKind::StringToken,
        parse_leaf(ts[pos as int]) matches Some(leaf) && alike_expressions(e, leaf),
{
    match e {
        ExpressionView::Variable { name, token } => {
            lemma_stands_one(ts, pos, TokenKind::Name, name);
        },
        ExpressionView::String { contents } => {
            let lexeme = seq!['"'] + contents + seq!['"'];
            lemma_stands_one(ts, pos, TokenKind::StringToken, lexeme);
            lemma_quoted(lexeme);
            assert(contents =~= seq![lexeme[1]]);
        },
        ExpressionView::Concatination { lhs, rhs } => {},
    }
}

/// The tokens of names are parsed as those names.
proof fn lemma_names_parsed(
    ts: Seq<TokenView>,
    pos: nat,
    recipe: Seq<char>,
    arguments: bool,
    done: Seq<TokenView>,
    names: Seq<Seq<char>>,
)
    requires
        stands(ts, pos, names_bares(names)),
        pos + names.len() < ts.len(),
        ts[(pos + names.len()) as int].class != TokenKind::Name,
        (lexemes(done) + names).no_duplicates(),
    ensures
        parse_names(ts, pos, recipe, arguments, done) matches Parsed::Done { value, at }
            && lexemes(value) == lexemes(done) + names && at == pos + names.len(),
    decreases names.len(),
{
    let all = lexemes(done) + names;
    if names.len() > 0 {
        let token = ts[pos as int];
        let rest = names.skip(1);
        let more = done.push(token);
        assert(token.bare() == names_bares(names)[0]);
        assert(token.lexeme == names[0]);
        if lexemes(done).contains(token.lexeme) {
            let k = choose|k: int| 0 <= k < lexemes(done).len() && lexemes(done)[k] == names[0];
            assert(all[k] == all[lexemes(done).len() as int]);
        }
        assert(lexemes(more) =~= lexemes(done).push(names[0]));
        assert(lexemes(more) + rest =~= all);
        assert forall|i: int| pos + 1 <= i < pos + 1 + names_bares(rest).len() implies (
        #[trigger] ts[i]).bare() == names_bares(rest)[i - (pos + 1)] by {
            assert(ts[i].bare() == names_bares(names)[i - pos]);
        }
        lemma_names_parsed(ts, pos + 1, recipe, arguments, more, rest);
    } else {
        assert(lexemes(done) + names =~= lexemes(done));
    }
}

/// The tokens of the pieces of a line are parsed as a line that is alike.
#[verifier::rlimit(30)]
proof fn lemma_pieces_parsed(
    ts: Seq<TokenView>,
    pos: nat,
    first_line: bool,
    shebang: bool,
    line: Seq<FragmentView>,
    i: nat,
    done: Seq<FragmentView>,
)
    requires
        i <= line.len(),
        forall|k: int| 0 <= k < line.len() ==> #[trigger] plain_piece(line, k),
        alike_lines(line.take(i as int), done),
        stands(ts, pos, pieces_bares(line, i)),
        pos + pieces_bares(line, i).len() < ts.len(),
        ({
            let class = ts[(pos + pieces_bares(line, i).len()) as int].class;
            class == TokenKind::Eol || class == TokenKind::Dedent
        }),
        first_line || !begins_extra(line, shebang),
    ensures
        ({
            let end = pos + pieces_bares(line, i).len();
            parse_pieces(ts, pos, first_line, shebang, done) matches Parsed::Done { value, at }
                && alike_lines(line, value.0) && value.1 == (shebang || (i == 0 && first_line
                && starts_script(line))) && at == (if ts[end as int].class == TokenKind::Eol {
                end + 1
            } else {
                end
            })
        }),
    decreases line.len() - i,
{
    if i < line.len() {
        let piece = line[i as int];
        let rest = pieces_bares(line, i + 1);
        assert(plain_piece(line, i as int));
        lemma_stands(ts, pos, piece_bares(piece), rest);
        match piece {
            FragmentView::Text { text } => {
                lemma_stands_one(ts, pos, TokenKind::Text, text.lexeme);
                let token = ts[pos as int];
                let starts = done.len() == 0 && first_line && is_shebang(
                    token.lexeme,
                );
                let parsed = FragmentView::Text { text: token };
                lemma_alike_push(line, i as int, done, parsed);
                lemma_pieces_parsed(
                    ts,
                    pos + 1,
                    first_line,
                    shebang || starts,
                    line,
                    i + 1,
                    done.push(parsed),
                );
            },
            FragmentView::Expression { expression } => {
                let open = one(TokenKind::InterpolationStart, seq!['{', '{']);
                let inner = expression_bares(expression);
                let close = one(TokenKind::InterpolationEnd, seq!['}', '}']);
                assert(piece_bares(piece) =~= open + (inner + close));
                lemma_stands(ts, pos, open, inner + close);
                lemma_stands(ts, pos + 1, inner, close);
                lemma_stands_one(ts, pos, TokenKind::InterpolationStart, seq!['{', '{']);
                let end = pos + 1 + inner.len();
                lemma_stands_one(ts, end, TokenKind::InterpolationEnd, seq!['}', '}']);
                lemma_expression_parsed(ts, pos + 1, true, expression);
                let value = parse_expression(ts, pos + 1, true)->value;
                let parsed = FragmentView::Expression { expression: value };
                lemma_alike_push(line, i as int, done, parsed);
                lemma_pieces_parsed(
                    ts,
                    end + 1,
                    first_line,
                    shebang,
                    line,
                    i + 1,
                    done.push(parsed),
                );
            },
        }
    } else {
        assert(line.take(i as int) =~= line);
    }
}

/// A line that is alike stays so with one more piece that is alike.
proof fn lemma_alike_push(
    line: Seq<FragmentView>,
    i: int,
    done: Seq<FragmentView>,
    piece: FragmentView,
)
    requires
        0 <= i < line.len(),
        alike_lines(line.take(i), done),
        alike_pieces(line[i], piece),
    ensures
        alike_lines(line.take(i + 1), done.push(piece)),
{
    let more = done.push(piece);
    assert forall|k: int| 0 <= k < more.len() implies alike_pieces(
        #[trigger] line.take(i + 1)[k],
        more[k],
    ) by {
        if k < i {
            assert(alike_pieces(line.take(i)[k], done[k]));
        }
    }
}

/// Bodies that are alike stay so with one more line that is alike.
proof fn lemma_alike_line_push(
    lines: Seq<Seq<FragmentView>>,
    i: int,
    done: Seq<Seq<FragmentView>>,
    line: Seq<FragmentView>,
)
    requires
        0 <= i < lines.len(),
        alike_bodies(lines.take(i), done),
        alike_lines(lines[i], line),
    ensures
        alike_bodies(lines.take(i + 1), done.push(line)),
{
    let more = done.push(line);
    assert forall|k: int| 0 <= k < more.len() implies alike_lines(
        #[trigger] lines.take(i + 1)[k],
        more[k],
    ) by {
        if k < i {
            assert(alike_lines(lines.take(i)[k], done[k]));
        }
    }
}

/// Where the tokens of a line and of the lines after it stand.
proof fn lemma_line_placed(
    ts: Seq<TokenView>,
    pos: nat,
    lines: Seq<Seq<FragmentView>>,
    i: nat,
    last: bool,
)
    requires
        i < lines.len(),
        stands(ts, pos, lines_bares(lines, i, last)),
        pos + lines_bares(lines, i, last).len() < ts.len(),
        ts[(pos + lines_bares(lines, i, last).len()) as int].class == TokenKind::Dedent,
    ensures
        pos < ts.len(),
        ts[pos as int].class == TokenKind::Line,
        stands(ts, pos + 1, pieces_bares(lines[i as int], 0)),
        ({
            let stop = pos + 1 + pieces_bares(lines[i as int], 0).len();
            let next = if ts[stop as int].class == TokenKind::Eol {
                stop + 1
            } else {
                stop
            };
            &&& stop < ts.len()
            &&& ts[stop as int].class == TokenKind::Eol || ts[stop as int].class
                == TokenKind::Dedent
            &&& stands(ts, next, lines_bares(lines, i + 1, last))
            &&& next + lines_bares(lines, i + 1, last).len() == pos + lines_bares(
                lines,
                i,
                last,
            ).len()
        }),
{
    let start = one(TokenKind::Line, Seq::empty());
    let pieces = pieces_bares(lines[i as int], 0);
    let end = after_item(last && i + 1 == lines.len());
    let rest = lines_bares(lines, i + 1, last);
    assert(lines_bares(lines, i, last) =~= start + (pieces + (end + rest)));
    lemma_stands(ts, pos, start, pieces + (end + rest));
    lemma_stands(ts, pos + 1, pieces, end + rest);
    let stop = pos + 1 + pieces.len();
    lemma_stands(ts, stop, end, rest);
    lemma_stands_one(ts, pos, TokenKind::Line, Seq::empty());
    if last && i + 1 == lines.len() {
        assert(rest.len() == 0);
    } else {
        lemma_stands_one(ts, stop, TokenKind::Eol, seq!['\n']);
    }
}

/// The tokens of the lines of a recipe are parsed as lines that are alike.
#[verifier::rlimit(30)]
proof fn lemma_lines_parsed(
    ts: Seq<TokenView>,
    pos: nat,
    shebang: bool,
    lines: Seq<Seq<FragmentView>>,
    i: nat,
    last: bool,
    done: Seq<Seq<FragmentView>>,
)
    requires
        i <= lines.len(),
        plain_body(lines, lines.len() > 0 && starts_script(lines[0])),
        shebang == (i > 0 && starts_script(lines[0])),
        alike_bodies(lines.take(i as int), done),
        stands(ts, pos, lines_bares(lines, i, last)),
        pos + lines_bares(lines, i, last).len() < ts.len(),
        ts[(pos + lines_bares(lines, i, last).len()) as int].class == TokenKind::Dedent,
    ensures
        parse_lines(ts, pos, shebang, done) matches Parsed::Done { value, at } && alike_bodies(
            lines,
            value.0,
        ) && value.1 == (lines.len() > 0 && starts_script(lines[0])) && at == pos + lines_bares(
            lines,
            i,
            last,
        ).len() + 1,
    decreases lines.len() - i,
{
    if i < lines.len() {
        let line = lines[i as int];
        lemma_line_placed(ts, pos, lines, i, last);
        assert(plain_line(line));
        assert(line.take(0) =~= Seq::<FragmentView>::empty());
        assert(i > 0 ==> !begins_extra(line, shebang));
        lemma_pieces_parsed(ts, pos + 1, done.len() == 0, shebang, line, 0, Seq::empty());
        if let Parsed::Done { value, at } = parse_pieces(
            ts,
            pos + 1,
            done.len() == 0,
            shebang,
            Seq::empty(),
        ) {
            let more = done.push(value.0);
            lemma_alike_line_push(lines, i as int, done, value.0);
            lemma_lines_parsed(ts, at, value.1, lines, i + 1, last, more);
        }
    } else {
        assert(lines.take(i as int) =~= lines);
    }
}

/// The tokens of a recipe are parsed as one that is alike.
#[verifier::rlimit(30)]
proof fn lemma_recipe_parsed(
    ts: Seq<TokenView>,
    pos: nat,
    r: RecipeView,
    line_number: nat,
    last: bool,
)
    requires
        plain_recipe(r),
        stands(ts, pos, recipe_bares(r, last)),
        pos + recipe_bares(r, last).len() < ts.len(),
        ({
            let class = ts[(pos + recipe_bares(r, last).len()) as int].class;
            if last {
                class == TokenKind::Eof
            } else {
                class == TokenKind::Name
            }
        }),
    ensures
        parse_recipe(ts, pos, r.name, line_number) matches Parsed::Done { value, at }
            && alike_recipes(r, value) && at == pos + recipe_bares(r, last).len(),
{
    let arguments = names_bares(r.arguments);
    let colon = one(TokenKind::Colon, seq![':']);
    let dependencies = names_bares(r.dependencies);
    let tail = recipe_tail_bares(r, last);
    assert(recipe_bares(r, last) =~= arguments + (colon + (dependencies + tail)));
    lemma_stands(ts, pos, arguments, colon + (dependencies + tail));
    let at = pos + r.arguments.len();
    lemma_stands(ts, at, colon, dependencies + tail);
    lemma_stands_one(ts, at, TokenKind::Colon, seq![':']);
    lemma_stands(ts, at + 1, dependencies, tail);
    let end = at + 1 + r.dependencies.len();
    let none = Seq::<TokenView>::empty();
    assert(lexemes(none) + r.arguments =~= r.arguments);
    assert(lexemes(none) + r.dependencies =~= r.dependencies);
    lemma_names_parsed(ts, pos, r.name, true, none, r.arguments);
    lemma_tail_parsed(ts, end, r, last);
    lemma_names_parsed(ts, at + 1, r.name, false, none, r.dependencies);
}

/// The tokens of a recipe after its dependencies are parsed as its lines.
proof fn lemma_tail_parsed(ts: Seq<TokenView>, pos: nat, r: RecipeView, last: bool)
    requires
        plain_recipe(r),
        stands(ts, pos, recipe_tail_bares(r, last)),
        pos + recipe_tail_bares(r, last).len() < ts.len(),
        ({
            let class = ts[(pos + recipe_tail_bares(r, last).len()) as int].class;
            if last {
                class == TokenKind::Eof
            } else {
                class == TokenKind::Name
            }
        }),
    ensures
        ts[pos as int].class == TokenKind::Eol || ts[pos as int].class == TokenKind::Eof,
        ({
            let body = if ts[pos as int].class == TokenKind::Eol {
                pos + 1
            } else {
                pos
            };
            parse_body(ts, body) matches Parsed::Done { value, at } && alike_bodies(
                r.lines,
                value.0,
            ) && value.1 == r.shebang && at == pos + recipe_tail_bares(r, last).len()
        }),
{
    if r.lines.len() == 0 {
        if !last {
            lemma_stands_one(ts, pos, TokenKind::Eol, seq!['\n']);
        }
    } else {
        let indent = one(TokenKind::Indent, Seq::empty());
        let lines = lines_bares(r.lines, 0, last);
        let dedent = one(TokenKind::Dedent, Seq::empty());
        assert(recipe_tail_bares(r, last) =~= eol() + (indent + (lines + dedent)));
        lemma_stands(ts, pos, eol(), indent + (lines + dedent));
        lemma_stands(ts, pos + 1, indent, lines + dedent);
        lemma_stands(ts, pos + 2, lines, dedent);
        lemma_stands_one(ts, pos, TokenKind::Eol, seq!['\n']);
        lemma_stands_one(ts, pos + 1, TokenKind::Indent, Seq::empty());
        lemma_stands_one(ts, pos + 2 + lines.len(), TokenKind::Dedent, Seq::empty());
        assert(r.lines.take(0) =~= Seq::<Seq<FragmentView>>::empty());
        lemma_lines_parsed(ts, pos + 2, false, r.lines, 0, last, Seq::empty());
    }
}

/// Whether `done` are the first `k` items of a justfile, but for where their tokens stand.
pub open spec fn items_so_far(j: JustfileView, k: nat, done: Items) -> bool {
    let m = j.assignments.len();
    if k <= m {
        &&& alike_assignments(j.assignments.take(k as int), done.assignments)
        &&& done.recipes.len() == 0
    } else {
        &&& alike_assignments(j.assignments, done.assignments)
        &&& alike_tables(j.recipes.take(k - m), done.recipes)
    }
}

/// The first items stay so with one more assignment that is alike.
proof fn lemma_assigned_so_far(
    j: JustfileView,
    k: nat,
    done: Items,
    token: TokenView,
    value: ExpressionView,
)
    requires
        j.is_plain(),
        k < j.assignments.len(),
        items_so_far(j, k, done),
        token.lexeme == j.assignments[k as int].0,
        alike_expressions(j.assignments[k as int].1, value),
    ensures
        !is_key(done.assignments, token.lexeme),
        items_so_far(j, k + 1, done.assigned(token, value)),
{
    let before = j.assignments.take(k as int);
    let more = done.assigned(token, value);
    assert forall|i: int| 0 <= i < done.assignments.len() implies is_before(
        (#[trigger] done.assignments[i]).0,
        token.lexeme,
    ) by {
        assert(before[i].0 == done.assignments[i].0);
        assert(j.assignments[i] == before[i]);
    }
    lemma_inserted_last(done.assignments, token.lexeme, value);
    let then = j.assignments.take(k as int + 1);
    assert forall|i: int| 0 <= i < then.len() implies (#[trigger] then[i]).0
        == more.assignments[i].0 && alike_expressions(then[i].1, more.assignments[i].1) by {
        if i < k {
            assert(before[i].0 == done.assignments[i].0);
            assert(alike_expressions(before[i].1, done.assignments[i].1));
        }
    }
}

/// The first items stay so with one more recipe that is alike.
proof fn lemma_defined_so_far(
    j: JustfileView,
    k: nat,
    done: Items,
    token: TokenView,
    recipe: RecipeView,
)
    requires
        j.is_plain(),
        j.assignments.len() <= k < j.items(),
        items_so_far(j, k, done),
        token.lexeme == j.recipes[k - j.assignments.len()].0,
        alike_recipes(j.recipes[k - j.assignments.len()].1, recipe),
    ensures
        lookup(done.recipes, token.lexeme) is None,
        items_so_far(j, k + 1, done.defined(token, recipe)),
{
    let n = k - j.assignments.len();
    let before = j.recipes.take(n);
    let more = done.defined(token, recipe);
    assert(j.assignments.take(j.assignments.len() as int) =~= j.assignments);
    assert(alike_assignments(j.assignments, done.assignments));
    assert(alike_tables(before, done.recipes));
    assert forall|i: int| 0 <= i < done.recipes.len() implies is_before(
        (#[trigger] done.recipes[i]).0,
        token.lexeme,
    ) by {
        assert(before[i].0 == done.recipes[i].0);
        assert(j.recipes[i] == before[i]);
    }
    lemma_inserted_last(done.recipes, token.lexeme, recipe);
    let then = j.recipes.take(n + 1);
    assert forall|i: int| 0 <= i < then.len() implies (#[trigger] then[i]).0 == more.recipes[i].0
        && alike_recipes(then[i].1, more.recipes[i].1) by {
        if i < n {
            assert(before[i].0 == done.recipes[i].0);
            assert(alike_recipes(before[i].1, done.recipes[i].1));
        }
    }
}

/// After an item comes the name of the next, or the end.
proof fn lemma_after_item(ts: Seq<TokenView>, pos: nat, j: JustfileView, k: nat)
    requires
        k < j.items(),
        stands(ts, pos, items_bares(j, k + 1)),
    ensures
        pos < ts.len(),
        ts[pos as int].class == (if k + 1 == j.items() {
            TokenKind::Eof
        } else {
            TokenKind::Name
        }),
{
    let next = items_bares(j, k + 1);
    if k + 1 == j.items() {
        lemma_stands_one(ts, pos, TokenKind::Eof, Seq::empty());
    } else {
        assert(ts[pos as int].bare() == next[0]);
        assert(next[0].class == TokenKind::Name);
    }
}

/// The tokens of the items of a justfile are parsed as items that are alike.
#[verifier::rlimit(50)]
pub proof fn lemma_items_parsed(
    text: Seq<char>,
    ts: Seq<TokenView>,
    pos: nat,
    j: JustfileView,
    k: nat,
    done: Items,
)
    requires
        j.is_plain(),
        k <= j.items(),
        items_so_far(j, k, done),
        stands(ts, pos, items_bares(j, k)),
        ts.len() == pos + items_bares(j, k).len(),
    ensures
        parse_items(text, ts, pos, done) matches Parsed::Done { value, at } && at == ts.len()
            && alike_assignments(j.assignments, value.assignments) && alike_tables(
            j.recipes,
            value.recipes,
        ),
    decreases j.items() - k,
{
    let m = j.assignments.len();
    if k == j.items() {
        lemma_stands_one(ts, pos, TokenKind::Eof, Seq::empty());
        assert(j.recipes.take(k - m) =~= j.recipes);
        assert(j.assignments.take(m as int) =~= j.assignments);
    } else {
        let last = k + 1 == j.items();
        let rest = items_bares(j, k + 1);
        lemma_stands(ts, pos, item_bares(j, k as int), rest);
        let end = pos + item_bares(j, k as int).len();
        lemma_after_item(ts, end, j, k);
        if k < m {
            let entry = j.assignments[k as int];
            let name = one(TokenKind::Name, entry.0);
            let equals = one(TokenKind::Equals, seq!['=']);
            let inner = expression_bares(entry.1);
            let stop = after_item(last);
            assert(item_bares(j, k as int) =~= name + (equals + (inner + stop)));
            lemma_stands(ts, pos, name, equals + (inner + stop));
            lemma_stands(ts, pos + 1, equals, inner + stop);
            lemma_stands(ts, pos + 2, inner, stop);
            lemma_stands_one(ts, pos, TokenKind::Name, entry.0);
            lemma_stands_one(ts, pos + 1, TokenKind::Equals, seq!['=']);
            if !last {
                lemma_stands_one(ts, pos + 2 + inner.len(), TokenKind::Eol, seq!['\n']);
            }
            lemma_expression_parsed(ts, pos + 2, false, entry.1);
            let value = parse_expression(ts, pos + 2, false)->Done_value;
            lemma_assigned_so_far(j, k, done, ts[pos as int], value);
            lemma_items_parsed(text, ts, end, j, k + 1, done.assigned(ts[pos as int], value));
        } else {
            let entry = j.recipes[k - m];
            let name = one(TokenKind::Name, entry.0);
            assert(plain_recipe(entry.1));
            lemma_stands(ts, pos, name, recipe_bares(entry.1, last));
            lemma_stands_one(ts, pos, TokenKind::Name, entry.0);
            let token = ts[pos as int];
            lemma_recipe_parsed(ts, pos + 1, entry.1, token.line, last);
            let value = parse_recipe(ts, pos + 1, entry.0, token.line)->Done_value;
            lemma_not_equals(ts, pos + 1, entry.1, last);
            lemma_defined_so_far(j, k, done, token, value);
            lemma_items_parsed(text, ts, end, j, k + 1, done.defined(token, value));
        }
    }
}

/// No equals sign follows the name of a recipe.
proof fn lemma_not_equals(ts: Seq<TokenView>, pos: nat, r: RecipeView, last: bool)
    requires
        stands(ts, pos, recipe_bares(r, last)),
    ensures
        pos < ts.len(),
        ts[pos as int].class != TokenKind::Equals,
{
    let bares = recipe_bares(r, last);
    assert(ts[pos as int].bare() == bares[0]);
    if r.arguments.len() > 0 {
        assert(bares[0] == names_bares(r.arguments)[0]);
    } else {
        assert(bares[0].class == TokenKind::Colon);
    }
}

} // verus!
