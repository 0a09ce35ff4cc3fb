//! The tokens of a justfile that is written out, and what makes it one that they can be read from.

use vstd::prelude::*;

use crate::expression::ExpressionView;
use crate::justfile::JustfileView;
use crate::parse_laws::starts_script;
use crate::parser::is_extra;
use crate::pattern::{has_content, is_blank, is_good_name, is_lower_or_digit};
use crate::recipe::{FragmentView, RecipeView};
use crate::table::{is_sorted, lookup};
use crate::token::{TokenKind, TokenView};
use crate::token_laws::all_blank;

verus! {

/// A token without its place.
#[verifier::ext_equal]
pub struct Bare {
    pub class: TokenKind,
    pub lexeme: Seq<char>,
}

impl TokenView {
    /// The token without its place.
    pub open spec fn bare(self) -> Bare {
        Bare { class: self.class, lexeme: self.lexeme }
    }
}

/// One token of class `class` with the characters `lexeme`.
pub open spec fn one(class: TokenKind, lexeme: Seq<char>) -> Seq<Bare> {
    seq![Bare { class, lexeme }]
}

/// The end of a line.
pub open spec fn eol() -> Seq<Bare> {
    one(TokenKind::Eol, seq!['\n'])
}

/// Whether `bares` stand among the tokens from the one at `pos` on.
pub open spec fn stands(ts: Seq<TokenView>, pos: nat, bares: Seq<Bare>) -> bool {
    &&& pos + bares.len() <= ts.len()
    &&& forall|i: int|
        pos <= i < pos + bares.len() ==> (#[trigger] ts[i]).bare() == bares[i - pos]
}

/// Whether an expression is one that is parsed: no sum is the first part of another, names are
/// good ones, and strings hold one character.
pub open spec fn plain_expression(e: ExpressionView) -> bool
    decreases e,
{
    match e {
        ExpressionView::Variable { name, token } => is_good_name(name) && name == token.lexeme,
        ExpressionView::String { contents } => contents.len() == 1 && is_lower_or_digit(contents[0]),
        ExpressionView::Concatination { lhs, rhs } => {
            &&& *lhs !is Concatination
            &&& plain_expression(*lhs)
            &&& plain_expression(*rhs)
        },
    }
}

/// The tokens of an expression.
pub open spec fn expression_bares(e: ExpressionView) -> Seq<Bare>
    decreases e,
{
    match e {
        ExpressionView::Variable { name, token } => one(TokenKind::Name, name),
        ExpressionView::String { contents } => one(
            TokenKind::StringToken,
            seq!['"'] + contents + seq!['"'],
        ),
        ExpressionView::Concatination { lhs, rhs } => expression_bares(*lhs) + one(
            TokenKind::Plus,
            seq!['+'],
        ) + expression_bares(*rhs),
    }
}

/// The tokens of names.
pub open spec fn names_bares(names: Seq<Seq<char>>) -> Seq<Bare> {
    names.map_values(|n: Seq<char>| Bare { class: TokenKind::Name, lexeme: n })
}

/// Whether a text is one on a line: it holds no line feed, and no two braces in a row, not even
/// with those of an interpolation after it.
pub open spec fn clean(lexeme: Seq<char>, braces: bool) -> bool {
    &&& lexeme.len() > 0
    &&& forall|i: int| 0 <= i < lexeme.len() ==> #[trigger] lexeme[i] != '\n'
    &&& forall|i: int|
        0 <= i < lexeme.len() - 1 && #[trigger] lexeme[i] == '{' ==> lexeme[i + 1] != '{'
    &&& braces ==> lexeme.last() != '{'
}

/// Whether the piece at `i` of a line is one that is parsed: a text stands between interpolations.
pub open spec fn plain_piece(line: Seq<FragmentView>, i: int) -> bool {
    match line[i] {
        FragmentView::Text { text } => {
            &&& clean(text.lexeme, i + 1 < line.len())
            &&& i + 1 < line.len() ==> line[i + 1] is Expression
        },
        FragmentView::Expression { expression } => plain_expression(expression),
    }
}

/// Whether there is more on a line than blanks, and no line break before that.
pub open spec fn has_start(line: Seq<FragmentView>) -> bool {
    &&& line.len() > 0
    &&& line[0] matches FragmentView::Text { text } ==> has_content(text.lexeme) || (line.len() > 1
        && all_blank(text.lexeme))
}

/// Whether a line is one that is parsed.
pub open spec fn plain_line(line: Seq<FragmentView>) -> bool {
    &&& has_start(line)
    &&& forall|i: int| 0 <= i < line.len() ==> #[trigger] plain_piece(line, i)
}

/// Whether a line begins with a blank.
pub open spec fn begins_blank(line: Seq<FragmentView>) -> bool {
    line.len() > 0 && (line[0] matches FragmentView::Text { text } && text.lexeme.len() > 0
        && is_blank(text.lexeme[0]))
}

/// Whether a line that is not the first begins as it may not.
pub open spec fn begins_extra(line: Seq<FragmentView>, shebang: bool) -> bool {
    line.len() > 0 && (line[0] matches FragmentView::Text { text } && is_extra(
        text.lexeme,
        shebang,
    ))
}

/// Whether the lines of a recipe are such as are parsed.
pub open spec fn plain_body(lines: Seq<Seq<FragmentView>>, shebang: bool) -> bool {
    &&& forall|i: int| 0 <= i < lines.len() ==> plain_line(#[trigger] lines[i])
    &&& lines.len() > 0 ==> !begins_blank(lines[0])
    &&& forall|i: int| 1 <= i < lines.len() ==> !begins_extra(#[trigger] lines[i], shebang)
    &&& shebang == (lines.len() > 0 && starts_script(lines[0]))
}

/// Whether all of `names` are good ones.
pub open spec fn all_good(names: Seq<Seq<char>>) -> bool {
    forall|i: int| 0 <= i < names.len() ==> is_good_name(#[trigger] names[i])
}

/// Whether a recipe is one that is parsed.
pub open spec fn plain_recipe(r: RecipeView) -> bool {
    &&& r.is_well_made()
    &&& is_good_name(r.name)
    &&& all_good(r.arguments)
    &&& all_good(r.dependencies)
    &&& plain_body(r.lines, r.shebang)
}

/// Whether all of `value` are lowercase letters and digits.
pub open spec fn plain_value(value: Seq<char>) -> bool {
    forall|i: int| 0 <= i < value.len() ==> is_lower_or_digit(#[trigger] value[i])
}

impl JustfileView {
    /// Whether the justfile is one that is parsed.
    pub open spec fn is_plain(self) -> bool {
        &&& is_sorted(self.recipes)
        &&& is_sorted(self.assignments)
        &&& forall|i: int|
            0 <= i < self.recipes.len() ==> plain_recipe((#[trigger] self.recipes[i]).1)
                && self.recipes[i].1.name == self.recipes[i].0
        &&& forall|i: int|
            0 <= i < self.assignments.len() ==> is_good_name((#[trigger] self.assignments[i]).0)
                && plain_expression(self.assignments[i].1) && plain_value(
                lookup(self.values, self.assignments[i].0)->0,
            )
    }

    /// How many assignments and recipes there are.
    pub open spec fn items(self) -> nat {
        self.assignments.len() + self.recipes.len()
    }

    /// Whether the last thing that is written is a line that ends in blanks, after an
    /// interpolation.
    pub open spec fn ends_in_blanks(self) -> bool {
        self.recipes.len() > 0 && body_ends_in_blanks(self.recipes.last().1.lines)
    }
}

/// Whether the last of lines ends in blanks, after an interpolation.
pub open spec fn body_ends_in_blanks(lines: Seq<Seq<FragmentView>>) -> bool {
    lines.len() > 0 && line_ends_in_blanks(lines.last())
}

/// Whether a line ends in a text that is blank.
pub open spec fn line_ends_in_blanks(line: Seq<FragmentView>) -> bool {
    line.len() > 0 && (line.last() matches FragmentView::Text { text } && all_blank(text.lexeme))
}

/// The tokens of a piece of a line.
pub open spec fn piece_bares(piece: FragmentView) -> Seq<Bare> {
    match piece {
        FragmentView::Text { text } => one(TokenKind::Text, text.lexeme),
        FragmentView::Expression { expression } => one(
            TokenKind::InterpolationStart,
            seq!['{', '{'],
        ) + expression_bares(expression) + one(TokenKind::InterpolationEnd, seq!['}', '}']),
    }
}

/// The tokens of the pieces of a line from the one at `i` on.
pub open spec fn pieces_bares(line: Seq<FragmentView>, i: nat) -> Seq<Bare>
    decreases line.len() - i,
{
    if i >= line.len() {
        Seq::empty()
    } else {
        piece_bares(line[i as int]) + pieces_bares(line, i + 1)
    }
}

/// What stands after an item or a line: the end of the line, if it is not the last thing written.
pub open spec fn after_item(last: bool) -> Seq<Bare> {
    if last {
        Seq::empty()
    } else {
        eol()
    }
}

/// The tokens of the lines of a recipe from the one at `i` on. The last may be the last thing that
/// is written.
pub open spec fn lines_bares(lines: Seq<Seq<FragmentView>>, i: nat, last: bool) -> Seq<Bare>
    decreases lines.len() - i,
{
    if i >= lines.len() {
        Seq::empty()
    } else {
        one(TokenKind::Line, Seq::empty()) + pieces_bares(lines[i as int], 0) + after_item(
            last && i + 1 == lines.len(),
        ) + lines_bares(lines, i + 1, last)
    }
}

/// The tokens of a recipe after its name and arguments.
pub open spec fn recipe_tail_bares(r: RecipeView, last: bool) -> Seq<Bare> {
    if r.lines.len() == 0 {
        after_item(last)
    } else {
        eol() + one(TokenKind::Indent, Seq::empty()) + lines_bares(r.lines, 0, last) + one(
            TokenKind::Dedent,
            Seq::empty(),
        )
    }
}

/// The tokens of a recipe after its name.
pub open spec fn recipe_bares(r: RecipeView, last: bool) -> Seq<Bare> {
    names_bares(r.arguments) + one(TokenKind::Colon, seq![':']) + names_bares(r.dependencies)
        + recipe_tail_bares(r, last)
}

/// The tokens of an assignment after its name.
pub open spec fn assignment_bares(e: ExpressionView, last: bool) -> Seq<Bare> {
    one(TokenKind::Equals, seq!['=']) + expression_bares(e) + after_item(last)
}

/// The tokens of the `k`th item of a justfile: the assignments come first, and then the recipes.
pub open spec fn item_bares(j: JustfileView, k: int) -> Seq<Bare> {
    let last = k + 1 == j.items();
    if k < j.assignments.len() {
        one(TokenKind::Name, j.assignments[k].0) + assignment_bares(j.assignments[k].1, last)
    } else {
        let entry = j.recipes[k - j.assignments.len()];
        one(TokenKind::Name, entry.0) + recipe_bares(entry.1, last)
    }
}

/// The tokens of the items of a justfile from the `k`th on.
pub open spec fn items_bares(j: JustfileView, k: nat) -> Seq<Bare>
    decreases j.items() - k,
{
    if k >= j.items() {
        one(TokenKind::Eof, Seq::empty())
    } else {
        item_bares(j, k as int) + items_bares(j, k + 1)
    }
}

/// What stands first among what stands, stands; and so does what comes after it.
pub proof fn lemma_stands(ts: Seq<TokenView>, pos: nat, a: Seq<Bare>, b: Seq<Bare>)
    requires
        stands(ts, pos, a + b),
    ensures
        stands(ts, pos, a),
        stands(ts, pos + a.len(), b),
{
    assert forall|i: int| pos <= i < pos + a.len() implies (#[trigger] ts[i]).bare() == a[i - pos] by {
        assert((a + b)[i - pos] == a[i - pos]);
    }
    assert forall|i: int| pos + a.len() <= i < pos + a.len() + b.len() implies (
    #[trigger] ts[i]).bare() == b[i - (pos + a.len())] by {
        assert((a + b)[i - pos] == b[i - pos - a.len()]);
    }
}

/// What stands alone is the token there.
pub proof fn lemma_stands_one(ts: Seq<TokenView>, pos: nat, class: TokenKind, lexeme: Seq<char>)
    requires
        stands(ts, pos, one(class, lexeme)),
    ensures
        pos < ts.len(),
        ts[pos as int].class == class,
        ts[pos as int].lexeme == lexeme,
{
    assert(ts[pos as int].bare() == one(class, lexeme)[0]);
}

} // verus!
