//! The grammar of justfiles: which tokens spell an expression, a line, a recipe or a justfile.

use vstd::prelude::*;

use crate::expression::ExpressionView;
use crate::recipe::{FragmentView, RecipeView};
use crate::token::{lexemes, TokenKind, TokenView};

verus! {

/// How many tokens an expression takes.
pub open spec fn width(e: ExpressionView) -> nat
    decreases e,
{
    match e {
        ExpressionView::Concatination { lhs, rhs } => width(*lhs) + 1 + width(*rhs),
        _ => 1,
    }
}

/// Whether tokens of a class are leaves of expressions.
pub open spec fn is_leaf(class: TokenKind) -> bool {
    class == TokenKind::Name || class == TokenKind::StringToken
}

/// Whether `ts` spell an expression: a name, a quoted character, or one of these, a plus, and an
/// expression.
pub open spec fn spells_expression(ts: Seq<TokenView>, e: ExpressionView) -> bool
    decreases e,
{
    match e {
        ExpressionView::Variable { name, token } => {
            &&& ts == seq![token]
            &&& token.class == TokenKind::Name
            &&& name == token.lexeme
        },
        ExpressionView::String { contents } => {
            &&& ts.len() == 1
            &&& ts[0].class == TokenKind::StringToken
            &&& contents.len() == 1
            &&& ts[0].lexeme == seq!['"', contents[0], '"']
        },
        ExpressionView::Concatination { lhs, rhs } => {
            &&& ts.len() > 2
            &&& *lhs !is Concatination
            &&& spells_expression(ts.take(1), *lhs)
            &&& ts[1].class == TokenKind::Plus
            &&& spells_expression(ts.skip(2), *rhs)
        },
    }
}

/// Whether an expression ends before a token of that class.
pub open spec fn ends_expression(class: TokenKind, interpolation: bool) -> bool {
    class == TokenKind::Eol || class == TokenKind::Eof || (interpolation && class
        == TokenKind::InterpolationEnd)
}

/// Whether the tokens from the one at `pos` on spell `e`, and what ends it stands before `at`, if it
/// is the end of a line, or at `at`.
pub open spec fn expression_at(
    ts: Seq<TokenView>,
    pos: nat,
    interpolation: bool,
    e: ExpressionView,
    at: nat,
) -> bool {
    let end = pos + width(e);
    &&& end < ts.len()
    &&& spells_expression(ts.subrange(pos as int, end as int), e)
    &&& ends_expression(ts[end as int].class, interpolation)
    &&& at == if ts[end as int].class == TokenKind::Eol {
        end + 1
    } else {
        end
    }
}

/// Whether the tokens from the one at `pos` on are `n` names, none of which is repeated.
pub open spec fn names_at(ts: Seq<TokenView>, pos: nat, n: nat) -> bool {
    &&& pos + n < ts.len()
    &&& forall|k: int| pos <= k < pos + n ==> (#[trigger] ts[k]).class == TokenKind::Name
    &&& forall|j: int, k: int|
        pos <= j < k < pos + n ==> (#[trigger] ts[j]).lexeme != (#[trigger] ts[k]).lexeme
}

/// How many tokens a piece of a line takes.
pub open spec fn piece_width(piece: FragmentView) -> nat {
    match piece {
        FragmentView::Text { text } => 1,
        FragmentView::Expression { expression } => width(expression) + 2,
    }
}

/// How many tokens the pieces of a line take.
pub open spec fn pieces_width(line: Seq<FragmentView>) -> nat
    decreases line.len(),
{
    if line.len() == 0 {
        0
    } else {
        piece_width(line[0]) + pieces_width(line.skip(1))
    }
}

/// Whether `ts` spell a piece of a line: a text, or an expression between braces.
pub open spec fn spells_piece(ts: Seq<TokenView>, piece: FragmentView) -> bool {
    match piece {
        FragmentView::Text { text } => ts == seq![text] && text.class == TokenKind::Text,
        FragmentView::Expression { expression } => {
            let w = width(expression) as int;
            &&& ts.len() == w + 2
            &&& ts[0].class == TokenKind::InterpolationStart
            &&& spells_expression(ts.subrange(1, w + 1), expression)
            &&& ts[w + 1].class == TokenKind::InterpolationEnd
        },
    }
}

/// Whether `ts` spell the pieces of a line.
pub open spec fn spells_pieces(ts: Seq<TokenView>, line: Seq<FragmentView>) -> bool
    decreases line.len(),
{
    if line.len() == 0 {
        ts.len() == 0
    } else {
        let w = piece_width(line[0]) as int;
        &&& w <= ts.len()
        &&& spells_piece(ts.take(w), line[0])
        &&& spells_pieces(ts.skip(w), line.skip(1))
    }
}

/// Whether `ts` spell the lines of a recipe: blank lines are between them, and the last may end
/// without an end of line.
pub open spec fn spells_lines(ts: Seq<TokenView>, lines: Seq<Seq<FragmentView>>) -> bool
    decreases ts.len(),
{
    if ts.len() == 0 {
        lines.len() == 0
    } else if ts[0].class == TokenKind::Eol {
        spells_lines(ts.skip(1), lines)
    } else {
        let w = pieces_width(lines[0]) as int + 1;
        &&& ts[0].class == TokenKind::Line
        &&& lines.len() > 0
        &&& w <= ts.len()
        &&& spells_pieces(ts.subrange(1, w), lines[0])
        &&& if w == ts.len() {
            lines.len() == 1
        } else {
            ts[w].class == TokenKind::Eol && spells_lines(ts.skip(w + 1), lines.skip(1))
        }
    }
}

/// Whether the first characters of a line are a number sign and an exclamation mark.
pub open spec fn is_script_line(line: Seq<FragmentView>) -> bool {
    line.len() > 0 && (line[0] matches FragmentView::Text { text } && text.lexeme.len() >= 2
        && text.lexeme[0] == '#' && text.lexeme[1] == '!')
}

/// Whether a line begins with the character `c`.
pub open spec fn line_begins(line: Seq<FragmentView>, c: char) -> bool {
    line.len() > 0 && (line[0] matches FragmentView::Text { text } && text.lexeme.len() > 0
        && text.lexeme[0] == c)
}

/// Whether a line may follow others: it does not begin with a tab, and with a space only in a script.
pub open spec fn may_follow(line: Seq<FragmentView>, script: bool) -> bool {
    !line_begins(line, '\t') && (script || !line_begins(line, ' '))
}

/// Whether the lines of a recipe may stand together, where `script` says that they are a script.
pub open spec fn lines_agree(lines: Seq<Seq<FragmentView>>, script: bool) -> bool {
    &&& script == (lines.len() > 0 && is_script_line(lines[0]))
    &&& forall|i: int| 1 <= i < lines.len() ==> may_follow(#[trigger] lines[i], script)
}

/// Whether the tokens from the one at `pos` up to the one at `at` spell the recipe `r` after its
/// name: arguments, a colon, dependencies, and then the end of the justfile, or the end of the line
/// and, if they are indented, lines.
pub open spec fn recipe_at(ts: Seq<TokenView>, pos: nat, r: RecipeView, at: nat) -> bool {
    let a = r.argument_tokens.len();
    let d = r.dependency_tokens.len();
    let colon = pos + a;
    let end = colon + 1 + d;
    &&& end < ts.len()
    &&& names_at(ts, pos, a)
    &&& r.argument_tokens == ts.subrange(pos as int, colon as int)
    &&& r.arguments == lexemes(r.argument_tokens)
    &&& ts[colon as int].class == TokenKind::Colon
    &&& names_at(ts, colon + 1, d)
    &&& r.dependency_tokens == ts.subrange(colon as int + 1, end as int)
    &&& r.dependencies == lexemes(r.dependency_tokens)
    &&& r.evaluated_lines.len() == 0
    &&& lines_agree(r.lines, r.shebang)
    &&& if ts[end as int].class == TokenKind::Eof {
        r.lines.len() == 0 && at == end
    } else {
        &&& ts[end as int].class == TokenKind::Eol
        &&& end + 1 < ts.len()
        &&& if ts[end as int + 1].class == TokenKind::Indent {
            &&& end + 2 < at <= ts.len()
            &&& spells_lines(ts.subrange(end as int + 2, at - 1), r.lines)
            &&& ts[at - 1].class == TokenKind::Dedent
        } else {
            r.lines.len() == 0 && at == end + 1
        }
    }
}

/// What a part of a justfile is.
pub enum Definition {
    Blank,
    Assignment { value: ExpressionView },
    Recipe { recipe: RecipeView },
}

/// A part of a justfile: what it is, and between which tokens it stands.
pub struct Part {
    pub from: nat,
    pub to: nat,
    pub definition: Definition,
}

/// Whether the tokens of a part spell it: an end of line, a name and an expression with an equals
/// sign between them, or a name and the rest of a recipe.
pub open spec fn spells_part(ts: Seq<TokenView>, part: Part) -> bool {
    let from = part.from;
    &&& from < part.to < ts.len()
    &&& match part.definition {
        Definition::Blank => ts[from as int].class == TokenKind::Eol && part.to == from + 1,
        Definition::Assignment { value } => {
            &&& ts[from as int].class == TokenKind::Name
            &&& ts[from as int + 1].class == TokenKind::Equals
            &&& expression_at(ts, from + 2, false, value, part.to)
        },
        Definition::Recipe { recipe } => {
            &&& ts[from as int].class == TokenKind::Name
            &&& ts[from as int + 1].class != TokenKind::Equals
            &&& recipe.name == ts[from as int].lexeme
            &&& recipe.line_number == ts[from as int].line
            &&& recipe_at(ts, from + 1, recipe, part.to)
        },
    }
}

/// Whether two parts define the same name.
pub open spec fn clash(ts: Seq<TokenView>, a: Part, b: Part) -> bool {
    &&& ts[a.from as int].lexeme == ts[b.from as int].lexeme
    &&& (a.definition is Recipe && b.definition is Recipe) || (a.definition is Assignment
        && b.definition is Assignment)
}

/// Whether a part begins where the one before it, at `k`, ends.
pub open spec fn meets(parts: Seq<Part>, k: int) -> bool {
    parts[k].to == parts[k + 1].from
}

/// Whether the first `end` tokens are the tokens of `parts`, one after the other, and no two of these
/// define the same name.
pub open spec fn is_split(ts: Seq<TokenView>, parts: Seq<Part>, end: nat) -> bool {
    &&& parts.len() == 0 ==> end == 0
    &&& parts.len() > 0 ==> parts[0].from == 0 && parts.last().to == end
    &&& forall|k: int| 0 <= k < parts.len() ==> #[trigger] spells_part(ts, parts[k])
    &&& forall|k: int| 0 <= k < parts.len() - 1 ==> #[trigger] meets(parts, k)
    &&& forall|j: int, k: int|
        0 <= j < k < parts.len() ==> !#[trigger] clash(ts, parts[j], parts[k])
}

/// Whether `parts` hold a recipe called `name`.
pub open spec fn defines_recipe(
    ts: Seq<TokenView>,
    parts: Seq<Part>,
    name: Seq<char>,
    recipe: RecipeView,
) -> bool {
    exists|k: int|
        0 <= k < parts.len() && (#[trigger] parts[k]).definition == (Definition::Recipe { recipe })
            && ts[parts[k].from as int].lexeme == name
}

/// Whether `parts` hold an assignment of `value` to `name`.
pub open spec fn defines_variable(
    ts: Seq<TokenView>,
    parts: Seq<Part>,
    name: Seq<char>,
    value: ExpressionView,
) -> bool {
    exists|k: int|
        0 <= k < parts.len() && (#[trigger] parts[k]).definition == (Definition::Assignment {
            value,
        }) && ts[parts[k].from as int].lexeme == name
}

} // verus!
