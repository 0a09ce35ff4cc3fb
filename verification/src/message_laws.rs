//! What messages and written definitions are made of: how lists, numbers, lines and the parts of
//! definitions stand in them.

use vstd::prelude::*;

use crate::error::{alternatives, classes_shown, ErrorKindView, ErrorView};
use crate::expression::ExpressionView;
use crate::justfile::JustfileView;
use crate::recipe::{line_shown, lines_shown, pieces_shown, FragmentView, RecipeView};
use crate::run::{terminated, IoErrorKind, RunErrorView};
use crate::table::lookup;
use crate::text::{byte_len, decimal, digit, joined_by, line_after, line_end, signed_decimal};
use crate::text::{spaced, visible};
use crate::token::TokenKind;

verus! {

/// Parts are joined with the separator between each two of them, and nowhere else.
pub proof fn law_joining(a: Seq<Seq<char>>, b: Seq<Seq<char>>, part: Seq<char>, s: Seq<char>)
    ensures
        joined_by(seq![], s) == Seq::<char>::empty(),
        joined_by(seq![part], s) == part,
        a.len() > 0 && b.len() > 0 ==> joined_by(a + b, s) == joined_by(a, s) + s + joined_by(b, s),
    decreases b.len(),
{
    if a.len() > 0 && b.len() == 1 {
        assert((a + b).drop_last() =~= a);
        assert((a + b).last() == b[0]);
    } else if a.len() > 0 && b.len() > 1 {
        law_joining(a, b.drop_last(), part, s);
        assert((a + b).drop_last() =~= a + b.drop_last());
        assert((a + b).last() == b.last());
        assert(joined_by(a + b, s) =~= joined_by(a, s) + s + joined_by(b, s));
    }
}

/// Each part stands after a space of its own, or before a line feed of its own.
pub proof fn law_spacing(a: Seq<Seq<char>>, b: Seq<Seq<char>>, part: Seq<char>)
    ensures
        spaced(seq![]) == Seq::<char>::empty(),
        spaced(seq![part]) == seq![' '] + part,
        spaced(a + b) == spaced(a) + spaced(b),
        terminated(seq![]) == Seq::<char>::empty(),
        terminated(seq![part]) == part + seq!['\n'],
        terminated(a + b) == terminated(a) + terminated(b),
    decreases b.len(),
{
    reveal_strlit(" ");
    reveal_strlit("\n");
    let one = seq![part];
    assert(one.drop_last() =~= seq![]);
    assert(spaced(one.drop_last()) =~= seq![]);
    assert(terminated(one.drop_last()) =~= seq![]);
    assert(spaced(one) =~= seq![' '] + part);
    assert(terminated(one) =~= part + seq!['\n']);
    if b.len() == 0 {
        assert(a + b =~= a);
        assert(spaced(a + b) =~= spaced(a) + spaced(b));
        assert(terminated(a + b) =~= terminated(a) + terminated(b));
    } else {
        law_spacing(a, b.drop_last(), part);
        assert((a + b).drop_last() =~= a + b.drop_last());
        assert((a + b).last() == b.last());
        assert(spaced(a + b) =~= spaced(a) + spaced(b));
        assert(terminated(a + b) =~= terminated(a) + terminated(b));
    }
}

/// How alternatives are put: the last two with an "or", after a comma if there are more than two, and
/// the others with commas.
pub proof fn law_alternatives(x: Seq<char>, y: Seq<char>, z: Seq<char>, items: Seq<Seq<char>>)
    ensures
        alternatives(seq![]) == Seq::<char>::empty(),
        alternatives(seq![x]) == x,
        alternatives(seq![x, y]) == x + " or "@ + y,
        alternatives(seq![x, y, z]) == x + ", "@ + y + ", or "@ + z,
        items.len() >= 3 ==> alternatives(seq![x] + items) == x + ", "@ + alternatives(items),
{
    let three = seq![x, y, z];
    assert(three.drop_last() =~= seq![x] + seq![y]);
    law_joining(seq![x], seq![y], x, ", "@);
    law_joining(seq![x], seq![y], y, ", "@);
    assert(alternatives(three) =~= x + ", "@ + y + ", or "@ + z);
    if items.len() >= 3 {
        let more = seq![x] + items;
        assert(more.drop_last() =~= seq![x] + items.drop_last());
        assert(more.last() == items.last());
        law_joining(seq![x], items.drop_last(), x, ", "@);
        assert(alternatives(more) =~= x + ", "@ + alternatives(items));
    }
}

/// The number that decimal digits stand for.
pub open spec fn number(digits: Seq<char>) -> int
    decreases digits.len(),
{
    if digits.len() == 0 {
        0
    } else {
        10 * number(digits.drop_last()) + (digits.last() as int - '0' as int)
    }
}

/// Whether all characters are decimal digits, and the first is no zero unless it is the only one.
pub open spec fn is_numeral(digits: Seq<char>) -> bool {
    &&& digits.len() > 0
    &&& forall|i: int| 0 <= i < digits.len() ==> '0' <= #[trigger] digits[i] <= '9'
    &&& digits.len() > 1 ==> digits[0] != '0'
}

/// A number is written in decimal digits that stand for it, without leading zeros.
pub proof fn law_numerals(n: nat)
    ensures
        is_numeral(decimal(n)),
        number(decimal(n)) == n,
        n > 0 ==> decimal(n)[0] != '0',
        signed_decimal(n as int) == decimal(n),
        n > 0 ==> signed_decimal(-n) == seq!['-'] + decimal(n),
    decreases n,
{
    reveal_strlit("-");
    let digits = decimal(n);
    if n < 10 {
        assert(digits.drop_last() =~= seq![]);
        assert(number(digits.drop_last()) == 0);
        assert(digits.last() == digit(n));
    } else {
        law_numerals(n / 10);
        let front = decimal(n / 10);
        assert(digits.drop_last() =~= front);
        assert(digits.last() == digit(n % 10));
        assert forall|i: int| 0 <= i < digits.len() implies '0' <= #[trigger] digits[i] <= '9' by {
            if i < front.len() {
                assert(digits[i] == front[i]);
            }
        }
        assert(digits[0] == front[0]);
    }
    if n > 0 {
        assert(signed_decimal(-n) =~= seq!['-'] + decimal(n));
    }
}

/// White space is shown by a letter for each tab and for each space, in place.
pub proof fn law_white_space_is_shown(text: Seq<char>, i: int)
    requires
        0 <= i < text.len(),
    ensures
        visible(text).len() == text.len(),
        text[i] == '\t' ==> visible(text)[i] == 't',
        text[i] == ' ' ==> visible(text)[i] == 's',
        text[i] != '\t' && text[i] != ' ' ==> visible(text)[i] == text[i],
{
}

/// Where a line ends does not depend on what stands before it.
proof fn lemma_line_end(line: Seq<char>, rest: Seq<char>, from: int)
    requires
        0 <= from <= line.len(),
        forall|i: int| 0 <= i < line.len() ==> #[trigger] line[i] != '\n',
        rest.len() > 0 ==> rest[0] == '\n',
    ensures
        line_end(line + rest, from) == line.len(),
    decreases line.len() - from,
{
    if from < line.len() {
        assert((line + rest)[from] == line[from]);
        lemma_line_end(line, rest, from + 1);
    } else if rest.len() > 0 {
        assert((line + rest)[from] == rest[0]);
    }
}

/// Lines further on are those of the text from there on.
proof fn lemma_lines_further_on(before: Seq<char>, text: Seq<char>, from: int, n: nat)
    requires
        0 <= from,
    ensures
        line_after(before + text, before.len() + from, n) == line_after(text, from, n),
    decreases n,
{
    let all = before + text;
    let b = before.len() as int;
    if from < text.len() {
        lemma_end_further_on(before, text, from);
        let end = line_end(text, from);
        if n == 0 {
            if from < end < text.len() {
                assert(all[b + end - 1] == text[end - 1]);
            }
            lemma_end_in_range(text, from);
            assert(all.subrange(b + from, b + end) =~= text.subrange(from, end));
            assert(from < end ==> all.subrange(b + from, b + end - 1) =~= text.subrange(
                from,
                end - 1,
            ));
        } else {
            lemma_end_in_range(text, from);
            lemma_lines_further_on(before, text, end + 1, (n - 1) as nat);
        }
    }
}

proof fn lemma_end_in_range(text: Seq<char>, from: int)
    requires
        0 <= from <= text.len(),
    ensures
        from <= line_end(text, from) <= text.len(),
    decreases text.len() - from,
{
    if from < text.len() && text[from] != '\n' {
        lemma_end_in_range(text, from + 1);
    }
}

proof fn lemma_end_further_on(before: Seq<char>, text: Seq<char>, from: int)
    requires
        0 <= from <= text.len(),
    ensures
        line_end(before + text, before.len() + from) == before.len() + line_end(text, from),
    decreases text.len() - from,
{
    if from < text.len() {
        assert((before + text)[before.len() + from] == text[from]);
        if text[from] != '\n' {
            lemma_end_further_on(before, text, from + 1);
        }
    }
}

/// What the lines of a text are: each ends with a line feed, and with the carriage return before it
/// if there is one. What follows the last line feed is a line if there is anything.
pub proof fn law_lines_of_texts(line: Seq<char>, rest: Seq<char>, n: nat)
    requires
        forall|i: int| 0 <= i < line.len() ==> #[trigger] line[i] != '\n',
    ensures
        line_after(line + seq!['\n'] + rest, 0, 0) == Some(
            if line.len() > 0 && line.last() == '\r' {
                line.drop_last()
            } else {
                line
            },
        ),
        line_after(line + seq!['\n'] + rest, 0, n + 1) == line_after(rest, 0, n),
        line_after(line, 0, 0) == (if line.len() > 0 {
            Some(line)
        } else {
            None
        }),
        line_after(line, 0, n + 1) is None,
{
    let none = Seq::<char>::empty();
    let text = line + seq!['\n'] + rest;
    assert(text =~= line + (seq!['\n'] + rest));
    lemma_line_end(line, seq!['\n'] + rest, 0);
    lemma_line_end(line, none, 0);
    assert(line + none =~= line);
    if line.len() > 0 {
        assert(text[line.len() - 1] == line.last());
    }
    assert(text.subrange(0, line.len() as int) =~= line);
    assert(line.len() > 0 ==> text.subrange(0, line.len() - 1) =~= line.drop_last());
    assert(line.subrange(0, line.len() as int) =~= line);
    let next = line + seq!['\n'];
    lemma_lines_further_on(next, rest, 0, n);
    assert(line_after(text, line.len() as int + 1, n) == line_after(rest, 0, n));
    assert(line_after(line, line.len() as int + 1, n) is None);
}

/// A message says where the error is and what it is. The line of the text that it is on follows,
/// unless it is an error of several lines. At the end of the text there is no such line.
pub proof fn law_messages(error: ErrorView)
    ensures
        ({
            let words = "justfile:"@ + decimal(error.line) + ": "@ + error.kind.shown(error.line);
            let several = error.kind is CircularRecipeDependency
                || error.kind is CircularVariableDependency || error.kind is DuplicateRecipe;
            &&& several ==> error.shown() == words
            &&& !several ==> match line_after(error.text, 0, error.line) {
                Some(line) => error.shown() == words + "\n"@ + line,
                None => error.index == byte_len(error.text) ==> error.shown() == words + "\n"@,
            }
        }),
{
    let words = "justfile:"@ + decimal(error.line) + ": "@ + error.kind.shown(error.line);
    assert(words + "\n"@ + Seq::<char>::empty() =~= words + "\n"@);
}

/// What is said of names: each error names what it is about.
pub proof fn law_words_on_names(a: Seq<char>, b: Seq<char>, circle: Seq<Seq<char>>, n: nat, line: nat)
    ensures
        (ErrorKindView::BadName { name: a }).shown(line)
            == "name did not match /[a-z](-?[a-z0-9])*/: "@ + a,
        (ErrorKindView::DuplicateArgument { recipe: a, argument: b }).shown(line) == "recipe "@ + a
            + " has duplicate argument: "@ + b,
        (ErrorKindView::DuplicateDependency { recipe: a, dependency: b }).shown(line) == "recipe "@
            + a + " has duplicate dependency: "@ + b,
        (ErrorKindView::DuplicateVariable { variable: a }).shown(line) == "variable \""@ + a
            + "\" is has multiple definitions"@,
        (ErrorKindView::DuplicateRecipe { recipe: a, first: n }).shown(line)
            == "duplicate recipe: "@ + a + " appears on lines "@ + decimal(n) + " and "@ + decimal(
            line,
        ),
        (ErrorKindView::ArgumentShadowsVariable { argument: a }).shown(line) == "argument "@ + a
            + " shadows variable of the same name"@,
        (ErrorKindView::UnknownDependency { recipe: a, unknown: b }).shown(line) == "recipe "@ + a
            + " has unknown dependency "@ + b,
        (ErrorKindView::UnknownVariable { variable: a }).shown(line) == "variable \""@ + a
            + "\" is unknown"@,
        circle.len() == 2 ==> (ErrorKindView::CircularRecipeDependency {
            recipe: a,
            circle,
        }).shown(line) == "recipe 1"@ + a + " depends on itself"@,
        circle.len() != 2 ==> (ErrorKindView::CircularRecipeDependency {
            recipe: a,
            circle,
        }).shown(line) == "recipe "@ + a + " has circular dependency: "@ + joined_by(
            circle,
            " -> "@,
        ),
        (ErrorKindView::CircularVariableDependency { variable: a, circle }).shown(line)
            == "assignment to "@ + a + " has circular dependency: "@ + joined_by(circle, " -> "@),
{
}

/// What is said of characters and tokens.
pub proof fn law_words_on_tokens(a: Seq<char>, b: Seq<char>, x: TokenKind, y: TokenKind, line: nat)
    ensures
        (ErrorKindView::UnexpectedToken { expected: seq![x], found: y }).shown(line) == "expected "@
            + x.shown() + " but found "@ + y.shown(),
        (ErrorKindView::UnexpectedToken { expected: seq![x, y], found: y }).shown(line)
            == "expected "@ + x.shown() + " or "@ + y.shown() + " but found "@ + y.shown(),
        (ErrorKindView::MixedLeadingWhitespace { whitespace: a }).shown(line)
            == "found a mix of tabs and spaces in leading whitespace: "@ + visible(a)
            + "\n leading whitespace may consist of tabs or spaces, but not both"@,
        ErrorKindView::ExtraLeadingWhitespace.shown(line)
            == "recipe line has extra leading whitespace"@,
        (ErrorKindView::InconsistentLeadingWhitespace { expected: a, found: b }).shown(line)
            == "inconsistant leading whitespace: recipe started with \""@ + visible(a)
            + "\" but found line with \""@ + visible(b) + "\":"@,
        ErrorKindView::OuterShebang.shown(line)
            == "a shebang \"#!\" is reserved syntax outside of recipes"@,
        ErrorKindView::UnknownStartOfToken.shown(line) == "unknown start of token:"@,
        (ErrorKindView::InternalError { message: a }).shown(line)
            == "internal error, this may indicate a bug in j: "@ + a
            + "\n consider filing an issue: https://github.com/casey/j/issues/new"@,
{
    let one = classes_shown(seq![x]);
    assert(one =~= seq![x.shown()]);
    let two = classes_shown(seq![x, y]);
    assert(two =~= seq![x.shown(), y.shown()]);
    assert("expected "@ + (x.shown() + " or "@ + y.shown()) =~= "expected "@ + x.shown() + " or "@
        + y.shown());
}

/// What is said of a run that fails: each error names the recipe that it is about.
pub proof fn law_words_on_runs(recipe: Seq<char>, recipes: Seq<Seq<char>>, error: RunErrorView, n: int)
    ensures
        (RunErrorView::UnknownRecipes { recipes: seq![recipe] }).shown()
            == "Justfile does not contain recipe: "@ + recipe,
        recipes.len() > 1 ==> (RunErrorView::UnknownRecipes { recipes }).shown()
            == "Justfile does not contain recipes: "@ + joined_by(recipes, " "@),
        RunErrorView::MissingArguments.shown()
            == "Running recipes with arguments is not yet supported"@,
        (RunErrorView::Code { recipe, code: n }).shown() == "Recipe \""@ + recipe
            + "\" failed with code "@ + signed_decimal(n),
        (RunErrorView::Signal { recipe, signal: n }).shown() == "Recipe \""@ + recipe
            + "\" wast terminated by signal "@ + signed_decimal(n),
        (RunErrorView::UnknownFailure { recipe }).shown() == "Recipe \""@ + recipe
            + "\" failed for an unknown reason"@,
        error is IoError ==> error.shown() == "Recipe \""@ + error->IoError_recipe + (
        match error->IoError_io_error.kind {
            IoErrorKind::NotFound =>
                "\" could not be run because j could not find `sh` the command:\n"@,
            IoErrorKind::PermissionDenied => "\" could not be run because j could not run `sh`:\n"@,
            IoErrorKind::Other =>
                "\" could not be run because of an IO error while launching the `sh`:\n"@,
        }) + error->IoError_io_error.message,
        error is TmpdirIoError ==> error.shown() == "Recipe \""@ + error->TmpdirIoError_recipe
            + "\" could not be run because of an IO error while trying to create a temporary directory or write a file to that directory`:\n"@
            + error->TmpdirIoError_io_error.message,
{
}

/// How expressions and the pieces of lines are written.
pub proof fn law_expressions_are_written(
    e: ExpressionView,
    lhs: ExpressionView,
    rhs: ExpressionView,
    line: Seq<FragmentView>,
    piece: FragmentView,
)
    ensures
        e is Variable ==> e.shown() == e->Variable_name,
        e is String ==> e.shown() == seq!['"'] + e->contents + seq!['"'],
        (ExpressionView::Concatination { lhs: Box::new(lhs), rhs: Box::new(rhs) }).shown()
            == lhs.shown() + seq![' ', '+', ' '] + rhs.shown(),
        piece is Text ==> piece.shown() == piece->text.lexeme,
        piece is Expression ==> piece.shown() == seq!['{', '{'] + piece->expression.shown() + seq![
            '}',
            '}',
        ],
        line_shown(seq![]) == Seq::<char>::empty(),
        line_shown(seq![piece]) == seq![' ', ' ', ' ', ' '] + piece.shown(),
        line.len() > 0 ==> line_shown(line.push(piece)) == line_shown(line) + piece.shown(),
{
    reveal_strlit("\"");
    reveal_strlit(" + ");
    reveal_strlit("{{");
    reveal_strlit("}}");
    reveal_strlit("    ");
    let quote = "\""@;
    assert(quote =~= seq!['"']);
    assert(" + "@ =~= seq![' ', '+', ' ']);
    assert("{{"@ =~= seq!['{', '{']);
    assert("}}"@ =~= seq!['}', '}']);
    assert("    "@ =~= seq![' ', ' ', ' ', ' ']);
    let one = seq![piece];
    assert(one.drop_last() =~= seq![]);
    assert(pieces_shown(one.drop_last()) =~= seq![]);
    assert(pieces_shown(one) =~= piece.shown());
    assert(line.push(piece).drop_last() =~= line);
    assert(line_shown(line.push(piece)) =~= "    "@ + pieces_shown(line) + piece.shown());
}

/// How recipes are written: the head on a line of its own, and each line of the recipe after it.
pub proof fn law_recipes_are_written(recipe: RecipeView, line: Seq<FragmentView>)
    ensures
        recipe.lines.len() == 0 ==> recipe.shown() == recipe.name + spaced(recipe.arguments) + seq![
            ':',
        ] + spaced(recipe.dependencies),
        (RecipeView { lines: recipe.lines.push(line), ..recipe }).shown() == recipe.shown() + seq![
            '\n',
        ] + line_shown(line),
{
    reveal_strlit(":");
    reveal_strlit("\n");
    assert(":"@ =~= seq![':']);
    assert("\n"@ =~= seq!['\n']);
    let before = lines_shown(recipe.lines);
    let longer = RecipeView { lines: recipe.lines.push(line), ..recipe };
    let after = lines_shown(longer.lines);
    assert(after =~= before.push(line_shown(line)));
    assert(after.drop_last() =~= before);
    assert(longer.shown() =~= recipe.shown() + "\n"@ + line_shown(line));
}

/// How justfiles are written: one assignment after the other, each with its value, and then one recipe
/// after the other, each on lines of its own.
pub proof fn law_justfiles_are_written(
    justfile: JustfileView,
    assignment: (Seq<char>, ExpressionView),
    recipe: (Seq<char>, RecipeView),
)
    ensures
        ({
            let nothing = justfile.assignments.len() == 0 && justfile.recipes.len() == 0;
            let first = assignment.0 + " = "@ + assignment.1.shown() + " # \""@ + lookup(
                justfile.values,
                assignment.0,
            )->0 + "\""@;
            let before = JustfileView {
                assignments: seq![assignment] + justfile.assignments,
                ..justfile
            };
            let after = JustfileView { recipes: justfile.recipes.push(recipe), ..justfile };
            &&& nothing ==> justfile.shown() == Seq::<char>::empty()
            &&& nothing ==> before.shown() == first
            &&& !nothing ==> before.shown() == first + seq!['\n'] + justfile.shown()
            &&& nothing ==> after.shown() == recipe.1.shown()
            &&& !nothing ==> after.shown() == justfile.shown() + seq!['\n'] + recipe.1.shown()
        }),
{
    reveal_strlit("\n");
    let newline = "\n"@;
    assert(newline =~= seq!['\n']);
    let first = assignment.0 + " = "@ + assignment.1.shown() + " # \""@ + lookup(
        justfile.values,
        assignment.0,
    )->0 + "\""@;
    let before = JustfileView { assignments: seq![assignment] + justfile.assignments, ..justfile };
    let after = JustfileView { recipes: justfile.recipes.push(recipe), ..justfile };
    let parts = justfile.assignments_shown() + justfile.recipes_shown();
    let front = before.assignments_shown() + before.recipes_shown();
    assert(front =~= seq![first] + parts);
    let back = after.assignments_shown() + after.recipes_shown();
    assert(back =~= parts + seq![recipe.1.shown()]);
    law_joining(seq![first], parts, first, newline);
    law_joining(parts, seq![recipe.1.shown()], recipe.1.shown(), newline);
    if parts.len() == 0 {
        assert(front =~= seq![first]);
        assert(back =~= seq![recipe.1.shown()]);
    }
}

/// What messages call the classes of tokens: no two alike, and signs by themselves.
pub proof fn law_classes_are_told_apart(a: TokenKind, b: TokenKind)
    ensures
        a.shown() == b.shown() ==> a == b,
        a.spelled() == b.spelled() ==> a == b,
        TokenKind::Name.shown() == "name"@,
        TokenKind::Colon.shown() == seq!['"', ':', '"'],
        TokenKind::Plus.shown() == seq!['"', '+', '"'],
        TokenKind::Equals.shown() == seq!['"', '=', '"'],
        TokenKind::StringToken.shown() == "string"@,
        TokenKind::Text.shown() == "command text"@,
        TokenKind::InterpolationStart.shown() == seq!['{', '{'],
        TokenKind::InterpolationEnd.shown() == seq!['}', '}'],
        TokenKind::Comment.shown() == "comment"@,
        TokenKind::Line.shown() == "command"@,
        TokenKind::Indent.shown() == "indent"@,
        TokenKind::Dedent.shown() == "dedent"@,
        TokenKind::Eol.shown() == "end of line"@,
        TokenKind::Eof.shown() == "end of file"@,
{
    reveal_strlit("name");
    reveal_strlit("\":\"");
    reveal_strlit("\"+\"");
    reveal_strlit("\"=\"");
    reveal_strlit("string");
    reveal_strlit("command text");
    reveal_strlit("{{");
    reveal_strlit("}}");
    reveal_strlit("comment");
    reveal_strlit("command");
    reveal_strlit("indent");
    reveal_strlit("dedent");
    reveal_strlit("end of line");
    reveal_strlit("end of file");
    reveal_strlit("Name");
    reveal_strlit("Colon");
    reveal_strlit("Plus");
    reveal_strlit("Equals");
    reveal_strlit("StringToken");
    reveal_strlit("Text");
    reveal_strlit("InterpolationStart");
    reveal_strlit("InterpolationEnd");
    reveal_strlit("Comment");
    reveal_strlit("Line");
    reveal_strlit("Indent");
    reveal_strlit("Dedent");
    reveal_strlit("Eol");
    reveal_strlit("Eof");
    assert(TokenKind::Colon.shown() =~= seq!['"', ':', '"']);
    assert(TokenKind::Plus.shown() =~= seq!['"', '+', '"']);
    assert(TokenKind::Equals.shown() =~= seq!['"', '=', '"']);
    if a.shown() == b.shown() {
        assert(a.shown()[0] == b.shown()[0]);
        assert(a.shown()[1] == b.shown()[1]);
        assert(a.shown()[4] == b.shown()[4]);
        assert(a.shown()[7] == b.shown()[7]);
        assert(a.shown().len() == b.shown().len());
    }
    if a.spelled() == b.spelled() {
        assert(a.spelled()[0] == b.spelled()[0]);
        assert(a.spelled()[2] == b.spelled()[2]);
        assert(a.spelled().len() == b.spelled().len());
    }
}

} // verus!
