//! What is parsed is what the grammar spells, and the other way round; and what is wrong otherwise.

use vstd::prelude::*;
use vstd::string::*;

use crate::error::ErrorKindView;
use crate::expression::ExpressionView;
use crate::grammar::{ends_expression, expression_at, is_leaf, is_script_line, lines_agree};
use crate::grammar::{may_follow, names_at, piece_width, pieces_width, recipe_at, spells_expression};
use crate::grammar::{spells_lines, spells_piece, spells_pieces, width};
use crate::parse::lemma_quoted;
use crate::parser::{is_extra, is_shebang, lemma_expression_advances, lemma_pieces_advance};
use crate::parser::{parse_expression, parse_leaf, parse_lines, parse_names, parse_pieces};
use crate::parser::{parse_recipe, Parsed};
use crate::phase_laws::{lemma_phase_take, phase_after, phase_of, Phase};
use crate::recipe::{FragmentView, RecipeView};
use crate::token::{lexemes, TokenKind, TokenView};
use crate::token_laws::{all_shaped, shaped};

verus! {

/// A leaf is parsed from the token that spells it, and from no other.
proof fn lemma_leaf(token: TokenView, e: ExpressionView)
    requires
        shaped(token),
    ensures
        parse_leaf(token) is Some <==> is_leaf(token.class),
        parse_leaf(token) == Some(e) <==> e !is Concatination && spells_expression(seq![token], e),
{
    if token.class == TokenKind::StringToken {
        lemma_quoted(token.lexeme);
        let inner = seq![token.lexeme[1]];
        assert(token.lexeme =~= seq!['"', inner[0], '"']);
        if let ExpressionView::String { contents } = e {
            if spells_expression(seq![token], e) {
                assert(contents =~= inner);
            }
        }
    }
    if token.class == TokenKind::Name {
        if let ExpressionView::Variable { name, token: other } = e {
            if spells_expression(seq![token], e) {
                assert(seq![token][0] == seq![other][0]);
            }
        }
    }
}

/// An expression takes one token or more.
pub proof fn lemma_width(ts: Seq<TokenView>, e: ExpressionView)
    ensures
        width(e) > 0,
        spells_expression(ts, e) ==> ts.len() == width(e),
    decreases e,
{
    if let ExpressionView::Concatination { lhs, rhs } = e {
        lemma_width(ts.take(1), *lhs);
        lemma_width(ts.skip(2), *rhs);
    }
}

/// What is parsed as an expression is spelled.
pub proof fn lemma_expression_read(ts: Seq<TokenView>, pos: nat, interpolation: bool)
    requires
        all_shaped(ts),
    ensures
        parse_expression(ts, pos, interpolation) matches Parsed::Done { value, at }
            ==> expression_at(ts, pos, interpolation, value, at),
    decreases ts.len() - pos,
{
    if pos + 1 < ts.len() {
        let token = ts[pos as int];
        assert(shaped(token));
        if is_leaf(token.class) {
            let lhs = parse_leaf(token)->0;
            lemma_leaf(token, lhs);
            assert(ts.subrange(pos as int, pos as int + 1) =~= seq![token]);
            lemma_width(seq![token], lhs);
            if ts[pos as int + 1].class == TokenKind::Plus {
                lemma_expression_read(ts, pos + 2, interpolation);
                if let Parsed::Done { value, at } = parse_expression(ts, pos + 2, interpolation) {
                    let all = ts.subrange(pos as int, (pos + 2 + width(value)) as int);
                    assert(all.take(1) =~= seq![token]);
                    assert(all.skip(2) =~= ts.subrange(
                        pos as int + 2,
                        (pos + 2 + width(value)) as int,
                    ));
                    lemma_width(all.skip(2), value);
                }
            }
        }
    }
}

/// What is spelled as an expression is parsed.
pub proof fn lemma_expression_spelled(
    ts: Seq<TokenView>,
    pos: nat,
    interpolation: bool,
    e: ExpressionView,
    at: nat,
)
    requires
        all_shaped(ts),
        expression_at(ts, pos, interpolation, e, at),
    ensures
        parse_expression(ts, pos, interpolation) == (Parsed::Done { value: e, at }),
    decreases e,
{
    let all = ts.subrange(pos as int, (pos + width(e)) as int);
    lemma_width(all, e);
    let token = ts[pos as int];
    assert(shaped(token));
    match e {
        ExpressionView::Concatination { lhs, rhs } => {
            assert(all.take(1) =~= seq![token]);
            lemma_width(all.take(1), *lhs);
            lemma_leaf(token, *lhs);
            lemma_leaf(token, parse_leaf(token)->0);
            assert(all[1] == ts[pos as int + 1]);
            assert(all.skip(2) =~= ts.subrange(pos as int + 2, (pos + 2 + width(*rhs)) as int));
            lemma_expression_spelled(ts, pos + 2, interpolation, *rhs, at);
        },
        _ => {
            assert(all =~= seq![token]);
            lemma_leaf(token, e);
        },
    }
}

/// An expression is parsed if and only if the tokens spell it, up to what ends it.
pub proof fn law_expressions_are_spelled(
    ts: Seq<TokenView>,
    pos: nat,
    interpolation: bool,
    e: ExpressionView,
    at: nat,
)
    requires
        all_shaped(ts),
    ensures
        parse_expression(ts, pos, interpolation) == (Parsed::Done { value: e, at })
            <==> expression_at(ts, pos, interpolation, e, at),
{
    lemma_expression_read(ts, pos, interpolation);
    if expression_at(ts, pos, interpolation, e, at) {
        lemma_expression_spelled(ts, pos, interpolation, e, at);
    }
}

/// Whether a leaf and a plus stand at `at`.
pub open spec fn summand_at(ts: Seq<TokenView>, at: int) -> bool {
    is_leaf(ts[at].class) && ts[at + 1].class == TokenKind::Plus
}

/// Whether the tokens from the one at `pos` on are `n` leaves with a plus after each.
pub open spec fn summands_at(ts: Seq<TokenView>, pos: nat, n: nat) -> bool
    decreases n,
{
    n > 0 ==> summand_at(ts, pos as int) && summands_at(ts, pos + 2, (n - 1) as nat)
}

/// After leaves with a plus after each, the first token that an expression cannot go on with is
/// reported: one that is not a leaf where a leaf is expected; or, after a leaf, one that is neither a
/// plus nor ends the expression.
pub proof fn law_faults_in_expressions(
    ts: Seq<TokenView>,
    pos: nat,
    interpolation: bool,
    n: nat,
)
    requires
        all_shaped(ts),
        summands_at(ts, pos, n),
        pos + 2 * n + 1 < ts.len(),
    ensures
        ({
            let last = ts[(pos + 2 * n) as int];
            let next = ts[(pos + 2 * n + 1) as int];
            let came = parse_expression(ts, pos, interpolation);
            &&& !is_leaf(last.class) ==> came == (Parsed::<ExpressionView>::Fail {
                error: last.error(
                    ErrorKindView::UnexpectedToken {
                        expected: seq![TokenKind::Name, TokenKind::StringToken],
                        found: last.class,
                    },
                ),
                at: pos + 2 * n + 1,
            })
            &&& is_leaf(last.class) && next.class != TokenKind::Plus && !ends_expression(
                next.class,
                interpolation,
            ) ==> came == (Parsed::<ExpressionView>::Fail {
                error: next.error(
                    ErrorKindView::UnexpectedToken {
                        expected: if interpolation {
                            seq![TokenKind::Plus, TokenKind::Eol, TokenKind::InterpolationEnd]
                        } else {
                            seq![TokenKind::Plus, TokenKind::Eol]
                        },
                        found: next.class,
                    },
                ),
                at: pos + 2 * n + 2,
            })
        }),
    decreases n,
{
    let token = ts[pos as int];
    assert(shaped(token));
    if is_leaf(token.class) {
        lemma_leaf(token, parse_leaf(token)->0);
    }
    if n > 0 {
        let m = (n - 1) as nat;
        lemma_leaf(token, parse_leaf(token)->0);
        law_faults_in_expressions(ts, pos + 2, interpolation, m);
        assert(pos + 2 + 2 * m == pos + 2 * n);
    }
}

/// Names that are not repeated are passed over.
proof fn lemma_names_passed(
    ts: Seq<TokenView>,
    pos: nat,
    recipe: Seq<char>,
    arguments: bool,
    j: nat,
    n: nat,
)
    requires
        names_at(ts, pos, n),
        j <= n,
    ensures
        parse_names(
            ts,
            pos + j,
            recipe,
            arguments,
            ts.subrange(pos as int, (pos + j) as int),
        ) == parse_names(
            ts,
            pos + n,
            recipe,
            arguments,
            ts.subrange(pos as int, (pos + n) as int),
        ),
    decreases n - j,
{
    if j < n {
        let done = ts.subrange(pos as int, (pos + j) as int);
        let token = ts[(pos + j) as int];
        assert(!lexemes(done).contains(token.lexeme)) by {
            if lexemes(done).contains(token.lexeme) {
                let k = choose|k: int|
                    0 <= k < lexemes(done).len() && lexemes(done)[k] == token.lexeme;
                assert(ts[pos + k].lexeme == token.lexeme);
            }
        }
        assert(done.push(token) =~= ts.subrange(pos as int, (pos + j + 1) as int));
        lemma_names_passed(ts, pos, recipe, arguments, j + 1, n);
    }
}

/// The arguments and the dependencies of a recipe are the names up to the first token that is no
/// name. The first name that is repeated is reported.
pub proof fn law_names_are_read(
    ts: Seq<TokenView>,
    pos: nat,
    recipe: Seq<char>,
    arguments: bool,
    n: nat,
)
    requires
        names_at(ts, pos, n),
    ensures
        ({
            let token = ts[(pos + n) as int];
            let came = parse_names(ts, pos, recipe, arguments, Seq::empty());
            &&& token.class != TokenKind::Name ==> came == (Parsed::<Seq<TokenView>>::Done {
                value: ts.subrange(pos as int, (pos + n) as int),
                at: pos + n,
            })
            &&& token.class == TokenKind::Name && (exists|k: int|
                pos <= k < pos + n && (#[trigger] ts[k]).lexeme == token.lexeme) ==> came == (
            Parsed::<Seq<TokenView>>::Fail {
                error: token.error(
                    if arguments {
                        ErrorKindView::DuplicateArgument { recipe, argument: token.lexeme }
                    } else {
                        ErrorKindView::DuplicateDependency { recipe, dependency: token.lexeme }
                    },
                ),
                at: pos + n + 1,
            })
        }),
{
    let done = ts.subrange(pos as int, (pos + n) as int);
    assert(ts.subrange(pos as int, pos as int) =~= Seq::empty());
    lemma_names_passed(ts, pos, recipe, arguments, 0, n);
    let token = ts[(pos + n) as int];
    if token.class == TokenKind::Name && (exists|k: int|
        pos <= k < pos + n && (#[trigger] ts[k]).lexeme == token.lexeme) {
        let k = choose|k: int| pos <= k < pos + n && (#[trigger] ts[k]).lexeme == token.lexeme;
        assert(lexemes(done)[k - pos] == token.lexeme);
    }
}

/// Names that are parsed are names, and none is repeated.
proof fn lemma_names_read(
    ts: Seq<TokenView>,
    pos: nat,
    recipe: Seq<char>,
    arguments: bool,
    j: nat,
)
    requires
        pos + j < ts.len() ==> names_at(ts, pos, j),
    ensures
        parse_names(
            ts,
            pos + j,
            recipe,
            arguments,
            ts.subrange(pos as int, (pos + j) as int),
        ) matches Parsed::Done { value, at } ==> {
            &&& at >= pos + j
            &&& names_at(ts, pos, (at - pos) as nat)
            &&& value == ts.subrange(pos as int, at as int)
            &&& ts[at as int].class != TokenKind::Name
        },
    decreases ts.len() - pos - j,
{
    if pos + j < ts.len() {
        let done = ts.subrange(pos as int, (pos + j) as int);
        let token = ts[(pos + j) as int];
        if token.class == TokenKind::Name && !lexemes(done).contains(token.lexeme) {
            assert(done.push(token) =~= ts.subrange(pos as int, (pos + j + 1) as int));
            assert forall|a: int, b: int| pos <= a < b < pos + j + 1 implies (
            #[trigger] ts[a]).lexeme != (#[trigger] ts[b]).lexeme by {
                if b == pos + j {
                    assert(lexemes(done)[a - pos] == ts[a].lexeme);
                }
            }
            lemma_names_read(ts, pos, recipe, arguments, j + 1);
        }
    }
}

/// What starts a script, and what may not begin a line, in characters.
proof fn lemma_begins(lexeme: Seq<char>, shebang: bool)
    ensures
        is_shebang(lexeme) == (lexeme.len() >= 2 && lexeme[0] == '#' && lexeme[1] == '!'),
        is_extra(lexeme, shebang) == (lexeme.len() > 0 && (lexeme[0] == '\t' || (!shebang
            && lexeme[0] == ' '))),
{
    reveal_strlit("#!");
    reveal_strlit(" ");
    reveal_strlit("\t");
    if is_shebang(lexeme) {
        assert(lexeme[0] == "#!"@[0] && lexeme[1] == "#!"@[1]);
    } else if lexeme.len() >= 2 && lexeme[0] == '#' && lexeme[1] == '!' {
        assert("#!"@ =~= lexeme.take(2));
    }
    if " "@.is_prefix_of(lexeme) {
        assert(lexeme[0] == " "@[0]);
    } else if lexeme.len() > 0 && lexeme[0] == ' ' {
        assert(" "@ =~= lexeme.take(1));
    }
    if "\t"@.is_prefix_of(lexeme) {
        assert(lexeme[0] == "\t"@[0]);
    } else if lexeme.len() > 0 && lexeme[0] == '\t' {
        assert("\t"@ =~= lexeme.take(1));
    }
}

/// Pieces take as many tokens as they are wide.
pub proof fn lemma_pieces_width(ts: Seq<TokenView>, line: Seq<FragmentView>)
    ensures
        spells_pieces(ts, line) ==> ts.len() == pieces_width(line),
    decreases line.len(),
{
    if line.len() > 0 && spells_pieces(ts, line) {
        lemma_pieces_width(ts.skip(piece_width(line[0]) as int), line.skip(1));
    }
}

/// Pieces that are spelled are passed over. The first text of the first line says whether the recipe
/// is a script.
#[verifier::rlimit(40)]
pub proof fn law_pieces_are_passed(
    ts: Seq<TokenView>,
    pos: nat,
    first_line: bool,
    shebang: bool,
    done: Seq<FragmentView>,
    line: Seq<FragmentView>,
)
    requires
        all_shaped(ts),
        pos + pieces_width(line) < ts.len(),
        spells_pieces(ts.subrange(pos as int, (pos + pieces_width(line)) as int), line),
        done.len() == 0 && !first_line ==> may_follow(line, shebang),
    ensures
        parse_pieces(ts, pos, first_line, shebang, done) == parse_pieces(
            ts,
            pos + pieces_width(line),
            first_line,
            shebang || (done.len() == 0 && first_line && is_script_line(line)),
            done + line,
        ),
    decreases line.len(),
{
    if line.len() == 0 {
        assert(done + line =~= done);
    } else {
        let piece = line[0];
        let rest = line.skip(1);
        let w = piece_width(piece);
        let end = pos + pieces_width(line);
        let all = ts.subrange(pos as int, end as int);
        let more = done.push(piece);
        assert(all.skip(w as int) =~= ts.subrange((pos + w) as int, end as int));
        assert(more + rest =~= done + line);
        match piece {
            FragmentView::Text { text } => {
                assert(all.take(1)[0] == ts[pos as int]);
                assert(ts[pos as int] == text);
                lemma_begins(text.lexeme, shebang);
                let starts = done.len() == 0 && first_line && is_shebang(text.lexeme);
                law_pieces_are_passed(ts, pos + 1, first_line, shebang || starts, more, rest);
            },
            FragmentView::Expression { expression } => {
                let v = width(expression);
                let own = all.take(w as int);
                assert(own[0] == ts[pos as int]);
                assert(own[v as int + 1] == ts[(pos + v + 1) as int]);
                assert(own.subrange(1, v as int + 1) =~= ts.subrange(
                    pos as int + 1,
                    (pos + 1 + v) as int,
                ));
                assert(expression_at(ts, pos + 1, true, expression, pos + 1 + v));
                lemma_expression_spelled(ts, pos + 1, true, expression, pos + 1 + v);
                law_pieces_are_passed(ts, pos + w, first_line, shebang, more, rest);
            },
        }
    }
}

/// After pieces that are spelled, a line ends with its end, which is left behind, or before the end
/// of the recipe. A text that begins a line as it may not, a token that is no piece, a fault in an
/// expression, and what does not close an interpolation are reported.
pub proof fn law_lines_end_or_are_at_fault(
    ts: Seq<TokenView>,
    pos: nat,
    first_line: bool,
    shebang: bool,
    line: Seq<FragmentView>,
)
    requires
        all_shaped(ts),
        pos + pieces_width(line) < ts.len(),
        spells_pieces(ts.subrange(pos as int, (pos + pieces_width(line)) as int), line),
        !first_line ==> may_follow(line, shebang),
    ensures
        ({
            let end = pos + pieces_width(line);
            let token = ts[end as int];
            let lexeme = token.lexeme;
            let script = shebang || (first_line && is_script_line(line));
            let came = parse_pieces(ts, pos, first_line, shebang, Seq::empty());
            let inner = parse_expression(ts, end + 1, true);
            &&& token.class == TokenKind::Eol ==> came == (Parsed::Done {
                value: (line, script),
                at: end + 1,
            })
            &&& token.class == TokenKind::Dedent ==> came == (Parsed::Done {
                value: (line, script),
                at: end,
            })
            &&& token.class == TokenKind::Text && line.len() == 0 && !first_line && lexeme.len() > 0
                && (lexeme[0] == '\t' || (!shebang && lexeme[0] == ' ')) ==> came == (Parsed::<
                (Seq<FragmentView>, bool),
            >::Fail { error: token.error(ErrorKindView::ExtraLeadingWhitespace), at: end + 1 })
            &&& token.class != TokenKind::Eol && token.class != TokenKind::Dedent && token.class
                != TokenKind::Text && token.class != TokenKind::InterpolationStart ==> came == (
            Parsed::<(Seq<FragmentView>, bool)>::Fail {
                error: token.error(
                    ErrorKindView::UnexpectedToken {
                        expected: seq![
                            TokenKind::Text,
                            TokenKind::InterpolationStart,
                            TokenKind::Eol,
                        ],
                        found: token.class,
                    },
                ),
                at: end + 1,
            })
            &&& token.class == TokenKind::InterpolationStart && inner is Fail ==> came == (Parsed::<
                (Seq<FragmentView>, bool),
            >::Fail { error: inner->Fail_error, at: inner->Fail_at })
            &&& token.class == TokenKind::InterpolationStart && inner is Done && inner->Done_at
                < ts.len() && ts[inner->Done_at as int].class != TokenKind::InterpolationEnd
                ==> came == (Parsed::<(Seq<FragmentView>, bool)>::Fail {
                error: ts[inner->Done_at as int].error(
                    ErrorKindView::UnexpectedToken {
                        expected: seq![TokenKind::InterpolationEnd],
                        found: ts[inner->Done_at as int].class,
                    },
                ),
                at: inner->Done_at + 1,
            })
        }),
{
    law_pieces_are_passed(ts, pos, first_line, shebang, Seq::empty(), line);
    assert(Seq::<FragmentView>::empty() + line =~= line);
    lemma_begins(ts[(pos + pieces_width(line)) as int].lexeme, shebang);
}

/// The tokens of an expression are names, strings and plus signs.
pub proof fn lemma_expression_classes(ts: Seq<TokenView>, e: ExpressionView)
    requires
        spells_expression(ts, e),
    ensures
        forall|k: int|
            0 <= k < ts.len() ==> is_leaf((#[trigger] ts[k]).class) || ts[k].class
                == TokenKind::Plus,
    decreases e,
{
    if let ExpressionView::Concatination { lhs, rhs } = e {
        lemma_expression_classes(ts.take(1), *lhs);
        lemma_expression_classes(ts.skip(2), *rhs);
        assert forall|k: int| 0 <= k < ts.len() implies is_leaf((#[trigger] ts[k]).class)
            || ts[k].class == TokenKind::Plus by {
            if k == 0 {
                assert(ts.take(1)[0] == ts[0]);
            } else if k > 1 {
                assert(ts.skip(2)[k - 2] == ts[k]);
            }
        }
    }
}

/// On a line of a recipe, what follows a name, a string, a sign, a brace or a text is on that line.
proof fn lemma_same_line(ts: Seq<TokenView>, pos: nat, end: nat)
    requires
        phase_of(ts) is Some,
        pos <= end <= ts.len(),
        phase_of(ts.take(pos as int)) == Some(Phase::Line),
        forall|k: int|
            pos <= k < end ==> phase_after(Phase::Line, (#[trigger] ts[k]).class) == Some(
                Phase::Line,
            ),
    ensures
        phase_of(ts.take(end as int)) == Some(Phase::Line),
    decreases end - pos,
{
    if pos < end {
        lemma_phase_take(ts, pos as int);
        assert(phase_after(Phase::Line, ts[pos as int].class) == Some(Phase::Line));
        lemma_same_line(ts, pos + 1, end);
    }
}

/// Whether pieces after `done`, up to what stands at `end`, were read as `value`.
spec fn pieces_read(
    ts: Seq<TokenView>,
    pos: nat,
    first_line: bool,
    shebang: bool,
    done: Seq<FragmentView>,
    value: (Seq<FragmentView>, bool),
    at: nat,
) -> bool {
    let line = value.0.skip(done.len() as int);
    let end = pos + pieces_width(line);
    &&& done.len() <= value.0.len()
    &&& done == value.0.take(done.len() as int)
    &&& end < ts.len()
    &&& spells_pieces(ts.subrange(pos as int, end as int), line)
    &&& ts[end as int].class == TokenKind::Eol || ts[end as int].class == TokenKind::Dedent
    &&& at == if ts[end as int].class == TokenKind::Eol {
        end + 1
    } else {
        end
    }
    &&& value.1 == (shebang || (done.len() == 0 && first_line && is_script_line(line)))
    &&& done.len() == 0 && !first_line ==> may_follow(line, shebang)
    &&& phase_of(ts.take(end as int)) == Some(Phase::Line)
}

/// One more piece before pieces that were read.
proof fn lemma_piece_before(
    ts: Seq<TokenView>,
    pos: nat,
    first_line: bool,
    shebang: bool,
    script: bool,
    done: Seq<FragmentView>,
    piece: FragmentView,
    value: (Seq<FragmentView>, bool),
    at: nat,
)
    requires
        pos + piece_width(piece) <= ts.len(),
        spells_piece(ts.subrange(pos as int, (pos + piece_width(piece)) as int), piece),
        pieces_read(
            ts,
            pos + piece_width(piece),
            first_line,
            script,
            done.push(piece),
            value,
            at,
        ),
        script == (shebang || (done.len() == 0 && first_line && is_script_line(seq![piece]))),
        done.len() == 0 && !first_line ==> may_follow(seq![piece], shebang),
    ensures
        pieces_read(ts, pos, first_line, shebang, done, value, at),
{
    let w = piece_width(piece);
    let more = done.push(piece);
    let rest = value.0.skip(more.len() as int);
    let line = value.0.skip(done.len() as int);
    let end = pos + w + pieces_width(rest);
    assert(value.0.take(more.len() as int)[done.len() as int] == piece);
    assert(line[0] == piece);
    assert(line.skip(1) =~= rest);
    assert(pieces_width(line) == w + pieces_width(rest));
    assert(done =~= value.0.take(done.len() as int)) by {
        assert(more.take(done.len() as int) =~= done);
        assert(more == value.0.take(more.len() as int));
    }
    let all = ts.subrange(pos as int, end as int);
    assert(all.take(w as int) =~= ts.subrange(pos as int, (pos + w) as int));
    assert(all.skip(w as int) =~= ts.subrange((pos + w) as int, end as int));
    assert(is_script_line(seq![piece]) == is_script_line(line));
    assert(may_follow(seq![piece], shebang) == may_follow(line, shebang));
}

/// What is parsed as the pieces of a line is spelled.
#[verifier::rlimit(40)]
proof fn lemma_pieces_read(
    ts: Seq<TokenView>,
    pos: nat,
    first_line: bool,
    shebang: bool,
    done: Seq<FragmentView>,
)
    requires
        all_shaped(ts),
        phase_of(ts) is Some,
        pos <= ts.len(),
        phase_of(ts.take(pos as int)) == Some(Phase::Line),
    ensures
        parse_pieces(ts, pos, first_line, shebang, done) matches Parsed::Done { value, at }
            ==> pieces_read(ts, pos, first_line, shebang, done, value, at),
    decreases ts.len() - pos,
{
    if pos < ts.len() {
        let token = ts[pos as int];
        let none = Seq::<FragmentView>::empty();
        lemma_phase_take(ts, pos as int);
        match token.class {
            TokenKind::Eol | TokenKind::Dedent => {
                assert(done.skip(done.len() as int) =~= none);
                assert(done.take(done.len() as int) =~= done);
                assert(ts.subrange(pos as int, pos as int) =~= Seq::empty());
            },
            TokenKind::Text => {
                lemma_begins(token.lexeme, shebang);
                if !(done.len() == 0 && !first_line && is_extra(token.lexeme, shebang)) {
                    let starts = done.len() == 0 && first_line && is_shebang(token.lexeme);
                    let piece = FragmentView::Text { text: token };
                    let more = done.push(piece);
                    lemma_pieces_read(ts, pos + 1, first_line, shebang || starts, more);
                    assert(ts.subrange(pos as int, pos as int + 1) =~= seq![token]);
                    if let Parsed::Done { value, at } = parse_pieces(
                        ts,
                        pos + 1,
                        first_line,
                        shebang || starts,
                        more,
                    ) {
                        lemma_piece_before(
                            ts,
                            pos,
                            first_line,
                            shebang,
                            shebang || starts,
                            done,
                            piece,
                            value,
                            at,
                        );
                    }
                }
            },
            TokenKind::InterpolationStart => {
                lemma_expression_advances(ts, pos + 1, true);
                lemma_expression_read(ts, pos + 1, true);
                if let Parsed::Done { value: e, at: q } = parse_expression(ts, pos + 1, true) {
                    if q < ts.len() && ts[q as int].class == TokenKind::InterpolationEnd {
                        let v = width(e);
                        let end = pos + 1 + v;
                        let inner = ts.subrange(pos as int + 1, end as int);
                        lemma_expression_classes(inner, e);
                        assert forall|k: int| pos <= k < end implies phase_after(
                            Phase::Line,
                            (#[trigger] ts[k]).class,
                        ) == Some(Phase::Line) by {
                            if k > pos {
                                assert(inner[k - pos - 1] == ts[k]);
                            }
                        }
                        lemma_same_line(ts, pos, end);
                        if ts[end as int].class == TokenKind::Eol {
                            lemma_phase_take(ts, end as int);
                            lemma_phase_take(ts, end as int + 1);
                        }
                        assert(q == end);
                        let piece = FragmentView::Expression { expression: e };
                        let own = ts.subrange(pos as int, (pos + v + 2) as int);
                        assert(own.subrange(1, v as int + 1) =~= inner);
                        assert(own[0] == token);
                        assert(own[v as int + 1] == ts[end as int]);
                        lemma_phase_take(ts, end as int);
                        lemma_pieces_read(ts, end + 1, first_line, shebang, done.push(piece));
                        if let Parsed::Done { value, at } = parse_pieces(
                            ts,
                            end + 1,
                            first_line,
                            shebang,
                            done.push(piece),
                        ) {
                            lemma_piece_before(
                                ts,
                                pos,
                                first_line,
                                shebang,
                                shebang,
                                done,
                                piece,
                                value,
                                at,
                            );
                        }
                    }
                }
            },
            _ => {},
        }
    }
}

/// Whether lines after `done` were read as `value`.
spec fn lines_read(
    ts: Seq<TokenView>,
    pos: nat,
    shebang: bool,
    done: Seq<Seq<FragmentView>>,
    value: (Seq<Seq<FragmentView>>, bool),
    at: nat,
) -> bool {
    let lines = value.0.skip(done.len() as int);
    &&& done.len() <= value.0.len()
    &&& done == value.0.take(done.len() as int)
    &&& pos < at <= ts.len()
    &&& ts[at - 1].class == TokenKind::Dedent
    &&& spells_lines(ts.subrange(pos as int, at - 1), lines)
    &&& value.1 == if done.len() == 0 {
        shebang || (lines.len() > 0 && is_script_line(lines[0]))
    } else {
        shebang
    }
    &&& forall|i: int|
        done.len() <= i < value.0.len() && i > 0 ==> may_follow(#[trigger] value.0[i], value.1)
}

/// One more line before lines that were read.
#[verifier::rlimit(40)]
proof fn lemma_line_before(
    ts: Seq<TokenView>,
    pos: nat,
    shebang: bool,
    script: bool,
    done: Seq<Seq<FragmentView>>,
    line: Seq<FragmentView>,
    next: nat,
    value: (Seq<Seq<FragmentView>>, bool),
    at: nat,
)
    requires
        pos < ts.len(),
        ts[pos as int].class == TokenKind::Line,
        pieces_read(
            ts,
            pos + 1,
            done.len() == 0,
            shebang,
            Seq::empty(),
            (line, script),
            next,
        ),
        lines_read(ts, next, script, done.push(line), value, at),
    ensures
        lines_read(ts, pos, shebang, done, value, at),
{
    let w = pieces_width(line);
    let end = pos + 1 + w;
    let more = done.push(line);
    let rest = value.0.skip(more.len() as int);
    let lines = value.0.skip(done.len() as int);
    assert(line.skip(0) =~= line);
    assert(value.0.take(more.len() as int)[done.len() as int] == line);
    assert(lines[0] == line);
    assert(lines.skip(1) =~= rest);
    assert(done =~= value.0.take(done.len() as int)) by {
        assert(more.take(done.len() as int) =~= done);
        assert(more == value.0.take(more.len() as int));
    }
    let all = ts.subrange(pos as int, at - 1);
    assert(ts[end as int].class == TokenKind::Eol || ts[end as int].class == TokenKind::Dedent);
    assert(all[0] == ts[pos as int]);
    if ts[end as int].class == TokenKind::Eol {
        assert(next == end + 1);
        assert(all[w as int + 1] == ts[end as int]);
        assert(all.subrange(1, w as int + 1) =~= ts.subrange(pos as int + 1, end as int));
        assert(all.skip(w as int + 2) =~= ts.subrange(next as int, at - 1));
    } else {
        assert(next == end);
        let left = ts.subrange(next as int, at - 1);
        if left.len() > 0 {
            assert(left[0] == ts[end as int]);
        }
        assert(at - 1 == end);
        assert(rest.len() == 0);
        assert(lines.len() == 1);
        assert(all.subrange(1, w as int + 1) =~= ts.subrange(pos as int + 1, end as int));
    }
    assert forall|i: int| done.len() <= i < value.0.len() && i > 0 implies may_follow(
        #[trigger] value.0[i],
        value.1,
    ) by {
        if i == done.len() {
            assert(value.0[i] == line);
        }
    }
}

/// What is parsed as the lines of a recipe is spelled.
#[verifier::rlimit(40)]
proof fn lemma_lines_read(
    ts: Seq<TokenView>,
    pos: nat,
    shebang: bool,
    done: Seq<Seq<FragmentView>>,
)
    requires
        all_shaped(ts),
        phase_of(ts) is Some,
        pos <= ts.len(),
        phase_of(ts.take(pos as int)) == Some(Phase::Body) || (pos < ts.len() && ts[pos as int].class
            == TokenKind::Dedent),
    ensures
        parse_lines(ts, pos, shebang, done) matches Parsed::Done { value, at } ==> lines_read(
            ts,
            pos,
            shebang,
            done,
            value,
            at,
        ),
    decreases ts.len() - pos,
{
    if pos < ts.len() {
        let token = ts[pos as int];
        lemma_phase_take(ts, pos as int);
        if token.class == TokenKind::Dedent {
            assert(done.skip(done.len() as int) =~= Seq::empty());
            assert(done.take(done.len() as int) =~= done);
            assert(ts.subrange(pos as int, pos as int) =~= Seq::empty());
        } else if token.class == TokenKind::Eol {
            lemma_lines_read(ts, pos + 1, shebang, done);
            if let Parsed::Done { value, at } = parse_lines(ts, pos + 1, shebang, done) {
                let all = ts.subrange(pos as int, at - 1);
                assert(all[0] == token);
                assert(all.skip(1) =~= ts.subrange(pos as int + 1, at - 1));
            }
        } else if token.class == TokenKind::Line {
            let none = Seq::<FragmentView>::empty();
            lemma_pieces_advance(ts, pos + 1, done.len() == 0, shebang, none);
            lemma_pieces_read(ts, pos + 1, done.len() == 0, shebang, none);
            if let Parsed::Done { value: read, at: next } = parse_pieces(
                ts,
                pos + 1,
                done.len() == 0,
                shebang,
                none,
            ) {
                let line = read.0;
                let end = pos + 1 + pieces_width(line);
                assert(line.skip(0) =~= line);
                lemma_phase_take(ts, end as int);
                lemma_lines_read(ts, next, read.1, done.push(line));
                if let Parsed::Done { value, at } = parse_lines(ts, next, read.1, done.push(line)) {
                    lemma_line_before(ts, pos, shebang, read.1, done, line, next, value, at);
                }
            }
        }
    }
}

/// What is spelled as the lines of a recipe is parsed.
#[verifier::rlimit(60)]
proof fn lemma_lines_spelled(
    ts: Seq<TokenView>,
    pos: nat,
    shebang: bool,
    done: Seq<Seq<FragmentView>>,
    lines: Seq<Seq<FragmentView>>,
    end: nat,
)
    requires
        all_shaped(ts),
        pos <= end < ts.len(),
        ts[end as int].class == TokenKind::Dedent,
        spells_lines(ts.subrange(pos as int, end as int), lines),
        done.len() == 0 ==> !shebang,
        ({
            let script = if done.len() == 0 {
                lines.len() > 0 && is_script_line(lines[0])
            } else {
                shebang
            };
            forall|i: int|
                0 <= i < lines.len() && done.len() + i > 0 ==> may_follow(
                    #[trigger] lines[i],
                    script,
                )
        }),
    ensures
        parse_lines(ts, pos, shebang, done) == (Parsed::Done {
            value: (
                done + lines,
                if done.len() == 0 {
                    lines.len() > 0 && is_script_line(lines[0])
                } else {
                    shebang
                },
            ),
            at: end + 1,
        }),
    decreases end - pos,
{
    let all = ts.subrange(pos as int, end as int);
    if pos == end {
        assert(lines.len() == 0);
        assert(done + lines =~= done);
    } else {
        let token = ts[pos as int];
        assert(all[0] == token);
        if token.class == TokenKind::Eol {
            assert(all.skip(1) =~= ts.subrange(pos as int + 1, end as int));
            lemma_lines_spelled(ts, pos + 1, shebang, done, lines, end);
        } else {
            let line = lines[0];
            let rest = lines.skip(1);
            let w = pieces_width(line);
            let stop = pos + 1 + w;
            let none = Seq::<FragmentView>::empty();
            assert(all.subrange(1, w as int + 1) =~= ts.subrange(pos as int + 1, stop as int));
            law_lines_end_or_are_at_fault(ts, pos + 1, done.len() == 0, shebang, line);
            let script = shebang || (done.len() == 0 && is_script_line(line));
            let more = done.push(line);
            assert(more + rest =~= done + lines);
            assert forall|i: int| 0 <= i < rest.len() implies may_follow(
                #[trigger] rest[i],
                script,
            ) by {
                assert(rest[i] == lines[i + 1]);
            }
            if w + 1 == all.len() {
                assert(stop == end);
                assert(ts.subrange(end as int, end as int) =~= Seq::empty());
                assert(rest =~= Seq::empty());
                lemma_lines_spelled(ts, end, script, more, rest, end);
            } else {
                assert(all[w as int + 1] == ts[stop as int]);
                assert(all.skip(w as int + 2) =~= ts.subrange(stop as int + 1, end as int));
                lemma_lines_spelled(ts, stop + 1, script, more, rest, end);
            }
        }
    }
}

/// Outside of the lines of recipes, names, signs and ends of lines lead to nothing else.
pub proof fn lemma_still_outside(ts: Seq<TokenView>, pos: nat, end: nat)
    requires
        phase_of(ts) is Some,
        pos <= end <= ts.len(),
        phase_of(ts.take(pos as int)) == Some(Phase::Outside),
        forall|k: int| pos <= k < end ==> (#[trigger] ts[k]).class != TokenKind::Indent,
    ensures
        phase_of(ts.take(end as int)) == Some(Phase::Outside),
    decreases end - pos,
{
    if pos < end {
        lemma_phase_take(ts, pos as int);
        lemma_still_outside(ts, pos + 1, end);
    }
}

/// What is parsed as a recipe is spelled.
#[verifier::rlimit(40)]
pub proof fn lemma_recipe_read(ts: Seq<TokenView>, pos: nat, name: Seq<char>, line_number: nat)
    requires
        all_shaped(ts),
        phase_of(ts) is Some,
        pos <= ts.len(),
        phase_of(ts.take(pos as int)) == Some(Phase::Outside),
    ensures
        parse_recipe(ts, pos, name, line_number) matches Parsed::Done { value, at } ==> {
            &&& value.name == name
            &&& value.line_number == line_number
            &&& recipe_at(ts, pos, value, at)
        },
{
    let none = Seq::<TokenView>::empty();
    assert(ts.subrange(pos as int, pos as int) =~= none);
    lemma_names_read(ts, pos, name, true, 0);
    if let Parsed::Done { value: arguments, at: colon } = parse_names(ts, pos, name, true, none) {
        if ts[colon as int].class == TokenKind::Colon {
            assert(ts.subrange(colon as int + 1, colon as int + 1) =~= none);
            lemma_names_read(ts, colon + 1, name, false, 0);
            if let Parsed::Done { value: dependencies, at: end } = parse_names(
                ts,
                colon + 1,
                name,
                false,
                none,
            ) {
                if ts[end as int].class == TokenKind::Eol && end + 1 < ts.len()
                    && ts[end as int + 1].class == TokenKind::Indent {
                    assert forall|k: int| pos <= k < end + 1 implies (#[trigger] ts[k]).class
                        != TokenKind::Indent by {
                        if k < colon {
                            assert(ts[k].class == TokenKind::Name);
                        } else if colon < k < end {
                            assert(ts[k].class == TokenKind::Name);
                        }
                    }
                    lemma_still_outside(ts, pos, end + 1);
                    lemma_phase_take(ts, end as int + 1);
                    lemma_lines_read(ts, end + 2, false, Seq::empty());
                    if let Parsed::Done { value, at } = parse_lines(
                        ts,
                        end + 2,
                        false,
                        Seq::empty(),
                    ) {
                        assert(value.0.skip(0) =~= value.0);
                    }
                }
            }
        }
    }
}

/// What is spelled as a recipe is parsed.
#[verifier::rlimit(40)]
pub proof fn lemma_recipe_spelled(ts: Seq<TokenView>, pos: nat, r: RecipeView, at: nat)
    requires
        all_shaped(ts),
        recipe_at(ts, pos, r, at),
    ensures
        parse_recipe(ts, pos, r.name, r.line_number) == (Parsed::Done { value: r, at }),
{
    let a = r.argument_tokens.len();
    let d = r.dependency_tokens.len();
    let colon = pos + a;
    let end = colon + 1 + d;
    law_names_are_read(ts, pos, r.name, true, a);
    law_names_are_read(ts, colon + 1, r.name, false, d);
    assert(r.evaluated_lines =~= Seq::empty());
    if ts[end as int].class == TokenKind::Eol && ts[end as int + 1].class == TokenKind::Indent {
        let none = Seq::<Seq<FragmentView>>::empty();
        lemma_lines_spelled(ts, end + 2, false, none, r.lines, (at - 1) as nat);
        assert(none + r.lines =~= r.lines);
    } else {
        assert(r.lines =~= Seq::empty());
    }
}

/// A recipe is parsed if and only if the tokens spell it.
pub proof fn law_recipes_are_spelled(
    ts: Seq<TokenView>,
    pos: nat,
    name: Seq<char>,
    line_number: nat,
    r: RecipeView,
    at: nat,
)
    requires
        all_shaped(ts),
        phase_of(ts) is Some,
        pos <= ts.len(),
        phase_of(ts.take(pos as int)) == Some(Phase::Outside),
    ensures
        parse_recipe(ts, pos, name, line_number) == (Parsed::Done { value: r, at }) <==> {
            &&& r.name == name
            &&& r.line_number == line_number
            &&& recipe_at(ts, pos, r, at)
        },
{
    lemma_recipe_read(ts, pos, name, line_number);
    if recipe_at(ts, pos, r, at) && r.name == name && r.line_number == line_number {
        lemma_recipe_spelled(ts, pos, r, at);
    }
}

/// Lines that are spelled, each with its end, are passed over.
#[verifier::rlimit(60)]
pub proof fn law_lines_are_passed(
    ts: Seq<TokenView>,
    pos: nat,
    shebang: bool,
    done: Seq<Seq<FragmentView>>,
    lines: Seq<Seq<FragmentView>>,
    end: nat,
)
    requires
        all_shaped(ts),
        pos <= end < ts.len(),
        pos < end ==> ts[end - 1].class == TokenKind::Eol,
        spells_lines(ts.subrange(pos as int, end as int), lines),
        done.len() == 0 ==> !shebang,
        ({
            let script = if done.len() == 0 {
                lines.len() > 0 && is_script_line(lines[0])
            } else {
                shebang
            };
            forall|i: int|
                0 <= i < lines.len() && done.len() + i > 0 ==> may_follow(
                    #[trigger] lines[i],
                    script,
                )
        }),
    ensures
        parse_lines(ts, pos, shebang, done) == parse_lines(
            ts,
            end,
            if done.len() == 0 {
                lines.len() > 0 && is_script_line(lines[0])
            } else {
                shebang
            },
            done + lines,
        ),
    decreases end - pos,
{
    let all = ts.subrange(pos as int, end as int);
    if pos == end {
        assert(lines.len() == 0);
        assert(done + lines =~= done);
    } else {
        let token = ts[pos as int];
        assert(all[0] == token);
        if token.class == TokenKind::Eol {
            assert(all.skip(1) =~= ts.subrange(pos as int + 1, end as int));
            law_lines_are_passed(ts, pos + 1, shebang, done, lines, end);
        } else {
            let line = lines[0];
            let rest = lines.skip(1);
            let w = pieces_width(line);
            let stop = pos + 1 + w;
            assert(all.subrange(1, w as int + 1) =~= ts.subrange(pos as int + 1, stop as int));
            law_lines_end_or_are_at_fault(ts, pos + 1, done.len() == 0, shebang, line);
            let script = shebang || (done.len() == 0 && is_script_line(line));
            let more = done.push(line);
            assert(more + rest =~= done + lines);
            assert forall|i: int| 0 <= i < rest.len() implies may_follow(
                #[trigger] rest[i],
                script,
            ) by {
                assert(rest[i] == lines[i + 1]);
            }
            if w + 1 == all.len() {
                lemma_pieces_classes(all.subrange(1, w as int + 1), line);
                if w > 0 {
                    assert(all.subrange(1, w as int + 1)[w - 1] == ts[end - 1]);
                }
                assert(false);
            } else {
                assert(all[w as int + 1] == ts[stop as int]);
                assert(all.skip(w as int + 2) =~= ts.subrange(stop as int + 1, end as int));
                law_lines_are_passed(ts, stop + 1, script, more, rest, end);
            }
        }
    }
}

/// There is no end of a line among the tokens of pieces.
proof fn lemma_pieces_classes(ts: Seq<TokenView>, line: Seq<FragmentView>)
    requires
        spells_pieces(ts, line),
    ensures
        forall|k: int| 0 <= k < ts.len() ==> (#[trigger] ts[k]).class != TokenKind::Eol,
    decreases line.len(),
{
    if line.len() > 0 {
        let w = piece_width(line[0]) as int;
        let own = ts.take(w);
        lemma_pieces_classes(ts.skip(w), line.skip(1));
        if let FragmentView::Expression { expression } = line[0] {
            let v = width(expression) as int;
            lemma_expression_classes(own.subrange(1, v + 1), expression);
            assert forall|k: int| 0 <= k < own.len() implies (#[trigger] own[k]).class
                != TokenKind::Eol by {
                if 0 < k < v + 1 {
                    assert(own.subrange(1, v + 1)[k - 1] == own[k]);
                }
            }
        } else {
            assert(own[0].class == TokenKind::Text);
        }
        assert forall|k: int| 0 <= k < ts.len() implies (#[trigger] ts[k]).class
            != TokenKind::Eol by {
            if k < w {
                assert(own[k] == ts[k]);
            } else {
                assert(ts.skip(w)[k - w] == ts[k]);
            }
        }
    }
}

/// What is wrong with a line, after lines that are spelled, is what is wrong with the lines.
pub proof fn law_faults_in_lines(
    ts: Seq<TokenView>,
    pos: nat,
    lines: Seq<Seq<FragmentView>>,
    end: nat,
)
    requires
        all_shaped(ts),
        pos <= end < ts.len(),
        pos < end ==> ts[end - 1].class == TokenKind::Eol,
        spells_lines(ts.subrange(pos as int, end as int), lines),
        lines_agree(lines, lines.len() > 0 && is_script_line(lines[0])),
        ts[end as int].class == TokenKind::Line,
    ensures
        ({
            let script = lines.len() > 0 && is_script_line(lines[0]);
            let came = parse_lines(ts, pos, false, Seq::empty());
            let inner = parse_pieces(ts, end + 1, lines.len() == 0, script, Seq::empty());
            inner is Fail ==> came == (Parsed::<(Seq<Seq<FragmentView>>, bool)>::Fail {
                error: inner->Fail_error,
                at: inner->Fail_at,
            })
        }),
{
    law_lines_are_passed(ts, pos, false, Seq::empty(), lines, end);
    assert(Seq::<Seq<FragmentView>>::empty() + lines =~= lines);
}

/// Of a recipe, the first token that it cannot go on with is reported: after arguments, one that is
/// no colon; after dependencies, one that does not end the line; and otherwise what is wrong with
/// its lines.
pub proof fn law_faults_in_recipes(
    ts: Seq<TokenView>,
    pos: nat,
    name: Seq<char>,
    line_number: nat,
    a: nat,
    d: nat,
)
    requires
        names_at(ts, pos, a),
    ensures
        ({
            let colon = ts[(pos + a) as int];
            let came = parse_recipe(ts, pos, name, line_number);
            &&& colon.class == TokenKind::Name && (exists|k: int|
                pos <= k < pos + a && (#[trigger] ts[k]).lexeme == colon.lexeme) ==> came == (
            Parsed::<RecipeView>::Fail {
                error: colon.error(
                    ErrorKindView::DuplicateArgument { recipe: name, argument: colon.lexeme },
                ),
                at: pos + a + 1,
            })
            &&& colon.class != TokenKind::Name && colon.class != TokenKind::Colon ==> came == (
            Parsed::<RecipeView>::Fail {
                error: colon.error(
                    ErrorKindView::UnexpectedToken {
                        expected: if a == 0 {
                            seq![TokenKind::Name, TokenKind::Colon, TokenKind::Equals]
                        } else {
                            seq![TokenKind::Name, TokenKind::Colon]
                        },
                        found: colon.class,
                    },
                ),
                at: pos + a + 1,
            })
            &&& colon.class == TokenKind::Colon && names_at(ts, pos + a + 1, d) ==> {
                let end = pos + a + 1 + d;
                let token = ts[end as int];
                let inner = parse_lines(ts, end + 2, false, Seq::empty());
                &&& token.class == TokenKind::Name && (exists|k: int|
                    pos + a + 1 <= k < end && (#[trigger] ts[k]).lexeme == token.lexeme) ==> came
                    == (Parsed::<RecipeView>::Fail {
                    error: token.error(
                        ErrorKindView::DuplicateDependency {
                            recipe: name,
                            dependency: token.lexeme,
                        },
                    ),
                    at: end + 1,
                })
                &&& token.class != TokenKind::Name && token.class != TokenKind::Eol && token.class
                    != TokenKind::Eof ==> came == (Parsed::<RecipeView>::Fail {
                    error: token.error(
                        ErrorKindView::UnexpectedToken {
                            expected: seq![TokenKind::Name, TokenKind::Eol, TokenKind::Eof],
                            found: token.class,
                        },
                    ),
                    at: end + 1,
                })
                &&& token.class == TokenKind::Eol && end + 1 < ts.len() && ts[end as int + 1].class
                    == TokenKind::Indent && inner is Fail ==> came == (Parsed::<RecipeView>::Fail {
                    error: inner->Fail_error,
                    at: inner->Fail_at,
                })
            }
        }),
{
    law_names_are_read(ts, pos, name, true, a);
    if names_at(ts, pos + a + 1, d) {
        law_names_are_read(ts, pos + a + 1, name, false, d);
    }
}

} // verus!
