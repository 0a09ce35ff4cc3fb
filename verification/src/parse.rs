//! From the text of a justfile to the justfile.

use vstd::prelude::*;
use vstd::string::*;
use vstd::utf8::*;

use crate::error::{Error, ErrorKind, ErrorKindView};
use crate::evaluator::Assignments;
use crate::evaluator_laws::{law_evaluation_ends, tokens_cover};
use crate::expression::ExpressionView;
use crate::file::{check_recipes, first_unknown, leaves_all, lemma_assigned_all, lemma_defined_all};
use crate::file::{lemma_expression_all, lemma_leaves_all, lemma_recipe_all, line_variables};
use crate::file::{lines_variables, parse_file, parse_items, walked, Items, ParsedFile};
use crate::justfile::Justfile;
use crate::lexer::{closed, lex_spec, tokenize, LexedView};
use crate::parser::{is_shebang, lemma_expression_advances, lemma_names_advance};
use crate::parser::{lemma_pieces_advance, lemma_recipe_advances, parse_expression, parse_lines};
use crate::parser::{parse_names, parse_pieces, parse_recipe, Parsed, Parser};
use crate::pattern::{is_good_name, is_lower_or_digit, Pattern};
use crate::recipe::{line_all, lines_all, FragmentView, RecipeView};
use crate::table::{inserted, is_key, lemma_keys};
use crate::text::{byte_len, byte_slice, lemma_byte_slice, lemma_encode_concat};
use crate::token::{all_tokens, countable, token_views, Token, TokenKind, TokenView};
use crate::token_laws::{column_after, count, joined, law_tokens_are_of_their_class};
use crate::token_laws::{law_tokens_end_with_eof, law_tokens_hold_the_text};
use crate::token_laws::{law_tokens_stand_where_they_say, lemma_joined_at, placed};

verus! {

/// That a token is not a comment.
pub open spec fn not_comment() -> spec_fn(TokenView) -> bool {
    |token: TokenView| token.class != TokenKind::Comment
}

/// The first of the tokens from the one at `i` on that is a name but not a good one.
pub open spec fn first_bad_name(ts: Seq<TokenView>, i: nat) -> Option<TokenView>
    decreases ts.len() - i,
{
    if i >= ts.len() {
        None
    } else if ts[i as int].class == TokenKind::Name && !is_good_name(ts[i as int].lexeme) {
        Some(ts[i as int])
    } else {
        first_bad_name(ts, i + 1)
    }
}

/// What comes of parsing the tokens of a text: comments are left out, and every name is to be a
/// good one.
pub open spec fn parse_tokens(text: Seq<char>, tokens: Seq<TokenView>) -> ParsedFile {
    let ts = tokens.filter(not_comment());
    match first_bad_name(ts, 0) {
        Some(token) => ParsedFile::Fail {
            error: token.error(ErrorKindView::BadName { name: token.lexeme }),
        },
        None => parse_file(text, ts, 0),
    }
}

/// What comes of parsing a text.
pub open spec fn parse_text(text: Seq<char>) -> ParsedFile {
    match lex_spec(text) {
        LexedView::Tokens(tokens) => parse_tokens(text, tokens),
        LexedView::Fail(error) => ParsedFile::Fail { error },
        LexedView::Unclosed => ParsedFile::Stuck,
    }
}

/// Whether the last token is the end of the text, and no other token is.
pub open spec fn ended(ts: Seq<TokenView>) -> bool {
    &&& ts.len() > 0
    &&& ts.last().class == TokenKind::Eof
    &&& forall|i: int| 0 <= i < ts.len() - 1 ==> (#[trigger] ts[i]).class != TokenKind::Eof
}

/// That a string has something between its quotes, and that a token stands in `text` where it says.
pub open spec fn genuine(text: Seq<char>) -> spec_fn(TokenView) -> bool {
    |token: TokenView|
        {
            let from = token.index + byte_len(token.prefix);
            &&& token.class == TokenKind::StringToken ==> byte_slice(token.lexeme, 1, 2) is Some
            &&& byte_slice(text, from as int, (from + byte_len(token.lexeme)) as int) == Some(
                token.lexeme,
            )
        }
}

/// Before the end of the text, an expression is parsed or found to be wrong.
pub proof fn lemma_expression_ends(
    text: Seq<char>,
    ts: Seq<TokenView>,
    pos: nat,
    interpolation: bool,
)
    requires
        ended(ts),
        all_tokens(ts, genuine(text)),
        pos < ts.len(),
    ensures
        parse_expression(ts, pos, interpolation) !is Stuck,
        parse_expression(ts, pos, interpolation) matches Parsed::Done { value, at } ==> at
            < ts.len(),
    decreases ts.len() - pos,
{
    assert(genuine(text)(ts[pos as int]));
    if pos + 2 < ts.len() {
        lemma_expression_ends(text, ts, pos + 2, interpolation);
    }
}

/// Before the end of the text, names are parsed or found to be wrong.
proof fn lemma_names_end(
    ts: Seq<TokenView>,
    pos: nat,
    recipe: Seq<char>,
    arguments: bool,
    done: Seq<TokenView>,
)
    requires
        ended(ts),
        pos < ts.len(),
    ensures
        parse_names(ts, pos, recipe, arguments, done) !is Stuck,
    decreases ts.len() - pos,
{
    if pos + 1 < ts.len() {
        lemma_names_end(ts, pos + 1, recipe, arguments, done.push(ts[pos as int]));
    }
}

/// Before the end of the text, a line is parsed or found to be wrong.
proof fn lemma_pieces_end(
    text: Seq<char>,
    ts: Seq<TokenView>,
    pos: nat,
    first_line: bool,
    shebang: bool,
    done: Seq<FragmentView>,
)
    requires
        ended(ts),
        all_tokens(ts, genuine(text)),
        pos < ts.len(),
    ensures
        parse_pieces(ts, pos, first_line, shebang, done) !is Stuck,
        parse_pieces(ts, pos, first_line, shebang, done) matches Parsed::Done { value, at } ==> at
            < ts.len(),
    decreases ts.len() - pos,
{
    if pos + 1 < ts.len() {
        let token = ts[pos as int];
        let starts = done.len() == 0 && first_line && is_shebang(token.lexeme);
        let piece = FragmentView::Text { text: token };
        lemma_pieces_end(text, ts, pos + 1, first_line, shebang || starts, done.push(piece));
        lemma_expression_advances(ts, pos + 1, true);
        lemma_expression_ends(text, ts, pos + 1, true);
        if let Parsed::Done { value, at } = parse_expression(ts, pos + 1, true) {
            if at + 1 < ts.len() {
                let piece = FragmentView::Expression { expression: value };
                lemma_pieces_end(text, ts, at + 1, first_line, shebang, done.push(piece));
            }
        }
    }
}

/// Before the end of the text, the lines of a recipe are parsed or found to be wrong.
proof fn lemma_lines_end(
    text: Seq<char>,
    ts: Seq<TokenView>,
    pos: nat,
    shebang: bool,
    done: Seq<Seq<FragmentView>>,
)
    requires
        ended(ts),
        all_tokens(ts, genuine(text)),
        pos < ts.len(),
    ensures
        parse_lines(ts, pos, shebang, done) !is Stuck,
        parse_lines(ts, pos, shebang, done) matches Parsed::Done { value, at } ==> at < ts.len(),
    decreases ts.len() - pos,
{
    if pos + 1 < ts.len() {
        lemma_lines_end(text, ts, pos + 1, shebang, done);
        lemma_pieces_advance(ts, pos + 1, done.len() == 0, shebang, Seq::empty());
        lemma_pieces_end(text, ts, pos + 1, done.len() == 0, shebang, Seq::empty());
        if let Parsed::Done { value, at } = parse_pieces(
            ts,
            pos + 1,
            done.len() == 0,
            shebang,
            Seq::empty(),
        ) {
            lemma_lines_end(text, ts, at, value.1, done.push(value.0));
        }
    }
}

/// Before the end of the text, a recipe is parsed or found to be wrong.
pub proof fn lemma_recipe_ends(
    text: Seq<char>,
    ts: Seq<TokenView>,
    pos: nat,
    name: Seq<char>,
    line_number: nat,
)
    requires
        ended(ts),
        all_tokens(ts, genuine(text)),
        pos < ts.len(),
    ensures
        parse_recipe(ts, pos, name, line_number) !is Stuck,
        parse_recipe(ts, pos, name, line_number) matches Parsed::Done { value, at } ==> at
            < ts.len(),
{
    lemma_names_end(ts, pos, name, true, Seq::empty());
    lemma_names_advance(ts, pos, name, true, Seq::empty());
    if let Parsed::Done { value: arguments, at } = parse_names(ts, pos, name, true, Seq::empty()) {
        if at + 1 < ts.len() {
            lemma_names_end(ts, at + 1, name, false, Seq::empty());
            lemma_names_advance(ts, at + 1, name, false, Seq::empty());
            if let Parsed::Done { value: dependencies, at: end } = parse_names(
                ts,
                at + 1,
                name,
                false,
                Seq::empty(),
            ) {
                if end + 1 < ts.len() {
                    lemma_lines_end(text, ts, end + 1, false, Seq::empty());
                }
                if end + 2 < ts.len() {
                    lemma_lines_end(text, ts, end + 2, false, Seq::empty());
                }
            }
        }
    }
}

impl Items {
    /// The assignments among the items.
    pub open spec fn variables(self) -> Assignments {
        Assignments { expressions: self.assignments, tokens: self.assignment_tokens }
    }
}

/// There is a token for the variable of an assignment that is added.
proof fn lemma_assigned_covers(items: Items, token: TokenView, value: ExpressionView)
    requires
        items.wf(),
        tokens_cover(items.variables()),
    ensures
        tokens_cover(items.assigned(token, value).variables()),
{
    let name = token.lexeme;
    assert forall|other: Seq<char>|
        is_key(inserted(items.assignments, name, value), other) implies #[trigger] is_key(
        inserted(items.assignment_tokens, name, token),
        other,
    ) by {
        lemma_keys(items.assignments, name, value, other);
        lemma_keys(items.assignment_tokens, name, token, other);
        assert(is_key(items.variables().expressions, other) ==> is_key(
            items.variables().tokens,
            other,
        ));
    }
}

/// Items are parsed up to the end of the text, or found to be wrong.
#[verifier::rlimit(40)]
pub proof fn lemma_items_end(text: Seq<char>, ts: Seq<TokenView>, pos: nat, done: Items)
    requires
        ended(ts),
        all_tokens(ts, genuine(text)),
        pos < ts.len(),
        done.wf(),
        done.all(genuine(text)),
        tokens_cover(done.variables()),
    ensures
        match parse_items(text, ts, pos, done) {
            Parsed::Done { value, at } => at == ts.len() && value.wf() && value.all(genuine(text))
                && tokens_cover(value.variables()),
            Parsed::Fail { error, at } => true,
            Parsed::Stuck => false,
        },
    decreases ts.len() - pos,
{
    let p = genuine(text);
    let token = ts[pos as int];
    if token.class == TokenKind::Eol {
        lemma_items_end(text, ts, pos + 1, done);
    } else if token.class == TokenKind::Name {
        assert(pos + 1 < ts.len());
        if ts[pos as int + 1].class == TokenKind::Equals {
            assert(pos + 2 < ts.len());
            lemma_expression_ends(text, ts, pos + 2, false);
            lemma_expression_advances(ts, pos + 2, false);
            lemma_expression_all(ts, pos + 2, false, p);
            if let Parsed::Done { value, at } = parse_expression(ts, pos + 2, false) {
                assert(p(token));
                lemma_assigned_all(done, token, value, p);
                lemma_assigned_covers(done, token, value);
                lemma_items_end(text, ts, at, done.assigned(token, value));
            }
        } else {
            lemma_recipe_ends(text, ts, pos + 1, token.lexeme, token.line);
            lemma_recipe_advances(ts, pos + 1, token.lexeme, token.line);
            lemma_recipe_all(ts, pos + 1, token.lexeme, token.line, p);
            if let Parsed::Done { value, at } = parse_recipe(
                ts,
                pos + 1,
                token.lexeme,
                token.line,
            ) {
                lemma_defined_all(done, token, value, p);
                lemma_items_end(text, ts, at, done.defined(token, value));
            }
        }
    }
}

/// What holds of the leaves of an expression holds of the variables that a walk over them meets.
proof fn lemma_walked_all(leaves: Seq<Option<TokenView>>, p: spec_fn(TokenView) -> bool)
    requires
        leaves_all(leaves, p),
    ensures
        all_tokens(walked(leaves), p),
    decreases leaves.len(),
{
    if leaves.len() > 0 {
        lemma_walked_all(leaves.skip(1), p);
    }
}

/// What holds of the variables in a line holds of those that are met.
proof fn lemma_line_variables_all(
    line: Seq<FragmentView>,
    i: nat,
    p: spec_fn(TokenView) -> bool,
)
    requires
        line_all(line, p),
    ensures
        all_tokens(line_variables(line, i), p),
    decreases line.len() - i,
{
    if i < line.len() {
        lemma_line_variables_all(line, i + 1, p);
        if let FragmentView::Expression { expression } = line[i as int] {
            lemma_leaves_all(expression, p);
            lemma_walked_all(expression.leaves(), p);
        }
    }
}

/// What holds of the variables in lines holds of those that are met.
pub proof fn lemma_lines_variables_all(
    lines: Seq<Seq<FragmentView>>,
    i: nat,
    p: spec_fn(TokenView) -> bool,
)
    requires
        lines_all(lines, p),
    ensures
        all_tokens(lines_variables(lines, i), p),
    decreases lines.len() - i,
{
    if i < lines.len() {
        lemma_lines_variables_all(lines, i + 1, p);
        lemma_line_variables_all(lines[i as int], 0, p);
    }
}

/// What holds of all variables holds of the first unknown one.
pub proof fn lemma_first_unknown_all(
    variables: Seq<TokenView>,
    assignments: Seq<(Seq<char>, ExpressionView)>,
    arguments: Seq<Seq<char>>,
    p: spec_fn(TokenView) -> bool,
)
    requires
        all_tokens(variables, p),
    ensures
        first_unknown(variables, assignments, arguments) matches Some(token) ==> p(token),
    decreases variables.len(),
{
    if variables.len() > 0 {
        lemma_first_unknown_all(variables.skip(1), assignments, arguments, p);
    }
}

/// Recipes of genuine tokens go with the assignments or are found to be wrong.
proof fn lemma_check_ends(
    text: Seq<char>,
    assignments: Seq<(Seq<char>, ExpressionView)>,
    recipes: Seq<(Seq<char>, RecipeView)>,
    i: nat,
)
    requires
        forall|k: int| 0 <= k < recipes.len() ==> (#[trigger] recipes[k]).1.all(genuine(text)),
    ensures
        check_recipes(text, assignments, recipes, i) !is Stuck,
    decreases recipes.len() - i,
{
    if i < recipes.len() {
        let recipe = recipes[i as int].1;
        let variables = lines_variables(recipe.lines, 0);
        lemma_lines_variables_all(recipe.lines, 0, genuine(text));
        lemma_first_unknown_all(variables, assignments, recipe.arguments, genuine(text));
        lemma_check_ends(text, assignments, recipes, i + 1);
    }
}

/// The tokens of a text are parsed, or something is found to be wrong with them.
proof fn lemma_file_ends(text: Seq<char>, ts: Seq<TokenView>, pos: nat)
    requires
        ended(ts),
        all_tokens(ts, genuine(text)),
        pos < ts.len(),
    ensures
        parse_file(text, ts, pos) !is Stuck,
{
    lemma_items_end(text, ts, pos, Items::none());
    if let Parsed::Done { value: items, at } = parse_items(text, ts, pos, Items::none()) {
        lemma_check_ends(text, items.assignments, items.recipes, 0);
        law_evaluation_ends(items.variables(), items.recipes);
    }
}

/// A column is never beyond what the tokens hold.
proof fn lemma_column(tokens: Seq<TokenView>)
    ensures
        column_after(tokens) <= byte_len(joined(tokens)),
    decreases tokens.len(),
{
    if tokens.len() > 0 {
        let fewer = tokens.drop_last();
        let last = tokens.last();
        lemma_column(fewer);
        lemma_encode_concat(joined(fewer), last.prefix + last.lexeme);
        assert(joined(tokens) =~= joined(fewer) + (last.prefix + last.lexeme));
    }
}

/// A string has something between its quotes.
pub proof fn lemma_quoted(lexeme: Seq<char>)
    requires
        lexeme.len() == 3,
        lexeme[0] == '"',
        is_lower_or_digit(lexeme[1]),
        lexeme[2] == '"',
    ensures
        byte_slice(lexeme, 1, 2) == Some(seq![lexeme[1]]),
{
    let quote = seq!['"'];
    let inner = seq![lexeme[1]];
    assert(lexeme =~= quote + inner + quote);
    is_ascii_chars_encode_utf8(quote);
    is_ascii_chars_encode_utf8(inner);
    lemma_byte_slice(quote, inner, quote);
}

/// A token is found in its text where it stands, which is not beyond the text's end.
proof fn lemma_token_found(text: Seq<char>, tokens: Seq<TokenView>, i: int)
    requires
        joined(tokens) == text,
        placed(text, tokens),
        0 <= i < tokens.len(),
    ensures
        ({
            let from = tokens[i].index + byte_len(tokens[i].prefix);
            &&& byte_slice(text, from as int, (from + byte_len(tokens[i].lexeme)) as int) == Some(
                tokens[i].lexeme,
            )
            &&& from <= byte_len(text)
            &&& tokens[i].column + byte_len(tokens[i].prefix) <= byte_len(text)
        }),
{
    let token = tokens[i];
    let before = joined(tokens.take(i));
    let rest = lemma_joined_at(tokens, i);
    lemma_byte_slice(before + token.prefix, token.lexeme, rest);
    lemma_encode_concat(before, token.prefix);
    lemma_encode_concat(before + token.prefix, token.lexeme);
    lemma_encode_concat(before + token.prefix + token.lexeme, rest);
    lemma_column(tokens.take(i));
}

/// The tokens of a text are genuine, and where they stand can be counted if the text can.
pub proof fn lemma_tokens_genuine(text: Seq<char>, tokens: Seq<TokenView>)
    requires
        lex_spec(text) == LexedView::Tokens(tokens),
    ensures
        all_tokens(tokens, genuine(text)),
        byte_len(text) <= usize::MAX ==> all_tokens(tokens, countable()),
{
    law_tokens_hold_the_text(text, tokens);
    law_tokens_stand_where_they_say(text, tokens);
    law_tokens_are_of_their_class(text, tokens);
    assert forall|i: int| 0 <= i < tokens.len() implies genuine(text)(#[trigger] tokens[i]) && (
    byte_len(text) <= usize::MAX ==> tokens[i].fits()) by {
        lemma_token_found(text, tokens, i);
        if tokens[i].class == TokenKind::StringToken {
            lemma_quoted(tokens[i].lexeme);
        }
    }
}

/// What holds of all tokens holds of those that are kept.
pub proof fn lemma_filter_all(
    tokens: Seq<TokenView>,
    keep: spec_fn(TokenView) -> bool,
    p: spec_fn(TokenView) -> bool,
)
    requires
        all_tokens(tokens, p),
    ensures
        all_tokens(tokens.filter(keep), p),
    decreases tokens.len(),
{
    reveal(Seq::filter);
    if tokens.len() > 0 {
        lemma_filter_all(tokens.drop_last(), keep, p);
        assert(p(tokens.last()));
    }
}

/// Where no token is counted there is none.
proof fn lemma_count_none(tokens: Seq<TokenView>, class: TokenKind)
    requires
        count(tokens, class) == 0,
    ensures
        all_tokens(tokens, |token: TokenView| token.class != class),
    decreases tokens.len(),
{
    if tokens.len() > 0 {
        lemma_count_none(tokens.drop_last(), class);
        assert forall|i: int| 0 <= i < tokens.len() implies (#[trigger] tokens[i]).class != class by {
            if i < tokens.len() - 1 {
                assert(tokens[i] == tokens.drop_last()[i]);
            }
        }
    }
}

/// Without comments the tokens still end with the end of the text.
pub proof fn lemma_filter_ends(text: Seq<char>, tokens: Seq<TokenView>)
    requires
        lex_spec(text) == LexedView::Tokens(tokens),
    ensures
        ended(tokens.filter(not_comment())),
{
    reveal(Seq::filter);
    let other = |token: TokenView| token.class != TokenKind::Eof;
    law_tokens_end_with_eof(text, tokens);
    lemma_count_none(tokens.drop_last(), TokenKind::Eof);
    lemma_filter_all(tokens.drop_last(), not_comment(), other);
    let fewer = tokens.drop_last().filter(not_comment());
    let kept = tokens.filter(not_comment());
    assert(kept == fewer.push(tokens.last()));
    assert forall|i: int| 0 <= i < kept.len() - 1 implies (#[trigger] kept[i]).class
        != TokenKind::Eof by {
        assert(other(fewer[i]));
    }
}

/// A text of which each interpolation is closed is parsed, or something is found to be wrong with
/// it.
pub proof fn law_closed_texts_are_parsed(text: Seq<char>)
    requires
        closed(text),
    ensures
        parse_text(text) !is Stuck,
{
    if let LexedView::Tokens(tokens) = lex_spec(text) {
        lemma_tokens_genuine(text, tokens);
        lemma_filter_ends(text, tokens);
        lemma_filter_all(tokens, not_comment(), genuine(text));
        lemma_file_ends(text, tokens.filter(not_comment()), 0);
    }
}

/// At each of the tokens of a text, with or without the comments, an expression, a recipe or a
/// justfile is parsed, or something is found to be wrong: there are never too few tokens to say.
pub proof fn law_tokens_never_run_out(
    text: Seq<char>,
    tokens: Seq<TokenView>,
    ts: Seq<TokenView>,
    pos: nat,
    interpolation: bool,
    name: Seq<char>,
    line_number: nat,
)
    requires
        lex_spec(text) == LexedView::Tokens(tokens),
        ts == tokens || ts == tokens.filter(not_comment()),
        pos < ts.len(),
    ensures
        parse_expression(ts, pos, interpolation) !is Stuck,
        parse_recipe(ts, pos, name, line_number) !is Stuck,
        parse_file(text, ts, pos) !is Stuck,
{
    lemma_tokens_genuine(text, tokens);
    lemma_filter_all(tokens, not_comment(), genuine(text));
    lemma_filter_ends(text, tokens);
    assert(ended(tokens)) by {
        law_tokens_end_with_eof(text, tokens);
        lemma_count_none(tokens.drop_last(), TokenKind::Eof);
        assert forall|i: int| 0 <= i < tokens.len() - 1 implies (#[trigger] tokens[i]).class
            != TokenKind::Eof by {
            assert(tokens.drop_last()[i] == tokens[i]);
        }
    }
    lemma_expression_ends(text, ts, pos, interpolation);
    lemma_recipe_ends(text, ts, pos, name, line_number);
    lemma_file_ends(text, ts, pos);
}

/// The tokens without the comments.
fn without_comments<'a>(tokens: &Vec<Token<'a>>) -> (r: Vec<Token<'a>>)
    ensures
        token_views(r@) == token_views(tokens@).filter(not_comment()),
{
    let ghost all = token_views(tokens@);
    let mut kept: Vec<Token<'a>> = Vec::new();
    let mut i: usize = 0;
    proof {
        reveal(Seq::filter);
        assert(token_views(kept@) =~= all.take(0).filter(not_comment()));
    }
    while i < tokens.len()
        invariant
            i <= tokens@.len(),
            all == token_views(tokens@),
            token_views(kept@) == all.take(i as int).filter(not_comment()),
        decreases tokens@.len() - i,
    {
        let ghost had = token_views(kept@);
        proof {
            reveal(Seq::filter);
            assert(all.take(i + 1).drop_last() =~= all.take(i as int));
            assert(all.take(i + 1).last() == tokens@[i as int]@);
        }
        if tokens[i].class != TokenKind::Comment {
            kept.push(tokens[i]);
            proof {
                assert(token_views(kept@) =~= had.push(tokens@[i as int]@));
            }
        }
        i += 1;
    }
    proof {
        assert(all.take(i as int) =~= all);
    }
    kept
}

/// Parses a justfile.
pub fn parse<'a>(text: &'a str) -> (r: Result<Justfile<'a>, Error<'a>>)
    requires
        closed(text@),
    ensures
        match parse_text(text@) {
            ParsedFile::Done { justfile } => r matches Ok(j) && j.wf() && j@ == justfile,
            ParsedFile::Fail { error } => r matches Err(e) && e@ == error,
            ParsedFile::Stuck => false,
        },
{
    // the bytes of a text can be counted
    let _size: usize = crate::text::len(text);
    proof {
        law_closed_texts_are_parsed(text@);
    }
    let tokens: Vec<Token<'a>> = match tokenize(text) {
        Ok(tokens) => tokens,
        Err(error) => {
            return Err(error);
        },
    };
    let filtered: Vec<Token<'a>> = without_comments(&tokens);
    let ghost ts = token_views(filtered@);
    proof {
        lemma_tokens_genuine(text@, token_views(tokens@));
        lemma_filter_all(token_views(tokens@), not_comment(), countable());
    }
    let mut i: usize = 0;
    while i < filtered.len()
        invariant
            i <= filtered@.len(),
            ts == token_views(filtered@),
            all_tokens(ts, countable()),
            first_bad_name(ts, 0) == first_bad_name(ts, i as nat),
            first_bad_name(ts, 0) matches Some(token) ==> parse_text(text@) == (ParsedFile::Fail {
                error: token.error(ErrorKindView::BadName { name: token.lexeme }),
            }),
        decreases filtered@.len() - i,
    {
        let token: Token<'a> = filtered[i];
        assert(ts[i as int] == token@);
        if token.class == TokenKind::Name && !Pattern::GoodName.is_match(token.lexeme) {
            return Err(token.error(ErrorKind::BadName { name: token.lexeme }));
        }
        i += 1;
    }
    let parser: Parser<'a> = Parser { text, tokens: filtered, position: 0 };
    assert(parser.wf());
    parser.file()
}

} // verus!
