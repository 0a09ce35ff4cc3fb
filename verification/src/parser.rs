//! Parsing tokens.

use vstd::prelude::*;
use vstd::string::*;

use crate::error::{Error, ErrorKind, ErrorKindView, ErrorView};
use crate::expression::{Expression, ExpressionView};
use crate::recipe::{fragment_views, line_views, Fragment, FragmentView, Recipe, RecipeView};
use crate::table::contains;
use crate::text::{byte_slice, names, slice, starts_with};
use crate::token::{lexemes, token_views, Token, TokenKind, TokenView};

verus! {

/// Tokens, and how many of them have been parsed.
pub struct Parser<'a> {
    pub text: &'a str,
    pub tokens: Vec<Token<'a>>,
    pub position: usize,
}

/// What comes of parsing, and how many tokens are behind then.
pub enum Parsed<T> {
    Done { value: T, at: nat },
    Fail { error: ErrorView, at: nat },
    /// There are too few tokens to say, or one does not have the characters of its class.
    Stuck,
}

/// Whether a result is what comes of parsing, with `at` tokens behind.
pub open spec fn agrees<T: View>(
    r: Result<T, Error<'_>>,
    parsed: Parsed<T::V>,
    at: nat,
) -> bool {
    match parsed {
        Parsed::Done { value, at: then_at } => at == then_at && (r matches Ok(v) && v@ == value),
        Parsed::Fail { error, at: then_at } => at == then_at && (r matches Err(e) && e@ == error),
        Parsed::Stuck => false,
    }
}

/// The leaf of an expression that a token stands for: a name, or what is between two quotes.
pub open spec fn parse_leaf(token: TokenView) -> Option<ExpressionView> {
    match token.class {
        TokenKind::Name => Some(ExpressionView::Variable { name: token.lexeme, token }),
        TokenKind::StringToken => match byte_slice(token.lexeme, 1, 2) {
            Some(contents) => Some(ExpressionView::String { contents }),
            None => None,
        },
        _ => None,
    }
}

/// An expression: leaves, with a plus between each two. In an interpolation it ends before the end
/// of the interpolation; elsewhere, and there too, it ends with its line.
pub open spec fn parse_expression(ts: Seq<TokenView>, pos: nat, interpolation: bool) -> Parsed<
    ExpressionView,
>
    decreases ts.len() - pos,
{
    if pos >= ts.len() {
        Parsed::Stuck
    } else if ts[pos as int].class != TokenKind::Name && ts[pos as int].class
        != TokenKind::StringToken {
        Parsed::Fail {
            error: ts[pos as int].unexpected(seq![TokenKind::Name, TokenKind::StringToken]),
            at: pos + 1,
        }
    } else if pos + 1 >= ts.len() || parse_leaf(ts[pos as int]) is None {
        Parsed::Stuck
    } else {
        let lhs = parse_leaf(ts[pos as int])->0;
        let next = ts[pos as int + 1];
        match next.class {
            TokenKind::Plus => match parse_expression(ts, pos + 2, interpolation) {
                Parsed::Done { value, at } => Parsed::Done {
                    value: ExpressionView::Concatination {
                        lhs: Box::new(lhs),
                        rhs: Box::new(value),
                    },
                    at,
                },
                failed => failed,
            },
            TokenKind::InterpolationEnd if interpolation => Parsed::Done { value: lhs, at: pos + 1 },
            TokenKind::Eol => Parsed::Done { value: lhs, at: pos + 2 },
            TokenKind::Eof => Parsed::Done { value: lhs, at: pos + 1 },
            _ => Parsed::Fail {
                error: next.unexpected(
                    if interpolation {
                        seq![TokenKind::Plus, TokenKind::Eol, TokenKind::InterpolationEnd]
                    } else {
                        seq![TokenKind::Plus, TokenKind::Eol]
                    },
                ),
                at: pos + 2,
            },
        }
    }
}

/// Parsing an expression leaves tokens behind, and no more than there are.
pub proof fn lemma_expression_advances(ts: Seq<TokenView>, pos: nat, interpolation: bool)
    ensures
        match parse_expression(ts, pos, interpolation) {
            Parsed::Done { value, at } => pos < at <= ts.len(),
            Parsed::Fail { error, at } => pos < at <= ts.len(),
            Parsed::Stuck => true,
        },
    decreases ts.len() - pos,
{
    if pos + 1 < ts.len() {
        lemma_expression_advances(ts, pos + 2, interpolation);
    }
}

/// The error that `token` repeats an argument or a dependency of `recipe`.
pub open spec fn duplicate(recipe: Seq<char>, token: TokenView, arguments: bool) -> ErrorView {
    if arguments {
        token.error(ErrorKindView::DuplicateArgument { recipe, argument: token.lexeme })
    } else {
        token.error(ErrorKindView::DuplicateDependency { recipe, dependency: token.lexeme })
    }
}

/// The names, after those that are `done`, that `recipe` has as arguments or as dependencies. None
/// may be repeated.
pub open spec fn parse_names(
    ts: Seq<TokenView>,
    pos: nat,
    recipe: Seq<char>,
    arguments: bool,
    done: Seq<TokenView>,
) -> Parsed<Seq<TokenView>>
    decreases ts.len() - pos,
{
    if pos >= ts.len() {
        Parsed::Stuck
    } else if ts[pos as int].class != TokenKind::Name {
        Parsed::Done { value: done, at: pos }
    } else if lexemes(done).contains(ts[pos as int].lexeme) {
        Parsed::Fail { error: duplicate(recipe, ts[pos as int], arguments), at: pos + 1 }
    } else {
        parse_names(ts, pos + 1, recipe, arguments, done.push(ts[pos as int]))
    }
}

/// Parsing names leaves no more tokens behind than there are.
pub proof fn lemma_names_advance(
    ts: Seq<TokenView>,
    pos: nat,
    recipe: Seq<char>,
    arguments: bool,
    done: Seq<TokenView>,
)
    ensures
        match parse_names(ts, pos, recipe, arguments, done) {
            Parsed::Done { value, at } => pos <= at < ts.len(),
            Parsed::Fail { error, at } => pos < at <= ts.len(),
            Parsed::Stuck => true,
        },
    decreases ts.len() - pos,
{
    if pos < ts.len() {
        lemma_names_advance(ts, pos + 1, recipe, arguments, done.push(ts[pos as int]));
    }
}

/// Whether a script starts with `lexeme`.
pub open spec fn is_shebang(lexeme: Seq<char>) -> bool {
    "#!"@.is_prefix_of(lexeme)
}

/// Whether `lexeme` may not start a line after the first: no line may start with a tab, and only
/// those of scripts with a space.
pub open spec fn is_extra(lexeme: Seq<char>, shebang: bool) -> bool {
    (!shebang && " "@.is_prefix_of(lexeme)) || "\t"@.is_prefix_of(lexeme)
}

/// The pieces of a line, after those that are `done`, and whether the recipe is a script. The line
/// ends with its end, which is left behind, or before the end of the recipe.
pub open spec fn parse_pieces(
    ts: Seq<TokenView>,
    pos: nat,
    first_line: bool,
    shebang: bool,
    done: Seq<FragmentView>,
) -> Parsed<(Seq<FragmentView>, bool)>
    decreases ts.len() - pos,
{
    if pos >= ts.len() {
        Parsed::Stuck
    } else {
        let token = ts[pos as int];
        match token.class {
            TokenKind::Eol => Parsed::Done { value: (done, shebang), at: pos + 1 },
            TokenKind::Dedent => Parsed::Done { value: (done, shebang), at: pos },
            TokenKind::Text => if done.len() == 0 && !first_line && is_extra(
                token.lexeme,
                shebang,
            ) {
                Parsed::Fail {
                    error: token.error(ErrorKindView::ExtraLeadingWhitespace),
                    at: pos + 1,
                }
            } else {
                let starts = done.len() == 0 && first_line && is_shebang(token.lexeme);
                parse_pieces(
                    ts,
                    pos + 1,
                    first_line,
                    shebang || starts,
                    done.push(FragmentView::Text { text: token }),
                )
            },
            TokenKind::InterpolationStart => {
                proof {
                    lemma_expression_advances(ts, pos + 1, true);
                }
                match parse_expression(ts, pos + 1, true) {
                    Parsed::Done { value, at } => if at >= ts.len() {
                        Parsed::Stuck
                    } else if ts[at as int].class != TokenKind::InterpolationEnd {
                        Parsed::Fail {
                            error: ts[at as int].unexpected(seq![TokenKind::InterpolationEnd]),
                            at: at + 1,
                        }
                    } else {
                        parse_pieces(
                            ts,
                            at + 1,
                            first_line,
                            shebang,
                            done.push(FragmentView::Expression { expression: value }),
                        )
                    },
                    Parsed::Fail { error, at } => Parsed::Fail { error, at },
                    Parsed::Stuck => Parsed::Stuck,
                }
            },
            _ => Parsed::Fail {
                error: token.unexpected(
                    seq![TokenKind::Text, TokenKind::InterpolationStart, TokenKind::Eol],
                ),
                at: pos + 1,
            },
        }
    }
}

/// Parsing a line leaves no more tokens behind than there are.
pub proof fn lemma_pieces_advance(
    ts: Seq<TokenView>,
    pos: nat,
    first_line: bool,
    shebang: bool,
    done: Seq<FragmentView>,
)
    ensures
        match parse_pieces(ts, pos, first_line, shebang, done) {
            Parsed::Done { value, at } => pos <= at <= ts.len(),
            Parsed::Fail { error, at } => pos < at <= ts.len(),
            Parsed::Stuck => true,
        },
    decreases ts.len() - pos,
{
    if pos < ts.len() {
        let token = ts[pos as int];
        let starts = done.len() == 0 && first_line && is_shebang(token.lexeme);
        let text = FragmentView::Text { text: token };
        lemma_pieces_advance(ts, pos + 1, first_line, shebang || starts, done.push(text));
        lemma_expression_advances(ts, pos + 1, true);
        if let Parsed::Done { value, at } = parse_expression(ts, pos + 1, true) {
            if at < ts.len() {
                let piece = FragmentView::Expression { expression: value };
                lemma_pieces_advance(ts, at + 1, first_line, shebang, done.push(piece));
            }
        }
    }
}

/// The lines of a recipe, after those that are `done`, and whether it is a script. Blank lines are
/// left out.
pub open spec fn parse_lines(
    ts: Seq<TokenView>,
    pos: nat,
    shebang: bool,
    done: Seq<Seq<FragmentView>>,
) -> Parsed<(Seq<Seq<FragmentView>>, bool)>
    decreases ts.len() - pos,
{
    if pos >= ts.len() {
        Parsed::Stuck
    } else {
        let token = ts[pos as int];
        match token.class {
            TokenKind::Dedent => Parsed::Done { value: (done, shebang), at: pos + 1 },
            TokenKind::Eol => parse_lines(ts, pos + 1, shebang, done),
            TokenKind::Line => {
                proof {
                    lemma_pieces_advance(ts, pos + 1, done.len() == 0, shebang, Seq::empty());
                }
                match parse_pieces(ts, pos + 1, done.len() == 0, shebang, Seq::empty()) {
                    Parsed::Done { value, at } => parse_lines(ts, at, value.1, done.push(value.0)),
                    Parsed::Fail { error, at } => Parsed::Fail { error, at },
                    Parsed::Stuck => Parsed::Stuck,
                }
            },
            _ => Parsed::Fail {
                error: token.error(
                    ErrorKindView::InternalError {
                        message: "Expected a line but got "@ + token.class.shown(),
                    },
                ),
                at: pos + 1,
            },
        }
    }
}

/// Parsing lines leaves no more tokens behind than there are.
pub proof fn lemma_lines_advance(
    ts: Seq<TokenView>,
    pos: nat,
    shebang: bool,
    done: Seq<Seq<FragmentView>>,
)
    ensures
        match parse_lines(ts, pos, shebang, done) {
            Parsed::Done { value, at } => pos < at <= ts.len(),
            Parsed::Fail { error, at } => pos < at <= ts.len(),
            Parsed::Stuck => true,
        },
    decreases ts.len() - pos,
{
    if pos < ts.len() {
        lemma_lines_advance(ts, pos + 1, shebang, done);
        lemma_pieces_advance(ts, pos + 1, done.len() == 0, shebang, Seq::empty());
        if let Parsed::Done { value, at } = parse_pieces(
            ts,
            pos + 1,
            done.len() == 0,
            shebang,
            Seq::empty(),
        ) {
            lemma_lines_advance(ts, at, value.1, done.push(value.0));
        }
    }
}

/// The body of a recipe: its lines, if they are indented, and whether it is a script.
pub open spec fn parse_body(ts: Seq<TokenView>, pos: nat) -> Parsed<
    (Seq<Seq<FragmentView>>, bool),
> {
    if pos >= ts.len() {
        Parsed::Stuck
    } else if ts[pos as int].class == TokenKind::Indent {
        parse_lines(ts, pos + 1, false, Seq::empty())
    } else {
        Parsed::Done { value: (Seq::empty(), false), at: pos }
    }
}

/// A recipe, of which the name is behind: arguments, a colon, dependencies, and then its body.
pub open spec fn parse_recipe(
    ts: Seq<TokenView>,
    pos: nat,
    name: Seq<char>,
    line_number: nat,
) -> Parsed<RecipeView> {
    match parse_names(ts, pos, name, true, Seq::empty()) {
        Parsed::Stuck => Parsed::Stuck,
        Parsed::Fail { error, at } => Parsed::Fail { error, at },
        Parsed::Done { value: arguments, at } => if ts[at as int].class != TokenKind::Colon {
            Parsed::Fail {
                error: ts[at as int].unexpected(
                    if arguments.len() == 0 {
                        seq![TokenKind::Name, TokenKind::Colon, TokenKind::Equals]
                    } else {
                        seq![TokenKind::Name, TokenKind::Colon]
                    },
                ),
                at: at + 1,
            }
        } else {
            match parse_names(ts, at + 1, name, false, Seq::empty()) {
                Parsed::Stuck => Parsed::Stuck,
                Parsed::Fail { error, at } => Parsed::Fail { error, at },
                Parsed::Done { value: dependencies, at } => {
                    let class = ts[at as int].class;
                    if class != TokenKind::Eol && class != TokenKind::Eof {
                        Parsed::Fail {
                            error: ts[at as int].unexpected(
                                seq![TokenKind::Name, TokenKind::Eol, TokenKind::Eof],
                            ),
                            at: at + 1,
                        }
                    } else {
                        let body = if class == TokenKind::Eol { at + 1 } else { at };
                        match parse_body(ts, body) {
                            Parsed::Stuck => Parsed::Stuck,
                            Parsed::Fail { error, at } => Parsed::Fail { error, at },
                            Parsed::Done { value, at } => Parsed::Done {
                                value: RecipeView {
                                    line_number,
                                    name,
                                    lines: value.0,
                                    evaluated_lines: Seq::empty(),
                                    dependencies: lexemes(dependencies),
                                    dependency_tokens: dependencies,
                                    arguments: lexemes(arguments),
                                    argument_tokens: arguments,
                                    shebang: value.1,
                                },
                                at,
                            },
                        }
                    }
                },
            }
        },
    }
}

/// Parsing a recipe leaves no more tokens behind than there are.
pub proof fn lemma_recipe_advances(
    ts: Seq<TokenView>,
    pos: nat,
    name: Seq<char>,
    line_number: nat,
)
    ensures
        match parse_recipe(ts, pos, name, line_number) {
            Parsed::Done { value, at } => pos < at <= ts.len(),
            Parsed::Fail { error, at } => pos < at <= ts.len(),
            Parsed::Stuck => true,
        },
{
    lemma_names_advance(ts, pos, name, true, Seq::empty());
    if let Parsed::Done { value: arguments, at } = parse_names(ts, pos, name, true, Seq::empty()) {
        lemma_names_advance(ts, at + 1, name, false, Seq::empty());
        if let Parsed::Done { value: dependencies, at: end } = parse_names(
            ts,
            at + 1,
            name,
            false,
            Seq::empty(),
        ) {
            lemma_lines_advance(ts, end + 1, false, Seq::empty());
            lemma_lines_advance(ts, end + 2, false, Seq::empty());
        }
    }
}

impl<'a> Parser<'a> {
    /// All the tokens.
    pub open spec fn all(self) -> Seq<TokenView> {
        token_views(self.tokens@)
    }

    /// The next token.
    pub open spec fn next_token(self) -> TokenView {
        self.all()[self.position as int]
    }

    /// Whether no more tokens are behind than there are, and each is where a `usize` can say.
    pub open spec fn wf(self) -> bool {
        &&& self.position <= self.all().len()
        &&& forall|i: int| 0 <= i < self.all().len() ==> (#[trigger] self.all()[i]).fits()
    }

    /// Whether this is `before` with `at` tokens behind.
    pub open spec fn moved(self, before: Self, at: nat) -> bool {
        &&& self.position == at
        &&& self.text == before.text
        &&& self.tokens == before.tokens
        &&& self.wf()
    }

    /// Whether the next token is of class `class`.
    pub fn peek(&self, class: TokenKind) -> (r: bool)
        requires
            self.position < self.all().len(),
        ensures
            r == (self.next_token().class == class),
    {
        self.tokens[self.position].class == class
    }

    /// Leaves the next token behind.
    pub fn advance(&mut self) -> (r: Token<'a>)
        requires
            old(self).wf(),
            old(self).position < old(self).all().len(),
        ensures
            r@ == old(self).next_token(),
            final(self).moved(*old(self), old(self).position as nat + 1),
    {
        let token: Token<'a> = self.tokens[self.position];
        assert(self.position < self.tokens.len());
        self.position = self.position + 1;
        token
    }

    /// Leaves the next token behind, if it is of class `class`.
    pub fn accept(&mut self, class: TokenKind) -> (r: Option<Token<'a>>)
        requires
            old(self).wf(),
            old(self).position < old(self).all().len(),
        ensures
            if old(self).next_token().class == class {
                &&& r matches Some(token) && token@ == old(self).next_token()
                &&& final(self).moved(*old(self), old(self).position as nat + 1)
            } else {
                &&& r is None
                &&& final(self).moved(*old(self), old(self).position as nat)
            },
    {
        if self.peek(class) {
            Some(self.advance())
        } else {
            None
        }
    }

    /// Whether the next token is of class `class`. It is left behind then.
    pub fn accepted(&mut self, class: TokenKind) -> (r: bool)
        requires
            old(self).wf(),
            old(self).position < old(self).all().len(),
        ensures
            r == (old(self).next_token().class == class),
            final(self).moved(
                *old(self),
                old(self).position as nat + (if r {
                    1nat
                } else {
                    0nat
                }),
            ),
    {
        self.accept(class).is_some()
    }

    /// Leaves the next token behind, and gives it back if it is not of class `class`.
    pub fn expect(&mut self, class: TokenKind) -> (r: Option<Token<'a>>)
        requires
            old(self).wf(),
            old(self).position < old(self).all().len(),
        ensures
            match r {
                Some(token) => {
                    &&& old(self).next_token().class != class
                    &&& token@ == old(self).next_token()
                },
                None => old(self).next_token().class == class,
            },
            final(self).moved(*old(self), old(self).position as nat + 1),
    {
        let token: Token<'a> = self.advance();
        if token.class == class {
            None
        } else {
            Some(token)
        }
    }

    /// Leaves the end of a line behind, but not the end of the text, and gives the next token back
    /// if it is neither.
    pub fn expect_eol(&mut self) -> (r: Option<Token<'a>>)
        requires
            old(self).wf(),
            old(self).position < old(self).all().len(),
        ensures
            match old(self).next_token().class {
                TokenKind::Eol => r is None && final(self).moved(
                    *old(self),
                    old(self).position as nat + 1,
                ),
                TokenKind::Eof => r is None && final(self).moved(
                    *old(self),
                    old(self).position as nat,
                ),
                _ => (r matches Some(token) && token@ == old(self).next_token())
                    && final(self).moved(*old(self), old(self).position as nat + 1),
            },
    {
        if self.peek(TokenKind::Eol) {
            let _ = self.accept(TokenKind::Eol);
            None
        } else if self.peek(TokenKind::Eof) {
            None
        } else {
            Some(self.advance())
        }
    }

    /// The error that `found` is not of the classes `expected`.
    pub fn unexpected_token(&self, found: &Token<'a>, expected: &[TokenKind]) -> (r: Error<'a>)
        requires
            found@.fits(),
        ensures
            r@ == found@.unexpected(expected@),
    {
        let mut classes: Vec<TokenKind> = Vec::new();
        let mut i: usize = 0;
        while i < expected.len()
            invariant
                i <= expected@.len(),
                classes@ == expected@.take(i as int),
            decreases expected@.len() - i,
        {
            classes.push(expected[i]);
            i += 1;
            proof {
                assert(expected@.take(i as int) =~= expected@.take(i - 1).push(expected@[i - 1]));
            }
        }
        proof {
            assert(expected@.take(i as int) =~= expected@);
        }
        found.error(ErrorKind::UnexpectedToken { expected: classes, found: found.class })
    }

    /// Parses an expression.
    pub fn expression(&mut self, interpolation: bool) -> (r: Result<Expression<'a>, Error<'a>>)
        requires
            old(self).wf(),
            parse_expression(old(self).all(), old(self).position as nat, interpolation) !is Stuck,
        ensures
            agrees(
                r,
                parse_expression(old(self).all(), old(self).position as nat, interpolation),
                final(self).position as nat,
            ),
            final(self).moved(*old(self), final(self).position as nat),
        decreases old(self).all().len() - old(self).position,
    {
        let first: Token<'a> = self.advance();
        let lhs: Expression<'a> = match first.class {
            TokenKind::Name => Expression::Variable { name: first.lexeme, token: first },
            TokenKind::StringToken => Expression::String { contents: slice(first.lexeme, 1, 2) },
            _ => {
                let expected: [TokenKind; 2] = [TokenKind::Name, TokenKind::StringToken];
                proof {
                    assert(expected@ =~= seq![TokenKind::Name, TokenKind::StringToken]);
                }
                return Err(self.unexpected_token(&first, &expected));
            },
        };
        assert(parse_leaf(first@) == Some(lhs@));
        if self.accepted(TokenKind::Plus) {
            match self.expression(interpolation) {
                Ok(rhs) => {
                    let both: Expression<'a> = Expression::Concatination {
                        lhs: Box::new(lhs),
                        rhs: Box::new(rhs),
                    };
                    assert(both@ == ExpressionView::Concatination {
                        lhs: Box::new(lhs@),
                        rhs: Box::new(rhs@),
                    });
                    Ok(both)
                },
                Err(error) => Err(error),
            }
        } else if interpolation && self.peek(TokenKind::InterpolationEnd) {
            Ok(lhs)
        } else if let Some(token) = self.expect_eol() {
            if interpolation {
                let expected: [TokenKind; 3] = [
                    TokenKind::Plus,
                    TokenKind::Eol,
                    TokenKind::InterpolationEnd,
                ];
                proof {
                    assert(expected@ =~= seq![
                        TokenKind::Plus,
                        TokenKind::Eol,
                        TokenKind::InterpolationEnd,
                    ]);
                }
                Err(self.unexpected_token(&token, &expected))
            } else {
                let expected: [TokenKind; 2] = [TokenKind::Plus, TokenKind::Eol];
                proof {
                    assert(expected@ =~= seq![TokenKind::Plus, TokenKind::Eol]);
                }
                Err(self.unexpected_token(&token, &expected))
            }
        } else {
            Ok(lhs)
        }
    }

    /// Parses the arguments or the dependencies of a recipe: the names and their tokens.
    fn name_list(&mut self, name: &'a str, arguments: bool) -> (r: Result<
        (Vec<&'a str>, Vec<Token<'a>>),
        Error<'a>,
    >)
        requires
            old(self).wf(),
            parse_names(old(self).all(), old(self).position as nat, name@, arguments, Seq::empty())
                !is Stuck,
        ensures
            match parse_names(
                old(self).all(),
                old(self).position as nat,
                name@,
                arguments,
                Seq::empty(),
            ) {
                Parsed::Done { value, at } => final(self).position == at && (r matches Ok(lists)
                    && names(lists.0@) == lexemes(value) && token_views(lists.1@) == value),
                Parsed::Fail { error, at } => final(self).position == at && (r matches Err(e)
                    && e@ == error),
                Parsed::Stuck => true,
            },
            final(self).moved(*old(self), final(self).position as nat),
    {
        let ghost ts = self.all();
        let ghost start = self.position as nat;
        let mut list: Vec<&'a str> = Vec::new();
        let mut tokens: Vec<Token<'a>> = Vec::new();
        proof {
            assert(token_views(tokens@) =~= Seq::empty());
            assert(names(list@) =~= lexemes(Seq::empty()));
        }
        loop
            invariant
                self.moved(*old(self), self.position as nat),
                ts == old(self).all(),
                ts == self.all(),
                start == old(self).position,
                names(list@) == lexemes(token_views(tokens@)),
                parse_names(ts, start, name@, arguments, Seq::empty()) !is Stuck,
                parse_names(ts, start, name@, arguments, Seq::empty()) == parse_names(
                    ts,
                    self.position as nat,
                    name@,
                    arguments,
                    token_views(tokens@),
                ),
            decreases ts.len() - self.position,
        {
            match self.accept(TokenKind::Name) {
                None => {
                    return Ok((list, tokens));
                },
                Some(token) => {
                    if contains(&list, token.lexeme) {
                        return Err(
                            if arguments {
                                token.error(
                                    ErrorKind::DuplicateArgument {
                                        recipe: name,
                                        argument: token.lexeme,
                                    },
                                )
                            } else {
                                token.error(
                                    ErrorKind::DuplicateDependency {
                                        recipe: name,
                                        dependency: token.lexeme,
                                    },
                                )
                            },
                        );
                    }
                    let ghost done = token_views(tokens@);
                    let ghost had = names(list@);
                    list.push(token.lexeme);
                    tokens.push(token);
                    proof {
                        assert(token_views(tokens@) =~= done.push(token@));
                        assert(names(list@) =~= had.push(token.lexeme@));
                        assert(lexemes(done.push(token@)) =~= lexemes(done).push(token@.lexeme));
                    }
                },
            }
        }
    }

    /// Parses a line of a recipe: its pieces, and whether the recipe is a script.
    #[verifier::rlimit(40)]
    fn line(&mut self, first_line: bool, script: bool) -> (r: Result<
        (Vec<Fragment<'a>>, bool),
        Error<'a>,
    >)
        requires
            old(self).wf(),
            parse_pieces(
                old(self).all(),
                old(self).position as nat,
                first_line,
                script,
                Seq::empty(),
            ) !is Stuck,
        ensures
            match parse_pieces(
                old(self).all(),
                old(self).position as nat,
                first_line,
                script,
                Seq::empty(),
            ) {
                Parsed::Done { value, at } => final(self).position == at && (r matches Ok(line)
                    && fragment_views(line.0@) == value.0 && line.1 == value.1),
                Parsed::Fail { error, at } => final(self).position == at && (r matches Err(e)
                    && e@ == error),
                Parsed::Stuck => true,
            },
            final(self).moved(*old(self), final(self).position as nat),
    {
        let ghost ts = self.all();
        let ghost start = self.position as nat;
        let mut pieces: Vec<Fragment<'a>> = Vec::new();
        let mut shebang: bool = script;
        proof {
            assert(fragment_views(pieces@) =~= Seq::empty());
        }
        loop
            invariant
                self.moved(*old(self), self.position as nat),
                ts == old(self).all(),
                ts == self.all(),
                start == old(self).position,
                parse_pieces(ts, start, first_line, script, Seq::empty()) !is Stuck,
                parse_pieces(ts, start, first_line, script, Seq::empty()) == parse_pieces(
                    ts,
                    self.position as nat,
                    first_line,
                    shebang,
                    fragment_views(pieces@),
                ),
            decreases ts.len() - self.position,
        {
            let ghost done = fragment_views(pieces@);
            let ghost at = self.position as nat;
            if self.accepted(TokenKind::Eol) || self.peek(TokenKind::Dedent) {
                return Ok((pieces, shebang));
            }
            if let Some(token) = self.accept(TokenKind::Text) {
                if pieces.is_empty() {
                    if first_line {
                        if starts_with(token.lexeme, "#!") {
                            shebang = true;
                        }
                    } else if !shebang && starts_with(token.lexeme, " ") || starts_with(
                        token.lexeme,
                        "\t",
                    ) {
                        return Err(token.error(ErrorKind::ExtraLeadingWhitespace));
                    }
                }
                pieces.push(Fragment::Text { text: token });
                proof {
                    assert(fragment_views(pieces@) =~= done.push(
                        FragmentView::Text { text: token@ },
                    ));
                }
            } else if let Some(token) = self.expect(TokenKind::InterpolationStart) {
                let expected: [TokenKind; 3] = [
                    TokenKind::Text,
                    TokenKind::InterpolationStart,
                    TokenKind::Eol,
                ];
                proof {
                    assert(expected@ =~= seq![
                        TokenKind::Text,
                        TokenKind::InterpolationStart,
                        TokenKind::Eol,
                    ]);
                }
                return Err(self.unexpected_token(&token, &expected));
            } else {
                proof {
                    lemma_expression_advances(ts, at + 1, true);
                }
                match self.expression(true) {
                    Err(error) => {
                        return Err(error);
                    },
                    Ok(expression) => {
                        if let Some(token) = self.expect(TokenKind::InterpolationEnd) {
                            let expected: [TokenKind; 1] = [TokenKind::InterpolationEnd];
                            proof {
                                assert(expected@ =~= seq![TokenKind::InterpolationEnd]);
                            }
                            return Err(self.unexpected_token(&token, &expected));
                        }
                        let piece: Fragment<'a> = Fragment::Expression { expression };
                        let ghost view = piece@;
                        pieces.push(piece);
                        proof {
                            assert(fragment_views(pieces@) =~= done.push(view));
                        }
                    },
                }
            }
        }
    }

    /// Parses the lines of a recipe: their pieces, and whether the recipe is a script.
    #[verifier::rlimit(40)]
    fn lines(&mut self) -> (r: Result<(Vec<Vec<Fragment<'a>>>, bool), Error<'a>>)
        requires
            old(self).wf(),
            parse_lines(old(self).all(), old(self).position as nat, false, Seq::empty()) !is Stuck,
        ensures
            match parse_lines(old(self).all(), old(self).position as nat, false, Seq::empty()) {
                Parsed::Done { value, at } => final(self).position == at && (r matches Ok(body)
                    && line_views(body.0@) == value.0 && body.1 == value.1),
                Parsed::Fail { error, at } => final(self).position == at && (r matches Err(e)
                    && e@ == error),
                Parsed::Stuck => true,
            },
            final(self).moved(*old(self), final(self).position as nat),
    {
        let ghost ts = self.all();
        let ghost start = self.position as nat;
        let mut lines: Vec<Vec<Fragment<'a>>> = Vec::new();
        let mut shebang: bool = false;
        proof {
            assert(line_views(lines@) =~= Seq::empty());
        }
        loop
            invariant
                self.moved(*old(self), self.position as nat),
                ts == old(self).all(),
                ts == self.all(),
                start == old(self).position,
                parse_lines(ts, start, false, Seq::empty()) !is Stuck,
                parse_lines(ts, start, false, Seq::empty()) == parse_lines(
                    ts,
                    self.position as nat,
                    shebang,
                    line_views(lines@),
                ),
            decreases ts.len() - self.position,
        {
            let ghost done = line_views(lines@);
            let ghost at = self.position as nat;
            if self.accepted(TokenKind::Dedent) {
                return Ok((lines, shebang));
            }
            if self.accepted(TokenKind::Eol) {
                continue ;
            }
            if let Some(token) = self.expect(TokenKind::Line) {
                let mut message: String = String::from_str("Expected a line but got ");
                message.append(token.class.as_str());
                return Err(token.error(ErrorKind::InternalError { message }));
            }
            proof {
                lemma_pieces_advance(ts, at + 1, done.len() == 0, shebang, Seq::empty());
            }
            match self.line(lines.is_empty(), shebang) {
                Err(error) => {
                    return Err(error);
                },
                Ok((pieces, script)) => {
                    let ghost view = fragment_views(pieces@);
                    lines.push(pieces);
                    shebang = script;
                    proof {
                        assert(line_views(lines@) =~= done.push(view));
                    }
                },
            }
        }
    }

    /// Parses a recipe, of which the name is behind.
    pub fn recipe(&mut self, name: &'a str, line_number: usize) -> (r: Result<
        Recipe<'a>,
        Error<'a>,
    >)
        requires
            old(self).wf(),
            parse_recipe(old(self).all(), old(self).position as nat, name@, line_number as nat)
                !is Stuck,
        ensures
            agrees(
                r,
                parse_recipe(old(self).all(), old(self).position as nat, name@, line_number as nat),
                final(self).position as nat,
            ),
            final(self).moved(*old(self), final(self).position as nat),
    {
        let ghost ts = self.all();
        proof {
            lemma_names_advance(ts, self.position as nat, name@, true, Seq::empty());
        }
        let (arguments, argument_tokens) = match self.name_list(name, true) {
            Ok(lists) => lists,
            Err(error) => {
                return Err(error);
            },
        };
        if let Some(token) = self.expect(TokenKind::Colon) {
            // without arguments this could also have been an assignment
            if arguments.is_empty() {
                let expected: [TokenKind; 3] = [
                    TokenKind::Name,
                    TokenKind::Colon,
                    TokenKind::Equals,
                ];
                proof {
                    assert(expected@ =~= seq![TokenKind::Name, TokenKind::Colon, TokenKind::Equals]);
                    assert(token_views(argument_tokens@).len() == lexemes(
                        token_views(argument_tokens@),
                    ).len());
                    assert(names(arguments@).len() == 0);
                }
                return Err(self.unexpected_token(&token, &expected));
            } else {
                let expected: [TokenKind; 2] = [TokenKind::Name, TokenKind::Colon];
                proof {
                    assert(expected@ =~= seq![TokenKind::Name, TokenKind::Colon]);
                    assert(names(arguments@).len() > 0);
                }
                return Err(self.unexpected_token(&token, &expected));
            }
        }
        proof {
            lemma_names_advance(ts, self.position as nat, name@, false, Seq::empty());
        }
        let (dependencies, dependency_tokens) = match self.name_list(name, false) {
            Ok(lists) => lists,
            Err(error) => {
                return Err(error);
            },
        };
        if let Some(token) = self.expect_eol() {
            let expected: [TokenKind; 3] = [TokenKind::Name, TokenKind::Eol, TokenKind::Eof];
            proof {
                assert(expected@ =~= seq![TokenKind::Name, TokenKind::Eol, TokenKind::Eof]);
            }
            return Err(self.unexpected_token(&token, &expected));
        }
        let (lines, shebang) = if self.accepted(TokenKind::Indent) {
            match self.lines() {
                Ok(body) => body,
                Err(error) => {
                    return Err(error);
                },
            }
        } else {
            (Vec::new(), false)
        };
        let recipe: Recipe<'a> = Recipe {
            line_number,
            name,
            lines,
            evaluated_lines: Vec::new(),
            dependencies,
            dependency_tokens,
            arguments,
            argument_tokens,
            shebang,
        };
        proof {
            assert(recipe@.evaluated_lines =~= Seq::empty());
            if lines@.len() == 0 {
                assert(recipe@.lines =~= Seq::empty());
            }
        }
        Ok(recipe)
    }
}

} // verus!
