//! Cutting a justfile into tokens.

use vstd::prelude::*;
use vstd::string::*;
use vstd::utf8::*;

use crate::error::{Error, ErrorKind, ErrorKindView, ErrorView};
use crate::pattern::{begins_with, blanks, braces_at, line_len, run_len, Captured, CapturedView};
use crate::pattern::Pattern;
use crate::text::{byte_len, cut, is_mixed, lemma_boundary, lemma_chars_in_bytes};
use crate::text::{lemma_encode_concat, lemma_same_cut, mixed_whitespace, starts_with};
use crate::token::{token_views, Token, TokenKind, TokenView};

verus! {

/// Where the lexer is: outside of recipes, at the lines of a recipe, in the text of such a line, or
/// in an interpolation of that text. Inside of recipes it keeps what their lines are indented by.
#[derive(Clone, Copy)]
pub enum State<'a> {
    Start,
    Indent(&'a str),
    Text(&'a str),
    Interpolation(&'a str),
}

/// The view of a [`State`].
#[verifier::ext_equal]
pub enum StateView {
    Start,
    Indent(Seq<char>),
    Text(Seq<char>),
    Interpolation(Seq<char>),
}

impl<'a> View for State<'a> {
    type V = StateView;

    open spec fn view(&self) -> StateView {
        match *self {
            State::Start => StateView::Start,
            State::Indent(indent) => StateView::Indent(indent@),
            State::Text(indent) => StateView::Text(indent@),
            State::Interpolation(indent) => StateView::Interpolation(indent@),
        }
    }
}

/// What the indentation of a line means.
pub enum Layout<'a> {
    /// The line belongs where the line before it did, or is blank.
    Same,
    /// The line is the first of a recipe.
    Enter(&'a str),
    /// The line is the first after a recipe.
    Leave,
    Bad(ErrorKind<'a>),
}

/// The view of a [`Layout`].
pub enum LayoutView {
    Same,
    Enter(Seq<char>),
    Leave,
    Bad(ErrorKindView),
}

impl<'a> View for Layout<'a> {
    type V = LayoutView;

    open spec fn view(&self) -> LayoutView {
        match *self {
            Layout::Same => LayoutView::Same,
            Layout::Enter(indent) => LayoutView::Enter(indent@),
            Layout::Leave => LayoutView::Leave,
            Layout::Bad(kind) => LayoutView::Bad(kind@),
        }
    }
}

/// What stands next in the text.
pub enum Next<'a> {
    /// A token, and the state that it leads to.
    Token { prefix: &'a str, lexeme: &'a str, class: TokenKind, state: State<'a> },
    Bad(ErrorKind<'a>),
    /// The end of a line that an interpolation does not end before.
    Unclosed,
}

/// The view of a [`Next`].
#[verifier::ext_equal]
pub enum NextView {
    Token { prefix: Seq<char>, lexeme: Seq<char>, class: TokenKind, state: StateView },
    Bad(ErrorKindView),
    Unclosed,
}

impl<'a> View for Next<'a> {
    type V = NextView;

    open spec fn view(&self) -> NextView {
        match *self {
            Next::Token { prefix, lexeme, class, state } => NextView::Token {
                prefix: prefix@,
                lexeme: lexeme@,
                class,
                state: state@,
            },
            Next::Bad(kind) => NextView::Bad(kind@),
            Next::Unclosed => NextView::Unclosed,
        }
    }
}

/// The blanks at the start of `rest`, where a character that is no line break follows them.
pub open spec fn spec_indentation(rest: Seq<char>) -> Option<Seq<char>> {
    match Pattern::Indent.spec_captures(rest) {
        Some(found) => found.first,
        None => None,
    }
}

/// What the indentation at the start of `rest` means. It means something in the first column only.
pub open spec fn spec_layout(state: StateView, column: nat, rest: Seq<char>) -> LayoutView {
    match spec_indentation(rest) {
        _ if column != 0 => LayoutView::Same,
        None => LayoutView::Same,
        Some(current) => match state {
            StateView::Start => if current.len() == 0 {
                LayoutView::Same
            } else if is_mixed(current) {
                LayoutView::Bad(ErrorKindView::MixedLeadingWhitespace { whitespace: current })
            } else {
                LayoutView::Enter(current)
            },
            StateView::Indent(previous) => if current.len() == 0 {
                LayoutView::Leave
            } else if !previous.is_prefix_of(current) {
                LayoutView::Bad(
                    ErrorKindView::InconsistentLeadingWhitespace {
                        expected: previous,
                        found: current,
                    },
                )
            } else {
                LayoutView::Same
            },
            _ => LayoutView::Bad(
                ErrorKindView::InternalError { message: "unexpected state at column 0"@ },
            ),
        },
    }
}

/// The state after a line with that layout has begun.
pub open spec fn entered(state: StateView, layout: LayoutView) -> StateView {
    match layout {
        LayoutView::Enter(indent) => StateView::Indent(indent),
        LayoutView::Leave => StateView::Start,
        _ => state,
    }
}

/// The two groups of a token pattern as the next token.
pub open spec fn next_token(
    found: Option<CapturedView>,
    class: TokenKind,
    state: StateView,
) -> NextView {
    NextView::Token {
        prefix: found->0.first->0,
        lexeme: found->0.second->0,
        class,
        state,
    }
}

/// What stands next in the text of a recipe line.
pub open spec fn next_in_text(indent: Seq<char>, rest: Seq<char>) -> NextView {
    let text = StateView::Text(indent);
    let none = Seq::<char>::empty();
    if let Some(found) = Pattern::InterpolationStart.spec_captures(rest) {
        NextView::Token {
            prefix: none,
            lexeme: found.whole,
            class: TokenKind::InterpolationStart,
            state: StateView::Interpolation(indent),
        }
    } else if let Some(found) = Pattern::LeadingText.spec_captures(rest) {
        NextView::Token { prefix: none, lexeme: found.first->0, class: TokenKind::Text, state: text }
    } else if let Some(found) = Pattern::Text.spec_captures(rest) {
        NextView::Token { prefix: none, lexeme: found.first->0, class: TokenKind::Text, state: text }
    } else if Pattern::Eol.spec_captures(rest) is Some {
        next_token(Pattern::Eol.spec_captures(rest), TokenKind::Eol, StateView::Indent(indent))
    } else {
        NextView::Bad(
            ErrorKindView::InternalError {
                message: "Could not match token in text state: \""@ + rest + "\""@,
            },
        )
    }
}

/// What stands next outside of the text of recipe lines.
pub open spec fn next_outside(state: StateView, rest: Seq<char>) -> NextView {
    let start = Pattern::InterpolationStartToken.spec_captures(rest);
    let end = Pattern::InterpolationEnd.spec_captures(rest);
    let name = Pattern::Name.spec_captures(rest);
    let eol = Pattern::Eol.spec_captures(rest);
    let colon = Pattern::Colon.spec_captures(rest);
    let plus = Pattern::Plus.spec_captures(rest);
    let equals = Pattern::Equals.spec_captures(rest);
    let comment = Pattern::Comment.spec_captures(rest);
    let string = Pattern::StringToken.spec_captures(rest);
    if start is Some {
        next_token(start, TokenKind::InterpolationStart, state)
    } else if end is Some {
        let closed = match state {
            StateView::Interpolation(indent) => StateView::Text(indent),
            _ => state,
        };
        next_token(end, TokenKind::InterpolationEnd, closed)
    } else if name is Some {
        next_token(name, TokenKind::Name, state)
    } else if eol is Some {
        if state is Interpolation {
            NextView::Unclosed
        } else {
            next_token(eol, TokenKind::Eol, state)
        }
    } else if colon is Some {
        next_token(colon, TokenKind::Colon, state)
    } else if plus is Some {
        next_token(plus, TokenKind::Plus, state)
    } else if equals is Some {
        next_token(equals, TokenKind::Equals, state)
    } else if comment is Some {
        next_token(comment, TokenKind::Comment, state)
    } else if string is Some {
        next_token(string, TokenKind::StringToken, state)
    } else if begins_with(rest, '#', '!') {
        NextView::Bad(ErrorKindView::OuterShebang)
    } else {
        NextView::Bad(ErrorKindView::UnknownStartOfToken)
    }
}

/// What stands next in the text.
pub open spec fn spec_next(state: StateView, column: nat, rest: Seq<char>) -> NextView {
    let line = Pattern::Line.spec_captures(rest);
    let eof = Pattern::Eof.spec_captures(rest);
    match state {
        StateView::Indent(indent) if column == 0 && line is Some => if indent.is_prefix_of(
            line->0.whole,
        ) {
            NextView::Token {
                prefix: indent,
                lexeme: Seq::empty(),
                class: TokenKind::Line,
                state: StateView::Text(indent),
            }
        } else {
            NextView::Bad(ErrorKindView::InternalError { message: "unexpected indent"@ })
        },
        _ if eof is Some => next_token(eof, TokenKind::Eof, state),
        StateView::Text(indent) => next_in_text(indent, rest),
        _ => next_outside(state, rest),
    }
}

impl StateView {
    /// Inside of recipes the lines are indented by something.
    pub open spec fn wf(self) -> bool {
        match self {
            StateView::Start => true,
            StateView::Indent(indent) => indent.len() > 0,
            StateView::Text(indent) => indent.len() > 0,
            StateView::Interpolation(indent) => indent.len() > 0,
        }
    }

    /// Whether this is a state that a line can begin in.
    pub open spec fn begins_line(self) -> bool {
        self is Start || self is Indent
    }
}

/// How far a text has been cut into tokens: how many characters are behind, and where that is.
#[verifier::ext_equal]
pub struct Cursor {
    pub pos: nat,
    pub line: nat,
    pub column: nat,
    pub state: StateView,
}

impl Cursor {
    /// The start of a text.
    pub open spec fn start() -> Cursor {
        Cursor { pos: 0, line: 0, column: 0, state: StateView::Start }
    }

    /// What is left of the text.
    pub open spec fn rest(self, text: Seq<char>) -> Seq<char> {
        text.skip(self.pos as int)
    }

    /// How many bytes of the text are behind.
    pub open spec fn index(self, text: Seq<char>) -> nat {
        byte_len(text.take(self.pos as int))
    }

    /// Whether this is a place in `text` that the lexer can come to.
    pub open spec fn wf(self, text: Seq<char>) -> bool {
        &&& self.pos <= text.len()
        &&& self.state.wf()
        &&& self.column == 0 ==> self.state.begins_line()
    }

    /// The token of class `class` that stands here.
    pub open spec fn token(
        self,
        text: Seq<char>,
        prefix: Seq<char>,
        lexeme: Seq<char>,
        class: TokenKind,
    ) -> TokenView {
        TokenView {
            index: self.index(text),
            line: self.line,
            column: self.column,
            text,
            prefix,
            lexeme,
            class,
        }
    }

    /// The error of kind `kind` here.
    pub open spec fn error(self, text: Seq<char>, kind: ErrorKindView) -> ErrorView {
        ErrorView {
            text,
            index: self.index(text),
            line: self.line,
            column: self.column,
            width: None,
            kind,
        }
    }

    /// The place after a token.
    pub open spec fn after(self, lexed: Seq<char>, class: TokenKind, state: StateView) -> Cursor {
        Cursor {
            pos: self.pos + lexed.len(),
            line: if class == TokenKind::Eol { self.line + 1 } else { self.line },
            column: if class == TokenKind::Eol { 0 } else { self.column + byte_len(lexed) },
            state,
        }
    }
}

/// The tokens without characters that stand before the next one: they mark where recipes begin and
/// end.
pub open spec fn marks(text: Seq<char>, at: Cursor) -> Seq<TokenView> {
    let none = Seq::<char>::empty();
    let layout = spec_layout(at.state, at.column, at.rest(text));
    let by_layout = match layout {
        LayoutView::Enter(_) => seq![at.token(text, none, none, TokenKind::Indent)],
        LayoutView::Leave => seq![at.token(text, none, none, TokenKind::Dedent)],
        _ => seq![],
    };
    let ended = Pattern::Eof.spec_captures(at.rest(text)) is Some;
    if entered(at.state, layout) !is Start && ended {
        by_layout.push(at.token(text, none, none, TokenKind::Dedent))
    } else {
        by_layout
    }
}

/// What comes of cutting a text into tokens.
pub enum LexedView {
    Tokens(Seq<TokenView>),
    Fail(ErrorView),
    /// An interpolation does not end on the line that it starts on.
    Unclosed,
}

/// Cuts what is left of `text` into tokens, after those that are `done`.
pub open spec fn lex_from(text: Seq<char>, at: Cursor, done: Seq<TokenView>) -> LexedView
    decreases text.len() - at.pos,
    when at.wf(text)
{
    let rest = at.rest(text);
    let layout = spec_layout(at.state, at.column, rest);
    match layout {
        LayoutView::Bad(kind) => LexedView::Fail(at.error(text, kind)),
        _ => match spec_next(entered(at.state, layout), at.column, rest) {
            NextView::Bad(kind) => LexedView::Fail(at.error(text, kind)),
            NextView::Unclosed => LexedView::Unclosed,
            NextView::Token { prefix, lexeme, class, state } => {
                proof {
                    lemma_layout(at.state, at.column, rest);
                    lemma_next(entered(at.state, layout), at.column, rest);
                }
                let token = at.token(text, prefix, lexeme, class);
                let tokens = (done + marks(text, at)).push(token);
                if class == TokenKind::Eof {
                    LexedView::Tokens(tokens)
                } else {
                    lex_from(text, at.after(prefix + lexeme, class, state), tokens)
                }
            },
        },
    }
}

/// What comes of cutting `text` into tokens.
pub open spec fn lex_spec(text: Seq<char>) -> LexedView {
    lex_from(text, Cursor::start(), Seq::empty())
}

/// A run ends within the text, holds what it should, and ends where that ends.
pub proof fn lemma_run_len(s: Seq<char>, p: spec_fn(char) -> bool)
    ensures
        run_len(s, p) <= s.len(),
        forall|i: int| 0 <= i < run_len(s, p) ==> p(#[trigger] s[i]),
        run_len(s, p) < s.len() ==> !p(s[run_len(s, p) as int]),
    decreases s.len(),
{
    if s.len() > 0 && p(s[0]) {
        lemma_run_len(s.skip(1), p);
        assert forall|i: int| 0 <= i < run_len(s, p) implies p(#[trigger] s[i]) by {
            if i > 0 {
                assert(s[i] == s.skip(1)[i - 1]);
            }
        }
    }
}

/// The blanks at the start of a text are blanks, and what follows them is none.
pub proof fn lemma_blanks(s: Seq<char>)
    ensures
        blanks(s) <= s.len(),
        forall|i: int| 0 <= i < blanks(s) ==> crate::pattern::is_blank(#[trigger] s[i]),
        blanks(s) < s.len() ==> !crate::pattern::is_blank(s[blanks(s) as int]),
{
    lemma_run_len(s, |c: char| crate::pattern::is_blank(c));
}

/// What is left of a line ends within the text and at a line break.
pub proof fn lemma_line_len(s: Seq<char>)
    ensures
        line_len(s) <= s.len(),
        forall|i: int| 0 <= i < line_len(s) ==> #[trigger] s[i] != '\n',
        line_len(s) < s.len() ==> s[line_len(s) as int] == '\n',
{
    lemma_run_len(s, |c: char| c != '\n');
}

/// Braces that are found stand within the text.
proof fn lemma_braces_at(s: Seq<char>, from: int)
    ensures
        braces_at(s, from) matches Some(at) ==> from <= at && at + 1 < s.len(),
    decreases s.len() - from,
{
    if from + 1 < s.len() && from >= 0 {
        lemma_braces_at(s, from + 1);
    }
}

/// A token pattern finds its two groups one after the other at the start of the text, and only the
/// end of the text is a token of no characters.
proof fn lemma_token_pattern(p: Pattern, s: Seq<char>)
    requires
        p.is_token(),
    ensures
        p.spec_captures(s) matches Some(found) ==> {
            &&& found.first is Some
            &&& found.second is Some
            &&& (found.first->0 + found.second->0).is_prefix_of(s)
            &&& p != Pattern::Eof ==> found.second->0.len() > 0
            &&& p == Pattern::Eof ==> found.first->0 + found.second->0 == s
        },
{
    let n = blanks(s) as int;
    lemma_blanks(s);
    let tail = s.skip(n);
    lemma_run_len(tail, |c: char| crate::pattern::is_name_char(c));
    if tail.len() >= 2 {
        lemma_line_len(tail.skip(2));
    }
    if let Some(found) = p.spec_captures(s) {
        let len = p.token_len(tail)->0 as int;
        assert(len <= tail.len());
        assert(found.first->0 + found.second->0 =~= s.subrange(0, n + len));
    }
}

/// The layout of a line leads from a state that a line can begin in to such a state.
pub proof fn lemma_layout(state: StateView, column: nat, rest: Seq<char>)
    requires
        state.wf(),
        column == 0 ==> state.begins_line(),
    ensures
        entered(state, spec_layout(state, column, rest)).wf(),
        column == 0 ==> entered(state, spec_layout(state, column, rest)).begins_line(),
{
}

/// The next token stands at the start of what is left of the text, has characters unless it is the
/// end of the text, and leads to a state that fits the place after it.
pub proof fn lemma_next(state: StateView, column: nat, rest: Seq<char>)
    requires
        state.wf(),
    ensures
        spec_next(state, column, rest) matches NextView::Token { prefix, lexeme, class, state: to } ==> {
            &&& (prefix + lexeme).is_prefix_of(rest)
            &&& class != TokenKind::Eof ==> (prefix + lexeme).len() > 0
            &&& class == TokenKind::Eof ==> prefix + lexeme == rest
            &&& to.wf()
            &&& class == TokenKind::Eol ==> to.begins_line()
        },
{
    lemma_token_pattern(Pattern::Eof, rest);
    lemma_token_pattern(Pattern::Eol, rest);
    lemma_token_pattern(Pattern::InterpolationStartToken, rest);
    lemma_token_pattern(Pattern::InterpolationEnd, rest);
    lemma_token_pattern(Pattern::Name, rest);
    lemma_token_pattern(Pattern::Colon, rest);
    lemma_token_pattern(Pattern::Plus, rest);
    lemma_token_pattern(Pattern::Equals, rest);
    lemma_token_pattern(Pattern::Comment, rest);
    lemma_token_pattern(Pattern::StringToken, rest);
    lemma_braces_at(rest, 1);
    lemma_line_len(rest);
    lemma_blanks(rest);
    if let NextView::Token { prefix, lexeme, class, state: to } = spec_next(state, column, rest) {
        if class == TokenKind::Line {
            let n = blanks(rest) as int;
            lemma_line_len(rest.skip(n));
            let whole = Pattern::Line.spec_captures(rest)->0.whole;
            assert(prefix + lexeme =~= prefix);
            assert(prefix =~= rest.subrange(0, prefix.len() as int)) by {
                assert(prefix == whole.subrange(0, prefix.len() as int));
            }
        } else if state is Text && class != TokenKind::Eof && class != TokenKind::Eol {
            assert(prefix + lexeme =~= lexeme);
            assert(lexeme =~= rest.subrange(0, lexeme.len() as int));
        }
    }
}

/// The blanks at the start of `rest`, where a character that is no line break follows them.
fn indentation<'a>(rest: &'a str) -> (r: Option<&'a str>)
    ensures
        crate::pattern::group_view(r) == spec_indentation(rest@),
{
    match Pattern::Indent.captures(rest) {
        Some(found) => found.first,
        None => None,
    }
}

/// What the indentation at the start of `rest` means.
fn layout<'a>(state: State<'a>, column: usize, rest: &'a str) -> (r: Layout<'a>)
    ensures
        r@ == spec_layout(state@, column as nat, rest@),
{
    if column != 0 {
        return Layout::Same;
    }
    match indentation(rest) {
        None => Layout::Same,
        Some(current) => match state {
            State::Start => if current.is_empty() {
                Layout::Same
            } else if mixed_whitespace(current) {
                Layout::Bad(ErrorKind::MixedLeadingWhitespace { whitespace: current })
            } else {
                Layout::Enter(current)
            },
            State::Indent(previous) => if current.is_empty() {
                Layout::Leave
            } else if !starts_with(current, previous) {
                Layout::Bad(
                    ErrorKind::InconsistentLeadingWhitespace {
                        expected: previous,
                        found: current,
                    },
                )
            } else {
                Layout::Same
            },
            _ => Layout::Bad(
                ErrorKind::InternalError {
                    message: String::from_str("unexpected state at column 0"),
                },
            ),
        },
    }
}

/// The two groups of a token pattern as the next token.
fn found_token<'a>(found: Captured<'a>, class: TokenKind, state: State<'a>) -> (r: Next<'a>)
    requires
        found.first is Some,
        found.second is Some,
    ensures
        r@ == next_token(Some(found@), class, state@),
{
    Next::Token { prefix: found.first.unwrap(), lexeme: found.second.unwrap(), class, state }
}

/// What stands next in the text of a recipe line.
fn find_in_text<'a>(indent: &'a str, rest: &'a str) -> (r: Next<'a>)
    ensures
        r@ == next_in_text(indent@, rest@),
{
    if let Some(found) = Pattern::InterpolationStart.captures(rest) {
        proof {
            reveal_strlit("");
        }
        Next::Token {
            prefix: "",
            lexeme: found.whole,
            class: TokenKind::InterpolationStart,
            state: State::Interpolation(indent),
        }
    } else if let Some(found) = Pattern::LeadingText.captures(rest) {
        proof {
            reveal_strlit("");
        }
        Next::Token {
            prefix: "",
            lexeme: found.first.unwrap(),
            class: TokenKind::Text,
            state: State::Text(indent),
        }
    } else if let Some(found) = Pattern::Text.captures(rest) {
        proof {
            reveal_strlit("");
        }
        Next::Token {
            prefix: "",
            lexeme: found.first.unwrap(),
            class: TokenKind::Text,
            state: State::Text(indent),
        }
    } else if let Some(found) = Pattern::Eol.captures(rest) {
        found_token(found, TokenKind::Eol, State::Indent(indent))
    } else {
        let mut message: String = String::from_str("Could not match token in text state: \"");
        message.append(rest);
        message.append("\"");
        Next::Bad(ErrorKind::InternalError { message })
    }
}

/// What stands next outside of the text of recipe lines.
fn find_outside<'a>(state: State<'a>, rest: &'a str) -> (r: Next<'a>)
    ensures
        r@ == next_outside(state@, rest@),
{
    if let Some(found) = Pattern::InterpolationStartToken.captures(rest) {
        found_token(found, TokenKind::InterpolationStart, state)
    } else if let Some(found) = Pattern::InterpolationEnd.captures(rest) {
        let closed: State<'a> = match state {
            State::Interpolation(indent) => State::Text(indent),
            _ => state,
        };
        found_token(found, TokenKind::InterpolationEnd, closed)
    } else if let Some(found) = Pattern::Name.captures(rest) {
        found_token(found, TokenKind::Name, state)
    } else if let Some(found) = Pattern::Eol.captures(rest) {
        match state {
            State::Interpolation(_) => Next::Unclosed,
            _ => found_token(found, TokenKind::Eol, state),
        }
    } else if let Some(found) = Pattern::Colon.captures(rest) {
        found_token(found, TokenKind::Colon, state)
    } else if let Some(found) = Pattern::Plus.captures(rest) {
        found_token(found, TokenKind::Plus, state)
    } else if let Some(found) = Pattern::Equals.captures(rest) {
        found_token(found, TokenKind::Equals, state)
    } else if let Some(found) = Pattern::Comment.captures(rest) {
        found_token(found, TokenKind::Comment, state)
    } else if let Some(found) = Pattern::StringToken.captures(rest) {
        found_token(found, TokenKind::StringToken, state)
    } else if starts_with(rest, "#!") {
        proof {
            reveal_strlit("#!");
            assert("#!"@[0] == '#' && "#!"@[1] == '!');
            assert(rest@[0] == rest@.subrange(0, 2)[0] && rest@[1] == rest@.subrange(0, 2)[1]);
        }
        Next::Bad(ErrorKind::OuterShebang)
    } else {
        proof {
            reveal_strlit("#!");
            if begins_with(rest@, '#', '!') {
                assert("#!"@ =~= rest@.subrange(0, 2));
            }
        }
        Next::Bad(ErrorKind::UnknownStartOfToken)
    }
}

/// What stands next in the text.
fn find<'a>(state: State<'a>, column: usize, rest: &'a str) -> (r: Next<'a>)
    ensures
        r@ == spec_next(state@, column as nat, rest@),
{
    if let State::Indent(indent) = state {
        if column == 0 {
            if let Some(line) = Pattern::Line.captures(rest) {
                if !starts_with(line.whole, indent) {
                    return Next::Bad(
                        ErrorKind::InternalError { message: String::from_str("unexpected indent") },
                    );
                }
                proof {
                    reveal_strlit("");
                }
                return Next::Token {
                    prefix: indent,
                    lexeme: "",
                    class: TokenKind::Line,
                    state: State::Text(indent),
                };
            }
        }
    }
    if let Some(found) = Pattern::Eof.captures(rest) {
        found_token(found, TokenKind::Eof, state)
    } else if let State::Text(indent) = state {
        find_in_text(indent, rest)
    } else {
        find_outside(state, rest)
    }
}

/// What comes of cutting a text into tokens.
pub enum Lexed<'a> {
    Tokens(Vec<Token<'a>>),
    Fail(Error<'a>),
    /// An interpolation does not end on the line that it starts on.
    Unclosed,
}

impl<'a> View for Lexed<'a> {
    type V = LexedView;

    open spec fn view(&self) -> LexedView {
        match *self {
            Lexed::Tokens(tokens) => LexedView::Tokens(token_views(tokens@)),
            Lexed::Fail(error) => LexedView::Fail(error@),
            Lexed::Unclosed => LexedView::Unclosed,
        }
    }
}

/// The bytes behind the place after `lexed` are those behind the place before it and its own.
proof fn lemma_after(text: Seq<char>, at: Cursor, lexed: Seq<char>)
    requires
        at.pos <= text.len(),
        lexed.is_prefix_of(at.rest(text)),
    ensures
        at.pos + lexed.len() <= text.len(),
        byte_len(text.take((at.pos + lexed.len()) as int)) == at.index(text) + byte_len(lexed),
        at.index(text) + byte_len(lexed) <= byte_len(text),
{
    let end = (at.pos + lexed.len()) as int;
    assert(text.take(end) =~= text.take(at.pos as int) + lexed);
    lemma_encode_concat(text.take(at.pos as int), lexed);
    assert(text =~= text.take(end) + text.skip(end));
    lemma_encode_concat(text.take(end), text.skip(end));
}

/// What is left of `rest` after its first `len` bytes, which hold `lexed`.
fn skip<'a>(rest: &'a str, len: usize, Ghost(lexed): Ghost<Seq<char>>) -> (r: &'a str)
    requires
        lexed.is_prefix_of(rest@),
        len == byte_len(lexed),
    ensures
        r@ == rest@.skip(lexed.len() as int),
{
    let ghost tail = rest@.skip(lexed.len() as int);
    proof {
        assert(rest@ =~= lexed + tail);
        lemma_boundary(lexed, tail);
    }
    let (head, next) = cut(rest, len);
    proof {
        lemma_same_cut(lexed, tail, head@, next@);
    }
    next
}

/// Cuts `text` into tokens.
#[verifier::rlimit(40)]
pub fn lex<'a>(text: &'a str) -> (r: Lexed<'a>)
    ensures
        r@ == lex_spec(text@),
{
    let mut tokens: Vec<Token<'a>> = Vec::new();
    let mut rest: &'a str = text;
    let mut index: usize = 0;
    let mut line: usize = 0;
    let mut column: usize = 0;
    let mut state: State<'a> = State::Start;
    let ghost mut at = Cursor::start();
    proof {
        reveal_strlit("");
        assert(text@.skip(0) =~= text@);
        assert(token_views(tokens@) =~= Seq::empty());
    }
    loop
        invariant
            at.wf(text@),
            rest@ == at.rest(text@),
            index == at.index(text@),
            line == at.line,
            column == at.column,
            state@ == at.state,
            line <= index,
            column <= index,
            lex_spec(text@) == lex_from(text@, at, token_views(tokens@)),
        decreases rest@.len(),
    {
        let ghost done = token_views(tokens@);
        let ghost before = at;
        proof {
            lemma_layout(at.state, at.column, rest@);
        }
        match layout(state, column, rest) {
            Layout::Same => {},
            Layout::Enter(indent) => {
                state = State::Indent(indent);
                tokens.push(
                    Token {
                        index,
                        line,
                        column,
                        text,
                        prefix: "",
                        lexeme: "",
                        class: TokenKind::Indent,
                    },
                );
            },
            Layout::Leave => {
                state = State::Start;
                tokens.push(
                    Token {
                        index,
                        line,
                        column,
                        text,
                        prefix: "",
                        lexeme: "",
                        class: TokenKind::Dedent,
                    },
                );
            },
            Layout::Bad(kind) => {
                return Lexed::Fail(Error { text, index, line, column, width: None, kind });
            },
        }
        // a recipe also ends where the text does
        if let State::Start = state {
        } else if Pattern::Eof.is_match(rest) {
            tokens.push(
                Token {
                    index,
                    line,
                    column,
                    text,
                    prefix: "",
                    lexeme: "",
                    class: TokenKind::Dedent,
                },
            );
        }
        proof {
            reveal_strlit("");
            assert(""@ =~= Seq::<char>::empty());
            assert(token_views(tokens@) =~= done + marks(text@, before));
            lemma_next(state@, column as nat, rest@);
        }
        match find(state, column, rest) {
            Next::Bad(kind) => {
                return Lexed::Fail(Error { text, index, line, column, width: None, kind });
            },
            Next::Unclosed => {
                return Lexed::Unclosed;
            },
            Next::Token { prefix, lexeme, class, state: to } => {
                let ghost marked = token_views(tokens@);
                tokens.push(Token { index, line, column, text, prefix, lexeme, class });
                proof {
                    assert(token_views(tokens@) =~= marked.push(
                        before.token(text@, prefix@, lexeme@, class),
                    ));
                }
                if class == TokenKind::Eof {
                    return Lexed::Tokens(tokens);
                }
                let ghost lexed = prefix@ + lexeme@;
                proof {
                    at = before.after(lexed, class, to@);
                    lemma_after(text@, before, lexed);
                    lemma_encode_concat(prefix@, lexeme@);
                    lemma_chars_in_bytes(lexed);
                    assert(rest@.skip(lexed.len() as int) =~= at.rest(text@));
                }
                // the bytes of a text can be counted
                let _size: usize = crate::text::len(text);
                let len: usize = crate::text::len(prefix) + crate::text::len(lexeme);
                if class == TokenKind::Eol {
                    line = line + 1;
                    column = 0;
                } else {
                    column = column + len;
                }
                let next: &'a str = skip(rest, len, Ghost(lexed));
                rest = next;
                index = index + len;
                state = to;
            },
        }
    }
}

/// Whether each interpolation of `text` ends on the line that it starts on.
pub open spec fn closed(text: Seq<char>) -> bool {
    lex_spec(text) !is Unclosed
}

/// Whether each interpolation of `text` ends on the line that it starts on, as far as `text` can be
/// cut into tokens.
pub fn interpolations_closed(text: &str) -> (r: bool)
    ensures
        r == closed(text@),
{
    match lex(text) {
        Lexed::Unclosed => false,
        _ => true,
    }
}

/// Cuts `text` into tokens.
pub fn tokenize<'a>(text: &'a str) -> (r: Result<Vec<Token<'a>>, Error<'a>>)
    requires
        closed(text@),
    ensures
        match r {
            Ok(tokens) => lex_spec(text@) == LexedView::Tokens(token_views(tokens@)),
            Err(error) => lex_spec(text@) == LexedView::Fail(error@),
        },
{
    match lex(text) {
        Lexed::Tokens(tokens) => Ok(tokens),
        Lexed::Fail(error) => Err(error),
        // no interpolation is left open
        Lexed::Unclosed => Ok(Vec::new()),
    }
}

} // verus!
