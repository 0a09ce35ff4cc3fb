//! Tokens: the pieces that a justfile is cut into.

use vstd::prelude::*;
use vstd::string::*;

use crate::error::{Error, ErrorKind, ErrorKindView, ErrorView};
use crate::text::byte_len;

verus! {

/// What a token is.
#[derive(Debug, PartialEq, Eq, Clone, Copy, Structural)]
pub enum TokenKind {
    Name,
    Colon,
    StringToken,
    Plus,
    Equals,
    Comment,
    Indent,
    Dedent,
    InterpolationStart,
    InterpolationEnd,
    Text,
    Line,
    Eol,
    Eof,
}

/// A token: where it stands, the blanks before it, and its own characters.
#[derive(Debug, PartialEq, Clone, Copy)]
pub struct Token<'a> {
    /// How many bytes of the text stand before the token and its prefix.
    pub index: usize,
    /// How many lines of the text stand before the token's own.
    pub line: usize,
    /// How many bytes of its line stand before the token and its prefix.
    pub column: usize,
    /// The whole text that the token was cut from.
    pub text: &'a str,
    /// The blanks between the token before this one and this one.
    pub prefix: &'a str,
    /// The token's own characters.
    pub lexeme: &'a str,
    pub class: TokenKind,
}

/// The view of a [`Token`].
#[verifier::ext_equal]
pub struct TokenView {
    pub index: nat,
    pub line: nat,
    pub column: nat,
    pub text: Seq<char>,
    pub prefix: Seq<char>,
    pub lexeme: Seq<char>,
    pub class: TokenKind,
}

impl<'a> View for Token<'a> {
    type V = TokenView;

    open spec fn view(&self) -> TokenView {
        TokenView {
            index: self.index as nat,
            line: self.line as nat,
            column: self.column as nat,
            text: self.text@,
            prefix: self.prefix@,
            lexeme: self.lexeme@,
            class: self.class,
        }
    }
}

/// The views of a sequence of tokens.
pub open spec fn token_views(tokens: Seq<Token<'_>>) -> Seq<TokenView> {
    tokens.map_values(|t: Token| t@)
}

/// The characters of each of a sequence of tokens.
pub open spec fn lexemes(tokens: Seq<TokenView>) -> Seq<Seq<char>> {
    tokens.map_values(|t: TokenView| t.lexeme)
}

/// Whether `p` holds of each of `tokens`.
pub open spec fn all_tokens(tokens: Seq<TokenView>, p: spec_fn(TokenView) -> bool) -> bool {
    forall|i: int| 0 <= i < tokens.len() ==> p(#[trigger] tokens[i])
}

/// That the place of a token is within what a `usize` counts.
pub open spec fn countable() -> spec_fn(TokenView) -> bool {
    |token: TokenView| token.fits()
}

impl TokenView {
    /// The error of kind `kind` at this token: it points at the token's own characters.
    pub open spec fn error(self, kind: ErrorKindView) -> ErrorView {
        ErrorView {
            text: self.text,
            index: self.index + byte_len(self.prefix),
            line: self.line,
            column: self.column + byte_len(self.prefix),
            width: Some(byte_len(self.lexeme)),
            kind,
        }
    }

    /// The error that another kind of token was expected here.
    pub open spec fn unexpected(self, expected: Seq<TokenKind>) -> ErrorView {
        self.error(ErrorKindView::UnexpectedToken { expected, found: self.class })
    }

    /// Whether the place of the token's own characters is within what a `usize` counts.
    pub open spec fn fits(self) -> bool {
        &&& self.index + byte_len(self.prefix) <= usize::MAX
        &&& self.column + byte_len(self.prefix) <= usize::MAX
    }
}

impl<'a> Token<'a> {
    /// The error of kind `kind` at this token.
    pub fn error(&self, kind: ErrorKind<'a>) -> (r: Error<'a>)
        requires
            self@.fits(),
        ensures
            r@ == self@.error(kind@),
    {
        let prefix: usize = crate::text::len(self.prefix);
        let width: usize = crate::text::len(self.lexeme);
        Error {
            text: self.text,
            index: self.index + prefix,
            line: self.line,
            column: self.column + prefix,
            width: Some(width),
            kind,
        }
    }
}

impl TokenKind {
    /// What messages call tokens of this class.
    pub open spec fn shown(self) -> Seq<char> {
        match self {
            TokenKind::Name => "name"@,
            TokenKind::Colon => "\":\""@,
            TokenKind::Plus => "\"+\""@,
            TokenKind::Equals => "\"=\""@,
            TokenKind::StringToken => "string"@,
            TokenKind::Text => "command text"@,
            TokenKind::InterpolationStart => "{{"@,
            TokenKind::InterpolationEnd => "}}"@,
            TokenKind::Comment => "comment"@,
            TokenKind::Line => "command"@,
            TokenKind::Indent => "indent"@,
            TokenKind::Dedent => "dedent"@,
            TokenKind::Eol => "end of line"@,
            TokenKind::Eof => "end of file"@,
        }
    }

    /// What messages call tokens of this class.
    pub fn as_str(self) -> (r: &'static str)
        ensures
            r@ == self.shown(),
    {
        match self {
            TokenKind::Name => "name",
            TokenKind::Colon => "\":\"",
            TokenKind::Plus => "\"+\"",
            TokenKind::Equals => "\"=\"",
            TokenKind::StringToken => "string",
            TokenKind::Text => "command text",
            TokenKind::InterpolationStart => "{{",
            TokenKind::InterpolationEnd => "}}",
            TokenKind::Comment => "comment",
            TokenKind::Line => "command",
            TokenKind::Indent => "indent",
            TokenKind::Dedent => "dedent",
            TokenKind::Eol => "end of line",
            TokenKind::Eof => "end of file",
        }
    }

    /// What messages call tokens of this class.
    pub fn to_string(&self) -> (r: String)
        ensures
            r@ == self.shown(),
    {
        String::from_str(self.as_str())
    }

    /// The name of the class in this library.
    pub open spec fn spelled(self) -> Seq<char> {
        match self {
            TokenKind::Name => "Name"@,
            TokenKind::Colon => "Colon"@,
            TokenKind::Plus => "Plus"@,
            TokenKind::Equals => "Equals"@,
            TokenKind::StringToken => "StringToken"@,
            TokenKind::Text => "Text"@,
            TokenKind::InterpolationStart => "InterpolationStart"@,
            TokenKind::InterpolationEnd => "InterpolationEnd"@,
            TokenKind::Comment => "Comment"@,
            TokenKind::Line => "Line"@,
            TokenKind::Indent => "Indent"@,
            TokenKind::Dedent => "Dedent"@,
            TokenKind::Eol => "Eol"@,
            TokenKind::Eof => "Eof"@,
        }
    }

    /// The name of the class in this library.
    pub fn identifier(self) -> (r: &'static str)
        ensures
            r@ == self.spelled(),
    {
        match self {
            TokenKind::Name => "Name",
            TokenKind::Colon => "Colon",
            TokenKind::Plus => "Plus",
            TokenKind::Equals => "Equals",
            TokenKind::StringToken => "StringToken",
            TokenKind::Text => "Text",
            TokenKind::InterpolationStart => "InterpolationStart",
            TokenKind::InterpolationEnd => "InterpolationEnd",
            TokenKind::Comment => "Comment",
            TokenKind::Line => "Line",
            TokenKind::Indent => "Indent",
            TokenKind::Dedent => "Dedent",
            TokenKind::Eol => "Eol",
            TokenKind::Eof => "Eof",
        }
    }
}

} // verus!
