//! What can be wrong with a justfile, and where.

use vstd::prelude::*;
use vstd::string::*;

use crate::text::{byte_len, decimal, join, joined_by, line_after, names, nth_line, show_decimal};
use crate::text::{show_whitespace, visible};
use crate::token::TokenKind;

verus! {

/// An error in a justfile: what is wrong, and where it is.
#[derive(Debug, PartialEq)]
pub struct Error<'a> {
    pub text: &'a str,
    pub index: usize,
    pub line: usize,
    pub column: usize,
    pub width: Option<usize>,
    pub kind: ErrorKind<'a>,
}

/// What is wrong.
#[derive(Debug, PartialEq)]
#[allow(inconsistent_fields)]
pub enum ErrorKind<'a> {
    BadName { name: &'a str },
    CircularRecipeDependency { recipe: &'a str, circle: Vec<&'a str> },
    CircularVariableDependency { variable: &'a str, circle: Vec<&'a str> },
    DuplicateDependency { recipe: &'a str, dependency: &'a str },
    DuplicateArgument { recipe: &'a str, argument: &'a str },
    DuplicateRecipe { recipe: &'a str, first: usize },
    DuplicateVariable { variable: &'a str },
    ArgumentShadowsVariable { argument: &'a str },
    MixedLeadingWhitespace { whitespace: &'a str },
    ExtraLeadingWhitespace,
    InconsistentLeadingWhitespace { expected: &'a str, found: &'a str },
    OuterShebang,
    UnknownDependency { recipe: &'a str, unknown: &'a str },
    UnknownVariable { variable: &'a str },
    UnknownStartOfToken,
    UnexpectedToken { expected: Vec<TokenKind>, found: TokenKind },
    InternalError { message: String },
}

/// The view of an [`Error`].
#[verifier::ext_equal]
pub struct ErrorView {
    pub text: Seq<char>,
    pub index: nat,
    pub line: nat,
    pub column: nat,
    pub width: Option<nat>,
    pub kind: ErrorKindView,
}

/// The view of an [`ErrorKind`].
#[verifier::ext_equal]
#[allow(inconsistent_fields)]
pub enum ErrorKindView {
    BadName { name: Seq<char> },
    CircularRecipeDependency { recipe: Seq<char>, circle: Seq<Seq<char>> },
    CircularVariableDependency { variable: Seq<char>, circle: Seq<Seq<char>> },
    DuplicateDependency { recipe: Seq<char>, dependency: Seq<char> },
    DuplicateArgument { recipe: Seq<char>, argument: Seq<char> },
    DuplicateRecipe { recipe: Seq<char>, first: nat },
    DuplicateVariable { variable: Seq<char> },
    ArgumentShadowsVariable { argument: Seq<char> },
    MixedLeadingWhitespace { whitespace: Seq<char> },
    ExtraLeadingWhitespace,
    InconsistentLeadingWhitespace { expected: Seq<char>, found: Seq<char> },
    OuterShebang,
    UnknownDependency { recipe: Seq<char>, unknown: Seq<char> },
    UnknownVariable { variable: Seq<char> },
    UnknownStartOfToken,
    UnexpectedToken { expected: Seq<TokenKind>, found: TokenKind },
    InternalError { message: Seq<char> },
}

impl<'a> View for ErrorKind<'a> {
    type V = ErrorKindView;

    open spec fn view(&self) -> ErrorKindView {
        match *self {
            ErrorKind::BadName { name } => ErrorKindView::BadName { name: name@ },
            ErrorKind::CircularRecipeDependency { recipe, circle } =>
                ErrorKindView::CircularRecipeDependency { recipe: recipe@, circle: names(circle@) },
            ErrorKind::CircularVariableDependency { variable, circle } =>
                ErrorKindView::CircularVariableDependency {
                    variable: variable@,
                    circle: names(circle@),
                },
            ErrorKind::DuplicateDependency { recipe, dependency } =>
                ErrorKindView::DuplicateDependency { recipe: recipe@, dependency: dependency@ },
            ErrorKind::DuplicateArgument { recipe, argument } =>
                ErrorKindView::DuplicateArgument { recipe: recipe@, argument: argument@ },
            ErrorKind::DuplicateRecipe { recipe, first } =>
                ErrorKindView::DuplicateRecipe { recipe: recipe@, first: first as nat },
            ErrorKind::DuplicateVariable { variable } =>
                ErrorKindView::DuplicateVariable { variable: variable@ },
            ErrorKind::ArgumentShadowsVariable { argument } =>
                ErrorKindView::ArgumentShadowsVariable { argument: argument@ },
            ErrorKind::MixedLeadingWhitespace { whitespace } =>
                ErrorKindView::MixedLeadingWhitespace { whitespace: whitespace@ },
            ErrorKind::ExtraLeadingWhitespace => ErrorKindView::ExtraLeadingWhitespace,
            ErrorKind::InconsistentLeadingWhitespace { expected, found } =>
                ErrorKindView::InconsistentLeadingWhitespace {
                    expected: expected@,
                    found: found@,
                },
            ErrorKind::OuterShebang => ErrorKindView::OuterShebang,
            ErrorKind::UnknownDependency { recipe, unknown } =>
                ErrorKindView::UnknownDependency { recipe: recipe@, unknown: unknown@ },
            ErrorKind::UnknownVariable { variable } =>
                ErrorKindView::UnknownVariable { variable: variable@ },
            ErrorKind::UnknownStartOfToken => ErrorKindView::UnknownStartOfToken,
            ErrorKind::UnexpectedToken { expected, found } =>
                ErrorKindView::UnexpectedToken { expected: expected@, found },
            ErrorKind::InternalError { message } =>
                ErrorKindView::InternalError { message: message@ },
        }
    }
}

impl<'a> View for Error<'a> {
    type V = ErrorView;

    open spec fn view(&self) -> ErrorView {
        ErrorView {
            text: self.text@,
            index: self.index as nat,
            line: self.line as nat,
            column: self.column as nat,
            width: match self.width {
                Some(width) => Some(width as nat),
                None => None,
            },
            kind: self.kind@,
        }
    }
}

/// Items in words: "a", "a or b", "a, b, or c".
pub open spec fn alternatives(items: Seq<Seq<char>>) -> Seq<char> {
    if items.len() == 0 {
        Seq::empty()
    } else if items.len() == 1 {
        items[0]
    } else if items.len() == 2 {
        items[0] + " or "@ + items[1]
    } else {
        joined_by(items.drop_last(), ", "@) + ", or "@ + items.last()
    }
}

/// What messages call each of a sequence of classes.
pub open spec fn classes_shown(classes: Seq<TokenKind>) -> Seq<Seq<char>> {
    classes.map_values(|class: TokenKind| class.shown())
}

/// Classes of tokens, of which one was expected.
pub struct Or<'a>(pub &'a [TokenKind]);

impl<'a> Or<'a> {
    /// The classes in words.
    pub fn to_string(&self) -> (r: String)
        ensures
            r@ == alternatives(classes_shown(self.0@)),
    {
        let ghost items = classes_shown(self.0@);
        let len: usize = self.0.len();
        if len == 0 {
            return String::new();
        }
        if len == 1 {
            return String::from_str(self.0[0].as_str());
        }
        if len == 2 {
            let mut shown: String = String::from_str(self.0[0].as_str());
            shown.append(" or ");
            shown.append(self.0[1].as_str());
            return shown;
        }
        let mut but_last: Vec<&'static str> = Vec::new();
        let mut i: usize = 0;
        while i < len - 1
            invariant
                i <= len - 1,
                len == self.0@.len(),
                len >= 3,
                items == classes_shown(self.0@),
                names(but_last@) == items.take(i as int),
            decreases len - i,
        {
            let ghost had = names(but_last@);
            but_last.push(self.0[i].as_str());
            i += 1;
            proof {
                assert(names(but_last@) =~= had.push(items[i - 1]));
                assert(names(but_last@) =~= items.take(i as int));
            }
        }
        proof {
            assert(items.take(i as int) =~= items.drop_last());
        }
        let mut shown: String = join(&but_last, ", ");
        shown.append(", or ");
        shown.append(self.0[len - 1].as_str());
        shown
    }
}

impl ErrorKindView {
    /// What is wrong, in words. The error is on line `line`.
    pub open spec fn shown(self, line: nat) -> Seq<char> {
        match self {
            ErrorKindView::BadName { name } => "name did not match /[a-z](-?[a-z0-9])*/: "@ + name,
            ErrorKindView::DuplicateArgument { recipe, argument } => "recipe "@ + recipe
                + " has duplicate argument: "@ + argument,
            ErrorKindView::DuplicateVariable { variable } => "variable \""@ + variable
                + "\" is has multiple definitions"@,
            ErrorKindView::DuplicateDependency { recipe, dependency } => "recipe "@ + recipe
                + " has duplicate dependency: "@ + dependency,
            ErrorKindView::ArgumentShadowsVariable { argument } => "argument "@ + argument
                + " shadows variable of the same name"@,
            ErrorKindView::UnknownDependency { recipe, unknown } => "recipe "@ + recipe
                + " has unknown dependency "@ + unknown,
            ErrorKindView::UnknownVariable { variable } => "variable \""@ + variable
                + "\" is unknown"@,
            ErrorKindView::CircularRecipeDependency { recipe, circle } => if circle.len() == 2 {
                "recipe 1"@ + recipe + " depends on itself"@
            } else {
                "recipe "@ + recipe + " has circular dependency: "@ + joined_by(circle, " -> "@)
            },
            ErrorKindView::CircularVariableDependency { variable, circle } => "assignment to "@
                + variable + " has circular dependency: "@ + joined_by(circle, " -> "@),
            ErrorKindView::UnexpectedToken { expected, found } => "expected "@ + alternatives(
                classes_shown(expected),
            ) + " but found "@ + found.shown(),
            ErrorKindView::DuplicateRecipe { recipe, first } => "duplicate recipe: "@ + recipe
                + " appears on lines "@ + decimal(first) + " and "@ + decimal(line),
            ErrorKindView::MixedLeadingWhitespace { whitespace } =>
                "found a mix of tabs and spaces in leading whitespace: "@ + visible(whitespace)
                + "\n leading whitespace may consist of tabs or spaces, but not both"@,
            ErrorKindView::ExtraLeadingWhitespace => "recipe line has extra leading whitespace"@,
            ErrorKindView::InconsistentLeadingWhitespace { expected, found } =>
                "inconsistant leading whitespace: recipe started with \""@ + visible(expected)
                + "\" but found line with \""@ + visible(found) + "\":"@,
            ErrorKindView::OuterShebang =>
                "a shebang \"#!\" is reserved syntax outside of recipes"@,
            ErrorKindView::UnknownStartOfToken => "unknown start of token:"@,
            ErrorKindView::InternalError { message } =>
                "internal error, this may indicate a bug in j: "@ + message
                + "\n consider filing an issue: https://github.com/casey/j/issues/new"@,
        }
    }

    /// Whether the line of the text that the error is on follows the words.
    pub open spec fn quotes_line(self) -> bool {
        !(self is CircularRecipeDependency || self is CircularVariableDependency
            || self is DuplicateRecipe)
    }
}

impl ErrorView {
    /// The line of the text that the error is on. There is none at the end of the text.
    pub open spec fn quoted(self) -> Seq<char> {
        match line_after(self.text, 0, self.line) {
            Some(line) => line,
            None => if self.index != byte_len(self.text) {
                "internal error: Error has invalid line number: "@ + decimal(self.line)
            } else {
                Seq::empty()
            },
        }
    }

    /// The error in words.
    pub open spec fn shown(self) -> Seq<char> {
        let message = "justfile:"@ + decimal(self.line) + ": "@ + self.kind.shown(self.line);
        if self.kind.quotes_line() {
            message + "\n"@ + self.quoted()
        } else {
            message
        }
    }
}

impl<'a> ErrorKind<'a> {
    /// What is wrong, in words. The error is on line `line`.
    fn message(&self, line: usize) -> (r: String)
        ensures
            r@ == self@.shown(line as nat),
    {
        match self {
            ErrorKind::BadName { name } => {
                let mut message: String = String::from_str(
                    "name did not match /[a-z](-?[a-z0-9])*/: ",
                );
                message.append(name);
                message
            },
            ErrorKind::DuplicateArgument { recipe, argument } => {
                let mut message: String = String::from_str("recipe ");
                message.append(recipe);
                message.append(" has duplicate argument: ");
                message.append(argument);
                message
            },
            ErrorKind::DuplicateVariable { variable } => {
                let mut message: String = String::from_str("variable \"");
                message.append(variable);
                message.append("\" is has multiple definitions");
                message
            },
            ErrorKind::DuplicateDependency { recipe, dependency } => {
                let mut message: String = String::from_str("recipe ");
                message.append(recipe);
                message.append(" has duplicate dependency: ");
                message.append(dependency);
                message
            },
            ErrorKind::ArgumentShadowsVariable { argument } => {
                let mut message: String = String::from_str("argument ");
                message.append(argument);
                message.append(" shadows variable of the same name");
                message
            },
            ErrorKind::UnknownDependency { recipe, unknown } => {
                let mut message: String = String::from_str("recipe ");
                message.append(recipe);
                message.append(" has unknown dependency ");
                message.append(unknown);
                message
            },
            ErrorKind::UnknownVariable { variable } => {
                let mut message: String = String::from_str("variable \"");
                message.append(variable);
                message.append("\" is unknown");
                message
            },
            ErrorKind::CircularRecipeDependency { recipe, circle } => {
                if circle.len() == 2 {
                    let mut message: String = String::from_str("recipe 1");
                    message.append(recipe);
                    message.append(" depends on itself");
                    message
                } else {
                    let mut message: String = String::from_str("recipe ");
                    let path: String = join(circle, " -> ");
                    message.append(recipe);
                    message.append(" has circular dependency: ");
                    message.append(path.as_str());
                    message
                }
            },
            ErrorKind::CircularVariableDependency { variable, circle } => {
                let mut message: String = String::from_str("assignment to ");
                let path: String = join(circle, " -> ");
                message.append(variable);
                message.append(" has circular dependency: ");
                message.append(path.as_str());
                message
            },
            ErrorKind::UnexpectedToken { expected, found } => {
                let mut message: String = String::from_str("expected ");
                let classes: String = Or(expected.as_slice()).to_string();
                message.append(classes.as_str());
                message.append(" but found ");
                message.append(found.as_str());
                message
            },
            ErrorKind::DuplicateRecipe { recipe, first } => {
                let mut message: String = String::from_str("duplicate recipe: ");
                let first: String = show_decimal(*first as u64);
                let second: String = show_decimal(line as u64);
                message.append(recipe);
                message.append(" appears on lines ");
                message.append(first.as_str());
                message.append(" and ");
                message.append(second.as_str());
                message
            },
            ErrorKind::MixedLeadingWhitespace { whitespace } => {
                let mut message: String = String::from_str(
                    "found a mix of tabs and spaces in leading whitespace: ",
                );
                let shown: String = show_whitespace(whitespace);
                message.append(shown.as_str());
                message.append(
                    "\n leading whitespace may consist of tabs or spaces, but not both",
                );
                message
            },
            ErrorKind::ExtraLeadingWhitespace => {
                String::from_str("recipe line has extra leading whitespace")
            },
            ErrorKind::InconsistentLeadingWhitespace { expected, found } => {
                let mut message: String = String::from_str(
                    "inconsistant leading whitespace: recipe started with \"",
                );
                let expected: String = show_whitespace(expected);
                let found: String = show_whitespace(found);
                message.append(expected.as_str());
                message.append("\" but found line with \"");
                message.append(found.as_str());
                message.append("\":");
                message
            },
            ErrorKind::OuterShebang => {
                String::from_str("a shebang \"#!\" is reserved syntax outside of recipes")
            },
            ErrorKind::UnknownStartOfToken => String::from_str("unknown start of token:"),
            ErrorKind::InternalError { message: internal } => {
                let mut message: String = String::from_str(
                    "internal error, this may indicate a bug in j: ",
                );
                message.append(internal.as_str());
                message.append(
                    "\n consider filing an issue: https://github.com/casey/j/issues/new",
                );
                message
            },
        }
    }

    /// Whether the line of the text that the error is on follows the words.
    fn has_quote(&self) -> (r: bool)
        ensures
            r == self@.quotes_line(),
    {
        match self {
            ErrorKind::CircularRecipeDependency { .. } => false,
            ErrorKind::CircularVariableDependency { .. } => false,
            ErrorKind::DuplicateRecipe { .. } => false,
            _ => true,
        }
    }
}

impl<'a> Error<'a> {
    /// The error in words.
    pub fn to_string(&self) -> (r: String)
        ensures
            r@ == self@.shown(),
    {
        let mut message: String = String::from_str("justfile:");
        let number: String = show_decimal(self.line as u64);
        let wrong: String = self.kind.message(self.line);
        message.append(number.as_str());
        message.append(": ");
        message.append(wrong.as_str());
        if self.kind.has_quote() {
            message.append("\n");
            let ghost had = message@;
            match nth_line(self.text, self.line) {
                Some(line) => {
                    message.append(line);
                },
                None => {
                    if self.index != crate::text::len(self.text) {
                        let mut quoted: String = String::from_str(
                            "internal error: Error has invalid line number: ",
                        );
                        quoted.append(number.as_str());
                        message.append(quoted.as_str());
                    } else {
                        assert(had + Seq::<char>::empty() =~= had);
                    }
                },
            }
        }
        message
    }
}

} // verus!
