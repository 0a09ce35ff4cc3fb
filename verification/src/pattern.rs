//! The regular expressions that justfiles are tokenized with.
//!
//! The `regex` crate does the matching. Two wrappers hand it a pattern and a text; their contracts
//! say, for each pattern of this module, what it finds.

use regex::Regex;
use vstd::prelude::*;
use vstd::string::*;

verus! {

/// A regular expression of the library. Each is tried at the start of a text.
#[derive(Clone, Copy, PartialEq, Eq, Debug)]
pub enum Pattern {
    Eof,
    Name,
    Colon,
    Equals,
    Plus,
    Comment,
    StringToken,
    Eol,
    InterpolationEnd,
    InterpolationStartToken,
    Line,
    Indent,
    InterpolationStart,
    LeadingText,
    Text,
    GoodName,
}

/// What a pattern found: the whole match, and its first two groups.
pub struct Captured<'t> {
    pub whole: &'t str,
    pub first: Option<&'t str>,
    pub second: Option<&'t str>,
}

/// The view of a [`Captured`].
pub struct CapturedView {
    pub whole: Seq<char>,
    pub first: Option<Seq<char>>,
    pub second: Option<Seq<char>>,
}

/// The view of an optional string.
pub open spec fn group_view(group: Option<&str>) -> Option<Seq<char>> {
    match group {
        Some(s) => Some(s@),
        None => None,
    }
}

impl<'t> View for Captured<'t> {
    type V = CapturedView;

    open spec fn view(&self) -> CapturedView {
        CapturedView {
            whole: self.whole@,
            first: group_view(self.first),
            second: group_view(self.second),
        }
    }
}

/// The view of an optional [`Captured`].
pub open spec fn captured_view(found: Option<Captured<'_>>) -> Option<CapturedView> {
    match found {
        Some(captured) => Some(captured@),
        None => None,
    }
}

/// How many characters at the start of `s` satisfy `p`, up to the first that does not.
pub open spec fn run_len(s: Seq<char>, p: spec_fn(char) -> bool) -> nat
    decreases s.len(),
{
    if s.len() > 0 && p(s[0]) {
        1 + run_len(s.skip(1), p)
    } else {
        0
    }
}

/// `[ \t]`
pub open spec fn is_blank(c: char) -> bool {
    c == ' ' || c == '\t'
}

/// `[a-z0-9]`
pub open spec fn is_lower_or_digit(c: char) -> bool {
    'a' <= c <= 'z' || '0' <= c <= '9'
}

/// `[a-zA-Z0-9_-]`
pub open spec fn is_name_char(c: char) -> bool {
    is_lower_or_digit(c) || 'A' <= c <= 'Z' || c == '_' || c == '-'
}

/// The length of `[ \t]*` at the start of `s`.
pub open spec fn blanks(s: Seq<char>) -> nat {
    run_len(s, |c: char| is_blank(c))
}

/// The length of `[a-zA-Z0-9_-]*` at the start of `s`.
pub open spec fn name_len(s: Seq<char>) -> nat {
    run_len(s, |c: char| is_name_char(c))
}

/// The length of `.*` at the start of `s`: what is left of its first line.
pub open spec fn line_len(s: Seq<char>) -> nat {
    run_len(s, |c: char| c != '\n')
}

/// Whether `s` holds the character `c` at its start.
pub open spec fn begins(s: Seq<char>, c: char) -> bool {
    s.len() > 0 && s[0] == c
}

/// Whether `s` holds the characters `c` and `d` at its start.
pub open spec fn begins_with(s: Seq<char>, c: char, d: char) -> bool {
    s.len() > 1 && s[0] == c && s[1] == d
}

/// Whether `s` starts, after its blanks, with a character that is no line break.
pub open spec fn has_content(s: Seq<char>) -> bool {
    blanks(s) < s.len() && s[blanks(s) as int] != '\n' && s[blanks(s) as int] != '\r'
}

/// Where the first `{{` at or after `from` stands, if it is on the same line.
pub open spec fn braces_at(s: Seq<char>, from: int) -> Option<int>
    decreases s.len() - from,
{
    if from + 1 >= s.len() || from < 0 {
        None
    } else if s[from] == '{' && s[from + 1] == '{' {
        Some(from)
    } else if s[from] == '\n' {
        None
    } else {
        braces_at(s, from + 1)
    }
}

/// Whether `s` is a lowercase letter, then lowercase letters, digits and single inner dashes.
pub open spec fn is_good_name(s: Seq<char>) -> bool {
    &&& s.len() > 0
    &&& 'a' <= s[0] <= 'z'
    &&& forall|i: int| 0 <= i < s.len() ==> is_lower_or_digit(#[trigger] s[i]) || s[i] == '-'
    &&& forall|i: int|
        0 <= i < s.len() && #[trigger] s[i] == '-' ==> i + 1 < s.len() && is_lower_or_digit(s[i + 1])
}

impl Pattern {
    /// Whether the pattern has the form that [`token`] builds: blanks, then the token itself.
    pub open spec fn is_token(self) -> bool {
        match self {
            Pattern::Eof | Pattern::Name | Pattern::Colon | Pattern::Equals | Pattern::Plus => true,
            Pattern::Comment | Pattern::StringToken | Pattern::Eol => true,
            Pattern::InterpolationEnd | Pattern::InterpolationStartToken => true,
            _ => false,
        }
    }

    /// The pattern as it is written: of a token pattern, what stands after the blanks.
    pub open spec fn spec_body(self) -> Seq<char> {
        match self {
            Pattern::Eof => r"(?-m)$"@,
            Pattern::Name => r"([a-zA-Z0-9_-]+)"@,
            Pattern::Colon => r":"@,
            Pattern::Equals => r"="@,
            Pattern::Plus => r"[+]"@,
            Pattern::Comment => r"#([^!].*)?$"@,
            Pattern::StringToken => "\"[a-z0-9]\""@,
            Pattern::Eol => r"\n|\r\n"@,
            Pattern::InterpolationEnd => r"[}][}]"@,
            Pattern::InterpolationStartToken => r"[{][{]"@,
            Pattern::Line => r"^(?m)[ \t]+[^ \t\n\r].*$"@,
            Pattern::Indent => r"^([ \t]*)[^ \t\n\r]"@,
            Pattern::InterpolationStart => r"^[{][{]"@,
            Pattern::LeadingText => r"^(?m)(.+?)[{][{]"@,
            Pattern::Text => r"^(?m)(.+)"@,
            Pattern::GoodName => r"^[a-z](-?[a-z0-9])*$"@,
        }
    }

    /// The regular expression that is handed to `regex`.
    pub open spec fn spec_source(self) -> Seq<char> {
        if self.is_token() {
            token_source(self.spec_body())
        } else {
            self.spec_body()
        }
    }

    /// Of a token pattern, how many characters the token takes at the start of `s`, where the
    /// blanks are gone.
    pub open spec fn token_len(self, s: Seq<char>) -> Option<nat> {
        match self {
            Pattern::Eof => if s.len() == 0 { Some(0) } else { None },
            Pattern::Name => if name_len(s) > 0 { Some(name_len(s)) } else { None },
            Pattern::Colon => if begins(s, ':') { Some(1) } else { None },
            Pattern::Equals => if begins(s, '=') { Some(1) } else { None },
            Pattern::Plus => if begins(s, '+') { Some(1) } else { None },
            // what follows the number sign is one character, which may end the line, and then
            // what is left of the line it leads to
            Pattern::Comment => if !begins(s, '#') || begins_with(s, '#', '!') {
                None
            } else if s.len() == 1 {
                Some(1)
            } else {
                Some(2 + line_len(s.skip(2)))
            },
            Pattern::StringToken => if s.len() > 2 && s[0] == '"' && is_lower_or_digit(s[1])
                && s[2] == '"' {
                Some(3)
            } else {
                None
            },
            Pattern::Eol => if begins(s, '\n') {
                Some(1)
            } else if begins_with(s, '\r', '\n') {
                Some(2)
            } else {
                None
            },
            Pattern::InterpolationEnd => if begins_with(s, '}', '}') { Some(2) } else { None },
            Pattern::InterpolationStartToken => if begins_with(s, '{', '{') {
                Some(2)
            } else {
                None
            },
            _ => None,
        }
    }

    /// What the pattern finds in `s`.
    pub open spec fn spec_captures(self, s: Seq<char>) -> Option<CapturedView> {
        let n = blanks(s) as int;
        match self {
            Pattern::Line => if n > 0 && has_content(s) {
                let whole = s.take(n + line_len(s.skip(n)));
                Some(CapturedView { whole, first: None, second: None })
            } else {
                None
            },
            Pattern::Indent => if has_content(s) {
                Some(CapturedView { whole: s.take(n + 1), first: Some(s.take(n)), second: None })
            } else {
                None
            },
            Pattern::InterpolationStart => if begins_with(s, '{', '{') {
                Some(CapturedView { whole: s.take(2), first: None, second: None })
            } else {
                None
            },
            Pattern::LeadingText => if s.len() > 0 && s[0] != '\n' && braces_at(s, 1) is Some {
                let at = braces_at(s, 1)->0;
                Some(CapturedView { whole: s.take(at + 2), first: Some(s.take(at)), second: None })
            } else {
                None
            },
            Pattern::Text => if line_len(s) > 0 {
                let line = s.take(line_len(s) as int);
                Some(CapturedView { whole: line, first: Some(line), second: None })
            } else {
                None
            },
            Pattern::GoodName => if is_good_name(s) {
                Some(CapturedView { whole: s, first: last_repetition(s), second: None })
            } else {
                None
            },
            _ => match self.token_len(s.skip(n)) {
                Some(len) => Some(
                    CapturedView {
                        whole: s.take(n + len),
                        first: Some(s.take(n)),
                        second: Some(s.subrange(n, n + len)),
                    },
                ),
                None => None,
            },
        }
    }
}

/// What `(-?[a-z0-9])*` matched last in the good name `s`: its last character, with the dash
/// before it.
pub open spec fn last_repetition(s: Seq<char>) -> Option<Seq<char>> {
    if s.len() == 1 {
        None
    } else if s[s.len() - 2] == '-' {
        Some(s.skip(s.len() - 2))
    } else {
        Some(s.skip(s.len() - 1))
    }
}

/// The regular expression that [`token`] builds.
pub open spec fn token_source(pattern: Seq<char>) -> Seq<char> {
    r"^(?m)([ \t]*)("@ + pattern + ")"@
}

/// Whether `source` is the regular expression of one of the library's patterns.
pub open spec fn is_source(source: Seq<char>) -> bool {
    exists|p: Pattern| source == #[trigger] p.spec_source()
}

/// The regular expression of a token: any blanks, then `pattern`, each in a group.
pub fn token(pattern: &str) -> (r: String)
    ensures
        r@ == token_source(pattern@),
{
    let mut s: String = String::new();
    s.append(r"^(?m)([ \t]*)(");
    s.append(pattern);
    s.append(")");
    proof {
        assert(s@ =~= token_source(pattern@));
    }
    s
}

/// Compiles `pattern` with `Regex::new` and searches `text` with `Regex::captures`.
///
/// Of the library's own patterns the contract claims that they compile, and that the whole match
/// and the first two groups are those that [`Pattern::spec_captures`] gives: the match starts where
/// the text does, `*`, `+` and `?` take as much as they can and `+?` as little, `.` is any character
/// but `\n`, a negated class also takes `\n`, and `$` is the end of the text or, after `(?m)`, of a
/// line.
#[verifier::external_body]
fn regex_captures<'t>(pattern: &str, text: &'t str) -> (r: Option<Captured<'t>>)
    requires
        is_source(pattern@),
    ensures
        forall|p: Pattern|
            pattern@ == #[trigger] p.spec_source() ==> captured_view(r) == p.spec_captures(text@),
{
    Regex::new(pattern).unwrap().captures(text).map(
        |found|
            Captured { whole: found.at(0).unwrap(), first: found.at(1), second: found.at(2) },
    )
}

/// Compiles `pattern` with `Regex::new` and asks `Regex::is_match` whether it occurs in `text`.
///
/// Of the library's own patterns the contract claims that they compile, and that they match where
/// [`Pattern::spec_captures`] says that they find something.
#[verifier::external_body]
fn regex_is_match(pattern: &str, text: &str) -> (r: bool)
    requires
        is_source(pattern@),
    ensures
        forall|p: Pattern|
            pattern@ == #[trigger] p.spec_source() ==> r == p.spec_captures(text@) is Some,
{
    Regex::new(pattern).unwrap().is_match(text)
}

impl Pattern {
    /// The regular expression that is handed to `regex`.
    pub fn source(self) -> (r: String)
        ensures
            r@ == self.spec_source(),
    {
        match self {
            Pattern::Eof => token(r"(?-m)$"),
            Pattern::Name => token(r"([a-zA-Z0-9_-]+)"),
            Pattern::Colon => token(r":"),
            Pattern::Equals => token(r"="),
            Pattern::Plus => token(r"[+]"),
            Pattern::Comment => token(r"#([^!].*)?$"),
            Pattern::StringToken => token("\"[a-z0-9]\""),
            Pattern::Eol => token(r"\n|\r\n"),
            Pattern::InterpolationEnd => token(r"[}][}]"),
            Pattern::InterpolationStartToken => token(r"[{][{]"),
            Pattern::Line => String::from_str(r"^(?m)[ \t]+[^ \t\n\r].*$"),
            Pattern::Indent => String::from_str(r"^([ \t]*)[^ \t\n\r]"),
            Pattern::InterpolationStart => String::from_str(r"^[{][{]"),
            Pattern::LeadingText => String::from_str(r"^(?m)(.+?)[{][{]"),
            Pattern::Text => String::from_str(r"^(?m)(.+)"),
            Pattern::GoodName => String::from_str(r"^[a-z](-?[a-z0-9])*$"),
        }
    }

    /// Searches `text` for the pattern.
    pub fn captures<'t>(self, text: &'t str) -> (r: Option<Captured<'t>>)
        ensures
            captured_view(r) == self.spec_captures(text@),
    {
        let source: String = self.source();
        regex_captures(source.as_str(), text)
    }

    /// Whether `text` matches the pattern.
    pub fn is_match(self, text: &str) -> (r: bool)
        ensures
            r == self.spec_captures(text@) is Some,
    {
        let source: String = self.source();
        regex_is_match(source.as_str(), text)
    }
}

} // verus!
