use just::error::{Error, ErrorKind, Or};
use just::parse::parse;
use just::run::{IoError, IoErrorKind, RunError};
use just::text::{join, nth_line, show_decimal, show_signed, show_whitespace};
use just::token::TokenKind;

fn message(text: &str) -> String {
    match parse(text) {
        Ok(_) => panic!("no error in {}", text),
        Err(error) => error.to_string(),
    }
}

fn shown(kind: ErrorKind<'_>) -> String {
    Error { text: "x\ny\n", index: 2, line: 1, column: 0, width: None, kind }.to_string()
}

#[test]
fn message_bad_name() {
    assert_eq!(
        message("a:\nB:\n"),
        "justfile:1: name did not match /[a-z](-?[a-z0-9])*/: B\nB:"
    );
}

#[test]
fn message_circles() {
    assert_eq!(message("a: a\n"), "justfile:0: recipe 1a depends on itself");
    assert_eq!(
        message("a: b\nb: a\n"),
        "justfile:1: recipe b has circular dependency: a -> b -> a"
    );
    assert_eq!(
        message("a = b\nb = a\n"),
        "justfile:0: assignment to a has circular dependency: a -> b -> a"
    );
}

#[test]
fn message_duplicates() {
    assert_eq!(message("a b b:\n"), "justfile:0: recipe a has duplicate argument: b\na b b:");
    assert_eq!(message("a: b b\n"), "justfile:0: recipe a has duplicate dependency: b\na: b b");
    assert_eq!(
        message("a:\n\na:\n"),
        "justfile:2: duplicate recipe: a appears on lines 0 and 2"
    );
    assert_eq!(
        message("a = \"b\"\na = \"c\"\n"),
        "justfile:1: variable \"a\" is has multiple definitions\na = \"c\""
    );
}

#[test]
fn message_arguments_and_variables() {
    assert_eq!(
        message("a = \"b\"\nc a:\n"),
        "justfile:1: argument a shadows variable of the same name\nc a:"
    );
    assert_eq!(message("a = b\n"), "justfile:0: variable \"b\" is unknown\na = b");
    assert_eq!(message("a: b\n"), "justfile:0: recipe a has unknown dependency b\na: b");
}

#[test]
fn message_whitespace() {
    assert_eq!(
        message("a:\n \tb\n"),
        "justfile:1: found a mix of tabs and spaces in leading whitespace: st\n leading whitespace may consist of tabs or spaces, but not both\n \tb"
    );
    assert_eq!(
        message("a:\n b\n\tc\n"),
        "justfile:2: inconsistant leading whitespace: recipe started with \"s\" but found line with \"t\":\n\tc"
    );
    assert_eq!(
        message("a:\n b\n  c\n"),
        "justfile:2: recipe line has extra leading whitespace\n  c"
    );
}

#[test]
fn message_tokens() {
    assert_eq!(
        message("a\n"),
        "justfile:0: expected name, \":\", or \"=\" but found end of line\na"
    );
    assert_eq!(message("a b"), "justfile:0: expected name or \":\" but found end of file\na b");
    assert_eq!(message("a:\r\n:\r\n"), "justfile:1: expected name but found \":\"\n:");
    assert_eq!(
        message("#!x\n"),
        "justfile:0: a shebang \"#!\" is reserved syntax outside of recipes\n#!x"
    );
    assert_eq!(message("a: %\n"), "justfile:0: unknown start of token:\na: %");
}

#[test]
fn message_at_the_end() {
    assert_eq!(message("a:\n\nb\n"), "justfile:2: expected name, \":\", or \"=\" but found end of line\nb");
    let error = Error {
        text: "a\n",
        index: 2,
        line: 1,
        column: 0,
        width: None,
        kind: ErrorKind::UnknownStartOfToken,
    };
    assert_eq!(error.to_string(), "justfile:1: unknown start of token:\n");
}

#[test]
fn message_invalid_line() {
    let error = Error {
        text: "a\n",
        index: 0,
        line: 17,
        column: 0,
        width: None,
        kind: ErrorKind::UnknownStartOfToken,
    };
    assert_eq!(
        error.to_string(),
        "justfile:17: unknown start of token:\ninternal error: Error has invalid line number: 17"
    );
}

#[test]
fn message_internal_error() {
    assert_eq!(
        shown(ErrorKind::InternalError { message: "oops".to_string() }),
        "justfile:1: internal error, this may indicate a bug in j: oops\n consider filing an issue: https://github.com/casey/j/issues/new\ny"
    );
}

#[test]
fn alternatives_in_words() {
    let name = TokenKind::Name;
    assert_eq!(Or(&[]).to_string(), "");
    assert_eq!(Or(&[name]).to_string(), "name");
    assert_eq!(Or(&[name, TokenKind::Eof]).to_string(), "name or end of file");
    assert_eq!(
        Or(&[name, TokenKind::Text, TokenKind::Line]).to_string(),
        "name, command text, or command"
    );
    assert_eq!(
        Or(&[name, TokenKind::Indent, TokenKind::Dedent, TokenKind::Comment]).to_string(),
        "name, indent, dedent, or comment"
    );
}

#[test]
fn classes_of_tokens_in_words() {
    let expected = [
        (TokenKind::Name, "name"),
        (TokenKind::Colon, "\":\""),
        (TokenKind::StringToken, "string"),
        (TokenKind::Plus, "\"+\""),
        (TokenKind::Equals, "\"=\""),
        (TokenKind::Comment, "comment"),
        (TokenKind::Indent, "indent"),
        (TokenKind::Dedent, "dedent"),
        (TokenKind::InterpolationStart, "{{"),
        (TokenKind::InterpolationEnd, "}}"),
        (TokenKind::Text, "command text"),
        (TokenKind::Line, "command"),
        (TokenKind::Eol, "end of line"),
        (TokenKind::Eof, "end of file"),
    ];
    for (class, words) in expected.iter() {
        assert_eq!(class.to_string(), *words);
        assert_eq!(class.identifier(), format!("{:?}", class));
    }
}

#[test]
fn run_errors_in_words() {
    let io = |kind| IoError { kind, message: "entity".to_string() };
    let cases = [
        (
            RunError::UnknownRecipes { recipes: vec!["a"] },
            "Justfile does not contain recipe: a",
        ),
        (
            RunError::UnknownRecipes { recipes: vec!["a", "b", "c"] },
            "Justfile does not contain recipes: a b c",
        ),
        (RunError::MissingArguments, "Running recipes with arguments is not yet supported"),
        (RunError::Code { recipe: "a", code: 200 }, "Recipe \"a\" failed with code 200"),
        (RunError::Code { recipe: "a", code: -1 }, "Recipe \"a\" failed with code -1"),
        (
            RunError::Signal { recipe: "a", signal: 9 },
            "Recipe \"a\" wast terminated by signal 9",
        ),
        (
            RunError::UnknownFailure { recipe: "a" },
            "Recipe \"a\" failed for an unknown reason",
        ),
        (
            RunError::IoError { recipe: "a", io_error: io(IoErrorKind::NotFound) },
            "Recipe \"a\" could not be run because j could not find `sh` the command:\nentity",
        ),
        (
            RunError::IoError { recipe: "a", io_error: io(IoErrorKind::PermissionDenied) },
            "Recipe \"a\" could not be run because j could not run `sh`:\nentity",
        ),
        (
            RunError::IoError { recipe: "a", io_error: io(IoErrorKind::Other) },
            "Recipe \"a\" could not be run because of an IO error while launching the `sh`:\nentity",
        ),
        (
            RunError::TmpdirIoError { recipe: "a", io_error: io(IoErrorKind::NotFound) },
            "Recipe \"a\" could not be run because of an IO error while trying to create a temporary directory or write a file to that directory`:\nentity",
        ),
    ];
    for (error, words) in cases.iter() {
        assert_eq!(error.to_string(), *words);
    }
}

#[test]
fn visible_whitespace() {
    assert_eq!(show_whitespace(" \t\tx "), "sttxs");
    assert_eq!(show_whitespace(""), "");
    assert_eq!(show_whitespace("\u{e9}\n"), "\u{e9}\n");
}

#[test]
fn numbers_in_decimal() {
    for n in [0u64, 7, 10, 99, 100, 1234567890, u64::MAX].iter() {
        assert_eq!(show_decimal(*n), format!("{}", n));
    }
    for n in [0i32, 12, -7, i32::MAX, i32::MIN].iter() {
        assert_eq!(show_signed(*n), format!("{}", n));
    }
}

#[test]
fn joined_parts() {
    assert_eq!(join(&vec![], " "), "");
    assert_eq!(join(&vec!["a"], " "), "a");
    assert_eq!(join(&vec!["a", "b", "c"], " -> "), "a -> b -> c");
}

#[test]
fn lines_of_a_text() {
    for text in ["", "\n", "a", "a\n", "a\nb", "a\r\nb\r\n", "\n\nx\n", "a\r", "\r\n\r"].iter() {
        for n in 0..5 {
            assert_eq!(nth_line(text, n), text.lines().nth(n));
        }
    }
}
