use just::error::{Error, ErrorKind};
use just::lexer::{interpolations_closed, tokenize};
use just::text::mixed_whitespace;
use just::token::TokenKind;

/// One character for each token.
fn summary(text: &str) -> String {
    let mut letters = String::new();
    for token in tokenize(text).unwrap() {
        letters.push(match token.class {
            TokenKind::Name => 'N',
            TokenKind::Colon => ':',
            TokenKind::StringToken => '\'',
            TokenKind::Plus => '+',
            TokenKind::Equals => '=',
            TokenKind::Comment => '#',
            TokenKind::Indent => '>',
            TokenKind::Dedent => '<',
            TokenKind::InterpolationStart => '{',
            TokenKind::InterpolationEnd => '}',
            TokenKind::Text => '*',
            TokenKind::Line => '^',
            TokenKind::Eol => '$',
            TokenKind::Eof => '.',
        });
    }
    letters
}

/// The characters of the tokens, with the blanks before each.
fn roundtrip(text: &str) -> String {
    let mut all = String::new();
    for token in tokenize(text).unwrap() {
        all.push_str(token.prefix);
        all.push_str(token.lexeme);
    }
    all
}

fn lexing_error(text: &str) -> Error<'_> {
    tokenize(text).unwrap_err()
}

#[test]
fn tokenize_nothing() {
    assert_eq!(summary(""), ".");
    assert_eq!(summary("   "), ".");
    assert_eq!(summary("\n\n"), "$$.");
}

#[test]
fn tokenize_names_and_punctuation() {
    assert_eq!(summary("a: b\n"), "N:N$.");
    assert_eq!(summary("bob\n\nhello blah blah blah : a b c #whatever    "), "N$$NNNN:NNN#.");
    assert_eq!(summary("a = b + \"c\" + _-9Z"), "N=N+'+N.");
    assert_eq!(summary("}}{{"), "}{.");
}

#[test]
fn tokenize_recipe_body() {
    assert_eq!(summary("a:\n  echo {{foo}} bar\n"), "N:$>^*{N}*$<.");
    assert_eq!(summary("a:\n x\nb:\n"), "N:$>^*$<N:$.");
    assert_eq!(summary("a:\n x\n\n y\n"), "N:$>^*$$^*$<.");
    assert_eq!(summary("a:\n x"), "N:$>^*<.");
    assert_eq!(summary("a:\n\tx{{y + \"z\"}}"), "N:$>^*{N+'}<.");
    assert_eq!(summary("a:\n {{b}}{{c}}\n"), "N:$>^{N}{N}$<.");
}

#[test]
fn tokenize_line_ends() {
    assert_eq!(summary("a:\r\nb:\r\n"), "N:$N:$.");
    let tokens = tokenize("a:\r\nb").unwrap();
    assert_eq!(tokens[2].lexeme, "\r\n");
    assert_eq!((tokens[3].index, tokens[3].line, tokens[3].column), (4, 1, 0));
}

#[test]
fn tokenize_bare_number_sign_takes_next_line() {
    assert_eq!(summary("#\nfoo:\n"), "#$.");
    assert_eq!(tokenize("#\nfoo:\n").unwrap()[0].lexeme, "#\nfoo:");
    assert_eq!(summary("#"), "#.");
    assert_eq!(summary("# a\nfoo:\n"), "#$N:$.");
}

#[test]
fn tokenize_places() {
    let tokens = tokenize("ab  cd:\n  e {{ f }}\n").unwrap();
    let places: Vec<(usize, usize, usize, &str, &str)> = tokens
        .iter()
        .map(|t| (t.index, t.line, t.column, t.prefix, t.lexeme))
        .collect();
    assert_eq!(
        places,
        vec![
            (0, 0, 0, "", "ab"),
            (2, 0, 2, "  ", "cd"),
            (6, 0, 6, "", ":"),
            (7, 0, 7, "", "\n"),
            (8, 1, 0, "", ""),
            (8, 1, 0, "  ", ""),
            (10, 1, 2, "", "e "),
            (12, 1, 4, "", "{{"),
            (14, 1, 6, " ", "f"),
            (16, 1, 8, " ", "}}"),
            (19, 1, 11, "", "\n"),
            (20, 2, 0, "", ""),
            (20, 2, 0, "", ""),
        ]
    );
}

#[test]
fn tokenize_counts_bytes() {
    let tokens = tokenize("a:\n \u{e9}\u{20ac}{{b}}\n").unwrap();
    assert_eq!(tokens[5].lexeme, "\u{e9}\u{20ac}");
    assert_eq!((tokens[6].index, tokens[6].column), (9, 6));
    assert_eq!((tokens[7].lexeme, tokens[7].index), ("b", 11));
}

#[test]
fn tokens_hold_the_text() {
    let texts = [
        "",
        "a b: c\n  d {{e}} f\n\n  g\nh = \"i\" # j\n",
        "#\nx:\r\n\t\u{1f600} {{ a + b }}",
        "  \n \t\n",
    ];
    for text in texts.iter() {
        assert_eq!(roundtrip(text), *text);
    }
}

#[test]
fn indents_are_dedented() {
    for text in ["a:\n b\nc:\n d\n", "a:\n b", "a:\n b\n\n\n", "a:\n"].iter() {
        let tokens = tokenize(text).unwrap();
        let indents = tokens.iter().filter(|t| t.class == TokenKind::Indent).count();
        let dedents = tokens.iter().filter(|t| t.class == TokenKind::Dedent).count();
        assert_eq!(indents, dedents);
        assert_eq!(tokens.last().unwrap().class, TokenKind::Eof);
    }
}

#[test]
fn mixed_leading_whitespace() {
    let text = "a:\n \t echo";
    assert_eq!(
        lexing_error(text),
        Error {
            text,
            index: 3,
            line: 1,
            column: 0,
            width: None,
            kind: ErrorKind::MixedLeadingWhitespace { whitespace: " \t " },
        }
    );
}

#[test]
fn inconsistent_leading_whitespace() {
    let text = "a:\n  x\n\ty\n";
    assert_eq!(
        lexing_error(text),
        Error {
            text,
            index: 7,
            line: 2,
            column: 0,
            width: None,
            kind: ErrorKind::InconsistentLeadingWhitespace { expected: "  ", found: "\t" },
        }
    );
}

#[test]
fn outer_shebang() {
    let error = lexing_error("#!/bin/sh\n");
    assert_eq!(error.kind, ErrorKind::OuterShebang);
    assert_eq!((error.index, error.line, error.column), (0, 0, 0));
}

#[test]
fn unknown_start_of_token() {
    let error = lexing_error("a %");
    assert_eq!(error.kind, ErrorKind::UnknownStartOfToken);
    assert_eq!((error.index, error.line, error.column), (1, 0, 1));
    assert_eq!(lexing_error("a = \"bc\"").kind, ErrorKind::UnknownStartOfToken);
    assert_eq!(lexing_error("a = \"B\"").kind, ErrorKind::UnknownStartOfToken);
}

#[test]
fn closed_interpolations() {
    assert!(interpolations_closed("a:\n {{x}}\n"));
    assert!(interpolations_closed("{{x\n"));
    assert!(interpolations_closed("a:\n {{x"));
    assert!(!interpolations_closed("a:\n {{x\n"));
    assert!(!interpolations_closed("a:\n {{x}} {{ # y\n"));
}

#[test]
fn whitespace_is_mixed() {
    assert!(mixed_whitespace(" \t"));
    assert!(mixed_whitespace("x"));
    assert!(!mixed_whitespace("   "));
    assert!(!mixed_whitespace("\t\t"));
    assert!(!mixed_whitespace(""));
}
