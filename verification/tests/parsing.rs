use just::error::{Error, ErrorKind};
use just::expression::Expression;
use just::lexer::tokenize;
use just::parse::parse;
use just::parser::Parser;
use just::recipe::Fragment;
use just::token::{Token, TokenKind};

fn parse_error(text: &str) -> Error<'_> {
    match parse(text) {
        Ok(_) => panic!("no error in {}", text),
        Err(error) => error,
    }
}

/// The error of kind `kind` in `text` at that place.
fn error_at<'a>(
    text: &'a str,
    index: usize,
    line: usize,
    column: usize,
    width: usize,
    kind: ErrorKind<'a>,
) -> Error<'a> {
    Error { text, index, line, column, width: Some(width), kind }
}

fn printed(text: &str) -> String {
    parse(text).map(|j| j.to_string()).map_err(|e| e.to_string()).unwrap()
}

#[test]
fn parse_empty() {
    assert_eq!(printed(""), "");
    assert_eq!(printed("\n\n# nothing here\n"), "");
}

#[test]
fn parse_recipes() {
    assert_eq!(printed("foo:\n"), "foo:");
    assert_eq!(printed("foo:"), "foo:");
    assert_eq!(printed("a b c:\n"), "a b c:");
    assert_eq!(printed("b: a\na:\n\techo {{\"x\"}} y\n\n\tz\n"), "a:\n    echo {{\"x\"}} y\n    z\nb: a");
}

#[test]
fn parse_assignments() {
    assert_eq!(printed("a = b\nb = \"x\"\n"), "a = b # \"x\"\nb = \"x\" # \"x\"");
    assert_eq!(
        printed("a = \"0\"\nc = a + b + a + b\nb = \"1\"\n"),
        "a = \"0\" # \"0\"\nb = \"1\" # \"1\"\nc = a + b + a + b # \"0101\""
    );
}

#[test]
fn parse_both() {
    let text = "foo x y: bar\n  echo {{a + b}} z\nbar:\na = \"1\"\nb = \"2\"\n";
    assert_eq!(
        printed(text),
        "a = \"1\" # \"1\"\nb = \"2\" # \"2\"\nbar:\nfoo x y: bar\n    echo {{a + b}} z"
    );
    let justfile = parse(text).unwrap();
    let foo = justfile.get("foo").unwrap();
    assert_eq!(foo.name, "foo");
    assert_eq!(foo.line_number, 0);
    assert_eq!(foo.arguments, vec!["x", "y"]);
    assert_eq!(foo.dependencies, vec!["bar"]);
    assert_eq!(foo.evaluated_lines, vec!["echo 12 z".to_string()]);
    assert!(!foo.shebang);
    assert_eq!(justfile.get("bar").unwrap().line_number, 2);
}

#[test]
fn parse_shebang() {
    let justfile = parse("a:\n #!sh\n  x\n y\nb:\n x #!sh\n").unwrap();
    assert!(justfile.get("a").unwrap().shebang);
    assert!(!justfile.get("b").unwrap().shebang);
    assert_eq!(
        justfile.get("a").unwrap().evaluated_lines,
        vec!["#!sh".to_string(), " x".to_string(), "y".to_string()]
    );
}

#[test]
fn parse_keeps_carriage_returns_of_lines() {
    let justfile = parse("a:\r\n x\r\n").unwrap();
    assert_eq!(justfile.get("a").unwrap().evaluated_lines, vec!["x\r".to_string()]);
}

#[test]
fn bad_name() {
    let text = "FOO:\n";
    assert_eq!(parse_error(text), error_at(text, 0, 0, 0, 3, ErrorKind::BadName { name: "FOO" }));
    assert_eq!(parse_error("a: b--c\n").kind, ErrorKind::BadName { name: "b--c" });
    assert_eq!(parse_error("a-: b_\n").kind, ErrorKind::BadName { name: "a-" });
}

#[test]
fn circular_recipe_dependency() {
    let text = "a: b\nb: a\n";
    assert_eq!(
        parse_error(text),
        error_at(
            text,
            8,
            1,
            3,
            1,
            ErrorKind::CircularRecipeDependency { recipe: "b", circle: vec!["a", "b", "a"] }
        )
    );
    assert_eq!(
        parse_error("a: a\n").kind,
        ErrorKind::CircularRecipeDependency { recipe: "a", circle: vec!["a", "a"] }
    );
    assert_eq!(
        parse_error("a: b\nb: c\nc: b\n").kind,
        ErrorKind::CircularRecipeDependency { recipe: "c", circle: vec!["b", "c", "a"] }
    );
}

#[test]
fn only_the_first_unresolved_dependency_is_followed() {
    assert_eq!(
        parse_error("a: b\nb:\nd: a\n").kind,
        ErrorKind::CircularRecipeDependency { recipe: "d", circle: vec!["a", "d", "a"] }
    );
    assert!(parse("a: b nope\nb:\n").is_ok());
    assert!(parse("x: zw y\ny: zz x\nzw:\nzz:\n").is_ok());
}

#[test]
fn circular_variable_dependency() {
    let text = "a = b\nb = a\n";
    assert_eq!(
        parse_error(text),
        error_at(
            text,
            0,
            0,
            0,
            1,
            ErrorKind::CircularVariableDependency { variable: "a", circle: vec!["a", "b", "a"] }
        )
    );
    assert_eq!(
        parse_error("x = x\n").kind,
        ErrorKind::CircularVariableDependency { variable: "x", circle: vec!["x", "x"] }
    );
    assert_eq!(
        parse_error("a = b\nb = \"0\" + b\n").kind,
        ErrorKind::CircularVariableDependency { variable: "b", circle: vec!["a", "b", "b"] }
    );
}

#[test]
fn duplicate_argument() {
    let text = "a b b:\n";
    assert_eq!(
        parse_error(text),
        error_at(
            text,
            4,
            0,
            4,
            1,
            ErrorKind::DuplicateArgument { recipe: "a", argument: "b" }
        )
    );
}

#[test]
fn duplicate_dependency() {
    let text = "a b: c d c\n";
    assert_eq!(
        parse_error(text),
        error_at(
            text,
            9,
            0,
            9,
            1,
            ErrorKind::DuplicateDependency { recipe: "a", dependency: "c" }
        )
    );
}

#[test]
fn duplicate_recipe() {
    let text = "a:\nb:\na:\n";
    assert_eq!(
        parse_error(text),
        error_at(text, 6, 2, 0, 1, ErrorKind::DuplicateRecipe { recipe: "a", first: 0 })
    );
}

#[test]
fn duplicate_variable() {
    let text = "a = \"0\"\na = \"0\"\n";
    assert_eq!(
        parse_error(text),
        error_at(text, 8, 1, 0, 1, ErrorKind::DuplicateVariable { variable: "a" })
    );
}

#[test]
fn argument_shadows_variable() {
    let text = "foo = \"h\"\na foo:\n";
    assert_eq!(
        parse_error(text),
        error_at(text, 12, 1, 2, 3, ErrorKind::ArgumentShadowsVariable { argument: "foo" })
    );
}

#[test]
fn extra_leading_whitespace() {
    let text = "a:\n x\n  y\n";
    assert_eq!(parse_error(text), error_at(text, 7, 2, 1, 2, ErrorKind::ExtraLeadingWhitespace));
    assert_eq!(parse_error("a:\n\t#!sh\n\t\tx\n").kind, ErrorKind::ExtraLeadingWhitespace);
    assert!(parse("a:\n {{\"x\"}}\n {{\"x\"}} y\n").is_ok());
}

#[test]
fn unknown_dependency() {
    let text = "a: b\n";
    assert_eq!(
        parse_error(text),
        error_at(text, 3, 0, 3, 1, ErrorKind::UnknownDependency { recipe: "a", unknown: "b" })
    );
}

#[test]
fn unknown_variable() {
    let text = "ab = cd\n";
    assert_eq!(
        parse_error(text),
        error_at(text, 5, 0, 5, 2, ErrorKind::UnknownVariable { variable: "cd" })
    );
    let text = "a:\n echo {{ x }}\n";
    assert_eq!(
        parse_error(text),
        error_at(text, 12, 1, 9, 1, ErrorKind::UnknownVariable { variable: "x" })
    );
    // the walk over an expression starts with its last leaf, and a string ends it
    let text = "a:\n {{x + y}}\n";
    assert_eq!(
        parse_error(text),
        error_at(text, 10, 1, 7, 1, ErrorKind::UnknownVariable { variable: "y" })
    );
    let text = "a:\n {{x + \"y\"}}\n";
    assert_eq!(
        parse_error(text),
        error_at(text, 6, 1, 3, 1, ErrorKind::UnknownVariable { variable: "x" })
    );
}

#[test]
fn arguments_have_no_values() {
    assert_eq!(parse_error("a x:\n {{x}}\n").kind, ErrorKind::UnknownVariable { variable: "x" });
}

fn unexpected<'a>(text: &'a str, expected: Vec<TokenKind>, found: TokenKind) {
    assert_eq!(parse_error(text).kind, ErrorKind::UnexpectedToken { expected, found });
}

#[test]
fn unexpected_tokens() {
    let name = TokenKind::Name;
    let colon = TokenKind::Colon;
    let plus = TokenKind::Plus;
    let eol = TokenKind::Eol;
    let eof = TokenKind::Eof;
    let end = TokenKind::InterpolationEnd;
    unexpected("a\n", vec![name, colon, TokenKind::Equals], eol);
    unexpected("a b\n", vec![name, colon], eol);
    unexpected("a: :\n", vec![name, eol, eof], colon);
    unexpected(":\n", vec![name], colon);
    unexpected(" a:\n", vec![name], TokenKind::Indent);
    unexpected("a = \n", vec![name, TokenKind::StringToken], eol);
    unexpected("a = \"b\" c\n", vec![plus, eol], name);
    unexpected("a = b }}\n", vec![plus, eol], end);
    unexpected("a:\n {{x y}}\n", vec![plus, eol, end], name);
    unexpected("a:\n {{x", vec![plus, eol, end], TokenKind::Dedent);
    unexpected("a:\n {{}}\n", vec![name, TokenKind::StringToken], end);
}

#[test]
fn unexpected_token_place() {
    let text = "a = \"b\" c\n";
    let error = parse_error(text);
    assert_eq!((error.index, error.line, error.column, error.width), (8, 0, 8, Some(1)));
}

fn bare<'a>(class: TokenKind) -> Token<'a> {
    Token { index: 0, line: 0, column: 0, text: "", prefix: "", lexeme: "", class }
}

fn internal_error(tokens: Vec<Token<'static>>) -> String {
    let parser = Parser { text: "", tokens, position: 0 };
    match parser.file() {
        Err(Error { kind: ErrorKind::InternalError { message }, .. }) => message,
        _ => panic!("no internal error"),
    }
}

#[test]
fn internal_errors() {
    let a = Token { lexeme: "a", ..bare(TokenKind::Name) };
    assert_eq!(internal_error(vec![]), "unexpected end of token stream");
    assert_eq!(
        internal_error(vec![bare(TokenKind::Comment), bare(TokenKind::Eof)]),
        "found comment in token stream"
    );
    assert_eq!(
        internal_error(vec![bare(TokenKind::Eof), bare(TokenKind::StringToken)]),
        "unexpected token remaining after parsing completed: StringToken"
    );
    assert_eq!(
        internal_error(vec![
            a,
            bare(TokenKind::Colon),
            bare(TokenKind::Eol),
            bare(TokenKind::Indent),
            bare(TokenKind::Plus),
            bare(TokenKind::Eof),
        ]),
        "Expected a line but got \"+\""
    );
}

#[test]
fn parser_steps() {
    let text = "a = b";
    let mut parser = Parser { text, tokens: tokenize(text).unwrap(), position: 0 };
    assert!(parser.peek(TokenKind::Name));
    assert!(parser.accept(TokenKind::Colon).is_none());
    assert_eq!(parser.accept(TokenKind::Name).unwrap().lexeme, "a");
    assert!(!parser.accepted(TokenKind::Name));
    assert!(parser.accepted(TokenKind::Equals));
    assert_eq!(parser.expect(TokenKind::Colon).unwrap().lexeme, "b");
    assert!(parser.expect_eol().is_none());
    assert_eq!(parser.position, 3);
    assert!(parser.expect(TokenKind::Eof).is_none());
    assert_eq!(parser.position, 4);
}

#[test]
fn parser_expression() {
    let text = "a + \"b\"\nc";
    let mut parser = Parser { text, tokens: tokenize(text).unwrap(), position: 0 };
    let expression = parser.expression(false).unwrap();
    assert_eq!(parser.position, 4);
    assert_eq!(expression.to_string(), "a + \"b\"");
    match expression {
        Expression::Concatination { lhs, rhs } => {
            assert!(matches!(*lhs, Expression::Variable { name: "a", .. }));
            assert_eq!(*rhs, Expression::String { contents: "b" });
        }
        _ => panic!("not a concatenation"),
    }
}

#[test]
fn parser_recipe() {
    let text = "b: c\n {{x}} y\n";
    let mut parser = Parser { text, tokens: tokenize(text).unwrap(), position: 0 };
    let recipe = parser.recipe("a", 7).unwrap();
    assert_eq!(recipe.name, "a");
    assert_eq!(recipe.line_number, 7);
    assert_eq!(recipe.arguments, vec!["b"]);
    assert_eq!(recipe.argument_tokens[0].index, 0);
    assert_eq!(recipe.dependencies, vec!["c"]);
    assert_eq!(recipe.dependency_tokens[0].index, 2);
    assert!(recipe.evaluated_lines.is_empty());
    assert_eq!(recipe.lines.len(), 1);
    assert!(matches!(recipe.lines[0][0], Fragment::Expression { .. }));
    assert!(matches!(recipe.lines[0][1], Fragment::Text { text } if text.lexeme == " y"));
    assert_eq!(recipe.to_string(), "a b: c\n    {{x}} y");
}

#[test]
fn walk_over_variables() {
    let text = "a + b + \"c\" + d + e";
    let mut parser = Parser { text, tokens: tokenize(text).unwrap(), position: 0 };
    let expression = parser.expression(false).unwrap();
    let mut variables = expression.variables();
    assert_eq!(variables.next().unwrap().lexeme, "e");
    assert_eq!(variables.next().unwrap().lexeme, "d");
    assert!(variables.next().is_none());
    assert_eq!(variables.next().unwrap().lexeme, "b");
    assert_eq!(variables.next().unwrap().lexeme, "a");
    assert!(variables.next().is_none());
}
