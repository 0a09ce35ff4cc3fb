use just::error::{Error, ErrorKind};
use just::lexer::{interpolations_closed, tokenize};
use just::parse::parse;
use just::resolver::Resolver;
use just::table::Names;
use just::text::nth_line;
use just::token::TokenKind;

/// Texts that are made of some of these pieces.
fn texts() -> Vec<String> {
    let pieces = [
        "a", "b:", " ", "\n", "\n ", "\n\t", "{{", "}}", "\"c\"", "=", "+", "#", "#!", "\r\n", "%",
        "a = \"x\"\n", "b: a\n", "\u{e9}",
    ];
    let n = pieces.len();
    let mut texts = vec![];
    let mut seed: usize = 7;
    for _ in 0..400 {
        let mut text = String::new();
        for _ in 0..(seed % 7) {
            seed = (seed * 1103515245 + 12345) % 2147483648;
            text.push_str(pieces[(seed / 65536) % n]);
        }
        seed = (seed * 1103515245 + 12345) % 2147483648;
        texts.push(text);
    }
    texts
}

/// Whether an error points into its text, on a line that there is, and is not an internal one.
fn is_fault(text: &str, error: &Error<'_>) -> bool {
    error.text == text
        && error.index + error.width.unwrap_or(0) <= text.len()
        && (nth_line(text, error.line).is_some() || error.index == text.len())
        && !matches!(error.kind, ErrorKind::InternalError { .. })
        && !error.to_string().contains("internal error")
}

#[test]
fn all_tokens_stand_where_they_say() {
    for text in texts().iter().filter(|t| interpolations_closed(t)) {
        if let Ok(tokens) = tokenize(text) {
            let mut index = 0;
            for token in tokens.iter() {
                assert_eq!(token.index, index);
                assert_eq!(token.text, text.as_str());
                index += token.prefix.len();
                assert_eq!(&text[index..index + token.lexeme.len()], token.lexeme);
                index += token.lexeme.len();
            }
            assert_eq!(index, text.len());
        }
    }
}

#[test]
fn all_tokens_come_in_order() {
    for text in texts().iter().filter(|t| interpolations_closed(t)) {
        if let Ok(tokens) = tokenize(text) {
            let mut indented = false;
            for pair in tokens.windows(2) {
                match pair[0].class {
                    TokenKind::Indent => indented = true,
                    TokenKind::Dedent => indented = false,
                    _ => {}
                }
                if pair[1].class == TokenKind::Line || pair[1].class == TokenKind::Text {
                    assert!(indented);
                }
                if indented && pair[0].class == TokenKind::Eol {
                    assert!(matches!(
                        pair[1].class,
                        TokenKind::Line | TokenKind::Eol | TokenKind::Dedent
                    ));
                }
            }
        }
    }
}

#[test]
fn all_errors_are_faults_of_the_text() {
    for text in texts().iter().filter(|t| interpolations_closed(t)) {
        match parse(text) {
            Ok(justfile) => {
                for (name, recipe) in justfile.recipes.entries.iter() {
                    assert_eq!(*name, recipe.name);
                    assert_eq!(recipe.lines.len(), recipe.evaluated_lines.len());
                }
                assert_eq!(justfile.values.len(), justfile.assignments.len());
            }
            Err(error) => assert!(is_fault(text, &error), "{:?}", error),
        }
    }
}

#[test]
fn values_satisfy_assignments() {
    let justfile = parse("a = b + c\nc = b + \"z\" + b\nb = \"y\"\n").unwrap();
    let value = |name: &str| justfile.values.get(name).unwrap().clone();
    assert_eq!(value("b"), "y");
    assert_eq!(value("c"), value("b") + "z" + &value("b"));
    assert_eq!(value("a"), value("b") + &value("c"));
}

#[test]
fn ordered_recipes_are_resolved() {
    let justfile = parse("c: a b\nb: a\na:\nd: c\n").unwrap();
    let mut resolver = Resolver {
        stack: vec![],
        seen: Names::new(),
        resolved: Names::new(),
        recipes: &justfile.recipes,
    };
    for (name, recipe) in justfile.recipes.entries.iter() {
        assert_eq!(resolver.resolve(recipe), Ok(()));
        assert!(resolver.resolved.contains(name));
    }
    assert!(resolver.stack.is_empty());
    for name in justfile.recipes().iter() {
        assert!(justfile.run(&[name]).map(|plan| plan.complete).unwrap_or(false));
    }
}

#[test]
fn good_names_only() {
    let justfile = parse("a-b = \"c\"\nd0: e\ne:\n").unwrap();
    assert_eq!(justfile.recipes(), vec!["d0", "e"]);
    assert!(parse("a_b = \"c\"\n").is_err());
    assert!(parse("d: e-\n").is_err());
}

#[test]
fn bad_names_are_reported_before_other_faults() {
    let bad = |text: &str, name: &str| match parse(text) {
        Err(Error { kind: ErrorKind::BadName { name: found }, index, .. }) => {
            assert_eq!(found, name);
            assert_eq!(index, text.find(name).unwrap());
        }
        _ => panic!("{:?} holds a bad name", text),
    };
    // what is wrong besides: syntax, a repeated recipe, an unknown and a circular dependency, and an
    // unknown variable
    bad("a = = =\nB:\n", "B");
    bad("a:\na:\n# C\nb_b:\n", "b_b");
    bad("a: nope\nc: D--\n", "D--");
    bad("a: a\nb: -\n", "-");
    bad("a:\n {{x}} {{Y}}\n", "Y");
    // of two, the first
    bad("a: X\nY:\n", "X");
}

#[test]
fn bad_names_are_reported_if_there_are_any() {
    for text in texts().iter().filter(|t| interpolations_closed(t)) {
        if let Ok(tokens) = tokenize(text) {
            let first = tokens.iter().find(|t| {
                t.class == TokenKind::Name && t.lexeme.chars().any(|c| c == '_' || c.is_uppercase())
            });
            let reported = matches!(parse(text), Err(Error { kind: ErrorKind::BadName { .. }, .. }));
            assert_eq!(first.is_some(), reported);
        }
    }
}

/// What is written of the justfile in `text`, and what is written of that.
fn written_twice(text: &str) -> (String, String) {
    let once = parse(text).unwrap().to_string();
    let twice = parse(&once).unwrap().to_string();
    (once, twice)
}

#[test]
fn written_justfiles_are_read_back() {
    let given = [
        "",
        "a:\n",
        "b:\na:\n x\n",
        "a:\n x",
        "b = a + \"1\"+\"2\"\na = \"0\" # comment\n",
        "x = \"y\"\nb c d: a\n\t@echo {{ x + \"z\" }}{{x}} {d}}}\n\n\techo }\n# comment\na:\r\n x\r\n",
        "b:\n  #!sh\n    x {{\"y\"}}\n\n   \t{z\n  w \na:\n {{\"q\"}}{ \n",
        "a:\n  {{\"b\"}}  \n  c\n",
    ];
    for text in given {
        let (once, twice) = written_twice(text);
        assert_eq!(once, twice);
    }
    let mut read = 0;
    for text in texts().iter().filter(|t| interpolations_closed(t)) {
        if parse(text).is_ok() {
            let (once, twice) = written_twice(text);
            assert_eq!(once, twice);
            read += 1;
        }
    }
    assert!(read > 0);
}

#[test]
fn written_out() {
    let (once, twice) = written_twice("c = d + \"1\"\nb x: a\n  @y {{ c }}\n  z\nd = \"2\"\na:\n");
    assert_eq!(
        once,
        "c = d + \"1\" # \"21\"\nd = \"2\" # \"2\"\na:\nb x: a\n    @y {{c}}\n    z"
    );
    assert_eq!(once, twice);
}

#[test]
fn blanks_at_the_very_end_are_not_read_back() {
    let (once, twice) = written_twice("a:\n b{{\"c\"}} \n");
    assert_eq!(once, "a:\n    b{{\"c\"}} ");
    assert_eq!(twice, "a:\n    b{{\"c\"}}");
    // a line that ends in blanks elsewhere is
    let (once, twice) = written_twice("a:\n b{{\"c\"}} \n d \n");
    assert_eq!(once, twice);
}

#[test]
fn lines_of_a_recipe_are_indented_alike() {
    let indents = |text: &str| -> Vec<String> {
        let tokens = tokenize(text).unwrap();
        let lines = tokens.iter().filter(|t| t.class == TokenKind::Line);
        lines.map(|t| t.prefix.to_string()).collect()
    };
    assert_eq!(
        indents("a:\n  x\n    y\n\n  \t z\nb:\n\tx\n\t y\nc:\n x"),
        vec!["  ", "  ", "  ", "\t", "\t", " "]
    );
    for text in texts().iter().filter(|t| interpolations_closed(t)) {
        if let Ok(tokens) = tokenize(text) {
            let mut indent = None;
            for token in tokens.iter() {
                if token.class == TokenKind::Dedent {
                    indent = None;
                } else if token.class == TokenKind::Line {
                    assert_eq!(*indent.get_or_insert(token.prefix), token.prefix);
                    assert!(!token.prefix.is_empty());
                    assert!(token.prefix.trim_matches(' ').is_empty()
                        || token.prefix.trim_matches('\t').is_empty());
                }
            }
        }
    }
}

#[test]
fn evaluated_lines_are_single_lines() {
    for text in texts().iter().filter(|t| interpolations_closed(t)) {
        if let Ok(justfile) = parse(text) {
            for (_, recipe) in justfile.recipes.entries.iter() {
                assert!(recipe.evaluated_lines.iter().all(|line| !line.contains('\n')));
            }
        }
    }
    let justfile = parse("x = \"y\"\na:\n #!{{x}}\r\n  z\n").unwrap();
    assert_eq!(justfile.get("a").unwrap().evaluated_lines, vec!["#!y\r", " z"]);
}

#[test]
fn unknown_variables_are_not_assigned() {
    let unknown = |text: &str| match parse(text) {
        Err(Error { kind: ErrorKind::UnknownVariable { variable }, .. }) => variable.to_string(),
        _ => panic!("{:?} holds an unknown variable", text),
    };
    assert_eq!(unknown("a = \"1\" + b\n"), "b");
    assert_eq!(unknown("a = \"1\"\nr:\n {{a}}{{b}}\n"), "b");
    // a string ends the walk over an expression, and an argument has no value
    assert_eq!(unknown("r:\n {{b + \"1\"}}\n"), "b");
    assert_eq!(unknown("r b:\n {{b}}\n"), "b");
    assert!(parse("b = \"1\"\nr:\n {{b + \"1\" + b}}\n").is_ok());
}

#[test]
fn what_is_wanted_is_run() {
    let justfile = parse("e: d\nd: b c\nc: a\nb: a\na:\n").unwrap();
    let wanted = ["b", "e", "a", "b"];
    let plan = justfile.run(&wanted).ok().unwrap();
    let order: Vec<&str> = plan.order.iter().map(|recipe| recipe.name).collect();
    assert!(plan.complete);
    assert_eq!(order, vec!["a", "b", "c", "d", "e", "a", "b"]);
    // nothing else is run, and only what is wanted is run twice
    for (i, name) in order.iter().enumerate() {
        let needed = plan.order[i..].iter().any(|recipe| recipe.dependencies.contains(name));
        assert!(needed || wanted.contains(name));
        assert!(wanted.contains(name) || order.iter().filter(|n| *n == name).count() == 1);
    }
}
