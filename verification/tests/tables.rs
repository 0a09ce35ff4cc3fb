use just::evaluator::{evaluate, Evaluator};
use just::expression::Expression;
use just::lexer::tokenize;
use just::parser::Parser;
use just::recipe::Recipe;
use just::resolver::{resolve, Resolver};
use just::table::{Names, Table};
use just::text::{before, cut, same, slice, starts_with};
use just::token::Token;

#[test]
fn table_keeps_order() {
    let mut table: Table<'_, String> = Table::new();
    for name in ["b", "a", "ab", "\u{e9}", "B", ""].iter() {
        table.insert(name, name.to_uppercase());
    }
    let names: Vec<&str> = table.entries.iter().map(|e| e.0).collect();
    let mut sorted = names.clone();
    sorted.sort();
    assert_eq!(names, sorted);
    assert_eq!(table.len(), 6);
    assert_eq!(table.get("ab"), Some(&"AB".to_string()));
    assert_eq!(table.get("abc"), None);
    assert!(table.contains_key(""));
    assert!(!table.contains_key("c"));
}

#[test]
fn table_replaces() {
    let mut table: Table<'_, String> = Table::new();
    table.insert("a", "1".to_string());
    table.insert("b", "2".to_string());
    table.insert("a", "3".to_string());
    assert_eq!(table.len(), 2);
    assert_eq!(table.get("a"), Some(&"3".to_string()));
    assert_eq!(table.get("b"), Some(&"2".to_string()));
}

#[test]
fn set_of_names() {
    let mut names = Names::new();
    names.insert("a");
    names.insert("b");
    names.insert("a");
    assert_eq!(names.items.len(), 2);
    assert!(names.contains("b"));
    assert!(!names.contains("c"));
}

#[test]
fn order_of_strings() {
    let strings = ["", "a", "ab", "b", "z", "\u{7f}", "\u{80}", "\u{ffff}", "\u{10000}"];
    for x in strings.iter() {
        for y in strings.iter() {
            assert_eq!(before(x, y), x < y);
            assert_eq!(same(x, y), x == y);
            assert_eq!(starts_with(x, y), x.starts_with(y));
        }
    }
}

#[test]
fn pieces_of_strings() {
    let text = "a\u{e9}\u{20ac}b";
    assert_eq!(slice(text, 1, 6), "\u{e9}\u{20ac}");
    assert_eq!(slice(text, 3, 3), "");
    assert_eq!(slice(text, 0, 7), text);
    assert_eq!(cut(text, 3), ("a\u{e9}", "\u{20ac}b"));
}

fn expression(text: &str) -> Expression<'_> {
    let mut parser = Parser { text, tokens: tokenize(text).unwrap(), position: 0 };
    parser.expression(false).unwrap()
}

#[test]
fn evaluator_state() {
    let text = "a = b + \"x\"\nb = \"y\"";
    let tokens = tokenize(text).unwrap();
    let mut assignments = Table::new();
    let mut assignment_tokens: Table<'_, Token<'_>> = Table::new();
    assignments.insert("a", expression("b + \"x\""));
    assignments.insert("b", expression("\"y\""));
    assignment_tokens.insert("a", tokens[0]);
    assignment_tokens.insert("b", tokens[6]);
    let mut evaluator = Evaluator {
        stack: vec![],
        seen: Names::new(),
        evaluated: Table::new(),
        assignments: &assignments,
        assignment_tokens: &assignment_tokens,
    };
    assert_eq!(evaluator.evaluate_expression(&expression("b + b")), Ok("yy".to_string()));
    assert_eq!(evaluator.evaluated.len(), 1);
    assert_eq!(evaluator.evaluate_assignment("a"), Ok(()));
    assert_eq!(evaluator.evaluated.get("a"), Some(&"yx".to_string()));
    assert!(evaluator.stack.is_empty());
    assert!(evaluator.seen.contains("a") && evaluator.seen.contains("b"));
    let error = evaluator.evaluate_expression(&expression("a + nope")).unwrap_err();
    assert_eq!((error.index, error.width), (4, Some(4)));
}

#[test]
fn evaluated_tables() {
    let mut assignments = Table::new();
    let mut assignment_tokens: Table<'_, Token<'_>> = Table::new();
    let text = "a";
    assignments.insert("a", expression("\"q\""));
    assignment_tokens.insert("a", tokenize(text).unwrap()[0]);
    let body = "x:\n one {{a}}\n {{a + a}}\n";
    let mut parser = Parser { text: body, tokens: tokenize(body).unwrap(), position: 1 };
    let mut recipes = Table::new();
    recipes.insert("x", parser.recipe("x", 0).unwrap());
    let values = evaluate(&assignments, &assignment_tokens, &mut recipes).unwrap();
    assert_eq!(values.get("a"), Some(&"q".to_string()));
    assert_eq!(
        recipes.get("x").unwrap().evaluated_lines,
        vec!["one q".to_string(), "qq".to_string()]
    );
    // what is evaluated is added to what was
    evaluate(&assignments, &assignment_tokens, &mut recipes).unwrap();
    assert_eq!(recipes.get("x").unwrap().evaluated_lines, vec!["one q", "qq", "one q", "qq"]);
}

fn recipe<'a>(text: &'a str, name: &'a str) -> Recipe<'a> {
    let mut parser = Parser { text, tokens: tokenize(text).unwrap(), position: 0 };
    parser.recipe(name, 0).unwrap()
}

#[test]
fn resolver_state() {
    let mut recipes = Table::new();
    recipes.insert("a", recipe(":", "a"));
    recipes.insert("b", recipe(": a", "b"));
    recipes.insert("c", recipe(": a b", "c"));
    assert_eq!(resolve(&recipes), Ok(()));
    let mut resolver = Resolver {
        stack: vec![],
        seen: Names::new(),
        resolved: Names::new(),
        recipes: &recipes,
    };
    assert_eq!(resolver.resolve(recipes.get("a").unwrap()), Ok(()));
    assert!(resolver.resolved.contains("a"));
    assert_eq!(resolver.resolve(recipes.get("c").unwrap()), Ok(()));
    // b is looked at in the place of c
    assert!(resolver.resolved.contains("b"));
    assert!(!resolver.resolved.contains("c"));
    assert_eq!(resolver.stack, vec!["c"]);
}
