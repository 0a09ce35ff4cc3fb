use just::pattern::Pattern;

fn groups(pattern: Pattern, text: &str) -> Option<(String, Option<String>, Option<String>)> {
    pattern.captures(text).map(|found| {
        (
            found.whole.to_string(),
            found.first.map(|g| g.to_string()),
            found.second.map(|g| g.to_string()),
        )
    })
}

fn two(whole: &str, first: &str, second: &str) -> Option<(String, Option<String>, Option<String>)> {
    Some((whole.to_string(), Some(first.to_string()), Some(second.to_string())))
}

#[test]
fn pattern_eof() {
    assert_eq!(groups(Pattern::Eof, " \t"), two(" \t", " \t", ""));
    assert_eq!(groups(Pattern::Eof, ""), two("", "", ""));
    assert_eq!(groups(Pattern::Eof, "\n"), None);
    assert!(Pattern::Eof.is_match("  "));
    assert!(!Pattern::Eof.is_match("  x"));
}

#[test]
fn pattern_name() {
    assert_eq!(groups(Pattern::Name, " aZ_-9: x"), two(" aZ_-9", " ", "aZ_-9"));
    assert_eq!(groups(Pattern::Name, "\u{e9}"), None);
}

#[test]
fn pattern_punctuation() {
    assert_eq!(groups(Pattern::Colon, "\t: x"), two("\t:", "\t", ":"));
    assert_eq!(groups(Pattern::Equals, "= x"), two("=", "", "="));
    assert_eq!(groups(Pattern::Plus, " + x"), two(" +", " ", "+"));
    assert_eq!(groups(Pattern::Plus, "x+"), None);
    assert_eq!(groups(Pattern::InterpolationEnd, " }}}"), two(" }}", " ", "}}"));
    assert_eq!(groups(Pattern::InterpolationEnd, "}"), None);
    assert_eq!(groups(Pattern::InterpolationStartToken, " {{{"), two(" {{", " ", "{{"));
}

#[test]
fn pattern_comment() {
    assert_eq!(groups(Pattern::Comment, " # a b\nc"), two(" # a b", " ", "# a b"));
    assert_eq!(groups(Pattern::Comment, "#\nab\nc"), two("#\nab", "", "#\nab"));
    assert_eq!(groups(Pattern::Comment, "#"), two("#", "", "#"));
    assert_eq!(groups(Pattern::Comment, "#\n"), two("#\n", "", "#\n"));
    assert_eq!(groups(Pattern::Comment, "#!a"), None);
}

#[test]
fn pattern_string() {
    assert_eq!(groups(Pattern::StringToken, " \"7\"x"), two(" \"7\"", " ", "\"7\""));
    assert_eq!(groups(Pattern::StringToken, "\"\""), None);
    assert_eq!(groups(Pattern::StringToken, "\"ab\""), None);
}

#[test]
fn pattern_eol() {
    assert_eq!(groups(Pattern::Eol, "  \nx"), two("  \n", "  ", "\n"));
    assert_eq!(groups(Pattern::Eol, "\r\nx"), two("\r\n", "", "\r\n"));
    assert_eq!(groups(Pattern::Eol, "\rx"), None);
}

#[test]
fn pattern_line() {
    let whole = |text: &str| groups(Pattern::Line, text).map(|found| found.0);
    assert_eq!(whole("  ab c\nd"), Some("  ab c".to_string()));
    assert_eq!(whole("ab"), None);
    assert_eq!(whole("  \nab"), None);
    assert_eq!(whole("  \rab"), None);
}

#[test]
fn pattern_indent() {
    let first = |text: &str| groups(Pattern::Indent, text).map(|found| found.1.unwrap());
    assert_eq!(first(" \tab"), Some(" \t".to_string()));
    assert_eq!(first("ab"), Some(String::new()));
    assert_eq!(first("  \n a"), None);
    assert_eq!(first(""), None);
}

#[test]
fn pattern_interpolation_start() {
    let whole = |text: &str| groups(Pattern::InterpolationStart, text).map(|found| found.0);
    assert_eq!(whole("{{a"), Some("{{".to_string()));
    assert_eq!(whole(" {{a"), None);
}

#[test]
fn pattern_leading_text() {
    let first = |text: &str| groups(Pattern::LeadingText, text).map(|found| found.1.unwrap());
    assert_eq!(first("ab {{c}} {{d"), Some("ab ".to_string()));
    assert_eq!(first("{{{{"), Some("{".to_string()));
    assert_eq!(first("{{a{{"), Some("{{a".to_string()));
    assert_eq!(first("ab\n{{"), None);
    assert_eq!(first("\n{{"), None);
    assert_eq!(first("ab{"), None);
}

#[test]
fn pattern_text() {
    let first = |text: &str| groups(Pattern::Text, text).map(|found| found.1.unwrap());
    assert_eq!(first("a b\nc"), Some("a b".to_string()));
    assert_eq!(first("a\r\nc"), Some("a\r".to_string()));
    assert_eq!(first("\na"), None);
}

#[test]
fn pattern_good_name() {
    for name in ["a", "ab", "a-b", "a0", "a-0-z9"].iter() {
        assert!(Pattern::GoodName.is_match(name));
    }
    for name in ["", "A", "0a", "-a", "a-", "a--b", "a_b", "a\n", "\u{e9}"].iter() {
        assert!(!Pattern::GoodName.is_match(name));
    }
    let last = |name: &str| groups(Pattern::GoodName, name).map(|found| found.1);
    assert_eq!(last("a"), Some(None));
    assert_eq!(last("a-bc-d"), Some(Some("-d".to_string())));
    assert_eq!(last("a-bc"), Some(Some("c".to_string())));
}

#[test]
fn pattern_sources() {
    assert_eq!(Pattern::Colon.source(), r"^(?m)([ \t]*)(:)");
    assert_eq!(Pattern::Comment.source(), r"^(?m)([ \t]*)(#([^!].*)?$)");
    assert_eq!(Pattern::Line.source(), r"^(?m)[ \t]+[^ \t\n\r].*$");
    assert_eq!(Pattern::GoodName.source(), r"^[a-z](-?[a-z0-9])*$");
}
