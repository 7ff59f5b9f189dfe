use vsb::filter::{parse_rule, parse_rule_line, replace, PathFilter, Rule};

fn rule_line(line: &str) -> Option<(String, bool)> {
    parse_rule_line(line).unwrap()
}

fn some(glob: &str, allow: bool) -> Option<(String, bool)> {
    Some((glob.to_owned(), allow))
}

#[test]
fn parsing_skips_blank_and_comment_lines() {
    assert_eq!(rule_line(""), None);
    assert_eq!(rule_line(" "), None);
    assert_eq!(rule_line(" # Some comment "), None);
    assert_eq!(rule_line("\t#comment"), None);
}

#[test]
fn parsing_allow_and_deny_rules() {
    assert_eq!(rule_line("+ ab/*/cd"), some("ab/*/cd", true));
    assert_eq!(rule_line("- ab/*/cd"), some("ab/*/cd", false));
}

#[test]
fn parsing_keeps_inner_spaces() {
    assert_eq!(rule_line("+  with spaces "), some(" with spaces", true));
    assert_eq!(rule_line("+ non-comment # rule "), some("non-comment # rule", true));
}

#[test]
fn parsing_keeps_escaped_trailing_space() {
    assert_eq!(rule_line(r"+ space at the end\ "), some(r"space at the end\ ", true));
    assert_eq!(rule_line(r"+ space at the end \ "), some(r"space at the end \ ", true));
    assert_eq!(rule_line(r"+ space at the end \  "), some(r"space at the end \ ", true));
}

#[test]
fn parsing_rejects_invalid_rules() {
    assert_eq!(parse_rule_line("* abc").unwrap_err(), "Invalid filter rule: \"* abc\"");
    assert_eq!(parse_rule_line("  +abc  ").unwrap_err(), "Invalid filter rule: \"+abc\"");
    assert_eq!(parse_rule_line("+ ").unwrap_err(), "Invalid filter rule: \"+\"");
}

#[test]
fn parse_rule_needs_sign_space_and_glob() {
    assert_eq!(parse_rule("+ a"), some("a", true));
    assert_eq!(parse_rule("- a b"), some("a b", false));
    assert_eq!(parse_rule("+a"), None);
    assert_eq!(parse_rule("+ "), None);
    assert_eq!(parse_rule("x a"), None);
    assert_eq!(parse_rule(""), None);
}

#[test]
fn replace_substitutes_every_occurrence() {
    let s: Vec<char> = r"a\tb\tc".chars().collect();
    let pat: Vec<char> = r"\t".chars().collect();
    let rep: Vec<char> = "\t".chars().collect();
    let r: String = replace(&s, &pat, &rep).into_iter().collect();
    assert_eq!(r, "a\tb\tc");

    let s: Vec<char> = "aaa".chars().collect();
    let pat: Vec<char> = "aa".chars().collect();
    let rep: Vec<char> = "b".chars().collect();
    let r: String = replace(&s, &pat, &rep).into_iter().collect();
    assert_eq!(r, "ba");
}

#[test]
fn rule_unescapes_and_matches() {
    let rule = Rule::new(r"Icon\r", false).unwrap();
    assert!(rule.matches("Icon\r"));
    assert!(!rule.matches(r"Icon\r"));

    let rule = Rule::new(r"with\ space", true).unwrap();
    assert!(rule.matches("with space"));
}

#[test]
fn rule_rejects_invalid_glob() {
    let err = Rule::new("a[", true).err().unwrap();
    assert!(err.starts_with("Invalid glob (\"a[\"): "), "{}", err);
}

#[test]
fn filtering_takes_the_first_matching_rule() {
    let spec = "\
# Trash of some systems
- **/.DS_Store
- Icon\\r
- **/Icon\\r

- Downloads
+ .vim/ftplugin
- .vim/*
- **/*.o
- **/*.so
";
    let filter = PathFilter::new(spec).unwrap();

    for (path, expected) in [
        ("some-file", true),
        ("some-dir/some-file", true),
        ("Icon\r", false),
        ("dir/Icon\r", false),
        (".DS_Store", false),
        ("dir/.DS_Store", false),
        ("Downloads", false),
        ("Other/Downloads", true),
        (".vim", true),
        (".vim/bundle", false),
        (".vim/ftplugin", true),
        (".vim/view", false),
        ("src/obj.o", false),
        ("src/lib.so", false),
        ("src/project/inner/obj.o", false),
        ("src/project/obj.obj", true),
        ("src/project/lib.soc", true),
    ] {
        assert_eq!(filter.check(path), expected, "{:?}", path);
    }
}

#[test]
fn empty_filter_allows_everything() {
    let filter = PathFilter::new("").unwrap();
    assert!(filter.check("anything"));
    assert!(filter.check("a/b/c"));
}

#[test]
fn filter_reports_the_first_bad_line() {
    assert_eq!(PathFilter::new("+ a\nbad line\n").err().unwrap(), "Invalid filter rule: \"bad line\"");
    assert!(PathFilter::new("+ a[").err().unwrap().starts_with("Invalid glob"));
}
