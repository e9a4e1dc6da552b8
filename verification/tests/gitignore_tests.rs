use hagi::gitignore::missing_entries;
use hagi::gitignore::retained_lines;
use hagi::gitignore::trim_line;
use hagi::strings::final_component;
use hagi::strings::sort_names;
use hagi::strings::str_has_prefix;
use hagi::strings::str_has_suffix;
use hagi::strings::str_lex_lt;

fn strings(v: Vec<&str>) -> Vec<String> {
    v.into_iter().map(|s| s.to_string()).collect()
}

#[test]
fn test_trim_line_whitespace() {
    assert_eq!(trim_line("  /.devkit/ \t"), "/.devkit/");
    assert_eq!(trim_line("plain"), "plain");
    assert_eq!(trim_line(" \t\r\n"), "");
    assert_eq!(trim_line(""), "");
}

#[test]
fn test_missing_entries_skips_present_lines() {
    let lines = strings(vec!["node_modules/", "  /.devkit/  ", "# comment"]);
    let entries = strings(vec!["/.devkit/", "/.serena/"]);

    let r = missing_entries(&lines, &entries);

    assert_eq!(r, strings(vec!["/.serena/"]));
}

#[test]
fn test_missing_entries_on_empty_file() {
    let lines: Vec<String> = vec![];
    let entries = strings(vec!["/.devkit/", "/.serena/"]);
    let r = missing_entries(&lines, &entries);
    assert_eq!(r, entries);
}

#[test]
fn test_retained_lines_drop_patterns() {
    let lines = strings(vec!["target/", "/.devkit/", " /.serena/ ", "keep.me"]);
    let patterns = strings(vec!["/.devkit/", "/.serena/"]);

    let r = retained_lines(&lines, &patterns);

    assert_eq!(r, strings(vec!["target/", "keep.me"]));
}

#[test]
fn test_retained_lines_without_matches() {
    let lines = strings(vec!["a", "b"]);
    let patterns = strings(vec!["/.devkit/"]);
    let r = retained_lines(&lines, &patterns);
    assert_eq!(r, strings(vec!["a", "b"]));
}

#[test]
fn test_sort_names_lexical() {
    let r = sort_names(strings(vec!["pear", "apple", "banana", "apple"]));
    assert_eq!(r, strings(vec!["apple", "apple", "banana", "pear"]));
}

#[test]
fn test_lexical_comparison() {
    assert!(str_lex_lt("abc", "abd"));
    assert!(str_lex_lt("ab", "abc"));
    assert!(!str_lex_lt("abc", "abc"));
    assert!(!str_lex_lt("b", "ab"));
}

#[test]
fn test_prefix_and_suffix() {
    assert!(str_has_prefix("instructions/general.md", "instructions/"));
    assert!(!str_has_prefix("instr", "instructions/"));
    assert!(str_has_suffix("config/settings.json", ".json"));
    assert!(!str_has_suffix("notes.md", ".json"));
}

#[test]
fn test_final_component() {
    assert_eq!(final_component("instructions/general.md"), "general.md");
    assert_eq!(final_component("a/b/c"), "c");
    assert_eq!(final_component("plain.txt"), "plain.txt");
    assert_eq!(final_component("dir/"), "");
}
