use hagi::section::SectionOutcome;
use hagi::section::find_marker;
use hagi::section::join_lines;
use hagi::section::ordered_entries;
use hagi::section::sync_section;

const START: &str = "<!-- MANAGED:START -->";
const END: &str = "<!-- MANAGED:END -->";

fn strings(v: Vec<&str>) -> Vec<String> {
    v.into_iter().map(|s| s.to_string()).collect()
}

#[test]
fn test_sync_no_markers_is_a_no_op() {
    let r = sync_section("just an ordinary document\n", START, END, "body");
    assert!(matches!(r, SectionOutcome::NoMarkers));
}

#[test]
fn test_sync_start_without_end_is_a_no_op() {
    let doc = format!("before\n{}\nafter", START);
    let r = sync_section(&doc, START, END, "body");
    assert!(matches!(r, SectionOutcome::NoMarkers));
}

#[test]
fn test_sync_end_before_start_is_a_no_op() {
    let doc = format!("{}\nmiddle\n{}", END, START);
    let r = sync_section(&doc, START, END, "body");
    assert!(matches!(r, SectionOutcome::NoMarkers));
}

#[test]
fn test_sync_up_to_date_writes_nothing() {
    let doc = format!("head\n{}\ncurrent\n{}\ntail", START, END);
    let r = sync_section(&doc, START, END, "\ncurrent\n");
    assert!(matches!(r, SectionOutcome::UpToDate));
}

#[test]
fn test_sync_rewrites_only_the_section() {
    let doc = format!("head\n{}\nold\n{}\ntail", START, END);
    let r = sync_section(&doc, START, END, "\nnew\n");
    match r {
        SectionOutcome::Updated(nd) => {
            assert_eq!(nd, format!("head\n{}\nnew\n{}\ntail", START, END));
        }
        _ => panic!("expected an update"),
    }
}

#[test]
fn test_sync_empty_body() {
    let doc = format!("{}inner{}", START, END);
    let r = sync_section(&doc, START, END, "");
    match r {
        SectionOutcome::Updated(nd) => {
            assert_eq!(nd, format!("{}{}", START, END));
        }
        _ => panic!("expected an update"),
    }
}

#[test]
fn test_find_marker_positions() {
    assert_eq!(find_marker("abcabc", "ca", 0), Some(2));
    assert_eq!(find_marker("abcabc", "ab", 1), Some(3));
    assert_eq!(find_marker("abcabc", "zz", 0), None);
}

#[test]
fn test_ordered_entries_designated_first() {
    let r = ordered_entries(strings(vec!["zeta.md", "general.md", "alpha.md"]), "general.md");
    assert_eq!(r, strings(vec!["general.md", "alpha.md", "zeta.md"]));
}

#[test]
fn test_ordered_entries_without_designated() {
    let r = ordered_entries(strings(vec!["zeta.md", "alpha.md", "midway.md"]), "general.md");
    assert_eq!(r, strings(vec!["alpha.md", "midway.md", "zeta.md"]));
}

#[test]
fn test_join_lines_with_newlines() {
    assert_eq!(join_lines(&strings(vec!["a", "b", "c"])), "a\nb\nc");
    assert_eq!(join_lines(&strings(vec!["only"])), "only");
    assert_eq!(join_lines(&strings(vec![])), "");
}
