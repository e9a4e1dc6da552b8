use hagi::filter::Category;
use hagi::filter::InstallFilter;

fn filter(only: Vec<Category>, skip: Vec<&str>) -> InstallFilter {
    InstallFilter { only, skip: skip.into_iter().map(|s| s.to_string()).collect() }
}

#[test]
fn test_empty_filter_includes_everything() {
    let f = InstallFilter::all();
    assert!(f.should_include("instructions/general.md"));
    assert!(f.should_include("HANDBOOK.md"));
    assert!(f.should_include("config/settings.json"));
}

#[test]
fn test_skip_exact_path() {
    let f = filter(vec![], vec!["instructions/general.md"]);
    assert!(!f.should_include("instructions/general.md"));
    assert!(f.should_include("instructions/other.md"));
}

#[test]
fn test_skip_directory_prefix() {
    let f = filter(vec![], vec!["instructions"]);
    assert!(!f.should_include("instructions/general.md"));
    assert!(!f.should_include("instructions/sub/deep.md"));
    assert!(f.should_include("instructionsplus/file.md"));
    assert!(f.should_include("config/settings.json"));
}

#[test]
fn test_skip_bare_file_name() {
    let f = filter(vec![], vec!["general.md"]);
    assert!(!f.should_include("instructions/general.md"));
    assert!(!f.should_include("docs/general.md"));
    assert!(f.should_include("instructions/other.md"));
}

#[test]
fn test_only_categories_restrict() {
    let f = filter(vec![Category::Instructions], vec![]);
    assert!(f.should_include("instructions/general.md"));
    assert!(!f.should_include("config/settings.json"));
    assert!(!f.should_include("hooks/pre-commit"));
    assert!(!f.should_include("HANDBOOK.md"));
}

#[test]
fn test_only_several_categories() {
    let f = filter(vec![Category::Docs, Category::Hooks], vec![]);
    assert!(f.should_include("docs/readme.md"));
    assert!(f.should_include("hooks/pre-commit"));
    assert!(!f.should_include("skills/review.md"));
}

#[test]
fn test_skip_wins_over_category() {
    let f = filter(vec![Category::Instructions], vec!["instructions/general.md"]);
    assert!(!f.should_include("instructions/general.md"));
    assert!(f.should_include("instructions/other.md"));
}

#[test]
fn test_is_skipped_alone() {
    let f = filter(vec![Category::Instructions], vec!["docs"]);
    assert!(f.is_skipped("docs/readme.md"));
    assert!(!f.is_skipped("instructions/general.md"));
}
