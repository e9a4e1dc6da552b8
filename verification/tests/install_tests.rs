use hagi::filter::Category;
use hagi::filter::InstallFilter;
use hagi::install::PlanStep;
use hagi::install::WriteDecision;
use hagi::install::write_decision;
use hagi::tree::TemplateNode;
use hagi::tree::TemplateTree;

fn file(path: &str, content: &str) -> TemplateNode {
    TemplateNode::File { path: path.to_string(), content: content.to_string() }
}

fn dir(path: &str, children: Vec<TemplateNode>) -> TemplateNode {
    TemplateNode::Dir { path: path.to_string(), children }
}

fn sample_tree() -> TemplateTree {
    TemplateTree {
        roots: vec![
            dir(
                "instructions",
                vec![
                    file("instructions/general.md", "general text"),
                    file("instructions/other.md", "other text"),
                ],
            ),
            dir("config", vec![file("config/settings.json", "{}")]),
            dir("hooks", vec![file("hooks/pre-commit", "#!/bin/sh")]),
            file("HANDBOOK.md", "top level"),
        ],
    }
}

fn written_paths(plan: &[PlanStep]) -> Vec<String> {
    plan.iter()
        .filter_map(|s| match s {
            PlanStep::CopyFile { path, .. } => Some(path.clone()),
            PlanStep::MergeJson { path, .. } => Some(path.clone()),
            _ => None,
        })
        .collect()
}

#[test]
fn test_install_only_instructions() {
    let tree = sample_tree();
    let f = InstallFilter { only: vec![Category::Instructions], skip: vec![] };

    let plan = tree.install_plan(&f);

    assert_eq!(
        written_paths(&plan),
        vec!["instructions/general.md".to_string(), "instructions/other.md".to_string()]
    );
    // The config and hooks subtrees are pruned without any reported step,
    // and the top-level file is reported as skipped.
    assert!(plan.iter().all(|s| match s {
        PlanStep::EnsureDir { path } => path == "instructions",
        PlanStep::Skipped { path } => path == "HANDBOOK.md",
        PlanStep::CopyFile { path, .. } => path.starts_with("instructions/"),
        PlanStep::MergeJson { .. } => false,
    }));
}

#[test]
fn test_install_unfiltered_writes_everything() {
    let tree = sample_tree();
    let f = InstallFilter::all();

    let plan = tree.install_plan(&f);

    assert_eq!(
        written_paths(&plan),
        vec![
            "instructions/general.md".to_string(),
            "instructions/other.md".to_string(),
            "config/settings.json".to_string(),
            "hooks/pre-commit".to_string(),
            "HANDBOOK.md".to_string(),
        ]
    );
}

#[test]
fn test_install_json_targets_become_merges() {
    let tree = sample_tree();
    let f = InstallFilter::all();

    let plan = tree.install_plan(&f);

    let merges: Vec<&PlanStep> = plan
        .iter()
        .filter(|s| matches!(s, PlanStep::MergeJson { .. }))
        .collect();
    assert_eq!(merges.len(), 1);
    match merges[0] {
        PlanStep::MergeJson { path, content } => {
            assert_eq!(path, "config/settings.json");
            assert_eq!(content, "{}");
        }
        _ => unreachable!(),
    }
}

#[test]
fn test_install_skipped_directory_drops_subtree() {
    let tree = sample_tree();
    let f = InstallFilter { only: vec![], skip: vec!["instructions".to_string()] };

    let plan = tree.install_plan(&f);

    assert!(plan.iter().any(|s| matches!(s, PlanStep::Skipped { path } if path == "instructions")));
    assert!(written_paths(&plan).iter().all(|p| !p.starts_with("instructions/")));
}

#[test]
fn test_tree_get_file() {
    let tree = sample_tree();
    assert_eq!(tree.get_file("instructions/other.md"), Some("other text".to_string()));
    assert_eq!(tree.get_file("HANDBOOK.md"), Some("top level".to_string()));
    assert!(tree.get_file("missing.md").is_none());
}

#[test]
fn test_has_matching_descendant_agrees_with_filter() {
    let f = InstallFilter { only: vec![Category::Instructions], skip: vec![] };
    let with_match = dir("instructions", vec![file("instructions/general.md", "x")]);
    let without_match = dir("config", vec![file("config/settings.json", "{}")]);

    assert!(with_match.has_matching_descendant(&f));
    assert!(!without_match.has_matching_descendant(&f));
}

#[test]
fn test_dry_run_reports_without_writing() {
    assert_eq!(write_decision(true, true), WriteDecision::WouldOverwrite);
    assert_eq!(write_decision(false, true), WriteDecision::WouldCreate);
}

#[test]
fn test_wet_run_backs_up_before_overwrite() {
    assert_eq!(write_decision(true, false), WriteDecision::BackupThenWrite);
    assert_eq!(write_decision(false, false), WriteDecision::CreateNew);
}
