use straddle_carrier::crate_def::CrateDefinition;
use straddle_carrier::merge::{merge_build_file, merge_crates, MergeMode};
use straddle_carrier::sort::sort_crates;

fn definition(name: &str, crate_name: &str, version: &str, features: &[&str]) -> CrateDefinition {
    CrateDefinition {
        name: name.to_string(),
        crate_name: crate_name.to_string(),
        version: version.to_string(),
        edition: Some("2021".to_string()),
        features: features.iter().map(|f| f.to_string()).collect(),
        deps: vec![],
        crate_type: None,
        build_root: None,
        raw_text: format!("raw {}", name),
        preceding_content: format!("before {}", name),
        pinned: false,
        modified: false,
    }
}

fn pinned_definition(name: &str, crate_name: &str, version: &str, features: &[&str]) -> CrateDefinition {
    let mut c = definition(name, crate_name, version, features);
    c.pinned = true;
    c
}

fn rule_names(crates: &[CrateDefinition]) -> Vec<String> {
    crates.iter().map(|c| c.name.clone()).collect()
}

#[test]
fn override_replaces_completely() {
    let old = [definition("s", "serde", "1.5.0", &["std"])];
    let mut newer = definition("serde", "serde", "1.2.0", &["derive"]);
    newer.deps = vec![":x".to_string()];
    let (result, warnings) = merge_crates(&old, &[newer], MergeMode::Override);
    assert_eq!(result.len(), 1);
    assert_eq!(result[0].name, "s");
    assert_eq!(result[0].version, "1.2.0");
    assert_eq!(result[0].features, vec!["derive".to_string()]);
    assert_eq!(result[0].deps, vec![":x".to_string()]);
    assert_eq!(result[0].preceding_content, "before s");
    assert!(result[0].modified);
    assert_eq!(warnings, Vec::<String>::new());
}

#[test]
fn override_replaces_other_major_versions() {
    let old = [definition("log", "log", "1.4.0", &[])];
    let new = [definition("log", "log", "2.0.0", &["std"])];
    let (result, warnings) = merge_crates(&old, &new, MergeMode::Override);
    assert_eq!(result.len(), 1);
    assert_eq!(result[0].name, "log");
    assert_eq!(result[0].version, "2.0.0");
    assert_eq!(result[0].features, vec!["std".to_string()]);
    assert!(result[0].modified);
    assert_eq!(warnings, Vec::<String>::new());
}

#[test]
fn override_replaces_versions_that_cannot_be_read() {
    let old = [definition("s", "serde", "git", &[])];
    let new = [definition("serde", "serde", "2.0.0", &[])];
    let (result, warnings) = merge_crates(&old, &new, MergeMode::Override);
    assert_eq!(result[0].name, "s");
    assert_eq!(result[0].version, "2.0.0");
    assert_eq!(warnings, Vec::<String>::new());
}

#[test]
fn override_warns_about_pinned_crates() {
    let old = [pinned_definition("s", "serde", "1.0.0", &[])];
    let new = [definition("serde", "serde", "1.1.0", &[])];
    let (result, warnings) = merge_crates(&old, &new, MergeMode::Override);
    assert_eq!(format!("{:?}", result), format!("{:?}", old));
    assert_eq!(
        warnings,
        vec![
            "WARNING: Cannot update PINNED crate 's' (has # straddle_carrier:do_not_touch)\n│  \
             Current: serde v1.0.0\n│  New:     serde v1.1.0\n│  \
             Keeping pinned version. Remove the pin comment to allow updates."
                .to_string()
        ]
    );
}

#[test]
fn override_warns_twice_about_a_pinned_unreadable_crate() {
    let old = [pinned_definition("s", "serde", "git", &[])];
    let new = [definition("serde", "serde", "1.1.0", &[])];
    let (_, warnings) = merge_crates(&old, &new, MergeMode::Override);
    assert_eq!(warnings.len(), 2);
    assert_eq!(
        warnings[0],
        "WARNING: Cannot parse version for 's' - skipping update\n│  Current: serde vgit\n│  \
         New:     serde v1.1.0\n│  Keeping current version."
    );
    assert!(warnings[1].starts_with("WARNING: Cannot update PINNED crate 's'"));
}

#[test]
fn update_bumps_and_expands() {
    let mut old = definition("s", "serde", "1.0.0", &["std", "alloc"]);
    old.deps = vec![":a".to_string()];
    old.build_root = Some("b".to_string());
    let mut new = definition("serde", "serde", "1.2.0", &["derive", "std", "derive"]);
    new.deps = vec![":b".to_string(), ":a".to_string()];
    let (result, warnings) = merge_crates(&[old], &[new], MergeMode::UpdateOrExpandOnly);
    assert_eq!(result.len(), 1);
    assert_eq!(result[0].name, "s");
    assert_eq!(result[0].version, "1.2.0");
    assert_eq!(
        result[0].features,
        vec![
            "std".to_string(),
            "alloc".to_string(),
            "derive".to_string(),
            "derive".to_string()
        ]
    );
    assert_eq!(result[0].deps, vec![":a".to_string(), ":b".to_string()]);
    assert_eq!(result[0].build_root, Some("b".to_string()));
    assert!(result[0].modified);
    assert_eq!(warnings, Vec::<String>::new());
}

#[test]
fn update_never_goes_back() {
    let old = [definition("s", "serde", "1.5.0", &["std"])];
    let lower = [definition("serde", "serde", "1.4.9", &["std"])];
    let (result, _) = merge_crates(&old, &lower, MergeMode::UpdateOrExpandOnly);
    assert_eq!(result[0].version, "1.5.0");
    assert!(!result[0].modified);
    let major = [definition("serde", "serde", "2.0.0", &["derive"])];
    let (result, _) = merge_crates(&old, &major, MergeMode::UpdateOrExpandOnly);
    assert_eq!(result[0].version, "1.5.0");
    assert_eq!(result[0].features, vec!["std".to_string(), "derive".to_string()]);
    assert!(result[0].modified);
    let unreadable = [definition("serde", "serde", "git", &[])];
    let (result, _) = merge_crates(&old, &unreadable, MergeMode::UpdateOrExpandOnly);
    assert_eq!(result[0].version, "1.5.0");
    assert!(!result[0].modified);
}

#[test]
fn update_warns_about_pinned_crates() {
    let old = [pinned_definition("s", "serde", "1.0.0", &["std"])];
    let new = [definition("serde", "serde", "1.1.0", &["rc", "std", "al\"loc"])];
    let (result, warnings) = merge_crates(&old, &new, MergeMode::UpdateOrExpandOnly);
    assert_eq!(format!("{:?}", result), format!("{:?}", old));
    assert_eq!(
        warnings,
        vec![
            "WARNING: Cannot update PINNED crate 's' (has # straddle_carrier:do_not_touch)\n│  \
             Current version: 1.0.0\n│  Available version: 1.1.0\n│  \
             Missing features: [\"rc\", \"al\\\"loc\"]\n│  \
             Keeping pinned version. Remove the pin comment to allow updates."
                .to_string()
        ]
    );
    let same = [definition("serde", "serde", "1.0.0", &["std"])];
    let (_, warnings) = merge_crates(&old, &same, MergeMode::UpdateOrExpandOnly);
    assert_eq!(warnings, Vec::<String>::new());
}

#[test]
fn new_crates_are_added_in_order() {
    let old = [definition("b", "b", "1.0.0", &[])];
    let new = [
        definition("c", "c", "1.0.0", &[]),
        definition("a", "a", "1.0.0", &[]),
    ];
    for mode in [
        MergeMode::Override,
        MergeMode::UpdateOrExpandOnly,
        MergeMode::Parallel,
    ] {
        let (result, warnings) = merge_crates(&old, &new, mode);
        assert_eq!(rule_names(&result), vec!["a", "b", "c"]);
        assert!(result[0].modified && !result[1].modified && result[2].modified);
        assert_eq!(warnings, Vec::<String>::new());
    }
}

#[test]
fn parallel_adds_a_suffix() {
    let old = [pinned_definition("serde", "serde", "1.0.0", &[])];
    let new = [definition("serde", "serde", "2.1.0", &[])];
    let (result, warnings) = merge_crates(&old, &new, MergeMode::Parallel);
    assert_eq!(rule_names(&result), vec!["serde", "serde.2_1_0"]);
    assert_eq!(
        warnings,
        vec![
            "WARNING: Adding parallel version for PINNED crate 'serde'\n│  \
             Pinned version: 1.0.0 (kept as 'serde')\n│  \
             New version: 2.1.0 (added as 'serde.2_1_0')\n│  Both versions will coexist."
                .to_string(),
            "INFO: Fork detected for crate 'serde' - 2 versions coexist:\n│  'serde' v1.0.0\n│  \
             'serde.2_1_0' v2.1.0"
                .to_string()
        ]
    );
}

#[test]
fn parallel_suffixes_the_same_version_too() {
    let old = [definition("serde", "serde", "1.0.0", &[])];
    let (result, warnings) = merge_crates(&old, &old, MergeMode::Parallel);
    assert_eq!(rule_names(&result), vec!["serde", "serde.1_0_0"]);
    assert_eq!(warnings.len(), 1);
}

#[test]
fn last_new_definition_counts() {
    let old = [definition("a", "a", "1.0.0", &[])];
    let new = [
        definition("a", "a", "1.9.0", &[]),
        definition("a2", "a", "1.2.0", &[]),
    ];
    let (result, _) = merge_crates(&old, &new, MergeMode::Override);
    assert_eq!(result.len(), 1);
    assert_eq!(result[0].version, "1.2.0");
}

#[test]
fn forks_are_updated_each() {
    let old = [
        definition("a1", "a", "1.0.0", &[]),
        definition("a2", "a", "2.0.0", &[]),
    ];
    let new = [definition("a", "a", "2.5.0", &[])];
    let (result, warnings) = merge_crates(&old, &new, MergeMode::UpdateOrExpandOnly);
    assert_eq!(result[0].version, "1.0.0");
    assert_eq!(result[1].version, "2.5.0");
    assert_eq!(
        warnings,
        vec![
            "INFO: Fork detected for crate 'a' - 2 versions coexist:\n│  'a1' v1.0.0\n│  'a2' v2.5.0"
                .to_string()
        ]
    );
}

#[test]
fn order_by_crate_then_rule() {
    let crates = vec![
        definition("z", "b", "1.0.0", &[]),
        definition("y", "a", "1.0.0", &[]),
        definition("x", "a", "1.0.0", &["first"]),
        definition("x", "a", "2.0.0", &["second"]),
    ];
    let sorted = sort_crates(crates);
    assert_eq!(rule_names(&sorted), vec!["x", "x", "y", "z"]);
    assert_eq!(sorted[0].features, vec!["first".to_string()]);
    assert_eq!(sorted[1].features, vec!["second".to_string()]);
}

#[test]
fn merging_into_a_file() {
    let content = "header\n\nrust_crate(\n    name = \"b\",\n    version = \"1.0.0\",\n    \
                   src_root = \"kept\",\n)\n\nrust_crate(name = \"a\", version = \"1.0.0\")\ntrailer\n";
    let new = [definition("a", "a", "1.1.0", &["f"])];
    let merged = merge_build_file(content, &new, MergeMode::UpdateOrExpandOnly);
    assert_eq!(
        merged.content,
        "header\n\nrust_crate(\n    name = \"a\",\n    crate = \"a\",\n    version = \"1.1.0\",\n    \
         features = [\n        \"f\",\n    ],\n)\n\n\
         rust_crate(\n    name = \"b\",\n    version = \"1.0.0\",\n    src_root = \"kept\",\n)\n\n\
         \ntrailer\n"
    );
    assert_eq!(merged.old_count, 2);
    assert_eq!(merged.crates.len(), 2);
    assert_eq!(merged.warnings, Vec::<String>::new());
}

#[test]
fn merging_into_a_file_without_crates() {
    let merged = merge_build_file("text", &[], MergeMode::Override);
    assert_eq!(merged.content, "text");
    assert_eq!(merged.old_count, 0);
    let old = "subinclude(\"//build_defs:rust\")\n";
    let mut c = definition("a", "a", "1.0.0", &[]);
    c.edition = None;
    for mode in [
        MergeMode::Override,
        MergeMode::UpdateOrExpandOnly,
        MergeMode::Parallel,
    ] {
        let merged = merge_build_file(old, &[c.clone()], mode);
        assert_eq!(
            merged.content,
            "subinclude(\"//build_defs:rust\")\n\
             rust_crate(\n    name = \"a\",\n    crate = \"a\",\n    version = \"1.0.0\",\n)\n\n"
        );
    }
}

#[test]
fn merging_keeps_blocks_without_name() {
    let old = "rust_crate(before = 1)\nrust_crate(name = \"b\")\nrust_crate(between = 2)\n\
               rust_crate(name = \"a\")\nrust_crate(after = 3)\n";
    let merged = merge_build_file(old, &[], MergeMode::Override);
    assert_eq!(
        merged.content,
        "rust_crate(before = 1)\nrust_crate(name = \"a\")\n\nrust_crate(name = \"b\")\n\n\
         rust_crate(between = 2)\n\n\nrust_crate(after = 3)\n"
    );
}
