use straddle_carrier::crate_def::CrateDefinition;
use straddle_carrier::verify::{verify_build_file, verify_crates, VerifyMode};

fn requirement(crate_name: &str, version: &str, features: &[&str]) -> CrateDefinition {
    CrateDefinition {
        name: crate_name.replace('-', "_"),
        crate_name: crate_name.to_string(),
        version: version.to_string(),
        edition: Some("2021".to_string()),
        features: features.iter().map(|f| f.to_string()).collect(),
        deps: vec![],
        crate_type: None,
        build_root: None,
        raw_text: String::new(),
        preceding_content: String::new(),
        pinned: false,
        modified: false,
    }
}

#[test]
fn default_mode_is_compatible() {
    assert_eq!(VerifyMode::default(), VerifyMode::Compatible);
}

#[test]
fn missing_crates_are_errors() {
    for mode in [VerifyMode::Exact, VerifyMode::Compatible] {
        let report = verify_crates(&[requirement("a-b", "1.0.0", &[])], &[], mode);
        assert_eq!(report.errors, vec!["Missing dependency: a-b v1.0.0".to_string()]);
        assert_eq!(report.warnings, Vec::<String>::new());
    }
}

#[test]
fn exact_mismatches() {
    let required = [requirement("a", "1.0.0", &["x", "y", "x"])];
    let existing = [requirement("a", "1.0.1", &["z", "y"])];
    let report = verify_crates(&required, &existing, VerifyMode::Exact);
    assert_eq!(
        report.errors,
        vec![
            "Version mismatch for a: have 1.0.1, need 1.0.0".to_string(),
            "Missing features for a: [\"x\"]".to_string(),
            "Extra features for a: [\"z\"]".to_string(),
        ]
    );
    assert_eq!(report.warnings, Vec::<String>::new());
}

#[test]
fn exact_match_in_any_order() {
    let required = [requirement("a", "1.0.0", &["x", "y", "x"])];
    let existing = [requirement("a", "1.0.0", &["y", "x"])];
    let report = verify_crates(&required, &existing, VerifyMode::Exact);
    assert_eq!(report.errors, Vec::<String>::new());
}

#[test]
fn exact_version_is_compared_as_text() {
    let required = [requirement("a", "1.0.0", &[])];
    let existing = [requirement("a", "1.0", &[])];
    let report = verify_crates(&required, &existing, VerifyMode::Exact);
    assert_eq!(
        report.errors,
        vec!["Version mismatch for a: have 1.0, need 1.0.0".to_string()]
    );
}

#[test]
fn compatible_versions() {
    let check = |have: &str, need: &str| {
        verify_crates(
            &[requirement("a", need, &[])],
            &[requirement("a", have, &[])],
            VerifyMode::Compatible,
        )
    };
    let major = check("2.0.0", "1.0.0");
    assert_eq!(
        major.errors,
        vec!["Incompatible major version for a: have 2.0.0, need 1.0.0".to_string()]
    );
    assert_eq!(major.warnings, Vec::<String>::new());
    let older = check("1.0.0", "1.2.0");
    assert_eq!(
        older.errors,
        vec!["Version too old for a: have 1.0.0, need at least 1.2.0".to_string()]
    );
    let newer = check("1.3.0", "1.2.0");
    assert_eq!(newer.errors, Vec::<String>::new());
    assert_eq!(
        newer.warnings,
        vec!["Newer version for a: have 1.3.0, required 1.2.0".to_string()]
    );
    let same = check("1.2.0", "1.2.0");
    assert_eq!(same.errors.len() + same.warnings.len(), 0);
    let unreadable = check("1", "2.0.0");
    assert_eq!(
        unreadable.errors,
        vec!["Version mismatch for a: have 1, need 2.0.0".to_string()]
    );
    let same_text = check("git", "git");
    assert_eq!(same_text.errors.len() + same_text.warnings.len(), 0);
}

#[test]
fn compatible_features() {
    let required = [requirement("a", "1.0.0", &["x", "y"])];
    let existing = [requirement("a", "1.0.0", &["z", "y"])];
    let report = verify_crates(&required, &existing, VerifyMode::Compatible);
    assert_eq!(report.errors, vec!["Missing features for a: [\"x\"]".to_string()]);
}

#[test]
fn last_existing_definition_counts() {
    let required = [requirement("a", "2.0.0", &[])];
    let existing = [
        requirement("a", "1.0.0", &[]),
        requirement("a", "2.0.0", &[]),
        requirement("b", "3.0.0", &[]),
    ];
    let report = verify_crates(&required, &existing, VerifyMode::Exact);
    assert_eq!(report.errors, Vec::<String>::new());
}

#[test]
fn checking_a_file() {
    let content = "rust_crate(name = \"a_b\", crate = \"a-b\", version = \"1.1.0\", features = [\"x\"])";
    let required = [
        requirement("a-b", "1.0.0", &["x"]),
        requirement("c", "1.0.0", &[]),
    ];
    let report = verify_build_file(content, &required, VerifyMode::Compatible);
    assert_eq!(report.errors, vec!["Missing dependency: c v1.0.0".to_string()]);
    assert_eq!(
        report.warnings,
        vec!["Newer version for a-b: have 1.1.0, required 1.0.0".to_string()]
    );
}
