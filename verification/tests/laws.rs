use straddle_carrier::build_file::{
    parse_build_file, parse_build_file_full, parse_single_crate, render_build_file,
};
use straddle_carrier::crate_def::{generate_crate_block, CrateDefinition};
use straddle_carrier::generate::{generate_build_files, CargoToml, CargoTomlPackage};
use straddle_carrier::merge::{merge_build_file, merge_crates, MergeMode};
use straddle_carrier::metadata::{crate_definitions, ResolvedPackage};
use straddle_carrier::semver::parse_semver;
use straddle_carrier::sort::sort_crates;
use straddle_carrier::verify::{verify_build_file, verify_crates, VerifyMode};
use straddle_carrier::wire::wire_build_file;

fn full_definition() -> CrateDefinition {
    CrateDefinition {
        name: "tokio_1".to_string(),
        crate_name: "tokio".to_string(),
        version: "1.35.0+build".to_string(),
        edition: Some("2021".to_string()),
        features: vec!["full".to_string(), "a/b?c".to_string()],
        deps: vec![":mio".to_string(), "//x:y".to_string()],
        crate_type: Some("proc-macro".to_string()),
        build_root: Some("build.rs".to_string()),
        raw_text: String::new(),
        preceding_content: String::new(),
        pinned: false,
        modified: true,
    }
}

fn plain_definition(crate_name: &str, version: &str, features: &[&str]) -> CrateDefinition {
    CrateDefinition {
        name: crate_name.to_string(),
        crate_name: crate_name.to_string(),
        version: version.to_string(),
        edition: None,
        features: features.iter().map(|f| f.to_string()).collect(),
        deps: vec![],
        crate_type: None,
        build_root: None,
        raw_text: String::new(),
        preceding_content: String::new(),
        pinned: false,
        modified: false,
    }
}

fn shown(crates: &[CrateDefinition]) -> String {
    format!("{:?}", crates)
}

#[test]
fn law_block_reads_back() {
    let c = full_definition();
    let block = generate_crate_block(&c);
    let mut expected = c.clone();
    expected.raw_text = block.clone();
    expected.modified = false;
    let read = parse_single_crate(&block).unwrap();
    assert_eq!(shown(&[read]), shown(&[expected]));
}

#[test]
fn law_block_with_an_assignment_in_a_value_does_not_read_back() {
    let mut c = full_definition();
    c.name = "x version = ".to_string();
    let read = parse_single_crate(&generate_crate_block(&c)).unwrap();
    assert_ne!(read.version, c.version);
}

#[test]
fn law_file_reads_back() {
    let crates = vec![full_definition(), plain_definition("b", "0.1.0", &[])];
    let text = render_build_file("head\n", &crates, "tail\n");
    let file = parse_build_file_full(&text);
    assert_eq!(file.header, "head\n");
    assert_eq!(file.trailer, "\n\ntail\n");
    assert_eq!(file.crates.len(), 2);
    assert_eq!(file.crates[0].features, crates[0].features);
    assert_eq!(file.crates[0].deps, crates[0].deps);
    assert_eq!(file.crates[0].preceding_content, "head\n");
    assert_eq!(file.crates[1].name, "b");
    assert_eq!(file.crates[1].preceding_content, "\n\n");
}

#[test]
fn law_reading_keeps_content() {
    let text = "a\nrust_crate(name = \"x\")\n# note\nrust_crate(name = \"y\", f = g(1))\nz";
    let file = parse_build_file_full(text);
    let mut whole = String::new();
    for c in &file.crates {
        whole.push_str(&c.preceding_content);
        whole.push_str(&c.raw_text);
    }
    whole.push_str(&file.trailer);
    assert_eq!(whole, text);
    assert_eq!(file.header, file.crates[0].preceding_content);
}

#[test]
fn law_unchanged_file_reads_back() {
    let text = "h\nrust_crate(name = \"x\", other = \"kept\")\n\nrust_crate(name = \"y\")\nt";
    let file = parse_build_file_full(text);
    let again = parse_build_file_full(&render_build_file(&file.header, &file.crates, &file.trailer));
    assert_eq!(again.header, file.header);
    assert_eq!(again.trailer, format!("\n\n{}", file.trailer));
    for i in 0..2 {
        assert_eq!(again.crates[i].raw_text, file.crates[i].raw_text);
        assert_eq!(again.crates[i].name, file.crates[i].name);
    }
}

#[test]
fn law_pinned_definition_is_kept() {
    let content = "h\n# straddle_carrier:do_not_touch\nrust_crate(name = \"x\", version = \"1.0.0\", own = 1)\n";
    let new = [plain_definition("x", "1.5.0", &["f"])];
    for mode in [
        MergeMode::Override,
        MergeMode::UpdateOrExpandOnly,
        MergeMode::Parallel,
    ] {
        let merged = merge_build_file(content, &new, mode);
        assert!(merged
            .content
            .contains("rust_crate(name = \"x\", version = \"1.0.0\", own = 1)\n\n"));
        assert!(!merged.warnings.is_empty());
    }
}

#[test]
fn law_unmatched_definition_is_kept() {
    let content = "rust_crate(name = \"x\", version = \"1.0.0\", own = 1)";
    for mode in [
        MergeMode::Override,
        MergeMode::UpdateOrExpandOnly,
        MergeMode::Parallel,
    ] {
        let merged = merge_build_file(content, &[plain_definition("y", "1.0.0", &[])], mode);
        assert!(merged.content.starts_with("rust_crate(name = \"x\", version = \"1.0.0\", own = 1)\n\n"));
        assert_eq!(merged.crates.len(), 2);
    }
}

#[test]
fn law_updating_again_changes_nothing() {
    let old = [
        plain_definition("a", "1.0.0", &["x"]),
        plain_definition("b", "2.0.0", &[]),
    ];
    let new = [
        plain_definition("a", "1.4.0", &["y", "x"]),
        plain_definition("c", "1.0.0", &[]),
    ];
    let (once, _) = merge_crates(&old, &new, MergeMode::UpdateOrExpandOnly);
    let (twice, _) = merge_crates(&once, &new, MergeMode::UpdateOrExpandOnly);
    let mut expected = once.clone();
    for c in &mut expected {
        c.modified = false;
    }
    assert_eq!(shown(&twice), shown(&expected));
}

#[test]
fn law_updating_again_needs_distinct_crates() {
    let new = [
        plain_definition("x", "1.0.0", &[]),
        plain_definition("x", "1.1.0", &[]),
    ];
    let (once, _) = merge_crates(&[], &new, MergeMode::UpdateOrExpandOnly);
    let (twice, _) = merge_crates(&once, &new, MergeMode::UpdateOrExpandOnly);
    assert_eq!(once[0].version, "1.0.0");
    assert_eq!(twice[0].version, "1.1.0");
}

#[test]
fn law_updated_definitions_pass_the_check() {
    let old = [plain_definition("a", "1.0.0", &["x"])];
    let new = [
        plain_definition("a", "1.4.0", &["y"]),
        plain_definition("c", "1.0.0", &["z"]),
    ];
    assert!(!verify_crates(&new, &old, VerifyMode::Compatible).errors.is_empty());
    let (result, _) = merge_crates(&old, &new, MergeMode::UpdateOrExpandOnly);
    assert!(verify_crates(&new, &result, VerifyMode::Compatible).errors.is_empty());
}

#[test]
fn law_exact_check_is_stricter() {
    let crates = [
        plain_definition("a", "1.0.0", &["x"]),
        plain_definition("b", "git", &[]),
    ];
    assert!(verify_crates(&crates, &crates, VerifyMode::Exact).errors.is_empty());
    let report = verify_crates(&crates, &crates, VerifyMode::Compatible);
    assert!(report.errors.is_empty() && report.warnings.is_empty());
}

#[test]
fn law_generated_definitions_read_back_and_pass_the_check() {
    let packages = [
        ResolvedPackage {
            name: "serde-json".to_string(),
            version: "1.0.1".to_string(),
            is_local: false,
            features: vec!["std".to_string()],
            dependencies: vec!["itoa".to_string(), "local".to_string()],
        },
        ResolvedPackage {
            name: "itoa".to_string(),
            version: "1.0.2".to_string(),
            is_local: false,
            features: vec![],
            dependencies: vec![],
        },
        ResolvedPackage {
            name: "local".to_string(),
            version: "0.1.0".to_string(),
            is_local: true,
            features: vec![],
            dependencies: vec![],
        },
    ];
    let manifest = CargoToml {
        package: CargoTomlPackage {
            name: "app".to_string(),
            edition: "2021".to_string(),
        },
        dependencies: vec![],
        lib: None,
        bin: None,
    };
    let (_, third_party) = generate_build_files(&packages, &manifest, false, false);
    let read = parse_build_file(&third_party);
    assert_eq!(read.len(), 2);
    assert_eq!(read[0].name, "serde_json");
    assert_eq!(read[0].crate_name, "serde-json");
    assert_eq!(read[0].deps, vec![":itoa".to_string()]);
    assert_eq!(read[1].version, "1.0.2");
    let required = crate_definitions(&packages, &"app".to_string());
    let report = verify_build_file(&third_party, &required, VerifyMode::Exact);
    assert!(report.errors.is_empty());
}

#[test]
fn law_wiring_again_changes_nothing() {
    let packages = [ResolvedPackage {
        name: "a".to_string(),
        version: "1.0.0".to_string(),
        is_local: false,
        features: vec![],
        dependencies: vec!["b".to_string()],
    }];
    let once = wire_build_file("rust_crate(name = \"a\", version = \"1.0.0\")", &packages);
    let twice = wire_build_file(&once.content, &packages);
    assert_eq!(twice.crates[0].deps, vec![":b".to_string()]);
    assert!(!twice.crates[0].modified);
}

#[test]
fn law_merging_keeps_every_crate() {
    let old = [
        plain_definition("a", "1.0.0", &[]),
        plain_definition("b", "1.0.0", &[]),
    ];
    let new = [
        plain_definition("b", "2.0.0", &[]),
        plain_definition("c", "1.0.0", &[]),
    ];
    for mode in [
        MergeMode::Override,
        MergeMode::UpdateOrExpandOnly,
        MergeMode::Parallel,
    ] {
        let (result, _) = merge_crates(&old, &new, mode);
        for name in ["a", "b", "c"] {
            assert!(result.iter().any(|c| c.crate_name == name));
        }
    }
}

#[test]
fn law_rewritten_file_reads_back() {
    let content = "head\nrust_crate(name = \"b\", version = \"1.0.0\", own = 1)\ntail";
    let new = [plain_definition("a", "1.0.0", &["f"]), plain_definition("b", "1.1.0", &[])];
    let merged = merge_build_file(content, &new, MergeMode::UpdateOrExpandOnly);
    let file = parse_build_file_full(&merged.content);
    assert_eq!(file.header, "head\n");
    assert_eq!(file.trailer, "\n\n\ntail");
    assert_eq!(file.crates.len(), merged.crates.len());
    for (read, written) in file.crates.iter().zip(&merged.crates) {
        assert_eq!(read.name, written.name);
        assert_eq!(read.version, written.version);
        assert_eq!(read.features, written.features);
    }
}

#[test]
fn law_sorting_again_changes_nothing() {
    let crates = vec![
        plain_definition("b", "1.0.0", &[]),
        plain_definition("a", "1.0.0", &[]),
    ];
    let sorted = sort_crates(crates);
    assert_eq!(shown(&sort_crates(sorted.clone())), shown(&sorted));
    assert_eq!(sorted[0].name, "a");
}

#[test]
fn law_overridden_definitions_pass_the_check() {
    let old = [
        plain_definition("a", "1.0.0", &["x"]),
        plain_definition("a", "3.0.0", &[]),
    ];
    let new = [
        plain_definition("a", "2.0.0", &["y"]),
        plain_definition("c", "git", &[]),
    ];
    let (result, _) = merge_crates(&old, &new, MergeMode::Override);
    assert!(verify_crates(&new, &result, VerifyMode::Exact).errors.is_empty());
}

#[test]
fn law_unnamed_blocks_are_kept() {
    let content = "rust_crate(name = \"b\", version = \"1.0.0\")\nrust_crate(own = 1)\n\
                   rust_crate(name = \"a\", version = \"1.0.0\")\n";
    let merged = merge_build_file(content, &[], MergeMode::Parallel);
    assert!(merged.content.contains("rust_crate(own = 1)\n\n"));
    let wired = wire_build_file(content, &[]);
    assert!(wired.content.contains("rust_crate(own = 1)\n\n"));
    assert_eq!(parse_build_file(&merged.content).len(), 2);
}

#[test]
fn law_versions_read_back() {
    for (major, minor, patch) in [(0, 0, 0), (1, 20, 300), (u64::MAX, 7, 10)] {
        assert_eq!(
            parse_semver(&format!("{}.{}.{}", major, minor, patch)),
            Some((major, minor, patch))
        );
        assert_eq!(
            parse_semver(&format!("{}.{}", major, minor)),
            Some((major, minor, 0))
        );
    }
}

#[test]
fn law_further_crates_do_not_matter() {
    let required = [plain_definition("a", "1.0.0", &["x"])];
    let without = [plain_definition("a", "1.0.0", &["y"])];
    let with = [
        plain_definition("b", "git", &[]),
        plain_definition("a", "1.0.0", &["y"]),
        plain_definition("c", "9.0.0", &["x"]),
    ];
    for mode in [VerifyMode::Exact, VerifyMode::Compatible] {
        let x = verify_crates(&required, &without, mode);
        let y = verify_crates(&required, &with, mode);
        assert_eq!(x.errors, y.errors);
        assert_eq!(x.warnings, y.warnings);
        assert!(!x.errors.is_empty());
    }
}

#[test]
fn law_only_third_party_packages_count() {
    let package = |name: &str, is_local: bool| ResolvedPackage {
        name: name.to_string(),
        version: "1.0.0".to_string(),
        is_local,
        features: vec![],
        dependencies: vec!["b".to_string(), "local".to_string(), "app".to_string()],
    };
    let manifest = CargoToml {
        package: CargoTomlPackage {
            name: "app".to_string(),
            edition: "2021".to_string(),
        },
        dependencies: vec!["b".to_string(), "local".to_string()],
        lib: None,
        bin: None,
    };
    let some = [package("a", false), package("b", false)];
    let all = [
        package("app", false),
        package("a", false),
        package("local", true),
        package("b", false),
        package("app", true),
    ];
    assert_eq!(
        generate_build_files(&some, &manifest, true, true),
        generate_build_files(&all, &manifest, true, true)
    );
}

#[test]
fn law_manifest_and_build_file_merge_alike() {
    let packages = [ResolvedPackage {
        name: "a".to_string(),
        version: "1.2.0".to_string(),
        is_local: false,
        features: vec!["f".to_string()],
        dependencies: vec!["b".to_string()],
    }];
    let from_manifest = crate_definitions(&packages, &"app".to_string());
    let from_text = parse_build_file(
        "# straddle_carrier:do_not_touch\nrust_crate(name = \"a\", version = \"1.2.0\", \
         edition = \"2021\", features = [\"f\"], deps = [\":b\"], other = 1)",
    );
    for old in ["", "rust_crate(name = \"old_a\", crate = \"a\", version = \"1.0.0\")\n"] {
        for mode in [
            MergeMode::Override,
            MergeMode::UpdateOrExpandOnly,
            MergeMode::Parallel,
        ] {
            assert_eq!(
                merge_build_file(old, &from_manifest, mode).content,
                merge_build_file(old, &from_text, mode).content
            );
        }
    }
}
