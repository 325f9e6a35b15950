use straddle_carrier::build_file::parse_build_file;
use straddle_carrier::metadata::ResolvedPackage;
use straddle_carrier::wire::{
    count_outcomes, count_resolved, describe_outcome, generate_resolver_manifest, wire_build_file,
    wire_dependencies, WireOutcome,
};

fn resolved_package(name: &str, version: &str, is_local: bool, deps: &[&str]) -> ResolvedPackage {
    ResolvedPackage {
        name: name.to_string(),
        version: version.to_string(),
        is_local,
        features: vec![],
        dependencies: deps.iter().map(|d| d.to_string()).collect(),
    }
}

#[test]
fn manifest_that_resolves_the_crates() {
    let crates = parse_build_file(
        "rust_crate(name = \"a_b\", crate = \"a-b\", version = \"1.0.0\")\n\
         rust_crate(name = \"c\", version = \"2.0.1\")",
    );
    assert_eq!(
        generate_resolver_manifest(&crates),
        "[package]\nname = \"temp_dep_resolver\"\nversion = \"0.1.0\"\nedition = \"2021\"\n\n\
         [lib]\npath = \"lib.rs\"\n\n[dependencies]\na-b = \"=1.0.0\"\nc = \"=2.0.1\"\n"
    );
}

#[test]
fn names_and_versions_are_counted_once() {
    let packages = [
        resolved_package("a", "1.0.0", false, &[]),
        resolved_package("a", "2.0.0", false, &[]),
        resolved_package("a", "1.0.0", false, &["b"]),
        resolved_package("b", "1.0.0", true, &[]),
    ];
    assert_eq!(count_resolved(&packages), 2);
    assert_eq!(count_resolved(&[]), 0);
}

#[test]
fn outcomes_of_wiring() {
    let content = "# straddle_carrier:do_not_touch\n\
        rust_crate(name = \"p\", version = \"1.0.0\")\n\
        rust_crate(name = \"u\", version = \"1.0.0\", deps = [\":x\"])\n\
        rust_crate(name = \"s\", version = \"1.0.0\", deps = [\":b_c\", \":a\"])\n\
        rust_crate(name = \"n\", version = \"1.0.0\")\n\
        rust_crate(name = \"l\", version = \"1.0.0\")\n";
    let packages = [
        resolved_package("p", "1.0.0", false, &["q"]),
        resolved_package("u", "1.0.0", false, &["a", "b-c"]),
        resolved_package("s", "1.0.0", false, &["a", "b-c", "a"]),
        resolved_package("n", "1.0.1", false, &["a"]),
        resolved_package("l", "1.0.0", true, &["a"]),
    ];
    let crates = parse_build_file(content);
    let (wired, outcomes) = wire_dependencies(&crates, &packages);
    assert_eq!(
        outcomes,
        vec![
            WireOutcome::Pinned,
            WireOutcome::Updated { before: 1, after: 2 },
            WireOutcome::Unchanged,
            WireOutcome::Unresolved,
            WireOutcome::Unresolved,
        ]
    );
    assert_eq!(wired[0].deps, Vec::<String>::new());
    assert_eq!(wired[1].deps, vec![":a".to_string(), ":b_c".to_string()]);
    assert!(wired[1].modified);
    assert_eq!(wired[2].deps, vec![":b_c".to_string(), ":a".to_string()]);
    assert!(!wired[2].modified);
    let (again, outcomes) = wire_dependencies(&wired, &packages);
    assert_eq!(format!("{:?}", again), format!("{:?}", wired));
    assert_eq!(outcomes[1], WireOutcome::Unchanged);
}

#[test]
fn last_resolved_package_counts() {
    let crates = parse_build_file("rust_crate(name = \"a\", version = \"1.0.0\")");
    let packages = [
        resolved_package("a", "1.0.0", false, &["x"]),
        resolved_package("a", "1.0.0", false, &["y"]),
        resolved_package("a", "1.0.0", true, &["z"]),
    ];
    let (wired, _) = wire_dependencies(&crates, &packages);
    assert_eq!(wired[0].deps, vec![":y".to_string()]);
}

#[test]
fn wiring_a_file() {
    let content = "head\nrust_crate(name = \"a\", version = \"1.0.0\", extra = 1)\n\
                   rust_crate(name = \"b\", version = \"1.0.0\", extra = 2)\ntail";
    let packages = [resolved_package("b", "1.0.0", false, &["a"])];
    let wired = wire_build_file(content, &packages);
    assert_eq!(
        wired.content,
        "head\nrust_crate(name = \"a\", version = \"1.0.0\", extra = 1)\n\n\
         rust_crate(\n    name = \"b\",\n    crate = \"b\",\n    version = \"1.0.0\",\n    \
         deps = [\n        \":a\",\n    ],\n)\n\n\ntail"
    );
    assert_eq!(wired.crates.len(), 2);
    assert_eq!(
        wired.outcomes,
        vec![
            WireOutcome::Unresolved,
            WireOutcome::Updated { before: 0, after: 1 }
        ]
    );
}

#[test]
fn messages_about_outcomes() {
    let c = &parse_build_file("rust_crate(name = \"a_b\", crate = \"a-b\", version = \"1.0.0\")")[0];
    assert_eq!(
        describe_outcome(c, WireOutcome::Pinned),
        Some("Skipping pinned crate: a_b".to_string())
    );
    assert_eq!(
        describe_outcome(c, WireOutcome::Updated { before: 2, after: 10 }),
        Some("Updating deps for a_b: 2 -> 10 dependencies".to_string())
    );
    assert_eq!(describe_outcome(c, WireOutcome::Unchanged), None);
    assert_eq!(
        describe_outcome(c, WireOutcome::Unresolved),
        Some("Warning: No resolved dependencies found for a-b v1.0.0".to_string())
    );
}

#[test]
fn outcomes_are_counted() {
    let outcomes = vec![
        WireOutcome::Pinned,
        WireOutcome::Updated { before: 0, after: 1 },
        WireOutcome::Unchanged,
        WireOutcome::Updated { before: 1, after: 1 },
        WireOutcome::Updated { before: 3, after: 0 },
    ];
    assert_eq!(count_outcomes(&outcomes), (3, 1));
    assert_eq!(count_outcomes(&vec![]), (0, 0));
}
