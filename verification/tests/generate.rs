use straddle_carrier::generate::{
    default_edition, detect_project_targets, generate_build_files, CargoBin, CargoLib, CargoToml,
    CargoTomlPackage,
};
use straddle_carrier::metadata::{
    crate_definitions, generate_local_labels, resolve_packages, CargoMetadata, MetadataNode,
    MetadataNodeDep, MetadataPackage, MetadataResolve, ResolvedPackage,
};

fn package_of(name: &str, is_local: bool, features: &[&str], deps: &[&str]) -> ResolvedPackage {
    ResolvedPackage {
        name: name.to_string(),
        version: "1.0.0".to_string(),
        is_local,
        features: features.iter().map(|f| f.to_string()).collect(),
        dependencies: deps.iter().map(|d| d.to_string()).collect(),
    }
}

fn manifest_of(lib: bool, bins: Option<&[&str]>, dependencies: &[&str]) -> CargoToml {
    CargoToml {
        package: CargoTomlPackage {
            name: "my-app".to_string(),
            edition: "2018".to_string(),
        },
        dependencies: dependencies.iter().map(|d| d.to_string()).collect(),
        lib: if lib { Some(CargoLib { name: None, path: None }) } else { None },
        bin: bins.map(|names| {
            names
                .iter()
                .map(|n| CargoBin { name: n.to_string(), path: None })
                .collect()
        }),
    }
}

fn metadata_package(id: &str, name: &str, source: Option<&str>) -> MetadataPackage {
    MetadataPackage {
        name: name.to_string(),
        version: "1.0.0".to_string(),
        id: id.to_string(),
        source: source.map(|s| s.to_string()),
    }
}

#[test]
fn edition_of_a_package_without_one() {
    assert_eq!(default_edition(), "2021");
}

#[test]
fn targets_of_projects() {
    let both = detect_project_targets(&manifest_of(true, Some(&["x", "y"]), &[]), false, false);
    assert!(both.has_lib && both.has_bin);
    assert_eq!(both.bin_names, vec!["x".to_string(), "y".to_string()]);
    let default = detect_project_targets(&manifest_of(false, None, &[]), true, true);
    assert!(default.has_lib && default.has_bin);
    assert_eq!(default.bin_names, vec!["my-app".to_string()]);
    let listed = detect_project_targets(&manifest_of(false, Some(&["x"]), &[]), false, true);
    assert!(!listed.has_lib && listed.has_bin);
    assert_eq!(listed.bin_names, vec!["x".to_string()]);
    let none = detect_project_targets(&manifest_of(false, Some(&[]), &[]), false, false);
    assert!(!none.has_lib && !none.has_bin);
    assert_eq!(none.bin_names, Vec::<String>::new());
}

#[test]
fn build_file_of_a_library_and_a_binary() {
    let packages = [
        package_of("my-app", true, &[], &["serde-json", "local"]),
        package_of("serde-json", false, &["std"], &["itoa", "local", "my-app"]),
        package_of("itoa", false, &[], &[]),
        package_of("local", true, &[], &[]),
    ];
    let manifest = manifest_of(true, None, &["serde-json", "local", "other"]);
    let (package, third_party) = generate_build_files(&packages, &manifest, false, true);
    assert_eq!(
        package,
        "subinclude(\"//build_defs:rust\")\n\n\
         rust_library(\n    name = \"my_app\",\n    root = \"src/lib.rs\",\n    \
         edition = \"2018\",\n    deps = [\n        \"//third_party/rust:serde_json\",\n    ],\n)\n\n\
         rust_binary(\n    name = \"my_app\",\n    main = \"src/main.rs\",\n    \
         edition = \"2018\",\n    deps = [\n        \":my_app\",\n        \
         \"//third_party/rust:serde_json\",\n    ],\n)\n\n"
    );
    assert_eq!(
        third_party,
        "rust_crate(\n    name = \"serde_json\",\n    crate = \"serde-json\",\n    \
         version = \"1.0.0\",\n    edition = \"2021\",\n    features = [\n        \"std\",\n    ],\n    \
         deps = [\n        \":itoa\",\n    ],\n)\n\n\
         rust_crate(\n    name = \"itoa\",\n    crate = \"itoa\",\n    version = \"1.0.0\",\n    \
         edition = \"2021\",\n)\n\n"
    );
}

#[test]
fn build_file_of_a_binary_alone() {
    let (package, third_party) =
        generate_build_files(&[], &manifest_of(false, Some(&["b-1"]), &["x"]), false, false);
    assert_eq!(
        package,
        "subinclude(\"//build_defs:rust\")\n\n\
         rust_binary(\n    name = \"b_1\",\n    main = \"src/main.rs\",\n    \
         edition = \"2018\",\n)\n\n"
    );
    assert_eq!(third_party, "");
}

#[test]
fn root_package_is_left_out_even_if_it_has_a_source() {
    let packages = [package_of("my-app", false, &[], &[])];
    let (_, third_party) = generate_build_files(&packages, &manifest_of(false, None, &[]), false, false);
    assert_eq!(third_party, "");
    assert_eq!(crate_definitions(&packages, &"my-app".to_string()).len(), 0);
}

#[test]
fn packages_of_the_resolved_graph() {
    let metadata = CargoMetadata {
        packages: vec![
            metadata_package("1", "root", None),
            metadata_package("2", "first", Some("registry")),
            metadata_package("2", "dep", Some("registry")),
            metadata_package("3", "unused", Some("registry")),
        ],
        resolve: Some(MetadataResolve {
            nodes: vec![
                MetadataNode {
                    id: "2".to_string(),
                    features: vec!["std".to_string()],
                    deps: vec![],
                },
                MetadataNode { id: "9".to_string(), features: vec![], deps: vec![] },
                MetadataNode {
                    id: "1".to_string(),
                    features: vec![],
                    deps: vec![MetadataNodeDep {
                        name: "dep".to_string(),
                        pkg: "2".to_string(),
                    }],
                },
            ],
        }),
    };
    let packages = resolve_packages(&metadata);
    assert_eq!(packages.len(), 2);
    assert_eq!(packages[0].name, "dep");
    assert!(!packages[0].is_local);
    assert_eq!(packages[0].features, vec!["std".to_string()]);
    assert_eq!(packages[1].name, "root");
    assert!(packages[1].is_local);
    assert_eq!(packages[1].dependencies, vec!["dep".to_string()]);
}

#[test]
fn unresolved_metadata_has_no_packages() {
    let metadata = CargoMetadata {
        packages: vec![metadata_package("1", "root", None)],
        resolve: None,
    };
    assert_eq!(resolve_packages(&metadata).len(), 0);
}

#[test]
fn definitions_of_packages() {
    let packages = [
        package_of("local", true, &[], &[]),
        package_of("a-b", false, &["x"], &["c-d", "local"]),
    ];
    let crates = crate_definitions(&packages, &"root".to_string());
    assert_eq!(crates.len(), 1);
    assert_eq!(crates[0].name, "a_b");
    assert_eq!(crates[0].crate_name, "a-b");
    assert_eq!(crates[0].version, "1.0.0");
    assert_eq!(crates[0].edition, Some("2021".to_string()));
    assert_eq!(crates[0].features, vec!["x".to_string()]);
    assert_eq!(crates[0].deps, vec![":c_d".to_string(), ":local".to_string()]);
    assert_eq!(crates[0].raw_text, "");
    assert!(!crates[0].modified && !crates[0].pinned);
}

#[test]
fn labels_of_local_rules() {
    assert_eq!(
        generate_local_labels(&vec!["a-b".to_string(), "c".to_string()]),
        vec![":a_b".to_string(), ":c".to_string()]
    );
}

#[test]
fn hyphenated_dependencies_are_labelled() {
    let node = |id: &str, deps: &[(&str, &str)]| MetadataNode {
        id: id.to_string(),
        features: vec![],
        deps: deps
            .iter()
            .map(|(name, pkg)| MetadataNodeDep {
                name: name.to_string(),
                pkg: pkg.to_string(),
            })
            .collect(),
    };
    let metadata = CargoMetadata {
        packages: vec![
            metadata_package("1", "a", Some("registry")),
            metadata_package("2", "foo-bar", Some("registry")),
            metadata_package("3", "md-5", Some("registry")),
        ],
        resolve: Some(MetadataResolve {
            nodes: vec![
                node("1", &[("foo_bar", "2"), ("md5", "3"), ("gone", "9")]),
                node("2", &[]),
                node("3", &[]),
            ],
        }),
    };
    let packages = resolve_packages(&metadata);
    assert_eq!(
        packages[0].dependencies,
        vec!["foo-bar".to_string(), "md-5".to_string(), "gone".to_string()]
    );
    let (_, third_party) = generate_build_files(&packages, &manifest_of(false, None, &[]), false, false);
    assert!(third_party.starts_with(
        "rust_crate(\n    name = \"a\",\n    crate = \"a\",\n    version = \"1.0.0\",\n    \
         edition = \"2021\",\n    deps = [\n        \":foo_bar\",\n        \":md_5\",\n    ],\n)\n\n"
    ));
}

#[test]
fn dependencies_are_matched_by_exact_name() {
    let packages = [
        package_of("a_b", true, &[], &[]),
        package_of("a-b", false, &[], &[]),
        package_of("c", false, &[], &["a_b"]),
    ];
    let (package, third_party) =
        generate_build_files(&packages, &manifest_of(true, None, &["a_b"]), false, false);
    assert_eq!(
        package,
        "subinclude(\"//build_defs:rust\")\n\n\
         rust_library(\n    name = \"my_app\",\n    root = \"src/lib.rs\",\n    \
         edition = \"2018\",\n)\n\n"
    );
    assert!(!third_party.contains("deps"));
    let (package, _) =
        generate_build_files(&packages, &manifest_of(true, None, &["a-b"]), false, false);
    assert!(package.contains("    deps = [\n        \"//third_party/rust:a_b\",\n    ],\n"));
}
