use straddle_carrier::crate_def::{
    copy_optional, crate_name_to_rule_name, generate_crate_block, generate_field_line,
    generate_list_lines, generate_optional_line, CrateDefinition,
};

fn small_definition() -> CrateDefinition {
    CrateDefinition {
        name: "serde_json".to_string(),
        crate_name: "serde-json".to_string(),
        version: "1.0.5".to_string(),
        edition: None,
        features: vec![],
        deps: vec![],
        crate_type: None,
        build_root: None,
        raw_text: String::new(),
        preceding_content: String::new(),
        pinned: false,
        modified: false,
    }
}

#[test]
fn rule_names_have_underscores() {
    assert_eq!(crate_name_to_rule_name("serde-json"), "serde_json");
    assert_eq!(crate_name_to_rule_name("a-b-c"), "a_b_c");
    assert_eq!(crate_name_to_rule_name("tokio"), "tokio");
    assert_eq!(crate_name_to_rule_name(""), "");
    assert_eq!(crate_name_to_rule_name(&crate_name_to_rule_name("x-y")), "x_y");
}

#[test]
fn smallest_block() {
    assert_eq!(
        generate_crate_block(&small_definition()),
        "rust_crate(\n    name = \"serde_json\",\n    crate = \"serde-json\",\n    \
         version = \"1.0.5\",\n)\n"
    );
}

#[test]
fn fullest_block() {
    let mut c = small_definition();
    c.edition = Some("2018".to_string());
    c.crate_type = Some("proc-macro".to_string());
    c.features = vec!["default".to_string(), "std".to_string()];
    c.deps = vec![":itoa".to_string()];
    c.build_root = Some("build.rs".to_string());
    assert_eq!(
        generate_crate_block(&c),
        "rust_crate(\n    name = \"serde_json\",\n    crate = \"serde-json\",\n    \
         version = \"1.0.5\",\n    edition = \"2018\",\n    crate_type = \"proc-macro\",\n    \
         features = [\n        \"default\",\n        \"std\",\n    ],\n    \
         deps = [\n        \":itoa\",\n    ],\n    build_root = \"build.rs\",\n)\n"
    );
}

#[test]
fn lines_of_fields() {
    assert_eq!(generate_field_line("name", "x"), "    name = \"x\",\n");
    assert_eq!(generate_optional_line("edition", &None), "");
    assert_eq!(
        generate_optional_line("edition", &Some("2021".to_string())),
        "    edition = \"2021\",\n"
    );
    assert_eq!(generate_list_lines("deps", &vec![]), "");
    assert_eq!(
        generate_list_lines("deps", &vec![":a".to_string()]),
        "    deps = [\n        \":a\",\n    ],\n"
    );
}

#[test]
fn definition_reads_its_version() {
    let mut c = small_definition();
    assert_eq!(c.parse_semver(), Some((1, 0, 5)));
    c.version = "nightly".to_string();
    assert_eq!(c.parse_semver(), None);
}

#[test]
fn clones_are_equal_in_all_fields() {
    let mut c = small_definition();
    c.edition = Some("2021".to_string());
    c.features = vec!["f".to_string()];
    c.deps = vec![":d".to_string()];
    c.raw_text = "raw".to_string();
    c.preceding_content = "before".to_string();
    c.pinned = true;
    c.modified = true;
    assert_eq!(format!("{:?}", c.clone()), format!("{:?}", c));
    assert_eq!(copy_optional(&c.edition), Some("2021".to_string()));
    assert_eq!(copy_optional(&None), None);
}
