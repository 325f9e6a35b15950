use straddle_carrier::build_file::{
    extract_list_field, extract_string_field, generate_kept_trailer, items_after, parse_build_file,
    parse_build_file_full, parse_single_crate, render_build_file, take_until_bracket,
    take_until_quote, value_after,
};

const FILE: &str = "subinclude(\"//build_defs:rust\")\n\n\
    rust_crate(\n    name = \"libc\",\n    version = \"0.2.150\",\n)\n\n\
    # straddle_carrier:do_not_touch\n\
    rust_crate(\n    name = \"serde_1\",\n    crate = \"serde\",\n    version = \"1.0.1\",\n    \
    edition = \"2021\",\n    features = [\"derive\", \"std\"],\n    deps = [\n        \
    \":serde_derive\",\n    ],\n    download = glob([\"x\"]),\n)\n\
    filegroup(name = \"end\")\n";

#[test]
fn file_with_two_crates() {
    let file = parse_build_file_full(FILE);
    assert_eq!(file.header, "subinclude(\"//build_defs:rust\")\n\n");
    assert_eq!(file.trailer, "\nfilegroup(name = \"end\")\n");
    assert_eq!(file.crates.len(), 2);
    let libc = &file.crates[0];
    assert_eq!(libc.name, "libc");
    assert_eq!(libc.crate_name, "libc");
    assert_eq!(libc.version, "0.2.150");
    assert_eq!(libc.edition, None);
    assert_eq!(libc.features, Vec::<String>::new());
    assert_eq!(
        libc.raw_text,
        "rust_crate(\n    name = \"libc\",\n    version = \"0.2.150\",\n)"
    );
    assert_eq!(libc.preceding_content, file.header);
    assert!(!libc.pinned);
    let serde = &file.crates[1];
    assert_eq!(serde.name, "serde_1");
    assert_eq!(serde.crate_name, "serde");
    assert_eq!(serde.edition, Some("2021".to_string()));
    assert_eq!(serde.features, vec!["derive".to_string(), "std".to_string()]);
    assert_eq!(serde.deps, vec![":serde_derive".to_string()]);
    assert_eq!(serde.preceding_content, "\n\n# straddle_carrier:do_not_touch\n");
    assert!(serde.raw_text.ends_with("download = glob([\"x\"]),\n)"));
    assert!(serde.pinned);
    assert!(!serde.modified);
}

#[test]
fn file_without_crates_is_all_header() {
    let file = parse_build_file_full("genrule(name = \"x\")\n");
    assert_eq!(file.crates.len(), 0);
    assert_eq!(file.header, "genrule(name = \"x\")\n");
    assert_eq!(file.trailer, "");
    assert_eq!(parse_build_file_full("").header, "");
    assert_eq!(parse_build_file_full("").trailer, "");
}

#[test]
fn pin_comments() {
    let pinned = |comment: &str| {
        let content = format!("{}\nrust_crate(name = \"a\")", comment);
        parse_build_file(&content)[0].pinned
    };
    assert!(pinned("# straddle_carrier:do_not_touch"));
    assert!(pinned("#straddle_carrier:do_not_touch"));
    assert!(pinned("; \t straddle_carrier:do_not_touch please"));
    assert!(pinned("##\n straddle_carrier:do_not_touch"));
    assert!(!pinned("straddle_carrier:do_not_touch"));
    assert!(!pinned("# straddle_carrier: do_not_touch"));
    assert!(!pinned("# x straddle_carrier:do_not_touch"));
}

#[test]
fn block_without_name_is_text() {
    let file = parse_build_file_full("a rust_crate(version = \"1.0.0\") b rust_crate(name=\"x\") c");
    assert_eq!(file.crates.len(), 1);
    assert_eq!(file.crates[0].name, "x");
    assert_eq!(file.header, "a rust_crate(version = \"1.0.0\") b ");
    assert_eq!(file.crates[0].preceding_content, file.header);
    assert_eq!(file.trailer, " c");
    let alone = parse_build_file_full("# x\nrust_crate(version = \"1.0.0\")\n");
    assert_eq!(alone.crates.len(), 0);
    assert_eq!(alone.header, "# x\nrust_crate(version = \"1.0.0\")\n");
    assert_eq!(alone.trailer, "");
    let after = parse_build_file_full("rust_crate(name = \"x\")\nrust_crate()\nend");
    assert_eq!(after.crates.len(), 1);
    assert_eq!(after.trailer, "\nrust_crate()\nend");
}

#[test]
fn blocks_without_name_between_crates_are_kept() {
    let file = parse_build_file_full(
        "rust_crate(name = \"x\")\nrust_crate(f(1))\n# n\nrust_crate()\nrust_crate(name = \"y\")\nend",
    );
    assert_eq!(file.crates.len(), 2);
    assert_eq!(
        file.crates[1].preceding_content,
        "\nrust_crate(f(1))\n# n\nrust_crate()\n"
    );
    assert_eq!(
        generate_kept_trailer(&file),
        "rust_crate(f(1))\n\nrust_crate()\n\n\nend"
    );
}

#[test]
fn pin_of_a_block_without_name_is_its_own() {
    let crates = parse_build_file(
        "# straddle_carrier:do_not_touch\nrust_crate()\nrust_crate(name = \"a\")",
    );
    assert!(!crates[0].pinned);
    let crates = parse_build_file(
        "rust_crate()\n# straddle_carrier:do_not_touch\nrust_crate(name = \"a\")",
    );
    assert!(crates[0].pinned);
}

#[test]
fn values_after_offsets() {
    assert_eq!(value_after("é = \"v\" w", 6), Some("v".to_string()));
    assert_eq!(value_after("abc", 3), None);
    assert_eq!(items_after("[\"é\", \"b\"] \"c\"", 1), vec!["é".to_string(), "b".to_string()]);
    assert_eq!(items_after("\"a\"", 0), Vec::<String>::new());
}

#[test]
fn block_that_is_not_closed_reaches_to_the_end() {
    let file = parse_build_file_full("rust_crate(name = \"x\", f(");
    assert_eq!(file.crates[0].raw_text, "rust_crate(name = \"x\", f(");
    assert_eq!(file.trailer, "");
}

#[test]
fn content_beyond_ascii() {
    let file = parse_build_file_full("# é│\nrust_crate(name = \"ü\", features = [\"é\", \"b\"])\n# ß");
    assert_eq!(file.header, "# é│\n");
    assert_eq!(file.crates[0].name, "ü");
    assert_eq!(file.crates[0].features, vec!["é".to_string(), "b".to_string()]);
    assert_eq!(
        file.crates[0].raw_text,
        "rust_crate(name = \"ü\", features = [\"é\", \"b\"])"
    );
    assert_eq!(file.trailer, "\n# ß");
}

#[test]
fn defaults_of_a_single_crate() {
    let c = parse_single_crate("rust_crate(name = \"a\")").unwrap();
    assert_eq!(c.crate_name, "a");
    assert_eq!(c.version, "0.0.0");
    assert_eq!(c.edition, None);
    assert_eq!(c.crate_type, None);
    assert_eq!(c.build_root, None);
    assert_eq!(c.raw_text, "rust_crate(name = \"a\")");
    assert_eq!(c.preceding_content, "");
    assert!(parse_single_crate("rust_crate()").is_none());
}

#[test]
fn string_fields() {
    assert_eq!(extract_string_field("name = \"v\"", "name"), Some("v".to_string()));
    assert_eq!(extract_string_field("name=\"v\"", "name"), Some("v".to_string()));
    assert_eq!(extract_string_field("name \n=\t \"v\"", "name"), Some("v".to_string()));
    assert_eq!(extract_string_field("name = \"\"", "name"), Some(String::new()));
    assert_eq!(extract_string_field("name = \"v", "name"), None);
    assert_eq!(extract_string_field("name = v", "name"), None);
    assert_eq!(extract_string_field("other = \"v\"", "name"), None);
    assert_eq!(extract_string_field("nickname = \"v\"", "name"), Some("v".to_string()));
    assert_eq!(
        extract_string_field("name = x, name = \"v\", name = \"w\"", "name"),
        Some("v".to_string())
    );
}

#[test]
fn list_fields() {
    let ab = vec!["a".to_string(), "b".to_string()];
    assert_eq!(extract_list_field("f = [\"a\", \"b\"]", "f"), ab);
    assert_eq!(extract_list_field("f=[\n\"a\",\n\"b\",\n]", "f"), ab);
    assert_eq!(extract_list_field("f = [[\"a\"], \"b\"], g = [\"c\"]", "f"), ab);
    assert_eq!(extract_list_field("f = []", "f"), Vec::<String>::new());
    assert_eq!(extract_list_field("f = [\"a\"", "f"), Vec::<String>::new());
    assert_eq!(extract_list_field("g = [\"a\"]", "f"), Vec::<String>::new());
    assert_eq!(extract_list_field("f = [\"a\", \"]\"]", "f"), vec!["a".to_string()]);
}

#[test]
fn fields_that_are_patterns() {
    assert_eq!(
        extract_string_field("ab = \"x\"", "a."),
        Some("x".to_string())
    );
    assert_eq!(extract_string_field("ab = \"x\"", "("), None);
    assert_eq!(
        extract_list_field("ab = [\"x\"]", "[ab]+"),
        vec!["x".to_string()]
    );
    assert_eq!(extract_list_field("ab = [\"x\"]", "["), Vec::<String>::new());
}

#[test]
fn ends_of_values() {
    assert_eq!(take_until_quote("abc\"d\""), Some("abc".to_string()));
    assert_eq!(take_until_quote("abc"), None);
    assert_eq!(take_until_bracket("a[b]c]d"), "a[b]c");
    assert_eq!(take_until_bracket("a[b]c"), "");
}

#[test]
fn rendering_keeps_unmodified_blocks() {
    let mut file = parse_build_file_full(FILE);
    let written = render_build_file(&file.header, &file.crates, &file.trailer);
    assert_eq!(
        written,
        format!(
            "{}{}\n\n{}\n\n{}",
            file.header, file.crates[0].raw_text, file.crates[1].raw_text, file.trailer
        )
    );
    file.crates[1].modified = true;
    file.crates[0].raw_text = String::new();
    let written = render_build_file("", &file.crates, "end");
    assert_eq!(
        written,
        "rust_crate(\n    name = \"libc\",\n    crate = \"libc\",\n    version = \"0.2.150\",\n)\n\n\
         rust_crate(\n    name = \"serde_1\",\n    crate = \"serde\",\n    version = \"1.0.1\",\n    \
         edition = \"2021\",\n    features = [\n        \"derive\",\n        \"std\",\n    ],\n    \
         deps = [\n        \":serde_derive\",\n    ],\n)\n\nend"
    );
}

#[test]
fn empty_fields() {
    assert_eq!(extract_string_field("x = \"v\"", ""), Some("v".to_string()));
    assert_eq!(extract_string_field("x = v", ""), None);
    assert_eq!(extract_list_field("x=[\"a\"]", ""), vec!["a".to_string()]);
}

#[test]
fn long_fields() {
    let long = format!("x{}", "w".repeat(199_999));
    assert_eq!(
        extract_string_field(&format!("{} = \"v\"", long), &long),
        Some("v".to_string())
    );
    assert_eq!(
        extract_list_field(&format!("{} = [\"v\"]", long), &long),
        vec!["v".to_string()]
    );
    let too_long = "w".repeat(655_360);
    assert_eq!(extract_string_field(&format!("{} = \"v\"", too_long), &too_long), None);
    assert_eq!(
        extract_list_field(&format!("{} = [\"v\"]", too_long), &too_long),
        Vec::<String>::new()
    );
}
