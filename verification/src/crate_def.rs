//! `rust_crate` definitions and the text of their blocks.

use crate::semver::{parse_semver, semver};
use crate::text::{copy_texts, replace_char, replaced};
use vstd::prelude::*;

verus! {

/// A `rust_crate` definition of a BUILD file.
#[derive(Debug)]
pub struct CrateDefinition {
    pub name: String,
    pub crate_name: String,
    pub version: String,
    pub edition: Option<String>,
    pub features: Vec<String>,
    pub deps: Vec<String>,
    pub crate_type: Option<String>,
    pub build_root: Option<String>,
    /// The raw text of the entire `rust_crate(...)` block.
    pub raw_text: String,
    /// Content before this crate (comments, `rust_crate_download`, etc.).
    pub preceding_content: String,
    /// Whether this crate is pinned (has a `# straddle_carrier:do_not_touch` comment).
    pub pinned: bool,
    /// Whether this crate was modified during a merge.
    pub modified: bool,
}

/// What a [`CrateDefinition`] says.
#[verifier::ext_equal]
pub struct CrateSpec {
    pub name: Seq<char>,
    pub crate_name: Seq<char>,
    pub version: Seq<char>,
    pub edition: Option<Seq<char>>,
    pub features: Seq<Seq<char>>,
    pub deps: Seq<Seq<char>>,
    pub crate_type: Option<Seq<char>>,
    pub build_root: Option<Seq<char>>,
    pub raw_text: Seq<char>,
    pub preceding_content: Seq<char>,
    pub pinned: bool,
    pub modified: bool,
}

impl DeepView for CrateDefinition {
    type V = CrateSpec;

    open spec fn deep_view(&self) -> CrateSpec {
        CrateSpec {
            name: self.name@,
            crate_name: self.crate_name@,
            version: self.version@,
            edition: self.edition.deep_view(),
            features: self.features.deep_view(),
            deps: self.deps.deep_view(),
            crate_type: self.crate_type.deep_view(),
            build_root: self.build_root.deep_view(),
            raw_text: self.raw_text@,
            preceding_content: self.preceding_content@,
            pinned: self.pinned,
            modified: self.modified,
        }
    }
}

impl View for CrateDefinition {
    type V = CrateSpec;

    open spec fn view(&self) -> CrateSpec {
        self.deep_view()
    }
}

/// A copy of an optional text.
pub fn copy_optional(text: &Option<String>) -> (copy: Option<String>)
    ensures
        copy.deep_view() == text.deep_view(),
{
    match text {
        Some(value) => Some(value.clone()),
        None => None,
    }
}

impl Clone for CrateDefinition {
    fn clone(&self) -> (copy: Self)
        ensures
            copy@ == self@,
    {
        CrateDefinition {
            name: self.name.clone(),
            crate_name: self.crate_name.clone(),
            version: self.version.clone(),
            edition: copy_optional(&self.edition),
            features: copy_texts(&self.features),
            deps: copy_texts(&self.deps),
            crate_type: copy_optional(&self.crate_type),
            build_root: copy_optional(&self.build_root),
            raw_text: self.raw_text.clone(),
            preceding_content: self.preceding_content.clone(),
            pinned: self.pinned,
            modified: self.modified,
        }
    }
}

impl CrateDefinition {
    /// Reads the crate's version into (major, minor, patch).
    pub fn parse_semver(&self) -> (result: Option<(u64, u64, u64)>)
        ensures
            result == semver(self@.version),
    {
        parse_semver(self.version.as_str())
    }
}

/// The rule name of a crate: its name with underscores for hyphens.
pub open spec fn rule_name(crate_name: Seq<char>) -> Seq<char> {
    replaced(crate_name, '-', '_')
}

/// The line `field = "value",` of a block.
pub open spec fn field_line(field: Seq<char>, value: Seq<char>) -> Seq<char> {
    "    "@ + field + " = \""@ + value + "\",\n"@
}

/// The line of a field that may be left out.
pub open spec fn optional_line(field: Seq<char>, value: Option<Seq<char>>) -> Seq<char> {
    match value {
        Some(text) => field_line(field, text),
        None => Seq::empty(),
    }
}

/// The lines of a list's items.
pub open spec fn item_lines(items: Seq<Seq<char>>) -> Seq<char>
    decreases items.len(),
{
    if items.len() == 0 {
        Seq::empty()
    } else {
        item_lines(items.drop_last()) + ("        \""@ + items.last() + "\",\n"@)
    }
}

/// The lines of a list field; an empty list has none.
pub open spec fn list_lines(field: Seq<char>, items: Seq<Seq<char>>) -> Seq<char> {
    if items.len() == 0 {
        Seq::empty()
    } else {
        "    "@ + field + " = [\n"@ + item_lines(items) + "    ],\n"@
    }
}

/// The `rust_crate` block of a definition.
pub open spec fn crate_block(c: CrateSpec) -> Seq<char> {
    "rust_crate(\n"@ + field_line("name"@, c.name) + field_line("crate"@, c.crate_name)
        + field_line("version"@, c.version) + optional_line("edition"@, c.edition) + optional_line(
        "crate_type"@,
        c.crate_type,
    ) + list_lines("features"@, c.features) + list_lines("deps"@, c.deps) + optional_line(
        "build_root"@,
        c.build_root,
    ) + ")\n"@
}

/// The rule name of a crate: its name with underscores for hyphens.
pub fn crate_name_to_rule_name(crate_name: &str) -> (name: String)
    ensures
        name@ == rule_name(crate_name@),
{
    replace_char(crate_name, '-', '_')
}

/// The line `field = "value",` of a block.
pub fn generate_field_line(field: &str, value: &str) -> (line: String)
    ensures
        line@ == field_line(field@, value@),
{
    let mut line = "    ".to_string();
    line.append(field);
    line.append(" = \"");
    line.append(value);
    line.append("\",\n");
    line
}

/// The line of a field that may be left out.
pub fn generate_optional_line(field: &str, value: &Option<String>) -> (line: String)
    ensures
        line@ == optional_line(field@, value.deep_view()),
{
    match value {
        Some(text) => generate_field_line(field, text.as_str()),
        None => String::new(),
    }
}

/// The lines of a list field; an empty list has none.
pub fn generate_list_lines(field: &str, items: &Vec<String>) -> (lines: String)
    ensures
        lines@ == list_lines(field@, items.deep_view()),
{
    if items.len() == 0 {
        return String::new();
    }
    let mut inner = String::new();
    for i in 0..items.len()
        invariant
            inner@ == item_lines(items.deep_view().take(i as int)),
    {
        assert(items.deep_view().take(i + 1).drop_last() =~= items.deep_view().take(i as int));
        let mut line = "        \"".to_string();
        line.append(items[i].as_str());
        line.append("\",\n");
        inner.append(line.as_str());
    }
    assert(items.deep_view().take(items.len() as int) =~= items.deep_view());
    let mut lines = "    ".to_string();
    lines.append(field);
    lines.append(" = [\n");
    lines.append(inner.as_str());
    lines.append("    ],\n");
    lines
}

/// The `rust_crate` block of a definition.
pub fn generate_crate_block(crate_def: &CrateDefinition) -> (output: String)
    ensures
        output@ == crate_block(crate_def@),
{
    let mut output = "rust_crate(\n".to_string();
    output.append(generate_field_line("name", crate_def.name.as_str()).as_str());
    output.append(generate_field_line("crate", crate_def.crate_name.as_str()).as_str());
    output.append(generate_field_line("version", crate_def.version.as_str()).as_str());
    output.append(generate_optional_line("edition", &crate_def.edition).as_str());
    output.append(generate_optional_line("crate_type", &crate_def.crate_type).as_str());
    output.append(generate_list_lines("features", &crate_def.features).as_str());
    output.append(generate_list_lines("deps", &crate_def.deps).as_str());
    output.append(generate_optional_line("build_root", &crate_def.build_root).as_str());
    output.append(")\n");
    output
}

/// A rule name holds no hyphen, and is its own rule name.
pub proof fn rule_name_has_no_hyphen(crate_name: Seq<char>)
    ensures
        !rule_name(crate_name).contains('-'),
        rule_name(rule_name(crate_name)) == rule_name(crate_name),
        rule_name(crate_name).len() == crate_name.len(),
        !crate_name.contains('-') ==> rule_name(crate_name) == crate_name,
{
    let name = rule_name(crate_name);
    assert forall|i: int| 0 <= i < name.len() implies #[trigger] name[i] != '-' by {}
    assert(rule_name(name) =~= name);
    if !crate_name.contains('-') {
        assert forall|i: int| 0 <= i < name.len() implies name[i] == #[trigger] crate_name[i] by {
            assert(crate_name.contains(crate_name[i]));
        }
        assert(name =~= crate_name);
    }
}

} // verus!
