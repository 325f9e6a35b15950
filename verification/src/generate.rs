//! BUILD files for a Cargo project: its own rules and its third-party crates.

use crate::crate_def::{
    crate_name_to_rule_name, field_line, generate_field_line, generate_list_lines, list_lines,
    rule_name,
};
use crate::metadata::{is_third_party, PackageSpec, ResolvedPackage};
use crate::text::lemma_filter_step;
use vstd::prelude::*;

verus! {

/// The `[package]` section of a Cargo.toml.
#[derive(Debug)]
pub struct CargoTomlPackage {
    pub name: String,
    pub edition: String,
}

/// The `[lib]` section of a Cargo.toml.
#[derive(Debug)]
pub struct CargoLib {
    pub name: Option<String>,
    pub path: Option<String>,
}

/// A `[[bin]]` section of a Cargo.toml.
#[derive(Debug)]
pub struct CargoBin {
    pub name: String,
    pub path: Option<String>,
}

/// A minimal Cargo.toml: of the dependencies, the names, each once.
#[derive(Debug)]
pub struct CargoToml {
    pub package: CargoTomlPackage,
    pub dependencies: Vec<String>,
    pub lib: Option<CargoLib>,
    pub bin: Option<Vec<CargoBin>>,
}

/// What kind of targets a project has.
#[derive(Debug)]
pub struct ProjectTargets {
    pub has_lib: bool,
    pub has_bin: bool,
    pub bin_names: Vec<String>,
}

/// What a [`CargoBin`] says.
pub struct CargoBinSpec {
    pub name: Seq<char>,
    pub path: Option<Seq<char>>,
}

impl DeepView for CargoBin {
    type V = CargoBinSpec;

    open spec fn deep_view(&self) -> CargoBinSpec {
        CargoBinSpec { name: self.name@, path: self.path.deep_view() }
    }
}

/// The edition of a package that names none.
pub fn default_edition() -> (edition: String)
    ensures
        edition@ == "2021"@,
{
    "2021".to_string()
}

/// The names of the binaries that a Cargo.toml lists.
pub open spec fn listed_bins(cargo_toml: CargoToml) -> Seq<Seq<char>> {
    match cargo_toml.bin {
        Some(bins) => bins.deep_view().map_values(|bin: CargoBinSpec| bin.name),
        None => Seq::empty(),
    }
}

/// The names of the project's binaries: those that are listed, or else the package's own if
/// there is a `src/main.rs`.
pub open spec fn bin_names(cargo_toml: CargoToml, has_main_rs: bool) -> Seq<Seq<char>> {
    if has_main_rs && listed_bins(cargo_toml).len() == 0 {
        seq![cargo_toml.package.name@]
    } else {
        listed_bins(cargo_toml)
    }
}

/// Whether the project has a library: a `[lib]` section or a `src/lib.rs`.
pub open spec fn has_library(cargo_toml: CargoToml, has_lib_rs: bool) -> bool {
    cargo_toml.lib is Some || has_lib_rs
}

/// Whether a third-party package has the name.
pub open spec fn is_known(packages: Seq<PackageSpec>, root: Seq<char>, name: Seq<char>) -> bool {
    exists|i: int|
        0 <= i < packages.len() && (#[trigger] packages[i]).name == name && is_third_party(
            packages[i],
            root,
        )
}

/// The labels of those of the named crates that are third-party packages, with `prefix` before each
/// rule name.
pub open spec fn known_labels(
    names: Seq<Seq<char>>,
    packages: Seq<PackageSpec>,
    root: Seq<char>,
    prefix: Seq<char>,
) -> Seq<Seq<char>> {
    names.filter(|name: Seq<char>| is_known(packages, root, name)).map_values(
        |name: Seq<char>| prefix + rule_name(name),
    )
}

/// The labels of the direct dependencies of the project.
pub open spec fn direct_labels(cargo_toml: CargoToml, packages: Seq<PackageSpec>) -> Seq<Seq<char>> {
    known_labels(
        cargo_toml.dependencies.deep_view(),
        packages,
        cargo_toml.package.name@,
        "//third_party/rust:"@,
    )
}

/// The rule of the project's library.
pub open spec fn library_block(cargo_toml: CargoToml, packages: Seq<PackageSpec>) -> Seq<char> {
    "rust_library(\n"@ + field_line("name"@, rule_name(cargo_toml.package.name@))
        + "    root = \"src/lib.rs\",\n"@ + field_line("edition"@, cargo_toml.package.edition@)
        + list_lines("deps"@, direct_labels(cargo_toml, packages)) + ")\n\n"@
}

/// The labels that a binary depends on: the library, if there is one, and the direct dependencies.
pub open spec fn binary_labels(
    cargo_toml: CargoToml,
    packages: Seq<PackageSpec>,
    has_lib: bool,
) -> Seq<Seq<char>> {
    if has_lib {
        seq![":"@ + rule_name(cargo_toml.package.name@)] + direct_labels(cargo_toml, packages)
    } else {
        direct_labels(cargo_toml, packages)
    }
}

/// The rule of one of the project's binaries.
pub open spec fn binary_block(
    name: Seq<char>,
    cargo_toml: CargoToml,
    packages: Seq<PackageSpec>,
    has_lib: bool,
) -> Seq<char> {
    "rust_binary(\n"@ + field_line("name"@, rule_name(name)) + "    main = \"src/main.rs\",\n"@
        + field_line("edition"@, cargo_toml.package.edition@) + list_lines(
        "deps"@,
        binary_labels(cargo_toml, packages, has_lib),
    ) + ")\n\n"@
}

/// The rules of the project's binaries.
pub open spec fn binary_blocks(
    names: Seq<Seq<char>>,
    cargo_toml: CargoToml,
    packages: Seq<PackageSpec>,
    has_lib: bool,
) -> Seq<char>
    decreases names.len(),
{
    if names.len() == 0 {
        Seq::empty()
    } else {
        binary_blocks(names.drop_last(), cargo_toml, packages, has_lib) + binary_block(
            names.last(),
            cargo_toml,
            packages,
            has_lib,
        )
    }
}

/// The BUILD file of the project.
pub open spec fn package_build(
    cargo_toml: CargoToml,
    packages: Seq<PackageSpec>,
    has_lib_rs: bool,
    has_main_rs: bool,
) -> Seq<char> {
    let has_lib = has_library(cargo_toml, has_lib_rs);
    "subinclude(\"//build_defs:rust\")\n\n"@ + (if has_lib {
        library_block(cargo_toml, packages)
    } else {
        Seq::empty()
    }) + binary_blocks(bin_names(cargo_toml, has_main_rs), cargo_toml, packages, has_lib)
}

/// The definition of a third-party package. Dependencies that are not third-party packages are
/// left out.
pub open spec fn third_party_block(
    package: PackageSpec,
    packages: Seq<PackageSpec>,
    root: Seq<char>,
) -> Seq<char> {
    "rust_crate(\n"@ + field_line("name"@, rule_name(package.name)) + field_line(
        "crate"@,
        package.name,
    ) + field_line("version"@, package.version) + field_line("edition"@, "2021"@) + list_lines(
        "features"@,
        package.features,
    ) + list_lines("deps"@, known_labels(package.dependencies, packages, root, ":"@)) + ")\n\n"@
}

/// The definitions of the third-party packages among the first `n`.
pub open spec fn third_party_blocks(
    packages: Seq<PackageSpec>,
    root: Seq<char>,
    n: int,
) -> Seq<char>
    decreases n,
{
    if n <= 0 {
        Seq::empty()
    } else {
        let rest = third_party_blocks(packages, root, n - 1);
        if is_third_party(packages[n - 1], root) {
            rest + third_party_block(packages[n - 1], packages, root)
        } else {
            rest
        }
    }
}

/// Determines what kind of targets exist in a project, given whether it has a `src/lib.rs` and a
/// `src/main.rs`.
pub fn detect_project_targets(cargo_toml: &CargoToml, has_lib_rs: bool, has_main_rs: bool) -> (targets: ProjectTargets)
    ensures
        targets.has_lib == has_library(*cargo_toml, has_lib_rs),
        targets.has_bin == (has_main_rs || listed_bins(*cargo_toml).len() > 0),
        targets.bin_names.deep_view() == bin_names(*cargo_toml, has_main_rs),
        targets.has_bin <==> targets.bin_names@.len() > 0,
{
    let has_lib = cargo_toml.lib.is_some() || has_lib_rs;
    let mut names: Vec<String> = Vec::new();
    assert(names.deep_view() =~= Seq::<Seq<char>>::empty());
    if let Some(bins) = &cargo_toml.bin {
        let ghost listed = listed_bins(*cargo_toml);
        for i in 0..bins.len()
            invariant
                listed == bins.deep_view().map_values(|bin: CargoBinSpec| bin.name),
                names.deep_view() == listed.take(i as int),
        {
            let ghost before = names.deep_view();
            names.push(bins[i].name.clone());
            assert(names.deep_view() =~= before.push(listed[i as int]));
            assert(names.deep_view() =~= listed.take(i + 1));
        }
        assert(listed.take(bins.len() as int) =~= listed);
    }
    assert(names.deep_view().len() == names.len());
    let has_bin = has_main_rs || names.len() > 0;
    if has_main_rs && names.len() == 0 {
        names.push(cargo_toml.package.name.clone());
        assert(names.deep_view() =~= seq![cargo_toml.package.name@]);
    }
    ProjectTargets { has_lib, has_bin, bin_names: names }
}

/// Whether a third-party package has the name.
fn knows(packages: &[ResolvedPackage], root: &String, name: &String) -> (known: bool)
    ensures
        known == is_known(packages.deep_view(), root@, name@),
{
    for i in 0..packages.len()
        invariant
            forall|j: int|
                0 <= j < i ==> !((#[trigger] packages.deep_view()[j]).name == name@
                    && is_third_party(packages.deep_view()[j], root@)),
    {
        if packages[i].name == *name && packages[i].name != *root && !packages[i].is_local {
            assert(packages.deep_view()[i as int].name == name@);
            return true;
        }
    }
    false
}

/// The labels of those of the named crates that are third-party packages, with `prefix` before each
/// rule name.
fn generate_known_labels(
    names: &Vec<String>,
    packages: &[ResolvedPackage],
    root: &String,
    prefix: &str,
) -> (labels: Vec<String>)
    ensures
        labels.deep_view() == known_labels(
            names.deep_view(),
            packages.deep_view(),
            root@,
            prefix@,
        ),
{
    let ghost all = names.deep_view();
    let ghost known = packages.deep_view();
    let ghost p = |name: Seq<char>| is_known(known, root@, name);
    let ghost f = |name: Seq<char>| prefix@ + rule_name(name);
    let mut labels: Vec<String> = Vec::new();
    proof {
        reveal(Seq::filter);
        assert(all.take(0).filter(p) =~= Seq::empty());
        assert(labels.deep_view() =~= Seq::<Seq<char>>::empty().map_values(f));
    }
    for i in 0..names.len()
        invariant
            all == names.deep_view(),
            known == packages.deep_view(),
            p == (|name: Seq<char>| is_known(known, root@, name)),
            f == (|name: Seq<char>| prefix@ + rule_name(name)),
            labels.deep_view() == all.take(i as int).filter(p).map_values(f),
    {
        proof {
            lemma_filter_step(all, i as int, p);
        }
        let ghost before = labels.deep_view();
        let ghost kept = all.take(i as int).filter(p);
        if knows(packages, root, &names[i]) {
            let mut label = prefix.to_string();
            label.append(crate_name_to_rule_name(names[i].as_str()).as_str());
            let ghost shown = label@;
            labels.push(label);
            assert(labels.deep_view() =~= before.push(shown));
            assert(kept.push(all[i as int]).map_values(f) =~= kept.map_values(f).push(shown));
        }
    }
    assert(all.take(names.len() as int) =~= all);
    labels
}

/// The rule of the project's library.
fn generate_library_block(cargo_toml: &CargoToml, packages: &[ResolvedPackage]) -> (block: String)
    ensures
        block@ == library_block(*cargo_toml, packages.deep_view()),
{
    let name = crate_name_to_rule_name(cargo_toml.package.name.as_str());
    let deps = generate_known_labels(
        &cargo_toml.dependencies,
        packages,
        &cargo_toml.package.name,
        "//third_party/rust:",
    );
    let mut block = "rust_library(\n".to_string();
    block.append(generate_field_line("name", name.as_str()).as_str());
    block.append("    root = \"src/lib.rs\",\n");
    block.append(generate_field_line("edition", cargo_toml.package.edition.as_str()).as_str());
    block.append(generate_list_lines("deps", &deps).as_str());
    block.append(")\n\n");
    block
}

/// The rule of one of the project's binaries.
fn generate_binary_block(
    bin_name: &String,
    cargo_toml: &CargoToml,
    packages: &[ResolvedPackage],
    has_lib: bool,
) -> (block: String)
    ensures
        block@ == binary_block(bin_name@, *cargo_toml, packages.deep_view(), has_lib),
{
    let name = crate_name_to_rule_name(bin_name.as_str());
    let mut deps = generate_known_labels(
        &cargo_toml.dependencies,
        packages,
        &cargo_toml.package.name,
        "//third_party/rust:",
    );
    if has_lib {
        let ghost direct = deps.deep_view();
        let mut label = ":".to_string();
        label.append(crate_name_to_rule_name(cargo_toml.package.name.as_str()).as_str());
        let ghost shown = label@;
        deps.insert(0, label);
        assert(deps.deep_view() =~= seq![shown] + direct);
    }
    let mut block = "rust_binary(\n".to_string();
    block.append(generate_field_line("name", name.as_str()).as_str());
    block.append("    main = \"src/main.rs\",\n");
    block.append(generate_field_line("edition", cargo_toml.package.edition.as_str()).as_str());
    block.append(generate_list_lines("deps", &deps).as_str());
    block.append(")\n\n");
    block
}

/// The definition of a third-party package.
fn generate_third_party_block(
    package: &ResolvedPackage,
    packages: &[ResolvedPackage],
    root: &String,
) -> (block: String)
    ensures
        block@ == third_party_block(package@, packages.deep_view(), root@),
{
    let name = crate_name_to_rule_name(package.name.as_str());
    let deps = generate_known_labels(&package.dependencies, packages, root, ":");
    let mut block = "rust_crate(\n".to_string();
    block.append(generate_field_line("name", name.as_str()).as_str());
    block.append(generate_field_line("crate", package.name.as_str()).as_str());
    block.append(generate_field_line("version", package.version.as_str()).as_str());
    block.append(generate_field_line("edition", "2021").as_str());
    block.append(generate_list_lines("features", &package.features).as_str());
    block.append(generate_list_lines("deps", &deps).as_str());
    block.append(")\n\n");
    block
}

/// Generates BUILD file contents from resolved packages, given whether the project has a
/// `src/lib.rs` and a `src/main.rs`: the BUILD file of the project, and the definitions of its
/// third-party crates.
pub fn generate_build_files(
    packages: &[ResolvedPackage],
    cargo_toml: &CargoToml,
    has_lib_rs: bool,
    has_main_rs: bool,
) -> (result: (String, String))
    ensures
        result.0@ == package_build(*cargo_toml, packages.deep_view(), has_lib_rs, has_main_rs),
        result.1@ == third_party_blocks(
            packages.deep_view(),
            cargo_toml.package.name@,
            packages@.len() as int,
        ),
{
    let ghost all = packages.deep_view();
    let targets = detect_project_targets(cargo_toml, has_lib_rs, has_main_rs);
    let mut package_output = "subinclude(\"//build_defs:rust\")\n\n".to_string();
    let library = if targets.has_lib {
        generate_library_block(cargo_toml, packages)
    } else {
        String::new()
    };
    package_output.append(library.as_str());
    let mut binaries = String::new();
    let names = &targets.bin_names;
    let has_lib = targets.has_lib;
    let ghost bins = names.deep_view();
    for i in 0..names.len()
        invariant
            bins == names.deep_view(),
            binaries@ == binary_blocks(
                bins.take(i as int),
                *cargo_toml,
                packages.deep_view(),
                has_lib,
            ),
    {
        assert(bins.take(i + 1).drop_last() =~= bins.take(i as int));
        binaries.append(
            generate_binary_block(&names[i], cargo_toml, packages, has_lib).as_str(),
        );
    }
    assert(bins.take(names.len() as int) =~= bins);
    package_output.append(binaries.as_str());
    let mut third_party_output = String::new();
    for i in 0..packages.len()
        invariant
            all == packages.deep_view(),
            third_party_output@ == third_party_blocks(
                all,
                cargo_toml.package.name@,
                i as int,
            ),
    {
        if packages[i].name != cargo_toml.package.name && !packages[i].is_local {
            third_party_output.append(
                generate_third_party_block(
                    &packages[i],
                    packages,
                    &cargo_toml.package.name,
                ).as_str(),
            );
        }
    }
    (package_output, third_party_output)
}

} // verus!
