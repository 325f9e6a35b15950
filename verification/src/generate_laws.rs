//! What holds of generated definitions.

use crate::build_file::{build_file, crate_entries, crate_entry, is_pinned_by, rendered};
use crate::crate_def::{crate_block, field_line, list_lines, rule_name, CrateSpec};
use crate::generate::{
    bin_names, binary_blocks, direct_labels, has_library, is_known, known_labels, package_build,
    third_party_block, third_party_blocks, CargoToml,
};
use crate::merge::{has_distinct_crates, lemma_only_definition};
use crate::metadata::{
    definitions, is_third_party, package_definition, package_with_id, resolved, resolved_package,
    MetadataNodeSpec, MetadataPackageSpec, PackageSpec,
};
use crate::reread::{file_reads_back, is_writable, lemma_blank, modified_crate_reads_back};
use crate::roundtrip::{
    field_values, flat_crate_is_block, is_block, is_flat, is_plain, is_readable,
    plain_crate_is_readable,
};
use crate::text::lemma_filter_step;
use crate::verify::{check_passes_if_all_is_met, is_met, verify_errors, VerifyMode};
use vstd::prelude::*;

verus! {

/// The definition that is generated for a third-party package: of its dependencies, it has those
/// that are third-party packages.
pub open spec fn third_party_definition(
    package: PackageSpec,
    packages: Seq<PackageSpec>,
    root: Seq<char>,
) -> CrateSpec {
    CrateSpec {
        deps: known_labels(package.dependencies, packages, root, ":"@),
        ..package_definition(package)
    }
}

/// The definitions that are generated for the third-party packages.
pub open spec fn third_party_definitions(packages: Seq<PackageSpec>, root: Seq<char>) -> Seq<
    CrateSpec,
> {
    packages.filter(|p: PackageSpec| is_third_party(p, root)).map_values(
        |p: PackageSpec| third_party_definition(p, packages, root),
    )
}

pub proof fn lemma_third_party_block(
    package: PackageSpec,
    packages: Seq<PackageSpec>,
    root: Seq<char>,
)
    ensures
        third_party_block(package, packages, root) == crate_entry(
            third_party_definition(package, packages, root),
        ),
{
    let c = third_party_definition(package, packages, root);
    let lines = "rust_crate(\n"@ + field_line("name"@, c.name) + field_line("crate"@, c.crate_name)
        + field_line("version"@, c.version) + field_line("edition"@, "2021"@);
    let features = list_lines("features"@, c.features);
    let deps = list_lines("deps"@, c.deps);
    let none = Seq::<char>::empty();
    reveal_strlit(")\n\n");
    reveal_strlit(")\n");
    reveal_strlit("\n");
    assert(")\n\n"@ =~= ")\n"@ + "\n"@);
    assert(lines + none =~= lines);
    assert(lines + features + deps + none =~= lines + features + deps);
    assert(lines + features + deps + (")\n"@ + "\n"@) =~= lines + features + deps + ")\n"@ + "\n"@);
}

proof fn lemma_third_party_blocks(packages: Seq<PackageSpec>, root: Seq<char>, n: int)
    requires
        0 <= n <= packages.len(),
    ensures
        third_party_blocks(packages, root, n) == crate_entries(
            packages.take(n).filter(|p: PackageSpec| is_third_party(p, root)).map_values(
                |p: PackageSpec| third_party_definition(p, packages, root),
            ),
        ),
    decreases n,
{
    let p = |p: PackageSpec| is_third_party(p, root);
    let f = |p: PackageSpec| third_party_definition(p, packages, root);
    if n == 0 {
        reveal(Seq::filter);
        assert(packages.take(0).filter(p).map_values(f) =~= Seq::empty());
    } else {
        lemma_third_party_blocks(packages, root, n - 1);
        lemma_filter_step(packages, n - 1, p);
        let package = packages[n - 1];
        let kept = packages.take(n - 1).filter(p);
        if is_third_party(package, root) {
            lemma_third_party_block(package, packages, root);
            let all = kept.push(package).map_values(f);
            assert(all.drop_last() =~= kept.map_values(f));
            assert(all.last() == f(package));
        }
    }
}

/// The definitions that are generated for third-party packages are written as any others are.
pub proof fn generated_definitions_are_written(packages: Seq<PackageSpec>, root: Seq<char>)
    ensures
        third_party_blocks(packages, root, packages.len() as int) == rendered(
            Seq::empty(),
            third_party_definitions(packages, root),
            Seq::empty(),
        ),
{
    lemma_third_party_blocks(packages, root, packages.len() as int);
    assert(packages.take(packages.len() as int) =~= packages);
    let entries = crate_entries(third_party_definitions(packages, root));
    assert(Seq::<char>::empty() + entries + Seq::<char>::empty() =~= entries);
}

/// The resolved package of a node is among the resolved packages.
proof fn lemma_resolved(packages: Seq<MetadataPackageSpec>, nodes: Seq<MetadataNodeSpec>, k: int)
    requires
        0 <= k < nodes.len(),
        package_with_id(packages, nodes[k].id) is Some,
    ensures
        resolved(packages, nodes).contains(
            resolved_package(packages, package_with_id(packages, nodes[k].id)->0, nodes[k]),
        ),
    decreases nodes.len(),
{
    let found = resolved_package(packages, package_with_id(packages, nodes[k].id)->0, nodes[k]);
    let all = resolved(packages, nodes);
    if k == nodes.len() - 1 {
        assert(all[all.len() - 1] == found);
    } else {
        let rest = resolved(packages, nodes.drop_last());
        lemma_resolved(packages, nodes.drop_last(), k);
        assert(all[rest.index_of(found)] == found);
    }
}

/// The definition of a third-party package is among the generated ones.
proof fn lemma_generated(packages: Seq<PackageSpec>, root: Seq<char>, package: PackageSpec)
    requires
        packages.contains(package),
        is_third_party(package, root),
    ensures
        third_party_definitions(packages, root).contains(
            third_party_definition(package, packages, root),
        ),
{
    let p = |p: PackageSpec| is_third_party(p, root);
    packages.lemma_filter_contains(p, packages.index_of(package));
    let k = packages.filter(p).index_of(package);
    assert(third_party_definitions(packages, root)[k] == third_party_definition(
        package,
        packages,
        root,
    ));
}

/// The dependency tree is complete: where the resolved graph has a third-party package that depends
/// on another one, both have a definition, and that of the first has the label of the second,
/// whatever name the dependency has in code.
pub proof fn dependency_tree_is_complete(
    packages: Seq<MetadataPackageSpec>,
    nodes: Seq<MetadataNodeSpec>,
    root: Seq<char>,
    from: int,
    dep: int,
    to: int,
)
    requires
        0 <= from < nodes.len(),
        0 <= dep < nodes[from].deps.len(),
        0 <= to < nodes.len(),
        nodes[from].deps[dep].pkg == nodes[to].id,
        ({
            let dependent = package_with_id(packages, nodes[from].id);
            let dependency = package_with_id(packages, nodes[to].id);
            &&& dependent is Some && dependent->0.source is Some && dependent->0.name != root
            &&& dependency is Some && dependency->0.source is Some && dependency->0.name != root
        }),
    ensures
        ({
            let all = resolved(packages, nodes);
            let dependent = package_with_id(packages, nodes[from].id)->0;
            let dependency = package_with_id(packages, nodes[to].id)->0;
            let first = third_party_definition(
                resolved_package(packages, dependent, nodes[from]),
                all,
                root,
            );
            let second = third_party_definition(
                resolved_package(packages, dependency, nodes[to]),
                all,
                root,
            );
            &&& third_party_definitions(all, root).contains(first)
            &&& third_party_definitions(all, root).contains(second)
            &&& first.deps.contains(":"@ + second.name)
        }),
{
    let all = resolved(packages, nodes);
    let dependent = resolved_package(
        packages,
        package_with_id(packages, nodes[from].id)->0,
        nodes[from],
    );
    let dependency = resolved_package(
        packages,
        package_with_id(packages, nodes[to].id)->0,
        nodes[to],
    );
    lemma_resolved(packages, nodes, from);
    lemma_resolved(packages, nodes, to);
    lemma_generated(all, root, dependent);
    lemma_generated(all, root, dependency);
    let known = |name: Seq<char>| is_known(all, root, name);
    let names = dependent.dependencies;
    assert(names[dep] == dependency.name);
    let i = all.index_of(dependency);
    assert(all[i].name == names[dep]);
    names.lemma_filter_contains(known, dep);
    let k = names.filter(known).index_of(names[dep]);
    let labels = known_labels(names, all, root, ":"@);
    assert(labels[k] == ":"@ + rule_name(dependency.name));
}

/// Whether the blocks of all the definitions can be read.
pub open spec fn are_readable(crates: Seq<CrateSpec>) -> bool {
    forall|i: int|
        0 <= i < crates.len() ==> {
            &&& is_readable(#[trigger] crates[i])
            &&& is_block(crate_block(crates[i]).drop_last())
        }
}

proof fn lemma_blank_has_no_pin()
    ensures
        !is_pinned_by(Seq::empty()),
        !is_pinned_by("\n\n"@),
{
    lemma_blank();
    reveal_strlit("\n\n");
}

/// The definitions that are generated for third-party packages read back: the file has one for each
/// third-party package, in order, and none is pinned.
pub proof fn generated_definitions_read_back(packages: Seq<PackageSpec>, root: Seq<char>)
    requires
        are_readable(third_party_definitions(packages, root)),
    ensures
        ({
            let expected = third_party_definitions(packages, root);
            let found = build_file(
                third_party_blocks(packages, root, packages.len() as int),
            ).crates;
            &&& found.len() == expected.len()
            &&& forall|i: int|
                0 <= i < expected.len() ==> #[trigger] found[i] == (CrateSpec {
                    raw_text: crate_block(expected[i]).drop_last(),
                    preceding_content: if i == 0 {
                        Seq::empty()
                    } else {
                        "\n\n"@
                    },
                    ..expected[i]
                })
        }),
{
    let expected = third_party_definitions(packages, root);
    let text = third_party_blocks(packages, root, packages.len() as int);
    let none = Seq::<char>::empty();
    generated_definitions_are_written(packages, root);
    lemma_blank();
    lemma_blank_has_no_pin();
    if expected.len() == 0 {
        assert(text =~= none);
    } else {
        assert forall|i: int| 0 <= i < expected.len() implies is_writable(#[trigger] expected[i]) by {
            assert(is_readable(expected[i]));
            modified_crate_reads_back(expected[i], none);
        }
        file_reads_back(none, expected, none);
        let found = build_file(text).crates;
        assert forall|i: int| 0 <= i < expected.len() implies #[trigger] found[i] == (CrateSpec {
            raw_text: crate_block(expected[i]).drop_last(),
            preceding_content: if i == 0 {
                Seq::empty()
            } else {
                "\n\n"@
            },
            ..expected[i]
        }) by {
            assert(is_readable(expected[i]));
            modified_crate_reads_back(expected[i], if i == 0 { none } else { "\n\n"@ });
        }
    }
}

/// A generated file meets the requirements that it was generated from: it passes the exact check,
/// if no two of the third-party packages have the same name.
pub proof fn generated_definitions_pass_the_check(packages: Seq<PackageSpec>, root: Seq<char>)
    requires
        are_readable(third_party_definitions(packages, root)),
        has_distinct_crates(definitions(packages, root)),
    ensures
        verify_errors(
            definitions(packages, root),
            build_file(third_party_blocks(packages, root, packages.len() as int)).crates,
            VerifyMode::Exact,
        ).len() == 0,
{
    let required = definitions(packages, root);
    let expected = third_party_definitions(packages, root);
    let found = build_file(third_party_blocks(packages, root, packages.len() as int)).crates;
    generated_definitions_read_back(packages, root);
    assert(required.len() == expected.len());
    assert forall|i: int| 0 <= i < required.len() implies {
        &&& (#[trigger] found[i]).crate_name == required[i].crate_name
        &&& found[i].version == required[i].version
        &&& found[i].features == required[i].features
    } by {
        assert(expected[i].crate_name == required[i].crate_name);
    }
    assert(has_distinct_crates(found)) by {
        assert forall|i: int, j: int| 0 <= i < j < found.len() implies (
        #[trigger] found[i]).crate_name != (#[trigger] found[j]).crate_name by {
            assert(required[i].crate_name != required[j].crate_name);
        }
    }
    assert forall|i: int| 0 <= i < required.len() implies is_met(
        #[trigger] required[i],
        found,
        VerifyMode::Exact,
    ) by {
        assert(found[i].crate_name == required[i].crate_name);
        lemma_only_definition(found, i);
    }
    check_passes_if_all_is_met(required, found, VerifyMode::Exact);
}

/// Whether the text holds no quote, equals sign, bracket or parenthesis.
pub open spec fn is_simple(text: Seq<char>) -> bool {
    is_plain(text) && is_flat(text, '[', ']') && is_flat(text, '(', ')')
}

/// Whether everything that is written of a package is simple text.
pub open spec fn is_simple_package(package: PackageSpec) -> bool {
    &&& is_simple(package.name)
    &&& is_simple(package.version)
    &&& forall|i: int| 0 <= i < package.features.len() ==> is_simple(#[trigger] package.features[i])
    &&& forall|i: int|
        0 <= i < package.dependencies.len() ==> is_simple(#[trigger] package.dependencies[i])
}

proof fn lemma_simple_rule_name(name: Seq<char>, prefix: Seq<char>)
    requires
        is_simple(name),
        is_simple(prefix),
    ensures
        is_simple(rule_name(name)),
        is_simple(prefix + rule_name(name)),
{
    let rule = rule_name(name);
    assert forall|i: int| 0 <= i < rule.len() implies name.contains(#[trigger] rule[i]) || rule[i]
        == '_' by {
        assert(name.contains(name[i]));
    }
    let label = prefix + rule;
    assert forall|i: int| 0 <= i < label.len() implies prefix.contains(#[trigger] label[i])
        || rule.contains(label[i]) by {
        if i < prefix.len() {
            assert(label[i] == prefix[i]);
        } else {
            assert(label[i] == rule[i - prefix.len()]);
        }
    }
}

/// The definitions that are generated for packages of simple text can be read.
pub proof fn simple_packages_are_readable(packages: Seq<PackageSpec>, root: Seq<char>)
    requires
        forall|i: int| 0 <= i < packages.len() ==> is_simple_package(#[trigger] packages[i]),
    ensures
        are_readable(third_party_definitions(packages, root)),
{
    let p = |p: PackageSpec| is_third_party(p, root);
    let kept = packages.filter(p);
    let crates = third_party_definitions(packages, root);
    reveal_strlit(":");
    reveal_strlit("2021");
    assert forall|i: int| 0 <= i < crates.len() implies {
        &&& is_readable(#[trigger] crates[i])
        &&& is_block(crate_block(crates[i]).drop_last())
    } by {
        let package = kept[i];
        assert(kept.contains(package));
        packages.lemma_filter_contains_rev(p, package);
        assert(is_simple_package(packages[packages.index_of(package)]));
        let c = crates[i];
        lemma_simple_rule_name(package.name, ":"@);
        let known = |name: Seq<char>| is_known(packages, root, name);
        let names = package.dependencies.filter(known);
        assert forall|k: int| 0 <= k < c.deps.len() implies is_simple(#[trigger] c.deps[k]) by {
            assert(names.contains(names[k]));
            package.dependencies.lemma_filter_contains_rev(known, names[k]);
            let name = names[k];
            assert(is_simple(package.dependencies[package.dependencies.index_of(name)]));
            lemma_simple_rule_name(name, ":"@);
        }
        assert forall|k: int, j: int| 0 <= k < 8 && 0 <= j < field_values(c, k).len() implies
            is_simple(#[trigger] field_values(c, k)[j]) by {}
        plain_crate_is_readable(c);
        flat_crate_is_block(c);
    }
}

/// Whether the packages have the same third-party packages.
pub open spec fn same_third_party(
    a: Seq<PackageSpec>,
    b: Seq<PackageSpec>,
    root: Seq<char>,
) -> bool {
    a.filter(|p: PackageSpec| is_third_party(p, root)) == b.filter(
        |p: PackageSpec| is_third_party(p, root),
    )
}

/// Which names are known depends on the third-party packages.
proof fn lemma_same_known(
    a: Seq<PackageSpec>,
    b: Seq<PackageSpec>,
    root: Seq<char>,
    name: Seq<char>,
)
    requires
        same_third_party(a, b, root),
    ensures
        is_known(a, root, name) ==> is_known(b, root, name),
{
    let p = |p: PackageSpec| is_third_party(p, root);
    if is_known(a, root, name) {
        let i = choose|i: int|
            0 <= i < a.len() && (#[trigger] a[i]).name == name && is_third_party(a[i], root);
        a.lemma_filter_contains(p, i);
        assert(b.filter(p).contains(a[i]));
        b.lemma_filter_contains_rev(p, a[i]);
        let j = b.index_of(a[i]);
        assert(b[j].name == name);
    }
}

proof fn lemma_same_labels(
    names: Seq<Seq<char>>,
    a: Seq<PackageSpec>,
    b: Seq<PackageSpec>,
    root: Seq<char>,
    prefix: Seq<char>,
)
    requires
        same_third_party(a, b, root),
    ensures
        known_labels(names, a, root, prefix) == known_labels(names, b, root, prefix),
{
    let p = |name: Seq<char>| is_known(a, root, name);
    let q = |name: Seq<char>| is_known(b, root, name);
    assert forall|name: Seq<char>| #[trigger] is_known(a, root, name) == is_known(b, root, name) by {
        lemma_same_known(a, b, root, name);
        lemma_same_known(b, a, root, name);
    }
    assert(p =~= q);
}

proof fn lemma_same_binaries(
    names: Seq<Seq<char>>,
    cargo_toml: CargoToml,
    a: Seq<PackageSpec>,
    b: Seq<PackageSpec>,
    has_lib: bool,
)
    requires
        direct_labels(cargo_toml, a) == direct_labels(cargo_toml, b),
    ensures
        binary_blocks(names, cargo_toml, a, has_lib) == binary_blocks(
            names,
            cargo_toml,
            b,
            has_lib,
        ),
    decreases names.len(),
{
    if names.len() > 0 {
        lemma_same_binaries(names.drop_last(), cargo_toml, a, b, has_lib);
    }
}

/// Local packages and the root package have no influence on what is generated: the two texts are
/// the same for any packages with the same third-party packages.
pub proof fn only_third_party_packages_count(
    cargo_toml: CargoToml,
    a: Seq<PackageSpec>,
    b: Seq<PackageSpec>,
    has_lib_rs: bool,
    has_main_rs: bool,
)
    requires
        same_third_party(a, b, cargo_toml.package.name@),
    ensures
        package_build(cargo_toml, a, has_lib_rs, has_main_rs) == package_build(
            cargo_toml,
            b,
            has_lib_rs,
            has_main_rs,
        ),
        third_party_blocks(a, cargo_toml.package.name@, a.len() as int) == third_party_blocks(
            b,
            cargo_toml.package.name@,
            b.len() as int,
        ),
{
    let root = cargo_toml.package.name@;
    let has_lib = has_library(cargo_toml, has_lib_rs);
    lemma_same_labels(cargo_toml.dependencies.deep_view(), a, b, root, "//third_party/rust:"@);
    lemma_same_binaries(bin_names(cargo_toml, has_main_rs), cargo_toml, a, b, has_lib);
    generated_definitions_are_written(a, root);
    generated_definitions_are_written(b, root);
    let x = third_party_definitions(a, root);
    let y = third_party_definitions(b, root);
    assert forall|i: int| 0 <= i < x.len() implies x[i] == #[trigger] y[i] by {
        let package = a.filter(|p: PackageSpec| is_third_party(p, root))[i];
        lemma_same_labels(package.dependencies, a, b, root, ":"@);
    }
    assert(x =~= y);
}

} // verus!
