//! What generated files say, in terms of the Cargo.toml and the packages.

use crate::build_file::{crate_entries, crate_entry, list_field, rendered};
use crate::crate_def::{
    crate_block, field_line, item_lines, list_lines, optional_line, rule_name, CrateSpec,
};
use crate::generate::{
    bin_names, binary_block, binary_blocks, direct_labels, has_library, is_known, known_labels,
    library_block, listed_bins, package_build, third_party_blocks, CargoToml,
};
use crate::generate_laws::{lemma_third_party_block, third_party_definition};
use crate::metadata::{
    definitions, graph_nodes, is_third_party, local_labels, package_with_id, resolved,
    CargoMetadata, MetadataNode, MetadataNodeDep, MetadataNodeSpec, MetadataPackage,
    MetadataPackageSpec, PackageSpec, ResolvedPackage,
};
use crate::roundtrip::{is_flat, is_plain, rule_lists_its_dependencies};
use vstd::prelude::*;

verus! {

/// Whether some package that is neither local nor the root package has the name.
pub open spec fn names_third_party(
    packages: Seq<PackageSpec>,
    root: Seq<char>,
    name: Seq<char>,
) -> bool {
    exists|i: int|
        0 <= i < packages.len() && (#[trigger] packages[i]).name == name && !packages[i].is_local
            && packages[i].name != root
}

/// Labels are made of those names that third-party packages have, one for each, in order.
pub proof fn labels_are_of_third_party_packages(
    names: Seq<Seq<char>>,
    packages: Seq<PackageSpec>,
    root: Seq<char>,
    prefix: Seq<char>,
)
    ensures
        known_labels(names, packages, root, prefix) == names.filter(
            |name: Seq<char>| names_third_party(packages, root, name),
        ).map_values(|name: Seq<char>| prefix + rule_name(name)),
        forall|i: int|
            0 <= i < names.len() && names_third_party(packages, root, #[trigger] names[i])
                ==> known_labels(names, packages, root, prefix).contains(
                prefix + rule_name(names[i]),
            ),
        forall|label: Seq<char>| #[trigger]
            known_labels(names, packages, root, prefix).contains(label) ==> exists|i: int|
                0 <= i < names.len() && names_third_party(packages, root, #[trigger] names[i])
                    && label == prefix + rule_name(names[i]),
{
    let p = |name: Seq<char>| names_third_party(packages, root, name);
    let q = |name: Seq<char>| is_known(packages, root, name);
    let f = |name: Seq<char>| prefix + rule_name(name);
    assert forall|name: Seq<char>| names_third_party(packages, root, name) == #[trigger] is_known(
        packages,
        root,
        name,
    ) by {
        if names_third_party(packages, root, name) {
            let i = choose|i: int|
                0 <= i < packages.len() && (#[trigger] packages[i]).name == name
                    && !packages[i].is_local && packages[i].name != root;
            assert(is_third_party(packages[i], root));
        }
    }
    assert(p =~= q);
    let labels = known_labels(names, packages, root, prefix);
    let kept = names.filter(p);
    assert forall|i: int|
        0 <= i < names.len() && names_third_party(packages, root, #[trigger] names[i]) implies
        labels.contains(prefix + rule_name(names[i])) by {
        names.lemma_filter_contains(p, i);
        assert(labels[kept.index_of(names[i])] == f(names[i]));
    }
    assert forall|label: Seq<char>| #[trigger] labels.contains(label) implies exists|i: int|
        0 <= i < names.len() && names_third_party(packages, root, #[trigger] names[i]) && label
            == prefix + rule_name(names[i]) by {
        let k = labels.index_of(label);
        names.lemma_filter_pred(p, k);
        assert(kept.contains(kept[k]));
        names.lemma_filter_contains_rev(p, kept[k]);
        let i = names.index_of(kept[k]);
        assert(names[i] == kept[k]);
    }
}

/// The labels of the project's direct dependencies: one for each dependency of the Cargo.toml that
/// is a third-party package, in order, and no other.
pub open spec fn third_party_labels(cargo_toml: CargoToml, packages: Seq<PackageSpec>) -> Seq<
    Seq<char>,
> {
    cargo_toml.dependencies.deep_view().filter(
        |name: Seq<char>| names_third_party(packages, cargo_toml.package.name@, name),
    ).map_values(|name: Seq<char>| "//third_party/rust:"@ + rule_name(name))
}

/// Each direct dependency that is a third-party package has its label among those, and each of them
/// is the label of such a dependency.
pub proof fn every_third_party_dependency_has_a_label(
    cargo_toml: CargoToml,
    packages: Seq<PackageSpec>,
)
    ensures
        forall|i: int|
            0 <= i < cargo_toml.dependencies@.len() && names_third_party(
                packages,
                cargo_toml.package.name@,
                #[trigger] cargo_toml.dependencies@[i]@,
            ) ==> third_party_labels(cargo_toml, packages).contains(
                "//third_party/rust:"@ + rule_name(cargo_toml.dependencies@[i]@),
            ),
        forall|label: Seq<char>| #[trigger]
            third_party_labels(cargo_toml, packages).contains(label) ==> exists|i: int|
                0 <= i < cargo_toml.dependencies@.len() && names_third_party(
                    packages,
                    cargo_toml.package.name@,
                    #[trigger] cargo_toml.dependencies@[i]@,
                ) && label == "//third_party/rust:"@ + rule_name(cargo_toml.dependencies@[i]@),
{
    let names = cargo_toml.dependencies.deep_view();
    let root = cargo_toml.package.name@;
    let labels = third_party_labels(cargo_toml, packages);
    labels_are_of_third_party_packages(names, packages, root, "//third_party/rust:"@);
    assert forall|i: int|
        0 <= i < cargo_toml.dependencies@.len() && names_third_party(
            packages,
            root,
            #[trigger] cargo_toml.dependencies@[i]@,
        ) implies labels.contains(
        "//third_party/rust:"@ + rule_name(cargo_toml.dependencies@[i]@),
    ) by {
        assert(names[i] == cargo_toml.dependencies@[i]@);
    }
    assert forall|label: Seq<char>| #[trigger] labels.contains(label) implies exists|i: int|
        0 <= i < cargo_toml.dependencies@.len() && names_third_party(
            packages,
            root,
            #[trigger] cargo_toml.dependencies@[i]@,
        ) && label == "//third_party/rust:"@ + rule_name(cargo_toml.dependencies@[i]@) by {
        let i = choose|i: int|
            0 <= i < names.len() && names_third_party(packages, root, #[trigger] names[i]) && label
                == "//third_party/rust:"@ + rule_name(names[i]);
        assert(names[i] == cargo_toml.dependencies@[i]@);
    }
}

/// The library's rule has the package's rule name, its edition, and all the labels of direct
/// dependencies. The rule of a binary has the binary's rule name, the edition, the label of the
/// library if there is one, and all the labels of direct dependencies.
pub proof fn rules_have_all_direct_dependencies(
    cargo_toml: CargoToml,
    packages: Seq<PackageSpec>,
    bin: Seq<char>,
)
    ensures
        ({
            let labels = third_party_labels(cargo_toml, packages);
            let own = seq![":"@ + rule_name(cargo_toml.package.name@)];
            let edition = field_line("edition"@, cargo_toml.package.edition@);
            let library = "rust_library(\n"@ + field_line(
                "name"@,
                rule_name(cargo_toml.package.name@),
            ) + field_line("root"@, "src/lib.rs"@) + edition;
            let binary = "rust_binary(\n"@ + field_line("name"@, rule_name(bin)) + field_line(
                "main"@,
                "src/main.rs"@,
            ) + edition;
            &&& library_block(cargo_toml, packages) == library + list_lines("deps"@, labels)
                + ")\n\n"@
            &&& binary_block(bin, cargo_toml, packages, false) == binary + list_lines(
                "deps"@,
                labels,
            ) + ")\n\n"@
            &&& binary_block(bin, cargo_toml, packages, true) == binary + list_lines(
                "deps"@,
                own + labels,
            ) + ")\n\n"@
        }),
{
    labels_are_of_third_party_packages(
        cargo_toml.dependencies.deep_view(),
        packages,
        cargo_toml.package.name@,
        "//third_party/rust:"@,
    );
    assert(direct_labels(cargo_toml, packages) == third_party_labels(cargo_toml, packages));
    reveal_strlit("    root = \"src/lib.rs\",\n");
    reveal_strlit("    main = \"src/main.rs\",\n");
    reveal_strlit("    ");
    reveal_strlit("root");
    reveal_strlit("main");
    reveal_strlit(" = \"");
    reveal_strlit("src/lib.rs");
    reveal_strlit("src/main.rs");
    reveal_strlit("\",\n");
    assert("    root = \"src/lib.rs\",\n"@ =~= field_line("root"@, "src/lib.rs"@));
    assert("    main = \"src/main.rs\",\n"@ =~= field_line("main"@, "src/main.rs"@));
}

/// The dependencies in the rule of the project's library, and in that of each binary, read back as
/// the labels of all direct dependencies that are third-party packages and no other, but for the
/// label of the library, which comes first in a binary's.
pub proof fn rules_read_back_with_all_direct_dependencies(
    cargo_toml: CargoToml,
    packages: Seq<PackageSpec>,
    bin: Seq<char>,
)
    requires
        is_plain(rule_name(cargo_toml.package.name@)),
        is_flat(rule_name(cargo_toml.package.name@), '[', ']'),
        is_plain(cargo_toml.package.edition@),
        is_plain(rule_name(bin)),
        forall|i: int|
            0 <= i < third_party_labels(cargo_toml, packages).len() ==> is_plain(
                #[trigger] third_party_labels(cargo_toml, packages)[i],
            ) && is_flat(third_party_labels(cargo_toml, packages)[i], '[', ']'),
    ensures
        list_field(library_block(cargo_toml, packages), "deps"@) == third_party_labels(
            cargo_toml,
            packages,
        ),
        list_field(binary_block(bin, cargo_toml, packages, false), "deps"@) == third_party_labels(
            cargo_toml,
            packages,
        ),
        list_field(binary_block(bin, cargo_toml, packages, true), "deps"@) == seq![
            ":"@ + rule_name(cargo_toml.package.name@),
        ] + third_party_labels(cargo_toml, packages),
{
    let labels = third_party_labels(cargo_toml, packages);
    let rule = rule_name(cargo_toml.package.name@);
    let own = ":"@ + rule;
    let all = seq![own] + labels;
    let edition = cargo_toml.package.edition@;
    rules_have_all_direct_dependencies(cargo_toml, packages, bin);
    reveal_strlit("src/lib.rs");
    reveal_strlit("src/main.rs");
    reveal_strlit(":");
    assert forall|i: int| 0 <= i < own.len() implies own[i] == ':' || rule.contains(
        #[trigger] own[i],
    ) by {
        if i > 0 {
            assert(own[i] == rule[i - 1]);
        }
    }
    assert forall|i: int| 0 <= i < all.len() implies is_plain(#[trigger] all[i]) && is_flat(
        all[i],
        '[',
        ']',
    ) by {
        if i > 0 {
            assert(all[i] == labels[i - 1]);
        }
    }
    rule_lists_its_dependencies(
        "rust_library(\n"@,
        rule,
        ("root"@, "src/lib.rs"@),
        edition,
        labels,
    );
    rule_lists_its_dependencies(
        "rust_binary(\n"@,
        rule_name(bin),
        ("main"@, "src/main.rs"@),
        edition,
        labels,
    );
    rule_lists_its_dependencies(
        "rust_binary(\n"@,
        rule_name(bin),
        ("main"@, "src/main.rs"@),
        edition,
        all,
    );
}

/// The project's file opens with the include, then has the library's rule if there is a library, and
/// then a rule for each binary, in order.
pub proof fn package_file_has_all_rules(
    cargo_toml: CargoToml,
    packages: Seq<PackageSpec>,
    has_lib_rs: bool,
    has_main_rs: bool,
    a: Seq<Seq<char>>,
    bin: Seq<char>,
    has_lib: bool,
)
    ensures
        has_library(cargo_toml, has_lib_rs) <==> cargo_toml.lib is Some || has_lib_rs,
        package_build(cargo_toml, packages, has_lib_rs, has_main_rs)
            == "subinclude(\"//build_defs:rust\")\n\n"@ + (if cargo_toml.lib is Some || has_lib_rs {
            library_block(cargo_toml, packages)
        } else {
            Seq::empty()
        }) + binary_blocks(
            bin_names(cargo_toml, has_main_rs),
            cargo_toml,
            packages,
            cargo_toml.lib is Some || has_lib_rs,
        ),
        binary_blocks(Seq::empty(), cargo_toml, packages, has_lib).len() == 0,
        binary_blocks(a.push(bin), cargo_toml, packages, has_lib) == binary_blocks(
            a,
            cargo_toml,
            packages,
            has_lib,
        ) + binary_block(bin, cargo_toml, packages, has_lib),
{
    assert(a.push(bin).drop_last() =~= a);
}

/// The project's binaries are those that the Cargo.toml lists, in order; if it lists none, the
/// package's own if there is a `src/main.rs`, and otherwise none.
pub proof fn binaries_are_listed_or_the_package(cargo_toml: CargoToml, has_main_rs: bool)
    ensures
        cargo_toml.bin is None ==> listed_bins(cargo_toml).len() == 0,
        cargo_toml.bin is Some ==> {
            let bins = cargo_toml.bin->0;
            &&& listed_bins(cargo_toml).len() == bins@.len()
            &&& forall|i: int|
                0 <= i < bins@.len() ==> #[trigger] listed_bins(cargo_toml)[i] == bins@[i].name@
        },
        listed_bins(cargo_toml).len() > 0 ==> bin_names(cargo_toml, has_main_rs) == listed_bins(
            cargo_toml,
        ),
        listed_bins(cargo_toml).len() == 0 && has_main_rs ==> bin_names(cargo_toml, has_main_rs)
            == seq![cargo_toml.package.name@],
        listed_bins(cargo_toml).len() == 0 && !has_main_rs ==> bin_names(
            cargo_toml,
            has_main_rs,
        ).len() == 0,
{
}

/// The definitions of packages: one for each that is neither local nor the root package, in order,
/// with the package's name, version and features, the edition 2021 and a label for each dependency.
pub proof fn definitions_say_what_the_packages_say(packages: Seq<PackageSpec>, root: Seq<char>)
    ensures
        ({
            let kept = packages.filter(|p: PackageSpec| !p.is_local && p.name != root);
            let crates = definitions(packages, root);
            &&& crates.len() == kept.len()
            &&& forall|i: int|
                0 <= i < kept.len() ==> {
                    let c = #[trigger] crates[i];
                    let p = kept[i];
                    &&& c.name == rule_name(p.name) && c.crate_name == p.name
                    &&& c.version == p.version && c.features == p.features
                    &&& c.edition == Some("2021"@) && c.crate_type is None && c.build_root is None
                    &&& c.deps == local_labels(p.dependencies)
                    &&& c.raw_text.len() == 0 && c.preceding_content.len() == 0
                    &&& !c.pinned && !c.modified
                }
        }),
{
    assert((|p: PackageSpec| !p.is_local && p.name != root) =~= (|p: PackageSpec|
        is_third_party(p, root)));
}

/// The text for third-party packages has a block for each that is neither local nor the root
/// package, in order, with the package's name, version and features, the edition 2021, and the
/// labels of those of its dependencies that are such packages too.
pub proof fn third_party_file_has_every_package(
    packages: Seq<PackageSpec>,
    root: Seq<char>,
    n: int,
)
    requires
        0 <= n < packages.len(),
    ensures
        third_party_blocks(packages, root, 0).len() == 0,
        packages[n].is_local || packages[n].name == root ==> third_party_blocks(
            packages,
            root,
            n + 1,
        ) == third_party_blocks(packages, root, n),
        !packages[n].is_local && packages[n].name != root ==> third_party_blocks(
            packages,
            root,
            n + 1,
        ) == third_party_blocks(packages, root, n) + crate_block(
            CrateSpec {
                name: rule_name(packages[n].name),
                crate_name: packages[n].name,
                version: packages[n].version,
                edition: Some("2021"@),
                features: packages[n].features,
                deps: packages[n].dependencies.filter(
                    |name: Seq<char>| names_third_party(packages, root, name),
                ).map_values(|name: Seq<char>| ":"@ + rule_name(name)),
                crate_type: None,
                build_root: None,
                raw_text: Seq::empty(),
                preceding_content: Seq::empty(),
                pinned: false,
                modified: false,
            },
        ) + "\n"@,
{
    let package = packages[n];
    labels_are_of_third_party_packages(package.dependencies, packages, root, ":"@);
    if !package.is_local && package.name != root {
        lemma_third_party_block(package, packages, root);
        let c = third_party_definition(package, packages, root);
        let before = third_party_blocks(packages, root, n);
        assert(before + (crate_block(c) + "\n"@) =~= before + crate_block(c) + "\n"@);
    }
}

/// Whether the package at `k` is the last one with the id.
pub open spec fn is_last_with_id(
    packages: Seq<MetadataPackageSpec>,
    id: Seq<char>,
    k: int,
) -> bool {
    &&& 0 <= k < packages.len()
    &&& packages[k].id == id
    &&& forall|j: int| k < j < packages.len() ==> (#[trigger] packages[j]).id != id
}

/// The last package with an id counts.
pub proof fn last_package_counts(packages: Seq<MetadataPackageSpec>, id: Seq<char>, k: int)
    ensures
        is_last_with_id(packages, id, k) ==> package_with_id(packages, id) == Some(packages[k]),
        (forall|j: int| 0 <= j < packages.len() ==> (#[trigger] packages[j]).id != id)
            ==> package_with_id(packages, id) is None,
    decreases packages.len(),
{
    if packages.len() > 0 {
        let rest = packages.drop_last();
        assert(packages[packages.len() - 1] == packages.last());
        if is_last_with_id(packages, id, k) && k < packages.len() - 1 {
            assert forall|j: int| k < j < rest.len() implies (#[trigger] rest[j]).id != id by {
                assert(packages[j].id != id);
            }
        }
        if forall|j: int| 0 <= j < packages.len() ==> (#[trigger] packages[j]).id != id {
            assert forall|j: int| 0 <= j < rest.len() implies (#[trigger] rest[j]).id != id by {
                assert(packages[j].id != id);
            }
        }
        last_package_counts(rest, id, k);
    }
}

/// Nodes are resolved one by one: a node that has a package gives a resolved package with the
/// package's name and version, local if it has no source, with the node's features and, for each
/// dependency, the name of its package, or its own name if it has none. Any other node gives none.
pub proof fn nodes_are_resolved_one_by_one(
    packages: Seq<MetadataPackageSpec>,
    nodes: Seq<MetadataNodeSpec>,
    node: MetadataNodeSpec,
    k: int,
)
    ensures
        resolved(packages, Seq::empty()).len() == 0,
        (forall|j: int| 0 <= j < packages.len() ==> (#[trigger] packages[j]).id != node.id)
            ==> resolved(packages, nodes.push(node)) == resolved(packages, nodes),
        is_last_with_id(packages, node.id, k) ==> {
            let all = resolved(packages, nodes.push(node));
            let r = all.last();
            &&& all.len() > 0 && all.drop_last() == resolved(packages, nodes)
            &&& r.name == packages[k].name && r.version == packages[k].version
            &&& r.is_local <==> packages[k].source is None
            &&& r.features == node.features
            &&& r.dependencies.len() == node.deps.len()
            &&& forall|d: int, m: int|
                0 <= d < node.deps.len() && #[trigger] is_last_with_id(
                    packages,
                    node.deps[d].pkg,
                    m,
                ) ==> r.dependencies[d] == packages[m].name
            &&& forall|d: int|
                0 <= d < node.deps.len() && (forall|j: int|
                    0 <= j < packages.len() ==> (#[trigger] packages[j]).id != node.deps[d].pkg)
                    ==> #[trigger] r.dependencies[d] == node.deps[d].name
        },
{
    last_package_counts(packages, node.id, k);
    let all = resolved(packages, nodes.push(node));
    assert(nodes.push(node).drop_last() =~= nodes);
    assert(nodes.push(node).last() == node);
    if is_last_with_id(packages, node.id, k) {
        let r = all.last();
        assert(all.drop_last() =~= resolved(packages, nodes));
        assert forall|d: int, m: int|
            0 <= d < node.deps.len() && #[trigger] is_last_with_id(
                packages,
                node.deps[d].pkg,
                m,
            ) implies r.dependencies[d] == packages[m].name by {
            last_package_counts(packages, node.deps[d].pkg, m);
        }
        assert forall|d: int|
            0 <= d < node.deps.len() && (forall|j: int|
                0 <= j < packages.len() ==> (#[trigger] packages[j]).id != node.deps[d].pkg) implies
            #[trigger] r.dependencies[d] == node.deps[d].name by {
            last_package_counts(packages, node.deps[d].pkg, 0);
        }
    }
}

/// What was resolved is what the nodes of the graph say; without a graph it is nothing.
pub proof fn packages_come_from_the_graph(metadata: CargoMetadata)
    ensures
        metadata.resolve is None ==> resolved(
            metadata.packages.deep_view(),
            graph_nodes(metadata),
        ).len() == 0,
        metadata.resolve is Some ==> {
            let nodes = metadata.resolve->0.nodes;
            &&& graph_nodes(metadata).len() == nodes@.len()
            &&& forall|i: int|
                0 <= i < nodes@.len() ==> #[trigger] graph_nodes(metadata)[i]
                    == nodes@[i].deep_view()
        },
{
}

/// What a package, a node, a dependency of a node and a resolved package say is all of what they
/// hold.
pub proof fn packages_are_seen_whole(
    package: MetadataPackage,
    node: MetadataNode,
    dep: MetadataNodeDep,
    found: ResolvedPackage,
)
    ensures
        ({
            let p = package.deep_view();
            let r = found.deep_view();
            &&& p.name == package.name@ && p.version == package.version@ && p.id == package.id@
            &&& p.source is Some <==> package.source is Some
            &&& package.source is Some ==> p.source->0 == package.source->0@
            &&& node.deep_view().id == node.id@
            &&& node.deep_view().features == node.features@.map_values(|f: String| f@)
            &&& node.deep_view().deps == node.deps@.map_values(|d: MetadataNodeDep| d.deep_view())
            &&& dep.deep_view().name == dep.name@ && dep.deep_view().pkg == dep.pkg@
            &&& r.name == found.name@ && r.version == found.version@
            &&& r.is_local == found.is_local
            &&& r.features == found.features@.map_values(|f: String| f@)
            &&& r.dependencies == found.dependencies@.map_values(|d: String| d@)
            &&& found@ == r
        }),
{
    assert(node.features.deep_view() =~= node.features@.map_values(|f: String| f@));
    assert(node.deps.deep_view() =~= node.deps@.map_values(|d: MetadataNodeDep| d.deep_view()));
    assert(found.features.deep_view() =~= found.features@.map_values(|f: String| f@));
    assert(found.dependencies.deep_view() =~= found.dependencies@.map_values(|d: String| d@));
}

/// A block is its opening line, a line for each field that is there, and its closing line: name,
/// crate and version always, then edition, crate type, features, dependencies and build root.
pub proof fn block_has_a_line_for_each_field(c: CrateSpec, value: Seq<char>, field: Seq<char>)
    ensures
        crate_block(c) == "rust_crate(\n    name = \""@ + c.name + "\",\n    crate = \""@
            + c.crate_name + "\",\n    version = \""@ + c.version + "\",\n"@ + optional_line(
            "edition"@,
            c.edition,
        ) + optional_line("crate_type"@, c.crate_type) + list_lines("features"@, c.features)
            + list_lines("deps"@, c.deps) + optional_line("build_root"@, c.build_root) + ")\n"@,
        optional_line(field, None).len() == 0,
        optional_line(field, Some(value)) == "    "@ + field + " = \""@ + value + "\",\n"@,
        field_line(field, value) == "    "@ + field + " = \""@ + value + "\",\n"@,
{
    reveal_strlit("rust_crate(\n    name = \"");
    reveal_strlit("\",\n    crate = \"");
    reveal_strlit("\",\n    version = \"");
    reveal_strlit("\",\n");
    reveal_strlit("rust_crate(\n");
    reveal_strlit("    ");
    reveal_strlit("name");
    reveal_strlit("crate");
    reveal_strlit("version");
    reveal_strlit(" = \"");
    let head = "rust_crate(\n    name = \""@ + c.name + "\",\n    crate = \""@ + c.crate_name
        + "\",\n    version = \""@ + c.version + "\",\n"@;
    assert("rust_crate(\n"@ + field_line("name"@, c.name) + field_line("crate"@, c.crate_name)
        + field_line("version"@, c.version) =~= head);
}

/// A list has a line for each item, in order, between the line that opens it and the one that closes
/// it; an empty list has no lines.
pub proof fn list_has_a_line_for_each_item(
    field: Seq<char>,
    a: Seq<Seq<char>>,
    b: Seq<Seq<char>>,
    item: Seq<char>,
)
    ensures
        list_lines(field, Seq::empty()).len() == 0,
        a.len() > 0 ==> list_lines(field, a) == "    "@ + field + " = [\n"@ + item_lines(a)
            + "    ],\n"@,
        item_lines(Seq::empty()).len() == 0,
        item_lines(seq![item]) == "        \""@ + item + "\",\n"@,
        item_lines(a + b) == item_lines(a) + item_lines(b),
    decreases b.len(),
{
    reveal_with_fuel(item_lines, 2);
    assert(seq![item].drop_last() =~= Seq::empty());
    assert(item_lines(seq![item]) =~= "        \""@ + item + "\",\n"@);
    if b.len() == 0 {
        assert(a + b =~= a);
        assert(item_lines(a) + Seq::<char>::empty() =~= item_lines(a));
    } else {
        let rest = b.drop_last();
        list_has_a_line_for_each_item(field, a, rest, item);
        assert((a + b).drop_last() =~= a + rest);
        assert((a + b).last() == b.last());
        let line = "        \""@ + b.last() + "\",\n"@;
        assert(item_lines(a) + item_lines(rest) + line =~= item_lines(a) + (item_lines(rest)
            + line));
    }
}

/// A written file is the header, the definitions in order, and the trailer. A definition that is not
/// modified is written as the block that it was read from, any other as a generated block; a blank
/// line follows.
pub proof fn file_has_every_definition(
    header: Seq<char>,
    a: Seq<CrateSpec>,
    c: CrateSpec,
    trailer: Seq<char>,
)
    ensures
        rendered(header, Seq::empty(), trailer) == header + trailer,
        !c.modified && c.raw_text.len() > 0 ==> rendered(header, a.push(c), trailer) == rendered(
            header,
            a,
            Seq::empty(),
        ) + c.raw_text + "\n\n"@ + trailer,
        c.modified || c.raw_text.len() == 0 ==> rendered(header, a.push(c), trailer) == rendered(
            header,
            a,
            Seq::empty(),
        ) + crate_block(c) + "\n"@ + trailer,
{
    let none = Seq::<char>::empty();
    assert(header + none + trailer =~= header + trailer);
    assert(a.push(c).drop_last() =~= a);
    assert(a.push(c).last() == c);
    let entries = crate_entries(a);
    assert(rendered(header, a, none) =~= header + entries);
    assert(header + (entries + crate_entry(c)) + trailer =~= header + entries + crate_entry(c)
        + trailer);
    assert(header + entries + (c.raw_text + "\n\n"@) + trailer =~= header + entries + c.raw_text
        + "\n\n"@ + trailer);
    assert(header + entries + (crate_block(c) + "\n"@) + trailer =~= header + entries
        + crate_block(c) + "\n"@ + trailer);
}

} // verus!
