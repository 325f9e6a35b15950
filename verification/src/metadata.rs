//! Packages as `cargo metadata` resolves them.

use crate::crate_def::{crate_name_to_rule_name, rule_name, CrateDefinition, CrateSpec};
use crate::text::{copy_texts, lemma_filter_step};
use vstd::prelude::*;

verus! {

/// What `cargo metadata` reports: the packages, and how they were resolved.
#[derive(Debug)]
pub struct CargoMetadata {
    pub packages: Vec<MetadataPackage>,
    pub resolve: Option<MetadataResolve>,
}

/// A package of the metadata. A local package has no source.
#[derive(Debug)]
pub struct MetadataPackage {
    pub name: String,
    pub version: String,
    pub id: String,
    pub source: Option<String>,
}

/// The resolved dependency graph.
#[derive(Debug)]
pub struct MetadataResolve {
    pub nodes: Vec<MetadataNode>,
}

/// One package of the graph, by id, with its activated features and its dependencies.
#[derive(Debug)]
pub struct MetadataNode {
    pub id: String,
    pub features: Vec<String>,
    pub deps: Vec<MetadataNodeDep>,
}

/// A dependency of a package of the graph: the name under which code refers to it, and the id of the
/// package.
#[derive(Debug)]
pub struct MetadataNodeDep {
    pub name: String,
    pub pkg: String,
}

/// A resolved package.
#[derive(Debug)]
pub struct ResolvedPackage {
    pub name: String,
    pub version: String,
    pub is_local: bool,
    pub features: Vec<String>,
    pub dependencies: Vec<String>,
}

/// What a [`MetadataPackage`] says.
pub struct MetadataPackageSpec {
    pub name: Seq<char>,
    pub version: Seq<char>,
    pub id: Seq<char>,
    pub source: Option<Seq<char>>,
}

/// What a [`MetadataNodeDep`] says.
pub struct MetadataNodeDepSpec {
    pub name: Seq<char>,
    pub pkg: Seq<char>,
}

/// What a [`MetadataNode`] says.
pub struct MetadataNodeSpec {
    pub id: Seq<char>,
    pub features: Seq<Seq<char>>,
    pub deps: Seq<MetadataNodeDepSpec>,
}

/// What a [`ResolvedPackage`] says.
#[verifier::ext_equal]
pub struct PackageSpec {
    pub name: Seq<char>,
    pub version: Seq<char>,
    pub is_local: bool,
    pub features: Seq<Seq<char>>,
    pub dependencies: Seq<Seq<char>>,
}

impl DeepView for MetadataPackage {
    type V = MetadataPackageSpec;

    open spec fn deep_view(&self) -> MetadataPackageSpec {
        MetadataPackageSpec {
            name: self.name@,
            version: self.version@,
            id: self.id@,
            source: self.source.deep_view(),
        }
    }
}

impl DeepView for MetadataNodeDep {
    type V = MetadataNodeDepSpec;

    open spec fn deep_view(&self) -> MetadataNodeDepSpec {
        MetadataNodeDepSpec { name: self.name@, pkg: self.pkg@ }
    }
}

impl DeepView for MetadataNode {
    type V = MetadataNodeSpec;

    open spec fn deep_view(&self) -> MetadataNodeSpec {
        MetadataNodeSpec {
            id: self.id@,
            features: self.features.deep_view(),
            deps: self.deps.deep_view(),
        }
    }
}

impl DeepView for ResolvedPackage {
    type V = PackageSpec;

    open spec fn deep_view(&self) -> PackageSpec {
        PackageSpec {
            name: self.name@,
            version: self.version@,
            is_local: self.is_local,
            features: self.features.deep_view(),
            dependencies: self.dependencies.deep_view(),
        }
    }
}

impl View for ResolvedPackage {
    type V = PackageSpec;

    open spec fn view(&self) -> PackageSpec {
        self.deep_view()
    }
}

/// The nodes of the resolved graph; none if the packages were not resolved.
pub open spec fn graph_nodes(metadata: CargoMetadata) -> Seq<MetadataNodeSpec> {
    match metadata.resolve {
        Some(resolve) => resolve.nodes.deep_view(),
        None => Seq::empty(),
    }
}

/// The last package with the id, if there is one.
pub open spec fn package_with_id(packages: Seq<MetadataPackageSpec>, id: Seq<char>) -> Option<
    MetadataPackageSpec,
>
    decreases packages.len(),
{
    if packages.len() == 0 {
        None
    } else if packages.last().id == id {
        Some(packages.last())
    } else {
        package_with_id(packages.drop_last(), id)
    }
}

/// The name of the package that a dependency stands for; of one that there is no package for, the
/// name that it has in code.
pub open spec fn dependency_name(
    packages: Seq<MetadataPackageSpec>,
    dep: MetadataNodeDepSpec,
) -> Seq<char> {
    match package_with_id(packages, dep.pkg) {
        Some(package) => package.name,
        None => dep.name,
    }
}

/// The resolved package of a node and the package with its id.
pub open spec fn resolved_package(
    packages: Seq<MetadataPackageSpec>,
    package: MetadataPackageSpec,
    node: MetadataNodeSpec,
) -> PackageSpec {
    PackageSpec {
        name: package.name,
        version: package.version,
        is_local: package.source is None,
        features: node.features,
        dependencies: node.deps.map_values(
            |dep: MetadataNodeDepSpec| dependency_name(packages, dep),
        ),
    }
}

/// The resolved packages, in the order of the nodes; a node without a package gives none.
pub open spec fn resolved(
    packages: Seq<MetadataPackageSpec>,
    nodes: Seq<MetadataNodeSpec>,
) -> Seq<PackageSpec>
    decreases nodes.len(),
{
    if nodes.len() == 0 {
        Seq::empty()
    } else {
        let rest = resolved(packages, nodes.drop_last());
        match package_with_id(packages, nodes.last().id) {
            Some(package) => rest.push(resolved_package(packages, package, nodes.last())),
            None => rest,
        }
    }
}

/// Whether the package is neither local nor the root package.
pub open spec fn is_third_party(package: PackageSpec, root: Seq<char>) -> bool {
    !package.is_local && package.name != root
}

/// The labels of the rules of crates in the same BUILD file.
pub open spec fn local_labels(crate_names: Seq<Seq<char>>) -> Seq<Seq<char>> {
    crate_names.map_values(|name: Seq<char>| ":"@ + rule_name(name))
}

/// The definition of a resolved package.
pub open spec fn package_definition(package: PackageSpec) -> CrateSpec {
    CrateSpec {
        name: rule_name(package.name),
        crate_name: package.name,
        version: package.version,
        edition: Some("2021"@),
        features: package.features,
        deps: local_labels(package.dependencies),
        crate_type: None,
        build_root: None,
        raw_text: Seq::empty(),
        preceding_content: Seq::empty(),
        pinned: false,
        modified: false,
    }
}

/// The definitions of the packages that are neither local nor the root package.
pub open spec fn definitions(packages: Seq<PackageSpec>, root: Seq<char>) -> Seq<CrateSpec> {
    packages.filter(|p: PackageSpec| is_third_party(p, root)).map_values(
        |p: PackageSpec| package_definition(p),
    )
}

/// The last package with the id, if there is one.
fn find_package<'a>(packages: &'a Vec<MetadataPackage>, id: &String) -> (result: Option<&'a MetadataPackage>)
    ensures
        result.deep_view() == package_with_id(packages.deep_view(), id@),
{
    let mut i: usize = packages.len();
    assert(packages.deep_view().take(i as int) =~= packages.deep_view());
    while i > 0
        invariant
            i <= packages.len(),
            package_with_id(packages.deep_view(), id@) == package_with_id(
                packages.deep_view().take(i as int),
                id@,
            ),
        decreases i,
    {
        i -= 1;
        assert(packages.deep_view().take(i + 1).drop_last() =~= packages.deep_view().take(
            i as int,
        ));
        if packages[i].id == *id {
            return Some(&packages[i]);
        }
    }
    None
}

/// The names of the packages that a node depends on.
fn dependency_names(packages: &Vec<MetadataPackage>, deps: &Vec<MetadataNodeDep>) -> (names: Vec<
    String,
>)
    ensures
        names.deep_view() == deps.deep_view().map_values(
            |dep: MetadataNodeDepSpec| dependency_name(packages.deep_view(), dep),
        ),
{
    let ghost all = deps.deep_view();
    let ghost f = |dep: MetadataNodeDepSpec| dependency_name(packages.deep_view(), dep);
    let mut names: Vec<String> = Vec::new();
    assert(names.deep_view() =~= all.take(0).map_values(f));
    for i in 0..deps.len()
        invariant
            all == deps.deep_view(),
            f == (|dep: MetadataNodeDepSpec| dependency_name(packages.deep_view(), dep)),
            names.deep_view() == all.take(i as int).map_values(f),
    {
        let ghost before = names.deep_view();
        let name = match find_package(packages, &deps[i].pkg) {
            Some(package) => package.name.clone(),
            None => deps[i].name.clone(),
        };
        let ghost shown = name@;
        names.push(name);
        assert(names.deep_view() =~= before.push(shown));
        assert(names.deep_view() =~= all.take(i + 1).map_values(f));
    }
    assert(all.take(deps.len() as int) =~= all);
    names
}

/// The resolved packages of the metadata, with activated features and dependencies.
pub fn resolve_packages(metadata: &CargoMetadata) -> (result: Vec<ResolvedPackage>)
    ensures
        result.deep_view() == resolved(metadata.packages.deep_view(), graph_nodes(*metadata)),
{
    let ghost packages = metadata.packages.deep_view();
    let mut result: Vec<ResolvedPackage> = Vec::new();
    assert(result.deep_view() =~= Seq::<PackageSpec>::empty());
    if let Some(resolve) = &metadata.resolve {
        let nodes = &resolve.nodes;
        let ghost all = nodes.deep_view();
        for i in 0..nodes.len()
            invariant
                all == nodes.deep_view(),
                packages == metadata.packages.deep_view(),
                result.deep_view() == resolved(packages, all.take(i as int)),
        {
            assert(all.take(i + 1).drop_last() =~= all.take(i as int));
            let ghost before = result.deep_view();
            if let Some(package) = find_package(&metadata.packages, &nodes[i].id) {
                let next = ResolvedPackage {
                    name: package.name.clone(),
                    version: package.version.clone(),
                    is_local: package.source.is_none(),
                    features: copy_texts(&nodes[i].features),
                    dependencies: dependency_names(&metadata.packages, &nodes[i].deps),
                };
                let ghost p = next@;
                result.push(next);
                assert(result.deep_view() =~= before.push(p));
            }
        }
        assert(all.take(nodes.len() as int) =~= all);
    }
    result
}

/// The labels of the rules of crates in the same BUILD file.
pub fn generate_local_labels(crate_names: &Vec<String>) -> (labels: Vec<String>)
    ensures
        labels.deep_view() == local_labels(crate_names.deep_view()),
{
    let ghost all = crate_names.deep_view();
    let mut labels: Vec<String> = Vec::new();
    for i in 0..crate_names.len()
        invariant
            all == crate_names.deep_view(),
            labels.deep_view() == local_labels(all.take(i as int)),
    {
        let ghost before = labels.deep_view();
        let mut label = ":".to_string();
        label.append(crate_name_to_rule_name(crate_names[i].as_str()).as_str());
        let ghost shown = label@;
        labels.push(label);
        assert(labels.deep_view() =~= before.push(shown));
        assert(labels.deep_view() =~= local_labels(all.take(i + 1)));
    }
    assert(all.take(crate_names.len() as int) =~= all);
    labels
}

/// The definitions of the packages that are neither local nor the root package.
pub fn crate_definitions(packages: &[ResolvedPackage], root: &String) -> (result: Vec<CrateDefinition>)
    ensures
        result.deep_view() == definitions(packages.deep_view(), root@),
{
    let ghost all = packages.deep_view();
    let ghost p = |package: PackageSpec| is_third_party(package, root@);
    let ghost f = |package: PackageSpec| package_definition(package);
    let mut result: Vec<CrateDefinition> = Vec::new();
    proof {
        reveal(Seq::filter);
        assert(all.take(0).filter(p) =~= Seq::empty());
        assert(result.deep_view() =~= Seq::<PackageSpec>::empty().map_values(f));
    }
    for i in 0..packages.len()
        invariant
            all == packages.deep_view(),
            p == (|package: PackageSpec| is_third_party(package, root@)),
            f == (|package: PackageSpec| package_definition(package)),
            result.deep_view() == all.take(i as int).filter(p).map_values(f),
    {
        proof {
            lemma_filter_step(all, i as int, p);
        }
        let ghost before = result.deep_view();
        let ghost kept = all.take(i as int).filter(p);
        if !packages[i].is_local && packages[i].name != *root {
            let next = CrateDefinition {
                name: crate_name_to_rule_name(packages[i].name.as_str()),
                crate_name: packages[i].name.clone(),
                version: packages[i].version.clone(),
                edition: Some("2021".to_string()),
                features: copy_texts(&packages[i].features),
                deps: generate_local_labels(&packages[i].dependencies),
                crate_type: None,
                build_root: None,
                raw_text: String::new(),
                preceding_content: String::new(),
                pinned: false,
                modified: false,
            };
            let ghost c = next@;
            result.push(next);
            assert(result.deep_view() =~= before.push(c));
            assert(kept.push(all[i as int]).map_values(f) =~= kept.map_values(f).push(c));
        }
    }
    assert(all.take(packages.len() as int) =~= all);
    result
}

} // verus!
