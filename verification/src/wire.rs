//! Wiring the dependencies of the crates of a BUILD file.

use crate::build_file::{
    build_file, generate_kept_trailer, kept_trailer, parse_build_file_full, render_build_file,
    rendered,
};
use crate::crate_def::{CrateDefinition, CrateSpec};
use crate::metadata::{generate_local_labels, local_labels, PackageSpec, ResolvedPackage};
use crate::text::{decimal, decimal_text, holds, lemma_filter_step, same_items};
use vstd::prelude::*;

verus! {

/// What wiring did with one definition.
#[derive(Debug, Clone, Copy, PartialEq, Eq, Structural)]
pub enum WireOutcome {
    /// The definition is pinned and was left alone.
    Pinned,
    /// The dependencies were replaced; how many there were and how many there are.
    Updated { before: usize, after: usize },
    /// The definition had these dependencies already.
    Unchanged,
    /// The crate was not resolved in this version.
    Unresolved,
}

/// A wired BUILD file.
#[derive(Debug)]
pub struct WiredFile {
    pub crates: Vec<CrateDefinition>,
    /// What was done with each of the crates.
    pub outcomes: Vec<WireOutcome>,
    pub content: String,
}

/// Whether the package is the resolved crate of that name and version.
pub open spec fn is_resolved(package: PackageSpec, name: Seq<char>, version: Seq<char>) -> bool {
    !package.is_local && package.name == name && package.version == version
}

/// The dependencies of the crate in that version: those of the last resolved package with that name
/// and version that is not local.
pub open spec fn resolved_deps(
    packages: Seq<PackageSpec>,
    name: Seq<char>,
    version: Seq<char>,
) -> Option<Seq<Seq<char>>>
    decreases packages.len(),
{
    if packages.len() == 0 {
        None
    } else if is_resolved(packages.last(), name, version) {
        Some(packages.last().dependencies)
    } else {
        resolved_deps(packages.drop_last(), name, version)
    }
}

/// What wiring does with one definition.
pub open spec fn wire_outcome(c: CrateSpec, packages: Seq<PackageSpec>) -> WireOutcome {
    if c.pinned {
        WireOutcome::Pinned
    } else {
        match resolved_deps(packages, c.crate_name, c.version) {
            Some(deps) => if same_items(c.deps, local_labels(deps)) {
                WireOutcome::Unchanged
            } else {
                WireOutcome::Updated { before: c.deps.len() as usize, after: deps.len() as usize }
            },
            None => WireOutcome::Unresolved,
        }
    }
}

/// The definition with its resolved dependencies. One that is pinned, not resolved, or has the same
/// dependencies already stays as it is.
pub open spec fn wired(c: CrateSpec, packages: Seq<PackageSpec>) -> CrateSpec {
    match resolved_deps(packages, c.crate_name, c.version) {
        Some(deps) => if c.pinned || same_items(c.deps, local_labels(deps)) {
            c
        } else {
            CrateSpec { deps: local_labels(deps), modified: true, ..c }
        },
        None => c,
    }
}

/// What to say about one definition; nothing if it has its dependencies already.
pub open spec fn outcome_text(c: CrateSpec, outcome: WireOutcome) -> Option<Seq<char>> {
    match outcome {
        WireOutcome::Pinned => Some("Skipping pinned crate: "@ + c.name),
        WireOutcome::Updated { before, after } => Some(
            "Updating deps for "@ + c.name + ": "@ + decimal(before as nat) + " -> "@ + decimal(
                after as nat,
            ) + " dependencies"@,
        ),
        WireOutcome::Unchanged => None,
        WireOutcome::Unresolved => Some(
            "Warning: No resolved dependencies found for "@ + c.crate_name + " v"@ + c.version,
        ),
    }
}

/// How many names and versions were resolved: the packages that are not local, but for those with
/// the name and version of an earlier one.
pub open spec fn resolved_count(packages: Seq<PackageSpec>) -> nat
    decreases packages.len(),
{
    if packages.len() == 0 {
        0
    } else {
        let rest = packages.drop_last();
        let last = packages.last();
        if last.is_local || resolved_deps(rest, last.name, last.version) is Some {
            resolved_count(rest)
        } else {
            resolved_count(rest) + 1
        }
    }
}

/// The dependency lines of a Cargo.toml that requires each crate in its exact version.
pub open spec fn requirement_lines(crates: Seq<CrateSpec>) -> Seq<char>
    decreases crates.len(),
{
    if crates.len() == 0 {
        Seq::empty()
    } else {
        requirement_lines(crates.drop_last()) + (crates.last().crate_name + " = \"="@
            + crates.last().version + "\"\n"@)
    }
}

/// A Cargo.toml that requires each crate in its exact version.
pub open spec fn resolver_manifest(crates: Seq<CrateSpec>) -> Seq<char> {
    "[package]\nname = \"temp_dep_resolver\"\nversion = \"0.1.0\"\nedition = \"2021\"\n\n[lib]\npath = \"lib.rs\"\n\n[dependencies]\n"@
        + requirement_lines(crates)
}

/// A Cargo.toml that requires each crate in its exact version.
pub fn generate_resolver_manifest(crates: &Vec<CrateDefinition>) -> (manifest: String)
    ensures
        manifest@ == resolver_manifest(crates.deep_view()),
{
    let ghost all = crates.deep_view();
    let mut lines = String::new();
    for i in 0..crates.len()
        invariant
            all == crates.deep_view(),
            lines@ == requirement_lines(all.take(i as int)),
    {
        assert(all.take(i + 1).drop_last() =~= all.take(i as int));
        let mut line = crates[i].crate_name.clone();
        line.append(" = \"=");
        line.append(crates[i].version.as_str());
        line.append("\"\n");
        lines.append(line.as_str());
    }
    assert(all.take(crates.len() as int) =~= all);
    let mut manifest =
        "[package]\nname = \"temp_dep_resolver\"\nversion = \"0.1.0\"\nedition = \"2021\"\n\n[lib]\npath = \"lib.rs\"\n\n[dependencies]\n".to_string();
    manifest.append(lines.as_str());
    manifest
}

/// The dependencies of the crate in that version among the first `n` packages.
fn find_deps<'a>(
    packages: &'a [ResolvedPackage],
    n: usize,
    name: &String,
    version: &String,
) -> (result: Option<&'a Vec<String>>)
    requires
        n <= packages@.len(),
    ensures
        result.deep_view() == resolved_deps(packages.deep_view().take(n as int), name@, version@),
{
    let ghost all = packages.deep_view();
    let mut i: usize = n;
    while i > 0
        invariant
            i <= n <= packages@.len(),
            all == packages.deep_view(),
            resolved_deps(all.take(n as int), name@, version@) == resolved_deps(
                all.take(i as int),
                name@,
                version@,
            ),
        decreases i,
    {
        i -= 1;
        assert(all.take(i + 1).drop_last() =~= all.take(i as int));
        if !packages[i].is_local && packages[i].name == *name && packages[i].version == *version {
            return Some(&packages[i].dependencies);
        }
    }
    None
}

/// How many names and versions were resolved.
pub fn count_resolved(packages: &[ResolvedPackage]) -> (count: usize)
    ensures
        count == resolved_count(packages.deep_view()),
{
    let ghost all = packages.deep_view();
    let mut count: usize = 0;
    for i in 0..packages.len()
        invariant
            all == packages.deep_view(),
            count == resolved_count(all.take(i as int)),
            count <= i,
    {
        assert(all.take(i + 1).drop_last() =~= all.take(i as int));
        if !packages[i].is_local && find_deps(
            packages,
            i,
            &packages[i].name,
            &packages[i].version,
        ).is_none() {
            count += 1;
        }
    }
    assert(all.take(packages.len() as int) =~= all);
    count
}

/// Whether each item of `a` is in `b`.
fn all_in(a: &Vec<String>, b: &Vec<String>) -> (result: bool)
    ensures
        result == forall|item: Seq<char>|
            #[trigger] a.deep_view().contains(item) ==> b.deep_view().contains(item),
{
    for i in 0..a.len()
        invariant
            forall|j: int| 0 <= j < i ==> b.deep_view().contains(#[trigger] a.deep_view()[j]),
    {
        if !holds(b, &a[i]) {
            assert(a.deep_view().contains(a.deep_view()[i as int]));
            return false;
        }
    }
    true
}

/// The definition with its resolved dependencies, and what was done.
fn wire_crate(crate_def: CrateDefinition, packages: &[ResolvedPackage]) -> (result: (CrateDefinition, WireOutcome))
    ensures
        result.0@ == wired(crate_def@, packages.deep_view()),
        result.1 == wire_outcome(crate_def@, packages.deep_view()),
{
    assert(packages.deep_view().take(packages@.len() as int) =~= packages.deep_view());
    if crate_def.pinned {
        return (crate_def, WireOutcome::Pinned);
    }
    match find_deps(packages, packages.len(), &crate_def.crate_name, &crate_def.version) {
        Some(deps) => {
            let labels = generate_local_labels(deps);
            if all_in(&crate_def.deps, &labels) && all_in(&labels, &crate_def.deps) {
                assert(same_items(crate_def@.deps, labels.deep_view()));
                (crate_def, WireOutcome::Unchanged)
            } else {
                assert(!same_items(crate_def@.deps, labels.deep_view()));
                assert(labels.deep_view().len() == deps.deep_view().len());
                let outcome = WireOutcome::Updated {
                    before: crate_def.deps.len(),
                    after: labels.len(),
                };
                let mut result = crate_def;
                result.deps = labels;
                result.modified = true;
                (result, outcome)
            }
        },
        None => (crate_def, WireOutcome::Unresolved),
    }
}

/// Gives each definition its resolved dependencies; what was done with each.
pub fn wire_dependencies(crates: &Vec<CrateDefinition>, packages: &[ResolvedPackage]) -> (result: (
    Vec<CrateDefinition>,
    Vec<WireOutcome>,
))
    ensures
        result.0.deep_view() == crates.deep_view().map_values(
            |c: CrateSpec| wired(c, packages.deep_view()),
        ),
        result.1@ == crates.deep_view().map_values(
            |c: CrateSpec| wire_outcome(c, packages.deep_view()),
        ),
{
    let ghost all = crates.deep_view();
    let ghost f = |c: CrateSpec| wired(c, packages.deep_view());
    let ghost g = |c: CrateSpec| wire_outcome(c, packages.deep_view());
    let mut result: Vec<CrateDefinition> = Vec::new();
    let mut outcomes: Vec<WireOutcome> = Vec::new();
    assert(result.deep_view() =~= all.take(0).map_values(f));
    for i in 0..crates.len()
        invariant
            all == crates.deep_view(),
            f == (|c: CrateSpec| wired(c, packages.deep_view())),
            g == (|c: CrateSpec| wire_outcome(c, packages.deep_view())),
            result.deep_view() == all.take(i as int).map_values(f),
            outcomes@ == all.take(i as int).map_values(g),
    {
        let ghost before = result.deep_view();
        let (next, outcome) = wire_crate(crates[i].clone(), packages);
        let ghost c = next@;
        result.push(next);
        outcomes.push(outcome);
        assert(result.deep_view() =~= before.push(c));
        assert(result.deep_view() =~= all.take(i + 1).map_values(f));
        assert(outcomes@ =~= all.take(i + 1).map_values(g));
    }
    assert(all.take(crates.len() as int) =~= all);
    (result, outcomes)
}

/// What to say about one definition; nothing if it has its dependencies already.
pub fn describe_outcome(crate_def: &CrateDefinition, outcome: WireOutcome) -> (message: Option<
    String,
>)
    ensures
        message.deep_view() == outcome_text(crate_def@, outcome),
{
    match outcome {
        WireOutcome::Pinned => {
            let mut message = "Skipping pinned crate: ".to_string();
            message.append(crate_def.name.as_str());
            Some(message)
        },
        WireOutcome::Updated { before, after } => {
            let mut message = "Updating deps for ".to_string();
            message.append(crate_def.name.as_str());
            message.append(": ");
            message.append(decimal_text(before).as_str());
            message.append(" -> ");
            message.append(decimal_text(after).as_str());
            message.append(" dependencies");
            Some(message)
        },
        WireOutcome::Unchanged => None,
        WireOutcome::Unresolved => {
            let mut message = "Warning: No resolved dependencies found for ".to_string();
            message.append(crate_def.crate_name.as_str());
            message.append(" v");
            message.append(crate_def.version.as_str());
            Some(message)
        },
    }
}

/// How many definitions were updated, and how many were left alone because they are pinned.
pub fn count_outcomes(outcomes: &Vec<WireOutcome>) -> (counts: (usize, usize))
    ensures
        counts.0 == outcomes@.filter(|outcome: WireOutcome| outcome is Updated).len(),
        counts.1 == outcomes@.filter(|outcome: WireOutcome| outcome is Pinned).len(),
{
    let ghost is_updated = |outcome: WireOutcome| outcome is Updated;
    let ghost is_pinned = |outcome: WireOutcome| outcome is Pinned;
    let mut updated: usize = 0;
    let mut pinned: usize = 0;
    proof {
        reveal(Seq::filter);
        assert(outcomes@.take(0).filter(is_updated) =~= Seq::empty());
        assert(outcomes@.take(0).filter(is_pinned) =~= Seq::empty());
    }
    for i in 0..outcomes.len()
        invariant
            is_updated == (|outcome: WireOutcome| outcome is Updated),
            is_pinned == (|outcome: WireOutcome| outcome is Pinned),
            updated == outcomes@.take(i as int).filter(is_updated).len(),
            pinned == outcomes@.take(i as int).filter(is_pinned).len(),
            updated <= i,
            pinned <= i,
    {
        proof {
            lemma_filter_step(outcomes@, i as int, is_updated);
            lemma_filter_step(outcomes@, i as int, is_pinned);
        }
        match outcomes[i] {
            WireOutcome::Updated { .. } => {
                updated += 1;
            },
            WireOutcome::Pinned => {
                pinned += 1;
            },
            _ => {},
        }
    }
    assert(outcomes@.take(outcomes.len() as int) =~= outcomes@);
    (updated, pinned)
}

/// Wires the dependencies of a BUILD file.
pub fn wire_build_file(content: &str, packages: &[ResolvedPackage]) -> (result: WiredFile)
    ensures
        result.crates.deep_view() == build_file(content@).crates.map_values(
            |c: CrateSpec| wired(c, packages.deep_view()),
        ),
        result.outcomes@ == build_file(content@).crates.map_values(
            |c: CrateSpec| wire_outcome(c, packages.deep_view()),
        ),
        result.content@ == rendered(
            build_file(content@).header,
            result.crates.deep_view(),
            kept_trailer(build_file(content@)),
        ),
{
    let file = parse_build_file_full(content);
    let (crates, outcomes) = wire_dependencies(&file.crates, packages);
    let trailer = generate_kept_trailer(&file);
    let content = render_build_file(file.header.as_str(), &crates, trailer.as_str());
    WiredFile { crates, outcomes, content }
}

/// Wiring changes nothing of a definition but its dependencies, leaves a pinned one alone, and gives
/// any other one that was resolved the labels of its resolved dependencies, in whatever order.
pub proof fn wiring_sets_dependencies(c: CrateSpec, packages: Seq<PackageSpec>)
    ensures
        wired(c, packages) == (CrateSpec {
            deps: wired(c, packages).deps,
            modified: wired(c, packages).modified,
            ..c
        }),
        c.pinned ==> wired(c, packages) == c,
        wired(c, packages).deps == c.deps ==> wired(c, packages) == c,
        !c.pinned && resolved_deps(packages, c.crate_name, c.version) is Some ==> same_items(
            wired(c, packages).deps,
            local_labels(resolved_deps(packages, c.crate_name, c.version)->0),
        ),
{
}

/// Wiring a second time changes nothing.
pub proof fn wiring_again_changes_nothing(c: CrateSpec, packages: Seq<PackageSpec>)
    ensures
        wired(wired(c, packages), packages) == wired(c, packages),
{
}

/// What wiring reports is what it did: a definition changes exactly if it is reported as updated.
pub proof fn wiring_reports_what_it_did(c: CrateSpec, packages: Seq<PackageSpec>)
    ensures
        wire_outcome(c, packages) is Updated <==> wired(c, packages).deps != c.deps,
        wire_outcome(c, packages) is Pinned <==> c.pinned,
        wire_outcome(c, packages) is Unresolved <==> !c.pinned && resolved_deps(
            packages,
            c.crate_name,
            c.version,
        ) is None,
{
}

} // verus!
