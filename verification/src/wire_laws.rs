//! What wiring does, and what is found in the file that it writes.

use crate::build_file::{build_file, kept_trailer, rendered};
use crate::crate_def::CrateSpec;
use crate::merge_effects::{can_be_written, lemma_crates_read_back};
use crate::merge_laws::bare;
use crate::metadata::{local_labels, PackageSpec};
use crate::reread::{is_intact, read_crates_are_intact};
use crate::text::decimal;
use crate::text_laws::rule_name_is_pointwise;
use crate::wire::{
    outcome_text, requirement_lines, resolved_count, resolved_deps, resolver_manifest,
    wire_outcome, wired, WireOutcome,
};
use vstd::prelude::*;

verus! {

/// Whether the package at `k` is the last resolved one of the crate in the version.
pub open spec fn is_last_resolved(
    packages: Seq<PackageSpec>,
    name: Seq<char>,
    version: Seq<char>,
    k: int,
) -> bool {
    &&& 0 <= k < packages.len()
    &&& !packages[k].is_local && packages[k].name == name && packages[k].version == version
    &&& forall|j: int|
        k < j < packages.len() && !(#[trigger] packages[j]).is_local && packages[j].name == name
            ==> packages[j].version != version
}

/// Whether no resolved package is of the crate in the version.
pub open spec fn is_not_resolved(
    packages: Seq<PackageSpec>,
    name: Seq<char>,
    version: Seq<char>,
) -> bool {
    forall|j: int|
        0 <= j < packages.len() && !(#[trigger] packages[j]).is_local && packages[j].name == name
            ==> packages[j].version != version
}

/// The last resolved package of a crate in a version counts.
pub proof fn last_resolved_package_counts(
    packages: Seq<PackageSpec>,
    name: Seq<char>,
    version: Seq<char>,
    k: int,
)
    ensures
        is_last_resolved(packages, name, version, k) ==> resolved_deps(packages, name, version)
            == Some(packages[k].dependencies),
        is_not_resolved(packages, name, version) ==> resolved_deps(packages, name, version) is None,
    decreases packages.len(),
{
    if packages.len() > 0 {
        let rest = packages.drop_last();
        let last = packages[packages.len() - 1];
        assert(last == packages.last());
        if is_last_resolved(packages, name, version, k) && k < packages.len() - 1 {
            assert forall|j: int|
                k < j < rest.len() && !(#[trigger] rest[j]).is_local && rest[j].name
                    == name implies rest[j].version != version by {
                assert(rest[j] == packages[j]);
            }
        }
        if is_not_resolved(packages, name, version) {
            assert forall|j: int|
                0 <= j < rest.len() && !(#[trigger] rest[j]).is_local && rest[j].name
                    == name implies rest[j].version != version by {
                assert(rest[j] == packages[j]);
            }
        }
        last_resolved_package_counts(rest, name, version, k);
    }
}

/// A label is a colon and the name with underscores for hyphens, one for each name in order.
pub proof fn labels_are_rule_names(names: Seq<Seq<char>>)
    ensures
        local_labels(names).len() == names.len(),
        forall|i: int|
            0 <= i < names.len() ==> {
                &&& (#[trigger] local_labels(names)[i]).len() == names[i].len() + 1
                &&& local_labels(names)[i][0] == ':'
                &&& forall|j: int|
                    0 <= j < names[i].len() ==> local_labels(names)[i][j + 1] == (if (
                    #[trigger] names[i][j]) == '-' {
                        '_'
                    } else {
                        names[i][j]
                    })
            },
{
    reveal_strlit(":");
    assert forall|i: int| 0 <= i < names.len() implies {
        &&& (#[trigger] local_labels(names)[i]).len() == names[i].len() + 1
        &&& local_labels(names)[i][0] == ':'
        &&& forall|j: int|
            0 <= j < names[i].len() ==> local_labels(names)[i][j + 1] == (if (#[trigger] names[i][j])
                == '-' {
                '_'
            } else {
                names[i][j]
            })
    } by {
        rule_name_is_pointwise(names[i]);
    }
}

/// What wiring makes of a definition that was resolved: unless it is pinned, it has the labels of
/// the resolved dependencies, as a list if it did not have the same labels already. Nothing else
/// changes but the mark, which says whether the dependencies changed or it was there before.
pub proof fn wiring_gives_the_resolved_dependencies(
    c: CrateSpec,
    packages: Seq<PackageSpec>,
    k: int,
)
    requires
        is_last_resolved(packages, c.crate_name, c.version, k),
    ensures
        ({
            let labels = local_labels(packages[k].dependencies);
            let had_them = forall|label: Seq<char>|
                #[trigger] c.deps.contains(label) <==> #[trigger] labels.contains(label);
            let r = wired(c, packages);
            &&& r.name == c.name && r.crate_name == c.crate_name && r.version == c.version
            &&& r.edition == c.edition && r.features == c.features && r.crate_type == c.crate_type
            &&& r.build_root == c.build_root && r.raw_text == c.raw_text
            &&& r.preceding_content == c.preceding_content && r.pinned == c.pinned
            &&& c.pinned || had_them ==> r.deps == c.deps && r.modified == c.modified
            &&& !c.pinned && !had_them ==> r.deps == labels && r.modified
            &&& c.pinned ==> wire_outcome(c, packages) == WireOutcome::Pinned
            &&& !c.pinned && had_them ==> wire_outcome(c, packages) == WireOutcome::Unchanged
            &&& !c.pinned && !had_them && c.deps.len() <= usize::MAX && labels.len() <= usize::MAX
                ==> wire_outcome(c, packages) == (WireOutcome::Updated {
                before: c.deps.len() as usize,
                after: labels.len() as usize,
            })
        }),
{
    last_resolved_package_counts(packages, c.crate_name, c.version, k);
}

/// Wiring leaves a definition alone that was not resolved.
pub proof fn wiring_leaves_the_rest(c: CrateSpec, packages: Seq<PackageSpec>)
    requires
        is_not_resolved(packages, c.crate_name, c.version),
    ensures
        wired(c, packages) == c,
        wire_outcome(c, packages) == if c.pinned {
            WireOutcome::Pinned
        } else {
            WireOutcome::Unresolved
        },
{
    last_resolved_package_counts(packages, c.crate_name, c.version, 0);
}

/// Wiring marks what it changes.
pub proof fn wiring_marks_what_it_changes(c: CrateSpec, packages: Seq<PackageSpec>)
    ensures
        wired(c, packages).deps != c.deps ==> wired(c, packages).modified,
        c.modified ==> wired(c, packages).modified,
        !wired(c, packages).modified ==> wired(c, packages) == c,
{
}

/// The file that wiring writes reads back with definitions that say what the wired ones say.
pub proof fn wired_file_reads_back(text: Seq<char>, packages: Seq<PackageSpec>)
    requires
        build_file(text).crates.len() > 0,
        can_be_written(build_file(text).crates.map_values(|c: CrateSpec| wired(c, packages))),
    ensures
        ({
            let file = build_file(text);
            let crates = file.crates.map_values(|c: CrateSpec| wired(c, packages));
            let again = build_file(rendered(file.header, crates, kept_trailer(file))).crates;
            &&& again.len() == file.crates.len()
            &&& forall|i: int|
                0 <= i < crates.len() ==> bare(#[trigger] again[i]) == bare(
                    wired(file.crates[i], packages),
                )
        }),
{
    let file = build_file(text);
    let crates = file.crates.map_values(|c: CrateSpec| wired(c, packages));
    read_crates_are_intact(text);
    assert forall|i: int| 0 <= i < crates.len() && !crates[i].modified implies is_intact(
        #[trigger] crates[i],
    ) by {
        wiring_marks_what_it_changes(file.crates[i], packages);
        assert(is_intact(file.crates[i]));
    }
    lemma_crates_read_back(text, crates);
}

/// After wiring the file has the resolved dependencies: a definition that is not pinned and was
/// resolved reads back with exactly the labels of its resolved dependencies, and with everything
/// else as it was.
pub proof fn wired_file_has_the_resolved_dependencies(
    text: Seq<char>,
    packages: Seq<PackageSpec>,
    i: int,
    k: int,
)
    requires
        can_be_written(build_file(text).crates.map_values(|c: CrateSpec| wired(c, packages))),
        0 <= i < build_file(text).crates.len(),
        !build_file(text).crates[i].pinned,
        is_last_resolved(
            packages,
            build_file(text).crates[i].crate_name,
            build_file(text).crates[i].version,
            k,
        ),
    ensures
        ({
            let file = build_file(text);
            let c = file.crates[i];
            let crates = file.crates.map_values(|c: CrateSpec| wired(c, packages));
            let r = build_file(rendered(file.header, crates, kept_trailer(file))).crates[i];
            let labels = local_labels(packages[k].dependencies);
            &&& forall|label: Seq<char>|
                #[trigger] r.deps.contains(label) <==> #[trigger] labels.contains(label)
            &&& r.name == c.name && r.crate_name == c.crate_name && r.version == c.version
            &&& r.edition == c.edition && r.features == c.features && r.crate_type == c.crate_type
            &&& r.build_root == c.build_root
        }),
{
    let file = build_file(text);
    let c = file.crates[i];
    let crates = file.crates.map_values(|c: CrateSpec| wired(c, packages));
    wired_file_reads_back(text, packages);
    wiring_gives_the_resolved_dependencies(c, packages, k);
    let again = build_file(rendered(file.header, crates, kept_trailer(file))).crates;
    let x = bare(again[i]);
    let y = bare(wired(c, packages));
    assert(x == y);
    assert(x.deps == y.deps && x.name == y.name && x.features == y.features);
}

/// The names and versions of the packages that are not local.
pub open spec fn resolved_names(packages: Seq<PackageSpec>) -> Set<(Seq<char>, Seq<char>)> {
    packages.filter(|p: PackageSpec| !p.is_local).map_values(
        |p: PackageSpec| (p.name, p.version),
    ).to_set()
}

proof fn lemma_resolved_names(packages: Seq<PackageSpec>, name: Seq<char>, version: Seq<char>)
    ensures
        resolved_names(packages).contains((name, version)) <==> resolved_deps(
            packages,
            name,
            version,
        ) is Some,
        resolved_names(packages).finite(),
        packages.len() == 0 ==> resolved_names(packages) == Set::<(Seq<char>, Seq<char>)>::empty(),
        packages.len() > 0 ==> resolved_names(packages) == if packages.last().is_local {
            resolved_names(packages.drop_last())
        } else {
            resolved_names(packages.drop_last()).insert(
                (packages.last().name, packages.last().version),
            )
        },
    decreases packages.len(),
{
    let p = |p: PackageSpec| !p.is_local;
    let f = |p: PackageSpec| (p.name, p.version);
    reveal(Seq::filter);
    let all = packages.filter(p).map_values(f);
    vstd::seq_lib::seq_to_set_is_finite(all);
    if packages.len() == 0 {
        assert(all =~= Seq::empty());
        assert(all.to_set() =~= Set::empty());
    } else {
        let rest = packages.drop_last();
        let last = packages.last();
        lemma_resolved_names(rest, name, version);
        let before = rest.filter(p).map_values(f);
        if !last.is_local {
            assert(all =~= before.push(f(last)));
            assert(all.to_set() =~= before.to_set().insert(f(last))) by {
                assert forall|x: (Seq<char>, Seq<char>)|
                    all.contains(x) <==> before.contains(x) || x == f(last) by {
                    if before.contains(x) {
                        assert(all[before.index_of(x)] == x);
                    }
                    assert(all[all.len() - 1] == f(last));
                    if all.contains(x) {
                        let i = all.index_of(x);
                        if i < before.len() {
                            assert(before[i] == x);
                        }
                    }
                }
            }
        } else {
            assert(all =~= before);
        }
    }
}

/// What is counted as resolved is pairs of a name and a version, each once.
pub proof fn resolved_pairs_are_counted_once(packages: Seq<PackageSpec>)
    ensures
        resolved_count(packages) == resolved_names(packages).len(),
    decreases packages.len(),
{
    if packages.len() > 0 {
        let rest = packages.drop_last();
        let last = packages.last();
        resolved_pairs_are_counted_once(rest);
        lemma_resolved_names(rest, last.name, last.version);
        lemma_resolved_names(packages, last.name, last.version);
        if !last.is_local {
            let pair = (last.name, last.version);
            if resolved_names(rest).contains(pair) {
                assert(resolved_names(rest).insert(pair) =~= resolved_names(rest));
            }
        }
    } else {
        lemma_resolved_names(packages, Seq::empty(), Seq::empty());
    }
}

/// The manifest for resolving requires each crate in its exact version, one line for each in order,
/// after the same lines for all.
pub proof fn manifest_requires_each_crate(a: Seq<CrateSpec>, b: Seq<CrateSpec>, c: CrateSpec)
    ensures
        resolver_manifest(Seq::empty())
            == "[package]\nname = \"temp_dep_resolver\"\nversion = \"0.1.0\"\nedition = \"2021\"\n\n[lib]\npath = \"lib.rs\"\n\n[dependencies]\n"@,
        resolver_manifest(a.push(c)) == resolver_manifest(a) + c.crate_name + " = \"="@ + c.version
            + "\"\n"@,
        resolver_manifest(a + b) == resolver_manifest(a) + requirement_lines(b),
    decreases b.len(),
{
    let none = Seq::<char>::empty();
    let head = resolver_manifest(Seq::empty());
    assert(head + none =~= head);
    assert(a.push(c).drop_last() =~= a);
    assert(resolver_manifest(a.push(c)) =~= resolver_manifest(a) + c.crate_name + " = \"="@
        + c.version + "\"\n"@);
    if b.len() == 0 {
        assert(a + b =~= a);
        assert(resolver_manifest(a) + none =~= resolver_manifest(a));
    } else {
        manifest_requires_each_crate(a, b.drop_last(), c);
        assert((a + b).drop_last() =~= a + b.drop_last());
        assert((a + b).last() == b.last());
        let last = b.last();
        let line = last.crate_name + " = \"="@ + last.version + "\"\n"@;
        let rest = requirement_lines(b.drop_last());
        assert(resolver_manifest(a + b) =~= resolver_manifest(a + b.drop_last()) + line);
        assert(resolver_manifest(a) + rest + line =~= resolver_manifest(a) + (rest + line));
    }
}

/// What is said of an outcome names the definition and the numbers, or nothing.
pub proof fn outcomes_are_said(c: CrateSpec, before: usize, after: usize)
    ensures
        outcome_text(c, WireOutcome::Unchanged) is None,
        outcome_text(c, WireOutcome::Pinned) == Some("Skipping pinned crate: "@ + c.name),
        outcome_text(c, WireOutcome::Unresolved) == Some(
            "Warning: No resolved dependencies found for "@ + c.crate_name + " v"@ + c.version,
        ),
        outcome_text(c, WireOutcome::Updated { before, after }) == Some(
            "Updating deps for "@ + c.name + ": "@ + decimal(before as nat) + " -> "@ + decimal(
                after as nat,
            ) + " dependencies"@,
        ),
{
}

} // verus!
