//! What every merge keeps.

use crate::build_file::{build_file, crate_entries, crate_entry, rendered};
use crate::crate_def::CrateSpec;
use crate::merge::{
    added, expanded, fork_notes, fork_text, forks_of, has_crate, has_distinct_crates, last_with,
    lemma_last_with, lemma_only_definition, merge_warnings, merged, outdated_text, overridden,
    override_warning, override_warnings, pinned_text, suffixed, update_warning, update_warnings,
    MergeMode,
};
use crate::metadata::{definitions, PackageSpec};
use crate::semver::{bumps_go_one_way, compatible, is_bump};
use crate::sort::{
    crate_le, is_stable_sort, sorting_again_changes_nothing, sorting_is_deterministic,
    sorting_keeps_definitions, with_names,
};
use crate::text::{absent, difference, difference_is_exact, replaced};
use crate::verify::{check_passes_if_all_is_met, is_met, verify_errors, VerifyMode};
use vstd::prelude::*;

verus! {

/// What becomes of an old definition in a merge.
pub open spec fn successor(c: CrateSpec, new: Seq<CrateSpec>, mode: MergeMode) -> CrateSpec {
    match mode {
        MergeMode::Override => overridden(c, new),
        MergeMode::UpdateOrExpandOnly => expanded(c, new),
        MergeMode::Parallel => c,
    }
}

/// The merged definitions: what becomes of each old one, then the new ones.
proof fn lemma_merged_old(old: Seq<CrateSpec>, new: Seq<CrateSpec>, mode: MergeMode, i: int)
    requires
        0 <= i < old.len(),
    ensures
        merged(old, new, mode).len() >= old.len(),
        merged(old, new, mode)[i] == successor(old[i], new, mode),
        successor(old[i], new, mode).crate_name == old[i].crate_name,
{
    lemma_last_with(new, old[i].crate_name);
}

/// A new definition of a crate that has no old one.
proof fn lemma_added(old: Seq<CrateSpec>, new: Seq<CrateSpec>, j: int)
    requires
        0 <= j < new.len(),
        !has_crate(old, new[j].crate_name),
    ensures
        added(old, new).contains(CrateSpec { modified: true, ..new[j] }),
{
    let p = |c: CrateSpec| !has_crate(old, c.crate_name);
    let f = |c: CrateSpec| CrateSpec { modified: true, ..c };
    new.lemma_filter_contains(p, j);
    let k = new.filter(p).index_of(new[j]);
    assert(new.filter(p).map_values(f)[k] == f(new[j]));
}

/// Where an added definition comes from.
proof fn lemma_added_source(old: Seq<CrateSpec>, new: Seq<CrateSpec>, k: int) -> (j: int)
    requires
        0 <= k < added(old, new).len(),
    ensures
        0 <= j < new.len(),
        added(old, new)[k] == (CrateSpec { modified: true, ..new[j] }),
        !has_crate(old, new[j].crate_name),
{
    let p = |c: CrateSpec| !has_crate(old, c.crate_name);
    let kept = new.filter(p);
    new.lemma_filter_pred(p, k);
    assert(kept.contains(kept[k]));
    new.lemma_filter_contains_rev(p, kept[k]);
    new.index_of(kept[k])
}

/// What becomes of each old definition is in the result of a merge.
pub proof fn old_definitions_live_on(
    old: Seq<CrateSpec>,
    new: Seq<CrateSpec>,
    mode: MergeMode,
    result: Seq<CrateSpec>,
)
    requires
        is_stable_sort(result, merged(old, new, mode)),
    ensures
        forall|i: int|
            0 <= i < old.len() ==> result.contains(successor(#[trigger] old[i], new, mode)),
        result.len() >= old.len(),
{
    sorting_keeps_definitions(result, merged(old, new, mode));
    assert forall|i: int| 0 <= i < old.len() implies result.contains(
        successor(#[trigger] old[i], new, mode),
    ) by {
        lemma_merged_old(old, new, mode, i);
        assert(merged(old, new, mode).contains(merged(old, new, mode)[i]));
    }
}

/// A new definition of a crate that has no old one is in the result of a merge, whatever the mode.
pub proof fn new_definitions_are_added(
    old: Seq<CrateSpec>,
    new: Seq<CrateSpec>,
    mode: MergeMode,
    result: Seq<CrateSpec>,
)
    requires
        is_stable_sort(result, merged(old, new, mode)),
    ensures
        forall|j: int|
            0 <= j < new.len() && !has_crate(old, new[j].crate_name) ==> result.contains(
                CrateSpec { modified: true, ..#[trigger] new[j] },
            ),
{
    let all = merged(old, new, mode);
    sorting_keeps_definitions(result, all);
    assert forall|j: int| 0 <= j < new.len() && !has_crate(old, new[j].crate_name) implies result
        .contains(CrateSpec { modified: true, ..#[trigger] new[j] }) by {
        let c = CrateSpec { modified: true, ..new[j] };
        if mode == MergeMode::Parallel {
            assert(all[old.len() + j] == c);
        } else {
            lemma_added(old, new, j);
            let k = added(old, new).index_of(c);
            assert(all[old.len() + k] == c);
        }
    }
}

/// A merge has a definition of every crate of both sources, and of no other crate.
pub proof fn merging_keeps_every_crate(
    old: Seq<CrateSpec>,
    new: Seq<CrateSpec>,
    mode: MergeMode,
    result: Seq<CrateSpec>,
    crate_name: Seq<char>,
)
    requires
        is_stable_sort(result, merged(old, new, mode)),
    ensures
        has_crate(result, crate_name) <==> has_crate(old, crate_name) || has_crate(new, crate_name),
{
    let all = merged(old, new, mode);
    sorting_keeps_definitions(result, all);
    old_definitions_live_on(old, new, mode, result);
    new_definitions_are_added(old, new, mode, result);
    if has_crate(old, crate_name) {
        let i = choose|i: int| 0 <= i < old.len() && #[trigger] old[i].crate_name == crate_name;
        lemma_merged_old(old, new, mode, i);
        let k = result.index_of(successor(old[i], new, mode));
        assert(result[k].crate_name == crate_name);
    } else if has_crate(new, crate_name) {
        let j = choose|j: int| 0 <= j < new.len() && #[trigger] new[j].crate_name == crate_name;
        let k = result.index_of(CrateSpec { modified: true, ..new[j] });
        assert(result[k].crate_name == crate_name);
    }
    if has_crate(result, crate_name) {
        let k = choose|k: int|
            0 <= k < result.len() && #[trigger] result[k].crate_name == crate_name;
        assert(result.contains(result[k]));
        let m = all.index_of(result[k]);
        if m < old.len() {
            lemma_merged_old(old, new, mode, m);
            assert(old[m].crate_name == crate_name);
        } else if mode == MergeMode::Parallel {
            assert(new[m - old.len()].crate_name == crate_name);
        } else {
            let j = lemma_added_source(old, new, m - old.len());
            assert(new[j].crate_name == crate_name);
        }
    }
}

/// A pinned definition is not touched: it is in the result of a merge as it was read, and a written
/// file holds its block as it was, whatever the mode.
pub proof fn pinned_definition_is_kept(
    old: Seq<CrateSpec>,
    new: Seq<CrateSpec>,
    mode: MergeMode,
    result: Seq<CrateSpec>,
    i: int,
)
    requires
        is_stable_sort(result, merged(old, new, mode)),
        0 <= i < old.len(),
        old[i].pinned,
        !old[i].modified,
    ensures
        result.contains(old[i]),
        old[i].raw_text.len() > 0 ==> crate_entry(old[i]) == old[i].raw_text + "\n\n"@,
{
    old_definitions_live_on(old, new, mode, result);
    assert(successor(old[i], new, mode) == old[i]);
}

/// A definition of a crate that the new source does not have is not touched, whatever the mode.
pub proof fn unmatched_definition_is_kept(
    old: Seq<CrateSpec>,
    new: Seq<CrateSpec>,
    mode: MergeMode,
    result: Seq<CrateSpec>,
    i: int,
)
    requires
        is_stable_sort(result, merged(old, new, mode)),
        0 <= i < old.len(),
        !has_crate(new, old[i].crate_name),
        !old[i].modified,
    ensures
        result.contains(old[i]),
{
    old_definitions_live_on(old, new, mode, result);
    lemma_last_with(new, old[i].crate_name);
    assert(successor(old[i], new, mode) == old[i]);
}

/// Whether `later` is the definition `c` after an update that took nothing away: under the same
/// names, in the same or a later compatible version, with all its features and dependencies and
/// everything else as it was.
pub open spec fn is_update(c: CrateSpec, later: CrateSpec) -> bool {
    &&& later.version == c.version || is_bump(c.version, later.version)
    &&& c.features.is_prefix_of(later.features)
    &&& c.deps.is_prefix_of(later.deps)
    &&& later == (CrateSpec {
        version: later.version,
        features: later.features,
        deps: later.deps,
        modified: later.modified,
        ..c
    })
}

/// Updating or expanding never downgrades and never removes: each old definition is in the result,
/// the same or updated.
pub proof fn update_never_downgrades_or_removes(
    old: Seq<CrateSpec>,
    new: Seq<CrateSpec>,
    result: Seq<CrateSpec>,
)
    requires
        is_stable_sort(result, merged(old, new, MergeMode::UpdateOrExpandOnly)),
    ensures
        forall|i: int|
            0 <= i < old.len() ==> {
                &&& result.contains(expanded(#[trigger] old[i], new))
                &&& is_update(old[i], expanded(old[i], new))
            },
{
    old_definitions_live_on(old, new, MergeMode::UpdateOrExpandOnly, result);
    assert forall|i: int| 0 <= i < old.len() implies {
        &&& result.contains(expanded(#[trigger] old[i], new))
        &&& is_update(old[i], expanded(old[i], new))
    } by {
        assert(result.contains(successor(old[i], new, MergeMode::UpdateOrExpandOnly)));
    }
}

/// Updating or expanding adds: what becomes of an old definition that is not pinned has all the
/// features and dependencies of the new one, and its version if that is a bump.
pub proof fn update_adds(c: CrateSpec, new: Seq<CrateSpec>)
    requires
        !c.pinned,
        has_crate(new, c.crate_name),
    ensures
        ({
            let available = last_with(new, c.crate_name)->0;
            let later = expanded(c, new);
            &&& is_bump(c.version, available.version) ==> later.version == available.version
            &&& forall|feature: Seq<char>|
                #[trigger] available.features.contains(feature) ==> later.features.contains(feature)
            &&& forall|dep: Seq<char>|
                #[trigger] available.deps.contains(dep) ==> later.deps.contains(dep)
        }),
{
    lemma_last_with(new, c.crate_name);
    let available = last_with(new, c.crate_name)->0;
    lemma_absent(available.features, c.features);
    lemma_absent(available.deps, c.deps);
}

/// A list with what it lacks of another list holds all of both.
proof fn lemma_absent(list: Seq<Seq<char>>, other: Seq<Seq<char>>)
    ensures
        forall|item: Seq<char>|
            #[trigger] list.contains(item) ==> (other + absent(list, other)).contains(item),
        forall|item: Seq<char>|
            #[trigger] other.contains(item) ==> (other + absent(list, other)).contains(item),
{
    let p = |item: Seq<char>| !other.contains(item);
    let whole = other + absent(list, other);
    assert forall|item: Seq<char>| #[trigger] other.contains(item) implies whole.contains(item) by {
        assert(whole[other.index_of(item)] == item);
    }
    assert forall|item: Seq<char>| #[trigger] list.contains(item) implies whole.contains(item) by {
        if !other.contains(item) {
            list.lemma_filter_contains(p, list.index_of(item));
            let k = absent(list, other).index_of(item);
            assert(whole[other.len() + k] == item);
        }
    }
}

/// Overriding replaces completely: where the new source has the crate, an old definition that is not
/// pinned gives way to the new one, under the old rule name and whatever the versions. In any other
/// case the old definition stays.
pub proof fn override_replaces(
    old: Seq<CrateSpec>,
    new: Seq<CrateSpec>,
    result: Seq<CrateSpec>,
    i: int,
)
    requires
        is_stable_sort(result, merged(old, new, MergeMode::Override)),
        0 <= i < old.len(),
    ensures
        ({
            let replaces = !old[i].pinned && has_crate(new, old[i].crate_name);
            &&& replaces ==> result.contains(
                CrateSpec {
                    name: old[i].name,
                    preceding_content: old[i].preceding_content,
                    modified: true,
                    ..last_with(new, old[i].crate_name)->0
                },
            )
            &&& !replaces ==> result.contains(old[i])
        }),
{
    old_definitions_live_on(old, new, MergeMode::Override, result);
    lemma_last_with(new, old[i].crate_name);
    assert(result.contains(successor(old[i], new, MergeMode::Override)));
}

/// After overriding, nothing but the new source counts for its crates: the result passes the exact
/// check against the new source, if that has one definition of each crate and nothing is pinned.
pub proof fn overridden_definitions_pass_the_check(
    old: Seq<CrateSpec>,
    new: Seq<CrateSpec>,
    result: Seq<CrateSpec>,
)
    requires
        has_distinct_crates(new),
        forall|i: int| 0 <= i < old.len() ==> !(#[trigger] old[i]).pinned,
        is_stable_sort(result, merged(old, new, MergeMode::Override)),
    ensures
        verify_errors(new, result, VerifyMode::Exact).len() == 0,
{
    let all = merged(old, new, MergeMode::Override);
    sorting_keeps_definitions(result, all);
    assert forall|j: int| 0 <= j < new.len() implies is_met(
        #[trigger] new[j],
        result,
        VerifyMode::Exact,
    ) by {
        let name = new[j].crate_name;
        merging_keeps_every_crate(old, new, MergeMode::Override, result, name);
        assert(has_crate(new, name));
        lemma_last_with(result, name);
        lemma_only_definition(new, j);
        let m = all.index_of(last_with(result, name)->0);
        if m < old.len() {
            lemma_merged_old(old, new, MergeMode::Override, m);
            assert(!old[m].pinned);
        } else {
            let k = lemma_added_source(old, new, m - old.len());
            assert(new[k].crate_name == new[j].crate_name);
            assert(k == j);
        }
    }
    check_passes_if_all_is_met(new, result, VerifyMode::Exact);
}

/// A parallel merge keeps both: every old definition as it is, and every new one, with its version
/// in its rule name where there are old definitions of its crate.
pub proof fn parallel_keeps_both(
    old: Seq<CrateSpec>,
    new: Seq<CrateSpec>,
    result: Seq<CrateSpec>,
)
    requires
        is_stable_sort(result, merged(old, new, MergeMode::Parallel)),
    ensures
        result.len() == old.len() + new.len(),
        forall|i: int| 0 <= i < old.len() ==> result.contains(#[trigger] old[i]),
        forall|j: int| 0 <= j < new.len() ==> result.contains(suffixed(#[trigger] new[j], old)),
        forall|j: int|
            0 <= j < new.len() ==> (#[trigger] suffixed(new[j], old)).name == if has_crate(
                old,
                new[j].crate_name,
            ) {
                new[j].name + "."@ + replaced(new[j].version, '.', '_')
            } else {
                new[j].name
            },
{
    let all = merged(old, new, MergeMode::Parallel);
    sorting_keeps_definitions(result, all);
    assert forall|i: int| 0 <= i < old.len() implies result.contains(#[trigger] old[i]) by {
        assert(all[i] == old[i]);
    }
    assert forall|j: int| 0 <= j < new.len() implies result.contains(
        suffixed(#[trigger] new[j], old),
    ) by {
        assert(all[old.len() + j] == suffixed(new[j], old));
    }
}

/// A merge has one result.
pub proof fn merging_is_deterministic(
    old: Seq<CrateSpec>,
    new: Seq<CrateSpec>,
    mode: MergeMode,
    a: Seq<CrateSpec>,
    b: Seq<CrateSpec>,
)
    requires
        is_stable_sort(a, merged(old, new, mode)),
        is_stable_sort(b, merged(old, new, mode)),
    ensures
        a == b,
{
    sorting_is_deterministic(a, b, merged(old, new, mode));
}

/// Nothing is absent from a list that holds it all.
proof fn lemma_nothing_absent(list: Seq<Seq<char>>, other: Seq<Seq<char>>)
    requires
        forall|item: Seq<char>| #[trigger] list.contains(item) ==> other.contains(item),
    ensures
        absent(list, other) == Seq::<Seq<char>>::empty(),
{
    let p = |item: Seq<char>| !other.contains(item);
    assert forall|i: int| 0 <= i < list.len() implies !p(#[trigger] list[i]) by {
        assert(list.contains(list[i]));
    }
    list.lemma_all_neg_filter_empty(p);
    assert(absent(list, other) =~= Seq::empty());
}

/// A definition that has all that the new source offers stays as it is.
proof fn lemma_nothing_to_expand(c: CrateSpec, new: Seq<CrateSpec>)
    requires
        has_crate(new, c.crate_name) && !c.pinned ==> {
            let available = last_with(new, c.crate_name)->0;
            &&& !is_bump(c.version, available.version)
            &&& forall|feature: Seq<char>|
                #[trigger] available.features.contains(feature) ==> c.features.contains(feature)
            &&& forall|dep: Seq<char>|
                #[trigger] available.deps.contains(dep) ==> c.deps.contains(dep)
        },
    ensures
        expanded(c, new) == (CrateSpec { modified: false, ..c }),
{
    lemma_last_with(new, c.crate_name);
    if has_crate(new, c.crate_name) && !c.pinned {
        let available = last_with(new, c.crate_name)->0;
        lemma_nothing_absent(available.features, c.features);
        lemma_nothing_absent(available.deps, c.deps);
        assert(c.features + Seq::<Seq<char>>::empty() =~= c.features);
        assert(c.deps + Seq::<Seq<char>>::empty() =~= c.deps);
    }
}

/// Each definition of an update's result stays as it is in a second update.
proof fn lemma_expanded_once(
    old: Seq<CrateSpec>,
    new: Seq<CrateSpec>,
    result: Seq<CrateSpec>,
    k: int,
)
    requires
        has_distinct_crates(new),
        is_stable_sort(result, merged(old, new, MergeMode::UpdateOrExpandOnly)),
        0 <= k < result.len(),
    ensures
        expanded(result[k], new) == (CrateSpec { modified: false, ..result[k] }),
{
    let all = merged(old, new, MergeMode::UpdateOrExpandOnly);
    sorting_keeps_definitions(result, all);
    assert(result.contains(result[k]));
    let m = all.index_of(result[k]);
    let c = result[k];
    if m < old.len() {
        let o = old[m];
        lemma_merged_old(old, new, MergeMode::UpdateOrExpandOnly, m);
        assert(c == expanded(o, new));
        lemma_last_with(new, o.crate_name);
        if has_crate(new, c.crate_name) && !c.pinned {
            let available = last_with(new, c.crate_name)->0;
            update_adds(o, new);
            bumps_go_one_way(available.version, o.version, available.version);
        }
        lemma_nothing_to_expand(c, new);
    } else {
        let j = lemma_added_source(old, new, m - old.len());
        lemma_only_definition(new, j);
        lemma_last_with(new, c.crate_name);
        bumps_go_one_way(c.version, c.version, c.version);
        lemma_nothing_to_expand(c, new);
    }
}

/// Updating or expanding a second time changes nothing, if the new source has one definition of
/// each crate: the result is the same, with nothing marked as modified.
pub proof fn updating_again_changes_nothing(
    old: Seq<CrateSpec>,
    new: Seq<CrateSpec>,
    result: Seq<CrateSpec>,
    again: Seq<CrateSpec>,
)
    requires
        has_distinct_crates(new),
        is_stable_sort(result, merged(old, new, MergeMode::UpdateOrExpandOnly)),
        is_stable_sort(again, merged(result, new, MergeMode::UpdateOrExpandOnly)),
    ensures
        again == result.map_values(|c: CrateSpec| CrateSpec { modified: false, ..c }),
{
    let f = |c: CrateSpec| CrateSpec { modified: false, ..c };
    let unmodified = result.map_values(f);
    let all = merged(result, new, MergeMode::UpdateOrExpandOnly);
    assert forall|j: int| 0 <= j < new.len() implies has_crate(
        result,
        (#[trigger] new[j]).crate_name,
    ) by {
        merging_keeps_every_crate(
            old,
            new,
            MergeMode::UpdateOrExpandOnly,
            result,
            new[j].crate_name,
        );
        assert(has_crate(new, new[j].crate_name));
    }
    let p = |c: CrateSpec| !has_crate(result, c.crate_name);
    new.lemma_all_neg_filter_empty(p);
    assert(added(result, new).len() == 0);
    assert forall|k: int| 0 <= k < result.len() implies expanded(#[trigger] result[k], new)
        == unmodified[k] by {
        lemma_expanded_once(old, new, result, k);
    }
    assert(all =~= unmodified);
    assert forall|i: int, j: int| 0 <= i < j < unmodified.len() implies crate_le(
        #[trigger] unmodified[i],
        #[trigger] unmodified[j],
    ) by {
        assert(crate_le(result[i], result[j]));
    }
    sorting_again_changes_nothing(unmodified, again);
}

/// Whether each crate has at most one definition, none of the old ones is pinned, and versions of
/// the same crate are compatible or the same.
pub open spec fn can_be_updated(old: Seq<CrateSpec>, new: Seq<CrateSpec>) -> bool {
    &&& has_distinct_crates(old)
    &&& has_distinct_crates(new)
    &&& forall|i: int| 0 <= i < old.len() ==> !(#[trigger] old[i]).pinned
    &&& forall|i: int, j: int|
        0 <= i < old.len() && 0 <= j < new.len() && (#[trigger] old[i]).crate_name == (
        #[trigger] new[j]).crate_name ==> compatible(old[i].version, new[j].version)
            || old[i].version == new[j].version
}

/// The definition of a crate of the new source in the result of an update.
proof fn lemma_updated_definition(
    old: Seq<CrateSpec>,
    new: Seq<CrateSpec>,
    result: Seq<CrateSpec>,
    j: int,
)
    requires
        can_be_updated(old, new),
        is_stable_sort(result, merged(old, new, MergeMode::UpdateOrExpandOnly)),
        0 <= j < new.len(),
    ensures
        is_met(new[j], result, VerifyMode::Compatible),
{
    let all = merged(old, new, MergeMode::UpdateOrExpandOnly);
    let name = new[j].crate_name;
    sorting_keeps_definitions(result, all);
    merging_keeps_every_crate(old, new, MergeMode::UpdateOrExpandOnly, result, name);
    assert(has_crate(new, name));
    lemma_last_with(result, name);
    lemma_only_definition(new, j);
    let c = last_with(result, name)->0;
    let m = all.index_of(c);
    if m < old.len() {
        lemma_merged_old(old, new, MergeMode::UpdateOrExpandOnly, m);
        assert(old[m].crate_name == new[j].crate_name);
        update_adds(old[m], new);
    } else {
        let k = lemma_added_source(old, new, m - old.len());
        assert(new[k].crate_name == new[j].crate_name);
        assert(k == j);
    }
}

/// After an update the requirements are met: the result passes the compatibility check against the
/// new source.
pub proof fn updated_definitions_pass_the_check(
    old: Seq<CrateSpec>,
    new: Seq<CrateSpec>,
    result: Seq<CrateSpec>,
)
    requires
        can_be_updated(old, new),
        is_stable_sort(result, merged(old, new, MergeMode::UpdateOrExpandOnly)),
    ensures
        verify_errors(new, result, VerifyMode::Compatible).len() == 0,
{
    assert forall|j: int| 0 <= j < new.len() implies is_met(
        #[trigger] new[j],
        result,
        VerifyMode::Compatible,
    ) by {
        lemma_updated_definition(old, new, result, j);
    }
    check_passes_if_all_is_met(new, result, VerifyMode::Compatible);
}

proof fn lemma_fork_noted(crates: Seq<CrateSpec>, n: int, at: int)
    requires
        0 <= at < n <= crates.len(),
        !has_crate(crates.take(at), crates[at].crate_name),
        forks_of(crates, crates[at].crate_name).len() > 1,
    ensures
        fork_notes(crates, n).contains(
            fork_text(crates[at].crate_name, forks_of(crates, crates[at].crate_name)),
        ),
    decreases n,
{
    let note = fork_text(crates[at].crate_name, forks_of(crates, crates[at].crate_name));
    let notes = fork_notes(crates, n);
    if at == n - 1 {
        assert(notes[notes.len() - 1] == note);
    } else {
        lemma_fork_noted(crates, n - 1, at);
        let rest = fork_notes(crates, n - 1);
        assert(notes[rest.index_of(note)] == note);
    }
}

/// The first definition of a crate.
proof fn lemma_first_definition(crates: Seq<CrateSpec>, crate_name: Seq<char>, n: int) -> (at: int)
    requires
        0 <= n <= crates.len(),
        has_crate(crates.take(n), crate_name),
    ensures
        0 <= at < n,
        crates[at].crate_name == crate_name,
        !has_crate(crates.take(at), crate_name),
    decreases n,
{
    let i = choose|i: int|
        0 <= i < n && #[trigger] crates.take(n)[i].crate_name == crate_name;
    if has_crate(crates.take(i), crate_name) {
        lemma_first_definition(crates, crate_name, i)
    } else {
        i
    }
}

/// Every crate with several definitions is noted, with all its definitions.
pub proof fn forks_are_noted(crates: Seq<CrateSpec>, crate_name: Seq<char>)
    requires
        forks_of(crates, crate_name).len() > 1,
    ensures
        fork_notes(crates, crates.len() as int).contains(
            fork_text(crate_name, forks_of(crates, crate_name)),
        ),
{
    let p = |c: CrateSpec| c.crate_name == crate_name;
    let forks = forks_of(crates, crate_name);
    crates.lemma_filter_pred(p, 0);
    assert(forks.contains(forks[0]));
    crates.lemma_filter_contains_rev(p, forks[0]);
    let i = crates.index_of(forks[0]);
    assert(crates.take(crates.len() as int)[i].crate_name == crate_name);
    let at = lemma_first_definition(crates, crate_name, crates.len() as int);
    lemma_fork_noted(crates, crates.len() as int, at);
}

proof fn lemma_override_warned(old: Seq<CrateSpec>, new: Seq<CrateSpec>, i: int, k: int)
    requires
        0 <= i < old.len(),
        0 <= k < override_warning(old[i], new).len(),
    ensures
        override_warnings(old, new).contains(override_warning(old[i], new)[k]),
    decreases old.len(),
{
    let warning = override_warning(old[i], new)[k];
    let all = override_warnings(old, new);
    let rest = override_warnings(old.drop_last(), new);
    if i == old.len() - 1 {
        assert(all[rest.len() + k] == warning);
    } else {
        lemma_override_warned(old.drop_last(), new, i, k);
        assert(all[rest.index_of(warning)] == warning);
    }
}

proof fn lemma_update_warned(old: Seq<CrateSpec>, new: Seq<CrateSpec>, i: int)
    requires
        0 <= i < old.len(),
        update_warning(old[i], new).len() > 0,
    ensures
        update_warnings(old, new).contains(update_warning(old[i], new)[0]),
    decreases old.len(),
{
    let warning = update_warning(old[i], new)[0];
    let all = update_warnings(old, new);
    let rest = update_warnings(old.drop_last(), new);
    if i == old.len() - 1 {
        assert(all[rest.len() as int] == warning);
    } else {
        lemma_update_warned(old.drop_last(), new, i);
        assert(all[rest.index_of(warning)] == warning);
    }
}

/// A pinned definition that a merge would have changed is warned about: when overriding, wherever
/// the new source has the crate; when updating, where it has a later compatible version or a
/// feature that the pinned definition lacks.
pub proof fn pinned_definition_is_warned_about(old: Seq<CrateSpec>, new: Seq<CrateSpec>, i: int)
    requires
        0 <= i < old.len(),
        old[i].pinned,
        has_crate(new, old[i].crate_name),
    ensures
        ({
            let available = last_with(new, old[i].crate_name)->0;
            &&& merge_warnings(old, new, MergeMode::Override).contains(
                pinned_text(old[i], available),
            )
            &&& is_bump(old[i].version, available.version) || (exists|feature: Seq<char>|
                #[trigger] available.features.contains(feature) && !old[i].features.contains(
                    feature,
                )) ==> merge_warnings(old, new, MergeMode::UpdateOrExpandOnly).contains(
                outdated_text(old[i], available),
            )
        }),
{
    lemma_last_with(new, old[i].crate_name);
    let available = last_with(new, old[i].crate_name)->0;
    let warning = override_warning(old[i], new);
    assert(warning[warning.len() - 1] == pinned_text(old[i], available));
    lemma_override_warned(old, new, i, warning.len() - 1);
    let missing = difference(available.features, old[i].features);
    difference_is_exact(available.features, old[i].features);
    if exists|feature: Seq<char>|
        #[trigger] available.features.contains(feature) && !old[i].features.contains(feature) {
        let feature = choose|feature: Seq<char>|
            #[trigger] available.features.contains(feature) && !old[i].features.contains(feature);
        assert(missing.contains(feature));
    }
    if is_bump(old[i].version, available.version) || missing.len() > 0 {
        lemma_update_warned(old, new, i);
    }
}

/// What a definition says, without where it was read.
pub open spec fn bare(c: CrateSpec) -> CrateSpec {
    CrateSpec {
        raw_text: Seq::empty(),
        preceding_content: Seq::empty(),
        pinned: false,
        modified: false,
        ..c
    }
}

/// What a written file shows of a definition.
spec fn as_written(c: CrateSpec) -> CrateSpec {
    if !c.modified && c.raw_text.len() > 0 {
        c
    } else {
        CrateSpec { modified: true, ..bare(c) }
    }
}

proof fn lemma_entries_as_written(crates: Seq<CrateSpec>)
    ensures
        crate_entries(crates.map_values(|c: CrateSpec| as_written(c))) == crate_entries(crates),
    decreases crates.len(),
{
    let f = |c: CrateSpec| as_written(c);
    if crates.len() > 0 {
        lemma_entries_as_written(crates.drop_last());
        assert(crates.map_values(f).drop_last() =~= crates.drop_last().map_values(f));
        assert(crate_entry(as_written(crates.last())) == crate_entry(crates.last()));
    }
}

/// Filtering by what a map keeps can be done before or after it.
proof fn lemma_filter_map(
    crates: Seq<CrateSpec>,
    p: spec_fn(CrateSpec) -> bool,
    f: spec_fn(CrateSpec) -> CrateSpec,
)
    requires
        forall|c: CrateSpec| #[trigger] p(f(c)) == p(c),
    ensures
        crates.map_values(f).filter(p) == crates.filter(p).map_values(f),
    decreases crates.len(),
{
    reveal(Seq::filter);
    let mapped = crates.map_values(f);
    if crates.len() > 0 {
        let rest = crates.drop_last();
        lemma_filter_map(rest, p, f);
        assert(mapped.drop_last() =~= rest.map_values(f));
        assert(mapped.last() == f(crates.last()));
        assert(p(f(crates.last())) == p(crates.last()));
        if p(crates.last()) {
            assert(rest.filter(p).push(crates.last()).map_values(f) =~= rest.filter(p).map_values(
                f,
            ).push(f(crates.last())));
        }
    } else {
        assert(mapped.filter(p) =~= crates.filter(p).map_values(f));
    }
}

/// What is written of sorted definitions is sorted.
proof fn lemma_sorted_as_written(sorted: Seq<CrateSpec>, crates: Seq<CrateSpec>)
    requires
        is_stable_sort(sorted, crates),
    ensures
        is_stable_sort(
            sorted.map_values(|c: CrateSpec| as_written(c)),
            crates.map_values(|c: CrateSpec| as_written(c)),
        ),
{
    let f = |c: CrateSpec| as_written(c);
    let x = sorted.map_values(f);
    let y = crates.map_values(f);
    assert forall|i: int, j: int| 0 <= i < j < x.len() implies crate_le(
        #[trigger] x[i],
        #[trigger] x[j],
    ) by {
        assert(crate_le(sorted[i], sorted[j]));
    }
    assert forall|crate_name: Seq<char>, name: Seq<char>|
        #[trigger] with_names(x, crate_name, name) == with_names(y, crate_name, name) by {
        let p = |c: CrateSpec| c.crate_name == crate_name && c.name == name;
        lemma_filter_map(sorted, p, f);
        lemma_filter_map(crates, p, f);
        assert(with_names(sorted, crate_name, name) == with_names(crates, crate_name, name));
    }
}

proof fn lemma_last_with_bare(crates: Seq<CrateSpec>, crate_name: Seq<char>)
    ensures
        last_with(crates.map_values(|c: CrateSpec| bare(c)), crate_name) == match last_with(
            crates,
            crate_name,
        ) {
            Some(c) => Some(bare(c)),
            None => None,
        },
    decreases crates.len(),
{
    let f = |c: CrateSpec| bare(c);
    if crates.len() > 0 {
        lemma_last_with_bare(crates.drop_last(), crate_name);
        assert(crates.map_values(f).drop_last() =~= crates.drop_last().map_values(f));
    }
}

/// What a merge writes depends on what the new definitions say.
proof fn lemma_merged_bare(old: Seq<CrateSpec>, new: Seq<CrateSpec>, mode: MergeMode)
    ensures
        merged(old, new, mode).map_values(|c: CrateSpec| as_written(c)) == merged(
            old,
            new.map_values(|c: CrateSpec| bare(c)),
            mode,
        ).map_values(|c: CrateSpec| as_written(c)),
{
    let f = |c: CrateSpec| as_written(c);
    let g = |c: CrateSpec| bare(c);
    let said = new.map_values(g);
    let p = |c: CrateSpec| !has_crate(old, c.crate_name);
    lemma_filter_map(new, p, g);
    let x = merged(old, new, mode).map_values(f);
    let y = merged(old, said, mode).map_values(f);
    assert(added(old, new).len() == added(old, said).len());
    assert forall|i: int| 0 <= i < x.len() implies x[i] == #[trigger] y[i] by {
        if i < old.len() {
            lemma_last_with_bare(new, old[i].crate_name);
        } else if mode != MergeMode::Parallel {
            let k = i - old.len();
            assert(said.filter(p)[k] == bare(new.filter(p)[k]));
        } else {
            let k = i - old.len();
            assert(said[k] == bare(new[k]));
        }
    }
    assert(x =~= y);
}

/// New definitions that say the same merge to the same text, wherever they were read.
pub proof fn same_definitions_merge_to_the_same_text(
    old: Seq<CrateSpec>,
    a: Seq<CrateSpec>,
    b: Seq<CrateSpec>,
    mode: MergeMode,
    from_a: Seq<CrateSpec>,
    from_b: Seq<CrateSpec>,
    header: Seq<char>,
    trailer: Seq<char>,
)
    requires
        a.map_values(|c: CrateSpec| bare(c)) == b.map_values(|c: CrateSpec| bare(c)),
        is_stable_sort(from_a, merged(old, a, mode)),
        is_stable_sort(from_b, merged(old, b, mode)),
    ensures
        rendered(header, from_a, trailer) == rendered(header, from_b, trailer),
{
    let f = |c: CrateSpec| as_written(c);
    lemma_merged_bare(old, a, mode);
    lemma_merged_bare(old, b, mode);
    lemma_sorted_as_written(from_a, merged(old, a, mode));
    lemma_sorted_as_written(from_b, merged(old, b, mode));
    sorting_is_deterministic(
        from_a.map_values(f),
        from_b.map_values(f),
        merged(old, a, mode).map_values(f),
    );
    lemma_entries_as_written(from_a);
    lemma_entries_as_written(from_b);
}

/// A Cargo.toml and a BUILD file with the same definitions merge to the same text.
pub proof fn manifest_and_build_file_merge_alike(
    old: Seq<CrateSpec>,
    packages: Seq<PackageSpec>,
    root: Seq<char>,
    text: Seq<char>,
    mode: MergeMode,
    from_manifest: Seq<CrateSpec>,
    from_text: Seq<CrateSpec>,
    header: Seq<char>,
    trailer: Seq<char>,
)
    requires
        build_file(text).crates.map_values(|c: CrateSpec| bare(c)) == definitions(packages, root),
        is_stable_sort(from_manifest, merged(old, definitions(packages, root), mode)),
        is_stable_sort(from_text, merged(old, build_file(text).crates, mode)),
    ensures
        rendered(header, from_manifest, trailer) == rendered(header, from_text, trailer),
{
    let required = definitions(packages, root);
    assert(required.map_values(|c: CrateSpec| bare(c)) =~= required);
    same_definitions_merge_to_the_same_text(
        old,
        required,
        build_file(text).crates,
        mode,
        from_manifest,
        from_text,
        header,
        trailer,
    );
}

} // verus!
