//! Merging the crate definitions of two sources.

use crate::build_file::{
    build_file, generate_kept_trailer, kept_trailer, parse_build_file_full, render_build_file,
    rendered,
};
use crate::crate_def::{CrateDefinition, CrateSpec};
use crate::semver::{bumps, is_bump, semver};
use crate::sort::{is_stable_sort, sort_crates};
use crate::text::{
    absent, debug_list, debug_text, decimal, decimal_text, difference, holds, join, joined,
    lemma_filter_step, list_difference, replace_char, replaced,
};
use vstd::prelude::*;

verus! {

/// How to combine crate definitions.
#[derive(Debug, Clone, Copy, PartialEq, Eq, Structural)]
pub enum MergeMode {
    /// Replace old dependencies with new ones completely.
    Override,
    /// Only bump versions within semver, add features, never downgrade or remove.
    UpdateOrExpandOnly,
    /// For conflicting crates, append version suffix to new ones.
    Parallel,
}

/// The last definition of the crate, if there is one.
pub open spec fn last_with(crates: Seq<CrateSpec>, crate_name: Seq<char>) -> Option<CrateSpec>
    decreases crates.len(),
{
    if crates.len() == 0 {
        None
    } else if crates.last().crate_name == crate_name {
        Some(crates.last())
    } else {
        last_with(crates.drop_last(), crate_name)
    }
}

/// Whether some definition is of the crate.
pub open spec fn has_crate(crates: Seq<CrateSpec>, crate_name: Seq<char>) -> bool {
    exists|i: int| 0 <= i < crates.len() && #[trigger] crates[i].crate_name == crate_name
}

/// The definition that takes the old one's place when `new` overrides: the new definition under
/// the old rule name, unless the old one is pinned.
pub open spec fn overridden(old: CrateSpec, new: Seq<CrateSpec>) -> CrateSpec {
    match last_with(new, old.crate_name) {
        Some(c) => if !old.pinned {
            CrateSpec {
                name: old.name,
                preceding_content: old.preceding_content,
                modified: true,
                ..c
            }
        } else {
            old
        },
        None => old,
    }
}

/// The old definition with what `new` adds to it: a later compatible version, new features and new
/// dependencies. A pinned one stays as it is.
pub open spec fn expanded(old: CrateSpec, new: Seq<CrateSpec>) -> CrateSpec {
    match last_with(new, old.crate_name) {
        Some(c) => if old.pinned {
            CrateSpec { modified: false, ..old }
        } else {
            let features = absent(c.features, old.features);
            let deps = absent(c.deps, old.deps);
            CrateSpec {
                version: if is_bump(old.version, c.version) {
                    c.version
                } else {
                    old.version
                },
                features: old.features + features,
                deps: old.deps + deps,
                modified: is_bump(old.version, c.version) || features.len() > 0 || deps.len() > 0,
                ..old
            }
        },
        None => CrateSpec { modified: false, ..old },
    }
}

/// A new definition next to the old ones: with its version in its rule name if there are old
/// definitions of the crate.
pub open spec fn suffixed(c: CrateSpec, old: Seq<CrateSpec>) -> CrateSpec {
    if has_crate(old, c.crate_name) {
        CrateSpec {
            name: c.name + "."@ + replaced(c.version, '.', '_'),
            modified: true,
            ..c
        }
    } else {
        CrateSpec { modified: true, ..c }
    }
}

/// The new definitions of crates that have no old one.
pub open spec fn added(old: Seq<CrateSpec>, new: Seq<CrateSpec>) -> Seq<CrateSpec> {
    new.filter(|c: CrateSpec| !has_crate(old, c.crate_name)).map_values(
        |c: CrateSpec| CrateSpec { modified: true, ..c },
    )
}

/// The merged definitions, before they are sorted.
pub open spec fn merged(old: Seq<CrateSpec>, new: Seq<CrateSpec>, mode: MergeMode) -> Seq<
    CrateSpec,
> {
    match mode {
        MergeMode::Override => old.map_values(|c: CrateSpec| overridden(c, new)) + added(old, new),
        MergeMode::UpdateOrExpandOnly => old.map_values(|c: CrateSpec| expanded(c, new)) + added(
            old,
            new,
        ),
        MergeMode::Parallel => old + new.map_values(|c: CrateSpec| suffixed(c, old)),
    }
}

/// The warning about a version that cannot be read.
pub open spec fn unreadable_text(old: CrateSpec, new: CrateSpec) -> Seq<char> {
    "WARNING: Cannot parse version for '"@ + old.name + "' - skipping update\n│  Current: "@
        + old.crate_name + " v"@ + old.version + "\n│  New:     "@ + new.crate_name + " v"@
        + new.version + "\n│  Keeping current version."@
}

/// The warning about a pinned crate that is not overridden.
pub open spec fn pinned_text(old: CrateSpec, new: CrateSpec) -> Seq<char> {
    "WARNING: Cannot update PINNED crate '"@ + old.name
        + "' (has # straddle_carrier:do_not_touch)\n│  Current: "@ + old.crate_name + " v"@
        + old.version + "\n│  New:     "@ + new.crate_name + " v"@ + new.version
        + "\n│  Keeping pinned version. Remove the pin comment to allow updates."@
}

/// The warning about a pinned crate that is not updated.
pub open spec fn outdated_text(old: CrateSpec, new: CrateSpec) -> Seq<char> {
    "WARNING: Cannot update PINNED crate '"@ + old.name
        + "' (has # straddle_carrier:do_not_touch)\n│  Current version: "@ + old.version
        + "\n│  Available version: "@ + new.version + "\n│  Missing features: "@ + debug_text(
        difference(new.features, old.features),
    ) + "\n│  Keeping pinned version. Remove the pin comment to allow updates."@
}

/// The warning about a second version of a pinned crate.
pub open spec fn parallel_text(old: CrateSpec, new: CrateSpec) -> Seq<char> {
    "WARNING: Adding parallel version for PINNED crate '"@ + old.crate_name
        + "'\n│  Pinned version: "@ + old.version + " (kept as '"@ + old.name
        + "')\n│  New version: "@ + new.version + " (added as '"@ + new.name + "."@ + replaced(
        new.version,
        '.',
        '_',
    ) + "')\n│  Both versions will coexist."@
}

/// How a list of forks shows one definition.
pub open spec fn fork_item(c: CrateSpec) -> Seq<char> {
    "'"@ + c.name + "' v"@ + c.version
}

/// The note about a crate with several definitions.
pub open spec fn fork_text(crate_name: Seq<char>, forks: Seq<CrateSpec>) -> Seq<char> {
    "INFO: Fork detected for crate '"@ + crate_name + "' - "@ + decimal(forks.len())
        + " versions coexist:\n│  "@ + joined(
        forks.map_values(|c: CrateSpec| fork_item(c)),
        "\n│  "@,
    )
}

/// What overriding one old definition warns about: a pinned one that stays, and a version of it or
/// of the new one that cannot be read.
pub open spec fn override_warning(old: CrateSpec, new: Seq<CrateSpec>) -> Seq<Seq<char>> {
    match last_with(new, old.crate_name) {
        Some(c) => if old.pinned {
            (if semver(old.version) is None || semver(c.version) is None {
                seq![unreadable_text(old, c)]
            } else {
                Seq::empty()
            }) + seq![pinned_text(old, c)]
        } else {
            Seq::empty()
        },
        None => Seq::empty(),
    }
}

/// What updating one old definition warns about: a pinned one that would have changed in version
/// or features.
pub open spec fn update_warning(old: CrateSpec, new: Seq<CrateSpec>) -> Seq<Seq<char>> {
    match last_with(new, old.crate_name) {
        Some(c) => if old.pinned && (is_bump(old.version, c.version) || difference(
            c.features,
            old.features,
        ).len() > 0) {
            seq![outdated_text(old, c)]
        } else {
            Seq::empty()
        },
        None => Seq::empty(),
    }
}

/// What adding one new definition next to the old ones warns about: a pinned one of another version.
pub open spec fn parallel_warning(c: CrateSpec, old: Seq<CrateSpec>) -> Seq<Seq<char>> {
    match last_with(old, c.crate_name) {
        Some(o) => if o.pinned && o.version != c.version {
            seq![parallel_text(o, c)]
        } else {
            Seq::empty()
        },
        None => Seq::empty(),
    }
}

/// The warnings of overriding, in the order of the old definitions.
pub open spec fn override_warnings(old: Seq<CrateSpec>, new: Seq<CrateSpec>) -> Seq<Seq<char>>
    decreases old.len(),
{
    if old.len() == 0 {
        Seq::empty()
    } else {
        override_warnings(old.drop_last(), new) + override_warning(old.last(), new)
    }
}

/// The warnings of updating, in the order of the old definitions.
pub open spec fn update_warnings(old: Seq<CrateSpec>, new: Seq<CrateSpec>) -> Seq<Seq<char>>
    decreases old.len(),
{
    if old.len() == 0 {
        Seq::empty()
    } else {
        update_warnings(old.drop_last(), new) + update_warning(old.last(), new)
    }
}

/// The warnings of adding new definitions next to the old ones, in the order of the new ones.
pub open spec fn parallel_warnings(new: Seq<CrateSpec>, old: Seq<CrateSpec>) -> Seq<Seq<char>>
    decreases new.len(),
{
    if new.len() == 0 {
        Seq::empty()
    } else {
        parallel_warnings(new.drop_last(), old) + parallel_warning(new.last(), old)
    }
}

/// The warnings of a merge, but for those about forks.
pub open spec fn merge_warnings(
    old: Seq<CrateSpec>,
    new: Seq<CrateSpec>,
    mode: MergeMode,
) -> Seq<Seq<char>> {
    match mode {
        MergeMode::Override => override_warnings(old, new),
        MergeMode::UpdateOrExpandOnly => update_warnings(old, new),
        MergeMode::Parallel => parallel_warnings(new, old),
    }
}

/// The definitions of one crate, in order.
pub open spec fn forks_of(crates: Seq<CrateSpec>, crate_name: Seq<char>) -> Seq<CrateSpec> {
    crates.filter(|c: CrateSpec| c.crate_name == crate_name)
}

/// The notes about crates with several definitions among all `crates`, in the order in which the
/// crates first occur; only those that first occur among the first `n`.
pub open spec fn fork_notes(crates: Seq<CrateSpec>, n: int) -> Seq<Seq<char>>
    decreases n,
{
    if n <= 0 {
        Seq::empty()
    } else {
        let name = crates[n - 1].crate_name;
        let forks = forks_of(crates, name);
        if !has_crate(crates.take(n - 1), name) && forks.len() > 1 {
            fork_notes(crates, n - 1).push(fork_text(name, forks))
        } else {
            fork_notes(crates, n - 1)
        }
    }
}

/// The last definition of the crate, if there is one.
pub(crate) fn find_last<'a>(crates: &'a [CrateDefinition], crate_name: &String) -> (result: Option<&'a CrateDefinition>)
    ensures
        result.deep_view() == last_with(crates.deep_view(), crate_name@),
{
    let mut i: usize = crates.len();
    assert(crates.deep_view().take(i as int) =~= crates.deep_view());
    while i > 0
        invariant
            i <= crates.len(),
            last_with(crates.deep_view(), crate_name@) == last_with(
                crates.deep_view().take(i as int),
                crate_name@,
            ),
        decreases i,
    {
        i -= 1;
        assert(crates.deep_view().take(i + 1).drop_last() =~= crates.deep_view().take(i as int));
        if crates[i].crate_name == *crate_name {
            return Some(&crates[i]);
        }
    }
    None
}

pub proof fn lemma_last_with(crates: Seq<CrateSpec>, crate_name: Seq<char>)
    ensures
        last_with(crates, crate_name) is Some <==> has_crate(crates, crate_name),
        last_with(crates, crate_name) matches Some(c) ==> c.crate_name == crate_name
            && crates.contains(c),
    decreases crates.len(),
{
    if crates.len() > 0 {
        lemma_last_with(crates.drop_last(), crate_name);
        let rest = crates.drop_last();
        if crates.last().crate_name == crate_name {
            assert(crates[crates.len() - 1].crate_name == crate_name);
        } else {
            if has_crate(rest, crate_name) {
                let i = choose|i: int|
                    0 <= i < rest.len() && #[trigger] rest[i].crate_name == crate_name;
                assert(crates[i].crate_name == crate_name);
            }
            if has_crate(crates, crate_name) {
                let i = choose|i: int|
                    0 <= i < crates.len() && #[trigger] crates[i].crate_name == crate_name;
                assert(rest[i].crate_name == crate_name);
            }
            if let Some(c) = last_with(rest, crate_name) {
                let i = choose|i: int| 0 <= i < rest.len() && rest[i] == c;
                assert(crates[i] == c);
            }
        }
    }
}

/// Whether no two of the definitions are of the same crate.
pub open spec fn has_distinct_crates(crates: Seq<CrateSpec>) -> bool {
    forall|i: int, j: int|
        0 <= i < j < crates.len() ==> (#[trigger] crates[i]).crate_name != (
        #[trigger] crates[j]).crate_name
}

/// The definition of a crate that has only one.
pub proof fn lemma_only_definition(crates: Seq<CrateSpec>, i: int)
    requires
        has_distinct_crates(crates),
        0 <= i < crates.len(),
    ensures
        last_with(crates, crates[i].crate_name) == Some(crates[i]),
{
    lemma_last_with(crates, crates[i].crate_name);
    let c = last_with(crates, crates[i].crate_name)->0;
    assert(crates[i].crate_name == crates[i].crate_name);
    let k = crates.index_of(c);
    assert(crates[k].crate_name == crates[i].crate_name);
}

/// The definition that takes the old one's place when `new` overrides, and what to warn about.
fn override_crate(old_crate: &CrateDefinition, new_crates: &[CrateDefinition], warnings: &mut Vec<String>) -> (result: CrateDefinition)
    ensures
        result@ == overridden(old_crate@, new_crates.deep_view()),
        final(warnings).deep_view() == old(warnings).deep_view() + override_warning(
            old_crate@,
            new_crates.deep_view(),
        ),
{
    let ghost before = warnings.deep_view();
    match find_last(new_crates, &old_crate.crate_name) {
        Some(new) => {
            if !old_crate.pinned {
                assert(warnings.deep_view() =~= before + Seq::<Seq<char>>::empty());
                let mut result = new.clone();
                result.name = old_crate.name.clone();
                result.preceding_content = old_crate.preceding_content.clone();
                result.modified = true;
                return result;
            }
            if old_crate.parse_semver().is_none() || new.parse_semver().is_none() {
                let mut text = "WARNING: Cannot parse version for '".to_string();
                text.append(old_crate.name.as_str());
                text.append("' - skipping update\n│  Current: ");
                text.append(old_crate.crate_name.as_str());
                text.append(" v");
                text.append(old_crate.version.as_str());
                text.append("\n│  New:     ");
                text.append(new.crate_name.as_str());
                text.append(" v");
                text.append(new.version.as_str());
                text.append("\n│  Keeping current version.");
                warnings.push(text);
                assert(warnings.deep_view() =~= before.push(unreadable_text(old_crate@, new@)));
            }
            let ghost middle = warnings.deep_view();
            let mut text = "WARNING: Cannot update PINNED crate '".to_string();
            text.append(old_crate.name.as_str());
            text.append("' (has # straddle_carrier:do_not_touch)\n│  Current: ");
            text.append(old_crate.crate_name.as_str());
            text.append(" v");
            text.append(old_crate.version.as_str());
            text.append("\n│  New:     ");
            text.append(new.crate_name.as_str());
            text.append(" v");
            text.append(new.version.as_str());
            text.append("\n│  Keeping pinned version. Remove the pin comment to allow updates.");
            warnings.push(text);
            assert(warnings.deep_view() =~= middle.push(pinned_text(old_crate@, new@)));
            assert(warnings.deep_view() =~= before + override_warning(
                old_crate@,
                new_crates.deep_view(),
            ));
            old_crate.clone()
        },
        None => {
            assert(warnings.deep_view() =~= before + Seq::<Seq<char>>::empty());
            old_crate.clone()
        },
    }
}

/// Appends to `list` the items of `new` that are not in `present`; whether there are any.
fn expand_list(list: &mut Vec<String>, new: &Vec<String>, present: &Vec<String>) -> (grown: bool)
    ensures
        final(list).deep_view() == old(list).deep_view() + absent(new.deep_view(), present.deep_view()),
        grown == (absent(new.deep_view(), present.deep_view()).len() > 0),
{
    let ghost start = list.deep_view();
    let ghost p = |item: Seq<char>| !present.deep_view().contains(item);
    let ghost items = new.deep_view();
    let mut grown: bool = false;
    proof {
        reveal(Seq::filter);
        assert(items.take(0).filter(p) =~= Seq::empty());
        assert(start + Seq::<Seq<char>>::empty() =~= start);
    }
    for i in 0..new.len()
        invariant
            items == new.deep_view(),
            p == (|item: Seq<char>| !present.deep_view().contains(item)),
            list.deep_view() == start + items.take(i as int).filter(p),
            grown == (items.take(i as int).filter(p).len() > 0),
    {
        proof {
            lemma_filter_step(items, i as int, p);
        }
        let ghost before = list.deep_view();
        if !holds(present, &new[i]) {
            list.push(new[i].clone());
            grown = true;
            assert(list.deep_view() =~= before.push(items[i as int]));
            assert(list.deep_view() =~= start + items.take(i + 1).filter(p));
        }
    }
    assert(items.take(new.len() as int) =~= items);
    grown
}

/// The old definition with what `new` adds to it, and what to warn about.
fn expand_crate(old_crate: &CrateDefinition, new_crates: &[CrateDefinition], warnings: &mut Vec<String>) -> (result: CrateDefinition)
    ensures
        result@ == expanded(old_crate@, new_crates.deep_view()),
        final(warnings).deep_view() == old(warnings).deep_view() + update_warning(
            old_crate@,
            new_crates.deep_view(),
        ),
{
    let ghost before = warnings.deep_view();
    let mut result = old_crate.clone();
    let mut modified: bool = false;
    match find_last(new_crates, &old_crate.crate_name) {
        Some(new) => {
            let bump = bumps(old_crate.version.as_str(), new.version.as_str());
            if old_crate.pinned {
                let missing = list_difference(&new.features, &old_crate.features);
                assert(missing.deep_view().len() == missing.len());
                if bump || missing.len() > 0 {
                    let shown = debug_list(&missing);
                    let mut text = "WARNING: Cannot update PINNED crate '".to_string();
                    text.append(old_crate.name.as_str());
                    text.append("' (has # straddle_carrier:do_not_touch)\n│  Current version: ");
                    text.append(old_crate.version.as_str());
                    text.append("\n│  Available version: ");
                    text.append(new.version.as_str());
                    text.append("\n│  Missing features: ");
                    text.append(shown.as_str());
                    text.append(
                        "\n│  Keeping pinned version. Remove the pin comment to allow updates.",
                    );
                    warnings.push(text);
                    assert(warnings.deep_view() =~= before.push(outdated_text(old_crate@, new@)));
                }
            } else {
                if bump {
                    result.version = new.version.clone();
                    modified = true;
                }
                if expand_list(&mut result.features, &new.features, &old_crate.features) {
                    modified = true;
                }
                if expand_list(&mut result.deps, &new.deps, &old_crate.deps) {
                    modified = true;
                }
            }
        },
        None => {},
    }
    assert(warnings.deep_view() =~= before + update_warning(old_crate@, new_crates.deep_view()));
    result.modified = modified;
    result
}

/// A new definition next to the old ones, and what to warn about.
fn suffix_crate(new: &CrateDefinition, old_crates: &[CrateDefinition], warnings: &mut Vec<String>) -> (result: CrateDefinition)
    ensures
        result@ == suffixed(new@, old_crates.deep_view()),
        final(warnings).deep_view() == old(warnings).deep_view() + parallel_warning(
            new@,
            old_crates.deep_view(),
        ),
{
    let ghost before = warnings.deep_view();
    let mut result = new.clone();
    proof {
        lemma_last_with(old_crates.deep_view(), new@.crate_name);
    }
    match find_last(old_crates, &new.crate_name) {
        Some(old) => {
            let suffix = replace_char(new.version.as_str(), '.', '_');
            if old.pinned && old.version != new.version {
                let mut text = "WARNING: Adding parallel version for PINNED crate '".to_string();
                text.append(old.crate_name.as_str());
                text.append("'\n│  Pinned version: ");
                text.append(old.version.as_str());
                text.append(" (kept as '");
                text.append(old.name.as_str());
                text.append("')\n│  New version: ");
                text.append(new.version.as_str());
                text.append(" (added as '");
                text.append(new.name.as_str());
                text.append(".");
                text.append(suffix.as_str());
                text.append("')\n│  Both versions will coexist.");
                warnings.push(text);
                assert(warnings.deep_view() =~= before.push(parallel_text(old@, new@)));
            }
            let mut name = new.name.clone();
            name.append(".");
            name.append(suffix.as_str());
            result.name = name;
        },
        None => {},
    }
    assert(warnings.deep_view() =~= before + parallel_warning(new@, old_crates.deep_view()));
    result.modified = true;
    result
}

/// Appends the new definitions of crates that have no old one.
fn add_new_crates(
    result: &mut Vec<CrateDefinition>,
    old_crates: &[CrateDefinition],
    new_crates: &[CrateDefinition],
)
    ensures
        final(result).deep_view() == old(result).deep_view() + added(
            old_crates.deep_view(),
            new_crates.deep_view(),
        ),
{
    let ghost start = result.deep_view();
    let ghost present = old_crates.deep_view();
    let ghost all = new_crates.deep_view();
    let ghost p = |c: CrateSpec| !has_crate(present, c.crate_name);
    let ghost f = |c: CrateSpec| CrateSpec { modified: true, ..c };
    proof {
        reveal(Seq::filter);
        assert(all.take(0).filter(p) =~= Seq::empty());
        assert(start + Seq::<CrateSpec>::empty().map_values(f) =~= start);
    }
    for i in 0..new_crates.len()
        invariant
            all == new_crates.deep_view(),
            present == old_crates.deep_view(),
            p == (|c: CrateSpec| !has_crate(present, c.crate_name)),
            f == (|c: CrateSpec| CrateSpec { modified: true, ..c }),
            result.deep_view() == start + all.take(i as int).filter(p).map_values(f),
    {
        proof {
            lemma_filter_step(all, i as int, p);
            lemma_last_with(present, all[i as int].crate_name);
        }
        let ghost before = result.deep_view();
        let ghost kept = all.take(i as int).filter(p);
        if find_last(old_crates, &new_crates[i].crate_name).is_none() {
            let mut next = new_crates[i].clone();
            next.modified = true;
            let ghost c = next@;
            result.push(next);
            assert(result.deep_view() =~= before.push(c));
            assert(kept.push(all[i as int]).map_values(f) =~= kept.map_values(f).push(c));
            assert(result.deep_view() =~= start + all.take(i + 1).filter(p).map_values(f));
        }
    }
    assert(all.take(new_crates.len() as int) =~= all);
}

/// The merged definitions, not sorted yet, and the warnings.
fn merge_unsorted(
    old_crates: &[CrateDefinition],
    new_crates: &[CrateDefinition],
    mode: MergeMode,
) -> (result: (Vec<CrateDefinition>, Vec<String>))
    ensures
        result.0.deep_view() == merged(old_crates.deep_view(), new_crates.deep_view(), mode),
        result.1.deep_view() == merge_warnings(
            old_crates.deep_view(),
            new_crates.deep_view(),
            mode,
        ),
{
    let ghost present = old_crates.deep_view();
    let ghost all = new_crates.deep_view();
    let mut result: Vec<CrateDefinition> = Vec::new();
    let mut warnings: Vec<String> = Vec::new();
    assert(warnings.deep_view() =~= Seq::<Seq<char>>::empty());
    match mode {
        MergeMode::Override => {
            let ghost f = |c: CrateSpec| overridden(c, all);
            assert(result.deep_view() =~= present.take(0).map_values(f));
            for i in 0..old_crates.len()
                invariant
                    all == new_crates.deep_view(),
                    present == old_crates.deep_view(),
                    f == (|c: CrateSpec| overridden(c, all)),
                    result.deep_view() == present.take(i as int).map_values(f),
                    warnings.deep_view() == override_warnings(present.take(i as int), all),
            {
                assert(present.take(i + 1).drop_last() =~= present.take(i as int));
                let ghost before = result.deep_view();
                let next = override_crate(&old_crates[i], new_crates, &mut warnings);
                let ghost c = next@;
                result.push(next);
                assert(result.deep_view() =~= before.push(c));
                assert(result.deep_view() =~= present.take(i + 1).map_values(f));
            }
            assert(present.take(old_crates.len() as int) =~= present);
            add_new_crates(&mut result, old_crates, new_crates);
        },
        MergeMode::UpdateOrExpandOnly => {
            let ghost f = |c: CrateSpec| expanded(c, all);
            assert(result.deep_view() =~= present.take(0).map_values(f));
            for i in 0..old_crates.len()
                invariant
                    all == new_crates.deep_view(),
                    present == old_crates.deep_view(),
                    f == (|c: CrateSpec| expanded(c, all)),
                    result.deep_view() == present.take(i as int).map_values(f),
                    warnings.deep_view() == update_warnings(present.take(i as int), all),
            {
                assert(present.take(i + 1).drop_last() =~= present.take(i as int));
                let ghost before = result.deep_view();
                let next = expand_crate(&old_crates[i], new_crates, &mut warnings);
                let ghost c = next@;
                result.push(next);
                assert(result.deep_view() =~= before.push(c));
                assert(result.deep_view() =~= present.take(i + 1).map_values(f));
            }
            assert(present.take(old_crates.len() as int) =~= present);
            add_new_crates(&mut result, old_crates, new_crates);
        },
        MergeMode::Parallel => {
            let ghost f = |c: CrateSpec| suffixed(c, present);
            assert(result.deep_view() =~= present.take(0));
            for i in 0..old_crates.len()
                invariant
                    present == old_crates.deep_view(),
                    result.deep_view() == present.take(i as int),
            {
                let ghost before = result.deep_view();
                result.push(old_crates[i].clone());
                assert(result.deep_view() =~= before.push(present[i as int]));
                assert(result.deep_view() =~= present.take(i + 1));
            }
            assert(present.take(old_crates.len() as int) =~= present);
            assert(present + all.take(0).map_values(f) =~= present);
            for i in 0..new_crates.len()
                invariant
                    all == new_crates.deep_view(),
                    present == old_crates.deep_view(),
                    f == (|c: CrateSpec| suffixed(c, present)),
                    result.deep_view() == present + all.take(i as int).map_values(f),
                    warnings.deep_view() == parallel_warnings(all.take(i as int), present),
            {
                assert(all.take(i + 1).drop_last() =~= all.take(i as int));
                let ghost before = result.deep_view();
                let next = suffix_crate(&new_crates[i], old_crates, &mut warnings);
                let ghost c = next@;
                result.push(next);
                assert(result.deep_view() =~= before.push(c));
                assert(result.deep_view() =~= present + all.take(i + 1).map_values(f));
            }
            assert(all.take(new_crates.len() as int) =~= all);
        },
    }
    (result, warnings)
}

/// The note about the crate of the definition at `at` if it has several definitions.
fn fork_note(crates: &Vec<CrateDefinition>, at: usize) -> (note: Option<String>)
    requires
        at < crates.len(),
    ensures
        ({
            let name = crates@[at as int]@.crate_name;
            let forks = forks_of(crates.deep_view(), name);
            note.deep_view() == if forks.len() > 1 {
                Some(fork_text(name, forks))
            } else {
                None
            }
        }),
{
    let ghost all = crates.deep_view();
    let ghost name = crates@[at as int]@.crate_name;
    let ghost p = |c: CrateSpec| c.crate_name == name;
    let ghost f = |c: CrateSpec| fork_item(c);
    let mut items: Vec<String> = Vec::new();
    proof {
        reveal(Seq::filter);
        assert(all.take(0).filter(p) =~= Seq::empty());
        assert(items.deep_view() =~= Seq::<CrateSpec>::empty().map_values(f));
    }
    for i in 0..crates.len()
        invariant
            at < crates.len(),
            all == crates.deep_view(),
            name == crates@[at as int]@.crate_name,
            p == (|c: CrateSpec| c.crate_name == name),
            f == (|c: CrateSpec| fork_item(c)),
            items.deep_view() == all.take(i as int).filter(p).map_values(f),
    {
        proof {
            lemma_filter_step(all, i as int, p);
        }
        let ghost before = items.deep_view();
        let ghost kept = all.take(i as int).filter(p);
        if crates[i].crate_name == crates[at].crate_name {
            let mut item = "'".to_string();
            item.append(crates[i].name.as_str());
            item.append("' v");
            item.append(crates[i].version.as_str());
            let ghost shown = item@;
            items.push(item);
            assert(items.deep_view() =~= before.push(shown));
            assert(kept.push(all[i as int]).map_values(f) =~= kept.map_values(f).push(shown));
        }
    }
    proof {
        assert(all.take(crates.len() as int) =~= all);
        assert(items.deep_view().len() == items.len());
    }
    if items.len() > 1 {
        let mut note = "INFO: Fork detected for crate '".to_string();
        note.append(crates[at].crate_name.as_str());
        note.append("' - ");
        note.append(decimal_text(items.len()).as_str());
        note.append(" versions coexist:\n│  ");
        note.append(join(&items, "\n│  ").as_str());
        Some(note)
    } else {
        None
    }
}

/// Whether the crate of the definition at `at` has a definition before it.
fn occurs_before(crates: &Vec<CrateDefinition>, at: usize) -> (found: bool)
    requires
        at < crates.len(),
    ensures
        found == has_crate(crates.deep_view().take(at as int), crates@[at as int]@.crate_name),
{
    let ghost before = crates.deep_view().take(at as int);
    for i in 0..at
        invariant
            at < crates.len(),
            before == crates.deep_view().take(at as int),
            forall|j: int|
                0 <= j < i ==> (#[trigger] before[j]).crate_name != crates@[at as int]@.crate_name,
    {
        if crates[i].crate_name == crates[at].crate_name {
            assert(before[i as int].crate_name == crates@[at as int]@.crate_name);
            return true;
        }
    }
    false
}

/// Merges the crate definitions of two sources.
///
/// The result holds the merged definitions in order of crate name and rule name, and warnings:
/// those about versions and pins in the order of the definitions that they are about, then the
/// notes about crates with several definitions.
pub fn merge_crates(
    old_crates: &[CrateDefinition],
    new_crates: &[CrateDefinition],
    mode: MergeMode,
) -> (result: (Vec<CrateDefinition>, Vec<String>))
    ensures
        is_stable_sort(
            result.0.deep_view(),
            merged(old_crates.deep_view(), new_crates.deep_view(), mode),
        ),
        result.1.deep_view() == merge_warnings(
            old_crates.deep_view(),
            new_crates.deep_view(),
            mode,
        ) + fork_notes(result.0.deep_view(), result.0.deep_view().len() as int),
{
    let (unsorted, mut warnings) = merge_unsorted(old_crates, new_crates, mode);
    let result = sort_crates(unsorted);
    let ghost all = result.deep_view();
    let ghost start = warnings.deep_view();
    assert(start + Seq::<Seq<char>>::empty() =~= start);
    for i in 0..result.len()
        invariant
            all == result.deep_view(),
            warnings.deep_view() == start + fork_notes(all, i as int),
    {
        let ghost before = warnings.deep_view();
        if !occurs_before(&result, i) {
            if let Some(note) = fork_note(&result, i) {
                let ghost shown = note@;
                warnings.push(note);
                assert(warnings.deep_view() =~= before.push(shown));
                assert(warnings.deep_view() =~= start + fork_notes(all, i + 1));
            }
        }
    }
    (result, warnings)
}

/// A merged BUILD file.
#[derive(Debug)]
pub struct MergedFile {
    pub crates: Vec<CrateDefinition>,
    pub warnings: Vec<String>,
    pub content: String,
    /// How many crates the old file had.
    pub old_count: usize,
}

/// Merges new definitions into a BUILD file. What stands before its first and after its last crate
/// is kept, and so are blocks without a name.
pub fn merge_build_file(old_content: &str, new_crates: &[CrateDefinition], mode: MergeMode) -> (result: MergedFile)
    ensures
        is_stable_sort(
            result.crates.deep_view(),
            merged(build_file(old_content@).crates, new_crates.deep_view(), mode),
        ),
        result.warnings.deep_view() == merge_warnings(
            build_file(old_content@).crates,
            new_crates.deep_view(),
            mode,
        ) + fork_notes(result.crates.deep_view(), result.crates.deep_view().len() as int),
        result.content@ == rendered(
            build_file(old_content@).header,
            result.crates.deep_view(),
            kept_trailer(build_file(old_content@)),
        ),
        result.old_count == build_file(old_content@).crates.len(),
{
    let file = parse_build_file_full(old_content);
    let (crates, warnings) = merge_crates(file.crates.as_slice(), new_crates, mode);
    let trailer = generate_kept_trailer(&file);
    let content = render_build_file(file.header.as_str(), &crates, trailer.as_str());
    let old_count = file.crates.len();
    assert(file.crates.deep_view().len() == old_count);
    MergedFile { crates, warnings, content, old_count }
}

} // verus!
