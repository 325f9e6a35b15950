//! What a merge does to each definition, and what is found in the file that it writes.

use crate::build_file::{build_file, kept_trailer, rendered};
use crate::crate_def::{crate_block, CrateSpec};
use crate::merge::{
    added, expanded, fork_item, fork_notes, fork_text, forks_of, has_crate, last_with,
    lemma_last_with, merge_warnings, merged, overridden, override_warning, override_warnings,
    parallel_text, parallel_warning, parallel_warnings, pinned_text, suffixed, unreadable_text,
    update_warning, update_warnings, MergeMode,
};
use crate::merge_laws::bare;
use crate::reread::{
    intact_crate_reads_back, is_intact, is_passable, is_writable, modified_crate_reads_back,
    read_crates_are_intact, reread, rewritten_file_reads_back,
};
use crate::roundtrip::{is_block, is_readable};
use crate::semver::semver;
use crate::sort::{crate_le, is_stable_sort, sorting_keeps_definitions, with_names};
use crate::text::{
    absent, debug_text, decimal, difference, difference_is_exact, joined, lemma_text_le_reflexive,
    text_le,
};
use vstd::prelude::*;

verus! {

/// Whether the definition at `k` is the last one of the crate.
pub open spec fn is_last_of(crates: Seq<CrateSpec>, crate_name: Seq<char>, k: int) -> bool {
    &&& 0 <= k < crates.len()
    &&& crates[k].crate_name == crate_name
    &&& forall|j: int| k < j < crates.len() ==> (#[trigger] crates[j]).crate_name != crate_name
}

/// The last definition of a crate counts; a crate without a definition has none that counts.
pub proof fn last_definition_counts(crates: Seq<CrateSpec>, crate_name: Seq<char>, k: int)
    ensures
        is_last_of(crates, crate_name, k) ==> last_with(crates, crate_name) == Some(crates[k])
            && has_crate(crates, crate_name),
        (forall|j: int|
            0 <= j < crates.len() ==> (#[trigger] crates[j]).crate_name != crate_name) ==> last_with(
            crates,
            crate_name,
        ) is None && !has_crate(crates, crate_name),
    decreases crates.len(),
{
    lemma_last_with(crates, crate_name);
    if crates.len() > 0 {
        let rest = crates.drop_last();
        if is_last_of(crates, crate_name, k) && k < crates.len() - 1 {
            assert(crates[crates.len() - 1].crate_name != crate_name);
            assert forall|j: int| k < j < rest.len() implies (#[trigger] rest[j]).crate_name
                != crate_name by {
                assert(crates[j].crate_name != crate_name);
            }
            last_definition_counts(rest, crate_name, k);
        }
    }
}

/// Whether both versions can be read and the second is later, with the same major number.
pub open spec fn is_later(version: Seq<char>, newer: Seq<char>) -> bool {
    match (semver(version), semver(newer)) {
        (Some(a), Some(b)) => a.0 == b.0 && (a.1 < b.1 || (a.1 == b.1 && a.2 < b.2)),
        _ => false,
    }
}

/// What an update makes of an old definition `o` for which `n` is the new one: the later version
/// within the major number, the old features and dependencies and after them the new ones that are
/// not among them, everything else as it was, and the mark of a modified definition exactly if
/// something changed. A pinned definition stays.
pub proof fn update_takes_what_is_new(o: CrateSpec, new: Seq<CrateSpec>, k: int)
    requires
        is_last_of(new, o.crate_name, k),
    ensures
        ({
            let n = new[k];
            let r = expanded(o, new);
            &&& r.name == o.name && r.crate_name == o.crate_name && r.edition == o.edition
            &&& r.crate_type == o.crate_type && r.build_root == o.build_root
            &&& r.raw_text == o.raw_text && r.preceding_content == o.preceding_content
            &&& r.pinned == o.pinned
            &&& o.pinned ==> r.version == o.version && r.features == o.features && r.deps == o.deps
            &&& !o.pinned && is_later(o.version, n.version) ==> r.version == n.version
            &&& !is_later(o.version, n.version) ==> r.version == o.version
            &&& !o.pinned ==> r.features == o.features + n.features.filter(
                |f: Seq<char>| !o.features.contains(f),
            )
            &&& !o.pinned ==> r.deps == o.deps + n.deps.filter(|d: Seq<char>| !o.deps.contains(d))
            &&& r.modified <==> r.version != o.version || r.features != o.features || r.deps
                != o.deps
        }),
{
    last_definition_counts(new, o.crate_name, k);
    let n = new[k];
    let r = expanded(o, new);
    assert((|f: Seq<char>| !o.features.contains(f)) =~= (|item: Seq<char>| !o.features.contains(
        item,
    )));
    assert((|d: Seq<char>| !o.deps.contains(d)) =~= (|item: Seq<char>| !o.deps.contains(item)));
    if !o.pinned {
        let features = absent(n.features, o.features);
        let deps = absent(n.deps, o.deps);
        if features.len() == 0 {
            assert(o.features + features =~= o.features);
        } else {
            assert(r.features.len() > o.features.len());
        }
        if deps.len() == 0 {
            assert(o.deps + deps =~= o.deps);
        } else {
            assert(r.deps.len() > o.deps.len());
        }
    }
}

/// An update leaves a definition alone that has no new one.
pub proof fn update_leaves_the_rest(o: CrateSpec, new: Seq<CrateSpec>)
    requires
        forall|j: int| 0 <= j < new.len() ==> (#[trigger] new[j]).crate_name != o.crate_name,
    ensures
        expanded(o, new) == (CrateSpec { modified: false, ..o }),
        overridden(o, new) == o,
{
    last_definition_counts(new, o.crate_name, 0);
}

/// What overriding makes of an old definition `o` for which `n` is the new one: the new definition,
/// but for the rule name and what stands before it. A pinned definition stays.
pub proof fn override_takes_the_new_one(o: CrateSpec, new: Seq<CrateSpec>, k: int)
    requires
        is_last_of(new, o.crate_name, k),
    ensures
        ({
            let n = new[k];
            let r = overridden(o, new);
            &&& o.pinned ==> r == o
            &&& !o.pinned ==> {
                &&& r.name == o.name && r.crate_name == o.crate_name && r.version == n.version
                &&& r.edition == n.edition && r.features == n.features && r.deps == n.deps
                &&& r.crate_type == n.crate_type && r.build_root == n.build_root
                &&& r.preceding_content == o.preceding_content && r.modified
                &&& r.raw_text == n.raw_text && r.pinned == n.pinned
            }
        }),
{
    last_definition_counts(new, o.crate_name, k);
}

/// What a parallel merge makes of a new definition: the same one in everything but the mark and,
/// where the crate has old definitions, the rule name. There the rule name goes on with a dot and
/// the version, with underscores for its dots.
pub proof fn parallel_takes_the_new_one(c: CrateSpec, old: Seq<CrateSpec>)
    ensures
        ({
            let r = suffixed(c, old);
            let clashes = exists|i: int|
                0 <= i < old.len() && (#[trigger] old[i]).crate_name == c.crate_name;
            &&& r.crate_name == c.crate_name && r.version == c.version && r.edition == c.edition
            &&& r.features == c.features && r.deps == c.deps
            &&& r.crate_type == c.crate_type && r.build_root == c.build_root
            &&& r.raw_text == c.raw_text && r.preceding_content == c.preceding_content
            &&& r.pinned == c.pinned && r.modified
            &&& !clashes ==> r.name == c.name
            &&& clashes ==> {
                &&& r.name.len() == c.name.len() + 1 + c.version.len()
                &&& r.name.take(c.name.len() as int) == c.name
                &&& r.name[c.name.len() as int] == '.'
                &&& forall|i: int|
                    0 <= i < c.version.len() ==> r.name[c.name.len() + 1 + i] == (if (
                    #[trigger] c.version[i]) == '.' {
                        '_'
                    } else {
                        c.version[i]
                    })
            }
        }),
{
    reveal_strlit(".");
    let r = suffixed(c, old);
    if has_crate(old, c.crate_name) {
        assert(r.name.take(c.name.len() as int) =~= c.name);
    }
}

/// The definitions of a merge are what becomes of the old ones, in their order, and then new ones,
/// in theirs: in a parallel merge all, otherwise those of crates that have no old one.
pub proof fn merge_takes_old_then_new(old: Seq<CrateSpec>, new: Seq<CrateSpec>)
    ensures
        forall|mode: MergeMode, i: int|
            0 <= i < old.len() ==> #[trigger] merged(old, new, mode)[i] == match mode {
                MergeMode::Override => overridden(old[i], new),
                MergeMode::UpdateOrExpandOnly => expanded(old[i], new),
                MergeMode::Parallel => old[i],
            },
        merged(old, new, MergeMode::Parallel).len() == old.len() + new.len(),
        forall|j: int|
            0 <= j < new.len() ==> #[trigger] merged(old, new, MergeMode::Parallel)[old.len() + j]
                == suffixed(new[j], old),
        forall|mode: MergeMode|
            mode != MergeMode::Parallel ==> (#[trigger] merged(old, new, mode)).skip(
                old.len() as int,
            ) == new.filter(
                |c: CrateSpec|
                    forall|i: int| 0 <= i < old.len() ==> (#[trigger] old[i]).crate_name
                        != c.crate_name,
            ).map_values(|c: CrateSpec| CrateSpec { modified: true, ..c }),
{
    let p = |c: CrateSpec| !has_crate(old, c.crate_name);
    let q = |c: CrateSpec|
        forall|i: int| 0 <= i < old.len() ==> (#[trigger] old[i]).crate_name != c.crate_name;
    assert(p =~= q);
    assert forall|mode: MergeMode| mode != MergeMode::Parallel implies (#[trigger] merged(
        old,
        new,
        mode,
    )).skip(old.len() as int) == new.filter(q).map_values(
        |c: CrateSpec| CrateSpec { modified: true, ..c },
    ) by {
        assert(merged(old, new, mode).skip(old.len() as int) =~= added(old, new));
    }
}

/// Sorted definitions are in the order of their crate names, and those of one crate in the order of
/// their rule names; those with both names the same are all there and keep their order.
pub proof fn sorting_orders_by_names(
    sorted: Seq<CrateSpec>,
    crates: Seq<CrateSpec>,
    crate_name: Seq<char>,
    name: Seq<char>,
)
    requires
        is_stable_sort(sorted, crates),
    ensures
        forall|i: int, j: int|
            0 <= i < j < sorted.len() ==> text_le(
                (#[trigger] sorted[i]).crate_name,
                (#[trigger] sorted[j]).crate_name,
            ),
        forall|i: int, j: int|
            0 <= i < j < sorted.len() && sorted[i].crate_name == sorted[j].crate_name ==> text_le(
                (#[trigger] sorted[i]).name,
                (#[trigger] sorted[j]).name,
            ),
        sorted.len() == crates.len(),
        sorted.filter(|c: CrateSpec| c.crate_name == crate_name && c.name == name)
            == crates.filter(|c: CrateSpec| c.crate_name == crate_name && c.name == name),
{
    assert(with_names(sorted, crate_name, name) == with_names(crates, crate_name, name));
    assert forall|i: int, j: int| 0 <= i < j < sorted.len() implies text_le(
        (#[trigger] sorted[i]).crate_name,
        (#[trigger] sorted[j]).crate_name,
    ) by {
        assert(crate_le(sorted[i], sorted[j]));
        lemma_text_le_reflexive(sorted[i].crate_name);
    }
    assert forall|i: int, j: int|
        0 <= i < j < sorted.len() && sorted[i].crate_name == sorted[j].crate_name implies text_le(
        (#[trigger] sorted[i]).name,
        (#[trigger] sorted[j]).name,
    ) by {
        assert(crate_le(sorted[i], sorted[j]));
    }
}

/// Whether a written file can hold what the definitions say: a generated block can be read and is
/// closed, and a block that is kept is closed.
pub open spec fn can_be_written(crates: Seq<CrateSpec>) -> bool {
    forall|i: int|
        0 <= i < crates.len() ==> {
            let c = #[trigger] crates[i];
            &&& c.modified ==> is_readable(c) && is_block(crate_block(c).drop_last())
            &&& !c.modified ==> is_block(c.raw_text)
        }
}

/// A definition that can be written reads back as what it says, if it is modified or as it was read.
proof fn lemma_says_the_same(c: CrateSpec, preceding: Seq<char>)
    requires
        c.modified ==> is_readable(c) && is_block(crate_block(c).drop_last()),
        !c.modified ==> is_block(c.raw_text) && is_intact(c),
    ensures
        is_writable(c),
        bare(reread(c, preceding)) == bare(c),
{
    if c.modified {
        modified_crate_reads_back(c, preceding);
    } else {
        intact_crate_reads_back(c, preceding);
    }
}

/// A definition of a merge that is not marked as modified is one that was read.
proof fn lemma_unmarked_is_old(
    old: Seq<CrateSpec>,
    new: Seq<CrateSpec>,
    mode: MergeMode,
    m: int,
)
    requires
        forall|i: int| 0 <= i < old.len() ==> is_intact(#[trigger] old[i]),
        0 <= m < merged(old, new, mode).len(),
        !merged(old, new, mode)[m].modified,
    ensures
        is_intact(merged(old, new, mode)[m]),
{
    merge_takes_old_then_new(old, new);
    let r = merged(old, new, mode)[m];
    if m < old.len() {
        let o = old[m];
        lemma_last_with(new, o.crate_name);
        if mode == MergeMode::UpdateOrExpandOnly {
            if exists|k: int| is_last_of(new, o.crate_name, k) {
                let k = choose|k: int| is_last_of(new, o.crate_name, k);
                update_takes_what_is_new(o, new, k);
                assert(r == o);
            } else {
                lemma_has_last(new, o.crate_name);
                update_leaves_the_rest(o, new);
                assert(r == o);
            }
        } else if mode == MergeMode::Override {
            assert(r == o);
        }
    } else if mode == MergeMode::Parallel {
        parallel_takes_the_new_one(new[m - old.len()], old);
    } else {
        let rest = merged(old, new, mode).skip(old.len() as int);
        assert(rest[m - old.len()] == r);
    }
}

/// A crate that has a definition has a last one.
proof fn lemma_has_last(crates: Seq<CrateSpec>, crate_name: Seq<char>)
    requires
        forall|k: int| !is_last_of(crates, crate_name, k),
    ensures
        forall|j: int| 0 <= j < crates.len() ==> (#[trigger] crates[j]).crate_name != crate_name,
    decreases crates.len(),
{
    if crates.len() > 0 {
        let rest = crates.drop_last();
        let n = crates.len() - 1;
        assert(!is_last_of(crates, crate_name, n));
        assert(crates[n].crate_name != crate_name);
        assert forall|k: int| !is_last_of(rest, crate_name, k) by {
            if is_last_of(rest, crate_name, k) {
                assert forall|j: int| k < j < crates.len() implies (#[trigger] crates[j]).crate_name
                    != crate_name by {
                    if j < n {
                        assert(rest[j].crate_name != crate_name);
                    }
                }
                assert(is_last_of(crates, crate_name, k));
            }
        }
        lemma_has_last(rest, crate_name);
        assert forall|j: int| 0 <= j < crates.len() implies (#[trigger] crates[j]).crate_name
            != crate_name by {
            if j < n {
                assert(rest[j].crate_name != crate_name);
            }
        }
    }
}

/// The file that a merge writes reads back with definitions that say what the merged ones say, in
/// the same order, whatever the mode.
pub proof fn merged_file_reads_back(
    text: Seq<char>,
    new: Seq<CrateSpec>,
    mode: MergeMode,
    result: Seq<CrateSpec>,
)
    requires
        is_stable_sort(result, merged(build_file(text).crates, new, mode)),
        result.len() > 0,
        can_be_written(result),
        build_file(text).crates.len() == 0 ==> is_passable(text, 0),
    ensures
        ({
            let again = build_file(
                rendered(build_file(text).header, result, kept_trailer(build_file(text))),
            ).crates;
            &&& again.len() == result.len()
            &&& forall|i: int|
                0 <= i < result.len() ==> bare(#[trigger] again[i]) == bare(result[i])
        }),
{
    let file = build_file(text);
    let all = merged(file.crates, new, mode);
    read_crates_are_intact(text);
    sorting_keeps_definitions(result, all);
    assert forall|i: int| 0 <= i < result.len() && !result[i].modified implies is_intact(
        #[trigger] result[i],
    ) by {
        assert(result.contains(result[i]));
        lemma_unmarked_is_old(file.crates, new, mode, all.index_of(result[i]));
    }
    lemma_crates_read_back(text, result);
}

/// Definitions that are modified or as they were read read back from a rewritten file.
pub proof fn lemma_crates_read_back(text: Seq<char>, result: Seq<CrateSpec>)
    requires
        result.len() > 0,
        can_be_written(result),
        forall|i: int| 0 <= i < result.len() && !result[i].modified ==> is_intact(#[trigger] result[i]),
        build_file(text).crates.len() == 0 ==> is_passable(text, 0),
    ensures
        ({
            let again = build_file(
                rendered(build_file(text).header, result, kept_trailer(build_file(text))),
            ).crates;
            &&& again.len() == result.len()
            &&& forall|i: int|
                0 <= i < result.len() ==> bare(#[trigger] again[i]) == bare(result[i])
        }),
{
    let file = build_file(text);
    assert forall|i: int| 0 <= i < result.len() implies is_writable(#[trigger] result[i]) by {
        lemma_says_the_same(result[i], Seq::empty());
    }
    rewritten_file_reads_back(text, result);
    let again = build_file(rendered(file.header, result, kept_trailer(file))).crates;
    assert forall|i: int| 0 <= i < result.len() implies bare(#[trigger] again[i]) == bare(
        result[i],
    ) by {
        lemma_says_the_same(result[i], if i == 0 { file.header } else { "\n\n"@ });
    }
}

/// After an update the file has what is new: for an old definition that is not pinned and the new
/// definition of its crate, the file reads back with a definition under the old names that has all
/// the features and dependencies of both, in the later of the two versions.
pub proof fn updated_file_has_what_is_new(
    text: Seq<char>,
    new: Seq<CrateSpec>,
    result: Seq<CrateSpec>,
    i: int,
    k: int,
) -> (at: int)
    requires
        is_stable_sort(result, merged(build_file(text).crates, new, MergeMode::UpdateOrExpandOnly)),
        can_be_written(result),
        0 <= i < build_file(text).crates.len(),
        !build_file(text).crates[i].pinned,
        is_last_of(new, build_file(text).crates[i].crate_name, k),
    ensures
        ({
            let o = build_file(text).crates[i];
            let n = new[k];
            let again = build_file(
                rendered(build_file(text).header, result, kept_trailer(build_file(text))),
            ).crates;
            let r = again[at];
            &&& 0 <= at < again.len()
            &&& r.name == o.name && r.crate_name == o.crate_name
            &&& r.edition == o.edition && r.crate_type == o.crate_type && r.build_root
                == o.build_root
            &&& is_later(o.version, n.version) ==> r.version == n.version
            &&& !is_later(o.version, n.version) ==> r.version == o.version
            &&& forall|f: Seq<char>| #[trigger]
                r.features.contains(f) <==> o.features.contains(f) || n.features.contains(f)
            &&& forall|d: Seq<char>| #[trigger]
                r.deps.contains(d) <==> o.deps.contains(d) || n.deps.contains(d)
        }),
{
    let o = build_file(text).crates[i];
    let n = new[k];
    let r = expanded(o, new);
    let at = lemma_place_after_merge(text, new, MergeMode::UpdateOrExpandOnly, result, i);
    update_takes_what_is_new(o, new, k);
    lemma_with_new_items(r.features, o.features, n.features);
    lemma_with_new_items(r.deps, o.deps, n.deps);
    at
}

/// Where what becomes of an old definition is found in the file that a merge writes.
proof fn lemma_place_after_merge(
    text: Seq<char>,
    new: Seq<CrateSpec>,
    mode: MergeMode,
    result: Seq<CrateSpec>,
    i: int,
) -> (at: int)
    requires
        is_stable_sort(result, merged(build_file(text).crates, new, mode)),
        can_be_written(result),
        0 <= i < build_file(text).crates.len(),
    ensures
        ({
            let again = build_file(
                rendered(build_file(text).header, result, kept_trailer(build_file(text))),
            ).crates;
            let r = merged(build_file(text).crates, new, mode)[i];
            &&& 0 <= at < again.len()
            &&& bare(again[at]) == bare(r)
            &&& again[at].name == r.name && again[at].crate_name == r.crate_name
            &&& again[at].version == r.version && again[at].edition == r.edition
            &&& again[at].features == r.features && again[at].deps == r.deps
            &&& again[at].crate_type == r.crate_type && again[at].build_root == r.build_root
        }),
{
    let file = build_file(text);
    let all = merged(file.crates, new, mode);
    merge_takes_old_then_new(file.crates, new);
    assert(all.len() >= file.crates.len());
    let r = all[i];
    sorting_keeps_definitions(result, all);
    assert(all.contains(r));
    assert(result.contains(r));
    let at = result.index_of(r);
    assert(result[at] == r);
    merged_file_reads_back(text, new, mode, result);
    let again = build_file(rendered(file.header, result, kept_trailer(file))).crates;
    let x = bare(again[at]);
    let y = bare(r);
    assert(x == y);
    assert(x.name == y.name && x.features == y.features && x.deps == y.deps);
    at
}

/// After overriding the file has the new definition: where the crate of an old definition that is
/// not pinned has a new one, the file reads back with all that the new one says, under the old rule
/// name. A pinned definition reads back as it was.
pub proof fn overridden_file_has_the_new_one(
    text: Seq<char>,
    new: Seq<CrateSpec>,
    result: Seq<CrateSpec>,
    i: int,
    k: int,
) -> (at: int)
    requires
        is_stable_sort(result, merged(build_file(text).crates, new, MergeMode::Override)),
        can_be_written(result),
        0 <= i < build_file(text).crates.len(),
        is_last_of(new, build_file(text).crates[i].crate_name, k),
    ensures
        ({
            let o = build_file(text).crates[i];
            let n = new[k];
            let again = build_file(
                rendered(build_file(text).header, result, kept_trailer(build_file(text))),
            ).crates;
            let r = again[at];
            let source = if o.pinned {
                o
            } else {
                n
            };
            &&& 0 <= at < again.len()
            &&& r.name == o.name && r.crate_name == o.crate_name
            &&& r.version == source.version && r.edition == source.edition
            &&& r.features == source.features && r.deps == source.deps
            &&& r.crate_type == source.crate_type && r.build_root == source.build_root
        }),
{
    override_takes_the_new_one(build_file(text).crates[i], new, k);
    lemma_place_after_merge(text, new, MergeMode::Override, result, i)
}

/// After a parallel merge the file has both: an old definition and a new one read back with all that
/// they say, but for the new one's rule name.
pub proof fn parallel_file_has_both(
    text: Seq<char>,
    new: Seq<CrateSpec>,
    result: Seq<CrateSpec>,
    i: int,
    j: int,
) -> (places: (int, int))
    requires
        is_stable_sort(result, merged(build_file(text).crates, new, MergeMode::Parallel)),
        can_be_written(result),
        0 <= i < build_file(text).crates.len(),
        0 <= j < new.len(),
    ensures
        ({
            let o = build_file(text).crates[i];
            let n = new[j];
            let again = build_file(
                rendered(build_file(text).header, result, kept_trailer(build_file(text))),
            ).crates;
            let kept = again[places.0];
            let more = again[places.1];
            &&& 0 <= places.0 < again.len() && 0 <= places.1 < again.len()
            &&& bare(kept) == bare(o)
            &&& more.crate_name == n.crate_name && more.version == n.version
            &&& more.edition == n.edition && more.features == n.features && more.deps == n.deps
            &&& more.crate_type == n.crate_type && more.build_root == n.build_root
            &&& more.name == suffixed(n, build_file(text).crates).name
        }),
{
    let file = build_file(text);
    let all = merged(file.crates, new, MergeMode::Parallel);
    let at = lemma_place_after_merge(text, new, MergeMode::Parallel, result, i);
    merge_takes_old_then_new(file.crates, new);
    parallel_takes_the_new_one(new[j], file.crates);
    let r = suffixed(new[j], file.crates);
    assert(all[file.crates.len() + j] == r);
    sorting_keeps_definitions(result, all);
    assert(all.contains(r));
    assert(result.contains(r));
    let place = result.index_of(r);
    assert(result[place] == r);
    merged_file_reads_back(text, new, MergeMode::Parallel, result);
    let again = build_file(rendered(file.header, result, kept_trailer(file))).crates;
    let x = bare(again[place]);
    let y = bare(r);
    assert(x == y);
    assert(x.name == y.name && x.features == y.features && x.deps == y.deps);
    (at, place)
}

/// A list and, after it, the items of another list that it lacks.
proof fn lemma_with_new_items(whole: Seq<Seq<char>>, a: Seq<Seq<char>>, b: Seq<Seq<char>>)
    requires
        whole == a + b.filter(|y: Seq<char>| !a.contains(y)),
    ensures
        forall|x: Seq<char>| #[trigger]
            whole.contains(x) <==> a.contains(x) || b.contains(x),
{
    let p = |y: Seq<char>| !a.contains(y);
    let more = b.filter(p);
    assert forall|x: Seq<char>| #[trigger] whole.contains(x) <==> a.contains(x) || b.contains(x) by {
        if whole.contains(x) {
            let i = whole.index_of(x);
            if i >= a.len() {
                assert(more[i - a.len()] == x);
                assert(more.contains(x));
                b.lemma_filter_contains_rev(p, x);
            }
        }
        if a.contains(x) {
            assert(whole[a.index_of(x)] == x);
        } else if b.contains(x) {
            b.lemma_filter_contains(p, b.index_of(x));
            assert(whole[a.len() + more.index_of(x)] == x);
        }
    }
}

/// Warnings are about one definition each, in order: those of two lists of old definitions are the
/// warnings of the first and then those of the second, and likewise for new ones in a parallel merge.
pub proof fn warnings_come_one_by_one(
    a: Seq<CrateSpec>,
    b: Seq<CrateSpec>,
    other: Seq<CrateSpec>,
)
    ensures
        merge_warnings(a + b, other, MergeMode::Override) == merge_warnings(
            a,
            other,
            MergeMode::Override,
        ) + merge_warnings(b, other, MergeMode::Override),
        merge_warnings(a + b, other, MergeMode::UpdateOrExpandOnly) == merge_warnings(
            a,
            other,
            MergeMode::UpdateOrExpandOnly,
        ) + merge_warnings(b, other, MergeMode::UpdateOrExpandOnly),
        merge_warnings(other, a + b, MergeMode::Parallel) == merge_warnings(
            other,
            a,
            MergeMode::Parallel,
        ) + merge_warnings(other, b, MergeMode::Parallel),
    decreases b.len(),
{
    if b.len() == 0 {
        assert(a + b =~= a);
        let none = Seq::<Seq<char>>::empty();
        assert(override_warnings(a, other) + none =~= override_warnings(a, other));
        assert(update_warnings(a, other) + none =~= update_warnings(a, other));
        assert(parallel_warnings(a, other) + none =~= parallel_warnings(a, other));
    } else {
        let rest = b.drop_last();
        let c = b.last();
        warnings_come_one_by_one(a, rest, other);
        assert((a + b).drop_last() =~= a + rest);
        assert((a + b).last() == c);
        assert(override_warnings(a, other) + override_warnings(rest, other) + override_warning(
            c,
            other,
        ) =~= override_warnings(a, other) + (override_warnings(rest, other) + override_warning(
            c,
            other,
        )));
        assert(update_warnings(a, other) + update_warnings(rest, other) + update_warning(c, other)
            =~= update_warnings(a, other) + (update_warnings(rest, other) + update_warning(
            c,
            other,
        )));
        assert(parallel_warnings(a, other) + parallel_warnings(rest, other) + parallel_warning(
            c,
            other,
        ) =~= parallel_warnings(a, other) + (parallel_warnings(rest, other) + parallel_warning(
            c,
            other,
        )));
    }
}

/// One definition alone, in a merge with definitions of other crates, is not warned about.
pub proof fn other_crates_give_no_warning(c: CrateSpec, other: Seq<CrateSpec>)
    requires
        forall|j: int| 0 <= j < other.len() ==> (#[trigger] other[j]).crate_name != c.crate_name,
    ensures
        merge_warnings(seq![c], other, MergeMode::Override).len() == 0,
        merge_warnings(seq![c], other, MergeMode::UpdateOrExpandOnly).len() == 0,
        merge_warnings(other, seq![c], MergeMode::Parallel).len() == 0,
{
    last_definition_counts(other, c.crate_name, 0);
    assert(seq![c].drop_last() =~= Seq::empty());
    reveal_with_fuel(override_warnings, 2);
    reveal_with_fuel(update_warnings, 2);
    reveal_with_fuel(parallel_warnings, 2);
}

/// What is warned about one old definition `o`, where `n` is the new one of its crate. Nothing if
/// it is not pinned. If it is: when overriding, that it stays, and before that any version that
/// cannot be read; when updating, that it stays, if there is a later version or a further feature.
pub proof fn pinned_definitions_are_warned_about(o: CrateSpec, new: Seq<CrateSpec>, k: int)
    requires
        is_last_of(new, o.crate_name, k),
    ensures
        ({
            let n = new[k];
            let overriding = merge_warnings(seq![o], new, MergeMode::Override);
            let updating = merge_warnings(seq![o], new, MergeMode::UpdateOrExpandOnly);
            let versions = o.crate_name + " v"@ + o.version + "\n│  New:     "@ + n.crate_name
                + " v"@ + n.version;
            let unreadable = "WARNING: Cannot parse version for '"@ + o.name
                + "' - skipping update\n│  Current: "@ + versions + "\n│  Keeping current version."@;
            let kept = "WARNING: Cannot update PINNED crate '"@ + o.name
                + "' (has # straddle_carrier:do_not_touch)\n│  Current: "@ + versions
                + "\n│  Keeping pinned version. Remove the pin comment to allow updates."@;
            let outdated = "WARNING: Cannot update PINNED crate '"@ + o.name
                + "' (has # straddle_carrier:do_not_touch)\n│  Current version: "@ + o.version
                + "\n│  Available version: "@ + n.version + "\n│  Missing features: "@ + debug_text(
                difference(n.features, o.features),
            ) + "\n│  Keeping pinned version. Remove the pin comment to allow updates."@;
            let behind = is_later(o.version, n.version) || exists|f: Seq<char>| #[trigger]
                n.features.contains(f) && !o.features.contains(f);
            &&& !o.pinned ==> overriding.len() == 0 && updating.len() == 0
            &&& o.pinned && semver(o.version) is Some && semver(n.version) is Some ==> overriding
                == seq![kept]
            &&& o.pinned && (semver(o.version) is None || semver(n.version) is None) ==> overriding
                == seq![unreadable, kept]
            &&& o.pinned && behind ==> updating == seq![outdated]
            &&& o.pinned && !behind ==> updating.len() == 0
        }),
{
    let n = new[k];
    last_definition_counts(new, o.crate_name, k);
    assert(seq![o].drop_last() =~= Seq::empty());
    reveal_with_fuel(override_warnings, 2);
    reveal_with_fuel(update_warnings, 2);
    let none = Seq::<Seq<char>>::empty();
    assert(merge_warnings(seq![o], new, MergeMode::Override) =~= override_warning(o, new));
    assert(merge_warnings(seq![o], new, MergeMode::UpdateOrExpandOnly) =~= update_warning(o, new));
    let versions = o.crate_name + " v"@ + o.version + "\n│  New:     "@ + n.crate_name + " v"@
        + n.version;
    assert(unreadable_text(o, n) =~= "WARNING: Cannot parse version for '"@ + o.name
        + "' - skipping update\n│  Current: "@ + versions + "\n│  Keeping current version."@);
    assert(pinned_text(o, n) =~= "WARNING: Cannot update PINNED crate '"@ + o.name
        + "' (has # straddle_carrier:do_not_touch)\n│  Current: "@ + versions
        + "\n│  Keeping pinned version. Remove the pin comment to allow updates."@);
    let missing = difference(n.features, o.features);
    difference_is_exact(n.features, o.features);
    if missing.len() > 0 {
        assert(missing.contains(missing[0]));
        assert(n.features.contains(missing[0]));
    }
    if exists|f: Seq<char>| #[trigger] n.features.contains(f) && !o.features.contains(f) {
        let f = choose|f: Seq<char>| #[trigger] n.features.contains(f) && !o.features.contains(f);
        assert(missing.contains(f));
    }
    if o.pinned && (semver(o.version) is None || semver(n.version) is None) {
        assert(override_warning(o, new) =~= seq![unreadable_text(o, n), pinned_text(o, n)]);
    } else if o.pinned {
        assert(override_warning(o, new) =~= seq![pinned_text(o, n)]);
    }
}

/// What a parallel merge warns about one new definition `c`, where `o` is the last old one of its
/// crate: that both stay, if the old one is pinned and of another version, with the names of both.
pub proof fn parallel_versions_are_warned_about(c: CrateSpec, old: Seq<CrateSpec>, k: int)
    requires
        is_last_of(old, c.crate_name, k),
    ensures
        ({
            let o = old[k];
            let warnings = merge_warnings(old, seq![c], MergeMode::Parallel);
            &&& o.pinned && o.version != c.version ==> warnings == seq![
                "WARNING: Adding parallel version for PINNED crate '"@ + o.crate_name
                    + "'\n│  Pinned version: "@ + o.version + " (kept as '"@ + o.name
                    + "')\n│  New version: "@ + c.version + " (added as '"@ + suffixed(c, old).name
                    + "')\n│  Both versions will coexist."@,
            ]
            &&& !o.pinned || o.version == c.version ==> warnings.len() == 0
        }),
{
    last_definition_counts(old, c.crate_name, k);
    assert(seq![c].drop_last() =~= Seq::empty());
    reveal_with_fuel(parallel_warnings, 2);
    let o = old[k];
    assert(merge_warnings(old, seq![c], MergeMode::Parallel) =~= parallel_warning(c, old));
    let before = "WARNING: Adding parallel version for PINNED crate '"@ + o.crate_name
        + "'\n│  Pinned version: "@ + o.version + " (kept as '"@ + o.name + "')\n│  New version: "@
        + c.version + " (added as '"@;
    let after = "')\n│  Both versions will coexist."@;
    assert(parallel_text(o, c) =~= before + suffixed(c, old).name + after);
}

/// The note about a crate's definitions counts them and lists them all, in order.
pub proof fn fork_note_lists_all(crate_name: Seq<char>, crates: Seq<CrateSpec>)
    ensures
        ({
            let forks = crates.filter(|c: CrateSpec| c.crate_name == crate_name);
            fork_text(crate_name, forks_of(crates, crate_name)) == "INFO: Fork detected for crate '"@
                + crate_name + "' - "@ + decimal(forks.len()) + " versions coexist:\n│  "@ + joined(
                forks.map_values(|c: CrateSpec| "'"@ + c.name + "' v"@ + c.version),
                "\n│  "@,
            )
        }),
{
    let forks = crates.filter(|c: CrateSpec| c.crate_name == crate_name);
    assert(forks.map_values(|c: CrateSpec| fork_item(c)) =~= forks.map_values(
        |c: CrateSpec| "'"@ + c.name + "' v"@ + c.version,
    ));
}

/// Nothing is noted but crates with several definitions, each once, where its first definition
/// stands.
pub proof fn only_forks_are_noted(crates: Seq<CrateSpec>, n: int)
    requires
        0 <= n < crates.len(),
    ensures
        fork_notes(crates, 0).len() == 0,
        ({
            let name = crates[n].crate_name;
            let first = forall|i: int| 0 <= i < n ==> (#[trigger] crates[i]).crate_name != name;
            let forks = crates.filter(|c: CrateSpec| c.crate_name == name);
            &&& first && forks.len() > 1 ==> fork_notes(crates, n + 1) == fork_notes(crates, n).push(
                fork_text(name, forks),
            )
            &&& !(first && forks.len() > 1) ==> fork_notes(crates, n + 1) == fork_notes(crates, n)
        }),
{
    let name = crates[n].crate_name;
    let before = crates.take(n);
    if has_crate(before, name) {
        let i = choose|i: int| 0 <= i < before.len() && #[trigger] before[i].crate_name == name;
        assert(crates[i].crate_name == name);
    } else {
        assert forall|i: int| 0 <= i < n implies (#[trigger] crates[i]).crate_name != name by {
            assert(before[i].crate_name != name);
        }
    }
}

} // verus!
