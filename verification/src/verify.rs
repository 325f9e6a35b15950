//! Checking that a BUILD file satisfies the requirements of a Cargo.toml.

use crate::build_file::{build_file, parse_build_file};
use crate::crate_def::{CrateDefinition, CrateSpec};
use crate::merge::{
    find_last, has_crate, has_distinct_crates, last_with, lemma_only_definition,
};
use crate::semver::{precedes, semver, version_lt};
use crate::text::{
    debug_list, debug_text, difference, difference_is_exact, list_difference, same_items,
};
use vstd::prelude::*;

verus! {

/// How to check a BUILD file against a Cargo.toml.
#[derive(Debug, Clone, Copy, PartialEq, Eq, Structural)]
pub enum VerifyMode {
    /// Exact match: versions and features must match exactly.
    Exact,
    /// Compatible: all deps present, versions satisfy semver, all required features present.
    Compatible,
}

impl Default for VerifyMode {
    fn default() -> (mode: Self)
        ensures
            mode == VerifyMode::Compatible,
    {
        VerifyMode::Compatible
    }
}

/// What a check found.
#[derive(Debug)]
pub struct VerifyReport {
    pub errors: Vec<String>,
    pub warnings: Vec<String>,
}

/// The error about a crate that has no definition.
pub open spec fn missing_text(required: CrateSpec) -> Seq<char> {
    "Missing dependency: "@ + required.crate_name + " v"@ + required.version
}

/// The error about another version than the required one.
pub open spec fn mismatch_text(required: CrateSpec, existing: CrateSpec) -> Seq<char> {
    "Version mismatch for "@ + required.crate_name + ": have "@ + existing.version + ", need "@
        + required.version
}

/// The error about another major version than the required one.
pub open spec fn major_text(required: CrateSpec, existing: CrateSpec) -> Seq<char> {
    "Incompatible major version for "@ + required.crate_name + ": have "@ + existing.version
        + ", need "@ + required.version
}

/// The error about an earlier version than the required one.
pub open spec fn too_old_text(required: CrateSpec, existing: CrateSpec) -> Seq<char> {
    "Version too old for "@ + required.crate_name + ": have "@ + existing.version
        + ", need at least "@ + required.version
}

/// The warning about a later version than the required one.
pub open spec fn newer_text(required: CrateSpec, existing: CrateSpec) -> Seq<char> {
    "Newer version for "@ + required.crate_name + ": have "@ + existing.version + ", required "@
        + required.version
}

/// The error about required features that are missing.
pub open spec fn missing_features_text(required: CrateSpec, features: Seq<Seq<char>>) -> Seq<char> {
    "Missing features for "@ + required.crate_name + ": "@ + debug_text(features)
}

/// The error about features that are not required.
pub open spec fn extra_features_text(required: CrateSpec, features: Seq<Seq<char>>) -> Seq<char> {
    "Extra features for "@ + required.crate_name + ": "@ + debug_text(features)
}

/// The text if the condition holds, nothing otherwise.
pub open spec fn only_if(condition: bool, text: Seq<char>) -> Seq<Seq<char>> {
    if condition {
        seq![text]
    } else {
        Seq::empty()
    }
}

/// The error about missing features, if there are any.
pub open spec fn feature_errors(required: CrateSpec, existing: CrateSpec) -> Seq<Seq<char>> {
    let missing = difference(required.features, existing.features);
    only_if(missing.len() > 0, missing_features_text(required, missing))
}

/// The errors of an exact check of one definition.
pub open spec fn exact_errors(required: CrateSpec, existing: CrateSpec) -> Seq<Seq<char>> {
    let extra = difference(existing.features, required.features);
    only_if(existing.version != required.version, mismatch_text(required, existing))
        + feature_errors(required, existing) + only_if(
        extra.len() > 0,
        extra_features_text(required, extra),
    )
}

/// The error about the version in a compatibility check of one definition. Where a version cannot be
/// read, the two must be the same text.
pub open spec fn version_errors(required: CrateSpec, existing: CrateSpec) -> Seq<Seq<char>> {
    match (semver(existing.version), semver(required.version)) {
        (Some(have), Some(need)) => if have.0 != need.0 {
            seq![major_text(required, existing)]
        } else {
            only_if(version_lt(have, need), too_old_text(required, existing))
        },
        _ => only_if(existing.version != required.version, mismatch_text(required, existing)),
    }
}

/// The warning about the version in a compatibility check of one definition.
pub open spec fn version_warnings(required: CrateSpec, existing: CrateSpec) -> Seq<Seq<char>> {
    match (semver(existing.version), semver(required.version)) {
        (Some(have), Some(need)) => only_if(
            have.0 == need.0 && version_lt(need, have),
            newer_text(required, existing),
        ),
        _ => Seq::empty(),
    }
}

/// The errors about one required crate.
pub open spec fn crate_errors(
    required: CrateSpec,
    existing: Seq<CrateSpec>,
    mode: VerifyMode,
) -> Seq<Seq<char>> {
    match last_with(existing, required.crate_name) {
        None => seq![missing_text(required)],
        Some(c) => match mode {
            VerifyMode::Exact => exact_errors(required, c),
            VerifyMode::Compatible => version_errors(required, c) + feature_errors(required, c),
        },
    }
}

/// The warnings about one required crate.
pub open spec fn crate_warnings(
    required: CrateSpec,
    existing: Seq<CrateSpec>,
    mode: VerifyMode,
) -> Seq<Seq<char>> {
    match last_with(existing, required.crate_name) {
        None => Seq::empty(),
        Some(c) => match mode {
            VerifyMode::Exact => Seq::empty(),
            VerifyMode::Compatible => version_warnings(required, c),
        },
    }
}

/// The errors of a check, in the order of the required crates.
pub open spec fn verify_errors(
    required: Seq<CrateSpec>,
    existing: Seq<CrateSpec>,
    mode: VerifyMode,
) -> Seq<Seq<char>>
    decreases required.len(),
{
    if required.len() == 0 {
        Seq::empty()
    } else {
        verify_errors(required.drop_last(), existing, mode) + crate_errors(
            required.last(),
            existing,
            mode,
        )
    }
}

/// The warnings of a check, in the order of the required crates.
pub open spec fn verify_warnings(
    required: Seq<CrateSpec>,
    existing: Seq<CrateSpec>,
    mode: VerifyMode,
) -> Seq<Seq<char>>
    decreases required.len(),
{
    if required.len() == 0 {
        Seq::empty()
    } else {
        verify_warnings(required.drop_last(), existing, mode) + crate_warnings(
            required.last(),
            existing,
            mode,
        )
    }
}

/// A message about two versions of a crate: `before`, the crate's name, the version there is,
/// `between`, and the required version.
fn version_message(
    before: &str,
    required: &CrateDefinition,
    existing: &CrateDefinition,
    between: &str,
) -> (message: String)
    ensures
        message@ == before@ + required@.crate_name + ": have "@ + existing@.version + between@
            + required@.version,
{
    let mut message = before.to_string();
    message.append(required.crate_name.as_str());
    message.append(": have ");
    message.append(existing.version.as_str());
    message.append(between);
    message.append(required.version.as_str());
    message
}

/// A message about features of a crate: `before`, the crate's name and the features.
fn feature_message(before: &str, required: &CrateDefinition, features: &Vec<String>) -> (message: String)
    ensures
        message@ == before@ + required@.crate_name + ": "@ + debug_text(features.deep_view()),
{
    let shown = debug_list(features);
    let mut message = before.to_string();
    message.append(required.crate_name.as_str());
    message.append(": ");
    message.append(shown.as_str());
    message
}

/// Appends the error about missing features, if there are any.
fn check_features(required: &CrateDefinition, existing: &CrateDefinition, errors: &mut Vec<String>)
    ensures
        final(errors).deep_view() == old(errors).deep_view() + feature_errors(
            required@,
            existing@,
        ),
{
    let ghost before = errors.deep_view();
    let missing = list_difference(&required.features, &existing.features);
    assert(missing.deep_view().len() == missing.len());
    if missing.len() > 0 {
        let message = feature_message("Missing features for ", required, &missing);
        let ghost shown = message@;
        errors.push(message);
        assert(errors.deep_view() =~= before.push(shown));
    }
    assert(errors.deep_view() =~= before + feature_errors(required@, existing@));
}

/// Appends the errors of an exact check.
fn check_exact(required: &CrateDefinition, existing: &CrateDefinition, errors: &mut Vec<String>)
    ensures
        final(errors).deep_view() == old(errors).deep_view() + exact_errors(required@, existing@),
{
    let ghost start = errors.deep_view();
    if existing.version != required.version {
        let message = version_message("Version mismatch for ", required, existing, ", need ");
        let ghost shown = message@;
        errors.push(message);
        assert(errors.deep_view() =~= start.push(shown));
    }
    check_features(required, existing, errors);
    let ghost before = errors.deep_view();
    let extra = list_difference(&existing.features, &required.features);
    assert(extra.deep_view().len() == extra.len());
    if extra.len() > 0 {
        let message = feature_message("Extra features for ", required, &extra);
        let ghost shown = message@;
        errors.push(message);
        assert(errors.deep_view() =~= before.push(shown));
    }
    assert(errors.deep_view() =~= start + exact_errors(required@, existing@));
}

/// Appends the errors and warnings of a compatibility check.
fn check_compatible(required: &CrateDefinition, existing: &CrateDefinition, report: &mut VerifyReport)
    ensures
        final(report).errors.deep_view() == old(report).errors.deep_view() + (version_errors(
            required@,
            existing@,
        ) + feature_errors(required@, existing@)),
        final(report).warnings.deep_view() == old(report).warnings.deep_view() + version_warnings(
            required@,
            existing@,
        ),
{
    let ghost errors = report.errors.deep_view();
    let ghost warnings = report.warnings.deep_view();
    match (existing.parse_semver(), required.parse_semver()) {
        (Some(have), Some(need)) => {
            if have.0 != need.0 {
                let message = version_message(
                    "Incompatible major version for ",
                    required,
                    existing,
                    ", need ",
                );
                let ghost shown = message@;
                report.errors.push(message);
                assert(report.errors.deep_view() =~= errors.push(shown));
            } else if precedes(have, need) {
                let message = version_message(
                    "Version too old for ",
                    required,
                    existing,
                    ", need at least ",
                );
                let ghost shown = message@;
                report.errors.push(message);
                assert(report.errors.deep_view() =~= errors.push(shown));
            } else if precedes(need, have) {
                let message = version_message(
                    "Newer version for ",
                    required,
                    existing,
                    ", required ",
                );
                let ghost shown = message@;
                report.warnings.push(message);
                assert(report.warnings.deep_view() =~= warnings.push(shown));
            }
        },
        _ => {
            if existing.version != required.version {
                let message = version_message(
                    "Version mismatch for ",
                    required,
                    existing,
                    ", need ",
                );
                let ghost shown = message@;
                report.errors.push(message);
                assert(report.errors.deep_view() =~= errors.push(shown));
            }
        },
    }
    check_features(required, existing, &mut report.errors);
    assert(report.errors.deep_view() =~= errors + (version_errors(required@, existing@)
        + feature_errors(required@, existing@)));
}

/// Checks the existing definitions against the required ones.
pub fn verify_crates(
    required: &[CrateDefinition],
    existing: &[CrateDefinition],
    mode: VerifyMode,
) -> (report: VerifyReport)
    ensures
        report.errors.deep_view() == verify_errors(
            required.deep_view(),
            existing.deep_view(),
            mode,
        ),
        report.warnings.deep_view() == verify_warnings(
            required.deep_view(),
            existing.deep_view(),
            mode,
        ),
{
    let ghost all = required.deep_view();
    let ghost present = existing.deep_view();
    let mut report = VerifyReport { errors: Vec::new(), warnings: Vec::new() };
    assert(report.errors.deep_view() =~= Seq::<Seq<char>>::empty());
    assert(report.warnings.deep_view() =~= Seq::<Seq<char>>::empty());
    for i in 0..required.len()
        invariant
            all == required.deep_view(),
            present == existing.deep_view(),
            report.errors.deep_view() == verify_errors(all.take(i as int), present, mode),
            report.warnings.deep_view() == verify_warnings(all.take(i as int), present, mode),
    {
        assert(all.take(i + 1).drop_last() =~= all.take(i as int));
        let ghost errors = report.errors.deep_view();
        let ghost warnings = report.warnings.deep_view();
        assert(warnings + Seq::<Seq<char>>::empty() =~= warnings);
        let needed = &required[i];
        match find_last(existing, &needed.crate_name) {
            None => {
                let mut message = "Missing dependency: ".to_string();
                message.append(needed.crate_name.as_str());
                message.append(" v");
                message.append(needed.version.as_str());
                let ghost shown = message@;
                report.errors.push(message);
                assert(report.errors.deep_view() =~= errors + seq![shown]);
            },
            Some(found) => match mode {
                VerifyMode::Exact => {
                    check_exact(needed, found, &mut report.errors);
                },
                VerifyMode::Compatible => {
                    check_compatible(needed, found, &mut report);
                },
            },
        }
    }
    assert(all.take(required.len() as int) =~= all);
    report
}

/// Checks the definitions of a BUILD file against the required ones.
pub fn verify_build_file(content: &str, required: &[CrateDefinition], mode: VerifyMode) -> (report: VerifyReport)
    ensures
        report.errors.deep_view() == verify_errors(
            required.deep_view(),
            build_file(content@).crates,
            mode,
        ),
        report.warnings.deep_view() == verify_warnings(
            required.deep_view(),
            build_file(content@).crates,
            mode,
        ),
{
    let existing = parse_build_file(content);
    verify_crates(required, existing.as_slice(), mode)
}

/// Whether the existing definitions meet a requirement.
///
/// Exactly: the crate has a definition with the required version and the required features. In the
/// compatible way: the crate has a definition with all the required features, in a version with the
/// same major number that is not earlier; if one of the versions cannot be read, in the same one.
pub open spec fn is_met(required: CrateSpec, existing: Seq<CrateSpec>, mode: VerifyMode) -> bool {
    match last_with(existing, required.crate_name) {
        None => false,
        Some(c) => match mode {
            VerifyMode::Exact => c.version == required.version && same_items(
                c.features,
                required.features,
            ),
            VerifyMode::Compatible => {
                &&& match (semver(c.version), semver(required.version)) {
                    (Some(have), Some(need)) => have.0 == need.0 && !version_lt(have, need),
                    _ => c.version == required.version,
                }
                &&& forall|feature: Seq<char>|
                    #[trigger] required.features.contains(feature) ==> c.features.contains(feature)
            },
        },
    }
}

/// A list has no difference from one that holds all its items.
proof fn lemma_no_difference(list: Seq<Seq<char>>, other: Seq<Seq<char>>)
    ensures
        difference(list, other).len() == 0 <==> forall|item: Seq<char>|
            #[trigger] list.contains(item) ==> other.contains(item),
{
    let d = difference(list, other);
    difference_is_exact(list, other);
    if d.len() > 0 {
        assert(d.contains(d[0]));
    } else {
        assert forall|item: Seq<char>| #[trigger] list.contains(item) implies other.contains(item) by {
            assert(!d.contains(item));
        }
    }
}

proof fn lemma_crate_errors(required: CrateSpec, existing: Seq<CrateSpec>, mode: VerifyMode)
    ensures
        crate_errors(required, existing, mode).len() == 0 <==> is_met(required, existing, mode),
{
    match last_with(existing, required.crate_name) {
        None => {},
        Some(c) => {
            lemma_no_difference(required.features, c.features);
            lemma_no_difference(c.features, required.features);
            if mode == VerifyMode::Exact {
                let missing = difference(required.features, c.features);
                let extra = difference(c.features, required.features);
                assert(exact_errors(required, c).len() == (if c.version != required.version {
                    1int
                } else {
                    0int
                }) + (if missing.len() > 0 {
                    1int
                } else {
                    0int
                }) + (if extra.len() > 0 {
                    1int
                } else {
                    0int
                }));
                if missing.len() == 0 && extra.len() == 0 {
                    assert(same_items(c.features, required.features));
                }
            }
        },
    }
}

/// A check finds no error exactly if every requirement is met.
pub proof fn check_passes_if_all_is_met(
    required: Seq<CrateSpec>,
    existing: Seq<CrateSpec>,
    mode: VerifyMode,
)
    ensures
        verify_errors(required, existing, mode).len() == 0 <==> forall|i: int|
            0 <= i < required.len() ==> is_met(#[trigger] required[i], existing, mode),
    decreases required.len(),
{
    if required.len() > 0 {
        let rest = required.drop_last();
        check_passes_if_all_is_met(rest, existing, mode);
        lemma_crate_errors(required.last(), existing, mode);
        assert(required.last() == required[required.len() - 1]);
        if verify_errors(required, existing, mode).len() == 0 {
            assert forall|i: int| 0 <= i < required.len() implies is_met(
                #[trigger] required[i],
                existing,
                mode,
            ) by {
                if i < rest.len() {
                    assert(is_met(rest[i], existing, mode));
                }
            }
        } else if verify_errors(rest, existing, mode).len() > 0 {
            let i = choose|i: int|
                0 <= i < rest.len() && !is_met(#[trigger] rest[i], existing, mode);
            assert(!is_met(required[i], existing, mode));
        }
    }
}

/// What passes the exact check passes the compatible one, without a warning.
pub proof fn exact_check_is_stricter(required: Seq<CrateSpec>, existing: Seq<CrateSpec>)
    requires
        verify_errors(required, existing, VerifyMode::Exact).len() == 0,
    ensures
        verify_errors(required, existing, VerifyMode::Compatible).len() == 0,
        verify_warnings(required, existing, VerifyMode::Compatible).len() == 0,
    decreases required.len(),
{
    if required.len() > 0 {
        exact_check_is_stricter(required.drop_last(), existing);
        lemma_crate_errors(required.last(), existing, VerifyMode::Exact);
        lemma_crate_errors(required.last(), existing, VerifyMode::Compatible);
    }
}

/// Definitions of distinct crates meet themselves as requirements, exactly.
pub proof fn definitions_meet_themselves(crates: Seq<CrateSpec>)
    requires
        has_distinct_crates(crates),
    ensures
        verify_errors(crates, crates, VerifyMode::Exact).len() == 0,
{
    assert forall|i: int| 0 <= i < crates.len() implies is_met(
        #[trigger] crates[i],
        crates,
        VerifyMode::Exact,
    ) by {
        lemma_only_definition(crates, i);
    }
    check_passes_if_all_is_met(crates, crates, VerifyMode::Exact);
}

/// Definitions of other crates do not matter to what is found of a crate.
proof fn lemma_other_crates(
    before: Seq<CrateSpec>,
    more: Seq<CrateSpec>,
    after: Seq<CrateSpec>,
    crate_name: Seq<char>,
)
    requires
        !has_crate(more, crate_name),
    ensures
        last_with(before + more + after, crate_name) == last_with(before + after, crate_name),
    decreases more.len() + after.len(),
{
    let with = before + more + after;
    let without = before + after;
    if after.len() > 0 {
        assert(with.last() == after.last());
        assert(without.last() == after.last());
        assert(with.drop_last() =~= before + more + after.drop_last());
        assert(without.drop_last() =~= before + after.drop_last());
        lemma_other_crates(before, more, after.drop_last(), crate_name);
    } else if more.len() > 0 {
        let rest = more.drop_last();
        assert(more[more.len() - 1].crate_name != crate_name);
        assert(with.last() == more.last());
        assert(with.drop_last() =~= before + rest + after);
        assert(!has_crate(rest, crate_name)) by {
            if has_crate(rest, crate_name) {
                let i = choose|i: int|
                    0 <= i < rest.len() && #[trigger] rest[i].crate_name == crate_name;
                assert(more[i].crate_name == crate_name);
            }
        }
        lemma_other_crates(before, rest, after, crate_name);
    } else {
        assert(with =~= without);
    }
}

/// Definitions of crates that are not required never make a check fail: wherever they stand, the
/// check finds the same without them.
pub proof fn further_crates_do_not_matter(
    required: Seq<CrateSpec>,
    before: Seq<CrateSpec>,
    more: Seq<CrateSpec>,
    after: Seq<CrateSpec>,
    mode: VerifyMode,
)
    requires
        forall|i: int|
            0 <= i < required.len() ==> !has_crate(more, (#[trigger] required[i]).crate_name),
    ensures
        verify_errors(required, before + more + after, mode) == verify_errors(
            required,
            before + after,
            mode,
        ),
        verify_warnings(required, before + more + after, mode) == verify_warnings(
            required,
            before + after,
            mode,
        ),
    decreases required.len(),
{
    if required.len() > 0 {
        let rest = required.drop_last();
        assert forall|i: int| 0 <= i < rest.len() implies !has_crate(
            more,
            (#[trigger] rest[i]).crate_name,
        ) by {
            assert(!has_crate(more, required[i].crate_name));
        }
        assert(!has_crate(more, required[required.len() - 1].crate_name));
        further_crates_do_not_matter(rest, before, more, after, mode);
        lemma_other_crates(before, more, after, required.last().crate_name);
    }
}

} // verus!
