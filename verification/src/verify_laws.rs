//! What a check finds.

use crate::crate_def::CrateSpec;
use crate::merge_effects::{is_last_of, last_definition_counts};
use crate::semver::semver;
use crate::text::{debug_text, difference};
use crate::verify::{crate_errors, crate_warnings, verify_errors, verify_warnings, VerifyMode};
use vstd::prelude::*;

verus! {

/// Requirements are checked one by one: what is found of two lists is what is found of the first
/// and then what is found of the second.
pub proof fn requirements_are_checked_one_by_one(
    a: Seq<CrateSpec>,
    b: Seq<CrateSpec>,
    existing: Seq<CrateSpec>,
    mode: VerifyMode,
)
    ensures
        verify_errors(a + b, existing, mode) == verify_errors(a, existing, mode) + verify_errors(
            b,
            existing,
            mode,
        ),
        verify_warnings(a + b, existing, mode) == verify_warnings(a, existing, mode)
            + verify_warnings(b, existing, mode),
    decreases b.len(),
{
    if b.len() == 0 {
        assert(a + b =~= a);
        let none = Seq::<Seq<char>>::empty();
        assert(verify_errors(a, existing, mode) + none =~= verify_errors(a, existing, mode));
        assert(verify_warnings(a, existing, mode) + none =~= verify_warnings(a, existing, mode));
    } else {
        let rest = b.drop_last();
        requirements_are_checked_one_by_one(a, rest, existing, mode);
        assert((a + b).drop_last() =~= a + rest);
        assert((a + b).last() == b.last());
        let e = crate_errors(b.last(), existing, mode);
        let w = crate_warnings(b.last(), existing, mode);
        assert(verify_errors(a, existing, mode) + verify_errors(rest, existing, mode) + e
            =~= verify_errors(a, existing, mode) + (verify_errors(rest, existing, mode) + e));
        assert(verify_warnings(a, existing, mode) + verify_warnings(rest, existing, mode) + w
            =~= verify_warnings(a, existing, mode) + (verify_warnings(rest, existing, mode) + w));
    }
}

proof fn lemma_one(required: CrateSpec, existing: Seq<CrateSpec>, mode: VerifyMode)
    ensures
        verify_errors(seq![required], existing, mode) == crate_errors(required, existing, mode),
        verify_warnings(seq![required], existing, mode) == crate_warnings(required, existing, mode),
{
    reveal_with_fuel(verify_errors, 2);
    reveal_with_fuel(verify_warnings, 2);
    let one = seq![required];
    let none = Seq::<Seq<char>>::empty();
    assert(one.drop_last() =~= Seq::empty());
    assert(one.last() == required);
    assert(none + crate_errors(required, existing, mode) =~= crate_errors(
        required,
        existing,
        mode,
    ));
    assert(none + crate_warnings(required, existing, mode) =~= crate_warnings(
        required,
        existing,
        mode,
    ));
}

/// A required crate without a definition is an error that names it and its version.
pub proof fn missing_crate_is_an_error(
    required: CrateSpec,
    existing: Seq<CrateSpec>,
    mode: VerifyMode,
)
    requires
        forall|j: int|
            0 <= j < existing.len() ==> (#[trigger] existing[j]).crate_name != required.crate_name,
    ensures
        verify_errors(seq![required], existing, mode) == seq![
            "Missing dependency: "@ + required.crate_name + " v"@ + required.version,
        ],
        verify_warnings(seq![required], existing, mode).len() == 0,
{
    last_definition_counts(existing, required.crate_name, 0);
    lemma_one(required, existing, mode);
}

/// The exact check of a required crate and the last definition of it: an error for another version,
/// one for features that are missing and one for features that are not required, each if there are
/// any, in this order. There are no warnings.
pub proof fn exact_check_finds_every_difference(
    required: CrateSpec,
    existing: Seq<CrateSpec>,
    k: int,
)
    requires
        is_last_of(existing, required.crate_name, k),
    ensures
        ({
            let c = existing[k];
            let missing = difference(required.features, c.features);
            let extra = difference(c.features, required.features);
            let version = "Version mismatch for "@ + required.crate_name + ": have "@ + c.version
                + ", need "@ + required.version;
            let lacks = "Missing features for "@ + required.crate_name + ": "@ + debug_text(missing);
            let has_more = "Extra features for "@ + required.crate_name + ": "@ + debug_text(extra);
            let errors = verify_errors(seq![required], existing, VerifyMode::Exact);
            let a: nat = if c.version != required.version {
                1
            } else {
                0
            };
            let b: nat = if missing.len() > 0 {
                1
            } else {
                0
            };
            let d: nat = if extra.len() > 0 {
                1
            } else {
                0
            };
            &&& errors.len() == a + b + d
            &&& c.version != required.version ==> errors[0] == version
            &&& missing.len() > 0 ==> errors[a as int] == lacks
            &&& extra.len() > 0 ==> errors[(a + b) as int] == has_more
            &&& verify_warnings(seq![required], existing, VerifyMode::Exact).len() == 0
        }),
{
    last_definition_counts(existing, required.crate_name, k);
    lemma_one(required, existing, VerifyMode::Exact);
}

/// The compatible check of a required crate and the last definition of it, by the numbers of the two
/// versions: another major number is an error; with the same one, a smaller minor number, or the
/// same and a smaller patch number, is an error, and a greater one a warning. Versions of which one
/// cannot be read must be the same. After that comes an error for features that are missing.
pub proof fn compatible_check_goes_by_the_numbers(
    required: CrateSpec,
    existing: Seq<CrateSpec>,
    k: int,
)
    requires
        is_last_of(existing, required.crate_name, k),
    ensures
        ({
            let c = existing[k];
            let have = semver(c.version);
            let need = semver(required.version);
            let readable = have is Some && need is Some;
            let (m, i, p) = have.unwrap();
            let (n, j, q) = need.unwrap();
            let older = i < j || (i == j && p < q);
            let newer = j < i || (i == j && q < p);
            let missing = difference(required.features, c.features);
            let lacks = "Missing features for "@ + required.crate_name + ": "@ + debug_text(missing);
            let errors = verify_errors(seq![required], existing, VerifyMode::Compatible);
            let warnings = verify_warnings(seq![required], existing, VerifyMode::Compatible);
            let wrong: nat = if readable {
                if m != n || older {
                    1
                } else {
                    0
                }
            } else if c.version != required.version {
                1
            } else {
                0
            };
            let lacking: nat = if missing.len() > 0 {
                1
            } else {
                0
            };
            &&& errors.len() == wrong + lacking
            &&& missing.len() > 0 ==> errors[wrong as int] == lacks
            &&& readable && m != n ==> errors[0] == "Incompatible major version for "@
                + required.crate_name + ": have "@ + c.version + ", need "@ + required.version
            &&& readable && m == n && older ==> errors[0] == "Version too old for "@
                + required.crate_name + ": have "@ + c.version + ", need at least "@
                + required.version
            &&& !readable && c.version != required.version ==> errors[0]
                == "Version mismatch for "@ + required.crate_name + ": have "@ + c.version
                + ", need "@ + required.version
            &&& readable && m == n && newer ==> warnings == seq![
                "Newer version for "@ + required.crate_name + ": have "@ + c.version
                    + ", required "@ + required.version,
            ]
            &&& !(readable && m == n && newer) ==> warnings.len() == 0
        }),
{
    last_definition_counts(existing, required.crate_name, k);
    lemma_one(required, existing, VerifyMode::Compatible);
}

/// With nothing required there is nothing to find.
pub proof fn nothing_required_is_met(existing: Seq<CrateSpec>, mode: VerifyMode)
    ensures
        verify_errors(Seq::empty(), existing, mode).len() == 0,
        verify_warnings(Seq::empty(), existing, mode).len() == 0,
{
}

} // verus!
