//! What holds of texts, numbers and versions, said of characters and positions.

use crate::crate_def::rule_name;
use crate::semver::{
    digits_value, is_bump, is_digits, lemma_decimal, lemma_no_metadata, lemma_split_first, semver,
    version_lt,
};
use crate::source::ends_in_cargo_toml;
use crate::text::{
    decimal, difference, difference_is_exact, find_char, joined, lemma_find_char,
    replaced, split_on, text_le,
};
use vstd::arithmetic::power::pow;
use vstd::prelude::*;

verus! {

/// Replacing touches nothing but the character that is replaced.
pub proof fn replacing_is_pointwise(text: Seq<char>, from: char, to: char)
    ensures
        replaced(text, from, to).len() == text.len(),
        forall|i: int|
            0 <= i < text.len() && text[i] != from ==> #[trigger] replaced(text, from, to)[i]
                == text[i],
        forall|i: int|
            0 <= i < text.len() && text[i] == from ==> #[trigger] replaced(text, from, to)[i] == to,
{
}

/// A rule name differs from the crate's name in its hyphens alone: they are underscores.
pub proof fn rule_name_is_pointwise(crate_name: Seq<char>)
    ensures
        rule_name(crate_name).len() == crate_name.len(),
        forall|i: int|
            0 <= i < crate_name.len() ==> #[trigger] rule_name(crate_name)[i] == if crate_name[i]
                == '-' {
                '_'
            } else {
                crate_name[i]
            },
{
}

/// The order of texts is that of a dictionary: a text comes before what it begins, and otherwise
/// the first character that differs decides.
pub proof fn order_is_lexicographic(a: Seq<char>, b: Seq<char>)
    ensures
        text_le(a, b) <==> a.is_prefix_of(b) || exists|i: int|
            0 <= i < a.len() && i < b.len() && a.take(i) == b.take(i) && #[trigger] a[i] < b[i],
    decreases a.len(),
{
    if a.len() == 0 {
        assert(a.is_prefix_of(b));
    } else if b.len() > 0 {
        let x = a.drop_first();
        let y = b.drop_first();
        order_is_lexicographic(x, y);
        if a[0] != b[0] {
            assert(a.take(0) =~= b.take(0));
            if a.is_prefix_of(b) {
                assert(b.take(a.len() as int)[0] == b[0]);
            }
            assert forall|i: int|
                0 <= i < a.len() && i < b.len() && a.take(i) == b.take(i) && #[trigger] a[i]
                    < b[i] implies i == 0 by {
                if i > 0 {
                    assert(a.take(i)[0] == b.take(i)[0]);
                }
            }
        } else {
            if x.is_prefix_of(y) {
                assert(a =~= b.take(a.len() as int)) by {
                    assert forall|i: int| 0 <= i < a.len() implies a[i] == #[trigger] b[i] by {
                        if i > 0 {
                            assert(x[i - 1] == y.take(x.len() as int)[i - 1]);
                        }
                    }
                }
            }
            if a.is_prefix_of(b) {
                assert forall|i: int| 0 <= i < x.len() implies x[i] == #[trigger] y[i] by {
                    assert(a[i + 1] == b.take(a.len() as int)[i + 1]);
                }
                assert(x =~= y.take(x.len() as int));
            }
            if exists|i: int|
                0 <= i < x.len() && i < y.len() && x.take(i) == y.take(i) && #[trigger] x[i] < y[i] {
                let i = choose|i: int|
                    0 <= i < x.len() && i < y.len() && x.take(i) == y.take(i) && #[trigger] x[i]
                        < y[i];
                assert forall|k: int| 0 <= k < i + 1 implies a[k] == #[trigger] b[k] by {
                    if k > 0 {
                        assert(x.take(i)[k - 1] == y.take(i)[k - 1]);
                    }
                }
                assert(a.take(i + 1) =~= b.take(i + 1));
                assert(a[i + 1] < b[i + 1]);
            }
            if exists|i: int|
                0 <= i < a.len() && i < b.len() && a.take(i) == b.take(i) && #[trigger] a[i] < b[i] {
                let i = choose|i: int|
                    0 <= i < a.len() && i < b.len() && a.take(i) == b.take(i) && #[trigger] a[i]
                        < b[i];
                assert forall|k: int| 0 <= k < i - 1 implies x[k] == #[trigger] y[k] by {
                    assert(a.take(i)[k + 1] == b.take(i)[k + 1]);
                }
                assert(x.take(i - 1) =~= y.take(i - 1));
                assert(x[i - 1] < y[i - 1]);
            }
        }
    } else if a.is_prefix_of(b) {
        assert(false);
    }
}

/// Joining starts with the first part and goes on with the others.
pub proof fn joining_starts_with_the_first(
    first: Seq<char>,
    rest: Seq<Seq<char>>,
    sep: Seq<char>,
)
    ensures
        joined(Seq::empty(), sep) == Seq::<char>::empty(),
        joined(seq![first], sep) == first,
        rest.len() > 0 ==> joined(seq![first] + rest, sep) == first + sep + joined(rest, sep),
    decreases rest.len(),
{
    if rest.len() > 0 {
        let all = seq![first] + rest;
        assert(all.last() == rest.last());
        assert(all.drop_last() =~= seq![first] + rest.drop_last());
        joining_starts_with_the_first(first, rest.drop_last(), sep);
        if rest.len() == 1 {
            assert(all.drop_last() =~= seq![first]);
            assert(joined(all, sep) =~= first + sep + joined(rest, sep));
        } else {
            let inner = joined(rest.drop_last(), sep);
            assert(first + sep + inner + sep + rest.last() =~= first + sep + (inner + sep
                + rest.last()));
        }
    }
}

/// Splitting is undone by joining, and no part holds the separator.
pub proof fn splitting_is_undone_by_joining(text: Seq<char>, sep: char)
    ensures
        joined(split_on(text, sep), seq![sep]) == text,
        split_on(text, sep).len() > 0,
        forall|i: int|
            0 <= i < split_on(text, sep).len() ==> !(#[trigger] split_on(text, sep)[i]).contains(
                sep,
            ),
    decreases text.len(),
{
    let i = find_char(text, sep, 0);
    lemma_find_char(text, sep, 0);
    let parts = split_on(text, sep);
    if i < text.len() {
        let first = text.take(i);
        let rest = split_on(text.skip(i + 1), sep);
        splitting_is_undone_by_joining(text.skip(i + 1), sep);
        joining_starts_with_the_first(first, rest, seq![sep]);
        assert(first + seq![sep] + text.skip(i + 1) =~= text);
        assert forall|k: int| 0 <= k < parts.len() implies !(#[trigger] parts[k]).contains(sep) by {
            if k > 0 {
                assert(parts[k] == rest[k - 1]);
            }
        }
    }
}

/// What the difference of two lists keeps stays in order: each item stands where its first
/// occurrence in the list puts it.
pub proof fn difference_keeps_order(list: Seq<Seq<char>>, item: Seq<char>, other: Seq<Seq<char>>)
    ensures
        difference(list.push(item), other) == if other.contains(item) || list.contains(item) {
            difference(list, other)
        } else {
            difference(list, other).push(item)
        },
{
    difference_is_exact(list, other);
    assert(list.push(item).drop_last() =~= list);
    assert(difference(list, other).contains(item) <==> list.contains(item) && !other.contains(
        item,
    ));
}

/// Whether the text holds nothing but digits.
pub open spec fn all_digits(text: Seq<char>) -> bool {
    forall|i: int| 0 <= i < text.len() ==> '0' <= #[trigger] text[i] <= '9'
}

/// A digit counts by its place.
pub proof fn digits_count_by_place(a: Seq<char>, b: Seq<char>, digit: char)
    requires
        all_digits(a),
        all_digits(b),
        '0' <= digit <= '9',
    ensures
        digits_value(Seq::empty()) == 0,
        digits_value(seq![digit]) == digit as int - '0' as int,
        digits_value(a + b) == digits_value(a) * pow(10, b.len()) + digits_value(b),
    decreases b.len(),
{
    assert(seq![digit].drop_last() =~= Seq::empty());
    assert(digits_value(Seq::<char>::empty()) == 0);
    vstd::arithmetic::power::lemma_pow0(10);
    if b.len() == 0 {
        assert(a + b =~= a);
    } else {
        let rest = b.drop_last();
        let last = b.last() as int - '0' as int;
        assert('0' <= b[b.len() - 1] <= '9');
        assert forall|i: int| 0 <= i < rest.len() implies '0' <= #[trigger] rest[i] <= '9' by {
            assert('0' <= b[i] <= '9');
        }
        digits_count_by_place(a, rest, digit);
        assert((a + b).drop_last() =~= a + rest);
        assert((a + b).last() == b.last());
        let x = digits_value(a) as int;
        let y = digits_value(rest) as int;
        let p = pow(10, rest.len());
        reveal(pow);
        assert(pow(10, b.len()) == 10 * p);
        assert((x * p + y) * 10 + last == x * (10 * p) + (y * 10 + last)) by (nonlinear_arith);
    }
}

/// Decimal notation is digits that write the number, without leading zeros.
pub proof fn decimal_writes_the_number(n: nat)
    ensures
        is_digits(decimal(n)),
        digits_value(decimal(n)) == n,
        decimal(n)[0] == '0' ==> n == 0 && decimal(n).len() == 1,
    decreases n,
{
    lemma_decimal(n);
    if n >= 10 {
        decimal_writes_the_number(n / 10);
        assert(decimal(n)[0] == decimal(n / 10)[0]);
    }
}

/// A greater major number makes a later version; with the same major number, a greater minor number
/// does; with the same minor number too, a greater patch number does. Nothing else does.
pub proof fn numbers_decide_in_order(m: u64, i: u64, p: u64, n: u64, j: u64, q: u64)
    ensures
        m < n ==> version_lt((m, i, p), (n, j, q)),
        i < j ==> version_lt((m, i, p), (m, j, q)),
        p < q ==> version_lt((m, i, p), (m, i, q)),
        version_lt((m, i, p), (n, j, q)) ==> m <= n,
        version_lt((m, i, p), (m, j, q)) ==> i <= j,
        version_lt((m, i, p), (m, i, q)) ==> p < q,
{
}

/// A bump is a version that can be read, with the same major number and greater minor and patch
/// numbers, the minor number first.
pub proof fn bump_is_later_in_the_same_major(a: Seq<char>, b: Seq<char>)
    ensures
        is_bump(a, b) <==> semver(a) is Some && semver(b) is Some && semver(a).unwrap().0
            == semver(b).unwrap().0 && (semver(a).unwrap().1 < semver(b).unwrap().1 || (semver(
            a,
        ).unwrap().1 == semver(b).unwrap().1 && semver(a).unwrap().2 < semver(b).unwrap().2)),
{
}

/// Digits with dots between them are a version; a third number that is not there is 0, and what
/// follows the third number does not matter.
pub proof fn digits_with_dots_are_a_version(
    major: Seq<char>,
    minor: Seq<char>,
    patch: Seq<char>,
    rest: Seq<char>,
)
    requires
        major.len() > 0 && all_digits(major) && digits_value(major) <= u64::MAX,
        minor.len() > 0 && all_digits(minor) && digits_value(minor) <= u64::MAX,
        patch.len() > 0 && all_digits(patch) && digits_value(patch) <= u64::MAX,
        !rest.contains('+'),
    ensures
        ({
            let m = digits_value(major) as u64;
            let n = digits_value(minor) as u64;
            let p = digits_value(patch) as u64;
            let two = major + seq!['.'] + minor;
            let three = two + seq!['.'] + patch;
            &&& semver(two) == Some((m, n, 0u64))
            &&& semver(three) == Some((m, n, p))
            &&& semver(three + seq!['.'] + rest) == Some((m, n, p))
            &&& m == digits_value(major) && n == digits_value(minor) && p == digits_value(patch)
        }),
{
    let two = major + seq!['.'] + minor;
    let three = two + seq!['.'] + patch;
    let more = three + seq!['.'] + rest;
    lemma_digits_avoid(major);
    lemma_digits_avoid(minor);
    lemma_digits_avoid(patch);
    assert forall|i: int| 0 <= i < more.len() implies #[trigger] more[i] != '+' by {
        let a = major.len() as int;
        let b = a + 1 + minor.len();
        let c = b + 1 + patch.len();
        if i < a {
            assert(major.contains(major[i]));
        } else if a < i < b {
            assert(minor.contains(minor[i - a - 1]));
        } else if b < i < c {
            assert(patch.contains(patch[i - b - 1]));
        } else if i > c {
            assert(rest.contains(rest[i - c - 1]));
        }
    }
    assert forall|i: int| 0 <= i < three.len() implies #[trigger] three[i] != '+' by {
        assert(three[i] == more[i]);
    }
    assert forall|i: int| 0 <= i < two.len() implies #[trigger] two[i] != '+' by {
        assert(two[i] == more[i]);
    }
    lemma_no_metadata(two);
    lemma_no_metadata(three);
    lemma_no_metadata(more);
    lemma_split_first(major, minor, '.');
    lemma_split_first(major, minor.push('.') + patch, '.');
    lemma_split_first(major, minor.push('.') + (patch.push('.') + rest), '.');
    lemma_split_first(minor, patch, '.');
    lemma_split_first(minor, patch.push('.') + rest, '.');
    lemma_split_first(patch, rest, '.');
    assert(two =~= major.push('.') + minor);
    assert(three =~= major.push('.') + (minor.push('.') + patch));
    assert(more =~= major.push('.') + (minor.push('.') + (patch.push('.') + rest)));
    assert(split_on(two, '.') =~= seq![major, minor]);
    assert(split_on(three, '.') =~= seq![major, minor, patch]);
    let tail = split_on(rest, '.');
    assert(split_on(more, '.') =~= seq![major, minor, patch] + tail);
}

proof fn lemma_digits_avoid(text: Seq<char>)
    requires
        all_digits(text),
    ensures
        !text.contains('.'),
        !text.contains('+'),
{
    assert forall|i: int| 0 <= i < text.len() implies '0' <= #[trigger] text[i] <= '9' by {}
}

/// A version that can be read is such digits: before any plus sign, two or three numbers that fit,
/// with dots between them, and perhaps a further dot and more.
pub proof fn readable_version_is_digits_with_dots(version: Seq<char>) -> (parts: (
    Seq<char>,
    Seq<char>,
    Seq<char>,
    Option<Seq<char>>,
    Option<Seq<char>>,
))
    requires
        semver(version) is Some,
    ensures
        ({
            let (core, major, minor, patch, rest) = parts;
            let numbers = semver(version).unwrap();
            &&& !core.contains('+')
            &&& version == core || core.push('+').is_prefix_of(version)
            &&& major.len() > 0 && all_digits(major) && digits_value(major) == numbers.0
            &&& minor.len() > 0 && all_digits(minor) && digits_value(minor) == numbers.1
            &&& patch is None ==> numbers.2 == 0 && core == major + seq!['.'] + minor
            &&& patch is Some ==> patch->0.len() > 0 && all_digits(patch->0) && digits_value(patch->0)
                == numbers.2
            &&& patch is Some && rest is None ==> core == major + seq!['.'] + minor + seq!['.']
                + patch->0
            &&& patch is Some && rest is Some ==> core == major + seq!['.'] + minor + seq!['.']
                + patch->0 + seq!['.'] + rest->0
        }),
{
    let end = find_char(version, '+', 0);
    lemma_find_char(version, '+', 0);
    let core = version.take(end);
    let parts = split_on(core, '.');
    splitting_is_undone_by_joining(core, '.');
    let dot = seq!['.'];
    assert(parts.len() >= 2);
    let major = parts[0];
    let minor = parts[1];
    if end < version.len() {
        assert(core.push('+') =~= version.take(end + 1));
    } else {
        assert(core =~= version);
    }
    let after_major = parts.skip(1);
    let after_minor = parts.skip(2);
    assert(parts =~= seq![major] + after_major);
    assert(after_major =~= seq![minor] + after_minor);
    joining_starts_with_the_first(major, after_major, dot);
    joining_starts_with_the_first(minor, after_minor, dot);
    if parts.len() == 2 {
        assert(after_major =~= seq![minor]);
        (core, major, minor, None, None)
    } else {
        let patch = parts[2];
        let after_patch = parts.skip(3);
        assert(after_minor =~= seq![patch] + after_patch);
        joining_starts_with_the_first(patch, after_patch, dot);
        if parts.len() == 3 {
            assert(after_minor =~= seq![patch]);
            assert(core =~= major + dot + minor + dot + patch);
            (core, major, minor, Some(patch), None)
        } else {
            let rest = joined(after_patch, dot);
            assert(core =~= major + dot + minor + dot + patch + dot + rest);
            (core, major, minor, Some(patch), Some(rest))
        }
    }
}

/// A source is a manifest exactly if its path is something and then `Cargo.toml`.
pub proof fn manifest_path_ends_in_its_name(path: Seq<char>, before: Seq<char>)
    ensures
        ends_in_cargo_toml(before + "Cargo.toml"@),
        ends_in_cargo_toml(path) ==> path == path.take(path.len() - 10) + "Cargo.toml"@,
{
    reveal_strlit("Cargo.toml");
    let name = "Cargo.toml"@;
    let whole = before + name;
    assert(whole.subrange(whole.len() - 10, whole.len() as int) =~= name);
    if ends_in_cargo_toml(path) {
        assert(path =~= path.take(path.len() - 10) + path.subrange(
            path.len() - 10,
            path.len() as int,
        ));
    }
}

/// What is found of a character is its first place.
pub proof fn first_place_is_found(c: char, before: Seq<char>, after: Seq<char>)
    requires
        !before.contains(c),
    ensures
        find_char(before + seq![c] + after, c, 0) == before.len(),
        find_char(before, c, 0) == before.len(),
{
    let whole = before + seq![c] + after;
    lemma_find_char(whole, c, 0);
    lemma_find_char(before, c, 0);
    let at = find_char(whole, c, 0);
    assert(whole[before.len() as int] == c);
    if at < before.len() {
        assert(whole[at] == before[at]);
        assert(before.contains(before[at]));
    }
    if find_char(before, c, 0) < before.len() {
        assert(before.contains(before[find_char(before, c, 0)]));
    }
}

} // verus!
