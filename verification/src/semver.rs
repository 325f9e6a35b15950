//! Semantic versions: reading `major.minor.patch` and comparing versions.

use crate::text::{
    chars_of, decimal, find_char, lemma_find_char, position_of, split_chars, split_on,
};
use vstd::prelude::*;

verus! {

/// Whether the text is one or more decimal digits.
pub open spec fn is_digits(text: Seq<char>) -> bool {
    &&& text.len() > 0
    &&& forall|i: int| 0 <= i < text.len() ==> '0' <= #[trigger] text[i] <= '9'
}

/// The number that decimal digits write.
pub open spec fn digits_value(digits: Seq<char>) -> nat
    decreases digits.len(),
{
    if digits.len() == 0 {
        0
    } else {
        (digits_value(digits.drop_last()) * 10 + (digits.last() as int - '0' as int)) as nat
    }
}

/// The number in the text, if the text is digits and the number fits.
pub open spec fn number(text: Seq<char>) -> Option<u64> {
    if is_digits(text) && digits_value(text) <= u64::MAX {
        Some(digits_value(text) as u64)
    } else {
        None
    }
}

/// The first three numbers of a version. Build metadata after a `+` does not count, a version of
/// two parts has patch number 0, and parts after the third are ignored.
pub open spec fn semver(version: Seq<char>) -> Option<(u64, u64, u64)> {
    let parts = split_on(version.take(find_char(version, '+', 0)), '.');
    if parts.len() >= 3 {
        match (number(parts[0]), number(parts[1]), number(parts[2])) {
            (Some(major), Some(minor), Some(patch)) => Some((major, minor, patch)),
            _ => None,
        }
    } else if parts.len() == 2 {
        match (number(parts[0]), number(parts[1])) {
            (Some(major), Some(minor)) => Some((major, minor, 0)),
            _ => None,
        }
    } else {
        None
    }
}

/// Whether version `a` comes before version `b`.
pub open spec fn version_lt(a: (u64, u64, u64), b: (u64, u64, u64)) -> bool {
    ||| a.0 < b.0
    ||| a.0 == b.0 && a.1 < b.1
    ||| a.0 == b.0 && a.1 == b.1 && a.2 < b.2
}

/// Whether both versions can be read and have the same major number.
pub open spec fn compatible(a: Seq<char>, b: Seq<char>) -> bool {
    semver(a) is Some && semver(b) is Some && semver(a).unwrap().0 == semver(b).unwrap().0
}

/// Whether `newer` is a later version than `version` with the same major number.
pub open spec fn is_bump(version: Seq<char>, newer: Seq<char>) -> bool {
    compatible(version, newer) && version_lt(semver(version)->0, semver(newer)->0)
}

/// The number in the text, if the text is digits and the number fits.
fn parse_number(text: &Vec<char>) -> (result: Option<u64>)
    ensures
        result == number(text@),
{
    if text.len() == 0 {
        return None;
    }
    let mut value: u64 = 0;
    let mut fits: bool = true;
    for i in 0..text.len()
        invariant
            forall|j: int| 0 <= j < i ==> '0' <= #[trigger] text[j] <= '9',
            fits ==> value == digits_value(text@.take(i as int)),
            !fits ==> digits_value(text@.take(i as int)) > u64::MAX,
    {
        let c = text[i];
        if c < '0' || c > '9' {
            return None;
        }
        proof {
            assert(text@.take(i + 1).drop_last() =~= text@.take(i as int));
        }
        let digit: u64 = (c as u32 - 48) as u64;
        if fits && value <= u64::MAX / 10 && value * 10 <= u64::MAX - digit {
            value = value * 10 + digit;
        } else {
            fits = false;
        }
    }
    assert(text@.take(text.len() as int) =~= text@);
    if fits {
        Some(value)
    } else {
        None
    }
}

/// Reads a semantic version into (major, minor, patch).
pub fn parse_semver(version: &str) -> (result: Option<(u64, u64, u64)>)
    ensures
        result == semver(version@),
{
    let chars = chars_of(version);
    let end = position_of(&chars, '+', 0);
    let mut core: Vec<char> = Vec::new();
    for i in 0..end
        invariant
            end <= chars.len(),
            core@ == chars@.take(i as int),
    {
        core.push(chars[i]);
    }
    let parts = split_chars(&core, '.');
    assert(forall|i: int|
        0 <= i < parts.len() ==> #[trigger] parts.deep_view()[i] =~= parts[i]@);
    if parts.len() >= 3 {
        match (parse_number(&parts[0]), parse_number(&parts[1]), parse_number(&parts[2])) {
            (Some(major), Some(minor), Some(patch)) => Some((major, minor, patch)),
            _ => None,
        }
    } else if parts.len() == 2 {
        match (parse_number(&parts[0]), parse_number(&parts[1])) {
            (Some(major), Some(minor)) => Some((major, minor, 0)),
            _ => None,
        }
    } else {
        None
    }
}

/// Whether version `a` comes before version `b`.
pub fn precedes(a: (u64, u64, u64), b: (u64, u64, u64)) -> (result: bool)
    ensures
        result == version_lt(a, b),
{
    a.0 < b.0 || (a.0 == b.0 && (a.1 < b.1 || (a.1 == b.1 && a.2 < b.2)))
}

/// Whether `newer` is a later version than `version` with the same major number.
pub fn bumps(version: &str, newer: &str) -> (result: bool)
    ensures
        result == is_bump(version@, newer@),
{
    match (parse_semver(version), parse_semver(newer)) {
        (Some(old), Some(new)) => old.0 == new.0 && precedes(old, new),
        _ => false,
    }
}

/// Versions are in a strict total order.
pub proof fn versions_are_ordered(a: (u64, u64, u64), b: (u64, u64, u64), c: (u64, u64, u64))
    ensures
        !version_lt(a, a),
        version_lt(a, b) && version_lt(b, c) ==> version_lt(a, c),
        version_lt(a, b) || version_lt(b, a) || a == b,
        version_lt(a, b) ==> !version_lt(b, a),
{
}

/// Bumps go one way: a version is no bump of itself, two versions are not bumps of each other, and
/// a bump of a bump is a bump.
pub proof fn bumps_go_one_way(a: Seq<char>, b: Seq<char>, c: Seq<char>)
    ensures
        !is_bump(a, a),
        is_bump(a, b) ==> !is_bump(b, a),
        is_bump(a, b) && is_bump(b, c) ==> is_bump(a, c),
{
}

/// Build metadata does not count.
pub proof fn build_metadata_does_not_count(version: Seq<char>, metadata: Seq<char>)
    ensures
        semver(version + "+"@ + metadata) == semver(version),
{
    reveal_strlit("+");
    let whole = version + "+"@ + metadata;
    lemma_find_char(whole, '+', 0);
    lemma_find_char(version, '+', 0);
    let at = find_char(whole, '+', 0);
    let end = find_char(version, '+', 0);
    assert(whole[version.len() as int] == '+');
    if at < version.len() {
        assert(whole[at] == version[at]);
    }
    if end < version.len() {
        assert(whole[end] == version[end]);
    }
    assert(at == end);
    assert(whole.take(at) =~= version.take(end));
}

/// Decimal notation is digits that write the number.
pub proof fn lemma_decimal(n: nat)
    ensures
        is_digits(decimal(n)),
        digits_value(decimal(n)) == n,
    decreases n,
{
    if n >= 10 {
        lemma_decimal(n / 10);
        let digits = decimal(n);
        assert(digits.drop_last() =~= decimal(n / 10));
        assert(digits_value(digits) == n);
        assert forall|i: int| 0 <= i < digits.len() implies '0' <= #[trigger] digits[i] <= '9' by {
            if i < digits.len() - 1 {
                assert(digits[i] == decimal(n / 10)[i]);
            }
        }
    } else {
        let digits = decimal(n);
        assert(digits.drop_last() =~= Seq::empty());
        assert(digits_value(digits.drop_last()) == 0);
    }
}

/// The first part of a text ends at the first separator.
pub proof fn lemma_split_first(part: Seq<char>, rest: Seq<char>, sep: char)
    requires
        !part.contains(sep),
    ensures
        split_on(part, sep) == seq![part],
        split_on(part.push(sep) + rest, sep) == seq![part] + split_on(rest, sep),
{
    lemma_find_char(part, sep, 0);
    let end = find_char(part, sep, 0);
    if end < part.len() {
        assert(part.contains(part[end]));
    }
    let text = part.push(sep) + rest;
    lemma_find_char(text, sep, 0);
    let at = find_char(text, sep, 0);
    assert(text[part.len() as int] == sep);
    if at < part.len() {
        assert(text[at] == part[at]);
        assert(part.contains(part[at]));
    }
    assert(text.take(at) =~= part);
    assert(text.skip(at + 1) =~= rest);
}

/// A text without a plus sign has no build metadata.
pub proof fn lemma_no_metadata(version: Seq<char>)
    requires
        !version.contains('+'),
    ensures
        version.take(find_char(version, '+', 0)) == version,
{
    lemma_find_char(version, '+', 0);
    let end = find_char(version, '+', 0);
    if end < version.len() {
        assert(version.contains(version[end]));
    }
    assert(version.take(end) =~= version);
}

/// Numbers in decimal notation with dots between them read back as those numbers; where there are
/// two, the patch number is 0.
pub proof fn versions_read_back(major: u64, minor: u64, patch: u64)
    ensures
        semver(
            decimal(major as nat) + "."@ + decimal(minor as nat) + "."@ + decimal(patch as nat),
        ) == Some((major, minor, patch)),
        semver(decimal(major as nat) + "."@ + decimal(minor as nat)) == Some((major, minor, 0u64)),
{
    let a = decimal(major as nat);
    let b = decimal(minor as nat);
    let c = decimal(patch as nat);
    lemma_decimal(major as nat);
    lemma_decimal(minor as nat);
    lemma_decimal(patch as nat);
    reveal_strlit(".");
    let three = a + "."@ + b + "."@ + c;
    let two = a + "."@ + b;
    assert forall|i: int| 0 <= i < three.len() implies #[trigger] three[i] != '+' by {
        if i < a.len() {
            assert(three[i] == a[i]);
        } else if a.len() < i < a.len() + 1 + b.len() {
            assert(three[i] == b[i - a.len() - 1]);
        } else if i > a.len() + 1 + b.len() {
            assert(three[i] == c[i - a.len() - b.len() - 2]);
        }
    }
    assert forall|i: int| 0 <= i < two.len() implies #[trigger] two[i] != '+' by {
        assert(two[i] == three[i]);
    }
    lemma_no_metadata(three);
    lemma_no_metadata(two);
    lemma_split_first(a, b.push('.') + c, '.');
    lemma_split_first(a, b, '.');
    lemma_split_first(b, c, '.');
    lemma_split_first(c, c, '.');
    assert(three =~= a.push('.') + (b.push('.') + c));
    assert(two =~= a.push('.') + b);
    assert(split_on(three, '.') =~= seq![a, b, c]);
    assert(split_on(two, '.') =~= seq![a, b]);
}

} // verus!
