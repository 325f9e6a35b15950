//! The order of crate definitions in a written BUILD file.

use crate::crate_def::{CrateDefinition, CrateSpec};
use crate::text::{
    at_most, lemma_text_le_antisymmetric, lemma_text_le_reflexive, lemma_text_le_total,
    lemma_text_le_transitive, text_le,
};
use vstd::prelude::*;

verus! {

/// Order by crate name, then by rule name.
pub open spec fn crate_le(a: CrateSpec, b: CrateSpec) -> bool {
    if a.crate_name == b.crate_name {
        text_le(a.name, b.name)
    } else {
        text_le(a.crate_name, b.crate_name)
    }
}

/// Whether the definitions stand in order.
pub open spec fn is_sorted(crates: Seq<CrateSpec>) -> bool {
    forall|i: int, j: int| 0 <= i < j < crates.len() ==> crate_le(#[trigger] crates[i], #[trigger] crates[j])
}

/// The definitions with the given crate name and rule name, in order.
pub open spec fn with_names(crates: Seq<CrateSpec>, crate_name: Seq<char>, name: Seq<char>) -> Seq<
    CrateSpec,
> {
    crates.filter(|c: CrateSpec| c.crate_name == crate_name && c.name == name)
}

/// Whether `sorted` holds the definitions of `crates` in order, and those of the same crate name
/// and rule name in the order in which `crates` has them.
pub open spec fn is_stable_sort(sorted: Seq<CrateSpec>, crates: Seq<CrateSpec>) -> bool {
    &&& is_sorted(sorted)
    &&& sorted.len() == crates.len()
    &&& forall|crate_name: Seq<char>, name: Seq<char>|
        #[trigger] with_names(sorted, crate_name, name) == with_names(crates, crate_name, name)
}

/// The order is reflexive, total and transitive.
pub proof fn lemma_crate_le(a: CrateSpec, b: CrateSpec, c: CrateSpec)
    ensures
        crate_le(a, a),
        crate_le(a, b) || crate_le(b, a),
        crate_le(a, b) && crate_le(b, c) ==> crate_le(a, c),
        crate_le(a, b) && crate_le(b, a) ==> a.crate_name == b.crate_name && a.name == b.name,
{
    lemma_text_le_reflexive(a.name);
    lemma_text_le_total(a.name, b.name);
    lemma_text_le_total(a.crate_name, b.crate_name);
    lemma_text_le_transitive(a.name, b.name, c.name);
    lemma_text_le_transitive(a.crate_name, b.crate_name, c.crate_name);
    lemma_text_le_antisymmetric(a.name, b.name);
    lemma_text_le_antisymmetric(a.crate_name, b.crate_name);
}

/// Inserting a definition after all those that are at most it.
proof fn lemma_insert(sorted: Seq<CrateSpec>, crates: Seq<CrateSpec>, c: CrateSpec, at: int)
    requires
        is_stable_sort(sorted, crates),
        0 <= at <= sorted.len(),
        at > 0 ==> crate_le(sorted[at - 1], c),
        forall|i: int| at <= i < sorted.len() ==> !crate_le(#[trigger] sorted[i], c),
    ensures
        is_stable_sort(sorted.insert(at, c), crates.push(c)),
{
    let result = sorted.insert(at, c);
    assert forall|i: int, j: int| 0 <= i < j < result.len() implies crate_le(
        #[trigger] result[i],
        #[trigger] result[j],
    ) by {
        if j == at {
            if i < at - 1 {
                assert(crate_le(sorted[i], sorted[at - 1]));
            }
            lemma_crate_le(sorted[i], sorted[at - 1], c);
        } else if i == at {
            lemma_crate_le(c, sorted[j - 1], c);
            assert(!crate_le(sorted[j - 1], c));
        } else {
            let k = if i < at { i } else { i - 1 };
            let l = if j < at { j } else { j - 1 };
            assert(crate_le(sorted[k], sorted[l]));
        }
    }
    assert forall|crate_name: Seq<char>, name: Seq<char>|
        #[trigger] with_names(result, crate_name, name) == with_names(
            crates.push(c),
            crate_name,
            name,
        ) by {
        let p = |x: CrateSpec| x.crate_name == crate_name && x.name == name;
        let before = sorted.take(at);
        let after = sorted.skip(at);
        assert(sorted =~= before + after);
        assert(result =~= before + seq![c] + after);
        Seq::filter_distributes_over_add(before, after, p);
        Seq::filter_distributes_over_add(before, seq![c], p);
        Seq::filter_distributes_over_add(before + seq![c], after, p);
        Seq::filter_distributes_over_add(crates, seq![c], p);
        assert(crates.push(c) =~= crates + seq![c]);
        assert(with_names(sorted, crate_name, name) == with_names(crates, crate_name, name));
        if p(c) {
            assert forall|i: int| 0 <= i < after.len() implies !p(#[trigger] after[i]) by {
                assert(!crate_le(sorted[at + i], c));
                lemma_text_le_reflexive(c.name);
            }
            after.lemma_all_neg_filter_empty(p);
            assert(after.filter(p) =~= Seq::empty());
            assert(result.filter(p) =~= crates.push(c).filter(p));
        } else {
            seq![c].lemma_all_neg_filter_empty(p);
            assert(seq![c].filter(p) =~= Seq::empty());
            assert(result.filter(p) =~= crates.push(c).filter(p));
        }
    }
}

/// Whether `a` stands at or before `b` in the order by crate name and rule name.
fn in_order(a: &CrateDefinition, b: &CrateDefinition) -> (result: bool)
    ensures
        result == crate_le(a@, b@),
{
    if a.crate_name == b.crate_name {
        at_most(a.name.as_str(), b.name.as_str())
    } else {
        at_most(a.crate_name.as_str(), b.crate_name.as_str())
    }
}

/// Sorts definitions by crate name, then by rule name, and keeps the order of equal ones.
pub fn sort_crates(crates: Vec<CrateDefinition>) -> (result: Vec<CrateDefinition>)
    ensures
        is_stable_sort(result.deep_view(), crates.deep_view()),
{
    let ghost all = crates.deep_view();
    let mut result: Vec<CrateDefinition> = Vec::new();
    assert(result.deep_view() =~= all.take(0));
    for i in 0..crates.len()
        invariant
            all == crates.deep_view(),
            is_stable_sort(result.deep_view(), all.take(i as int)),
    {
        let next = crates[i].clone();
        let mut at: usize = result.len();
        while at > 0 && !in_order(&result[at - 1], &next)
            invariant
                at <= result.len(),
                forall|k: int|
                    at <= k < result.len() ==> !crate_le(#[trigger] result.deep_view()[k], next@),
            decreases at,
        {
            at -= 1;
        }
        let ghost before = result.deep_view();
        proof {
            lemma_insert(before, all.take(i as int), next@, at as int);
            assert(all.take(i as int).push(next@) =~= all.take(i + 1));
        }
        let ghost c = next@;
        result.insert(at, next);
        assert(result.deep_view() =~= before.insert(at as int, c));
    }
    assert(all.take(crates.len() as int) =~= all);
    result
}

/// The definitions of each pair of names are the same in both lists, in order.
spec fn same_by_names(a: Seq<CrateSpec>, b: Seq<CrateSpec>) -> bool {
    forall|crate_name: Seq<char>, name: Seq<char>|
        #[trigger] with_names(a, crate_name, name) == with_names(b, crate_name, name)
}

/// The definition is among those with its names.
proof fn lemma_with_own_names(crates: Seq<CrateSpec>, c: CrateSpec)
    ensures
        crates.contains(c) <==> with_names(crates, c.crate_name, c.name).contains(c),
{
    let p = |x: CrateSpec| x.crate_name == c.crate_name && x.name == c.name;
    if crates.filter(p).contains(c) {
        crates.lemma_filter_contains_rev(p, c);
    }
    if crates.contains(c) {
        crates.lemma_filter_contains(p, crates.index_of(c));
    }
}

/// A sorted list holds the definitions that it was sorted from, and no others.
pub proof fn sorting_keeps_definitions(sorted: Seq<CrateSpec>, crates: Seq<CrateSpec>)
    requires
        is_stable_sort(sorted, crates),
    ensures
        forall|c: CrateSpec| #[trigger] sorted.contains(c) <==> crates.contains(c),
        sorted.len() == crates.len(),
{
    assert forall|c: CrateSpec| #[trigger] sorted.contains(c) <==> crates.contains(c) by {
        lemma_with_own_names(sorted, c);
        lemma_with_own_names(crates, c);
        assert(with_names(sorted, c.crate_name, c.name) == with_names(
            crates,
            c.crate_name,
            c.name,
        ));
    }
}

/// The last of two sorted lists with the same definitions by names.
proof fn lemma_same_last(a: Seq<CrateSpec>, b: Seq<CrateSpec>)
    requires
        is_sorted(a),
        is_sorted(b),
        same_by_names(a, b),
        a.len() > 0,
        b.len() > 0,
    ensures
        crate_le(b.last(), a.last()),
{
    let c = b.last();
    lemma_with_own_names(a, c);
    lemma_with_own_names(b, c);
    assert(b[b.len() - 1] == c);
    assert(b.contains(c));
    assert(with_names(a, c.crate_name, c.name) == with_names(b, c.crate_name, c.name));
    let i = a.index_of(c);
    lemma_crate_le(c, c, c);
    if i < a.len() - 1 {
        assert(crate_le(a[i], a[a.len() - 1]));
    }
}

proof fn lemma_sorted_equal(a: Seq<CrateSpec>, b: Seq<CrateSpec>)
    requires
        is_sorted(a),
        is_sorted(b),
        same_by_names(a, b),
        a.len() == b.len(),
    ensures
        a == b,
    decreases a.len(),
{
    if a.len() > 0 {
        lemma_same_last(a, b);
        lemma_same_last(b, a);
        lemma_crate_le(a.last(), b.last(), a.last());
        let crate_name = a.last().crate_name;
        let name = a.last().name;
        assert(with_names(a, crate_name, name) == with_names(b, crate_name, name));
        reveal(Seq::filter);
        let x = a.drop_last();
        let y = b.drop_last();
        assert(with_names(a, crate_name, name) == with_names(x, crate_name, name).push(a.last()));
        assert(with_names(b, crate_name, name) == with_names(y, crate_name, name).push(b.last()));
        assert(with_names(a, crate_name, name).last() == a.last());
        assert(with_names(b, crate_name, name).last() == b.last());
        assert forall|k: Seq<char>, n: Seq<char>|
            #[trigger] with_names(x, k, n) == with_names(y, k, n) by {
            assert(with_names(a, k, n) == with_names(b, k, n));
            if k == crate_name && n == name {
                assert(with_names(x, k, n) =~= with_names(a, k, n).drop_last());
                assert(with_names(y, k, n) =~= with_names(b, k, n).drop_last());
            }
        }
        lemma_sorted_equal(x, y);
        assert(a =~= x.push(a.last()));
        assert(b =~= y.push(b.last()));
    } else {
        assert(a =~= b);
    }
}

/// There is one way to sort definitions: the result is the same whatever way they are sorted in.
pub proof fn sorting_is_deterministic(
    a: Seq<CrateSpec>,
    b: Seq<CrateSpec>,
    crates: Seq<CrateSpec>,
)
    requires
        is_stable_sort(a, crates),
        is_stable_sort(b, crates),
    ensures
        a == b,
{
    assert forall|crate_name: Seq<char>, name: Seq<char>|
        #[trigger] with_names(a, crate_name, name) == with_names(b, crate_name, name) by {
        assert(with_names(a, crate_name, name) == with_names(crates, crate_name, name));
        assert(with_names(b, crate_name, name) == with_names(crates, crate_name, name));
    }
    lemma_sorted_equal(a, b);
}

/// Sorting what is sorted changes nothing.
pub proof fn sorting_again_changes_nothing(sorted: Seq<CrateSpec>, again: Seq<CrateSpec>)
    requires
        is_sorted(sorted),
        is_stable_sort(again, sorted),
    ensures
        again == sorted,
{
    sorting_is_deterministic(again, sorted, sorted);
}

} // verus!
