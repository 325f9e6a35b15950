//! Text as a sequence of characters: searching, splitting, ordering, joining.

use vstd::prelude::*;

verus! {

/// `String::push` appends one character to the end of the string.
pub assume_specification[ String::push ](text: &mut String, c: char)
    ensures
        final(text)@ == old(text)@.push(c),
;

/// How `{:?}` shows a list of texts.
pub uninterp spec fn debug_text(items: Seq<Seq<char>>) -> Seq<char>;

/// `std::fmt::Debug` for a list of strings, by `format!("{:?}", ..)`: a text that depends on the
/// items and their order alone.
#[verifier::external_body]
pub(crate) fn debug_list(items: &Vec<String>) -> (text: String)
    ensures
        text@ == debug_text(items.deep_view()),
{
    format!("{:?}", items)
}

/// Whether `word` stands in `text` at position `at`.
pub open spec fn occurs_at(text: Seq<char>, word: Seq<char>, at: int) -> bool {
    &&& 0 <= at
    &&& at + word.len() <= text.len()
    &&& text.subrange(at, at + word.len()) == word
}

/// The first position from `from` on that holds `c`; the length of the text if there is none.
pub open spec fn find_char(text: Seq<char>, c: char, from: int) -> int
    decreases text.len() - from,
{
    if from >= text.len() {
        text.len() as int
    } else if text[from] == c {
        from
    } else {
        find_char(text, c, from + 1)
    }
}

/// The text with each `from` replaced by `to`.
pub open spec fn replaced(text: Seq<char>, from: char, to: char) -> Seq<char> {
    text.map_values(|c: char| if c == from { to } else { c })
}

/// The parts of the text between occurrences of `sep`.
pub open spec fn split_on(text: Seq<char>, sep: char) -> Seq<Seq<char>>
    decreases text.len(),
{
    let i = find_char(text, sep, 0);
    if 0 <= i < text.len() {
        seq![text.take(i)] + split_on(text.skip(i + 1), sep)
    } else {
        seq![text]
    }
}

/// Lexicographic order by character.
pub open spec fn text_le(a: Seq<char>, b: Seq<char>) -> bool
    decreases a.len(),
{
    ||| a.len() == 0
    ||| {
        &&& b.len() > 0
        &&& (a[0] < b[0] || (a[0] == b[0] && text_le(a.drop_first(), b.drop_first())))
    }
}

/// The parts one after the other, with `sep` between neighbours.
pub open spec fn joined(parts: Seq<Seq<char>>, sep: Seq<char>) -> Seq<char>
    decreases parts.len(),
{
    if parts.len() == 0 {
        Seq::empty()
    } else if parts.len() == 1 {
        parts[0]
    } else {
        joined(parts.drop_last(), sep) + sep + parts.last()
    }
}

/// The character for a decimal digit.
pub open spec fn digit_char(d: int) -> char {
    (('0' as int) + d) as char
}

/// `n` in decimal notation.
pub open spec fn decimal(n: nat) -> Seq<char>
    decreases n,
{
    if n < 10 {
        seq![digit_char(n as int)]
    } else {
        decimal(n / 10).push(digit_char((n % 10) as int))
    }
}

/// The elements of `list` that are not in `other`, each once, in order of first occurrence.
pub open spec fn difference(list: Seq<Seq<char>>, other: Seq<Seq<char>>) -> Seq<Seq<char>>
    decreases list.len(),
{
    if list.len() == 0 {
        Seq::empty()
    } else {
        let rest = difference(list.drop_last(), other);
        if other.contains(list.last()) || rest.contains(list.last()) {
            rest
        } else {
            rest.push(list.last())
        }
    }
}

/// The elements of `list` that are not in `other`, in order and with repetitions.
pub open spec fn absent(list: Seq<Seq<char>>, other: Seq<Seq<char>>) -> Seq<Seq<char>> {
    list.filter(|item: Seq<char>| !other.contains(item))
}

/// Whether the lists hold the same items, in whatever order and number.
pub open spec fn same_items(a: Seq<Seq<char>>, b: Seq<Seq<char>>) -> bool {
    forall|item: Seq<char>| #[trigger] a.contains(item) <==> #[trigger] b.contains(item)
}

pub proof fn lemma_find_char(text: Seq<char>, c: char, from: int)
    requires
        0 <= from <= text.len(),
    ensures
        from <= find_char(text, c, from) <= text.len(),
        find_char(text, c, from) < text.len() ==> text[find_char(text, c, from)] == c,
        forall|i: int| from <= i < find_char(text, c, from) ==> text[i] != c,
    decreases text.len() - from,
{
    if from < text.len() && text[from] != c {
        lemma_find_char(text, c, from + 1);
    }
}

pub proof fn lemma_text_le_reflexive(a: Seq<char>)
    ensures
        text_le(a, a),
    decreases a.len(),
{
    if a.len() > 0 {
        lemma_text_le_reflexive(a.drop_first());
    }
}

pub proof fn lemma_text_le_total(a: Seq<char>, b: Seq<char>)
    ensures
        text_le(a, b) || text_le(b, a),
    decreases a.len(),
{
    if a.len() > 0 && b.len() > 0 {
        lemma_text_le_total(a.drop_first(), b.drop_first());
    }
}

pub proof fn lemma_text_le_transitive(a: Seq<char>, b: Seq<char>, c: Seq<char>)
    ensures
        text_le(a, b) && text_le(b, c) ==> text_le(a, c),
    decreases a.len(),
{
    if a.len() > 0 && b.len() > 0 && c.len() > 0 {
        lemma_text_le_transitive(a.drop_first(), b.drop_first(), c.drop_first());
    }
}

pub proof fn lemma_text_le_antisymmetric(a: Seq<char>, b: Seq<char>)
    ensures
        text_le(a, b) && text_le(b, a) ==> a == b,
    decreases a.len(),
{
    if a.len() > 0 && b.len() > 0 {
        lemma_text_le_antisymmetric(a.drop_first(), b.drop_first());
        if text_le(a, b) && text_le(b, a) {
            assert(a =~= seq![a[0]] + a.drop_first());
            assert(b =~= seq![b[0]] + b.drop_first());
        }
    } else if text_le(a, b) && text_le(b, a) {
        assert(a =~= b);
    }
}

/// Appending one element to what is filtered.
pub proof fn lemma_filter_step<T>(s: Seq<T>, i: int, p: spec_fn(T) -> bool)
    requires
        0 <= i < s.len(),
    ensures
        s.take(i + 1).filter(p) == if p(s[i]) {
            s.take(i).filter(p).push(s[i])
        } else {
            s.take(i).filter(p)
        },
{
    reveal(Seq::filter);
    assert(s.take(i + 1).drop_last() =~= s.take(i));
}

/// The characters of a text.
pub fn chars_of(text: &str) -> (chars: Vec<char>)
    ensures
        chars@ == text@,
{
    let mut chars: Vec<char> = Vec::new();
    for c in it: text.chars()
        invariant
            it.seq() == text@,
            chars@ == it.seq().take(it.index()),
    {
        chars.push(c);
    }
    chars
}

/// The text that `chars[from..to]` spells.
pub fn text_between(chars: &Vec<char>, from: usize, to: usize) -> (text: String)
    requires
        from <= to <= chars.len(),
    ensures
        text@ == chars@.subrange(from as int, to as int),
{
    let mut text = String::new();
    for i in from..to
        invariant
            from <= i <= to <= chars.len(),
            text@ == chars@.subrange(from as int, i as int),
    {
        text.push(chars[i]);
    }
    text
}

/// Whether `word` stands in `text` at position `at`.
pub fn stands_at(text: &Vec<char>, word: &Vec<char>, at: usize) -> (found: bool)
    ensures
        found == occurs_at(text@, word@, at as int),
{
    if word.len() > text.len() || at > text.len() - word.len() {
        return false;
    }
    for i in 0..word.len()
        invariant
            at + word.len() <= text.len(),
            forall|j: int| 0 <= j < i ==> text[at + j] == word[j],
    {
        if text[at + i] != word[i] {
            assert(text@.subrange(at as int, at + word.len())[i as int] != word[i as int]);
            return false;
        }
    }
    assert(text@.subrange(at as int, at + word.len()) =~= word@);
    true
}

/// The first position from `from` on that holds `c`; the length of the text if there is none.
pub fn position_of(text: &Vec<char>, c: char, from: usize) -> (at: usize)
    requires
        from <= text.len(),
    ensures
        at == find_char(text@, c, from as int),
        from <= at <= text.len(),
{
    proof {
        lemma_find_char(text@, c, from as int);
    }
    let mut at: usize = from;
    while at < text.len() && text[at] != c
        invariant
            from <= at <= text.len(),
            find_char(text@, c, from as int) == find_char(text@, c, at as int),
        decreases text.len() - at,
    {
        at += 1;
    }
    at
}

/// The text with each `from` replaced by `to`.
pub fn replace_char(text: &str, from: char, to: char) -> (result: String)
    ensures
        result@ == replaced(text@, from, to),
{
    let mut result = String::new();
    for c in it: text.chars()
        invariant
            it.seq() == text@,
            result@ == replaced(text@.take(it.index()), from, to),
    {
        result.push(if c == from { to } else { c });
        assert(result@ =~= replaced(text@.take(it.index() + 1), from, to));
    }
    result
}

/// Whether `a` is lexicographically at most `b`.
pub fn at_most(a: &str, b: &str) -> (le: bool)
    ensures
        le == text_le(a@, b@),
{
    let left = chars_of(a);
    let right = chars_of(b);
    let mut i: usize = 0;
    assert(left@.skip(0) =~= left@);
    assert(right@.skip(0) =~= right@);
    while i < left.len() && i < right.len() && left[i] == right[i]
        invariant
            i <= left.len(),
            i <= right.len(),
            text_le(left@, right@) == text_le(left@.skip(i as int), right@.skip(i as int)),
        decreases left.len() - i,
    {
        assert(left@.skip(i as int).drop_first() =~= left@.skip(i + 1));
        assert(right@.skip(i as int).drop_first() =~= right@.skip(i + 1));
        i += 1;
    }
    if i == left.len() {
        true
    } else if i == right.len() {
        false
    } else {
        left[i] < right[i]
    }
}

/// Whether `list` holds `item`.
pub fn holds(list: &Vec<String>, item: &String) -> (found: bool)
    ensures
        found == list.deep_view().contains(item@),
{
    for i in 0..list.len()
        invariant
            forall|j: int| 0 <= j < i ==> list.deep_view()[j] != item@,
    {
        if list[i] == *item {
            assert(list.deep_view()[i as int] == item@);
            return true;
        }
    }
    false
}

/// A copy of a list of texts.
pub fn copy_texts(list: &Vec<String>) -> (copy: Vec<String>)
    ensures
        copy.deep_view() == list.deep_view(),
{
    let mut copy: Vec<String> = Vec::new();
    for i in 0..list.len()
        invariant
            copy.deep_view() == list.deep_view().take(i as int),
    {
        let ghost before = copy.deep_view();
        copy.push(list[i].clone());
        assert(copy.deep_view() =~= before.push(list.deep_view()[i as int]));
        assert(copy.deep_view() =~= list.deep_view().take(i + 1));
    }
    assert(list.deep_view().take(list.len() as int) =~= list.deep_view());
    copy
}

/// The elements of `list` that are not in `other`, each once, in order of first occurrence.
pub fn list_difference(list: &Vec<String>, other: &Vec<String>) -> (result: Vec<String>)
    ensures
        result.deep_view() == difference(list.deep_view(), other.deep_view()),
{
    let mut result: Vec<String> = Vec::new();
    for i in 0..list.len()
        invariant
            result.deep_view() == difference(list.deep_view().take(i as int), other.deep_view()),
    {
        assert(list.deep_view().take(i + 1).drop_last() =~= list.deep_view().take(i as int));
        let ghost before = result.deep_view();
        if !holds(other, &list[i]) && !holds(&result, &list[i]) {
            result.push(list[i].clone());
            assert(result.deep_view() =~= before.push(list[i as int]@));
        }
    }
    assert(list.deep_view().take(list.len() as int) =~= list.deep_view());
    result
}

/// The parts one after the other, with `sep` between neighbours.
pub fn join(parts: &Vec<String>, sep: &str) -> (result: String)
    ensures
        result@ == joined(parts.deep_view(), sep@),
{
    let mut result = String::new();
    for i in 0..parts.len()
        invariant
            result@ == joined(parts.deep_view().take(i as int), sep@),
    {
        assert(parts.deep_view().take(i + 1).drop_last() =~= parts.deep_view().take(i as int));
        if i > 0 {
            result.append(sep);
            result.append(parts[i].as_str());
        } else {
            result = parts[i].clone();
        }
    }
    assert(parts.deep_view().take(parts.len() as int) =~= parts.deep_view());
    result
}

/// `n` in decimal notation.
pub fn decimal_text(n: usize) -> (text: String)
    ensures
        text@ == decimal(n as nat),
    decreases n,
{
    let digit: u8 = (n % 10) as u8;
    let c: char = (48u8 + digit) as char;
    if n < 10 {
        let mut text = String::new();
        text.push(c);
        text
    } else {
        let mut text = decimal_text(n / 10);
        text.push(c);
        text
    }
}

/// The parts of the text between occurrences of `sep`.
pub fn split_chars(text: &Vec<char>, sep: char) -> (parts: Vec<Vec<char>>)
    ensures
        parts.deep_view() == split_on(text@, sep),
{
    let mut parts: Vec<Vec<char>> = Vec::new();
    let mut start: usize = 0;
    assert(text@.skip(0) =~= text@);
    loop
        invariant
            start <= text.len(),
            split_on(text@, sep) == parts.deep_view() + split_on(text@.skip(start as int), sep),
        decreases text.len() - start,
    {
        let end = position_of(text, sep, start);
        let mut part: Vec<char> = Vec::new();
        for i in start..end
            invariant
                start <= i <= end <= text.len(),
                part@ == text@.subrange(start as int, i as int),
        {
            part.push(text[i]);
        }
        let ghost rest = text@.skip(start as int);
        let ghost before = parts.deep_view();
        proof {
            lemma_find_char(text@, sep, start as int);
            lemma_find_char(rest, sep, 0);
            let i = find_char(rest, sep, 0);
            if start + i < end {
                assert(text@[start + i] == rest[i]);
            }
            if start + i > end {
                assert(rest[end - start] == text@[end as int]);
            }
            assert(start + i == end);
            assert(part@ =~= rest.take(i));
        }
        assert(part.deep_view() =~= part@);
        parts.push(part);
        assert(parts.deep_view() =~= before.push(text@.subrange(start as int, end as int)));
        if end == text.len() {
            assert(rest.take(end - start) =~= rest);
            assert(parts.deep_view() =~= before + seq![rest]);
            return parts;
        }
        proof {
            assert(rest.skip(end - start + 1) =~= text@.skip(end + 1));
            assert(before + (seq![rest.take(end - start)] + split_on(text@.skip(end + 1), sep))
                =~= parts.deep_view() + split_on(text@.skip(end + 1), sep));
        }
        start = end + 1;
    }
}

/// What is in the difference of two lists: what is in the first and not in the second, each once.
pub proof fn difference_is_exact(list: Seq<Seq<char>>, other: Seq<Seq<char>>)
    ensures
        forall|item: Seq<char>|
            #[trigger] difference(list, other).contains(item) <==> list.contains(item)
                && !other.contains(item),
        difference(list, other).no_duplicates(),
    decreases list.len(),
{
    let result = difference(list, other);
    if list.len() > 0 {
        let init = list.drop_last();
        let last = list.last();
        let rest = difference(init, other);
        difference_is_exact(init, other);
        assert forall|item: Seq<char>| #[trigger] result.contains(item) <==> list.contains(item)
            && !other.contains(item) by {
            assert(list =~= init.push(last));
            assert(list.contains(item) <==> init.contains(item) || item == last) by {
                if init.contains(item) {
                    let i = init.index_of(item);
                    assert(list[i] == item);
                }
                if list.contains(item) {
                    let i = list.index_of(item);
                    if i < init.len() {
                        assert(init[i] == item);
                    }
                }
                assert(list[list.len() - 1] == last);
            }
            if result.len() > rest.len() {
                assert(result.contains(item) <==> rest.contains(item) || item == last) by {
                    if rest.contains(item) {
                        let i = rest.index_of(item);
                        assert(result[i] == item);
                    }
                    assert(result[result.len() - 1] == last);
                }
            }
        }
    }
}

} // verus!
