//! What reading a BUILD file finds, in terms of the text.

use crate::build_file::{
    after_blocks, block_end, blocks_from, build_file, closing_bracket, closing_paren, crates_from,
    kept_trailer, lemma_next_block, lemma_next_crate, list_field, next_block, next_crate,
    single_crate, spaced_out, string_field, unnamed_between, until_bracket, until_quote,
    BuildFileContent, BuildFileSpec, BLOCK_START,
};
use crate::crate_def::{CrateDefinition, CrateSpec};
use crate::pattern::{
    assignment_end, first_assignment, has_pin, is_pin_at, is_space, quoted, skip_space,
};
use crate::reread::{lemma_blocks_shift, lemma_next_block_shift, read_crates_are_intact};
use crate::roundtrip::{
    lemma_paren_shift, lemma_quoted_first, lemma_quoted_none, lemma_skip_space,
};
use crate::text::{find_char, lemma_find_char, occurs_at};
use vstd::prelude::*;

verus! {

/// How often the character stands in the text.
pub open spec fn count(text: Seq<char>, c: char) -> nat {
    text.to_multiset().count(c)
}

/// Whether nothing is closed in the text that was not opened in it before.
pub open spec fn never_closes(text: Seq<char>, open: char, close: char) -> bool {
    forall|i: int|
        0 <= i <= text.len() ==> count(#[trigger] text.take(i), close) <= count(text.take(i), open)
}

/// Whether what is opened in the text is closed in it, and nothing else.
pub open spec fn is_nested(text: Seq<char>, open: char, close: char) -> bool {
    never_closes(text, open, close) && count(text, open) == count(text, close)
}

/// Whether the text is spaces, tabs, line ends, vertical tabs and form feeds alone.
pub open spec fn is_blank(text: Seq<char>) -> bool {
    forall|i: int| #![trigger text[i]]
        0 <= i < text.len() ==> text[i] == ' ' || text[i] == '\t' || text[i] == '\n' || text[i]
            == '\r' || text[i] == '\x0b' || text[i] == '\x0c'
}

/// Whether the text opens an assignment to the word: the word, an equals sign with blanks around it,
/// and the character that opens the value.
pub open spec fn opens_assignment(
    text: Seq<char>,
    word: Seq<char>,
    a: Seq<char>,
    b: Seq<char>,
    open: char,
) -> bool {
    is_blank(a) && is_blank(b) && (word + a + seq!['='] + b + seq![open]).is_prefix_of(text)
}

/// A word occurs where the text can be cut into what stands before, the word and what stands after.
pub proof fn word_occurs_where_it_stands(
    before: Seq<char>,
    word: Seq<char>,
    after: Seq<char>,
    text: Seq<char>,
    at: int,
)
    ensures
        occurs_at(before + word + after, word, before.len() as int),
        occurs_at(text, word, at) ==> text == text.take(at) + word + text.skip(at + word.len()),
{
    let whole = before + word + after;
    assert(whole.subrange(before.len() as int, (before.len() + word.len()) as int) =~= word);
    if occurs_at(text, word, at) {
        assert(text =~= text.take(at) + text.subrange(at, at + word.len()) + text.skip(
            at + word.len(),
        ));
    }
}

/// A value ends before the first quote; without a quote there is none.
pub proof fn value_ends_at_the_quote(value: Seq<char>, rest: Seq<char>)
    requires
        !value.contains('"'),
    ensures
        until_quote(value + seq!['"'] + rest) == Some(value),
        until_quote(value) is None,
{
    let text = value + seq!['"'] + rest;
    lemma_find_char(text, '"', 0);
    let end = find_char(text, '"', 0);
    assert(text[value.len() as int] == '"');
    if end < value.len() {
        assert(value.contains(value[end]));
        assert(text[end] == value[end]);
    }
    assert(text.take(end) =~= value);
    lemma_find_char(value, '"', 0);
    let none = find_char(value, '"', 0);
    if none < value.len() {
        assert(value.contains(value[none]));
    }
}

proof fn lemma_count_step(text: Seq<char>, i: int, c: char)
    requires
        0 <= i < text.len(),
    ensures
        count(text.take(i + 1), c) == count(text.take(i), c) + (if text[i] == c {
            1nat
        } else {
            0nat
        }),
{
    broadcast use vstd::seq_lib::group_to_multiset_ensures;

    assert(text.take(i + 1) =~= text.take(i).push(text[i]));
}

proof fn lemma_count_none(text: Seq<char>, c: char)
    ensures
        count(text.take(0), c) == 0,
{
    broadcast use vstd::seq_lib::group_to_multiset_ensures;

    assert(text.take(0).len() == 0);
    assert(text.take(0).to_multiset().len() == 0);
    assert(!text.take(0).contains(c));
}

proof fn lemma_bracket_depth(text: Seq<char>, n: int, i: int)
    requires
        0 <= i <= n <= text.len(),
        never_closes(text.take(n), '[', ']'),
    ensures
        closing_bracket(text, 0, 1) == closing_bracket(
            text,
            i,
            1 + count(text.take(i), '[') - count(text.take(i), ']'),
        ),
    decreases i,
{
    if i == 0 {
        lemma_count_none(text, '[');
        lemma_count_none(text, ']');
    } else {
        lemma_bracket_depth(text, n, i - 1);
        lemma_count_step(text, i - 1, '[');
        lemma_count_step(text, i - 1, ']');
        assert(text.take(n).take(i) =~= text.take(i));
        assert(count(text.take(n).take(i), ']') <= count(text.take(n).take(i), '['));
    }
}

/// A list ends at the bracket that closes it: brackets that are opened and closed in it belong to it.
/// A list that is not closed has no content.
pub proof fn list_ends_at_its_bracket(content: Seq<char>, rest: Seq<char>, open: Seq<char>)
    requires
        is_nested(content, '[', ']'),
        never_closes(open, '[', ']'),
    ensures
        until_bracket(content + seq![']'] + rest) == content,
        until_bracket(open).len() == 0,
{
    let text = content + seq![']'] + rest;
    let n = content.len() as int;
    assert(text.take(n) =~= content);
    lemma_bracket_depth(text, n, n);
    assert(text[n] == ']');
    assert(open.take(open.len() as int) =~= open);
    lemma_bracket_depth(open, open.len() as int, open.len() as int);
}

proof fn lemma_paren_depth(text: Seq<char>, from: int, n: int, i: int)
    requires
        0 <= from,
        0 <= i <= n,
        from + n <= text.len(),
        never_closes(text.subrange(from, from + n), '(', ')'),
    ensures
        closing_paren(text, from, 1) == closing_paren(
            text,
            from + i,
            1 + count(text.subrange(from, from + i), '(') - count(
                text.subrange(from, from + i),
                ')',
            ),
        ),
    decreases i,
{
    let part = text.subrange(from, from + n);
    assert(part.take(i) =~= text.subrange(from, from + i));
    if i == 0 {
        lemma_count_none(part, '(');
        lemma_count_none(part, ')');
    } else {
        lemma_paren_depth(text, from, n, i - 1);
        assert(part.take(i - 1) =~= text.subrange(from, from + i - 1));
        lemma_count_step(part, i - 1, '(');
        lemma_count_step(part, i - 1, ')');
        assert(count(part.take(i - 1), ')') <= count(part.take(i - 1), '('));
        assert(part[i - 1] == text[from + i - 1]);
    }
}

/// A block ends after the parenthesis that closes it: parentheses that are opened and closed in it
/// belong to it. A block that is not closed ends with the text.
pub proof fn block_ends_at_its_parenthesis(
    before: Seq<char>,
    inner: Seq<char>,
    rest: Seq<char>,
    open: Seq<char>,
)
    requires
        is_nested(inner, '(', ')'),
        never_closes(open, '(', ')'),
    ensures
        block_end(before + BLOCK_START@ + inner + seq![')'] + rest, before.len() as int)
            == before.len() + BLOCK_START@.len() + inner.len() + 1,
        block_end(before + BLOCK_START@ + open, before.len() as int) == before.len()
            + BLOCK_START@.len() + open.len(),
{
    let text = before + BLOCK_START@ + inner + seq![')'] + rest;
    let from = (before.len() + BLOCK_START@.len()) as int;
    let n = inner.len() as int;
    assert(text.subrange(from, from + n) =~= inner);
    lemma_paren_depth(text, from, n, n);
    assert(text[from + n] == ')');
    assert(closing_paren(text, from + n + 1, 0) == from + n + 1);
    let unclosed = before + BLOCK_START@ + open;
    let m = open.len() as int;
    assert(unclosed.subrange(from, from + m) =~= open);
    lemma_paren_depth(unclosed, from, m, m);
}

proof fn lemma_after_blocks_shift(a: Seq<char>, b: Seq<char>, from: int)
    requires
        0 <= from <= b.len(),
    ensures
        after_blocks(a + b, a.len() + from) == after_blocks(b, from),
    decreases b.len() - from,
{
    let t = a + b;
    let start = next_block(b, from);
    let end = block_end(b, start);
    lemma_next_block(b, from);
    lemma_next_block_shift(a, b, from);
    lemma_paren_shift(a, b, start + BLOCK_START@.len(), 1);
    assert(block_end(t, a.len() + start) == a.len() + end);
    if from <= start < end <= b.len() {
        lemma_after_blocks_shift(a, b, end);
    } else {
        assert(t.skip(a.len() + from) =~= b.skip(from));
    }
}

/// Whether no block starts in the first `n` characters of the text.
pub open spec fn starts_no_block(text: Seq<char>, n: int) -> bool {
    forall|i: int| 0 <= i < n ==> !#[trigger] occurs_at(text, "rust_crate("@, i)
}

/// The blocks of a text are found one after the other: the first is the one that starts first, up to
/// the parenthesis that closes it, and the others are those of what follows. A text in which none
/// starts has none.
pub proof fn blocks_are_found_in_order(
    gap: Seq<char>,
    inner: Seq<char>,
    rest: Seq<char>,
    plain: Seq<char>,
)
    requires
        is_nested(inner, '(', ')'),
        starts_no_block(gap + "rust_crate("@ + inner + seq![')'] + rest, gap.len() as int),
        starts_no_block(plain, plain.len() as int),
    ensures
        blocks_from(gap + "rust_crate("@ + inner + seq![')'] + rest, 0) == seq![
            "rust_crate("@ + inner + seq![')'],
        ] + blocks_from(rest, 0),
        after_blocks(gap + "rust_crate("@ + inner + seq![')'] + rest, 0) == after_blocks(rest, 0),
        blocks_from(plain, 0).len() == 0,
        after_blocks(plain, 0) == plain,
{
    let mark = "rust_crate("@;
    let block = mark + inner + seq![')'];
    let text = gap + mark + inner + seq![')'] + rest;
    let start = gap.len() as int;
    let end = (gap.len() + block.len()) as int;
    reveal_strlit("rust_crate(");
    assert(never_closes(Seq::empty(), '(', ')')) by {
        assert forall|i: int| 0 <= i <= 0 implies count(
            #[trigger] Seq::<char>::empty().take(i),
            ')',
        ) <= count(Seq::<char>::empty().take(i), '(') by {
            lemma_count_none(Seq::empty(), ')');
        }
    }
    block_ends_at_its_parenthesis(gap, inner, rest, Seq::empty());
    assert(text.subrange(start, start + mark.len()) =~= mark);
    assert(BLOCK_START@ == mark);
    lemma_next_block(text, 0);
    let first = next_block(text, 0);
    assert(occurs_at(text, mark, start));
    assert(first <= start);
    assert(occurs_at(text, mark, first));
    assert(text.subrange(start, end) =~= block);
    assert(text =~= (gap + block) + rest);
    lemma_blocks_shift(gap + block, rest, 0);
    lemma_after_blocks_shift(gap + block, rest, 0);
    lemma_next_block(plain, 0);
    assert(next_block(plain, 0) == plain.len());
    assert(plain.skip(0) =~= plain);
}

proof fn lemma_blank_run(text: Seq<char>, from: int, blanks: Seq<char>)
    requires
        0 <= from,
        from + blanks.len() < text.len(),
        is_blank(blanks),
        forall|i: int| 0 <= i < blanks.len() ==> text[from + i] == #[trigger] blanks[i],
        !is_space(text[from + blanks.len()]),
    ensures
        skip_space(text, from) == from + blanks.len(),
{
    lemma_skip_space(text, from);
    let end = skip_space(text, from);
    if end < from + blanks.len() {
        assert(text[from + (end - from)] == blanks[end - from]);
    }
}

/// An assignment is found where the text opens one, and its value follows what opens it.
pub proof fn assignment_is_found_where_it_opens(
    text: Seq<char>,
    word: Seq<char>,
    a: Seq<char>,
    b: Seq<char>,
    open: char,
    at: int,
)
    requires
        open == '"' || open == '[',
        0 <= at <= text.len(),
    ensures
        opens_assignment(text.skip(at), word, a, b, open) ==> assignment_end(text, word, open, at)
            == Some(at + word.len() + a.len() + 1 + b.len() + 1),
        assignment_end(text, word, open, at) is Some ==> exists|x: Seq<char>, y: Seq<char>|
            #[trigger] opens_assignment(text.skip(at), word, x, y, open),
{
    let tail = text.skip(at);
    let n = word.len() as int;
    if opens_assignment(tail, word, a, b, open) {
        let head = word + a + seq!['='] + b + seq![open];
        assert(head =~= tail.take(head.len() as int));
        assert forall|i: int| 0 <= i < head.len() implies text[at + i] == #[trigger] head[i] by {
            assert(tail.take(head.len() as int)[i] == text[at + i]);
        }
        assert(text.subrange(at, at + n) =~= word) by {
            assert forall|i: int| 0 <= i < n implies text[at + i] == #[trigger] word[i] by {
                assert(head[i] == word[i]);
            }
        }
        let equals = at + n + a.len();
        assert forall|i: int| 0 <= i < a.len() implies text[at + n + i] == #[trigger] a[i] by {
            assert(head[n + i] == a[i]);
        }
        assert(head[n + a.len()] == '=');
        assert(text[equals] == '=');
        lemma_blank_run(text, at + n, a);
        assert forall|i: int| 0 <= i < b.len() implies text[equals + 1 + i] == #[trigger] b[i] by {
            assert(head[n + a.len() + 1 + i] == b[i]);
        }
        assert(head[n + a.len() + 1 + b.len()] == open);
        assert(text[equals + 1 + b.len()] == open);
        lemma_blank_run(text, equals + 1, b);
    }
    if assignment_end(text, word, open, at) is Some {
        lemma_skip_space(text, at + n);
        let equals = skip_space(text, at + n);
        lemma_skip_space(text, equals + 1);
        let value = skip_space(text, equals + 1);
        let x = text.subrange(at + n, equals);
        let y = text.subrange(equals + 1, value);
        assert forall|i: int| 0 <= i < x.len() implies is_space(#[trigger] x[i]) by {}
        assert forall|i: int| 0 <= i < y.len() implies is_space(#[trigger] y[i]) by {}
        let head = word + x + seq!['='] + y + seq![open];
        assert(head =~= text.subrange(at, at + n) + x + seq!['='] + y + seq![open]);
        assert(head =~= tail.take(head.len() as int));
        assert(opens_assignment(tail, word, x, y, open));
    }
}

proof fn lemma_first_assignment(text: Seq<char>, word: Seq<char>, open: char, from: int, at: int)
    requires
        0 <= from <= at <= text.len(),
        forall|i: int| from <= i < at ==> assignment_end(text, word, open, i) is None,
    ensures
        first_assignment(text, word, open, from) == first_assignment(text, word, open, at),
    decreases at - from,
{
    if from < at {
        assert(assignment_end(text, word, open, from) is None);
        lemma_first_assignment(text, word, open, from + 1, at);
    }
}

/// Whether an assignment to the word opens in none of the first `n` places of the text.
pub open spec fn assigns_nothing(text: Seq<char>, word: Seq<char>, open: char, n: int) -> bool {
    forall|i: int, a: Seq<char>, b: Seq<char>|
        0 <= i < n ==> !#[trigger] opens_assignment(text.skip(i), word, a, b, open)
}

proof fn lemma_assigns_nothing(text: Seq<char>, word: Seq<char>, open: char, n: int)
    requires
        open == '"' || open == '[',
        0 <= n <= text.len(),
        assigns_nothing(text, word, open, n),
    ensures
        first_assignment(text, word, open, 0) == first_assignment(text, word, open, n),
{
    assert forall|i: int| 0 <= i < n implies assignment_end(text, word, open, i) is None by {
        assignment_is_found_where_it_opens(text, word, word, word, open, i);
        if assignment_end(text, word, open, i) is Some {
            let (x, y) = choose|x: Seq<char>, y: Seq<char>| #[trigger]
                opens_assignment(text.skip(i), word, x, y, open);
            assert(opens_assignment(text.skip(i), word, x, y, open));
        }
    }
    lemma_first_assignment(text, word, open, 0, n);
}

/// The value of a field is what stands between the quotes of the first assignment to it. A field
/// that nothing is assigned to has none.
pub proof fn field_has_the_first_value(
    before: Seq<char>,
    word: Seq<char>,
    a: Seq<char>,
    b: Seq<char>,
    value: Seq<char>,
    rest: Seq<char>,
)
    requires
        is_blank(a),
        is_blank(b),
        !value.contains('"'),
        assigns_nothing(
            before + (word + a + seq!['='] + b + seq!['"']) + (value + seq!['"'] + rest),
            word,
            '"',
            before.len() as int,
        ),
    ensures
        string_field(
            before + (word + a + seq!['='] + b + seq!['"']) + (value + seq!['"'] + rest),
            word,
        ) == Some(value),
{
    let head = word + a + seq!['='] + b + seq!['"'];
    let tail = value + seq!['"'] + rest;
    let text = before + head + tail;
    let at = before.len() as int;
    lemma_assigns_nothing(text, word, '"', at);
    assert(text.skip(at) =~= head + tail);
    assert(head.is_prefix_of(text.skip(at))) by {
        assert(text.skip(at).subrange(0, head.len() as int) =~= head);
    }
    assignment_is_found_where_it_opens(text, word, a, b, '"', at);
    assert(text.skip(at + head.len()) =~= tail);
    value_ends_at_the_quote(value, rest);
}

/// The items of a list are the quoted texts between the brackets of the first assignment to it.
pub proof fn list_has_the_first_items(
    before: Seq<char>,
    word: Seq<char>,
    a: Seq<char>,
    b: Seq<char>,
    content: Seq<char>,
    rest: Seq<char>,
)
    requires
        is_blank(a),
        is_blank(b),
        is_nested(content, '[', ']'),
        assigns_nothing(
            before + (word + a + seq!['='] + b + seq!['[']) + (content + seq![']'] + rest),
            word,
            '[',
            before.len() as int,
        ),
    ensures
        list_field(
            before + (word + a + seq!['='] + b + seq!['[']) + (content + seq![']'] + rest),
            word,
        ) == quoted(content),
{
    let head = word + a + seq!['='] + b + seq!['['];
    let tail = content + seq![']'] + rest;
    let text = before + head + tail;
    let at = before.len() as int;
    lemma_assigns_nothing(text, word, '[', at);
    assert(text.skip(at) =~= head + tail);
    assert(head.is_prefix_of(text.skip(at))) by {
        assert(text.skip(at).subrange(0, head.len() as int) =~= head);
    }
    assignment_is_found_where_it_opens(text, word, a, b, '[', at);
    assert(text.skip(at + head.len()) =~= tail);
    list_ends_at_its_bracket(content, rest, content);
}

/// Where the value of the first assignment is not closed, the field has no value; where its list is
/// not closed, it has no items. A later assignment does not count.
pub proof fn unclosed_field_has_nothing(
    before: Seq<char>,
    word: Seq<char>,
    a: Seq<char>,
    b: Seq<char>,
    open: char,
    rest: Seq<char>,
)
    requires
        is_blank(a),
        is_blank(b),
        open == '"' || open == '[',
        assigns_nothing(
            before + (word + a + seq!['='] + b + seq![open]) + rest,
            word,
            open,
            before.len() as int,
        ),
    ensures
        open == '"' && !rest.contains('"') ==> string_field(
            before + (word + a + seq!['='] + b + seq![open]) + rest,
            word,
        ) is None,
        open == '[' && never_closes(rest, '[', ']') ==> list_field(
            before + (word + a + seq!['='] + b + seq![open]) + rest,
            word,
        ).len() == 0,
{
    let head = word + a + seq!['='] + b + seq![open];
    let text = before + head + rest;
    let at = before.len() as int;
    lemma_assigns_nothing(text, word, open, at);
    assert(text.skip(at) =~= head + rest);
    assert(head.is_prefix_of(text.skip(at))) by {
        assert(text.skip(at).subrange(0, head.len() as int) =~= head);
    }
    assignment_is_found_where_it_opens(text, word, a, b, open, at);
    assert(text.skip(at + head.len()) =~= rest);
    if open == '"' && !rest.contains('"') {
        value_ends_at_the_quote(rest, rest);
    }
    if open == '[' && never_closes(rest, '[', ']') {
        assert(rest.take(rest.len() as int) =~= rest);
        lemma_bracket_depth(rest, rest.len() as int, rest.len() as int);
        assert(until_bracket(rest) =~= Seq::empty());
        lemma_quoted_none(until_bracket(rest));
    }
}

/// A field that nothing is assigned to has no value, and no items.
pub proof fn unassigned_field_has_nothing(text: Seq<char>, word: Seq<char>)
    ensures
        assigns_nothing(text, word, '"', text.len() as int) ==> string_field(text, word) is None,
        assigns_nothing(text, word, '[', text.len() as int) ==> list_field(text, word).len() == 0,
{
    if assigns_nothing(text, word, '"', text.len() as int) {
        lemma_assigns_nothing(text, word, '"', text.len() as int);
    }
    if assigns_nothing(text, word, '[', text.len() as int) {
        lemma_assigns_nothing(text, word, '[', text.len() as int);
    }
}

/// Quoted texts are found one after the other; with fewer than two quotes there is none.
pub proof fn quoted_texts_are_found_in_order(before: Seq<char>, item: Seq<char>, rest: Seq<char>)
    requires
        !before.contains('"'),
        !item.contains('"'),
    ensures
        quoted(before + seq!['"'] + item + seq!['"'] + rest) == seq![item] + quoted(rest),
        quoted(before).len() == 0,
        quoted(before + seq!['"'] + item).len() == 0,
{
    lemma_quoted_first(before, item, rest);
    lemma_quoted_none(before);
    let text = before + seq!['"'] + item;
    let n = before.len() as int;
    lemma_find_char(text, '"', 0);
    let start = find_char(text, '"', 0);
    assert(text[n] == '"');
    if start < n {
        assert(before.contains(before[start]));
    }
    lemma_find_char(text, '"', n + 1);
    let end = find_char(text, '"', n + 1);
    if end < text.len() {
        assert(item.contains(item[end - n - 1]));
    }
}

/// A block with a name is a definition with the values of its fields: the name stands for a crate
/// name that is not there, 0.0.0 for a version. A block without a name is none.
pub proof fn block_says_the_definition(text: Seq<char>)
    ensures
        single_crate(text) is None <==> string_field(text, "name"@) is None,
        single_crate(text) is Some ==> {
            let c = single_crate(text)->0;
            &&& string_field(text, "name"@) == Some(c.name)
            &&& string_field(text, "crate"@) is Some ==> string_field(text, "crate"@) == Some(
                c.crate_name,
            )
            &&& string_field(text, "crate"@) is None ==> c.crate_name == c.name
            &&& string_field(text, "version"@) is Some ==> string_field(text, "version"@) == Some(
                c.version,
            )
            &&& string_field(text, "version"@) is None ==> c.version == "0.0.0"@
            &&& c.edition == string_field(text, "edition"@)
            &&& c.crate_type == string_field(text, "crate_type"@)
            &&& c.build_root == string_field(text, "build_root"@)
            &&& c.features == list_field(text, "features"@)
            &&& c.deps == list_field(text, "deps"@)
            &&& c.raw_text == text
            &&& c.preceding_content.len() == 0
            &&& !c.pinned && !c.modified
        },
{
}

/// What a definition and a file say is all of what they hold.
pub proof fn files_are_seen_whole(c: CrateDefinition, file: BuildFileContent)
    ensures
        c@.name == c.name@ && c@.crate_name == c.crate_name@ && c@.version == c.version@,
        c@.edition == (if c.edition is Some {
            Some(c.edition->0@)
        } else {
            None
        }),
        c@.crate_type == (if c.crate_type is Some {
            Some(c.crate_type->0@)
        } else {
            None
        }),
        c@.build_root == (if c.build_root is Some {
            Some(c.build_root->0@)
        } else {
            None
        }),
        c@.features == c.features@.map_values(|f: String| f@),
        c@.deps == c.deps@.map_values(|d: String| d@),
        c@.raw_text == c.raw_text@ && c@.preceding_content == c.preceding_content@,
        c@.pinned == c.pinned && c@.modified == c.modified,
        c.deep_view() == c@,
        file@.header == file.header@ && file@.trailer == file.trailer@,
        file@.crates == file.crates@.map_values(|d: CrateDefinition| d@),
{
    assert(c.features.deep_view() =~= c.features@.map_values(|f: String| f@));
    assert(c.deps.deep_view() =~= c.deps@.map_values(|d: String| d@));
    assert(file.crates.deep_view() =~= file.crates@.map_values(|d: CrateDefinition| d@));
}

/// A pin comment is one of `#` and `;`, blanks, and the pin's name, wherever it stands.
pub proof fn pin_comment_is_found_wherever_it_stands(
    before: Seq<char>,
    mark: char,
    blanks: Seq<char>,
    after: Seq<char>,
)
    requires
        mark == '#' || mark == ';',
        is_blank(blanks),
    ensures
        has_pin(before + seq![mark] + blanks + "straddle_carrier:do_not_touch"@ + after),
{
    let name = "straddle_carrier:do_not_touch"@;
    reveal_strlit("straddle_carrier:do_not_touch");
    let text = before + seq![mark] + blanks + name + after;
    let at = before.len() as int;
    let from = (before.len() + 1 + blanks.len()) as int;
    assert(text[from] == name[0]);
    assert forall|i: int| 0 <= i < blanks.len() implies text[at + 1 + i] == #[trigger] blanks[i] by {}
    lemma_blank_run(text, at + 1, blanks);
    assert(text.subrange(from, from + name.len()) =~= name);
    assert(text[at] == mark);
    assert(is_pin_at(text, at));
}

/// Whether the text is cut into what stands before a pin comment, the comment, and the rest.
pub open spec fn is_cut_at_pin(
    text: Seq<char>,
    before: Seq<char>,
    mark: char,
    blanks: Seq<char>,
    after: Seq<char>,
) -> bool {
    &&& mark == '#' || mark == ';'
    &&& is_blank(blanks)
    &&& text == before + seq![mark] + blanks + "straddle_carrier:do_not_touch"@ + after
}

/// Where a pin comment is found, one stands.
pub proof fn found_pin_comment_stands(text: Seq<char>)
    requires
        has_pin(text),
    ensures
        exists|before: Seq<char>, mark: char, blanks: Seq<char>, after: Seq<char>| #[trigger]
            is_cut_at_pin(text, before, mark, blanks, after),
{
    let name = "straddle_carrier:do_not_touch"@;
    let at = choose|at: int| is_pin_at(text, at);
    lemma_skip_space(text, at + 1);
    let from = skip_space(text, at + 1);
    let before = text.take(at);
    let blanks = text.subrange(at + 1, from);
    let after = text.skip(from + name.len());
    assert forall|i: int| 0 <= i < blanks.len() implies is_space(#[trigger] blanks[i]) by {}
    assert(text =~= before + seq![text[at]] + blanks + text.subrange(from, from + name.len())
        + after);
    assert(is_cut_at_pin(text, before, text[at], blanks, after));
}

proof fn lemma_filter_first<T>(first: T, rest: Seq<T>, p: spec_fn(T) -> bool)
    ensures
        (seq![first] + rest).filter(p) == if p(first) {
            seq![first] + rest.filter(p)
        } else {
            rest.filter(p)
        },
{
    let one = seq![first];
    Seq::filter_distributes_over_add(one, rest, p);
    let none = Seq::<T>::empty();
    assert(one.drop_last() =~= none);
    assert(none.filter(p) =~= none) by {
        reveal(Seq::filter);
    }
    assert(one.filter(p) == if p(first) {
        none.push(first)
    } else {
        none
    }) by {
        reveal(Seq::filter);
    }
    assert(none.push(first) =~= one);
    assert(none + rest.filter(p) =~= rest.filter(p));
}

/// The texts of the definitions from `from` on.
spec fn raw_texts(text: Seq<char>, from: int) -> Seq<Seq<char>> {
    crates_from(text, from).map_values(|c: CrateSpec| c.raw_text)
}

proof fn lemma_raw_step(text: Seq<char>, from: int)
    requires
        0 <= from <= text.len(),
    ensures
        ({
            let start = next_block(text, from);
            let end = block_end(text, start);
            if from <= start < end <= text.len() {
                let block = text.subrange(start, end);
                raw_texts(text, from) == if single_crate(block) is Some {
                    seq![block] + raw_texts(text, end)
                } else {
                    raw_texts(text, end)
                }
            } else {
                raw_texts(text, from).len() == 0
            }
        }),
{
    let raw = |c: CrateSpec| c.raw_text;
    let start = next_block(text, from);
    let end = block_end(text, start);
    let crates = crates_from(text, from);
    lemma_next_block(text, from);
    lemma_next_crate(text, from);
    if from <= start < end <= text.len() {
        let block = text.subrange(start, end);
        if single_crate(block) is Some {
            assert(next_crate(text, from) == start);
            assert(single_crate(block)->0.raw_text == block);
            assert(raw_texts(text, from) =~= seq![block] + raw_texts(text, end));
        } else {
            assert(next_crate(text, from) == next_crate(text, end));
            lemma_next_crate(text, end);
            let at = next_crate(text, end);
            let close = block_end(text, at);
            if end <= at < close <= text.len() {
                let one = text.subrange(at, close);
                assert(raw_texts(text, from) =~= seq![one] + raw_texts(text, close));
                assert(raw_texts(text, end) =~= seq![one] + raw_texts(text, close));
            } else {
                assert(raw_texts(text, from) =~= Seq::empty());
                assert(raw_texts(text, end) =~= Seq::empty());
            }
        }
    }
}

proof fn lemma_raw_texts(text: Seq<char>, from: int)
    requires
        0 <= from <= text.len(),
    ensures
        raw_texts(text, from) == blocks_from(text, from).filter(
            |block: Seq<char>| string_field(block, "name"@) is Some,
        ),
    decreases text.len() - from,
{
    let named = |block: Seq<char>| string_field(block, "name"@) is Some;
    let start = next_block(text, from);
    let end = block_end(text, start);
    lemma_raw_step(text, from);
    if from <= start < end <= text.len() {
        let block = text.subrange(start, end);
        lemma_raw_texts(text, end);
        lemma_filter_first(block, blocks_from(text, end), named);
        block_says_the_definition(block);
    } else {
        reveal(Seq::filter);
        assert(raw_texts(text, from) =~= Seq::empty());
    }
}

/// A file has a definition for each block with a name, in order: with that block as its text, with
/// what the block says, not modified, and pinned exactly if a pin comment stands after the last block
/// before it.
pub proof fn file_has_a_definition_for_each_named_block(text: Seq<char>)
    ensures
        build_file(text).crates.map_values(|c: CrateSpec| c.raw_text) == blocks_from(
            text,
            0,
        ).filter(|block: Seq<char>| string_field(block, "name"@) is Some),
        forall|i: int|
            0 <= i < build_file(text).crates.len() ==> {
                let c = #[trigger] build_file(text).crates[i];
                &&& single_crate(c.raw_text) == Some(
                    CrateSpec { preceding_content: Seq::empty(), pinned: false, ..c },
                )
                &&& !c.modified
                &&& c.pinned <==> has_pin(after_blocks(c.preceding_content, 0))
            },
{
    lemma_raw_texts(text, 0);
    read_crates_are_intact(text);
}

/// What a rewritten file keeps besides its definitions and its trailer: of what stood between two
/// definitions, the blocks, each with a blank line after it.
pub proof fn blocks_between_definitions_are_kept(
    crates: Seq<CrateSpec>,
    c: CrateSpec,
    header: Seq<char>,
    trailer: Seq<char>,
    blocks: Seq<Seq<char>>,
    block: Seq<char>,
)
    ensures
        crates.len() <= 1 ==> kept_trailer((BuildFileSpec { crates, header, trailer })) == trailer,
        crates.len() > 0 ==> kept_trailer(
            (BuildFileSpec { crates: crates.push(c), header, trailer }),
        ) == kept_trailer((BuildFileSpec { crates, header, trailer: Seq::empty() })) + spaced_out(
            blocks_from(c.preceding_content, 0),
        ) + trailer,
        spaced_out(Seq::empty()).len() == 0,
        spaced_out(blocks.push(block)) == spaced_out(blocks) + block + "\n\n"@,
{
    let none = Seq::<char>::empty();
    let n = crates.len() as int;
    assert(none + trailer =~= trailer);
    assert(blocks.push(block).drop_last() =~= blocks);
    assert(spaced_out(blocks) + (block + "\n\n"@) =~= spaced_out(blocks) + block + "\n\n"@);
    lemma_unnamed_prefix(crates, c, n);
    let before = unnamed_between(crates, n);
    assert(before + none =~= before);
}

proof fn lemma_unnamed_prefix(crates: Seq<CrateSpec>, c: CrateSpec, n: int)
    requires
        n <= crates.len(),
    ensures
        unnamed_between(crates.push(c), n) == unnamed_between(crates, n),
    decreases n,
{
    if n > 1 {
        lemma_unnamed_prefix(crates, c, n - 1);
        assert(crates.push(c)[n - 1] == crates[n - 1]);
    }
}

} // verus!
