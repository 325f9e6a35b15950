//! Reading back what was written.

use crate::build_file::{
    block_end, closing_bracket, closing_paren, lemma_field_words, list_field, single_crate,
    string_field, until_bracket, until_quote, BLOCK_START,
};
use crate::crate_def::{
    crate_block, field_line, item_lines, list_lines, optional_line, CrateSpec,
};
use crate::pattern::{
    assignment_end, first_assignment, is_space, is_word, is_word_char, quoted, skip_space,
};
use crate::text::{find_char, lemma_find_char, occurs_at};
use vstd::prelude::*;

verus! {

/// The fields of a block, by their place in it: the three that every block has, two that may be
/// left out, the two lists, and one more that may be left out.
pub open spec fn field_name(k: int) -> Seq<char> {
    if k == 0 {
        "name"@
    } else if k == 1 {
        "crate"@
    } else if k == 2 {
        "version"@
    } else if k == 3 {
        "edition"@
    } else if k == 4 {
        "crate_type"@
    } else if k == 5 {
        "features"@
    } else if k == 6 {
        "deps"@
    } else {
        "build_root"@
    }
}

/// Whether the field holds a list.
pub open spec fn is_list(k: int) -> bool {
    k == 5 || k == 6
}

/// What opens the value of a field.
pub open spec fn field_open(k: int) -> char {
    if is_list(k) {
        '['
    } else {
        '"'
    }
}

/// An optional text as a list.
pub open spec fn optional_value(value: Option<Seq<char>>) -> Seq<Seq<char>> {
    match value {
        Some(text) => seq![text],
        None => Seq::empty(),
    }
}

/// The values of a field: the items of a list, one text, or none if the field is left out.
pub open spec fn field_values(c: CrateSpec, k: int) -> Seq<Seq<char>> {
    if k == 0 {
        seq![c.name]
    } else if k == 1 {
        seq![c.crate_name]
    } else if k == 2 {
        seq![c.version]
    } else if k == 3 {
        optional_value(c.edition)
    } else if k == 4 {
        optional_value(c.crate_type)
    } else if k == 5 {
        c.features
    } else if k == 6 {
        c.deps
    } else {
        optional_value(c.build_root)
    }
}

/// Whether an assignment of the field starts in the value, where a quote follows it.
pub open spec fn assigns(value: Seq<char>, field: Seq<char>, open: char) -> bool {
    exists|at: int|
        0 <= at < value.len() && #[trigger] assignment_end(value.push('"'), field, open, at) is Some
}

/// Whether the bracket after the items closes their list.
pub open spec fn is_closed_after(items: Seq<Seq<char>>) -> bool {
    closing_bracket(item_lines(items) + "    ]"@, 0, 1) == Some(item_lines(items).len() + 4int)
}

/// Whether a block can hold all of the definition: no value holds a quote, none holds an assignment
/// of a field that comes later or is left out, and the lists end where they should.
pub open spec fn is_readable(c: CrateSpec) -> bool {
    &&& forall|k: int, i: int|
        0 <= k < 8 && 0 <= i < field_values(c, k).len() ==> !(#[trigger] field_values(
            c,
            k,
        )[i]).contains('"')
    &&& forall|k: int, i: int, f: int|
        0 <= k < 8 && 0 <= f < 8 && k != f && (k < f || field_values(c, f).len() == 0) && 0 <= i
            < field_values(c, k).len() ==> !assigns(
            #[trigger] field_values(c, k)[i],
            #[trigger] field_name(f),
            field_open(f),
        )
    &&& is_closed_after(c.features)
    &&& is_closed_after(c.deps)
}

/// Whether the text is one block, up to the parenthesis that closes it.
pub open spec fn is_block(text: Seq<char>) -> bool {
    &&& occurs_at(text, BLOCK_START@, 0)
    &&& block_end(text.push('\n'), 0) == text.len()
}

/// Whether the text is a word that is not empty.
spec fn is_name(text: Seq<char>) -> bool {
    is_word(text) && text.len() > 0
}

/// Whether the character ends any word, run of spaces and assignment.
spec fn is_barrier(c: char) -> bool {
    !is_space(c) && !is_word_char(c) && c != '='
}

/// Whether nothing that starts in the text can go on after it.
spec fn is_sealed(text: Seq<char>) -> bool {
    &&& text.len() > 0
    &&& {
        ||| is_barrier(text.last())
        ||| text.len() >= 2 && is_space(text.last()) && is_barrier(text[text.len() - 2])
    }
}

/// Whether no assignment of the field starts in the text, whatever follows it.
spec fn is_quiet(text: Seq<char>, field: Seq<char>, open: char) -> bool {
    text.len() > 0 ==> {
        &&& is_sealed(text)
        &&& forall|at: int|
            0 <= at < text.len() ==> #[trigger] assignment_end(text, field, open, at) is None
    }
}

/// Whether `word` ends in `suffix`.
spec fn ends_in(word: Seq<char>, suffix: Seq<char>) -> bool {
    suffix.len() <= word.len() && word.skip(word.len() - suffix.len()) == suffix
}

pub proof fn lemma_skip_space(text: Seq<char>, from: int)
    requires
        0 <= from <= text.len(),
    ensures
        from <= skip_space(text, from) <= text.len(),
        forall|i: int| from <= i < skip_space(text, from) ==> is_space(text[i]),
        skip_space(text, from) < text.len() ==> !is_space(text[skip_space(text, from)]),
    decreases text.len() - from,
{
    if from < text.len() && is_space(text[from]) {
        lemma_skip_space(text, from + 1);
    }
}

/// A run of spaces that ends inside the first text ends there in the whole text.
proof fn lemma_skip_space_inside(a: Seq<char>, b: Seq<char>, from: int)
    requires
        0 <= from,
        skip_space(a, from) < a.len(),
    ensures
        skip_space(a + b, from) == skip_space(a, from),
    decreases a.len() - from,
{
    if from < a.len() {
        assert((a + b)[from] == a[from]);
        if is_space(a[from]) {
            lemma_skip_space_inside(a, b, from + 1);
        }
    }
}

proof fn lemma_skip_space_shift(a: Seq<char>, b: Seq<char>, from: int)
    requires
        0 <= from,
    ensures
        skip_space(a + b, a.len() + from) == a.len() + skip_space(b, from),
    decreases b.len() - from,
{
    if from < b.len() {
        assert((a + b)[a.len() + from] == b[from]);
        if is_space(b[from]) {
            lemma_skip_space_shift(a, b, from + 1);
        }
    }
}

proof fn lemma_occurs_shift(a: Seq<char>, b: Seq<char>, word: Seq<char>, at: int)
    requires
        0 <= at,
    ensures
        occurs_at(a + b, word, a.len() + at) == occurs_at(b, word, at),
{
    if at + word.len() <= b.len() {
        assert((a + b).subrange(a.len() + at, a.len() + at + word.len()) =~= b.subrange(
            at,
            at + word.len(),
        ));
    }
}

proof fn lemma_assignment_shift(
    a: Seq<char>,
    b: Seq<char>,
    field: Seq<char>,
    open: char,
    at: int,
)
    requires
        0 <= at,
        field.len() > 0,
    ensures
        assignment_end(a + b, field, open, a.len() + at) == match assignment_end(
            b,
            field,
            open,
            at,
        ) {
            Some(end) => Some(a.len() + end),
            None => None,
        },
{
    lemma_occurs_shift(a, b, field, at);
    lemma_skip_space_shift(a, b, at + field.len());
    lemma_skip_space_bounds(b, at + field.len());
    let equals = skip_space(b, at + field.len());
    lemma_skip_space_shift(a, b, equals + 1);
    lemma_skip_space_bounds(b, equals + 1);
    let value = skip_space(b, equals + 1);
    let t = a + b;
    assert(skip_space(t, a.len() + at + field.len()) == a.len() + equals);
    assert(skip_space(t, a.len() + equals + 1) == a.len() + value);
    if equals < b.len() {
        assert(t[a.len() + equals] == b[equals]);
    }
    if value < b.len() {
        assert(t[a.len() + value] == b[value]);
    }
}

proof fn lemma_skip_space_bounds(text: Seq<char>, from: int)
    requires
        0 <= from,
    ensures
        0 <= skip_space(text, from) <= text.len(),
        skip_space(text, from) < text.len() ==> from <= skip_space(text, from),
{
    if from <= text.len() {
        lemma_skip_space(text, from);
    }
}

/// An assignment that starts in a sealed text ends in it.
proof fn lemma_sealed(a: Seq<char>, b: Seq<char>, field: Seq<char>, open: char, at: int)
    requires
        is_sealed(a),
        is_name(field),
        0 <= at < a.len(),
    ensures
        assignment_end(a + b, field, open, at) == assignment_end(a, field, open, at),
{
    let t = a + b;
    let n = a.len();
    let bar = if is_barrier(a.last()) { n - 1 } else { n - 2 };
    assert(t[bar] == a[bar]);
    assert(is_barrier(a[bar]));
    if occurs_at(t, field, at) {
        assert forall|i: int| at <= i < at + field.len() implies is_word_char(#[trigger] t[i]) by {
            assert(t.subrange(at, at + field.len())[i - at] == t[i]);
            assert(is_word_char(field[i - at]));
        }
        assert(at + field.len() <= bar) by {
            if at + field.len() > bar {
                if at <= bar {
                    assert(is_word_char(t[bar]));
                } else {
                    assert(t[at] == a[n - 1]);
                    assert(is_word_char(t[at]));
                }
            }
        }
        assert(t.subrange(at, at + field.len()) =~= a.subrange(at, at + field.len()));
        let from = at + field.len();
        lemma_skip_space(a, from);
        let equals = skip_space(a, from);
        assert(equals <= bar);
        lemma_skip_space_inside(a, b, from);
        if a[equals] == '=' {
            assert(equals < bar);
            lemma_skip_space(a, equals + 1);
            assert(skip_space(a, equals + 1) <= bar);
            lemma_skip_space_inside(a, b, equals + 1);
            assert(t[skip_space(a, equals + 1)] == a[skip_space(a, equals + 1)]);
        }
        assert(t[equals] == a[equals]);
    } else {
        if occurs_at(a, field, at) {
            assert(t.subrange(at, at + field.len()) =~= a.subrange(at, at + field.len()));
        }
    }
}

proof fn lemma_quiet_concat(a: Seq<char>, b: Seq<char>, field: Seq<char>, open: char)
    requires
        is_name(field),
        is_quiet(a, field, open),
        is_quiet(b, field, open),
    ensures
        is_quiet(a + b, field, open),
{
    let t = a + b;
    if a.len() == 0 {
        assert(t =~= b);
    } else if b.len() == 0 {
        assert(t =~= a);
    } else {
        assert forall|at: int| 0 <= at < t.len() implies #[trigger] assignment_end(
            t,
            field,
            open,
            at,
        ) is None by {
            if at < a.len() {
                lemma_sealed(a, b, field, open, at);
            } else {
                lemma_assignment_shift(a, b, field, open, at - a.len());
                assert(assignment_end(b, field, open, at - a.len()) is None);
            }
        }
        if b.len() == 1 {
            assert(is_barrier(b.last()));
        } else {
            assert(t[t.len() - 2] == b[b.len() - 2]);
        }
        assert(t.last() == b.last());
    }
}

/// An assignment needs an equals sign.
proof fn lemma_no_equals_quiet(text: Seq<char>, field: Seq<char>, open: char)
    requires
        is_sealed(text),
        !text.contains('='),
        field.len() > 0,
    ensures
        is_quiet(text, field, open),
{
    assert forall|at: int| 0 <= at < text.len() implies #[trigger] assignment_end(
        text,
        field,
        open,
        at,
    ) is None by {
        let equals = skip_space(text, at + field.len());
        lemma_skip_space_bounds(text, at + field.len());
        if equals < text.len() {
            assert(text.contains(text[equals]));
        }
    }
}

/// The head of a field's line is quiet for fields that it does not end in.
proof fn lemma_head_quiet(name: Seq<char>, mark: char, field: Seq<char>, open: char)
    requires
        is_name(name),
        is_name(field),
        !ends_in(name, field),
        mark == '"' || mark == '[',
    ensures
        is_quiet("    "@ + name + " = "@ + seq![mark], field, open),
{
    reveal_strlit("    ");
    reveal_strlit(" = ");
    let text = "    "@ + name + " = "@ + seq![mark];
    let p = name.len() as int + 5;
    assert(text.len() == name.len() + 8);
    assert(text[p] == '=');
    assert(text[p - 1] == ' ');
    assert(text[p - 2] == name[name.len() - 1]);
    assert(forall|i: int| 0 <= i < name.len() ==> is_word_char(#[trigger] name[i]));
    assert forall|i: int| 0 <= i < text.len() && i != p implies #[trigger] text[i] != '=' by {
        if 4 <= i < 4 + name.len() {
            assert(text[i] == name[i - 4]);
        }
    }
    assert(text.last() == mark);
    assert forall|at: int| 0 <= at < text.len() implies #[trigger] assignment_end(
        text,
        field,
        open,
        at,
    ) is None by {
        let equals = skip_space(text, at + field.len());
        if occurs_at(text, field, at) && equals < text.len() && text[equals] == '=' {
            lemma_skip_space(text, at + field.len());
            assert(equals == p);
            let end = at + field.len();
            assert forall|i: int| at <= i < end implies is_word_char(#[trigger] text[i]) by {
                assert(text.subrange(at, end)[i - at] == text[i]);
                assert(is_word_char(field[i - at]));
            }
            assert(is_word_char(name[name.len() - 1]));
            if end <= p - 2 {
                assert(is_space(text[p - 2]));
            }
            if end == p {
                assert(is_word_char(text[p - 1]));
            }
            assert(end == p - 1);
            if at < 4 {
                assert(is_word_char(text[at]));
            }
            assert(name.skip(name.len() - field.len()) =~= text.subrange(at, end));
        }
    }
}

/// A value and its closing quote are quiet.
proof fn lemma_value_quiet(value: Seq<char>, field: Seq<char>, open: char)
    requires
        !assigns(value, field, open),
        is_name(field),
    ensures
        is_quiet(value.push('"'), field, open),
{
    let text = value.push('"');
    assert forall|at: int| 0 <= at < text.len() implies #[trigger] assignment_end(
        text,
        field,
        open,
        at,
    ) is None by {
        if at == value.len() && occurs_at(text, field, at) {
            assert(text.subrange(at, at + field.len())[0] == text[at]);
            assert(is_word_char(field[0]));
        }
    }
}

proof fn lemma_line_end_quiet(field: Seq<char>, open: char)
    requires
        field.len() > 0,
    ensures
        is_quiet(",\n"@, field, open),
        is_quiet("    ],\n"@, field, open),
        is_quiet("rust_crate(\n"@, field, open),
        is_quiet(")\n"@, field, open),
        is_quiet(")"@, field, open),
        is_quiet("        \""@, field, open),
{
    reveal_strlit(",\n");
    reveal_strlit("    ],\n");
    reveal_strlit("rust_crate(\n");
    reveal_strlit(")\n");
    reveal_strlit(")");
    reveal_strlit("        \"");
    lemma_no_equals_quiet(",\n"@, field, open);
    lemma_no_equals_quiet("    ],\n"@, field, open);
    lemma_no_equals_quiet("rust_crate(\n"@, field, open);
    lemma_no_equals_quiet(")\n"@, field, open);
    lemma_no_equals_quiet(")"@, field, open);
    lemma_no_equals_quiet("        \""@, field, open);
}

/// The parts of a field's line.
proof fn lemma_field_line_parts(name: Seq<char>, value: Seq<char>)
    ensures
        field_line(name, value) == ("    "@ + name + " = "@ + seq!['"']) + value.push('"') + ",\n"@,
{
    reveal_strlit("    ");
    reveal_strlit(" = ");
    reveal_strlit(" = \"");
    reveal_strlit("\",\n");
    reveal_strlit(",\n");
    assert(field_line(name, value) =~= ("    "@ + name + " = "@ + seq!['"']) + value.push('"')
        + ",\n"@);
}

/// The parts of a list's first line.
proof fn lemma_list_head_parts(name: Seq<char>)
    ensures
        "    "@ + name + " = [\n"@ == ("    "@ + name + " = "@ + seq!['[']) + seq!['\n'],
{
    reveal_strlit("    ");
    reveal_strlit(" = ");
    reveal_strlit(" = [\n");
    assert("    "@ + name + " = [\n"@ =~= ("    "@ + name + " = "@ + seq!['[']) + seq!['\n']);
}

proof fn lemma_field_line_quiet(name: Seq<char>, value: Seq<char>, field: Seq<char>, open: char)
    requires
        is_name(name),
        is_name(field),
        !ends_in(name, field),
        !assigns(value, field, open),
    ensures
        is_quiet(field_line(name, value), field, open),
{
    lemma_field_line_parts(name, value);
    lemma_head_quiet(name, '"', field, open);
    lemma_value_quiet(value, field, open);
    lemma_line_end_quiet(field, open);
    let head = "    "@ + name + " = "@ + seq!['"'];
    lemma_quiet_concat(head, value.push('"'), field, open);
    lemma_quiet_concat(head + value.push('"'), ",\n"@, field, open);
}

/// The line of one item of a list.
spec fn item_line(item: Seq<char>) -> Seq<char> {
    "        \""@ + item + "\",\n"@
}

proof fn lemma_item_lines_quiet(items: Seq<Seq<char>>, field: Seq<char>, open: char)
    requires
        is_name(field),
        forall|i: int| 0 <= i < items.len() ==> !assigns(#[trigger] items[i], field, open),
    ensures
        is_quiet(item_lines(items), field, open),
    decreases items.len(),
{
    if items.len() > 0 {
        let item = items.last();
        let rest = items.drop_last();
        assert forall|i: int| 0 <= i < rest.len() implies !assigns(
            #[trigger] rest[i],
            field,
            open,
        ) by {
            assert(!assigns(items[i], field, open));
        }
        assert(!assigns(items[items.len() - 1], field, open));
        lemma_item_lines_quiet(rest, field, open);
        lemma_value_quiet(item, field, open);
        lemma_line_end_quiet(field, open);
        reveal_strlit("\",\n");
        reveal_strlit(",\n");
        assert(item_line(item) =~= "        \""@ + item.push('"') + ",\n"@);
        lemma_quiet_concat("        \""@, item.push('"'), field, open);
        lemma_quiet_concat("        \""@ + item.push('"'), ",\n"@, field, open);
        lemma_quiet_concat(item_lines(rest), item_line(item), field, open);
    }
}

proof fn lemma_list_lines_quiet(
    name: Seq<char>,
    items: Seq<Seq<char>>,
    field: Seq<char>,
    open: char,
)
    requires
        is_name(name),
        is_name(field),
        !ends_in(name, field),
        forall|i: int| 0 <= i < items.len() ==> !assigns(#[trigger] items[i], field, open),
    ensures
        is_quiet(list_lines(name, items), field, open),
{
    if items.len() > 0 {
        let head = "    "@ + name + " = "@ + seq!['['];
        lemma_list_head_parts(name);
        lemma_head_quiet(name, '[', field, open);
        let line = head + seq!['\n'];
        assert forall|at: int| 0 <= at < line.len() implies #[trigger] assignment_end(
            line,
            field,
            open,
            at,
        ) is None by {
            if at < head.len() {
                lemma_sealed(head, seq!['\n'], field, open, at);
            } else if occurs_at(line, field, at) {
                assert(line.subrange(at, at + field.len())[0] == line[at]);
                assert(is_word_char(field[0]));
            }
        }
        assert(line.last() == '\n');
        assert(line[line.len() - 2] == '[');
        assert(is_quiet(line, field, open));
        lemma_item_lines_quiet(items, field, open);
        lemma_line_end_quiet(field, open);
        lemma_quiet_concat(line, item_lines(items), field, open);
        lemma_quiet_concat(line + item_lines(items), "    ],\n"@, field, open);
    }
}

/// After a quiet text, the first assignment is that of the rest.
proof fn lemma_first_after_quiet(a: Seq<char>, b: Seq<char>, field: Seq<char>, open: char, from: int)
    requires
        is_name(field),
        is_quiet(a, field, open),
        0 <= from <= a.len(),
    ensures
        first_assignment(a + b, field, open, from) == first_assignment(
            a + b,
            field,
            open,
            a.len() as int,
        ),
    decreases a.len() - from,
{
    if from < a.len() {
        lemma_sealed(a, b, field, open, from);
        assert(assignment_end(a, field, open, from) is None);
        lemma_first_after_quiet(a, b, field, open, from + 1);
    }
}

/// A quiet text has no assignment.
proof fn lemma_quiet_none(a: Seq<char>, field: Seq<char>, open: char)
    requires
        is_name(field),
        is_quiet(a, field, open),
    ensures
        first_assignment(a, field, open, 0) is None,
{
    assert(a + Seq::<char>::empty() =~= a);
    lemma_first_after_quiet(a, Seq::empty(), field, open, 0);
}

/// The head of a field's line after a quiet text is the field's first assignment.
proof fn lemma_first_at_head(a: Seq<char>, field: Seq<char>, open: char, b: Seq<char>)
    requires
        is_name(field),
        is_quiet(a, field, open),
        open == '"' || open == '[',
    ensures
        first_assignment(a + ("    "@ + field + " = "@ + seq![open]) + b, field, open, 0) == Some(
            (a.len() + 4int, a.len() + field.len() + 8int),
        ),
{
    reveal_strlit("    ");
    reveal_strlit(" = ");
    let head = "    "@ + field + " = "@ + seq![open];
    let rest = head + b;
    let text = a + head + b;
    assert(text =~= a + rest);
    lemma_first_after_quiet(a, rest, field, open, 0);
    let n = a.len() as int;
    assert(first_assignment(text, field, open, n) == first_assignment(text, field, open, n + 4))
        by {
        lemma_indent(text, field, open, n, n + 4);
    }
    let k = n + 4;
    let m = field.len() as int;
    assert(text.subrange(k, k + m) =~= field);
    assert(text[k + m] == ' ');
    assert(text[k + m + 1] == '=');
    assert(text[k + m + 2] == ' ');
    assert(text[k + m + 3] == open);
    assert(skip_space(text, k + m + 1) == k + m + 1);
    assert(skip_space(text, k + m) == k + m + 1);
    assert(skip_space(text, k + m + 3) == k + m + 3);
    assert(skip_space(text, k + m + 2) == k + m + 3);
    assert(assignment_end(text, field, open, k) == Some(k + m + 4));
}

/// No assignment starts at a space.
proof fn lemma_indent(text: Seq<char>, field: Seq<char>, open: char, from: int, to: int)
    requires
        0 <= from <= to <= text.len(),
        forall|i: int| from <= i < to ==> text[i] == ' ',
        is_name(field),
    ensures
        first_assignment(text, field, open, from) == first_assignment(text, field, open, to),
    decreases to - from,
{
    if from < to {
        if occurs_at(text, field, from) {
            assert(text.subrange(from, from + field.len())[0] == text[from]);
            assert(is_word_char(field[0]));
        }
        lemma_indent(text, field, open, from + 1, to);
    }
}

/// The value of a field that holds a string.
spec fn field_value(c: CrateSpec, k: int) -> Option<Seq<char>> {
    if field_values(c, k).len() > 0 {
        Some(field_values(c, k)[0])
    } else {
        None
    }
}

/// The lines of a field.
spec fn field_lines(c: CrateSpec, k: int) -> Seq<char> {
    if is_list(k) {
        list_lines(field_name(k), field_values(c, k))
    } else {
        optional_line(field_name(k), field_value(c, k))
    }
}

/// A block up to its field `k`.
spec fn block_upto(c: CrateSpec, k: int) -> Seq<char>
    decreases k,
{
    if k <= 0 {
        "rust_crate(\n"@
    } else {
        block_upto(c, k - 1) + field_lines(c, k - 1)
    }
}

proof fn lemma_field_names(j: int, k: int)
    requires
        0 <= j < 8,
        0 <= k < 8,
    ensures
        is_name(field_name(k)),
        j != k ==> !ends_in(field_name(j), field_name(k)),
{
    lemma_field_words();
    reveal_strlit("name");
    reveal_strlit("crate");
    reveal_strlit("version");
    reveal_strlit("edition");
    reveal_strlit("features");
    reveal_strlit("deps");
    reveal_strlit("crate_type");
    reveal_strlit("build_root");
    let a = field_name(j);
    let b = field_name(k);
    if j != k && ends_in(a, b) {
        let tail = a.skip(a.len() - b.len());
        assert(tail[b.len() - 1] == a[a.len() - 1]);
        assert(tail[b.len() - 2] == a[a.len() - 2]);
        assert(tail[b.len() - 4] == a[a.len() - 4]);
    }
}

/// A block whose fields are followed by `end`.
spec fn block_ending(c: CrateSpec, end: Seq<char>) -> Seq<char> {
    block_upto(c, 8) + end
}

proof fn lemma_block_parts(c: CrateSpec, end: Seq<char>, k: int) -> (rest: Seq<char>)
    requires
        0 <= k <= 8,
    ensures
        block_ending(c, end) == block_upto(c, k) + rest,
        k == 8 ==> rest == end,
        k < 8 ==> rest.len() >= field_lines(c, k).len() && rest.take(
            field_lines(c, k).len() as int,
        ) == field_lines(c, k),
    decreases 8 - k,
{
    if k == 8 {
        end
    } else {
        let after = lemma_block_parts(c, end, k + 1);
        let rest = field_lines(c, k) + after;
        assert(block_upto(c, k + 1) + after =~= block_upto(c, k) + rest);
        assert(rest.take(field_lines(c, k).len() as int) =~= field_lines(c, k));
        rest
    }
}

proof fn lemma_upto_quiet(c: CrateSpec, k: int, f: int)
    requires
        is_readable(c),
        0 <= k <= 8,
        0 <= f < 8,
        f >= k || field_values(c, f).len() == 0,
    ensures
        is_quiet(block_upto(c, k), field_name(f), field_open(f)),
    decreases k,
{
    let field = field_name(f);
    let open = field_open(f);
    lemma_field_names(f, f);
    if k <= 0 {
        lemma_line_end_quiet(field, open);
    } else {
        let j = k - 1;
        lemma_upto_quiet(c, j, f);
        if j != f {
            lemma_field_names(j, f);
            lemma_field_names(f, j);
            assert forall|i: int| 0 <= i < field_values(c, j).len() implies !assigns(
                #[trigger] field_values(c, j)[i],
                field,
                open,
            ) by {
                assert(field_name(f) == field);
            }
            if is_list(j) {
                lemma_list_lines_quiet(field_name(j), field_values(c, j), field, open);
            } else if field_value(c, j) is Some {
                lemma_field_line_quiet(field_name(j), field_value(c, j)->0, field, open);
            }
        }
        lemma_quiet_concat(block_upto(c, j), field_lines(c, j), field, open);
    }
}

/// A field that was left out has no assignment.
proof fn lemma_absent_field(c: CrateSpec, end: Seq<char>, f: int)
    requires
        is_readable(c),
        end == ")\n"@ || end == ")"@,
        0 <= f < 8,
        field_values(c, f).len() == 0,
    ensures
        first_assignment(block_ending(c, end), field_name(f), field_open(f), 0) is None,
{
    lemma_field_names(f, f);
    lemma_upto_quiet(c, 8, f);
    lemma_line_end_quiet(field_name(f), field_open(f));
    lemma_quiet_concat(block_upto(c, 8), end, field_name(f), field_open(f));
    lemma_quiet_none(block_ending(c, end), field_name(f), field_open(f));
}

proof fn lemma_until_quote(value: Seq<char>, rest: Seq<char>)
    requires
        !value.contains('"'),
    ensures
        until_quote(value.push('"') + rest) == Some(value),
{
    let text = value.push('"') + rest;
    lemma_find_char(text, '"', 0);
    let end = find_char(text, '"', 0);
    assert(text[value.len() as int] == '"');
    if end < value.len() {
        assert(text[end] == value[end]);
        assert(value.contains(value[end]));
    }
    assert(text.take(end) =~= value);
}

proof fn lemma_string_field(c: CrateSpec, end: Seq<char>, f: int)
    requires
        is_readable(c),
        end == ")\n"@ || end == ")"@,
        0 <= f < 8,
        !is_list(f),
    ensures
        string_field(block_ending(c, end), field_name(f)) == field_value(c, f),
{
    let name = field_name(f);
    match field_value(c, f) {
        Some(value) => {
            lemma_field_names(f, f);
            lemma_upto_quiet(c, f, f);
            lemma_field_line_parts(name, value);
            let rest = lemma_block_parts(c, end, f);
            let line = field_line(name, value);
            let head = "    "@ + name + " = "@ + seq!['"'];
            let before = block_upto(c, f);
            let after = value.push('"') + (",\n"@ + rest.skip(line.len() as int));
            assert(rest =~= line + rest.skip(line.len() as int));
            assert(block_ending(c, end) =~= before + head + after);
            lemma_first_at_head(before, name, '"', after);
            reveal_strlit("    ");
            reveal_strlit(" = ");
            assert((before + head + after).skip(before.len() + name.len() + 8int) =~= after);
            lemma_until_quote(value, ",\n"@ + rest.skip(line.len() as int));
        },
        None => {
            lemma_absent_field(c, end, f);
        },
    }
}

proof fn lemma_bracket_shift(a: Seq<char>, b: Seq<char>, from: int, depth: int)
    requires
        0 <= from,
    ensures
        closing_bracket(a + b, a.len() + from, depth) == match closing_bracket(b, from, depth) {
            Some(end) => Some(a.len() + end),
            None => None,
        },
    decreases b.len() - from,
{
    if from < b.len() {
        assert((a + b)[a.len() + from] == b[from]);
        lemma_bracket_shift(a, b, from + 1, depth + 1);
        lemma_bracket_shift(a, b, from + 1, depth - 1);
        lemma_bracket_shift(a, b, from + 1, depth);
    }
}

/// A list that is closed in the first text is closed there in the whole text.
proof fn lemma_bracket_inside(a: Seq<char>, b: Seq<char>, from: int, depth: int)
    requires
        0 <= from,
        closing_bracket(a, from, depth) is Some,
    ensures
        closing_bracket(a + b, from, depth) == closing_bracket(a, from, depth),
    decreases a.len() - from,
{
    assert((a + b)[from] == a[from]);
    if a[from] == '[' {
        lemma_bracket_inside(a, b, from + 1, depth + 1);
    } else if a[from] == ']' {
        if depth != 1 {
            lemma_bracket_inside(a, b, from + 1, depth - 1);
        }
    } else {
        lemma_bracket_inside(a, b, from + 1, depth);
    }
}

/// The first item's line comes first.
proof fn lemma_item_lines_front(items: Seq<Seq<char>>)
    requires
        items.len() > 0,
    ensures
        item_lines(items) == item_line(items[0]) + item_lines(items.drop_first()),
    decreases items.len(),
{
    if items.len() == 1 {
        assert(items.drop_last() =~= Seq::<Seq<char>>::empty());
        assert(items.drop_first() =~= Seq::<Seq<char>>::empty());
        reveal_with_fuel(item_lines, 2);
        assert(item_lines(items) =~= item_line(items[0]) + item_lines(items.drop_first()));
    } else {
        lemma_item_lines_front(items.drop_last());
        let rest = items.drop_first();
        assert(items.drop_last().drop_first() =~= rest.drop_last());
        assert(rest.last() == items.last());
        assert(item_line(items[0]) + item_lines(rest.drop_last()) + item_line(items.last())
            =~= item_line(items[0]) + (item_lines(rest.drop_last()) + item_line(items.last())));
    }
}

/// One quoted text, after a text without quotes.
pub proof fn lemma_quoted_first(before: Seq<char>, item: Seq<char>, after: Seq<char>)
    requires
        !before.contains('"'),
        !item.contains('"'),
    ensures
        quoted(before + seq!['"'] + item + seq!['"'] + after) == seq![item] + quoted(after),
{
    let text = before + seq!['"'] + item + seq!['"'] + after;
    lemma_find_char(text, '"', 0);
    let start = find_char(text, '"', 0);
    let n = before.len() as int;
    let m = item.len() as int;
    assert(text[n] == '"');
    if start < n {
        assert(text[start] == before[start]);
        assert(before.contains(before[start]));
    }
    assert(start == n);
    lemma_find_char(text, '"', n + 1);
    let end = find_char(text, '"', n + 1);
    assert(text[n + 1 + m] == '"');
    if end < n + 1 + m {
        assert(text[end] == item[end - n - 1]);
        assert(item.contains(item[end - n - 1]));
    }
    assert(text.subrange(start + 1, end) =~= item);
    assert(text.skip(end + 1) =~= after);
}

pub proof fn lemma_quoted_none(text: Seq<char>)
    requires
        !text.contains('"'),
    ensures
        quoted(text) == Seq::<Seq<char>>::empty(),
{
    lemma_find_char(text, '"', 0);
    let start = find_char(text, '"', 0);
    if start < text.len() {
        assert(text.contains(text[start]));
    }
}

proof fn lemma_quoted_items(before: Seq<char>, items: Seq<Seq<char>>, after: Seq<char>)
    requires
        !before.contains('"'),
        !after.contains('"'),
        forall|i: int| 0 <= i < items.len() ==> !(#[trigger] items[i]).contains('"'),
    ensures
        quoted(before + item_lines(items) + after) == items,
    decreases items.len(),
{
    if items.len() == 0 {
        let text = before + item_lines(items) + after;
        assert forall|i: int| 0 <= i < text.len() implies #[trigger] text[i] != '"' by {
            if i < before.len() {
                assert(before.contains(before[i]));
            } else {
                assert(after.contains(after[i - before.len()]));
            }
        }
        lemma_quoted_none(text);
        assert(items =~= Seq::<Seq<char>>::empty());
    } else {
        let rest = items.drop_first();
        assert(!items[0].contains('"'));
        assert forall|i: int| 0 <= i < rest.len() implies !(#[trigger] rest[i]).contains('"') by {
            assert(!items[i + 1].contains('"'));
        }
        reveal_strlit("        \"");
        reveal_strlit("\",\n");
        reveal_strlit("        ");
        reveal_strlit(",\n");
        lemma_item_lines_front(items);
        let indent = before + "        "@;
        let remaining = ",\n"@ + item_lines(rest) + after;
        assert forall|i: int| 0 <= i < indent.len() implies #[trigger] indent[i] != '"' by {
            if i < before.len() {
                assert(before.contains(before[i]));
            }
        }
        lemma_quoted_items(",\n"@, rest, after);
        lemma_quoted_first(indent, items[0], remaining);
        assert(before + item_lines(items) + after =~= indent + seq!['"'] + items[0] + seq!['"']
            + remaining);
        assert(seq![items[0]] + rest =~= items);
    }
}

/// What stands in the brackets of a list's lines.
proof fn lemma_list_content(items: Seq<Seq<char>>, tail: Seq<char>)
    requires
        is_closed_after(items),
        forall|i: int| 0 <= i < items.len() ==> !(#[trigger] items[i]).contains('"'),
    ensures
        quoted(until_bracket(seq!['\n'] + (item_lines(items) + "    ]"@ + tail))) == items,
{
    let newline = seq!['\n'];
    let closed = item_lines(items) + "    ]"@;
    let after = newline + (closed + tail);
    lemma_bracket_inside(closed, tail, 0, 1);
    lemma_bracket_shift(newline, closed + tail, 0, 1);
    let content = until_bracket(after);
    assert(after[0] == '\n');
    assert(closing_bracket(after, 0, 1) == closing_bracket(after, 1, 1));
    reveal_strlit("    ]");
    reveal_strlit("    ");
    assert(content =~= newline + item_lines(items) + "    "@);
    lemma_quoted_items(newline, items, "    "@);
}

/// The parts of a list's lines.
proof fn lemma_list_lines_parts(name: Seq<char>, items: Seq<Seq<char>>)
    requires
        items.len() > 0,
    ensures
        list_lines(name, items) == ("    "@ + name + " = "@ + seq!['[']) + (seq!['\n'] + (
        item_lines(items) + "    ]"@ + ",\n"@)),
{
    lemma_list_head_parts(name);
    assert("    ],\n"@ =~= "    ]"@ + ",\n"@) by {
        reveal_strlit("    ],\n");
        reveal_strlit("    ]");
        reveal_strlit(",\n");
    }
    let head = "    "@ + name + " = "@ + seq!['['];
    assert(head + seq!['\n'] + item_lines(items) + ("    ]"@ + ",\n"@) =~= head + (seq!['\n'] + (
    item_lines(items) + "    ]"@ + ",\n"@)));
}

/// The lines of a list after a quiet text.
proof fn lemma_list_found(
    before: Seq<char>,
    name: Seq<char>,
    items: Seq<Seq<char>>,
    tail: Seq<char>,
)
    requires
        is_name(name),
        is_quiet(before, name, '['),
        is_closed_after(items),
        forall|i: int| 0 <= i < items.len() ==> !(#[trigger] items[i]).contains('"'),
        items.len() > 0,
    ensures
        list_field(before + (list_lines(name, items) + tail), name) == items,
{
    lemma_list_lines_parts(name, items);
    let head = "    "@ + name + " = "@ + seq!['['];
    let after = seq!['\n'] + (item_lines(items) + "    ]"@ + (",\n"@ + tail));
    let text = before + (list_lines(name, items) + tail);
    assert(text =~= before + head + after);
    lemma_first_at_head(before, name, '[', after);
    assert((before + head).len() == before.len() + name.len() + 8) by {
        reveal_strlit("    ");
        reveal_strlit(" = ");
    }
    assert(text.skip(before.len() + name.len() + 8int) =~= after);
    lemma_list_content(items, ",\n"@ + tail);
}

proof fn lemma_list_field(c: CrateSpec, end: Seq<char>, f: int)
    requires
        is_readable(c),
        end == ")\n"@ || end == ")"@,
        0 <= f < 8,
        is_list(f),
    ensures
        list_field(block_ending(c, end), field_name(f)) == field_values(c, f),
{
    let name = field_name(f);
    let items = field_values(c, f);
    if items.len() == 0 {
        lemma_absent_field(c, end, f);
        assert(items =~= Seq::<Seq<char>>::empty());
    } else {
        lemma_field_names(f, f);
        lemma_upto_quiet(c, f, f);
        let rest = lemma_block_parts(c, end, f);
        let lines = list_lines(name, items);
        let tail = rest.skip(lines.len() as int);
        assert(rest =~= lines + tail);
        lemma_list_found(block_upto(c, f), name, items, tail);
    }
}

proof fn lemma_block_reads_back(c: CrateSpec, end: Seq<char>)
    requires
        is_readable(c),
        end == ")\n"@ || end == ")"@,
    ensures
        single_crate(block_ending(c, end)) == Some(as_read(c, block_ending(c, end))),
{
    lemma_string_field(c, end, 0);
    lemma_string_field(c, end, 1);
    lemma_string_field(c, end, 2);
    lemma_string_field(c, end, 3);
    lemma_string_field(c, end, 4);
    lemma_list_field(c, end, 5);
    lemma_list_field(c, end, 6);
    lemma_string_field(c, end, 7);
}

proof fn lemma_crate_block(c: CrateSpec)
    ensures
        crate_block(c) == block_ending(c, ")\n"@),
        crate_block(c).drop_last() == block_ending(c, ")"@),
        crate_block(c) == block_ending(c, ")"@) + seq!['\n'],
{
    reveal_with_fuel(block_upto, 9);
    reveal_strlit(")\n");
    reveal_strlit(")");
    assert(crate_block(c) =~= block_ending(c, ")\n"@));
    assert(crate_block(c).drop_last() =~= block_ending(c, ")"@));
    assert(crate_block(c) =~= block_ending(c, ")"@) + seq!['\n']);
}

/// The definition as it is read from the text of its block.
pub open spec fn as_read(c: CrateSpec, text: Seq<char>) -> CrateSpec {
    CrateSpec {
        raw_text: text,
        preceding_content: Seq::empty(),
        pinned: false,
        modified: false,
        ..c
    }
}

/// The block that is written for a definition reads back as that definition, with or without the
/// newline at its end.
pub proof fn block_reads_back(c: CrateSpec)
    requires
        is_readable(c),
    ensures
        single_crate(crate_block(c)) == Some(as_read(c, crate_block(c))),
        single_crate(crate_block(c).drop_last()) == Some(as_read(c, crate_block(c).drop_last())),
{
    lemma_crate_block(c);
    lemma_block_reads_back(c, ")\n"@);
    lemma_block_reads_back(c, ")"@);
}

/// Whether the text holds no quote and no equals sign.
pub open spec fn is_plain(text: Seq<char>) -> bool {
    !text.contains('"') && !text.contains('=')
}

/// Whether the text holds neither `open` nor `close`.
pub open spec fn is_flat(text: Seq<char>, open: char, close: char) -> bool {
    !text.contains(open) && !text.contains(close)
}

/// Whether everything that a block holds of the definition is plain text, and no item of a list
/// holds a bracket.
pub open spec fn is_plain_crate(c: CrateSpec) -> bool {
    &&& forall|k: int, i: int|
        0 <= k < 8 && 0 <= i < field_values(c, k).len() ==> is_plain(#[trigger] field_values(c, k)[i])
    &&& forall|i: int| 0 <= i < c.features.len() ==> is_flat(#[trigger] c.features[i], '[', ']')
    &&& forall|i: int| 0 <= i < c.deps.len() ==> is_flat(#[trigger] c.deps[i], '[', ']')
}

/// Whether nothing that a block holds of the definition holds a parenthesis.
pub open spec fn is_flat_crate(c: CrateSpec) -> bool {
    forall|k: int, i: int|
        0 <= k < 8 && 0 <= i < field_values(c, k).len() ==> is_flat(
            #[trigger] field_values(c, k)[i],
            '(',
            ')',
        )
}

proof fn lemma_plain_value(text: Seq<char>, field: Seq<char>, open: char)
    requires
        is_plain(text),
        field.len() > 0,
    ensures
        !assigns(text, field, open),
{
    let closed = text.push('"');
    assert forall|i: int| 0 <= i < closed.len() implies #[trigger] closed[i] != '=' by {
        if i < text.len() {
            assert(text.contains(text[i]));
        }
    }
    lemma_no_equals_quiet(closed, field, open);
}

proof fn lemma_flat_concat(a: Seq<char>, b: Seq<char>, open: char, close: char)
    requires
        is_flat(a, open, close),
        is_flat(b, open, close),
    ensures
        is_flat(a + b, open, close),
{
    let t = a + b;
    assert forall|i: int| 0 <= i < t.len() implies a.contains(#[trigger] t[i]) || b.contains(t[i]) by {
        if i < a.len() {
            assert(t[i] == a[i]);
        } else {
            assert(t[i] == b[i - a.len()]);
        }
    }
}

spec fn is_pair(open: char, close: char) -> bool {
    open == '[' && close == ']' || open == '(' && close == ')'
}

proof fn lemma_flat_literals(open: char, close: char)
    requires
        is_pair(open, close),
    ensures
        is_flat("    "@, open, close),
        is_flat(" = \""@, open, close),
        is_flat("\",\n"@, open, close),
        is_flat("        \""@, open, close),
        open == '(' ==> is_flat(" = [\n"@, open, close),
        open == '(' ==> is_flat("    ],\n"@, open, close),
{
    reveal_strlit("    ");
    reveal_strlit(" = \"");
    reveal_strlit("\",\n");
    reveal_strlit("        \"");
    reveal_strlit(" = [\n");
    reveal_strlit("    ],\n");
}

proof fn lemma_flat_line(field: Seq<char>, value: Seq<char>)
    requires
        is_name(field),
        is_flat(value, '(', ')'),
    ensures
        is_flat(field_line(field, value), '(', ')'),
{
    lemma_flat_literals('(', ')');
    lemma_flat_word(field);
    let a = "    "@ + field;
    let b = a + " = \""@;
    lemma_flat_concat("    "@, field, '(', ')');
    lemma_flat_concat(a, " = \""@, '(', ')');
    lemma_flat_concat(b, value, '(', ')');
    lemma_flat_concat(b + value, "\",\n"@, '(', ')');
}

proof fn lemma_flat_word(word: Seq<char>)
    requires
        is_name(word),
    ensures
        is_flat(word, '(', ')'),
{
    assert forall|i: int| 0 <= i < word.len() implies is_word_char(#[trigger] word[i]) by {}
}

proof fn lemma_flat_items(items: Seq<Seq<char>>, open: char, close: char)
    requires
        is_pair(open, close),
        forall|i: int| 0 <= i < items.len() ==> is_flat(#[trigger] items[i], open, close),
    ensures
        is_flat(item_lines(items), open, close),
    decreases items.len(),
{
    if items.len() > 0 {
        let rest = items.drop_last();
        assert forall|i: int| 0 <= i < rest.len() implies is_flat(#[trigger] rest[i], open, close) by {
            assert(is_flat(items[i], open, close));
        }
        assert(is_flat(items[items.len() - 1], open, close));
        lemma_flat_items(rest, open, close);
        lemma_flat_literals(open, close);
        lemma_flat_concat("        \""@, items.last(), open, close);
        lemma_flat_concat("        \""@ + items.last(), "\",\n"@, open, close);
        lemma_flat_concat(item_lines(rest), item_line(items.last()), open, close);
    }
}

proof fn lemma_flat_list(field: Seq<char>, items: Seq<Seq<char>>)
    requires
        is_name(field),
        forall|i: int| 0 <= i < items.len() ==> is_flat(#[trigger] items[i], '(', ')'),
    ensures
        is_flat(list_lines(field, items), '(', ')'),
{
    if items.len() > 0 {
        lemma_flat_literals('(', ')');
        lemma_flat_word(field);
        lemma_flat_items(items, '(', ')');
        let a = "    "@ + field;
        let b = a + " = [\n"@;
        lemma_flat_concat("    "@, field, '(', ')');
        lemma_flat_concat(a, " = [\n"@, '(', ')');
        lemma_flat_concat(b, item_lines(items), '(', ')');
        lemma_flat_concat(b + item_lines(items), "    ],\n"@, '(', ')');
    }
}

pub proof fn lemma_paren_shift(a: Seq<char>, b: Seq<char>, from: int, depth: int)
    requires
        0 <= from,
    ensures
        closing_paren(a + b, a.len() + from, depth) == a.len() + closing_paren(b, from, depth),
    decreases b.len() - from,
{
    if depth > 0 && from < b.len() {
        assert((a + b)[a.len() + from] == b[from]);
        lemma_paren_shift(a, b, from + 1, depth + 1);
        lemma_paren_shift(a, b, from + 1, depth - 1);
        lemma_paren_shift(a, b, from + 1, depth);
    }
}

/// A text without brackets closes none.
proof fn lemma_flat_bracket(a: Seq<char>, b: Seq<char>, from: int, depth: int)
    requires
        is_flat(a, '[', ']'),
        0 <= from <= a.len(),
    ensures
        closing_bracket(a + b, from, depth) == closing_bracket(a + b, a.len() as int, depth),
    decreases a.len() - from,
{
    if from < a.len() {
        assert((a + b)[from] == a[from]);
        assert(a.contains(a[from]));
        lemma_flat_bracket(a, b, from + 1, depth);
    }
}

/// A text without parentheses closes none.
proof fn lemma_flat_paren(a: Seq<char>, b: Seq<char>, from: int, depth: int)
    requires
        is_flat(a, '(', ')'),
        0 <= from <= a.len(),
        depth > 0,
    ensures
        closing_paren(a + b, from, depth) == closing_paren(a + b, a.len() as int, depth),
    decreases a.len() - from,
{
    if from < a.len() {
        assert((a + b)[from] == a[from]);
        assert(a.contains(a[from]));
        lemma_flat_paren(a, b, from + 1, depth);
    }
}

proof fn lemma_flat_list_closes(items: Seq<Seq<char>>)
    requires
        forall|i: int| 0 <= i < items.len() ==> is_flat(#[trigger] items[i], '[', ']'),
    ensures
        is_closed_after(items),
{
    lemma_flat_items(items, '[', ']');
    let lines = item_lines(items);
    let text = lines + "    ]"@;
    reveal_strlit("    ]");
    lemma_flat_bracket(lines, "    ]"@, 0, 1);
    let n = lines.len() as int;
    assert(text[n] == ' ' && text[n + 1] == ' ' && text[n + 2] == ' ' && text[n + 3] == ' ');
    assert(text[n + 4] == ']');
    assert(closing_bracket(text, n + 4, 1) == Some(n + 4));
    assert(closing_bracket(text, n + 3, 1) == Some(n + 4));
    assert(closing_bracket(text, n + 2, 1) == Some(n + 4));
    assert(closing_bracket(text, n + 1, 1) == Some(n + 4));
}

/// A block can hold all of a definition that is plain text.
pub proof fn plain_crate_is_readable(c: CrateSpec)
    requires
        is_plain_crate(c),
    ensures
        is_readable(c),
{
    assert forall|k: int, i: int, f: int|
        0 <= k < 8 && 0 <= f < 8 && 0 <= i < field_values(c, k).len() implies !assigns(
        #[trigger] field_values(c, k)[i],
        #[trigger] field_name(f),
        field_open(f),
    ) by {
        lemma_field_names(f, f);
        lemma_plain_value(field_values(c, k)[i], field_name(f), field_open(f));
    }
    lemma_flat_list_closes(c.features);
    lemma_flat_list_closes(c.deps);
}

/// The lines of a block's first fields, after the line that opens it.
spec fn lines_upto(c: CrateSpec, k: int) -> Seq<char>
    decreases k,
{
    if k <= 0 {
        "\n"@
    } else {
        lines_upto(c, k - 1) + field_lines(c, k - 1)
    }
}

proof fn lemma_lines_flat(c: CrateSpec, k: int)
    requires
        is_flat_crate(c),
        0 <= k <= 8,
    ensures
        is_flat(lines_upto(c, k), '(', ')'),
        block_upto(c, k) == "rust_crate("@ + lines_upto(c, k),
    decreases k,
{
    if k <= 0 {
        reveal_strlit("\n");
        reveal_strlit("rust_crate(");
        reveal_strlit("rust_crate(\n");
        assert("rust_crate(\n"@ =~= "rust_crate("@ + "\n"@);
    } else {
        let j = k - 1;
        lemma_lines_flat(c, j);
        lemma_field_names(j, j);
        assert forall|i: int| 0 <= i < field_values(c, j).len() implies is_flat(
            #[trigger] field_values(c, j)[i],
            '(',
            ')',
        ) by {}
        if is_list(j) {
            lemma_flat_list(field_name(j), field_values(c, j));
        } else if field_value(c, j) is Some {
            lemma_flat_line(field_name(j), field_value(c, j)->0);
        }
        lemma_flat_concat(lines_upto(c, j), field_lines(c, j), '(', ')');
        assert("rust_crate("@ + lines_upto(c, j) + field_lines(c, j) =~= "rust_crate("@ + (
        lines_upto(c, j) + field_lines(c, j)));
    }
}

/// The last parenthesis of the block of a definition without parentheses closes the block.
pub proof fn flat_crate_is_block(c: CrateSpec)
    requires
        is_flat_crate(c),
    ensures
        is_block(crate_block(c).drop_last()),
{
    lemma_crate_block(c);
    lemma_lines_flat(c, 8);
    let open = "rust_crate("@;
    let lines = lines_upto(c, 8);
    let block = crate_block(c).drop_last();
    let tail = seq![')', '\n'];
    reveal_strlit("rust_crate(");
    reveal_strlit(")");
    assert(block =~= open + lines + ")"@);
    assert(block.subrange(0, 11) =~= open);
    assert(block.push('\n') =~= open + (lines + tail));
    lemma_paren_shift(open, lines + tail, 0, 1);
    lemma_flat_paren(lines, tail, 0, 1);
    let n = lines.len() as int;
    assert((lines + tail)[n] == ')');
    assert(closing_paren(lines + tail, n + 1, 0) == n + 1);
}

/// A rule of three plain lines and a list of dependencies reads back with that list: where `open`
/// opens the rule and holds no equals sign.
pub proof fn rule_lists_its_dependencies(
    open: Seq<char>,
    name: Seq<char>,
    source: (Seq<char>, Seq<char>),
    edition: Seq<char>,
    items: Seq<Seq<char>>,
)
    requires
        open == "rust_library(\n"@ || open == "rust_binary(\n"@,
        source.0 == "root"@ || source.0 == "main"@,
        is_plain(name),
        is_plain(source.1),
        is_plain(edition),
        forall|i: int|
            0 <= i < items.len() ==> is_plain(#[trigger] items[i]) && is_flat(items[i], '[', ']'),
    ensures
        list_field(
            open + field_line("name"@, name) + field_line(source.0, source.1) + field_line(
                "edition"@,
                edition,
            ) + list_lines("deps"@, items) + ")\n\n"@,
            "deps"@,
        ) == items,
{
    reveal_strlit("rust_library(\n");
    reveal_strlit("rust_binary(\n");
    reveal_strlit(")\n\n");
    reveal_strlit("deps");
    reveal_strlit("root");
    reveal_strlit("main");
    reveal_strlit("name");
    reveal_strlit("edition");
    let deps = "deps"@;
    let tail = ")\n\n"@;
    let lines = list_lines(deps, items);
    lemma_field_names(6, 6);
    lemma_field_names(0, 6);
    lemma_field_names(3, 6);
    assert(is_name("root"@));
    assert(is_name("main"@));
    assert(is_name("name"@)) by {
        lemma_field_names(0, 0);
    }
    assert(is_name("edition"@)) by {
        lemma_field_names(3, 3);
    }
    assert(!ends_in("root"@, deps)) by {
        assert("root"@.skip(0)[0] == 'r');
    }
    assert(!ends_in("main"@, deps)) by {
        assert("main"@.skip(0)[0] == 'm');
    }
    lemma_plain_value(name, deps, '[');
    lemma_plain_value(source.1, deps, '[');
    lemma_plain_value(edition, deps, '[');
    lemma_no_equals_quiet(open, deps, '[');
    lemma_field_line_quiet("name"@, name, deps, '[');
    lemma_field_line_quiet(source.0, source.1, deps, '[');
    lemma_field_line_quiet("edition"@, edition, deps, '[');
    let a = open + field_line("name"@, name);
    let b = a + field_line(source.0, source.1);
    let before = b + field_line("edition"@, edition);
    lemma_quiet_concat(open, field_line("name"@, name), deps, '[');
    lemma_quiet_concat(a, field_line(source.0, source.1), deps, '[');
    lemma_quiet_concat(b, field_line("edition"@, edition), deps, '[');
    let text = before + lines + tail;
    if items.len() == 0 {
        assert(text =~= before + tail);
        assert forall|i: int| 0 <= i < tail.len() implies #[trigger] tail[i] != '=' by {}
        lemma_tail_without_equals(before, tail, deps, '[');
        assert(items =~= Seq::empty());
    } else {
        lemma_flat_list_closes(items);
        assert forall|i: int| 0 <= i < items.len() implies !(#[trigger] items[i]).contains('"') by {
            assert(is_plain(items[i]));
        }
        assert(text =~= before + (lines + tail));
        lemma_list_found(before, deps, items, tail);
    }
}

/// After a quiet text, a text without an equals sign has no assignment.
proof fn lemma_tail_without_equals(a: Seq<char>, b: Seq<char>, field: Seq<char>, open: char)
    requires
        is_name(field),
        is_quiet(a, field, open),
        forall|i: int| 0 <= i < b.len() ==> #[trigger] b[i] != '=',
    ensures
        first_assignment(a + b, field, open, 0) is None,
{
    lemma_first_after_quiet(a, b, field, open, 0);
    lemma_no_assignment_from(a + b, field, open, a.len() as int);
}

proof fn lemma_no_assignment_from(text: Seq<char>, field: Seq<char>, open: char, from: int)
    requires
        0 <= from <= text.len(),
        forall|i: int| from <= i < text.len() ==> #[trigger] text[i] != '=',
    ensures
        first_assignment(text, field, open, from) is None,
    decreases text.len() - from,
{
    if from < text.len() {
        lemma_skip_space_bounds(text, from + field.len());
        lemma_no_assignment_from(text, field, open, from + 1);
    }
}

} // verus!
