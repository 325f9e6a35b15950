//! Reading a BUILD file that was read or written before.

use crate::build_file::{
    after_blocks, block_end, blocks_from, build_file, closing_paren, crate_entries, crate_entry,
    crates_end, crates_from, is_pinned_by, kept_trailer, lemma_block_end, lemma_closing_paren,
    lemma_next_block, lemma_next_crate, lemma_next_crate_step, next_block, next_crate, rendered,
    single_crate, spaced_out, unnamed_between, BuildFileSpec, BLOCK_START,
};
use crate::crate_def::{crate_block, CrateSpec};
use crate::roundtrip::{as_read, block_reads_back, is_block, is_readable, lemma_paren_shift};
use crate::text::occurs_at;
use vstd::prelude::*;

verus! {

/// Whether no block with a name is found in the text.
pub open spec fn has_no_crate(text: Seq<char>) -> bool {
    next_crate(text, 0) == text.len()
}

/// Whether each block of the text from `from` on is closed in it and has no name.
pub open spec fn is_passable(text: Seq<char>, from: int) -> bool
    decreases text.len() - from,
{
    let start = next_block(text, from);
    let end = block_end(text.push('\n'), start);
    if from <= start < end <= text.len() {
        single_crate(text.subrange(start, end)) is None && is_passable(text, end)
    } else {
        start >= text.len()
    }
}

/// The block that a written file holds for a definition.
pub open spec fn written_block(c: CrateSpec) -> Seq<char> {
    if !c.modified && c.raw_text.len() > 0 {
        c.raw_text
    } else {
        crate_block(c).drop_last()
    }
}

/// Whether a written file holds a block for the definition that can be read.
pub open spec fn is_writable(c: CrateSpec) -> bool {
    &&& is_block(written_block(c))
    &&& single_crate(written_block(c)) is Some
}

/// The definition that a written file gives back, where `preceding` stands before its block.
pub open spec fn reread(c: CrateSpec, preceding: Seq<char>) -> CrateSpec {
    CrateSpec {
        preceding_content: preceding,
        pinned: is_pinned_by(preceding),
        ..single_crate(written_block(c))->0
    }
}

/// The definitions that a written file gives back: the first stands after `header`, each other one
/// after a blank line.
pub open spec fn reread_all(header: Seq<char>, crates: Seq<CrateSpec>) -> Seq<CrateSpec> {
    Seq::new(
        crates.len(),
        |i: int| reread(crates[i], if i == 0 { header } else { "\n\n"@ }),
    )
}

proof fn lemma_entry(c: CrateSpec)
    ensures
        crate_entry(c) == written_block(c) + "\n\n"@,
{
    reveal_strlit("\n");
    reveal_strlit("\n\n");
    reveal_strlit(")\n");
    let block = crate_block(c);
    assert(block.last() == '\n');
    assert(block =~= block.drop_last() + "\n"@);
    assert(block.drop_last() + "\n"@ + "\n"@ =~= block.drop_last() + "\n\n"@);
}

proof fn lemma_entries_front(crates: Seq<CrateSpec>)
    requires
        crates.len() > 0,
    ensures
        crate_entries(crates) == crate_entry(crates[0]) + crate_entries(crates.drop_first()),
    decreases crates.len(),
{
    let rest = crates.drop_first();
    if crates.len() == 1 {
        reveal_with_fuel(crate_entries, 2);
        assert(crate_entries(crates) =~= crate_entry(crates[0]) + crate_entries(rest));
    } else {
        lemma_entries_front(crates.drop_last());
        assert(crates.drop_last().drop_first() =~= rest.drop_last());
        assert(rest.last() == crates.last());
        let first = crate_entry(crates[0]);
        let middle = crate_entries(rest.drop_last());
        let last = crate_entry(crates.last());
        assert(first + middle + last =~= first + (middle + last));
    }
}

/// Parentheses that are closed inside a text are closed at the same place wherever its characters
/// stand.
proof fn lemma_paren_same(a: Seq<char>, b: Seq<char>, i: int, j: int, depth: int)
    requires
        0 <= i <= a.len(),
        0 <= j,
        closing_paren(a, i, depth) < a.len(),
        j + closing_paren(a, i, depth) - i <= b.len(),
        forall|k: int| i <= k < closing_paren(a, i, depth) ==> #[trigger] a[k] == b[j + k - i],
    ensures
        closing_paren(b, j, depth) == j + closing_paren(a, i, depth) - i,
    decreases a.len() - i,
{
    lemma_closing_paren(a, i, depth);
    if depth > 0 {
        let next = if a[i] == '(' {
            depth + 1
        } else if a[i] == ')' {
            depth - 1
        } else {
            depth
        };
        lemma_closing_paren(a, i + 1, next);
        assert(closing_paren(a, i, depth) == closing_paren(a, i + 1, next));
        assert(a[i] == b[j + i - i]);
        assert forall|k: int| i + 1 <= k < closing_paren(a, i + 1, next) implies #[trigger] a[k] == b[
        j + 1 + k - (i + 1)] by {
            assert(a[k] == b[j + k - i]);
        }
        lemma_paren_same(a, b, i + 1, j + 1, next);
    }
}

/// A block that is closed inside a text is the same block wherever its characters stand.
proof fn lemma_block_same(a: Seq<char>, b: Seq<char>, i: int, j: int)
    requires
        occurs_at(a, BLOCK_START@, i),
        0 <= j,
        block_end(a, i) < a.len(),
        j + block_end(a, i) - i <= b.len(),
        forall|k: int| i <= k < block_end(a, i) ==> #[trigger] a[k] == b[j + k - i],
    ensures
        block_end(b, j) == j + block_end(a, i) - i,
        occurs_at(b, BLOCK_START@, j),
        i + BLOCK_START@.len() <= block_end(a, i),
{
    let n = BLOCK_START@.len() as int;
    lemma_closing_paren(a, i + n, 1);
    assert forall|k: int| i + n <= k < closing_paren(a, i + n, 1) implies #[trigger] a[k] == b[j + n
        + k - (i + n)] by {
        assert(a[k] == b[j + k - i]);
    }
    lemma_paren_same(a, b, i + n, j + n, 1);
    assert forall|k: int| 0 <= k < n implies b.subrange(j, j + n)[k] == #[trigger] BLOCK_START@[k] by {
        assert(a.subrange(i, i + n)[k] == a[i + k]);
        assert(a[i + k] == b[j + (i + k) - i]);
    }
    assert(b.subrange(j, j + n) =~= BLOCK_START@);
}

/// Where no block starts up to a position, the next one is the one from there on.
proof fn lemma_skip_to(text: Seq<char>, from: int, to: int)
    requires
        0 <= from <= to <= text.len(),
        forall|i: int| from <= i < to ==> !occurs_at(text, BLOCK_START@, i),
    ensures
        next_block(text, from) == next_block(text, to),
        next_crate(text, from) == next_crate(text, to),
    decreases to - from,
{
    if from < to {
        lemma_next_crate_step(text, from);
        lemma_skip_to(text, from + 1, to);
    }
}

proof fn lemma_occurs_in_rest(a: Seq<char>, b: Seq<char>, at: int)
    requires
        0 <= at,
    ensures
        occurs_at(a + b, BLOCK_START@, a.len() + at) == occurs_at(b, BLOCK_START@, at),
{
    let n = BLOCK_START@.len();
    if at + n <= b.len() {
        assert((a + b).subrange(a.len() + at, a.len() + at + n) =~= b.subrange(at, at + n));
    }
}

pub proof fn lemma_next_block_shift(a: Seq<char>, b: Seq<char>, from: int)
    requires
        0 <= from <= b.len(),
    ensures
        next_block(a + b, a.len() + from) == a.len() + next_block(b, from),
    decreases b.len() - from,
{
    if from < b.len() {
        lemma_occurs_in_rest(a, b, from);
        lemma_next_block_shift(a, b, from + 1);
    }
}

/// What stands before a position does not matter to the blocks from there on.
proof fn lemma_next_crate_shift(a: Seq<char>, b: Seq<char>, from: int)
    requires
        0 <= from <= b.len(),
    ensures
        next_crate(a + b, a.len() + from) == a.len() + next_crate(b, from),
    decreases b.len() - from,
{
    let t = a + b;
    let start = next_block(b, from);
    let end = block_end(b, start);
    lemma_next_block(b, from);
    lemma_next_block_shift(a, b, from);
    lemma_paren_shift(a, b, start + BLOCK_START@.len(), 1);
    assert(block_end(t, a.len() + start) == a.len() + end);
    if from <= start < end <= b.len() {
        assert(t.subrange(a.len() + start, a.len() + end) =~= b.subrange(start, end));
        if single_crate(b.subrange(start, end)) is None {
            lemma_next_crate_shift(a, b, end);
        }
    }
}

/// Whether every block start of `gap + rest` that lies in the gap lies in it as a whole.
spec fn is_seamless(gap: Seq<char>, rest: Seq<char>) -> bool {
    forall|at: int|
        0 <= at < gap.len() && #[trigger] occurs_at(gap + rest, BLOCK_START@, at) ==> occurs_at(
            gap,
            BLOCK_START@,
            at,
        )
}

/// A block start has no part in common with the block start after it.
proof fn lemma_seamless_before_block(gap: Seq<char>, rest: Seq<char>)
    requires
        occurs_at(rest, BLOCK_START@, 0),
    ensures
        is_seamless(gap, rest),
{
    let text = gap + rest;
    let mark = BLOCK_START@;
    reveal_strlit("rust_crate(");
    assert forall|at: int|
        0 <= at < gap.len() && #[trigger] occurs_at(text, mark, at) implies occurs_at(
        gap,
        mark,
        at,
    ) by {
        let found = text.subrange(at, at + 11);
        if at + 11 <= gap.len() {
            assert(gap.subrange(at, at + 11) =~= found);
        } else {
            let i = at + 10 - gap.len();
            assert(found[10] == text[at + 10]);
            assert(text[at + 10] == rest[i]);
            assert(rest.subrange(0, 11)[i] == rest[i]);
            assert(mark[i] == '(');
        }
    }
}

/// Reading goes through a gap without definitions.
proof fn lemma_pass(gap: Seq<char>, rest: Seq<char>, from: int)
    requires
        0 <= from <= gap.len(),
        is_passable(gap, from),
        is_seamless(gap, rest),
    ensures
        next_crate(gap + rest, from) == next_crate(gap + rest, gap.len() as int),
    decreases gap.len() - from,
{
    let t = gap + rest;
    let mark = BLOCK_START@;
    let start = next_block(gap, from);
    lemma_next_block(gap, from);
    assert forall|i: int| from <= i < start implies !occurs_at(t, mark, i) by {
        assert(!occurs_at(gap, mark, i));
    }
    lemma_skip_to(t, from, start);
    if start < gap.len() {
        let closed = gap.push('\n');
        let end = block_end(closed, start);
        assert(closed.subrange(start, start + mark.len()) =~= gap.subrange(
            start,
            start + mark.len(),
        ));
        lemma_block_same(closed, t, start, start);
        assert(next_block(t, start) == start);
        assert(t.subrange(start, end) =~= gap.subrange(start, end));
        lemma_pass(gap, rest, end);
    }
}

/// What reading makes of the first definition of `before + gap + block + after`.
proof fn lemma_read_step(before: Seq<char>, gap: Seq<char>, c: CrateSpec, after: Seq<char>)
    requires
        is_passable(gap, 0),
        is_writable(c),
    ensures
        ({
            let block = written_block(c);
            let text = before + (gap + (block + after));
            let start = before.len() + gap.len() as int;
            let end = start + block.len();
            &&& next_crate(text, before.len() as int) == start
            &&& crates_from(text, before.len() as int) == seq![reread(c, gap)] + crates_from(
                text,
                end,
            )
            &&& crates_end(text, before.len() as int) == crates_end(text, end)
            &&& start < end <= text.len()
        }),
{
    let block = written_block(c);
    let rest = block + after;
    let inner = gap + rest;
    let text = before + inner;
    let mark = BLOCK_START@;
    let n = gap.len() as int;
    assert(rest.subrange(0, mark.len() as int) =~= block.subrange(0, mark.len() as int));
    lemma_seamless_before_block(gap, rest);
    lemma_pass(gap, rest, 0);
    let closed = block.push('\n');
    assert(closed.subrange(0, mark.len() as int) =~= block.subrange(0, mark.len() as int));
    lemma_block_same(closed, inner, 0, n);
    assert(mark.len() > 0) by {
        reveal_strlit("rust_crate(");
    }
    assert(next_block(inner, n) == n);
    assert(inner.subrange(n, n + block.len()) =~= block);
    assert(next_crate(inner, n) == n);
    lemma_next_crate_shift(before, inner, 0);
    let start = before.len() + n;
    lemma_paren_shift(before, inner, n + mark.len(), 1);
    assert(block_end(text, start) == start + block.len());
    assert(text.subrange(before.len() as int, start) =~= gap);
    assert(text.subrange(start, start + block.len()) =~= block);
}

/// A text without a block start has no block.
proof fn lemma_without_blocks(text: Seq<char>)
    requires
        forall|at: int| !occurs_at(text, BLOCK_START@, at),
    ensures
        is_passable(text, 0),
        has_no_crate(text),
        after_blocks(text, 0) == text,
{
    lemma_next_block(text, 0);
    assert(next_block(text, 0) == text.len());
    lemma_skip_to(text, 0, text.len() as int);
    assert(text.skip(0) =~= text);
}

/// A blank line has no block.
pub proof fn lemma_blank()
    ensures
        is_passable("\n\n"@, 0),
        after_blocks("\n\n"@, 0) == "\n\n"@,
        is_passable(Seq::empty(), 0),
        has_no_crate(Seq::empty()),
        after_blocks(Seq::empty(), 0) == Seq::<char>::empty(),
{
    reveal_strlit("\n\n");
    reveal_strlit("rust_crate(");
    lemma_without_blocks("\n\n"@);
    lemma_without_blocks(Seq::empty());
}

/// A blank line before a text adds no definition.
proof fn lemma_blank_before(text: Seq<char>)
    requires
        has_no_crate(text),
    ensures
        has_no_crate("\n\n"@ + text),
{
    reveal_strlit("\n\n");
    reveal_strlit("rust_crate(");
    let whole = "\n\n"@ + text;
    let mark = BLOCK_START@;
    assert forall|i: int| 0 <= i < 2 implies !occurs_at(whole, mark, i) by {
        if occurs_at(whole, mark, i) {
            assert(whole.subrange(i, i + mark.len())[0] == whole[i]);
        }
    }
    lemma_skip_to(whole, 0, 2);
    lemma_next_crate_shift("\n\n"@, text, 0);
}

/// A written file, taken apart after its first block.
proof fn lemma_written_text(
    before: Seq<char>,
    gap: Seq<char>,
    crates: Seq<CrateSpec>,
    trailer: Seq<char>,
)
    requires
        crates.len() > 0,
    ensures
        ({
            let text = before + (gap + (crate_entries(crates) + trailer));
            let block = written_block(crates[0]);
            let rest = crate_entries(crates.drop_first());
            &&& text == before + (gap + (block + ("\n\n"@ + (rest + trailer))))
            &&& text == (before + gap + block) + ("\n\n"@ + (rest + trailer))
        }),
{
    let block = written_block(crates[0]);
    let rest = crate_entries(crates.drop_first());
    let blank = "\n\n"@;
    lemma_entry(crates[0]);
    lemma_entries_front(crates);
    assert(block + blank + rest + trailer =~= block + (blank + (rest + trailer)));
    let tail = blank + (rest + trailer);
    assert(before + (gap + (block + tail)) =~= (before + gap + block) + tail);
}

/// The definitions of a written file from the end of `before` on.
proof fn lemma_written_blocks(
    before: Seq<char>,
    gap: Seq<char>,
    crates: Seq<CrateSpec>,
    trailer: Seq<char>,
)
    requires
        is_passable(gap, 0),
        crates.len() == 0 ==> has_no_crate(gap + trailer),
        has_no_crate(trailer),
        forall|i: int| 0 <= i < crates.len() ==> is_writable(#[trigger] crates[i]),
    ensures
        ({
            let text = before + (gap + (crate_entries(crates) + trailer));
            &&& crates_from(text, before.len() as int) == reread_all(gap, crates)
            &&& crates_end(text, before.len() as int) == if crates.len() == 0 {
                before.len() as int
            } else {
                text.len() - trailer.len() - 2
            }
        }),
    decreases crates.len(),
{
    let from = before.len() as int;
    let text = before + (gap + (crate_entries(crates) + trailer));
    if crates.len() == 0 {
        assert(crate_entries(crates) + trailer =~= trailer);
        lemma_next_crate_shift(before, gap + trailer, 0);
        assert(crates_from(text, from) =~= reread_all(gap, crates));
    } else {
        let c = crates[0];
        let rest = crates.drop_first();
        let block = written_block(c);
        let blank = "\n\n"@;
        let after = blank + (crate_entries(rest) + trailer);
        assert(is_writable(crates[0]));
        assert forall|i: int| 0 <= i < rest.len() implies is_writable(#[trigger] rest[i]) by {
            assert(is_writable(crates[i + 1]));
        }
        lemma_written_text(before, gap, crates, trailer);
        lemma_read_step(before, gap, c, after);
        lemma_blank();
        lemma_blank_before(trailer);
        let passed = before + gap + block;
        lemma_written_blocks(passed, blank, rest, trailer);
        assert(seq![reread(c, gap)] + reread_all(blank, rest) =~= reread_all(gap, crates));
        if rest.len() == 0 {
            reveal_strlit("\n\n");
            assert(crate_entries(rest) =~= Seq::empty());
        }
    }
}

/// A written file reads back as the definitions in it, with the same header. What follows the last
/// definition comes back with the blank line that was written after the block.
pub proof fn file_reads_back(header: Seq<char>, crates: Seq<CrateSpec>, trailer: Seq<char>)
    requires
        crates.len() > 0,
        is_passable(header, 0),
        has_no_crate(trailer),
        forall|i: int| 0 <= i < crates.len() ==> is_writable(#[trigger] crates[i]),
    ensures
        build_file(rendered(header, crates, trailer)) == (BuildFileSpec {
            crates: reread_all(header, crates),
            header,
            trailer: "\n\n"@ + trailer,
        }),
{
    let text = rendered(header, crates, trailer);
    let none = Seq::<char>::empty();
    let after = "\n\n"@ + (crate_entries(crates.drop_first()) + trailer);
    assert(text =~= none + (header + (crate_entries(crates) + trailer)));
    assert(is_writable(crates[0]));
    lemma_written_blocks(none, header, crates, trailer);
    lemma_written_text(none, header, crates, trailer);
    lemma_read_step(none, header, crates[0], after);
    assert(text.take(header.len() as int) =~= header);
    lemma_written_trailer(header, crates, trailer);
}

proof fn lemma_written_trailer(header: Seq<char>, crates: Seq<CrateSpec>, trailer: Seq<char>)
    requires
        crates.len() > 0,
    ensures
        rendered(header, crates, trailer).skip(
            rendered(header, crates, trailer).len() - trailer.len() - 2,
        ) == "\n\n"@ + trailer,
{
    reveal_strlit("\n\n");
    lemma_entry(crates.last());
    let blank = "\n\n"@;
    let entries = crate_entries(crates.drop_last()) + written_block(crates.last());
    assert(crate_entries(crates) =~= entries + blank);
    let a = header + entries;
    assert(rendered(header, crates, trailer) =~= a + (blank + trailer));
    assert((a + (blank + trailer)).skip(a.len() as int) =~= blank + trailer);
}

/// Whether the definition is as it was read: not modified, with its block as its raw text, which
/// reads as this definition, after a text without definitions, and pinned if a pin comment stands
/// right before the block.
pub open spec fn is_intact(c: CrateSpec) -> bool {
    &&& !c.modified
    &&& occurs_at(c.raw_text, BLOCK_START@, 0)
    &&& single_crate(c.raw_text) == Some(as_read(c, c.raw_text))
    &&& is_passable(c.preceding_content, 0)
    &&& c.pinned == is_pinned_by(c.preceding_content)
}

/// What stands before a definition has none: its blocks are closed and have no name.
proof fn lemma_before_crate(text: Seq<char>, from: int)
    requires
        0 <= from <= text.len(),
        next_crate(text, from) < text.len(),
    ensures
        is_passable(text.take(next_crate(text, from)), from),
        from <= next_crate(text, from),
    decreases text.len() - from,
{
    let mark = BLOCK_START@;
    let to = next_crate(text, from);
    let part = text.take(to);
    let start = next_block(text, from);
    let end = block_end(text, start);
    lemma_next_crate(text, from);
    lemma_next_block(text, from);
    lemma_next_block(part, from);
    assert forall|i: int| from <= i < start implies !occurs_at(part, mark, i) by {
        if occurs_at(part, mark, i) {
            assert(part.subrange(i, i + mark.len()) =~= text.subrange(i, i + mark.len()));
            assert(occurs_at(text, mark, i));
        }
    }
    assert(start < text.len());
    lemma_block_end(text, start);
    if single_crate(text.subrange(start, end)) is Some {
        assert(next_block(part, from) >= part.len());
    } else {
        lemma_next_crate(text, end);
        let closed = part.push('\n');
        lemma_block_same(text, closed, start, start);
        lemma_block_same(text, part, start, start);
        assert(next_block(part, from) == start);
        assert(part.subrange(start, end) =~= text.subrange(start, end));
        lemma_before_crate(text, end);
    }
}

#[verifier::spinoff_prover]
proof fn lemma_gap_passable(text: Seq<char>, from: int)
    requires
        0 <= from <= text.len(),
        next_crate(text, from) < text.len(),
    ensures
        from <= next_crate(text, from),
        is_passable(text.subrange(from, next_crate(text, from)), 0),
{
    let rest = text.skip(from);
    assert(text =~= text.take(from) + rest);
    lemma_next_crate_shift(text.take(from), rest, 0);
    lemma_before_crate(rest, 0);
    let to = next_crate(text, from);
    assert(rest.take(to - from) =~= text.subrange(from, to));
}

proof fn lemma_crates_intact(text: Seq<char>, from: int)
    requires
        0 <= from <= text.len(),
    ensures
        forall|i: int|
            0 <= i < crates_from(text, from).len() ==> is_intact(
                #[trigger] crates_from(text, from)[i],
            ),
    decreases text.len() - from,
{
    let start = next_crate(text, from);
    let end = block_end(text, start);
    if from <= start < end <= text.len() {
        lemma_next_crate(text, from);
        lemma_gap_passable(text, from);
        let mark = BLOCK_START@;
        let raw = text.subrange(start, end);
        let rest = crates_from(text, end);
        lemma_paren_after_mark(text, start);
        assert(raw.subrange(0, mark.len() as int) =~= text.subrange(start, start + mark.len()));
        lemma_crates_intact(text, end);
        assert forall|i: int| 0 <= i < crates_from(text, from).len() implies is_intact(
            #[trigger] crates_from(text, from)[i],
        ) by {
            if i > 0 {
                assert(crates_from(text, from)[i] == rest[i - 1]);
            }
        }
    }
}

/// A block ends after what opens it.
proof fn lemma_paren_after_mark(text: Seq<char>, start: int)
    requires
        occurs_at(text, BLOCK_START@, start),
    ensures
        start + BLOCK_START@.len() <= block_end(text, start) <= text.len(),
{
    lemma_closing_paren(text, start + BLOCK_START@.len(), 1);
}

/// Every definition of a file that was read is as its block says.
pub proof fn read_crates_are_intact(text: Seq<char>)
    ensures
        forall|i: int|
            0 <= i < build_file(text).crates.len() ==> is_intact(
                #[trigger] build_file(text).crates[i],
            ),
{
    lemma_crates_intact(text, 0);
}

proof fn lemma_crates_end(text: Seq<char>, from: int)
    requires
        0 <= from <= text.len(),
    ensures
        from <= crates_end(text, from) <= text.len(),
        next_crate(text, crates_end(text, from)) == text.len(),
    decreases text.len() - from,
{
    let start = next_crate(text, from);
    let end = block_end(text, start);
    lemma_next_crate(text, from);
    if from <= start < end <= text.len() {
        lemma_crates_end(text, end);
    }
}

/// Neither the header nor the trailer of a file that was read has a definition.
pub proof fn surroundings_have_no_crate(text: Seq<char>)
    ensures
        build_file(text).crates.len() > 0 ==> is_passable(build_file(text).header, 0),
        has_no_crate(build_file(text).header),
        has_no_crate(build_file(text).trailer),
{
    let start = next_crate(text, 0);
    let end = crates_end(text, 0);
    lemma_next_crate(text, 0);
    lemma_crates_end(text, 0);
    lemma_blank();
    if start < text.len() {
        lemma_before_crate(text, 0);
        let header = text.take(start);
        let none = Seq::<char>::empty();
        assert(header + none =~= header);
        assert(is_seamless(header, none));
        lemma_pass(header, none, 0);
        let rest = text.skip(end);
        assert(text =~= text.take(end) + rest);
        lemma_next_crate_shift(text.take(end), rest, 0);
    } else {
        assert(text.take(start) =~= text);
    }
}

/// The blocks of the definitions, each after what stood before it.
pub open spec fn spelled_out(crates: Seq<CrateSpec>) -> Seq<char>
    decreases crates.len(),
{
    if crates.len() == 0 {
        Seq::empty()
    } else {
        crates[0].preceding_content + crates[0].raw_text + spelled_out(crates.drop_first())
    }
}

proof fn lemma_content_kept(text: Seq<char>, from: int)
    requires
        0 <= from <= text.len(),
    ensures
        text.skip(from) == spelled_out(crates_from(text, from)) + text.skip(crates_end(text, from)),
    decreases text.len() - from,
{
    let start = next_crate(text, from);
    let end = block_end(text, start);
    lemma_crates_end(text, from);
    if from <= start < end <= text.len() {
        lemma_content_kept(text, end);
        lemma_next_crate(text, from);
        let all = crates_from(text, from);
        let rest = crates_from(text, end);
        assert(all.drop_first() =~= rest);
        let preceding = text.subrange(from, start);
        let raw = text.subrange(start, end);
        let trailer = text.skip(crates_end(text, from));
        assert(text.skip(from) =~= preceding + raw + text.skip(end));
        assert(preceding + raw + (spelled_out(rest) + trailer) =~= preceding + raw + spelled_out(
            rest,
        ) + trailer);
    } else {
        assert(text.skip(from) =~= Seq::<char>::empty() + text.skip(from));
    }
}

/// Reading a file loses nothing: the definitions' blocks, each after what stood before it, and the
/// trailer are the whole text, and the header is what stood before the first definition. A file
/// without a definition is all header.
pub proof fn reading_keeps_content(text: Seq<char>)
    ensures
        build_file(text).crates.len() > 0 ==> text == spelled_out(build_file(text).crates)
            + build_file(text).trailer && build_file(text).header == build_file(
            text,
        ).crates[0].preceding_content,
        build_file(text).crates.len() == 0 ==> build_file(text).header == text && build_file(
            text,
        ).trailer.len() == 0,
{
    lemma_content_kept(text, 0);
    assert(text.skip(0) =~= text);
    lemma_next_crate(text, 0);
    let start = next_crate(text, 0);
    assert(text.take(start) =~= text.subrange(0, start));
    if start == text.len() {
        assert(text.take(start) =~= text);
    }
}

/// A definition that was read and not modified reads back from its own block unchanged, but for
/// what stands before the block.
pub proof fn intact_crate_reads_back(c: CrateSpec, preceding: Seq<char>)
    requires
        is_intact(c),
        is_block(c.raw_text),
    ensures
        is_writable(c),
        reread(c, preceding) == (CrateSpec {
            preceding_content: preceding,
            pinned: is_pinned_by(preceding),
            ..c
        }),
{
    reveal_strlit("rust_crate(");
    assert(c.raw_text.len() > 0);
}

/// A modified definition reads back from the block that is generated for it.
pub proof fn modified_crate_reads_back(c: CrateSpec, preceding: Seq<char>)
    requires
        c.modified || c.raw_text.len() == 0,
        is_readable(c),
        is_block(crate_block(c).drop_last()),
    ensures
        is_writable(c),
        reread(c, preceding) == (CrateSpec {
            raw_text: crate_block(c).drop_last(),
            preceding_content: preceding,
            pinned: is_pinned_by(preceding),
            modified: false,
            ..c
        }),
{
    block_reads_back(c);
}

/// Whether each of the texts is a block without a name.
spec fn are_unnamed(blocks: Seq<Seq<char>>) -> bool {
    forall|k: int|
        0 <= k < blocks.len() ==> is_block(#[trigger] blocks[k]) && single_crate(blocks[k]) is None
}

/// The blocks of a text without definitions are blocks without a name.
proof fn lemma_passable_blocks(text: Seq<char>, from: int)
    requires
        0 <= from <= text.len(),
        is_passable(text, from),
    ensures
        are_unnamed(blocks_from(text, from)),
    decreases text.len() - from,
{
    let mark = BLOCK_START@;
    let start = next_block(text, from);
    lemma_next_block(text, from);
    if start < text.len() {
        let closed = text.push('\n');
        let end = block_end(closed, start);
        assert(closed.subrange(start, start + mark.len()) =~= text.subrange(
            start,
            start + mark.len(),
        ));
        lemma_block_same(closed, text, start, start);
        let block = text.subrange(start, end);
        lemma_block_same(closed, block.push('\n'), start, 0);
        lemma_block_same(closed, block, start, 0);
        lemma_passable_blocks(text, end);
        let rest = blocks_from(text, end);
        assert forall|k: int| 0 <= k < blocks_from(text, from).len() implies is_block(
            #[trigger] blocks_from(text, from)[k],
        ) && single_crate(blocks_from(text, from)[k]) is None by {
            if k > 0 {
                assert(blocks_from(text, from)[k] == rest[k - 1]);
            }
        }
    } else {
        lemma_block_end_outside(text, start);
    }
}

/// After the end of a text there is no block.
proof fn lemma_block_end_outside(text: Seq<char>, start: int)
    requires
        start >= text.len(),
    ensures
        blocks_from(text, start) == Seq::<Seq<char>>::empty(),
{
    assert(next_block(text, start) == text.len());
}

/// A block without a name before a text adds no definition.
proof fn lemma_unnamed_before(block: Seq<char>, text: Seq<char>)
    requires
        is_block(block),
        single_crate(block) is None,
        has_no_crate(text),
    ensures
        has_no_crate(block + "\n\n"@ + text),
{
    let mark = BLOCK_START@;
    let rest = "\n\n"@ + text;
    let whole = block + rest;
    lemma_blank_before(text);
    let closed = block.push('\n');
    assert(closed.subrange(0, mark.len() as int) =~= block.subrange(0, mark.len() as int));
    lemma_block_same(closed, whole, 0, 0);
    assert(mark.len() > 0) by {
        reveal_strlit("rust_crate(");
    }
    assert(next_block(whole, 0) == 0);
    assert(whole.subrange(0, block.len() as int) =~= block);
    lemma_next_crate_shift(block, rest, 0);
    assert(block + "\n\n"@ + text =~= whole);
}

proof fn lemma_spaced_before(blocks: Seq<Seq<char>>, text: Seq<char>)
    requires
        are_unnamed(blocks),
        has_no_crate(text),
    ensures
        has_no_crate(spaced_out(blocks) + text),
    decreases blocks.len(),
{
    if blocks.len() == 0 {
        assert(spaced_out(blocks) + text =~= text);
    } else {
        let rest = blocks.drop_last();
        let block = blocks.last();
        assert(block == blocks[blocks.len() - 1]);
        assert forall|k: int| 0 <= k < rest.len() implies is_block(#[trigger] rest[k])
            && single_crate(rest[k]) is None by {
            assert(is_block(blocks[k]));
        }
        lemma_unnamed_before(block, text);
        lemma_spaced_before(rest, block + "\n\n"@ + text);
        assert(spaced_out(blocks) + text =~= spaced_out(rest) + (block + "\n\n"@ + text));
    }
}

proof fn lemma_unnamed_between(crates: Seq<CrateSpec>, n: int, text: Seq<char>)
    requires
        n <= crates.len(),
        forall|i: int| 0 <= i < crates.len() ==> is_intact(#[trigger] crates[i]),
        has_no_crate(text),
    ensures
        has_no_crate(unnamed_between(crates, n) + text),
    decreases n,
{
    if n <= 1 {
        assert(unnamed_between(crates, n) + text =~= text);
    } else {
        assert(is_intact(crates[n - 1]));
        let blocks = blocks_from(crates[n - 1].preceding_content, 0);
        lemma_passable_blocks(crates[n - 1].preceding_content, 0);
        lemma_spaced_before(blocks, text);
        lemma_unnamed_between(crates, n - 1, spaced_out(blocks) + text);
        assert(unnamed_between(crates, n) + text =~= unnamed_between(crates, n - 1) + (spaced_out(
            blocks,
        ) + text));
    }
}

/// Definitions that are written into a file that was read, as a merge and wiring do, read back, with
/// the same header. Where the file had no definition, its own blocks must be closed.
pub proof fn rewritten_file_reads_back(text: Seq<char>, crates: Seq<CrateSpec>)
    requires
        crates.len() > 0,
        build_file(text).crates.len() == 0 ==> is_passable(text, 0),
        forall|i: int| 0 <= i < crates.len() ==> is_writable(#[trigger] crates[i]),
    ensures
        build_file(rendered(build_file(text).header, crates, kept_trailer(build_file(text)))) == (
        BuildFileSpec {
            crates: reread_all(build_file(text).header, crates),
            header: build_file(text).header,
            trailer: "\n\n"@ + kept_trailer(build_file(text)),
        }),
{
    let file = build_file(text);
    surroundings_have_no_crate(text);
    read_crates_are_intact(text);
    lemma_unnamed_between(file.crates, file.crates.len() as int, file.trailer);
    reading_keeps_content(text);
    file_reads_back(file.header, crates, kept_trailer(file));
}

/// A file that is read and written without changes reads back as the same definitions, but for
/// what stands before each block: the header before the first, a blank line before the others.
pub proof fn unchanged_file_reads_back(text: Seq<char>)
    requires
        build_file(text).crates.len() > 0,
        forall|i: int|
            0 <= i < build_file(text).crates.len() ==> is_block(
                #[trigger] build_file(text).crates[i].raw_text,
            ),
    ensures
        ({
            let file = build_file(text);
            let again = build_file(rendered(file.header, file.crates, kept_trailer(file)));
            &&& again.header == file.header
            &&& again.trailer == "\n\n"@ + kept_trailer(file)
            &&& again.crates.len() == file.crates.len()
            &&& forall|i: int|
                0 <= i < file.crates.len() ==> {
                    let preceding = if i == 0 {
                        file.header
                    } else {
                        "\n\n"@
                    };
                    #[trigger] again.crates[i] == (CrateSpec {
                        preceding_content: preceding,
                        pinned: is_pinned_by(preceding),
                        ..file.crates[i]
                    })
                }
        }),
{
    let file = build_file(text);
    let again = build_file(rendered(file.header, file.crates, kept_trailer(file)));
    read_crates_are_intact(text);
    assert forall|i: int| 0 <= i < file.crates.len() implies is_writable(#[trigger] file.crates[i]) by {
        assert(is_block(file.crates[i].raw_text));
        intact_crate_reads_back(file.crates[i], Seq::empty());
    }
    rewritten_file_reads_back(text, file.crates);
    assert forall|i: int| 0 <= i < file.crates.len() implies {
        let preceding = if i == 0 {
            file.header
        } else {
            "\n\n"@
        };
        #[trigger] again.crates[i] == (CrateSpec {
            preceding_content: preceding,
            pinned: is_pinned_by(preceding),
            ..file.crates[i]
        })
    } by {
        let preceding = if i == 0 {
            file.header
        } else {
            "\n\n"@
        };
        assert(is_block(file.crates[i].raw_text));
        intact_crate_reads_back(file.crates[i], preceding);
    }
}

/// Whether the part stands somewhere in the text.
pub open spec fn holds_text(text: Seq<char>, part: Seq<char>) -> bool {
    exists|at: int| #[trigger] occurs_at(text, part, at)
}

proof fn lemma_holds_in_concat(a: Seq<char>, b: Seq<char>, part: Seq<char>)
    ensures
        holds_text(a, part) || holds_text(b, part) ==> holds_text(a + b, part),
{
    let n = part.len();
    if holds_text(a, part) {
        let at = choose|at: int| #[trigger] occurs_at(a, part, at);
        assert((a + b).subrange(at, at + n) =~= a.subrange(at, at + n));
        assert(occurs_at(a + b, part, at));
    } else if holds_text(b, part) {
        let at = choose|at: int| #[trigger] occurs_at(b, part, at);
        let shifted = a.len() + at;
        assert((a + b).subrange(shifted, shifted + n) =~= b.subrange(at, at + n));
        assert(occurs_at(a + b, part, shifted));
    }
}

/// A block of a text stands in it.
proof fn lemma_block_held(text: Seq<char>, from: int, block: Seq<char>)
    requires
        0 <= from <= text.len(),
        blocks_from(text, from).contains(block),
    ensures
        holds_text(text.skip(from), block),
    decreases text.len() - from,
{
    let start = next_block(text, from);
    let end = block_end(text, start);
    if from <= start < end <= text.len() {
        let all = blocks_from(text, from);
        let rest = blocks_from(text, end);
        let k = all.index_of(block);
        if k == 0 {
            assert(text.skip(from).subrange(start - from, end - from) =~= block);
            assert(occurs_at(text.skip(from), block, start - from));
        } else {
            assert(rest[k - 1] == block);
            lemma_block_held(text, end, block);
            assert(text.skip(from) =~= text.subrange(from, end) + text.skip(end));
            lemma_holds_in_concat(text.subrange(from, end), text.skip(end), block);
        }
    }
}

/// The blocks up to the next definition are those of the text before it.
proof fn lemma_blocks_before_crate(text: Seq<char>, from: int)
    requires
        0 <= from <= text.len(),
        next_crate(text, from) < text.len(),
    ensures
        blocks_from(text, from) == blocks_from(text.take(next_crate(text, from)), from)
            + blocks_from(text, next_crate(text, from)),
    decreases text.len() - from,
{
    let mark = BLOCK_START@;
    let to = next_crate(text, from);
    let part = text.take(to);
    let start = next_block(text, from);
    let end = block_end(text, start);
    lemma_next_crate(text, from);
    lemma_next_block(text, from);
    lemma_next_block(part, from);
    assert forall|i: int| from <= i < start implies !occurs_at(part, mark, i) by {
        if occurs_at(part, mark, i) {
            assert(part.subrange(i, i + mark.len()) =~= text.subrange(i, i + mark.len()));
            assert(occurs_at(text, mark, i));
        }
    }
    lemma_block_end(text, start);
    if single_crate(text.subrange(start, end)) is Some {
        assert(blocks_from(part, from) =~= Seq::empty());
        lemma_skip_to(text, from, start);
        assert(blocks_from(text, from) == blocks_from(text, start));
        assert(blocks_from(text, from) =~= Seq::<Seq<char>>::empty() + blocks_from(text, start));
    } else {
        lemma_next_crate(text, end);
        lemma_block_same(text, part, start, start);
        assert(next_block(part, from) == start);
        assert(part.subrange(start, end) =~= text.subrange(start, end));
        lemma_blocks_before_crate(text, end);
        let one = seq![text.subrange(start, end)];
        assert(one + (blocks_from(part, end) + blocks_from(text, to)) =~= one + blocks_from(
            part,
            end,
        ) + blocks_from(text, to));
    }
}

/// What stands before a position does not matter to the blocks from there on.
pub proof fn lemma_blocks_shift(a: Seq<char>, b: Seq<char>, from: int)
    requires
        0 <= from <= b.len(),
    ensures
        blocks_from(a + b, a.len() + from) == blocks_from(b, from),
    decreases b.len() - from,
{
    let t = a + b;
    let start = next_block(b, from);
    let end = block_end(b, start);
    lemma_next_block(b, from);
    lemma_next_block_shift(a, b, from);
    lemma_paren_shift(a, b, start + BLOCK_START@.len(), 1);
    assert(block_end(t, a.len() + start) == a.len() + end);
    if from <= start < end <= b.len() {
        assert(t.subrange(a.len() + start, a.len() + end) =~= b.subrange(start, end));
        lemma_blocks_shift(a, b, end);
    }
}

/// The blocks up to the next definition are those of the gap before it.
proof fn lemma_blocks_in_gap(text: Seq<char>, from: int)
    requires
        0 <= from <= next_crate(text, from) < text.len(),
    ensures
        blocks_from(text, from) == blocks_from(text.subrange(from, next_crate(text, from)), 0)
            + blocks_from(text, next_crate(text, from)),
{
    let start = next_crate(text, from);
    let rest = text.skip(from);
    let before = text.take(from);
    assert(text =~= before + rest);
    lemma_next_crate_shift(before, rest, 0);
    lemma_blocks_shift(before, rest, 0);
    lemma_blocks_shift(before, rest, start - from);
    lemma_blocks_before_crate(rest, 0);
    assert(rest.take(start - from) =~= text.subrange(from, start));
}

/// Where a block without a name stands: before a definition, or after the last one.
#[verifier::spinoff_prover]
proof fn lemma_unnamed_place(text: Seq<char>, from: int, block: Seq<char>) -> (i: int)
    requires
        0 <= from <= text.len(),
        blocks_from(text, from).contains(block),
        single_crate(block) is None,
    ensures
        0 <= i <= crates_from(text, from).len(),
        i < crates_from(text, from).len() ==> blocks_from(
            crates_from(text, from)[i].preceding_content,
            0,
        ).contains(block),
        i == crates_from(text, from).len() ==> blocks_from(
            text,
            crates_end(text, from),
        ).contains(block),
    decreases text.len() - from,
{
    let start = next_crate(text, from);
    let end = block_end(text, start);
    lemma_next_crate(text, from);
    if from <= start < end <= text.len() {
        lemma_blocks_in_gap(text, from);
        let gap = text.subrange(from, start);
        let all = blocks_from(text, from);
        let in_gap = blocks_from(gap, 0);
        let later = blocks_from(text, start);
        assert(all == in_gap + later);
        let k = all.index_of(block);
        if k < in_gap.len() {
            assert(in_gap[k] == block);
            0
        } else {
            assert(next_block(text, start) == start);
            let raw = text.subrange(start, end);
            assert(later == seq![raw] + blocks_from(text, end));
            assert(later[k - in_gap.len()] == block);
            assert(blocks_from(text, end)[k - in_gap.len() - 1] == block);
            let i = lemma_unnamed_place(text, end, block);
            assert(crates_from(text, from).len() == 1 + crates_from(text, end).len());
            if i < crates_from(text, end).len() {
                assert(crates_from(text, from)[i + 1] == crates_from(text, end)[i]);
            }
            i + 1
        }
    } else {
        0
    }
}

proof fn lemma_spaced_holds(blocks: Seq<Seq<char>>, block: Seq<char>)
    requires
        blocks.contains(block),
    ensures
        holds_text(spaced_out(blocks), block),
    decreases blocks.len(),
{
    let rest = blocks.drop_last();
    let last = blocks.last() + "\n\n"@;
    let k = blocks.index_of(block);
    if k == blocks.len() - 1 {
        assert(last.subrange(0, block.len() as int) =~= block);
        assert(occurs_at(last, block, 0));
    } else {
        assert(rest[k] == block);
        lemma_spaced_holds(rest, block);
    }
    lemma_holds_in_concat(spaced_out(rest), last, block);
}

proof fn lemma_between_holds(crates: Seq<CrateSpec>, n: int, i: int, block: Seq<char>)
    requires
        1 <= i < n <= crates.len(),
        blocks_from(crates[i].preceding_content, 0).contains(block),
    ensures
        holds_text(unnamed_between(crates, n), block),
    decreases n,
{
    let spaced = spaced_out(blocks_from(crates[n - 1].preceding_content, 0));
    if i == n - 1 {
        lemma_spaced_holds(blocks_from(crates[i].preceding_content, 0), block);
    } else {
        lemma_between_holds(crates, n - 1, i, block);
    }
    lemma_holds_in_concat(unnamed_between(crates, n - 1), spaced, block);
}

/// A block without a name is kept: it stands in the file that a merge or wiring writes, whatever the
/// definitions in it.
pub proof fn unnamed_blocks_are_kept(text: Seq<char>, crates: Seq<CrateSpec>, block: Seq<char>)
    requires
        blocks_from(text, 0).contains(block),
        single_crate(block) is None,
    ensures
        holds_text(
            rendered(build_file(text).header, crates, kept_trailer(build_file(text))),
            block,
        ),
{
    let file = build_file(text);
    let n = file.crates.len() as int;
    let between = unnamed_between(file.crates, n);
    let i = lemma_unnamed_place(text, 0, block);
    lemma_next_crate(text, 0);
    lemma_crates_end(text, 0);
    reading_keeps_content(text);
    if n == 0 {
        lemma_block_held(text, 0, block);
        assert(text.skip(0) =~= text);
    } else if i == 0 {
        lemma_block_held(file.header, 0, block);
        assert(file.header.skip(0) =~= file.header);
    } else if i < n {
        lemma_between_holds(file.crates, n, i, block);
    } else {
        lemma_block_held(text, crates_end(text, 0), block);
    }
    lemma_holds_in_concat(between, file.trailer, block);
    lemma_holds_in_concat(file.header, crate_entries(crates), block);
    lemma_holds_in_concat(file.header + crate_entries(crates), kept_trailer(file), block);
}

} // verus!
