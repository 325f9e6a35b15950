//! BUILD files: reading their `rust_crate` blocks and writing them back.

use crate::crate_def::{crate_block, generate_crate_block, CrateDefinition, CrateSpec};
use crate::pattern::{
    assignment_pattern, first_assignment, has_pin, is_long_word, is_offset, is_word,
    lemma_byte_offset, quoted,
    regex_captures, regex_find, regex_found, regex_is_match, text_after, PIN_PATTERN,
    QUOTED_PATTERN,
};
use crate::text::{chars_of, find_char, occurs_at, position_of, stands_at, text_between};
use vstd::prelude::*;

verus! {

/// What opens a crate's block.
pub const BLOCK_START: &'static str = "rust_crate(";

/// A BUILD file: its crates and what stands around them.
#[derive(Debug)]
pub struct BuildFileContent {
    pub crates: Vec<CrateDefinition>,
    /// Content before the first crate (subinclude, rust_toolchain, etc.).
    pub header: String,
    /// Content after the last crate.
    pub trailer: String,
}

/// What a [`BuildFileContent`] says.
#[verifier::ext_equal]
pub struct BuildFileSpec {
    pub crates: Seq<CrateSpec>,
    pub header: Seq<char>,
    pub trailer: Seq<char>,
}

impl View for BuildFileContent {
    type V = BuildFileSpec;

    open spec fn view(&self) -> BuildFileSpec {
        BuildFileSpec {
            crates: self.crates.deep_view(),
            header: self.header@,
            trailer: self.trailer@,
        }
    }
}

/// What stands before the first quote, if there is a quote.
pub open spec fn until_quote(text: Seq<char>) -> Option<Seq<char>> {
    let end = find_char(text, '"', 0);
    if end < text.len() {
        Some(text.take(end))
    } else {
        None
    }
}

/// The position of the bracket that closes `depth` open ones, from `from` on.
pub open spec fn closing_bracket(text: Seq<char>, from: int, depth: int) -> Option<int>
    decreases text.len() - from,
{
    if from >= text.len() {
        None
    } else if text[from] == '[' {
        closing_bracket(text, from + 1, depth + 1)
    } else if text[from] == ']' {
        if depth == 1 {
            Some(from)
        } else {
            closing_bracket(text, from + 1, depth - 1)
        }
    } else {
        closing_bracket(text, from + 1, depth)
    }
}

/// What stands before the bracket that closes the list; nothing if the list is not closed.
pub open spec fn until_bracket(text: Seq<char>) -> Seq<char> {
    match closing_bracket(text, 0, 1) {
        Some(end) => text.take(end),
        None => Seq::empty(),
    }
}

/// The string value that follows a match.
pub open spec fn value_at(text: Seq<char>, found: Option<(int, int)>) -> Option<Seq<char>> {
    match found {
        Some((_, end)) => until_quote(text.skip(end)),
        None => None,
    }
}

/// The list items that follow a match.
pub open spec fn items_at(text: Seq<char>, found: Option<(int, int)>) -> Seq<Seq<char>> {
    match found {
        Some((_, end)) => quoted(until_bracket(text.skip(end))),
        None => Seq::empty(),
    }
}

/// The value of the first `field = "value"` in the text.
pub open spec fn string_field(text: Seq<char>, field: Seq<char>) -> Option<Seq<char>> {
    value_at(text, first_assignment(text, field, '"', 0))
}

/// The items of the first `field = ["a", "b"]` in the text.
pub open spec fn list_field(text: Seq<char>, field: Seq<char>) -> Seq<Seq<char>> {
    items_at(text, first_assignment(text, field, '[', 0))
}

/// The definition in one `rust_crate(...)` block; a block without a name has none.
pub open spec fn single_crate(text: Seq<char>) -> Option<CrateSpec> {
    match string_field(text, "name"@) {
        Some(name) => Some(
            CrateSpec {
                name,
                crate_name: string_field(text, "crate"@).unwrap_or(name),
                version: string_field(text, "version"@).unwrap_or("0.0.0"@),
                edition: string_field(text, "edition"@),
                features: list_field(text, "features"@),
                deps: list_field(text, "deps"@),
                crate_type: string_field(text, "crate_type"@),
                build_root: string_field(text, "build_root"@),
                raw_text: text,
                preceding_content: Seq::empty(),
                pinned: false,
                modified: false,
            },
        ),
        None => None,
    }
}

/// Where the first block from `from` on starts; the length of the text if there is none.
pub open spec fn next_block(text: Seq<char>, from: int) -> int
    decreases text.len() - from,
{
    if from >= text.len() {
        text.len() as int
    } else if occurs_at(text, BLOCK_START@, from) {
        from
    } else {
        next_block(text, from + 1)
    }
}

/// The position after the parenthesis that closes `depth` open ones, from `from` on; the length of
/// the text if they are not closed.
pub open spec fn closing_paren(text: Seq<char>, from: int, depth: int) -> int
    decreases text.len() - from,
{
    if depth <= 0 || from >= text.len() {
        from
    } else if text[from] == '(' {
        closing_paren(text, from + 1, depth + 1)
    } else if text[from] == ')' {
        closing_paren(text, from + 1, depth - 1)
    } else {
        closing_paren(text, from + 1, depth)
    }
}

/// Where the block that starts at `start` ends.
pub open spec fn block_end(text: Seq<char>, start: int) -> int {
    closing_paren(text, start + BLOCK_START@.len(), 1)
}

/// Where the first block with a name from `from` on starts; the length of the text if there is none.
/// A block without a name is text like any other.
pub open spec fn next_crate(text: Seq<char>, from: int) -> int
    decreases text.len() - from,
{
    let start = next_block(text, from);
    let end = block_end(text, start);
    if from <= start < end <= text.len() {
        if single_crate(text.subrange(start, end)) is Some {
            start
        } else {
            next_crate(text, end)
        }
    } else {
        text.len() as int
    }
}

/// The blocks of a text from `from` on.
pub open spec fn blocks_from(text: Seq<char>, from: int) -> Seq<Seq<char>>
    decreases text.len() - from,
{
    let start = next_block(text, from);
    let end = block_end(text, start);
    if from <= start < end <= text.len() {
        seq![text.subrange(start, end)] + blocks_from(text, end)
    } else {
        Seq::empty()
    }
}

/// What follows the last block of a text from `from` on.
pub open spec fn after_blocks(text: Seq<char>, from: int) -> Seq<char>
    decreases text.len() - from,
{
    let start = next_block(text, from);
    let end = block_end(text, start);
    if from <= start < end <= text.len() {
        after_blocks(text, end)
    } else {
        text.skip(from)
    }
}

/// Whether a definition after this text is pinned: a pin comment stands after the last block in it.
pub open spec fn is_pinned_by(preceding: Seq<char>) -> bool {
    has_pin(after_blocks(preceding, 0))
}

/// The definitions in the blocks from `from` on, each with what stands between its block and the
/// definition before it.
pub open spec fn crates_from(text: Seq<char>, from: int) -> Seq<CrateSpec>
    decreases text.len() - from,
{
    let start = next_crate(text, from);
    let end = block_end(text, start);
    if from <= start < end <= text.len() {
        let preceding = text.subrange(from, start);
        seq![
            CrateSpec {
                preceding_content: preceding,
                pinned: is_pinned_by(preceding),
                ..single_crate(text.subrange(start, end))->0
            },
        ] + crates_from(text, end)
    } else {
        Seq::empty()
    }
}

/// Where the last block with a name ends; `from` if there is none from there on.
pub open spec fn crates_end(text: Seq<char>, from: int) -> int
    decreases text.len() - from,
{
    let start = next_crate(text, from);
    let end = block_end(text, start);
    if from <= start < end <= text.len() {
        crates_end(text, end)
    } else {
        from
    }
}

/// The BUILD file that the text holds. A text without a definition is all header.
pub open spec fn build_file(text: Seq<char>) -> BuildFileSpec {
    let start = next_crate(text, 0);
    BuildFileSpec {
        crates: crates_from(text, 0),
        header: text.take(start),
        trailer: if start < text.len() {
            text.skip(crates_end(text, 0))
        } else {
            Seq::empty()
        },
    }
}

/// Blocks one after the other, each with a blank line after it.
pub open spec fn spaced_out(blocks: Seq<Seq<char>>) -> Seq<char>
    decreases blocks.len(),
{
    if blocks.len() == 0 {
        Seq::empty()
    } else {
        spaced_out(blocks.drop_last()) + (blocks.last() + "\n\n"@)
    }
}

/// The blocks without a name that stand between the first `n` definitions.
pub open spec fn unnamed_between(crates: Seq<CrateSpec>, n: int) -> Seq<char>
    decreases n,
{
    if n <= 1 {
        Seq::empty()
    } else {
        unnamed_between(crates, n - 1) + spaced_out(
            blocks_from(crates[n - 1].preceding_content, 0),
        )
    }
}

/// What a rewritten file holds after its definitions: the blocks without a name that stood between
/// definitions, and the trailer.
pub open spec fn kept_trailer(file: BuildFileSpec) -> Seq<char> {
    unnamed_between(file.crates, file.crates.len() as int) + file.trailer
}

/// The text of one definition in a written file: its original block if it was not modified and has
/// one, a generated block otherwise.
pub open spec fn crate_entry(c: CrateSpec) -> Seq<char> {
    if !c.modified && c.raw_text.len() > 0 {
        c.raw_text + "\n\n"@
    } else {
        crate_block(c) + "\n"@
    }
}

/// The texts of the definitions of a written file.
pub open spec fn crate_entries(crates: Seq<CrateSpec>) -> Seq<char>
    decreases crates.len(),
{
    if crates.len() == 0 {
        Seq::empty()
    } else {
        crate_entries(crates.drop_last()) + crate_entry(crates.last())
    }
}

/// The text of a BUILD file.
pub open spec fn rendered(header: Seq<char>, crates: Seq<CrateSpec>, trailer: Seq<char>) -> Seq<
    char,
> {
    header + crate_entries(crates) + trailer
}

pub proof fn lemma_next_block(text: Seq<char>, from: int)
    requires
        0 <= from <= text.len(),
    ensures
        from <= next_block(text, from) <= text.len(),
        next_block(text, from) < text.len() ==> occurs_at(
            text,
            BLOCK_START@,
            next_block(text, from),
        ),
        forall|i: int| from <= i < next_block(text, from) ==> !occurs_at(text, BLOCK_START@, i),
    decreases text.len() - from,
{
    if from < text.len() && !occurs_at(text, BLOCK_START@, from) {
        lemma_next_block(text, from + 1);
    }
}

pub proof fn lemma_closing_paren(text: Seq<char>, from: int, depth: int)
    requires
        0 <= from <= text.len(),
    ensures
        from <= closing_paren(text, from, depth) <= text.len(),
    decreases text.len() - from,
{
    if depth > 0 && from < text.len() {
        let next = if text[from] == '(' {
            depth + 1
        } else if text[from] == ')' {
            depth - 1
        } else {
            depth
        };
        lemma_closing_paren(text, from + 1, next);
    }
}

/// A block that starts ends after its start and inside the text.
pub proof fn lemma_block_end(text: Seq<char>, start: int)
    requires
        occurs_at(text, BLOCK_START@, start),
    ensures
        start < block_end(text, start) <= text.len(),
{
    reveal_strlit("rust_crate(");
    lemma_closing_paren(text, start + BLOCK_START@.len(), 1);
}

pub proof fn lemma_next_crate(text: Seq<char>, from: int)
    requires
        0 <= from <= text.len(),
    ensures
        from <= next_crate(text, from) <= text.len(),
        next_crate(text, from) < text.len() ==> {
            let start = next_crate(text, from);
            let end = block_end(text, start);
            &&& occurs_at(text, BLOCK_START@, start)
            &&& start < end <= text.len()
            &&& single_crate(text.subrange(start, end)) is Some
        },
    decreases text.len() - from,
{
    let start = next_block(text, from);
    let end = block_end(text, start);
    lemma_next_block(text, from);
    if from <= start < end <= text.len() && single_crate(text.subrange(start, end)) is None {
        lemma_next_crate(text, end);
    }
}

/// What stands before the first quote of the text, if there is a quote.
pub fn take_until_quote(text: &str) -> (value: Option<String>)
    ensures
        value.deep_view() == until_quote(text@),
{
    let chars = chars_of(text);
    let end = position_of(&chars, '"', 0);
    if end < chars.len() {
        Some(text_between(&chars, 0, end))
    } else {
        None
    }
}

/// What stands before the bracket that closes the list; nothing if the list is not closed.
pub fn take_until_bracket(text: &str) -> (content: String)
    ensures
        content@ == until_bracket(text@),
{
    let chars = chars_of(text);
    let mut inner: usize = 0;
    let mut i: usize = 0;
    while i < chars.len()
        invariant
            chars@ == text@,
            inner <= i <= chars.len(),
            closing_bracket(text@, 0, 1) == closing_bracket(text@, i as int, inner + 1),
        decreases chars.len() - i,
    {
        if chars[i] == '[' {
            inner += 1;
        } else if chars[i] == ']' {
            if inner == 0 {
                return text_between(&chars, 0, i);
            }
            inner -= 1;
        }
        i += 1;
    }
    String::new()
}

/// What stands between the byte offset and the first quote after it, if there is a quote.
pub fn value_after(text: &str, offset: usize) -> (value: Option<String>)
    requires
        exists|i: int| is_offset(text@, offset as int, i),
    ensures
        forall|i: int| #[trigger]
            is_offset(text@, offset as int, i) ==> value.deep_view() == until_quote(text@.skip(i)),
{
    let ghost at = choose|i: int| is_offset(text@, offset as int, i);
    let rest = text_after(text, offset, Ghost(at));
    proof {
        assert forall|i: int| #[trigger] is_offset(text@, offset as int, i) implies i == at by {
            lemma_byte_offset(text@, i, at);
        }
    }
    take_until_quote(rest)
}

/// The quoted texts between the byte offset and the bracket that closes the list there.
pub fn items_after(text: &str, offset: usize) -> (items: Vec<String>)
    requires
        exists|i: int| is_offset(text@, offset as int, i),
    ensures
        forall|i: int| #[trigger]
            is_offset(text@, offset as int, i) ==> items.deep_view() == quoted(
                until_bracket(text@.skip(i)),
            ),
{
    let ghost at = choose|i: int| is_offset(text@, offset as int, i);
    let rest = text_after(text, offset, Ghost(at));
    proof {
        assert forall|i: int| #[trigger] is_offset(text@, offset as int, i) implies i == at by {
            lemma_byte_offset(text@, i, at);
        }
    }
    let content = take_until_bracket(rest);
    let ghost expected = quoted(content@);
    let mut items: Vec<String> = Vec::new();
    assert(items.deep_view() =~= expected.take(0));
    match regex_captures(QUOTED_PATTERN, content.as_str(), 1) {
        Ok(captured) => {
            for i in 0..captured.len()
                invariant
                    captured.deep_view() == expected.map_values(|item: Seq<char>| Some(item)),
                    items.deep_view() == expected.take(i as int),
            {
                let ghost before = items.deep_view();
                assert(captured.deep_view().len() == expected.len());
                assert(captured.deep_view()[i as int] == Some(expected[i as int]));
                if let Some(item) = &captured[i] {
                    items.push(item.clone());
                    assert(items.deep_view() =~= before.push(expected[i as int]));
                }
                assert(items.deep_view() =~= expected.take(i + 1));
            }
            assert(captured.deep_view().len() == expected.len());
            assert(expected.take(captured.len() as int) =~= expected);
        },
        Err(_) => {},
    }
    items
}

/// Extracts a string field like `name = "value"`.
///
/// The field is part of a regular expression: a field of letters, digits and underscores stands
/// for itself, and one that makes no regular expression, or too large a one, has no value. Between
/// the two lengths that are named here, which expressions are too large depends on the machine.
pub fn extract_string_field(text: &str, field: &str) -> (value: Option<String>)
    ensures
        is_word(field@) ==> value.deep_view() == string_field(text@, field@),
        is_long_word(field@) ==> value is None,
        value is None || value.deep_view() == value_at(
            text@,
            regex_found(assignment_pattern(field@, '"'), text@),
        ),
{
    let mut pattern = field.to_string();
    pattern.append("\\s*=\\s*\"");
    assert(pattern@ == assignment_pattern(field@, '"'));
    match regex_find(pattern.as_str(), text) {
        Ok(Some((_, end))) => {
            proof {
                let found = regex_found(pattern@, text@);
                assert(is_offset(text@, end as int, found.unwrap().1));
                if is_word(field@) {
                    let first = first_assignment(text@, field@, '"', 0);
                    assert(is_offset(text@, end as int, first.unwrap().1));
                }
            }
            value_after(text, end)
        },
        _ => None,
    }
}

/// Extracts a list field like `features = ["a", "b"]`.
///
/// The field is part of a regular expression: a field of letters, digits and underscores stands
/// for itself, and one that makes no regular expression, or too large a one, has no items. Between
/// the two lengths that are named here, which expressions are too large depends on the machine.
pub fn extract_list_field(text: &str, field: &str) -> (items: Vec<String>)
    ensures
        is_word(field@) ==> items.deep_view() == list_field(text@, field@),
        is_long_word(field@) ==> items@.len() == 0,
        items@.len() == 0 || items.deep_view() == items_at(
            text@,
            regex_found(assignment_pattern(field@, '['), text@),
        ),
{
    let mut pattern = field.to_string();
    pattern.append("\\s*=\\s*\\[");
    assert(pattern@ == assignment_pattern(field@, '['));
    match regex_find(pattern.as_str(), text) {
        Ok(Some((_, end))) => {
            proof {
                let found = regex_found(pattern@, text@);
                assert(is_offset(text@, end as int, found.unwrap().1));
                if is_word(field@) {
                    let first = first_assignment(text@, field@, '[', 0);
                    assert(is_offset(text@, end as int, first.unwrap().1));
                }
            }
            items_after(text, end)
        },
        _ => {
            let none: Vec<String> = Vec::new();
            assert(none.deep_view() =~= Seq::<Seq<char>>::empty());
            none
        },
    }
}

/// Parses a single `rust_crate(...)` block.
pub fn parse_single_crate(text: &str) -> (result: Option<CrateDefinition>)
    ensures
        result.deep_view() == single_crate(text@),
{
    proof {
        lemma_field_words();
    }
    let name = match extract_string_field(text, "name") {
        Some(name) => name,
        None => {
            return None;
        },
    };
    let crate_name = match extract_string_field(text, "crate") {
        Some(crate_name) => crate_name,
        None => name.clone(),
    };
    let version = match extract_string_field(text, "version") {
        Some(version) => version,
        None => "0.0.0".to_string(),
    };
    let edition = extract_string_field(text, "edition");
    let crate_type = extract_string_field(text, "crate_type");
    let build_root = extract_string_field(text, "build_root");
    let features = extract_list_field(text, "features");
    let deps = extract_list_field(text, "deps");
    Some(
        CrateDefinition {
            name,
            crate_name,
            version,
            edition,
            features,
            deps,
            crate_type,
            build_root,
            raw_text: text.to_string(),
            preceding_content: String::new(),
            pinned: false,
            modified: false,
        },
    )
}

/// The names of the fields are words.
pub proof fn lemma_field_words()
    ensures
        is_word("name"@),
        is_word("crate"@),
        is_word("version"@),
        is_word("edition"@),
        is_word("features"@),
        is_word("deps"@),
        is_word("crate_type"@),
        is_word("build_root"@),
{
    reveal_strlit("name");
    reveal_strlit("crate");
    reveal_strlit("version");
    reveal_strlit("edition");
    reveal_strlit("features");
    reveal_strlit("deps");
    reveal_strlit("crate_type");
    reveal_strlit("build_root");
}

/// Whether the text holds a pin comment.
fn is_pinned(text: &str) -> (pinned: bool)
    ensures
        pinned == has_pin(text@),
{
    match regex_is_match(PIN_PATTERN, text) {
        Ok(pinned) => pinned,
        Err(_) => false,
    }
}

/// Where the block that starts at `start` ends.
fn find_block_end(chars: &Vec<char>, start: usize) -> (end: usize)
    requires
        occurs_at(chars@, BLOCK_START@, start as int),
    ensures
        end == block_end(chars@, start as int),
        start < end <= chars.len(),
{
    proof {
        reveal_strlit("rust_crate(");
        lemma_block_end(chars@, start as int);
        assert(BLOCK_START@.len() == 11);
        assert(start + 11 <= chars.len());
    }
    let mut i: usize = start + 11;
    let mut depth: usize = 1;
    while i < chars.len() && depth > 0
        invariant
            start + 11 <= i <= chars.len(),
            depth <= i,
            block_end(chars@, start as int) == closing_paren(chars@, i as int, depth as int),
        decreases chars.len() - i,
    {
        if chars[i] == '(' {
            depth += 1;
        } else if chars[i] == ')' {
            depth -= 1;
        }
        i += 1;
    }
    i
}

/// The blocks of a text, and what follows the last one.
fn split_blocks(content: &str) -> (result: (Vec<String>, String))
    ensures
        result.0.deep_view() == blocks_from(content@, 0),
        result.1@ == after_blocks(content@, 0),
{
    let chars = chars_of(content);
    let mark = chars_of(BLOCK_START);
    let mut blocks: Vec<String> = Vec::new();
    let mut i: usize = 0;
    let mut last_end: usize = 0;
    assert(blocks.deep_view() =~= Seq::<Seq<char>>::empty());
    assert(blocks.deep_view() + blocks_from(chars@, 0) =~= blocks_from(chars@, 0));
    while i < chars.len()
        invariant
            chars@ == content@,
            mark@ == BLOCK_START@,
            last_end <= i <= chars.len(),
            next_block(chars@, last_end as int) == next_block(chars@, i as int),
            blocks_from(chars@, 0) == blocks.deep_view() + blocks_from(chars@, last_end as int),
            after_blocks(chars@, 0) == after_blocks(chars@, last_end as int),
        decreases chars.len() - i,
    {
        if stands_at(&chars, &mark, i) {
            let end = find_block_end(&chars, i);
            let block = text_between(&chars, i, end);
            let ghost before = blocks.deep_view();
            let ghost shown = block@;
            let ghost rest = blocks_from(chars@, end as int);
            blocks.push(block);
            assert(blocks.deep_view() =~= before.push(shown));
            assert(before + (seq![shown] + rest) =~= blocks.deep_view() + rest);
            last_end = end;
            i = end;
        } else {
            i += 1;
        }
    }
    assert(blocks_from(chars@, last_end as int) =~= Seq::<Seq<char>>::empty());
    assert(blocks.deep_view() + Seq::<Seq<char>>::empty() =~= blocks.deep_view());
    let rest = text_between(&chars, last_end, chars.len());
    assert(rest@ =~= chars@.skip(last_end as int));
    (blocks, rest)
}

/// Parses a BUILD file, preserving its full structure.
pub fn parse_build_file_full(content: &str) -> (result: BuildFileContent)
    ensures
        result@ == build_file(content@),
{
    let chars = chars_of(content);
    let mark = chars_of(BLOCK_START);
    let mut crates: Vec<CrateDefinition> = Vec::new();
    let mut i: usize = 0;
    let mut last_end: usize = 0;
    let mut header_end: usize = chars.len();
    let mut found_crate: bool = false;
    assert(crates.deep_view() =~= Seq::<CrateSpec>::empty());
    assert(crates.deep_view() + crates_from(chars@, 0) =~= crates_from(chars@, 0));
    while i < chars.len()
        invariant
            chars@ == content@,
            mark@ == BLOCK_START@,
            last_end <= i <= chars.len(),
            next_crate(chars@, last_end as int) == next_crate(chars@, i as int),
            crates_from(chars@, 0) == crates.deep_view() + crates_from(chars@, last_end as int),
            crates_end(chars@, 0) == crates_end(chars@, last_end as int),
            found_crate ==> header_end == next_crate(chars@, 0) && header_end < chars.len(),
            !found_crate ==> last_end == 0 && header_end == chars.len(),
        decreases chars.len() - i,
    {
        proof {
            lemma_next_crate(chars@, last_end as int);
        }
        if stands_at(&chars, &mark, i) {
            let start = i;
            let end = find_block_end(&chars, start);
            let raw_text = text_between(&chars, start, end);
            if let Some(parsed) = parse_single_crate(raw_text.as_str()) {
                assert(next_crate(chars@, i as int) == start);
                if !found_crate {
                    header_end = start;
                    found_crate = true;
                }
                let preceding = text_between(&chars, last_end, start);
                let (_, gap) = split_blocks(preceding.as_str());
                let pinned = is_pinned(gap.as_str());
                let ghost before = crates.deep_view();
                let ghost rest = crates_from(chars@, end as int);
                let mut parsed = parsed;
                parsed.preceding_content = preceding;
                parsed.pinned = pinned;
                parsed.modified = false;
                let ghost one = parsed@;
                crates.push(parsed);
                assert(crates.deep_view() =~= before.push(one));
                assert(before + (seq![one] + rest) =~= crates.deep_view() + rest);
                last_end = end;
            }
            i = end;
        } else {
            assert(next_block(chars@, i as int) == next_block(chars@, i + 1));
            proof {
                lemma_next_crate_step(chars@, i as int);
            }
            i += 1;
        }
    }
    proof {
        assert(next_crate(chars@, i as int) == chars.len());
        assert(crates_from(chars@, last_end as int) =~= Seq::<CrateSpec>::empty());
        assert(crates.deep_view() + Seq::<CrateSpec>::empty() =~= crates.deep_view());
    }
    let header = text_between(&chars, 0, header_end);
    let trailer = if found_crate {
        text_between(&chars, last_end, chars.len())
    } else {
        String::new()
    };
    BuildFileContent { crates, header, trailer }
}

/// Where no block starts, the next definition is the one after.
pub proof fn lemma_next_crate_step(text: Seq<char>, from: int)
    requires
        0 <= from < text.len(),
        !occurs_at(text, BLOCK_START@, from),
    ensures
        next_crate(text, from) == next_crate(text, from + 1),
{
    lemma_next_block(text, from + 1);
}

/// Parses the `rust_crate` definitions of a BUILD file.
pub fn parse_build_file(content: &str) -> (crates: Vec<CrateDefinition>)
    ensures
        crates.deep_view() == build_file(content@).crates,
{
    parse_build_file_full(content).crates
}

/// The text of one definition in a written file.
fn render_entry(crate_def: &CrateDefinition) -> (entry: String)
    ensures
        entry@ == crate_entry(crate_def@),
{
    if !crate_def.modified && !crate_def.raw_text.as_str().is_empty() {
        let mut entry = crate_def.raw_text.clone();
        entry.append("\n\n");
        entry
    } else {
        let mut entry = generate_crate_block(crate_def);
        entry.append("\n");
        entry
    }
}

/// The text of a BUILD file: what stands before the crates, the crates, and what stands after them.
/// Definitions that were not modified keep their original block.
pub fn render_build_file(header: &str, crates: &Vec<CrateDefinition>, trailer: &str) -> (content:
    String)
    ensures
        content@ == rendered(header@, crates.deep_view(), trailer@),
{
    let mut entries = String::new();
    for i in 0..crates.len()
        invariant
            entries@ == crate_entries(crates.deep_view().take(i as int)),
    {
        assert(crates.deep_view().take(i + 1).drop_last() =~= crates.deep_view().take(i as int));
        entries.append(render_entry(&crates[i]).as_str());
    }
    assert(crates.deep_view().take(crates.len() as int) =~= crates.deep_view());
    let mut content = header.to_string();
    content.append(entries.as_str());
    content.append(trailer);
    content
}

/// What a rewritten file holds after its definitions: the blocks without a name that stood between
/// definitions, and the trailer.
pub fn generate_kept_trailer(file: &BuildFileContent) -> (trailer: String)
    ensures
        trailer@ == kept_trailer(file@),
{
    let ghost all = file.crates.deep_view();
    let mut kept = String::new();
    let mut n: usize = 1;
    while n < file.crates.len()
        invariant
            all == file.crates.deep_view(),
            1 <= n,
            n <= file.crates.len() || n == 1,
            kept@ == unnamed_between(all, n as int),
        decreases file.crates.len() - n,
    {
        let (blocks, _) = split_blocks(file.crates[n].preceding_content.as_str());
        let mut text = String::new();
        let ghost found = blocks.deep_view();
        for i in 0..blocks.len()
            invariant
                found == blocks.deep_view(),
                text@ == spaced_out(found.take(i as int)),
        {
            assert(found.take(i + 1).drop_last() =~= found.take(i as int));
            let mut block = blocks[i].clone();
            block.append("\n\n");
            text.append(block.as_str());
        }
        assert(found.take(blocks.len() as int) =~= found);
        kept.append(text.as_str());
        n += 1;
    }
    kept.append(file.trailer.as_str());
    kept
}

} // verus!
