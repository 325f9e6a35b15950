//! Regular expressions over text, and what the patterns of BUILD files match.

use crate::text::{find_char, occurs_at};
use vstd::prelude::*;
use vstd::utf8::{decode_utf8, encode_scalar, encode_utf8, is_char_boundary};

verus! {

/// Why a regular expression could not be compiled.
#[verifier::external_type_specification]
#[verifier::external_body]
pub struct ExRegexError(regex_lite::Error);

/// The longest word whose patterns compile on every machine. The compiled form of a pattern may take
/// 10 MiB; it has one state for each character of a word and a few more, and a state is a vector, a
/// number and a tag, which is less than 52 bytes.
pub const MAX_WORD_LEN: usize = 200_000;

/// The shortest word whose patterns compile on no machine: a state takes at least 16 bytes.
pub const LONG_WORD_LEN: usize = 655_360;

/// The pattern of a pin comment.
pub const PIN_PATTERN: &'static str = "[#;]\\s*straddle_carrier:do_not_touch";

/// The pattern of a quoted string; its first group is what stands between the quotes.
pub const QUOTED_PATTERN: &'static str = "\"([^\"]*)\"";

/// Whether `\s` matches the character.
pub open spec fn is_space(c: char) -> bool {
    c == ' ' || c == '\t' || c == '\n' || c == '\r' || c == '\x0b' || c == '\x0c'
}

/// The first position from `from` on that holds no space; the length of the text if there is none.
pub open spec fn skip_space(text: Seq<char>, from: int) -> int
    decreases text.len() - from,
{
    if from >= text.len() {
        text.len() as int
    } else if is_space(text[from]) {
        skip_space(text, from + 1)
    } else {
        from
    }
}

/// Whether the text is letters, digits and underscores, which stand for themselves in a pattern.
pub open spec fn is_spelled(text: Seq<char>) -> bool {
    forall|i: int| 0 <= i < text.len() ==> is_word_char(#[trigger] text[i])
}

/// Whether the text is letters, digits and underscores, and its patterns compile.
pub open spec fn is_word(text: Seq<char>) -> bool {
    is_spelled(text) && text.len() <= MAX_WORD_LEN
}

/// Whether the text is letters, digits and underscores, and too long for a pattern.
pub open spec fn is_long_word(text: Seq<char>) -> bool {
    is_spelled(text) && text.len() >= LONG_WORD_LEN
}

/// Whether the character is an ASCII letter, a digit or an underscore.
pub open spec fn is_word_char(c: char) -> bool {
    'a' <= c <= 'z' || 'A' <= c <= 'Z' || '0' <= c <= '9' || c == '_'
}

/// The pattern of `word = "` or `word = [`, with any spaces around the equals sign.
pub open spec fn assignment_pattern(word: Seq<char>, open: char) -> Seq<char> {
    word + (if open == '[' {
        "\\s*=\\s*\\["@
    } else {
        "\\s*=\\s*\""@
    })
}

/// Where an assignment to `word` that starts at `at` ends, if there is one: after the quote or
/// bracket `open`.
pub open spec fn assignment_end(text: Seq<char>, word: Seq<char>, open: char, at: int) -> Option<
    int,
> {
    let equals = skip_space(text, at + word.len());
    let value = skip_space(text, equals + 1);
    if occurs_at(text, word, at) && equals < text.len() && text[equals] == '='
        && value < text.len() && text[value] == open {
        Some(value + 1)
    } else {
        None
    }
}

/// Start and end of the first assignment to `word` from `from` on.
pub open spec fn first_assignment(text: Seq<char>, word: Seq<char>, open: char, from: int) -> Option<
    (int, int),
>
    decreases text.len() - from,
{
    if from >= text.len() {
        None
    } else {
        match assignment_end(text, word, open, from) {
            Some(end) => Some((from, end)),
            None => first_assignment(text, word, open, from + 1),
        }
    }
}

/// The texts between successive pairs of quotes.
pub open spec fn quoted(text: Seq<char>) -> Seq<Seq<char>>
    decreases text.len(),
{
    let start = find_char(text, '"', 0);
    let end = find_char(text, '"', start + 1);
    if 0 <= start < end < text.len() {
        seq![text.subrange(start + 1, end)] + quoted(text.skip(end + 1))
    } else {
        Seq::empty()
    }
}

/// Whether a pin comment stands at `at`: `#` or `;`, spaces, and the pin's name.
pub open spec fn is_pin_at(text: Seq<char>, at: int) -> bool {
    &&& 0 <= at < text.len()
    &&& (text[at] == '#' || text[at] == ';')
    &&& occurs_at(text, "straddle_carrier:do_not_touch"@, skip_space(text, at + 1))
}

/// Whether the text holds a pin comment.
pub open spec fn has_pin(text: Seq<char>) -> bool {
    exists|at: int| is_pin_at(text, at)
}

/// The byte offset of the character position `i` of a text.
pub open spec fn byte_offset(text: Seq<char>, i: int) -> int {
    encode_utf8(text.take(i)).len() as int
}

/// Whether `offset` is the byte offset of the character position `i` of the text.
pub open spec fn is_offset(text: Seq<char>, offset: int, i: int) -> bool {
    0 <= i <= text.len() && offset == byte_offset(text, i)
}

/// Whether `found`, in bytes, is `at`, in characters.
pub open spec fn is_span(
    text: Seq<char>,
    found: Option<(usize, usize)>,
    at: Option<(int, int)>,
) -> bool {
    match (found, at) {
        (Some((start, end)), Some((i, j))) => {
            &&& 0 <= i <= j <= text.len()
            &&& start == byte_offset(text, i)
            &&& end == byte_offset(text, j)
        },
        (None, None) => true,
        _ => false,
    }
}

/// Whether a pattern that compiles matches somewhere in the text.
pub uninterp spec fn regex_matches(pattern: Seq<char>, text: Seq<char>) -> bool;

/// Start and end of the leftmost match, in characters, of a pattern that compiles.
pub uninterp spec fn regex_found(pattern: Seq<char>, text: Seq<char>) -> Option<(int, int)>;

/// What the group holds in each successive match of a pattern that compiles.
pub uninterp spec fn regex_captured(pattern: Seq<char>, text: Seq<char>, group: int) -> Seq<
    Option<Seq<char>>,
>;

/// `regex_lite::Regex::is_match` on the pattern compiled by `regex_lite::Regex::new`.
///
/// Whether a pattern compiles also depends on the memory that the compiled form takes, so nothing
/// is said of that in general. A pattern that compiles gives an answer that depends on the pattern
/// and the text alone. The pattern of a pin comment compiles, and matches exactly where one of `#`
/// and `;` is followed by ASCII spaces and the pin's name.
#[verifier::external_body]
pub(crate) fn regex_is_match(pattern: &str, text: &str) -> (result: Result<bool, regex_lite::Error>)
    ensures
        result is Ok ==> result->Ok_0 == regex_matches(pattern@, text@),
        pattern@ == PIN_PATTERN@ ==> result is Ok && result->Ok_0 == has_pin(text@),
{
    Ok(regex_lite::Regex::new(pattern)?.is_match(text))
}

/// `regex_lite::Regex::find` on the pattern compiled by `regex_lite::Regex::new`, as the byte
/// offsets of the match.
///
/// Whether a pattern compiles also depends on the memory that the compiled form takes, so nothing
/// is said of that in general. A pattern that compiles gives a match that depends on the pattern
/// and the text alone and lies on character boundaries. The pattern of an assignment to a word of
/// letters, digits and underscores, or to nothing, compiles if the word is not too long, and its
/// leftmost match is the first assignment: the word, ASCII spaces, an equals sign, ASCII spaces, and
/// the quote or bracket. That of a far longer word exceeds the size limit.
#[verifier::external_body]
pub(crate) fn regex_find(pattern: &str, text: &str) -> (result: Result<Option<(usize, usize)>, regex_lite::Error>)
    ensures
        result is Ok ==> is_span(text@, result->Ok_0, regex_found(pattern@, text@)),
        forall|word: Seq<char>, open: char|
            is_word(word) && (open == '"' || open == '[') && pattern@ == #[trigger] assignment_pattern(
                word,
                open,
            ) ==> result is Ok && is_span(
                text@,
                result->Ok_0,
                first_assignment(text@, word, open, 0),
            ),
        forall|word: Seq<char>, open: char|
            is_long_word(word) && (open == '"' || open == '[') && pattern@
                == #[trigger] assignment_pattern(word, open) ==> result is Err,
{
    Ok(regex_lite::Regex::new(pattern)?.find(text).map(|m| (m.start(), m.end())))
}

/// `regex_lite::Regex::captures_iter` on the pattern compiled by `regex_lite::Regex::new`, as the
/// text of one group in each match.
///
/// Whether a pattern compiles also depends on the memory that the compiled form takes, so nothing
/// is said of that in general. A pattern that compiles gives matches that depend on the pattern
/// and the text alone. The pattern of a quoted string compiles; its successive matches are the
/// successive pairs of quotes, and its first group is what stands between them.
#[verifier::external_body]
pub(crate) fn regex_captures(pattern: &str, text: &str, group: usize) -> (result: Result<Vec<Option<String>>, regex_lite::Error>)
    ensures
        result is Ok ==> result->Ok_0.deep_view() == regex_captured(
            pattern@,
            text@,
            group as int,
        ),
        pattern@ == QUOTED_PATTERN@ && group == 1 ==> result is Ok
            && result->Ok_0.deep_view() == quoted(text@).map_values(|item: Seq<char>| Some(item)),
{
    let re = regex_lite::Regex::new(pattern)?;
    Ok(re.captures_iter(text).map(|c| c.get(group).map(|m| m.as_str().to_string())).collect())
}

proof fn lemma_encode_concat(a: Seq<char>, b: Seq<char>)
    ensures
        encode_utf8(a + b) == encode_utf8(a) + encode_utf8(b),
    decreases a.len(),
{
    if a.len() == 0 {
        assert(a + b =~= b);
        assert(encode_utf8(a) + encode_utf8(b) =~= encode_utf8(b));
    } else {
        assert((a + b).drop_first() =~= a.drop_first() + b);
        lemma_encode_concat(a.drop_first(), b);
        let head = encode_scalar(a[0] as u32);
        assert(head + (encode_utf8(a.drop_first()) + encode_utf8(b)) =~= (head + encode_utf8(
            a.drop_first(),
        )) + encode_utf8(b));
    }
}

proof fn lemma_boundary(a: Seq<char>, b: Seq<char>)
    ensures
        is_char_boundary(encode_utf8(a + b), encode_utf8(a).len() as int),
    decreases a.len(),
{
    let bytes = encode_utf8(a + b);
    vstd::utf8::encode_utf8_valid_utf8(a + b);
    if a.len() > 0 {
        assert((a + b).drop_first() =~= a.drop_first() + b);
        vstd::utf8::encode_utf8_first_scalar(a + b);
        assert(vstd::utf8::pop_first_scalar(bytes) =~= encode_utf8(a.drop_first() + b));
        lemma_boundary(a.drop_first(), b);
        lemma_encode_concat(a, b);
    }
}

/// Each character position has its own byte offset.
pub proof fn lemma_byte_offset(text: Seq<char>, i: int, j: int)
    requires
        0 <= i <= text.len(),
        0 <= j <= text.len(),
        byte_offset(text, i) == byte_offset(text, j),
    ensures
        i == j,
{
    let (a, b) = if i <= j { (i, j) } else { (j, i) };
    let between = text.subrange(a, b);
    assert(text.take(b) =~= text.take(a) + between);
    lemma_encode_concat(text.take(a), between);
    if between.len() > 0 {
        vstd::utf8::char_is_scalar(between[0]);
        assert(encode_scalar(between[0] as u32).len() > 0);
    }
}

/// What follows the character position `i` of the text, given its byte offset.
pub(crate) fn text_after<'a>(text: &'a str, offset: usize, Ghost(i): Ghost<int>) -> (rest: &'a str)
    requires
        0 <= i <= text@.len(),
        offset == byte_offset(text@, i),
    ensures
        rest@ == text@.skip(i),
{
    let ghost a = text@.take(i);
    let ghost b = text@.skip(i);
    proof {
        assert(a + b =~= text@);
        lemma_encode_concat(a, b);
        lemma_boundary(a, b);
    }
    let (_, rest) = text.split_at(offset);
    proof {
        assert(encode_utf8(rest@) =~= encode_utf8(b));
        vstd::utf8::encode_utf8_decode_utf8(rest@);
        vstd::utf8::encode_utf8_decode_utf8(b);
        assert(decode_utf8(encode_utf8(rest@)) == b);
    }
    rest
}

} // verus!
