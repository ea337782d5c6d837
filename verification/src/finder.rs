//! Finding the tags of a text with the `regex` crate.

use crate::tag::{has_token, is_token};
use vstd::prelude::*;
use vstd::utf8::*;

verus! {

/// The pattern of a tag, in the syntax of the `regex` crate: without regard
/// to case, an opening bracket, one or more of `a` to `z`, `0` to `9`, `_`
/// and `-`, and a closing bracket.
pub fn tag_pattern() -> (pattern: &'static str)
    ensures
        pattern@ == tag_pattern_text(),
{
    "(?i)\\[[a-z0-9_-]+\\]"
}

/// The characters of [`tag_pattern`].
pub open spec fn tag_pattern_text() -> Seq<char> {
    "(?i)\\[[a-z0-9_-]+\\]"@
}

/// What `text` holds between two byte offsets of its UTF-8 encoding.
pub open spec fn piece(text: Seq<char>, from: int, to: int) -> Seq<char> {
    decode_utf8(encode_utf8(text).subrange(from, to))
}

/// The byte offset at which the text before span `i` begins: the start of
/// the text, or the end of the span before. With `i` the number of spans,
/// it is where the text after the last span begins.
pub open spec fn gap_start(spans: Seq<(usize, usize)>, i: int) -> int {
    if i == 0 {
        0
    } else {
        spans[i - 1].1 as int
    }
}

/// Whether `spans` are the tags of `text`, as byte offsets of start and end
/// into its UTF-8 encoding: they come in order and do not overlap, each
/// begins and ends between two characters and holds one tag, and no tag
/// stands in the text before, between or after them.
#[verifier::opaque]
pub open spec fn splits_at_tags(text: Seq<char>, spans: Seq<(usize, usize)>) -> bool {
    let bytes = encode_utf8(text);
    &&& forall|i: int|
        0 <= i < spans.len() ==> {
            &&& gap_start(spans, i) <= (#[trigger] spans[i]).0 < spans[i].1 <= bytes.len()
            &&& is_char_boundary(bytes, spans[i].0 as int)
            &&& is_char_boundary(bytes, spans[i].1 as int)
            &&& is_token(piece(text, spans[i].0 as int, spans[i].1 as int))
            &&& !has_token(piece(text, gap_start(spans, i), spans[i].0 as int))
        }
    &&& !has_token(piece(text, gap_start(spans, spans.len() as int), bytes.len() as int))
}

/// What [`splits_at_tags`] says of span `i`.
pub proof fn lemma_span(text: Seq<char>, spans: Seq<(usize, usize)>, i: int)
    requires
        splits_at_tags(text, spans),
        0 <= i < spans.len(),
    ensures
        gap_start(spans, i) <= spans[i].0 < spans[i].1 <= encode_utf8(text).len(),
        is_char_boundary(encode_utf8(text), spans[i].0 as int),
        is_char_boundary(encode_utf8(text), spans[i].1 as int),
        is_token(piece(text, spans[i].0 as int, spans[i].1 as int)),
        !has_token(piece(text, gap_start(spans, i), spans[i].0 as int)),
{
    reveal(splits_at_tags);
}

/// What [`splits_at_tags`] says of the text after the last span.
pub proof fn lemma_after_spans(text: Seq<char>, spans: Seq<(usize, usize)>)
    requires
        splits_at_tags(text, spans),
    ensures
        !has_token(
            piece(text, gap_start(spans, spans.len() as int), encode_utf8(text).len() as int),
        ),
{
    reveal(splits_at_tags);
}

/// Calls `regex::Regex::new` on `pattern` and `Regex::find_iter` on `text`,
/// and hands out `Match::start` and `Match::end` of each match, in the order
/// in which the iterator yields them.
///
/// Nothing of this is proved. The contract rests on what the `regex` crate
/// says of itself:
/// - `Regex::new` accepts the tag pattern, the one pattern that is let in
///   here, so nothing fails.
/// - The iterator yields successive matches that do not overlap, from left
///   to right, each the leftmost that begins at or after the end of the one
///   before. So no tag stands before the first match, between two matches or
///   after the last.
/// - A match of the tag pattern is one tag. Under `(?i)` the letters are
///   those that Unicode's simple case folding maps to `a` to `z`: the ASCII
///   letters of either case, the long s and the Kelvin sign.
/// - The offsets count bytes of the UTF-8 encoding and fall between two
///   characters.
#[verifier::external_body]
pub(crate) fn find_spans(pattern: &str, text: &str) -> (spans: Vec<(usize, usize)>)
    requires
        pattern@ == tag_pattern_text(),
    ensures
        splits_at_tags(text@, spans@),
{
    let finder = regex::Regex::new(pattern).unwrap();
    finder.find_iter(text).map(|found| (found.start(), found.end())).collect()
}

} // verus!
