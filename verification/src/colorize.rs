//! The colouriser: a table and two settings, and the two functions on text.

use crate::finder::{
    find_spans, gap_start, lemma_after_spans, lemma_span, piece, splits_at_tags, tag_pattern,
};
use crate::laws::lemma_plain_text_unchanged;
use crate::markup::{
    colorized, decimal, digit_char, escape_sequence, has_known, is_known, lemma_rendered_gap,
    lemma_rendered_token, lemma_token_free_head, rendered, replacement, starts_fresh,
};
use crate::table::{builtin_colors, ColorTable};
use crate::tag::{is_token, lemma_token_len, lemma_token_len_is, token_len};
use vstd::prelude::*;
use vstd::string::*;
use vstd::utf8::*;

verus! {

/// A point between two characters of a text is one of its tail too.
proof fn lemma_boundary_in_tail(bytes: Seq<u8>, from: int, at: int)
    requires
        valid_utf8(bytes),
        0 <= from <= at <= bytes.len(),
        is_char_boundary(bytes, from),
        is_char_boundary(bytes, at),
    ensures
        valid_utf8(bytes.subrange(from, bytes.len() as int)),
        is_char_boundary(bytes.subrange(from, bytes.len() as int), at - from),
{
    let tail = bytes.subrange(from, bytes.len() as int);
    valid_utf8_split(bytes, from);
    if at == from {
    } else if at == bytes.len() {
        is_char_boundary_start_end_of_seq(tail);
    } else {
        is_char_boundary_iff_not_is_continuation_byte(bytes, at);
        is_char_boundary_iff_not_is_continuation_byte(tail, at - from);
        assert(tail[at - from] == bytes[at]);
    }
}

/// The two parts of `s` before and after the byte offset `mid`.
fn split_text<'a>(s: &'a str, mid: usize) -> (parts: (&'a str, &'a str))
    requires
        mid <= s.spec_bytes().len(),
        is_char_boundary(s.spec_bytes(), mid as int),
    ensures
        parts.0@ + parts.1@ == s@,
        parts.0@ == decode_utf8(s.spec_bytes().subrange(0, mid as int)),
        parts.1.spec_bytes() == s.spec_bytes().subrange(mid as int, s.spec_bytes().len() as int),
{
    let parts = s.split_at(mid);
    proof {
        let bytes = s.spec_bytes();
        encode_utf8_valid_utf8(s@);
        decode_utf8_split(bytes, mid as int);
        encode_utf8_decode_utf8(s@);
        encode_utf8_decode_utf8(parts.0@);
        encode_utf8_decode_utf8(parts.1@);
    }
    parts
}

/// The three parts of `rest`, the tail of a text from byte offset `pos`:
/// what stands before `start`, from `start` to `end`, and after `end`.
fn split_span<'a>(
    rest: &'a str,
    pos: usize,
    start: usize,
    end: usize,
    Ghost(bytes): Ghost<Seq<u8>>,
) -> (parts: (&'a str, &'a str, &'a str))
    requires
        valid_utf8(bytes),
        pos <= start <= end <= bytes.len(),
        is_char_boundary(bytes, pos as int),
        is_char_boundary(bytes, start as int),
        is_char_boundary(bytes, end as int),
        rest.spec_bytes() == bytes.subrange(pos as int, bytes.len() as int),
    ensures
        parts.0@ + (parts.1@ + parts.2@) == rest@,
        parts.0@ == decode_utf8(bytes.subrange(pos as int, start as int)),
        parts.1@ == decode_utf8(bytes.subrange(start as int, end as int)),
        parts.2.spec_bytes() == bytes.subrange(end as int, bytes.len() as int),
{
    proof {
        lemma_boundary_in_tail(bytes, pos as int, start as int);
        assert(bytes.subrange(pos as int, bytes.len() as int).subrange(0, start - pos)
            == bytes.subrange(pos as int, start as int));
        assert(bytes.subrange(pos as int, bytes.len() as int).subrange(
            start - pos,
            bytes.len() - pos,
        ) == bytes.subrange(start as int, bytes.len() as int));
    }
    let (gap, tail) = split_text(rest, start - pos);
    proof {
        lemma_boundary_in_tail(bytes, start as int, end as int);
        assert(bytes.subrange(start as int, bytes.len() as int).subrange(0, end - start)
            == bytes.subrange(start as int, end as int));
        assert(bytes.subrange(start as int, bytes.len() as int).subrange(
            end - start,
            bytes.len() - start,
        ) == bytes.subrange(end as int, bytes.len() as int));
    }
    let (token, after) = split_text(tail, end - start);
    (gap, token, after)
}

/// A text is what stands before a point between two of its characters
/// and what stands after it; what stands before a later point is not empty.
proof fn lemma_text_around(text: Seq<char>, at: int)
    requires
        0 <= at <= encode_utf8(text).len(),
        is_char_boundary(encode_utf8(text), at),
    ensures
        text == piece(text, 0, at) + piece(text, at, encode_utf8(text).len() as int),
        at > 0 ==> piece(text, 0, at).len() > 0,
{
    let bytes = encode_utf8(text);
    encode_utf8_valid_utf8(text);
    encode_utf8_decode_utf8(text);
    decode_utf8_split(bytes, at);
    valid_utf8_split(bytes, at);
}

/// The one-character string of the digit `d`.
fn digit_str(d: u8) -> (s: &'static str)
    requires
        d < 10,
    ensures
        s@ == seq![digit_char(d as nat)],
{
    proof {
        reveal_strlit("0");
        reveal_strlit("1");
        reveal_strlit("2");
        reveal_strlit("3");
        reveal_strlit("4");
        reveal_strlit("5");
        reveal_strlit("6");
        reveal_strlit("7");
        reveal_strlit("8");
        reveal_strlit("9");
    }
    let s = match d {
        0 => "0",
        1 => "1",
        2 => "2",
        3 => "3",
        4 => "4",
        5 => "5",
        6 => "6",
        7 => "7",
        8 => "8",
        _ => "9",
    };
    assert(s@ =~= seq![digit_char(d as nat)]);
    s
}

/// Appends the escape sequence of `code` to `out`.
fn push_escape(out: &mut String, code: u8)
    ensures
        final(out)@ == old(out)@ + escape_sequence(code),
{
    proof {
        reveal_strlit("\x1B[");
        reveal_strlit("m");
        reveal_with_fuel(decimal, 3);
    }
    out.append("\x1B[");
    if code >= 100 {
        out.append(digit_str(code / 100));
    }
    if code >= 10 {
        out.append(digit_str((code / 10) % 10));
    }
    out.append(digit_str(code % 10));
    out.append("m");
    assert(out@ =~= old(out)@ + escape_sequence(code));
}

/// Turns the tags of a text into escape sequences.
pub struct Colorize {
    /// The tag names and the code of each.
    colors: ColorTable,
    /// Whether tags that the table knows are dropped instead of coloured.
    disable: bool,
    /// Whether a coloured text ends with the reset sequence.
    reset: bool,
}

impl Colorize {
    /// The table that the tags are looked up in.
    pub closed spec fn colors(&self) -> Map<Seq<char>, u8> {
        self.colors@
    }

    /// Whether colours are disabled.
    pub closed spec fn disabled(&self) -> bool {
        self.disable
    }

    /// Whether a coloured text ends with the reset sequence.
    pub closed spec fn resets(&self) -> bool {
        self.reset
    }

    /// A colouriser with the built-in table, colours enabled and a reset at
    /// the end of each coloured text.
    pub fn new() -> (c: Colorize)
        ensures
            c.colors() == builtin_colors(),
            !c.disabled(),
            c.resets(),
    {
        Colorize { colors: ColorTable::builtin(), disable: false, reset: true }
    }

    /// A colouriser with a table and settings of the caller's choice.
    pub fn with_settings(colors: ColorTable, disable: bool, reset: bool) -> (c: Colorize)
        ensures
            c.colors() == colors@,
            c.disabled() == disable,
            c.resets() == reset,
    {
        Colorize { colors, disable, reset }
    }

    /// Appends to `out` what stands in the place of the tag `token`, and
    /// says whether the table knows the tag.
    fn push_replacement(&self, out: &mut String, token: &str) -> (known: bool)
        requires
            is_token(token@),
        ensures
            known == is_known(self.colors(), token@),
            final(out)@ == old(out)@ + replacement(self.colors(), self.disabled(), token@),
    {
        let len: usize = token.unicode_len();
        let name = token.substring_char(1, len - 1);
        match self.colors.get(name) {
            Some(code) => {
                if !self.disable {
                    push_escape(out, code);
                } else {
                    assert(out@ =~= old(out)@ + Seq::<char>::empty());
                }
                true
            },
            None => {
                out.append(token);
                false
            },
        }
    }

    /// The tag that `v` begins with, brackets included, if it begins with
    /// one. Whether the table knows the tag plays no part.
    pub fn color_prefix(&self, v: &str) -> (prefix: Option<String>)
        ensures
            match prefix {
                Some(token) => {
                    &&& is_token(token@)
                    &&& token@.len() <= v@.len()
                    &&& token@ == v@.take(token@.len() as int)
                    &&& token@.len() == token_len(v@)
                },
                None => {
                    &&& token_len(v@) == 0
                    &&& forall|n: int| 0 <= n <= v@.len() ==> !is_token(#[trigger] v@.take(n))
                },
            },
    {
        let spans = find_spans(tag_pattern(), v);
        let ghost bytes = v.spec_bytes();
        proof {
            encode_utf8_valid_utf8(v@);
            encode_utf8_decode_utf8(v@);
            is_char_boundary_start_end_of_seq(bytes);
            lemma_token_len(v@);
            assert forall|n: int| 0 <= n <= v@.len() && is_token(#[trigger] v@.take(n)) implies token_len(
                v@,
            ) == n by {
                lemma_token_len_is(v@, n);
            }
        }
        if spans.len() == 0 {
            proof {
                lemma_after_spans(v@, spans@);
                assert(bytes.subrange(0, bytes.len() as int) == bytes);
                assert(v@.take(token_len(v@) as int) == v@.subrange(0, 0 + (token_len(v@) as int)));
            }
            return None;
        }
        let start: usize = spans[0].0;
        let end: usize = spans[0].1;
        proof {
            lemma_span(v@, spans@, 0);
        }
        if start == 0 {
            let (token, after) = split_text(v, end);
            proof {
                assert(v@.take(token@.len() as int) == token@);
                lemma_token_len_is(v@, token@.len() as int);
            }
            Some(token.to_owned())
        } else {
            proof {
                let tail = bytes.subrange(start as int, bytes.len() as int);
                lemma_text_around(v@, start as int);
                lemma_boundary_in_tail(bytes, start as int, end as int);
                decode_utf8_split(tail, end - start);
                assert(tail.subrange(0, end - start) == bytes.subrange(start as int, end as int));
                let token = piece(v@, start as int, end as int);
                let fresh = piece(v@, start as int, bytes.len() as int);
                assert(fresh[0] == token[0]);
                lemma_token_free_head(piece(v@, 0, start as int), fresh);
            }
            None
        }
    }

    /// The coloured form of `v`: each tag that the table knows replaced by
    /// its escape sequence, or dropped where colours are disabled; every
    /// other part of the text as it is; and the reset sequence at the end
    /// where a tag was replaced and a reset is wanted.
    pub fn color(&self, v: &str) -> (out: String)
        ensures
            out@ == colorized(self.colors(), self.disabled(), self.resets(), v@),
    {
        let spans = find_spans(tag_pattern(), v);
        let ghost bytes = v.spec_bytes();
        let ghost table = self.colors();
        let ghost disable = self.disabled();
        proof {
            encode_utf8_valid_utf8(v@);
            encode_utf8_decode_utf8(v@);
            is_char_boundary_start_end_of_seq(bytes);
        }
        if spans.len() == 0 {
            proof {
                lemma_after_spans(v@, spans@);
                assert(bytes.subrange(0, bytes.len() as int) == bytes);
                lemma_plain_text_unchanged(table, disable, self.resets(), v@);
            }
            return v.to_owned();
        }
        let mut out = String::new();
        let mut colored = false;
        let mut rest: &str = v;
        let mut pos: usize = 0;
        let mut i: usize = 0;
        while i < spans.len()
            invariant
                splits_at_tags(v@, spans@),
                bytes == encode_utf8(v@),
                valid_utf8(bytes),
                table == self.colors(),
                disable == self.disabled(),
                i <= spans.len(),
                pos == gap_start(spans@, i as int),
                pos <= bytes.len(),
                is_char_boundary(bytes, pos as int),
                rest.spec_bytes() == bytes.subrange(pos as int, bytes.len() as int),
                out@ + rendered(table, disable, rest@) == rendered(table, disable, v@),
                (colored || has_known(table, rest@)) == has_known(table, v@),
            decreases spans.len() - i,
        {
            let start: usize = spans[i].0;
            let end: usize = spans[i].1;
            proof {
                lemma_span(v@, spans@, i as int);
            }
            let (gap, token, after) = split_span(rest, pos, start, end, Ghost(bytes));
            proof {
                assert(gap@ == piece(v@, pos as int, start as int));
                assert(token@ == piece(v@, start as int, end as int));
                assert(starts_fresh(token@ + after@));
                lemma_rendered_gap(table, disable, gap@, token@ + after@);
                lemma_rendered_token(table, disable, token@, after@);
            }
            let ghost before = out@;
            out.append(gap);
            let known = self.push_replacement(&mut out, token);
            proof {
                assert(out@ + rendered(table, disable, after@) == before + (gap@ + (replacement(
                    table,
                    disable,
                    token@,
                ) + rendered(table, disable, after@))));
            }
            if known {
                colored = true;
            }
            rest = after;
            pos = end;
            i = i + 1;
        }
        proof {
            lemma_after_spans(v@, spans@);
            assert(rest@ == piece(v@, pos as int, bytes.len() as int)) by {
                encode_utf8_decode_utf8(rest@);
            }
            let nothing = Seq::<char>::empty();
            lemma_rendered_gap(table, disable, rest@, nothing);
            assert(rest@ + nothing == rest@);
        }
        out.append(rest);
        if colored && self.reset && !self.disable {
            push_escape(&mut out, 0);
        }
        out
    }
}

} // verus!
