//! What holds of colouring whatever the text.

use crate::markup::{
    colorized, decimal, escape_sequence, has_known, is_known, lemma_rendered_gap, rendered,
    replacement, tag_name,
};
use crate::table::{builtin_colors, digit_free, fold, is_digit, lemma_builtin_digit_free};
use crate::tag::{
    has_token, is_tag_char, is_token, lemma_token_len, lemma_token_len_is, tag_closed, tag_run,
    token_len,
};
use vstd::prelude::*;

verus! {

/// A text without tags is its own coloured form, whatever the table and the
/// settings.
pub proof fn lemma_plain_text_unchanged(
    table: Map<Seq<char>, u8>,
    disable: bool,
    reset: bool,
    s: Seq<char>,
)
    requires
        !has_token(s),
    ensures
        colorized(table, disable, reset, s) == s,
{
    let end = Seq::<char>::empty();
    lemma_rendered_gap(table, disable, s, end);
    assert(s + end == s);
}

/// The tag that begins at position `k` of `s`.
pub open spec fn token_at(s: Seq<char>, k: int) -> Seq<char> {
    s.skip(k).take(token_len(s.skip(k)) as int)
}

/// Whether `table` knows none of the tags of `s`.
pub open spec fn all_unknown(table: Map<Seq<char>, u8>, s: Seq<char>) -> bool {
    forall|k: int|
        0 <= k < s.len() && token_len(#[trigger] s.skip(k)) > 0 ==> !is_known(
            table,
            token_at(s, k),
        )
}

/// A text whose tags are all unknown is its own coloured form.
pub proof fn lemma_unknown_unchanged(
    table: Map<Seq<char>, u8>,
    disable: bool,
    reset: bool,
    s: Seq<char>,
)
    requires
        all_unknown(table, s),
    ensures
        rendered(table, disable, s) == s,
        !has_known(table, s),
        colorized(table, disable, reset, s) == s,
    decreases s.len(),
{
    if s.len() > 0 {
        lemma_token_len(s);
        assert(s.skip(0) == s);
        let n = token_len(s) as int;
        let step = if n > 0 {
            n
        } else {
            1
        };
        let rest = s.skip(step);
        assert forall|k: int|
            0 <= k < rest.len() && token_len(#[trigger] rest.skip(k)) > 0 implies !is_known(
            table,
            token_at(rest, k),
        ) by {
            assert(rest.skip(k) == s.skip(step + k));
        }
        lemma_unknown_unchanged(table, disable, reset, rest);
        if n > 0 {
            assert(s.take(n) + rest == s);
        } else {
            assert(seq![s[0]] + rest == s);
        }
    }
}

/// A number in decimal is one digit or more, and digits only.
proof fn lemma_decimal_digits(n: nat)
    ensures
        decimal(n).len() >= 1,
        forall|i: int| 0 <= i < decimal(n).len() ==> is_digit(#[trigger] decimal(n)[i]),
    decreases n,
{
    if n >= 10 {
        lemma_decimal_digits(n / 10);
    }
}

/// An escape sequence is the escape character, an opening bracket, a digit,
/// and then tag characters only.
proof fn lemma_escape_chars(code: u8)
    ensures
        escape_sequence(code).len() >= 4,
        escape_sequence(code)[0] == '\x1B',
        escape_sequence(code)[1] == '[',
        is_digit(escape_sequence(code)[2]),
        forall|i: int|
            2 <= i < escape_sequence(code).len() ==> is_tag_char(
                #[trigger] escape_sequence(code)[i],
            ),
{
    lemma_decimal_digits(code as nat);
    let d = decimal(code as nat);
    let e = escape_sequence(code);
    assert(e[2] == d[0]);
    assert forall|i: int| 2 <= i < e.len() implies is_tag_char(#[trigger] e[i]) by {
        if i < e.len() - 1 {
            assert(e[i] == d[i - 2]);
        }
    }
}

/// With colours enabled, what stands in a tag's place begins with an
/// opening bracket or the escape character.
proof fn lemma_replacement_head(table: Map<Seq<char>, u8>, token: Seq<char>)
    requires
        is_token(token),
    ensures
        replacement(table, false, token).len() > 0,
        replacement(table, false, token)[0] == '[' || replacement(table, false, token)[0]
            == '\x1B',
{
    if is_known(table, token) {
        lemma_escape_chars(table[fold(tag_name(token))]);
    }
}

/// With colours enabled, a text begins with as many tag characters after
/// colouring as before, and they are followed by a closing bracket in the
/// one where they are in the other.
proof fn lemma_head_kept(table: Map<Seq<char>, u8>, s: Seq<char>)
    ensures
        tag_run(rendered(table, false, s)) == tag_run(s),
        tag_closed(rendered(table, false, s)) == tag_closed(s),
    decreases s.len(),
{
    let o = rendered(table, false, s);
    if s.len() > 0 {
        lemma_token_len(s);
        let n = token_len(s) as int;
        if n > 0 {
            let token = s.take(n);
            lemma_replacement_head(table, token);
            let r = replacement(table, false, token);
            assert(o[0] == r[0]);
            assert(s[0] == token[0]);
        } else {
            let rest = s.skip(1);
            let tail = rendered(table, false, rest);
            lemma_head_kept(table, rest);
            assert(o.skip(1) == tail);
            assert(o[0] == s[0]);
            if is_tag_char(s[0]) {
                if tag_run(tail) < tail.len() {
                    assert(o[tag_run(o) as int] == tail[tag_run(tail) as int]);
                }
                if tag_run(rest) < rest.len() {
                    assert(s[tag_run(s) as int] == rest[tag_run(rest) as int]);
                }
            }
        }
    }
}

/// With colours enabled and a table none of whose names begins with a
/// digit, the table knows no tag of a text with its tags replaced.
proof fn lemma_rendered_unknown(table: Map<Seq<char>, u8>, s: Seq<char>)
    requires
        digit_free(table),
    ensures
        all_unknown(table, rendered(table, false, s)),
    decreases s.len(),
{
    let o = rendered(table, false, s);
    if s.len() > 0 {
        lemma_token_len(s);
        let n = token_len(s) as int;
        if n > 0 {
            let token = s.take(n);
            let rest = s.skip(n);
            let tail = rendered(table, false, rest);
            let r = replacement(table, false, token);
            lemma_rendered_unknown(table, rest);
            assert(o == r + tail);
            if is_known(table, token) {
                lemma_escape_chars(table[fold(tag_name(token))]);
            }
            assert forall|k: int|
                0 <= k < o.len() && token_len(#[trigger] o.skip(k)) > 0 implies !is_known(
                table,
                token_at(o, k),
            ) by {
                let at = o.skip(k);
                lemma_token_len(at);
                if k >= r.len() {
                    assert(at == tail.skip(k - r.len()));
                } else {
                    assert(at[0] == r[k]);
                    if is_known(table, token) {
                        assert(k == 1);
                        let found = token_at(o, k);
                        let name = tag_name(found);
                        assert(found[1] == at[1]);
                        assert(at[1] == r[2]);
                        assert(name[0] == found[1]);
                        assert(fold(name)[0] == name[0]);
                    } else {
                        assert(k == 0);
                        assert(at == o);
                        assert(o.take(n) == token);
                        lemma_token_len_is(o, n);
                    }
                }
            }
        } else {
            let rest = s.skip(1);
            let tail = rendered(table, false, rest);
            lemma_rendered_unknown(table, rest);
            lemma_head_kept(table, rest);
            assert(o.skip(1) == tail);
            assert forall|k: int|
                0 <= k < o.len() && token_len(#[trigger] o.skip(k)) > 0 implies !is_known(
                table,
                token_at(o, k),
            ) by {
                if k >= 1 {
                    assert(o.skip(k) == tail.skip(k - 1));
                } else {
                    assert(o.skip(0) == o);
                    assert(o[0] == s[0]);
                }
            }
        }
    }
}

/// An escape sequence at the end of a text adds no tag to it.
proof fn lemma_unknown_with_escape(table: Map<Seq<char>, u8>, s: Seq<char>, code: u8)
    requires
        all_unknown(table, s),
    ensures
        all_unknown(table, s + escape_sequence(code)),
{
    let e = escape_sequence(code);
    let o = s + e;
    lemma_escape_chars(code);
    assert forall|k: int|
        0 <= k < o.len() && token_len(#[trigger] o.skip(k)) > 0 implies !is_known(
        table,
        token_at(o, k),
    ) by {
        let at = o.skip(k);
        lemma_token_len(at);
        let m = token_len(at) as int;
        let found = at.take(m);
        assert(found[m - 1] == o[k + m - 1]);
        if k + m > s.len() {
            let j = k + m - 1 - s.len();
            assert(o[k + m - 1] == e[j]);
            assert(false);
        }
        assert(s.skip(k).take(m) == found);
        lemma_token_len_is(s.skip(k), m);
    }
}

/// Colouring a coloured text changes nothing more, as long as colours are
/// enabled and no name of the table begins with a digit: the escape
/// sequences that took the place of the known tags hold no tag that the
/// table knows.
pub proof fn lemma_color_twice(table: Map<Seq<char>, u8>, reset: bool, s: Seq<char>)
    requires
        digit_free(table),
    ensures
        colorized(table, false, reset, colorized(table, false, reset, s)) == colorized(
            table,
            false,
            reset,
            s,
        ),
{
    let once = rendered(table, false, s);
    lemma_rendered_unknown(table, s);
    if has_known(table, s) && reset {
        lemma_unknown_with_escape(table, once, 0);
    }
    lemma_unknown_unchanged(table, false, reset, colorized(table, false, reset, s));
}

/// Colouring with the built-in table and colours enabled, as a new
/// colouriser does, changes a coloured text no more.
pub proof fn lemma_default_color_twice(reset: bool, s: Seq<char>)
    ensures
        colorized(builtin_colors(), false, reset, colorized(builtin_colors(), false, reset, s))
            == colorized(builtin_colors(), false, reset, s),
{
    lemma_builtin_digit_free();
    lemma_color_twice(builtin_colors(), reset, s);
}

} // verus!
