//! What a text becomes when its tags are replaced: the model that the
//! colourising functions are held to.

use crate::table::fold;
use crate::tag::{
    has_token, is_token, lemma_token_len, lemma_token_len_is, token_len,
};
use vstd::prelude::*;

verus! {

/// The character of the digit `d`.
pub open spec fn digit_char(d: nat) -> char {
    (d + 48) as char
}

/// `n` in decimal, without leading zeros.
pub open spec fn decimal(n: nat) -> Seq<char>
    decreases n,
{
    if n < 10 {
        seq![digit_char(n)]
    } else {
        decimal(n / 10).push(digit_char(n % 10))
    }
}

/// The escape sequence that selects the attribute `code`: the escape
/// character, an opening bracket, the code in decimal and the letter `m`.
pub open spec fn escape_sequence(code: u8) -> Seq<char> {
    seq!['\x1B', '['] + decimal(code as nat) + seq!['m']
}

/// The escape sequence that resets every attribute.
pub open spec fn reset_sequence() -> Seq<char> {
    escape_sequence(0)
}

/// The name in a tag: the tag without its two brackets.
pub open spec fn tag_name(token: Seq<char>) -> Seq<char> {
    token.subrange(1, token.len() - 1)
}

/// Whether `table` holds the name of the tag `token`.
pub open spec fn is_known(table: Map<Seq<char>, u8>, token: Seq<char>) -> bool {
    table.contains_key(fold(tag_name(token)))
}

/// What stands in the place of the tag `token`: the escape sequence of its
/// code where the table knows its name, or nothing at all where colours are
/// disabled; the tag itself where the table does not know the name.
pub open spec fn replacement(table: Map<Seq<char>, u8>, disable: bool, token: Seq<char>) -> Seq<
    char,
> {
    if is_known(table, token) {
        if disable {
            Seq::empty()
        } else {
            escape_sequence(table[fold(tag_name(token))])
        }
    } else {
        token
    }
}

/// `s` with each of its tags replaced, read from left to right.
pub open spec fn rendered(table: Map<Seq<char>, u8>, disable: bool, s: Seq<char>) -> Seq<char>
    decreases s.len(),
    via rendered_decreases
{
    if s.len() == 0 {
        s
    } else if token_len(s) > 0 {
        replacement(table, disable, s.take(token_len(s) as int)) + rendered(
            table,
            disable,
            s.skip(token_len(s) as int),
        )
    } else {
        seq![s[0]] + rendered(table, disable, s.skip(1))
    }
}

#[via_fn]
proof fn rendered_decreases(table: Map<Seq<char>, u8>, disable: bool, s: Seq<char>) {
    lemma_token_len(s);
}

/// Whether `s` holds a tag whose name `table` knows.
pub open spec fn has_known(table: Map<Seq<char>, u8>, s: Seq<char>) -> bool
    decreases s.len(),
    via has_known_decreases
{
    if s.len() == 0 {
        false
    } else if token_len(s) > 0 {
        is_known(table, s.take(token_len(s) as int)) || has_known(
            table,
            s.skip(token_len(s) as int),
        )
    } else {
        has_known(table, s.skip(1))
    }
}

#[via_fn]
proof fn has_known_decreases(table: Map<Seq<char>, u8>, s: Seq<char>) {
    lemma_token_len(s);
}

/// The coloured form of `s`: its tags replaced, and the reset sequence at
/// the end where a tag was known, a reset is wanted and colours are not
/// disabled.
pub open spec fn colorized(table: Map<Seq<char>, u8>, disable: bool, reset: bool, s: Seq<char>) -> Seq<
    char,
> {
    if has_known(table, s) && reset && !disable {
        rendered(table, disable, s) + reset_sequence()
    } else {
        rendered(table, disable, s)
    }
}

/// A tag at the head of a text is replaced, and the rest is rendered on its
/// own.
pub proof fn lemma_rendered_token(
    table: Map<Seq<char>, u8>,
    disable: bool,
    token: Seq<char>,
    rest: Seq<char>,
)
    requires
        is_token(token),
    ensures
        rendered(table, disable, token + rest) == replacement(table, disable, token) + rendered(
            table,
            disable,
            rest,
        ),
        has_known(table, token + rest) == (is_known(table, token) || has_known(table, rest)),
{
    let s = token + rest;
    assert(s.take(token.len() as int) == token);
    assert(s.skip(token.len() as int) == rest);
    lemma_token_len_is(s, token.len() as int);
}

/// Whether `s` is empty or begins with an opening bracket.
pub open spec fn starts_fresh(s: Seq<char>) -> bool {
    s.len() == 0 || s[0] == '['
}

/// Where text without a tag stands before the end or before an opening
/// bracket, no tag begins at its first character.
pub proof fn lemma_token_free_head(gap: Seq<char>, rest: Seq<char>)
    requires
        !has_token(gap),
        gap.len() > 0,
        starts_fresh(rest),
    ensures
        token_len(gap + rest) == 0,
{
    let s = gap + rest;
    let n = token_len(s) as int;
    lemma_token_len(s);
    if n > 0 {
        let t = s.take(n);
        if n <= gap.len() {
            assert(t == gap.subrange(0, 0 + n));
        } else {
            assert(t[gap.len() as int] == rest[0]);
        }
    }
}

/// Text without a tag, before the end or before an opening bracket, passes
/// through as it is, and what follows is rendered on its own.
pub proof fn lemma_rendered_gap(
    table: Map<Seq<char>, u8>,
    disable: bool,
    gap: Seq<char>,
    rest: Seq<char>,
)
    requires
        !has_token(gap),
        starts_fresh(rest),
    ensures
        rendered(table, disable, gap + rest) == gap + rendered(table, disable, rest),
        has_known(table, gap + rest) == has_known(table, rest),
    decreases gap.len(),
{
    let s = gap + rest;
    if gap.len() == 0 {
        assert(s == rest);
        assert(gap + rendered(table, disable, rest) == rendered(table, disable, rest));
    } else {
        lemma_token_free_head(gap, rest);
        let g = gap.skip(1);
        assert(s.skip(1) == g + rest);
        if has_token(g) {
            let (k, m) = choose|k: int, m: int|
                0 <= k && 0 <= m && k + m <= g.len() && is_token(#[trigger] g.subrange(k, k + m));
            assert(g.subrange(k, k + m) == gap.subrange(k + 1, k + 1 + m));
        }
        lemma_rendered_gap(table, disable, g, rest);
        assert(seq![s[0]] + (g + rendered(table, disable, rest)) == gap + rendered(
            table,
            disable,
            rest,
        ));
    }
}

} // verus!
