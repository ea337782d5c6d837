//! The grammar of tags: an opening bracket, one or more tag characters and a
//! closing bracket.

use vstd::prelude::*;

verus! {

/// The characters that a tag may hold between its brackets: letters of either
/// case, digits, the underscore and the hyphen. Case is ignored by Unicode's
/// simple case folding, under which the long s (U+017F) and the Kelvin sign
/// (U+212A) are letters too: they fold to `s` and `k`.
pub open spec fn is_tag_char(c: char) -> bool {
    ||| ('a' <= c && c <= 'z')
    ||| ('A' <= c && c <= 'Z')
    ||| ('0' <= c && c <= '9')
    ||| c == '_'
    ||| c == '-'
    ||| c == '\u{17F}'
    ||| c == '\u{212A}'
}

/// Whether `t` is one whole tag with its brackets.
pub open spec fn is_token(t: Seq<char>) -> bool {
    &&& t.len() >= 3
    &&& t[0] == '['
    &&& t[t.len() - 1] == ']'
    &&& forall|i: int| 1 <= i < t.len() - 1 ==> is_tag_char(#[trigger] t[i])
}

/// Whether a tag stands anywhere in `s`.
pub open spec fn has_token(s: Seq<char>) -> bool {
    exists|k: int, n: int| 0 <= k && 0 <= n && k + n <= s.len() && is_token(#[trigger] s.subrange(k, k + n))
}

/// How many tag characters `s` begins with.
pub open spec fn tag_run(s: Seq<char>) -> nat
    decreases s.len(),
{
    if s.len() > 0 && is_tag_char(s[0]) {
        1 + tag_run(s.skip(1))
    } else {
        0
    }
}

/// Whether a closing bracket follows the tag characters that `s` begins with.
pub open spec fn tag_closed(s: Seq<char>) -> bool {
    tag_run(s) < s.len() && s[tag_run(s) as int] == ']'
}

/// The length of the tag that `s` begins with, or 0 where it begins with none.
pub open spec fn token_len(s: Seq<char>) -> nat {
    if s.len() > 0 && s[0] == '[' && tag_run(s.skip(1)) > 0 && tag_closed(s.skip(1)) {
        tag_run(s.skip(1)) + 2
    } else {
        0
    }
}

/// The tag characters that `s` begins with end inside `s`, at a character
/// that is none.
pub proof fn lemma_tag_run(s: Seq<char>)
    ensures
        tag_run(s) <= s.len(),
        forall|i: int| 0 <= i < tag_run(s) ==> is_tag_char(#[trigger] s[i]),
        tag_run(s) < s.len() ==> !is_tag_char(s[tag_run(s) as int]),
    decreases s.len(),
{
    if s.len() > 0 && is_tag_char(s[0]) {
        let r = s.skip(1);
        lemma_tag_run(r);
        assert forall|i: int| 0 <= i < tag_run(s) implies is_tag_char(#[trigger] s[i]) by {
            if i > 0 {
                assert(s[i] == r[i - 1]);
            }
        }
        if tag_run(s) < s.len() {
            assert(s[tag_run(s) as int] == r[tag_run(r) as int]);
        }
    }
}

/// A stretch of tag characters that ends at one that is none is the whole run.
pub proof fn lemma_tag_run_is(s: Seq<char>, r: nat)
    requires
        r <= s.len(),
        forall|i: int| 0 <= i < r ==> is_tag_char(#[trigger] s[i]),
        r < s.len() ==> !is_tag_char(s[r as int]),
    ensures
        tag_run(s) == r,
    decreases r,
{
    if r > 0 {
        let t = s.skip(1);
        assert(is_tag_char(s[0]));
        assert forall|i: int| 0 <= i < r - 1 implies is_tag_char(#[trigger] t[i]) by {
            assert(t[i] == s[i + 1]);
        }
        lemma_tag_run_is(t, (r - 1) as nat);
    }
}

/// Where `s` begins with a tag, `token_len` is that tag's length.
pub proof fn lemma_token_len(s: Seq<char>)
    ensures
        token_len(s) <= s.len(),
        token_len(s) > 0 ==> is_token(s.take(token_len(s) as int)),
{
    let n = token_len(s);
    if n > 0 {
        let r = s.skip(1);
        lemma_tag_run(r);
        let t = s.take(n as int);
        assert forall|i: int| 1 <= i < t.len() - 1 implies is_tag_char(#[trigger] t[i]) by {
            assert(t[i] == r[i - 1]);
        }
        assert(t[t.len() - 1] == r[tag_run(r) as int]);
    }
}

/// A text that begins with a tag begins with no other.
pub proof fn lemma_token_len_is(s: Seq<char>, n: int)
    requires
        0 <= n <= s.len(),
        is_token(s.take(n)),
    ensures
        token_len(s) == n,
{
    let t = s.take(n);
    let r = s.skip(1);
    assert(s[0] == t[0]);
    assert forall|i: int| 0 <= i < n - 2 implies is_tag_char(#[trigger] r[i]) by {
        assert(r[i] == t[i + 1]);
    }
    assert(r[n - 2] == t[n - 1]);
    lemma_tag_run_is(r, (n - 2) as nat);
}

} // verus!
