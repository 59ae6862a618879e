//! Text comparisons the projection queries use.

use vstd::prelude::*;

verus! {

/// ASCII lowercase of one character; every other character is unchanged.
pub open spec fn ascii_lower(c: char) -> char {
    if 'A' <= c && c <= 'Z' {
        ((c as u32) + 32) as char
    } else {
        c
    }
}

/// The two texts are equal once ASCII letters are lowercased.
pub open spec fn same_ignoring_ascii_case(a: Seq<char>, b: Seq<char>) -> bool {
    &&& a.len() == b.len()
    &&& forall|i: int| 0 <= i < a.len() ==> ascii_lower(#[trigger] a[i]) == ascii_lower(b[i])
}

/// Lexicographic order of texts by character code.
pub open spec fn text_lt(a: Seq<char>, b: Seq<char>) -> bool
    decreases a.len(),
{
    if a.len() == 0 {
        b.len() > 0
    } else if b.len() == 0 {
        false
    } else if a[0] != b[0] {
        (a[0] as u32) < (b[0] as u32)
    } else {
        text_lt(a.drop_first(), b.drop_first())
    }
}

/// No text comes before a text that comes before it.
pub proof fn lemma_text_lt_asymmetric(a: Seq<char>, b: Seq<char>)
    ensures
        text_lt(a, b) ==> !text_lt(b, a),
    decreases a.len(),
{
    if a.len() > 0 && b.len() > 0 && a[0] == b[0] {
        lemma_text_lt_asymmetric(a.drop_first(), b.drop_first());
    }
}

/// Calls `str::eq_ignore_ascii_case`, which compares the two strings with ASCII
/// letters lowercased and every other byte compared as it is; on the
/// characters of valid UTF-8 text that is `same_ignoring_ascii_case`.
#[verifier::external_body]
pub fn eq_ignore_ascii_case(a: &str, b: &str) -> (r: bool)
    ensures
        r == same_ignoring_ascii_case(a@, b@),
{
    a.eq_ignore_ascii_case(b)
}

/// Calls `<str as PartialOrd>::lt`, which orders strings lexicographically by
/// their UTF-8 bytes; UTF-8 keeps the order of character codes, so this is
/// `text_lt` on the characters.
#[verifier::external_body]
pub fn text_less(a: &str, b: &str) -> (r: bool)
    ensures
        r == text_lt(a@, b@),
{
    a < b
}


/// The two characters are equal, or are the upper- and lowercase forms of one
/// ASCII letter (their codes differ by 32, the smaller one in `A`..=`Z`).
pub open spec fn same_letter_ignoring_case(c: char, d: char) -> bool {
    ||| c == d
    ||| ('A' <= c && c <= 'Z' && (d as u32) == (c as u32) + 32)
    ||| ('A' <= d && d <= 'Z' && (c as u32) == (d as u32) + 32)
}

proof fn lemma_lower_letter(c: char, d: char)
    ensures
        (ascii_lower(c) == ascii_lower(d)) <==> same_letter_ignoring_case(c, d),
{
    let cu = c as u32;
    let du = d as u32;
    if 'A' <= c && c <= 'Z' {
        assert(((cu + 32) as char) as u32 == cu + 32);
    }
    if 'A' <= d && d <= 'Z' {
        assert(((du + 32) as char) as u32 == du + 32);
    }
    assert(ascii_lower(c) as u32 == if 'A' <= c && c <= 'Z' { cu + 32 } else { cu as int });
    assert(ascii_lower(d) as u32 == if 'A' <= d && d <= 'Z' { du + 32 } else { du as int });
}

/// Two texts are equal ignoring ASCII case exactly when they have the same
/// length and, position by position, the characters are equal or are the two
/// cases of one ASCII letter. So a name filter matches whole names, never a
/// mere prefix, and no character outside `A`..=`Z`/`a`..=`z` is folded.
pub proof fn lemma_same_ignoring_ascii_case_means(a: Seq<char>, b: Seq<char>)
    ensures
        same_ignoring_ascii_case(a, b) <==> (a.len() == b.len() && forall|i: int| 0 <= i < a.len() ==> same_letter_ignoring_case(#[trigger] a[i], b[i])),
{
    assert forall|i: int| 0 <= i < a.len() && i < b.len() implies (ascii_lower(#[trigger] a[i]) == ascii_lower(b[i])) <==> same_letter_ignoring_case(a[i], b[i]) by {
        lemma_lower_letter(a[i], b[i]);
    }
}

} // verus!
