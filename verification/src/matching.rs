//! Literal substring matching and lowercase folding.

use vstd::prelude::*;
use vstd::utf8::is_ascii_chars;

verus! {

/// `pattern` occurs in `text` as a contiguous run of characters starting at
/// position `i`.
pub open spec fn match_at(text: Seq<char>, pattern: Seq<char>, i: int) -> bool {
    &&& 0 <= i
    &&& i + pattern.len() <= text.len()
    &&& forall|j: int| 0 <= j < pattern.len() ==> text[i + j] == pattern[j]
}

/// `pattern` occurs somewhere in `text` as a contiguous run of characters.
/// The empty pattern occurs in every text, at position 0.
pub open spec fn has_substring(text: Seq<char>, pattern: Seq<char>) -> bool {
    exists|i: int| match_at(text, pattern, i)
}

/// Does `pattern` occur in `text` starting at position `i`?
fn matches_at(text: &str, pattern: &str, i: usize) -> (found: bool)
    requires
        i + pattern@.len() <= text@.len() <= usize::MAX,
    ensures
        found == match_at(text@, pattern@, i as int),
{
    let m: usize = pattern.unicode_len();
    let mut j: usize = 0;
    while j < m
        invariant
            m == pattern@.len(),
            i + m <= text@.len() <= usize::MAX,
            j <= m,
            forall|k: int| 0 <= k < j ==> text@[i + k] == pattern@[k],
        decreases m - j,
    {
        if text.get_char(i + j) != pattern.get_char(j) {
            assert(text@[i + j] != pattern@[j as int]);
            return false;
        }
        j = j + 1;
    }
    true
}

/// The lowercase fold of a character sequence, as `str::to_lowercase`
/// computes it. The full Unicode mapping is not written out here: the fold is
/// a fixed function of the characters alone, and contracts speak of it only
/// through this name.
pub uninterp spec fn lower_of(s: Seq<char>) -> Seq<char>;

/// The ASCII lowercase mapping of one character: the letters `'A'` to `'Z'`
/// move to `'a'` to `'z'`, every other character stays as it is.
pub open spec fn ascii_lower_char(c: char) -> char {
    if 'A' <= c && c <= 'Z' {
        (((c as u32) + 32) as char)
    } else {
        c
    }
}

/// The ASCII lowercase mapping applied character by character.
pub open spec fn ascii_lower(s: Seq<char>) -> Seq<char> {
    s.map_values(|c: char| ascii_lower_char(c))
}

/// Relies on `str::to_lowercase`: the result is a function of the characters
/// alone, the empty string stays empty, and on ASCII text the Unicode
/// lowercase mapping is the ASCII one, applied character by character.
#[verifier::external_body]
pub(crate) fn lowercase(s: &str) -> (r: String)
    ensures
        r@ == lower_of(s@),
        s@.len() == 0 ==> r@.len() == 0,
        is_ascii_chars(s@) ==> r@ == ascii_lower(s@),
{
    s.to_lowercase()
}

/// A fold applied character by character keeps a substring occurrence in
/// place: where `pattern` occurs in `text`, the folded pattern occurs in the
/// folded text.
pub(crate) proof fn lemma_fold_keeps_substring(text: Seq<char>, pattern: Seq<char>)
    requires
        has_substring(text, pattern),
    ensures
        has_substring(ascii_lower(text), ascii_lower(pattern)),
{
    let i = choose|i: int| match_at(text, pattern, i);
    assert forall|j: int|
        0 <= j < ascii_lower(pattern).len() implies ascii_lower(text)[i + j] == ascii_lower(
        pattern,
    )[j] by {
        assert(text[i + j] == pattern[j]);
    }
    assert(match_at(ascii_lower(text), ascii_lower(pattern), i));
}

/// Does `text` contain `pattern` as a literal substring?
pub fn contains_substring(text: &str, pattern: &str) -> (found: bool)
    ensures
        found == has_substring(text@, pattern@),
{
    let n: usize = text.unicode_len();
    let m: usize = pattern.unicode_len();
    if m == 0 {
        assert(match_at(text@, pattern@, 0));
        return true;
    }
    if m > n {
        assert(forall|i: int| !match_at(text@, pattern@, i));
        return false;
    }
    let mut i: usize = 0;
    while i <= n - m
        invariant
            n == text@.len(),
            m == pattern@.len(),
            1 <= m <= n,
            i <= n - m + 1,
            forall|k: int| 0 <= k < i ==> !match_at(text@, pattern@, k),
        decreases n - m + 1 - i,
    {
        if matches_at(text, pattern, i) {
            return true;
        }
        i = i + 1;
    }
    assert(forall|k: int| !match_at(text@, pattern@, k));
    false
}

} // verus!
