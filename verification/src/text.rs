//! Searching and splitting of character sequences.
//!
//! The specifications are stated over `Seq<char>`; the executable functions
//! work on slices of characters and are proved against them.

use vstd::prelude::*;
use vstd::slice::slice_subrange;

verus! {

/// `pat` occurs in `s` starting at index `i`.
pub open spec fn occurs_at(s: Seq<char>, pat: Seq<char>, i: int) -> bool {
    0 <= i && i + pat.len() <= s.len() && s.subrange(i, i + pat.len()) == pat
}

/// `pat` occurs somewhere in `s`.
pub open spec fn occurs_in(s: Seq<char>, pat: Seq<char>) -> bool {
    exists|i: int| occurs_at(s, pat, i)
}

/// `i` is the index of the leftmost occurrence of `pat` in `s`.
pub open spec fn first_occurrence(s: Seq<char>, pat: Seq<char>, i: int) -> bool {
    occurs_at(s, pat, i) && forall|j: int| 0 <= j < i ==> !occurs_at(s, pat, j)
}

/// The index of the leftmost occurrence of `pat` in `s`, if there is one.
pub open spec fn leftmost(s: Seq<char>, pat: Seq<char>) -> Option<int> {
    if occurs_in(s, pat) {
        Some(choose|i: int| first_occurrence(s, pat, i))
    } else {
        None
    }
}

/// The text before and the text after the leftmost occurrence of `pat` in
/// `s`, if there is one.
pub open spec fn cut(s: Seq<char>, pat: Seq<char>) -> Option<(Seq<char>, Seq<char>)> {
    match leftmost(s, pat) {
        Some(i) => Some((s.subrange(0, i), s.subrange(i + pat.len(), s.len() as int))),
        None => None,
    }
}

/// The pieces of `s` between the occurrences of a non-empty `pat`, taken
/// from left to right without overlap. A text without any occurrence is a
/// single piece, and so is every text when `pat` is empty.
pub open spec fn pieces(s: Seq<char>, pat: Seq<char>) -> Seq<Seq<char>>
    decreases s.len(),
    via pieces_decreases
{
    match leftmost(s, pat) {
        Some(i) => if pat.len() > 0 {
            seq![s.subrange(0, i)] + pieces(s.subrange(i + pat.len(), s.len() as int), pat)
        } else {
            seq![s]
        },
        None => seq![s],
    }
}

/// What stands behind an occurrence of a non-empty pattern is shorter than
/// the text.
#[via_fn]
proof fn pieces_decreases(s: Seq<char>, pat: Seq<char>) {
    lemma_leftmost_is_first(s, pat);
}

/// An occurrence at `i` implies a leftmost occurrence at or before `i`.
proof fn lemma_leftmost_exists(s: Seq<char>, pat: Seq<char>, i: int)
    requires
        occurs_at(s, pat, i),
    ensures
        exists|k: int| first_occurrence(s, pat, k),
    decreases i,
{
    if exists|j: int| 0 <= j < i && occurs_at(s, pat, j) {
        let j: int = choose|j: int| 0 <= j < i && occurs_at(s, pat, j);
        lemma_leftmost_exists(s, pat, j);
    } else {
        assert(first_occurrence(s, pat, i));
    }
}

/// A leftmost occurrence is what `leftmost` gives.
pub proof fn lemma_leftmost_at(s: Seq<char>, pat: Seq<char>, i: int)
    requires
        first_occurrence(s, pat, i),
    ensures
        leftmost(s, pat) == Some(i),
{
    let k: int = choose|k: int| first_occurrence(s, pat, k);
    assert(first_occurrence(s, pat, k));
    if k < i {
        assert(!occurs_at(s, pat, k));
    } else if i < k {
        assert(!occurs_at(s, pat, i));
    }
}

/// What `leftmost` gives is a leftmost occurrence, and it gives nothing only
/// where `pat` does not occur.
pub proof fn lemma_leftmost_is_first(s: Seq<char>, pat: Seq<char>)
    ensures
        leftmost(s, pat) matches Some(i) ==> first_occurrence(s, pat, i),
        leftmost(s, pat) is None ==> forall|j: int| !occurs_at(s, pat, j),
{
    if occurs_in(s, pat) {
        let i: int = choose|i: int| occurs_at(s, pat, i);
        lemma_leftmost_exists(s, pat, i);
    }
}

/// Where the first character of `pat` is not among the first `n` characters
/// of `s`, the leftmost occurrence of `pat` in `s`, if there is one, lies at
/// `n` or behind it.
pub proof fn lemma_leftmost_skips(s: Seq<char>, pat: Seq<char>, n: int)
    requires
        pat.len() > 0,
        0 <= n <= s.len(),
        forall|k: int| 0 <= k < n ==> s[k] != pat[0],
    ensures
        leftmost(s, pat) matches Some(i) ==> n <= i && i + pat.len() <= s.len(),
{
    lemma_leftmost_is_first(s, pat);
    if leftmost(s, pat) is Some {
        let i: int = leftmost(s, pat)->0;
        assert(occurs_at(s, pat, i));
        assert(s.subrange(i, i + pat.len())[0] == pat[0]);
    }
}

/// Where `pat` does not occur in `s` before index `k`, its leftmost
/// occurrence in `s` is the one in `s` without its first `k` characters,
/// moved by `k`.
pub proof fn lemma_leftmost_after(s: Seq<char>, pat: Seq<char>, k: int)
    requires
        0 <= k <= s.len(),
        forall|j: int| 0 <= j < k ==> !occurs_at(s, pat, j),
    ensures
        leftmost(s, pat) == match leftmost(s.skip(k), pat) {
            Some(i) => Some(i + k),
            None => None,
        },
{
    let t = s.skip(k);
    assert forall|j: int| 0 <= j implies occurs_at(t, pat, j) == occurs_at(s, pat, j + k) by {
        if j + pat.len() <= t.len() {
            assert(t.subrange(j, j + pat.len()) =~= s.subrange(j + k, j + k + pat.len()));
        }
    }
    lemma_leftmost_is_first(t, pat);
    match leftmost(t, pat) {
        Some(i) => {
            assert(occurs_at(t, pat, i));
            assert forall|j: int| 0 <= j < i + k implies !occurs_at(s, pat, j) by {
                if j >= k {
                    assert(!occurs_at(t, pat, j - k));
                }
            }
            lemma_leftmost_at(s, pat, i + k);
        },
        None => {
            assert forall|j: int| !occurs_at(s, pat, j) by {
                if j >= k {
                    assert(!occurs_at(t, pat, j - k));
                }
            }
        },
    }
}

/// A pattern does not occur in a text that lacks its first character.
pub proof fn lemma_leftmost_none(s: Seq<char>, pat: Seq<char>)
    requires
        pat.len() > 0,
        !s.contains(pat[0]),
    ensures
        leftmost(s, pat) is None,
{
    assert forall|k: int| 0 <= k < s.len() implies s[k] != pat[0] by {
        assert(s.contains(s[k]));
    }
    lemma_leftmost_skips(s, pat, s.len() as int);
}

/// The first piece of a text is the text before the leftmost occurrence of
/// the pattern, or the whole text where the pattern does not occur.
pub proof fn lemma_first_piece(s: Seq<char>, pat: Seq<char>)
    requires
        pat.len() > 0,
    ensures
        pieces(s, pat).len() >= 1,
        pieces(s, pat)[0] == match cut(s, pat) {
            Some((before, _)) => before,
            None => s,
        },
{
}

/// Appending one character to a `String` with `String::push`: the text grows
/// by exactly that character, at its end.
pub assume_specification[ String::push ](s: &mut String, ch: char)
    ensures
        final(s)@ == old(s)@.push(ch),
;

/// The characters of a string, in order.
pub fn to_chars(s: &str) -> (chars: Vec<char>)
    ensures
        chars@ == s@,
{
    let mut chars: Vec<char> = Vec::new();
    for c in it: s.chars()
        invariant
            it.seq() == s@,
            chars@ == s@.take(it.index()),
    {
        chars.push(c);
    }
    chars
}

/// The string made of the given characters, in order.
pub fn string_of(chars: &[char]) -> (s: String)
    ensures
        s@ == chars@,
{
    let mut s = String::new();
    let mut i: usize = 0;
    while i < chars.len()
        invariant
            i <= chars.len(),
            s@ == chars@.take(i as int),
        decreases chars.len() - i,
    {
        s.push(chars[i]);
        i += 1;
    }
    s
}

/// Whether `pat` occurs in `hay` starting at index `i`.
pub fn matches_at(hay: &[char], pat: &[char], i: usize) -> (b: bool)
    ensures
        b == occurs_at(hay@, pat@, i as int),
{
    if pat.len() > hay.len() || i > hay.len() - pat.len() {
        return false;
    }
    let mut k: usize = 0;
    while k < pat.len()
        invariant
            k <= pat.len(),
            i + pat.len() <= hay.len(),
            forall|m: int| 0 <= m < k ==> hay@[i + m] == pat@[m],
        decreases pat.len() - k,
    {
        if hay[i + k] != pat[k] {
            assert(hay@.subrange(i as int, i + pat.len())[k as int] != pat@[k as int]);
            return false;
        }
        k += 1;
    }
    assert(hay@.subrange(i as int, i + pat.len()) =~= pat@);
    true
}

/// The index of the leftmost occurrence of `pat` in `hay`.
pub fn find(hay: &[char], pat: &[char]) -> (r: Option<usize>)
    ensures
        match r {
            Some(i) => leftmost(hay@, pat@) == Some(i as int),
            None => leftmost(hay@, pat@) is None,
        },
{
    let mut i: usize = 0;
    while i <= hay.len() && pat.len() <= hay.len() - i
        invariant
            forall|j: int| 0 <= j < i ==> !occurs_at(hay@, pat@, j),
        decreases hay.len() + 1 - i,
    {
        if matches_at(hay, pat, i) {
            proof {
                lemma_leftmost_at(hay@, pat@, i as int);
            }
            return Some(i);
        }
        assert(pat.len() > 0) by {
            if pat.len() == 0 {
                assert(hay@.subrange(i as int, i as int) =~= pat@);
            }
        }
        i += 1;
    }
    None
}

/// Splits `hay` at the leftmost occurrence of `pat` into what stands before
/// it and what stands after it.
pub fn split_once<'a>(hay: &'a [char], pat: &[char]) -> (r: Option<(&'a [char], &'a [char])>)
    ensures
        match r {
            Some((before, after)) => cut(hay@, pat@) == Some((before@, after@)),
            None => cut(hay@, pat@) is None,
        },
{
    match find(hay, pat) {
        Some(i) => {
            proof {
                lemma_leftmost_is_first(hay@, pat@);
                assert(occurs_at(hay@, pat@, i as int));
            }
            let end: usize = hay.len();
            let before = slice_subrange(hay, 0, i);
            let after = slice_subrange(hay, i + pat.len(), end);
            Some((before, after))
        },
        None => None,
    }
}

/// A map from texts to strings, read as a map from texts to texts.
pub open spec fn value_texts(m: Map<Seq<char>, String>) -> Map<Seq<char>, Seq<char>> {
    m.map_values(|v: String| v@)
}

/// The texts that the slices of `parts` hold.
pub open spec fn texts(parts: Seq<&[char]>) -> Seq<Seq<char>> {
    parts.map_values(|p: &[char]| p@)
}

/// Splits `hay` at every occurrence of `pat`, from left to right.
pub fn split<'a>(hay: &'a [char], pat: &[char]) -> (parts: Vec<&'a [char]>)
    ensures
        texts(parts@) == pieces(hay@, pat@),
        parts.len() >= 1,
{
    let mut parts: Vec<&'a [char]> = Vec::new();
    let mut rest: &'a [char] = hay;
    if pat.len() == 0 {
        parts.push(hay);
        assert(texts(parts@) =~= seq![hay@]);
        return parts;
    }
    loop
        invariant_except_break
            pat.len() > 0,
            texts(parts@) + pieces(rest@, pat@) == pieces(hay@, pat@),
        ensures
            texts(parts@) == pieces(hay@, pat@),
            parts.len() >= 1,
        decreases rest.len(),
    {
        let ghost done = parts@;
        match split_once(rest, pat) {
            Some((before, after)) => {
                proof {
                    lemma_leftmost_is_first(rest@, pat@);
                }
                parts.push(before);
                assert(texts(parts@) =~= texts(done) + seq![before@]);
                assert(pieces(rest@, pat@) == seq![before@] + pieces(after@, pat@));
                assert(texts(parts@) + pieces(after@, pat@) =~= texts(done) + pieces(rest@, pat@));
                rest = after;
            },
            None => {
                parts.push(rest);
                assert(texts(parts@) =~= texts(done) + seq![rest@]);
                break;
            },
        }
    }
    parts
}

} // verus!
