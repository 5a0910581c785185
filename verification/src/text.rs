//! Character-sequence primitives shared by every text-processing module.
//!
//! Strings are modelled as `Seq<char>` (the view vstd gives `str` and
//! `String`); positions are character indices.  All searching, trimming and
//! case-folding used elsewhere in the crate is defined here once, as a spec
//! function, together with an executable version proved against it.

use vstd::prelude::*;

verus! {

// ---------------------------------------------------------------------------
// conversions between `str`/`String` and character vectors
// ---------------------------------------------------------------------------

/// Appends one character to a `String` (std's `String::push`).
#[verifier::external_body]
pub(crate) fn string_push(s: &mut String, c: char)
    ensures
        final(s)@ == old(s)@.push(c),
{
    s.push(c);
}

/// The characters of `s`, in order.
pub fn to_chars(s: &str) -> (out: Vec<char>)
    ensures
        out@ == s@,
{
    let mut out: Vec<char> = Vec::new();
    for c in it: s.chars()
        invariant
            out@ == it.seq().take(it.index() as int),
            it.seq() == s@,
    {
        out.push(c);
    }
    out
}

/// A `String` holding exactly the characters `cs`.
pub fn from_chars(cs: &[char]) -> (out: String)
    ensures
        out@ == cs@,
{
    let mut out = String::new();
    let mut i: usize = 0;
    while i < cs.len()
        invariant
            i <= cs@.len(),
            out@ == cs@.take(i as int),
        decreases cs@.len() - i,
    {
        string_push(&mut out, cs[i]);
        proof {
            assert(cs@.take(i as int).push(cs@[i as int]) =~= cs@.take(i + 1));
        }
        i = i + 1;
    }
    proof {
        assert(cs@.take(cs@.len() as int) =~= cs@);
    }
    out
}

/// Appends `src[from..to]` to `dst`.
pub fn push_range(dst: &mut Vec<char>, src: &[char], from: usize, to: usize)
    requires
        from <= to <= src@.len(),
    ensures
        final(dst)@ == old(dst)@ + src@.subrange(from as int, to as int),
{
    let mut i = from;
    while i < to
        invariant
            from <= i <= to <= src@.len(),
            dst@ == old(dst)@ + src@.subrange(from as int, i as int),
        decreases to - i,
    {
        dst.push(src[i]);
        proof {
            assert(src@.subrange(from as int, i as int).push(src@[i as int]) =~= src@.subrange(
                from as int,
                i + 1,
            ));
        }
        i = i + 1;
    }
}

/// Appends all of `src` to `dst`.
pub fn push_all(dst: &mut Vec<char>, src: &[char])
    ensures
        final(dst)@ == old(dst)@ + src@,
{
    push_range(dst, src, 0, src.len());
    proof {
        assert(src@.subrange(0, src@.len() as int) =~= src@);
    }
}

/// `src[from..to]` as a fresh vector.
pub fn slice_vec(src: &[char], from: usize, to: usize) -> (out: Vec<char>)
    requires
        from <= to <= src@.len(),
    ensures
        out@ == src@.subrange(from as int, to as int),
{
    let mut out: Vec<char> = Vec::new();
    push_range(&mut out, src, from, to);
    proof {
        assert(Seq::<char>::empty() + src@.subrange(from as int, to as int) =~= src@.subrange(
            from as int,
            to as int,
        ));
    }
    out
}

/// Character-by-character equality of two slices.
pub fn chars_eq(a: &[char], b: &[char]) -> (r: bool)
    ensures
        r == (a@ == b@),
{
    if a.len() != b.len() {
        return false;
    }
    let mut i: usize = 0;
    while i < a.len()
        invariant
            a@.len() == b@.len(),
            i <= a@.len(),
            forall|j: int| 0 <= j < i ==> a@[j] == b@[j],
        decreases a@.len() - i,
    {
        if a[i] != b[i] {
            return false;
        }
        i = i + 1;
    }
    proof {
        assert(a@ =~= b@);
    }
    true
}

// ---------------------------------------------------------------------------
// searching
// ---------------------------------------------------------------------------

/// `pat` occurs in `s` starting at index `i`.
pub open spec fn matches_at(s: Seq<char>, pat: Seq<char>, i: int) -> bool {
    0 <= i && i + pat.len() <= s.len() && s.subrange(i, i + pat.len()) == pat
}

/// The first index `>= from` at which `pat` occurs in `s`.
pub open spec fn find_from(s: Seq<char>, pat: Seq<char>, from: int) -> Option<int>
    decreases s.len() + 1 - from,
{
    if from < 0 || from + pat.len() > s.len() {
        None
    } else if matches_at(s, pat, from) {
        Some(from)
    } else {
        find_from(s, pat, from + 1)
    }
}

/// The first index at which `pat` occurs in `s` (std's `str::find`, counted in characters).
pub open spec fn find(s: Seq<char>, pat: Seq<char>) -> Option<int> {
    find_from(s, pat, 0)
}

/// `find_from` returns the least matching index, or `None` when there is none.
pub proof fn lemma_find_from(s: Seq<char>, pat: Seq<char>, from: int)
    requires
        0 <= from,
    ensures
        match find_from(s, pat, from) {
            Some(i) => from <= i && matches_at(s, pat, i) && forall|j: int|
                from <= j < i ==> !#[trigger] matches_at(s, pat, j),
            None => forall|j: int| from <= j ==> !#[trigger] matches_at(s, pat, j),
        },
    decreases s.len() + 1 - from,
{
    if from + pat.len() > s.len() {
    } else if matches_at(s, pat, from) {
    } else {
        lemma_find_from(s, pat, from + 1);
    }
}

/// A match at `i` with none before it means `find_from` returns `i`.
pub proof fn lemma_find_from_unique(s: Seq<char>, pat: Seq<char>, from: int, i: int)
    requires
        0 <= from <= i,
        matches_at(s, pat, i),
        forall|j: int| from <= j < i ==> !#[trigger] matches_at(s, pat, j),
    ensures
        find_from(s, pat, from) == Some(i),
    decreases i - from,
{
    if from < i {
        assert(!matches_at(s, pat, from));
        lemma_find_from_unique(s, pat, from + 1, i);
    }
}

/// No match at or after `from` means `find_from` returns `None`.
pub proof fn lemma_find_from_none(s: Seq<char>, pat: Seq<char>, from: int)
    requires
        0 <= from,
        forall|j: int| from <= j ==> !#[trigger] matches_at(s, pat, j),
    ensures
        find_from(s, pat, from) == None::<int>,
    decreases s.len() + 1 - from,
{
    if from + pat.len() <= s.len() {
        assert(!matches_at(s, pat, from));
        lemma_find_from_none(s, pat, from + 1);
    }
}

/// Whether `pat` occurs in `s` at index `i` (executable).
pub fn matches_at_exec(s: &[char], pat: &[char], i: usize) -> (r: bool)
    ensures
        r == matches_at(s@, pat@, i as int),
{
    if i > s.len() || pat.len() > s.len() - i {
        return false;
    }
    let slen = s.len();
    let mut k: usize = 0;
    while k < pat.len()
        invariant
            slen == s@.len(),
            i <= s@.len(),
            i + pat@.len() <= s@.len(),
            k <= pat@.len(),
            forall|j: int| 0 <= j < k ==> s@[i + j] == pat@[j],
        decreases pat@.len() - k,
    {
        assert(i + k < s@.len());
        if s[i + k] != pat[k] {
            proof {
                assert(s@.subrange(i as int, i + pat@.len())[k as int] != pat@[k as int]);
            }
            return false;
        }
        k = k + 1;
    }
    proof {
        assert(s@.subrange(i as int, i + pat@.len()) =~= pat@);
    }
    true
}

/// The first index `>= from` at which `pat` occurs in `s` (executable).
pub fn find_from_exec(s: &[char], pat: &[char], from: usize) -> (r: Option<usize>)
    ensures
        match r {
            Some(i) => find_from(s@, pat@, from as int) == Some(i as int),
            None => find_from(s@, pat@, from as int) == None::<int>,
        },
{
    if from > s.len() {
        proof {
            assert forall|j: int| from <= j implies !#[trigger] matches_at(s@, pat@, j) by {}
            lemma_find_from_none(s@, pat@, from as int);
        }
        return None;
    }
    let mut i = from;
    while i < s.len()
        invariant
            from <= i <= s@.len(),
            forall|j: int| from <= j < i ==> !#[trigger] matches_at(s@, pat@, j),
        decreases s@.len() - i,
    {
        if matches_at_exec(s, pat, i) {
            proof {
                lemma_find_from_unique(s@, pat@, from as int, i as int);
            }
            return Some(i);
        }
        i = i + 1;
    }
    if matches_at_exec(s, pat, i) {
        proof {
            lemma_find_from_unique(s@, pat@, from as int, i as int);
        }
        return Some(i);
    }
    proof {
        assert forall|j: int| from <= j implies !#[trigger] matches_at(s@, pat@, j) by {
            if j > i {
                assert(j + pat@.len() > s@.len());
            }
        }
        lemma_find_from_none(s@, pat@, from as int);
    }
    None
}

/// The first index at which `pat` occurs in `s` (executable).
pub fn find_exec(s: &[char], pat: &[char]) -> (r: Option<usize>)
    ensures
        match r {
            Some(i) => find(s@, pat@) == Some(i as int),
            None => find(s@, pat@) == None::<int>,
        },
{
    find_from_exec(s, pat, 0)
}

/// `s` begins with `p`.
pub open spec fn starts_with(s: Seq<char>, p: Seq<char>) -> bool {
    p.len() <= s.len() && s.subrange(0, p.len() as int) == p
}

/// `s` begins with `p` (executable).
pub fn starts_with_exec(s: &[char], p: &[char]) -> (r: bool)
    ensures
        r == starts_with(s@, p@),
{
    matches_at_exec(s, p, 0)
}

/// `s[from..]` begins with `p` (executable).
pub fn starts_with_at(s: &[char], from: usize, p: &[char]) -> (r: bool)
    requires
        from <= s@.len(),
    ensures
        r == starts_with(s@.skip(from as int), p@),
{
    let r = matches_at_exec(s, p, from);
    proof {
        if p@.len() <= s@.len() - from {
            assert(s@.skip(from as int).subrange(0, p@.len() as int) =~= s@.subrange(
                from as int,
                from + p@.len(),
            ));
        }
    }
    r
}

/// Whether `c` occurs in `s`.
pub fn contains_char(s: &[char], c: char) -> (r: bool)
    ensures
        r == s@.contains(c),
{
    let mut i: usize = 0;
    while i < s.len()
        invariant
            i <= s@.len(),
            forall|j: int| 0 <= j < i ==> s@[j] != c,
        decreases s@.len() - i,
    {
        if s[i] == c {
            return true;
        }
        i = i + 1;
    }
    false
}

/// Whether `pat` occurs anywhere in `s` (std's `str::contains`).
pub open spec fn contains(s: Seq<char>, pat: Seq<char>) -> bool {
    find(s, pat) is Some
}

/// Whether `pat` occurs anywhere in `s` (executable).
pub fn contains_exec(s: &[char], pat: &[char]) -> (r: bool)
    ensures
        r == contains(s@, pat@),
{
    find_exec(s, pat).is_some()
}

// ---------------------------------------------------------------------------
// character classes
// ---------------------------------------------------------------------------

/// Unicode `White_Space`, the set std's `char::is_whitespace` and `str::trim` use.
pub open spec fn is_ws(c: char) -> bool {
    ||| ('\t' <= c && c <= '\r')
    ||| c == ' '
    ||| c == '\u{85}'
    ||| c == '\u{a0}'
    ||| c == '\u{1680}'
    ||| ('\u{2000}' <= c && c <= '\u{200a}')
    ||| c == '\u{2028}'
    ||| c == '\u{2029}'
    ||| c == '\u{202f}'
    ||| c == '\u{205f}'
    ||| c == '\u{3000}'
}

/// Unicode `White_Space` (executable).
pub fn is_whitespace(c: char) -> (r: bool)
    ensures
        r == is_ws(c),
{
    ('\t' <= c && c <= '\r') || c == ' ' || c == '\u{85}' || c == '\u{a0}' || c == '\u{1680}' || (
    '\u{2000}' <= c && c <= '\u{200a}') || c == '\u{2028}' || c == '\u{2029}' || c == '\u{202f}'
        || c == '\u{205f}' || c == '\u{3000}'
}

/// ASCII letter or digit.
pub open spec fn is_ascii_alnum(c: char) -> bool {
    ('a' <= c && c <= 'z') || ('A' <= c && c <= 'Z') || ('0' <= c && c <= '9')
}

/// ASCII letter or digit (executable).
pub fn is_ascii_alnum_exec(c: char) -> (r: bool)
    ensures
        r == is_ascii_alnum(c),
{
    ('a' <= c && c <= 'z') || ('A' <= c && c <= 'Z') || ('0' <= c && c <= '9')
}

/// ASCII lower-casing of one character (std's `char::to_ascii_lowercase`).
pub open spec fn lower_char(c: char) -> char {
    if 'A' <= c && c <= 'Z' {
        ((c as u32) + 32) as char
    } else {
        c
    }
}

/// ASCII lower-casing of one character (executable).
pub fn lower_char_exec(c: char) -> (r: char)
    ensures
        r == lower_char(c),
{
    if 'A' <= c && c <= 'Z' {
        let v = (c as u32) + 32;
        proof {
            assert(0x61 <= v <= 0x7a);
        }
        char_from_ascii(v)
    } else {
        c
    }
}

/// The character with the given code point in `0..=0x7f`.
fn char_from_ascii(v: u32) -> (c: char)
    requires
        v <= 0x7f,
    ensures
        c == v as char,
{
    (v as u8) as char
}

/// ASCII lower-casing of a whole sequence (std's `str::to_ascii_lowercase`).
pub open spec fn lower(s: Seq<char>) -> Seq<char> {
    s.map_values(|c: char| lower_char(c))
}

/// ASCII lower-casing of a whole slice (executable).
pub fn lower_exec(s: &[char]) -> (r: Vec<char>)
    ensures
        r@ == lower(s@),
{
    let mut r: Vec<char> = Vec::new();
    let mut i: usize = 0;
    while i < s.len()
        invariant
            i <= s@.len(),
            r@ == lower(s@.take(i as int)),
        decreases s@.len() - i,
    {
        r.push(lower_char_exec(s[i]));
        proof {
            assert(lower(s@.take(i as int)).push(lower_char(s@[i as int])) =~= lower(
                s@.take(i + 1),
            ));
        }
        i = i + 1;
    }
    proof {
        assert(s@.take(s@.len() as int) =~= s@);
    }
    r
}

// ---------------------------------------------------------------------------
// trimming
// ---------------------------------------------------------------------------

/// Index of the first non-whitespace character at or after `i` (or `s.len()`).
pub open spec fn skip_ws_from(s: Seq<char>, i: int) -> int
    decreases s.len() - i,
{
    if i < 0 || i >= s.len() {
        if i < 0 {
            0
        } else {
            i
        }
    } else if is_ws(s[i]) {
        skip_ws_from(s, i + 1)
    } else {
        i
    }
}

/// Index just past the last non-whitespace character before `j` (or 0).
pub open spec fn back_ws_from(s: Seq<char>, j: int) -> int
    decreases j,
{
    if j <= 0 {
        0
    } else if j > s.len() {
        s.len() as int
    } else if is_ws(s[j - 1]) {
        back_ws_from(s, j - 1)
    } else {
        j
    }
}

/// `s` without leading whitespace (std's `str::trim_start`).
pub open spec fn trim_start(s: Seq<char>) -> Seq<char> {
    s.skip(skip_ws_from(s, 0))
}

/// `s` without trailing whitespace (std's `str::trim_end`).
pub open spec fn trim_end(s: Seq<char>) -> Seq<char> {
    s.take(back_ws_from(s, s.len() as int))
}

/// `s` without leading or trailing whitespace (std's `str::trim`).
pub open spec fn trim(s: Seq<char>) -> Seq<char> {
    trim_end(trim_start(s))
}

pub proof fn lemma_skip_ws_bounds(s: Seq<char>, i: int)
    requires
        0 <= i <= s.len(),
    ensures
        i <= skip_ws_from(s, i) <= s.len(),
    decreases s.len() - i,
{
    if i < s.len() && is_ws(s[i]) {
        lemma_skip_ws_bounds(s, i + 1);
    }
}

pub proof fn lemma_back_ws_bounds(s: Seq<char>, j: int)
    requires
        0 <= j <= s.len(),
    ensures
        0 <= back_ws_from(s, j) <= j,
    decreases j,
{
    if j > 0 && is_ws(s[j - 1]) {
        lemma_back_ws_bounds(s, j - 1);
    }
}

/// Index of the first non-whitespace character at or after `from` (executable).
pub fn skip_ws_exec(s: &[char], from: usize) -> (r: usize)
    requires
        from <= s@.len(),
    ensures
        r as int == skip_ws_from(s@, from as int),
        from <= r <= s@.len(),
{
    let mut i = from;
    while i < s.len() && is_whitespace(s[i])
        invariant
            from <= i <= s@.len(),
            skip_ws_from(s@, from as int) == skip_ws_from(s@, i as int),
        decreases s@.len() - i,
    {
        i = i + 1;
    }
    i
}

/// Index just past the last non-whitespace character before `to` (executable).
pub fn back_ws_exec(s: &[char], to: usize) -> (r: usize)
    requires
        to <= s@.len(),
    ensures
        r as int == back_ws_from(s@, to as int),
        r <= to,
{
    let mut j = to;
    while j > 0 && is_whitespace(s[j - 1])
        invariant
            j <= to <= s@.len(),
            back_ws_from(s@, to as int) == back_ws_from(s@, j as int),
        decreases j,
    {
        j = j - 1;
    }
    j
}

/// `s` without leading whitespace (executable).
pub fn trim_start_exec(s: &[char]) -> (r: Vec<char>)
    ensures
        r@ == trim_start(s@),
{
    let i = skip_ws_exec(s, 0);
    slice_vec(s, i, s.len())
}

/// `s` without leading or trailing whitespace (executable).
pub fn trim_exec(s: &[char]) -> (r: Vec<char>)
    ensures
        r@ == trim(s@),
{
    let t = trim_start_exec(s);
    let j = back_ws_exec(&t, t.len());
    slice_vec(&t, 0, j)
}

/// `s[from..to]` trimmed, as start and end indices into `s`.
pub fn trim_range(s: &[char], from: usize, to: usize) -> (r: (usize, usize))
    requires
        from <= to <= s@.len(),
    ensures
        from <= r.0 <= r.1 <= to,
        s@.subrange(r.0 as int, r.1 as int) == trim(s@.subrange(from as int, to as int)),
{
    let sub = slice_vec(s, from, to);
    let i = skip_ws_exec(&sub, 0);
    let t = slice_vec(&sub, i, sub.len());
    let j = back_ws_exec(&t, t.len());
    proof {
        assert(t@ == trim_start(sub@));
        assert(s@.subrange(from + i, from + i + j) =~= t@.take(j as int));
    }
    (from + i, from + i + j)
}

/// The whole of `s` is whitespace (or `s` is empty).
pub open spec fn is_blank(s: Seq<char>) -> bool {
    trim(s).len() == 0
}

proof fn lemma_skip_ws_all(s: Seq<char>, i: int)
    requires
        0 <= i <= s.len(),
    ensures
        skip_ws_from(s, i) == s.len() <==> forall|k: int| i <= k < s.len() ==> is_ws(#[trigger] s[k]),
    decreases s.len() - i,
{
    if i < s.len() {
        lemma_skip_ws_all(s, i + 1);
    }
}

pub proof fn lemma_skip_ws_stops(s: Seq<char>, i: int)
    requires
        0 <= i <= s.len(),
    ensures
        skip_ws_from(s, i) < s.len() ==> !is_ws(s[skip_ws_from(s, i)]),
    decreases s.len() - i,
{
    if i < s.len() && is_ws(s[i]) {
        lemma_skip_ws_stops(s, i + 1);
    }
}

pub proof fn lemma_back_ws_positive(s: Seq<char>, j: int)
    requires
        1 <= j <= s.len(),
        !is_ws(s[0]),
    ensures
        back_ws_from(s, j) >= 1,
    decreases j,
{
    if j > 1 && is_ws(s[j - 1]) {
        lemma_back_ws_positive(s, j - 1);
    }
}

/// `back_ws_from` stops just after a character that is not whitespace.
pub proof fn lemma_back_ws_stops(s: Seq<char>, j: int)
    requires
        0 <= j <= s.len(),
    ensures
        back_ws_from(s, j) > 0 ==> !is_ws(s[back_ws_from(s, j) - 1]),
    decreases j,
{
    if j > 0 && is_ws(s[j - 1]) {
        lemma_back_ws_stops(s, j - 1);
    }
}

/// The whole of `s` is whitespace (executable).
pub fn is_blank_exec(s: &[char]) -> (r: bool)
    ensures
        r == is_blank(s@),
{
    let t = trim_exec(s);
    t.len() == 0
}

// ---------------------------------------------------------------------------
// replacing
// ---------------------------------------------------------------------------

/// Every non-overlapping occurrence of `pat` in `s`, left to right, replaced
/// by `rep` (std's `str::replace` for a non-empty pattern).
pub open spec fn replace_all(s: Seq<char>, pat: Seq<char>, rep: Seq<char>) -> Seq<char>
    decreases s.len(),
{
    if pat.len() == 0 {
        s
    } else {
        match find(s, pat) {
            Some(i) => if 0 <= i && i + pat.len() <= s.len() {
                s.take(i) + rep + replace_all(s.skip(i + pat.len()), pat, rep)
            } else {
                s
            },
            None => s,
        }
    }
}

/// `replace_all` run from position `from` of `s`.
pub open spec fn replace_from(s: Seq<char>, pat: Seq<char>, rep: Seq<char>, from: int) -> Seq<char> {
    replace_all(s.skip(from), pat, rep)
}

pub proof fn lemma_find_from_shift(s: Seq<char>, pat: Seq<char>, from: int)
    requires
        0 <= from <= s.len(),
    ensures
        find_from(s, pat, from) == (match find(s.skip(from), pat) {
            Some(i) => Some(i + from),
            None => None,
        }),
{
    lemma_find_from(s, pat, from);
    lemma_find_from(s.skip(from), pat, 0);
    let t = s.skip(from);
    assert forall|j: int| 0 <= j implies #[trigger] matches_at(t, pat, j) == matches_at(
        s,
        pat,
        j + from,
    ) by {
        if j + pat.len() <= t.len() {
            assert(t.subrange(j, j + pat.len()) =~= s.subrange(j + from, j + from + pat.len()));
        }
    }
    match find(t, pat) {
        Some(i) => {
            assert forall|j: int| from <= j < i + from implies !#[trigger] matches_at(s, pat, j) by {
                assert(!matches_at(t, pat, j - from));
            }
            lemma_find_from_unique(s, pat, from, i + from);
        },
        None => {
            assert forall|j: int| from <= j implies !#[trigger] matches_at(s, pat, j) by {
                assert(!matches_at(t, pat, j - from));
            }
            lemma_find_from_none(s, pat, from);
        },
    }
}

/// Every occurrence of `pat` in `s` replaced by `rep` (executable).
pub fn replace_all_exec(s: &[char], pat: &[char], rep: &[char]) -> (r: Vec<char>)
    requires
        pat@.len() > 0,
    ensures
        r@ == replace_all(s@, pat@, rep@),
{
    let mut out: Vec<char> = Vec::new();
    let mut pos: usize = 0;
    proof {
        assert(s@.skip(0) =~= s@);
        assert(out@ + replace_from(s@, pat@, rep@, 0) =~= replace_all(s@, pat@, rep@));
    }
    while pos <= s.len()
        invariant
            pat@.len() > 0,
            pos <= s@.len(),
            out@ + replace_from(s@, pat@, rep@, pos as int) == replace_all(s@, pat@, rep@),
        decreases s@.len() - pos,
    {
        let found = find_from_exec(s, pat, pos);
        proof {
            lemma_find_from_shift(s@, pat@, pos as int);
            lemma_find_from(s@, pat@, pos as int);
        }
        match found {
            Some(i) => {
                let ghost t = s@.skip(pos as int);
                proof {
                    let k = i - pos;
                    assert(t.take(k) =~= s@.subrange(pos as int, i as int));
                    assert(t.skip(k + pat@.len()) =~= s@.skip(i + pat@.len()));
                }
                push_range(&mut out, s, pos, i);
                push_all(&mut out, rep);
                pos = i + pat.len();
            },
            None => {
                push_range(&mut out, s, pos, s.len());
                proof {
                    assert(s@.subrange(pos as int, s@.len() as int) =~= s@.skip(pos as int));
                }
                return out;
            },
        }
    }
    out
}

// ---------------------------------------------------------------------------
// lines
// ---------------------------------------------------------------------------

/// `line` with one trailing carriage return removed, if present.
pub open spec fn strip_cr(line: Seq<char>) -> Seq<char> {
    if line.len() > 0 && line.last() == '\r' {
        line.drop_last()
    } else {
        line
    }
}

/// The lines of `s` (std's `str::lines`): split at each `'\n'`, each line
/// that ended at a `'\n'` losing one trailing `'\r'`; a last line with no
/// `'\n'` after it is kept as it is; a final empty line after a trailing
/// `'\n'` is not a line, and the empty string has no lines.
pub open spec fn lines(s: Seq<char>) -> Seq<Seq<char>>
    decreases s.len(),
{
    if s.len() == 0 {
        Seq::empty()
    } else {
        match find(s, seq!['\n']) {
            Some(i) => if 0 <= i < s.len() {
                seq![strip_cr(s.take(i))] + lines(s.skip(i + 1))
            } else {
                seq![s]
            },
            None => seq![s],
        }
    }
}

/// A line of `s`, as index bounds `(start, end)` into `s`.
pub struct LineSpan {
    pub start: usize,
    pub end: usize,
}

/// The `k`th span lies within `s` and covers its `k`th line.
pub open spec fn line_span_ok(spans: Seq<LineSpan>, s: Seq<char>, k: int) -> bool {
    &&& spans[k].start <= spans[k].end <= s.len()
    &&& s.subrange(spans[k].start as int, spans[k].end as int) == lines(s)[k]
}

/// The lines of `s` as index bounds (executable `lines`).
pub fn lines_exec(s: &[char]) -> (r: Vec<LineSpan>)
    ensures
        r@.len() == lines(s@).len(),
        forall|k: int| 0 <= k < r@.len() ==> #[trigger] line_span_ok(r@, s@, k),
{
    let mut out: Vec<LineSpan> = Vec::new();
    let mut pos: usize = 0;
    let nl = ['\n'];
    proof {
        assert(s@.skip(0) =~= s@);
        assert(out@.map_values(|l: LineSpan| s@.subrange(l.start as int, l.end as int)) + lines(s@)
            =~= lines(s@));
    }
    while pos < s.len()
        invariant
            pos <= s@.len(),
            nl@ == seq!['\n'],
            forall|k: int|
                0 <= k < out@.len() ==> #[trigger] out@[k].start <= out@[k].end <= s@.len(),
            out@.map_values(|l: LineSpan| s@.subrange(l.start as int, l.end as int)) + lines(
                s@.skip(pos as int),
            ) == lines(s@),
        decreases s@.len() - pos,
    {
        let ghost t = s@.skip(pos as int);
        let ghost before = out@;
        let found = find_from_exec(s, &nl, pos);
        proof {
            lemma_find_from_shift(s@, nl@, pos as int);
            lemma_find_from(s@, nl@, pos as int);
        }
        let line_end = match found {
            Some(i) => i,
            None => s.len(),
        };
        assert(pos <= line_end <= s@.len());
        let mut end = line_end;
        if found.is_some() && end > pos && s[end - 1] == '\r' {
            end = end - 1;
        }
        out.push(LineSpan { start: pos, end });
        proof {
            assert forall|k: int| 0 <= k < out@.len() implies #[trigger] out@[k].start <= out@[k].end
                <= s@.len() by {
                if k < before.len() {
                    assert(out@[k] == before[k]);
                }
            }
            let k = line_end - pos;
            assert(t.take(k) =~= s@.subrange(pos as int, line_end as int));
            if found is Some {
                assert(strip_cr(t.take(k)) =~= s@.subrange(pos as int, end as int));
                assert(t.skip(k + 1) =~= s@.skip(line_end + 1));
            } else {
                assert(t.take(k) =~= t);
                assert(t =~= s@.subrange(pos as int, end as int));
            }
            assert(out@.map_values(|l: LineSpan| s@.subrange(l.start as int, l.end as int))
                =~= before.map_values(|l: LineSpan| s@.subrange(l.start as int, l.end as int))
                .push(s@.subrange(pos as int, end as int)));
        }
        match found {
            Some(i) => {
                pos = i + 1;
            },
            None => {
                pos = s.len();
                proof {
                    assert(s@.skip(pos as int) =~= Seq::<char>::empty());
                }
            },
        }
    }
    proof {
        assert(s@.skip(pos as int) =~= Seq::<char>::empty());
        assert(lines(s@.skip(pos as int)) =~= Seq::<Seq<char>>::empty());
        let m = out@.map_values(|l: LineSpan| s@.subrange(l.start as int, l.end as int));
        assert(m + Seq::<Seq<char>>::empty() =~= m);
        assert forall|k: int| 0 <= k < out@.len() implies #[trigger] line_span_ok(out@, s@, k) by {
            assert(m[k] == s@.subrange(out@[k].start as int, out@[k].end as int));
        }
    }
    out
}

// ---------------------------------------------------------------------------
// numbers and booleans as text
// ---------------------------------------------------------------------------

/// The decimal digit character for `d < 10`.
pub open spec fn digit_char(d: nat) -> char {
    ((48 + d) as u8) as char
}

/// The decimal representation of `n`, without leading zeros.
pub open spec fn nat_decimal(n: nat) -> Seq<char>
    decreases n,
{
    if n < 10 {
        seq![digit_char(n)]
    } else {
        nat_decimal(n / 10).push(digit_char(n % 10))
    }
}

/// The decimal representation of `i`, with a leading `-` when negative.
pub open spec fn int_decimal(i: int) -> Seq<char> {
    if i < 0 {
        seq!['-'] + nat_decimal((-i) as nat)
    } else {
        nat_decimal(i as nat)
    }
}

/// The decimal representation of `n` is a non-empty run of digits.
pub proof fn lemma_nat_decimal_digits(n: nat)
    ensures
        nat_decimal(n).len() >= 1,
        n >= 10 ==> nat_decimal(n).len() >= 2,
        forall|i: int| 0 <= i < nat_decimal(n).len() ==> '0' <= #[trigger] nat_decimal(n)[i] <= '9',
    decreases n,
{
    if n < 10 {
        assert(digit_char(n) as u32 == 48 + n);
    } else {
        lemma_nat_decimal_digits(n / 10);
        let d = digit_char(n % 10);
        assert(d as u32 == 48 + n % 10);
        let init = nat_decimal(n / 10);
        assert forall|i: int| 0 <= i < nat_decimal(n).len() implies '0' <= #[trigger] nat_decimal(n)[i] <= '9' by {
            if i < init.len() {
                assert(nat_decimal(n)[i] == init[i]);
            }
        }
    }
}

/// Different numbers have different decimal representations.
pub proof fn lemma_nat_decimal_injective(m: nat, n: nat)
    requires
        nat_decimal(m) == nat_decimal(n),
    ensures
        m == n,
    decreases m + n,
{
    lemma_nat_decimal_digits(m);
    lemma_nat_decimal_digits(n);
    if m < 10 && n < 10 {
        assert(nat_decimal(m)[0] == digit_char(m));
        assert(nat_decimal(n)[0] == digit_char(n));
        assert(digit_char(m) == digit_char(n));
        assert(digit_char(m) as u32 == 48 + m);
        assert(digit_char(n) as u32 == 48 + n);
    } else if m >= 10 && n >= 10 {
        let a = nat_decimal(m / 10);
        let b = nat_decimal(n / 10);
        assert(nat_decimal(m) == a.push(digit_char(m % 10)));
        assert(nat_decimal(n) == b.push(digit_char(n % 10)));
        assert(a =~= nat_decimal(m).drop_last());
        assert(b =~= nat_decimal(n).drop_last());
        lemma_nat_decimal_injective(m / 10, n / 10);
        assert(nat_decimal(m).last() == digit_char(m % 10));
        assert(nat_decimal(n).last() == digit_char(n % 10));
        assert(digit_char(m % 10) == digit_char(n % 10));
        assert(digit_char(m % 10) as u32 == 48 + m % 10);
        assert(digit_char(n % 10) as u32 == 48 + n % 10);
        assert(m % 10 == n % 10);
        assert(m / 10 == n / 10);
        assert(m == (m / 10) * 10 + m % 10) by (nonlinear_arith);
        assert(n == (n / 10) * 10 + n % 10) by (nonlinear_arith);
    } else if m < 10 {
        lemma_nat_decimal_digits(n / 10);
        assert(nat_decimal(n).len() == nat_decimal(n / 10).len() + 1);
    } else {
        lemma_nat_decimal_digits(m / 10);
        assert(nat_decimal(m).len() == nat_decimal(m / 10).len() + 1);
    }
}

/// Different integers have different decimal representations, each made
/// of digits and a leading `-` at most.
pub proof fn lemma_int_decimal_injective(i: int, j: int)
    ensures
        int_decimal(i) == int_decimal(j) ==> i == j,
        forall|k: int| 0 <= k < int_decimal(i).len() ==> #[trigger] int_decimal(i)[k] != '\u{1}',
{
    lemma_nat_decimal_digits(if i < 0 { (-i) as nat } else { i as nat });
    lemma_nat_decimal_digits(if j < 0 { (-j) as nat } else { j as nat });
    if i < 0 {
        let t = nat_decimal((-i) as nat);
        assert forall|k: int| 0 <= k < int_decimal(i).len() implies #[trigger] int_decimal(i)[k] != '\u{1}' by {
            if k > 0 {
                assert(int_decimal(i)[k] == t[k - 1]);
            }
        }
    }
    if int_decimal(i) == int_decimal(j) {
        if i < 0 && j < 0 {
            assert(nat_decimal((-i) as nat) =~= int_decimal(i).drop_first());
            assert(nat_decimal((-j) as nat) =~= int_decimal(j).drop_first());
            lemma_nat_decimal_injective((-i) as nat, (-j) as nat);
        } else if i >= 0 && j >= 0 {
            lemma_nat_decimal_injective(i as nat, j as nat);
        } else if i < 0 {
            assert(int_decimal(i)[0] == '-');
            assert(int_decimal(j)[0] == nat_decimal(j as nat)[0]);
        } else {
            assert(int_decimal(j)[0] == '-');
            assert(int_decimal(i)[0] == nat_decimal(i as nat)[0]);
        }
    }
}

/// `true` or `false`, as text.
pub open spec fn bool_text(b: bool) -> Seq<char> {
    if b {
        seq!['t', 'r', 'u', 'e']
    } else {
        seq!['f', 'a', 'l', 's', 'e']
    }
}

/// Appends the decimal representation of `n`.
pub fn push_decimal(out: &mut Vec<char>, n: u64)
    ensures
        final(out)@ == old(out)@ + nat_decimal(n as nat),
    decreases n,
{
    if n >= 10 {
        push_decimal(out, n / 10);
    }
    let d: u8 = (n % 10) as u8;
    out.push((48u8 + d) as char);
    proof {
        if n >= 10 {
            assert(nat_decimal(n as nat) == nat_decimal((n / 10) as nat).push(digit_char((n % 10) as nat)));
        }
    }
}

/// Appends the decimal representation of `n`, with `-` when negative.
pub fn push_i64_decimal(out: &mut Vec<char>, n: i64)
    ensures
        final(out)@ == old(out)@ + int_decimal(n as int),
{
    if n < 0 {
        out.push('-');
        let m: u64 = (0i128 - (n as i128)) as u64;
        push_decimal(out, m);
        proof {
            assert(old(out)@.push('-') + nat_decimal(m as nat) =~= old(out)@ + (seq!['-'] + nat_decimal(
                (-(n as int)) as nat,
            )));
        }
    } else {
        push_decimal(out, n as u64);
    }
}

/// Appends `true` or `false`.
pub fn push_bool(out: &mut Vec<char>, b: bool)
    ensures
        final(out)@ == old(out)@ + bool_text(b),
{
    let t = if b {
        vec!['t', 'r', 'u', 'e']
    } else {
        vec!['f', 'a', 'l', 's', 'e']
    };
    proof {
        if b {
            assert(t@ =~= bool_text(b));
        } else {
            assert(t@ =~= bool_text(b));
        }
    }
    push_all(out, &t);
}

} // verus!
