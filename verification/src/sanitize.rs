//! The attribute-level sanitizers behind the HTML subset that messages and
//! character cards may use: URL, `style` and `color` filtering, entity
//! decoding, open-tag scanning and attribute extraction.

use vstd::prelude::*;
use crate::text::{
    contains, contains_char, contains_exec, find, find_from, find_from_exec, from_chars,
    is_ascii_alnum, is_ascii_alnum_exec, lemma_find_from, lemma_find_from_shift, lower,
    lower_exec, matches_at, push_all, push_range, replace_all, replace_all_exec, skip_ws_exec,
    slice_vec, starts_with, starts_with_exec, to_chars, trim, trim_exec, trim_range, trim_start,
};
use crate::reasoning::join;

verus! {

// ---------------------------------------------------------------------------
// tag allow-list
// ---------------------------------------------------------------------------

/// The tag names (lower-case) that may pass through: the same list the
/// "strip HTML/GFX from context" regex script of the presets uses.
pub open spec fn allowed_tag_names() -> Seq<Seq<char>> {
    seq![
        seq!['d', 'i', 'v'],
        seq!['s', 'p', 'a', 'n'],
        seq!['p'],
        seq!['s', 't', 'r', 'o', 'n', 'g'],
        seq!['b'],
        seq!['e', 'm'],
        seq!['i'],
        seq!['u'],
        seq!['s', 'm', 'a', 'l', 'l'],
        seq!['f', 'o', 'n', 't'],
        seq!['b', 'r'],
        seq!['h', '1'],
        seq!['h', '2'],
        seq!['h', '3'],
        seq!['a'],
        seq!['i', 'm', 'g'],
    ]
}

/// `name` (compared case-insensitively) is on the allow-list.
pub open spec fn spec_is_allowed_tag(name: Seq<char>) -> bool {
    allowed_tag_names().contains(lower(name))
}

/// Whether any of `list` equals `s`.
fn seq_in_list(s: &[char], list: &Vec<Vec<char>>) -> (r: bool)
    ensures
        r == list@.map_values(|v: Vec<char>| v@).contains(s@),
{
    let ghost views = list@.map_values(|v: Vec<char>| v@);
    let mut i: usize = 0;
    while i < list.len()
        invariant
            i <= list@.len(),
            views == list@.map_values(|v: Vec<char>| v@),
            forall|j: int| 0 <= j < i ==> views[j] != s@,
        decreases list@.len() - i,
    {
        if crate::text::chars_eq(s, &list[i]) {
            proof {
                assert(views[i as int] == s@);
            }
            return true;
        }
        i = i + 1;
    }
    false
}

/// A vector holding the characters of `a`.
fn cv(a: &[char]) -> (r: Vec<char>)
    ensures
        r@ == a@,
{
    let r = slice_vec(a, 0, a.len());
    proof {
        assert(a@.subrange(0, a@.len() as int) =~= a@);
    }
    r
}

/// Whether `name` is an allowed tag name (executable).
pub fn is_allowed_tag_chars(name: &[char]) -> (r: bool)
    ensures
        r == spec_is_allowed_tag(name@),
{
    let l = lower_exec(name);
    let mut list: Vec<Vec<char>> = Vec::new();
    list.push(cv(&['d', 'i', 'v']));
    list.push(cv(&['s', 'p', 'a', 'n']));
    list.push(cv(&['p']));
    list.push(cv(&['s', 't', 'r', 'o', 'n', 'g']));
    list.push(cv(&['b']));
    list.push(cv(&['e', 'm']));
    list.push(cv(&['i']));
    list.push(cv(&['u']));
    list.push(cv(&['s', 'm', 'a', 'l', 'l']));
    list.push(cv(&['f', 'o', 'n', 't']));
    list.push(cv(&['b', 'r']));
    list.push(cv(&['h', '1']));
    list.push(cv(&['h', '2']));
    list.push(cv(&['h', '3']));
    list.push(cv(&['a']));
    list.push(cv(&['i', 'm', 'g']));
    proof {
        assert(list@[0]@ =~= allowed_tag_names()[0]);
        assert(list@[1]@ =~= allowed_tag_names()[1]);
        assert(list@[2]@ =~= allowed_tag_names()[2]);
        assert(list@[3]@ =~= allowed_tag_names()[3]);
        assert(list@[4]@ =~= allowed_tag_names()[4]);
        assert(list@[5]@ =~= allowed_tag_names()[5]);
        assert(list@[6]@ =~= allowed_tag_names()[6]);
        assert(list@[7]@ =~= allowed_tag_names()[7]);
        assert(list@[8]@ =~= allowed_tag_names()[8]);
        assert(list@[9]@ =~= allowed_tag_names()[9]);
        assert(list@[10]@ =~= allowed_tag_names()[10]);
        assert(list@[11]@ =~= allowed_tag_names()[11]);
        assert(list@[12]@ =~= allowed_tag_names()[12]);
        assert(list@[13]@ =~= allowed_tag_names()[13]);
        assert(list@[14]@ =~= allowed_tag_names()[14]);
        assert(list@[15]@ =~= allowed_tag_names()[15]);
        assert(list@.map_values(|v: Vec<char>| v@) =~= allowed_tag_names());
    }
    seq_in_list(&l, &list)
}

/// Whether `name` is a tag that may pass through, compared case-insensitively.
pub fn is_allowed_tag(name: &str) -> (r: bool)
    ensures
        r == spec_is_allowed_tag(name@),
{
    let c = to_chars(name);
    is_allowed_tag_chars(&c)
}

// ---------------------------------------------------------------------------
// URLs
// ---------------------------------------------------------------------------

/// `http://`
pub open spec fn http_prefix() -> Seq<char> {
    seq!['h', 't', 't', 'p', ':', '/', '/']
}

/// `https://`
pub open spec fn https_prefix() -> Seq<char> {
    seq!['h', 't', 't', 'p', 's', ':', '/', '/']
}

/// The URL `raw` trimmed, kept only when it is an absolute `http://` or
/// `https://` URL (scheme compared case-insensitively).
pub open spec fn spec_sanitize_url(raw: Seq<char>) -> Option<Seq<char>> {
    let t = trim(raw);
    if starts_with(lower(t), http_prefix()) || starts_with(lower(t), https_prefix()) {
        Some(t)
    } else {
        None
    }
}

/// An address that opens as a link: `http://` or `https://` (any case).
pub open spec fn safe_href(h: Seq<char>) -> bool {
    starts_with(lower(h), http_prefix()) || starts_with(lower(h), https_prefix())
}

/// The sanitized form of a URL (character version).
pub fn sanitize_url_chars(raw: &[char]) -> (r: Option<Vec<char>>)
    ensures
        match r {
            Some(v) => spec_sanitize_url(raw@) == Some(v@),
            None => spec_sanitize_url(raw@) is None,
        },
{
    let t = trim_exec(raw);
    let l = lower_exec(&t);
    let http = vec!['h', 't', 't', 'p', ':', '/', '/'];
    let https = vec!['h', 't', 't', 'p', 's', ':', '/', '/'];
    proof {
        assert(http@ =~= http_prefix());
        assert(https@ =~= https_prefix());
    }
    if starts_with_exec(&l, &http) || starts_with_exec(&l, &https) {
        Some(t)
    } else {
        None
    }
}

/// Keeps only absolute `http://`/`https://` URLs (trimmed); `javascript:`,
/// `data:` and relative paths give `None`.
pub fn sanitize_url(raw: &str) -> (r: Option<String>)
    ensures
        match r {
            Some(v) => spec_sanitize_url(raw@) == Some(v@),
            None => spec_sanitize_url(raw@) is None,
        },
{
    let c = to_chars(raw);
    match sanitize_url_chars(&c) {
        Some(v) => Some(from_chars(&v)),
        None => None,
    }
}

// ---------------------------------------------------------------------------
// style attributes
// ---------------------------------------------------------------------------

/// The pieces of `s` between occurrences of `sep` (std's `str::split` on a
/// character): one more piece than there are separators.
pub open spec fn split_char(s: Seq<char>, sep: char) -> Seq<Seq<char>>
    decreases s.len(),
{
    match find(s, seq![sep]) {
        Some(i) => if 0 <= i < s.len() {
            seq![s.take(i)] + split_char(s.skip(i + 1), sep)
        } else {
            seq![s]
        },
        None => seq![s],
    }
}

/// `s` split at its first `sep` (std's `splitn(2, sep)`): the part before,
/// and the part after when there is a separator.
pub open spec fn split_once(s: Seq<char>, sep: char) -> (Seq<char>, Option<Seq<char>>) {
    match find(s, seq![sep]) {
        Some(i) => (s.take(i), Some(s.skip(i + 1))),
        None => (s, None),
    }
}

/// The CSS properties a style attribute may set: no `url()`-capable
/// properties such as `background-image`.
pub open spec fn allowed_style_props() -> Seq<Seq<char>> {
    seq![
        seq!['c', 'o', 'l', 'o', 'r'],
        seq!['b', 'a', 'c', 'k', 'g', 'r', 'o', 'u', 'n', 'd'],
        seq!['b', 'a', 'c', 'k', 'g', 'r', 'o', 'u', 'n', 'd', '-', 'c', 'o', 'l', 'o', 'r'],
        seq!['b', 'o', 'r', 'd', 'e', 'r'],
        seq!['b', 'o', 'r', 'd', 'e', 'r', '-', 'c', 'o', 'l', 'o', 'r'],
        seq!['b', 'o', 'r', 'd', 'e', 'r', '-', 'r', 'a', 'd', 'i', 'u', 's'],
        seq!['b', 'o', 'r', 'd', 'e', 'r', '-', 's', 't', 'y', 'l', 'e'],
        seq!['b', 'o', 'r', 'd', 'e', 'r', '-', 'w', 'i', 'd', 't', 'h'],
        seq!['p', 'a', 'd', 'd', 'i', 'n', 'g'],
        seq!['m', 'a', 'r', 'g', 'i', 'n'],
        seq!['f', 'o', 'n', 't', '-', 'f', 'a', 'm', 'i', 'l', 'y'],
        seq!['f', 'o', 'n', 't', '-', 's', 'i', 'z', 'e'],
        seq!['f', 'o', 'n', 't', '-', 'w', 'e', 'i', 'g', 'h', 't'],
        seq!['f', 'o', 'n', 't', '-', 's', 't', 'y', 'l', 'e'],
        seq!['t', 'e', 'x', 't', '-', 'a', 'l', 'i', 'g', 'n'],
        seq!['t', 'e', 'x', 't', '-', 'd', 'e', 'c', 'o', 'r', 'a', 't', 'i', 'o', 'n'],
        seq!['t', 'e', 'x', 't', '-', 't', 'r', 'a', 'n', 's', 'f', 'o', 'r', 'm'],
        seq!['w', 'h', 'i', 't', 'e', '-', 's', 'p', 'a', 'c', 'e'],
        seq!['l', 'i', 'n', 'e', '-', 'h', 'e', 'i', 'g', 'h', 't'],
        seq!['l', 'e', 't', 't', 'e', 'r', '-', 's', 'p', 'a', 'c', 'i', 'n', 'g'],
        seq!['d', 'i', 's', 'p', 'l', 'a', 'y'],
        seq!['w', 'i', 'd', 't', 'h'],
        seq!['m', 'a', 'x', '-', 'w', 'i', 'd', 't', 'h'],
        seq!['m', 'i', 'n', '-', 'w', 'i', 'd', 't', 'h'],
        seq!['h', 'e', 'i', 'g', 'h', 't'],
        seq!['m', 'a', 'x', '-', 'h', 'e', 'i', 'g', 'h', 't'],
        seq!['o', 'p', 'a', 'c', 'i', 't', 'y'],
        seq!['b', 'o', 'x', '-', 's', 'h', 'a', 'd', 'o', 'w'],
        seq!['t', 'e', 'x', 't', '-', 's', 'h', 'a', 'd', 'o', 'w'],
        seq!['v', 'e', 'r', 't', 'i', 'c', 'a', 'l', '-', 'a', 'l', 'i', 'g', 'n'],
        seq!['o', 'v', 'e', 'r', 'f', 'l', 'o', 'w'],
        seq!['o', 'v', 'e', 'r', 'f', 'l', 'o', 'w', '-', 'w', 'r', 'a', 'p'],
        seq!['w', 'o', 'r', 'd', '-', 'b', 'r', 'e', 'a', 'k'],
    ]
}

/// Substrings that disqualify a style value (checked case-insensitively):
/// they could load remote resources or run script.
pub open spec fn forbidden_style_fragments() -> Seq<Seq<char>> {
    seq![
        seq!['u', 'r', 'l', '('],
        seq!['e', 'x', 'p', 'r', 'e', 's', 's', 'i', 'o', 'n', '('],
        seq!['j', 'a', 'v', 'a', 's', 'c', 'r', 'i', 'p', 't', ':'],
        seq!['@', 'i', 'm', 'p', 'o', 'r', 't'],
    ]
}

/// The value `v` of a style declaration is acceptable.
pub open spec fn style_value_ok(v: Seq<char>) -> bool {
    &&& !contains(lower(v), forbidden_style_fragments()[0])
    &&& !contains(lower(v), forbidden_style_fragments()[1])
    &&& !contains(lower(v), forbidden_style_fragments()[2])
    &&& !contains(lower(v), forbidden_style_fragments()[3])
    &&& !v.contains('<')
    &&& !v.contains('>')
}

/// One `prop: value` declaration, normalised (property lower-cased, both
/// sides trimmed), or `None` when it is dropped: no colon, empty value,
/// property not on the allow-list, or a forbidden value.
pub open spec fn sanitize_decl(decl: Seq<char>) -> Option<Seq<char>> {
    let parts = split_once(decl, ':');
    let prop = lower(trim(parts.0));
    match parts.1 {
        None => None,
        Some(raw_value) => {
            let value = trim(raw_value);
            if value.len() == 0 || !allowed_style_props().contains(prop) {
                None
            } else if !style_value_ok(value) {
                None
            } else {
                Some(prop + seq![':', ' '] + value)
            }
        },
    }
}

/// The kept results of `sanitize_decl` over `decls`, in order.
pub open spec fn sanitize_decls(decls: Seq<Seq<char>>) -> Seq<Seq<char>>
    decreases decls.len(),
{
    if decls.len() == 0 {
        Seq::empty()
    } else {
        match sanitize_decl(decls[0]) {
            Some(d) => seq![d] + sanitize_decls(decls.drop_first()),
            None => sanitize_decls(decls.drop_first()),
        }
    }
}

/// A style attribute reduced to its safe declarations, joined by `"; "`.
pub open spec fn spec_sanitize_style(raw: Seq<char>) -> Seq<char> {
    join(sanitize_decls(split_char(raw, ';')), seq![';', ' '])
}

/// Whether `list` (as views) contains `s`.
fn list_contains(list: &Vec<Vec<char>>, s: &[char]) -> (r: bool)
    ensures
        r == list@.map_values(|v: Vec<char>| v@).contains(s@),
{
    seq_in_list(s, list)
}

/// The allowed style properties (executable).
fn allowed_props_vec() -> (r: Vec<Vec<char>>)
    ensures
        r@.map_values(|v: Vec<char>| v@) == allowed_style_props(),
{
    let mut v: Vec<Vec<char>> = Vec::new();
    v.push(cv(&['c', 'o', 'l', 'o', 'r']));
    v.push(cv(&['b', 'a', 'c', 'k', 'g', 'r', 'o', 'u', 'n', 'd']));
    v.push(cv(&['b', 'a', 'c', 'k', 'g', 'r', 'o', 'u', 'n', 'd', '-', 'c', 'o', 'l', 'o', 'r']));
    v.push(cv(&['b', 'o', 'r', 'd', 'e', 'r']));
    v.push(cv(&['b', 'o', 'r', 'd', 'e', 'r', '-', 'c', 'o', 'l', 'o', 'r']));
    v.push(cv(&['b', 'o', 'r', 'd', 'e', 'r', '-', 'r', 'a', 'd', 'i', 'u', 's']));
    v.push(cv(&['b', 'o', 'r', 'd', 'e', 'r', '-', 's', 't', 'y', 'l', 'e']));
    v.push(cv(&['b', 'o', 'r', 'd', 'e', 'r', '-', 'w', 'i', 'd', 't', 'h']));
    v.push(cv(&['p', 'a', 'd', 'd', 'i', 'n', 'g']));
    v.push(cv(&['m', 'a', 'r', 'g', 'i', 'n']));
    v.push(cv(&['f', 'o', 'n', 't', '-', 'f', 'a', 'm', 'i', 'l', 'y']));
    v.push(cv(&['f', 'o', 'n', 't', '-', 's', 'i', 'z', 'e']));
    v.push(cv(&['f', 'o', 'n', 't', '-', 'w', 'e', 'i', 'g', 'h', 't']));
    v.push(cv(&['f', 'o', 'n', 't', '-', 's', 't', 'y', 'l', 'e']));
    v.push(cv(&['t', 'e', 'x', 't', '-', 'a', 'l', 'i', 'g', 'n']));
    v.push(cv(&['t', 'e', 'x', 't', '-', 'd', 'e', 'c', 'o', 'r', 'a', 't', 'i', 'o', 'n']));
    v.push(cv(&['t', 'e', 'x', 't', '-', 't', 'r', 'a', 'n', 's', 'f', 'o', 'r', 'm']));
    v.push(cv(&['w', 'h', 'i', 't', 'e', '-', 's', 'p', 'a', 'c', 'e']));
    v.push(cv(&['l', 'i', 'n', 'e', '-', 'h', 'e', 'i', 'g', 'h', 't']));
    v.push(cv(&['l', 'e', 't', 't', 'e', 'r', '-', 's', 'p', 'a', 'c', 'i', 'n', 'g']));
    v.push(cv(&['d', 'i', 's', 'p', 'l', 'a', 'y']));
    v.push(cv(&['w', 'i', 'd', 't', 'h']));
    v.push(cv(&['m', 'a', 'x', '-', 'w', 'i', 'd', 't', 'h']));
    v.push(cv(&['m', 'i', 'n', '-', 'w', 'i', 'd', 't', 'h']));
    v.push(cv(&['h', 'e', 'i', 'g', 'h', 't']));
    v.push(cv(&['m', 'a', 'x', '-', 'h', 'e', 'i', 'g', 'h', 't']));
    v.push(cv(&['o', 'p', 'a', 'c', 'i', 't', 'y']));
    v.push(cv(&['b', 'o', 'x', '-', 's', 'h', 'a', 'd', 'o', 'w']));
    v.push(cv(&['t', 'e', 'x', 't', '-', 's', 'h', 'a', 'd', 'o', 'w']));
    v.push(cv(&['v', 'e', 'r', 't', 'i', 'c', 'a', 'l', '-', 'a', 'l', 'i', 'g', 'n']));
    v.push(cv(&['o', 'v', 'e', 'r', 'f', 'l', 'o', 'w']));
    v.push(cv(&['o', 'v', 'e', 'r', 'f', 'l', 'o', 'w', '-', 'w', 'r', 'a', 'p']));
    v.push(cv(&['w', 'o', 'r', 'd', '-', 'b', 'r', 'e', 'a', 'k']));
    proof {
        assert(v@[0]@ =~= allowed_style_props()[0]);
        assert(v@[1]@ =~= allowed_style_props()[1]);
        assert(v@[2]@ =~= allowed_style_props()[2]);
        assert(v@[3]@ =~= allowed_style_props()[3]);
        assert(v@[4]@ =~= allowed_style_props()[4]);
        assert(v@[5]@ =~= allowed_style_props()[5]);
        assert(v@[6]@ =~= allowed_style_props()[6]);
        assert(v@[7]@ =~= allowed_style_props()[7]);
        assert(v@[8]@ =~= allowed_style_props()[8]);
        assert(v@[9]@ =~= allowed_style_props()[9]);
        assert(v@[10]@ =~= allowed_style_props()[10]);
        assert(v@[11]@ =~= allowed_style_props()[11]);
        assert(v@[12]@ =~= allowed_style_props()[12]);
        assert(v@[13]@ =~= allowed_style_props()[13]);
        assert(v@[14]@ =~= allowed_style_props()[14]);
        assert(v@[15]@ =~= allowed_style_props()[15]);
        assert(v@[16]@ =~= allowed_style_props()[16]);
        assert(v@[17]@ =~= allowed_style_props()[17]);
        assert(v@[18]@ =~= allowed_style_props()[18]);
        assert(v@[19]@ =~= allowed_style_props()[19]);
        assert(v@[20]@ =~= allowed_style_props()[20]);
        assert(v@[21]@ =~= allowed_style_props()[21]);
        assert(v@[22]@ =~= allowed_style_props()[22]);
        assert(v@[23]@ =~= allowed_style_props()[23]);
        assert(v@[24]@ =~= allowed_style_props()[24]);
        assert(v@[25]@ =~= allowed_style_props()[25]);
        assert(v@[26]@ =~= allowed_style_props()[26]);
        assert(v@[27]@ =~= allowed_style_props()[27]);
        assert(v@[28]@ =~= allowed_style_props()[28]);
        assert(v@[29]@ =~= allowed_style_props()[29]);
        assert(v@[30]@ =~= allowed_style_props()[30]);
        assert(v@[31]@ =~= allowed_style_props()[31]);
        assert(v@[32]@ =~= allowed_style_props()[32]);
        assert(v@.map_values(|v: Vec<char>| v@) =~= allowed_style_props());
    }
    v
}

/// Whether a (trimmed) style value is acceptable (executable).
fn style_value_ok_exec(v: &[char]) -> (r: bool)
    ensures
        r == style_value_ok(v@),
{
    let l = lower_exec(v);
    let f0 = vec!['u', 'r', 'l', '('];
    let f1 = vec!['e', 'x', 'p', 'r', 'e', 's', 's', 'i', 'o', 'n', '('];
    let f2 = vec!['j', 'a', 'v', 'a', 's', 'c', 'r', 'i', 'p', 't', ':'];
    let f3 = vec!['@', 'i', 'm', 'p', 'o', 'r', 't'];
    proof {
        assert(f0@ =~= forbidden_style_fragments()[0]);
        assert(f1@ =~= forbidden_style_fragments()[1]);
        assert(f2@ =~= forbidden_style_fragments()[2]);
        assert(f3@ =~= forbidden_style_fragments()[3]);
    }
    !contains_exec(&l, &f0) && !contains_exec(&l, &f1) && !contains_exec(&l, &f2)
        && !contains_exec(&l, &f3) && !contains_char(v, '<') && !contains_char(v, '>')
}

/// One declaration sanitized (executable `sanitize_decl`).
fn sanitize_decl_exec(decl: &[char], props: &Vec<Vec<char>>) -> (r: Option<Vec<char>>)
    requires
        props@.map_values(|v: Vec<char>| v@) == allowed_style_props(),
    ensures
        match r {
            Some(v) => sanitize_decl(decl@) == Some(v@),
            None => sanitize_decl(decl@) is None,
        },
{
    let dl = decl.len();
    let colon = [':'];
    let found = find_from_exec(decl, &colon, 0);
    proof {
        assert(colon@ =~= seq![':']);
        lemma_find_from(decl@, colon@, 0);
    }
    match found {
        None => None,
        Some(i) => {
            let (ps, pe) = trim_range(decl, 0, i);
            let prop_raw = slice_vec(decl, ps, pe);
            let prop = lower_exec(&prop_raw);
            let (vs, ve) = trim_range(decl, i + 1, decl.len());
            let value = slice_vec(decl, vs, ve);
            proof {
                assert(decl@.subrange(0, i as int) =~= decl@.take(i as int));
                assert(decl@.subrange(i + 1, decl@.len() as int) =~= decl@.skip(i + 1));
            }
            if value.len() == 0 || !list_contains(props, &prop) {
                return None;
            }
            if !style_value_ok_exec(&value) {
                return None;
            }
            let mut out = prop;
            out.push(':');
            out.push(' ');
            push_all(&mut out, &value);
            proof {
                assert(out@ =~= lower(trim(decl@.take(i as int))) + seq![':', ' '] + value@);
            }
            Some(out)
        },
    }
}

/// A style attribute reduced to its safe declarations (character version).
pub fn sanitize_style_chars(raw: &[char]) -> (r: Vec<char>)
    ensures
        r@ == spec_sanitize_style(raw@),
{
    let props = allowed_props_vec();
    let rl = raw.len();
    let mut kept: Vec<Vec<char>> = Vec::new();
    let mut pos: usize = 0;
    let semi = [';'];
    proof {
        assert(semi@ =~= seq![';']);
        assert(raw@.skip(0) =~= raw@);
    }
    loop
        invariant
            pos <= raw@.len(),
            rl == raw@.len(),
            semi@ == seq![';'],
            props@.map_values(|v: Vec<char>| v@) == allowed_style_props(),
            kept@.map_values(|v: Vec<char>| v@) + sanitize_decls(split_char(raw@.skip(pos as int), ';'))
                == sanitize_decls(split_char(raw@, ';')),
        decreases raw@.len() - pos,
    {
        let ghost rem = raw@.skip(pos as int);
        let ghost kv = kept@.map_values(|v: Vec<char>| v@);
        let found = find_from_exec(raw, &semi, pos);
        proof {
            lemma_find_from_shift(raw@, semi@, pos as int);
            lemma_find_from(raw@, semi@, pos as int);
        }
        let end = match found {
            Some(i) => i,
            None => raw.len(),
        };
        let decl = slice_vec(raw, pos, end);
        let d = sanitize_decl_exec(&decl, &props);
        let ghost piece = rem.take(end - pos);
        proof {
            assert(piece =~= decl@);
        }
        match d {
            Some(v) => {
                proof {
                    assert(sanitize_decl(piece) == Some(v@));
                }
                kept.push(v);
                proof {
                    assert(kept@.map_values(|v: Vec<char>| v@) =~= kv.push(sanitize_decl(piece)->0));
                }
            },
            None => {
                proof {
                    assert(kept@.map_values(|v: Vec<char>| v@) =~= kv);
                }
            },
        }
        match found {
            Some(i) => {
                proof {
                    assert(rem.skip(end - pos + 1) =~= raw@.skip(i + 1));
                    assert(split_char(rem, ';') == seq![piece] + split_char(rem.skip(end - pos + 1), ';'));
                    let rest = split_char(raw@.skip(i + 1), ';');
                    assert((seq![piece] + rest).drop_first() =~= rest);
                    assert(sanitize_decls(seq![piece] + rest) == match sanitize_decl(piece) {
                        Some(x) => seq![x] + sanitize_decls(rest),
                        None => sanitize_decls(rest),
                    });
                    if d is Some {
                        assert(kv.push(sanitize_decl(piece)->0) + sanitize_decls(rest) =~= kv + (
                        seq![sanitize_decl(piece)->0] + sanitize_decls(rest)));
                    }
                }
                pos = i + 1;
            },
            None => {
                proof {
                    assert(piece =~= rem);
                    assert(split_char(rem, ';') == seq![rem]);
                    assert(seq![rem].drop_first() =~= Seq::<Seq<char>>::empty());
                    let e = Seq::<Seq<char>>::empty();
                    assert(sanitize_decls(seq![rem]) == match sanitize_decl(rem) {
                        Some(x) => seq![x] + sanitize_decls(e),
                        None => sanitize_decls(e),
                    });
                    if d is Some {
                        assert(kv + sanitize_decls(seq![rem]) =~= kv.push(sanitize_decl(rem)->0));
                    } else {
                        assert(kv + sanitize_decls(seq![rem]) =~= kv);
                    }
                    assert(kept@.map_values(|v: Vec<char>| v@) == sanitize_decls(
                        split_char(raw@, ';'),
                    ));
                }
                let sep2 = [';', ' '];
                proof {
                    assert(sep2@ =~= seq![';', ' ']);
                }
                return crate::reasoning::join_exec(&kept, &sep2);
            },
        }
    }
}

/// A style attribute reduced to the declarations that are safe to render:
/// properties on the allow-list whose values neither load resources
/// (`url(`, `@import`) nor run script (`expression(`, `javascript:`) nor
/// contain angle brackets; kept declarations are normalised to
/// `prop: value` and joined by `"; "`.
pub fn sanitize_style(raw: &str) -> (r: String)
    ensures
        r@ == spec_sanitize_style(raw@),
{
    let c = to_chars(raw);
    let v = sanitize_style_chars(&c);
    from_chars(&v)
}

// ---------------------------------------------------------------------------
// entities
// ---------------------------------------------------------------------------

/// `&nbsp; &amp; &lt; &gt; &quot; &#39;` decoded, in that order, each
/// replacement applied to the whole text before the next.
pub open spec fn spec_decode_entities(t: Seq<char>) -> Seq<char> {
    let a = replace_all(t, seq!['&', 'n', 'b', 's', 'p', ';'], seq![' ']);
    let b = replace_all(a, seq!['&', 'a', 'm', 'p', ';'], seq!['&']);
    let c = replace_all(b, seq!['&', 'l', 't', ';'], seq!['<']);
    let d = replace_all(c, seq!['&', 'g', 't', ';'], seq!['>']);
    let e = replace_all(d, seq!['&', 'q', 'u', 'o', 't', ';'], seq!['"']);
    replace_all(e, seq!['&', '#', '3', '9', ';'], seq!['\''])
}

/// The common HTML entities decoded (character version).
pub fn decode_entities_chars(t: &[char]) -> (r: Vec<char>)
    ensures
        r@ == spec_decode_entities(t@),
{
    let p1 = ['&', 'n', 'b', 's', 'p', ';'];
    let p2 = ['&', 'a', 'm', 'p', ';'];
    let p3 = ['&', 'l', 't', ';'];
    let p4 = ['&', 'g', 't', ';'];
    let p5 = ['&', 'q', 'u', 'o', 't', ';'];
    let p6 = ['&', '#', '3', '9', ';'];
    proof {
        assert(p1@ =~= seq!['&', 'n', 'b', 's', 'p', ';']);
        assert(p2@ =~= seq!['&', 'a', 'm', 'p', ';']);
        assert(p3@ =~= seq!['&', 'l', 't', ';']);
        assert(p4@ =~= seq!['&', 'g', 't', ';']);
        assert(p5@ =~= seq!['&', 'q', 'u', 'o', 't', ';']);
        assert(p6@ =~= seq!['&', '#', '3', '9', ';']);
    }
    let r1 = [' '];
    let r2 = ['&'];
    let r3 = ['<'];
    let r4 = ['>'];
    let r5 = ['"'];
    let r6 = ['\''];
    proof {
        assert(r1@ =~= seq![' ']);
        assert(r2@ =~= seq!['&']);
        assert(r3@ =~= seq!['<']);
        assert(r4@ =~= seq!['>']);
        assert(r5@ =~= seq!['"']);
        assert(r6@ =~= seq!['\'']);
    }
    let a = replace_all_exec(t, &p1, &r1);
    let b = replace_all_exec(&a, &p2, &r2);
    let c = replace_all_exec(&b, &p3, &r3);
    let d = replace_all_exec(&c, &p4, &r4);
    let e = replace_all_exec(&d, &p5, &r5);
    replace_all_exec(&e, &p6, &r6)
}

/// The HTML entities `&nbsp; &amp; &lt; &gt; &quot; &#39;` decoded.
pub fn decode_entities(text: &str) -> (r: String)
    ensures
        r@ == spec_decode_entities(text@),
{
    let c = to_chars(text);
    let v = decode_entities_chars(&c);
    from_chars(&v)
}

// ---------------------------------------------------------------------------
// open tags
// ---------------------------------------------------------------------------

/// Index just past the run of ASCII letters and digits starting at `i`.
pub open spec fn name_end(s: Seq<char>, i: int) -> int
    decreases s.len() - i,
{
    if 0 <= i < s.len() && is_ascii_alnum(s[i]) {
        name_end(s, i + 1)
    } else {
        i
    }
}

/// Index of the `>` that ends an open tag, scanning from `i` and skipping
/// over quoted attribute values (`quote` is the quote currently open).
pub open spec fn tag_end_scan(s: Seq<char>, i: int, quote: Option<char>) -> Option<int>
    decreases s.len() - i,
{
    if i < 0 || i >= s.len() {
        None
    } else {
        match quote {
            Some(q) => if s[i] == q {
                tag_end_scan(s, i + 1, None)
            } else {
                tag_end_scan(s, i + 1, Some(q))
            },
            None => if s[i] == '"' || s[i] == '\'' {
                tag_end_scan(s, i + 1, Some(s[i]))
            } else if s[i] == '>' {
                Some(i)
            } else {
                tag_end_scan(s, i + 1, None)
            },
        }
    }
}

/// The open tag starting at index `at` of `s`: its lower-cased name, the
/// index just past its `>`, and whether it is written self-closing (`/>`).
/// `None` when `s[at]` is not `<`, no name follows, or no `>` ends it.
pub open spec fn spec_parse_open_tag(s: Seq<char>, at: int) -> Option<(Seq<char>, int, bool)> {
    if at < 0 || at >= s.len() || s[at] != '<' {
        None
    } else {
        let ne = name_end(s, at + 1);
        if ne == at + 1 {
            None
        } else {
            match tag_end_scan(s, ne, None) {
                Some(g) => Some((lower(s.subrange(at + 1, ne)), g + 1, s[g - 1] == '/')),
                None => None,
            }
        }
    }
}

proof fn lemma_name_end_bounds(s: Seq<char>, i: int)
    requires
        0 <= i <= s.len(),
    ensures
        i <= name_end(s, i) <= s.len(),
    decreases s.len() - i,
{
    if i < s.len() && is_ascii_alnum(s[i]) {
        lemma_name_end_bounds(s, i + 1);
    }
}

proof fn lemma_tag_end_bounds(s: Seq<char>, i: int, q: Option<char>)
    requires
        0 <= i,
    ensures
        match tag_end_scan(s, i, q) {
            Some(g) => i <= g < s.len() && s[g] == '>',
            None => true,
        },
    decreases s.len() - i,
{
    if 0 <= i < s.len() {
        match q {
            Some(c) => if s[i] == c {
                lemma_tag_end_bounds(s, i + 1, None);
            } else {
                lemma_tag_end_bounds(s, i + 1, Some(c));
            },
            None => if s[i] == '"' || s[i] == '\'' {
                lemma_tag_end_bounds(s, i + 1, Some(s[i]));
            } else if s[i] == '>' {
            } else {
                lemma_tag_end_bounds(s, i + 1, None);
            },
        }
    }
}

/// The facts about a parsed open tag that callers rely on.
pub proof fn lemma_open_tag_bounds(s: Seq<char>, at: int)
    ensures
        match spec_parse_open_tag(s, at) {
            Some((name, end, _)) => at + 2 < end <= s.len() && name.len() > 0 && s[at] == '<'
                && is_ascii_alnum(s[at + 1]),
            None => true,
        },
{
    if 0 <= at < s.len() && s[at] == '<' {
        lemma_name_end_bounds(s, at + 1);
        let ne = name_end(s, at + 1);
        lemma_tag_end_bounds(s, ne, None);
    }
}

/// A parsed open tag: lower-cased name, index past `>`, self-closing flag.
pub struct OpenTag {
    pub name: Vec<char>,
    pub end: usize,
    pub self_close: bool,
}

/// The open tag starting at index `at` of `s` (executable).
pub fn parse_open_tag_at(s: &[char], at: usize) -> (r: Option<OpenTag>)
    ensures
        match r {
            Some(t) => spec_parse_open_tag(s@, at as int) == Some((t.name@, t.end as int, t.self_close)),
            None => spec_parse_open_tag(s@, at as int) is None,
        },
{
    let sl = s.len();
    if at >= s.len() || s[at] != '<' {
        return None;
    }
    let mut i = at + 1;
    while i < s.len() && is_ascii_alnum_exec(s[i])
        invariant
            at < i <= s@.len(),
            sl == s@.len(),
            name_end(s@, at + 1) == name_end(s@, i as int),
        decreases s@.len() - i,
    {
        i = i + 1;
    }
    if i == at + 1 {
        return None;
    }
    let ne = i;
    let mut quote: Option<char> = None;
    while i < s.len()
        invariant
            ne <= i <= s@.len(),
            at + 1 < ne,
            at < s@.len(),
            s@[at as int] == '<',
            ne == name_end(s@, at + 1),
            sl == s@.len(),
            tag_end_scan(s@, ne as int, None) == tag_end_scan(s@, i as int, quote),
        decreases s@.len() - i,
    {
        let c = s[i];
        match quote {
            Some(q) => {
                if c == q {
                    quote = None;
                }
            },
            None => {
                if c == '"' || c == '\'' {
                    quote = Some(c);
                } else if c == '>' {
                    let raw = slice_vec(s, at + 1, ne);
                    let name = lower_exec(&raw);
                    proof {
                        assert(tag_end_scan(s@, i as int, None) == Some(i as int));
                        assert(tag_end_scan(s@, ne as int, None) == Some(i as int));
                    }
                    return Some(OpenTag { name, end: i + 1, self_close: s[i - 1] == '/' });
                }
            },
        }
        i = i + 1;
    }
    None
}

// ---------------------------------------------------------------------------
// attributes
// ---------------------------------------------------------------------------

/// The value of the first well-formed `attr="..."` (or single-quoted) in the
/// open-tag text `tag`, searching the lower-cased text `low` from `from`:
/// an occurrence counts only at a word start and followed (after optional
/// whitespace) by `=`; a quote must follow the `=`.  The search gives up
/// (`None`) when nothing follows `=`, or when the value's quote is never closed.
pub open spec fn extract_attr_from(tag: Seq<char>, attr: Seq<char>, from: int) -> Option<Seq<char>>
    decreases tag.len() + 1 - from,
{
    if attr.len() == 0 || from < 0 || from > tag.len() {
        None
    } else {
        match find_from(lower(tag), attr, from) {
            None => None,
            Some(abs) => if abs < from || abs + attr.len() > tag.len() {
                None
            } else {
                let boundary_ok = abs == 0 || !is_ascii_alnum(lower(tag)[abs - 1]);
                let after_trim = trim_start(tag.skip(abs + attr.len()));
                if boundary_ok && after_trim.len() > 0 && after_trim[0] == '=' {
                    let after_eq = trim_start(after_trim.skip(1));
                    if after_eq.len() == 0 {
                        None
                    } else if after_eq[0] == '"' || after_eq[0] == '\'' {
                        match find(after_eq.skip(1), seq![after_eq[0]]) {
                            Some(e) => Some(after_eq.skip(1).take(e)),
                            None => None,
                        }
                    } else if abs + attr.len() >= tag.len() {
                        None
                    } else {
                        extract_attr_from(tag, attr, abs + attr.len())
                    }
                } else if abs + attr.len() >= tag.len() {
                    None
                } else {
                    extract_attr_from(tag, attr, abs + attr.len())
                }
            },
        }
    }
}

/// The value of attribute `attr` (lower-case) in the open-tag text `tag`.
pub open spec fn spec_extract_attr(tag: Seq<char>, attr: Seq<char>) -> Option<Seq<char>> {
    extract_attr_from(tag, attr, 0)
}

/// The value of attribute `attr` in the open-tag text `tag` (executable).
pub fn extract_attr_chars(tag: &[char], attr: &[char]) -> (r: Option<Vec<char>>)
    requires
        attr@.len() > 0,
    ensures
        match r {
            Some(v) => spec_extract_attr(tag@, attr@) == Some(v@),
            None => spec_extract_attr(tag@, attr@) is None,
        },
{
    let tl = tag.len();
    let low = lower_exec(tag);
    let mut from: usize = 0;
    loop
        invariant
            attr@.len() > 0,
            tl == tag@.len(),
            low@ == lower(tag@),
            from <= tag@.len(),
            spec_extract_attr(tag@, attr@) == extract_attr_from(tag@, attr@, from as int),
        decreases tag@.len() - from,
    {
        let found = find_from_exec(&low, attr, from);
        proof {
            lemma_find_from(low@, attr@, from as int);
        }
        match found {
            None => {
                return None;
            },
            Some(abs) => {
                let boundary_ok = abs == 0 || !is_ascii_alnum_exec(low[abs - 1]);
                let after_start = abs + attr.len();
                let t1 = skip_ws_exec(tag, after_start);
                proof {
                    assert(tag@.skip(after_start as int).skip(t1 - after_start) =~= tag@.skip(
                        t1 as int,
                    ));
                    lemma_skip_ws_shift(tag@, after_start as int);
                }
                if boundary_ok && t1 < tag.len() && tag[t1] == '=' {
                    let t2 = skip_ws_exec(tag, t1 + 1);
                    proof {
                        lemma_skip_ws_shift(tag@, (t1 + 1) as int);
                        assert(trim_start(tag@.skip(after_start as int)).skip(1) =~= tag@.skip(
                            t1 + 1,
                        ));
                    }
                    if t2 >= tag.len() {
                        return None;
                    }
                    let q = tag[t2];
                    if q == '"' || q == '\'' {
                        let qa = [q];
                        let e = find_from_exec(tag, &qa, t2 + 1);
                        proof {
                            lemma_find_from_shift(tag@, qa@, (t2 + 1) as int);
                            lemma_find_from(tag@, qa@, (t2 + 1) as int);
                            assert(trim_start(trim_start(tag@.skip(after_start as int)).skip(1)) =~= tag@.skip(t2 as int));
                            assert(tag@.skip(t2 as int).skip(1) =~= tag@.skip(t2 + 1));
                            assert(qa@ =~= seq![q]);
                        }
                        match e {
                            Some(end) => {
                                let v = slice_vec(tag, t2 + 1, end);
                                proof {
                                    assert(tag@.skip(t2 + 1).take(end - (t2 + 1)) =~= v@);
                                }
                                return Some(v);
                            },
                            None => {
                                return None;
                            },
                        }
                    }
                }
                if after_start >= tag.len() {
                    return None;
                }
                from = after_start;
            },
        }
    }
}

/// `skip_ws_from` seen through `skip`: trimming a suffix of `s`.
pub proof fn lemma_skip_ws_shift(s: Seq<char>, i: int)
    requires
        0 <= i <= s.len(),
    ensures
        trim_start(s.skip(i)) == s.skip(crate::text::skip_ws_from(s, i)),
        i <= crate::text::skip_ws_from(s, i) <= s.len(),
    decreases s.len() - i,
{
    let t = s.skip(i);
    if i < s.len() && crate::text::is_ws(s[i]) {
        lemma_skip_ws_shift(s, i + 1);
        lemma_skip_ws_drop(t);
        assert(t.skip(1) =~= s.skip(i + 1));
    } else {
        assert(t.skip(0) =~= t);
    }
}

/// Trimming a sequence whose first character is whitespace trims its tail.
proof fn lemma_skip_ws_drop(t: Seq<char>)
    ensures
        t.len() > 0 && crate::text::is_ws(t[0]) ==> trim_start(t) == trim_start(t.skip(1)),
{
    if t.len() > 0 && crate::text::is_ws(t[0]) {
        lemma_skip_ws_from_shift(t, 1);
        let k = crate::text::skip_ws_from(t.skip(1), 0);
        assert(crate::text::skip_ws_from(t, 0) == crate::text::skip_ws_from(t, 1));
        crate::text::lemma_skip_ws_bounds(t.skip(1), 0);
        assert(t.skip(1 + k) =~= t.skip(1).skip(k));
    }
}

/// `skip_ws_from(t, k)` is `k` plus the same quantity for `t.skip(k)`.
proof fn lemma_skip_ws_from_shift(t: Seq<char>, k: int)
    requires
        0 <= k <= t.len(),
    ensures
        crate::text::skip_ws_from(t, k) == k + crate::text::skip_ws_from(t.skip(k), 0),
    decreases t.len() - k,
{
    let u = t.skip(k);
    if k < t.len() && crate::text::is_ws(t[k]) {
        lemma_skip_ws_from_shift(t, k + 1);
        assert(u.skip(1) =~= t.skip(k + 1));
        lemma_skip_ws_from_shift(u, 1);
    }
}

/// The value of attribute `attr` in the open-tag text `tag`.
pub fn extract_attr(open_tag_src: &str, attr_name: &str) -> (r: Option<String>)
    requires
        attr_name@.len() > 0,
    ensures
        match r {
            Some(v) => spec_extract_attr(open_tag_src@, attr_name@) == Some(v@),
            None => spec_extract_attr(open_tag_src@, attr_name@) is None,
        },
{
    let t = to_chars(open_tag_src);
    let a = to_chars(attr_name);
    match extract_attr_chars(&t, &a) {
        Some(v) => Some(from_chars(&v)),
        None => None,
    }
}

// ---------------------------------------------------------------------------
// colours and resolved styles
// ---------------------------------------------------------------------------

/// A character allowed in a legacy `color="..."` value.
pub open spec fn color_char_ok(c: char) -> bool {
    is_ascii_alnum(c) || c == '#' || c == '(' || c == ')' || c == ',' || c == '.' || c == '%' || c
        == ' ' || c == '-'
}

/// A legacy `color` attribute value, trimmed, kept only when non-empty and
/// made of letters, digits and `# ( ) , . % -` and spaces.
pub open spec fn spec_sanitize_color(v: Seq<char>) -> Option<Seq<char>> {
    let t = trim(v);
    if t.len() == 0 {
        None
    } else if forall|i: int| 0 <= i < t.len() ==> color_char_ok(#[trigger] t[i]) {
        Some(t)
    } else {
        None
    }
}

/// A legacy `color` attribute value sanitized (character version).
pub fn sanitize_color_value_chars(v: &[char]) -> (r: Option<Vec<char>>)
    ensures
        match r {
            Some(x) => spec_sanitize_color(v@) == Some(x@),
            None => spec_sanitize_color(v@) is None,
        },
{
    let t = trim_exec(v);
    if t.len() == 0 {
        return None;
    }
    let mut i: usize = 0;
    while i < t.len()
        invariant
            i <= t@.len(),
            t@ == trim(v@),
            t@.len() > 0,
            forall|j: int| 0 <= j < i ==> color_char_ok(#[trigger] t@[j]),
        decreases t@.len() - i,
    {
        let c = t[i];
        if !(is_ascii_alnum_exec(c) || c == '#' || c == '(' || c == ')' || c == ',' || c == '.' || c
            == '%' || c == ' ' || c == '-') {
            proof {
                assert(!color_char_ok(t@[i as int]));
                let tt = trim(v@);
                assert(tt == t@);
                assert(!color_char_ok(tt[i as int]));
                assert(!(forall|j: int| 0 <= j < tt.len() ==> color_char_ok(#[trigger] tt[j])));
            }
            return None;
        }
        i = i + 1;
    }
    Some(t)
}

/// A legacy `color` attribute value sanitized.
pub fn sanitize_color_value(value: &str) -> (r: Option<String>)
    ensures
        match r {
            Some(x) => spec_sanitize_color(value@) == Some(x@),
            None => spec_sanitize_color(value@) is None,
        },
{
    let c = to_chars(value);
    match sanitize_color_value_chars(&c) {
        Some(x) => Some(from_chars(&x)),
        None => None,
    }
}

/// `style`
pub open spec fn style_attr_name() -> Seq<char> {
    seq!['s', 't', 'y', 'l', 'e']
}

/// `color`
pub open spec fn color_attr_name() -> Seq<char> {
    seq!['c', 'o', 'l', 'o', 'r']
}

/// The style an element gets from its open tag: the sanitized `style`
/// attribute, with a sanitized legacy `color` attribute turned into a
/// leading `color: ...` declaration (so `style` wins when both set a colour).
pub open spec fn spec_resolve_style(tag: Seq<char>) -> Seq<char> {
    let style = match spec_extract_attr(tag, style_attr_name()) {
        Some(s) => spec_sanitize_style(s),
        None => Seq::empty(),
    };
    let color = match spec_extract_attr(tag, color_attr_name()) {
        Some(c) => spec_sanitize_color(c),
        None => None,
    };
    match color {
        Some(c) => if style.len() == 0 {
            seq!['c', 'o', 'l', 'o', 'r', ':', ' '] + c
        } else {
            seq!['c', 'o', 'l', 'o', 'r', ':', ' '] + c + seq![';', ' '] + style
        },
        None => style,
    }
}

/// The style an element gets from its open-tag text (executable).
pub fn resolve_style_chars(tag: &[char]) -> (r: Vec<char>)
    ensures
        r@ == spec_resolve_style(tag@),
{
    let sa = ['s', 't', 'y', 'l', 'e'];
    let ca = ['c', 'o', 'l', 'o', 'r'];
    proof {
        assert(sa@ =~= style_attr_name());
        assert(ca@ =~= color_attr_name());
    }
    let style = match extract_attr_chars(tag, &sa) {
        Some(s) => sanitize_style_chars(&s),
        None => Vec::new(),
    };
    let color = match extract_attr_chars(tag, &ca) {
        Some(c) => sanitize_color_value_chars(&c),
        None => None,
    };
    match color {
        Some(c) => {
            let mut out = vec!['c', 'o', 'l', 'o', 'r', ':', ' '];
            push_all(&mut out, &c);
            if style.len() > 0 {
                out.push(';');
                out.push(' ');
                push_all(&mut out, &style);
            }
            proof {
                if style@.len() == 0 {
                    assert(out@ =~= seq!['c', 'o', 'l', 'o', 'r', ':', ' '] + c@);
                } else {
                    assert(out@ =~= seq!['c', 'o', 'l', 'o', 'r', ':', ' '] + c@ + seq![';', ' ']
                        + style@);
                }
            }
            out
        },
        None => style,
    }
}

/// The style an element gets from its open-tag text.
pub fn resolve_style(open_tag_src: &str) -> (r: String)
    ensures
        r@ == spec_resolve_style(open_tag_src@),
{
    let t = to_chars(open_tag_src);
    let v = resolve_style_chars(&t);
    from_chars(&v)
}

// ---------------------------------------------------------------------------
// sanitizing a style twice
// ---------------------------------------------------------------------------

/// `t` starts and ends with a character that is not whitespace (or is empty).
pub open spec fn clean_ends(t: Seq<char>) -> bool {
    t.len() > 0 ==> !crate::text::is_ws(t[0]) && !crate::text::is_ws(t[t.len() - 1])
}

/// Trimming takes a run out of the middle of `s`, with clean ends.
proof fn lemma_trim_shape(s: Seq<char>)
    ensures
        clean_ends(trim(s)),
        exists|a: int, b: int| 0 <= a <= b <= s.len() && trim(s) == s.subrange(a, b),
{
    let a = crate::text::skip_ws_from(s, 0);
    crate::text::lemma_skip_ws_bounds(s, 0);
    crate::text::lemma_skip_ws_stops(s, 0);
    let t = s.skip(a);
    let b = crate::text::back_ws_from(t, t.len() as int);
    crate::text::lemma_back_ws_bounds(t, t.len() as int);
    crate::text::lemma_back_ws_stops(t, t.len() as int);
    if t.len() > 0 {
        assert(t[0] == s[a]);
        crate::text::lemma_back_ws_positive(t, t.len() as int);
    }
    let u = trim(s);
    assert(u == t.take(b));
    assert(u =~= s.subrange(a, a + b));
}

/// A sequence with clean ends is its own trim.
proof fn lemma_trim_clean(s: Seq<char>)
    requires
        clean_ends(s),
    ensures
        trim(s) == s,
{
    assert(crate::text::skip_ws_from(s, 0) == 0);
    assert(s.skip(0) =~= s);
    assert(crate::text::back_ws_from(s, s.len() as int) == s.len());
    assert(s.take(s.len() as int) =~= s);
}

/// A leading space makes no difference to trimming.
proof fn lemma_trim_space(s: Seq<char>)
    ensures
        trim(seq![' '] + s) == trim(s),
{
    let t = seq![' '] + s;
    lemma_skip_ws_drop(t);
    assert(t.skip(1) =~= s);
}

/// ASCII lower-casing keeps whitespace, colons and semicolons where they
/// are, and lower-casing twice is lower-casing once.
proof fn lemma_lower_char(c: char)
    ensures
        crate::text::is_ws(crate::text::lower_char(c)) == crate::text::is_ws(c),
        crate::text::lower_char(crate::text::lower_char(c)) == crate::text::lower_char(c),
        (crate::text::lower_char(c) == ':') == (c == ':'),
        (crate::text::lower_char(c) == ';') == (c == ';'),
{
    if 'A' <= c && c <= 'Z' {
        assert(crate::text::lower_char(c) as u32 == c as u32 + 32);
    }
}

/// What lower-casing keeps, over a whole sequence.
proof fn lemma_lower(s: Seq<char>)
    ensures
        lower(s).len() == s.len(),
        lower(lower(s)) == lower(s),
        clean_ends(s) ==> clean_ends(lower(s)),
        !s.contains(':') ==> !lower(s).contains(':'),
        !s.contains(';') ==> !lower(s).contains(';'),
{
    assert forall|i: int| 0 <= i < s.len() implies #[trigger] lower(s)[i] == crate::text::lower_char(s[i]) && crate::text::is_ws(lower(s)[i]) == crate::text::is_ws(s[i]) && lower(lower(s))[i] == lower(s)[i] && (lower(s)[i] == ':') == (s[i] == ':') && (lower(s)[i] == ';') == (s[i] == ';') by {
        lemma_lower_char(s[i]);
    }
    assert(lower(lower(s)) =~= lower(s));
    if !s.contains(':') && lower(s).contains(':') {
        let k = choose|k: int| 0 <= k < lower(s).len() && lower(s)[k] == ':';
        assert(s[k] == ':');
    }
    if !s.contains(';') && lower(s).contains(';') {
        let k = choose|k: int| 0 <= k < lower(s).len() && lower(s)[k] == ';';
        assert(s[k] == ';');
    }
}

/// A part of a sequence holds no character the sequence does not hold.
proof fn lemma_subrange_lacks(s: Seq<char>, a: int, b: int, c: char)
    requires
        0 <= a <= b <= s.len(),
        !s.contains(c),
    ensures
        !s.subrange(a, b).contains(c),
{
    if s.subrange(a, b).contains(c) {
        let k = choose|k: int| 0 <= k < b - a && s.subrange(a, b)[k] == c;
        assert(s[a + k] == c);
    }
}

/// Trimming keeps a sequence free of a character.
proof fn lemma_trim_lacks(s: Seq<char>, c: char)
    requires
        !s.contains(c),
    ensures
        !trim(s).contains(c),
{
    lemma_trim_shape(s);
    let (a, b) = choose|a: int, b: int| 0 <= a <= b <= s.len() && trim(s) == s.subrange(a, b);
    lemma_subrange_lacks(s, a, b, c);
}

/// The property and value of a kept declaration: a lower-case, trimmed
/// allowed property with no colon, and a trimmed, acceptable, non-empty
/// value; neither holds a semicolon.
pub open spec fn good_parts(p: Seq<char>, v: Seq<char>) -> bool {
    &&& !p.contains(':')
    &&& !p.contains(';')
    &&& clean_ends(p)
    &&& lower(p) == p
    &&& allowed_style_props().contains(p)
    &&& v.len() > 0
    &&& clean_ends(v)
    &&& !v.contains(';')
    &&& style_value_ok(v)
}

/// A kept declaration: a good property, `": "` and a good value.
pub open spec fn good_decl(d: Seq<char>) -> bool {
    match find(d, seq![':']) {
        Some(i) => 0 <= i && i + 2 <= d.len() && d[i + 1] == ' ' && good_parts(d.take(i), d.skip(i + 2)),
        None => false,
    }
}

/// The first colon of a sequence that has none before `n`, and one at `n`.
proof fn lemma_first_colon(d: Seq<char>, n: int)
    requires
        0 <= n < d.len(),
        d[n] == ':',
        forall|j: int| 0 <= j < n ==> d[j] != ':',
    ensures
        find(d, seq![':']) == Some(n),
{
    assert forall|j: int| 0 <= j < n implies !#[trigger] matches_at(d, seq![':'], j) by {
        if matches_at(d, seq![':'], j) {
            assert(d.subrange(j, j + 1)[0] == d[j]);
        }
    }
    assert(d.subrange(n, n + 1) =~= seq![':']);
    crate::text::lemma_find_from_unique(d, seq![':'], 0, n);
}

/// `p`, `": "` and `v` form a kept declaration when the parts are good.
proof fn lemma_good_decl(p: Seq<char>, v: Seq<char>)
    requires
        good_parts(p, v),
    ensures
        good_decl(p + seq![':', ' '] + v),
{
    let d = p + seq![':', ' '] + v;
    assert forall|j: int| 0 <= j < p.len() implies d[j] != ':' by {
        assert(d[j] == p[j]);
    }
    lemma_first_colon(d, p.len() as int);
    assert(d.take(p.len() as int) =~= p);
    assert(d.skip(p.len() as int + 2) =~= v);
}

/// What `sanitize_decl` keeps of a declaration with no semicolon is a kept
/// declaration.
proof fn lemma_sanitize_decl_good(decl: Seq<char>)
    requires
        !decl.contains(';'),
    ensures
        sanitize_decl(decl) matches Some(d) ==> good_decl(d),
{
    lemma_find_from(decl, seq![':'], 0);
    match find(decl, seq![':']) {
        Some(i) => {
            let before = decl.take(i);
            let raw_value = decl.skip(i + 1);
            assert forall|j: int| 0 <= j < i implies decl[j] != ':' by {
                if decl[j] == ':' {
                    assert(decl.subrange(j, j + 1) =~= seq![':']);
                    assert(matches_at(decl, seq![':'], j));
                }
            }
            if before.contains(':') {
                let k = choose|k: int| 0 <= k < before.len() && before[k] == ':';
                assert(decl[k] == ':');
            }
            lemma_subrange_lacks(decl, 0, i, ';');
            assert(before =~= decl.subrange(0, i));
            lemma_subrange_lacks(decl, i + 1, decl.len() as int, ';');
            assert(raw_value =~= decl.subrange(i + 1, decl.len() as int));
            let tp = trim(before);
            lemma_trim_shape(before);
            lemma_trim_lacks(before, ':');
            lemma_trim_lacks(before, ';');
            lemma_lower(tp);
            let p = lower(tp);
            let v = trim(raw_value);
            lemma_trim_shape(raw_value);
            lemma_trim_lacks(raw_value, ';');
            if sanitize_decl(decl) is Some {
                assert(good_parts(p, v));
                lemma_good_decl(p, v);
            }
        },
        None => {},
    }
}

/// A kept declaration, with or without one leading space, is kept as it is.
#[verifier::rlimit(60)]
proof fn lemma_good_decl_kept(d: Seq<char>, pre: Seq<char>)
    requires
        good_decl(d),
        pre == Seq::<char>::empty() || pre == seq![' '],
    ensures
        sanitize_decl(pre + d) == Some(d),
{
    let i = find(d, seq![':'])->0;
    let p = d.take(i);
    let v = d.skip(i + 2);
    let x = pre + d;
    lemma_find_from(d, seq![':'], 0);
    assert(matches_at(d, seq![':'], i));
    assert(d.subrange(i, i + 1)[0] == d[i]);
    assert(d[i] == ':');
    assert forall|j: int| 0 <= j < pre.len() + i implies x[j] != ':' by {
        if j >= pre.len() {
            assert(x[j] == p[j - pre.len()]);
        }
    }
    lemma_first_colon(x, pre.len() + i);
    assert(x.take(pre.len() + i) =~= pre + p);
    assert(x.skip(pre.len() + i + 1) =~= seq![' '] + v);
    lemma_trim_clean(p);
    if pre.len() > 0 {
        lemma_trim_space(p);
        assert(pre + p == seq![' '] + p);
    } else {
        assert(pre + p =~= p);
    }
    lemma_trim_space(v);
    lemma_trim_clean(v);
    assert(d =~= p + seq![':', ' '] + v);
    let parts = split_once(x, ':');
    assert(parts.0 == pre + p);
    assert(parts.1 == Some(seq![' '] + v));
    assert(lower(trim(parts.0)) == p);
    assert(trim(seq![' '] + v) == v);
}

/// A kept declaration holds no semicolon.
proof fn lemma_good_decl_lacks_semicolon(d: Seq<char>)
    requires
        good_decl(d),
    ensures
        !d.contains(';'),
{
    let i = find(d, seq![':'])->0;
    let p = d.take(i);
    let v = d.skip(i + 2);
    if d.contains(';') {
        let k = choose|k: int| 0 <= k < d.len() && d[k] == ';';
        if k < i {
            assert(p[k] == ';');
        } else if k >= i + 2 {
            assert(v[k - i - 2] == ';');
        } else {
            lemma_find_from(d, seq![':'], 0);
            assert(matches_at(d, seq![':'], i));
            assert(d.subrange(i, i + 1)[0] == d[i]);
        }
    }
}

/// A sequence without `c` has no occurrence of `c` to find.
proof fn lemma_find_char_none(x: Seq<char>, c: char)
    requires
        !x.contains(c),
    ensures
        find(x, seq![c]) is None,
{
    lemma_find_from(x, seq![c], 0);
    if find(x, seq![c]) is Some {
        let i = find(x, seq![c])->0;
        assert(x.subrange(i, i + 1)[0] == x[i]);
    }
}

/// The first `c` of a sequence that has none before `n`, and one at `n`.
proof fn lemma_first_char(d: Seq<char>, n: int, c: char)
    requires
        0 <= n < d.len(),
        d[n] == c,
        forall|j: int| 0 <= j < n ==> d[j] != c,
    ensures
        find(d, seq![c]) == Some(n),
{
    assert forall|j: int| 0 <= j < n implies !#[trigger] matches_at(d, seq![c], j) by {
        if matches_at(d, seq![c], j) {
            assert(d.subrange(j, j + 1)[0] == d[j]);
        }
    }
    assert(d.subrange(n, n + 1) =~= seq![c]);
    crate::text::lemma_find_from_unique(d, seq![c], 0, n);
}

/// Splitting a `"; "`-join of declarations without semicolons at `';'`
/// gives the first declaration (after `pre`) and then each other one after
/// a space.
proof fn lemma_split_join(pre: Seq<char>, ds: Seq<Seq<char>>)
    requires
        ds.len() >= 1,
        !pre.contains(';'),
        forall|k: int| 0 <= k < ds.len() ==> !(#[trigger] ds[k]).contains(';'),
    ensures
        split_char(pre + join(ds, seq![';', ' ']), ';') == seq![pre + ds[0]] + Seq::new(
            (ds.len() - 1) as nat,
            |k: int| seq![' '] + ds[k + 1],
        ),
    decreases ds.len(),
{
    let sep = seq![';', ' '];
    let x = pre + join(ds, sep);
    if ds.len() == 1 {
        assert(x == pre + ds[0]);
        if (pre + ds[0]).contains(';') {
            let k = choose|k: int| 0 <= k < (pre + ds[0]).len() && (pre + ds[0])[k] == ';';
            if k < pre.len() {
                assert(pre[k] == ';');
            } else {
                assert(ds[0][k - pre.len()] == ';');
            }
        }
        lemma_find_char_none(x, ';');
        assert(seq![pre + ds[0]] + Seq::new(0nat, |k: int| seq![' '] + ds[k + 1]) =~= seq![pre + ds[0]]);
    } else {
        let rest = ds.drop_first();
        let j = join(rest, sep);
        assert(join(ds, sep) == ds[0] + sep + j);
        let n: int = (pre.len() + ds[0].len()) as int;
        assert(x =~= (pre + ds[0]) + (sep + j));
        assert forall|i: int| 0 <= i < n implies x[i] != ';' by {
            if i < pre.len() {
                assert(x[i] == pre[i]);
                if pre[i] == ';' {
                    assert(pre.contains(';'));
                }
            } else {
                assert(x[i] == ds[0][i - pre.len()]);
                if ds[0][i - pre.len()] == ';' {
                    assert(ds[0].contains(';'));
                }
            }
        }
        assert(x[n] == ';');
        lemma_first_char(x, n, ';');
        assert(x.take(n) =~= pre + ds[0]);
        assert(x.skip(n + 1) =~= seq![' '] + j);
        assert forall|k: int| 0 <= k < rest.len() implies !(#[trigger] rest[k]).contains(';') by {
            assert(rest[k] == ds[k + 1]);
        }
        if seq![' '].contains(';') {
            assert(seq![' '][0] == ' ');
        }
        lemma_split_join(seq![' '], rest);
        let tail = Seq::new((rest.len() - 1) as nat, |k: int| seq![' '] + rest[k + 1]);
        assert(split_char(x, ';') == seq![x.take(n)] + split_char(x.skip(n + 1), ';'));
        assert(seq![pre + ds[0]] + (seq![seq![' '] + rest[0]] + tail) =~= seq![pre + ds[0]] + Seq::new(
            (ds.len() - 1) as nat,
            |k: int| seq![' '] + ds[k + 1],
        ));
    }
}

/// Declarations that each sanitize to the matching kept one sanitize to
/// exactly those kept ones.
proof fn lemma_decls_kept(l: Seq<Seq<char>>, ds: Seq<Seq<char>>)
    requires
        l.len() == ds.len(),
        forall|k: int| 0 <= k < l.len() ==> sanitize_decl(#[trigger] l[k]) == Some(ds[k]),
    ensures
        sanitize_decls(l) == ds,
    decreases l.len(),
{
    if l.len() == 0 {
        assert(ds =~= Seq::<Seq<char>>::empty());
    } else {
        assert(sanitize_decl(l[0]) == Some(ds[0]));
        assert forall|k: int| 0 <= k < l.len() - 1 implies sanitize_decl(#[trigger] l.drop_first()[k]) == Some(
            ds.drop_first()[k],
        ) by {
            assert(l.drop_first()[k] == l[k + 1]);
        }
        lemma_decls_kept(l.drop_first(), ds.drop_first());
        assert(seq![ds[0]] + ds.drop_first() =~= ds);
    }
}

/// Every declaration kept from pieces without semicolons is a kept
/// declaration.
proof fn lemma_decls_good(decls: Seq<Seq<char>>)
    requires
        forall|k: int| 0 <= k < decls.len() ==> !(#[trigger] decls[k]).contains(';'),
    ensures
        forall|k: int| 0 <= k < sanitize_decls(decls).len() ==> good_decl(#[trigger] sanitize_decls(decls)[k]),
    decreases decls.len(),
{
    if decls.len() > 0 {
        assert forall|k: int| 0 <= k < decls.len() - 1 implies !(#[trigger] decls.drop_first()[k]).contains(';') by {
            assert(decls.drop_first()[k] == decls[k + 1]);
        }
        lemma_decls_good(decls.drop_first());
        lemma_sanitize_decl_good(decls[0]);
        let rest = sanitize_decls(decls.drop_first());
        match sanitize_decl(decls[0]) {
            Some(d) => {
                assert forall|k: int| 0 <= k < sanitize_decls(decls).len() implies good_decl(#[trigger] sanitize_decls(decls)[k]) by {
                    if k > 0 {
                        assert(sanitize_decls(decls)[k] == rest[k - 1]);
                    }
                }
            },
            None => {},
        }
    }
}

/// The pieces of a split hold no separator.
proof fn lemma_split_char_lacks(s: Seq<char>, c: char)
    ensures
        forall|k: int| 0 <= k < split_char(s, c).len() ==> !(#[trigger] split_char(s, c)[k]).contains(c),
    decreases s.len(),
{
    lemma_find_from(s, seq![c], 0);
    match find(s, seq![c]) {
        Some(i) => {
            if 0 <= i < s.len() {
                lemma_split_char_lacks(s.skip(i + 1), c);
                let head = s.take(i);
                if head.contains(c) {
                    let k = choose|k: int| 0 <= k < head.len() && head[k] == c;
                    assert(s.subrange(k, k + 1) =~= seq![c]);
                    assert(matches_at(s, seq![c], k));
                }
                let rest = split_char(s.skip(i + 1), c);
                assert forall|k: int| 0 <= k < split_char(s, c).len() implies !(#[trigger] split_char(s, c)[k]).contains(c) by {
                    if k > 0 {
                        assert(split_char(s, c)[k] == rest[k - 1]);
                    }
                }
            } else {
                assert(matches_at(s, seq![c], i));
            }
        },
        None => {
            if s.contains(c) {
                let k = choose|k: int| 0 <= k < s.len() && s[k] == c;
                assert(s.subrange(k, k + 1) =~= seq![c]);
                assert(matches_at(s, seq![c], k));
            }
        },
    }
}

/// Sanitizing a style twice changes nothing after the first time: every
/// declaration kept the first time is kept as it is the second time.
pub proof fn law_sanitize_style_idempotent(raw: Seq<char>)
    ensures
        spec_sanitize_style(spec_sanitize_style(raw)) == spec_sanitize_style(raw),
{
    let decls = split_char(raw, ';');
    lemma_split_char_lacks(raw, ';');
    let ds = sanitize_decls(decls);
    lemma_decls_good(decls);
    let out = join(ds, seq![';', ' ']);
    assert(spec_sanitize_style(raw) == out);
    if ds.len() == 0 {
        assert(out == Seq::<char>::empty());
        lemma_find_char_none(out, ';');
        lemma_find_char_none(out, ':');
        assert(split_char(out, ';') == seq![out]);
        assert(sanitize_decl(out) is None);
        let l = split_char(out, ';');
        assert(l[0] == out);
        assert(l.drop_first() =~= Seq::<Seq<char>>::empty());
        assert(sanitize_decls(l.drop_first()) == Seq::<Seq<char>>::empty());
        assert(sanitize_decls(l) == sanitize_decls(l.drop_first()));
        assert(sanitize_decls(split_char(out, ';')) =~= Seq::<Seq<char>>::empty());
    } else {
        assert forall|k: int| 0 <= k < ds.len() implies !(#[trigger] ds[k]).contains(';') by {
            lemma_good_decl_lacks_semicolon(ds[k]);
        }
        if Seq::<char>::empty().contains(';') {
            assert(Seq::<char>::empty().len() == 0);
        }
        lemma_split_join(Seq::<char>::empty(), ds);
        assert(Seq::<char>::empty() + out =~= out);
        let l = split_char(out, ';');
        assert forall|k: int| 0 <= k < l.len() implies sanitize_decl(#[trigger] l[k]) == Some(ds[k]) by {
            if k == 0 {
                lemma_good_decl_kept(ds[0], Seq::<char>::empty());
            } else {
                lemma_good_decl_kept(ds[k], seq![' ']);
            }
        }
        lemma_decls_kept(l, ds);
    }
}

} // verus!
