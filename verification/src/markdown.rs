//! Message rendering: `{{char}}`/`{{user}}` macros, the leading time/place
//! header, and the conversion of a markdown event stream into a tree of
//! block-level nodes with quoted speech and emphasis marked.

use vstd::prelude::*;
use crate::text::{
    chars_eq, find_from_exec, from_chars, lemma_find_from, lemma_find_from_shift, lemma_find_from_unique,
    matches_at, push_all,
    replace_all, replace_all_exec, skip_ws_exec, slice_vec, to_chars, trim, trim_range,
    trim_start, find,
};
use crate::sanitize::{safe_href, sanitize_url_chars, spec_sanitize_url};
use crate::safe_html::{proxy_url, proxy_prefix};
use crate::outside::{
    html_encode_text, markdown_event_stream, markdown_events, spec_encode_text, url_encode,
};
use crate::safe_html::{
    extract_html_segments, node_view, segment_view, segments_view, spec_extract_html_segments,
    spec_strip_plot_momentum, strip_plot_momentum, HtmlNode, HtmlNodeV, SegmentV, TextOrHtml,
};

verus! {

// ---------------------------------------------------------------------------
// macros
// ---------------------------------------------------------------------------

/// `text` with `{{char}}`, `{{Char}}`, `{char}`, `{Char}` and `{{name}}`
/// replaced by the character's name and `{{user}}`, `{{User}}`, `{user}`,
/// `{User}` by the user's name, each replacement applied to the whole text
/// in that order.
pub open spec fn spec_substitute_macros(text: Seq<char>, char_name: Seq<char>, user_name: Seq<char>) -> Seq<
    char,
> {
    let a = replace_all(text, seq!['{', '{', 'c', 'h', 'a', 'r', '}', '}'], char_name);
    let b = replace_all(a, seq!['{', '{', 'C', 'h', 'a', 'r', '}', '}'], char_name);
    let c = replace_all(b, seq!['{', 'c', 'h', 'a', 'r', '}'], char_name);
    let d = replace_all(c, seq!['{', 'C', 'h', 'a', 'r', '}'], char_name);
    let e = replace_all(d, seq!['{', '{', 'n', 'a', 'm', 'e', '}', '}'], char_name);
    let f = replace_all(e, seq!['{', '{', 'u', 's', 'e', 'r', '}', '}'], user_name);
    let g = replace_all(f, seq!['{', '{', 'U', 's', 'e', 'r', '}', '}'], user_name);
    let h = replace_all(g, seq!['{', 'u', 's', 'e', 'r', '}'], user_name);
    replace_all(h, seq!['{', 'U', 's', 'e', 'r', '}'], user_name)
}

/// Replaces the name macros (character version).
pub fn substitute_macros_chars(text: &[char], char_name: &[char], user_name: &[char]) -> (r: Vec<
    char,
>)
    ensures
        r@ == spec_substitute_macros(text@, char_name@, user_name@),
{
    let p1 = ['{', '{', 'c', 'h', 'a', 'r', '}', '}'];
    let p2 = ['{', '{', 'C', 'h', 'a', 'r', '}', '}'];
    let p3 = ['{', 'c', 'h', 'a', 'r', '}'];
    let p4 = ['{', 'C', 'h', 'a', 'r', '}'];
    let p5 = ['{', '{', 'n', 'a', 'm', 'e', '}', '}'];
    let p6 = ['{', '{', 'u', 's', 'e', 'r', '}', '}'];
    let p7 = ['{', '{', 'U', 's', 'e', 'r', '}', '}'];
    let p8 = ['{', 'u', 's', 'e', 'r', '}'];
    let p9 = ['{', 'U', 's', 'e', 'r', '}'];
    proof {
        assert(p1@ =~= seq!['{', '{', 'c', 'h', 'a', 'r', '}', '}']);
        assert(p2@ =~= seq!['{', '{', 'C', 'h', 'a', 'r', '}', '}']);
        assert(p3@ =~= seq!['{', 'c', 'h', 'a', 'r', '}']);
        assert(p4@ =~= seq!['{', 'C', 'h', 'a', 'r', '}']);
        assert(p5@ =~= seq!['{', '{', 'n', 'a', 'm', 'e', '}', '}']);
        assert(p6@ =~= seq!['{', '{', 'u', 's', 'e', 'r', '}', '}']);
        assert(p7@ =~= seq!['{', '{', 'U', 's', 'e', 'r', '}', '}']);
        assert(p8@ =~= seq!['{', 'u', 's', 'e', 'r', '}']);
        assert(p9@ =~= seq!['{', 'U', 's', 'e', 'r', '}']);
    }
    let a = replace_all_exec(text, &p1, char_name);
    let b = replace_all_exec(&a, &p2, char_name);
    let c = replace_all_exec(&b, &p3, char_name);
    let d = replace_all_exec(&c, &p4, char_name);
    let e = replace_all_exec(&d, &p5, char_name);
    let f = replace_all_exec(&e, &p6, user_name);
    let g = replace_all_exec(&f, &p7, user_name);
    let h = replace_all_exec(&g, &p8, user_name);
    replace_all_exec(&h, &p9, user_name)
}

/// Replaces `{{char}}`/`{{name}}` (and variants) with the character's name
/// and `{{user}}` (and variants) with the user's name.
pub fn substitute_macros(text: &str, char_name: &str, user_name: &str) -> (r: String)
    ensures
        r@ == spec_substitute_macros(text@, char_name@, user_name@),
{
    let t = to_chars(text);
    let c = to_chars(char_name);
    let u = to_chars(user_name);
    let v = substitute_macros_chars(&t, &c, &u);
    from_chars(&v)
}

/// Whether `s` holds no `{`.
pub open spec fn brace_free(s: Seq<char>) -> bool {
    forall|i: int| 0 <= i < s.len() ==> s[i] != '{'
}

/// Whether no `{` occurs in `q` at or after `i`.
spec fn no_brace_from(q: Seq<char>, i: int) -> bool
    decreases q.len() - i,
{
    if i < 0 || i >= q.len() {
        true
    } else {
        q[i] != '{' && no_brace_from(q, i + 1)
    }
}

proof fn lemma_no_brace_from(q: Seq<char>, i: int, k: int)
    requires
        no_brace_from(q, i),
        0 <= i <= k < q.len(),
    ensures
        q[k] != '{',
    decreases k - i,
{
    if i < k {
        lemma_no_brace_from(q, i + 1, k);
    }
}

/// Whether the macro `p` cannot occur anywhere in a text made of the macro
/// `q` between `{`-free texts: both open with `{` (or `{{`) followed by
/// their words, `q` has no other `{`, and the two differ right where `p`
/// would have to begin at either opening brace of `q`.
spec fn pair_blocked(q: Seq<char>, p: Seq<char>) -> bool {
    &&& q.len() >= 3
    &&& p.len() >= 3
    &&& q[0] == '{'
    &&& p[0] == '{'
    &&& no_brace_from(q, 2)
    &&& if q[1] == '{' && p[1] == '{' {
        q[2] != p[2]
    } else {
        q[1] != p[1]
    }
    &&& q[1] == '{' ==> q[2] != p[1]
}

proof fn lemma_replace_brace_free(s: Seq<char>, p: Seq<char>, r: Seq<char>)
    requires
        p.len() > 0,
        p[0] == '{',
        brace_free(s),
    ensures
        replace_all(s, p, r) == s,
{
    lemma_find_from(s, p, 0);
    if let Some(i) = find(s, p) {
        assert(s.subrange(i, i + p.len())[0] == s[i]);
    }
}

proof fn lemma_replace_single(s1: Seq<char>, p: Seq<char>, s2: Seq<char>, r: Seq<char>)
    requires
        p.len() > 0,
        p[0] == '{',
        brace_free(s1),
        brace_free(s2),
    ensures
        replace_all(s1 + p + s2, p, r) == s1 + r + s2,
{
    let s = s1 + p + s2;
    let i = s1.len() as int;
    assert(s.subrange(i, i + p.len()) =~= p);
    assert forall|j: int| 0 <= j < i implies !#[trigger] matches_at(s, p, j) by {
        assert(s.subrange(j, j + p.len())[0] == s[j]);
        assert(s[j] == s1[j]);
    }
    lemma_find_from_unique(s, p, 0, i);
    assert(s.take(i) =~= s1);
    assert(s.skip(i + p.len()) =~= s2);
    lemma_replace_brace_free(s2, p, r);
}

proof fn lemma_replace_blocked(s1: Seq<char>, q: Seq<char>, s2: Seq<char>, p: Seq<char>, r: Seq<char>)
    requires
        brace_free(s1),
        brace_free(s2),
        pair_blocked(q, p),
    ensures
        replace_all(s1 + q + s2, p, r) == s1 + q + s2,
{
    let s = s1 + q + s2;
    lemma_find_from(s, p, 0);
    if let Some(i) = find(s, p) {
        let sub = s.subrange(i, i + p.len());
        assert(sub[0] == s[i]);
        assert(s[i] == '{');
        if i < s1.len() {
            assert(s[i] == s1[i]);
        } else if i >= s1.len() + q.len() {
            assert(s[i] == s2[i - s1.len() - q.len()]);
        } else {
            let k = i - s1.len();
            assert(q[k] == s[i]);
            if k >= 2 {
                lemma_no_brace_from(q, 2, k);
            } else if k == 0 {
                assert(sub[1] == q[1] && sub[2] == q[2]);
            } else {
                assert(sub[1] == q[2]);
            }
        }
    }
}

/// `t` after replacing `pats[k]` by `reps[k]`, then each later pattern in turn.
spec fn apply_from(t: Seq<char>, pats: Seq<Seq<char>>, reps: Seq<Seq<char>>, k: int) -> Seq<char>
    decreases pats.len() - k,
{
    if k < 0 || k >= pats.len() {
        t
    } else {
        apply_from(replace_all(t, pats[k], reps[k]), pats, reps, k + 1)
    }
}

spec fn steps_ok(pats: Seq<Seq<char>>, reps: Seq<Seq<char>>) -> bool {
    &&& pats.len() == reps.len()
    &&& forall|k: int| 0 <= k < pats.len() ==> #[trigger] pats[k].len() > 0 && pats[k][0] == '{'
    &&& forall|k: int| 0 <= k < reps.len() ==> brace_free(#[trigger] reps[k])
}

proof fn lemma_apply_brace_free(t: Seq<char>, pats: Seq<Seq<char>>, reps: Seq<Seq<char>>, k: int)
    requires
        steps_ok(pats, reps),
        brace_free(t),
        0 <= k,
    ensures
        apply_from(t, pats, reps, k) == t,
    decreases pats.len() - k,
{
    if k < pats.len() {
        assert(pats[k].len() > 0 && pats[k][0] == '{');
        lemma_replace_brace_free(t, pats[k], reps[k]);
        lemma_apply_brace_free(t, pats, reps, k + 1);
    }
}

proof fn lemma_apply_one_macro(
    s1: Seq<char>,
    s2: Seq<char>,
    pats: Seq<Seq<char>>,
    reps: Seq<Seq<char>>,
    k: int,
    m: int,
)
    requires
        steps_ok(pats, reps),
        brace_free(s1),
        brace_free(s2),
        0 <= k <= m < pats.len(),
        forall|j: int| k <= j < m ==> pair_blocked(pats[m], #[trigger] pats[j]),
    ensures
        apply_from(s1 + pats[m] + s2, pats, reps, k) == s1 + reps[m] + s2,
    decreases m - k,
{
    assert(pats[k].len() > 0 && pats[k][0] == '{');
    if k == m {
        lemma_replace_single(s1, pats[m], s2, reps[m]);
        let t = s1 + reps[m] + s2;
        assert(brace_free(reps[m]));
        assert forall|i: int| 0 <= i < t.len() implies t[i] != '{' by {
            if i < s1.len() {
                assert(t[i] == s1[i]);
            } else if i < s1.len() + reps[m].len() {
                assert(t[i] == reps[m][i - s1.len()]);
            } else {
                assert(t[i] == s2[i - s1.len() - reps[m].len()]);
            }
        }
        lemma_apply_brace_free(t, pats, reps, k + 1);
    } else {
        lemma_replace_blocked(s1, pats[m], s2, pats[k], reps[k]);
        lemma_apply_one_macro(s1, s2, pats, reps, k + 1, m);
    }
}

/// The nine name macros, in the order they are replaced.
spec fn macro_patterns() -> Seq<Seq<char>> {
    seq![
        seq!['{', '{', 'c', 'h', 'a', 'r', '}', '}'],
        seq!['{', '{', 'C', 'h', 'a', 'r', '}', '}'],
        seq!['{', 'c', 'h', 'a', 'r', '}'],
        seq!['{', 'C', 'h', 'a', 'r', '}'],
        seq!['{', '{', 'n', 'a', 'm', 'e', '}', '}'],
        seq!['{', '{', 'u', 's', 'e', 'r', '}', '}'],
        seq!['{', '{', 'U', 's', 'e', 'r', '}', '}'],
        seq!['{', 'u', 's', 'e', 'r', '}'],
        seq!['{', 'U', 's', 'e', 'r', '}'],
    ]
}

proof fn lemma_macro_patterns()
    ensures
        macro_patterns().len() == 9,
        macro_patterns()[0] == seq!['{', '{', 'c', 'h', 'a', 'r', '}', '}'],
        macro_patterns()[1] == seq!['{', '{', 'C', 'h', 'a', 'r', '}', '}'],
        macro_patterns()[2] == seq!['{', 'c', 'h', 'a', 'r', '}'],
        macro_patterns()[3] == seq!['{', 'C', 'h', 'a', 'r', '}'],
        macro_patterns()[4] == seq!['{', '{', 'n', 'a', 'm', 'e', '}', '}'],
        macro_patterns()[5] == seq!['{', '{', 'u', 's', 'e', 'r', '}', '}'],
        macro_patterns()[6] == seq!['{', '{', 'U', 's', 'e', 'r', '}', '}'],
        macro_patterns()[7] == seq!['{', 'u', 's', 'e', 'r', '}'],
        macro_patterns()[8] == seq!['{', 'U', 's', 'e', 'r', '}'],
{
}

spec fn macro_names(c: Seq<char>, u: Seq<char>) -> Seq<Seq<char>> {
    seq![c, c, c, c, c, u, u, u, u]
}

spec fn earlier_blocked(pats: Seq<Seq<char>>, m: int, k: int) -> bool
    decreases k,
{
    if k <= 0 {
        true
    } else {
        pair_blocked(pats[m], pats[k - 1]) && earlier_blocked(pats, m, k - 1)
    }
}

spec fn all_earlier_blocked(pats: Seq<Seq<char>>, m: int) -> bool
    decreases m,
{
    if m <= 0 {
        true
    } else {
        earlier_blocked(pats, m - 1, m - 1) && all_earlier_blocked(pats, m - 1)
    }
}

proof fn lemma_earlier_blocked(pats: Seq<Seq<char>>, m: int, k: int, j: int)
    requires
        earlier_blocked(pats, m, k),
        0 <= j < k,
    ensures
        pair_blocked(pats[m], pats[j]),
    decreases k,
{
    if j < k - 1 {
        lemma_earlier_blocked(pats, m, k - 1, j);
    }
}

proof fn lemma_all_earlier_blocked(pats: Seq<Seq<char>>, n: int, m: int)
    requires
        all_earlier_blocked(pats, n),
        0 <= m < n,
    ensures
        earlier_blocked(pats, m, m),
    decreases n,
{
    if m < n - 1 {
        lemma_all_earlier_blocked(pats, n - 1, m);
    }
}

proof fn lemma_substitute_is_apply(t: Seq<char>, c: Seq<char>, u: Seq<char>)
    ensures
        spec_substitute_macros(t, c, u) == apply_from(t, macro_patterns(), macro_names(c, u), 0),
{
    let p = macro_patterns();
    let n = macro_names(c, u);
    reveal_with_fuel(apply_from, 10);
    assert(p.len() == 9);
    assert(p[0] == seq!['{', '{', 'c', 'h', 'a', 'r', '}', '}']);
    assert(p[1] == seq!['{', '{', 'C', 'h', 'a', 'r', '}', '}']);
    assert(p[2] == seq!['{', 'c', 'h', 'a', 'r', '}']);
    assert(p[3] == seq!['{', 'C', 'h', 'a', 'r', '}']);
    assert(p[4] == seq!['{', '{', 'n', 'a', 'm', 'e', '}', '}']);
    assert(p[5] == seq!['{', '{', 'u', 's', 'e', 'r', '}', '}']);
    assert(p[6] == seq!['{', '{', 'U', 's', 'e', 'r', '}', '}']);
    assert(p[7] == seq!['{', 'u', 's', 'e', 'r', '}']);
    assert(p[8] == seq!['{', 'U', 's', 'e', 'r', '}']);
    assert(n[0] == c && n[4] == c && n[5] == u && n[8] == u);
    assert(n[1] == c && n[2] == c && n[3] == c && n[6] == u && n[7] == u);
}

proof fn lemma_macro_steps(c: Seq<char>, u: Seq<char>)
    requires
        brace_free(c),
        brace_free(u),
    ensures
        steps_ok(macro_patterns(), macro_names(c, u)),
        all_earlier_blocked(macro_patterns(), 9),
{
    reveal_with_fuel(all_earlier_blocked, 10);
    reveal_with_fuel(earlier_blocked, 10);
    reveal_with_fuel(no_brace_from, 8);
    lemma_macro_patterns();
    let p = macro_patterns();
    let n = macro_names(c, u);
    assert forall|k: int| 0 <= k < p.len() implies #[trigger] p[k].len() > 0 && p[k][0] == '{' by {
        assert(p[0][0] == '{' && p[1][0] == '{' && p[2][0] == '{' && p[3][0] == '{' && p[4][0] == '{');
        assert(p[5][0] == '{' && p[6][0] == '{' && p[7][0] == '{' && p[8][0] == '{');
    }
    assert forall|k: int| 0 <= k < n.len() implies brace_free(#[trigger] n[k]) by {
        assert(n[k] == c || n[k] == u);
    }
}

proof fn lemma_one_macro(before: Seq<char>, after: Seq<char>, c: Seq<char>, u: Seq<char>, m: int)
    requires
        brace_free(before),
        brace_free(after),
        brace_free(c),
        brace_free(u),
        0 <= m < 9,
    ensures
        spec_substitute_macros(before + macro_patterns()[m] + after, c, u) == before + macro_names(c, u)[m]
            + after,
{
    let p = macro_patterns();
    lemma_macro_steps(c, u);
    lemma_all_earlier_blocked(p, 9, m);
    assert forall|j: int| 0 <= j < m implies pair_blocked(p[m], #[trigger] p[j]) by {
        lemma_earlier_blocked(p, m, m, j);
    }
    lemma_substitute_is_apply(before + p[m] + after, c, u);
    lemma_apply_one_macro(before, after, p, macro_names(c, u), 0, m);
}

/// The name macros, in a text whose other characters include no `{` and
/// for names without `{`: each of `{{char}}`, `{{Char}}`, `{char}`,
/// `{Char}` and `{{name}}` becomes the character's name, and each of
/// `{{user}}`, `{{User}}`, `{user}` and `{User}` the user's name, with the
/// text around it kept; a text with no macro is left as it is.
pub proof fn law_name_macros(before: Seq<char>, after: Seq<char>, char_name: Seq<char>, user_name: Seq<char>)
    requires
        brace_free(before),
        brace_free(after),
        brace_free(char_name),
        brace_free(user_name),
    ensures
        spec_substitute_macros(before + after, char_name, user_name) == before + after,
        spec_substitute_macros(before + seq!['{', '{', 'c', 'h', 'a', 'r', '}', '}'] + after, char_name, user_name)
            == before + char_name + after,
        spec_substitute_macros(before + seq!['{', '{', 'C', 'h', 'a', 'r', '}', '}'] + after, char_name, user_name)
            == before + char_name + after,
        spec_substitute_macros(before + seq!['{', 'c', 'h', 'a', 'r', '}'] + after, char_name, user_name)
            == before + char_name + after,
        spec_substitute_macros(before + seq!['{', 'C', 'h', 'a', 'r', '}'] + after, char_name, user_name)
            == before + char_name + after,
        spec_substitute_macros(before + seq!['{', '{', 'n', 'a', 'm', 'e', '}', '}'] + after, char_name, user_name)
            == before + char_name + after,
        spec_substitute_macros(before + seq!['{', '{', 'u', 's', 'e', 'r', '}', '}'] + after, char_name, user_name)
            == before + user_name + after,
        spec_substitute_macros(before + seq!['{', '{', 'U', 's', 'e', 'r', '}', '}'] + after, char_name, user_name)
            == before + user_name + after,
        spec_substitute_macros(before + seq!['{', 'u', 's', 'e', 'r', '}'] + after, char_name, user_name)
            == before + user_name + after,
        spec_substitute_macros(before + seq!['{', 'U', 's', 'e', 'r', '}'] + after, char_name, user_name)
            == before + user_name + after,
{
    let p = macro_patterns();
    let n = macro_names(char_name, user_name);
    let t = before + after;
    assert forall|i: int| 0 <= i < t.len() implies t[i] != '{' by {
        if i < before.len() {
            assert(t[i] == before[i]);
        } else {
            assert(t[i] == after[i - before.len()]);
        }
    }
    lemma_macro_steps(char_name, user_name);
    lemma_substitute_is_apply(t, char_name, user_name);
    lemma_apply_brace_free(t, p, n, 0);
    lemma_one_macro(before, after, char_name, user_name, 0);
    lemma_one_macro(before, after, char_name, user_name, 1);
    lemma_one_macro(before, after, char_name, user_name, 2);
    lemma_one_macro(before, after, char_name, user_name, 3);
    lemma_one_macro(before, after, char_name, user_name, 4);
    lemma_one_macro(before, after, char_name, user_name, 5);
    lemma_one_macro(before, after, char_name, user_name, 6);
    lemma_one_macro(before, after, char_name, user_name, 7);
    lemma_one_macro(before, after, char_name, user_name, 8);
}

// ---------------------------------------------------------------------------
// time/place header
// ---------------------------------------------------------------------------

/// When `text` starts (after leading whitespace) with a code span whose whole
/// content is a `[...]` bracket, the bracket's inner text trimmed, and
/// everything after the closing backtick.
pub open spec fn spec_extract_leading_time_header(text: Seq<char>) -> Option<(Seq<char>, Seq<char>)> {
    let t = trim_start(text);
    if t.len() >= 2 && t[0] == '`' && t[1] == '[' {
        let inner = t.skip(2);
        match find(inner, seq![']']) {
            Some(close) => if 0 <= close < inner.len() {
                let after = inner.skip(close + 1);
                if after.len() > 0 && after[0] == '`' {
                    Some((trim(inner.take(close)), after.skip(1)))
                } else {
                    None
                }
            } else {
                None
            },
            None => None,
        }
    } else {
        None
    }
}

/// Splits off a leading `` `[ ... ]` `` time/place header (character version).
pub fn extract_leading_time_header_chars(text: &[char]) -> (r: Option<(Vec<char>, Vec<char>)>)
    ensures
        match r {
            Some((h, rest)) => spec_extract_leading_time_header(text@) == Some((h@, rest@)),
            None => spec_extract_leading_time_header(text@) is None,
        },
{
    let tl = text.len();
    let i = skip_ws_exec(text, 0);
    proof {
        crate::sanitize::lemma_skip_ws_shift(text@, 0);
        assert(text@.skip(0) =~= text@);
    }
    let ghost t = trim_start(text@);
    if i >= text.len() || text.len() - i < 2 || text[i] != '`' || text[i + 1] != '[' {
        return None;
    }
    let close_a = [']'];
    proof {
        assert(close_a@ =~= seq![']']);
        assert(t.skip(2) =~= text@.skip(i + 2));
    }
    let found = find_from_exec(text, &close_a, i + 2);
    proof {
        lemma_find_from_shift(text@, close_a@, (i + 2) as int);
        lemma_find_from(text@, close_a@, (i + 2) as int);
    }
    match found {
        None => None,
        Some(c) => {
            if c + 1 >= text.len() || text[c + 1] != '`' {
                proof {
                    let inner = t.skip(2);
                    let close = c - (i + 2);
                    assert(inner.skip(close + 1) =~= text@.skip(c + 1));
                }
                return None;
            }
            let (hs, he) = trim_range(text, i + 2, c);
            let header = slice_vec(text, hs, he);
            let rest = slice_vec(text, c + 2, text.len());
            proof {
                let inner = t.skip(2);
                let close = c - (i + 2);
                assert(inner.take(close) =~= text@.subrange(i + 2, c as int));
                assert(inner.skip(close + 1) =~= text@.skip(c + 1));
                assert(inner.skip(close + 1).skip(1) =~= text@.subrange(c + 2, text@.len() as int));
            }
            Some((header, rest))
        },
    }
}

/// Splits off a leading `` `[ ... ]` `` time/place header: its trimmed inner
/// text and the rest of the message after the closing backtick.
pub fn extract_leading_time_header(text: &str) -> (r: Option<(String, String)>)
    ensures
        match r {
            Some((h, rest)) => spec_extract_leading_time_header(text@) == Some((h@, rest@)),
            None => spec_extract_leading_time_header(text@) is None,
        },
{
    let t = to_chars(text);
    match extract_leading_time_header_chars(&t) {
        Some((h, rest)) => Some((from_chars(&h), from_chars(&rest))),
        None => None,
    }
}

// ---------------------------------------------------------------------------
// markdown events and nodes
// ---------------------------------------------------------------------------

/// One event of a markdown parse, reduced to what rendering uses.
#[derive(Debug)]
pub enum MdEvent {
    ParagraphStart,
    ParagraphEnd,
    HeadingStart,
    HeadingEnd(u8),
    EmphasisStart,
    EmphasisEnd,
    CodeBlockStart,
    CodeBlockEnd,
    ImageStart(String, String),
    ImageEnd,
    LinkStart(String, String),
    LinkEnd,
    ListStart(Option<u64>),
    ListEnd,
    ItemStart,
    ItemEnd,
    Text(String),
    Code(String),
    InlineMath(String),
    DisplayMath(String),
    SoftBreak,
    HardBreak,
    Other,
}

/// The mathematical form of a markdown event.
pub enum MdEventV {
    ParagraphStart,
    ParagraphEnd,
    HeadingStart,
    HeadingEnd(u8),
    EmphasisStart,
    EmphasisEnd,
    CodeBlockStart,
    CodeBlockEnd,
    ImageStart(Seq<char>, Seq<char>),
    ImageEnd,
    LinkStart(Seq<char>, Seq<char>),
    LinkEnd,
    ListStart(Option<u64>),
    ListEnd,
    ItemStart,
    ItemEnd,
    Text(Seq<char>),
    Code(Seq<char>),
    InlineMath(Seq<char>),
    DisplayMath(Seq<char>),
    SoftBreak,
    HardBreak,
    Other,
}

/// The view of an event.
pub open spec fn md_event_view(e: MdEvent) -> MdEventV {
    match e {
        MdEvent::ParagraphStart => MdEventV::ParagraphStart,
        MdEvent::ParagraphEnd => MdEventV::ParagraphEnd,
        MdEvent::HeadingStart => MdEventV::HeadingStart,
        MdEvent::HeadingEnd(l) => MdEventV::HeadingEnd(l),
        MdEvent::EmphasisStart => MdEventV::EmphasisStart,
        MdEvent::EmphasisEnd => MdEventV::EmphasisEnd,
        MdEvent::CodeBlockStart => MdEventV::CodeBlockStart,
        MdEvent::CodeBlockEnd => MdEventV::CodeBlockEnd,
        MdEvent::ImageStart(u, t) => MdEventV::ImageStart(u@, t@),
        MdEvent::ImageEnd => MdEventV::ImageEnd,
        MdEvent::LinkStart(u, t) => MdEventV::LinkStart(u@, t@),
        MdEvent::LinkEnd => MdEventV::LinkEnd,
        MdEvent::ListStart(n) => MdEventV::ListStart(n),
        MdEvent::ListEnd => MdEventV::ListEnd,
        MdEvent::ItemStart => MdEventV::ItemStart,
        MdEvent::ItemEnd => MdEventV::ItemEnd,
        MdEvent::Text(t) => MdEventV::Text(t@),
        MdEvent::Code(t) => MdEventV::Code(t@),
        MdEvent::InlineMath(t) => MdEventV::InlineMath(t@),
        MdEvent::DisplayMath(t) => MdEventV::DisplayMath(t@),
        MdEvent::SoftBreak => MdEventV::SoftBreak,
        MdEvent::HardBreak => MdEventV::HardBreak,
        MdEvent::Other => MdEventV::Other,
    }
}

/// The views of a sequence of events.
pub open spec fn md_events_view(v: Seq<MdEvent>) -> Seq<MdEventV> {
    Seq::new(v.len(), |i: int| md_event_view(v[i]))
}

/// A rendered markdown node.
#[derive(Debug)]
pub enum MdNode {
    /// `<p>`
    Paragraph(Vec<MdNode>),
    /// `<h1>`..`<h6>` (level 1..6)
    Heading(u8, Vec<MdNode>),
    /// `<pre><code>`
    CodeBlock(String),
    /// `<ol start=n>` for `Some(n)`, `<ul>` for `None`; children are items.
    List(Option<u64>, Vec<MdNode>),
    /// `<li>`
    Item(Vec<MdNode>),
    /// Plain text.
    Text(String),
    /// Quoted speech (`span.message-quote`).
    Quote(String),
    /// Quoted speech inside emphasis (`span.message-qem`).
    QuoteEmph(String),
    /// Emphasised text (`<em>`).
    Emph(String),
    /// Inline code.
    Code(String),
    /// A link to a sanitized `http(s)` URL.
    Link { href: String, title: String, children: Vec<MdNode> },
    /// Link text whose URL was unsafe: shown, but not as a link.
    Inert(Vec<MdNode>),
    /// An image loaded through the proxy.
    Image { src: String, title: String },
    /// Math, inline or displayed as its own block.
    Math { tex: String, display: bool },
    /// A line break.
    Break,
}

/// The mathematical form of a rendered node.
pub enum MdNodeV {
    Paragraph(Seq<MdNodeV>),
    Heading(u8, Seq<MdNodeV>),
    CodeBlock(Seq<char>),
    List(Option<u64>, Seq<MdNodeV>),
    Item(Seq<MdNodeV>),
    Text(Seq<char>),
    Quote(Seq<char>),
    QuoteEmph(Seq<char>),
    Emph(Seq<char>),
    Code(Seq<char>),
    Link { href: Seq<char>, title: Seq<char>, children: Seq<MdNodeV> },
    Inert(Seq<MdNodeV>),
    Image { src: Seq<char>, title: Seq<char> },
    Math { tex: Seq<char>, display: bool },
    Break,
}

/// The view of a rendered node.
pub open spec fn md_node_view(n: MdNode) -> MdNodeV
    decreases n,
{
    match n {
        MdNode::Paragraph(c) => MdNodeV::Paragraph(md_nodes_view(c@)),
        MdNode::Heading(l, c) => MdNodeV::Heading(l, md_nodes_view(c@)),
        MdNode::CodeBlock(s) => MdNodeV::CodeBlock(s@),
        MdNode::List(n, c) => MdNodeV::List(n, md_nodes_view(c@)),
        MdNode::Item(c) => MdNodeV::Item(md_nodes_view(c@)),
        MdNode::Text(s) => MdNodeV::Text(s@),
        MdNode::Quote(s) => MdNodeV::Quote(s@),
        MdNode::QuoteEmph(s) => MdNodeV::QuoteEmph(s@),
        MdNode::Emph(s) => MdNodeV::Emph(s@),
        MdNode::Code(s) => MdNodeV::Code(s@),
        MdNode::Link { href, title, children } => MdNodeV::Link {
            href: href@,
            title: title@,
            children: md_nodes_view(children@),
        },
        MdNode::Inert(c) => MdNodeV::Inert(md_nodes_view(c@)),
        MdNode::Image { src, title } => MdNodeV::Image { src: src@, title: title@ },
        MdNode::Math { tex, display } => MdNodeV::Math { tex: tex@, display },
        MdNode::Break => MdNodeV::Break,
    }
}

/// The views of a sequence of rendered nodes.
pub open spec fn md_nodes_view(v: Seq<MdNode>) -> Seq<MdNodeV>
    decreases v,
{
    Seq::new(
        v.len(),
        |i: int|
            if 0 <= i < v.len() {
                md_node_view(v[i])
            } else {
                MdNodeV::Break
            },
    )
}

proof fn lemma_md_nodes_push(v: Seq<MdNode>, n: MdNode)
    ensures
        md_nodes_view(v.push(n)) == md_nodes_view(v).push(md_node_view(n)),
{
    assert(md_nodes_view(v.push(n)) =~= md_nodes_view(v).push(md_node_view(n)));
}

proof fn lemma_md_nodes_append(a: Seq<MdNode>, b: Seq<MdNode>)
    ensures
        md_nodes_view(a + b) == md_nodes_view(a) + md_nodes_view(b),
{
    assert(md_nodes_view(a + b) =~= md_nodes_view(a) + md_nodes_view(b));
}

proof fn lemma_md_nodes_subrange(a: Seq<MdNode>, i: int, j: int)
    requires
        0 <= i <= j <= a.len(),
    ensures
        md_nodes_view(a.subrange(i, j)) == md_nodes_view(a).subrange(i, j),
{
    assert(md_nodes_view(a.subrange(i, j)) =~= md_nodes_view(a).subrange(i, j));
}

// ---------------------------------------------------------------------------
// the event fold
// ---------------------------------------------------------------------------

/// The state of the event fold.
pub struct MdState {
    /// Inline nodes of the paragraph/heading/item being built.
    pub inline: Seq<MdNodeV>,
    pub emph: bool,
    pub quote: bool,
    /// The text of the code block being built, if any.
    pub code: Option<Seq<char>>,
    pub img_url: Option<Seq<char>>,
    pub img_title: Option<Seq<char>>,
    pub img_start: Option<int>,
    /// The sanitized URL of the pending link (`None`: unsafe or no link).
    pub link_url: Option<Seq<char>>,
    pub link_title: Option<Seq<char>>,
    pub link_start: Option<int>,
    /// Items of each open list, innermost last.
    pub lists: Seq<Seq<MdNodeV>>,
    pub list_types: Seq<Option<u64>>,
    /// Block content of each open list item, innermost last.
    pub items: Seq<Seq<MdNodeV>>,
    /// Finished top-level blocks.
    pub blocks: Seq<MdNodeV>,
}

/// The state before any event.
pub open spec fn md_initial() -> MdState {
    MdState {
        inline: Seq::empty(),
        emph: false,
        quote: false,
        code: None,
        img_url: None,
        img_title: None,
        img_start: None,
        link_url: None,
        link_title: None,
        link_start: None,
        lists: Seq::empty(),
        list_types: Seq::empty(),
        items: Seq::empty(),
        blocks: Seq::empty(),
    }
}

/// `st` with the finished block `v` placed in the innermost open list item,
/// or among the top-level blocks when no item is open.
pub open spec fn push_block(st: MdState, v: MdNodeV) -> MdState {
    if st.items.len() > 0 {
        MdState { items: st.items.update(st.items.len() - 1, st.items.last().push(v)), ..st }
    } else {
        MdState { blocks: st.blocks.push(v), ..st }
    }
}

/// One stretch of text, styled by whether it is quoted and emphasised;
/// an empty stretch produces nothing.
pub open spec fn styled_segment(s: Seq<char>, quoted: bool, emph: bool) -> Seq<MdNodeV> {
    if s.len() == 0 {
        Seq::empty()
    } else if quoted && emph {
        seq![MdNodeV::QuoteEmph(s)]
    } else if quoted {
        seq![MdNodeV::Quote(s)]
    } else if emph {
        seq![MdNodeV::Emph(s)]
    } else {
        seq![MdNodeV::Text(s)]
    }
}

/// Splitting text at double quotes, from index `i` with the current stretch
/// starting at `start`: an opening quote ends the unquoted stretch before it
/// and starts a quoted one (quotes included), a closing quote ends the
/// quoted stretch; the quote state carries over to the next text event.
pub open spec fn split_quotes(t: Seq<char>, i: int, start: int, q: bool, emph: bool, acc: Seq<MdNodeV>) -> (
    Seq<MdNodeV>,
    bool,
)
    decreases t.len() - i,
{
    if i < 0 || i >= t.len() || start < 0 || start > i {
        if 0 <= start < t.len() {
            (acc + styled_segment(t.subrange(start, t.len() as int), q, emph), q)
        } else {
            (acc, q)
        }
    } else if t[i] == '"' {
        if !q {
            let acc1 = if i > start {
                acc + styled_segment(t.subrange(start, i), false, emph)
            } else {
                acc
            };
            split_quotes(t, i + 1, i, true, emph, acc1)
        } else {
            split_quotes(t, i + 1, i + 1, false, emph, acc + styled_segment(t.subrange(start, i + 1), true, emph))
        }
    } else {
        split_quotes(t, i + 1, start, q, emph, acc)
    }
}

/// `v` cut to its first `n` elements (std's `Vec::truncate`).
pub open spec fn truncate<A>(v: Seq<A>, n: int) -> Seq<A> {
    if 0 <= n <= v.len() {
        v.take(n)
    } else {
        v
    }
}

/// The state after the image that began at `img_start` ends.
pub open spec fn step_image_end(st: MdState, forbid_media: bool) -> MdState {
    let s1 = match st.img_start {
        Some(n) => MdState { inline: truncate(st.inline, n), img_start: None, ..st },
        None => st,
    };
    match s1.img_url {
        Some(u) => {
            let s2 = MdState { img_url: None, ..s1 };
            if !forbid_media {
                let title = match s2.img_title {
                    Some(t) => t,
                    None => Seq::empty(),
                };
                MdState {
                    img_title: None,
                    inline: s2.inline.push(MdNodeV::Image { src: proxy_url(u), title }),
                    ..s2
                }
            } else {
                s2
            }
        },
        None => s1,
    }
}

/// The state after the pending link ends: its inline children since
/// `link_start` are wrapped in a link (or an inert span when its URL was unsafe).
pub open spec fn step_link_end(st: MdState) -> MdState {
    match st.link_start {
        Some(n) => {
            let children = if 0 <= n <= st.inline.len() {
                st.inline.skip(n)
            } else {
                Seq::empty()
            };
            let kept = truncate(st.inline, n);
            let title = match st.link_title {
                Some(t) => t,
                None => Seq::empty(),
            };
            let node = match st.link_url {
                Some(h) => MdNodeV::Link { href: h, title, children },
                None => MdNodeV::Inert(children),
            };
            MdState {
                inline: kept.push(node),
                link_start: None,
                link_title: None,
                link_url: None,
                ..st
            }
        },
        None => st,
    }
}

/// The state after the innermost list ends: it becomes a block.
pub open spec fn step_list_end(st: MdState) -> MdState {
    let items = if st.lists.len() > 0 {
        st.lists.last()
    } else {
        Seq::empty()
    };
    let start = if st.list_types.len() > 0 {
        st.list_types.last()
    } else {
        None
    };
    let s1 = MdState {
        lists: if st.lists.len() > 0 {
            st.lists.drop_last()
        } else {
            st.lists
        },
        list_types: if st.list_types.len() > 0 {
            st.list_types.drop_last()
        } else {
            st.list_types
        },
        ..st
    };
    push_block(s1, MdNodeV::List(start, items))
}

/// The state after the innermost list item ends: leftover inline content
/// (a tight item's text) joins the item, which is added to the innermost list.
pub open spec fn step_item_end(st: MdState) -> MdState {
    let s1 = if st.inline.len() > 0 && st.items.len() > 0 {
        MdState {
            items: st.items.update(st.items.len() - 1, st.items.last() + st.inline),
            inline: Seq::empty(),
            ..st
        }
    } else {
        st
    };
    let item_blocks = if s1.items.len() > 0 {
        s1.items.last()
    } else {
        Seq::empty()
    };
    let s2 = MdState {
        items: if s1.items.len() > 0 {
            s1.items.drop_last()
        } else {
            s1.items
        },
        ..s1
    };
    if s2.lists.len() > 0 {
        MdState {
            lists: s2.lists.update(s2.lists.len() - 1, s2.lists.last().push(MdNodeV::Item(item_blocks))),
            ..s2
        }
    } else {
        s2
    }
}

/// The state after one event.
pub open spec fn md_step(st: MdState, ev: MdEventV, forbid_media: bool) -> MdState {
    match ev {
        MdEventV::ParagraphStart => MdState { inline: Seq::empty(), ..st },
        MdEventV::ParagraphEnd => push_block(
            MdState { inline: Seq::empty(), ..st },
            MdNodeV::Paragraph(st.inline),
        ),
        MdEventV::HeadingStart => MdState { inline: Seq::empty(), ..st },
        MdEventV::HeadingEnd(l) => push_block(
            MdState { inline: Seq::empty(), ..st },
            MdNodeV::Heading(l, st.inline),
        ),
        MdEventV::EmphasisStart => MdState { emph: true, ..st },
        MdEventV::EmphasisEnd => MdState { emph: false, ..st },
        MdEventV::CodeBlockStart => MdState { code: Some(Seq::empty()), ..st },
        MdEventV::CodeBlockEnd => match st.code {
            Some(c) => push_block(MdState { code: None, ..st }, MdNodeV::CodeBlock(c)),
            None => st,
        },
        MdEventV::ImageStart(u, t) => MdState {
            img_url: Some(u),
            img_title: Some(t),
            img_start: Some(st.inline.len() as int),
            ..st
        },
        MdEventV::ImageEnd => step_image_end(st, forbid_media),
        MdEventV::LinkStart(u, t) => MdState {
            link_url: spec_sanitize_url(u),
            link_title: Some(t),
            link_start: Some(st.inline.len() as int),
            ..st
        },
        MdEventV::LinkEnd => step_link_end(st),
        MdEventV::ListStart(n) => MdState {
            lists: st.lists.push(Seq::empty()),
            list_types: st.list_types.push(n),
            ..st
        },
        MdEventV::ListEnd => step_list_end(st),
        MdEventV::ItemStart => MdState {
            inline: Seq::empty(),
            items: st.items.push(Seq::empty()),
            ..st
        },
        MdEventV::ItemEnd => step_item_end(st),
        MdEventV::Text(t) => match st.code {
            Some(c) => MdState { code: Some(c + t), ..st },
            None => {
                let r = split_quotes(t, 0, 0, st.quote, st.emph, Seq::empty());
                MdState { inline: st.inline + r.0, quote: r.1, ..st }
            },
        },
        MdEventV::Code(c) => MdState { inline: st.inline.push(MdNodeV::Code(c)), ..st },
        MdEventV::InlineMath(m) => MdState {
            inline: st.inline.push(MdNodeV::Math { tex: m, display: false }),
            ..st
        },
        MdEventV::DisplayMath(m) => push_block(st, MdNodeV::Math { tex: m, display: true }),
        MdEventV::SoftBreak => MdState { inline: st.inline.push(MdNodeV::Break), ..st },
        MdEventV::HardBreak => MdState { inline: st.inline.push(MdNodeV::Break), ..st },
        MdEventV::Other => st,
    }
}

/// The state after all of `evs`, from `st`.
pub open spec fn md_fold(st: MdState, evs: Seq<MdEventV>, forbid_media: bool) -> MdState
    decreases evs.len(),
{
    if evs.len() == 0 {
        st
    } else {
        md_fold(md_step(st, evs[0], forbid_media), evs.drop_first(), forbid_media)
    }
}

/// The blocks a markdown event stream renders to: the fold, then any
/// inline content left over becomes a final paragraph.
pub open spec fn spec_blocks_from_events(evs: Seq<MdEventV>, forbid_media: bool) -> Seq<MdNodeV> {
    let st = md_fold(md_initial(), evs, forbid_media);
    if st.inline.len() > 0 {
        push_block(MdState { inline: Seq::empty(), ..st }, MdNodeV::Paragraph(st.inline)).blocks
    } else {
        st.blocks
    }
}

proof fn lemma_md_fold_push(st: MdState, evs: Seq<MdEventV>, ev: MdEventV, fm: bool)
    ensures
        md_fold(st, evs.push(ev), fm) == md_step(md_fold(st, evs, fm), ev, fm),
    decreases evs.len(),
{
    if evs.len() == 0 {
        assert(evs.push(ev).drop_first() =~= Seq::<MdEventV>::empty());
        assert(evs.push(ev)[0] == ev);
        assert(md_fold(md_step(st, ev, fm), Seq::<MdEventV>::empty(), fm) == md_step(st, ev, fm));
    } else {
        assert(evs.push(ev).drop_first() =~= evs.drop_first().push(ev));
        assert(evs.push(ev)[0] == evs[0]);
        lemma_md_fold_push(md_step(st, evs[0], fm), evs.drop_first(), ev, fm);
    }
}

// ---------------------------------------------------------------------------
// the event fold, executable
// ---------------------------------------------------------------------------

/// The state of the event fold (executable form of `MdState`).
pub struct MdBuilder {
    inline: Vec<MdNode>,
    emph: bool,
    quote: bool,
    code: Option<Vec<char>>,
    img_url: Option<Vec<char>>,
    img_title: Option<Vec<char>>,
    img_start: Option<usize>,
    link_url: Option<Vec<char>>,
    link_title: Option<Vec<char>>,
    link_start: Option<usize>,
    lists: Vec<Vec<MdNode>>,
    list_types: Vec<Option<u64>>,
    items: Vec<Vec<MdNode>>,
    blocks: Vec<MdNode>,
}

/// The view of an optional character vector.
pub open spec fn optv(o: Option<Vec<char>>) -> Option<Seq<char>> {
    match o {
        Some(v) => Some(v@),
        None => None,
    }
}

/// The view of an optional index.
pub open spec fn optu(o: Option<usize>) -> Option<int> {
    match o {
        Some(v) => Some(v as int),
        None => None,
    }
}

/// The views of a stack of node vectors.
pub open spec fn nested_view(v: Seq<Vec<MdNode>>) -> Seq<Seq<MdNodeV>> {
    Seq::new(v.len(), |i: int| md_nodes_view(v[i]@))
}

proof fn lemma_nested_push(v: Seq<Vec<MdNode>>, x: Vec<MdNode>)
    ensures
        nested_view(v.push(x)) == nested_view(v).push(md_nodes_view(x@)),
{
    assert(nested_view(v.push(x)) =~= nested_view(v).push(md_nodes_view(x@)));
}

proof fn lemma_nested_drop_last(v: Seq<Vec<MdNode>>)
    requires
        v.len() > 0,
    ensures
        nested_view(v.drop_last()) == nested_view(v).drop_last(),
        nested_view(v).last() == md_nodes_view(v.last()@),
{
    assert(nested_view(v.drop_last()) =~= nested_view(v).drop_last());
}

impl MdBuilder {
    /// The mathematical state this builder holds.
    pub closed spec fn state(&self) -> MdState {
        MdState {
            inline: md_nodes_view(self.inline@),
            emph: self.emph,
            quote: self.quote,
            code: optv(self.code),
            img_url: optv(self.img_url),
            img_title: optv(self.img_title),
            img_start: optu(self.img_start),
            link_url: optv(self.link_url),
            link_title: optv(self.link_title),
            link_start: optu(self.link_start),
            lists: nested_view(self.lists@),
            list_types: self.list_types@,
            items: nested_view(self.items@),
            blocks: md_nodes_view(self.blocks@),
        }
    }

    /// The builder before any event.
    pub fn new() -> (r: MdBuilder)
        ensures
            r.state() == md_initial(),
    {
        let r = MdBuilder {
            inline: Vec::new(),
            emph: false,
            quote: false,
            code: None,
            img_url: None,
            img_title: None,
            img_start: None,
            link_url: None,
            link_title: None,
            link_start: None,
            lists: Vec::new(),
            list_types: Vec::new(),
            items: Vec::new(),
            blocks: Vec::new(),
        };
        proof {
            assert(md_nodes_view(r.inline@) =~= Seq::<MdNodeV>::empty());
            assert(md_nodes_view(r.blocks@) =~= Seq::<MdNodeV>::empty());
            assert(nested_view(r.lists@) =~= Seq::<Seq<MdNodeV>>::empty());
            assert(nested_view(r.items@) =~= Seq::<Seq<MdNodeV>>::empty());
        }
        r
    }

    /// Clears the pending inline nodes.
    fn clear_inline(&mut self)
        ensures
            final(self).state() == (MdState { inline: Seq::empty(), ..old(self).state() }),
    {
        self.inline = Vec::new();
        proof {
            assert(md_nodes_view(self.inline@) =~= Seq::<MdNodeV>::empty());
        }
    }

    /// Takes the pending inline nodes, leaving none.
    fn take_inline(&mut self) -> (r: Vec<MdNode>)
        ensures
            md_nodes_view(r@) == old(self).state().inline,
            final(self).state() == (MdState { inline: Seq::empty(), ..old(self).state() }),
    {
        let mut r: Vec<MdNode> = Vec::new();
        std::mem::swap(&mut r, &mut self.inline);
        proof {
            assert(md_nodes_view(self.inline@) =~= Seq::<MdNodeV>::empty());
        }
        r
    }

    /// Places a finished block in the innermost open item, or at top level.
    fn push_block(&mut self, v: MdNode)
        ensures
            final(self).state() == push_block(old(self).state(), md_node_view(v)),
    {
        if self.items.len() > 0 {
            let ghost old_items = self.items@;
            let mut cur = self.items.pop().unwrap();
            proof {
                lemma_nested_drop_last(old_items);
                lemma_md_nodes_push(cur@, v);
            }
            cur.push(v);
            self.items.push(cur);
            proof {
                lemma_nested_push(old_items.drop_last(), cur);
                assert(nested_view(self.items@) =~= nested_view(old_items).update(
                    old_items.len() - 1,
                    nested_view(old_items).last().push(md_node_view(v)),
                ));
            }
        } else {
            proof {
                lemma_md_nodes_push(self.blocks@, v);
            }
            self.blocks.push(v);
        }
    }

    /// Adds one inline node.
    fn push_inline(&mut self, v: MdNode)
        ensures
            final(self).state() == (MdState {
                inline: old(self).state().inline.push(md_node_view(v)),
                ..old(self).state()
            }),
    {
        proof {
            lemma_md_nodes_push(self.inline@, v);
        }
        self.inline.push(v);
    }

    /// A paragraph or heading ends: its inline content becomes a block.
    fn end_inline_block(&mut self, heading: Option<u8>)
        ensures
            final(self).state() == (match heading {
                Some(l) => push_block(
                    MdState { inline: Seq::empty(), ..old(self).state() },
                    MdNodeV::Heading(l, old(self).state().inline),
                ),
                None => push_block(
                    MdState { inline: Seq::empty(), ..old(self).state() },
                    MdNodeV::Paragraph(old(self).state().inline),
                ),
            }),
    {
        let content = self.take_inline();
        match heading {
            Some(l) => self.push_block(MdNode::Heading(l, content)),
            None => self.push_block(MdNode::Paragraph(content)),
        }
    }

    /// A code block ends.
    fn end_code_block(&mut self)
        ensures
            final(self).state() == (match old(self).state().code {
                Some(c) => push_block(MdState { code: None, ..old(self).state() }, MdNodeV::CodeBlock(c)),
                None => old(self).state(),
            }),
    {
        let mut taken: Option<Vec<char>> = None;
        std::mem::swap(&mut taken, &mut self.code);
        match taken {
            Some(c) => {
                self.push_block(MdNode::CodeBlock(from_chars(&c)));
            },
            None => {},
        }
    }

    /// An image ends.
    fn end_image(&mut self, forbid_media: bool)
        ensures
            final(self).state() == step_image_end(old(self).state(), forbid_media),
    {
        match self.img_start {
            Some(n) => {
                let ghost before = self.inline@;
                self.inline.truncate(n);
                self.img_start = None;
                proof {
                    if n <= before.len() {
                        lemma_md_nodes_subrange(before, 0, n as int);
                        assert(md_nodes_view(before).take(n as int) =~= md_nodes_view(before).subrange(0, n as int));
                        assert(before.subrange(0, n as int) =~= self.inline@);
                    }
                }
            },
            None => {},
        }
        let mut url: Option<Vec<char>> = None;
        std::mem::swap(&mut url, &mut self.img_url);
        match url {
            Some(u) => {
                if !forbid_media {
                    let mut title: Option<Vec<char>> = None;
                    std::mem::swap(&mut title, &mut self.img_title);
                    let t = match title {
                        Some(t) => t,
                        None => Vec::new(),
                    };
                    let src = proxy_url_exec(&u);
                    self.push_inline(MdNode::Image { src: from_chars(&src), title: from_chars(&t) });
                }
            },
            None => {
                self.img_url = None;
            },
        }
    }

    /// A link ends.
    fn end_link(&mut self)
        ensures
            final(self).state() == step_link_end(old(self).state()),
    {
        match self.link_start {
            Some(n) => {
                let ghost before = self.inline@;
                let children = if n <= self.inline.len() {
                    self.inline.split_off(n)
                } else {
                    Vec::new()
                };
                proof {
                    if n <= before.len() {
                        lemma_md_nodes_subrange(before, n as int, before.len() as int);
                        lemma_md_nodes_subrange(before, 0, n as int);
                        assert(md_nodes_view(before).skip(n as int) =~= md_nodes_view(before).subrange(
                            n as int,
                            before.len() as int,
                        ));
                        assert(md_nodes_view(before).take(n as int) =~= md_nodes_view(before).subrange(
                            0,
                            n as int,
                        ));
                    } else {
                        assert(md_nodes_view(children@) =~= Seq::<MdNodeV>::empty());
                    }
                }
                let mut title: Option<Vec<char>> = None;
                std::mem::swap(&mut title, &mut self.link_title);
                let t = match title {
                    Some(t) => t,
                    None => Vec::new(),
                };
                let mut url: Option<Vec<char>> = None;
                std::mem::swap(&mut url, &mut self.link_url);
                let node = match url {
                    Some(h) => MdNode::Link { href: from_chars(&h), title: from_chars(&t), children },
                    None => MdNode::Inert(children),
                };
                self.link_start = None;
                self.push_inline(node);
            },
            None => {},
        }
    }

    /// A list ends.
    fn end_list(&mut self)
        ensures
            final(self).state() == step_list_end(old(self).state()),
    {
        let ghost old_lists = self.lists@;
        let ghost old_types = self.list_types@;
        let items = match self.lists.pop() {
            Some(v) => v,
            None => Vec::new(),
        };
        let start = match self.list_types.pop() {
            Some(t) => t,
            None => None,
        };
        proof {
            if old_lists.len() > 0 {
                lemma_nested_drop_last(old_lists);
            } else {
                assert(md_nodes_view(items@) =~= Seq::<MdNodeV>::empty());
            }
        }
        self.push_block(MdNode::List(start, items));
    }

    /// A list item starts.
    fn start_item(&mut self)
        ensures
            final(self).state() == (MdState {
                inline: Seq::empty(),
                items: old(self).state().items.push(Seq::empty()),
                ..old(self).state()
            }),
    {
        self.clear_inline();
        let empty: Vec<MdNode> = Vec::new();
        proof {
            lemma_nested_push(self.items@, empty);
            assert(md_nodes_view(empty@) =~= Seq::<MdNodeV>::empty());
        }
        self.items.push(empty);
    }

    /// A list item ends.
    fn end_item(&mut self)
        ensures
            final(self).state() == step_item_end(old(self).state()),
    {
        if self.inline.len() > 0 && self.items.len() > 0 {
            let ghost old_items = self.items@;
            let mut cur = self.items.pop().unwrap();
            let mut content = self.take_inline();
            let ghost cur0 = cur@;
            let ghost content0 = content@;
            proof {
                lemma_nested_drop_last(old_items);
                lemma_md_nodes_append(cur@, content@);
            }
            cur.append(&mut content);
            let ghost rest = self.items@;
            self.items.push(cur);
            proof {
                assert(cur@ =~= cur0 + content0);
                assert(md_nodes_view(cur@) == nested_view(old_items).last() + old(self).state().inline);
                lemma_nested_push(rest, cur);
                assert(nested_view(self.items@) =~= nested_view(old_items).update(
                    old_items.len() - 1,
                    nested_view(old_items).last() + old(self).state().inline,
                ));
            }
        }
        let ghost mid_items = self.items@;
        let item_blocks = match self.items.pop() {
            Some(v) => v,
            None => Vec::new(),
        };
        proof {
            if mid_items.len() > 0 {
                lemma_nested_drop_last(mid_items);
            } else {
                assert(md_nodes_view(item_blocks@) =~= Seq::<MdNodeV>::empty());
            }
        }
        if self.lists.len() > 0 {
            let ghost old_lists = self.lists@;
            let mut cur = self.lists.pop().unwrap();
            let li = MdNode::Item(item_blocks);
            proof {
                lemma_nested_drop_last(old_lists);
                lemma_md_nodes_push(cur@, li);
            }
            cur.push(li);
            self.lists.push(cur);
            proof {
                lemma_nested_push(old_lists.drop_last(), cur);
                assert(nested_view(self.lists@) =~= nested_view(old_lists).update(
                    old_lists.len() - 1,
                    nested_view(old_lists).last().push(MdNodeV::Item(md_nodes_view(item_blocks@))),
                ));
            }
        }
    }

    /// A text event: appended to the code block being built, or split at
    /// double quotes into styled inline nodes.
    fn text(&mut self, t: &[char])
        ensures
            final(self).state() == (match old(self).state().code {
                Some(c) => MdState { code: Some(c + t@), ..old(self).state() },
                None => {
                    let r = split_quotes(t@, 0, 0, old(self).state().quote, old(self).state().emph, Seq::empty());
                    MdState { inline: old(self).state().inline + r.0, quote: r.1, ..old(self).state() }
                },
            }),
    {
        if self.code.is_some() {
            let mut c = match self.code.take() {
                Some(c) => c,
                None => Vec::new(),
            };
            push_all(&mut c, t);
            self.code = Some(c);
            return;
        }
        let (mut nodes, q) = split_quotes_exec(t, self.quote, self.emph);
        proof {
            lemma_md_nodes_append(self.inline@, nodes@);
        }
        self.inline.append(&mut nodes);
        self.quote = q;
    }

    /// Applies one event.
    pub fn step(&mut self, ev: &MdEvent, forbid_media: bool)
        ensures
            final(self).state() == md_step(old(self).state(), md_event_view(*ev), forbid_media),
    {
        match ev {
            MdEvent::ParagraphStart => self.clear_inline(),
            MdEvent::ParagraphEnd => self.end_inline_block(None),
            MdEvent::HeadingStart => self.clear_inline(),
            MdEvent::HeadingEnd(l) => self.end_inline_block(Some(*l)),
            MdEvent::EmphasisStart => {
                self.emph = true;
            },
            MdEvent::EmphasisEnd => {
                self.emph = false;
            },
            MdEvent::CodeBlockStart => {
                self.code = Some(Vec::new());
            },
            MdEvent::CodeBlockEnd => self.end_code_block(),
            MdEvent::ImageStart(u, t) => {
                self.img_url = Some(to_chars(u.as_str()));
                self.img_title = Some(to_chars(t.as_str()));
                self.img_start = Some(self.inline.len());
            },
            MdEvent::ImageEnd => self.end_image(forbid_media),
            MdEvent::LinkStart(u, t) => {
                let uc = to_chars(u.as_str());
                self.link_url = sanitize_url_chars(&uc);
                self.link_title = Some(to_chars(t.as_str()));
                self.link_start = Some(self.inline.len());
            },
            MdEvent::LinkEnd => self.end_link(),
            MdEvent::ListStart(n) => {
                let empty: Vec<MdNode> = Vec::new();
                proof {
                    lemma_nested_push(self.lists@, empty);
                    assert(md_nodes_view(empty@) =~= Seq::<MdNodeV>::empty());
                }
                self.lists.push(empty);
                self.list_types.push(*n);
            },
            MdEvent::ListEnd => self.end_list(),
            MdEvent::ItemStart => self.start_item(),
            MdEvent::ItemEnd => self.end_item(),
            MdEvent::Text(t) => {
                let tc = to_chars(t.as_str());
                self.text(&tc);
            },
            MdEvent::Code(c) => {
                let cc = to_chars(c.as_str());
                self.push_inline(MdNode::Code(from_chars(&cc)));
            },
            MdEvent::InlineMath(m) => {
                let mc = to_chars(m.as_str());
                self.push_inline(MdNode::Math { tex: from_chars(&mc), display: false });
            },
            MdEvent::DisplayMath(m) => {
                let mc = to_chars(m.as_str());
                self.push_block(MdNode::Math { tex: from_chars(&mc), display: true });
            },
            MdEvent::SoftBreak => self.push_inline(MdNode::Break),
            MdEvent::HardBreak => self.push_inline(MdNode::Break),
            MdEvent::Other => {},
        }
    }

    /// The finished blocks: leftover inline content becomes a last paragraph.
    pub fn finish(self) -> (r: Vec<MdNode>)
        ensures
            md_nodes_view(r@) == (if self.state().inline.len() > 0 {
                push_block(
                    MdState { inline: Seq::empty(), ..self.state() },
                    MdNodeV::Paragraph(self.state().inline),
                ).blocks
            } else {
                self.state().blocks
            }),
    {
        let mut b = self;
        if b.inline.len() > 0 {
            b.end_inline_block(None);
        }
        b.blocks
    }
}

/// The proxied address of an image (executable).
fn proxy_url_exec(u: &[char]) -> (r: Vec<char>)
    ensures
        r@ == proxy_url(u@),
{
    let url = from_chars(u);
    let enc = url_encode(url.as_str());
    let enc_chars = to_chars(enc.as_str());
    let mut full = vec!['/', 'a', 'p', 'i', '/', 'p', 'r', 'o', 'x', 'y', '?', 'u', 'r', 'l', '='];
    push_all(&mut full, &enc_chars);
    proof {
        assert(full@ =~= proxy_url(u@));
    }
    full
}

/// One styled stretch of text (executable `styled_segment`).
fn push_segment(acc: &mut Vec<MdNode>, t: &[char], from: usize, to: usize, quoted: bool, emph: bool)
    requires
        from <= to <= t@.len(),
    ensures
        md_nodes_view(final(acc)@) == md_nodes_view(old(acc)@) + styled_segment(
            t@.subrange(from as int, to as int),
            quoted,
            emph,
        ),
{
    if from == to {
        proof {
            assert(md_nodes_view(acc@) + Seq::<MdNodeV>::empty() =~= md_nodes_view(acc@));
        }
        return;
    }
    let s = from_chars(&slice_vec(t, from, to));
    let node = if quoted && emph {
        MdNode::QuoteEmph(s)
    } else if quoted {
        MdNode::Quote(s)
    } else if emph {
        MdNode::Emph(s)
    } else {
        MdNode::Text(s)
    };
    proof {
        lemma_md_nodes_push(acc@, node);
    }
    acc.push(node);
    proof {
        assert(md_nodes_view(old(acc)@).push(md_node_view(node)) =~= md_nodes_view(old(acc)@) + seq![
            md_node_view(node),
        ]);
    }
}

/// Splits text at double quotes into styled nodes (executable `split_quotes`).
fn split_quotes_exec(t: &[char], quote: bool, emph: bool) -> (r: (Vec<MdNode>, bool))
    ensures
        md_nodes_view(r.0@) == split_quotes(t@, 0, 0, quote, emph, Seq::empty()).0,
        r.1 == split_quotes(t@, 0, 0, quote, emph, Seq::empty()).1,
{
    let tl = t.len();
    let mut acc: Vec<MdNode> = Vec::new();
    let mut i: usize = 0;
    let mut start: usize = 0;
    let mut q = quote;
    proof {
        assert(md_nodes_view(acc@) =~= Seq::<MdNodeV>::empty());
    }
    while i < t.len()
        invariant
            tl == t@.len(),
            start <= i <= t@.len(),
            split_quotes(t@, 0, 0, quote, emph, Seq::empty()) == split_quotes(
                t@,
                i as int,
                start as int,
                q,
                emph,
                md_nodes_view(acc@),
            ),
        decreases t@.len() - i,
    {
        if t[i] == '"' {
            if !q {
                if i > start {
                    push_segment(&mut acc, t, start, i, false, emph);
                }
                q = true;
                start = i;
            } else {
                push_segment(&mut acc, t, start, i + 1, true, emph);
                q = false;
                start = i + 1;
            }
        }
        i = i + 1;
    }
    if start < t.len() {
        push_segment(&mut acc, t, start, t.len(), q, emph);
    }
    (acc, q)
}

/// The blocks a markdown event stream renders to.
pub fn blocks_from_events(events: &Vec<MdEvent>, forbid_media: bool) -> (r: Vec<MdNode>)
    ensures
        md_nodes_view(r@) == spec_blocks_from_events(md_events_view(events@), forbid_media),
{
    let mut b = MdBuilder::new();
    let mut i: usize = 0;
    while i < events.len()
        invariant
            i <= events@.len(),
            b.state() == md_fold(md_initial(), md_events_view(events@).take(i as int), forbid_media),
        decreases events@.len() - i,
    {
        b.step(&events[i], forbid_media);
        proof {
            let evs = md_events_view(events@);
            assert(evs.take(i + 1) =~= evs.take(i as int).push(evs[i as int]));
            lemma_md_fold_push(md_initial(), evs.take(i as int), evs[i as int], forbid_media);
        }
        i = i + 1;
    }
    proof {
        assert(md_events_view(events@).take(events@.len() as int) =~= md_events_view(events@));
    }
    b.finish()
}

// ---------------------------------------------------------------------------
// the whole message
// ---------------------------------------------------------------------------

/// The blocks the markdown `text` renders to, by the parser's event stream.
pub open spec fn spec_render_markdown_blocks(text: Seq<char>, forbid_media: bool) -> Seq<MdNodeV> {
    spec_blocks_from_events(markdown_event_stream(text), forbid_media)
}

/// Parses markdown `text` and renders its events to blocks.
pub fn render_markdown_blocks(text: &str, forbid_media: bool) -> (r: Vec<MdNode>)
    ensures
        md_nodes_view(r@) == spec_render_markdown_blocks(text@, forbid_media),
{
    let events = markdown_events(text);
    blocks_from_events(&events, forbid_media)
}

/// One block of a rendered message.
#[derive(Debug)]
pub enum RenderedBlock {
    /// The leading time/place header, shown as a pill.
    TimeHeader(String),
    /// A sanitized element taken from the raw text.
    Html(HtmlNode),
    /// A block of rendered markdown.
    Markdown(MdNode),
}

/// The mathematical form of a rendered block.
pub enum RenderedBlockV {
    TimeHeader(Seq<char>),
    Html(HtmlNodeV),
    Markdown(MdNodeV),
}

/// The view of a rendered block.
pub open spec fn rendered_view(b: RenderedBlock) -> RenderedBlockV {
    match b {
        RenderedBlock::TimeHeader(h) => RenderedBlockV::TimeHeader(h@),
        RenderedBlock::Html(n) => RenderedBlockV::Html(node_view(n)),
        RenderedBlock::Markdown(n) => RenderedBlockV::Markdown(md_node_view(n)),
    }
}

/// The views of a sequence of rendered blocks.
pub open spec fn rendered_views(v: Seq<RenderedBlock>) -> Seq<RenderedBlockV> {
    Seq::new(v.len(), |i: int| rendered_view(v[i]))
}

/// Markdown blocks as message blocks.
pub open spec fn as_markdown_blocks(bs: Seq<MdNodeV>) -> Seq<RenderedBlockV> {
    Seq::new(bs.len(), |i: int| RenderedBlockV::Markdown(bs[i]))
}

/// The blocks one segment contributes: a plain stretch is rendered as
/// markdown on its own, an element stands as it is.
pub open spec fn segment_blocks(seg: SegmentV, forbid_media: bool) -> Seq<RenderedBlockV> {
    match seg {
        SegmentV::Text(md) => as_markdown_blocks(spec_render_markdown_blocks(md, forbid_media)),
        SegmentV::Html(n) => seq![RenderedBlockV::Html(n)],
    }
}

/// The blocks of a sequence of segments, in order.
pub open spec fn segments_blocks(segs: Seq<SegmentV>, forbid_media: bool) -> Seq<RenderedBlockV>
    decreases segs.len(),
{
    if segs.len() == 0 {
        Seq::empty()
    } else {
        segments_blocks(segs.drop_last(), forbid_media) + segment_blocks(segs.last(), forbid_media)
    }
}

/// A message rendered: macros substituted, the plot-momentum block
/// removed, a leading time/place header split off as its own block, then
/// each top-level element sanitized and every stretch between rendered as
/// markdown.
pub open spec fn spec_render_markdown(
    text: Seq<char>,
    char_name: Seq<char>,
    user_name: Seq<char>,
    forbid_media: bool,
) -> Seq<RenderedBlockV> {
    let stripped = spec_strip_plot_momentum(spec_substitute_macros(text, char_name, user_name));
    match spec_extract_leading_time_header(stripped) {
        Some((header, rest)) => seq![RenderedBlockV::TimeHeader(header)] + segments_blocks(
            spec_extract_html_segments(rest, forbid_media),
            forbid_media,
        ),
        None => segments_blocks(spec_extract_html_segments(stripped, forbid_media), forbid_media),
    }
}

/// Moves markdown blocks to the end of a message's blocks.
fn append_markdown(out: &mut Vec<RenderedBlock>, nodes: Vec<MdNode>)
    ensures
        rendered_views(final(out)@) == rendered_views(old(out)@) + as_markdown_blocks(
            md_nodes_view(nodes@),
        ),
{
    let ghost all = nodes@;
    let ghost start = out@;
    let mut rest = nodes;
    let mut k: usize = 0;
    let n = rest.len();
    while rest.len() > 0
        invariant
            k <= n,
            n == all.len(),
            rest@ == all.skip(k as int),
            rendered_views(out@) == rendered_views(start) + as_markdown_blocks(
                md_nodes_view(all.take(k as int)),
            ),
        decreases rest@.len(),
    {
        let node = rest.remove(0);
        proof {
            assert(node == all[k as int]);
            assert(all.take(k + 1) =~= all.take(k as int).push(node));
            assert(rest@ =~= all.skip(k + 1));
        }
        let ghost before = out@;
        out.push(RenderedBlock::Markdown(node));
        proof {
            assert(rendered_views(out@) =~= rendered_views(before).push(
                RenderedBlockV::Markdown(md_node_view(node)),
            ));
            assert(md_nodes_view(all.take(k + 1)) =~= md_nodes_view(all.take(k as int)).push(
                md_node_view(node),
            ));
            assert(as_markdown_blocks(md_nodes_view(all.take(k + 1))) =~= as_markdown_blocks(
                md_nodes_view(all.take(k as int)),
            ).push(RenderedBlockV::Markdown(md_node_view(node))));
            assert(rendered_views(out@) =~= rendered_views(start) + as_markdown_blocks(
                md_nodes_view(all.take(k + 1)),
            ));
        }
        k = k + 1;
    }
    proof {
        assert(all.take(k as int) =~= all);
    }
}

/// Renders each segment, in order, onto the end of a message's blocks.
fn append_segments(out: &mut Vec<RenderedBlock>, segs: Vec<TextOrHtml>, forbid_media: bool)
    ensures
        rendered_views(final(out)@) == rendered_views(old(out)@) + segments_blocks(
            segments_view(segs@),
            forbid_media,
        ),
{
    let ghost all = segs@;
    let ghost start = out@;
    let mut rest = segs;
    let mut k: usize = 0;
    let n = rest.len();
    proof {
        assert(segments_view(all.take(0)) =~= Seq::<SegmentV>::empty());
        assert(rendered_views(start) + Seq::<RenderedBlockV>::empty() =~= rendered_views(start));
    }
    while rest.len() > 0
        invariant
            k <= n,
            n == all.len(),
            rest@ == all.skip(k as int),
            rendered_views(out@) == rendered_views(start) + segments_blocks(
                segments_view(all.take(k as int)),
                forbid_media,
            ),
        decreases rest@.len(),
    {
        let seg = rest.remove(0);
        let ghost before = out@;
        proof {
            assert(seg == all[k as int]);
            assert(rest@ =~= all.skip(k + 1));
            assert(all.take(k + 1) =~= all.take(k as int).push(seg));
            assert(segments_view(all.take(k + 1)) =~= segments_view(all.take(k as int)).push(
                segment_view(seg),
            ));
            assert(segments_view(all.take(k + 1)).drop_last() =~= segments_view(all.take(k as int)));
        }
        match seg {
            TextOrHtml::Text(md) => {
                let nodes = render_markdown_blocks(md.as_str(), forbid_media);
                append_markdown(out, nodes);
            },
            TextOrHtml::Html(node) => {
                out.push(RenderedBlock::Html(node));
                proof {
                    assert(rendered_views(out@) =~= rendered_views(before).push(
                        RenderedBlockV::Html(node_view(node)),
                    ));
                }
            },
        }
        proof {
            assert(rendered_views(out@) =~= rendered_views(start) + segments_blocks(
                segments_view(all.take(k + 1)),
                forbid_media,
            ));
        }
        k = k + 1;
    }
    proof {
        assert(all.take(k as int) =~= all);
    }
}

/// Renders a chat message: `{{char}}`/`{{user}}` macros, the hidden
/// plot-momentum block dropped, the leading time/place header, sanitized
/// inline HTML elements, and markdown for everything else.
pub fn render_markdown(text: &str, char_name: &str, user_name: &str, forbid_media: bool) -> (r: Vec<
    RenderedBlock,
>)
    ensures
        rendered_views(r@) == spec_render_markdown(text@, char_name@, user_name@, forbid_media),
{
    let substituted = substitute_macros(text, char_name, user_name);
    let stripped = strip_plot_momentum(substituted.as_str());
    let mut blocks: Vec<RenderedBlock> = Vec::new();
    proof {
        assert(rendered_views(blocks@) =~= Seq::<RenderedBlockV>::empty());
    }
    let body = match extract_leading_time_header(stripped.as_str()) {
        Some((header, rest)) => {
            blocks.push(RenderedBlock::TimeHeader(header));
            proof {
                assert(rendered_views(blocks@) =~= seq![RenderedBlockV::TimeHeader(header@)]);
            }
            rest
        },
        None => stripped,
    };
    let segs = extract_html_segments(body.as_str(), forbid_media);
    append_segments(&mut blocks, segs, forbid_media);
    proof {
        assert(Seq::<RenderedBlockV>::empty() + segments_blocks(
            spec_extract_html_segments(body@, forbid_media),
            forbid_media,
        ) =~= segments_blocks(spec_extract_html_segments(body@, forbid_media), forbid_media));
    }
    blocks
}

// ---------------------------------------------------------------------------
// math without the typesetter
// ---------------------------------------------------------------------------

/// The markup shown for math when the typesetter is unavailable: the TeX
/// source, escaped, in a centred `div` (display) or a `span` (inline).
pub open spec fn spec_math_fallback_html(tex: Seq<char>, display: bool) -> Seq<char> {
    if display {
        "<div class=\"math math-display\" style=\"text-align: center; margin: 1em 0;\">"@
            + spec_encode_text(tex) + "</div>"@
    } else {
        "<span class=\"math math-inline\">"@ + spec_encode_text(tex) + "</span>"@
    }
}

/// The escaped-source markup for math the typesetter could not render.
pub fn math_fallback_html(tex: &str, display: bool) -> (r: String)
    ensures
        r@ == spec_math_fallback_html(tex@, display),
{
    let escaped = to_chars(html_encode_text(tex).as_str());
    let (open, close) = if display {
        (
            to_chars("<div class=\"math math-display\" style=\"text-align: center; margin: 1em 0;\">"),
            to_chars("</div>"),
        )
    } else {
        (to_chars("<span class=\"math math-inline\">"), to_chars("</span>"))
    };
    let mut out = open;
    push_all(&mut out, &escaped);
    push_all(&mut out, &close);
    from_chars(&out)
}

// ---------------------------------------------------------------------------
// what rendering guarantees
// ---------------------------------------------------------------------------

/// A rendered node whose links all go to `http(s)` addresses and which,
/// when media is forbidden, holds no image.
pub open spec fn node_ok(n: MdNodeV, forbid_media: bool) -> bool
    decreases n,
{
    match n {
        MdNodeV::Paragraph(c) => nodes_ok(c, forbid_media),
        MdNodeV::Heading(_, c) => nodes_ok(c, forbid_media),
        MdNodeV::List(_, c) => nodes_ok(c, forbid_media),
        MdNodeV::Item(c) => nodes_ok(c, forbid_media),
        MdNodeV::Inert(c) => nodes_ok(c, forbid_media),
        MdNodeV::Link { href, title: _, children } => safe_href(href) && nodes_ok(children, forbid_media),
        MdNodeV::Image { .. } => !forbid_media,
        _ => true,
    }
}

/// Every node of `v` is `node_ok`.
pub open spec fn nodes_ok(v: Seq<MdNodeV>, forbid_media: bool) -> bool
    decreases v,
{
    if v.len() == 0 {
        true
    } else {
        proof {
            assert(decreases_to!(v => v.subrange(0, v.len() - 1)));
        }
        nodes_ok(v.subrange(0, v.len() - 1), forbid_media) && node_ok(v[v.len() - 1], forbid_media)
    }
}

/// `nodes_ok` holds exactly when every node is `node_ok`.
pub proof fn lemma_nodes_ok(v: Seq<MdNodeV>, fm: bool)
    ensures
        nodes_ok(v, fm) <==> forall|i: int| 0 <= i < v.len() ==> #[trigger] node_ok(v[i], fm),
    decreases v.len(),
{
    if v.len() > 0 {
        let w = v.subrange(0, v.len() - 1);
        lemma_nodes_ok(w, fm);
        assert(nodes_ok(v, fm) == (nodes_ok(w, fm) && node_ok(v[v.len() - 1], fm)));
        if forall|i: int| 0 <= i < v.len() ==> #[trigger] node_ok(v[i], fm) {
            assert forall|i: int| 0 <= i < w.len() implies #[trigger] node_ok(w[i], fm) by {
                assert(w[i] == v[i]);
            }
        }
        if nodes_ok(v, fm) {
            assert forall|i: int| 0 <= i < v.len() implies #[trigger] node_ok(v[i], fm) by {
                if i < w.len() {
                    assert(w[i] == v[i]);
                }
            }
        }
    }
}

/// Every stack entry holds only `node_ok` nodes.
pub open spec fn stack_ok(v: Seq<Seq<MdNodeV>>, forbid_media: bool) -> bool {
    forall|i: int| 0 <= i < v.len() ==> #[trigger] nodes_ok(v[i], forbid_media)
}

/// The fold's state holds only `node_ok` nodes, and a pending link's
/// address is an `http(s)` one.
pub open spec fn state_ok(st: MdState, forbid_media: bool) -> bool {
    &&& nodes_ok(st.inline, forbid_media)
    &&& stack_ok(st.lists, forbid_media)
    &&& stack_ok(st.items, forbid_media)
    &&& nodes_ok(st.blocks, forbid_media)
    &&& (st.link_url matches Some(h) ==> safe_href(h))
}

proof fn lemma_nodes_ok_push(v: Seq<MdNodeV>, n: MdNodeV, fm: bool)
    requires
        nodes_ok(v, fm),
        node_ok(n, fm),
    ensures
        nodes_ok(v.push(n), fm),
{
    lemma_nodes_ok(v, fm);
    lemma_nodes_ok(v.push(n), fm);
    assert forall|i: int| 0 <= i < v.push(n).len() implies #[trigger] node_ok(v.push(n)[i], fm) by {
        if i < v.len() {
            assert(v.push(n)[i] == v[i]);
            assert(node_ok(v[i], fm));
        } else {
            assert(v.push(n)[i] == n);
        }
    }
}

proof fn lemma_nodes_ok_concat(a: Seq<MdNodeV>, b: Seq<MdNodeV>, fm: bool)
    requires
        nodes_ok(a, fm),
        nodes_ok(b, fm),
    ensures
        nodes_ok(a + b, fm),
{
    lemma_nodes_ok(a, fm);
    lemma_nodes_ok(b, fm);
    lemma_nodes_ok(a + b, fm);
    assert forall|i: int| 0 <= i < (a + b).len() implies #[trigger] node_ok((a + b)[i], fm) by {
        if i < a.len() {
            assert((a + b)[i] == a[i]);
        } else {
            assert((a + b)[i] == b[i - a.len()]);
        }
    }
}

proof fn lemma_nodes_ok_subrange(a: Seq<MdNodeV>, i: int, j: int, fm: bool)
    requires
        nodes_ok(a, fm),
        0 <= i <= j <= a.len(),
    ensures
        nodes_ok(a.subrange(i, j), fm),
{
    lemma_nodes_ok(a, fm);
    lemma_nodes_ok(a.subrange(i, j), fm);
    assert forall|k: int| 0 <= k < a.subrange(i, j).len() implies #[trigger] node_ok(
        a.subrange(i, j)[k],
        fm,
    ) by {
        assert(a.subrange(i, j)[k] == a[i + k]);
    }
}

proof fn lemma_stack_push_last(v: Seq<Seq<MdNodeV>>, x: Seq<MdNodeV>, fm: bool)
    requires
        stack_ok(v, fm),
        nodes_ok(x, fm),
    ensures
        stack_ok(v.push(x), fm),
        v.len() > 0 ==> stack_ok(v.update(v.len() - 1, x), fm),
        v.len() > 0 ==> stack_ok(v.drop_last(), fm),
        v.len() > 0 ==> nodes_ok(v.last(), fm),
{
    assert forall|i: int| 0 <= i < v.push(x).len() implies #[trigger] nodes_ok(v.push(x)[i], fm) by {
        if i < v.len() {
            assert(v.push(x)[i] == v[i]);
        }
    }
    if v.len() > 0 {
        assert(nodes_ok(v[v.len() - 1], fm));
        assert forall|i: int| 0 <= i < v.drop_last().len() implies #[trigger] nodes_ok(v.drop_last()[i], fm) by {
            assert(v.drop_last()[i] == v[i]);
        }
    }
}

proof fn lemma_push_block_ok(st: MdState, n: MdNodeV, fm: bool)
    requires
        state_ok(st, fm),
        node_ok(n, fm),
    ensures
        state_ok(push_block(st, n), fm),
{
    if st.items.len() > 0 {
        lemma_stack_push_last(st.items, st.items.last(), fm);
        lemma_nodes_ok_push(st.items.last(), n, fm);
        lemma_stack_push_last(st.items, st.items.last().push(n), fm);
    } else {
        lemma_nodes_ok_push(st.blocks, n, fm);
    }
}

proof fn lemma_styled_segment_ok(s: Seq<char>, q: bool, e: bool, fm: bool)
    ensures
        nodes_ok(styled_segment(s, q, e), fm),
{
    let v = styled_segment(s, q, e);
    lemma_nodes_ok(v, fm);
    assert forall|i: int| 0 <= i < v.len() implies #[trigger] node_ok(v[i], fm) by {}
}

proof fn lemma_split_quotes_ok(t: Seq<char>, i: int, start: int, q: bool, e: bool, acc: Seq<MdNodeV>, fm: bool)
    requires
        nodes_ok(acc, fm),
    ensures
        nodes_ok(split_quotes(t, i, start, q, e, acc).0, fm),
    decreases t.len() - i,
{
    if i < 0 || i >= t.len() || start < 0 || start > i {
        if 0 <= start < t.len() {
            lemma_styled_segment_ok(t.subrange(start, t.len() as int), q, e, fm);
            lemma_nodes_ok_concat(acc, styled_segment(t.subrange(start, t.len() as int), q, e), fm);
        }
    } else if t[i] == '"' {
        if !q {
            let acc1 = if i > start {
                acc + styled_segment(t.subrange(start, i), false, e)
            } else {
                acc
            };
            lemma_styled_segment_ok(t.subrange(start, i), false, e, fm);
            lemma_nodes_ok_concat(acc, styled_segment(t.subrange(start, i), false, e), fm);
            lemma_split_quotes_ok(t, i + 1, i, true, e, acc1, fm);
        } else {
            lemma_styled_segment_ok(t.subrange(start, i + 1), true, e, fm);
            lemma_nodes_ok_concat(acc, styled_segment(t.subrange(start, i + 1), true, e), fm);
            lemma_split_quotes_ok(
                t,
                i + 1,
                i + 1,
                false,
                e,
                acc + styled_segment(t.subrange(start, i + 1), true, e),
                fm,
            );
        }
    } else {
        lemma_split_quotes_ok(t, i + 1, start, q, e, acc, fm);
    }
}

proof fn lemma_truncate_ok(v: Seq<MdNodeV>, n: int, fm: bool)
    requires
        nodes_ok(v, fm),
    ensures
        nodes_ok(truncate(v, n), fm),
{
    if 0 <= n <= v.len() {
        lemma_nodes_ok_subrange(v, 0, n, fm);
        assert(v.take(n) =~= v.subrange(0, n));
    }
}

proof fn lemma_step_ok(st: MdState, ev: MdEventV, fm: bool)
    requires
        state_ok(st, fm),
    ensures
        state_ok(md_step(st, ev, fm), fm),
{
    let empty = Seq::<MdNodeV>::empty();
    assert(nodes_ok(empty, fm));
    match ev {
        MdEventV::ParagraphEnd => {
            lemma_push_block_ok(MdState { inline: empty, ..st }, MdNodeV::Paragraph(st.inline), fm);
        },
        MdEventV::HeadingEnd(l) => {
            lemma_push_block_ok(MdState { inline: empty, ..st }, MdNodeV::Heading(l, st.inline), fm);
        },
        MdEventV::CodeBlockEnd => {
            match st.code {
                Some(c) => lemma_push_block_ok(MdState { code: None, ..st }, MdNodeV::CodeBlock(c), fm),
                None => {},
            }
        },
        MdEventV::ImageEnd => {
            let s1 = match st.img_start {
                Some(n) => MdState { inline: truncate(st.inline, n), img_start: None, ..st },
                None => st,
            };
            match st.img_start {
                Some(n) => lemma_truncate_ok(st.inline, n, fm),
                None => {},
            }
            match s1.img_url {
                Some(u) => {
                    if !fm {
                        let title = match s1.img_title {
                            Some(t) => t,
                            None => Seq::empty(),
                        };
                        lemma_nodes_ok_push(s1.inline, MdNodeV::Image { src: proxy_url(u), title }, fm);
                    }
                },
                None => {},
            }
        },
        MdEventV::LinkStart(u, t) => {},
        MdEventV::LinkEnd => {
            match st.link_start {
                Some(n) => {
                    let children = if 0 <= n <= st.inline.len() {
                        st.inline.skip(n)
                    } else {
                        Seq::empty()
                    };
                    if 0 <= n <= st.inline.len() {
                        lemma_nodes_ok_subrange(st.inline, n, st.inline.len() as int, fm);
                        assert(st.inline.skip(n) =~= st.inline.subrange(n, st.inline.len() as int));
                    }
                    lemma_truncate_ok(st.inline, n, fm);
                    let title = match st.link_title {
                        Some(t) => t,
                        None => Seq::empty(),
                    };
                    let node = match st.link_url {
                        Some(h) => MdNodeV::Link { href: h, title, children },
                        None => MdNodeV::Inert(children),
                    };
                    assert(node_ok(node, fm));
                    lemma_nodes_ok_push(truncate(st.inline, n), node, fm);
                },
                None => {},
            }
        },
        MdEventV::ListStart(n) => {
            lemma_stack_push_last(st.lists, empty, fm);
        },
        MdEventV::ListEnd => {
            let items = if st.lists.len() > 0 {
                st.lists.last()
            } else {
                Seq::empty()
            };
            let start = if st.list_types.len() > 0 {
                st.list_types.last()
            } else {
                None
            };
            lemma_stack_push_last(st.lists, empty, fm);
            let s1 = MdState {
                lists: if st.lists.len() > 0 {
                    st.lists.drop_last()
                } else {
                    st.lists
                },
                list_types: if st.list_types.len() > 0 {
                    st.list_types.drop_last()
                } else {
                    st.list_types
                },
                ..st
            };
            assert(node_ok(MdNodeV::List(start, items), fm));
            lemma_push_block_ok(s1, MdNodeV::List(start, items), fm);
        },
        MdEventV::ItemStart => {
            lemma_stack_push_last(st.items, empty, fm);
        },
        MdEventV::ItemEnd => {
            let s1 = if st.inline.len() > 0 && st.items.len() > 0 {
                MdState {
                    items: st.items.update(st.items.len() - 1, st.items.last() + st.inline),
                    inline: Seq::empty(),
                    ..st
                }
            } else {
                st
            };
            if st.inline.len() > 0 && st.items.len() > 0 {
                lemma_stack_push_last(st.items, empty, fm);
                lemma_nodes_ok_concat(st.items.last(), st.inline, fm);
                lemma_stack_push_last(st.items, st.items.last() + st.inline, fm);
            }
            assert(state_ok(s1, fm));
            let item_blocks = if s1.items.len() > 0 {
                s1.items.last()
            } else {
                Seq::empty()
            };
            lemma_stack_push_last(s1.items, empty, fm);
            let s2 = MdState {
                items: if s1.items.len() > 0 {
                    s1.items.drop_last()
                } else {
                    s1.items
                },
                ..s1
            };
            assert(state_ok(s2, fm));
            if s2.lists.len() > 0 {
                lemma_stack_push_last(s2.lists, empty, fm);
                assert(node_ok(MdNodeV::Item(item_blocks), fm));
                lemma_nodes_ok_push(s2.lists.last(), MdNodeV::Item(item_blocks), fm);
                lemma_stack_push_last(s2.lists, s2.lists.last().push(MdNodeV::Item(item_blocks)), fm);
            }
        },
        MdEventV::Text(t) => {
            match st.code {
                Some(c) => {},
                None => {
                    lemma_split_quotes_ok(t, 0, 0, st.quote, st.emph, Seq::empty(), fm);
                    let r = split_quotes(t, 0, 0, st.quote, st.emph, Seq::empty());
                    lemma_nodes_ok_concat(st.inline, r.0, fm);
                },
            }
        },
        MdEventV::Code(c) => {
            lemma_nodes_ok_push(st.inline, MdNodeV::Code(c), fm);
        },
        MdEventV::InlineMath(m) => {
            lemma_nodes_ok_push(st.inline, MdNodeV::Math { tex: m, display: false }, fm);
        },
        MdEventV::DisplayMath(m) => {
            lemma_push_block_ok(st, MdNodeV::Math { tex: m, display: true }, fm);
        },
        MdEventV::SoftBreak => {
            lemma_nodes_ok_push(st.inline, MdNodeV::Break, fm);
        },
        MdEventV::HardBreak => {
            lemma_nodes_ok_push(st.inline, MdNodeV::Break, fm);
        },
        _ => {},
    }
}

proof fn lemma_fold_ok(st: MdState, evs: Seq<MdEventV>, fm: bool)
    requires
        state_ok(st, fm),
    ensures
        state_ok(md_fold(st, evs, fm), fm),
    decreases evs.len(),
{
    if evs.len() > 0 {
        lemma_step_ok(st, evs[0], fm);
        lemma_fold_ok(md_step(st, evs[0], fm), evs.drop_first(), fm);
    }
}

/// Whatever events the parser produces, rendering links only to `http://`
/// and `https://` addresses (a `javascript:` or relative link shows its
/// text, not a link), and shows no image when media is forbidden.
pub proof fn law_rendered_links_are_safe(evs: Seq<MdEventV>, forbid_media: bool)
    ensures
        nodes_ok(spec_blocks_from_events(evs, forbid_media), forbid_media),
{
    let empty = Seq::<MdNodeV>::empty();
    assert(nodes_ok(empty, forbid_media));
    assert(stack_ok(Seq::<Seq<MdNodeV>>::empty(), forbid_media));
    assert(state_ok(md_initial(), forbid_media));
    lemma_fold_ok(md_initial(), evs, forbid_media);
    let st = md_fold(md_initial(), evs, forbid_media);
    if st.inline.len() > 0 {
        lemma_push_block_ok(MdState { inline: empty, ..st }, MdNodeV::Paragraph(st.inline), forbid_media);
    }
}

/// Every markdown block of `v` is `node_ok` and every element `html_node_ok`.
pub open spec fn message_blocks_ok(v: Seq<RenderedBlockV>, forbid_media: bool) -> bool {
    forall|i: int|
        0 <= i < v.len() ==> match #[trigger] v[i] {
            RenderedBlockV::Markdown(n) => node_ok(n, forbid_media),
            RenderedBlockV::Html(n) => crate::safe_html::html_node_ok(n, forbid_media),
            _ => true,
        }
}

proof fn lemma_segments_blocks_ok(segs: Seq<SegmentV>, fm: bool)
    requires
        crate::safe_html::segments_ok(segs, fm),
    ensures
        message_blocks_ok(segments_blocks(segs, fm), fm),
    decreases segs.len(),
{
    if segs.len() > 0 {
        assert(crate::safe_html::segments_ok(segs.drop_last(), fm)) by {
            assert forall|i: int| 0 <= i < segs.drop_last().len() implies match #[trigger] segs.drop_last()[i] {
                SegmentV::Html(n) => crate::safe_html::html_node_ok(n, fm),
                SegmentV::Text(_) => true,
            } by {
                assert(segs.drop_last()[i] == segs[i]);
            }
        }
        lemma_segments_blocks_ok(segs.drop_last(), fm);
        assert(match segs[segs.len() - 1] {
            SegmentV::Html(n) => crate::safe_html::html_node_ok(n, fm),
            SegmentV::Text(_) => true,
        });
        let a = segments_blocks(segs.drop_last(), fm);
        let b = segment_blocks(segs.last(), fm);
        match segs.last() {
            SegmentV::Text(md) => {
                let nodes = spec_render_markdown_blocks(md, fm);
                law_rendered_links_are_safe(markdown_event_stream(md), fm);
                lemma_nodes_ok(nodes, fm);
            },
            SegmentV::Html(_) => {},
        }
        assert forall|i: int| 0 <= i < (a + b).len() implies match #[trigger] (a + b)[i] {
            RenderedBlockV::Markdown(n) => node_ok(n, fm),
            RenderedBlockV::Html(n) => crate::safe_html::html_node_ok(n, fm),
            _ => true,
        } by {
            if i < a.len() {
                assert((a + b)[i] == a[i]);
            } else {
                assert((a + b)[i] == b[i - a.len()]);
            }
        }
    }
}

/// In a whole rendered message, every block — markdown or raw HTML —
/// links only to `http(s)` addresses and, with media forbidden, shows no
/// image.
pub proof fn law_message_links_are_safe(
    text: Seq<char>,
    char_name: Seq<char>,
    user_name: Seq<char>,
    forbid_media: bool,
)
    ensures
        message_blocks_ok(spec_render_markdown(text, char_name, user_name, forbid_media), forbid_media),
{
    let stripped = spec_strip_plot_momentum(spec_substitute_macros(text, char_name, user_name));
    match spec_extract_leading_time_header(stripped) {
        Some((header, rest)) => {
            let segs = spec_extract_html_segments(rest, forbid_media);
            crate::safe_html::law_extracted_html_is_safe(rest, forbid_media);
            lemma_segments_blocks_ok(segs, forbid_media);
            let a = seq![RenderedBlockV::TimeHeader(header)];
            let b = segments_blocks(segs, forbid_media);
            assert forall|i: int| 0 <= i < (a + b).len() implies match #[trigger] (a + b)[i] {
                RenderedBlockV::Markdown(n) => node_ok(n, forbid_media),
                RenderedBlockV::Html(n) => crate::safe_html::html_node_ok(n, forbid_media),
                _ => true,
            } by {
                if i >= 1 {
                    assert((a + b)[i] == b[i - 1]);
                }
            }
        },
        None => {
            crate::safe_html::law_extracted_html_is_safe(stripped, forbid_media);
            lemma_segments_blocks_ok(spec_extract_html_segments(stripped, forbid_media), forbid_media);
        },
    }
}

} // verus!
