//! Splitting a model reply into its visible text and its `<think>` reasoning.

use vstd::prelude::*;
use crate::text::{
    contains, find, find_from_exec, from_chars, lemma_find_from, lemma_find_from_shift,
    lemma_find_from_unique, matches_at, push_all, push_range, slice_vec, to_chars,
};

verus! {

/// The opening reasoning tag.
pub open spec fn open_tag() -> Seq<char> {
    seq!['<', 't', 'h', 'i', 'n', 'k', '>']
}

/// The closing reasoning tag.
pub open spec fn close_tag() -> Seq<char> {
    seq!['<', '/', 't', 'h', 'i', 'n', 'k', '>']
}

/// `parts` joined with `sep` between consecutive parts (std's `[String]::join`).
pub open spec fn join(parts: Seq<Seq<char>>, sep: Seq<char>) -> Seq<char>
    decreases parts.len(),
{
    if parts.len() == 0 {
        Seq::empty()
    } else if parts.len() == 1 {
        parts[0]
    } else {
        parts[0] + sep + join(parts.drop_first(), sep)
    }
}

/// The visible text and the thought blocks of `r`, scanning left to right:
/// text before an opening tag is visible, text from an opening tag to the
/// next closing tag is one thought, an opening tag with no closing tag makes
/// the whole rest a thought, and a closing tag with no opening tag before
/// it makes everything before it a thought and everything after it visible.
pub open spec fn think_parts(r: Seq<char>) -> (Seq<char>, Seq<Seq<char>>)
    decreases r.len(),
{
    match find(r, open_tag()) {
        None => match find(r, close_tag()) {
            Some(c) => (r.skip(c + close_tag().len()), seq![r.take(c)]),
            None => (r, Seq::empty()),
        },
        Some(o) => {
            let after = r.skip(o + open_tag().len());
            match find(after, close_tag()) {
                Some(c) => if 0 <= o && 0 <= c && c + close_tag().len() <= after.len() && o
                    + open_tag().len() <= r.len() {
                    let rest = think_parts(after.skip(c + close_tag().len()));
                    (r.take(o) + rest.0, seq![after.take(c)] + rest.1)
                } else {
                    (r, Seq::empty())
                },
                None => (r.take(o), seq![after]),
            }
        },
    }
}

/// What `extract_thinking` returns for `text`: the visible text, and the
/// thought blocks joined by a blank line, or `None` when there are none.
pub open spec fn spec_extract_thinking(text: Seq<char>) -> (Seq<char>, Option<Seq<char>>) {
    let p = think_parts(text);
    if p.1.len() == 0 {
        (p.0, None)
    } else {
        (p.0, Some(join(p.1, seq!['\n', '\n'])))
    }
}

/// `parts` joined with `sep` (executable).
pub fn join_exec(parts: &Vec<Vec<char>>, sep: &[char]) -> (r: Vec<char>)
    ensures
        r@ == join(parts@.map_values(|p: Vec<char>| p@), sep@),
{
    let ghost views = parts@.map_values(|p: Vec<char>| p@);
    let mut out: Vec<char> = Vec::new();
    if parts.len() == 0 {
        return out;
    }
    let n = parts.len();
    let mut i: usize = n - 1;
    push_all(&mut out, &parts[i]);
    proof {
        assert(views.skip(i as int) =~= seq![views[i as int]]);
    }
    while i > 0
        invariant
            n == parts@.len(),
            views == parts@.map_values(|p: Vec<char>| p@),
            0 <= i < n,
            out@ == join(views.skip(i as int), sep@),
        decreases i,
    {
        let ghost prev = out@;
        let mut next: Vec<char> = Vec::new();
        push_all(&mut next, &parts[i - 1]);
        push_all(&mut next, sep);
        push_all(&mut next, &out);
        out = next;
        proof {
            assert(views.skip(i - 1).drop_first() =~= views.skip(i as int));
            assert(views.skip(i - 1)[0] == parts@[i - 1]@);
        }
        i = i - 1;
    }
    proof {
        assert(views.skip(0) =~= views);
    }
    out
}

/// Splits `text` into its visible part and its reasoning.
///
/// Scans for `<think>…</think>` blocks: everything outside them is visible,
/// everything inside is a thought.  An opening tag with no closing tag
/// (a stream still mid-thought) makes the rest of the text a thought; a
/// closing tag with no opening tag before it (a stream whose opening tag
/// was lost) makes everything before it a thought.  Several thoughts are
/// joined by a blank line; with none, the second component is `None`.
pub fn extract_thinking(text: &str) -> (r: (String, Option<String>))
    ensures
        r.0@ == spec_extract_thinking(text@).0,
        match r.1 {
            Some(t) => spec_extract_thinking(text@).1 == Some(t@),
            None => spec_extract_thinking(text@).1 == None::<Seq<char>>,
        },
{
    let s = to_chars(text);
    let open = ['<', 't', 'h', 'i', 'n', 'k', '>'];
    let close = ['<', '/', 't', 'h', 'i', 'n', 'k', '>'];
    proof {
        assert(open@ =~= open_tag());
        assert(close@ =~= close_tag());
        assert(open_tag().len() == 7);
        assert(close_tag().len() == 8);
    }
    let slen = s.len();
    let mut visible: Vec<char> = Vec::new();
    let mut thoughts: Vec<Vec<char>> = Vec::new();
    let mut pos: usize = 0;
    proof {
        assert(s@.skip(0) =~= s@);
        assert(Seq::<char>::empty() + think_parts(s@).0 =~= think_parts(s@).0);
        assert(thoughts@.map_values(|p: Vec<char>| p@) + think_parts(s@).1 =~= think_parts(s@).1);
    }
    loop
        invariant_except_break
            visible@ + think_parts(s@.skip(pos as int)).0 == think_parts(s@).0,
            thoughts@.map_values(|p: Vec<char>| p@) + think_parts(s@.skip(pos as int)).1
                == think_parts(s@).1,
        invariant
            pos <= s@.len(),
            open@ == open_tag(),
            close@ == close_tag(),
            open@.len() == 7,
            close@.len() == 8,
            slen == s@.len(),
        ensures
            visible@ == think_parts(s@).0,
            thoughts@.map_values(|p: Vec<char>| p@) == think_parts(s@).1,
        decreases s@.len() - pos,
    {
        let ghost rem = s@.skip(pos as int);
        let ghost tv = thoughts@.map_values(|p: Vec<char>| p@);
        let found_open = find_from_exec(&s, &open, pos);
        proof {
            lemma_find_from_shift(s@, open@, pos as int);
        }
        match found_open {
            None => {
                let found_close = find_from_exec(&s, &close, pos);
                proof {
                    lemma_find_from_shift(s@, close@, pos as int);
                    lemma_find_from(s@, close@, pos as int);
                }
                match found_close {
                    Some(c) => {
                        assert(c + close@.len() <= s@.len());
                        let thought = slice_vec(&s, pos, c);
                        thoughts.push(thought);
                        push_range(&mut visible, &s, c + 8, s.len());
                        proof {
                            let k = c - pos;
                            assert(rem.take(k) =~= s@.subrange(pos as int, c as int));
                            assert(rem.skip(k + 8) =~= s@.subrange(c + 8, s@.len() as int));
                            assert(thoughts@.map_values(|p: Vec<char>| p@) =~= tv.push(
                                rem.take(k),
                            ));
                            assert(tv + seq![rem.take(k)] =~= tv.push(rem.take(k)));
                            assert(think_parts(rem) == (rem.skip(k + 8), seq![rem.take(k)]));
                        }
                    },
                    None => {
                        push_range(&mut visible, &s, pos, s.len());
                        proof {
                            assert(rem =~= s@.subrange(pos as int, s@.len() as int));
                            assert(tv + Seq::<Seq<char>>::empty() =~= tv);
                            assert(think_parts(rem) == (rem, Seq::<Seq<char>>::empty()));
                        }
                    },
                }
                break ;
            },
            Some(o) => {
                proof {
                    lemma_find_from(s@, open@, pos as int);
                }
                push_range(&mut visible, &s, pos, o);
                let after_start = o + 7;
                let ghost after = rem.skip(o - pos + 7);
                proof {
                    assert(after =~= s@.skip(after_start as int));
                }
                let found_close = find_from_exec(&s, &close, after_start);
                proof {
                    lemma_find_from_shift(s@, close@, after_start as int);
                    lemma_find_from(s@, close@, after_start as int);
                }
                match found_close {
                    Some(c) => {
                        let thought = slice_vec(&s, after_start, c);
                        thoughts.push(thought);
                        let ghost old_pos = pos;
                        pos = c + 8;
                        proof {
                            let k = c - after_start;
                            assert(rem.take(o - old_pos) =~= s@.subrange(old_pos as int, o as int));
                            assert(after.take(k) =~= s@.subrange(after_start as int, c as int));
                            assert(after.skip(k + 8) =~= s@.skip(pos as int));
                            let rest = think_parts(s@.skip(pos as int));
                            assert(visible@ + rest.0 =~= (visible@.subrange(
                                0,
                                visible@.len() - (o - old_pos),
                            ) + (rem.take(o - old_pos) + rest.0)));
                            assert(thoughts@.map_values(|p: Vec<char>| p@) =~= tv.push(
                                after.take(k),
                            ));
                            assert(thoughts@.map_values(|p: Vec<char>| p@) + rest.1 =~= tv + (
                            seq![after.take(k)] + rest.1));
                        }
                    },
                    None => {
                        let thought = slice_vec(&s, after_start, s.len());
                        thoughts.push(thought);
                        proof {
                            assert(rem.take(o - pos) =~= s@.subrange(pos as int, o as int));
                            assert(after =~= s@.subrange(after_start as int, s@.len() as int));
                            assert(thoughts@.map_values(|p: Vec<char>| p@) =~= tv.push(after));
                            assert(tv + seq![after] =~= tv.push(after));
                            assert(think_parts(rem) == (rem.take(o - pos), seq![after]));
                        }
                        break ;
                    },
                }
            },
        }
    }
    let ghost tv = thoughts@.map_values(|p: Vec<char>| p@);
    proof {
        assert(tv =~= think_parts(s@).1);
    }
    let vis = from_chars(&visible);
    if thoughts.len() == 0 {
        return (vis, None);
    }
    let sep = ['\n', '\n'];
    proof {
        assert(sep@ =~= seq!['\n', '\n']);
    }
    let joined = join_exec(&thoughts, &sep);
    (vis, Some(from_chars(&joined)))
}

/// A text containing neither tag is returned unchanged, with no thought.
pub proof fn law_plain_text_unchanged(text: Seq<char>)
    requires
        !contains(text, open_tag()),
        !contains(text, close_tag()),
    ensures
        spec_extract_thinking(text) == (text, None::<Seq<char>>),
{
}

/// A text that is one complete thought followed by plain text splits into
/// exactly those two pieces.
pub proof fn law_single_block(thought: Seq<char>, rest: Seq<char>)
    requires
        !contains(thought, close_tag()),
        !contains(thought, open_tag()),
        !contains(rest, open_tag()),
        !contains(rest, close_tag()),
    ensures
        spec_extract_thinking(open_tag() + thought + close_tag() + rest) == (rest, Some(thought)),
{
    let s = open_tag() + thought + close_tag() + rest;
    assert(matches_at(s, open_tag(), 0)) by {
        assert(s.subrange(0, 7) =~= open_tag());
    }
    lemma_find_from_unique(s, open_tag(), 0, 0);
    let after = s.skip(7);
    assert(after =~= thought + close_tag() + rest);
    let c = thought.len() as int;
    assert(matches_at(after, close_tag(), c)) by {
        assert(after.subrange(c, c + 8) =~= close_tag());
    }
    lemma_find_from(thought, close_tag(), 0);
    assert forall|j: int| 0 <= j < c implies !#[trigger] matches_at(after, close_tag(), j) by {
        // a close tag starting inside `thought` would have to lie wholly in it
        // or overlap the real close tag; both are ruled out character by character
        lemma_close_tag_no_overlap(thought, rest, j);
    }
    lemma_find_from_unique(after, close_tag(), 0, c);
    assert(after.take(c) =~= thought);
    assert(after.skip(c + 8) =~= rest);
    assert(s.take(0) =~= Seq::<char>::empty());
    assert(Seq::<char>::empty() + rest =~= rest);
    assert(seq![thought] + Seq::<Seq<char>>::empty() =~= seq![thought]);
    assert(think_parts(rest) == (rest, Seq::<Seq<char>>::empty()));
    assert(after.skip(c + close_tag().len()) == rest);
    assert(think_parts(s) == (rest, seq![thought]));
    assert(join(seq![thought], seq!['\n', '\n']) == thought);
}

/// A close tag cannot start inside a text that holds none, when that text is
/// followed directly by a close tag.
proof fn lemma_close_tag_no_overlap(thought: Seq<char>, rest: Seq<char>, j: int)
    requires
        0 <= j < thought.len(),
        !contains(thought, close_tag()),
    ensures
        !matches_at(thought + close_tag() + rest, close_tag(), j),
{
    let s = thought + close_tag() + rest;
    lemma_find_from(thought, close_tag(), 0);
    if !matches_at(s, close_tag(), j) {
    } else if j + 8 <= thought.len() {
        assert(thought.subrange(j, j + 8) =~= s.subrange(j, j + 8));
        assert(matches_at(thought, close_tag(), j));
    } else {
        // the match begins inside `thought` and runs into the real close tag:
        // its first character is '<', but the only '<' of a close tag is its first
        let k = thought.len() - j;
        assert(0 < k < 8);
        assert(s[thought.len() as int] == close_tag()[k]) by {
            assert(s.subrange(j, j + 8)[k] == s[j + k]);
        }
        assert(close_tag()[k] != '<');
        assert(close_tag()[0] == '<');
        assert(s[thought.len() as int] == '<');
    }
}

} // verus!
