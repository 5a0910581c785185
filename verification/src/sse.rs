//! Server-sent events of a generation stream: splitting the received text
//! into event blocks, reading each block's `event:` and `data:` lines, and
//! turning a block into what the chat view does with it.

use vstd::prelude::*;
use crate::text::{
    find, find_from_exec, from_chars, is_blank, line_span_ok, matches_at, is_blank_exec, lemma_find_from,
    lemma_find_from_unique,
    lemma_find_from_shift, lines, lines_exec, push_all, push_decimal, slice_vec, starts_with,
    starts_with_exec, to_chars, trim, trim_range, nat_decimal,
};
use crate::reasoning::{join, join_exec};
use crate::outside::{json_str_member, json_string_member};

verus! {

/// The error a stream reports when the session is no longer valid.
pub const SESSION_EXPIRED_ERROR: &'static str = "session expired, please log in again";

/// What an event block is, by its `event:` line.
#[derive(PartialEq, Eq, Structural, Debug, Clone, Copy)]
pub enum SseEventKind {
    /// No `event:` line, or one naming anything else: a reply delta.
    Data,
    /// `event: error`
    Error,
    /// `event: member`: a group member's turn begins.
    Member,
}

/// `event:`
pub open spec fn event_prefix() -> Seq<char> {
    seq!['e', 'v', 'e', 'n', 't', ':']
}

/// `data:`
pub open spec fn data_prefix() -> Seq<char> {
    seq!['d', 'a', 't', 'a', ':']
}

/// The trimmed name on the first `event:` line of `ls`, if any.
pub open spec fn event_name(ls: Seq<Seq<char>>) -> Option<Seq<char>>
    decreases ls.len(),
{
    if ls.len() == 0 {
        None
    } else if starts_with(ls[0], event_prefix()) {
        Some(trim(ls[0].skip(6)))
    } else {
        event_name(ls.drop_first())
    }
}

/// The kind an event name stands for.
pub open spec fn kind_of(name: Option<Seq<char>>) -> SseEventKind {
    match name {
        Some(n) => if n == seq!['e', 'r', 'r', 'o', 'r'] {
            SseEventKind::Error
        } else if n == seq!['m', 'e', 'm', 'b', 'e', 'r'] {
            SseEventKind::Member
        } else {
            SseEventKind::Data
        },
        None => SseEventKind::Data,
    }
}

/// The payload of a `data:` line: what follows the prefix, less one leading space.
pub open spec fn data_payload(line: Seq<char>) -> Seq<char> {
    let d = line.skip(5);
    if d.len() > 0 && d[0] == ' ' {
        d.skip(1)
    } else {
        d
    }
}

/// The payloads of the `data:` lines of `ls`, in order.
pub open spec fn data_lines(ls: Seq<Seq<char>>) -> Seq<Seq<char>>
    decreases ls.len(),
{
    if ls.len() == 0 {
        Seq::empty()
    } else {
        data_lines(ls.drop_last()) + if starts_with(ls.last(), data_prefix()) {
            seq![data_payload(ls.last())]
        } else {
            Seq::empty()
        }
    }
}

/// What `parse_event_block` returns: the block's kind, and its data lines
/// joined by newlines (`None` when it has no data line).
pub open spec fn spec_parse_event_block(block: Seq<char>) -> (SseEventKind, Option<Seq<char>>) {
    let ls = lines(block);
    let d = data_lines(ls);
    (kind_of(event_name(ls)), if d.len() == 0 {
        None
    } else {
        Some(join(d, seq!['\n']))
    })
}

/// Reads one event block (character version).
pub fn parse_event_block_chars(block: &[char]) -> (r: (SseEventKind, Option<Vec<char>>))
    ensures
        r.0 == spec_parse_event_block(block@).0,
        match r.1 {
            Some(d) => spec_parse_event_block(block@).1 == Some(d@),
            None => spec_parse_event_block(block@).1 is None,
        },
{
    let ghost ls = lines(block@);
    let spans = lines_exec(block);
    let n = spans.len();
    let ev = ['e', 'v', 'e', 'n', 't', ':'];
    let da = ['d', 'a', 't', 'a', ':'];
    let er = ['e', 'r', 'r', 'o', 'r'];
    let me = ['m', 'e', 'm', 'b', 'e', 'r'];
    proof {
        assert(ev@ =~= event_prefix());
        assert(da@ =~= data_prefix());
        assert(er@ =~= seq!['e', 'r', 'r', 'o', 'r']);
        assert(me@ =~= seq!['m', 'e', 'm', 'b', 'e', 'r']);
        assert(ls.skip(0) =~= ls);
    }
    // the first `event:` line decides the kind
    let mut kind = SseEventKind::Data;
    let mut i: usize = 0;
    loop
        invariant_except_break
            i <= n,
            event_name(ls) == event_name(ls.skip(i as int)),
            kind == SseEventKind::Data,
        invariant
            n == spans@.len(),
            n == ls.len(),
            ev@ == event_prefix(),
            er@ == seq!['e', 'r', 'r', 'o', 'r'],
            me@ == seq!['m', 'e', 'm', 'b', 'e', 'r'],
            ls == lines(block@),
            forall|k: int| 0 <= k < spans@.len() ==> #[trigger] line_span_ok(spans@, block@, k),
        ensures
            kind == kind_of(event_name(ls)),
        decreases n - i,
    {
        if i >= n {
            proof {
                assert(ls.skip(i as int).len() == 0);
            }
            break;
        }
        proof {
            assert(line_span_ok(spans@, block@, i as int));
        }
        let sp = &spans[i];
        let line = slice_vec(block, sp.start, sp.end);
        proof {
            assert(line@ == ls[i as int]);
            assert(ls.skip(i as int)[0] == ls[i as int]);
            assert(ls.skip(i as int).drop_first() =~= ls.skip(i + 1));
        }
        if starts_with_exec(&line, &ev) {
            let (hs, he) = trim_range(&line, 6, line.len());
            let name = slice_vec(&line, hs, he);
            proof {
                assert(line@.subrange(6, line@.len() as int) =~= line@.skip(6));
                assert(event_name(ls) == Some(name@));
            }
            let is_error = crate::text::chars_eq(&name, &er);
            let is_member = crate::text::chars_eq(&name, &me);
            if is_error {
                kind = SseEventKind::Error;
            } else if is_member {
                kind = SseEventKind::Member;
            }
            break;
        }
        i = i + 1;
    }
    // every `data:` line contributes its payload
    let mut parts: Vec<Vec<char>> = Vec::new();
    let mut j: usize = 0;
    proof {
        assert(ls.take(0) =~= Seq::<Seq<char>>::empty());
        assert(parts@.map_values(|p: Vec<char>| p@) =~= Seq::<Seq<char>>::empty());
    }
    while j < n
        invariant
            j <= n,
            n == spans@.len(),
            n == ls.len(),
            da@ == data_prefix(),
            ls == lines(block@),
            forall|k: int| 0 <= k < spans@.len() ==> #[trigger] line_span_ok(spans@, block@, k),
            parts@.map_values(|p: Vec<char>| p@) == data_lines(ls.take(j as int)),
        decreases n - j,
    {
        proof {
            assert(line_span_ok(spans@, block@, j as int));
        }
        let sp = &spans[j];
        let line = slice_vec(block, sp.start, sp.end);
        let ghost before = parts@;
        proof {
            assert(line@ == ls[j as int]);
            assert(ls.take(j + 1).drop_last() =~= ls.take(j as int));
            assert(ls.take(j + 1).last() == ls[j as int]);
        }
        if starts_with_exec(&line, &da) {
            let payload = if line.len() > 5 && line[5] == ' ' {
                slice_vec(&line, 6, line.len())
            } else {
                slice_vec(&line, 5, line.len())
            };
            proof {
                let d = line@.skip(5);
                if line@.len() > 5 && line@[5] == ' ' {
                    assert(d.skip(1) =~= payload@);
                } else {
                    assert(d =~= payload@);
                }
                assert(payload@ == data_payload(ls[j as int]));
            }
            parts.push(payload);
            proof {
                assert(parts@.map_values(|p: Vec<char>| p@) =~= before.map_values(|p: Vec<char>| p@).push(
                    data_payload(ls[j as int]),
                ));
                assert(data_lines(ls.take(j + 1)) =~= data_lines(ls.take(j as int)).push(
                    data_payload(ls[j as int]),
                ));
            }
        } else {
            proof {
                assert(data_lines(ls.take(j + 1)) =~= data_lines(ls.take(j as int)));
            }
        }
        j = j + 1;
    }
    proof {
        assert(ls.take(n as int) =~= ls);
    }
    if parts.len() == 0 {
        (kind, None)
    } else {
        let nl = ['\n'];
        proof {
            assert(nl@ =~= seq!['\n']);
        }
        let joined = join_exec(&parts, &nl);
        (kind, Some(joined))
    }
}

/// Reads one server-sent event block: its kind, from the first `event:`
/// line, and its `data:` payloads (one leading space stripped from each)
/// joined by newlines, or `None` when the block carries no data line.
pub fn parse_event_block(event_block: &str) -> (r: (SseEventKind, Option<String>))
    ensures
        r.0 == spec_parse_event_block(event_block@).0,
        match r.1 {
            Some(d) => spec_parse_event_block(event_block@).1 == Some(d@),
            None => spec_parse_event_block(event_block@).1 is None,
        },
{
    let cs = to_chars(event_block);
    let (kind, data) = parse_event_block_chars(&cs);
    match data {
        Some(d) => (kind, Some(from_chars(&d))),
        None => (kind, None),
    }
}

// ---------------------------------------------------------------------------
// what a block means to the chat view
// ---------------------------------------------------------------------------

/// What the chat view does with one event block.
#[derive(Debug)]
pub enum StreamEvent {
    /// Append this text to the reply being streamed.
    Delta(String),
    /// The stream reported an error.
    Error(String),
    /// A group member's turn begins.
    Member { character_id: String, name: String },
}

/// The mathematical form of a stream event.
pub enum StreamEventV {
    Delta(Seq<char>),
    Error(Seq<char>),
    Member { character_id: Seq<char>, name: Seq<char> },
}

/// The view of a stream event.
pub open spec fn stream_event_view(e: StreamEvent) -> StreamEventV {
    match e {
        StreamEvent::Delta(d) => StreamEventV::Delta(d@),
        StreamEvent::Error(m) => StreamEventV::Error(m@),
        StreamEvent::Member { character_id, name } => StreamEventV::Member {
            character_id: character_id@,
            name: name@,
        },
    }
}

/// The views of a sequence of stream events.
pub open spec fn stream_events_view(v: Seq<StreamEvent>) -> Seq<StreamEventV> {
    Seq::new(v.len(), |i: int| stream_event_view(v[i]))
}

/// `character_id`
pub open spec fn character_id_key() -> Seq<char> {
    seq!['c', 'h', 'a', 'r', 'a', 'c', 't', 'e', 'r', '_', 'i', 'd']
}

/// `name`
pub open spec fn name_key() -> Seq<char> {
    seq!['n', 'a', 'm', 'e']
}

/// A member event, when both its id and its name are present and non-empty.
pub open spec fn spec_member_event(character_id: Option<Seq<char>>, name: Option<Seq<char>>) -> Option<
    StreamEventV,
> {
    match (character_id, name) {
        (Some(c), Some(n)) => if c.len() > 0 && n.len() > 0 {
            Some(StreamEventV::Member { character_id: c, name: n })
        } else {
            None
        },
        _ => None,
    }
}

/// The member event for the `character_id` and `name` read from a
/// `member` block's JSON data.
pub fn member_event(character_id: Option<String>, name: Option<String>) -> (r: Option<StreamEvent>)
    ensures
        match r {
            Some(e) => spec_member_event(opt_str(character_id), opt_str(name)) == Some(
                stream_event_view(e),
            ),
            None => spec_member_event(opt_str(character_id), opt_str(name)) is None,
        },
{
    match (character_id, name) {
        (Some(c), Some(n)) => {
            if !c.as_str().is_empty() && !n.as_str().is_empty() {
                Some(StreamEvent::Member { character_id: c, name: n })
            } else {
                None
            }
        },
        _ => None,
    }
}

/// The view of an optional `String`.
pub open spec fn opt_str(o: Option<String>) -> Option<Seq<char>> {
    match o {
        Some(s) => Some(s@),
        None => None,
    }
}

/// The event a block gives: its data as a delta or an error, or, for a
/// `member` block, the member named by its JSON data; nothing for a block
/// without data or a member block whose id or name is missing or empty.
pub open spec fn spec_block_event(block: Seq<char>) -> Option<StreamEventV> {
    let (kind, data) = spec_parse_event_block(block);
    match data {
        None => None,
        Some(d) => match kind {
            SseEventKind::Error => Some(StreamEventV::Error(d)),
            SseEventKind::Data => Some(StreamEventV::Delta(d)),
            SseEventKind::Member => spec_member_event(
                json_string_member(d, character_id_key()),
                json_string_member(d, name_key()),
            ),
        },
    }
}

/// What one event block means to the chat view.
pub fn block_event(block: &[char]) -> (r: Option<StreamEvent>)
    ensures
        match r {
            Some(e) => spec_block_event(block@) == Some(stream_event_view(e)),
            None => spec_block_event(block@) is None,
        },
{
    let (kind, data) = parse_event_block_chars(block);
    match data {
        None => None,
        Some(d) => {
            let text = from_chars(&d);
            match kind {
                SseEventKind::Error => Some(StreamEvent::Error(text)),
                SseEventKind::Data => Some(StreamEvent::Delta(text)),
                SseEventKind::Member => {
                    let cid = json_str_member(text.as_str(), "character_id");
                    let name = json_str_member(text.as_str(), "name");
                    proof {
                        reveal_strlit("character_id");
                        reveal_strlit("name");
                        assert("character_id"@ =~= character_id_key());
                        assert("name"@ =~= name_key());
                    }
                    member_event(cid, name)
                },
            }
        },
    }
}

// ---------------------------------------------------------------------------
// the receive buffer
// ---------------------------------------------------------------------------

/// The complete blocks at the front of `buf` (each ended by a blank line,
/// i.e. `"\n\n"`), and the incomplete rest.
pub open spec fn split_blocks(buf: Seq<char>) -> (Seq<Seq<char>>, Seq<char>)
    decreases buf.len(),
{
    match find(buf, seq!['\n', '\n']) {
        Some(p) => if 0 <= p && p + 2 <= buf.len() {
            let rest = split_blocks(buf.skip(p + 2));
            (seq![buf.take(p)] + rest.0, rest.1)
        } else {
            (Seq::empty(), buf)
        },
        None => (Seq::empty(), buf),
    }
}

/// The events of a sequence of blocks, in order, skipping blocks that give none.
pub open spec fn blocks_events(bs: Seq<Seq<char>>) -> Seq<StreamEventV>
    decreases bs.len(),
{
    if bs.len() == 0 {
        Seq::empty()
    } else {
        (match spec_block_event(bs[0]) {
            Some(e) => seq![e],
            None => Seq::empty(),
        }) + blocks_events(bs.drop_first())
    }
}

/// Takes every complete event block off the front of the receive buffer,
/// leaving only the incomplete rest, and returns the events they give.
pub fn drain_events(buffer: &mut String) -> (r: Vec<StreamEvent>)
    ensures
        stream_events_view(r@) == blocks_events(split_blocks(old(buffer)@).0),
        final(buffer)@ == split_blocks(old(buffer)@).1,
{
    let cs = to_chars(buffer.as_str());
    let ghost all = cs@;
    let sep = ['\n', '\n'];
    proof {
        assert(sep@ =~= seq!['\n', '\n']);
        assert(all.skip(0) =~= all);
    }
    let mut out: Vec<StreamEvent> = Vec::new();
    let mut pos: usize = 0;
    let cl = cs.len();
    proof {
        assert(stream_events_view(out@) + blocks_events(split_blocks(all.skip(0)).0) =~= blocks_events(
            split_blocks(all).0,
        ));
    }
    loop
        invariant
            pos <= all.len(),
            cs@ == all,
            cl == all.len(),
            sep@ == seq!['\n', '\n'],
            split_blocks(all.skip(pos as int)).1 == split_blocks(all).1,
            stream_events_view(out@) + blocks_events(split_blocks(all.skip(pos as int)).0)
                == blocks_events(split_blocks(all).0),
        ensures
            pos <= all.len(),
            cs@ == all,
            split_blocks(all.skip(pos as int)).1 == all.skip(pos as int),
            split_blocks(all.skip(pos as int)).1 == split_blocks(all).1,
            stream_events_view(out@) == blocks_events(split_blocks(all).0),
        decreases all.len() - pos,
    {
        let ghost cur = all.skip(pos as int);
        let found = find_from_exec(&cs, &sep, pos);
        proof {
            lemma_find_from_shift(all, sep@, pos as int);
            lemma_find_from(all, sep@, pos as int);
        }
        match found {
            None => {
                proof {
                    assert(find(cur, seq!['\n', '\n']) is None);
                    assert(split_blocks(cur).1 == cur);
                    assert(split_blocks(cur).0 =~= Seq::<Seq<char>>::empty());
                    assert(stream_events_view(out@) =~= stream_events_view(out@) + Seq::<
                        StreamEventV,
                    >::empty());
                }
                break;
            },
            Some(p) => {
                proof {
                    assert(matches_at(all, sep@, p as int));
                }
                let block = slice_vec(&cs, pos, p);
                let ghost k = p - pos;
                let ghost before = out@;
                proof {
                    assert(block@ =~= cur.take(k));
                    assert(cur.skip(k + 2) =~= all.skip(p + 2));
                    let rest = split_blocks(cur.skip(k + 2));
                    assert(split_blocks(cur).0 == seq![cur.take(k)] + rest.0);
                    assert((seq![cur.take(k)] + rest.0).drop_first() =~= rest.0);
                    assert((seq![cur.take(k)] + rest.0)[0] == cur.take(k));
                }
                let ev = block_event(&block);
                match ev {
                    Some(e) => {
                        out.push(e);
                        proof {
                            assert(stream_events_view(out@) =~= stream_events_view(before).push(
                                stream_event_view(e),
                            ));
                            assert(stream_events_view(before).push(stream_event_view(e))
                                + blocks_events(split_blocks(all.skip(p + 2)).0)
                                =~= stream_events_view(before) + (seq![stream_event_view(e)]
                                + blocks_events(split_blocks(all.skip(p + 2)).0)));
                        }
                    },
                    None => {},
                }
                pos = p + 2;
            },
        }
    }
    let rest = slice_vec(&cs, pos, cs.len());
    proof {
        assert(rest@ =~= all.skip(pos as int));
        assert(split_blocks(all.skip(pos as int)).1 == all.skip(pos as int));
    }
    *buffer = from_chars(&rest);
    out
}

// ---------------------------------------------------------------------------
// errors before the stream starts
// ---------------------------------------------------------------------------

/// `message`
pub open spec fn message_key() -> Seq<char> {
    seq!['m', 'e', 's', 's', 'a', 'g', 'e']
}

/// `request failed with status ` followed by the status code.
pub open spec fn status_failure_text(status: u16) -> Seq<char> {
    seq![
        'r', 'e', 'q', 'u', 'e', 's', 't', ' ', 'f', 'a', 'i', 'l', 'e', 'd', ' ', 'w', 'i', 't',
        'h', ' ', 's', 't', 'a', 't', 'u', 's', ' ',
    ] + nat_decimal(status as nat)
}

/// The message shown for a failed (non-2xx) stream request: the body's
/// JSON `message` field when it is a non-empty string, else the body as it
/// is; and when that is blank (or the body could not be read), a line
/// giving the status code.
pub open spec fn spec_failure_message(status: u16, body: Option<Seq<char>>, message_field: Option<
    Seq<char>,
>) -> Seq<char> {
    let m = match body {
        None => Seq::empty(),
        Some(text) => match message_field {
            Some(f) => if f.len() > 0 {
                f
            } else {
                text
            },
            None => text,
        },
    };
    if is_blank(m) {
        status_failure_text(status)
    } else {
        m
    }
}

/// The failure message, given the response body (`None` when it could not
/// be read) and the body's JSON `message` field as read from it.
pub fn failure_message(status: u16, body: Option<String>, message_field: Option<String>) -> (r: String)
    ensures
        r@ == spec_failure_message(status, opt_str(body), opt_str(message_field)),
{
    let m: Vec<char> = match body {
        None => Vec::new(),
        Some(text) => match message_field {
            Some(f) => if !f.as_str().is_empty() {
                to_chars(f.as_str())
            } else {
                to_chars(text.as_str())
            },
            None => to_chars(text.as_str()),
        },
    };
    proof {
        if body is None {
            assert(m@ =~= Seq::<char>::empty());
        }
    }
    if is_blank_exec(&m) {
        let mut out = vec![
            'r', 'e', 'q', 'u', 'e', 's', 't', ' ', 'f', 'a', 'i', 'l', 'e', 'd', ' ', 'w', 'i', 't',
            'h', ' ', 's', 't', 'a', 't', 'u', 's', ' ',
        ];
        let ghost pre = out@;
        push_decimal(&mut out, status as u64);
        proof {
            assert(pre =~= seq![
                'r', 'e', 'q', 'u', 'e', 's', 't', ' ', 'f', 'a', 'i', 'l', 'e', 'd', ' ', 'w', 'i', 't',
                'h', ' ', 's', 't', 'a', 't', 'u', 's', ' ',
            ]);
        }
        from_chars(&out)
    } else {
        from_chars(&m)
    }
}

/// The message shown for a failed stream request with this status and
/// body (`None` when the body could not be read).
pub fn stream_failure_message(status: u16, body: Option<String>) -> (r: String)
    ensures
        r@ == spec_failure_message(
            status,
            opt_str(body),
            match body {
                Some(t) => json_string_member(t@, message_key()),
                None => None,
            },
        ),
{
    let field = match &body {
        Some(t) => {
            let f = json_str_member(t.as_str(), "message");
            proof {
                reveal_strlit("message");
                assert("message"@ =~= message_key());
            }
            f
        },
        None => None,
    };
    failure_message(status, body, field)
}

/// What a stream error leads to: the login page for an expired session,
/// else the error shown in the chat.
pub fn is_session_expired(err: &str) -> (r: bool)
    ensures
        r == (err@ == SESSION_EXPIRED_ERROR@),
{
    let e = to_chars(err);
    let s = to_chars(SESSION_EXPIRED_ERROR);
    crate::text::chars_eq(&e, &s)
}

// ---------------------------------------------------------------------------
// laws
// ---------------------------------------------------------------------------

/// Blocks put back together, each followed by its blank line.
pub open spec fn rejoin(bs: Seq<Seq<char>>) -> Seq<char>
    decreases bs.len(),
{
    if bs.len() == 0 {
        Seq::empty()
    } else {
        bs[0] + seq!['\n', '\n'] + rejoin(bs.drop_first())
    }
}

/// Splitting the receive buffer loses nothing and leaves no complete block
/// behind: the blocks, each with its blank line, followed by the rest, are
/// the buffer, and the rest holds no blank line.
pub proof fn law_split_blocks_is_exact(buf: Seq<char>)
    ensures
        rejoin(split_blocks(buf).0) + split_blocks(buf).1 == buf,
        find(split_blocks(buf).1, seq!['\n', '\n']) is None,
    decreases buf.len(),
{
    lemma_find_from(buf, seq!['\n', '\n'], 0);
    match find(buf, seq!['\n', '\n']) {
        Some(p) => {
            assert(matches_at(buf, seq!['\n', '\n'], p));
            let rest = buf.skip(p + 2);
            law_split_blocks_is_exact(rest);
            let r = split_blocks(rest);
            let bs = seq![buf.take(p)] + r.0;
            assert(bs.drop_first() =~= r.0);
            assert(bs[0] == buf.take(p));
            assert(buf.subrange(p, p + 2) == seq!['\n', '\n']);
            assert(buf.take(p) + seq!['\n', '\n'] + (rejoin(r.0) + r.1) =~= buf);
            assert(rejoin(bs) + r.1 =~= buf.take(p) + seq!['\n', '\n'] + (rejoin(r.0) + r.1));
        },
        None => {
            assert(rejoin(Seq::<Seq<char>>::empty()) + buf =~= buf);
        },
    }
}

/// All the chunks of a stream, one after another.
pub open spec fn concat_chunks(chunks: Seq<Seq<char>>) -> Seq<char>
    decreases chunks.len(),
{
    if chunks.len() == 0 {
        Seq::empty()
    } else {
        chunks[0] + concat_chunks(chunks.drop_first())
    }
}

/// Receiving `chunks` one by one into the buffer `buf`, draining the buffer
/// after each: the events given, in order, and the buffer left over.
pub open spec fn feed_chunks(buf: Seq<char>, chunks: Seq<Seq<char>>) -> (Seq<StreamEventV>, Seq<char>)
    decreases chunks.len(),
{
    if chunks.len() == 0 {
        (Seq::empty(), buf)
    } else {
        let step = split_blocks(buf + chunks[0]);
        let later = feed_chunks(step.1, chunks.drop_first());
        (blocks_events(step.0) + later.0, later.1)
    }
}

/// The events of blocks one after another are the events of each in turn.
proof fn lemma_blocks_events_append(a: Seq<Seq<char>>, b: Seq<Seq<char>>)
    ensures
        blocks_events(a + b) == blocks_events(a) + blocks_events(b),
    decreases a.len(),
{
    if a.len() == 0 {
        assert(a + b =~= b);
        assert(blocks_events(a) + blocks_events(b) =~= blocks_events(b));
    } else {
        assert((a + b).drop_first() =~= a.drop_first() + b);
        assert((a + b)[0] == a[0]);
        lemma_blocks_events_append(a.drop_first(), b);
        let head = match spec_block_event(a[0]) {
            Some(e) => seq![e],
            None => Seq::<StreamEventV>::empty(),
        };
        assert(head + (blocks_events(a.drop_first()) + blocks_events(b)) =~= (head + blocks_events(
            a.drop_first(),
        )) + blocks_events(b));
    }
}

/// More text after the buffer leaves the complete blocks already there in
/// place: the blocks of `x + c` are those of `x`, then those of what `x`
/// left over followed by `c`.
proof fn lemma_split_blocks_append(x: Seq<char>, c: Seq<char>)
    ensures
        split_blocks(x + c) == ({
            let sx = split_blocks(x);
            let sr = split_blocks(sx.1 + c);
            (sx.0 + sr.0, sr.1)
        }),
    decreases x.len(),
{
    let nn = seq!['\n', '\n'];
    lemma_find_from(x, nn, 0);
    match find(x, nn) {
        Some(p) => {
            let xc = x + c;
            assert forall|j: int| 0 <= j <= p implies #[trigger] matches_at(xc, nn, j) == matches_at(
                x,
                nn,
                j,
            ) by {
                if j + 2 <= x.len() {
                    assert(xc.subrange(j, j + 2) =~= x.subrange(j, j + 2));
                }
            }
            lemma_find_from_unique(xc, nn, 0, p);
            assert(xc.skip(p + 2) =~= x.skip(p + 2) + c);
            assert(xc.take(p) =~= x.take(p));
            lemma_split_blocks_append(x.skip(p + 2), c);
            let sx = split_blocks(x);
            let sr = split_blocks(sx.1 + c);
            let inner = split_blocks(x.skip(p + 2));
            assert(sx.0 == seq![x.take(p)] + inner.0);
            assert(sx.1 == inner.1);
            assert(seq![x.take(p)] + (inner.0 + sr.0) =~= sx.0 + sr.0);
        },
        None => {
            let sx = split_blocks(x);
            assert(sx.0 =~= Seq::<Seq<char>>::empty());
            assert(sx.0 + split_blocks(x + c).0 =~= split_blocks(x + c).0);
        },
    }
}

/// The events of a stream do not depend on how it is cut into chunks:
/// receiving it chunk by chunk into a drained buffer, draining after each,
/// gives the events of the whole text's complete blocks, in order, and
/// leaves the same rest.
pub proof fn law_events_ignore_chunking(buf: Seq<char>, chunks: Seq<Seq<char>>)
    requires
        find(buf, seq!['\n', '\n']) is None,
    ensures
        feed_chunks(buf, chunks) == (
            blocks_events(split_blocks(buf + concat_chunks(chunks)).0),
            split_blocks(buf + concat_chunks(chunks)).1,
        ),
    decreases chunks.len(),
{
    if chunks.len() == 0 {
        assert(buf + concat_chunks(chunks) =~= buf);
        assert(blocks_events(split_blocks(buf).0) + Seq::<StreamEventV>::empty() =~= blocks_events(
            split_blocks(buf).0,
        ));
        assert(split_blocks(buf).0 =~= Seq::<Seq<char>>::empty());
    } else {
        let x = buf + chunks[0];
        let c = concat_chunks(chunks.drop_first());
        let step = split_blocks(x);
        law_split_blocks_is_exact(x);
        law_events_ignore_chunking(step.1, chunks.drop_first());
        lemma_split_blocks_append(x, c);
        assert(buf + concat_chunks(chunks) =~= x + c);
        let sr = split_blocks(step.1 + c);
        lemma_blocks_events_append(step.0, sr.0);
    }
}

} // verus!
