//! The per-chat generation state and how stream events, the start and the
//! end of a generation change it; the regenerate request; who is speaking;
//! and the typewriter reveal of a streamed reply.

use vstd::prelude::*;
use crate::models::{
    copy_opt, nodes_view, opt_view, ChatCharacter, GroupWithMembers, MeResponse, MessageNode,
    MessageNodeV, MessageTree,
};
use crate::chat_tree::{
    assistant_role, is_assistant, regeneration_parent_id, spec_regeneration_parent_id,
};
use crate::reasoning::{join, join_exec};
use crate::text::{from_chars, is_blank, is_blank_exec, push_all, to_chars, trim, trim_exec, chars_eq};

verus! {

// ---------------------------------------------------------------------------
// generation state
// ---------------------------------------------------------------------------

/// One finished turn of a group reply: the member's id, name and text.
pub type ReplyLogEntry = (String, String, String);

/// The generation state of one chat.
#[derive(Clone, Debug)]
pub struct GenState {
    pub is_generating: bool,
    pub streaming_reply: String,
    pub current_member: Option<(String, String)>,
    pub group_reply_log: Vec<(String, String, String)>,
    pub is_self_reply: bool,
    pub stream_error: bool,
    pub regenerating_msg_id: Option<String>,
}

/// The mathematical form of a generation state.
pub struct GenStateV {
    pub is_generating: bool,
    pub streaming_reply: Seq<char>,
    pub current_member: Option<(Seq<char>, Seq<char>)>,
    pub group_reply_log: Seq<(Seq<char>, Seq<char>, Seq<char>)>,
    pub is_self_reply: bool,
    pub stream_error: bool,
    pub regenerating_msg_id: Option<Seq<char>>,
}

/// The view of a pair of strings.
pub open spec fn pair_view(p: Option<(String, String)>) -> Option<(Seq<char>, Seq<char>)> {
    match p {
        Some((a, b)) => Some((a@, b@)),
        None => None,
    }
}

/// The views of reply-log entries.
pub open spec fn log_view(v: Seq<(String, String, String)>) -> Seq<(Seq<char>, Seq<char>, Seq<char>)> {
    Seq::new(v.len(), |i: int| (v[i].0@, v[i].1@, v[i].2@))
}

impl View for GenState {
    type V = GenStateV;

    open spec fn view(&self) -> GenStateV {
        GenStateV {
            is_generating: self.is_generating,
            streaming_reply: self.streaming_reply@,
            current_member: pair_view(self.current_member),
            group_reply_log: log_view(self.group_reply_log@),
            is_self_reply: self.is_self_reply,
            stream_error: self.stream_error,
            regenerating_msg_id: opt_view(self.regenerating_msg_id),
        }
    }
}

/// The state of a chat that has not generated anything.
pub open spec fn gen_idle() -> GenStateV {
    GenStateV {
        is_generating: false,
        streaming_reply: Seq::empty(),
        current_member: None,
        group_reply_log: Seq::empty(),
        is_self_reply: false,
        stream_error: false,
        regenerating_msg_id: None,
    }
}

impl Default for GenState {
    fn default() -> (r: GenState)
        ensures
            r@ == gen_idle(),
    {
        let r = GenState {
            is_generating: false,
            streaming_reply: String::new(),
            current_member: None,
            group_reply_log: Vec::new(),
            is_self_reply: false,
            stream_error: false,
            regenerating_msg_id: None,
        };
        proof {
            assert(log_view(r.group_reply_log@) =~= Seq::<(Seq<char>, Seq<char>, Seq<char>)>::empty());
        }
        r
    }
}

/// A generation starts: not errored, generating, speaking as the user for
/// "respond as me", with an empty reply, no member and an empty log.
pub open spec fn spec_start_generation(s: GenStateV, self_reply: bool) -> GenStateV {
    GenStateV {
        stream_error: false,
        is_generating: true,
        is_self_reply: self_reply,
        streaming_reply: Seq::empty(),
        current_member: None,
        group_reply_log: Seq::empty(),
        ..s
    }
}

impl GenState {
    /// Starts a generation.
    pub fn start_generation(&mut self, self_reply: bool)
        ensures
            final(self)@ == spec_start_generation(old(self)@, self_reply),
    {
        self.stream_error = false;
        self.is_generating = true;
        self.is_self_reply = self_reply;
        self.streaming_reply = String::new();
        self.current_member = None;
        self.group_reply_log = Vec::new();
        proof {
            assert(log_view(self.group_reply_log@) =~= Seq::<(Seq<char>, Seq<char>, Seq<char>)>::empty());
        }
    }

    /// A delta arrives: it is appended to the reply.
    pub fn push_delta(&mut self, delta: &str)
        ensures
            final(self)@ == (GenStateV {
                streaming_reply: old(self)@.streaming_reply + delta@,
                ..old(self)@
            }),
    {
        let mut cs = to_chars(self.streaming_reply.as_str());
        let d = to_chars(delta);
        push_all(&mut cs, &d);
        self.streaming_reply = from_chars(&cs);
    }

    /// A member's turn begins (only tracked for send and regenerate): the
    /// previous member's text, if any, goes to the log, and the reply
    /// starts over for the new member.
    pub fn switch_member(&mut self, track: bool, character_id: String, name: String)
        ensures
            final(self)@ == spec_switch_member(old(self)@, track, character_id@, name@),
    {
        if !track {
            return;
        }
        match &self.current_member {
            Some((prev_id, prev_name)) => {
                if !self.streaming_reply.as_str().is_empty() {
                    let ghost before = self.group_reply_log@;
                    let entry = (prev_id.clone(), prev_name.clone(), self.streaming_reply.clone());
                    self.group_reply_log.push(entry);
                    proof {
                        assert(log_view(self.group_reply_log@) =~= log_view(before).push(
                            (entry.0@, entry.1@, entry.2@),
                        ));
                    }
                }
            },
            None => {},
        }
        self.streaming_reply = String::new();
        self.current_member = Some((character_id, name));
    }

    /// The stream reported an error.
    pub fn mark_error(&mut self)
        ensures
            final(self)@ == (GenStateV { stream_error: true, ..old(self)@ }),
    {
        self.stream_error = true;
    }

    /// A send or regenerate finished.
    pub fn finish_reply(&mut self)
        ensures
            final(self)@ == spec_finish_reply(old(self)@),
    {
        self.finish_common();
        self.regenerating_msg_id = None;
    }

    /// A continuation finished.
    pub fn finish_continue(&mut self)
        ensures
            final(self)@ == spec_finish_continue(old(self)@),
    {
        self.finish_common();
    }

    /// A "respond as me" finished.
    pub fn finish_self_reply(&mut self)
        ensures
            final(self)@ == (GenStateV { is_self_reply: false, ..spec_finish_continue(old(self)@) }),
    {
        self.finish_common();
        self.is_self_reply = false;
    }

    fn finish_common(&mut self)
        ensures
            final(self)@ == spec_finish_continue(old(self)@),
    {
        self.is_generating = false;
        self.streaming_reply = String::new();
        self.current_member = None;
        self.group_reply_log = Vec::new();
        proof {
            assert(log_view(self.group_reply_log@) =~= Seq::<(Seq<char>, Seq<char>, Seq<char>)>::empty());
        }
    }
}

/// A member switch.
pub open spec fn spec_switch_member(s: GenStateV, track: bool, id: Seq<char>, name: Seq<char>) -> GenStateV {
    if !track {
        s
    } else {
        let log = match s.current_member {
            Some((pid, pname)) => if s.streaming_reply.len() > 0 {
                s.group_reply_log.push((pid, pname, s.streaming_reply))
            } else {
                s.group_reply_log
            },
            None => s.group_reply_log,
        };
        GenStateV {
            group_reply_log: log,
            streaming_reply: Seq::empty(),
            current_member: Some((id, name)),
            ..s
        }
    }
}

/// A generation ends: not generating, reply, member and log cleared.
pub open spec fn spec_finish_continue(s: GenStateV) -> GenStateV {
    GenStateV {
        is_generating: false,
        streaming_reply: Seq::empty(),
        current_member: None,
        group_reply_log: Seq::empty(),
        ..s
    }
}

/// A send or regenerate ends: as any end, and no message is being regenerated.
pub open spec fn spec_finish_reply(s: GenStateV) -> GenStateV {
    GenStateV { regenerating_msg_id: None, ..spec_finish_continue(s) }
}

/// All the reply text the state holds: the logged turns' texts, then the
/// reply being streamed.
pub open spec fn transcript(s: GenStateV) -> Seq<char> {
    log_text(s.group_reply_log) + s.streaming_reply
}

/// The logged turns' texts, in order.
pub open spec fn log_text(log: Seq<(Seq<char>, Seq<char>, Seq<char>)>) -> Seq<char>
    decreases log.len(),
{
    if log.len() == 0 {
        Seq::empty()
    } else {
        log_text(log.drop_last()) + log.last().2
    }
}

// ---------------------------------------------------------------------------
// the states of all chats
// ---------------------------------------------------------------------------

impl GenState {
    /// A copy of the state.
    pub fn copy(&self) -> (r: GenState)
        ensures
            r@ == self@,
    {
        let current_member = match &self.current_member {
            Some((id, name)) => Some((id.clone(), name.clone())),
            None => None,
        };
        let mut log: Vec<(String, String, String)> = Vec::new();
        let mut i: usize = 0;
        while i < self.group_reply_log.len()
            invariant
                i <= self.group_reply_log@.len(),
                log_view(log@) =~= log_view(self.group_reply_log@).subrange(0, i as int),
            decreases self.group_reply_log@.len() - i,
        {
            let e = &self.group_reply_log[i];
            let ghost before = log@;
            log.push((e.0.clone(), e.1.clone(), e.2.clone()));
            proof {
                assert(log_view(log@) =~= log_view(before).push((e.0@, e.1@, e.2@)));
            }
            i = i + 1;
        }
        assert(log_view(log@) =~= log_view(self.group_reply_log@));
        GenState {
            is_generating: self.is_generating,
            streaming_reply: self.streaming_reply.clone(),
            current_member,
            group_reply_log: log,
            is_self_reply: self.is_self_reply,
            stream_error: self.stream_error,
            regenerating_msg_id: copy_opt(&self.regenerating_msg_id),
        }
    }
}

/// The index of the first entry at or after `i` that belongs to chat `id`.
pub open spec fn state_index_from(e: Seq<(Seq<char>, GenStateV)>, id: Seq<char>, i: int) -> Option<int>
    decreases e.len() - i,
{
    if i < 0 || i >= e.len() {
        None
    } else if e[i].0 == id {
        Some(i)
    } else {
        state_index_from(e, id, i + 1)
    }
}

/// The state of chat `id`: its entry's, or that of a chat that has not
/// generated anything when it has none.
pub open spec fn state_of(e: Seq<(Seq<char>, GenStateV)>, id: Seq<char>) -> GenStateV {
    match state_index_from(e, id, 0) {
        Some(k) => e[k].1,
        None => gen_idle(),
    }
}

/// The entries after chat `id`'s state is set to `s`: its entry replaced,
/// or a new one added at the end.
pub open spec fn spec_set_state(e: Seq<(Seq<char>, GenStateV)>, id: Seq<char>, s: GenStateV) -> Seq<(Seq<char>, GenStateV)> {
    match state_index_from(e, id, 0) {
        Some(k) => e.update(k, (id, s)),
        None => e.push((id, s)),
    }
}

/// The invariant of the per-chat states: no chat has two entries.
pub open spec fn chats_unique(e: Seq<(Seq<char>, GenStateV)>) -> bool {
    forall|i: int, j: int| 0 <= i < e.len() && 0 <= j < e.len() && i != j ==> e[i].0 != e[j].0
}

/// The views of the entries.
pub open spec fn entries_view(v: Seq<(String, GenState)>) -> Seq<(Seq<char>, GenStateV)> {
    Seq::new(v.len(), |i: int| (v[i].0@, v[i].1@))
}

/// The generation state of every chat, kept apart by chat id, so that a
/// stream running for one chat never touches another chat's state.
#[derive(Clone, Debug)]
pub struct GenStates {
    entries: Vec<(String, GenState)>,
}

impl View for GenStates {
    type V = Seq<(Seq<char>, GenStateV)>;

    closed spec fn view(&self) -> Seq<(Seq<char>, GenStateV)> {
        entries_view(self.entries@)
    }
}

proof fn lemma_state_index_from(e: Seq<(Seq<char>, GenStateV)>, id: Seq<char>, i: int)
    requires
        0 <= i,
    ensures
        match state_index_from(e, id, i) {
            Some(k) => i <= k < e.len() && e[k].0 == id && forall|j: int| i <= j < k ==> e[j].0 != id,
            None => forall|j: int| i <= j < e.len() ==> e[j].0 != id,
        },
    decreases e.len() - i,
{
    if i < e.len() && e[i].0 != id {
        lemma_state_index_from(e, id, i + 1);
    }
}

/// An entry whose chat stays the same leaves where every chat's entry is.
proof fn lemma_index_same_keys(e: Seq<(Seq<char>, GenStateV)>, f: Seq<(Seq<char>, GenStateV)>, id: Seq<char>, i: int)
    requires
        0 <= i,
        e.len() == f.len(),
        forall|j: int| 0 <= j < e.len() ==> e[j].0 == f[j].0,
    ensures
        state_index_from(e, id, i) == state_index_from(f, id, i),
    decreases e.len() - i,
{
    if i < e.len() {
        lemma_index_same_keys(e, f, id, i + 1);
    }
}

/// Adding an entry for another chat leaves where chat `id`'s entry is.
proof fn lemma_index_push_other(e: Seq<(Seq<char>, GenStateV)>, x: (Seq<char>, GenStateV), id: Seq<char>, i: int)
    requires
        0 <= i,
        x.0 != id,
    ensures
        state_index_from(e.push(x), id, i) == state_index_from(e, id, i),
    decreases e.len() + 1 - i,
{
    if i < e.len() {
        assert(e.push(x)[i] == e[i]);
        lemma_index_push_other(e, x, id, i + 1);
    } else if i == e.len() {
        assert(e.push(x)[i] == x);
        assert(state_index_from(e.push(x), id, i + 1) is None);
    }
}

impl GenStates {
    /// No chat has generated anything yet.
    pub fn new() -> (r: GenStates)
        ensures
            r@ == Seq::<(Seq<char>, GenStateV)>::empty(),
            forall|id: Seq<char>| #[trigger] state_of(r@, id) == gen_idle(),
            chats_unique(r@),
    {
        let r = GenStates { entries: Vec::new() };
        proof {
            assert(entries_view(r.entries@) =~= Seq::<(Seq<char>, GenStateV)>::empty());
        }
        r
    }

    fn index_of(&self, id: &String) -> (r: Option<usize>)
        ensures
            match r {
                Some(k) => state_index_from(self@, id@, 0) == Some(k as int) && k < self.entries@.len(),
                None => state_index_from(self@, id@, 0) is None,
            },
    {
        let ghost v = self@;
        proof {
            lemma_state_index_from(v, id@, 0);
        }
        let mut i: usize = 0;
        while i < self.entries.len()
            invariant
                i <= self.entries@.len(),
                v == self@,
                v == entries_view(self.entries@),
                state_index_from(v, id@, 0) == state_index_from(v, id@, i as int),
            decreases self.entries@.len() - i,
        {
            if self.entries[i].0 == *id {
                return Some(i);
            }
            i = i + 1;
        }
        None
    }

    /// A copy of chat `id`'s state, that of an idle chat when it has none.
    pub fn gen_for(&self, id: &str) -> (r: GenState)
        ensures
            r@ == state_of(self@, id@),
    {
        let key = id.to_owned();
        match self.index_of(&key) {
            Some(k) => self.entries[k].1.copy(),
            None => GenState::default(),
        }
    }

    /// Sets chat `id`'s state to `state`.
    pub fn set_gen(&mut self, id: &str, state: GenState)
        ensures
            final(self)@ == spec_set_state(old(self)@, id@, state@),
            chats_unique(old(self)@) ==> chats_unique(final(self)@),
    {
        let key = id.to_owned();
        let ghost before = self.entries@;
        proof {
            lemma_set_state_unique(self@, id@, state@);
        }
        match self.index_of(&key) {
            Some(k) => {
                self.entries.set(k, (key, state));
                proof {
                    assert(entries_view(self.entries@) =~= entries_view(before).update(
                        k as int,
                        (id@, state@),
                    ));
                }
            },
            None => {
                self.entries.push((key, state));
                proof {
                    assert(entries_view(self.entries@) =~= entries_view(before).push((id@, state@)));
                }
            },
        }
    }
}

/// Setting a chat's state keeps every chat to one entry.
proof fn lemma_set_state_unique(e: Seq<(Seq<char>, GenStateV)>, id: Seq<char>, s: GenStateV)
    ensures
        chats_unique(e) ==> chats_unique(spec_set_state(e, id, s)),
{
    lemma_state_index_from(e, id, 0);
    let f = spec_set_state(e, id, s);
    match state_index_from(e, id, 0) {
        Some(k) => {
            assert forall|i: int| 0 <= i < f.len() implies #[trigger] f[i].0 == e[i].0 by {}
        },
        None => {
            assert forall|i: int| 0 <= i < e.len() implies #[trigger] f[i] == e[i] by {}
            assert(f[e.len() as int].0 == id);
        },
    }
}

/// Setting a chat's generation state and reading it back gives what was set.
pub proof fn law_read_back_set_state(e: Seq<(Seq<char>, GenStateV)>, id: Seq<char>, s: GenStateV)
    ensures
        state_of(spec_set_state(e, id, s), id) == s,
{
    lemma_state_index_from(e, id, 0);
    let f = spec_set_state(e, id, s);
    match state_index_from(e, id, 0) {
        Some(k) => {
            lemma_state_index_from(f, id, 0);
            assert(f[k].0 == id);
            assert(forall|j: int| 0 <= j < k ==> f[j] == e[j]);
            lemma_index_same_keys(e, f, id, 0);
        },
        None => {
            lemma_state_index_from(f, id, 0);
            assert(f[e.len() as int].0 == id);
            assert(forall|j: int| 0 <= j < e.len() ==> f[j] == e[j]);
        },
    }
}

/// Setting one chat's generation state leaves every other chat's state as
/// it was.
pub proof fn law_other_chats_untouched(e: Seq<(Seq<char>, GenStateV)>, id: Seq<char>, s: GenStateV, other: Seq<char>)
    requires
        other != id,
    ensures
        state_of(spec_set_state(e, id, s), other) == state_of(e, other),
{
    lemma_state_index_from(e, id, 0);
    let f = spec_set_state(e, id, s);
    match state_index_from(e, id, 0) {
        Some(k) => {
            assert(forall|j: int| 0 <= j < e.len() ==> e[j].0 == f[j].0);
            lemma_index_same_keys(e, f, other, 0);
            lemma_state_index_from(e, other, 0);
            match state_index_from(e, other, 0) {
                Some(m) => {
                    assert(m != k);
                },
                None => {},
            }
        },
        None => {
            lemma_index_push_other(e, (id, s), other, 0);
            lemma_state_index_from(e, other, 0);
        },
    }
}

// ---------------------------------------------------------------------------
// regenerating
// ---------------------------------------------------------------------------

/// The member a regeneration is for: the character of the reply being
/// redone, else (in a group) the first member not disabled.
pub open spec fn spec_regen_character(branch: Seq<MessageNodeV>, group: Option<GroupWithMembers>) -> Option<
    Seq<char>,
> {
    let own = if branch.len() > 0 && branch.last().role == assistant_role() {
        branch.last().character_id
    } else {
        None
    };
    match own {
        Some(c) => Some(c),
        None => match group {
            Some(g) => first_enabled_member(g.members@),
            None => None,
        },
    }
}

/// The id of the first member that is not disabled.
pub open spec fn first_enabled_member(members: Seq<crate::models::GroupMember>) -> Option<Seq<char>>
    decreases members.len(),
{
    if members.len() == 0 {
        None
    } else if !members[0].disabled {
        Some(members[0].character_id@)
    } else {
        first_enabled_member(members.drop_first())
    }
}

/// `parent_id=`
pub open spec fn parent_param() -> Seq<char> {
    seq!['p', 'a', 'r', 'e', 'n', 't', '_', 'i', 'd', '=']
}

/// `character_id=`
pub open spec fn character_param() -> Seq<char> {
    seq!['c', 'h', 'a', 'r', 'a', 'c', 't', 'e', 'r', '_', 'i', 'd', '=']
}

/// The query parts of a regenerate request: the parent to regenerate from,
/// and in a group chat the member to regenerate as.
pub open spec fn regen_query_parts(branch: Seq<MessageNodeV>, group: Option<GroupWithMembers>) -> Seq<
    Seq<char>,
> {
    let p = match spec_regeneration_parent_id(branch) {
        Some(pid) => seq![parent_param() + pid],
        None => Seq::empty(),
    };
    let c = if group is Some {
        match spec_regen_character(branch, group) {
            Some(cid) => seq![character_param() + cid],
            None => Seq::empty(),
        }
    } else {
        Seq::empty()
    };
    p + c
}

/// The query string of a regenerate request: empty, or `?` and the parts
/// joined by `&`.
pub open spec fn spec_regenerate_query(branch: Seq<MessageNodeV>, group: Option<GroupWithMembers>) -> Seq<char> {
    let parts = regen_query_parts(branch, group);
    if parts.len() == 0 {
        Seq::empty()
    } else {
        seq!['?'] + join(parts, seq!['&'])
    }
}

/// The message shown as being regenerated: the branch's last message when
/// it is an assistant reply.
pub open spec fn spec_regenerating_id(branch: Seq<MessageNodeV>) -> Option<Seq<char>> {
    if branch.len() > 0 && branch.last().role == assistant_role() {
        Some(branch.last().id)
    } else {
        None
    }
}

/// What a regeneration asks for and shows.
pub struct RegeneratePlan {
    /// The reply shown as being regenerated.
    pub regenerating_msg_id: Option<String>,
    /// The query string of the request.
    pub query: String,
}

fn first_enabled_member_exec(g: &GroupWithMembers) -> (r: Option<String>)
    ensures
        opt_view(r) == first_enabled_member(g.members@),
{
    let ghost m = g.members@;
    let mut i: usize = 0;
    proof {
        assert(m.skip(0) =~= m);
    }
    while i < g.members.len()
        invariant
            i <= m.len(),
            m == g.members@,
            first_enabled_member(m) == first_enabled_member(m.skip(i as int)),
        decreases m.len() - i,
    {
        proof {
            assert(m.skip(i as int)[0] == m[i as int]);
            assert(m.skip(i as int).drop_first() =~= m.skip(i + 1));
        }
        if !g.members[i].disabled {
            return Some(g.members[i].character_id.clone());
        }
        i = i + 1;
    }
    proof {
        assert(m.skip(i as int).len() == 0);
    }
    None
}

/// Plans a regeneration of the branch's last reply.
pub fn regenerate_plan(branch: &Vec<MessageNode>, group: &Option<GroupWithMembers>) -> (r: RegeneratePlan)
    ensures
        opt_view(r.regenerating_msg_id) == spec_regenerating_id(nodes_view(branch@)),
        r.query@ == spec_regenerate_query(nodes_view(branch@), *group),
{
    let ghost bv = nodes_view(branch@);
    let n = branch.len();
    let last_is_reply = n > 0 && is_assistant(&branch[n - 1].role);
    let (regenerating, own) = if last_is_reply {
        (Some(branch[n - 1].id.clone()), copy_opt(&branch[n - 1].character_id))
    } else {
        (None, None)
    };
    let character = match own {
        Some(c) => Some(c),
        None => match group {
            Some(g) => first_enabled_member_exec(g),
            None => None,
        },
    };
    proof {
        assert(opt_view(character) == spec_regen_character(bv, *group));
    }
    let mut parts: Vec<Vec<char>> = Vec::new();
    let ghost p_part: Seq<Seq<char>>;
    match regeneration_parent_id(branch.as_slice()) {
        Some(pid) => {
            let mut part = vec!['p', 'a', 'r', 'e', 'n', 't', '_', 'i', 'd', '='];
            proof {
                assert(part@ =~= parent_param());
            }
            push_all(&mut part, &to_chars(pid.as_str()));
            parts.push(part);
            proof {
                p_part = seq![parent_param() + pid@];
            }
        },
        None => {
            proof {
                p_part = Seq::empty();
            }
        },
    }
    proof {
        assert(parts@.map_values(|p: Vec<char>| p@) =~= p_part);
    }
    let ghost before = parts@;
    if group.is_some() {
        match &character {
            Some(cid) => {
                let mut part = vec![
                    'c', 'h', 'a', 'r', 'a', 'c', 't', 'e', 'r', '_', 'i', 'd', '=',
                ];
                proof {
                    assert(part@ =~= character_param());
                }
                push_all(&mut part, &to_chars(cid.as_str()));
                parts.push(part);
                proof {
                    assert(parts@.map_values(|p: Vec<char>| p@) =~= before.map_values(
                        |p: Vec<char>| p@,
                    ).push(character_param() + cid@));
                }
            },
            None => {},
        }
    }
    proof {
        assert(parts@.map_values(|p: Vec<char>| p@) =~= regen_query_parts(bv, *group));
    }
    let query = if parts.len() == 0 {
        String::new()
    } else {
        let amp = ['&'];
        proof {
            assert(amp@ =~= seq!['&']);
        }
        let joined = join_exec(&parts, &amp);
        let mut q = vec!['?'];
        push_all(&mut q, &joined);
        from_chars(&q)
    };
    RegeneratePlan { regenerating_msg_id: regenerating, query }
}

proof fn lemma_first_enabled_is(members: Seq<crate::models::GroupMember>, k: int)
    requires
        0 <= k < members.len(),
        !members[k].disabled,
        forall|j: int| 0 <= j < k ==> #[trigger] members[j].disabled,
    ensures
        first_enabled_member(members) == Some(members[k].character_id@),
    decreases k,
{
    if k > 0 {
        let rest = members.drop_first();
        assert forall|j: int| 0 <= j < k - 1 implies #[trigger] rest[j].disabled by {
            assert(rest[j] == members[j + 1]);
        }
        lemma_first_enabled_is(rest, k - 1);
    }
}

proof fn lemma_join_two(a: Seq<char>, b: Seq<char>, sep: Seq<char>)
    ensures
        join(seq![a], sep) == a,
        join(seq![a, b], sep) == a + sep + b,
{
    assert(join(seq![b], sep) == b);
    assert(seq![a, b].drop_first() =~= seq![b]);
    assert(join(seq![a, b], sep) == seq![a, b][0] + sep + join(seq![a, b].drop_first(), sep));
}

/// The query part naming the parent a regeneration starts from, with the
/// `&` that follows it: empty unless the branch ends in an assistant reply
/// that has a parent.
pub open spec fn parent_query_part(branch: Seq<MessageNodeV>) -> Seq<char> {
    if branch.len() > 0 && branch.last().role == seq!['a', 's', 's', 'i', 's', 't', 'a', 'n', 't'] {
        match branch.last().parent_id {
            Some(p) => seq!['p', 'a', 'r', 'e', 'n', 't', '_', 'i', 'd', '='] + p + seq!['&'],
            None => Seq::empty(),
        }
    } else {
        Seq::empty()
    }
}

/// The message shown as being regenerated is the branch's last message
/// when that is an assistant reply, and none otherwise.
pub proof fn law_regenerating_shows_last_reply(branch: Seq<MessageNodeV>)
    ensures
        spec_regenerating_id(branch) == if branch.len() > 0 && branch.last().role == seq![
            'a', 's', 's', 'i', 's', 't', 'a', 'n', 't',
        ] {
            Some(branch[branch.len() - 1].id)
        } else {
            None
        },
{
}

/// In a group chat, regenerating a reply that names its character asks for
/// that same character: the query is `?parent_id=<the reply's parent>&`
/// (when it has one) followed by `character_id=<the reply's character>`.
pub proof fn law_regenerate_as_reply_author(branch: Seq<MessageNodeV>, g: GroupWithMembers, cid: Seq<char>)
    requires
        branch.len() > 0,
        branch.last().role == seq!['a', 's', 's', 'i', 's', 't', 'a', 'n', 't'],
        branch.last().character_id == Some(cid),
    ensures
        spec_regenerate_query(branch, Some(g)) == seq!['?'] + parent_query_part(branch) + seq![
            'c', 'h', 'a', 'r', 'a', 'c', 't', 'e', 'r', '_', 'i', 'd', '=',
        ] + cid,
{
    let c = character_param() + cid;
    match branch.last().parent_id {
        Some(p) => {
            lemma_join_two(parent_param() + p, c, seq!['&']);
            assert(regen_query_parts(branch, Some(g)) =~= seq![parent_param() + p, c]);
        },
        None => {
            lemma_join_two(c, c, seq!['&']);
            assert(regen_query_parts(branch, Some(g)) =~= seq![c]);
        },
    }
}

/// In a group chat, regenerating when the branch does not end in a reply
/// naming its character asks for the group's first member that is not
/// disabled (member `k`).
pub proof fn law_regenerate_falls_back_to_first_enabled(branch: Seq<MessageNodeV>, g: GroupWithMembers, k: int)
    requires
        !(branch.len() > 0 && branch.last().role == seq!['a', 's', 's', 'i', 's', 't', 'a', 'n', 't']
            && branch.last().character_id is Some),
        0 <= k < g.members@.len(),
        !g.members@[k].disabled,
        forall|j: int| 0 <= j < k ==> #[trigger] g.members@[j].disabled,
    ensures
        spec_regenerate_query(branch, Some(g)) == seq!['?'] + parent_query_part(branch) + seq![
            'c', 'h', 'a', 'r', 'a', 'c', 't', 'e', 'r', '_', 'i', 'd', '=',
        ] + g.members@[k].character_id@,
{
    lemma_first_enabled_is(g.members@, k);
    let c = character_param() + g.members@[k].character_id@;
    if branch.len() > 0 && branch.last().role == assistant_role() && branch.last().parent_id is Some {
        let p = branch.last().parent_id->0;
        lemma_join_two(parent_param() + p, c, seq!['&']);
        assert(regen_query_parts(branch, Some(g)) =~= seq![parent_param() + p, c]);
    } else {
        lemma_join_two(c, c, seq!['&']);
        assert(regen_query_parts(branch, Some(g)) =~= seq![c]);
    }
}

/// Outside a group chat, regenerating asks for no character: the query is
/// `?parent_id=<the reply's parent>` when the branch ends in an assistant
/// reply that has a parent, and empty otherwise.
pub proof fn law_regenerate_outside_group(branch: Seq<MessageNodeV>)
    ensures
        spec_regenerate_query(branch, None) == if branch.len() > 0 && branch.last().role == seq![
            'a', 's', 's', 'i', 's', 't', 'a', 'n', 't',
        ] && branch.last().parent_id is Some {
            seq!['?', 'p', 'a', 'r', 'e', 'n', 't', '_', 'i', 'd', '='] + branch.last().parent_id->0
        } else {
            Seq::empty()
        },
{
    if branch.len() > 0 && branch.last().role == assistant_role() && branch.last().parent_id is Some {
        let p = branch.last().parent_id->0;
        lemma_join_two(parent_param() + p, p, seq!['&']);
        assert(regen_query_parts(branch, None) =~= seq![parent_param() + p]);
        assert(seq!['?'] + (parent_param() + p) =~= seq!['?', 'p', 'a', 'r', 'e', 'n', 't', '_', 'i', 'd', '='] + p);
    } else {
        assert(regen_query_parts(branch, None) =~= Seq::<Seq<char>>::empty());
    }
}

// ---------------------------------------------------------------------------
// who is speaking
// ---------------------------------------------------------------------------

/// The last character with id `id` (later entries replace earlier ones, as
/// in a map built from the list).
pub open spec fn char_lookup(chars: Seq<ChatCharacter>, id: Seq<char>) -> Option<ChatCharacter>
    decreases chars.len(),
{
    if chars.len() == 0 {
        None
    } else if chars.last().id@ == id {
        Some(chars.last())
    } else {
        char_lookup(chars.drop_last(), id)
    }
}

/// The character with id `id`, the last such in the list.
pub fn find_character(chars: &Vec<ChatCharacter>, id: &String) -> (r: Option<usize>)
    ensures
        match r {
            Some(k) => k < chars@.len() && char_lookup(chars@, id@) == Some(chars@[k as int]),
            None => char_lookup(chars@, id@) is None,
        },
{
    let mut i: usize = chars.len();
    proof {
        assert(chars@.take(i as int) =~= chars@);
    }
    while i > 0
        invariant
            i <= chars@.len(),
            char_lookup(chars@, id@) == char_lookup(chars@.take(i as int), id@),
        decreases i,
    {
        proof {
            assert(chars@.take(i as int).drop_last() =~= chars@.take(i - 1));
            assert(chars@.take(i as int).last() == chars@[i - 1]);
        }
        if chars[i - 1].id == *id {
            return Some(i - 1);
        }
        i = i - 1;
    }
    None
}

/// `assistant`, the name shown when no character is known.
pub open spec fn default_speaker() -> Seq<char> {
    assistant_role()
}

/// The name and avatar a message is shown with: those of the character
/// with the message's `character_id`, else those of the chat's own
/// character, else `assistant` and no avatar.
pub open spec fn spec_speaker_for(
    chars: Seq<ChatCharacter>,
    fallback: Option<ChatCharacter>,
    character_id: Option<Seq<char>>,
) -> (Seq<char>, Option<Seq<char>>) {
    let fb = match fallback {
        Some(c) => (c.name@, opt_view(c.avatar_url)),
        None => (default_speaker(), None),
    };
    match character_id {
        Some(cid) => match char_lookup(chars, cid) {
            Some(c) => (c.name@, opt_view(c.avatar_url)),
            None => fb,
        },
        None => fb,
    }
}

/// Which character a message came from: looked up by its `character_id`
/// among the known characters first, falling back to the chat's single
/// character (for one-to-one chats or when the id is missing).
pub fn speaker_for(
    character_by_id: &Vec<ChatCharacter>,
    fallback_character: &Option<ChatCharacter>,
    character_id: &Option<String>,
) -> (r: (String, Option<String>))
    ensures
        (r.0@, opt_view(r.1)) == spec_speaker_for(
            character_by_id@,
            *fallback_character,
            opt_view(*character_id),
        ),
{
    if let Some(cid) = character_id {
        if let Some(k) = find_character(character_by_id, cid) {
            let c = &character_by_id[k];
            return (c.name.clone(), copy_opt(&c.avatar_url));
        }
    }
    match fallback_character {
        Some(c) => (c.name.clone(), copy_opt(&c.avatar_url)),
        None => {
            let a = vec!['a', 's', 's', 'i', 's', 't', 'a', 'n', 't'];
            proof {
                assert(a@ =~= default_speaker());
            }
            (from_chars(&a), None)
        },
    }
}

/// `User`
pub open spec fn default_user_name() -> Seq<char> {
    seq!['U', 's', 'e', 'r']
}

/// The name the user is shown with: the display name when it is not
/// blank, else the username when it is not blank, else `User`.
pub open spec fn spec_user_display_name(me: Option<MeResponse>) -> Seq<char> {
    match me {
        Some(m) => match m.display_name {
            Some(dn) => if !is_blank(dn@) {
                dn@
            } else if !is_blank(m.username@) {
                m.username@
            } else {
                default_user_name()
            },
            None => if !is_blank(m.username@) {
                m.username@
            } else {
                default_user_name()
            },
        },
        None => default_user_name(),
    }
}

/// The name the user is shown with in the chat.
pub fn user_display_name(me: &Option<MeResponse>) -> (r: String)
    ensures
        r@ == spec_user_display_name(*me),
{
    if let Some(m) = me {
        if let Some(dn) = &m.display_name {
            if !is_blank_exec(&to_chars(dn.as_str())) {
                return dn.clone();
            }
        }
        if !is_blank_exec(&to_chars(m.username.as_str())) {
            return m.username.clone();
        }
    }
    let u = vec!['U', 's', 'e', 'r'];
    proof {
        assert(u@ =~= default_user_name());
    }
    from_chars(&u)
}

/// The name in the chat's header: the group's name, else the character's,
/// else `assistant`.
pub open spec fn spec_chat_display_name(tree: MessageTree) -> Seq<char> {
    match tree.group {
        Some(g) => g.group.name@,
        None => match tree.character {
            Some(c) => c.name@,
            None => default_speaker(),
        },
    }
}

/// The name shown in the chat's header.
pub fn chat_display_name(tree: &MessageTree) -> (r: String)
    ensures
        r@ == spec_chat_display_name(*tree),
{
    match &tree.group {
        Some(g) => g.group.name.clone(),
        None => match &tree.character {
            Some(c) => c.name.clone(),
            None => {
                let a = vec!['a', 's', 's', 'i', 's', 't', 'a', 'n', 't'];
                proof {
                    assert(a@ =~= default_speaker());
                }
                from_chars(&a)
            },
        },
    }
}

/// The name and avatar of the reply being streamed: the current member's
/// name and their character's avatar; in a group before the first member
/// event, nothing; otherwise the chat's own name and avatar.
pub open spec fn spec_streaming_speaker(
    current_member: Option<(Seq<char>, Seq<char>)>,
    chars: Seq<ChatCharacter>,
    is_group: bool,
    chat_name: Seq<char>,
    chat_avatar: Option<Seq<char>>,
) -> (Seq<char>, Option<Seq<char>>) {
    match current_member {
        Some((cid, name)) => (name, spec_speaker_for(chars, None, Some(cid)).1),
        None => if is_group {
            (Seq::empty(), None)
        } else {
            (chat_name, chat_avatar)
        },
    }
}

/// The speaker of the reply being streamed.
pub fn streaming_speaker(
    current_member: &Option<(String, String)>,
    chars: &Vec<ChatCharacter>,
    is_group: bool,
    chat_name: &String,
    chat_avatar: &Option<String>,
) -> (r: (String, Option<String>))
    ensures
        (r.0@, opt_view(r.1)) == spec_streaming_speaker(
            pair_view(*current_member),
            chars@,
            is_group,
            chat_name@,
            opt_view(*chat_avatar),
        ),
{
    match current_member {
        Some((cid, name)) => {
            let (_, avatar) = speaker_for(chars, &None, &Some(cid.clone()));
            (name.clone(), avatar)
        },
        None => if is_group {
            (String::new(), None)
        } else {
            (chat_name.clone(), copy_opt(chat_avatar))
        },
    }
}

/// The text a message is shown with: the streamed reply while it is the
/// one being regenerated, else its own content.
pub fn shown_content(node: &MessageNode, state: &GenState) -> (r: String)
    ensures
        r@ == (if state.is_generating && opt_view(state.regenerating_msg_id) == Some(node.id@) {
            state.streaming_reply@
        } else {
            node.content@
        }),
{
    let regenerating_this = match &state.regenerating_msg_id {
        Some(id) => *id == node.id,
        None => false,
    };
    if state.is_generating && regenerating_this {
        state.streaming_reply.clone()
    } else {
        node.content.clone()
    }
}

// ---------------------------------------------------------------------------
// greetings
// ---------------------------------------------------------------------------

/// The first position of a greeting equal to `content` once both are trimmed.
pub open spec fn greeting_match(greetings: Seq<Seq<char>>, content: Seq<char>) -> Option<nat>
    decreases greetings.len(),
{
    if greetings.len() == 0 {
        None
    } else if trim(greetings[0]) == trim(content) {
        Some(0)
    } else {
        match greeting_match(greetings.drop_first(), content) {
            Some(p) => Some(p + 1),
            None => None,
        }
    }
}

/// The greeting to show as selected when the branch starts with a greeting
/// and the character has several: the one whose text the first message
/// holds, else the first.
pub open spec fn spec_greeting_index(greetings: Seq<Seq<char>>, branch: Seq<MessageNodeV>) -> Option<nat> {
    if branch.len() > 0 && branch[0].parent_id is None && branch[0].role == assistant_role()
        && greetings.len() > 1 {
        match greeting_match(greetings, branch[0].content) {
            Some(p) => Some(p),
            None => Some(0),
        }
    } else {
        None
    }
}

/// The greeting index to select for the branch shown, if it starts with a greeting.
pub fn greeting_index(greetings: &Vec<String>, branch: &Vec<MessageNode>) -> (r: Option<usize>)
    ensures
        match r {
            Some(i) => spec_greeting_index(crate::models::strs_view(greetings@), nodes_view(branch@))
                == Some(i as nat),
            None => spec_greeting_index(crate::models::strs_view(greetings@), nodes_view(branch@))
                is None,
        },
{
    let ghost gv = crate::models::strs_view(greetings@);
    if branch.len() == 0 || branch[0].parent_id.is_some() || !is_assistant(&branch[0].role)
        || greetings.len() <= 1 {
        return None;
    }
    let content = trim_exec(&to_chars(branch[0].content.as_str()));
    let mut i: usize = 0;
    proof {
        assert(gv.skip(0) =~= gv);
    }
    while i < greetings.len()
        invariant
            i <= greetings@.len(),
            gv == crate::models::strs_view(greetings@),
            branch@.len() > 0,
            branch@[0].parent_id is None,
            branch@[0].role@ == assistant_role(),
            greetings@.len() > 1,
            content@ == trim(branch@[0].content@),
            greeting_match(gv, branch@[0].content@) == match greeting_match(
                gv.skip(i as int),
                branch@[0].content@,
            ) {
                Some(p) => Some((p + i) as nat),
                None => None,
            },
        decreases greetings@.len() - i,
    {
        proof {
            assert(gv.skip(i as int)[0] == gv[i as int]);
            assert(gv.skip(i as int).drop_first() =~= gv.skip(i + 1));
        }
        let g = trim_exec(&to_chars(greetings[i].as_str()));
        if chars_eq(&g, &content) {
            return Some(i);
        }
        i = i + 1;
    }
    proof {
        assert(gv.skip(i as int).len() == 0);
    }
    Some(0)
}

/// The previous greeting's index, wrapping to the last.
pub open spec fn spec_prev_greeting(index: int, total: int) -> int {
    if index == 0 {
        if total > 0 {
            total - 1
        } else {
            0
        }
    } else {
        index - 1
    }
}

/// The next greeting's index, wrapping to the first.
pub open spec fn spec_next_greeting(index: int, total: int) -> int {
    if index + 1 >= total {
        0
    } else {
        index + 1
    }
}

/// The previous greeting's index, wrapping to the last.
pub fn prev_greeting_index(index: usize, total: usize) -> (r: usize)
    ensures
        r == spec_prev_greeting(index as int, total as int),
{
    if index == 0 {
        if total > 0 {
            total - 1
        } else {
            0
        }
    } else {
        index - 1
    }
}

/// The next greeting's index, wrapping to the first.
pub fn next_greeting_index(index: usize, total: usize) -> (r: usize)
    ensures
        r == spec_next_greeting(index as int, total as int),
{
    if index >= total || total - index <= 1 {
        0
    } else {
        index + 1
    }
}

/// The greeting text shown: the message's own while the confirmed greeting
/// is selected, else the selected greeting (or the message's own when the
/// index is out of range).
pub fn shown_greeting(greetings: &Vec<String>, index: usize, confirmed: usize, content: &String) -> (r: String)
    ensures
        r@ == (if index == confirmed || index >= greetings@.len() {
            content@
        } else {
            greetings@[index as int]@
        }),
{
    if index == confirmed || index >= greetings.len() {
        content.clone()
    } else {
        greetings[index].clone()
    }
}

// ---------------------------------------------------------------------------
// the typewriter reveal
// ---------------------------------------------------------------------------

/// The characters revealed after one tick: unchanged once everything is
/// shown; else one more, or a twentieth of the backlog when more than 40
/// characters behind, never past the end.
pub open spec fn spec_reveal_step(current: nat, total: nat) -> nat {
    if current >= total {
        current
    } else {
        let behind = (total - current) as nat;
        let step: nat = if behind > 40 {
            if behind / 20 >= 1 {
                behind / 20
            } else {
                1
            }
        } else {
            1
        };
        if current + step <= total {
            current + step
        } else {
            total
        }
    }
}

/// How many characters are shown after the next tick of the reveal.
pub fn reveal_step(current: usize, total: usize) -> (r: usize)
    ensures
        r as nat == spec_reveal_step(current as nat, total as nat),
{
    if current >= total {
        return current;
    }
    let behind = total - current;
    let step = if behind > 40 {
        if behind / 20 >= 1 {
            behind / 20
        } else {
            1
        }
    } else {
        1
    };
    if step <= total - current {
        current + step
    } else {
        total
    }
}

/// The milliseconds between ticks for a speed in characters per second;
/// `None` when the reveal is off (speed 0).
pub fn reveal_interval_ms(speed: u32) -> (r: Option<u32>)
    ensures
        r == (if speed == 0 {
            None
        } else {
            Some((1000u32 / speed) as u32)
        }),
{
    if speed == 0 {
        None
    } else {
        Some(1000 / speed)
    }
}

/// The part of the streamed reply shown: all of it with the reveal off,
/// else its first `revealed` characters.
pub fn revealed_text(full: &str, revealed: usize, speed: u32) -> (r: String)
    ensures
        r@ == (if speed == 0 {
            full@
        } else if revealed <= full@.len() {
            full@.take(revealed as int)
        } else {
            full@
        }),
{
    if speed == 0 {
        return full.to_string();
    }
    let cs = to_chars(full);
    if revealed <= cs.len() {
        from_chars(&crate::text::slice_vec(&cs, 0, revealed))
    } else {
        from_chars(&cs)
    }
}

// ---------------------------------------------------------------------------
// laws
// ---------------------------------------------------------------------------

/// A delta extends the reply text by exactly the delta.
pub proof fn law_delta_extends_transcript(s: GenStateV, delta: Seq<char>)
    ensures
        transcript(GenStateV { streaming_reply: s.streaming_reply + delta, ..s }) == transcript(s)
            + delta,
{
    assert(log_text(s.group_reply_log) + (s.streaming_reply + delta) =~= log_text(
        s.group_reply_log,
    ) + s.streaming_reply + delta);
}

/// A member switch loses no reply text: what the previous member said
/// moves into the log. (Text streamed before any member event, with no
/// member to log it under, is dropped: the one case left out.)
pub proof fn law_member_switch_keeps_transcript(s: GenStateV, id: Seq<char>, name: Seq<char>)
    requires
        s.current_member is Some || s.streaming_reply.len() == 0,
    ensures
        transcript(spec_switch_member(s, true, id, name)) == transcript(s),
        spec_switch_member(s, true, id, name).current_member == Some((id, name)),
        spec_switch_member(s, true, id, name).streaming_reply.len() == 0,
{
    let t = spec_switch_member(s, true, id, name);
    match s.current_member {
        Some((pid, pname)) => {
            if s.streaming_reply.len() > 0 {
                let log = s.group_reply_log.push((pid, pname, s.streaming_reply));
                assert(log.drop_last() =~= s.group_reply_log);
                assert(log_text(log) == log_text(s.group_reply_log) + s.streaming_reply);
                assert(transcript(t) =~= log_text(log) + Seq::<char>::empty());
            } else {
                assert(transcript(t) =~= transcript(s));
            }
        },
        None => {
            assert(transcript(t) =~= transcript(s));
        },
    }
}

/// Member switches are ignored where they are not tracked (continue,
/// respond-as-me).
pub proof fn law_untracked_switch_is_ignored(s: GenStateV, id: Seq<char>, name: Seq<char>)
    ensures
        spec_switch_member(s, false, id, name) == s,
{
}

/// Starting a generation then finishing it leaves the chat idle: not
/// generating, with no reply, member, log or regenerated message.
pub proof fn law_start_then_finish_is_idle(s: GenStateV, self_reply: bool)
    ensures
        ({
            let f = spec_finish_reply(spec_start_generation(s, self_reply));
            &&& !f.is_generating
            &&& f.streaming_reply.len() == 0
            &&& f.current_member is None
            &&& f.group_reply_log.len() == 0
            &&& f.regenerating_msg_id is None
        }),
{
}

/// The reveal never shows more than the reply, never goes back, and
/// advances while anything is still hidden.
pub proof fn law_reveal_progresses(current: nat, total: nat)
    ensures
        current <= total ==> spec_reveal_step(current, total) <= total,
        spec_reveal_step(current, total) >= current,
        current < total ==> spec_reveal_step(current, total) > current,
        current >= total ==> spec_reveal_step(current, total) == current,
{
}

/// Stepping through the greetings one way and back returns to the same
/// greeting, at either end of the list too.
pub proof fn law_greeting_steps_undo(index: int, total: int)
    requires
        0 <= index < total,
    ensures
        spec_next_greeting(spec_prev_greeting(index, total), total) == index,
        spec_prev_greeting(spec_next_greeting(index, total), total) == index,
{
}

} // verus!
