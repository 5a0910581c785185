//! Navigating a chat's message tree: the active branch, sibling versions,
//! the tree rebuilt from a branch, subtrees merged in, and what deleting
//! or regenerating acts on.

use vstd::prelude::*;
use crate::models::{
    copy_opt, copy_strs, nodes_view, opt_view, strs_view, ChatCharacter, GroupWithMembers,
    MessageNode, MessageNodeV, MessageTree,
};
use crate::text::{from_chars, push_all, to_chars, chars_eq};

verus! {

// ---------------------------------------------------------------------------
// looking messages up
// ---------------------------------------------------------------------------

/// The first index at or after `i` of the message with id `id`.
pub open spec fn index_from(msgs: Seq<MessageNodeV>, id: Seq<char>, i: int) -> Option<int>
    decreases msgs.len() - i,
{
    if i < 0 || i >= msgs.len() {
        None
    } else if msgs[i].id == id {
        Some(i)
    } else {
        index_from(msgs, id, i + 1)
    }
}

/// The index of the message with id `id`.
pub open spec fn msg_index(msgs: Seq<MessageNodeV>, id: Seq<char>) -> Option<int> {
    index_from(msgs, id, 0)
}

/// The invariant of a tree's messages: no two share an id.
pub open spec fn ids_unique(msgs: Seq<MessageNodeV>) -> bool {
    forall|i: int, j: int| 0 <= i < msgs.len() && 0 <= j < msgs.len() && i != j ==> msgs[i].id != msgs[j].id
}

proof fn lemma_index_from(msgs: Seq<MessageNodeV>, id: Seq<char>, i: int)
    requires
        0 <= i,
    ensures
        match index_from(msgs, id, i) {
            Some(k) => i <= k < msgs.len() && msgs[k].id == id && forall|j: int|
                i <= j < k ==> msgs[j].id != id,
            None => forall|j: int| i <= j < msgs.len() ==> msgs[j].id != id,
        },
    decreases msgs.len() - i,
{
    if i < msgs.len() && msgs[i].id != id {
        lemma_index_from(msgs, id, i + 1);
    }
}

/// The position of the message with id `id` in `msgs`.
pub fn find_message(msgs: &Vec<MessageNode>, id: &String) -> (r: Option<usize>)
    ensures
        match r {
            Some(k) => msg_index(nodes_view(msgs@), id@) == Some(k as int) && k < msgs@.len(),
            None => msg_index(nodes_view(msgs@), id@) is None,
        },
{
    let ghost v = nodes_view(msgs@);
    let mut i: usize = 0;
    while i < msgs.len()
        invariant
            i <= msgs@.len(),
            v == nodes_view(msgs@),
            msg_index(v, id@) == index_from(v, id@, i as int),
        decreases msgs@.len() - i,
    {
        if msgs[i].id == *id {
            return Some(i);
        }
        i = i + 1;
    }
    None
}

/// The copy of `msgs` with `node` in place of the message with its id, or
/// added at the end when there is none (a map insertion keyed by id).
pub open spec fn insert_node(msgs: Seq<MessageNodeV>, node: MessageNodeV) -> Seq<MessageNodeV> {
    match msg_index(msgs, node.id) {
        Some(k) => msgs.update(k, node),
        None => msgs.push(node),
    }
}

fn insert_node_exec(msgs: &mut Vec<MessageNode>, node: MessageNode)
    ensures
        nodes_view(final(msgs)@) == insert_node(nodes_view(old(msgs)@), node@),
{
    let found = find_message(msgs, &node.id);
    let ghost before = msgs@;
    match found {
        Some(k) => {
            msgs.set(k, node);
            proof {
                assert(nodes_view(msgs@) =~= nodes_view(before).update(k as int, node@));
            }
        },
        None => {
            msgs.push(node);
            proof {
                assert(nodes_view(msgs@) =~= nodes_view(before).push(node@));
            }
        },
    }
}

/// `child` added to the children of the message at `k`, unless already there.
pub open spec fn add_child(msgs: Seq<MessageNodeV>, k: int, child: Seq<char>) -> Seq<MessageNodeV> {
    if msgs[k].children.contains(child) {
        msgs
    } else {
        msgs.update(k, MessageNodeV { children: msgs[k].children.push(child), ..msgs[k] })
    }
}

fn contains_str(v: &Vec<String>, s: &String) -> (r: bool)
    ensures
        r == strs_view(v@).contains(s@),
{
    let mut i: usize = 0;
    while i < v.len()
        invariant
            i <= v@.len(),
            forall|j: int| 0 <= j < i ==> v@[j]@ != s@,
        decreases v@.len() - i,
    {
        if v[i] == *s {
            proof {
                assert(strs_view(v@)[i as int] == s@);
            }
            return true;
        }
        i = i + 1;
    }
    proof {
        if strs_view(v@).contains(s@) {
            let j = choose|j: int| 0 <= j < strs_view(v@).len() && strs_view(v@)[j] == s@;
            assert(v@[j]@ == s@);
        }
    }
    false
}

fn add_child_exec(msgs: &mut Vec<MessageNode>, k: usize, child: &String)
    requires
        k < old(msgs)@.len(),
    ensures
        nodes_view(final(msgs)@) == add_child(nodes_view(old(msgs)@), k as int, child@),
{
    let ghost before = msgs@;
    if contains_str(&msgs[k].children, child) {
        return;
    }
    let mut node = msgs[k].copy();
    let ghost n0 = node@;
    node.children.push(child.clone());
    proof {
        assert(strs_view(node.children@) =~= n0.children.push(child@));
        assert(node@ == MessageNodeV { children: n0.children.push(child@), ..n0 });
    }
    msgs.set(k, node);
    proof {
        assert(nodes_view(msgs@) =~= nodes_view(before).update(
            k as int,
            MessageNodeV { children: n0.children.push(child@), ..n0 },
        ));
    }
}

// ---------------------------------------------------------------------------
// the active branch
// ---------------------------------------------------------------------------

/// The child chosen at `parent`: the last selection recorded for it.
pub open spec fn selected_child(sel: Seq<(Seq<char>, Seq<char>)>, parent: Seq<char>) -> Option<Seq<char>>
    decreases sel.len(),
{
    if sel.len() == 0 {
        None
    } else if sel.last().0 == parent {
        Some(sel.last().1)
    } else {
        selected_child(sel.drop_last(), parent)
    }
}

/// The views of selection pairs.
pub open spec fn pairs_view(v: Seq<(String, String)>) -> Seq<(Seq<char>, Seq<char>)> {
    Seq::new(v.len(), |i: int| (v[i].0@, v[i].1@))
}

/// The child the walk follows from `node`: the selected one, else the last (newest).
pub open spec fn next_child(sel: Seq<(Seq<char>, Seq<char>)>, node: MessageNodeV) -> Seq<char> {
    match selected_child(sel, node.id) {
        Some(c) => c,
        None => node.children.last(),
    }
}

/// The branch from `cur` down: each message, then the branch from the child
/// followed, ending at a message without children or an id not in the tree;
/// at most `fuel` messages.
pub open spec fn walk(msgs: Seq<MessageNodeV>, sel: Seq<(Seq<char>, Seq<char>)>, cur: Seq<char>, fuel: nat) -> Seq<
    MessageNodeV,
>
    decreases fuel,
{
    if fuel == 0 {
        Seq::empty()
    } else {
        match msg_index(msgs, cur) {
            None => Seq::empty(),
            Some(k) => {
                let node = msgs[k];
                if node.children.len() == 0 {
                    seq![node]
                } else {
                    seq![node] + walk(msgs, sel, next_child(sel, node), (fuel - 1) as nat)
                }
            },
        }
    }
}

/// The active branch: the walk from the root, visiting at most as many
/// messages as the tree holds (so a tree whose links loop ends its walk
/// there instead of running forever).
pub open spec fn spec_walk_active_branch(tree_msgs: Seq<MessageNodeV>, root: Option<Seq<char>>, sel: Seq<
    (Seq<char>, Seq<char>),
>) -> Seq<MessageNodeV> {
    match root {
        None => Seq::empty(),
        Some(r) => walk(tree_msgs, sel, r, tree_msgs.len()),
    }
}

/// The recorded selection for `parent`, if any.
pub fn selected_child_exec(sel: &Vec<(String, String)>, parent: &String) -> (r: Option<String>)
    ensures
        opt_view(r) == selected_child(pairs_view(sel@), parent@),
{
    let ghost pv = pairs_view(sel@);
    let mut i: usize = sel.len();
    proof {
        assert(pv.take(i as int) =~= pv);
    }
    while i > 0
        invariant
            i <= sel@.len(),
            pv == pairs_view(sel@),
            selected_child(pv, parent@) == selected_child(pv.take(i as int), parent@),
        decreases i,
    {
        proof {
            assert(pv.take(i as int).drop_last() =~= pv.take(i - 1));
            assert(pv.take(i as int).last() == pv[i - 1]);
        }
        if sel[i - 1].0 == *parent {
            return Some(sel[i - 1].1.clone());
        }
        i = i - 1;
    }
    None
}

/// The invariant of a selection list: each parent occurs at most once.
pub open spec fn parents_unique(sel: Seq<(Seq<char>, Seq<char>)>) -> bool {
    forall|i: int, j: int| 0 <= i < sel.len() && 0 <= j < sel.len() && i != j ==> sel[i].0 != sel[j].0
}

proof fn lemma_selected_after_update(
    sel: Seq<(Seq<char>, Seq<char>)>,
    i: int,
    pair: (Seq<char>, Seq<char>),
    p: Seq<char>,
)
    requires
        0 <= i < sel.len(),
        pair.0 == sel[i].0,
        forall|j: int| i < j < sel.len() ==> sel[j].0 != pair.0,
    ensures
        selected_child(sel.update(i, pair), p) == if p == pair.0 {
            Some(pair.1)
        } else {
            selected_child(sel, p)
        },
    decreases sel.len(),
{
    let u = sel.update(i, pair);
    if i < sel.len() - 1 {
        assert(u.drop_last() =~= sel.drop_last().update(i, pair));
        lemma_selected_after_update(sel.drop_last(), i, pair, p);
    } else {
        assert(u.drop_last() =~= sel.drop_last());
    }
}

/// Records `child` as the version chosen at `parent`, replacing an earlier
/// choice there; the choices at every other parent stay as they were.
pub fn record_selection(sel: &mut Vec<(String, String)>, parent: String, child: String)
    ensures
        forall|p: Seq<char>|
            #[trigger] selected_child(pairs_view(final(sel)@), p) == if p == parent@ {
                Some(child@)
            } else {
                selected_child(pairs_view(old(sel)@), p)
            },
        parents_unique(pairs_view(old(sel)@)) ==> parents_unique(pairs_view(final(sel)@)),
{
    let ghost pv = pairs_view(sel@);
    let mut i: usize = sel.len();
    while i > 0
        invariant
            i <= sel@.len(),
            pv == pairs_view(sel@),
            sel@ == old(sel)@,
            forall|j: int| i <= j < pv.len() ==> pv[j].0 != parent@,
        decreases i,
    {
        if sel[i - 1].0 == parent {
            let ghost pair = (parent@, child@);
            sel.set(i - 1, (parent, child));
            proof {
                assert(pairs_view(sel@) =~= pv.update(i - 1, pair));
                assert forall|p: Seq<char>| #[trigger] selected_child(pairs_view(sel@), p) == if p
                    == pair.0 {
                    Some(pair.1)
                } else {
                    selected_child(pv, p)
                } by {
                    lemma_selected_after_update(pv, i - 1, pair, p);
                }
            }
            return;
        }
        i = i - 1;
    }
    let ghost pair = (parent@, child@);
    sel.push((parent, child));
    proof {
        assert(pairs_view(sel@) =~= pv.push(pair));
        assert(pv.push(pair).drop_last() =~= pv);
    }
}

/// Walks the active branch from root to leaf, following the selected child
/// at each message, or the last (most recent) child where none is selected.
pub fn walk_active_branch(tree: &MessageTree, selected_children: &Vec<(String, String)>) -> (r: Vec<
    MessageNode,
>)
    ensures
        nodes_view(r@) == spec_walk_active_branch(
            nodes_view(tree.messages@),
            opt_view(tree.root_id),
            pairs_view(selected_children@),
        ),
{
    let ghost msgs = nodes_view(tree.messages@);
    let ghost sel = pairs_view(selected_children@);
    let mut branch: Vec<MessageNode> = Vec::new();
    let mut current_id = match &tree.root_id {
        Some(id) => id.clone(),
        None => {
            return branch;
        },
    };
    let mut fuel: usize = tree.messages.len();
    proof {
        assert(nodes_view(branch@) + walk(msgs, sel, current_id@, fuel as nat) =~= walk(
            msgs,
            sel,
            current_id@,
            fuel as nat,
        ));
    }
    loop
        invariant_except_break
            nodes_view(branch@) + walk(msgs, sel, current_id@, fuel as nat) == spec_walk_active_branch(
                msgs,
                opt_view(tree.root_id),
                sel,
            ),
        invariant
            msgs == nodes_view(tree.messages@),
            sel == pairs_view(selected_children@),
        ensures
            nodes_view(branch@) == spec_walk_active_branch(msgs, opt_view(tree.root_id), sel),
        decreases fuel,
    {
        let ghost before = branch@;
        if fuel == 0 {
            proof {
                assert(nodes_view(branch@) + Seq::<MessageNodeV>::empty() =~= nodes_view(branch@));
            }
            break;
        }
        let found = find_message(&tree.messages, &current_id);
        let k = match found {
            Some(k) => k,
            None => {
                proof {
                    assert(nodes_view(branch@) + Seq::<MessageNodeV>::empty() =~= nodes_view(branch@));
                }
                break;
            },
        };
        let node = tree.messages[k].copy();
        proof {
            assert(node@ == msgs[k as int]);
        }
        if node.children.len() == 0 {
            branch.push(node);
            proof {
                assert(strs_view(node.children@).len() == 0);
                assert(nodes_view(branch@) =~= nodes_view(before) + seq![node@]);
            }
            break;
        }
        let next = match selected_child_exec(selected_children, &node.id) {
            Some(c) => c,
            None => node.children[node.children.len() - 1].clone(),
        };
        proof {
            assert(next@ == next_child(sel, node@));
        }
        branch.push(node);
        proof {
            let rest = walk(msgs, sel, next@, (fuel - 1) as nat);
            assert(nodes_view(branch@) =~= nodes_view(before).push(node@));
            assert(nodes_view(before) + (seq![node@] + rest) =~= nodes_view(before).push(node@) + rest);
        }
        current_id = next;
        fuel = fuel - 1;
    }
    branch
}

// ---------------------------------------------------------------------------
// facts about the branch
// ---------------------------------------------------------------------------

/// `assistant`
pub open spec fn assistant_role() -> Seq<char> {
    seq!['a', 's', 's', 'i', 's', 't', 'a', 'n', 't']
}

/// Whether a role is the assistant's.
pub fn is_assistant(role: &String) -> (r: bool)
    ensures
        r == (role@ == assistant_role()),
{
    let a = vec!['a', 's', 's', 'i', 's', 't', 'a', 'n', 't'];
    proof {
        assert(a@ =~= assistant_role());
    }
    let rc = to_chars(role.as_str());
    chars_eq(&rc, &a)
}

/// The message a regeneration replaces the reply to: the parent of the
/// branch's last message, when that is an assistant reply.
pub open spec fn spec_regeneration_parent_id(branch: Seq<MessageNodeV>) -> Option<Seq<char>> {
    if branch.len() > 0 && branch.last().role == assistant_role() {
        branch.last().parent_id
    } else {
        None
    }
}

/// The parent a regeneration starts from, when the branch ends in an
/// assistant reply.
pub fn regeneration_parent_id(branch: &[MessageNode]) -> (r: Option<String>)
    ensures
        opt_view(r) == spec_regeneration_parent_id(nodes_view(branch@)),
{
    let n = branch.len();
    if n == 0 {
        return None;
    }
    if is_assistant(&branch[n - 1].role) {
        copy_opt(&branch[n - 1].parent_id)
    } else {
        None
    }
}

/// Whether the branch ends in an assistant reply (so it can be continued).
pub fn leaf_is_assistant(branch: &Vec<MessageNode>) -> (r: bool)
    ensures
        r == (branch@.len() > 0 && branch@.last().role@ == assistant_role()),
{
    let n = branch.len();
    n > 0 && is_assistant(&branch[n - 1].role)
}

/// The id of the last message of the branch that is not deleted.
pub open spec fn spec_last_shown_id(branch: Seq<MessageNodeV>) -> Option<Seq<char>>
    decreases branch.len(),
{
    if branch.len() == 0 {
        None
    } else if !branch.last().deleted {
        Some(branch.last().id)
    } else {
        spec_last_shown_id(branch.drop_last())
    }
}

/// The last message shown (not deleted): the one offered for regeneration.
pub fn last_shown_id(branch: &Vec<MessageNode>) -> (r: Option<String>)
    ensures
        opt_view(r) == spec_last_shown_id(nodes_view(branch@)),
{
    let ghost v = nodes_view(branch@);
    let mut i: usize = branch.len();
    proof {
        assert(v.take(i as int) =~= v);
    }
    while i > 0
        invariant
            i <= branch@.len(),
            v == nodes_view(branch@),
            spec_last_shown_id(v) == spec_last_shown_id(v.take(i as int)),
        decreases i,
    {
        proof {
            assert(v.take(i as int).drop_last() =~= v.take(i - 1));
            assert(v.take(i as int).last() == v[i - 1]);
        }
        if !branch[i - 1].deleted {
            return Some(branch[i - 1].id.clone());
        }
        i = i - 1;
    }
    None
}

/// The ids of a list of messages.
pub open spec fn ids_of(v: Seq<MessageNodeV>) -> Seq<Seq<char>> {
    Seq::new(v.len(), |i: int| v[i].id)
}

/// The first position of the message with id `id` in the branch.
pub open spec fn branch_position(branch: Seq<MessageNodeV>, id: Seq<char>) -> Option<int> {
    msg_index(branch, id)
}

/// What "delete this and all below it" deletes, in the order it deletes
/// them: the messages of the branch from `id` to the leaf, leaf first;
/// nothing when `id` is not on the branch.
pub open spec fn spec_ids_to_delete_below(branch: Seq<MessageNodeV>, id: Seq<char>) -> Option<Seq<Seq<char>>> {
    match branch_position(branch, id) {
        Some(k) => Some(ids_of(branch.skip(k)).reverse()),
        None => None,
    }
}

/// The ids "delete this and all below it" removes, leaf first.
pub fn ids_to_delete_below(branch: &Vec<MessageNode>, message_id: &String) -> (r: Option<Vec<String>>)
    ensures
        match r {
            Some(ids) => spec_ids_to_delete_below(nodes_view(branch@), message_id@) == Some(
                strs_view(ids@),
            ),
            None => spec_ids_to_delete_below(nodes_view(branch@), message_id@) is None,
        },
{
    let ghost v = nodes_view(branch@);
    let k = match find_message(branch, message_id) {
        Some(k) => k,
        None => {
            return None;
        },
    };
    let ghost tail = ids_of(v.skip(k as int));
    let mut out: Vec<String> = Vec::new();
    let mut i: usize = branch.len();
    while i > k
        invariant
            k <= i <= branch@.len(),
            v == nodes_view(branch@),
            tail == ids_of(v.skip(k as int)),
            strs_view(out@) == tail.reverse().take(branch@.len() - i),
        decreases i,
    {
        let ghost before = out@;
        out.push(branch[i - 1].id.clone());
        proof {
            assert(strs_view(out@) =~= strs_view(before).push(branch@[i - 1].id@));
            assert(tail.reverse().take(branch@.len() - i + 1) =~= tail.reverse().take(
                branch@.len() - i,
            ).push(tail.reverse()[branch@.len() - i]));
            assert(tail.reverse()[branch@.len() - i] == tail[tail.len() - 1 - (branch@.len() - i)]);
        }
        i = i - 1;
    }
    proof {
        assert(tail.reverse().take(branch@.len() - k) =~= tail.reverse());
    }
    Some(out)
}

/// The branch point after choosing `message_id`: choosing the chosen one
/// again clears it.
pub fn toggle_branch_point(current: &Option<String>, message_id: String) -> (r: Option<String>)
    ensures
        opt_view(r) == (if opt_view(*current) == Some(message_id@) {
            None
        } else {
            Some(message_id@)
        }),
{
    match current {
        Some(c) => if *c == message_id {
            None
        } else {
            Some(message_id)
        },
        None => Some(message_id),
    }
}

/// The message a new user message is sent as a reply to: the chosen branch
/// point, else the last message of the active branch.
pub fn send_parent_id(branch_point: &Option<String>, branch: &Vec<MessageNode>) -> (r: Option<String>)
    ensures
        opt_view(r) == (match opt_view(*branch_point) {
            Some(p) => Some(p),
            None => if branch@.len() > 0 {
                Some(branch@.last().id@)
            } else {
                None
            },
        }),
{
    match branch_point {
        Some(p) => Some(p.clone()),
        None => {
            let n = branch.len();
            if n > 0 {
                Some(branch[n - 1].id.clone())
            } else {
                None
            }
        },
    }
}

// ---------------------------------------------------------------------------
// sibling versions
// ---------------------------------------------------------------------------

/// Where a message stands among its siblings, when its parent is in the tree
/// and has more than one child: the parent's id, the number of siblings and
/// the message's position among them (0 when not listed).
pub open spec fn spec_sibling_position(msgs: Seq<MessageNodeV>, node: MessageNodeV) -> Option<
    (Seq<char>, nat, nat),
> {
    match node.parent_id {
        Some(pid) => match msg_index(msgs, pid) {
            Some(k) => if msgs[k].children.len() > 1 {
                Some(
                    (
                        pid,
                        msgs[k].children.len(),
                        match child_position(msgs[k].children, node.id) {
                            Some(p) => p,
                            None => 0,
                        },
                    ),
                )
            } else {
                None
            },
            None => None,
        },
        None => None,
    }
}

/// The first position of `id` among `children`.
pub open spec fn child_position(children: Seq<Seq<char>>, id: Seq<char>) -> Option<nat>
    decreases children.len(),
{
    if children.len() == 0 {
        None
    } else if children[0] == id {
        Some(0)
    } else {
        match child_position(children.drop_first(), id) {
            Some(p) => Some(p + 1),
            None => None,
        }
    }
}

fn child_position_exec(children: &Vec<String>, id: &String) -> (r: Option<usize>)
    ensures
        match r {
            Some(p) => child_position(strs_view(children@), id@) == Some(p as nat),
            None => child_position(strs_view(children@), id@) is None,
        },
{
    let ghost v = strs_view(children@);
    let mut i: usize = 0;
    proof {
        assert(v.skip(0) =~= v);
    }
    while i < children.len()
        invariant
            i <= children@.len(),
            v == strs_view(children@),
            child_position(v, id@) == match child_position(v.skip(i as int), id@) {
                Some(p) => Some((p + i) as nat),
                None => None,
            },
        decreases children@.len() - i,
    {
        proof {
            assert(v.skip(i as int)[0] == v[i as int]);
            assert(v.skip(i as int).drop_first() =~= v.skip(i + 1));
        }
        if children[i] == *id {
            return Some(i);
        }
        i = i + 1;
    }
    proof {
        assert(v.skip(i as int).len() == 0);
    }
    None
}

/// A message's place among its sibling versions.
pub struct SiblingPosition {
    pub parent_id: String,
    pub total: usize,
    pub index: usize,
}

/// Where `node` stands among its sibling versions in `tree`, if it has any.
pub fn sibling_position(tree: &MessageTree, node: &MessageNode) -> (r: Option<SiblingPosition>)
    ensures
        match r {
            Some(p) => spec_sibling_position(nodes_view(tree.messages@), node@) == Some(
                (p.parent_id@, p.total as nat, p.index as nat),
            ),
            None => spec_sibling_position(nodes_view(tree.messages@), node@) is None,
        },
{
    let pid = match &node.parent_id {
        Some(p) => p,
        None => {
            return None;
        },
    };
    let k = match find_message(&tree.messages, pid) {
        Some(k) => k,
        None => {
            return None;
        },
    };
    let parent = &tree.messages[k];
    if parent.children.len() <= 1 {
        return None;
    }
    let index = match child_position_exec(&parent.children, &node.id) {
        Some(p) => p,
        None => 0,
    };
    Some(SiblingPosition { parent_id: pid.clone(), total: parent.children.len(), index })
}

/// The versions before and after position `index` among the children of
/// `parent_id`, when there are such.
pub fn sibling_neighbours(tree: &MessageTree, parent_id: &String, index: usize) -> (r: (
    Option<String>,
    Option<String>,
))
    ensures
        opt_view(r.0) == (match msg_index(nodes_view(tree.messages@), parent_id@) {
            Some(k) => if 0 < index && index - 1 < nodes_view(tree.messages@)[k].children.len() {
                Some(nodes_view(tree.messages@)[k].children[index - 1])
            } else {
                None
            },
            None => None,
        }),
        opt_view(r.1) == (match msg_index(nodes_view(tree.messages@), parent_id@) {
            Some(k) => if index + 1 < nodes_view(tree.messages@)[k].children.len() {
                Some(nodes_view(tree.messages@)[k].children[index + 1])
            } else {
                None
            },
            None => None,
        }),
{
    match find_message(&tree.messages, parent_id) {
        None => (None, None),
        Some(k) => {
            let children = &tree.messages[k].children;
            let prev = if 0 < index && index - 1 < children.len() {
                Some(children[index - 1].clone())
            } else {
                None
            };
            let next = if index < children.len() && index + 1 < children.len() {
                Some(children[index + 1].clone())
            } else {
                None
            };
            (prev, next)
        },
    }
}

/// Whether the version shown differs from the confirmed one: from the
/// recorded confirmation, or, with none, from the newest version.
pub fn sibling_is_dirty(confirmed: &Option<String>, current_id: &String, current: usize, total: usize) -> (r: bool)
    ensures
        r == (match opt_view(*confirmed) {
            Some(c) => c != current_id@,
            None => current != total,
        }),
{
    match confirmed {
        Some(c) => !(*c == *current_id),
        None => current != total,
    }
}

// ---------------------------------------------------------------------------
// the tree rebuilt from the active branch
// ---------------------------------------------------------------------------

/// The state of rebuilding a tree from a branch: the messages so far, the
/// root found so far and the previous message's id.
pub struct RebuildV {
    pub msgs: Seq<MessageNodeV>,
    pub root: Option<Seq<char>>,
    pub prev: Option<Seq<char>>,
}

/// One message of the branch added: it is the root when it has no parent,
/// it becomes a child of the previous message, and it is inserted by id.
pub open spec fn rebuild_step(st: RebuildV, msg: MessageNodeV) -> RebuildV {
    let root = if msg.parent_id is None {
        Some(msg.id)
    } else {
        st.root
    };
    let linked = match st.prev {
        Some(pid) => match msg_index(st.msgs, pid) {
            Some(k) => add_child(st.msgs, k, msg.id),
            None => st.msgs,
        },
        None => st.msgs,
    };
    RebuildV { msgs: insert_node(linked, msg), root, prev: Some(msg.id) }
}

/// The rebuild after every message of `branch`, in order.
pub open spec fn rebuild(branch: Seq<MessageNodeV>) -> RebuildV
    decreases branch.len(),
{
    if branch.len() == 0 {
        RebuildV { msgs: Seq::empty(), root: None, prev: None }
    } else {
        rebuild_step(rebuild(branch.drop_last()), branch.last())
    }
}

/// The tree rebuilt from just the active branch (used when the full tree
/// cannot be loaded): each message linked under the one before it.
pub fn tree_from_branch(branch: &Vec<MessageNode>) -> (r: MessageTree)
    ensures
        nodes_view(r.messages@) == rebuild(nodes_view(branch@)).msgs,
        opt_view(r.root_id) == rebuild(nodes_view(branch@)).root,
        r.character is None,
        r.group is None,
        ids_unique(nodes_view(r.messages@)),
{
    let ghost bv = nodes_view(branch@);
    let mut msgs: Vec<MessageNode> = Vec::new();
    let mut root_id: Option<String> = None;
    let mut prev_id: Option<String> = None;
    let mut i: usize = 0;
    proof {
        assert(bv.take(0) =~= Seq::<MessageNodeV>::empty());
        assert(nodes_view(msgs@) =~= Seq::<MessageNodeV>::empty());
    }
    while i < branch.len()
        invariant
            i <= branch@.len(),
            bv == nodes_view(branch@),
            rebuild(bv.take(i as int)) == (RebuildV {
                msgs: nodes_view(msgs@),
                root: opt_view(root_id),
                prev: opt_view(prev_id),
            }),
            ids_unique(nodes_view(msgs@)),
        decreases branch@.len() - i,
    {
        let msg = &branch[i];
        proof {
            assert(bv.take(i + 1).drop_last() =~= bv.take(i as int));
            assert(bv.take(i + 1).last() == msg@);
        }
        if msg.parent_id.is_none() {
            root_id = Some(msg.id.clone());
        }
        match &prev_id {
            Some(pid) => {
                match find_message(&msgs, pid) {
                    Some(k) => {
                        proof {
                            lemma_add_child_unique(nodes_view(msgs@), k as int, msg.id@);
                        }
                        add_child_exec(&mut msgs, k, &msg.id);
                    },
                    None => {},
                }
            },
            None => {},
        }
        proof {
            lemma_insert_node_unique(nodes_view(msgs@), msg@);
        }
        insert_node_exec(&mut msgs, msg.copy());
        prev_id = Some(msg.id.clone());
        i = i + 1;
    }
    proof {
        assert(bv.take(branch@.len() as int) =~= bv);
    }
    MessageTree { root_id, messages: msgs, character: None, group: None }
}

// ---------------------------------------------------------------------------
// merging a loaded subtree
// ---------------------------------------------------------------------------

/// One loaded message merged: a message already in the tree is kept as it
/// is; a new one is listed among its parent's children (if the parent is in
/// the tree and does not list it yet) and added.
pub open spec fn merge_step(msgs: Seq<MessageNodeV>, node: MessageNodeV) -> Seq<MessageNodeV> {
    if msg_index(msgs, node.id) is Some {
        msgs
    } else {
        let linked = match node.parent_id {
            Some(pid) => match msg_index(msgs, pid) {
                Some(k) => add_child(msgs, k, node.id),
                None => msgs,
            },
            None => msgs,
        };
        insert_node(linked, node)
    }
}

/// The tree's messages after merging `extra`, in order.
pub open spec fn merge_all(msgs: Seq<MessageNodeV>, extra: Seq<MessageNodeV>) -> Seq<MessageNodeV>
    decreases extra.len(),
{
    if extra.len() == 0 {
        msgs
    } else {
        merge_step(merge_all(msgs, extra.drop_last()), extra.last())
    }
}

/// Merges the messages of a loaded subtree into the tree.
pub fn merge_subtree(tree: &mut MessageTree, extra: Vec<MessageNode>)
    ensures
        nodes_view(final(tree).messages@) == merge_all(
            nodes_view(old(tree).messages@),
            nodes_view(extra@),
        ),
        final(tree).root_id == old(tree).root_id,
        ids_unique(nodes_view(old(tree).messages@)) ==> ids_unique(nodes_view(final(tree).messages@)),
{
    let ghost start = nodes_view(tree.messages@);
    let ghost ev = nodes_view(extra@);
    let mut i: usize = 0;
    proof {
        assert(ev.take(0) =~= Seq::<MessageNodeV>::empty());
    }
    while i < extra.len()
        invariant
            i <= extra@.len(),
            ev == nodes_view(extra@),
            nodes_view(tree.messages@) == merge_all(start, ev.take(i as int)),
            tree.root_id == old(tree).root_id,
        decreases extra@.len() - i,
    {
        let node = &extra[i];
        proof {
            assert(ev.take(i + 1).drop_last() =~= ev.take(i as int));
            assert(ev.take(i + 1).last() == node@);
        }
        if find_message(&tree.messages, &node.id).is_none() {
            match &node.parent_id {
                Some(pid) => {
                    match find_message(&tree.messages, pid) {
                        Some(k) => add_child_exec(&mut tree.messages, k, &node.id),
                        None => {},
                    }
                },
                None => {},
            }
            insert_node_exec(&mut tree.messages, node.copy());
        }
        i = i + 1;
    }
    proof {
        assert(ev.take(extra@.len() as int) =~= ev);
        if ids_unique(start) {
            lemma_merge_all_unique(start, ev);
        }
    }
}

// ---------------------------------------------------------------------------
// laws
// ---------------------------------------------------------------------------

/// Every message of a walk is a message of the tree, the walk starts at
/// `cur`, and each message after the first is the child followed from the
/// one before it (the selected child, else the newest); the walk never
/// visits more than `fuel` messages.
pub proof fn law_walk_follows_selection(
    msgs: Seq<MessageNodeV>,
    sel: Seq<(Seq<char>, Seq<char>)>,
    cur: Seq<char>,
    fuel: nat,
)
    ensures
        ({
            let b = walk(msgs, sel, cur, fuel);
            &&& b.len() <= fuel
            &&& b.len() > 0 ==> b[0].id == cur
            &&& forall|i: int| 0 <= i < b.len() ==> #[trigger] msgs.contains(b[i])
            &&& forall|i: int|
                #![trigger b[i]]
                0 <= i < b.len() - 1 ==> b[i + 1].id == next_child(sel, b[i]) && b[i].children.len()
                    > 0
        }),
    decreases fuel,
{
    if fuel > 0 {
        match msg_index(msgs, cur) {
            None => {},
            Some(k) => {
                lemma_index_from(msgs, cur, 0);
                let node = msgs[k];
                assert(msgs.contains(node));
                if node.children.len() > 0 {
                    let nx = next_child(sel, node);
                    law_walk_follows_selection(msgs, sel, nx, (fuel - 1) as nat);
                    let rest = walk(msgs, sel, nx, (fuel - 1) as nat);
                    let b = walk(msgs, sel, cur, fuel);
                    assert(b == seq![node] + rest);
                    assert forall|i: int| 0 <= i < b.len() implies #[trigger] msgs.contains(b[i]) by {
                        if i > 0 {
                            assert(b[i] == rest[i - 1]);
                        }
                    }
                    assert forall|i: int| #![trigger b[i]] 0 <= i < b.len() - 1 implies b[i + 1].id
                        == next_child(sel, b[i]) && b[i].children.len() > 0 by {
                        if i == 0 {
                            assert(b[0] == node);
                            assert(b[1] == rest[0]);
                        } else {
                            assert(b[i] == rest[i - 1]);
                            assert(b[i + 1] == rest[i]);
                        }
                    }
                }
            },
        }
    }
}

/// Choosing the same message as branch point twice leaves no branch point;
/// choosing another one replaces it.
pub proof fn law_toggle_branch_point(current: Option<Seq<char>>, id: Seq<char>)
    ensures
        ({
            let once = if current == Some(id) {
                None
            } else {
                Some(id)
            };
            let twice = if once == Some(id) {
                None
            } else {
                Some(id)
            };
            &&& current != Some(id) ==> once == Some(id) && twice is None
            &&& current == Some(id) ==> once is None
        }),
{
}

/// `new` keeps every message of `old` in its place, with the same id, role,
/// content and parent, and its child list only extended.
pub open spec fn keeps_messages(old: Seq<MessageNodeV>, new: Seq<MessageNodeV>) -> bool {
    &&& old.len() <= new.len()
    &&& forall|k: int|
        0 <= k < old.len() ==> {
            &&& #[trigger] new[k].id == old[k].id
            &&& new[k].role == old[k].role
            &&& new[k].content == old[k].content
            &&& new[k].parent_id == old[k].parent_id
            &&& old[k].children.is_prefix_of(new[k].children)
        }
}

proof fn lemma_keeps_transitive(a: Seq<MessageNodeV>, b: Seq<MessageNodeV>, c: Seq<MessageNodeV>)
    requires
        keeps_messages(a, b),
        keeps_messages(b, c),
    ensures
        keeps_messages(a, c),
{
    assert forall|k: int| 0 <= k < a.len() implies #[trigger] c[k].id == a[k].id && c[k].role
        == a[k].role && c[k].content == a[k].content && c[k].parent_id == a[k].parent_id
        && a[k].children.is_prefix_of(c[k].children) by {
        assert(b[k].id == a[k].id);
        assert(c[k].id == b[k].id);
    }
}

proof fn lemma_add_child_keeps(msgs: Seq<MessageNodeV>, k: int, child: Seq<char>)
    requires
        0 <= k < msgs.len(),
    ensures
        keeps_messages(msgs, add_child(msgs, k, child)),
        add_child(msgs, k, child).len() == msgs.len(),
        forall|j: int| 0 <= j < msgs.len() ==> #[trigger] add_child(msgs, k, child)[j].id == msgs[j].id,
{
    let r = add_child(msgs, k, child);
    assert forall|j: int| 0 <= j < msgs.len() implies #[trigger] r[j].id == msgs[j].id && r[j].role
        == msgs[j].role && r[j].content == msgs[j].content && r[j].parent_id == msgs[j].parent_id
        && msgs[j].children.is_prefix_of(r[j].children) by {
        if j == k && !msgs[k].children.contains(child) {
            assert(msgs[k].children.is_prefix_of(msgs[k].children.push(child))) by {
                assert(msgs[k].children.push(child).subrange(0, msgs[k].children.len() as int)
                    =~= msgs[k].children);
            }
        } else {
            assert(msgs[j].children.subrange(0, msgs[j].children.len() as int) =~= msgs[j].children);
        }
    }
}

proof fn lemma_same_ids_same_index(a: Seq<MessageNodeV>, b: Seq<MessageNodeV>, id: Seq<char>, i: int)
    requires
        a.len() == b.len(),
        forall|j: int| 0 <= j < a.len() ==> #[trigger] b[j].id == a[j].id,
    ensures
        index_from(a, id, i) == index_from(b, id, i),
    decreases a.len() - i,
{
    if 0 <= i < a.len() {
        assert(b[i].id == a[i].id);
        lemma_same_ids_same_index(a, b, id, i + 1);
    }
}

proof fn lemma_merge_step_keeps(msgs: Seq<MessageNodeV>, node: MessageNodeV)
    ensures
        keeps_messages(msgs, merge_step(msgs, node)),
{
    if msg_index(msgs, node.id) is Some {
        assert forall|k: int| 0 <= k < msgs.len() implies msgs[k].children.is_prefix_of(
            msgs[k].children,
        ) by {
            assert(msgs[k].children.subrange(0, msgs[k].children.len() as int) =~= msgs[k].children);
        }
    } else {
        let linked = match node.parent_id {
            Some(pid) => match msg_index(msgs, pid) {
                Some(k) => add_child(msgs, k, node.id),
                None => msgs,
            },
            None => msgs,
        };
        match node.parent_id {
            Some(pid) => match msg_index(msgs, pid) {
                Some(k) => {
                    lemma_index_from(msgs, pid, 0);
                    lemma_add_child_keeps(msgs, k, node.id);
                    lemma_same_ids_same_index(msgs, linked, node.id, 0);
                },
                None => {
                    assert forall|k: int| 0 <= k < msgs.len() implies msgs[k].children.is_prefix_of(
                        msgs[k].children,
                    ) by {
                        assert(msgs[k].children.subrange(0, msgs[k].children.len() as int)
                            =~= msgs[k].children);
                    }
                },
            },
            None => {
                assert forall|k: int| 0 <= k < msgs.len() implies msgs[k].children.is_prefix_of(
                    msgs[k].children,
                ) by {
                    assert(msgs[k].children.subrange(0, msgs[k].children.len() as int)
                        =~= msgs[k].children);
                }
            },
        }
        assert(msg_index(linked, node.id) is None);
        let r = linked.push(node);
        assert(merge_step(msgs, node) == r);
        assert forall|k: int| 0 <= k < linked.len() implies linked[k].children.is_prefix_of(
            r[k].children,
        ) by {
            assert(r[k] == linked[k]);
            assert(linked[k].children.subrange(0, linked[k].children.len() as int)
                =~= linked[k].children);
        }
        assert(keeps_messages(linked, r));
        lemma_keeps_transitive(msgs, linked, r);
    }
}

/// Merging a loaded subtree never drops or rewrites a message the tree
/// already has: each keeps its place, id, role, content and parent, and
/// its list of children is only extended.
pub proof fn law_merge_keeps_messages(msgs: Seq<MessageNodeV>, extra: Seq<MessageNodeV>)
    ensures
        keeps_messages(msgs, merge_all(msgs, extra)),
    decreases extra.len(),
{
    if extra.len() == 0 {
        assert forall|k: int| 0 <= k < msgs.len() implies msgs[k].children.is_prefix_of(
            msgs[k].children,
        ) by {
            assert(msgs[k].children.subrange(0, msgs[k].children.len() as int) =~= msgs[k].children);
        }
    } else {
        law_merge_keeps_messages(msgs, extra.drop_last());
        let mid = merge_all(msgs, extra.drop_last());
        lemma_merge_step_keeps(mid, extra.last());
        lemma_keeps_transitive(msgs, mid, merge_all(msgs, extra));
    }
}

/// A message the old tree has is still found in a tree that keeps it.
proof fn lemma_kept_is_found(old: Seq<MessageNodeV>, new: Seq<MessageNodeV>, id: Seq<char>)
    requires
        keeps_messages(old, new),
        msg_index(old, id) is Some,
    ensures
        msg_index(new, id) is Some,
{
    lemma_index_from(old, id, 0);
    lemma_index_from(new, id, 0);
    let k = msg_index(old, id)->0;
    assert(new[k].id == old[k].id);
}

/// After a merge step, the merged message is found in the tree.
proof fn lemma_merge_step_finds(msgs: Seq<MessageNodeV>, node: MessageNodeV)
    ensures
        msg_index(merge_step(msgs, node), node.id) is Some,
{
    if msg_index(msgs, node.id) is None {
        let linked = match node.parent_id {
            Some(pid) => match msg_index(msgs, pid) {
                Some(k) => add_child(msgs, k, node.id),
                None => msgs,
            },
            None => msgs,
        };
        lemma_merge_step_keeps(msgs, node);
        let r = merge_step(msgs, node);
        lemma_index_from(r, node.id, 0);
        if msg_index(linked, node.id) is Some {
            lemma_index_from(linked, node.id, 0);
            let k = msg_index(linked, node.id)->0;
            assert(insert_node(linked, node) == linked.update(k, node));
            assert(r[k].id == node.id);
        } else {
            assert(r == linked.push(node));
            assert(r[linked.len() as int].id == node.id);
        }
    }
}

/// After a subtree is merged, every one of its messages is found in the tree.
proof fn lemma_merge_all_finds(msgs: Seq<MessageNodeV>, extra: Seq<MessageNodeV>)
    ensures
        forall|k: int| 0 <= k < extra.len() ==> (msg_index(merge_all(msgs, extra), #[trigger] extra[k].id) is Some),
    decreases extra.len(),
{
    if extra.len() > 0 {
        let init = extra.drop_last();
        lemma_merge_all_finds(msgs, init);
        let mid = merge_all(msgs, init);
        lemma_merge_step_keeps(mid, extra.last());
        lemma_merge_step_finds(mid, extra.last());
        assert forall|k: int| 0 <= k < extra.len() implies (msg_index(merge_all(msgs, extra), #[trigger] extra[k].id) is Some) by {
            if k < init.len() {
                assert(init[k] == extra[k]);
                lemma_kept_is_found(mid, merge_all(msgs, extra), extra[k].id);
            }
        }
    }
}

/// Merging messages the tree already has changes nothing.
proof fn lemma_merge_all_present(msgs: Seq<MessageNodeV>, extra: Seq<MessageNodeV>)
    requires
        forall|k: int| 0 <= k < extra.len() ==> (msg_index(msgs, #[trigger] extra[k].id) is Some),
    ensures
        merge_all(msgs, extra) == msgs,
    decreases extra.len(),
{
    if extra.len() > 0 {
        let init = extra.drop_last();
        assert forall|k: int| 0 <= k < init.len() implies (msg_index(msgs, #[trigger] init[k].id) is Some) by {
            assert(init[k] == extra[k]);
        }
        lemma_merge_all_present(msgs, init);
        assert(msg_index(msgs, extra[extra.len() - 1].id) is Some);
    }
}

/// Loading the same subtree again changes nothing: merging is idempotent.
pub proof fn law_merge_is_idempotent(msgs: Seq<MessageNodeV>, extra: Seq<MessageNodeV>)
    ensures
        merge_all(merge_all(msgs, extra), extra) == merge_all(msgs, extra),
{
    lemma_merge_all_finds(msgs, extra);
    lemma_merge_all_present(merge_all(msgs, extra), extra);
}

/// Listing a child leaves every id where it was.
proof fn lemma_add_child_unique(msgs: Seq<MessageNodeV>, k: int, child: Seq<char>)
    requires
        0 <= k < msgs.len(),
        ids_unique(msgs),
    ensures
        ids_unique(add_child(msgs, k, child)),
{
    lemma_add_child_keeps(msgs, k, child);
}

/// Inserting a message keyed by its id keeps ids unique.
proof fn lemma_insert_node_unique(msgs: Seq<MessageNodeV>, node: MessageNodeV)
    requires
        ids_unique(msgs),
    ensures
        ids_unique(insert_node(msgs, node)),
{
    lemma_index_from(msgs, node.id, 0);
    let r = insert_node(msgs, node);
    match msg_index(msgs, node.id) {
        Some(k) => {
            assert forall|i: int| 0 <= i < r.len() implies #[trigger] r[i].id == msgs[i].id by {}
        },
        None => {
            assert forall|i: int| 0 <= i < msgs.len() implies #[trigger] r[i] == msgs[i] by {}
            assert(r[msgs.len() as int] == node);
        },
    }
}

/// Merging a subtree keeps ids unique.
proof fn lemma_merge_all_unique(msgs: Seq<MessageNodeV>, extra: Seq<MessageNodeV>)
    requires
        ids_unique(msgs),
    ensures
        ids_unique(merge_all(msgs, extra)),
    decreases extra.len(),
{
    if extra.len() > 0 {
        lemma_merge_all_unique(msgs, extra.drop_last());
        let mid = merge_all(msgs, extra.drop_last());
        let node = extra.last();
        if msg_index(mid, node.id) is None {
            match node.parent_id {
                Some(pid) => match msg_index(mid, pid) {
                    Some(k) => {
                        lemma_index_from(mid, pid, 0);
                        lemma_add_child_unique(mid, k, node.id);
                        lemma_insert_node_unique(add_child(mid, k, node.id), node);
                    },
                    None => lemma_insert_node_unique(mid, node),
                },
                None => lemma_insert_node_unique(mid, node),
            }
        }
    }
}

} // verus!
