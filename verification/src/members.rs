//! The members panel of a chat: who is in it, moving a member up or down
//! the reply order, and who can be added.

use vstd::prelude::*;
use crate::models::{strs_view, Chat, ChatCharacter, GroupMember, GroupWithMembers};
use crate::text::{from_chars, to_chars};

verus! {

/// The ids of a group's members, in order.
pub open spec fn member_id_seq(members: Seq<GroupMember>) -> Seq<Seq<char>> {
    Seq::new(members.len(), |i: int| members[i].character_id@)
}

/// The members shown: the group's, in order; for a one-to-one chat (or a
/// group with no members), the chat's character when it has one.
pub open spec fn spec_member_ids(group: Option<GroupWithMembers>, chat: Chat) -> Seq<Seq<char>> {
    let ids = match group {
        Some(g) => member_id_seq(g.members@),
        None => Seq::empty(),
    };
    if ids.len() == 0 {
        match chat.character_id {
            Some(c) => seq![c@],
            None => Seq::empty(),
        }
    } else {
        ids
    }
}

/// The ids of the chat's members.
pub fn member_ids(group: &Option<GroupWithMembers>, chat: &Chat) -> (r: Vec<String>)
    ensures
        strs_view(r@) == spec_member_ids(*group, *chat),
{
    let mut ids: Vec<String> = Vec::new();
    if let Some(g) = group {
        let mut i: usize = 0;
        while i < g.members.len()
            invariant
                i <= g.members@.len(),
                strs_view(ids@) == member_id_seq(g.members@).take(i as int),
            decreases g.members@.len() - i,
        {
            let ghost before = ids@;
            ids.push(g.members[i].character_id.clone());
            proof {
                assert(strs_view(ids@) =~= strs_view(before).push(g.members@[i as int].character_id@));
                assert(member_id_seq(g.members@).take(i + 1) =~= member_id_seq(g.members@).take(
                    i as int,
                ).push(g.members@[i as int].character_id@));
            }
            i = i + 1;
        }
        proof {
            assert(member_id_seq(g.members@).take(i as int) =~= member_id_seq(g.members@));
        }
    } else {
        proof {
            assert(strs_view(ids@) =~= Seq::<Seq<char>>::empty());
        }
    }
    if ids.len() == 0 {
        if let Some(c) = &chat.character_id {
            ids.push(c.clone());
            proof {
                assert(strs_view(ids@) =~= seq![c@]);
            }
        } else {
            proof {
                assert(strs_view(ids@) =~= Seq::<Seq<char>>::empty());
            }
        }
    }
    ids
}

/// The first position of `id` in `ids`.
pub open spec fn position_of(ids: Seq<Seq<char>>, id: Seq<char>) -> Option<int>
    decreases ids.len(),
{
    if ids.len() == 0 {
        None
    } else if ids[0] == id {
        Some(0)
    } else {
        match position_of(ids.drop_first(), id) {
            Some(p) => Some(p + 1),
            None => None,
        }
    }
}

proof fn lemma_position_of(ids: Seq<Seq<char>>, id: Seq<char>)
    ensures
        match position_of(ids, id) {
            Some(p) => 0 <= p < ids.len() && ids[p] == id && forall|j: int| 0 <= j < p ==> ids[j] != id,
            None => forall|j: int| 0 <= j < ids.len() ==> ids[j] != id,
        },
    decreases ids.len(),
{
    if ids.len() > 0 && ids[0] != id {
        lemma_position_of(ids.drop_first(), id);
        match position_of(ids.drop_first(), id) {
            Some(p) => {
                assert forall|j: int| 0 <= j < p + 1 implies ids[j] != id by {
                    if j > 0 {
                        assert(ids[j] == ids.drop_first()[j - 1]);
                    }
                }
            },
            None => {
                assert forall|j: int| 0 <= j < ids.len() implies ids[j] != id by {
                    if j > 0 {
                        assert(ids[j] == ids.drop_first()[j - 1]);
                    }
                }
            },
        }
    }
}

proof fn lemma_position_unique(ids: Seq<Seq<char>>, id: Seq<char>, p: int)
    requires
        0 <= p < ids.len(),
        ids[p] == id,
        forall|j: int| 0 <= j < p ==> ids[j] != id,
    ensures
        position_of(ids, id) == Some(p),
    decreases ids.len(),
{
    lemma_position_of(ids, id);
    match position_of(ids, id) {
        Some(q) => {
            if q < p {
                assert(ids[q] != id);
            } else if q > p {
                assert(ids[p] != id);
            }
        },
        None => {
            assert(ids[p] != id);
        },
    }
}

/// The order after moving `id` one place by `direction` (-1 up, +1 down):
/// `None` when `id` is not a member or would leave the list.
pub open spec fn spec_move_member(ids: Seq<Seq<char>>, id: Seq<char>, direction: int) -> Option<Seq<Seq<char>>> {
    match position_of(ids, id) {
        Some(p) => {
            let q = p + direction;
            if q < 0 || q >= ids.len() {
                None
            } else {
                Some(ids.update(p, ids[q]).update(q, ids[p]))
            }
        },
        None => None,
    }
}

/// Whether the member with this id is disabled: as the last member with
/// that id says, else not.
pub open spec fn disabled_of(members: Seq<GroupMember>, id: Seq<char>) -> bool
    decreases members.len(),
{
    if members.len() == 0 {
        false
    } else if members.last().character_id@ == id {
        members.last().disabled
    } else {
        disabled_of(members.drop_last(), id)
    }
}

fn disabled_of_exec(members: &Vec<GroupMember>, id: &String) -> (r: bool)
    ensures
        r == disabled_of(members@, id@),
{
    let mut i: usize = members.len();
    proof {
        assert(members@.take(i as int) =~= members@);
    }
    while i > 0
        invariant
            i <= members@.len(),
            disabled_of(members@, id@) == disabled_of(members@.take(i as int), id@),
        decreases i,
    {
        proof {
            assert(members@.take(i as int).drop_last() =~= members@.take(i - 1));
            assert(members@.take(i as int).last() == members@[i - 1]);
        }
        if members[i - 1].character_id == *id {
            return members[i - 1].disabled;
        }
        i = i - 1;
    }
    false
}

/// The members' new order, each with whether it is disabled, after moving
/// `character_id` one place up (`direction` -1) or down (+1); `None` when
/// that is not possible.
pub fn move_member(group: &GroupWithMembers, character_id: &String, direction: i32) -> (r: Option<Vec<(String, bool)>>)
    ensures
        match r {
            Some(v) => spec_move_member(member_id_seq(group.members@), character_id@, direction as int)
                == Some(Seq::new(v@.len(), |i: int| v@[i].0@)) && forall|i: int|
                0 <= i < v@.len() ==> #[trigger] v@[i].1 == disabled_of(group.members@, v@[i].0@),
            None => spec_move_member(member_id_seq(group.members@), character_id@, direction as int) is None,
        },
{
    let ghost ids = member_id_seq(group.members@);
    let n = group.members.len();
    let mut idx: usize = 0;
    while idx < n && !(group.members[idx].character_id == *character_id)
        invariant
            idx <= n,
            n == group.members@.len(),
            ids == member_id_seq(group.members@),
            forall|j: int| 0 <= j < idx ==> ids[j] != character_id@,
        decreases n - idx,
    {
        idx = idx + 1;
    }
    proof {
        lemma_position_of(ids, character_id@);
    }
    if idx >= n {
        return None;
    }
    proof {
        lemma_position_unique(ids, character_id@, idx as int);
    }
    let qi: i128 = idx as i128 + direction as i128;
    if qi < 0 || qi >= n as i128 {
        return None;
    }
    let q: usize = qi as usize;
    let mut out: Vec<(String, bool)> = Vec::new();
    let mut i: usize = 0;
    let ghost target = ids.update(idx as int, ids[q as int]).update(q as int, ids[idx as int]);
    while i < n
        invariant
            i <= n,
            n == group.members@.len(),
            idx < n,
            q < n,
            ids == member_id_seq(group.members@),
            target == ids.update(idx as int, ids[q as int]).update(q as int, ids[idx as int]),
            out@.len() == i,
            forall|k: int| 0 <= k < i ==> #[trigger] out@[k].0@ == target[k],
            forall|k: int| 0 <= k < i ==> #[trigger] out@[k].1 == disabled_of(group.members@, out@[k].0@),
        decreases n - i,
    {
        let src = if i == idx {
            q
        } else if i == q {
            idx
        } else {
            i
        };
        let id = group.members[src].character_id.clone();
        let disabled = disabled_of_exec(&group.members, &id);
        out.push((id, disabled));
        i = i + 1;
    }
    proof {
        assert(Seq::new(out@.len(), |i: int| out@[i].0@) =~= target);
    }
    Some(out)
}

/// Moving a member one place and then back one place restores the order
/// (for members with distinct ids).
pub proof fn law_move_back_restores(ids: Seq<Seq<char>>, id: Seq<char>, direction: int)
    requires
        forall|i: int, j: int| 0 <= i < j < ids.len() ==> ids[i] != ids[j],
        spec_move_member(ids, id, direction) is Some,
    ensures
        spec_move_member(spec_move_member(ids, id, direction).unwrap(), id, -direction) == Some(ids),
{
    lemma_position_of(ids, id);
    let p = position_of(ids, id).unwrap();
    let q = p + direction;
    let moved = ids.update(p, ids[q]).update(q, ids[p]);
    assert(moved[q] == id);
    assert forall|j: int| 0 <= j < q implies moved[j] != id by {
        if j == p {
            assert(moved[j] == ids[q]);
            assert(ids[q] != ids[p]) by {
                if q < p {
                } else {
                }
            }
        } else {
            assert(moved[j] == ids[j]);
        }
    }
    lemma_position_unique(moved, id, q);
    assert(moved.update(q, moved[p]).update(p, moved[q]) =~= ids);
}

/// A character's name, by the first character with the id, else `unknown`.
pub open spec fn spec_name_for(chars: Seq<ChatCharacter>, id: Seq<char>) -> Seq<char>
    decreases chars.len(),
{
    if chars.len() == 0 {
        "unknown"@
    } else if chars[0].id@ == id {
        chars[0].name@
    } else {
        spec_name_for(chars.drop_first(), id)
    }
}

/// The name a member is listed under.
pub fn name_for(chars: &Vec<ChatCharacter>, id: &String) -> (r: String)
    ensures
        r@ == spec_name_for(chars@, id@),
{
    let mut i: usize = 0;
    proof {
        assert(chars@.skip(0) =~= chars@);
    }
    while i < chars.len()
        invariant
            i <= chars@.len(),
            spec_name_for(chars@, id@) == spec_name_for(chars@.skip(i as int), id@),
        decreases chars@.len() - i,
    {
        proof {
            assert(chars@.skip(i as int)[0] == chars@[i as int]);
            assert(chars@.skip(i as int).drop_first() =~= chars@.skip(i + 1));
        }
        if chars[i].id == *id {
            return chars[i].name.clone();
        }
        i = i + 1;
    }
    proof {
        assert(chars@.skip(i as int).len() == 0);
    }
    "unknown".to_string()
}

} // verus!
