use aetheria::chat_gen::{
    chat_display_name, greeting_index, next_greeting_index, prev_greeting_index, regenerate_plan,
    reveal_interval_ms, reveal_step, revealed_text, shown_content, shown_greeting, speaker_for,
    streaming_speaker, user_display_name, GenState, GenStates,
};
use aetheria::chat_tree::{
    find_message, ids_to_delete_below, last_shown_id, leaf_is_assistant, merge_subtree,
    regeneration_parent_id, send_parent_id, sibling_is_dirty, sibling_neighbours, sibling_position,
    record_selection, toggle_branch_point, tree_from_branch, walk_active_branch,
};
use aetheria::models::{
    ChatCharacter, Group, GroupMember, GroupWithMembers, MeResponse, MessageNode, MessageTree,
};

fn node(id: &str, parent: Option<&str>, role: &str, children: &[&str]) -> MessageNode {
    MessageNode {
        id: id.to_string(),
        parent_id: parent.map(|p| p.to_string()),
        role: role.to_string(),
        content: format!("content of {id}"),
        visible: true,
        deleted: false,
        created_at: 0,
        children: children.iter().map(|c| c.to_string()).collect(),
        raw_prompt: None,
        prompt_tokens: None,
        context_limit: None,
        character_id: None,
    }
}

fn tree() -> MessageTree {
    MessageTree {
        root_id: Some("g".into()),
        messages: vec![
            node("g", None, "assistant", &["u1"]),
            node("u1", Some("g"), "user", &["a1", "a2"]),
            node("a1", Some("u1"), "assistant", &[]),
            node("a2", Some("u1"), "assistant", &[]),
        ],
        character: None,
        group: None,
    }
}

fn ids(v: &[MessageNode]) -> Vec<String> {
    v.iter().map(|n| n.id.clone()).collect()
}

#[test]
fn the_walk_follows_the_newest_child_by_default() {
    let branch = walk_active_branch(&tree(), &vec![]);
    assert_eq!(ids(&branch), vec!["g", "u1", "a2"]);
}

#[test]
fn the_walk_follows_the_selected_child() {
    let sel = vec![("u1".to_string(), "a2".to_string()), ("u1".to_string(), "a1".to_string())];
    let branch = walk_active_branch(&tree(), &sel);
    assert_eq!(ids(&branch), vec!["g", "u1", "a1"]);
}

#[test]
fn recording_a_selection_replaces_the_earlier_one_at_that_parent() {
    let mut sel: Vec<(String, String)> = vec![];
    record_selection(&mut sel, "u1".to_string(), "a1".to_string());
    record_selection(&mut sel, "g".to_string(), "u1".to_string());
    assert_eq!(ids(&walk_active_branch(&tree(), &sel)), vec!["g", "u1", "a1"]);
    record_selection(&mut sel, "u1".to_string(), "a2".to_string());
    assert_eq!(
        sel,
        vec![("u1".to_string(), "a2".to_string()), ("g".to_string(), "u1".to_string())]
    );
    assert_eq!(ids(&walk_active_branch(&tree(), &sel)), vec!["g", "u1", "a2"]);
}

#[test]
fn the_walk_stops_at_a_missing_child_and_on_a_loop() {
    let mut t = tree();
    t.messages[2] = node("a1", Some("u1"), "assistant", &["gone"]);
    let sel = vec![("u1".to_string(), "a1".to_string())];
    assert_eq!(ids(&walk_active_branch(&t, &sel)), vec!["g", "u1", "a1"]);
    let looping = MessageTree {
        root_id: Some("x".into()),
        messages: vec![node("x", None, "user", &["y"]), node("y", Some("x"), "assistant", &["x"])],
        character: None,
        group: None,
    };
    assert_eq!(walk_active_branch(&looping, &vec![]).len(), 2);
    let empty = MessageTree::default();
    assert!(walk_active_branch(&empty, &vec![]).is_empty());
}

#[test]
fn regeneration_starts_from_the_parent_of_an_assistant_leaf() {
    let t = tree();
    let branch = walk_active_branch(&t, &vec![]);
    assert_eq!(regeneration_parent_id(&branch), Some("u1".to_string()));
    assert_eq!(regeneration_parent_id(&branch[..2]), None);
    assert!(leaf_is_assistant(&branch));
    assert!(!leaf_is_assistant(&branch[..2].to_vec()));
}

#[test]
fn deleting_below_goes_leaf_first() {
    let branch = walk_active_branch(&tree(), &vec![]);
    assert_eq!(ids_to_delete_below(&branch, &"u1".to_string()), Some(vec!["a2".to_string(), "u1".to_string()]));
    assert_eq!(ids_to_delete_below(&branch, &"nope".to_string()), None);
}

#[test]
fn the_branch_point_toggles() {
    let once = toggle_branch_point(&None, "u1".into());
    assert_eq!(once, Some("u1".to_string()));
    assert_eq!(toggle_branch_point(&once, "u1".into()), None);
    assert_eq!(toggle_branch_point(&once, "a1".into()), Some("a1".to_string()));
}

#[test]
fn a_send_replies_to_the_branch_point_or_the_leaf() {
    let branch = walk_active_branch(&tree(), &vec![]);
    assert_eq!(send_parent_id(&Some("g".into()), &branch), Some("g".to_string()));
    assert_eq!(send_parent_id(&None, &branch), Some("a2".to_string()));
    assert_eq!(send_parent_id(&None, &vec![]), None);
}

#[test]
fn siblings_are_counted_and_located() {
    let t = tree();
    let a1 = &t.messages[2];
    let pos = sibling_position(&t, a1).expect("a1 has a sibling");
    assert_eq!((pos.parent_id.as_str(), pos.total, pos.index), ("u1", 2, 0));
    assert!(sibling_position(&t, &t.messages[1]).is_none());
    let (prev, next) = sibling_neighbours(&t, &"u1".to_string(), 0);
    assert_eq!((prev, next), (None, Some("a2".to_string())));
    assert!(sibling_is_dirty(&None, &"a1".to_string(), 1, 2));
    assert!(!sibling_is_dirty(&Some("a1".into()), &"a1".to_string(), 1, 2));
}

#[test]
fn the_last_shown_message_skips_deleted_ones() {
    let mut branch = walk_active_branch(&tree(), &vec![]);
    branch[2].deleted = true;
    assert_eq!(last_shown_id(&branch), Some("u1".to_string()));
}

#[test]
fn a_tree_is_rebuilt_from_a_branch() {
    let branch = vec![node("r", None, "assistant", &[]), node("s", Some("r"), "user", &[])];
    let t = tree_from_branch(&branch);
    assert_eq!(t.root_id, Some("r".to_string()));
    let r = find_message(&t.messages, &"r".to_string()).unwrap();
    assert_eq!(t.messages[r].children, vec!["s".to_string()]);
    assert_eq!(ids(&walk_active_branch(&t, &vec![])), vec!["r", "s"]);
}

#[test]
fn a_loaded_subtree_is_merged() {
    let mut t = tree();
    merge_subtree(&mut t, vec![node("a3", Some("u1"), "assistant", &[]), node("g", None, "user", &[])]);
    assert_eq!(t.messages.len(), 5);
    assert_eq!(t.messages[1].children, vec!["a1", "a2", "a3"]);
    assert_eq!(t.messages[0].role, "assistant");
}

#[test]
fn merging_the_same_subtree_again_changes_nothing() {
    let extra = || vec![node("a3", Some("u1"), "assistant", &["u9"]), node("u9", Some("a3"), "user", &[])];
    let mut once = tree();
    merge_subtree(&mut once, extra());
    let mut twice = tree();
    merge_subtree(&mut twice, extra());
    merge_subtree(&mut twice, extra());
    assert_eq!(format!("{:?}", twice.messages), format!("{:?}", once.messages));
}

fn character(id: &str, name: &str, avatar: Option<&str>) -> ChatCharacter {
    ChatCharacter { id: id.into(), name: name.into(), avatar_url: avatar.map(|a| a.into()), first_message: String::new() }
}

#[test]
fn the_speaker_is_looked_up_then_falls_back() {
    let chars = vec![character("c1", "Sera", Some("/a.png")), character("c2", "Bo", None)];
    assert_eq!(speaker_for(&chars, &None, &Some("c1".into())), ("Sera".to_string(), Some("/a.png".to_string())));
    let fb = Some(character("c9", "Fallback", None));
    assert_eq!(speaker_for(&chars, &fb, &Some("zz".into())), ("Fallback".to_string(), None));
    assert_eq!(speaker_for(&chars, &None, &None), ("assistant".to_string(), None));
}

#[test]
fn the_streaming_speaker_follows_the_member() {
    let chars = vec![character("c1", "Sera", Some("/a.png"))];
    let member = Some(("c1".to_string(), "Sera".to_string()));
    assert_eq!(streaming_speaker(&member, &chars, true, &"G".into(), &None), ("Sera".to_string(), Some("/a.png".to_string())));
    assert_eq!(streaming_speaker(&None, &chars, true, &"G".into(), &None), (String::new(), None));
    assert_eq!(streaming_speaker(&None, &chars, false, &"Sera".into(), &Some("/b".into())), ("Sera".to_string(), Some("/b".to_string())));
}

fn me(display: Option<&str>, username: &str) -> Option<MeResponse> {
    Some(MeResponse {
        username: username.into(),
        display_name: display.map(|d| d.into()),
        avatar_url: None,
        active_persona_id: None,
        persona_name: None,
        persona_avatar_url: None,
    })
}

#[test]
fn the_user_is_named_by_display_name_then_username() {
    assert_eq!(user_display_name(&me(Some("Ann"), "ann1")), "Ann");
    assert_eq!(user_display_name(&me(Some("  "), "ann1")), "ann1");
    assert_eq!(user_display_name(&me(None, " ")), "User");
    assert_eq!(user_display_name(&None), "User");
}

fn group(members: &[(&str, bool)]) -> GroupWithMembers {
    GroupWithMembers {
        group: Group { id: "grp".into(), name: "The Party".into(), avatar_url: None, activation_strategy: "list".into() },
        members: members
            .iter()
            .enumerate()
            .map(|(i, (id, disabled))| GroupMember { character_id: id.to_string(), position: i as i64, disabled: *disabled })
            .collect(),
    }
}

#[test]
fn the_chat_is_named_by_group_then_character() {
    let mut t = tree();
    assert_eq!(chat_display_name(&t), "assistant");
    t.character = Some(character("c1", "Sera", None));
    assert_eq!(chat_display_name(&t), "Sera");
    t.group = Some(group(&[("c1", false)]));
    assert_eq!(chat_display_name(&t), "The Party");
}

#[test]
fn a_group_regeneration_names_the_member() {
    let branch = walk_active_branch(&tree(), &vec![]);
    let plan = regenerate_plan(&branch, &Some(group(&[("c1", true), ("c2", false)])));
    assert_eq!(plan.regenerating_msg_id, Some("a2".to_string()));
    assert_eq!(plan.query, "?parent_id=u1&character_id=c2");
    let one_to_one = regenerate_plan(&branch, &None);
    assert_eq!(one_to_one.query, "?parent_id=u1");
    let from_user = regenerate_plan(&branch[..2].to_vec(), &None);
    assert_eq!(from_user.query, "");
    assert_eq!(from_user.regenerating_msg_id, None);
}

#[test]
fn a_member_switch_logs_the_previous_turn() {
    let mut s = GenState::default();
    s.start_generation(false);
    assert!(s.is_generating);
    s.switch_member(true, "c1".into(), "Sera".into());
    s.push_delta("Hello");
    s.switch_member(true, "c2".into(), "Bo".into());
    s.push_delta("Hi");
    assert_eq!(s.group_reply_log, vec![("c1".to_string(), "Sera".to_string(), "Hello".to_string())]);
    assert_eq!(s.streaming_reply, "Hi");
    s.switch_member(false, "c3".into(), "X".into());
    assert_eq!(s.current_member, Some(("c2".to_string(), "Bo".to_string())));
    s.mark_error();
    assert!(s.stream_error);
    s.regenerating_msg_id = Some("a2".into());
    s.finish_reply();
    assert!(!s.is_generating && s.streaming_reply.is_empty() && s.group_reply_log.is_empty());
    assert_eq!(s.regenerating_msg_id, None);
}

#[test]
fn finishing_a_self_reply_clears_the_flag() {
    let mut s = GenState::default();
    s.start_generation(true);
    assert!(s.is_self_reply);
    s.finish_self_reply();
    assert!(!s.is_self_reply && !s.is_generating);
    s.start_generation(false);
    s.regenerating_msg_id = Some("m".into());
    s.finish_continue();
    assert_eq!(s.regenerating_msg_id, Some("m".to_string()));
}

#[test]
fn the_regenerated_message_shows_the_stream() {
    let mut s = GenState::default();
    let n = node("a2", None, "assistant", &[]);
    assert_eq!(shown_content(&n, &s), "content of a2");
    s.start_generation(false);
    s.regenerating_msg_id = Some("a2".into());
    s.push_delta("new");
    assert_eq!(shown_content(&n, &s), "new");
}

#[test]
fn the_greeting_shown_matches_the_first_message() {
    let mut first = node("g", None, "assistant", &[]);
    first.content = "  Hello there ".into();
    let greetings = vec!["Hi".to_string(), "Hello there".to_string()];
    assert_eq!(greeting_index(&greetings, &vec![first.clone()]), Some(1));
    assert_eq!(greeting_index(&vec!["Hi".to_string()], &vec![first.clone()]), None);
    first.content = "other".into();
    assert_eq!(greeting_index(&greetings, &vec![first]), Some(0));
    assert_eq!(prev_greeting_index(0, 3), 2);
    assert_eq!(next_greeting_index(2, 3), 0);
    assert_eq!(next_greeting_index(0, 3), 1);
    assert_eq!(shown_greeting(&greetings, 1, 0, &"own".to_string()), "Hello there");
    assert_eq!(shown_greeting(&greetings, 0, 0, &"own".to_string()), "own");
}

#[test]
fn the_reveal_catches_up_faster_when_far_behind() {
    assert_eq!(reveal_step(0, 10), 1);
    assert_eq!(reveal_step(0, 100), 5);
    assert_eq!(reveal_step(10, 10), 10);
    assert_eq!(reveal_step(0, 41), 2);
    assert_eq!(reveal_interval_ms(40), Some(25));
    assert_eq!(reveal_interval_ms(0), None);
    assert_eq!(revealed_text("héllo", 2, 40), "hé");
    assert_eq!(revealed_text("héllo", 9, 40), "héllo");
    assert_eq!(revealed_text("héllo", 0, 0), "héllo");
}

#[test]
fn each_chat_keeps_its_own_generation_state() {
    let mut states = GenStates::new();
    assert!(!states.gen_for("a").is_generating);

    let mut a = states.gen_for("a");
    a.start_generation(false);
    a.push_delta("Hel");
    states.set_gen("a", a);
    let mut b = states.gen_for("b");
    b.start_generation(true);
    states.set_gen("b", b);

    let mut a = states.gen_for("a");
    a.push_delta("lo");
    states.set_gen("a", a);

    let a = states.gen_for("a");
    assert!(a.is_generating);
    assert_eq!(a.streaming_reply, "Hello");
    assert!(!a.is_self_reply);
    let b = states.gen_for("b");
    assert!(b.is_generating);
    assert_eq!(b.streaming_reply, "");
    assert!(b.is_self_reply);
    assert!(!states.gen_for("c").is_generating);
}

#[test]
fn a_copied_state_equals_the_original() {
    let mut s = GenState::default();
    s.start_generation(false);
    s.switch_member(true, "c1".to_string(), "Ann".to_string());
    s.push_delta("hi");
    s.switch_member(true, "c2".to_string(), "Bo".to_string());
    s.push_delta("yo");
    s.regenerating_msg_id = Some("m1".to_string());
    let c = s.copy();
    assert_eq!(format!("{c:?}"), format!("{s:?}"));
}

#[test]
fn stepping_through_greetings_and_back_returns_to_the_start() {
    for total in 1..5usize {
        for i in 0..total {
            assert_eq!(next_greeting_index(prev_greeting_index(i, total), total), i);
            assert_eq!(prev_greeting_index(next_greeting_index(i, total), total), i);
        }
    }
    assert_eq!(prev_greeting_index(0, 3), 2);
    assert_eq!(next_greeting_index(2, 3), 0);
}
