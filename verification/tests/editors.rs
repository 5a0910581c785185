use aetheria::editors::{
    active_persona_after, new_persona_request, chat_title, conversation_count_text, is_new_character, manual_entry_input, model_list, order_to_save,
    preset_entries, set_slot_enabled,
};
use aetheria::models::{Preset, PresetOrderEntry, PresetPrompt};
use aetheria::ui::{MascotState, PeekState};

#[test]
fn a_new_character_is_recognised() {
    assert!(is_new_character("new"));
    assert!(is_new_character(""));
    assert!(!is_new_character("c1"));
}

fn prompt(identifier: &str, name: &str) -> PresetPrompt {
    PresetPrompt {
        identifier: identifier.into(),
        name: name.into(),
        content: String::new(),
        role: "system".into(),
        marker: false,
        injection_position: 0,
        injection_depth: 4,
    }
}

#[test]
fn preset_slots_are_named_and_toggled() {
    let p = Preset {
        id: "p".into(),
        name: "P".into(),
        prompts: vec![prompt("main", "Main Prompt"), prompt("main", "Main (override)")],
        prompt_order: vec![
            PresetOrderEntry { identifier: "main".into(), enabled: true },
            PresetOrderEntry { identifier: "chatHistory".into(), enabled: false },
        ],
    };
    let mut entries = preset_entries(&p);
    assert_eq!(entries[0].1, "Main (override)");
    assert_eq!(entries[1].1, "chatHistory");
    set_slot_enabled(&mut entries, 1, true);
    set_slot_enabled(&mut entries, 7, false);
    let order = order_to_save(&entries);
    assert_eq!(order.len(), 2);
    assert!(order[0].enabled && order[1].enabled);
    assert_eq!(order[1].identifier, "chatHistory");
}

#[test]
fn untouched_slots_save_the_preset_order() {
    let p = Preset {
        id: "p".into(),
        name: "P".into(),
        prompts: vec![prompt("main", "Main Prompt")],
        prompt_order: vec![
            PresetOrderEntry { identifier: "chatHistory".into(), enabled: false },
            PresetOrderEntry { identifier: "main".into(), enabled: true },
        ],
    };
    let saved = order_to_save(&preset_entries(&p));
    let pairs: Vec<(String, bool)> = saved.into_iter().map(|e| (e.identifier, e.enabled)).collect();
    assert_eq!(pairs, vec![("chatHistory".to_string(), false), ("main".to_string(), true)]);
}

#[test]
fn the_manual_entry_form_needs_a_name_and_text() {
    assert!(manual_entry_input("lb".into(), "  ".into(), "t".into(), "k".into()).is_none());
    let e = manual_entry_input("lb".into(), "Castle".into(), "A ruin".into(), "castle".into()).unwrap();
    assert_eq!(e.priority, Some(10));
    assert_eq!(e.weight, Some(10));
    assert_eq!(e.enabled, Some(true));
    assert_eq!(e.constant, Some(false));
    assert_eq!(e.keywords, Some("castle".to_string()));
}

#[test]
fn conversations_are_counted_in_words() {
    assert_eq!(conversation_count_text(0), "No conversations yet.");
    assert_eq!(conversation_count_text(1), "1 conversation");
    assert_eq!(conversation_count_text(12), "12 conversations");
}

#[test]
fn models_are_listed_by_unique_suffix_and_sorted() {
    let ids = vec![
        "vendor/Zeta".to_string(),
        "tee/alpha".to_string(),
        "open/alpha".to_string(),
        "beta".to_string(),
    ];
    let list = model_list(&ids);
    let shown: Vec<&str> = list.iter().map(|(_, d)| d.as_str()).collect();
    assert_eq!(shown, vec!["beta", "open/alpha", "tee/alpha", "Zeta"]);
    assert_eq!(list[3].0, "vendor/Zeta");
}

#[test]
fn equal_model_names_keep_their_order() {
    let ids = vec!["a/B".to_string(), "c/b".to_string()];
    let list = model_list(&ids);
    assert_eq!(list, vec![("a/B".to_string(), "B".to_string()), ("c/b".to_string(), "b".to_string())]);
}

#[test]
fn the_corner_mascot_opens_and_settles() {
    let mut s = PeekState::new();
    assert_eq!(s.toggle(), None);
    assert!(s.raised);
    assert_eq!(s.mood(), MascotState::PeekClicked);
    let gen = s.toggle().expect("closing schedules the pose change");
    assert!(!s.raised);
    s.close_settled(gen);
    assert_eq!(s.mood(), MascotState::Peek);
}

#[test]
fn a_reopen_overtakes_a_pending_pose_change() {
    let mut s = PeekState::new();
    s.open();
    let gen = s.close();
    s.open();
    s.close_settled(gen);
    assert!(s.raised && s.pose_clicked);
}

#[test]
fn a_chat_without_a_title_is_listed_as_untitled() {
    assert_eq!(chat_title(""), "Untitled");
    assert_eq!(chat_title("Tea at noon"), "Tea at noon");
}

#[test]
fn a_persona_needs_a_name_and_drops_a_blank_description() {
    assert_eq!(new_persona_request("  ", "x"), Err("Name cannot be empty".to_string()));
    assert_eq!(new_persona_request("Ann", " \n"), Ok(("Ann".to_string(), None)));
    assert_eq!(new_persona_request("Ann", " tall "), Ok(("Ann".to_string(), Some(" tall ".to_string()))));
}

#[test]
fn clicking_the_active_persona_clears_it() {
    let a = Some("p1".to_string());
    assert_eq!(active_persona_after(&a, &"p1".to_string()), None);
    assert_eq!(active_persona_after(&a, &"p2".to_string()), Some("p2".to_string()));
    assert_eq!(active_persona_after(&None, &"p1".to_string()), Some("p1".to_string()));
}
