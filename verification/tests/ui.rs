use aetheria::members::{member_ids, move_member, name_for};
use aetheria::models::{Chat, ChatCharacter, Group, GroupMember, GroupWithMembers, Preset, PresetOrderEntry, Tag};
use aetheria::ui::{
    file_number, flag_to_store, text_speed_to_store,
    character_tag_names, duplicate_name, effective_summary_provider, export_filename, format_relative,
    is_near_bottom, is_scrolled_to_bottom, non_empty_text, login_error, matches_search, needs_base_url, parse_u32,
    preset_speed, preset_summary, proxied_src, register_error, registration_form_error, speed_to_preset_index,
    stored_flag, stored_text_speed, usage_text, MascotState,
};

#[test]
fn relative_times_are_coarse() {
    assert_eq!(format_relative(1000, 990), "just now");
    assert_eq!(format_relative(1000, 2000), "just now");
    assert_eq!(format_relative(10_000, 10_000 - 300), "5m ago");
    assert_eq!(format_relative(100_000, 100_000 - 7200), "2h ago");
    assert_eq!(format_relative(10_000_000, 10_000_000 - 3 * 86400), "3d ago");
    assert_eq!(format_relative(100_000_000, 100_000_000 - 65 * 86400), "2mo ago");
}

#[test]
fn the_closest_speed_preset_is_selected() {
    assert_eq!(speed_to_preset_index(0), 0);
    assert_eq!(speed_to_preset_index(10), 0);
    assert_eq!(speed_to_preset_index(25), 1);
    assert_eq!(speed_to_preset_index(30), 1);
    assert_eq!(speed_to_preset_index(40), 2);
    assert_eq!(speed_to_preset_index(1000), 3);
    assert_eq!(preset_speed(2), 40);
    assert_eq!(preset_speed(9), 80);
}

#[test]
fn stored_values_are_read() {
    assert_eq!(parse_u32("+42"), Some(42));
    assert_eq!(parse_u32("4294967295"), Some(u32::MAX));
    assert_eq!(parse_u32("4294967296"), None);
    assert_eq!(parse_u32("-1"), None);
    assert_eq!(parse_u32(""), None);
    assert_eq!(stored_text_speed(&Some("80".into())), 80);
    assert_eq!(stored_text_speed(&Some("fast".into())), 40);
    assert_eq!(stored_text_speed(&None), 40);
    assert!(stored_flag(&Some("true".into())));
    assert!(!stored_flag(&Some("True".into())));
    assert!(!stored_flag(&None));
}

#[test]
fn scroll_positions_are_judged() {
    assert!(is_scrolled_to_bottom(850, 100, 1000));
    assert!(!is_scrolled_to_bottom(0, 100, 1000));
    assert!(is_near_bottom(0, 100, 1000));
    assert!(!is_near_bottom(10, 100, 1000));
}

#[test]
fn sign_in_errors_are_worded() {
    assert_eq!(register_error(409), "username is already taken");
    assert_eq!(register_error(403), "registration is disabled");
    assert_eq!(register_error(500), "registration failed");
    assert_eq!(login_error(), "invalid username or password");
    assert_eq!(registration_form_error("abcd", "abce"), Some("passwords don't match".to_string()));
    assert_eq!(registration_form_error("abc", "abc"), Some("password must be at least 4 characters".to_string()));
    assert_eq!(registration_form_error("éé", "éé"), None);
    assert_eq!(non_empty_text(&String::new()), None);
    assert_eq!(non_empty_text(&"k".to_string()), Some("k".to_string()));
}

#[test]
fn the_mascot_has_an_asset_per_mood() {
    assert_eq!(MascotState::PeekClicked.asset_name(), "peek-clicked");
    assert_eq!(MascotState::Idle.asset_src(), "/assets/mascot/idle.png?v=5");
}

#[test]
fn small_texts_are_formatted() {
    assert_eq!(usage_text(Some(120), Some(8192)), "120 / 8192 tokens (estimated)");
    assert_eq!(usage_text(None, Some(0)), "0 tokens (estimated, no limit set)");
    let p = Preset {
        id: "p".into(),
        name: "P".into(),
        prompts: vec![],
        prompt_order: vec![
            PresetOrderEntry { identifier: "a".into(), enabled: true },
            PresetOrderEntry { identifier: "b".into(), enabled: false },
        ],
    };
    assert_eq!(preset_summary(&p), "0 prompt slots, 1 enabled");
    assert_eq!(export_filename("a/b"), "a-b.json");
    assert_eq!(duplicate_name("Dark"), "Dark (copy)");
    assert_eq!(proxied_src("/api/proxy?url=x", 0), "/api/proxy?url=x");
    assert_eq!(proxied_src("/api/proxy?url=x", 2), "/api/proxy?url=x&retry=2");
    assert!(needs_base_url("kobold"));
    assert!(!needs_base_url("anthropic"));
    assert_eq!(effective_summary_provider(&String::new(), &"openai".to_string()), "openai");
}

#[test]
fn searches_match_every_word_in_name_or_tags() {
    let tags = vec!["Fantasy".to_string()];
    assert!(matches_search("Seraphina", &tags, "  sera  FANT "));
    assert!(!matches_search("Seraphina", &tags, "sera scifi"));
    assert!(matches_search("Anyone", &vec![], "   "));
    let all = vec![
        Tag { id: "t1".into(), name: "Fantasy".into(), color: "#f00".into() },
        Tag { id: "t2".into(), name: "Noir".into(), color: "#000".into() },
    ];
    assert_eq!(character_tag_names(&vec!["t2".into(), "zz".into(), "t1".into()], &all), vec!["Noir", "Fantasy"]);
}

fn group(ids: &[(&str, bool)]) -> GroupWithMembers {
    GroupWithMembers {
        group: Group { id: "g".into(), name: "G".into(), avatar_url: None, activation_strategy: "list".into() },
        members: ids
            .iter()
            .enumerate()
            .map(|(i, (id, d))| GroupMember { character_id: id.to_string(), position: i as i64, disabled: *d })
            .collect(),
    }
}

#[test]
fn members_move_and_move_back() {
    let g = group(&[("a", false), ("b", true), ("c", false)]);
    let moved = move_member(&g, &"b".to_string(), -1).expect("b can move up");
    assert_eq!(moved, vec![("b".to_string(), true), ("a".to_string(), false), ("c".to_string(), false)]);
    assert!(move_member(&g, &"a".to_string(), -1).is_none());
    assert!(move_member(&g, &"c".to_string(), 1).is_none());
    assert!(move_member(&g, &"zz".to_string(), 1).is_none());
}

#[test]
fn members_are_listed_and_named() {
    let chat = Chat { id: "c".into(), character_id: Some("solo".into()), group_id: None, title: String::new() };
    assert_eq!(member_ids(&None, &chat), vec!["solo".to_string()]);
    assert_eq!(member_ids(&Some(group(&[("a", false)])), &chat), vec!["a".to_string()]);
    let chars = vec![ChatCharacter { id: "a".into(), name: "Ann".into(), avatar_url: None, first_message: String::new() }];
    assert_eq!(name_for(&chars, &"a".to_string()), "Ann");
    assert_eq!(name_for(&chars, &"b".to_string()), "unknown");
}

#[test]
fn a_chosen_speed_preset_is_selected_again() {
    for i in 0..4usize {
        assert_eq!(speed_to_preset_index(preset_speed(i)), i);
    }
}

#[test]
fn stored_settings_read_back_as_written() {
    for speed in [0u32, 7, 20, 40, 80, 1000, u32::MAX] {
        assert_eq!(stored_text_speed(&Some(text_speed_to_store(speed))), speed);
    }
    assert_eq!(text_speed_to_store(40), "40");
    assert!(stored_flag(&Some(flag_to_store(true))));
    assert!(!stored_flag(&Some(flag_to_store(false))));
    assert_eq!(flag_to_store(false), "false");
}

#[test]
fn a_file_number_is_the_last_eight_id_characters_without_hyphens_in_upper_case() {
    assert_eq!(file_number("0b9c-4f2e-aa11-bbcc-dd00eeff"), "DD00EEFF");
    assert_eq!(file_number("123e4567-e89b-12d3-a456-426614174000"), "14174000");
    assert_eq!(file_number("ab-c"), "ABC");
    assert_eq!(file_number("ee-ff00-1"), "EEFF001");
    assert_eq!(file_number(""), "");
    assert_eq!(file_number("straße-9"), "STRASSE9");
}
