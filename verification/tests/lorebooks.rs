use aetheria::card_import::{book_input, card_character, card_tags, extract_card_field_str, greetings_to_add, CardBook, CardData};
use aetheria::lorebooks::{
    card_entry_input, card_entry_signature, entries_match, lorebook_entry_signature, lorebook_matches,
    matching_candidates, stored_entry_signature, CardEntry, CardValue,
};
use aetheria::models::{CreateLorebookInput, Lorebook, LorebookEntry};

fn empty_entry() -> CardEntry {
    CardEntry {
        name: None,
        content: None,
        insertion_order: None,
        enabled: None,
        comment: None,
        constant: None,
        position: None,
        selective: None,
        keys: None,
        secondary_keys: None,
        ext_weight: None,
        ext_probability: None,
        ext_use_probability: None,
        ext_selective_logic: None,
        ext_exclude_recursion: None,
        ext_exclude_recursion_snake: None,
    }
}

#[test]
fn the_signature_joins_every_field() {
    let sig = lorebook_entry_signature("n", "e", "[\"k\"]", -3, 7, true, "c", "[]", false, "before", 100, true, false, 0, true);
    assert_eq!(sig, "n\u{1}e\u{1}[\"k\"]\u{1}-3\u{1}7\u{1}true\u{1}c\u{1}[]\u{1}false\u{1}before\u{1}100\u{1}true\u{1}false\u{1}0\u{1}true");
}

#[test]
fn a_bare_card_entry_takes_the_defaults() {
    let sig = card_entry_signature(&empty_entry());
    assert_eq!(sig, "\u{1}\u{1}[]\u{1}0\u{1}0\u{1}true\u{1}\u{1}[]\u{1}false\u{1}\u{1}100\u{1}true\u{1}false\u{1}0\u{1}false");
}

#[test]
fn exclude_recursion_falls_back_to_the_snake_case_key_only_when_absent() {
    let mut e = empty_entry();
    e.ext_exclude_recursion_snake = Some(CardValue::Bool(true));
    assert!(card_entry_signature(&e).ends_with("\u{1}true"));
    e.ext_exclude_recursion = Some(CardValue::Str("yes".into()));
    assert!(card_entry_signature(&e).ends_with("\u{1}false"));
}

fn stored_from(e: &CardEntry) -> LorebookEntry {
    let input = card_entry_input(e, &"lb".to_string());
    LorebookEntry {
        id: "x".into(),
        lorebook_id: input.lorebook_id.clone(),
        name: input.name.clone(),
        entry: input.entry.clone(),
        keywords: input.keywords.clone().unwrap_or_default(),
        priority: input.priority.unwrap_or(0),
        weight: input.weight.unwrap_or(0),
        enabled: input.enabled.unwrap_or(true),
        comment: input.comment.clone().unwrap_or_default(),
        secondary_keys: input.secondary_keys.clone().unwrap_or_default(),
        constant: input.constant.unwrap_or(false),
        position: input.position.clone().unwrap_or_default(),
        probability: input.probability.unwrap_or(100),
        use_probability: input.use_probability.unwrap_or(true),
        selective: input.selective.unwrap_or(false),
        selective_logic: input.selective_logic.unwrap_or(0),
        exclude_recursion: input.exclude_recursion.unwrap_or(false),
    }
}

#[test]
fn an_imported_entry_stores_with_its_card_signature() {
    let mut e = empty_entry();
    e.name = Some(CardValue::Str("Castle".into()));
    e.content = Some(CardValue::Str("A ruin.".into()));
    e.keys = Some("[\"castle\"]".into());
    e.insertion_order = Some(CardValue::Int(5));
    e.ext_probability = Some(CardValue::Int(50));
    let stored = stored_from(&e);
    assert_eq!(stored_entry_signature(&stored), card_entry_signature(&e));
    assert!(entries_match(&vec![stored.clone(), stored], &vec![e]));
}

#[test]
fn a_reimported_card_matches_its_entries_in_any_order() {
    let mut a = empty_entry();
    a.name = Some(CardValue::Str("Castle".into()));
    a.keys = Some("[\"castle\"]".into());
    let mut b = empty_entry();
    b.name = Some(CardValue::Str("Forest".into()));
    b.ext_use_probability = Some(CardValue::Bool(false));
    let stored = vec![stored_from(&b), stored_from(&a)];
    assert!(entries_match(&stored, &vec![a.clone(), b.clone()]));
    assert!(!entries_match(&stored[..1].to_vec(), &vec![a, b]));
}

fn lorebook(id: &str, name: &str) -> Lorebook {
    Lorebook {
        id: id.into(),
        name: name.into(),
        description: String::new(),
        scan_depth: 0,
        token_budget: 0,
        recursive_scanning: false,
        extensions: String::new(),
        created_at: 0,
        updated_at: 0,
    }
}

#[test]
fn candidates_match_name_and_settings() {
    let input = CreateLorebookInput {
        name: "Book".into(),
        description: None,
        scan_depth: Some(0),
        token_budget: None,
        recursive_scanning: None,
        extensions: None,
    };
    let mut other = lorebook("b", "Book");
    other.scan_depth = 4;
    let existing = vec![lorebook("a", "Book"), other, lorebook("c", "Other"), lorebook("d", "Book")];
    assert!(lorebook_matches(&existing[0], &input));
    assert_eq!(matching_candidates(&existing, &input), vec!["a".to_string(), "d".to_string()]);
}

#[test]
fn different_entry_sets_do_not_match() {
    let mut e = empty_entry();
    e.name = Some(CardValue::Str("A".into()));
    let stored = stored_from(&e);
    let mut f = empty_entry();
    f.name = Some(CardValue::Str("B".into()));
    assert!(!entries_match(&vec![stored.clone()], &vec![f]));
    assert!(!entries_match(&vec![], &vec![e.clone()]));
    assert!(entries_match(&vec![], &vec![]));
}

fn data(fields: &[(&str, CardValue)]) -> CardData {
    CardData {
        fields: fields.iter().map(|(k, v)| (k.to_string(), v.clone())).collect(),
        extensions: None,
        alternate_greetings: None,
        tags: None,
        character_book: None,
    }
}

#[test]
fn card_fields_are_read_by_preference() {
    let d = data(&[("char_name", CardValue::Str("Alt".into())), ("name", CardValue::Str("  ".into())), ("title", CardValue::Int(3))]);
    assert_eq!(extract_card_field_str(&d, &["name", "ch_name", "char_name", "title"]), Some("Alt".to_string()));
    assert_eq!(extract_card_field_str(&d, &["title"]), None);
}

#[test]
fn description_and_personality_are_combined() {
    let d = data(&[
        ("name", CardValue::Str("Sera".into())),
        ("description", CardValue::Str("Tall.".into())),
        ("personality", CardValue::Str("Kind.".into())),
    ]);
    let c = card_character(&d);
    assert_eq!(c.name, "Sera");
    assert_eq!(c.personality, Some("Tall.\n\nKind.".to_string()));
    assert_eq!(c.description, Some("Kind.".to_string()));
    let unnamed = card_character(&data(&[("creator_notes", CardValue::Str("notes".into()))]));
    assert_eq!(unnamed.name, "Imported Character");
    assert_eq!(unnamed.description, Some("notes".to_string()));
    assert_eq!(unnamed.personality, None);
}

#[test]
fn greetings_and_tags_are_filtered() {
    let mut d = data(&[]);
    d.alternate_greetings = Some(vec![CardValue::Str("Hi".into()), CardValue::Str(String::new()), CardValue::Int(1)]);
    let mut tags = vec![CardValue::Str("  fantasy ".into()), CardValue::Str("  ".into()), CardValue::Bool(true)];
    for i in 0..60 {
        tags.push(CardValue::Str(format!("t{i}")));
    }
    d.tags = Some(tags);
    assert_eq!(greetings_to_add(&d), vec!["Hi".to_string()]);
    let names = card_tags(&d);
    assert_eq!(names.len(), 50);
    assert_eq!(names[0], "fantasy");
    assert_eq!(names[1], "t0");
}

#[test]
fn a_book_becomes_a_lorebook_named_after_the_character() {
    let book = CardBook {
        name: Some(CardValue::Str(String::new())),
        description: Some(CardValue::Str("lore".into())),
        scan_depth: Some(CardValue::Int(3)),
        token_budget: None,
        recursive_scanning: Some(CardValue::Bool(true)),
        extensions: Some("{}".into()),
        entries: vec![empty_entry()],
    };
    let input = book_input(&book, &"Sera".to_string()).expect("a book with entries");
    assert_eq!(input.name, "Sera Lorebook");
    assert_eq!(input.description, Some("lore".to_string()));
    assert_eq!(input.scan_depth, Some(3));
    assert_eq!(input.recursive_scanning, Some(true));
    let empty = CardBook { entries: vec![], ..book };
    assert!(book_input(&empty, &"Sera".to_string()).is_none());
}

#[test]
fn signatures_tell_fields_apart_unless_a_field_holds_the_separator() {
    let sig = |n: &str, e: &str, p: i64| lorebook_entry_signature(n, e, "[]", p, 0, true, "", "[]", false, "", 100, true, false, 0, false);
    assert_ne!(sig("ab", "c", 1), sig("a", "bc", 1));
    assert_ne!(sig("a", "b", 1), sig("a", "b", -1));
    assert_ne!(sig("a", "b", 1), sig("a", "b", 11));
    assert_eq!(sig("a\u{1}b", "c", 1), sig("a", "b\u{1}c", 1));
}
