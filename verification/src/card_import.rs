//! Importing a character card: which card fields become which character
//! fields, which greetings and tags are added, and the lorebook created
//! from the card's book.

use vstd::prelude::*;
use crate::models::{opt_view, strs_view, CreateLorebookInput};
use crate::lorebooks::{as_bool, as_i64, as_str, value_bool, value_i64, value_str, CardEntry, CardValue};
use crate::text::{from_chars, is_blank, is_blank_exec, push_all, skip_ws_from, to_chars, trim, trim_exec};

verus! {

/// The `data` object of an imported card, as far as the import reads it.
#[derive(Clone, Debug)]
pub struct CardData {
    /// The object's members, in order.
    pub fields: Vec<(String, CardValue)>,
    /// The JSON text of `extensions`, when present.
    pub extensions: Option<String>,
    /// The items of `alternate_greetings`, when it is an array.
    pub alternate_greetings: Option<Vec<CardValue>>,
    /// The items of `tags`, when it is an array.
    pub tags: Option<Vec<CardValue>>,
    /// `character_book`, when present.
    pub character_book: Option<CardBook>,
}

/// The `character_book` of an imported card.
#[derive(Clone, Debug)]
pub struct CardBook {
    pub name: Option<CardValue>,
    pub description: Option<CardValue>,
    pub scan_depth: Option<CardValue>,
    pub token_budget: Option<CardValue>,
    pub recursive_scanning: Option<CardValue>,
    /// The JSON text of `extensions`, when present.
    pub extensions: Option<String>,
    /// The items of `entries` (none when it is absent or not an array).
    pub entries: Vec<CardEntry>,
}

/// The string value of the first member named `key`.
pub open spec fn member_str(fields: Seq<(String, CardValue)>, key: Seq<char>) -> Option<Seq<char>>
    decreases fields.len(),
{
    if fields.len() == 0 {
        None
    } else if fields[0].0@ == key {
        as_str(Some(fields[0].1))
    } else {
        member_str(fields.drop_first(), key)
    }
}

/// The first of `keys` whose member is a string that is not blank, that string.
pub open spec fn spec_extract_field(fields: Seq<(String, CardValue)>, keys: Seq<Seq<char>>) -> Option<
    Seq<char>,
>
    decreases keys.len(),
{
    if keys.len() == 0 {
        None
    } else {
        match member_str(fields, keys[0]) {
            Some(v) => if !is_blank(v) {
                Some(v)
            } else {
                spec_extract_field(fields, keys.drop_first())
            },
            None => spec_extract_field(fields, keys.drop_first()),
        }
    }
}

/// The views of a list of names.
pub open spec fn keys_view(keys: Seq<&str>) -> Seq<Seq<char>> {
    Seq::new(keys.len(), |i: int| keys[i]@)
}

fn member_str_exec(fields: &Vec<(String, CardValue)>, key: &str) -> (r: Option<String>)
    ensures
        opt_view(r) == member_str(fields@, key@),
{
    let ghost f = fields@;
    let k = to_chars(key);
    let mut i: usize = 0;
    proof {
        assert(f.skip(0) =~= f);
    }
    while i < fields.len()
        invariant
            i <= f.len(),
            f == fields@,
            k@ == key@,
            member_str(f, key@) == member_str(f.skip(i as int), key@),
        decreases f.len() - i,
    {
        proof {
            assert(f.skip(i as int)[0] == f[i as int]);
            assert(f.skip(i as int).drop_first() =~= f.skip(i + 1));
        }
        let name = to_chars(fields[i].0.as_str());
        if crate::text::chars_eq(&name, &k) {
            return match &fields[i].1 {
                CardValue::Str(s) => Some(s.clone()),
                _ => None,
            };
        }
        i = i + 1;
    }
    proof {
        assert(f.skip(i as int).len() == 0);
    }
    None
}

/// The first of `keys` naming a member that is a non-blank string, its value.
pub fn extract_card_field_str(data: &CardData, keys: &[&str]) -> (r: Option<String>)
    ensures
        opt_view(r) == spec_extract_field(data.fields@, keys_view(keys@)),
{
    let ghost kv = keys_view(keys@);
    let mut i: usize = 0;
    proof {
        assert(kv.skip(0) =~= kv);
    }
    while i < keys.len()
        invariant
            i <= keys@.len(),
            kv == keys_view(keys@),
            spec_extract_field(data.fields@, kv) == spec_extract_field(data.fields@, kv.skip(i as int)),
        decreases keys@.len() - i,
    {
        proof {
            assert(kv.skip(i as int)[0] == keys@[i as int]@);
            assert(kv.skip(i as int).drop_first() =~= kv.skip(i + 1));
        }
        match member_str_exec(&data.fields, keys[i]) {
            Some(v) => {
                if !is_blank_exec(&to_chars(v.as_str())) {
                    return Some(v);
                }
            },
            None => {},
        }
        i = i + 1;
    }
    proof {
        assert(kv.skip(i as int).len() == 0);
    }
    None
}

// ---------------------------------------------------------------------------
// the character
// ---------------------------------------------------------------------------

/// The fields of the character created from a card.
#[derive(Clone, Debug)]
pub struct CharacterDraft {
    pub name: String,
    pub description: Option<String>,
    pub personality: Option<String>,
    pub scenario: Option<String>,
    pub first_message: Option<String>,
    pub sample_chat: Option<String>,
    pub system_prompt: Option<String>,
    pub post_history_instructions: Option<String>,
    pub extensions: Option<String>,
}

/// The names a card may give each field under, in order of preference.
pub open spec fn name_keys() -> Seq<Seq<char>> {
    seq!["name"@, "ch_name"@, "char_name"@, "title"@]
}

pub open spec fn description_keys() -> Seq<Seq<char>> {
    seq!["description"@, "char_persona"@, "persona"@]
}

pub open spec fn personality_keys() -> Seq<Seq<char>> {
    seq!["personality"@, "summary"@]
}

pub open spec fn notes_keys() -> Seq<Seq<char>> {
    seq!["creator_notes"@, "creatorcomment"@, "comment"@, "notes"@, "author_notes"@]
}

pub open spec fn scenario_keys() -> Seq<Seq<char>> {
    seq!["scenario"@, "world_scenario"@]
}

pub open spec fn first_message_keys() -> Seq<Seq<char>> {
    seq!["first_mes"@, "first_message"@, "greeting"@, "entry"@]
}

pub open spec fn sample_chat_keys() -> Seq<Seq<char>> {
    seq!["mes_example"@, "example_dialogue"@, "definition"@, "examples"@]
}

pub open spec fn system_prompt_keys() -> Seq<Seq<char>> {
    seq!["system_prompt"@, "system"@, "system_prompt_prefix"@]
}

pub open spec fn post_history_keys() -> Seq<Seq<char>> {
    seq!["post_history_instructions"@, "post_history"@, "post_history_prompt"@]
}

/// The name of a character whose card gives none.
pub open spec fn default_character_name() -> Seq<char> {
    "Imported Character"@
}

/// The personality: the card's description and personality joined by a
/// blank line when both are given and differ, else whichever is given;
/// `None` when that is empty.
pub open spec fn spec_personality(desc: Option<Seq<char>>, pers: Option<Seq<char>>) -> Option<Seq<char>> {
    let combined = match (desc, pers) {
        (Some(d), Some(p)) => if d != p {
            d + seq!['\n', '\n'] + p
        } else {
            d
        },
        (Some(d), None) => d,
        (None, Some(p)) => p,
        (None, None) => Seq::empty(),
    };
    if combined.len() == 0 {
        None
    } else {
        Some(combined)
    }
}

/// The description: the creator's notes, else (when the card also has a
/// description, which went into the personality) the card's personality.
pub open spec fn spec_description(
    notes: Option<Seq<char>>,
    desc: Option<Seq<char>>,
    pers: Option<Seq<char>>,
) -> Option<Seq<char>> {
    match notes {
        Some(n) => Some(n),
        None => if desc is Some {
            pers
        } else {
            None
        },
    }
}

/// The character a card describes.
pub open spec fn spec_card_character(fields: Seq<(String, CardValue)>, extensions: Option<Seq<char>>) -> (
    Seq<char>,
    Option<Seq<char>>,
    Option<Seq<char>>,
    Option<Seq<char>>,
    Option<Seq<char>>,
    Option<Seq<char>>,
    Option<Seq<char>>,
    Option<Seq<char>>,
    Option<Seq<char>>,
) {
    let desc = spec_extract_field(fields, description_keys());
    let pers = spec_extract_field(fields, personality_keys());
    let notes = spec_extract_field(fields, notes_keys());
    (
        match spec_extract_field(fields, name_keys()) {
            Some(n) => n,
            None => default_character_name(),
        },
        spec_description(notes, desc, pers),
        spec_personality(desc, pers),
        spec_extract_field(fields, scenario_keys()),
        spec_extract_field(fields, first_message_keys()),
        spec_extract_field(fields, sample_chat_keys()),
        spec_extract_field(fields, system_prompt_keys()),
        spec_extract_field(fields, post_history_keys()),
        extensions,
    )
}

/// The view of a draft, in the order of `spec_card_character`.
pub open spec fn draft_view(d: CharacterDraft) -> (
    Seq<char>,
    Option<Seq<char>>,
    Option<Seq<char>>,
    Option<Seq<char>>,
    Option<Seq<char>>,
    Option<Seq<char>>,
    Option<Seq<char>>,
    Option<Seq<char>>,
    Option<Seq<char>>,
) {
    (
        d.name@,
        opt_view(d.description),
        opt_view(d.personality),
        opt_view(d.scenario),
        opt_view(d.first_message),
        opt_view(d.sample_chat),
        opt_view(d.system_prompt),
        opt_view(d.post_history_instructions),
        opt_view(d.extensions),
    )
}

fn extract_with(data: &CardData, keys: &[&str], expected: Ghost<Seq<Seq<char>>>) -> (r: Option<String>)
    requires
        keys_view(keys@) == expected@,
    ensures
        opt_view(r) == spec_extract_field(data.fields@, expected@),
{
    extract_card_field_str(data, keys)
}

/// The character to create from a card's data.
pub fn card_character(data: &CardData) -> (r: CharacterDraft)
    ensures
        draft_view(r) == spec_card_character(data.fields@, opt_view(data.extensions)),
{
    let k_name: [&str; 4] = ["name", "ch_name", "char_name", "title"];
    let k_desc: [&str; 3] = ["description", "char_persona", "persona"];
    let k_pers: [&str; 2] = ["personality", "summary"];
    let k_notes: [&str; 5] = ["creator_notes", "creatorcomment", "comment", "notes", "author_notes"];
    let k_scen: [&str; 2] = ["scenario", "world_scenario"];
    let k_first: [&str; 4] = ["first_mes", "first_message", "greeting", "entry"];
    let k_sample: [&str; 4] = ["mes_example", "example_dialogue", "definition", "examples"];
    let k_sys: [&str; 3] = ["system_prompt", "system", "system_prompt_prefix"];
    let k_post: [&str; 3] = ["post_history_instructions", "post_history", "post_history_prompt"];
    proof {
        assert(keys_view(k_name@) =~= name_keys());
        assert(keys_view(k_desc@) =~= description_keys());
        assert(keys_view(k_pers@) =~= personality_keys());
        assert(keys_view(k_notes@) =~= notes_keys());
        assert(keys_view(k_scen@) =~= scenario_keys());
        assert(keys_view(k_first@) =~= first_message_keys());
        assert(keys_view(k_sample@) =~= sample_chat_keys());
        assert(keys_view(k_sys@) =~= system_prompt_keys());
        assert(keys_view(k_post@) =~= post_history_keys());
    }
    let name = match extract_with(data, &k_name, Ghost(name_keys())) {
        Some(n) => n,
        None => "Imported Character".to_string(),
    };
    let desc = extract_with(data, &k_desc, Ghost(description_keys()));
    let pers = extract_with(data, &k_pers, Ghost(personality_keys()));
    let notes = extract_with(data, &k_notes, Ghost(notes_keys()));
    let combined: Vec<char> = match (&desc, &pers) {
        (Some(d), Some(p)) => if !(*d == *p) {
            let mut c = to_chars(d.as_str());
            push_all(&mut c, &['\n', '\n']);
            push_all(&mut c, &to_chars(p.as_str()));
            c
        } else {
            to_chars(d.as_str())
        },
        (Some(d), None) => to_chars(d.as_str()),
        (None, Some(p)) => to_chars(p.as_str()),
        (None, None) => Vec::new(),
    };
    proof {
        let nn = ['\n', '\n'];
        assert(nn@ =~= seq!['\n', '\n']);
        if desc is None && pers is None {
            assert(combined@ =~= Seq::<char>::empty());
        }
    }
    let personality = if combined.len() == 0 {
        None
    } else {
        Some(from_chars(&combined))
    };
    let description = match notes {
        Some(n) => Some(n),
        None => if desc.is_some() {
            pers
        } else {
            None
        },
    };
    CharacterDraft {
        name,
        description,
        personality,
        scenario: extract_with(data, &k_scen, Ghost(scenario_keys())),
        first_message: extract_with(data, &k_first, Ghost(first_message_keys())),
        sample_chat: extract_with(data, &k_sample, Ghost(sample_chat_keys())),
        system_prompt: extract_with(data, &k_sys, Ghost(system_prompt_keys())),
        post_history_instructions: extract_with(data, &k_post, Ghost(post_history_keys())),
        extensions: crate::models::copy_opt(&data.extensions),
    }
}

/// Whether the card gives no text under `key`: no member of that name, or
/// a first one that is not a string or is blank.
pub open spec fn no_text_under(fields: Seq<(String, CardValue)>, key: Seq<char>) -> bool {
    match member_str(fields, key) {
        Some(w) => is_blank(w),
        None => true,
    }
}

/// A card member's string is read from the first member of that name.
pub proof fn law_member_is_first_of_its_name(fields: Seq<(String, CardValue)>, key: Seq<char>, i: int)
    requires
        0 <= i < fields.len(),
        fields[i].0@ == key,
        forall|j: int| 0 <= j < i ==> #[trigger] fields[j].0@ != key,
    ensures
        member_str(fields, key) == match fields[i].1 {
            CardValue::Str(s) => Some(s@),
            _ => None,
        },
    decreases i,
{
    if i > 0 {
        let rest = fields.drop_first();
        assert forall|j: int| 0 <= j < i - 1 implies #[trigger] rest[j].0@ != key by {
            assert(rest[j] == fields[j + 1]);
        }
        assert(fields[0].0@ != key);
        law_member_is_first_of_its_name(rest, key, i - 1);
    }
}

/// A card without a member named `key` gives nothing under it.
pub proof fn law_member_absent(fields: Seq<(String, CardValue)>, key: Seq<char>)
    requires
        forall|j: int| 0 <= j < fields.len() ==> #[trigger] fields[j].0@ != key,
    ensures
        member_str(fields, key) == None::<Seq<char>>,
    decreases fields.len(),
{
    if fields.len() > 0 {
        let rest = fields.drop_first();
        assert forall|j: int| 0 <= j < rest.len() implies #[trigger] rest[j].0@ != key by {
            assert(rest[j] == fields[j + 1]);
        }
        assert(fields[0].0@ != key);
        law_member_absent(rest, key);
    }
}

proof fn lemma_extract_at(fields: Seq<(String, CardValue)>, keys: Seq<Seq<char>>, m: int, v: Seq<char>)
    requires
        0 <= m < keys.len(),
        member_str(fields, keys[m]) == Some(v),
        !is_blank(v),
        forall|j: int| 0 <= j < m ==> no_text_under(fields, #[trigger] keys[j]),
    ensures
        spec_extract_field(fields, keys) == Some(v),
    decreases m,
{
    if m > 0 {
        let rest = keys.drop_first();
        assert(no_text_under(fields, keys[0]));
        assert forall|j: int| 0 <= j < m - 1 implies no_text_under(fields, #[trigger] rest[j]) by {
            assert(rest[j] == keys[j + 1]);
        }
        lemma_extract_at(fields, rest, m - 1, v);
    }
}

proof fn lemma_extract_none(fields: Seq<(String, CardValue)>, keys: Seq<Seq<char>>)
    requires
        forall|j: int| 0 <= j < keys.len() ==> no_text_under(fields, #[trigger] keys[j]),
    ensures
        spec_extract_field(fields, keys) == None::<Seq<char>>,
    decreases keys.len(),
{
    if keys.len() > 0 {
        let rest = keys.drop_first();
        assert(no_text_under(fields, keys[0]));
        assert forall|j: int| 0 <= j < rest.len() implies no_text_under(fields, #[trigger] rest[j]) by {
            assert(rest[j] == keys[j + 1]);
        }
        lemma_extract_none(fields, rest);
    }
}

/// The text a card gives under the first of `keys` (in order) that holds a
/// non-blank string, if any.
pub open spec fn first_text_under(fields: Seq<(String, CardValue)>, keys: Seq<Seq<char>>, m: int, v: Seq<char>) -> bool {
    &&& 0 <= m < keys.len()
    &&& member_str(fields, keys[m]) == Some(v)
    &&& !is_blank(v)
    &&& forall|j: int| 0 <= j < m ==> no_text_under(fields, #[trigger] keys[j])
}

/// Each text field of the imported character is the first non-blank string
/// the card gives under that field's names, in order of preference:
/// the scenario under `scenario`, `world_scenario`; the first message under
/// `first_mes`, `first_message`, `greeting`, `entry`; the example chat under
/// `mes_example`, `example_dialogue`, `definition`, `examples`; the system
/// prompt under `system_prompt`, `system`, `system_prompt_prefix`; the
/// post-history instructions under `post_history_instructions`,
/// `post_history`, `post_history_prompt`; and the name under `name`,
/// `ch_name`, `char_name`, `title`. The extensions are the card's own.
pub proof fn law_card_text_fields(
    fields: Seq<(String, CardValue)>,
    ext: Option<Seq<char>>,
    keys: Seq<Seq<char>>,
    m: int,
    v: Seq<char>,
)
    requires
        first_text_under(fields, keys, m, v),
    ensures
        keys == seq!["scenario"@, "world_scenario"@] ==> spec_card_character(fields, ext).3 == Some(v),
        keys == seq!["first_mes"@, "first_message"@, "greeting"@, "entry"@] ==> spec_card_character(
            fields,
            ext,
        ).4 == Some(v),
        keys == seq!["mes_example"@, "example_dialogue"@, "definition"@, "examples"@]
            ==> spec_card_character(fields, ext).5 == Some(v),
        keys == seq!["system_prompt"@, "system"@, "system_prompt_prefix"@] ==> spec_card_character(
            fields,
            ext,
        ).6 == Some(v),
        keys == seq!["post_history_instructions"@, "post_history"@, "post_history_prompt"@]
            ==> spec_card_character(fields, ext).7 == Some(v),
        keys == seq!["name"@, "ch_name"@, "char_name"@, "title"@] ==> spec_card_character(fields, ext).0 == v,
        spec_card_character(fields, ext).8 == ext,
{
    lemma_extract_at(fields, keys, m, v);
}

/// A card that gives no non-blank string under any of a field's names
/// leaves that field empty, and the name then defaults to
/// "Imported Character".
pub proof fn law_card_missing_fields(fields: Seq<(String, CardValue)>, ext: Option<Seq<char>>, keys: Seq<Seq<char>>)
    requires
        forall|j: int| 0 <= j < keys.len() ==> no_text_under(fields, #[trigger] keys[j]),
    ensures
        keys == seq!["scenario"@, "world_scenario"@] ==> spec_card_character(fields, ext).3 is None,
        keys == seq!["first_mes"@, "first_message"@, "greeting"@, "entry"@] ==> spec_card_character(
            fields,
            ext,
        ).4 is None,
        keys == seq!["mes_example"@, "example_dialogue"@, "definition"@, "examples"@]
            ==> spec_card_character(fields, ext).5 is None,
        keys == seq!["system_prompt"@, "system"@, "system_prompt_prefix"@] ==> spec_card_character(
            fields,
            ext,
        ).6 is None,
        keys == seq!["post_history_instructions"@, "post_history"@, "post_history_prompt"@]
            ==> spec_card_character(fields, ext).7 is None,
        keys == seq!["name"@, "ch_name"@, "char_name"@, "title"@] ==> spec_card_character(fields, ext).0
            == "Imported Character"@,
{
    lemma_extract_none(fields, keys);
}

/// The description and personality of an imported character, from `d`, the
/// card's description (under `description`, `char_persona`, `persona`),
/// `p`, its personality (under `personality`, `summary`), and `n`, its
/// creator's notes (under `creator_notes`, `creatorcomment`, `comment`,
/// `notes`, `author_notes`), each the first non-blank string given, if any.
/// The personality is `d` and `p` joined by a blank line when both are
/// given and differ, else whichever is given; the description is the notes,
/// else `p` when `d` is given.
pub proof fn law_card_description_and_personality(
    fields: Seq<(String, CardValue)>,
    ext: Option<Seq<char>>,
    d: Option<Seq<char>>,
    p: Option<Seq<char>>,
    n: Option<Seq<char>>,
)
    requires
        spec_extract_field(fields, seq!["description"@, "char_persona"@, "persona"@]) == d,
        spec_extract_field(fields, seq!["personality"@, "summary"@]) == p,
        spec_extract_field(fields, seq!["creator_notes"@, "creatorcomment"@, "comment"@, "notes"@, "author_notes"@])
            == n,
    ensures
        spec_card_character(fields, ext).2 == match (d, p) {
            (Some(dd), Some(pp)) => if dd != pp {
                Some(dd + seq!['\n', '\n'] + pp)
            } else {
                Some(dd)
            },
            (Some(dd), None) => Some(dd),
            (None, Some(pp)) => Some(pp),
            (None, None) => None,
        },
        spec_card_character(fields, ext).1 == match n {
            Some(nn) => Some(nn),
            None => if d is Some {
                p
            } else {
                None
            },
        },
{
    match (d, p) {
        (Some(dd), Some(pp)) => {
            lemma_extract_nonblank(fields, seq!["description"@, "char_persona"@, "persona"@]);
        },
        (Some(dd), None) => {
            lemma_extract_nonblank(fields, seq!["description"@, "char_persona"@, "persona"@]);
        },
        (None, Some(pp)) => {
            lemma_extract_nonblank(fields, seq!["personality"@, "summary"@]);
        },
        (None, None) => {},
    }
}

proof fn lemma_extract_nonblank(fields: Seq<(String, CardValue)>, keys: Seq<Seq<char>>)
    ensures
        match spec_extract_field(fields, keys) {
            Some(v) => !is_blank(v) && v.len() > 0,
            None => true,
        },
    decreases keys.len(),
{
    if keys.len() > 0 {
        lemma_extract_nonblank(fields, keys.drop_first());
        match member_str(fields, keys[0]) {
            Some(v) => {
                if v.len() == 0 {
                    assert(skip_ws_from(v, 0) == 0);
                    assert(trim(v).len() == 0);
                }
            },
            None => {},
        }
    }
}

// ---------------------------------------------------------------------------
// greetings and tags
// ---------------------------------------------------------------------------

/// The card's alternate greetings that are non-empty strings, in order.
pub open spec fn spec_greetings_to_add(items: Seq<CardValue>) -> Seq<Seq<char>>
    decreases items.len(),
{
    if items.len() == 0 {
        Seq::empty()
    } else {
        spec_greetings_to_add(items.drop_last()) + match as_str(Some(items.last())) {
            Some(g) => if g.len() > 0 {
                seq![g]
            } else {
                Seq::empty()
            },
            None => Seq::empty(),
        }
    }
}

/// The alternate greetings to add to an imported character.
pub fn greetings_to_add(data: &CardData) -> (r: Vec<String>)
    ensures
        strs_view(r@) == match data.alternate_greetings {
            Some(items) => spec_greetings_to_add(items@),
            None => Seq::empty(),
        },
{
    let mut out: Vec<String> = Vec::new();
    proof {
        assert(strs_view(out@) =~= Seq::<Seq<char>>::empty());
    }
    match &data.alternate_greetings {
        None => out,
        Some(items) => {
            let mut i: usize = 0;
            proof {
                assert(items@.take(0) =~= Seq::<CardValue>::empty());
            }
            while i < items.len()
                invariant
                    i <= items@.len(),
                    strs_view(out@) == spec_greetings_to_add(items@.take(i as int)),
                decreases items@.len() - i,
            {
                proof {
                    assert(items@.take(i + 1).drop_last() =~= items@.take(i as int));
                    assert(items@.take(i + 1).last() == items@[i as int]);
                }
                let ghost before = out@;
                match &items[i] {
                    CardValue::Str(g) => {
                        if !g.as_str().is_empty() {
                            out.push(g.clone());
                            proof {
                                assert(strs_view(out@) =~= strs_view(before) + seq![g@]);
                            }
                        } else {
                            proof {
                                assert(strs_view(out@) =~= strs_view(before) + Seq::<
                                    Seq<char>,
                                >::empty());
                            }
                        }
                    },
                    _ => {
                        proof {
                            assert(strs_view(out@) =~= strs_view(before) + Seq::<Seq<char>>::empty());
                        }
                    },
                }
                i = i + 1;
            }
            proof {
                assert(items@.take(items@.len() as int) =~= items@);
            }
            out
        },
    }
}

/// At most this many tags are taken from a card.
pub const MAX_IMPORTED_TAGS: usize = 50;

/// The card's tags that are strings, trimmed, the non-empty ones, in order.
pub open spec fn tag_candidates(items: Seq<CardValue>) -> Seq<Seq<char>>
    decreases items.len(),
{
    if items.len() == 0 {
        Seq::empty()
    } else {
        tag_candidates(items.drop_last()) + match as_str(Some(items.last())) {
            Some(t) => if trim(t).len() > 0 {
                seq![trim(t)]
            } else {
                Seq::empty()
            },
            None => Seq::empty(),
        }
    }
}

/// The first 50 of the card's tag names.
pub open spec fn spec_card_tags(items: Seq<CardValue>) -> Seq<Seq<char>> {
    let all = tag_candidates(items);
    if all.len() <= MAX_IMPORTED_TAGS {
        all
    } else {
        all.take(MAX_IMPORTED_TAGS as int)
    }
}

/// The tag names to create and put on an imported character.
pub fn card_tags(data: &CardData) -> (r: Vec<String>)
    ensures
        strs_view(r@) == match data.tags {
            Some(items) => spec_card_tags(items@),
            None => Seq::empty(),
        },
{
    let mut out: Vec<String> = Vec::new();
    proof {
        assert(strs_view(out@) =~= Seq::<Seq<char>>::empty());
    }
    match &data.tags {
        None => out,
        Some(items) => {
            let mut i: usize = 0;
            proof {
                assert(items@.take(0) =~= Seq::<CardValue>::empty());
            }
            while i < items.len()
                invariant
                    i <= items@.len(),
                    strs_view(out@) == spec_card_tags(items@.take(i as int)),
                    out@.len() <= MAX_IMPORTED_TAGS,
                decreases items@.len() - i,
            {
                let ghost prev = items@.take(i as int);
                proof {
                    assert(items@.take(i + 1).drop_last() =~= prev);
                    assert(items@.take(i + 1).last() == items@[i as int]);
                }
                let ghost before = out@;
                let ghost cands = tag_candidates(prev);
                proof {
                    assert(strs_view(out@).len() == out@.len());
                }
                match &items[i] {
                    CardValue::Str(t) => {
                        let tt = trim_exec(&to_chars(t.as_str()));
                        if tt.len() > 0 {
                            proof {
                                assert(tag_candidates(items@.take(i + 1)) =~= cands.push(trim(t@)));
                            }
                            if out.len() < MAX_IMPORTED_TAGS {
                                out.push(from_chars(&tt));
                                proof {
                                    assert(cands.len() < MAX_IMPORTED_TAGS);
                                    assert(strs_view(out@) =~= cands.push(trim(t@)));
                                }
                            } else {
                                proof {
                                    assert(cands.push(trim(t@)).take(MAX_IMPORTED_TAGS as int)
                                        =~= cands.take(MAX_IMPORTED_TAGS as int));
                                    if cands.len() == MAX_IMPORTED_TAGS {
                                        assert(cands.take(MAX_IMPORTED_TAGS as int) =~= cands);
                                    }
                                }
                            }
                        } else {
                            proof {
                                assert(tag_candidates(items@.take(i + 1)) =~= cands);
                            }
                        }
                    },
                    _ => {
                        proof {
                            assert(tag_candidates(items@.take(i + 1)) =~= cands);
                        }
                    },
                }
                i = i + 1;
            }
            proof {
                assert(items@.take(items@.len() as int) =~= items@);
            }
            out
        },
    }
}

// ---------------------------------------------------------------------------
// the lorebook
// ---------------------------------------------------------------------------

/// ` Lorebook`
pub open spec fn lorebook_suffix() -> Seq<char> {
    " Lorebook"@
}

/// The lorebook created from a card's book, when it has entries: named as
/// the book (when it has a non-empty name) or after the character, with
/// the book's settings as far as they are given.
pub open spec fn spec_book_input(book: CardBook, character_name: Seq<char>) -> Option<
    (Seq<char>, Option<Seq<char>>, Option<i64>, Option<i64>, Option<bool>, Option<Seq<char>>),
> {
    if book.entries@.len() == 0 {
        None
    } else {
        Some(
            (
                match as_str(book.name) {
                    Some(n) => if n.len() > 0 {
                        n
                    } else {
                        character_name + lorebook_suffix()
                    },
                    None => character_name + lorebook_suffix(),
                },
                as_str(book.description),
                as_i64(book.scan_depth),
                as_i64(book.token_budget),
                as_bool(book.recursive_scanning),
                opt_view(book.extensions),
            ),
        )
    }
}

/// The view of a lorebook to create.
pub open spec fn lorebook_input_view(i: CreateLorebookInput) -> (
    Seq<char>,
    Option<Seq<char>>,
    Option<i64>,
    Option<i64>,
    Option<bool>,
    Option<Seq<char>>,
) {
    (i.name@, opt_view(i.description), i.scan_depth, i.token_budget, i.recursive_scanning, opt_view(i.extensions))
}

/// The lorebook to create (or find) for a card's book; `None` when the
/// book has no entries.
pub fn book_input(book: &CardBook, character_name: &String) -> (r: Option<CreateLorebookInput>)
    ensures
        match r {
            Some(i) => spec_book_input(*book, character_name@) == Some(lorebook_input_view(i)),
            None => spec_book_input(*book, character_name@) is None,
        },
{
    if book.entries.len() == 0 {
        return None;
    }
    let default_name = {
        let mut n = to_chars(character_name.as_str());
        push_all(&mut n, &to_chars(" Lorebook"));
        from_chars(&n)
    };
    let name = match value_str(&book.name) {
        Some(n) => if !n.as_str().is_empty() {
            n
        } else {
            default_name
        },
        None => default_name,
    };
    Some(
        CreateLorebookInput {
            name,
            description: value_str(&book.description),
            scan_depth: value_i64(&book.scan_depth),
            token_budget: value_i64(&book.token_budget),
            recursive_scanning: value_bool(&book.recursive_scanning),
            extensions: crate::models::copy_opt(&book.extensions),
        },
    )
}

/// A card contributes at most 50 tags, none of them empty.
pub proof fn law_card_tags_bounded(items: Seq<CardValue>)
    ensures
        spec_card_tags(items).len() <= MAX_IMPORTED_TAGS,
        forall|i: int| 0 <= i < spec_card_tags(items).len() ==> #[trigger] spec_card_tags(items)[i].len() > 0,
{
    lemma_tag_candidates_nonempty(items);
}

proof fn lemma_tag_candidates_nonempty(items: Seq<CardValue>)
    ensures
        forall|i: int| 0 <= i < tag_candidates(items).len() ==> #[trigger] tag_candidates(items)[i].len() > 0,
    decreases items.len(),
{
    if items.len() > 0 {
        lemma_tag_candidates_nonempty(items.drop_last());
        let prev = tag_candidates(items.drop_last());
        let all = tag_candidates(items);
        assert forall|i: int| 0 <= i < all.len() implies #[trigger] all[i].len() > 0 by {
            if i < prev.len() {
                assert(all[i] == prev[i]);
            }
        }
    }
}

} // verus!
