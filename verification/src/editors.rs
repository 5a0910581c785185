//! The editing pages: which character is new, preset slot toggles, the
//! manual lorebook entry form, the chat list's caption, the persona form
//! and the model list of the settings page.

use vstd::prelude::*;
use crate::models::{opt_view, strs_view, CreateLorebookEntryInput, Preset, PresetOrderEntry};
use crate::text::{chars_eq, from_chars, is_blank, is_blank_exec, nat_decimal, push_decimal, slice_vec, to_chars};
use crate::outside::{to_lowercase, unicode_lowercase};

verus! {

/// Whether the editor is creating a character rather than editing one.
pub fn is_new_character(id: &str) -> (r: bool)
    ensures
        r == (id@ == "new"@ || id@.len() == 0),
{
    chars_eq(&to_chars(id), &to_chars("new")) || id.is_empty()
}

// ---------------------------------------------------------------------------
// preset slots
// ---------------------------------------------------------------------------

/// The name of the prompt with this identifier (the last such prompt), or
/// the identifier itself.
pub open spec fn prompt_name(prompts: Seq<crate::models::PresetPrompt>, identifier: Seq<char>) -> Seq<char>
    decreases prompts.len(),
{
    if prompts.len() == 0 {
        identifier
    } else if prompts.last().identifier@ == identifier {
        prompts.last().name@
    } else {
        prompt_name(prompts.drop_last(), identifier)
    }
}

fn prompt_name_exec(prompts: &Vec<crate::models::PresetPrompt>, identifier: &String) -> (r: String)
    ensures
        r@ == prompt_name(prompts@, identifier@),
{
    let mut i: usize = prompts.len();
    proof {
        assert(prompts@.take(i as int) =~= prompts@);
    }
    while i > 0
        invariant
            i <= prompts@.len(),
            prompt_name(prompts@, identifier@) == prompt_name(prompts@.take(i as int), identifier@),
        decreases i,
    {
        proof {
            assert(prompts@.take(i as int).drop_last() =~= prompts@.take(i - 1));
            assert(prompts@.take(i as int).last() == prompts@[i - 1]);
        }
        if prompts[i - 1].identifier == *identifier {
            return prompts[i - 1].name.clone();
        }
        i = i - 1;
    }
    identifier.clone()
}

/// A slot as the editor shows it: the prompt's identifier, whether it is
/// enabled, and the name shown for it.
pub type SlotV = (Seq<char>, bool, Seq<char>);

/// The slots of a preset: its prompt order, each with its prompt's name.
pub open spec fn spec_preset_entries(p: Preset) -> Seq<SlotV> {
    Seq::new(
        p.prompt_order@.len(),
        |i: int| (p.prompt_order@[i].identifier@, p.prompt_order@[i].enabled, prompt_name(p.prompts@, p.prompt_order@[i].identifier@)),
    )
}

/// The views of the editor's slots.
pub open spec fn slots_view(v: Seq<(PresetOrderEntry, String)>) -> Seq<SlotV> {
    Seq::new(v.len(), |i: int| (v[i].0.identifier@, v[i].0.enabled, v[i].1@))
}

/// The views of a prompt order: identifier and enabled, in order.
pub open spec fn order_view(v: Seq<PresetOrderEntry>) -> Seq<(Seq<char>, bool)> {
    Seq::new(v.len(), |i: int| (v[i].identifier@, v[i].enabled))
}

/// The order saved from the slots: each slot without its name.
pub open spec fn spec_order_to_save(v: Seq<SlotV>) -> Seq<(Seq<char>, bool)> {
    Seq::new(v.len(), |i: int| (v[i].0, v[i].1))
}

/// The slots of a preset's prompt order, each with the name shown for it.
pub fn preset_entries(p: &Preset) -> (r: Vec<(PresetOrderEntry, String)>)
    ensures
        slots_view(r@) == spec_preset_entries(*p),
        r@.len() == p.prompt_order@.len(),
        forall|i: int|
            0 <= i < r@.len() ==> (#[trigger] r@[i]).0.identifier@ == p.prompt_order@[i].identifier@
                && r@[i].0.enabled == p.prompt_order@[i].enabled && r@[i].1@ == prompt_name(
                p.prompts@,
                p.prompt_order@[i].identifier@,
            ),
{
    let mut out: Vec<(PresetOrderEntry, String)> = Vec::new();
    let mut i: usize = 0;
    while i < p.prompt_order.len()
        invariant
            i <= p.prompt_order@.len(),
            out@.len() == i,
            forall|k: int|
                0 <= k < i ==> (#[trigger] out@[k]).0.identifier@ == p.prompt_order@[k].identifier@
                    && out@[k].0.enabled == p.prompt_order@[k].enabled && out@[k].1@ == prompt_name(
                    p.prompts@,
                    p.prompt_order@[k].identifier@,
                ),
        decreases p.prompt_order@.len() - i,
    {
        let e = &p.prompt_order[i];
        let name = prompt_name_exec(&p.prompts, &e.identifier);
        out.push((PresetOrderEntry { identifier: e.identifier.clone(), enabled: e.enabled }, name));
        i = i + 1;
    }
    assert(slots_view(out@) =~= spec_preset_entries(*p));
    out
}

/// Ticks or unticks the slot at `index` (nothing when there is none).
pub fn set_slot_enabled(entries: &mut Vec<(PresetOrderEntry, String)>, index: usize, checked: bool)
    ensures
        final(entries)@.len() == old(entries)@.len(),
        forall|i: int|
            0 <= i < old(entries)@.len() ==> (#[trigger] final(entries)@[i]).0.identifier
                == old(entries)@[i].0.identifier && final(entries)@[i].1 == old(entries)@[i].1
                && final(entries)@[i].0.enabled == (if i == index {
                checked
            } else {
                old(entries)@[i].0.enabled
            }),
{
    if index < entries.len() {
        let (e, name) = entries.remove(index);
        entries.insert(index, (PresetOrderEntry { identifier: e.identifier, enabled: checked }, name));
    }
}

/// The prompt order to save: the slots without their names.
pub fn order_to_save(entries: &Vec<(PresetOrderEntry, String)>) -> (r: Vec<PresetOrderEntry>)
    ensures
        order_view(r@) == spec_order_to_save(slots_view(entries@)),
        r@.len() == entries@.len(),
        forall|i: int|
            0 <= i < r@.len() ==> (#[trigger] r@[i]).identifier == entries@[i].0.identifier && r@[i].enabled
                == entries@[i].0.enabled,
{
    let mut out: Vec<PresetOrderEntry> = Vec::new();
    let mut i: usize = 0;
    while i < entries.len()
        invariant
            i <= entries@.len(),
            out@.len() == i,
            forall|k: int|
                0 <= k < i ==> (#[trigger] out@[k]).identifier == entries@[k].0.identifier && out@[k].enabled
                    == entries@[k].0.enabled,
        decreases entries@.len() - i,
    {
        out.push(PresetOrderEntry { identifier: entries[i].0.identifier.clone(), enabled: entries[i].0.enabled });
        i = i + 1;
    }
    assert(order_view(out@) =~= spec_order_to_save(slots_view(entries@)));
    out
}

/// Opening a preset's slots and saving them untouched saves the preset's
/// own prompt order.
pub proof fn law_untouched_slots_save_the_same_order(p: Preset)
    ensures
        spec_order_to_save(spec_preset_entries(p)) == order_view(p.prompt_order@),
{
    assert(spec_order_to_save(spec_preset_entries(p)) =~= order_view(p.prompt_order@));
}

// ---------------------------------------------------------------------------
// the manual lorebook entry form
// ---------------------------------------------------------------------------

/// The entry the form creates, unless its name or text is blank: the
/// keywords as typed, priority and weight 10, enabled, not constant.
pub fn manual_entry_input(lorebook_id: String, name: String, text: String, keys: String) -> (r: Option<
    CreateLorebookEntryInput,
>)
    ensures
        match r {
            Some(i) => !is_blank(name@) && !is_blank(text@) && i.lorebook_id@ == lorebook_id@ && i.name@
                == name@ && i.entry@ == text@ && opt_view(i.keywords) == Some(keys@) && i.priority
                == Some(10i64) && i.weight == Some(10i64) && i.enabled == Some(true) && i.comment is None
                && i.secondary_keys is None && i.constant == Some(false) && i.position is None
                && i.probability is None && i.use_probability is None && i.selective is None
                && i.selective_logic is None && i.exclude_recursion is None,
            None => is_blank(name@) || is_blank(text@),
        },
{
    if is_blank_exec(&to_chars(name.as_str())) || is_blank_exec(&to_chars(text.as_str())) {
        return None;
    }
    Some(
        CreateLorebookEntryInput {
            lorebook_id,
            name,
            entry: text,
            keywords: Some(keys),
            priority: Some(10),
            weight: Some(10),
            enabled: Some(true),
            comment: None,
            secondary_keys: None,
            constant: Some(false),
            position: None,
            probability: None,
            use_probability: None,
            selective: None,
            selective_logic: None,
            exclude_recursion: None,
        },
    )
}

/// The caption under a character's chat list.
pub open spec fn spec_conversation_count(n: nat) -> Seq<char> {
    if n == 0 {
        "No conversations yet."@
    } else if n == 1 {
        "1 conversation"@
    } else {
        nat_decimal(n) + " conversations"@
    }
}

/// How many conversations a character has, in words.
pub fn conversation_count_text(n: usize) -> (r: String)
    ensures
        r@ == spec_conversation_count(n as nat),
{
    if n == 0 {
        "No conversations yet.".to_string()
    } else if n == 1 {
        "1 conversation".to_string()
    } else {
        let mut out: Vec<char> = Vec::new();
        push_decimal(&mut out, n as u64);
        crate::text::push_all(&mut out, &to_chars(" conversations"));
        from_chars(&out)
    }
}

/// The title a chat is listed under: its own, or "Untitled" when it has none.
pub fn chat_title(title: &str) -> (r: String)
    ensures
        r@ == (if title@.len() == 0 {
            "Untitled"@
        } else {
            title@
        }),
{
    if title.is_empty() {
        "Untitled".to_string()
    } else {
        title.to_string()
    }
}

// ---------------------------------------------------------------------------
// personas
// ---------------------------------------------------------------------------

/// The persona to create from the form: its name and, unless blank, its
/// description; a blank name is refused.
pub fn new_persona_request(name: &str, description: &str) -> (r: Result<(String, Option<String>), String>)
    ensures
        r is Err <==> is_blank(name@),
        match r {
            Err(e) => e@ == "Name cannot be empty"@,
            Ok((n, d)) => n@ == name@ && opt_view(d) == (if is_blank(description@) {
                None
            } else {
                Some(description@)
            }),
        },
{
    if is_blank_exec(&to_chars(name)) {
        return Err("Name cannot be empty".to_string());
    }
    let d = if is_blank_exec(&to_chars(description)) {
        None
    } else {
        Some(description.to_string())
    };
    Ok((name.to_string(), d))
}

/// The active persona after a persona is clicked: clicking the active one
/// clears it, clicking another makes that one active.
pub fn active_persona_after(active: &Option<String>, clicked: &String) -> (r: Option<String>)
    ensures
        opt_view(r) == (if opt_view(*active) == Some(clicked@) {
            None
        } else {
            Some(clicked@)
        }),
{
    match active {
        Some(a) => {
            if *a == *clicked {
                None
            } else {
                Some(clicked.clone())
            }
        },
        None => Some(clicked.clone()),
    }
}

// ---------------------------------------------------------------------------
// the model list
// ---------------------------------------------------------------------------

/// What follows the last `/` of a model id (the whole id when it has none).
pub open spec fn id_suffix(id: Seq<char>) -> Seq<char>
    decreases id.len(),
{
    if id.len() == 0 {
        id
    } else if id.last() == '/' {
        Seq::empty()
    } else {
        id_suffix(id.drop_last()).push(id.last())
    }
}

/// How many ids have this suffix.
pub open spec fn suffix_count(ids: Seq<Seq<char>>, suffix: Seq<char>) -> nat
    decreases ids.len(),
{
    if ids.len() == 0 {
        0
    } else {
        suffix_count(ids.drop_last(), suffix) + if id_suffix(ids.last()) == suffix {
            1nat
        } else {
            0nat
        }
    }
}

/// The name a model is listed under: its suffix when no other model shares
/// it, else its whole id.
pub open spec fn display_name(ids: Seq<Seq<char>>, id: Seq<char>) -> Seq<char> {
    if suffix_count(ids, id_suffix(id)) == 1 {
        id_suffix(id)
    } else {
        id
    }
}

/// `a` comes before `b` character by character (std's string order).
pub open spec fn lex_lt(a: Seq<char>, b: Seq<char>) -> bool
    decreases a.len(),
{
    if a.len() == 0 {
        b.len() > 0
    } else if b.len() == 0 {
        false
    } else if a[0] != b[0] {
        (a[0] as u32) < (b[0] as u32)
    } else {
        lex_lt(a.drop_first(), b.drop_first())
    }
}

/// The position `key` is inserted at among `keys`: before the first
/// greater key, so after every equal one.
pub open spec fn insert_position(keys: Seq<Seq<char>>, key: Seq<char>) -> nat
    decreases keys.len(),
{
    if keys.len() == 0 {
        0
    } else if lex_lt(key, keys[0]) {
        0
    } else {
        insert_position(keys.drop_first(), key) + 1
    }
}

/// A listed model: its id, the name shown and the lower-cased name it is sorted by.
pub type ModelRow = (Seq<char>, Seq<char>, Seq<char>);

/// The sort keys of rows.
pub open spec fn row_keys(rows: Seq<ModelRow>) -> Seq<Seq<char>> {
    Seq::new(rows.len(), |i: int| rows[i].2)
}

/// Rows sorted by key, equal keys keeping their order (insertion sort).
pub open spec fn sort_rows(rows: Seq<ModelRow>) -> Seq<ModelRow>
    decreases rows.len(),
{
    if rows.len() == 0 {
        Seq::empty()
    } else {
        let sorted = sort_rows(rows.drop_last());
        let p = insert_position(row_keys(sorted), rows.last().2) as int;
        if p <= sorted.len() {
            sorted.insert(p, rows.last())
        } else {
            sorted.push(rows.last())
        }
    }
}

/// The models listed on the settings page: each id with its display name,
/// in the order of the lower-cased display names, models with equal names
/// keeping the order they came in.
pub open spec fn spec_model_list(ids: Seq<Seq<char>>) -> Seq<ModelRow> {
    sort_rows(
        Seq::new(
            ids.len(),
            |i: int| (ids[i], display_name(ids, ids[i]), unicode_lowercase(display_name(ids, ids[i]))),
        ),
    )
}

fn id_suffix_exec(id: &[char]) -> (r: Vec<char>)
    ensures
        r@ == id_suffix(id@),
{
    let mut i: usize = id.len();
    proof {
        assert(id@.take(i as int) =~= id@);
    }
    while i > 0 && id[i - 1] != '/'
        invariant
            i <= id@.len(),
            id_suffix(id@) == id_suffix(id@.take(i as int)) + id@.subrange(i as int, id@.len() as int),
        decreases i,
    {
        proof {
            let t = id@.take(i as int);
            assert(t.drop_last() =~= id@.take(i - 1));
            assert(t.last() == id@[i - 1]);
            assert(id_suffix(t) == id_suffix(id@.take(i - 1)).push(id@[i - 1]));
            assert(id_suffix(id@.take(i - 1)).push(id@[i - 1]) + id@.subrange(i as int, id@.len() as int)
                =~= id_suffix(id@.take(i - 1)) + id@.subrange(i - 1, id@.len() as int));
        }
        i = i - 1;
    }
    proof {
        if i > 0 {
            assert(id_suffix(id@.take(i as int)) =~= Seq::<char>::empty());
        } else {
            assert(id_suffix(id@.take(0)) =~= Seq::<char>::empty());
        }
        assert(Seq::<char>::empty() + id@.subrange(i as int, id@.len() as int) =~= id@.subrange(
            i as int,
            id@.len() as int,
        ));
    }
    slice_vec(id, i, id.len())
}

fn lex_lt_exec(a: &[char], b: &[char]) -> (r: bool)
    ensures
        r == lex_lt(a@, b@),
{
    let mut i: usize = 0;
    proof {
        assert(a@.skip(0) =~= a@);
        assert(b@.skip(0) =~= b@);
    }
    loop
        invariant
            i <= a@.len(),
            i <= b@.len(),
            lex_lt(a@, b@) == lex_lt(a@.skip(i as int), b@.skip(i as int)),
        decreases a@.len() - i,
    {
        if i >= a.len() {
            return i < b.len();
        }
        if i >= b.len() {
            return false;
        }
        proof {
            assert(a@.skip(i as int)[0] == a@[i as int]);
            assert(b@.skip(i as int)[0] == b@[i as int]);
            assert(a@.skip(i as int).drop_first() =~= a@.skip(i + 1));
            assert(b@.skip(i as int).drop_first() =~= b@.skip(i + 1));
        }
        if a[i] != b[i] {
            return (a[i] as u32) < (b[i] as u32);
        }
        i = i + 1;
    }
}

/// A row being built: id, display name and sort key.
struct ModelItem {
    id: String,
    display: String,
    key: Vec<char>,
}

/// The view of a row.
spec fn item_view(m: ModelItem) -> ModelRow {
    (m.id@, m.display@, m.key@)
}

/// The views of rows.
spec fn items_view(v: Seq<ModelItem>) -> Seq<ModelRow> {
    Seq::new(v.len(), |i: int| item_view(v[i]))
}

fn insert_position_exec(rows: &Vec<ModelItem>, key: &[char]) -> (r: usize)
    ensures
        r as nat == insert_position(row_keys(items_view(rows@)), key@),
        r <= rows@.len(),
{
    let ghost keys = row_keys(items_view(rows@));
    let mut i: usize = 0;
    proof {
        assert(keys.skip(0) =~= keys);
    }
    while i < rows.len()
        invariant
            i <= rows@.len(),
            keys == row_keys(items_view(rows@)),
            insert_position(keys, key@) == insert_position(keys.skip(i as int), key@) + i,
        decreases rows@.len() - i,
    {
        proof {
            assert(keys.skip(i as int)[0] == rows@[i as int].key@);
            assert(keys.skip(i as int).drop_first() =~= keys.skip(i + 1));
        }
        if lex_lt_exec(key, &rows[i].key) {
            return i;
        }
        i = i + 1;
    }
    proof {
        assert(keys.skip(i as int).len() == 0);
    }
    i
}

/// The models to list on the settings page, with their display names, sorted.
pub fn model_list(ids: &Vec<String>) -> (r: Vec<(String, String)>)
    ensures
        r@.len() == spec_model_list(strs_view(ids@)).len(),
        forall|i: int|
            0 <= i < r@.len() ==> (#[trigger] r@[i]).0@ == spec_model_list(strs_view(ids@))[i].0
                && r@[i].1@ == spec_model_list(strs_view(ids@))[i].1,
{
    let ghost iv = strs_view(ids@);
    // the suffix of every id
    let mut suffixes: Vec<Vec<char>> = Vec::new();
    let mut i: usize = 0;
    while i < ids.len()
        invariant
            i <= ids@.len(),
            iv == strs_view(ids@),
            suffixes@.len() == i,
            forall|k: int| 0 <= k < i ==> #[trigger] suffixes@[k]@ == id_suffix(iv[k]),
        decreases ids@.len() - i,
    {
        suffixes.push(id_suffix_exec(&to_chars(ids[i].as_str())));
        i = i + 1;
    }
    // the rows, in the order given
    let ghost rows = Seq::new(iv.len(), |k: int| (iv[k], display_name(iv, iv[k]), unicode_lowercase(display_name(iv, iv[k]))));
    let mut sorted: Vec<ModelItem> = Vec::new();
    let mut j: usize = 0;
    proof {
        assert(rows.take(0) =~= Seq::<ModelRow>::empty());
        assert(items_view(sorted@) =~= Seq::<ModelRow>::empty());
    }
    while j < ids.len()
        invariant
            j <= ids@.len(),
            iv == strs_view(ids@),
            suffixes@.len() == ids@.len(),
            forall|k: int| 0 <= k < ids@.len() ==> #[trigger] suffixes@[k]@ == id_suffix(iv[k]),
            rows == Seq::new(iv.len(), |k: int| (iv[k], display_name(iv, iv[k]), unicode_lowercase(display_name(iv, iv[k])))),
            items_view(sorted@) == sort_rows(rows.take(j as int)),
        decreases ids@.len() - j,
    {
        // how many ids share this one's suffix
        let mut count: usize = 0;
        let mut k: usize = 0;
        while k < suffixes.len()
            invariant
                k <= suffixes@.len(),
                suffixes@.len() == ids@.len(),
                j < ids@.len(),
                iv == strs_view(ids@),
                forall|x: int| 0 <= x < ids@.len() ==> #[trigger] suffixes@[x]@ == id_suffix(iv[x]),
                count == suffix_count(iv.take(k as int), id_suffix(iv[j as int])),
                count <= k,
            decreases suffixes@.len() - k,
        {
            proof {
                assert(iv.take(k + 1).drop_last() =~= iv.take(k as int));
                assert(iv.take(k + 1).last() == iv[k as int]);
            }
            if chars_eq(&suffixes[k], &suffixes[j]) {
                count = count + 1;
            }
            k = k + 1;
        }
        proof {
            assert(iv.take(k as int) =~= iv);
        }
        let display = if count == 1 {
            from_chars(&suffixes[j])
        } else {
            ids[j].clone()
        };
        let key = to_chars(to_lowercase(display.as_str()).as_str());
        let item = ModelItem { id: ids[j].clone(), display, key };
        proof {
            assert(item_view(item) == rows[j as int]);
        }
        let p = insert_position_exec(&sorted, &item.key);
        let ghost before = items_view(sorted@);
        sorted.insert(p, item);
        proof {
            assert(rows.take(j + 1).drop_last() =~= rows.take(j as int));
            assert(rows.take(j + 1).last() == rows[j as int]);
            assert(items_view(sorted@) =~= before.insert(p as int, rows[j as int]));
        }
        j = j + 1;
    }
    proof {
        assert(rows.take(j as int) =~= rows);
    }
    let mut out: Vec<(String, String)> = Vec::new();
    let mut m: usize = 0;
    let ghost final_rows = items_view(sorted@);
    while m < sorted.len()
        invariant
            m <= sorted@.len(),
            final_rows == items_view(sorted@),
            out@.len() == m,
            forall|x: int|
                0 <= x < m ==> (#[trigger] out@[x]).0@ == final_rows[x].0 && out@[x].1@ == final_rows[x].1,
        decreases sorted@.len() - m,
    {
        out.push((sorted[m].id.clone(), sorted[m].display.clone()));
        m = m + 1;
    }
    out
}

} // verus!
