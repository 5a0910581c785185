//! Lorebook identity: the signature of an entry, whether an existing
//! lorebook already holds what an imported card brings, and the entries
//! created for a card's book.

use vstd::prelude::*;
use crate::models::{opt_view, CreateLorebookEntryInput, CreateLorebookInput, Lorebook, LorebookEntry};
use crate::text::{
    bool_text, from_chars, int_decimal, lemma_int_decimal_injective, push_all, push_bool, push_i64_decimal,
    to_chars,
};

verus! {

// ---------------------------------------------------------------------------
// values read from an imported card's JSON
// ---------------------------------------------------------------------------

/// A JSON value of an imported card, as far as the import reads it.
#[derive(Clone, Debug)]
pub enum CardValue {
    /// A string.
    Str(String),
    /// A number that is an integer within `i64`.
    Int(i64),
    /// `true` or `false`.
    Bool(bool),
    /// Anything else (null, another number, an array, an object).
    Other,
}

/// The string a member holds, if it is present and a string.
pub open spec fn as_str(v: Option<CardValue>) -> Option<Seq<char>> {
    match v {
        Some(CardValue::Str(s)) => Some(s@),
        _ => None,
    }
}

/// The integer a member holds, if it is present and an `i64`.
pub open spec fn as_i64(v: Option<CardValue>) -> Option<i64> {
    match v {
        Some(CardValue::Int(i)) => Some(i),
        _ => None,
    }
}

/// The boolean a member holds, if it is present and a boolean.
pub open spec fn as_bool(v: Option<CardValue>) -> Option<bool> {
    match v {
        Some(CardValue::Bool(b)) => Some(b),
        _ => None,
    }
}

/// The string a member holds (executable `as_str`).
pub fn value_str(v: &Option<CardValue>) -> (r: Option<String>)
    ensures
        opt_view(r) == as_str(*v),
{
    match v {
        Some(CardValue::Str(s)) => Some(s.clone()),
        _ => None,
    }
}

/// The integer a member holds (executable `as_i64`).
pub fn value_i64(v: &Option<CardValue>) -> (r: Option<i64>)
    ensures
        r == as_i64(*v),
{
    match v {
        Some(CardValue::Int(i)) => Some(*i),
        _ => None,
    }
}

/// The boolean a member holds (executable `as_bool`).
pub fn value_bool(v: &Option<CardValue>) -> (r: Option<bool>)
    ensures
        r == as_bool(*v),
{
    match v {
        Some(CardValue::Bool(b)) => Some(*b),
        _ => None,
    }
}

/// One entry of an imported card's book: each member the import reads (as
/// present or not), and `keys`/`secondary_keys` as their JSON text.
#[derive(Clone, Debug)]
pub struct CardEntry {
    pub name: Option<CardValue>,
    pub content: Option<CardValue>,
    pub insertion_order: Option<CardValue>,
    pub enabled: Option<CardValue>,
    pub comment: Option<CardValue>,
    pub constant: Option<CardValue>,
    pub position: Option<CardValue>,
    pub selective: Option<CardValue>,
    /// The JSON text of `keys`, when present.
    pub keys: Option<String>,
    /// The JSON text of `secondary_keys`, when present.
    pub secondary_keys: Option<String>,
    /// `extensions.weight`
    pub ext_weight: Option<CardValue>,
    /// `extensions.probability`
    pub ext_probability: Option<CardValue>,
    /// `extensions.useProbability`
    pub ext_use_probability: Option<CardValue>,
    /// `extensions.selectiveLogic`
    pub ext_selective_logic: Option<CardValue>,
    /// `extensions.excludeRecursion`
    pub ext_exclude_recursion: Option<CardValue>,
    /// `extensions.exclude_recursion`
    pub ext_exclude_recursion_snake: Option<CardValue>,
}

// ---------------------------------------------------------------------------
// signatures
// ---------------------------------------------------------------------------

/// The separator between the fields of a signature (U+0001).
pub open spec fn sig_sep() -> Seq<char> {
    seq!['\u{1}']
}

/// The signature of an entry: its fields, numbers and booleans as text,
/// separated by U+0001.
pub open spec fn spec_signature(
    name: Seq<char>,
    entry: Seq<char>,
    keywords: Seq<char>,
    priority: i64,
    weight: i64,
    enabled: bool,
    comment: Seq<char>,
    secondary_keys: Seq<char>,
    constant: bool,
    position: Seq<char>,
    probability: i64,
    use_probability: bool,
    selective: bool,
    selective_logic: i64,
    exclude_recursion: bool,
) -> Seq<char> {
    name + sig_sep() + entry + sig_sep() + keywords + sig_sep() + int_decimal(priority as int)
        + sig_sep() + int_decimal(weight as int) + sig_sep() + bool_text(enabled) + sig_sep()
        + comment + sig_sep() + secondary_keys + sig_sep() + bool_text(constant) + sig_sep()
        + position + sig_sep() + int_decimal(probability as int) + sig_sep() + bool_text(
        use_probability,
    ) + sig_sep() + bool_text(selective) + sig_sep() + int_decimal(selective_logic as int)
        + sig_sep() + bool_text(exclude_recursion)
}

/// The signature of an entry from its fields: when no text field holds
/// U+0001, two entries with the same signature have the same content
/// (`law_signature_is_injective`).
pub fn lorebook_entry_signature(
    name: &str,
    entry: &str,
    keywords: &str,
    priority: i64,
    weight: i64,
    enabled: bool,
    comment: &str,
    secondary_keys: &str,
    constant: bool,
    position: &str,
    probability: i64,
    use_probability: bool,
    selective: bool,
    selective_logic: i64,
    exclude_recursion: bool,
) -> (r: String)
    ensures
        r@ == spec_signature(
            name@,
            entry@,
            keywords@,
            priority,
            weight,
            enabled,
            comment@,
            secondary_keys@,
            constant,
            position@,
            probability,
            use_probability,
            selective,
            selective_logic,
            exclude_recursion,
        ),
{
    let sep = ['\u{1}'];
    proof {
        assert(sep@ =~= sig_sep());
    }
    let mut out = to_chars(name);
    push_all(&mut out, &sep);
    push_all(&mut out, &to_chars(entry));
    push_all(&mut out, &sep);
    push_all(&mut out, &to_chars(keywords));
    push_all(&mut out, &sep);
    push_i64_decimal(&mut out, priority);
    push_all(&mut out, &sep);
    push_i64_decimal(&mut out, weight);
    push_all(&mut out, &sep);
    push_bool(&mut out, enabled);
    push_all(&mut out, &sep);
    push_all(&mut out, &to_chars(comment));
    push_all(&mut out, &sep);
    push_all(&mut out, &to_chars(secondary_keys));
    push_all(&mut out, &sep);
    push_bool(&mut out, constant);
    push_all(&mut out, &sep);
    push_all(&mut out, &to_chars(position));
    push_all(&mut out, &sep);
    push_i64_decimal(&mut out, probability);
    push_all(&mut out, &sep);
    push_bool(&mut out, use_probability);
    push_all(&mut out, &sep);
    push_bool(&mut out, selective);
    push_all(&mut out, &sep);
    push_i64_decimal(&mut out, selective_logic);
    push_all(&mut out, &sep);
    push_bool(&mut out, exclude_recursion);
    from_chars(&out)
}

/// The signature of a stored entry.
pub open spec fn spec_stored_signature(e: LorebookEntry) -> Seq<char> {
    spec_signature(
        e.name@,
        e.entry@,
        e.keywords@,
        e.priority,
        e.weight,
        e.enabled,
        e.comment@,
        e.secondary_keys@,
        e.constant,
        e.position@,
        e.probability,
        e.use_probability,
        e.selective,
        e.selective_logic,
        e.exclude_recursion,
    )
}

/// The signature of an entry stored on the server.
pub fn stored_entry_signature(e: &LorebookEntry) -> (r: String)
    ensures
        r@ == spec_stored_signature(*e),
{
    lorebook_entry_signature(
        e.name.as_str(),
        e.entry.as_str(),
        e.keywords.as_str(),
        e.priority,
        e.weight,
        e.enabled,
        e.comment.as_str(),
        e.secondary_keys.as_str(),
        e.constant,
        e.position.as_str(),
        e.probability,
        e.use_probability,
        e.selective,
        e.selective_logic,
        e.exclude_recursion,
    )
}

/// `[]`, the JSON text of an absent key list.
pub open spec fn empty_list_text() -> Seq<char> {
    seq!['[', ']']
}

/// `or` for an optional string.
pub open spec fn or_text(v: Option<Seq<char>>, d: Seq<char>) -> Seq<char> {
    match v {
        Some(s) => s,
        None => d,
    }
}

/// `or` for an optional integer.
pub open spec fn or_int(v: Option<i64>, d: i64) -> i64 {
    match v {
        Some(i) => i,
        None => d,
    }
}

/// `or` for an optional boolean.
pub open spec fn or_bool(v: Option<bool>, d: bool) -> bool {
    match v {
        Some(b) => b,
        None => d,
    }
}

/// `extensions.excludeRecursion`, or when that member is absent
/// `extensions.exclude_recursion`, as a boolean.
pub open spec fn card_exclude_recursion(e: CardEntry) -> Option<bool> {
    match e.ext_exclude_recursion {
        Some(v) => as_bool(Some(v)),
        None => as_bool(e.ext_exclude_recursion_snake),
    }
}

/// The signature of a card's entry, each missing field taking the value the
/// server gives it: empty text, `[]` key lists, order and weight 0,
/// enabled, not constant, probability 100 and used, not selective, logic 0,
/// not excluded from recursion.
pub open spec fn spec_card_signature(e: CardEntry) -> Seq<char> {
    spec_signature(
        or_text(as_str(e.name), Seq::empty()),
        or_text(as_str(e.content), Seq::empty()),
        or_text(opt_view(e.keys), empty_list_text()),
        or_int(as_i64(e.insertion_order), 0),
        or_int(as_i64(e.ext_weight), 0),
        or_bool(as_bool(e.enabled), true),
        or_text(as_str(e.comment), Seq::empty()),
        or_text(opt_view(e.secondary_keys), empty_list_text()),
        or_bool(as_bool(e.constant), false),
        or_text(as_str(e.position), Seq::empty()),
        or_int(as_i64(e.ext_probability), 100),
        or_bool(as_bool(e.ext_use_probability), true),
        or_bool(as_bool(e.selective), false),
        or_int(as_i64(e.ext_selective_logic), 0),
        or_bool(card_exclude_recursion(e), false),
    )
}

fn text_or(v: Option<String>, d: &str) -> (r: String)
    ensures
        r@ == or_text(opt_view(v), d@),
{
    match v {
        Some(s) => s,
        None => d.to_string(),
    }
}

fn card_exclude_recursion_exec(e: &CardEntry) -> (r: Option<bool>)
    ensures
        r == card_exclude_recursion(*e),
{
    match &e.ext_exclude_recursion {
        Some(CardValue::Bool(b)) => Some(*b),
        Some(_) => None,
        None => value_bool(&e.ext_exclude_recursion_snake),
    }
}

/// The signature of an entry of an imported card.
pub fn card_entry_signature(entry: &CardEntry) -> (r: String)
    ensures
        r@ == spec_card_signature(*entry),
{
    let name = text_or(value_str(&entry.name), "");
    let content = text_or(value_str(&entry.content), "");
    let keys = text_or(crate::models::copy_opt(&entry.keys), "[]");
    let comment = text_or(value_str(&entry.comment), "");
    let secondary = text_or(crate::models::copy_opt(&entry.secondary_keys), "[]");
    let position = text_or(value_str(&entry.position), "");
    proof {
        reveal_strlit("");
        reveal_strlit("[]");
        assert(""@ =~= Seq::<char>::empty());
        assert("[]"@ =~= empty_list_text());
    }
    let priority = match value_i64(&entry.insertion_order) {
        Some(i) => i,
        None => 0,
    };
    let weight = match value_i64(&entry.ext_weight) {
        Some(i) => i,
        None => 0,
    };
    let enabled = match value_bool(&entry.enabled) {
        Some(b) => b,
        None => true,
    };
    let constant = match value_bool(&entry.constant) {
        Some(b) => b,
        None => false,
    };
    let probability = match value_i64(&entry.ext_probability) {
        Some(i) => i,
        None => 100,
    };
    let use_probability = match value_bool(&entry.ext_use_probability) {
        Some(b) => b,
        None => true,
    };
    let selective = match value_bool(&entry.selective) {
        Some(b) => b,
        None => false,
    };
    let selective_logic = match value_i64(&entry.ext_selective_logic) {
        Some(i) => i,
        None => 0,
    };
    let exclude = match card_exclude_recursion_exec(entry) {
        Some(b) => b,
        None => false,
    };
    lorebook_entry_signature(
        name.as_str(),
        content.as_str(),
        keys.as_str(),
        priority,
        weight,
        enabled,
        comment.as_str(),
        secondary.as_str(),
        constant,
        position.as_str(),
        probability,
        use_probability,
        selective,
        selective_logic,
        exclude,
    )
}

// ---------------------------------------------------------------------------
// finding a lorebook that already holds a card's book
// ---------------------------------------------------------------------------

/// Whether an existing lorebook has the name and settings the card's book
/// would be created with (absent settings taken as empty, 0 or false).
pub open spec fn spec_lorebook_matches(candidate: Lorebook, input: CreateLorebookInput) -> bool {
    &&& candidate.name@ == input.name@
    &&& candidate.description@ == or_text(opt_view(input.description), Seq::empty())
    &&& candidate.scan_depth == or_int(input.scan_depth, 0)
    &&& candidate.token_budget == or_int(input.token_budget, 0)
    &&& candidate.recursive_scanning == or_bool(input.recursive_scanning, false)
    &&& candidate.extensions@ == or_text(opt_view(input.extensions), Seq::empty())
}

fn opt_text_eq(s: &String, o: &Option<String>) -> (r: bool)
    ensures
        r == (s@ == or_text(opt_view(*o), Seq::empty())),
{
    match o {
        Some(t) => *s == *t,
        None => {
            let e = s.as_str().is_empty();
            proof {
                if e {
                    assert(s@ =~= Seq::<char>::empty());
                }
            }
            e
        },
    }
}

/// Whether an existing lorebook matches the book to be created, before
/// comparing entries.
pub fn lorebook_matches(candidate: &Lorebook, input: &CreateLorebookInput) -> (r: bool)
    ensures
        r == spec_lorebook_matches(*candidate, *input),
{
    candidate.name == input.name && opt_text_eq(&candidate.description, &input.description)
        && candidate.scan_depth == (match input.scan_depth {
        Some(v) => v,
        None => 0,
    }) && candidate.token_budget == (match input.token_budget {
        Some(v) => v,
        None => 0,
    }) && candidate.recursive_scanning == (match input.recursive_scanning {
        Some(v) => v,
        None => false,
    }) && opt_text_eq(&candidate.extensions, &input.extensions)
}

/// The ids of the existing lorebooks that match the book, in order.
pub open spec fn spec_matching_candidates(existing: Seq<Lorebook>, input: CreateLorebookInput) -> Seq<
    Seq<char>,
>
    decreases existing.len(),
{
    if existing.len() == 0 {
        Seq::empty()
    } else {
        spec_matching_candidates(existing.drop_last(), input) + if spec_lorebook_matches(
            existing.last(),
            input,
        ) {
            seq![existing.last().id@]
        } else {
            Seq::empty()
        }
    }
}

/// The existing lorebooks worth comparing entries with, in order.
pub fn matching_candidates(existing: &Vec<Lorebook>, input: &CreateLorebookInput) -> (r: Vec<String>)
    ensures
        crate::models::strs_view(r@) == spec_matching_candidates(existing@, *input),
{
    let mut out: Vec<String> = Vec::new();
    let mut i: usize = 0;
    proof {
        assert(existing@.take(0) =~= Seq::<Lorebook>::empty());
        assert(crate::models::strs_view(out@) =~= Seq::<Seq<char>>::empty());
    }
    while i < existing.len()
        invariant
            i <= existing@.len(),
            crate::models::strs_view(out@) == spec_matching_candidates(existing@.take(i as int), *input),
        decreases existing@.len() - i,
    {
        proof {
            assert(existing@.take(i + 1).drop_last() =~= existing@.take(i as int));
            assert(existing@.take(i + 1).last() == existing@[i as int]);
        }
        let ghost before = out@;
        if lorebook_matches(&existing[i], input) {
            out.push(existing[i].id.clone());
            proof {
                assert(crate::models::strs_view(out@) =~= crate::models::strs_view(before).push(
                    existing@[i as int].id@,
                ));
            }
        } else {
            proof {
                assert(crate::models::strs_view(before) + Seq::<Seq<char>>::empty()
                    =~= crate::models::strs_view(before));
            }
        }
        i = i + 1;
    }
    proof {
        assert(existing@.take(existing@.len() as int) =~= existing@);
    }
    out
}

/// An existing lorebook is recognised as the card's book exactly when its
/// name equals the book's, its description equals the book's (empty when
/// the book gives none), and so do its scan depth and token budget (0 when
/// not given), its recursive scanning (off when not given) and its
/// extensions (empty when not given).
pub proof fn law_lorebook_match_means_same_settings(candidate: Lorebook, input: CreateLorebookInput)
    ensures
        spec_lorebook_matches(candidate, input) <==> {
            &&& candidate.name@ == input.name@
            &&& candidate.description@ == match input.description {
                Some(d) => d@,
                None => Seq::<char>::empty(),
            }
            &&& candidate.scan_depth == match input.scan_depth {
                Some(n) => n,
                None => 0i64,
            }
            &&& candidate.token_budget == match input.token_budget {
                Some(n) => n,
                None => 0i64,
            }
            &&& candidate.recursive_scanning == match input.recursive_scanning {
                Some(b) => b,
                None => false,
            }
            &&& candidate.extensions@ == match input.extensions {
                Some(e) => e@,
                None => Seq::<char>::empty(),
            }
        },
{
}

/// Every lorebook offered as a candidate for the card's book is an existing
/// one with the book's name and description (empty when the book gives none).
pub proof fn law_candidates_share_name_and_description(existing: Seq<Lorebook>, input: CreateLorebookInput, t: int)
    requires
        0 <= t < spec_matching_candidates(existing, input).len(),
    ensures
        exists|k: int|
            0 <= k < existing.len() && #[trigger] existing[k].id@ == spec_matching_candidates(existing, input)[t]
                && existing[k].name@ == input.name@ && existing[k].description@ == match input.description {
                Some(d) => d@,
                None => Seq::<char>::empty(),
            },
    decreases existing.len(),
{
    let rest = spec_matching_candidates(existing.drop_last(), input);
    if t < rest.len() {
        law_candidates_share_name_and_description(existing.drop_last(), input, t);
        let k = choose|k: int|
            0 <= k < existing.drop_last().len() && #[trigger] existing.drop_last()[k].id@ == rest[t]
                && existing.drop_last()[k].name@ == input.name@ && existing.drop_last()[k].description@
                == match input.description {
                Some(d) => d@,
                None => Seq::<char>::empty(),
            };
        assert(existing[k] == existing.drop_last()[k]);
    } else {
        let k = existing.len() - 1;
        assert(existing[k].id@ == spec_matching_candidates(existing, input)[t]);
    }
}

/// The signatures of stored entries.
pub open spec fn stored_signatures(v: Seq<LorebookEntry>) -> Seq<Seq<char>> {
    Seq::new(v.len(), |i: int| spec_stored_signature(v[i]))
}

/// The signatures of a card's entries.
pub open spec fn card_signatures(v: Seq<CardEntry>) -> Seq<Seq<char>> {
    Seq::new(v.len(), |i: int| spec_card_signature(v[i]))
}

fn contains_sig(v: &Vec<String>, s: &String) -> (r: bool)
    ensures
        r == crate::models::strs_view(v@).contains(s@),
{
    let mut i: usize = 0;
    while i < v.len()
        invariant
            i <= v@.len(),
            forall|j: int| 0 <= j < i ==> v@[j]@ != s@,
        decreases v@.len() - i,
    {
        if v[i] == *s {
            proof {
                assert(crate::models::strs_view(v@)[i as int] == s@);
            }
            return true;
        }
        i = i + 1;
    }
    proof {
        if crate::models::strs_view(v@).contains(s@) {
            let j = choose|j: int|
                0 <= j < crate::models::strs_view(v@).len() && crate::models::strs_view(v@)[j] == s@;
            assert(v@[j]@ == s@);
        }
    }
    false
}

fn all_contained(a: &Vec<String>, b: &Vec<String>) -> (r: bool)
    ensures
        r == (forall|i: int|
            0 <= i < a@.len() ==> crate::models::strs_view(b@).contains(#[trigger] a@[i]@)),
{
    let mut i: usize = 0;
    while i < a.len()
        invariant
            i <= a@.len(),
            forall|j: int| 0 <= j < i ==> crate::models::strs_view(b@).contains(#[trigger] a@[j]@),
        decreases a@.len() - i,
    {
        if !contains_sig(b, &a[i]) {
            return false;
        }
        i = i + 1;
    }
    true
}

/// Whether a lorebook's stored entries are, as a set of signatures, the
/// card's entries.
pub fn entries_match(candidate_entries: &Vec<LorebookEntry>, card_entries: &Vec<CardEntry>) -> (r: bool)
    ensures
        r == (stored_signatures(candidate_entries@).to_set() == card_signatures(card_entries@).to_set()),
{
    let mut stored: Vec<String> = Vec::new();
    let mut i: usize = 0;
    while i < candidate_entries.len()
        invariant
            i <= candidate_entries@.len(),
            crate::models::strs_view(stored@) == stored_signatures(candidate_entries@.take(i as int)),
        decreases candidate_entries@.len() - i,
    {
        let ghost before = stored@;
        let sig = stored_entry_signature(&candidate_entries[i]);
        stored.push(sig);
        proof {
            assert(crate::models::strs_view(stored@) =~= crate::models::strs_view(before).push(sig@));
            assert(stored_signatures(candidate_entries@.take(i + 1)) =~= stored_signatures(
                candidate_entries@.take(i as int),
            ).push(spec_stored_signature(candidate_entries@[i as int])));
        }
        i = i + 1;
    }
    let mut incoming: Vec<String> = Vec::new();
    let mut j: usize = 0;
    while j < card_entries.len()
        invariant
            j <= card_entries@.len(),
            crate::models::strs_view(incoming@) == card_signatures(card_entries@.take(j as int)),
        decreases card_entries@.len() - j,
    {
        let ghost before = incoming@;
        let sig = card_entry_signature(&card_entries[j]);
        incoming.push(sig);
        proof {
            assert(crate::models::strs_view(incoming@) =~= crate::models::strs_view(before).push(sig@));
            assert(card_signatures(card_entries@.take(j + 1)) =~= card_signatures(
                card_entries@.take(j as int),
            ).push(spec_card_signature(card_entries@[j as int])));
        }
        j = j + 1;
    }
    let ghost sa = stored_signatures(candidate_entries@);
    let ghost sb = card_signatures(card_entries@);
    proof {
        assert(candidate_entries@.take(candidate_entries@.len() as int) =~= candidate_entries@);
        assert(card_entries@.take(card_entries@.len() as int) =~= card_entries@);
        assert(crate::models::strs_view(stored@) == sa);
        assert(crate::models::strs_view(incoming@) == sb);
    }
    let ab = all_contained(&stored, &incoming);
    let ba = all_contained(&incoming, &stored);
    proof {
        if ab && ba {
            assert forall|x: Seq<char>| sa.to_set().contains(x) <==> sb.to_set().contains(x) by {
                if sa.contains(x) {
                    let k = choose|k: int| 0 <= k < sa.len() && sa[k] == x;
                    assert(stored@[k]@ == x);
                }
                if sb.contains(x) {
                    let k = choose|k: int| 0 <= k < sb.len() && sb[k] == x;
                    assert(incoming@[k]@ == x);
                }
            }
            assert(sa.to_set() =~= sb.to_set());
        } else if !ab {
            let k = choose|k: int|
                0 <= k < stored@.len() && !crate::models::strs_view(incoming@).contains(
                    #[trigger] stored@[k]@,
                );
            assert(sa[k] == stored@[k]@);
            assert(sa.to_set().contains(stored@[k]@));
            assert(!sb.to_set().contains(stored@[k]@));
        } else {
            let k = choose|k: int|
                0 <= k < incoming@.len() && !crate::models::strs_view(stored@).contains(
                    #[trigger] incoming@[k]@,
                );
            assert(sb[k] == incoming@[k]@);
            assert(sb.to_set().contains(incoming@[k]@));
            assert(!sa.to_set().contains(incoming@[k]@));
        }
    }
    ab && ba
}

// ---------------------------------------------------------------------------
// the entries created for a card's book
// ---------------------------------------------------------------------------

/// The entry created in lorebook `lorebook_id` for a card's entry.
pub open spec fn spec_entry_input(e: CardEntry, lorebook_id: Seq<char>) -> CreateLorebookEntryInputV {
    CreateLorebookEntryInputV {
        lorebook_id,
        name: or_text(as_str(e.name), Seq::empty()),
        entry: or_text(as_str(e.content), Seq::empty()),
        keywords: Some(or_text(opt_view(e.keys), empty_list_text())),
        priority: as_i64(e.insertion_order),
        weight: as_i64(e.ext_weight),
        enabled: as_bool(e.enabled),
        comment: as_str(e.comment),
        secondary_keys: Some(or_text(opt_view(e.secondary_keys), empty_list_text())),
        constant: as_bool(e.constant),
        position: as_str(e.position),
        probability: Some(or_int(as_i64(e.ext_probability), 100)),
        use_probability: Some(or_bool(as_bool(e.ext_use_probability), true)),
        selective: as_bool(e.selective),
        selective_logic: as_i64(e.ext_selective_logic),
        exclude_recursion: card_exclude_recursion(e),
    }
}

/// The mathematical form of an entry to create.
pub struct CreateLorebookEntryInputV {
    pub lorebook_id: Seq<char>,
    pub name: Seq<char>,
    pub entry: Seq<char>,
    pub keywords: Option<Seq<char>>,
    pub priority: Option<i64>,
    pub weight: Option<i64>,
    pub enabled: Option<bool>,
    pub comment: Option<Seq<char>>,
    pub secondary_keys: Option<Seq<char>>,
    pub constant: Option<bool>,
    pub position: Option<Seq<char>>,
    pub probability: Option<i64>,
    pub use_probability: Option<bool>,
    pub selective: Option<bool>,
    pub selective_logic: Option<i64>,
    pub exclude_recursion: Option<bool>,
}

/// The view of an entry to create.
pub open spec fn entry_input_view(i: CreateLorebookEntryInput) -> CreateLorebookEntryInputV {
    CreateLorebookEntryInputV {
        lorebook_id: i.lorebook_id@,
        name: i.name@,
        entry: i.entry@,
        keywords: opt_view(i.keywords),
        priority: i.priority,
        weight: i.weight,
        enabled: i.enabled,
        comment: opt_view(i.comment),
        secondary_keys: opt_view(i.secondary_keys),
        constant: i.constant,
        position: opt_view(i.position),
        probability: i.probability,
        use_probability: i.use_probability,
        selective: i.selective,
        selective_logic: i.selective_logic,
        exclude_recursion: i.exclude_recursion,
    }
}

/// The entry to create in lorebook `lorebook_id` for one entry of a card's book.
pub fn card_entry_input(entry: &CardEntry, lorebook_id: &String) -> (r: CreateLorebookEntryInput)
    ensures
        entry_input_view(r) == spec_entry_input(*entry, lorebook_id@),
{
    let keys = text_or(crate::models::copy_opt(&entry.keys), "[]");
    let secondary = text_or(crate::models::copy_opt(&entry.secondary_keys), "[]");
    let name = text_or(value_str(&entry.name), "");
    let content = text_or(value_str(&entry.content), "");
    proof {
        reveal_strlit("");
        reveal_strlit("[]");
        assert(""@ =~= Seq::<char>::empty());
        assert("[]"@ =~= empty_list_text());
    }
    CreateLorebookEntryInput {
        lorebook_id: lorebook_id.clone(),
        name,
        entry: content,
        keywords: Some(keys),
        priority: value_i64(&entry.insertion_order),
        weight: value_i64(&entry.ext_weight),
        enabled: value_bool(&entry.enabled),
        comment: value_str(&entry.comment),
        secondary_keys: Some(secondary),
        constant: value_bool(&entry.constant),
        position: value_str(&entry.position),
        probability: Some(
            match value_i64(&entry.ext_probability) {
                Some(p) => p,
                None => 100,
            },
        ),
        use_probability: Some(
            match value_bool(&entry.ext_use_probability) {
                Some(b) => b,
                None => true,
            },
        ),
        selective: value_bool(&entry.selective),
        selective_logic: value_i64(&entry.ext_selective_logic),
        exclude_recursion: card_exclude_recursion_exec(entry),
    }
}

/// The signature of the entry stored for `input`, when the server fills
/// each absent field with the value the card signature assumes.
pub open spec fn signature_with_defaults(input: CreateLorebookEntryInputV) -> Seq<char> {
    spec_signature(
        input.name,
        input.entry,
        or_text(input.keywords, empty_list_text()),
        or_int(input.priority, 0),
        or_int(input.weight, 0),
        or_bool(input.enabled, true),
        or_text(input.comment, Seq::empty()),
        or_text(input.secondary_keys, empty_list_text()),
        or_bool(input.constant, false),
        or_text(input.position, Seq::empty()),
        or_int(input.probability, 100),
        or_bool(input.use_probability, true),
        or_bool(input.selective, false),
        or_int(input.selective_logic, 0),
        or_bool(input.exclude_recursion, false),
    )
}

/// Re-importing a card finds the lorebook its first import created: the
/// entry created for a card's entry, stored with those defaults, has the
/// card entry's own signature.
pub proof fn law_created_entry_has_card_signature(e: CardEntry, lorebook_id: Seq<char>)
    ensures
        signature_with_defaults(spec_entry_input(e, lorebook_id)) == spec_card_signature(e),
{
}

/// Re-importing a card finds the lorebook its first import created: when
/// every stored entry is one created for an entry of the card, and every
/// entry of the card had one created, the stored entries match the card's
/// (in any order, as the server lists them).
#[verifier::rlimit(60)]
pub proof fn law_reimport_matches_created_entries(stored: Seq<LorebookEntry>, card: Seq<CardEntry>, lorebook_id: Seq<char>)
    requires
        forall|i: int|
            0 <= i < stored.len() ==> exists|j: int|
                0 <= j < card.len() && #[trigger] spec_stored_signature(stored[i]) == signature_with_defaults(
                    spec_entry_input(#[trigger] card[j], lorebook_id),
                ),
        forall|j: int|
            0 <= j < card.len() ==> exists|i: int|
                0 <= i < stored.len() && #[trigger] spec_stored_signature(stored[i]) == signature_with_defaults(
                    spec_entry_input(#[trigger] card[j], lorebook_id),
                ),
    ensures
        stored_signatures(stored).to_set() == card_signatures(card).to_set(),
{
    let a = stored_signatures(stored);
    let b = card_signatures(card);
    assert forall|x: Seq<char>| a.to_set().contains(x) implies b.to_set().contains(x) by {
        let i = choose|i: int| 0 <= i < a.len() && a[i] == x;
        assert(spec_stored_signature(stored[i]) == x);
        let j = choose|j: int|
            0 <= j < card.len() && #[trigger] spec_stored_signature(stored[i]) == signature_with_defaults(
                spec_entry_input(#[trigger] card[j], lorebook_id),
            );
        law_created_entry_has_card_signature(card[j], lorebook_id);
        assert(b[j] == x);
    }
    assert forall|x: Seq<char>| b.to_set().contains(x) implies a.to_set().contains(x) by {
        let j = choose|j: int| 0 <= j < b.len() && b[j] == x;
        assert(spec_card_signature(card[j]) == x);
        let i = choose|i: int|
            0 <= i < stored.len() && #[trigger] spec_stored_signature(stored[i]) == signature_with_defaults(
                spec_entry_input(#[trigger] card[j], lorebook_id),
            );
        law_created_entry_has_card_signature(card[j], lorebook_id);
        assert(a[i] == x);
    }
    assert(a.to_set() =~= b.to_set());
}

/// Entry matching does not depend on order or repetition: it compares the
/// two sets of signatures, so it is symmetric in what it compares.
pub proof fn law_entries_match_is_set_equality(a: Seq<LorebookEntry>, b: Seq<CardEntry>, c: Seq<CardEntry>)
    requires
        card_signatures(b).to_set() == card_signatures(c).to_set(),
    ensures
        (stored_signatures(a).to_set() == card_signatures(b).to_set()) == (stored_signatures(a).to_set()
            == card_signatures(c).to_set()),
{
}

/// Splitting at the last separator: when neither `y` nor `s` holds the
/// separator `c`, `x`, `c`, `y` and `r`, `c`, `s` are equal only if `x == r`
/// and `y == s`.
proof fn lemma_sep_split_last(x: Seq<char>, y: Seq<char>, r: Seq<char>, s: Seq<char>, c: char)
    requires
        !y.contains(c),
        !s.contains(c),
        x + seq![c] + y == r + seq![c] + s,
    ensures
        x == r,
        y == s,
{
    let big = x + seq![c] + y;
    let n = big.len();
    if y.len() < s.len() {
        assert(big[n - y.len() - 1] == c);
        assert(s[s.len() - y.len() - 1] == big[n - y.len() - 1]);
    } else if s.len() < y.len() {
        assert(big[n - s.len() - 1] == c);
        assert(y[y.len() - s.len() - 1] == big[n - s.len() - 1]);
    }
    assert(y =~= big.skip(n - y.len()));
    assert(s =~= big.skip(n - s.len()));
    assert(x =~= big.take(n - y.len() - 1));
    assert(r =~= big.take(n - s.len() - 1));
}

/// A number or a boolean as text holds no U+0001, and equal texts come
/// from equal values.
proof fn lemma_value_texts(i: i64, j: i64, p: bool, q: bool)
    ensures
        !int_decimal(i as int).contains('\u{1}'),
        !bool_text(p).contains('\u{1}'),
        int_decimal(i as int) == int_decimal(j as int) ==> i == j,
        bool_text(p) == bool_text(q) ==> p == q,
{
    lemma_int_decimal_injective(i as int, j as int);
    if bool_text(p) == bool_text(q) && p != q {
        assert(bool_text(p).len() != bool_text(q).len());
    }
}

/// Two signatures are equal exactly when all their fields are, as long as
/// no text field holds the separator U+0001: the signature loses nothing.
#[verifier::spinoff_prover]
pub proof fn law_signature_is_injective(
    name: Seq<char>, entry: Seq<char>, keywords: Seq<char>, priority: i64, weight: i64, enabled: bool,
    comment: Seq<char>, secondary_keys: Seq<char>, constant: bool, position: Seq<char>, probability: i64,
    use_probability: bool, selective: bool, selective_logic: i64, exclude_recursion: bool,
    name2: Seq<char>, entry2: Seq<char>, keywords2: Seq<char>, priority2: i64, weight2: i64, enabled2: bool,
    comment2: Seq<char>, secondary_keys2: Seq<char>, constant2: bool, position2: Seq<char>, probability2: i64,
    use_probability2: bool, selective2: bool, selective_logic2: i64, exclude_recursion2: bool,
)
    requires
        !name.contains('\u{1}'), !entry.contains('\u{1}'), !keywords.contains('\u{1}'),
        !comment.contains('\u{1}'), !secondary_keys.contains('\u{1}'), !position.contains('\u{1}'),
        !name2.contains('\u{1}'), !entry2.contains('\u{1}'), !keywords2.contains('\u{1}'),
        !comment2.contains('\u{1}'), !secondary_keys2.contains('\u{1}'), !position2.contains('\u{1}'),
    ensures
        (spec_signature(name, entry, keywords, priority, weight, enabled, comment, secondary_keys, constant,
            position, probability, use_probability, selective, selective_logic, exclude_recursion)
            == spec_signature(name2, entry2, keywords2, priority2, weight2, enabled2, comment2,
            secondary_keys2, constant2, position2, probability2, use_probability2, selective2,
            selective_logic2, exclude_recursion2)) <==> (name == name2 && entry == entry2 && keywords
            == keywords2 && priority == priority2 && weight == weight2 && enabled == enabled2 && comment
            == comment2 && secondary_keys == secondary_keys2 && constant == constant2 && position
            == position2 && probability == probability2 && use_probability == use_probability2
            && selective == selective2 && selective_logic == selective_logic2 && exclude_recursion
            == exclude_recursion2),
{
    let c = '\u{1}';
    let sep = sig_sep();
    assert(sep == seq![c]);
    let p1 = name + sep + entry;
    let p2 = p1 + sep + keywords;
    let p3 = p2 + sep + int_decimal(priority as int);
    let p4 = p3 + sep + int_decimal(weight as int);
    let p5 = p4 + sep + bool_text(enabled);
    let p6 = p5 + sep + comment;
    let p7 = p6 + sep + secondary_keys;
    let p8 = p7 + sep + bool_text(constant);
    let p9 = p8 + sep + position;
    let p10 = p9 + sep + int_decimal(probability as int);
    let p11 = p10 + sep + bool_text(use_probability);
    let p12 = p11 + sep + bool_text(selective);
    let p13 = p12 + sep + int_decimal(selective_logic as int);
    let p14 = p13 + sep + bool_text(exclude_recursion);
    let q1 = name2 + sep + entry2;
    let q2 = q1 + sep + keywords2;
    let q3 = q2 + sep + int_decimal(priority2 as int);
    let q4 = q3 + sep + int_decimal(weight2 as int);
    let q5 = q4 + sep + bool_text(enabled2);
    let q6 = q5 + sep + comment2;
    let q7 = q6 + sep + secondary_keys2;
    let q8 = q7 + sep + bool_text(constant2);
    let q9 = q8 + sep + position2;
    let q10 = q9 + sep + int_decimal(probability2 as int);
    let q11 = q10 + sep + bool_text(use_probability2);
    let q12 = q11 + sep + bool_text(selective2);
    let q13 = q12 + sep + int_decimal(selective_logic2 as int);
    let q14 = q13 + sep + bool_text(exclude_recursion2);
    assert(spec_signature(name, entry, keywords, priority, weight, enabled, comment, secondary_keys, constant,
        position, probability, use_probability, selective, selective_logic, exclude_recursion) == p14);
    assert(spec_signature(name2, entry2, keywords2, priority2, weight2, enabled2, comment2, secondary_keys2,
        constant2, position2, probability2, use_probability2, selective2, selective_logic2, exclude_recursion2)
        == q14);
    if p14 == q14 {
        lemma_value_texts(priority, priority2, enabled, enabled2);
        lemma_value_texts(weight, weight2, constant, constant2);
        lemma_value_texts(probability, probability2, use_probability, use_probability2);
        lemma_value_texts(selective_logic, selective_logic2, selective, selective2);
        lemma_value_texts(priority2, priority, exclude_recursion, exclude_recursion2);
        lemma_value_texts(weight2, weight, enabled2, enabled);
        lemma_value_texts(probability2, probability, constant2, constant);
        lemma_value_texts(selective_logic2, selective_logic, use_probability2, use_probability);
        lemma_value_texts(priority, priority, selective2, selective);
        lemma_sep_split_last(p13, bool_text(exclude_recursion), q13, bool_text(exclude_recursion2), c);
        lemma_sep_split_last(p12, int_decimal(selective_logic as int), q12, int_decimal(selective_logic2 as int), c);
        lemma_sep_split_last(p11, bool_text(selective), q11, bool_text(selective2), c);
        lemma_sep_split_last(p10, bool_text(use_probability), q10, bool_text(use_probability2), c);
        lemma_sep_split_last(p9, int_decimal(probability as int), q9, int_decimal(probability2 as int), c);
        lemma_sep_split_last(p8, position, q8, position2, c);
        lemma_sep_split_last(p7, bool_text(constant), q7, bool_text(constant2), c);
        lemma_sep_split_last(p6, secondary_keys, q6, secondary_keys2, c);
        lemma_sep_split_last(p5, comment, q5, comment2, c);
        lemma_sep_split_last(p4, bool_text(enabled), q4, bool_text(enabled2), c);
        lemma_sep_split_last(p3, int_decimal(weight as int), q3, int_decimal(weight2 as int), c);
        lemma_sep_split_last(p2, int_decimal(priority as int), q2, int_decimal(priority2 as int), c);
        lemma_sep_split_last(p1, keywords, q1, keywords2, c);
        lemma_sep_split_last(name, entry, name2, entry2, c);
    }
}

/// Two stored entries have the same signature exactly when they agree on
/// every field but their ids, as long as no text field holds U+0001.
pub proof fn law_stored_signature_is_injective(e1: LorebookEntry, e2: LorebookEntry)
    requires
        !e1.name@.contains('\u{1}'), !e1.entry@.contains('\u{1}'), !e1.keywords@.contains('\u{1}'),
        !e1.comment@.contains('\u{1}'), !e1.secondary_keys@.contains('\u{1}'), !e1.position@.contains('\u{1}'),
        !e2.name@.contains('\u{1}'), !e2.entry@.contains('\u{1}'), !e2.keywords@.contains('\u{1}'),
        !e2.comment@.contains('\u{1}'), !e2.secondary_keys@.contains('\u{1}'), !e2.position@.contains('\u{1}'),
    ensures
        (spec_stored_signature(e1) == spec_stored_signature(e2)) <==> (e1.name@ == e2.name@ && e1.entry@
            == e2.entry@ && e1.keywords@ == e2.keywords@ && e1.priority == e2.priority && e1.weight
            == e2.weight && e1.enabled == e2.enabled && e1.comment@ == e2.comment@ && e1.secondary_keys@
            == e2.secondary_keys@ && e1.constant == e2.constant && e1.position@ == e2.position@
            && e1.probability == e2.probability && e1.use_probability == e2.use_probability && e1.selective
            == e2.selective && e1.selective_logic == e2.selective_logic && e1.exclude_recursion
            == e2.exclude_recursion),
{
    law_signature_is_injective(
        e1.name@, e1.entry@, e1.keywords@, e1.priority, e1.weight, e1.enabled, e1.comment@,
        e1.secondary_keys@, e1.constant, e1.position@, e1.probability, e1.use_probability, e1.selective,
        e1.selective_logic, e1.exclude_recursion,
        e2.name@, e2.entry@, e2.keywords@, e2.priority, e2.weight, e2.enabled, e2.comment@,
        e2.secondary_keys@, e2.constant, e2.position@, e2.probability, e2.use_probability, e2.selective,
        e2.selective_logic, e2.exclude_recursion,
    );
}

} // verus!
