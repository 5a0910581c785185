//! The records the server exchanges with the chat client, as plain data,
//! with the mathematical views the contracts of the other modules use.

use vstd::prelude::*;

verus! {

/// The view of an optional `String`.
pub open spec fn opt_view(o: Option<String>) -> Option<Seq<char>> {
    match o {
        Some(s) => Some(s@),
        None => None,
    }
}

/// The views of a list of strings.
pub open spec fn strs_view(v: Seq<String>) -> Seq<Seq<char>> {
    Seq::new(v.len(), |i: int| v[i]@)
}

/// A copy of an optional string.
pub fn copy_opt(o: &Option<String>) -> (r: Option<String>)
    ensures
        r == *o,
{
    match o {
        Some(s) => Some(s.clone()),
        None => None,
    }
}

/// A copy of a list of strings.
pub fn copy_strs(v: &Vec<String>) -> (r: Vec<String>)
    ensures
        r@ == v@,
{
    let mut out: Vec<String> = Vec::new();
    let mut i: usize = 0;
    while i < v.len()
        invariant
            i <= v@.len(),
            out@ == v@.take(i as int),
        decreases v@.len() - i,
    {
        out.push(v[i].clone());
        proof {
            assert(v@.take(i + 1) =~= v@.take(i as int).push(v@[i as int]));
        }
        i = i + 1;
    }
    proof {
        assert(v@.take(v@.len() as int) =~= v@);
    }
    out
}

// ---------------------------------------------------------------------------
// characters
// ---------------------------------------------------------------------------

/// An alternate greeting of a character.
#[derive(Clone, Debug)]
pub struct AlternateGreeting {
    pub id: String,
    pub character_id: String,
    pub greeting: String,
    pub created_at: i64,
}

/// A tag that can be put on characters.
#[derive(Clone, Debug)]
pub struct Tag {
    pub id: String,
    pub name: String,
    pub color: String,
}

/// A folder of characters.
#[derive(Clone, Debug)]
pub struct Folder {
    pub id: String,
    pub name: String,
    pub parent_id: Option<String>,
}

/// What the chat view needs of a character: its id, name, avatar and
/// first message.
#[derive(Clone, Debug)]
pub struct ChatCharacter {
    pub id: String,
    pub name: String,
    pub avatar_url: Option<String>,
    pub first_message: String,
}

// ---------------------------------------------------------------------------
// chats and messages
// ---------------------------------------------------------------------------

/// A chat, with a character (one-to-one) or a group.
#[derive(Clone, Debug, Default)]
pub struct Chat {
    pub id: String,
    pub character_id: Option<String>,
    pub group_id: Option<String>,
    pub title: String,
}

/// One message of a chat's message tree.
#[derive(Clone, Debug)]
pub struct MessageNode {
    pub id: String,
    pub parent_id: Option<String>,
    pub role: String,
    pub content: String,
    pub visible: bool,
    pub deleted: bool,
    pub created_at: i64,
    pub children: Vec<String>,
    pub raw_prompt: Option<String>,
    pub prompt_tokens: Option<i64>,
    pub context_limit: Option<i64>,
    pub character_id: Option<String>,
}

/// The mathematical form of a message.
pub struct MessageNodeV {
    pub id: Seq<char>,
    pub parent_id: Option<Seq<char>>,
    pub role: Seq<char>,
    pub content: Seq<char>,
    pub visible: bool,
    pub deleted: bool,
    pub created_at: i64,
    pub children: Seq<Seq<char>>,
    pub raw_prompt: Option<Seq<char>>,
    pub prompt_tokens: Option<i64>,
    pub context_limit: Option<i64>,
    pub character_id: Option<Seq<char>>,
}

impl View for MessageNode {
    type V = MessageNodeV;

    open spec fn view(&self) -> MessageNodeV {
        MessageNodeV {
            id: self.id@,
            parent_id: opt_view(self.parent_id),
            role: self.role@,
            content: self.content@,
            visible: self.visible,
            deleted: self.deleted,
            created_at: self.created_at,
            children: strs_view(self.children@),
            raw_prompt: opt_view(self.raw_prompt),
            prompt_tokens: self.prompt_tokens,
            context_limit: self.context_limit,
            character_id: opt_view(self.character_id),
        }
    }
}

/// The views of a list of messages.
pub open spec fn nodes_view(v: Seq<MessageNode>) -> Seq<MessageNodeV> {
    Seq::new(v.len(), |i: int| v[i]@)
}

impl MessageNode {
    /// A field-by-field copy.
    pub fn copy(&self) -> (r: MessageNode)
        ensures
            r@ == self@,
    {
        MessageNode {
            id: self.id.clone(),
            parent_id: copy_opt(&self.parent_id),
            role: self.role.clone(),
            content: self.content.clone(),
            visible: self.visible,
            deleted: self.deleted,
            created_at: self.created_at,
            children: copy_strs(&self.children),
            raw_prompt: copy_opt(&self.raw_prompt),
            prompt_tokens: self.prompt_tokens,
            context_limit: self.context_limit,
            character_id: copy_opt(&self.character_id),
        }
    }
}

/// A chat's messages with the character or group it is with. The messages
/// are the tree's nodes, each id occurring once; `root_id` names the first.
#[derive(Clone, Debug, Default)]
pub struct MessageTree {
    pub root_id: Option<String>,
    pub messages: Vec<MessageNode>,
    pub character: Option<ChatCharacter>,
    pub group: Option<GroupWithMembers>,
}

/// One message of a prompt as it was sent to the model.
#[derive(Clone, Debug)]
pub struct PromptMessage {
    pub role: String,
    pub content: String,
}

// ---------------------------------------------------------------------------
// groups
// ---------------------------------------------------------------------------

/// A group of characters that share a chat.
#[derive(Clone, Debug)]
pub struct Group {
    pub id: String,
    pub name: String,
    pub avatar_url: Option<String>,
    pub activation_strategy: String,
}

/// A member of a group, in reply order.
#[derive(Clone, Debug)]
pub struct GroupMember {
    pub character_id: String,
    pub position: i64,
    pub disabled: bool,
}

/// A group with its members, in order.
#[derive(Clone, Debug)]
pub struct GroupWithMembers {
    pub group: Group,
    pub members: Vec<GroupMember>,
}

// ---------------------------------------------------------------------------
// lorebooks
// ---------------------------------------------------------------------------

/// A lorebook ("grimoire") of world-info entries.
#[derive(Clone, Debug)]
pub struct Lorebook {
    pub id: String,
    pub name: String,
    pub description: String,
    pub scan_depth: i64,
    pub token_budget: i64,
    pub recursive_scanning: bool,
    pub extensions: String,
    pub created_at: i64,
    pub updated_at: i64,
}

/// One entry of a lorebook.
#[derive(Clone, Debug)]
pub struct LorebookEntry {
    pub id: String,
    pub lorebook_id: String,
    pub name: String,
    pub entry: String,
    pub keywords: String,
    pub priority: i64,
    pub weight: i64,
    pub enabled: bool,
    pub comment: String,
    pub secondary_keys: String,
    pub constant: bool,
    pub position: String,
    pub probability: i64,
    pub use_probability: bool,
    pub selective: bool,
    pub selective_logic: i64,
    pub exclude_recursion: bool,
}

/// The fields of a lorebook to create; absent ones take the server's defaults.
#[derive(Clone, Debug)]
pub struct CreateLorebookInput {
    pub name: String,
    pub description: Option<String>,
    pub scan_depth: Option<i64>,
    pub token_budget: Option<i64>,
    pub recursive_scanning: Option<bool>,
    pub extensions: Option<String>,
}

/// The fields of a lorebook entry to create; absent ones take the server's defaults.
#[derive(Clone, Debug)]
pub struct CreateLorebookEntryInput {
    pub lorebook_id: String,
    pub name: String,
    pub entry: String,
    pub keywords: Option<String>,
    pub priority: Option<i64>,
    pub weight: Option<i64>,
    pub enabled: Option<bool>,
    pub comment: Option<String>,
    pub secondary_keys: Option<String>,
    pub constant: Option<bool>,
    pub position: Option<String>,
    pub probability: Option<i64>,
    pub use_probability: Option<bool>,
    pub selective: Option<bool>,
    pub selective_logic: Option<i64>,
    pub exclude_recursion: Option<bool>,
}

/// The lorebooks to attach to a character or chat.
#[derive(Clone, Debug)]
pub struct SetLorebooksRequest {
    pub lorebook_ids: Vec<String>,
}

// ---------------------------------------------------------------------------
// personas
// ---------------------------------------------------------------------------

/// A persona the user can speak as.
#[derive(Clone, Debug)]
pub struct Persona {
    pub id: String,
    pub name: String,
    pub description: String,
    pub avatar_url: Option<String>,
}

/// The fields of a persona to create or update.
#[derive(Clone, Debug)]
pub struct PersonaInput<'a> {
    pub name: &'a str,
    pub description: Option<&'a str>,
}

// ---------------------------------------------------------------------------
// presets
// ---------------------------------------------------------------------------

/// One prompt of a preset.
#[derive(Clone, Debug)]
pub struct PresetPrompt {
    pub identifier: String,
    pub name: String,
    pub content: String,
    pub role: String,
    pub marker: bool,
    pub injection_position: i32,
    pub injection_depth: i32,
}

/// One place in a preset's prompt order.
#[derive(Clone, Debug)]
pub struct PresetOrderEntry {
    pub identifier: String,
    pub enabled: bool,
}

/// A prompt preset.
#[derive(Clone, Debug)]
pub struct Preset {
    pub id: String,
    pub name: String,
    pub prompts: Vec<PresetPrompt>,
    pub prompt_order: Vec<PresetOrderEntry>,
}

/// A regex replacement script.
#[derive(Clone, Debug)]
pub struct RegexScript {
    pub id: String,
    pub script_name: String,
    pub find_regex: String,
    pub replace_string: String,
    pub placement: Vec<i32>,
    pub disabled: bool,
    pub markdown_only: bool,
    pub prompt_only: bool,
    pub min_depth: Option<i32>,
    pub max_depth: Option<i32>,
}

// ---------------------------------------------------------------------------
// account
// ---------------------------------------------------------------------------

/// A model the configured provider offers.
#[derive(Clone, Debug)]
pub struct ModelListItem {
    pub id: String,
}

/// The logged-in user.
#[derive(Clone, Debug)]
pub struct MeResponse {
    pub username: String,
    pub display_name: Option<String>,
    pub avatar_url: Option<String>,
    pub active_persona_id: Option<String>,
    pub persona_name: Option<String>,
    pub persona_avatar_url: Option<String>,
}

/// A change to the user's profile.
#[derive(Clone, Debug)]
pub struct UpdateMeRequest {
    pub display_name: Option<String>,
}

} // verus!
