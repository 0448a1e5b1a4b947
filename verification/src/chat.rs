//! Chat sessions and messages: the rows and the checks a new session, a scope
//! change and a new message pass before they are stored.

use vstd::prelude::*;

use crate::text::{from_chars, is_lit, push_all, push_lit, to_chars};

verus! {

/// One chat session (`scope_mode` is `all` or `entries`).
#[derive(Debug)]
pub struct ChatSession {
    pub id: i64,
    pub title: String,
    pub provider: String,
    pub model: String,
    pub system_prompt: Option<String>,
    pub scope_mode: String,
    pub entry_count: i64,
    pub created_at: String,
    pub updated_at: String,
    pub archived_at: Option<String>,
}

/// One message of a session (`role` is `user`, `assistant` or `tool`; tool calls
/// are kept as raw JSON text).
#[derive(Debug)]
pub struct ChatMessage {
    pub id: i64,
    pub session_id: i64,
    pub role: String,
    pub content: String,
    pub tool_calls: Option<String>,
    pub tool_call_id: Option<String>,
    pub created_at: String,
    pub position: i64,
}

/// A session with its messages and the entries it is scoped to.
#[derive(Debug)]
pub struct SessionWithMessages {
    pub session: ChatSession,
    pub messages: Vec<ChatMessage>,
    pub entry_ids: Vec<i64>,
}

/// A session to create.
#[derive(Debug)]
pub struct NewChatSession {
    pub title: String,
    pub provider: String,
    pub model: String,
    pub system_prompt: Option<String>,
    pub scope_mode: String,
    pub entry_ids: Vec<i64>,
}

/// A message to append.
#[derive(Debug)]
pub struct NewChatMessage {
    pub session_id: i64,
    pub role: String,
    pub content: String,
    pub tool_calls: Option<String>,
    pub tool_call_id: Option<String>,
}

/// A scope mode a session may have.
pub open spec fn is_scope_mode(m: Seq<char>) -> bool {
    m == "all"@ || m == "entries"@
}

/// A role a message may have.
pub open spec fn is_role(r: Seq<char>) -> bool {
    r == "user"@ || r == "assistant"@ || r == "tool"@
}

/// Whether `mode` is a scope mode (`all` or `entries`).
pub fn valid_scope_mode(mode: &str) -> (r: bool)
    ensures
        r == is_scope_mode(mode@),
{
    let c = to_chars(mode);
    is_lit(&c, "all") || is_lit(&c, "entries")
}

/// Whether `role` is a message role (`user`, `assistant` or `tool`).
pub fn valid_role(role: &str) -> (r: bool)
    ensures
        r == is_role(role@),
{
    let c = to_chars(role);
    is_lit(&c, "user") || is_lit(&c, "assistant") || is_lit(&c, "tool")
}

/// `prefix` followed by `value`.
fn message_with(prefix: &str, value: &str) -> (r: String)
    ensures
        r@ == prefix@ + value@,
{
    let mut v: Vec<char> = Vec::new();
    push_lit(&mut v, prefix);
    push_all(&mut v, &to_chars(value));
    from_chars(&v)
}

/// The check on a scope mode: accepted, or the error `invalid scope_mode: <mode>`.
pub fn check_scope_mode(mode: &str) -> (r: Result<(), String>)
    ensures
        match r {
            Ok(()) => is_scope_mode(mode@),
            Err(e) => !is_scope_mode(mode@) && e@ == "invalid scope_mode: "@ + mode@,
        },
{
    if valid_scope_mode(mode) {
        Ok(())
    } else {
        Err(message_with("invalid scope_mode: ", mode))
    }
}

/// The check on a new session: its scope mode.
pub fn check_new_session(input: &NewChatSession) -> (r: Result<(), String>)
    ensures
        match r {
            Ok(()) => is_scope_mode(input.scope_mode@),
            Err(e) => !is_scope_mode(input.scope_mode@) && e@ == "invalid scope_mode: "@
                + input.scope_mode@,
        },
{
    check_scope_mode(input.scope_mode.as_str())
}

/// The check on a new message: its role, or the error `invalid role: <role>`.
pub fn check_new_message(input: &NewChatMessage) -> (r: Result<(), String>)
    ensures
        match r {
            Ok(()) => is_role(input.role@),
            Err(e) => !is_role(input.role@) && e@ == "invalid role: "@ + input.role@,
        },
{
    if valid_role(input.role.as_str()) {
        Ok(())
    } else {
        Err(message_with("invalid role: ", input.role.as_str()))
    }
}

// ── highlights ────────────────────────────────────────────────────────────

/// A change to a highlight: a new colour, a new note.
#[derive(Debug)]
pub struct HighlightUpdate {
    pub color: Option<String>,
    pub note: Option<String>,
}

/// A highlight colour.
pub open spec fn is_color(c: Seq<char>) -> bool {
    c == "yellow"@ || c == "green"@ || c == "blue"@
}

/// Whether `color` is a highlight colour (`yellow`, `green` or `blue`).
pub fn valid_color(color: &str) -> (r: bool)
    ensures
        r == is_color(color@),
{
    let c = to_chars(color);
    is_lit(&c, "yellow") || is_lit(&c, "green") || is_lit(&c, "blue")
}

/// The check on a highlight's colour: accepted, or `invalid color: <color>`.
pub fn check_color(color: &str) -> (r: Result<(), String>)
    ensures
        match r {
            Ok(()) => is_color(color@),
            Err(e) => !is_color(color@) && e@ == "invalid color: "@ + color@,
        },
{
    if valid_color(color) {
        Ok(())
    } else {
        Err(message_with("invalid color: ", color))
    }
}

/// The check on a highlight change: a new colour, when given, must be a colour.
pub fn check_highlight_update(patch: &HighlightUpdate) -> (r: Result<(), String>)
    ensures
        match patch.color {
            None => r is Ok,
            Some(c) => match r {
                Ok(()) => is_color(c@),
                Err(e) => !is_color(c@) && e@ == "invalid color: "@ + c@,
            },
        },
{
    match &patch.color {
        Some(c) => check_color(c.as_str()),
        None => Ok(()),
    }
}

} // verus!
