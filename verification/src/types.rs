//! Request and response types of the HTTP API, and the rows behind them.
//!
//! A UUID is held as its 128 bits and a point in time as seconds and nanoseconds.
//! The sampling temperature of a request goes to the engine untouched and is not
//! held here.

use vstd::prelude::*;
use vstd::string::*;

use crate::tools::{ParsedToolCall, ToolResult};

verus! {

/// Who a message comes from.
#[derive(Debug, Clone, Copy, PartialEq, Eq, Structural)]
pub enum Role {
    System,
    User,
    Assistant,
    Tool,
}

/// The name of a role.
pub open spec fn role_text(role: Role) -> Seq<char> {
    match role {
        Role::System => "system"@,
        Role::User => "user"@,
        Role::Assistant => "assistant"@,
        Role::Tool => "tool"@,
    }
}

/// The role that has a name.
pub open spec fn role_named(text: Seq<char>) -> Option<Role> {
    if text == "system"@ {
        Some(Role::System)
    } else if text == "user"@ {
        Some(Role::User)
    } else if text == "assistant"@ {
        Some(Role::Assistant)
    } else if text == "tool"@ {
        Some(Role::Tool)
    } else {
        None
    }
}

impl Role {
    /// The name of the role.
    pub fn as_str(&self) -> (r: &'static str)
        ensures
            r@ == role_text(*self),
    {
        match self {
            Role::System => "system",
            Role::User => "user",
            Role::Assistant => "assistant",
            Role::Tool => "tool",
        }
    }

    /// The role that has the name `text`.
    pub fn from_name(text: &str) -> (r: Option<Role>)
        ensures
            r == role_named(text@),
    {
        if crate::text::same_text(text, "system") {
            Some(Role::System)
        } else if crate::text::same_text(text, "user") {
            Some(Role::User)
        } else if crate::text::same_text(text, "assistant") {
            Some(Role::Assistant)
        } else if crate::text::same_text(text, "tool") {
            Some(Role::Tool)
        } else {
            None
        }
    }
}

/// A role is found again under its name.
pub proof fn law_role_round_trip(role: Role)
    ensures
        role_named(role_text(role)) == Some(role),
{
    reveal_strlit("system");
    reveal_strlit("user");
    reveal_strlit("assistant");
    reveal_strlit("tool");
    assert("system"@[0] == 's');
    assert("user"@[0] == 'u');
    assert("assistant"@[0] == 'a');
    assert("tool"@[0] == 't');
}

/// The four roles go by these names, and no other text is the name of a role.
pub proof fn law_role_names(text: Seq<char>)
    ensures
        role_named(text) == Some(Role::System) <==> text == "system"@,
        role_named(text) == Some(Role::User) <==> text == "user"@,
        role_named(text) == Some(Role::Assistant) <==> text == "assistant"@,
        role_named(text) == Some(Role::Tool) <==> text == "tool"@,
        role_named(text) is None <==> text != "system"@ && text != "user"@ && text != "assistant"@
            && text != "tool"@,
{
    law_role_round_trip(Role::System);
    law_role_round_trip(Role::User);
    law_role_round_trip(Role::Assistant);
    law_role_round_trip(Role::Tool);
}

/// A point in time, as seconds and nanoseconds since the epoch.
#[derive(Debug, Clone, Copy, PartialEq, Eq, Structural)]
pub struct Timestamp {
    pub secs: i64,
    pub nanos: u32,
}

/// What `chrono::DateTime::to_rfc3339_opts` writes for a point in time, with as many
/// digits behind the second as it needs and a `Z` for UTC. There is none outside of the
/// calendar of `chrono`.
pub uninterp spec fn time_text(secs: i64, nanos: u32) -> Option<Seq<char>>;

/// The text of an optional string.
pub open spec fn optional_text(s: Option<String>) -> Option<Seq<char>> {
    match s {
        Some(t) => Some(t@),
        None => None,
    }
}

/// `chrono::DateTime::to_rfc3339_opts` of a point in time in UTC, which
/// `chrono::DateTime::from_timestamp` makes of its seconds and nanoseconds. Which text it
/// is, and where the calendar ends, is left to the name.
#[verifier::external_body]
pub(crate) fn show_time(at: Timestamp) -> (r: Option<String>)
    ensures
        optional_text(r) == time_text(at.secs, at.nanos),
{
    chrono::DateTime::from_timestamp(at.secs, at.nanos)
        .map(|t| t.to_rfc3339_opts(chrono::SecondsFormat::AutoSi, true))
}

#[derive(Debug, Clone)]
pub struct Session {
    pub id: u128,
    pub title: String,
    pub model_name: String,
    pub system_prompt: Option<String>,
    pub created_at: Timestamp,
    pub updated_at: Timestamp,
    pub metadata: serde_json::Value,
}

#[derive(Debug, Clone)]
pub struct Message {
    pub id: u128,
    pub session_id: u128,
    pub role: Role,
    pub content: String,
    pub token_count: i64,
    pub created_at: Timestamp,
    pub metadata: serde_json::Value,
}

#[derive(Debug, Clone)]
pub struct SessionWithMessages {
    pub session: Session,
    pub messages: Vec<Message>,
}

#[derive(Debug, Clone)]
pub struct CreateSessionRequest {
    pub title: String,
    pub system_prompt: Option<String>,
}

#[derive(Debug, Clone, Copy)]
pub struct ListSessionsQuery {
    pub limit: i64,
    pub offset: i64,
}

/// How many sessions a listing shows where the caller does not say.
pub fn default_limit() -> (n: i64)
    ensures
        n == 20,
{
    20
}

#[derive(Debug, Clone)]
pub struct CreateMessageRequest {
    pub content: String,
    pub max_tokens: u32,
}

/// How many tokens a reply may have where the caller does not say.
pub fn default_max_tokens() -> (n: u32)
    ensures
        n == 1024,
{
    1024
}

#[derive(Debug, Clone)]
pub struct MessageResponse {
    pub message: Message,
    pub usage: Usage,
}

#[derive(Debug, Clone, Copy, PartialEq, Eq, Structural)]
pub struct Usage {
    pub prompt_tokens: u32,
    pub completion_tokens: u32,
    pub total_tokens: u32,
}

#[derive(Debug, Clone)]
pub struct HealthResponse {
    pub status: &'static str,
    pub model: String,
    pub loaded: bool,
}

#[derive(Debug, Clone)]
pub struct ModelInfo {
    pub name: String,
    pub size_bytes: u64,
    pub loaded: bool,
}

#[derive(Debug, Clone)]
pub struct ListModelsResponse {
    pub models: Vec<ModelInfo>,
}

/// The model catalog: the curated presets and whatever else is on disk, as one
/// list.
#[derive(Debug, Clone)]
pub struct ModelCatalog {
    /// Filename of the loaded GGUF (the `filename` of the loaded entry).
    pub current: String,
    pub entries: Vec<ModelCatalogEntry>,
}

#[derive(Debug, Clone)]
pub struct ModelCatalogEntry {
    /// What the caller passes back to load the model: the preset name for a
    /// preset, the filename for a file that is only local.
    pub name: String,
    pub kind: ModelKind,
    pub repo: String,
    pub filename: String,
    pub context_length: u32,
    /// Size of the GGUF on disk, or `None` where it is not downloaded yet.
    pub size_bytes: Option<u64>,
    pub min_ram_gib: Option<u32>,
    pub description: Option<String>,
    pub present: bool,
    pub loaded: bool,
}

#[derive(Debug, Clone, Copy, PartialEq, Eq, Structural)]
pub enum ModelKind {
    Preset,
    Local,
}

#[derive(Debug, Clone)]
pub struct LoadModelRequest {
    pub name: String,
}

/// A change to a session: every field is optional, and the given ones are
/// updated.
#[derive(Debug, Clone)]
pub struct UpdateSessionRequest {
    pub title: Option<String>,
    pub system_prompt: Option<String>,
    /// The GGUF filename that the session prefers.
    pub model_name: Option<String>,
}

/// Starts a new agent turn.
#[derive(Debug, Clone)]
pub struct AgentSendRequest {
    pub content: String,
    pub max_tokens: u32,
    /// Root of the workspace that the client works in, for the model to know.
    pub workspace_hint: Option<String>,
}

/// Returns the tool results of the previous turn, so that the model can go on.
#[derive(Debug, Clone)]
pub struct AgentContinueRequest {
    /// Echoes the `assistant_id` of the previous response.
    pub assistant_id: Option<u128>,
    pub results: Vec<ToolResult>,
    pub max_tokens: u32,
    pub workspace_hint: Option<String>,
}

/// One of two outcomes of an agent turn.
#[derive(Debug, Clone)]
pub enum AgentResponse {
    /// The model produced a final message for the user; the turn is over.
    Message { message: Message, usage: Usage },
    /// The model wants to call tools: the caller runs them and sends the results
    /// back.
    ToolCalls {
        /// Id of the assistant message that was stored with the tool calls.
        assistant_id: u128,
        calls: Vec<ParsedToolCall>,
        /// What the model said before the tool calls.
        prose: String,
        usage: Usage,
    },
}

/// A long-term fact that survives across all sessions.
#[derive(Debug, Clone)]
pub struct Memory {
    pub id: u128,
    pub content: String,
    /// "manual" for one that the user added, "auto" for one that was extracted.
    pub source: String,
    pub created_at: Timestamp,
    pub updated_at: Timestamp,
}

#[derive(Debug, Clone)]
pub struct CreateMemoryRequest {
    pub content: String,
}

/// A message without a session: it goes to the session that was touched last, or
/// to a new one.
#[derive(Debug, Clone)]
pub struct ChatRequest {
    pub content: String,
    pub max_tokens: u32,
    /// Used where a session has to be created.
    pub system_prompt: Option<String>,
}

#[derive(Debug, Clone)]
pub struct ChatResponse {
    pub session_id: u128,
    pub message: Message,
    pub usage: Usage,
}

#[derive(Debug, Clone)]
pub struct DebugTurn {
    pub role: Role,
    pub content: String,
}

/// What would be sent to the model for the next generation on a session.
#[derive(Debug, Clone)]
pub struct DebugContext {
    pub session_id: u128,
    pub context_length: u32,
    pub turns: Vec<DebugTurn>,
    pub prompt_tokens_estimate: u32,
    pub memories_injected: usize,
}

} // verus!
