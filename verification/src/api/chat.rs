//! Sticky-session chat: the caller names no session. The session that was touched
//! last is used, or a new one where there is none.

use vstd::prelude::*;

use crate::api::turn::{Reply, Route, TurnRequest};
use crate::types::{ChatRequest, ChatResponse};

verus! {

/// A chat message, as a turn.
pub fn chat(req: ChatRequest) -> (t: TurnRequest)
    ensures
        t.route == Route::Chat,
        t.content == req.content,
        t.results@.len() == 0,
        t.max_tokens == req.max_tokens,
        t.system_prompt == req.system_prompt,
        t.workspace_hint is None,
{
    TurnRequest {
        route: Route::Chat,
        session_id: 0,
        content: req.content,
        results: Vec::new(),
        max_tokens: req.max_tokens,
        system_prompt: req.system_prompt,
        workspace_hint: None,
    }
}

/// The answer to a chat message, with the session that it went to. A reply that asks
/// for tools is none.
pub fn respond(reply: Reply) -> (r: Option<ChatResponse>)
    ensures
        match reply {
            Reply::Message { session_id, message, usage } => r == Some(
                (ChatResponse { session_id, message, usage }),
            ),
            _ => r is None,
        },
{
    match reply {
        Reply::Message { session_id, message, usage } => Some(
            ChatResponse { session_id, message, usage },
        ),
        _ => None,
    }
}

} // verus!
