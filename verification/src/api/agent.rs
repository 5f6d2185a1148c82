//! Agentic chat: a multi-turn loop of tool calls on top of a session.
//!
//! Each call ends in a final reply, or in tool calls that the client runs and
//! answers. Tool calls and tool results are stored as messages, so that trimming
//! the history works as it does elsewhere.

use vstd::prelude::*;
use vstd::string::*;

use crate::api::turn::{Reply, Route, TurnRequest};
use crate::json;
use crate::json::{json_object, json_string, json_text_of, push_field, Json};
use crate::text::trim;
use crate::tools::markup;
use crate::tools::parser;
use crate::tools::ParsedToolCall;
use crate::types::{AgentContinueRequest, AgentResponse, AgentSendRequest};

verus! {

/// Where the model closes a tool call, it is dispatched at once.
pub const TOOL_CALL_STOP: &'static str = "</tool_call>";

/// Writes the turn of the assistant with its tool calls, each as canonical JSON,
/// so that the next prompt shows the model what it said.
pub fn build_assistant_with_calls(prose: &str, calls: &[ParsedToolCall]) -> (out: String)
    ensures
        out@ == markup::assistant_text(prose@, parser::call_views(calls@)),
        forall|k: int|
            0 <= k < calls@.len() && markup::tellable(parser::call_views(calls@)[k])
                ==> markup::written(#[trigger] parser::call_views(calls@)[k]),
{
    let mut s = String::new();
    if !prose.is_empty() {
        s.append(prose);
        s.append("\n");
        assert(s@ =~= prose@ + "\n"@);
    }
    let ghost lead = s@;
    let ghost all = parser::call_views(calls@);
    let mut i: usize = 0;
    assert(all.take(0) =~= Seq::empty());
    assert(lead + markup::call_blocks(all.take(0)) =~= lead);
    while i < calls.len()
        invariant
            i <= calls.len(),
            all == parser::call_views(calls@),
            s@ == lead + markup::call_blocks(all.take(i as int)),
            forall|k: int|
                0 <= k < i && markup::tellable(all[k]) ==> markup::written(#[trigger] all[k]),
        decreases calls.len() - i,
    {
        let ghost call = all[i as int];
        assert(all.take(i + 1).drop_last() =~= all.take(i as int));
        assert(all.take(i + 1).last() == call);
        let mut fields: Vec<(String, serde_json::Value)> = Vec::new();
        assert(json::pair_views(fields@) =~= Seq::empty());
        push_field(&mut fields, "name", json_string(calls[i].name.as_str()));
        push_field(&mut fields, "arguments", calls[i].arguments.clone());
        assert(json::pair_views(fields@) =~= seq![
            ("name"@, Json::Text(call.0)),
            ("arguments"@, call.1),
        ]);
        proof {
            reveal_strlit("name");
            reveal_strlit("arguments");
            assert("name"@.len() != "arguments"@.len());
        }
        let body = json_object(fields);
        let text = json_text_of(&body, "{}");
        proof {
            if markup::tellable(call) {
                markup::lemma_tellable(call);
            }
        }
        s.append("<tool_call>\n");
        s.append(text.as_str());
        s.append("\n</tool_call>\n");
        assert(s@ =~= lead + markup::call_blocks(all.take(i + 1)));
        i = i + 1;
    }
    assert(all.take(all.len() as int) =~= all);
    assert(lead =~= (if prose@.len() > 0 {
        prose@ + "\n"@
    } else {
        Seq::empty()
    }));
    trim(s.as_str())
}

/// A message to the agent, as a turn.
pub fn send(session_id: u128, req: AgentSendRequest) -> (t: TurnRequest)
    ensures
        t.route == Route::Agent,
        t.session_id == session_id,
        t.content == req.content,
        t.results@.len() == 0,
        t.max_tokens == req.max_tokens,
        t.system_prompt is None,
        t.workspace_hint == req.workspace_hint,
{
    TurnRequest {
        route: Route::Agent,
        session_id,
        content: req.content,
        results: Vec::new(),
        max_tokens: req.max_tokens,
        system_prompt: None,
        workspace_hint: req.workspace_hint,
    }
}

/// Tool results for the agent, as a turn.
pub fn continue_(session_id: u128, req: AgentContinueRequest) -> (t: TurnRequest)
    ensures
        t.route == Route::AgentContinue,
        t.session_id == session_id,
        t.content@.len() == 0,
        t.results == req.results,
        t.max_tokens == req.max_tokens,
        t.system_prompt is None,
        t.workspace_hint == req.workspace_hint,
{
    TurnRequest {
        route: Route::AgentContinue,
        session_id,
        content: String::new(),
        results: req.results,
        max_tokens: req.max_tokens,
        system_prompt: None,
        workspace_hint: req.workspace_hint,
    }
}

/// The answer of the agent.
pub fn respond(reply: Reply) -> (r: AgentResponse)
    ensures
        match reply {
            Reply::Message { session_id, message, usage } => r == (AgentResponse::Message {
                message,
                usage,
            }),
            Reply::ToolCalls { assistant_id, calls, prose, usage } => r
                == (AgentResponse::ToolCalls { assistant_id, calls, prose, usage }),
        },
{
    match reply {
        Reply::Message { session_id: _, message, usage } => AgentResponse::Message {
            message,
            usage,
        },
        Reply::ToolCalls { assistant_id, calls, prose, usage } => AgentResponse::ToolCalls {
            assistant_id,
            calls,
            prose,
            usage,
        },
    }
}

} // verus!
