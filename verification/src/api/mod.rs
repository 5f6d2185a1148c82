//! The endpoints of the HTTP API, without their transport.
//!
//! A handler that alternates between work outside and decisions is a machine: it
//! names the next action, takes in what came of it, and goes on until it has an
//! answer or an error.

use vstd::prelude::*;
use vstd::string::*;

use crate::error::{AppError, ErrorView};
use crate::model::engine::Generated;
use crate::text;
use crate::text::is_blank;
use crate::types::Usage;

pub mod agent;
pub mod chat;
pub mod health;
pub mod memories;
pub mod messages;
pub mod models;
pub mod sessions;
pub mod turn;

verus! {

/// What is wrong with a message to the model, if anything: it has to say something
/// and to leave room for a reply.
pub open spec fn message_fault(content: Seq<char>, max_tokens: u32) -> Option<ErrorView> {
    if text::trimmed(content).len() == 0 {
        Some(ErrorView::BadRequest("content is required"@))
    } else {
        limit_fault(max_tokens)
    }
}

/// What is wrong with a token limit, if anything.
pub open spec fn limit_fault(max_tokens: u32) -> Option<ErrorView> {
    if max_tokens == 0 {
        Some(ErrorView::BadRequest("max_tokens must be > 0"@))
    } else {
        None
    }
}

/// Refuses a token limit of nothing.
pub fn check_limit(max_tokens: u32) -> (r: Result<(), AppError>)
    ensures
        match r {
            Ok(_) => limit_fault(max_tokens) is None,
            Err(e) => limit_fault(max_tokens) == Some(e@),
        },
{
    if max_tokens == 0 {
        return Err(AppError::BadRequest("max_tokens must be > 0".to_owned()));
    }
    Ok(())
}

/// Refuses a message that says nothing or leaves no room for a reply.
pub fn check_message(content: &str, max_tokens: u32) -> (r: Result<(), AppError>)
    ensures
        match r {
            Ok(_) => message_fault(content@, max_tokens) is None,
            Err(e) => message_fault(content@, max_tokens) == Some(e@),
        },
{
    if is_blank(content) {
        return Err(AppError::BadRequest("content is required".to_owned()));
    }
    check_limit(max_tokens)
}

/// The tokens of a generation.
pub open spec fn usage_of(g: Generated) -> Usage {
    Usage {
        prompt_tokens: g.prompt_tokens,
        completion_tokens: g.completion_tokens,
        total_tokens: (g.prompt_tokens + g.completion_tokens) as u32,
    }
}

/// The tokens of a generation, and their sum.
pub fn usage(g: &Generated) -> (u: Usage)
    requires
        g.prompt_tokens + g.completion_tokens <= u32::MAX,
    ensures
        u == usage_of(*g),
        u.total_tokens == u.prompt_tokens + u.completion_tokens,
{
    Usage {
        prompt_tokens: g.prompt_tokens,
        completion_tokens: g.completion_tokens,
        total_tokens: g.prompt_tokens + g.completion_tokens,
    }
}

/// A message is taken exactly where it has a character that is no white space and the limit
/// is more than nothing. What it says is looked at first.
pub proof fn law_messages_that_are_taken(content: Seq<char>, max_tokens: u32)
    ensures
        ({
            let says = exists|i: int|
                0 <= i < content.len() && !text::is_white(#[trigger] content[i]);
            &&& message_fault(content, max_tokens) is None <==> says && max_tokens > 0
            &&& !says ==> message_fault(content, max_tokens) == Some(
                ErrorView::BadRequest("content is required"@),
            )
            &&& says && max_tokens == 0 ==> message_fault(content, max_tokens) == Some(
                ErrorView::BadRequest("max_tokens must be > 0"@),
            )
            &&& limit_fault(max_tokens) is None <==> max_tokens > 0
            &&& max_tokens == 0 ==> limit_fault(max_tokens) == Some(
                ErrorView::BadRequest("max_tokens must be > 0"@),
            )
        }),
{
    text::law_trimmed_to_nothing(content);
}

/// The tokens of a generation are counted as they were reported, and summed up.
pub proof fn law_usage_is_reported(g: Generated)
    requires
        g.prompt_tokens + g.completion_tokens <= u32::MAX,
    ensures
        usage_of(g).prompt_tokens == g.prompt_tokens,
        usage_of(g).completion_tokens == g.completion_tokens,
        usage_of(g).total_tokens == g.prompt_tokens + g.completion_tokens,
{
}

} // verus!
