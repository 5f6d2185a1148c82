//! Memories: facts that the assistant remembers across every session.

use vstd::prelude::*;
use vstd::string::*;

use crate::error::{AppError, ErrorView};
use crate::text;
use crate::text::trim;
use crate::types::CreateMemoryRequest;

verus! {

/// Where a memory comes from that the user added.
pub const MANUAL: &'static str = "manual";

/// Where a memory comes from that was extracted from a message.
pub const AUTO: &'static str = "auto";

/// The fact to remember, trimmed. One that says nothing is refused.
pub fn create(req: &CreateMemoryRequest) -> (r: Result<String, AppError>)
    ensures
        match r {
            Ok(content) => content@ == text::trimmed(req.content@) && content@.len() > 0,
            Err(e) => text::trimmed(req.content@).len() == 0 && e@ == ErrorView::BadRequest(
                "content is required"@,
            ),
        },
{
    let content = trim(req.content.as_str());
    if content.as_str().is_empty() {
        return Err(AppError::BadRequest("content is required".to_owned()));
    }
    Ok(content)
}

/// A memory tells whether the user added it or it was extracted.
pub proof fn law_sources_are_told()
    ensures
        MANUAL@ == "manual"@,
        AUTO@ == "auto"@,
        MANUAL@ != AUTO@,
{
    reveal_strlit("manual");
    reveal_strlit("auto");
    assert("manual"@.len() != "auto"@.len());
}

} // verus!
