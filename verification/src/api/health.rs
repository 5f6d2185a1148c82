//! Liveness, and the model that is loaded.

use vstd::prelude::*;
use vstd::string::*;

use crate::types::HealthResponse;

verus! {

/// The service is up, with the model `model_name` loaded.
pub fn health(model_name: &str) -> (r: HealthResponse)
    ensures
        r.status@ == "ok"@,
        r.model@ == model_name@,
        r.loaded,
{
    HealthResponse { status: "ok", model: model_name.to_owned(), loaded: true }
}

} // verus!
