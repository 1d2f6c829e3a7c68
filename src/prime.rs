//! The reply of the prime-checking service to a request it cannot read.
use vstd::prelude::*;

verus! {

/// The reply sent for a malformed request: `{"method":"Malformed"}` once
/// serialised.
#[derive(Debug)]
pub struct MalformedResponse {
    pub method: String,
}

impl MalformedResponse {
    /// The malformed-request reply.
    pub fn new() -> (r: MalformedResponse)
        ensures
            r.method@ == "Malformed"@,
    {
        MalformedResponse { method: "Malformed".to_owned() }
    }
}

} // verus!
