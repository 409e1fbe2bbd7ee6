//! The endpoint that reflects the `User-Agent` header.

use crate::headers::{lookup, Fields, Headers};
use crate::request::{Request, RequestView};
use crate::response::{response, Response, ResponseView};
use vstd::prelude::*;
use vstd::string::*;
use vstd::utf8::*;

verus! {

/// The answer of the user-agent endpoint: status 200 with the value of
/// `User-Agent` as body, or status 400 and no body without that header.
pub open spec fn user_agent(request: RequestView) -> ResponseView {
    match lookup(request.headers, "User-Agent"@) {
        Some(agent) => response(200, Fields::empty(), encode_utf8(agent)),
        None => response(400, Fields::empty(), Seq::empty()),
    }
}

/// Answers with the value of the request's `User-Agent` header, and with
/// status 400 when the request carries none.
pub fn handle_user_agent(request: &Request) -> (res: Response)
    ensures
        res@ == user_agent(request@),
{
    match request.headers.get("User-Agent") {
        Some(agent) => Response::new(200, Headers::new(), agent.as_str().as_bytes_vec()),
        None => Response::new(400, Headers::new(), Vec::new()),
    }
}

} // verus!
