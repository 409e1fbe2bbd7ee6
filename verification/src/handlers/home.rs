//! The root endpoint.

use crate::headers::{Fields, Headers};
use crate::request::{Request, RequestView};
use crate::response::{response, Response, ResponseView};
use vstd::prelude::*;

verus! {

/// The answer of the root endpoint: status 200 and no body.
pub open spec fn home(request: RequestView) -> ResponseView {
    response(200, Fields::empty(), Seq::empty())
}

/// Answers a request for `/` with status 200 and no body.
pub fn handle_home(request: &Request) -> (res: Response)
    ensures
        res@ == home(request@),
{
    Response::new(200, Headers::new(), Vec::new())
}

} // verus!
