//! The echo endpoint.

use crate::headers::{Fields, Headers};
use crate::request::{Request, RequestView};
use crate::response::{response, Response, ResponseView};
use crate::headers::lookup;
use crate::response::lemma_normalized;
use crate::text::{decimal, find_last_char, last_segment, lemma_last_segment, to_chars};
use vstd::prelude::*;
use vstd::string::*;
use vstd::utf8::*;

verus! {

/// The answer of the echo endpoint: status 200 with the part of the request
/// target behind its last `/` as body.
pub open spec fn echo(request: RequestView) -> ResponseView {
    response(200, Fields::empty(), encode_utf8(last_segment(request.path, '/')))
}

/// A request target that ends in `/` is answered with status 200 and an
/// empty body of length `0`.
pub proof fn lemma_echo_of_trailing_slash(request: RequestView)
    requires
        request.path.len() > 0,
        request.path.last() == '/',
    ensures
        echo(request).code == 200,
        echo(request).content.len() == 0,
        lookup(echo(request).headers, "Content-Length"@) == Some(decimal(0)),
{
    lemma_last_segment(request.path, '/');
    assert(encode_utf8(last_segment(request.path, '/')) =~= Seq::<u8>::empty());
    lemma_normalized(Fields::empty(), 0);
}

/// Answers with what follows the last `/` of the request target, which is
/// nothing when the target ends in `/`.
pub fn handle_echo(request: &Request) -> (res: Response)
    ensures
        res@ == echo(request@),
{
    let chars = to_chars(request.path.as_str());
    let start = find_last_char(&chars, '/');
    let segment = request.path.as_str().substring_char(start, chars.len());
    Response::new(200, Headers::new(), segment.as_bytes_vec())
}

} // verus!
