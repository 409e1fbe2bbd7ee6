//! The gzip transcoder: compresses the body of a response for a client that
//! accepts it.

use crate::headers::{lemma_put, lookup, put};
use crate::request::{Request, RequestView};
use crate::response::{Response, ResponseView};
use crate::text::{contains, contains_text, decimal, format_decimal, to_chars};
use flate2::write::GzEncoder;
use flate2::Compression;
use std::io::Write;
use vstd::prelude::*;
use vstd::string::*;

verus! {

/// `std::io::Error`, the error of the gzip encoder. Nothing is said of what
/// it holds.
#[verifier::external_type_specification]
#[verifier::external_body]
pub struct ExIoError(std::io::Error);

/// The gzip stream that `flate2` makes of `data` at its default compression
/// level, or `None` where its encoder reports an error.
pub uninterp spec fn gzip_stream(data: Seq<u8>) -> Option<Seq<u8>>;

/// Compresses `data` with `flate2::write::GzEncoder` at the default level,
/// writing into a vector. The contract only names what the encoder returns.
/// That result depends on nothing but the data: the header that the encoder
/// writes carries no time stamp and no file name, and names no operating
/// system.
#[verifier::external_body]
fn gzip(data: &[u8]) -> (res: Result<Vec<u8>, std::io::Error>)
    ensures
        match res {
            Ok(stream) => gzip_stream(data@) == Some(stream@),
            Err(_) => gzip_stream(data@) is None,
        },
{
    let mut encoder = GzEncoder::new(Vec::new(), Compression::default());
    encoder.write_all(data)?;
    encoder.finish()
}

/// The body of a response could not be compressed.
#[derive(Debug, Clone, Copy, PartialEq, Eq, Structural)]
pub struct CompressionFailed;

/// True when the request carries an `Accept-Encoding` header whose value
/// holds `gzip`.
pub open spec fn accepts_gzip(request: RequestView) -> bool {
    match lookup(request.headers, "Accept-Encoding"@) {
        Some(value) => contains(value, "gzip"@),
        None => false,
    }
}

/// `response` marked as gzip-encoded.
pub open spec fn marked(response: ResponseView) -> ResponseView {
    ResponseView { headers: put(response.headers, "Content-Encoding"@, "gzip"@), ..response }
}

/// `response` with `stream` as its body, and with the `Content-Length` that
/// goes with it.
pub open spec fn carrying(response: ResponseView, stream: Seq<u8>) -> ResponseView {
    ResponseView {
        code: response.code,
        headers: put(response.headers, "Content-Length"@, decimal(stream.len())),
        content: stream,
    }
}

/// What becomes of `response` on its way to the client that sent `request`,
/// where `stream` is the compressed form of its body. For a client that does
/// not accept gzip the response stays as it is. For one that does, it is
/// marked as gzip-encoded, and a body that is not empty gives way to its
/// compressed form. `None` where that form is needed and cannot be had.
pub open spec fn encoded(request: RequestView, response: ResponseView, stream: Option<Seq<u8>>)
    -> Option<ResponseView> {
    if !accepts_gzip(request) {
        Some(response)
    } else if response.content.len() == 0 {
        Some(marked(response))
    } else {
        match stream {
            Some(stream) => Some(carrying(marked(response), stream)),
            None => None,
        }
    }
}

/// The header names that the transcoder sets are different names.
pub proof fn lemma_encoding_is_not_length()
    ensures
        "Content-Encoding"@ != "Content-Length"@,
{
    reveal_strlit("Content-Encoding");
    reveal_strlit("Content-Length");
    assert("Content-Encoding"@.len() != "Content-Length"@.len());
}

/// Whatever the transcoder hands on for a client that accepts gzip is marked
/// as gzip-encoded and tells the length of the body it carries. That body is
/// empty where the handler's body was, with `Content-Length` still `0`, and
/// is the compressed form of the handler's body everywhere else.
pub proof fn lemma_encoded(
    request: RequestView,
    response: ResponseView,
    stream: Option<Seq<u8>>,
)
    requires
        crate::headers::distinct_names(response.headers),
        response.declares_length(),
        accepts_gzip(request),
        encoded(request, response, stream) is Some,
    ensures
        ({
            let sent = encoded(request, response, stream)->0;
            &&& sent.code == response.code
            &&& crate::headers::distinct_names(sent.headers)
            &&& lookup(sent.headers, "Content-Encoding"@) == Some("gzip"@)
            &&& sent.declares_length()
            &&& if response.content.len() == 0 {
                sent.content.len() == 0 && lookup(sent.headers, "Content-Length"@) == Some(
                    decimal(0),
                )
            } else {
                stream == Some(sent.content)
            }
        }),
{
    lemma_encoding_is_not_length();
    lemma_put(response.headers, "Content-Encoding"@, "gzip"@);
    assert(lookup(marked(response).headers, "Content-Length"@) == lookup(
        response.headers,
        "Content-Length"@,
    ));
    if response.content.len() != 0 {
        let stream = stream->0;
        lemma_put(marked(response).headers, "Content-Length"@, decimal(stream.len()));
        assert(lookup(carrying(marked(response), stream).headers, "Content-Encoding"@) == lookup(
            marked(response).headers,
            "Content-Encoding"@,
        ));
    }
}

/// A response that tells the length of its body still does so after the
/// transcoder, whether or not the client accepts gzip.
pub proof fn lemma_encoded_declares_length(
    request: RequestView,
    response: ResponseView,
    stream: Option<Seq<u8>>,
)
    requires
        crate::headers::distinct_names(response.headers),
        response.declares_length(),
        encoded(request, response, stream) is Some,
    ensures
        encoded(request, response, stream)->0.declares_length(),
        crate::headers::distinct_names(encoded(request, response, stream)->0.headers),
{
    if accepts_gzip(request) {
        lemma_encoded(request, response, stream);
    }
}

/// Tells whether the client that sent `request` accepts gzip.
pub fn wants_gzip(request: &Request) -> (res: bool)
    ensures
        res == accepts_gzip(request@),
{
    match request.headers.get("Accept-Encoding") {
        Some(value) => contains_text(&to_chars(value.as_str()), &to_chars("gzip")),
        None => false,
    }
}

/// Marks `response` as gzip-encoded and, where `stream` is given, makes it
/// the body, with the `Content-Length` that goes with it.
pub fn with_gzip(response: Response, stream: Option<Vec<u8>>) -> (res: Response)
    ensures
        res@ == match stream {
            Some(stream) => carrying(marked(response@), stream@),
            None => marked(response@),
        },
{
    let mut response = response;
    response.headers.insert("Content-Encoding".to_owned(), "gzip".to_owned());
    match stream {
        Some(stream) => {
            response.headers.insert("Content-Length".to_owned(), format_decimal(stream.len()));
            response.content = stream;
        },
        None => {},
    }
    response
}

/// Prepares `response` for the client that sent `request`: as it is for a
/// client that does not accept gzip, otherwise marked as gzip-encoded, with
/// a body that is not empty replaced by its gzip stream.
pub fn encode(request: &Request, response: Response) -> (res: Result<Response, CompressionFailed>)
    ensures
        match res {
            Ok(sent) => encoded(request@, response@, gzip_stream(response@.content)) == Some(
                sent@,
            ),
            Err(_) => encoded(request@, response@, gzip_stream(response@.content)) is None,
        },
{
    if !wants_gzip(request) {
        Ok(response)
    } else if response.content.len() == 0 {
        Ok(with_gzip(response, None))
    } else {
        match gzip(response.content.as_slice()) {
            Ok(stream) => Ok(with_gzip(response, Some(stream))),
            Err(_) => Err(CompressionFailed),
        }
    }
}

} // verus!
