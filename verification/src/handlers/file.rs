//! The files endpoint. Reading and writing files is left to the caller: the
//! endpoint tells what it needs from the file system, and turns what the file
//! system did into a response.

use crate::args::{Args, ArgsView};
use crate::headers::{lookup, put, Fields, Headers};
use crate::request::{Request, RequestView};
use crate::response::{lemma_normalized, response, Response, ResponseView};
use crate::text::{decimal, same_text, starts_with, to_chars, without_prefix};
use vstd::prelude::*;
use vstd::slice::*;
use vstd::string::*;

verus! {

/// What the files endpoint needs from the file system for one request.
#[derive(Debug, Clone, PartialEq, Eq)]
pub enum FileAccess {
    /// The contents of the file at `path`.
    Read { path: String },
    /// The file at `path` created or cut to nothing, then filled with
    /// `contents`.
    Write { path: String, contents: Vec<u8> },
}

/// The mathematical model of a file access.
pub enum FileAccessView {
    Read { path: Seq<char> },
    Write { path: Seq<char>, contents: Seq<u8> },
}

impl View for FileAccess {
    type V = FileAccessView;

    open spec fn view(&self) -> FileAccessView {
        match self {
            FileAccess::Read { path } => FileAccessView::Read { path: path@ },
            FileAccess::Write { path, contents } => FileAccessView::Write {
                path: path@,
                contents: contents@,
            },
        }
    }
}

/// What the file system did.
#[derive(Debug, Clone, PartialEq, Eq)]
pub enum FileOutcome {
    /// The file was read, and held these bytes.
    Contents(Vec<u8>),
    /// The file could not be read.
    Unreadable,
    /// The file was written.
    Written,
    /// The file could not be written.
    WriteFailed,
}

/// The mathematical model of a file outcome.
pub enum FileOutcomeView {
    Contents(Seq<u8>),
    Unreadable,
    Written,
    WriteFailed,
}

impl View for FileOutcome {
    type V = FileOutcomeView;

    open spec fn view(&self) -> FileOutcomeView {
        match self {
            FileOutcome::Contents(bytes) => FileOutcomeView::Contents(bytes@),
            FileOutcome::Unreadable => FileOutcomeView::Unreadable,
            FileOutcome::Written => FileOutcomeView::Written,
            FileOutcome::WriteFailed => FileOutcomeView::WriteFailed,
        }
    }
}

/// The files endpoint could not store the body of a request.
#[derive(Debug, Clone, Copy, PartialEq, Eq, Structural)]
pub struct WriteFailed;

/// The path of the file that a request is about: the configured directory,
/// directly followed by the request target without its leading `/files`.
pub open spec fn file_path(request: RequestView, args: ArgsView) -> Seq<char> {
    args.prefix() + without_prefix(request.path, "/files"@)
}

/// What a request asks of the file system: `GET` reads the file, any other
/// method writes the request body to it.
pub open spec fn access(request: RequestView, args: ArgsView) -> FileAccessView {
    if request.method == "GET"@ {
        FileAccessView::Read { path: file_path(request, args) }
    } else {
        FileAccessView::Write { path: file_path(request, args), contents: request.body }
    }
}

/// The answer of the files endpoint once the file system has acted. A `GET`
/// gives status 200 with the file's bytes as `application/octet-stream`, or
/// status 404 without a body when there are none to give. Any other method
/// gives status 201 without a body once the file is written, and fails when
/// it is not.
pub open spec fn file(request: RequestView, outcome: FileOutcomeView) -> Result<
    ResponseView,
    WriteFailed,
> {
    if request.method == "GET"@ {
        match outcome {
            FileOutcomeView::Contents(bytes) => Ok(
                response(
                    200,
                    put(Fields::empty(), "Content-Type"@, "application/octet-stream"@),
                    bytes,
                ),
            ),
            _ => Ok(response(404, Fields::empty(), Seq::empty())),
        }
    } else {
        match outcome {
            FileOutcomeView::Written => Ok(response(201, Fields::empty(), Seq::empty())),
            _ => Err(WriteFailed),
        }
    }
}

/// A `GET` for a file that cannot be read is answered with status 404 and an
/// empty body of length `0`.
pub proof fn lemma_missing_file(request: RequestView)
    requires
        request.method == "GET"@,
    ensures
        file(request, FileOutcomeView::Unreadable) is Ok,
        file(request, FileOutcomeView::Unreadable)->Ok_0.code == 404,
        file(request, FileOutcomeView::Unreadable)->Ok_0.content.len() == 0,
        lookup(file(request, FileOutcomeView::Unreadable)->Ok_0.headers, "Content-Length"@)
            == Some(decimal(0)),
{
    lemma_normalized(Fields::empty(), 0);
}

/// What is written by one request and then read by another comes back as it
/// was sent: the body of a request with another method than `GET`, stored
/// and then given as the contents of the file, is the body of the answer to
/// a `GET`, with status 200.
pub proof fn lemma_write_then_read(write: RequestView, read: RequestView, args: ArgsView)
    requires
        write.method != "GET"@,
        read.method == "GET"@,
        read.path == write.path,
    ensures
        access(write, args) == (FileAccessView::Write {
            path: file_path(read, args),
            contents: write.body,
        }),
        access(read, args) == (FileAccessView::Read { path: file_path(read, args) }),
        file(write, FileOutcomeView::Written) is Ok,
        file(write, FileOutcomeView::Written)->Ok_0.code == 201,
        file(write, FileOutcomeView::Written)->Ok_0.content.len() == 0,
        file(read, FileOutcomeView::Contents(write.body)) is Ok,
        file(read, FileOutcomeView::Contents(write.body))->Ok_0.code == 200,
        file(read, FileOutcomeView::Contents(write.body))->Ok_0.content == write.body,
{
}

/// Tells what a request to the files endpoint needs from the file system.
pub fn file_access(request: &Request, args: &Args) -> (res: FileAccess)
    ensures
        res@ == access(request@, args@),
{
    let chars = to_chars(request.path.as_str());
    let prefix = to_chars("/files");
    let name = if starts_with(&chars, &prefix) {
        request.path.as_str().substring_char(prefix.len(), chars.len())
    } else {
        request.path.as_str()
    };
    let mut path = match &args.directory {
        Some(directory) => directory.clone(),
        None => String::new(),
    };
    path.append(name);
    if same_text(request.method.as_str(), "GET") {
        FileAccess::Read { path }
    } else {
        FileAccess::Write { path, contents: slice_to_vec(request.body.as_slice()) }
    }
}

/// Answers a request to the files endpoint, given what the file system did
/// with the access that the request asked for.
pub fn handle_file(request: &Request, outcome: FileOutcome) -> (res: Result<Response, WriteFailed>)
    ensures
        match res {
            Ok(answer) => file(request@, outcome@) == Ok::<_, WriteFailed>(answer@),
            Err(e) => file(request@, outcome@) == Err::<ResponseView, _>(e),
        },
{
    if same_text(request.method.as_str(), "GET") {
        match outcome {
            FileOutcome::Contents(bytes) => {
                let mut headers = Headers::new();
                headers.insert("Content-Type".to_owned(), "application/octet-stream".to_owned());
                Ok(Response::new(200, headers, bytes))
            },
            _ => Ok(Response::new(404, Headers::new(), Vec::new())),
        }
    } else {
        match outcome {
            FileOutcome::Written => Ok(Response::new(201, Headers::new(), Vec::new())),
            _ => Err(WriteFailed),
        }
    }
}

} // verus!
