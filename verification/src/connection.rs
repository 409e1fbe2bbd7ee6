//! The life of one connection as a state machine. The caller owns the socket
//! and the file system: it tells the machine what happened, and the machine
//! tells it what to do next.

use crate::args::{Args, ArgsView};
use crate::encoding::{
    accepts_gzip, encode, encoded, gzip_stream, lemma_encoded_declares_length, marked,
};
use crate::handlers::echo::{echo, handle_echo};
use crate::handlers::file::{
    access, file, file_access, handle_file, FileAccess, FileAccessView, FileOutcome,
    FileOutcomeView,
};
use crate::handlers::home::{handle_home, home};
use crate::handlers::user_agent::{handle_user_agent, user_agent};
use crate::headers::{
    distinct_names, lemma_position, lemma_put, lookup, position, put, Fields, Headers,
};
use crate::request::{parse, parse_request, ParseError, Request, RequestView};
use crate::response::{
    head, lemma_normalized, lemma_plain_is_tidy, lemma_wire_layout, normalized, plain, response,
    separator, Response, ResponseView,
};
use crate::text::{
    decimal, eq_ignoring_ascii_case, lemma_decimal, no_line_feed, occurs_at,
    same_ignoring_ascii_case, same_text, starts_with, to_chars,
};
use vstd::prelude::*;
use vstd::string::*;

verus! {

/// The endpoint that answers a request.
#[derive(Debug, Clone, Copy, PartialEq, Eq, Structural)]
pub enum Route {
    Echo,
    Home,
    UserAgent,
    Files,
    NotFound,
}

/// The endpoint for a request target. The rules are tried in this order: a
/// target that begins with `/echo`; the target `/`; the target `/user-agent`;
/// a target that begins with `/files`; anything else is not found.
pub open spec fn route_of(path: Seq<char>) -> Route {
    if "/echo"@.is_prefix_of(path) {
        Route::Echo
    } else if path == "/"@ {
        Route::Home
    } else if path == "/user-agent"@ {
        Route::UserAgent
    } else if "/files"@.is_prefix_of(path) {
        Route::Files
    } else {
        Route::NotFound
    }
}

/// Picks the endpoint that answers `request`.
pub fn route(request: &Request) -> (res: Route)
    ensures
        res == route_of(request@.path),
{
    let path = request.path.as_str();
    let chars = to_chars(path);
    if starts_with(&chars, &to_chars("/echo")) {
        Route::Echo
    } else if same_text(path, "/") {
        Route::Home
    } else if same_text(path, "/user-agent") {
        Route::UserAgent
    } else if starts_with(&chars, &to_chars("/files")) {
        Route::Files
    } else {
        Route::NotFound
    }
}

/// True when the request carries `Connection: close`, in any case of letters.
pub open spec fn wants_close(request: RequestView) -> bool {
    match lookup(request.headers, "Connection"@) {
        Some(value) => same_ignoring_ascii_case(value, "close"@),
        None => false,
    }
}

/// `response` with the `Connection` header that tells the client whether the
/// connection stays open.
pub open spec fn announced(response: ResponseView, close: bool) -> ResponseView {
    ResponseView {
        headers: put(
            response.headers,
            "Connection"@,
            if close {
                "close"@
            } else {
                "keep-alive"@
            },
        ),
        ..response
    }
}

/// Where a connection stands.
#[derive(Debug, Clone, PartialEq, Eq)]
pub enum Connection {
    /// Between requests: the next request is awaited.
    Idle,
    /// A request to the files endpoint waits for the file system.
    AwaitingFile(Request),
    /// The connection is over.
    Closed,
}

/// The mathematical model of a connection's state.
pub enum ConnectionView {
    Idle,
    AwaitingFile(RequestView),
    Closed,
}

impl View for Connection {
    type V = ConnectionView;

    open spec fn view(&self) -> ConnectionView {
        match self {
            Connection::Idle => ConnectionView::Idle,
            Connection::AwaitingFile(request) => ConnectionView::AwaitingFile(request@),
            Connection::Closed => ConnectionView::Closed,
        }
    }
}

/// What happened on a connection.
#[derive(Debug, Clone, PartialEq, Eq)]
pub enum Event {
    /// A request was framed.
    Request(Request),
    /// No request could be framed.
    NoRequest(ParseError),
    /// The file system has acted.
    File(FileOutcome),
}

/// The mathematical model of an event.
pub enum EventView {
    Request(RequestView),
    NoRequest(ParseError),
    File(FileOutcomeView),
}

impl View for Event {
    type V = EventView;

    open spec fn view(&self) -> EventView {
        match self {
            Event::Request(request) => EventView::Request(request@),
            Event::NoRequest(error) => EventView::NoRequest(*error),
            Event::File(outcome) => EventView::File(outcome@),
        }
    }
}

/// Why a connection was given up.
#[derive(Debug, Clone, Copy, PartialEq, Eq, Structural)]
pub enum Failure {
    /// The bytes received are no request.
    Malformed(ParseError),
    /// The files endpoint could not store a body.
    WriteFailed,
    /// A body could not be compressed.
    CompressionFailed,
    /// An event came that the connection was not waiting for.
    OutOfTurn,
}

/// What the caller is to do next.
#[derive(Debug, Clone, PartialEq, Eq)]
pub enum Action {
    /// Receive more bytes, frame a request and report it.
    Receive,
    /// Perform the file access and report what the file system did.
    Access(FileAccess),
    /// Send these bytes and flush. Then receive the next request if the
    /// connection is idle, and close the socket if it is closed.
    Send(Vec<u8>),
    /// Close the socket: the peer is gone.
    Close,
    /// Close the socket and report the failure.
    Fail(Failure),
}

/// The mathematical model of an action.
pub enum ActionView {
    Receive,
    Access(FileAccessView),
    Send(Seq<u8>),
    Close,
    Fail(Failure),
}

impl View for Action {
    type V = ActionView;

    open spec fn view(&self) -> ActionView {
        match self {
            Action::Receive => ActionView::Receive,
            Action::Access(access) => ActionView::Access(access@),
            Action::Send(bytes) => ActionView::Send(bytes@),
            Action::Close => ActionView::Close,
            Action::Fail(failure) => ActionView::Fail(*failure),
        }
    }
}

/// How a response leaves: compressed for a client that accepts gzip, told
/// whether the connection stays open, and written out. The connection is
/// closed behind a request that asked for it, and idle otherwise. `stream`
/// is the compressed form of the response's body.
pub open spec fn delivery(request: RequestView, response: ResponseView, stream: Option<Seq<u8>>)
    -> (ConnectionView, ActionView) {
    match encoded(request, response, stream) {
        None => (ConnectionView::Closed, ActionView::Fail(Failure::CompressionFailed)),
        Some(sent) => (
            if wants_close(request) {
                ConnectionView::Closed
            } else {
                ConnectionView::Idle
            },
            ActionView::Send(announced(sent, wants_close(request)).wire()),
        ),
    }
}

/// What a freshly framed request leads to: a request to the files endpoint
/// waits for the file system, any other is answered by its handler at once.
pub open spec fn service(request: RequestView, args: ArgsView) -> (ConnectionView, ActionView) {
    match route_of(request.path) {
        Route::Echo => delivery(request, echo(request), gzip_stream(echo(request).content)),
        Route::Home => delivery(request, home(request), gzip_stream(home(request).content)),
        Route::UserAgent => delivery(
            request,
            user_agent(request),
            gzip_stream(user_agent(request).content),
        ),
        Route::Files => (
            ConnectionView::AwaitingFile(request),
            ActionView::Access(access(request, args)),
        ),
        Route::NotFound => delivery(
            request,
            response(404, Fields::empty(), Seq::empty()),
            gzip_stream(Seq::empty()),
        ),
    }
}

/// The state that follows `state` on `event`, and what the caller is to do.
pub open spec fn next(state: ConnectionView, event: EventView, args: ArgsView) -> (
    ConnectionView,
    ActionView,
) {
    match (state, event) {
        (ConnectionView::Closed, _) => (ConnectionView::Closed, ActionView::Close),
        (ConnectionView::Idle, EventView::Request(request)) => service(request, args),
        (ConnectionView::Idle, EventView::NoRequest(ParseError::Incomplete)) => (
            ConnectionView::Idle,
            ActionView::Receive,
        ),
        (ConnectionView::Idle, EventView::NoRequest(ParseError::Closed)) => (
            ConnectionView::Closed,
            ActionView::Close,
        ),
        (ConnectionView::Idle, EventView::NoRequest(error)) => (
            ConnectionView::Closed,
            ActionView::Fail(Failure::Malformed(error)),
        ),
        (ConnectionView::AwaitingFile(request), EventView::File(outcome)) => match file(
            request,
            outcome,
        ) {
            Ok(answer) => delivery(request, answer, gzip_stream(answer.content)),
            Err(_) => (ConnectionView::Closed, ActionView::Fail(Failure::WriteFailed)),
        },
        _ => (ConnectionView::Closed, ActionView::Fail(Failure::OutOfTurn)),
    }
}

/// The response that the handlers give to `request`, where `outcome` is what
/// the file system did for a request to the files endpoint. `None` where the
/// files endpoint fails.
pub open spec fn answer(request: RequestView, outcome: FileOutcomeView) -> Option<ResponseView> {
    match route_of(request.path) {
        Route::Echo => Some(echo(request)),
        Route::Home => Some(home(request)),
        Route::UserAgent => Some(user_agent(request)),
        Route::Files => match file(request, outcome) {
            Ok(answer) => Some(answer),
            Err(_) => None,
        },
        Route::NotFound => Some(response(404, Fields::empty(), Seq::empty())),
    }
}

/// The response that goes out for `request` when the handlers answer it with
/// `answer`: compressed where the client accepts it, and told whether the
/// connection stays open. `None` where compression fails.
pub open spec fn reply(request: RequestView, answer: ResponseView) -> Option<ResponseView> {
    match encoded(request, answer, gzip_stream(answer.content)) {
        Some(sent) => Some(announced(sent, wants_close(request))),
        None => None,
    }
}

/// What a connection in `state` makes of one request: the step on the
/// request and, where that asks for a file access, the step on what the file
/// system did.
pub open spec fn exchange(
    state: ConnectionView,
    request: RequestView,
    outcome: FileOutcomeView,
    args: ArgsView,
) -> (ConnectionView, ActionView) {
    let first = next(state, EventView::Request(request), args);
    if first.1 is Access {
        next(first.0, EventView::File(outcome), args)
    } else {
        first
    }
}

/// True when `bytes` are a response with plain header fields under distinct
/// names that tells the length of its body.
pub open spec fn well_framed(bytes: Seq<u8>) -> bool {
    exists|response: ResponseView|
        {
            &&& bytes == #[trigger] response.wire()
            &&& distinct_names(response.headers)
            &&& plain(response.headers)
            &&& response.declares_length()
        }
}

/// Well-framed bytes are a head and a body. The head ends in the separator
/// and holds it nowhere else, so that the first separator in the bytes is
/// the one that ends the head. What follows it is the body, and the
/// `Content-Length` of the response is the number of its bytes.
pub proof fn lemma_framed_layout(bytes: Seq<u8>)
    requires
        well_framed(bytes),
    ensures
        exists|response: ResponseView|
            {
                let head = head(response.code, response.headers);
                &&& bytes == #[trigger] response.wire()
                &&& 4 <= head.len() <= bytes.len()
                &&& occurs_at(bytes, separator(), head.len() - 4)
                &&& forall|at: int| occurs_at(bytes, separator(), at) ==> at >= head.len() - 4
                &&& forall|at: int| occurs_at(head, separator(), at) ==> at == head.len() - 4
                &&& bytes.skip(head.len() as int) == response.content
                &&& lookup(response.headers, "Content-Length"@) == Some(
                    decimal((bytes.len() - head.len()) as nat),
                )
            },
{
    let response = choose|response: ResponseView|
        {
            &&& bytes == #[trigger] response.wire()
            &&& distinct_names(response.headers)
            &&& plain(response.headers)
            &&& response.declares_length()
        };
    lemma_plain_is_tidy(response.headers);
    lemma_wire_layout(response);
}

/// The header names that the server sets are different names.
pub proof fn lemma_connection_is_not_length()
    ensures
        "Connection"@ != "Content-Length"@,
{
    reveal_strlit("Connection");
    reveal_strlit("Content-Length");
    assert("Connection"@.len() != "Content-Length"@.len());
}

/// Setting a field to a name and a value without line feed keeps plain
/// fields plain.
pub proof fn lemma_put_plain(fields: Fields, name: Seq<char>, value: Seq<char>)
    requires
        plain(fields),
        no_line_feed(name),
        no_line_feed(value),
    ensures
        plain(put(fields, name, value)),
{
    let after = put(fields, name, value);
    lemma_position(fields, name);
    assert forall|i: int| 0 <= i < after.len() implies no_line_feed((#[trigger] after[i]).0)
        && no_line_feed(after[i].1) by {
        if i < fields.len() && i != position(fields, name) {
            assert(after[i] == fields[i]);
        }
    }
}

/// What a handler returns has distinct and plain header fields, and tells
/// the length of its body.
pub proof fn lemma_answer_is_framed(request: RequestView, outcome: FileOutcomeView)
    requires
        answer(request, outcome) is Some,
    ensures
        distinct_names(answer(request, outcome)->0.headers),
        plain(answer(request, outcome)->0.headers),
        answer(request, outcome)->0.declares_length(),
{
    reveal_strlit("Content-Length");
    reveal_strlit("Content-Type");
    reveal_strlit("text/plain");
    reveal_strlit("application/octet-stream");
    let given = answer(request, outcome)->0;
    let typed = put(Fields::empty(), "Content-Type"@, "application/octet-stream"@);
    let base = if route_of(request.path) == Route::Files && request.method == "GET"@
        && outcome is Contents {
        typed
    } else {
        Fields::empty()
    };
    lemma_put(Fields::empty(), "Content-Type"@, "application/octet-stream"@);
    lemma_put_plain(Fields::empty(), "Content-Type"@, "application/octet-stream"@);
    assert(given.headers == normalized(base, given.content.len()));
    lemma_normalized(base, given.content.len());
    lemma_decimal(given.content.len());
    let sized = put(base, "Content-Length"@, decimal(given.content.len()));
    lemma_put(base, "Content-Length"@, decimal(given.content.len()));
    lemma_put_plain(base, "Content-Length"@, decimal(given.content.len()));
    lemma_put_plain(sized, "Content-Type"@, "text/plain"@);
}

/// What goes out for a response with distinct and plain header fields that
/// tells the length of its body is again such a response, and carries the
/// `Connection` header that the request asks for.
pub proof fn lemma_reply_is_framed(request: RequestView, answer: ResponseView)
    requires
        distinct_names(answer.headers),
        plain(answer.headers),
        answer.declares_length(),
        reply(request, answer) is Some,
    ensures
        distinct_names(reply(request, answer)->0.headers),
        plain(reply(request, answer)->0.headers),
        reply(request, answer)->0.declares_length(),
        reply(request, answer)->0.code == answer.code,
        lookup(reply(request, answer)->0.headers, "Connection"@) == Some(
            if wants_close(request) {
                "close"@
            } else {
                "keep-alive"@
            },
        ),
        well_framed(reply(request, answer)->0.wire()),
{
    reveal_strlit("Content-Encoding");
    reveal_strlit("Content-Length");
    reveal_strlit("Connection");
    reveal_strlit("gzip");
    reveal_strlit("close");
    reveal_strlit("keep-alive");
    let stream = gzip_stream(answer.content);
    let sent = encoded(request, answer, stream)->0;
    lemma_encoded_declares_length(request, answer, stream);
    if accepts_gzip(request) {
        let mark = marked(answer);
        lemma_put_plain(answer.headers, "Content-Encoding"@, "gzip"@);
        if answer.content.len() != 0 {
            lemma_decimal(stream->0.len());
            lemma_put_plain(mark.headers, "Content-Length"@, decimal(stream->0.len()));
        }
    }
    let value = if wants_close(request) {
        "close"@
    } else {
        "keep-alive"@
    };
    lemma_connection_is_not_length();
    lemma_put(sent.headers, "Connection"@, value);
    lemma_put_plain(sent.headers, "Connection"@, value);
    let out = reply(request, answer)->0;
    assert(lookup(out.headers, "Content-Length"@) == lookup(sent.headers, "Content-Length"@));
}

/// What a connection makes of one request. A request that the handlers
/// answer and whose answer can be prepared is sent its reply; after that the
/// connection is closed if the request asked for it and idle, ready for the
/// next request, if not. A failure of the files endpoint or of compression
/// ends the connection without reply, and a closed connection stays closed.
pub proof fn lemma_exchange(request: RequestView, outcome: FileOutcomeView, args: ArgsView)
    ensures
        exchange(ConnectionView::Idle, request, outcome, args) == match answer(request, outcome) {
            None => (ConnectionView::Closed, ActionView::Fail(Failure::WriteFailed)),
            Some(answer) => match reply(request, answer) {
                None => (ConnectionView::Closed, ActionView::Fail(Failure::CompressionFailed)),
                Some(out) => (
                    if wants_close(request) {
                        ConnectionView::Closed
                    } else {
                        ConnectionView::Idle
                    },
                    ActionView::Send(out.wire()),
                ),
            },
        },
        exchange(ConnectionView::Closed, request, outcome, args) == (
            ConnectionView::Closed,
            ActionView::Close,
        ),
{
}

/// Two requests in a row on one connection, neither of which carries
/// `Connection: close`: once the reply to the first is sent, the connection
/// is idle, and the second is answered as on a fresh connection; its reply
/// leaves the connection idle again. Both replies are well framed and
/// announce `keep-alive`.
pub proof fn lemma_keep_alive(
    first: RequestView,
    first_outcome: FileOutcomeView,
    second: RequestView,
    second_outcome: FileOutcomeView,
    args: ArgsView,
)
    requires
        !wants_close(first),
        !wants_close(second),
    ensures
        ({
            let (state, action) = exchange(ConnectionView::Idle, first, first_outcome, args);
            let (last, then) = exchange(state, second, second_outcome, args);
            action is Send ==> {
                &&& state is Idle
                &&& action == ActionView::Send(reply(first, answer(first, first_outcome)->0)->0.wire())
                &&& lookup(
                    reply(first, answer(first, first_outcome)->0)->0.headers,
                    "Connection"@,
                ) == Some("keep-alive"@)
                &&& well_framed(action->Send_0)
                &&& (last, then) == exchange(ConnectionView::Idle, second, second_outcome, args)
                &&& then is Send ==> {
                    &&& last is Idle
                    &&& then == ActionView::Send(
                        reply(second, answer(second, second_outcome)->0)->0.wire(),
                    )
                    &&& lookup(
                        reply(second, answer(second, second_outcome)->0)->0.headers,
                        "Connection"@,
                    ) == Some("keep-alive"@)
                    &&& well_framed(then->Send_0)
                }
            }
        }),
{
    lemma_exchange(first, first_outcome, args);
    lemma_exchange(second, second_outcome, args);
    if exchange(ConnectionView::Idle, first, first_outcome, args).1 is Send {
        lemma_answer_is_framed(first, first_outcome);
        lemma_reply_is_framed(first, answer(first, first_outcome)->0);
        if exchange(ConnectionView::Idle, second, second_outcome, args).1 is Send {
            lemma_answer_is_framed(second, second_outcome);
            lemma_reply_is_framed(second, answer(second, second_outcome)->0);
        }
    }
}

/// Whatever a connection is told to send is a well-framed response.
pub proof fn lemma_sent_is_framed(state: ConnectionView, event: EventView, args: ArgsView)
    requires
        next(state, event, args).1 is Send,
    ensures
        well_framed(next(state, event, args).1->Send_0),
{
    match (state, event) {
        (ConnectionView::Idle, EventView::Request(request)) => {
            let outcome = FileOutcomeView::Unreadable;
            lemma_answer_is_framed(request, outcome);
            lemma_reply_is_framed(request, answer(request, outcome)->0);
        },
        (ConnectionView::AwaitingFile(request), EventView::File(outcome)) => {
            let given = file(request, outcome)->Ok_0;
            reveal_strlit("Content-Length");
            reveal_strlit("Content-Type");
            reveal_strlit("text/plain");
            reveal_strlit("application/octet-stream");
            let base = if request.method == "GET"@ && outcome is Contents {
                put(Fields::empty(), "Content-Type"@, "application/octet-stream"@)
            } else {
                Fields::empty()
            };
            lemma_put(Fields::empty(), "Content-Type"@, "application/octet-stream"@);
            lemma_put_plain(Fields::empty(), "Content-Type"@, "application/octet-stream"@);
            assert(given.headers == normalized(base, given.content.len()));
            lemma_normalized(base, given.content.len());
            lemma_decimal(given.content.len());
            lemma_put(base, "Content-Length"@, decimal(given.content.len()));
            lemma_put_plain(base, "Content-Length"@, decimal(given.content.len()));
            lemma_put_plain(
                put(base, "Content-Length"@, decimal(given.content.len())),
                "Content-Type"@,
                "text/plain"@,
            );
            lemma_reply_is_framed(request, given);
        },
        _ => {},
    }
}

/// What framing the bytes received so far tells a connection: the request
/// that they begin with, or why there is none.
pub open spec fn framed(input: Seq<u8>, eof: bool) -> EventView {
    match parse(input, eof) {
        Ok(parsed) => EventView::Request(parsed.request),
        Err(error) => EventView::NoRequest(error),
    }
}

/// Frames the bytes received so far into the event to report. `eof` tells
/// that the peer has closed the connection.
pub fn frame(input: &[u8], eof: bool) -> (event: Event)
    ensures
        event@ == framed(input@, eof),
{
    match parse_request(input, eof) {
        Ok(parsed) => Event::Request(parsed.request),
        Err(error) => Event::NoRequest(error),
    }
}

/// Tells whether `request` carries `Connection: close`.
pub fn asks_to_close(request: &Request) -> (res: bool)
    ensures
        res == wants_close(request@),
{
    match request.headers.get("Connection") {
        Some(value) => eq_ignoring_ascii_case(&to_chars(value.as_str()), &to_chars("close")),
        None => false,
    }
}

/// Sends `response` on its way: compresses it for a client that accepts
/// gzip, sets its `Connection` header and writes it out.
pub fn deliver(request: &Request, response: Response) -> (res: (Connection, Action))
    ensures
        (res.0@, res.1@) == delivery(request@, response@, gzip_stream(response@.content)),
{
    match encode(request, response) {
        Err(_) => (Connection::Closed, Action::Fail(Failure::CompressionFailed)),
        Ok(sent) => {
            let mut sent = sent;
            if asks_to_close(request) {
                sent.headers.insert("Connection".to_owned(), "close".to_owned());
                (Connection::Closed, Action::Send(sent.format()))
            } else {
                sent.headers.insert("Connection".to_owned(), "keep-alive".to_owned());
                (Connection::Idle, Action::Send(sent.format()))
            }
        },
    }
}

/// Takes a connection one step on: from its state and what happened to the
/// state that follows and what the caller is to do next.
pub fn step(state: Connection, event: Event, args: &Args) -> (res: (Connection, Action))
    ensures
        (res.0@, res.1@) == next(state@, event@, args@),
        res.1 matches Action::Send(bytes) ==> well_framed(bytes@),
{
    proof {
        if next(state@, event@, args@).1 is Send {
            lemma_sent_is_framed(state@, event@, args@);
        }
    }
    match state {
        Connection::Closed => (Connection::Closed, Action::Close),
        Connection::Idle => match event {
            Event::Request(request) => match route(&request) {
                Route::Echo => {
                    let answer = handle_echo(&request);
                    deliver(&request, answer)
                },
                Route::Home => {
                    let answer = handle_home(&request);
                    deliver(&request, answer)
                },
                Route::UserAgent => {
                    let answer = handle_user_agent(&request);
                    deliver(&request, answer)
                },
                Route::Files => {
                    let access = file_access(&request, args);
                    (Connection::AwaitingFile(request), Action::Access(access))
                },
                Route::NotFound => {
                    let answer = Response::new(404, Headers::new(), Vec::new());
                    deliver(&request, answer)
                },
            },
            Event::NoRequest(ParseError::Incomplete) => (Connection::Idle, Action::Receive),
            Event::NoRequest(ParseError::Closed) => (Connection::Closed, Action::Close),
            Event::NoRequest(error) => (
                Connection::Closed,
                Action::Fail(Failure::Malformed(error)),
            ),
            Event::File(_) => (Connection::Closed, Action::Fail(Failure::OutOfTurn)),
        },
        Connection::AwaitingFile(request) => match event {
            Event::File(outcome) => match handle_file(&request, outcome) {
                Ok(answer) => deliver(&request, answer),
                Err(_) => (Connection::Closed, Action::Fail(Failure::WriteFailed)),
            },
            _ => (Connection::Closed, Action::Fail(Failure::OutOfTurn)),
        },
    }
}

} // verus!
