use flate2::read::GzDecoder;
use http_server::args::Args;
use http_server::connection::{
    asks_to_close, deliver, frame, route, step, Action, Connection, Event, Failure, Route,
};
use http_server::handlers::file::{FileAccess, FileOutcome};
use http_server::headers::Headers;
use http_server::request::{ParseError, Request};
use http_server::response::Response;
use std::io::Read;

fn request(method: &str, path: &str, fields: &[(&str, &str)], body: &[u8]) -> Request {
    let mut headers = Headers::new();
    for (name, value) in fields {
        headers.insert(name.to_string(), value.to_string());
    }
    Request::new(method.to_string(), path.to_string(), headers, body.to_vec())
}

fn no_args() -> Args {
    Args { directory: None }
}

/// Frames `input` and takes the connection one step on it.
fn receive(state: Connection, input: &[u8], eof: bool, args: &Args) -> (Connection, Action) {
    step(state, frame(input, eof), args)
}

fn sent(action: Action) -> Vec<u8> {
    match action {
        Action::Send(bytes) => bytes,
        other => panic!("{:?}", other),
    }
}

/// Splits a message into its head as text and its body.
fn split(message: &[u8]) -> (String, Vec<u8>) {
    let at = (0..message.len() - 3).find(|&i| &message[i..i + 4] == b"\r\n\r\n").unwrap();
    (String::from_utf8(message[..at + 2].to_vec()).unwrap(), message[at + 4..].to_vec())
}

fn has_line(head: &str, line: &str) -> bool {
    head.split("\r\n").any(|l| l == line)
}

#[test]
fn routes_follow_the_table_in_order() {
    let route_of = |path: &str| route(&request("GET", path, &[], b""));
    assert_eq!(route_of("/"), Route::Home);
    assert_eq!(route_of("/echo/abc"), Route::Echo);
    assert_eq!(route_of("/echo"), Route::Echo);
    assert_eq!(route_of("/echoes"), Route::Echo);
    assert_eq!(route_of("/user-agent"), Route::UserAgent);
    assert_eq!(route_of("/user-agent/"), Route::NotFound);
    assert_eq!(route_of("/files/a"), Route::Files);
    assert_eq!(route_of("/files"), Route::Files);
    assert_eq!(route_of("/file"), Route::NotFound);
    assert_eq!(route_of(""), Route::NotFound);
    assert_eq!(route_of("/index.html"), Route::NotFound);
    assert_eq!(route_of("//"), Route::NotFound);
}

#[test]
fn close_is_asked_for_in_any_case_of_letters() {
    assert!(asks_to_close(&request("GET", "/", &[("Connection", "close")], b"")));
    assert!(asks_to_close(&request("GET", "/", &[("Connection", "Close")], b"")));
    assert!(asks_to_close(&request("GET", "/", &[("Connection", "CLOSE")], b"")));
    assert!(!asks_to_close(&request("GET", "/", &[("Connection", "keep-alive")], b"")));
    assert!(!asks_to_close(&request("GET", "/", &[("Connection", "closed")], b"")));
    assert!(!asks_to_close(&request("GET", "/", &[("connection", "close")], b"")));
    assert!(!asks_to_close(&request("GET", "/", &[], b"")));
}

#[test]
fn get_root_is_answered_200_and_keeps_the_connection() {
    let (state, action) =
        receive(Connection::Idle, b"GET / HTTP/1.1\r\nHost: x\r\n\r\n", false, &no_args());
    assert_eq!(state, Connection::Idle);
    let bytes = sent(action);
    assert!(bytes.starts_with(b"HTTP/1.1 200 OK\r\n"));
    assert!(bytes.ends_with(b"\r\n\r\n"));
    let (head, body) = split(&bytes);
    assert!(has_line(&head, "Content-Length: 0"));
    assert!(has_line(&head, "Connection: keep-alive"));
    assert!(body.is_empty());
    assert_eq!(
        bytes,
        b"HTTP/1.1 200 OK\r\nContent-Length: 0\r\nContent-Type: text/plain\r\n\
            Connection: keep-alive\r\n\r\n"
            .to_vec()
    );
}

#[test]
fn echo_is_answered_with_the_tail() {
    let (state, action) =
        receive(Connection::Idle, b"GET /echo/abc HTTP/1.1\r\nHost: x\r\n\r\n", false, &no_args());
    assert_eq!(state, Connection::Idle);
    let (head, body) = split(&sent(action));
    assert!(head.starts_with("HTTP/1.1 200 OK\r\n"));
    assert!(has_line(&head, "Content-Type: text/plain"));
    assert!(has_line(&head, "Content-Length: 3"));
    assert_eq!(body, b"abc".to_vec());
}

#[test]
fn user_agent_is_reflected() {
    let input = b"GET /user-agent HTTP/1.1\r\nHost: x\r\nUser-Agent: foo/1.0\r\n\r\n";
    let (_, action) = receive(Connection::Idle, input, false, &no_args());
    let (head, body) = split(&sent(action));
    assert!(head.starts_with("HTTP/1.1 200 OK\r\n"));
    assert_eq!(body, b"foo/1.0".to_vec());
}

#[test]
fn user_agent_without_header_is_answered_400() {
    let (state, action) =
        receive(Connection::Idle, b"GET /user-agent HTTP/1.1\r\n\r\n", false, &no_args());
    assert_eq!(state, Connection::Idle);
    let (head, body) = split(&sent(action));
    assert!(head.starts_with("HTTP/1.1 400 Bad Request\r\n"));
    assert!(body.is_empty());
}

#[test]
fn unknown_target_is_answered_404() {
    let (state, action) =
        receive(Connection::Idle, b"GET /nothing HTTP/1.1\r\n\r\n", false, &no_args());
    assert_eq!(state, Connection::Idle);
    let (head, body) = split(&sent(action));
    assert!(head.starts_with("HTTP/1.1 404 Not Found\r\n"));
    assert!(has_line(&head, "Content-Length: 0"));
    assert!(body.is_empty());
}

#[test]
fn echo_is_compressed_for_a_client_that_accepts_gzip() {
    let input = b"GET /echo/abc HTTP/1.1\r\nAccept-Encoding: gzip, deflate\r\nHost: x\r\n\r\n";
    let (state, action) = receive(Connection::Idle, input, false, &no_args());
    assert_eq!(state, Connection::Idle);
    let (head, body) = split(&sent(action));
    assert!(head.starts_with("HTTP/1.1 200 OK\r\n"));
    assert!(has_line(&head, "Content-Encoding: gzip"));
    assert!(has_line(&head, &format!("Content-Length: {}", body.len())));
    let mut plain = Vec::new();
    GzDecoder::new(&body[..]).read_to_end(&mut plain).unwrap();
    assert_eq!(plain, b"abc".to_vec());
}

#[test]
fn empty_body_is_marked_but_not_compressed() {
    let input = b"GET /echo/ HTTP/1.1\r\nAccept-Encoding: gzip\r\n\r\n";
    let (_, action) = receive(Connection::Idle, input, false, &no_args());
    let (head, body) = split(&sent(action));
    assert!(head.starts_with("HTTP/1.1 200 OK\r\n"));
    assert!(has_line(&head, "Content-Encoding: gzip"));
    assert!(has_line(&head, "Content-Length: 0"));
    assert!(body.is_empty());
}

#[test]
fn post_then_get_gives_the_posted_body_back() {
    let args = Args { directory: Some("/tmp/".to_string()) };
    let mut files: Vec<(String, Vec<u8>)> = Vec::new();

    let post = b"POST /files/hello HTTP/1.1\r\nContent-Length: 5\r\n\r\nworld!";
    let (state, action) = receive(Connection::Idle, post, false, &args);
    let outcome = match action {
        Action::Access(FileAccess::Write { path, contents }) => {
            assert_eq!(path, "/tmp//hello");
            assert_eq!(contents, b"world".to_vec());
            files.push((path, contents));
            FileOutcome::Written
        },
        other => panic!("{:?}", other),
    };
    assert!(matches!(state, Connection::AwaitingFile(_)));
    let (state, action) = step(state, Event::File(outcome), &args);
    assert_eq!(state, Connection::Idle);
    let (head, body) = split(&sent(action));
    assert!(head.starts_with("HTTP/1.1 201 Created\r\n"));
    assert!(body.is_empty());

    let get = b"GET /files/hello HTTP/1.1\r\n\r\n";
    let (state, action) = receive(Connection::Idle, get, false, &args);
    let outcome = match action {
        Action::Access(FileAccess::Read { path }) => {
            match files.iter().find(|(name, _)| *name == path) {
                Some((_, contents)) => FileOutcome::Contents(contents.clone()),
                None => FileOutcome::Unreadable,
            }
        },
        other => panic!("{:?}", other),
    };
    let (state, action) = step(state, Event::File(outcome), &args);
    assert_eq!(state, Connection::Idle);
    let (head, body) = split(&sent(action));
    assert!(head.starts_with("HTTP/1.1 200 OK\r\n"));
    assert!(has_line(&head, "Content-Type: application/octet-stream"));
    assert!(has_line(&head, "Content-Length: 5"));
    assert_eq!(body, b"world".to_vec());
}

#[test]
fn get_of_a_missing_file_is_answered_404_with_length_zero() {
    let (state, action) =
        receive(Connection::Idle, b"GET /files/missing HTTP/1.1\r\n\r\n", false, &no_args());
    assert_eq!(action, Action::Access(FileAccess::Read { path: "/missing".to_string() }));
    let (state, action) = step(state, Event::File(FileOutcome::Unreadable), &no_args());
    assert_eq!(state, Connection::Idle);
    let (head, body) = split(&sent(action));
    assert!(head.starts_with("HTTP/1.1 404 Not Found\r\n"));
    assert!(has_line(&head, "Content-Length: 0"));
    assert!(body.is_empty());
}

#[test]
fn failed_write_ends_the_connection() {
    let post = b"POST /files/a HTTP/1.1\r\nContent-Length: 1\r\n\r\nx";
    let (state, _) = receive(Connection::Idle, post, false, &no_args());
    let (state, action) = step(state, Event::File(FileOutcome::WriteFailed), &no_args());
    assert_eq!(state, Connection::Closed);
    assert_eq!(action, Action::Fail(Failure::WriteFailed));
}

#[test]
fn peer_that_closes_at_once_gets_no_response() {
    let (state, action) = receive(Connection::Idle, b"", true, &no_args());
    assert_eq!(state, Connection::Closed);
    assert_eq!(action, Action::Close);
}

#[test]
fn unfinished_request_asks_for_more_bytes() {
    let (state, action) = receive(Connection::Idle, b"GET / HT", false, &no_args());
    assert_eq!(state, Connection::Idle);
    assert_eq!(action, Action::Receive);
    let (state, action) = receive(state, b"GET / HTTP/1.1\r\n\r\n", false, &no_args());
    assert_eq!(state, Connection::Idle);
    assert!(sent(action).starts_with(b"HTTP/1.1 200 OK\r\n"));
}

#[test]
fn malformed_request_ends_the_connection_without_response() {
    for (input, error) in [
        (&b"\r\n"[..], ParseError::MissingMethod),
        (&b"GET\r\n"[..], ParseError::MissingPath),
        (&b"GET / HTTP/1.1\r\nnonsense\r\n\r\n"[..], ParseError::MalformedHeader),
        (&b"GET / HTTP/1.1\r\nContent-Length: x\r\n\r\n"[..], ParseError::MalformedContentLength),
        (&b"GET /\xff HTTP/1.1\r\n\r\n"[..], ParseError::InvalidEncoding),
        (&b"POST / HTTP/1.1\r\nContent-Length: 9\r\n\r\nabc"[..], ParseError::UnexpectedEof),
    ] {
        let (state, action) = receive(Connection::Idle, input, true, &no_args());
        assert_eq!(state, Connection::Closed);
        assert_eq!(action, Action::Fail(Failure::Malformed(error)));
    }
}

#[test]
fn two_requests_without_close_are_both_answered_in_order() {
    let (state, first) =
        receive(Connection::Idle, b"GET /echo/one HTTP/1.1\r\nHost: x\r\n\r\n", false, &no_args());
    assert_eq!(state, Connection::Idle);
    let (state, second) =
        receive(state, b"GET /echo/two HTTP/1.1\r\nHost: x\r\n\r\n", false, &no_args());
    assert_eq!(state, Connection::Idle);
    let (head, body) = split(&sent(first));
    assert!(has_line(&head, "Connection: keep-alive"));
    assert_eq!(body, b"one".to_vec());
    let (head, body) = split(&sent(second));
    assert!(has_line(&head, "Connection: keep-alive"));
    assert_eq!(body, b"two".to_vec());
}

#[test]
fn second_request_with_close_is_answered_and_closes() {
    let (state, first) =
        receive(Connection::Idle, b"GET / HTTP/1.1\r\nHost: x\r\n\r\n", false, &no_args());
    assert_eq!(state, Connection::Idle);
    let (head, _) = split(&sent(first));
    assert!(head.starts_with("HTTP/1.1 200 OK\r\n"));
    assert!(has_line(&head, "Connection: keep-alive"));
    let (state, second) =
        receive(state, b"GET / HTTP/1.1\r\nHost: x\r\nConnection: close\r\n\r\n", false, &no_args());
    assert_eq!(state, Connection::Closed);
    let (head, _) = split(&sent(second));
    assert!(head.starts_with("HTTP/1.1 200 OK\r\n"));
    assert!(has_line(&head, "Connection: close"));
    assert!(!has_line(&head, "Connection: keep-alive"));
}

#[test]
fn closed_connection_stays_closed() {
    let get = request("GET", "/", &[], b"");
    assert_eq!(
        step(Connection::Closed, Event::Request(get), &no_args()),
        (Connection::Closed, Action::Close)
    );
    assert_eq!(
        step(Connection::Closed, Event::File(FileOutcome::Written), &no_args()),
        (Connection::Closed, Action::Close)
    );
    assert_eq!(
        step(Connection::Closed, Event::NoRequest(ParseError::Incomplete), &no_args()),
        (Connection::Closed, Action::Close)
    );
}

#[test]
fn event_out_of_turn_ends_the_connection() {
    assert_eq!(
        step(Connection::Idle, Event::File(FileOutcome::Written), &no_args()),
        (Connection::Closed, Action::Fail(Failure::OutOfTurn))
    );
    let waiting = Connection::AwaitingFile(request("GET", "/files/a", &[], b""));
    assert_eq!(
        step(waiting.clone(), Event::Request(request("GET", "/", &[], b"")), &no_args()),
        (Connection::Closed, Action::Fail(Failure::OutOfTurn))
    );
    assert_eq!(
        step(waiting, Event::NoRequest(ParseError::Closed), &no_args()),
        (Connection::Closed, Action::Fail(Failure::OutOfTurn))
    );
}

#[test]
fn deliver_sets_the_connection_header_last() {
    let response = Response::new(200, Headers::new(), b"hi".to_vec());
    let (state, action) = deliver(&request("GET", "/", &[("Connection", "close")], b""), response);
    assert_eq!(state, Connection::Closed);
    assert_eq!(
        sent(action),
        b"HTTP/1.1 200 OK\r\nContent-Length: 2\r\nContent-Type: text/plain\r\n\
            Connection: close\r\n\r\nhi"
            .to_vec()
    );
}

#[test]
fn every_reply_declares_the_length_of_its_body() {
    let inputs: [&[u8]; 5] = [
        b"GET / HTTP/1.1\r\n\r\n",
        b"GET /echo/hello HTTP/1.1\r\n\r\n",
        b"GET /echo/hello HTTP/1.1\r\nAccept-Encoding: gzip\r\n\r\n",
        b"GET /user-agent HTTP/1.1\r\nUser-Agent: a\r\n\r\n",
        b"GET /x HTTP/1.1\r\nConnection: close\r\n\r\n",
    ];
    for input in inputs {
        let (_, action) = receive(Connection::Idle, input, false, &no_args());
        let bytes = sent(action);
        let (head, body) = split(&bytes);
        assert!(has_line(&head, &format!("Content-Length: {}", body.len())));
        assert_eq!(head.matches("\r\n\r\n").count(), 0);
    }
}

#[test]
fn frame_reports_the_request_or_why_there_is_none() {
    assert_eq!(
        frame(b"GET /a HTTP/1.1\r\nHost: x\r\n\r\n", false),
        Event::Request(request("GET", "/a", &[("Host", "x")], b""))
    );
    assert_eq!(frame(b"GET /a HT", false), Event::NoRequest(ParseError::Incomplete));
    assert_eq!(frame(b"", true), Event::NoRequest(ParseError::Closed));
    assert_eq!(frame(b"GET\r\n", true), Event::NoRequest(ParseError::MissingPath));
}
