//! The request value and the parser that frames one request out of the bytes
//! received on a connection.

use crate::headers::{clean, clean_field, lemma_put_clean, lookup, put, Fields, Headers};
use crate::text::{
    equal_to, find_char, is_whitespace, lemma_scan, lemma_scan_is, lemma_trimmed_within,
    non_space, number, parse_number, scan, skip_spaces, skip_word, space, to_chars, trim,
    trimmed,
};
use crate::utf8::{lemma_encode_at, lemma_encode_len};
use vstd::prelude::*;
use vstd::slice::*;
use vstd::string::*;
use vstd::utf8::*;

verus! {

/// One parsed HTTP request.
#[derive(Debug, Clone, PartialEq, Eq)]
pub struct Request {
    pub method: String,
    pub path: String,
    pub headers: Headers,
    pub body: Vec<u8>,
}

/// The mathematical model of a request.
pub struct RequestView {
    pub method: Seq<char>,
    pub path: Seq<char>,
    pub headers: Fields,
    pub body: Seq<u8>,
}

impl View for Request {
    type V = RequestView;

    open spec fn view(&self) -> RequestView {
        RequestView {
            method: self.method@,
            path: self.path@,
            headers: self.headers@,
            body: self.body@,
        }
    }
}

impl RequestView {
    /// True when the body is as long as `Content-Length` says, and empty
    /// without that header.
    pub open spec fn body_matches_length(self) -> bool {
        match lookup(self.headers, "Content-Length"@) {
            Some(length) => number(length) == Some(self.body.len() as usize),
            None => self.body.len() == 0,
        }
    }
}

impl Request {
    /// A request made of its four parts.
    pub fn new(method: String, path: String, headers: Headers, body: Vec<u8>) -> (request: Request)
        ensures
            request@ == (RequestView {
                method: method@,
                path: path@,
                headers: headers@,
                body: body@,
            }),
    {
        Request { method, path, headers, body }
    }
}

/// Why no request could be framed.
#[derive(Debug, Clone, Copy, PartialEq, Eq, Structural)]
pub enum ParseError {
    /// The peer closed the connection before it sent anything.
    Closed,
    /// The bytes received so far end in the middle of a request.
    Incomplete,
    /// The peer closed the connection in the middle of a body.
    UnexpectedEof,
    /// A line is not valid UTF-8.
    InvalidEncoding,
    /// The request line holds no method.
    MissingMethod,
    /// The request line holds no request target.
    MissingPath,
    /// A header line holds no colon.
    MalformedHeader,
    /// The value of `Content-Length` is not a number.
    MalformedContentLength,
}

/// A framed request together with the number of bytes that it took.
#[derive(Debug, Clone, PartialEq, Eq)]
pub struct Parsed {
    pub request: Request,
    pub consumed: usize,
}

/// The mathematical model of a framed request.
pub struct ParsedView {
    pub request: RequestView,
    pub consumed: int,
}

impl View for Parsed {
    type V = ParsedView;

    open spec fn view(&self) -> ParsedView {
        ParsedView { request: self.request@, consumed: self.consumed as int }
    }
}

/// What one line of the header section says, with texts of type `T`.
#[derive(Debug, Clone, PartialEq, Eq)]
pub enum HeaderLine<T> {
    /// The empty line that ends the section.
    End,
    /// A field, as name and value.
    Field(T, T),
    /// Neither.
    Malformed,
}

/// Where the line that starts at `from` ends: behind its line feed, or, for a
/// last line without one, at the end of a closed input. `None` while such a
/// line may still grow.
pub open spec fn line_end(input: Seq<u8>, from: int, eof: bool) -> Option<int> {
    let feed = scan(input, from, equal_to(10u8));
    if feed < input.len() {
        Some(feed + 1)
    } else if eof {
        Some(input.len() as int)
    } else {
        None
    }
}

/// The method and the request target of a request line: its first two runs
/// of characters that are not white space.
pub open spec fn request_line(line: Seq<char>) -> Result<(Seq<char>, Seq<char>), ParseError> {
    let method_start = scan(line, 0, non_space());
    let method_end = scan(line, method_start, space());
    let path_start = scan(line, method_end, non_space());
    let path_end = scan(line, path_start, space());
    if line.len() == 0 {
        Err(ParseError::Closed)
    } else if method_start >= line.len() {
        Err(ParseError::MissingMethod)
    } else if path_start >= line.len() {
        Err(ParseError::MissingPath)
    } else {
        Ok((line.subrange(method_start, method_end), line.subrange(path_start, path_end)))
    }
}

/// What a line of the header section says: nothing but white space ends the
/// section; otherwise the first colon parts name from value, both trimmed.
pub open spec fn header_line(line: Seq<char>) -> HeaderLine<Seq<char>> {
    let content = trimmed(line);
    let colon = scan(content, 0, equal_to(':'));
    if content.len() == 0 {
        HeaderLine::End
    } else if colon >= content.len() {
        HeaderLine::Malformed
    } else {
        HeaderLine::Field(trimmed(content.take(colon)), trimmed(content.skip(colon + 1)))
    }
}

/// The header section that starts at `from`, read line by line on top of the
/// fields read so far: the fields, and where the body starts. A name that
/// comes again takes the later value.
pub open spec fn header_block(input: Seq<u8>, from: int, eof: bool, fields: Fields) -> Result<
    (Fields, int),
    ParseError,
>
    decreases input.len() - from,
    when 0 <= from <= input.len()
    via header_block_decreases
{
    match line_end(input, from, eof) {
        None => Err(ParseError::Incomplete),
        Some(end) => {
            let bytes = input.subrange(from, end);
            if !valid_utf8(bytes) {
                Err(ParseError::InvalidEncoding)
            } else {
                match header_line(decode_utf8(bytes)) {
                    HeaderLine::End => Ok((fields, end)),
                    HeaderLine::Malformed => Err(ParseError::MalformedHeader),
                    HeaderLine::Field(name, value) => header_block(
                        input,
                        end,
                        eof,
                        put(fields, name, value),
                    ),
                }
            }
        },
    }
}

#[via_fn]
proof fn header_block_decreases(input: Seq<u8>, from: int, eof: bool, fields: Fields) {
    if let Some(end) = line_end(input, from, eof) {
        let bytes = input.subrange(from, end);
        if valid_utf8(bytes) && header_line(decode_utf8(bytes)) is Field {
            lemma_scan(input, from, equal_to(10u8));
            if end <= from {
                assert(bytes.len() == 0);
                assert(decode_utf8(bytes) =~= Seq::<char>::empty());
                assert(trimmed(decode_utf8(bytes)).len() == 0);
            }
        }
    }
}

/// The body that starts at `from`: as many bytes as `Content-Length` tells,
/// none without that header. Gives where the body ends.
pub open spec fn body_end(input: Seq<u8>, from: int, eof: bool, fields: Fields) -> Result<
    int,
    ParseError,
> {
    match lookup(fields, "Content-Length"@) {
        None => Ok(from),
        Some(length) => match number(length) {
            None => Err(ParseError::MalformedContentLength),
            Some(n) => if from + n <= input.len() {
                Ok(from + n)
            } else if eof {
                Err(ParseError::UnexpectedEof)
            } else {
                Err(ParseError::Incomplete)
            },
        },
    }
}

/// The first request in `input`, where `eof` tells that the peer has closed
/// the connection, so that no more bytes will follow.
pub open spec fn parse(input: Seq<u8>, eof: bool) -> Result<ParsedView, ParseError> {
    match line_end(input, 0, eof) {
        None => Err(ParseError::Incomplete),
        Some(end) => {
            let bytes = input.subrange(0, end);
            if !valid_utf8(bytes) {
                Err(ParseError::InvalidEncoding)
            } else {
                match request_line(decode_utf8(bytes)) {
                    Err(e) => Err(e),
                    Ok((method, path)) => match header_block(input, end, eof, Fields::empty()) {
                        Err(e) => Err(e),
                        Ok((fields, start)) => match body_end(input, start, eof, fields) {
                            Err(e) => Err(e),
                            Ok(stop) => Ok(
                                ParsedView {
                                    request: RequestView {
                                        method,
                                        path,
                                        headers: fields,
                                        body: input.subrange(start, stop),
                                    },
                                    consumed: stop,
                                },
                            ),
                        },
                    },
                }
            }
        },
    }
}

/// A line that holds a header field holds at least one byte.
proof fn lemma_field_line_has_bytes(bytes: Seq<u8>)
    requires
        valid_utf8(bytes),
        header_line(decode_utf8(bytes)) is Field,
    ensures
        bytes.len() > 0,
{
    if bytes.len() == 0 {
        assert(decode_utf8(bytes) =~= Seq::<char>::empty());
        assert(trimmed(decode_utf8(bytes)).len() == 0);
    }
}

/// The header section ends within the input, behind where it starts.
pub proof fn lemma_header_block_end(input: Seq<u8>, from: int, eof: bool, fields: Fields)
    requires
        0 <= from <= input.len(),
        header_block(input, from, eof, fields) is Ok,
    ensures
        from <= header_block(input, from, eof, fields)->Ok_0.1 <= input.len(),
    decreases input.len() - from,
{
    lemma_scan(input, from, equal_to(10u8));
    let end = line_end(input, from, eof)->0;
    let bytes = input.subrange(from, end);
    if let HeaderLine::Field(name, value) = header_line(decode_utf8(bytes)) {
        lemma_field_line_has_bytes(bytes);
        lemma_header_block_end(input, end, eof, put(fields, name, value));
    }
}

/// Every request that `parse` frames has a method and a target, takes no more
/// bytes than the input holds, and carries a body of exactly the length that
/// its `Content-Length` tells, an empty one without that header.
pub proof fn lemma_parse_ok(input: Seq<u8>, eof: bool)
    requires
        parse(input, eof) is Ok,
    ensures
        parse(input, eof)->Ok_0.request.method.len() > 0,
        parse(input, eof)->Ok_0.request.path.len() > 0,
        parse(input, eof)->Ok_0.request.body_matches_length(),
        0 < parse(input, eof)->Ok_0.consumed <= input.len(),
{
    lemma_scan(input, 0, equal_to(10u8));
    let end = line_end(input, 0, eof)->0;
    let line = decode_utf8(input.subrange(0, end));
    if end == 0 {
        assert(line =~= Seq::<char>::empty());
    }
    let method_start = scan(line, 0, non_space());
    lemma_scan(line, 0, non_space());
    let method_end = scan(line, method_start, space());
    lemma_scan(line, method_start, space());
    let path_start = scan(line, method_end, non_space());
    lemma_scan(line, method_end, non_space());
    lemma_scan(line, path_start, space());
    lemma_header_block_end(input, end, eof, Fields::empty());
}

/// The header section fails in three ways only, and never for want of bytes
/// once the peer has closed the connection.
pub proof fn lemma_header_block_errors(input: Seq<u8>, from: int, eof: bool, fields: Fields)
    requires
        0 <= from <= input.len(),
        header_block(input, from, eof, fields) is Err,
    ensures
        ({
            let error = header_block(input, from, eof, fields)->Err_0;
            &&& error == ParseError::Incomplete || error == ParseError::InvalidEncoding || error
                == ParseError::MalformedHeader
            &&& eof ==> error != ParseError::Incomplete
        }),
    decreases input.len() - from,
{
    lemma_scan(input, from, equal_to(10u8));
    if let Some(end) = line_end(input, from, eof) {
        let bytes = input.subrange(from, end);
        if valid_utf8(bytes) {
            if let HeaderLine::Field(name, value) = header_line(decode_utf8(bytes)) {
                lemma_field_line_has_bytes(bytes);
                lemma_header_block_errors(input, end, eof, put(fields, name, value));
            }
        }
    }
}

/// When each of the errors that stand for the state of the connection comes.
/// `Closed` is the answer to nothing but the empty input of a peer that has
/// closed. `Incomplete` is never the answer once the peer has closed, and
/// `UnexpectedEof` never before.
pub proof fn lemma_parse_errors(input: Seq<u8>, eof: bool)
    ensures
        parse(input, eof) == Err::<ParsedView, _>(ParseError::Closed) <==> eof && input.len() == 0,
        eof ==> parse(input, eof) != Err::<ParsedView, _>(ParseError::Incomplete),
        !eof ==> parse(input, eof) != Err::<ParsedView, _>(ParseError::UnexpectedEof),
{
    lemma_scan(input, 0, equal_to(10u8));
    if let Some(end) = line_end(input, 0, eof) {
        let bytes = input.subrange(0, end);
        if valid_utf8(bytes) {
            let line = decode_utf8(bytes);
            if end == 0 {
                assert(line =~= Seq::<char>::empty());
            }
            if request_line(line) is Ok && header_block(input, end, eof, Fields::empty()) is Err {
                lemma_header_block_errors(input, end, eof, Fields::empty());
            }
        }
    }
}

/// The text of a line holds no line feed in front of its last character.
proof fn lemma_line_text(bytes: Seq<u8>)
    requires
        valid_utf8(bytes),
        forall|i: int| 0 <= i < bytes.len() - 1 ==> #[trigger] bytes[i] != 10,
    ensures
        forall|at: int|
            0 <= at < decode_utf8(bytes).len() - 1 ==> #[trigger] decode_utf8(bytes)[at] != '\n',
{
    let text = decode_utf8(bytes);
    decode_utf8_encode_utf8(bytes);
    assert forall|at: int| 0 <= at < text.len() - 1 implies #[trigger] text[at] != '\n' by {
        if text[at] == '\n' {
            lemma_encode_at(text, at);
            lemma_encode_len(text.skip(at + 1));
            let place = encode_utf8(text.take(at)).len() as int;
            assert(bytes[place] == 10);
        }
    }
}

/// The field that a line holds is clean, where the line has no line feed in
/// front of its last character.
proof fn lemma_header_line_clean(line: Seq<char>)
    requires
        forall|at: int| 0 <= at < line.len() - 1 ==> #[trigger] line[at] != '\n',
    ensures
        header_line(line) matches HeaderLine::Field(name, value) ==> clean_field((name, value)),
{
    if let HeaderLine::Field(name, value) = header_line(line) {
        let content = trimmed(line);
        let colon = scan(content, 0, equal_to(':'));
        let front = content.take(colon);
        let back = content.skip(colon + 1);
        lemma_trimmed_within(line);
        lemma_trimmed_within(front);
        lemma_trimmed_within(back);
        lemma_scan(content, 0, equal_to(':'));
        let start = scan(line, 0, non_space());
        assert forall|i: int| 0 <= i < content.len() implies #[trigger] content[i] != '\n' by {
            assert(content[i] == line[start + i]);
            if start + i == line.len() - 1 {
                assert(content.last() == line[start + i]);
                assert(is_whitespace('\n'));
            }
        }
        let name_start = scan(front, 0, non_space());
        assert forall|i: int| 0 <= i < name.len() implies #[trigger] name[i] != '\n' && name[i]
            != ':' by {
            assert(name[i] == front[name_start + i]);
            assert(front[name_start + i] == content[name_start + i]);
            assert(!equal_to(':')(content[name_start + i]));
        }
        let value_start = scan(back, 0, non_space());
        assert forall|i: int| 0 <= i < value.len() implies #[trigger] value[i] != '\n' by {
            assert(value[i] == back[value_start + i]);
            assert(back[value_start + i] == content[colon + 1 + value_start + i]);
        }
    }
}

/// The fields of a header section are clean, where the ones it was read on
/// top of are.
proof fn lemma_header_block_clean(input: Seq<u8>, from: int, eof: bool, fields: Fields)
    requires
        0 <= from <= input.len(),
        clean(fields),
        header_block(input, from, eof, fields) is Ok,
    ensures
        clean(header_block(input, from, eof, fields)->Ok_0.0),
    decreases input.len() - from,
{
    lemma_scan(input, from, equal_to(10u8));
    let end = line_end(input, from, eof)->0;
    let bytes = input.subrange(from, end);
    if let HeaderLine::Field(name, value) = header_line(decode_utf8(bytes)) {
        assert forall|i: int| 0 <= i < bytes.len() - 1 implies #[trigger] bytes[i] != 10 by {
            assert(!equal_to(10u8)(input[from + i]));
        }
        lemma_line_text(bytes);
        lemma_header_line_clean(decode_utf8(bytes));
        lemma_field_line_has_bytes(bytes);
        lemma_put_clean(fields, name, value);
        lemma_header_block_clean(input, end, eof, put(fields, name, value));
    }
}

/// The header fields of every request that `parse` frames are clean: their
/// names and values have no white space at their ends and hold no line feed,
/// and their names hold no colon.
pub proof fn lemma_parsed_headers_clean(input: Seq<u8>, eof: bool)
    requires
        parse(input, eof) is Ok,
    ensures
        clean(parse(input, eof)->Ok_0.request.headers),
{
    lemma_scan(input, 0, equal_to(10u8));
    let end = line_end(input, 0, eof)->0;
    lemma_header_block_clean(input, end, eof, Fields::empty());
}

/// A line that ends in a line feed ends there whatever follows the input.
proof fn lemma_line_end_stable(input: Seq<u8>, more: Seq<u8>, from: int, eof: bool)
    requires
        0 <= from <= input.len(),
        line_end(input, from, false) is Some,
    ensures
        line_end(input + more, from, eof) == line_end(input, from, false),
        from < line_end(input, from, false)->0 <= input.len(),
        (input + more).subrange(from, line_end(input, from, false)->0) == input.subrange(
            from,
            line_end(input, from, false)->0,
        ),
{
    let feed = scan(input, from, equal_to(10u8));
    lemma_scan(input, from, equal_to(10u8));
    let longer = input + more;
    assert forall|i: int| from <= i < feed implies !equal_to(10u8)(#[trigger] longer[i]) by {
        assert(longer[i] == input[i]);
    }
    assert(longer[feed] == input[feed]);
    lemma_scan_is(longer, from, equal_to(10u8), feed);
    assert(longer.subrange(from, feed + 1) =~= input.subrange(from, feed + 1));
}

/// A header section that is read to its end, or to an error, without
/// running out of bytes reads the same whatever follows the input.
proof fn lemma_header_block_stable(
    input: Seq<u8>,
    more: Seq<u8>,
    from: int,
    eof: bool,
    fields: Fields,
)
    requires
        0 <= from <= input.len(),
        header_block(input, from, false, fields) != Err::<(Fields, int), _>(
            ParseError::Incomplete,
        ),
    ensures
        header_block(input + more, from, eof, fields) == header_block(input, from, false, fields),
    decreases input.len() - from,
{
    lemma_line_end_stable(input, more, from, eof);
    let end = line_end(input, from, false)->0;
    let bytes = input.subrange(from, end);
    if valid_utf8(bytes) {
        if let HeaderLine::Field(name, value) = header_line(decode_utf8(bytes)) {
            lemma_header_block_stable(input, more, end, eof, put(fields, name, value));
        }
    }
}

/// Framing does not depend on what follows the request. Whatever `parse`
/// answers before the peer has closed, other than `Incomplete`, it answers
/// again when more bytes have come, and also once the peer has closed.
pub proof fn lemma_parse_stable(input: Seq<u8>, more: Seq<u8>, eof: bool)
    requires
        parse(input, false) != Err::<ParsedView, _>(ParseError::Incomplete),
    ensures
        parse(input + more, eof) == parse(input, false),
{
    lemma_line_end_stable(input, more, 0, eof);
    let end = line_end(input, 0, false)->0;
    let bytes = input.subrange(0, end);
    if valid_utf8(bytes) {
        if request_line(decode_utf8(bytes)) is Ok {
            lemma_header_block_stable(input, more, end, eof, Fields::empty());
            if let Ok((fields, start)) = header_block(input, end, false, Fields::empty()) {
                lemma_header_block_end(input, end, false, Fields::empty());
                if let Ok(stop) = body_end(input, start, false, fields) {
                    assert((input + more).subrange(start, stop) =~= input.subrange(start, stop));
                }
            }
        }
    }
}

/// Finds where the line that starts at `from` ends.
fn find_line_end(input: &[u8], from: usize, eof: bool) -> (res: Option<usize>)
    requires
        from <= input.len(),
    ensures
        match res {
            Some(end) => line_end(input@, from as int, eof) == Some(end as int) && from <= end
                <= input.len(),
            None => line_end(input@, from as int, eof) is None,
        },
{
    let mut at: usize = from;
    while at < input.len() && input[at] != 10
        invariant
            from <= at <= input.len(),
            forall|i: int| from <= i < at ==> !equal_to(10u8)(#[trigger] input@[i]),
        decreases input.len() - at,
    {
        at += 1;
    }
    proof {
        lemma_scan_is(input@, from as int, equal_to(10u8), at as int);
    }
    if at < input.len() {
        Some(at + 1)
    } else if eof {
        Some(at)
    } else {
        None
    }
}

/// The text of the line that lies between `from` and `end`.
fn decode_line(input: &[u8], from: usize, end: usize) -> (res: Result<&str, ParseError>)
    requires
        from <= end <= input.len(),
    ensures
        match res {
            Ok(line) => valid_utf8(input@.subrange(from as int, end as int)) && line@
                == decode_utf8(input@.subrange(from as int, end as int)),
            Err(e) => e == ParseError::InvalidEncoding && !valid_utf8(
                input@.subrange(from as int, end as int),
            ),
        },
{
    match core::str::from_utf8(slice_subrange(input, from, end)) {
        Ok(line) => Ok(line),
        Err(_) => Err(ParseError::InvalidEncoding),
    }
}

/// Reads the method and the request target off a request line.
pub fn parse_request_line(line: &str) -> (res: Result<(String, String), ParseError>)
    ensures
        match res {
            Ok(pair) => request_line(line@) == Ok::<_, ParseError>((pair.0@, pair.1@)),
            Err(e) => request_line(line@) == Err::<(Seq<char>, Seq<char>), _>(e),
        },
{
    let chars = to_chars(line);
    let method_start = skip_spaces(&chars, 0);
    let method_end = skip_word(&chars, method_start);
    let path_start = skip_spaces(&chars, method_end);
    let path_end = skip_word(&chars, path_start);
    if chars.len() == 0 {
        Err(ParseError::Closed)
    } else if method_start >= chars.len() {
        Err(ParseError::MissingMethod)
    } else if path_start >= chars.len() {
        Err(ParseError::MissingPath)
    } else {
        let method = line.substring_char(method_start, method_end).to_owned();
        let path = line.substring_char(path_start, path_end).to_owned();
        Ok((method, path))
    }
}

/// Reads one line of the header section.
pub fn parse_header_line(line: &str) -> (res: HeaderLine<String>)
    ensures
        match res {
            HeaderLine::End => header_line(line@) is End,
            HeaderLine::Malformed => header_line(line@) is Malformed,
            HeaderLine::Field(name, value) => header_line(line@) == HeaderLine::Field(
                name@,
                value@,
            ),
        },
{
    let content = trim(line);
    let chars = to_chars(content);
    let colon = find_char(&chars, ':');
    if chars.len() == 0 {
        HeaderLine::End
    } else if colon >= chars.len() {
        HeaderLine::Malformed
    } else {
        let name = trim(content.substring_char(0, colon)).to_owned();
        let value = trim(content.substring_char(colon + 1, chars.len())).to_owned();
        HeaderLine::Field(name, value)
    }
}

/// Reads the header section that starts at `from`: its fields, and where the
/// body starts.
fn read_headers(input: &[u8], from: usize, eof: bool) -> (res: Result<(Headers, usize), ParseError>)
    requires
        from <= input.len(),
    ensures
        match res {
            Ok(found) => header_block(input@, from as int, eof, Fields::empty()) == Ok::<
                _,
                ParseError,
            >((found.0@, found.1 as int)) && from <= found.1 <= input.len(),
            Err(e) => header_block(input@, from as int, eof, Fields::empty()) == Err::<
                (Fields, int),
                _,
            >(e),
        },
{
    let mut headers = Headers::new();
    let mut at: usize = from;
    loop
        invariant
            from <= at <= input.len(),
            header_block(input@, from as int, eof, Fields::empty()) == header_block(
                input@,
                at as int,
                eof,
                headers@,
            ),
        decreases input.len() - at,
    {
        let end = match find_line_end(input, at, eof) {
            Some(end) => end,
            None => {
                return Err(ParseError::Incomplete);
            },
        };
        let line = match decode_line(input, at, end) {
            Ok(line) => line,
            Err(e) => {
                return Err(e);
            },
        };
        match parse_header_line(line) {
            HeaderLine::End => {
                return Ok((headers, end));
            },
            HeaderLine::Malformed => {
                return Err(ParseError::MalformedHeader);
            },
            HeaderLine::Field(name, value) => {
                proof {
                    lemma_field_line_has_bytes(input@.subrange(at as int, end as int));
                }
                headers.insert(name, value);
                at = end;
            },
        }
    }
}

/// Frames the first request in `input`. `eof` tells that the peer has closed
/// the connection, so that `input` is all there will ever be.
///
/// A request is a request line, header lines up to an empty line, and a body
/// of as many bytes as `Content-Length` tells. While `input` ends before the
/// request does, the answer is `Incomplete`, or, once the peer has closed,
/// the error that reading on would have met.
pub fn parse_request(input: &[u8], eof: bool) -> (res: Result<Parsed, ParseError>)
    ensures
        match res {
            Ok(parsed) => parse(input@, eof) == Ok::<_, ParseError>(parsed@),
            Err(e) => parse(input@, eof) == Err::<ParsedView, _>(e),
        },
        res matches Ok(parsed) ==> {
            &&& parsed@.request.method.len() > 0
            &&& parsed@.request.path.len() > 0
            &&& parsed@.request.body_matches_length()
            &&& 0 < parsed.consumed <= input@.len()
            &&& clean(parsed@.request.headers)
        },
        res == Err::<Parsed, _>(ParseError::Closed) <==> eof && input@.len() == 0,
        eof ==> res != Err::<Parsed, _>(ParseError::Incomplete),
        !eof ==> res != Err::<Parsed, _>(ParseError::UnexpectedEof),
{
    proof {
        lemma_parse_errors(input@, eof);
    }
    let end = match find_line_end(input, 0, eof) {
        Some(end) => end,
        None => {
            return Err(ParseError::Incomplete);
        },
    };
    let line = match decode_line(input, 0, end) {
        Ok(line) => line,
        Err(e) => {
            return Err(e);
        },
    };
    let (method, path) = match parse_request_line(line) {
        Ok(pair) => pair,
        Err(e) => {
            return Err(e);
        },
    };
    let (headers, start) = match read_headers(input, end, eof) {
        Ok(found) => found,
        Err(e) => {
            return Err(e);
        },
    };
    let stop: usize = match headers.get("Content-Length") {
        None => start,
        Some(length) => match parse_number(length.as_str()) {
            None => {
                return Err(ParseError::MalformedContentLength);
            },
            Some(n) => {
                if n <= input.len() - start {
                    start + n
                } else if eof {
                    return Err(ParseError::UnexpectedEof);
                } else {
                    return Err(ParseError::Incomplete);
                }
            },
        },
    };
    let body = slice_to_vec(slice_subrange(input, start, stop));
    let parsed = Parsed { request: Request::new(method, path, headers, body), consumed: stop };
    proof {
        lemma_parse_ok(input@, eof);
        lemma_parsed_headers_clean(input@, eof);
    }
    Ok(parsed)
}


} // verus!
