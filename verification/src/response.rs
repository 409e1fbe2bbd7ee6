//! The response value and its serialization to the wire.

use crate::headers::{has_name, lemma_put, lookup, put, Fields, Headers};
use crate::text::{
    contains, decimal, format_decimal, format_signed, lemma_decimal, lemma_number_of_decimal,
    no_line_feed, number, occurs_at, signed_decimal,
};
use crate::utf8::{lemma_encode_concat, lemma_encode_omits};
use vstd::prelude::*;
use vstd::string::*;
use vstd::utf8::*;

verus! {

/// One HTTP message to be sent.
#[derive(Debug, Clone, PartialEq, Eq)]
pub struct Response {
    pub code: i32,
    pub headers: Headers,
    pub content: Vec<u8>,
}

/// The mathematical model of a response.
pub struct ResponseView {
    pub code: int,
    pub headers: Fields,
    pub content: Seq<u8>,
}

impl View for Response {
    type V = ResponseView;

    open spec fn view(&self) -> ResponseView {
        ResponseView { code: self.code as int, headers: self.headers@, content: self.content@ }
    }
}

/// The line terminator, carriage return and line feed.
pub open spec fn crlf() -> Seq<u8> {
    seq![13u8, 10u8]
}

/// The reason phrase that goes with a status code.
pub open spec fn reason(code: int) -> Seq<char> {
    if code == 200 {
        "OK"@
    } else if code == 201 {
        "Created"@
    } else if code == 400 {
        "Bad Request"@
    } else if code == 404 {
        "Not Found"@
    } else {
        "Invalid Reason"@
    }
}

/// The status line of a response, without its terminator.
pub open spec fn status_line(code: int) -> Seq<char> {
    "HTTP/1.1 "@ + signed_decimal(code) + " "@ + reason(code)
}

/// The line of one header field, without its terminator.
pub open spec fn field_line(field: (Seq<char>, Seq<char>)) -> Seq<char> {
    field.0 + ": "@ + field.1
}

/// The lines of a response head: the status line, then one line for each
/// header field in order.
pub open spec fn head_lines(code: int, headers: Fields) -> Seq<Seq<char>> {
    seq![status_line(code)] + headers.map_values(|field: (Seq<char>, Seq<char>)| field_line(field))
}

/// The bytes of some lines, each in UTF-8 and followed by its terminator.
pub open spec fn block(lines: Seq<Seq<char>>) -> Seq<u8>
    decreases lines.len(),
{
    if lines.len() == 0 {
        Seq::empty()
    } else {
        block(lines.drop_last()) + encode_utf8(lines.last()) + crlf()
    }
}

/// The bytes of a response up to and including the empty line that ends the
/// header section.
pub open spec fn head(code: int, headers: Fields) -> Seq<u8> {
    block(head_lines(code, headers)) + crlf()
}

/// The header fields that a new response carries: `Content-Length` tells the
/// length of the body, and `Content-Type` is `text/plain` unless it was given.
pub open spec fn normalized(headers: Fields, length: nat) -> Fields {
    let sized = put(headers, "Content-Length"@, decimal(length));
    if has_name(sized, "Content-Type"@) {
        sized
    } else {
        put(sized, "Content-Type"@, "text/plain"@)
    }
}

/// The response that `Response::new` makes of a status code, header fields
/// and a body.
pub open spec fn response(code: int, headers: Fields, content: Seq<u8>) -> ResponseView {
    ResponseView { code, headers: normalized(headers, content.len()), content }
}

impl ResponseView {
    /// The response as it goes over the wire: head, then body.
    pub open spec fn wire(self) -> Seq<u8> {
        head(self.code, self.headers) + self.content
    }

    /// True when `Content-Length` tells the length of the body.
    pub open spec fn declares_length(self) -> bool {
        lookup(self.headers, "Content-Length"@) == Some(decimal(self.content.len()))
    }

    /// True when a reader finds the body by its length: `Content-Length`
    /// reads as the length of the body, or is not there and the body is
    /// empty.
    pub open spec fn body_matches_length(self) -> bool {
        match lookup(self.headers, "Content-Length"@) {
            Some(length) => number(length) == Some(self.content.len() as usize),
            None => self.content.len() == 0,
        }
    }
}

/// A reader finds the body of a response that tells its length.
pub proof fn lemma_declared_length_matches(response: ResponseView)
    requires
        response.declares_length(),
        response.content.len() <= usize::MAX,
    ensures
        response.body_matches_length(),
{
    lemma_number_of_decimal(response.content.len() as usize);
}

/// The two header names that a new response sets are different names.
pub proof fn lemma_length_is_not_type()
    ensures
        "Content-Length"@ != "Content-Type"@,
{
    reveal_strlit("Content-Length");
    reveal_strlit("Content-Type");
    assert("Content-Length"@.len() != "Content-Type"@.len());
}

/// The fields of a new response tell the length that they were made for.
pub proof fn lemma_normalized(headers: Fields, length: nat)
    requires
        crate::headers::distinct_names(headers),
    ensures
        crate::headers::distinct_names(normalized(headers, length)),
        lookup(normalized(headers, length), "Content-Length"@) == Some(decimal(length)),
        has_name(normalized(headers, length), "Content-Type"@),
        has_name(headers, "Content-Type"@) ==> lookup(normalized(headers, length), "Content-Type"@)
            == lookup(headers, "Content-Type"@),
        !has_name(headers, "Content-Type"@) ==> lookup(
            normalized(headers, length),
            "Content-Type"@,
        ) == Some("text/plain"@),
{
    lemma_length_is_not_type();
    let sized = put(headers, "Content-Length"@, decimal(length));
    lemma_put(headers, "Content-Length"@, decimal(length));
    assert(lookup(sized, "Content-Type"@) == lookup(headers, "Content-Type"@));
    if !has_name(sized, "Content-Type"@) {
        lemma_put(sized, "Content-Type"@, "text/plain"@);
        assert(lookup(normalized(headers, length), "Content-Length"@) == lookup(
            sized,
            "Content-Length"@,
        ));
    }
}

/// True when no header name and no header value holds a line feed.
pub open spec fn plain(headers: Fields) -> bool {
    forall|i: int|
        0 <= i < headers.len() ==> no_line_feed((#[trigger] headers[i]).0) && no_line_feed(
            headers[i].1,
        )
}

/// The empty line together with the terminator of the line before it: what
/// parts the head of a message from its body.
pub open spec fn separator() -> Seq<u8> {
    crlf() + crlf()
}

/// A status line is `HTTP/1.1`, a space, the code in decimal, a space and a
/// reason phrase, and holds no line feed.
pub proof fn lemma_status_line(code: int)
    ensures
        status_line(code).len() > 0,
        no_line_feed(status_line(code)),
        no_line_feed(signed_decimal(code)),
{
    reveal_strlit("HTTP/1.1 ");
    reveal_strlit(" ");
    reveal_strlit("OK");
    reveal_strlit("Created");
    reveal_strlit("Bad Request");
    reveal_strlit("Not Found");
    reveal_strlit("Invalid Reason");
    if code < 0 {
        lemma_decimal((-code) as nat);
    } else {
        lemma_decimal(code as nat);
    }
}

/// The line of a header field without line feeds holds none, and is never
/// empty.
pub proof fn lemma_field_line(field: (Seq<char>, Seq<char>))
    requires
        no_line_feed(field.0),
        no_line_feed(field.1),
    ensures
        field_line(field).len() > 0,
        no_line_feed(field_line(field)),
{
    reveal_strlit(": ");
}

/// The bytes of two rows of lines in a row are the bytes of the one followed
/// by the bytes of the other.
pub proof fn lemma_block_concat(a: Seq<Seq<char>>, b: Seq<Seq<char>>)
    ensures
        block(a + b) == block(a) + block(b),
    decreases b.len(),
{
    if b.len() == 0 {
        assert(a + b =~= a);
        assert(block(a) + block(b) =~= block(a));
    } else {
        assert((a + b).drop_last() =~= a + b.drop_last());
        assert((a + b).last() == b.last());
        lemma_block_concat(a, b.drop_last());
        assert(block(a + b) =~= block(a) + block(b));
    }
}

/// True for a header field whose bytes cannot be taken for the end of the
/// head: neither name nor value holds the separator, the name does not begin
/// with a line terminator, and the value does not end with one.
pub open spec fn tidy_field(field: (Seq<char>, Seq<char>)) -> bool {
    let name = encode_utf8(field.0);
    let value = encode_utf8(field.1);
    &&& !contains(name, separator())
    &&& !contains(value, separator())
    &&& !crlf().is_prefix_of(name)
    &&& !crlf().is_suffix_of(value)
}

/// True when every header field is tidy.
pub open spec fn tidy(headers: Fields) -> bool {
    forall|i: int| 0 <= i < headers.len() ==> tidy_field(#[trigger] headers[i])
}

/// Header fields without line feed are tidy.
pub proof fn lemma_plain_is_tidy(headers: Fields)
    requires
        plain(headers),
    ensures
        tidy(headers),
{
    assert forall|i: int| 0 <= i < headers.len() implies tidy_field(#[trigger] headers[i]) by {
        let name = encode_utf8(headers[i].0);
        let value = encode_utf8(headers[i].1);
        lemma_encode_omits(headers[i].0, '\n');
        lemma_encode_omits(headers[i].1, '\n');
        assert forall|at: int| !occurs_at(name, separator(), at) by {
            if occurs_at(name, separator(), at) {
                assert(name.subrange(at, at + 4)[1] == 10);
            }
        }
        assert forall|at: int| !occurs_at(value, separator(), at) by {
            if occurs_at(value, separator(), at) {
                assert(value.subrange(at, at + 4)[1] == 10);
            }
        }
        if crlf().is_prefix_of(name) {
            assert(name.subrange(0, 2)[1] == 10);
        }
        if crlf().is_suffix_of(value) {
            assert(value.subrange(value.len() - 2, value.len() as int)[1] == 10);
        }
    }
}

/// The bytes of the line of a header field: the bytes of the name, a colon,
/// a space and the bytes of the value.
pub proof fn lemma_field_line_bytes(field: (Seq<char>, Seq<char>))
    ensures
        encode_utf8(field_line(field)) == encode_utf8(field.0) + seq![58u8, 32u8] + encode_utf8(
            field.1,
        ),
{
    reveal_strlit(": ");
    lemma_encode_concat(field.0, ": "@);
    lemma_encode_concat(field.0 + ": "@, field.1);
    is_ascii_chars_encode_utf8(": "@);
    assert(encode_utf8(": "@) =~= seq![58u8, 32u8]);
}

/// Bytes that end in a line terminator, followed by the line of a header
/// field with the given bytes for name and value.
pub open spec fn row(before: Seq<u8>, name: Seq<u8>, value: Seq<u8>) -> Seq<u8> {
    before + name + seq![58u8, 32u8] + value + crlf()
}

/// The separator stays where it stood before the line was added.
proof fn lemma_row_keeps(before: Seq<u8>, name: Seq<u8>, value: Seq<u8>, at: int)
    requires
        occurs_at(before, separator(), at),
    ensures
        occurs_at(row(before, name, value), separator(), at),
{
    assert(row(before, name, value).subrange(at, at + 4) =~= before.subrange(at, at + 4));
}

/// The separator within the name stands in the line.
proof fn lemma_row_of_name(before: Seq<u8>, name: Seq<u8>, value: Seq<u8>, at: int)
    requires
        occurs_at(name, separator(), at),
    ensures
        occurs_at(row(before, name, value), separator(), before.len() + at),
{
    assert(row(before, name, value).subrange(before.len() + at, before.len() + at + 4)
        =~= name.subrange(at, at + 4));
}

/// The separator within the value stands in the line.
proof fn lemma_row_of_value(before: Seq<u8>, name: Seq<u8>, value: Seq<u8>, at: int)
    requires
        occurs_at(value, separator(), at),
    ensures
        occurs_at(row(before, name, value), separator(), before.len() + name.len() + 2 + at),
{
    let from = before.len() + name.len() + 2 + at;
    assert(row(before, name, value).subrange(from, from + 4) =~= value.subrange(at, at + 4));
}

/// A name that begins with a line terminator makes a separator with the
/// line terminator in front of it.
proof fn lemma_row_of_prefix(before: Seq<u8>, name: Seq<u8>, value: Seq<u8>)
    requires
        before.len() >= 2,
        before[before.len() - 2] == 13,
        before[before.len() - 1] == 10,
        crlf().is_prefix_of(name),
    ensures
        occurs_at(row(before, name, value), separator(), before.len() - 2),
{
    let start = name.subrange(0, 2);
    assert(start[0] == 13 && start[1] == 10);
    let from = before.len() - 2;
    assert(row(before, name, value).subrange(from, from + 4) =~= separator());
}

/// A value that ends with a line terminator makes a separator with the line
/// terminator behind it.
proof fn lemma_row_of_suffix(before: Seq<u8>, name: Seq<u8>, value: Seq<u8>)
    requires
        crlf().is_suffix_of(value),
    ensures
        occurs_at(
            row(before, name, value),
            separator(),
            (before.len() + name.len() + value.len()) as int,
        ),
{
    let end = value.subrange(value.len() - 2, value.len() as int);
    assert(end[0] == 13 && end[1] == 10);
    let from = (before.len() + name.len() + value.len()) as int;
    assert(row(before, name, value).subrange(from, from + 4) =~= separator());
}

/// Where a separator in the line can come from.
proof fn lemma_row_source(before: Seq<u8>, name: Seq<u8>, value: Seq<u8>, at: int)
    requires
        before.len() >= 2,
        before[before.len() - 2] == 13,
        before[before.len() - 1] == 10,
        occurs_at(row(before, name, value), separator(), at),
    ensures
        ({
            ||| contains(before, separator())
            ||| contains(name, separator())
            ||| contains(value, separator())
            ||| crlf().is_prefix_of(name)
            ||| crlf().is_suffix_of(value)
        }),
{
    let all = row(before, name, value);
    let at_name = before.len() as int;
    let at_colon = at_name + name.len();
    let at_value = at_colon + 2;
    let at_end = at_value + value.len();
    let found = all.subrange(at, at + 4);
    assert(found[0] == 13 && found[1] == 10 && found[2] == 13 && found[3] == 10);
    assert(all[at] == found[0] && all[at + 1] == found[1] && all[at + 2] == found[2] && all[at
        + 3] == found[3]);
    if at + 4 <= at_name {
        assert(before.subrange(at, at + 4) =~= found);
        assert(occurs_at(before, separator(), at));
    } else if at < at_name {
        assert(all[at_name - 2] == 13 && all[at_name - 1] == 10);
        assert(at == at_name - 2);
        assert(all[at_colon] == 58);
        assert(name.len() >= 2);
        assert(all[at_name] == name[0] && all[at_name + 1] == name[1]);
        assert(name.subrange(0, 2) =~= crlf());
    } else if at + 4 <= at_colon {
        assert(name.subrange(at - at_name, at - at_name + 4) =~= found);
        assert(occurs_at(name, separator(), at - at_name));
    } else if at < at_value {
        assert(all[at_colon] == 58 && all[at_colon + 1] == 32);
    } else if at + 4 <= at_end {
        assert(value.subrange(at - at_value, at - at_value + 4) =~= found);
        assert(occurs_at(value, separator(), at - at_value));
    } else {
        assert(all[at_end] == 13 && all[at_end + 1] == 10);
        assert(at == at_end - 2);
        assert(all[at] == value[value.len() - 2] && all[at + 1] == value[value.len() - 1]);
        assert(value.subrange(value.len() - 2, value.len() as int) =~= crlf());
    }
}

/// Where the separator can stand once the line of a header field is added to
/// bytes that end in a line terminator: where it stood in those bytes, within
/// the name or the value, across the old end and a name that begins with a
/// line terminator, or across a value that ends with one and the new end.
proof fn lemma_row_separators(before: Seq<u8>, name: Seq<u8>, value: Seq<u8>)
    requires
        before.len() >= 2,
        before[before.len() - 2] == 13,
        before[before.len() - 1] == 10,
    ensures
        contains(row(before, name, value), separator()) <==> {
            ||| contains(before, separator())
            ||| contains(name, separator())
            ||| contains(value, separator())
            ||| crlf().is_prefix_of(name)
            ||| crlf().is_suffix_of(value)
        },
{
    if contains(before, separator()) {
        lemma_row_keeps(before, name, value, choose|at: int| occurs_at(before, separator(), at));
    }
    if contains(name, separator()) {
        lemma_row_of_name(before, name, value, choose|at: int| occurs_at(name, separator(), at));
    }
    if contains(value, separator()) {
        lemma_row_of_value(
            before,
            name,
            value,
            choose|at: int| occurs_at(value, separator(), at),
        );
    }
    if crlf().is_prefix_of(name) {
        lemma_row_of_prefix(before, name, value);
    }
    if crlf().is_suffix_of(value) {
        lemma_row_of_suffix(before, name, value);
    }
    if contains(row(before, name, value), separator()) {
        lemma_row_source(
            before,
            name,
            value,
            choose|at: int| occurs_at(row(before, name, value), separator(), at),
        );
    }
}

/// The bytes of the lines of a head end in a line terminator, and hold the
/// separator if and only if some header field is not tidy.
pub proof fn lemma_separator_in_lines(code: int, headers: Fields)
    ensures
        block(head_lines(code, headers)).len() >= 3,
        block(head_lines(code, headers))[block(head_lines(code, headers)).len() - 2] == 13,
        block(head_lines(code, headers))[block(head_lines(code, headers)).len() - 1] == 10,
        contains(block(head_lines(code, headers)), separator()) <==> !tidy(headers),
    decreases headers.len(),
{
    let lines = head_lines(code, headers);
    let rows = block(lines);
    assert(separator() =~= seq![13u8, 10u8, 13u8, 10u8]);
    if headers.len() == 0 {
        let status = encode_utf8(status_line(code));
        lemma_status_line(code);
        lemma_encode_omits(status_line(code), '\n');
        assert(lines =~= seq![status_line(code)]);
        assert(lines.drop_last() =~= Seq::<Seq<char>>::empty());
        assert(block(lines.drop_last()) =~= Seq::<u8>::empty());
        assert(rows =~= status + crlf());
        assert forall|at: int| !occurs_at(rows, separator(), at) by {
            if occurs_at(rows, separator(), at) {
                assert(rows.subrange(at, at + 4)[1] == 10);
                assert(rows[at + 1] == status[at + 1]);
            }
        }
    } else {
        let rest = headers.drop_last();
        let field = headers.last();
        let before = block(head_lines(code, rest));
        lemma_separator_in_lines(code, rest);
        lemma_field_line_bytes(field);
        assert(lines.drop_last() =~= head_lines(code, rest));
        assert(lines.last() == field_line(field));
        assert(rows =~= row(before, encode_utf8(field.0), encode_utf8(field.1)));
        lemma_row_separators(before, encode_utf8(field.0), encode_utf8(field.1));
        if tidy(headers) {
            assert forall|i: int| 0 <= i < rest.len() implies tidy_field(#[trigger] rest[i]) by {
                assert(rest[i] == headers[i]);
            }
            assert(tidy_field(headers[headers.len() - 1]));
        }
        if tidy(rest) && tidy_field(field) {
            assert forall|i: int| 0 <= i < headers.len() implies tidy_field(
                #[trigger] headers[i],
            ) by {
                if i < rest.len() {
                    assert(headers[i] == rest[i]);
                }
            }
        }
    }
}

/// The head of a response ends in the separator, and holds it nowhere else
/// if and only if its header fields are tidy.
pub proof fn lemma_one_separator(code: int, headers: Fields)
    ensures
        head(code, headers).len() >= 5,
        occurs_at(head(code, headers), separator(), head(code, headers).len() - 4),
        tidy(headers) <==> forall|at: int|
            occurs_at(head(code, headers), separator(), at) ==> at == head(code, headers).len()
                - 4,
{
    let rows = block(head_lines(code, headers));
    let head = head(code, headers);
    let end = head.len() - 4;
    lemma_separator_in_lines(code, headers);
    assert(separator() =~= seq![13u8, 10u8, 13u8, 10u8]);
    assert(head =~= rows + crlf());
    assert(head.subrange(end, end + 4) =~= separator());
    if tidy(headers) {
        assert forall|at: int| occurs_at(head, separator(), at) implies at == end by {
            let found = head.subrange(at, at + 4);
            assert(found[1] == 10 && found[3] == 10);
            if at + 4 <= rows.len() {
                assert(rows.subrange(at, at + 4) =~= found);
                assert(occurs_at(rows, separator(), at));
            } else if at + 3 == rows.len() {
                assert(head[at + 1] == 13);
            }
        }
    } else {
        let at = choose|at: int| occurs_at(rows, separator(), at);
        assert(head.subrange(at, at + 4) =~= rows.subrange(at, at + 4));
        assert(occurs_at(head, separator(), at));
        assert(at != end);
    }
}

/// The layout of a response on the wire, for tidy header fields. The head
/// ends in the separator, and that is the only place in the head, and the
/// first in the whole message, where the separator occurs. The bytes behind
/// it are the body, and a response that tells its length tells the number
/// of those bytes.
pub proof fn lemma_wire_layout(response: ResponseView)
    requires
        tidy(response.headers),
    ensures
        ({
            let wire = response.wire();
            let head = head(response.code, response.headers);
            &&& head.len() >= 4
            &&& wire.len() == head.len() + response.content.len()
            &&& occurs_at(head, separator(), head.len() - 4)
            &&& forall|at: int| occurs_at(head, separator(), at) ==> at == head.len() - 4
            &&& occurs_at(wire, separator(), head.len() - 4)
            &&& forall|at: int| occurs_at(wire, separator(), at) ==> at >= head.len() - 4
            &&& wire.skip(head.len() as int) == response.content
            &&& response.declares_length() ==> lookup(response.headers, "Content-Length"@)
                == Some(decimal((wire.len() - head.len()) as nat))
        }),
{
    let wire = response.wire();
    let head = head(response.code, response.headers);
    let end = head.len() - 4;
    lemma_one_separator(response.code, response.headers);
    assert(wire.subrange(end, end + 4) =~= head.subrange(end, end + 4));
    assert forall|at: int| occurs_at(wire, separator(), at) implies at >= end by {
        if at < end {
            assert(wire.subrange(at, at + 4) =~= head.subrange(at, at + 4));
            assert(occurs_at(head, separator(), at));
        }
    }
    assert(wire.skip(head.len() as int) =~= response.content);
}

/// Appends `bytes` to `out`.
pub fn append_bytes(out: &mut Vec<u8>, bytes: &[u8])
    ensures
        final(out)@ == old(out)@ + bytes@,
{
    let mut i: usize = 0;
    while i < bytes.len()
        invariant
            i <= bytes.len(),
            out@ == old(out)@ + bytes@.take(i as int),
        decreases bytes.len() - i,
    {
        out.push(bytes[i]);
        i += 1;
    }
}

/// Appends the UTF-8 bytes of `line` and a line terminator to `out`.
fn append_line(out: &mut Vec<u8>, line: &str)
    ensures
        final(out)@ == old(out)@ + encode_utf8(line@) + crlf(),
{
    append_bytes(out, line.as_bytes());
    out.push(13);
    out.push(10);
}

impl Response {
    /// A response with the given status, header fields and body. Its
    /// `Content-Length` is set to the length of the body, and its
    /// `Content-Type` to `text/plain` unless `headers` already names one.
    pub fn new(code: i32, headers: Headers, content: Vec<u8>) -> (response: Response)
        ensures
            response@ == self::response(code as int, headers@, content@),
            response@.declares_length(),
    {
        let mut headers = headers;
        proof {
            use_type_invariant(&headers);
            lemma_normalized(headers@, content@.len());
        }
        headers.insert("Content-Length".to_owned(), format_decimal(content.len()));
        if !headers.contains_key("Content-Type") {
            headers.insert("Content-Type".to_owned(), "text/plain".to_owned());
        }
        Response { code, headers, content }
    }

    /// The reason phrase of this response's status code.
    pub fn get_reason(&self) -> (phrase: String)
        ensures
            phrase@ == reason(self.code as int),
    {
        let phrase = if self.code == 200 {
            "OK"
        } else if self.code == 201 {
            "Created"
        } else if self.code == 400 {
            "Bad Request"
        } else if self.code == 404 {
            "Not Found"
        } else {
            "Invalid Reason"
        };
        phrase.to_owned()
    }

    /// The bytes of this response as they go over the wire: the status line,
    /// one line for each header field in order, an empty line, and the body.
    pub fn format(&self) -> (bytes: Vec<u8>)
        ensures
            bytes@ == self@.wire(),
    {
        let mut line = "HTTP/1.1 ".to_owned();
        line.append(format_signed(self.code).as_str());
        line.append(" ");
        line.append(self.get_reason().as_str());
        let mut bytes: Vec<u8> = Vec::new();
        append_line(&mut bytes, line.as_str());
        let ghost lines = head_lines(self.code as int, self.headers@);
        proof {
            let first = lines.take(1);
            assert(block(first.drop_last()) =~= Seq::<u8>::empty());
        }
        let count = self.headers.len();
        let mut i: usize = 0;
        while i < count
            invariant
                i <= count,
                count == self.headers@.len(),
                lines == head_lines(self.code as int, self.headers@),
                bytes@ == block(lines.take(i + 1)),
            decreases count - i,
        {
            match self.headers.entry(i) {
                Some((name, value)) => {
                    let mut line = name.clone();
                    line.append(": ");
                    line.append(value.as_str());
                    append_line(&mut bytes, line.as_str());
                    proof {
                        assert(lines.take(i + 2).drop_last() =~= lines.take(i + 1));
                    }
                },
                None => {},
            }
            i += 1;
        }
        assert(lines.take(count + 1) =~= lines);
        bytes.push(13);
        bytes.push(10);
        append_bytes(&mut bytes, self.content.as_slice());
        bytes
    }
}

} // verus!
