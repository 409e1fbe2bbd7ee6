//! What the parser makes of a formatted response: the two agree on lines,
//! header fields and body.

use crate::headers::{clean, clean_field, distinct_names, named, put, Fields};
use crate::request::{
    body_end, header_block, header_line, lemma_parse_ok, lemma_parsed_headers_clean, line_end,
    parse, request_line, HeaderLine, ParseError, ParsedView, RequestView,
};
use crate::response::{
    block, crlf, field_line, head, head_lines, lemma_block_concat, lemma_status_line,
    status_line, ResponseView,
};
use crate::text::{
    equal_to, is_whitespace, lemma_decimal, lemma_scan_is, lemma_trimmed_fixed,
    lemma_trimmed_padded, no_line_feed, non_space, signed_decimal, space, trimmed,
};
use crate::utf8::{lemma_encode_concat, lemma_encode_omits};
use vstd::prelude::*;
use vstd::utf8::*;

verus! {

/// The line terminator as text.
pub open spec fn line_break() -> Seq<char> {
    seq!['\r', '\n']
}

/// The line terminator is the encoding of carriage return and line feed.
proof fn lemma_line_break()
    ensures
        encode_utf8(line_break()) == crlf(),
{
    is_ascii_chars_encode_utf8(line_break());
    assert(encode_utf8(line_break()) =~= crlf());
}

/// Where the bytes of `text` and a line terminator stand at `from`, and
/// `text` holds no line feed, they are one line: it ends behind them, and
/// decodes to `text` and the terminator.
proof fn lemma_line_at(input: Seq<u8>, from: int, eof: bool, text: Seq<char>)
    requires
        0 <= from,
        from + encode_utf8(text).len() + 2 <= input.len(),
        input.subrange(from, from + encode_utf8(text).len() + 2) == encode_utf8(text) + crlf(),
        no_line_feed(text),
    ensures
        line_end(input, from, eof) == Some(from + encode_utf8(text).len() + 2),
        valid_utf8(input.subrange(from, from + encode_utf8(text).len() + 2)),
        decode_utf8(input.subrange(from, from + encode_utf8(text).len() + 2)) == text
            + line_break(),
{
    let bytes = encode_utf8(text);
    let end = from + bytes.len() + 2;
    let line = input.subrange(from, end);
    lemma_encode_omits(text, '\n');
    assert forall|i: int| from <= i < end - 1 implies !equal_to(10u8)(#[trigger] input[i]) by {
        assert(input[i] == line[i - from]);
        if i - from < bytes.len() {
            assert(line[i - from] == bytes[i - from]);
        } else {
            assert(line[i - from] == 13);
        }
    }
    assert(input[end - 1] == line[end - 1 - from]);
    assert(line[end - 1 - from] == 10);
    lemma_scan_is(input, from, equal_to(10u8), end - 1);
    lemma_line_break();
    lemma_encode_concat(text, line_break());
    encode_utf8_valid_utf8(text + line_break());
    encode_utf8_decode_utf8(text + line_break());
}

/// The request line that the parser reads off a status line: the protocol
/// version as method, and the status code as request target.
proof fn lemma_request_line_of_status(code: int)
    ensures
        request_line(status_line(code) + line_break()) == Ok::<_, ParseError>(
            ("HTTP/1.1"@, signed_decimal(code)),
        ),
{
    reveal_strlit("HTTP/1.1 ");
    reveal_strlit("HTTP/1.1");
    reveal_strlit(" ");
    let number = signed_decimal(code);
    let line = status_line(code) + line_break();
    if code < 0 {
        lemma_decimal((-code) as nat);
    } else {
        lemma_decimal(code as nat);
    }
    assert(number.len() > 0);
    assert forall|i: int| 0 <= i < number.len() implies !is_whitespace(#[trigger] number[i]) by {
        if code < 0 {
            if i > 0 {
                assert(number[i] == crate::text::decimal((-code) as nat)[i - 1]);
            }
        }
    }
    let until = 9 + number.len() as int;
    assert forall|i: int| 0 <= i < until + 1 implies #[trigger] line[i] == (if i < 9 {
        "HTTP/1.1 "@[i]
    } else if i < until {
        number[i - 9]
    } else {
        ' '
    }) by {}
    assert(!is_whitespace(line[0]));
    lemma_scan_is(line, 0, non_space(), 0);
    assert forall|i: int| 0 <= i < 8 implies !space()(#[trigger] line[i]) by {}
    assert(is_whitespace(line[8]));
    lemma_scan_is(line, 0, space(), 8);
    assert forall|i: int| 8 <= i < 9 implies !non_space()(#[trigger] line[i]) by {}
    assert(line[9] == number[0]);
    lemma_scan_is(line, 8, non_space(), 9);
    assert forall|i: int| 9 <= i < until implies !space()(#[trigger] line[i]) by {
        assert(line[i] == number[i - 9]);
    }
    assert(is_whitespace(line[until]));
    lemma_scan_is(line, 9, space(), until);
    assert(line.subrange(0, 8) =~= "HTTP/1.1"@);
    assert(line.subrange(9, until) =~= number);
}

/// The line of a clean header field reads back as that field.
proof fn lemma_header_line_of_field(field: (Seq<char>, Seq<char>))
    requires
        clean_field(field),
    ensures
        header_line(field_line(field) + line_break()) == HeaderLine::Field(field.0, field.1),
{
    reveal_strlit(": ");
    let name = field.0;
    let value = field.1;
    let line = field_line(field) + line_break();
    let content = if value.len() > 0 {
        name + seq![':', ' '] + value
    } else {
        name + seq![':']
    };
    let padding = if value.len() > 0 {
        line_break()
    } else {
        seq![' '] + line_break()
    };
    assert(content.first() == (if name.len() > 0 {
        name.first()
    } else {
        ':'
    }));
    assert(content.last() == (if value.len() > 0 {
        value.last()
    } else {
        ':'
    }));
    assert(line =~= Seq::<char>::empty() + content + padding);
    lemma_trimmed_padded(Seq::empty(), content, padding);
    assert(trimmed(line) == content);
    let colon = name.len() as int;
    assert forall|i: int| 0 <= i < colon implies !equal_to(':')(#[trigger] content[i]) by {
        assert(content[i] == name[i]);
    }
    assert(content[colon] == ':');
    lemma_scan_is(content, 0, equal_to(':'), colon);
    assert(content.take(colon) =~= name);
    lemma_trimmed_fixed(name);
    if value.len() > 0 {
        assert(content.skip(colon + 1) =~= seq![' '] + value + Seq::<char>::empty());
        lemma_trimmed_padded(seq![' '], value, Seq::empty());
    } else {
        assert(content.skip(colon + 1) =~= value);
        lemma_trimmed_fixed(value);
    }
}

/// The empty line ends the header section.
proof fn lemma_header_line_of_end()
    ensures
        header_line(line_break()) is End,
{
    assert(line_break() =~= line_break() + Seq::<char>::empty() + Seq::<char>::empty());
    lemma_trimmed_padded(line_break(), Seq::empty(), Seq::empty());
}

/// The lines of some header fields.
pub open spec fn field_lines(fields: Fields) -> Seq<Seq<char>> {
    fields.map_values(|field: (Seq<char>, Seq<char>)| field_line(field))
}

/// Where the lines of clean fields with new names and then an empty line
/// stand at `from`, the parser reads exactly those fields, on top of the
/// ones it has, and stops behind the empty line.
proof fn lemma_header_block_of_fields(
    input: Seq<u8>,
    from: int,
    eof: bool,
    done: Fields,
    rest: Fields,
)
    requires
        0 <= from,
        from + block(field_lines(rest)).len() + 2 <= input.len(),
        input.subrange(from, from + block(field_lines(rest)).len() + 2) == block(
            field_lines(rest),
        ) + crlf(),
        clean(rest),
        distinct_names(done + rest),
    ensures
        header_block(input, from, eof, done) == Ok::<_, ParseError>(
            (done + rest, from + block(field_lines(rest)).len() + 2),
        ),
    decreases rest.len(),
{
    let rows = block(field_lines(rest)) + crlf();
    let given = input.subrange(from, from + rows.len());
    if rest.len() == 0 {
        assert(block(field_lines(rest)) =~= Seq::<u8>::empty());
        assert(encode_utf8(Seq::<char>::empty()) =~= Seq::<u8>::empty());
        assert(given =~= encode_utf8(Seq::<char>::empty()) + crlf());
        lemma_line_at(input, from, eof, Seq::empty());
        assert(Seq::<char>::empty() + line_break() =~= line_break());
        lemma_header_line_of_end();
        assert(done + rest =~= done);
    } else {
        let field = rest[0];
        let others = rest.drop_first();
        let text = field_line(field);
        let bytes = encode_utf8(text);
        let end = from + bytes.len() + 2;
        assert(clean_field(field));
        assert(field_lines(rest) =~= seq![text] + field_lines(others));
        lemma_block_concat(seq![text], field_lines(others));
        assert(block(seq![text]) =~= bytes + crlf()) by {
            assert(seq![text].drop_last() =~= Seq::<Seq<char>>::empty());
            assert(block(seq![text].drop_last()) =~= Seq::<u8>::empty());
        }
        assert(rows =~= bytes + crlf() + (block(field_lines(others)) + crlf()));
        assert(input.subrange(from, end) =~= bytes + crlf()) by {
            assert forall|i: int| 0 <= i < bytes.len() + 2 implies input.subrange(from, end)[i]
                == (bytes + crlf())[i] by {
                assert(input.subrange(from, end)[i] == given[i]);
            }
        }
        crate::response::lemma_field_line(field);
        lemma_line_at(input, from, eof, text);
        lemma_header_line_of_field(field);
        assert forall|i: int| 0 <= i < done.len() implies !named(field.0)(#[trigger] done[i]) by {
            assert((done + rest)[i] == done[i]);
            assert((done + rest)[done.len() as int] == field);
        }
        lemma_scan_is(done, 0, named(field.0), done.len() as int);
        assert(put(done, field.0, field.1) == done.push(field));
        assert(done.push(field) + others =~= done + rest);
        assert(input.subrange(end, end + block(field_lines(others)).len() + 2) =~= block(
            field_lines(others),
        ) + crlf()) by {
            assert forall|i: int| 0 <= i < block(field_lines(others)).len() + 2 implies (
            #[trigger] input.subrange(end, end + block(field_lines(others)).len() + 2)[i]) == (
            block(field_lines(others)) + crlf())[i] by {
                assert(input[end + i] == given[bytes.len() + 2 + i]);
            }
        }
        assert forall|i: int| 0 <= i < others.len() implies clean_field(#[trigger] others[i]) by {
            assert(others[i] == rest[i + 1]);
        }
        lemma_header_block_of_fields(input, end, eof, done.push(field), others);
    }
}

/// What the request parser is to make of the bytes of a response, if it is
/// to read them back as they were written: a request with the protocol
/// version as method, the status code in decimal as request target, and
/// header fields and body as in the response, in all of the bytes.
pub open spec fn read_back(response: ResponseView) -> ParsedView {
    ParsedView {
        request: RequestView {
            method: "HTTP/1.1"@,
            path: signed_decimal(response.code),
            headers: response.headers,
            body: response.content,
        },
        consumed: response.wire().len() as int,
    }
}

/// The parser reads a formatted response with clean header fields back as
/// it was written, where the body is found by its length.
proof fn lemma_reads_back(response: ResponseView, eof: bool)
    requires
        distinct_names(response.headers),
        clean(response.headers),
        response.body_matches_length(),
        response.content.len() <= usize::MAX,
    ensures
        parse(response.wire(), eof) == Ok::<_, ParseError>(read_back(response)),
{
    let wire = response.wire();
    let status = status_line(response.code);
    let first = encode_utf8(status);
    let fields = response.headers;
    let rows = block(field_lines(fields));
    let start = first.len() as int + 2;
    let stop = start + rows.len() as int + 2;
    assert(head_lines(response.code, fields) =~= seq![status] + field_lines(fields));
    lemma_block_concat(seq![status], field_lines(fields));
    assert(block(seq![status]) =~= first + crlf()) by {
        assert(seq![status].drop_last() =~= Seq::<Seq<char>>::empty());
        assert(block(seq![status].drop_last()) =~= Seq::<u8>::empty());
    }
    assert(head(response.code, fields) =~= first + crlf() + rows + crlf());
    assert(wire =~= first + crlf() + rows + crlf() + response.content);
    lemma_status_line(response.code);
    assert(wire.subrange(0, start) =~= first + crlf());
    lemma_line_at(wire, 0, eof, status);
    lemma_request_line_of_status(response.code);
    assert(wire.subrange(start, stop) =~= rows + crlf());
    assert(Fields::empty() + fields =~= fields);
    lemma_header_block_of_fields(wire, start, eof, Fields::empty(), fields);
    assert(body_end(wire, stop, eof, fields) == Ok::<_, ParseError>(wire.len() as int));
    assert(wire.subrange(stop, wire.len() as int) =~= response.content);
}

/// Parsing what was formatted gives back what was there, for exactly the
/// responses that a parser can give back. The request parser reads the bytes
/// of a response back as they were written if and only if the header fields
/// of the response are clean and its body is found by its length.
pub proof fn lemma_round_trip(response: ResponseView, eof: bool)
    requires
        distinct_names(response.headers),
        response.content.len() <= usize::MAX,
    ensures
        parse(response.wire(), eof) == Ok::<_, ParseError>(read_back(response)) <==> clean(
            response.headers,
        ) && response.body_matches_length(),
{
    if clean(response.headers) && response.body_matches_length() {
        lemma_reads_back(response, eof);
    }
    if parse(response.wire(), eof) == Ok::<_, ParseError>(read_back(response)) {
        lemma_parsed_headers_clean(response.wire(), eof);
        lemma_parse_ok(response.wire(), eof);
    }
}

} // verus!
