use http_server::headers::Headers;
use http_server::request::{
    parse_header_line, parse_request, parse_request_line, HeaderLine, ParseError, Request,
};
use http_server::response::Response;

fn value<'a>(headers: &'a Headers, name: &str) -> Option<&'a str> {
    headers.get(name).map(|v| v.as_str())
}

#[test]
fn request_new_keeps_its_parts() {
    let mut headers = Headers::new();
    headers.insert("Host".to_string(), "x".to_string());
    let request =
        Request::new("POST".to_string(), "/files/a".to_string(), headers.clone(), b"hi".to_vec());
    assert_eq!(request.method, "POST");
    assert_eq!(request.path, "/files/a");
    assert_eq!(request.headers, headers);
    assert_eq!(request.body, b"hi".to_vec());
}

#[test]
fn parses_a_get_without_body() {
    let input = b"GET / HTTP/1.1\r\nHost: x\r\n\r\n";
    let parsed = parse_request(input, false).unwrap();
    assert_eq!(parsed.request.method, "GET");
    assert_eq!(parsed.request.path, "/");
    assert_eq!(parsed.request.headers.len(), 1);
    assert_eq!(value(&parsed.request.headers, "Host"), Some("x"));
    assert!(parsed.request.body.is_empty());
    assert_eq!(parsed.consumed, input.len());
}

#[test]
fn parses_a_request_without_headers() {
    let parsed = parse_request(b"GET /echo/abc HTTP/1.1\r\n\r\n", false).unwrap();
    assert_eq!(parsed.request.method, "GET");
    assert_eq!(parsed.request.path, "/echo/abc");
    assert_eq!(parsed.request.headers.len(), 0);
    assert_eq!(parsed.consumed, 26);
}

#[test]
fn parses_a_body_of_the_declared_length() {
    let input = b"POST /files/hello HTTP/1.1\r\nContent-Length: 5\r\n\r\nworld!";
    let parsed = parse_request(input, false).unwrap();
    assert_eq!(parsed.request.method, "POST");
    assert_eq!(parsed.request.path, "/files/hello");
    assert_eq!(value(&parsed.request.headers, "Content-Length"), Some("5"));
    assert_eq!(parsed.request.body, b"world".to_vec());
    assert_eq!(parsed.consumed, input.len() - 1);
}

#[test]
fn content_length_equals_body_length_after_parsing() {
    for n in [0usize, 1, 5, 300] {
        let mut input = format!("PUT /x HTTP/1.1\r\nContent-Length: {}\r\n\r\n", n).into_bytes();
        input.extend(std::iter::repeat(b'z').take(n + 3));
        let parsed = parse_request(&input, true).unwrap();
        let declared = value(&parsed.request.headers, "Content-Length").unwrap();
        assert_eq!(declared.parse::<usize>().unwrap(), parsed.request.body.len());
        assert_eq!(parsed.request.body.len(), n);
        assert_eq!(parsed.consumed, input.len() - 3);
    }
}

#[test]
fn body_may_hold_any_bytes() {
    let mut input = b"POST /f HTTP/1.1\r\nContent-Length: 4\r\n\r\n".to_vec();
    input.extend_from_slice(&[0xff, 0x00, b'\n', 0x80]);
    let parsed = parse_request(&input, false).unwrap();
    assert_eq!(parsed.request.body, vec![0xff, 0x00, b'\n', 0x80]);
}

#[test]
fn version_is_read_and_ignored() {
    let parsed = parse_request(b"GET /a\r\n\r\n", false).unwrap();
    assert_eq!(parsed.request.method, "GET");
    assert_eq!(parsed.request.path, "/a");
    let parsed = parse_request(b"GET /a anything at all\r\n\r\n", false).unwrap();
    assert_eq!(parsed.request.path, "/a");
}

#[test]
fn header_names_and_values_are_trimmed() {
    let input = b"GET / HTTP/1.1\r\n  Host :   example.org  \r\nX:y\r\nEmpty:\r\n\r\n";
    let parsed = parse_request(input, false).unwrap();
    assert_eq!(value(&parsed.request.headers, "Host"), Some("example.org"));
    assert_eq!(value(&parsed.request.headers, "X"), Some("y"));
    assert_eq!(value(&parsed.request.headers, "Empty"), Some(""));
    assert_eq!(parsed.request.headers.len(), 3);
}

#[test]
fn first_colon_parts_name_from_value() {
    let parsed = parse_request(b"GET / HTTP/1.1\r\nHost: localhost:4221\r\n\r\n", false).unwrap();
    assert_eq!(value(&parsed.request.headers, "Host"), Some("localhost:4221"));
}

#[test]
fn later_header_overwrites_earlier() {
    let input = b"GET / HTTP/1.1\r\nA: 1\r\nB: 2\r\nA: 3\r\n\r\n";
    let parsed = parse_request(input, false).unwrap();
    assert_eq!(parsed.request.headers.len(), 2);
    assert_eq!(value(&parsed.request.headers, "A"), Some("3"));
    assert_eq!(value(&parsed.request.headers, "B"), Some("2"));
}

#[test]
fn lines_may_end_in_a_bare_line_feed() {
    let parsed = parse_request(b"GET /x HTTP/1.1\nHost: y\n\n", false).unwrap();
    assert_eq!(parsed.request.path, "/x");
    assert_eq!(value(&parsed.request.headers, "Host"), Some("y"));
}

#[test]
fn unicode_white_space_parts_and_trims() {
    let input = "GET\u{a0}/caf\u{e9}\u{2003}HTTP/1.1\r\nX:\u{3000}v\u{85}\r\n\r\n".as_bytes();
    let parsed = parse_request(input, false).unwrap();
    assert_eq!(parsed.request.method, "GET");
    assert_eq!(parsed.request.path, "/caf\u{e9}");
    assert_eq!(value(&parsed.request.headers, "X"), Some("v"));
}

#[test]
fn end_of_input_ends_the_header_section() {
    let parsed = parse_request(b"GET / HTTP/1.1\r\nHost: x\r\n", true).unwrap();
    assert_eq!(value(&parsed.request.headers, "Host"), Some("x"));
    assert_eq!(parsed.consumed, 25);
    let parsed = parse_request(b"GET / HTTP/1.1", true).unwrap();
    assert_eq!(parsed.request.path, "/");
    assert_eq!(parsed.consumed, 14);
    let parsed = parse_request(b"GET / HTTP/1.1\r\nHost: x", true).unwrap();
    assert_eq!(value(&parsed.request.headers, "Host"), Some("x"));
}

#[test]
fn empty_input_of_a_closed_peer_is_closed() {
    assert_eq!(parse_request(b"", true), Err(ParseError::Closed));
}

#[test]
fn unfinished_input_is_incomplete() {
    assert_eq!(parse_request(b"", false), Err(ParseError::Incomplete));
    assert_eq!(parse_request(b"GET / HT", false), Err(ParseError::Incomplete));
    assert_eq!(parse_request(b"GET / HTTP/1.1\r\n", false), Err(ParseError::Incomplete));
    assert_eq!(parse_request(b"GET / HTTP/1.1\r\nHost: x", false), Err(ParseError::Incomplete));
    assert_eq!(parse_request(b"GET / HTTP/1.1\r\nHost: x\r\n", false), Err(ParseError::Incomplete));
    let short = b"POST /f HTTP/1.1\r\nContent-Length: 5\r\n\r\nwor";
    assert_eq!(parse_request(short, false), Err(ParseError::Incomplete));
}

#[test]
fn short_body_of_a_closed_peer_is_unexpected_eof() {
    let short = b"POST /f HTTP/1.1\r\nContent-Length: 5\r\n\r\nwor";
    assert_eq!(parse_request(short, true), Err(ParseError::UnexpectedEof));
    let huge = b"POST /f HTTP/1.1\r\nContent-Length: 18446744073709551615\r\n\r\n";
    if usize::MAX as u128 == 18446744073709551615u128 {
        assert_eq!(parse_request(huge, true), Err(ParseError::UnexpectedEof));
    }
}

#[test]
fn invalid_utf8_in_a_line_is_invalid_encoding() {
    assert_eq!(parse_request(b"GET /\xff HTTP/1.1\r\n\r\n", false), Err(ParseError::InvalidEncoding));
    assert_eq!(
        parse_request(b"GET / HTTP/1.1\r\nX: \xc3\r\n\r\n", false),
        Err(ParseError::InvalidEncoding)
    );
}

#[test]
fn blank_request_line_misses_the_method() {
    assert_eq!(parse_request(b"\r\n", false), Err(ParseError::MissingMethod));
    assert_eq!(parse_request(b"   \r\nHost: x\r\n\r\n", false), Err(ParseError::MissingMethod));
    assert_eq!(parse_request(b"\n", true), Err(ParseError::MissingMethod));
}

#[test]
fn request_line_of_one_word_misses_the_path() {
    assert_eq!(parse_request(b"GET\r\n\r\n", false), Err(ParseError::MissingPath));
    assert_eq!(parse_request(b"  GET  \r\n\r\n", false), Err(ParseError::MissingPath));
}

#[test]
fn header_line_without_colon_is_malformed() {
    assert_eq!(
        parse_request(b"GET / HTTP/1.1\r\nHost x\r\n\r\n", false),
        Err(ParseError::MalformedHeader)
    );
}

#[test]
fn content_length_that_is_no_number_is_malformed() {
    for bad in ["abc", "-1", "", "1.5", "5 bytes", "99999999999999999999999999"] {
        let input = format!("POST /f HTTP/1.1\r\nContent-Length: {}\r\n\r\nhello", bad);
        assert_eq!(
            parse_request(input.as_bytes(), true),
            Err(ParseError::MalformedContentLength),
            "{:?}",
            bad
        );
    }
}

#[test]
fn request_line_errors_come_before_header_errors() {
    assert_eq!(parse_request(b"GET\r\nbad line\r\n\r\n", false), Err(ParseError::MissingPath));
    assert_eq!(parse_request(b"\r\nbad line", false), Err(ParseError::MissingMethod));
}

#[test]
fn parse_request_line_gives_method_and_target() {
    assert_eq!(
        parse_request_line("GET /index.html HTTP/1.1\r\n"),
        Ok(("GET".to_string(), "/index.html".to_string()))
    );
    assert_eq!(parse_request_line(""), Err(ParseError::Closed));
    assert_eq!(parse_request_line(" \t"), Err(ParseError::MissingMethod));
    assert_eq!(parse_request_line("GET"), Err(ParseError::MissingPath));
}

#[test]
fn parse_header_line_tells_field_end_and_malformed() {
    assert_eq!(
        parse_header_line("Accept-Encoding: gzip, deflate\r\n"),
        HeaderLine::Field("Accept-Encoding".to_string(), "gzip, deflate".to_string())
    );
    assert_eq!(parse_header_line(":"), HeaderLine::Field(String::new(), String::new()));
    assert_eq!(parse_header_line("\r\n"), HeaderLine::End);
    assert_eq!(parse_header_line(""), HeaderLine::End);
    assert_eq!(parse_header_line("no colon"), HeaderLine::Malformed);
}

#[test]
fn parsing_a_formatted_response_gives_its_parts_back() {
    let mut headers = Headers::new();
    headers.insert("Content-Type".to_string(), "application/octet-stream".to_string());
    headers.insert("X-Empty".to_string(), String::new());
    headers.insert("X-Text".to_string(), "a: b c \u{e9}".to_string());
    let mut response = Response::new(404, headers, vec![1, 2, 3, b'\r', b'\n', 0xfe]);
    response.headers.insert("Connection".to_string(), "keep-alive".to_string());
    let bytes = response.format();
    for eof in [false, true] {
        let parsed = parse_request(&bytes, eof).unwrap();
        assert_eq!(parsed.request.method, "HTTP/1.1");
        assert_eq!(parsed.request.path, "404");
        assert_eq!(parsed.request.headers, response.headers);
        assert_eq!(parsed.request.body, response.content);
        assert_eq!(parsed.consumed, bytes.len());
    }
}

#[test]
fn parsing_a_formatted_response_with_negative_code() {
    let response = Response::new(-12, Headers::new(), Vec::new());
    let parsed = parse_request(&response.format(), false).unwrap();
    assert_eq!(parsed.request.path, "-12");
    assert_eq!(parsed.request.headers, response.headers);
}

#[test]
fn framing_does_not_depend_on_what_follows() {
    let requests: [&[u8]; 4] = [
        b"GET / HTTP/1.1\r\nHost: x\r\n\r\n",
        b"POST /files/a HTTP/1.1\r\nContent-Length: 3\r\n\r\nabc",
        b"GET\r\n",
        b"GET / HTTP/1.1\r\nbad\r\n",
    ];
    let tails: [&[u8]; 3] = [b"", b"GET /next HTTP/1.1\r\n\r\n", b"\xff\n\n: :"];
    for request in requests {
        let alone = parse_request(request, false);
        assert_ne!(alone, Err(ParseError::Incomplete));
        for tail in tails {
            let mut longer = request.to_vec();
            longer.extend_from_slice(tail);
            assert_eq!(parse_request(&longer, false), alone);
            assert_eq!(parse_request(&longer, true), alone);
        }
    }
}

#[test]
fn closed_input_is_never_incomplete_and_open_input_never_cut_short() {
    let whole = b"POST /files/a HTTP/1.1\r\nHost: x\r\nContent-Length: 3\r\n\r\nabc";
    for end in 0..=whole.len() {
        let part = &whole[..end];
        assert_ne!(parse_request(part, true), Err(ParseError::Incomplete));
        assert_ne!(parse_request(part, false), Err(ParseError::UnexpectedEof));
        assert_ne!(parse_request(part, false), Err(ParseError::Closed));
        if end < whole.len() {
            assert_eq!(parse_request(part, false), Err(ParseError::Incomplete));
        }
    }
    assert!(parse_request(whole, false).is_ok());
}

#[test]
fn parsed_fields_are_clean() {
    let input = b"GET / HTTP/1.1\r\n \tA b \r :  c: d\r \r\n:\r\nE\rF:\x0bg\x0c\r\n\r\n";
    let parsed = parse_request(input, false).unwrap();
    let mut index = 0;
    while let Some((name, value)) = parsed.request.headers.entry(index) {
        for text in [name, value] {
            assert_eq!(text.trim(), text.as_str());
            assert!(!text.contains('\n'));
        }
        assert!(!name.contains(':'));
        index += 1;
    }
    assert_eq!(index, 3);
    assert_eq!(value(&parsed.request.headers, "A b"), Some("c: d"));
    assert_eq!(value(&parsed.request.headers, ""), Some(""));
    assert_eq!(value(&parsed.request.headers, "E\rF"), Some("g"));
}

#[test]
fn field_that_is_not_clean_is_not_read_back() {
    for (name, text) in [("X", " padded"), ("X", "two\nlines"), ("a:b", "c"), ("X ", "y")] {
        let mut headers = Headers::new();
        headers.insert(name.to_string(), text.to_string());
        let response = Response::new(200, headers, Vec::new());
        match parse_request(&response.format(), false) {
            Ok(parsed) => assert_ne!(parsed.request.headers, response.headers),
            Err(error) => assert_eq!(error, ParseError::MalformedHeader),
        }
    }
}

#[test]
fn body_is_read_back_where_the_length_reads_as_its_length() {
    let mut headers = Headers::new();
    headers.insert("Content-Length".to_string(), "+03".to_string());
    let response = Response { code: 200, headers, content: b"abc".to_vec() };
    let parsed = parse_request(&response.format(), true).unwrap();
    assert_eq!(parsed.request.body, b"abc".to_vec());
    assert_eq!(parsed.request.headers, response.headers);
    let response = Response { code: 200, headers: Headers::new(), content: Vec::new() };
    let parsed = parse_request(&response.format(), true).unwrap();
    assert!(parsed.request.body.is_empty());
    let response = Response { code: 200, headers: Headers::new(), content: b"lost".to_vec() };
    let parsed = parse_request(&response.format(), true).unwrap();
    assert_ne!(parsed.request.body, response.content);
}
