use http_server::text::{
    contains_text, eq_ignoring_ascii_case, find_char, find_last_char, format_decimal,
    format_signed, parse_number, same_text, skip_spaces, skip_word, starts_with, to_ascii_lower,
    to_chars, trim, whitespace,
};

fn chars(s: &str) -> Vec<char> {
    s.chars().collect()
}

#[test]
fn to_chars_gives_every_character() {
    assert_eq!(to_chars("a\u{e9}\u{1F600}z"), vec!['a', '\u{e9}', '\u{1F600}', 'z']);
    assert_eq!(to_chars(""), Vec::<char>::new());
}

#[test]
fn whitespace_agrees_with_the_standard_library_on_every_character() {
    let mut code: u32 = 0;
    while code <= 0x10FFFF {
        if let Some(c) = char::from_u32(code) {
            assert_eq!(whitespace(c), c.is_whitespace(), "U+{:04X}", code);
        }
        code += 1;
    }
}

#[test]
fn trim_strips_white_space_at_both_ends() {
    assert_eq!(trim("  a b \r\n"), "a b");
    assert_eq!(trim("\u{a0}x\u{3000}"), "x");
    assert_eq!(trim(" \t\r\n"), "");
    assert_eq!(trim(""), "");
    assert_eq!(trim("abc"), "abc");
}

#[test]
fn trim_agrees_with_the_standard_library() {
    for s in ["", " ", "a", " a", "a ", " a b ", "\u{2003}a\u{2003}", "\r\n", "x\ry"] {
        assert_eq!(trim(s), s.trim());
    }
}

#[test]
fn scanning_finds_word_boundaries() {
    let line = chars("  GET /x ");
    assert_eq!(skip_spaces(&line, 0), 2);
    assert_eq!(skip_word(&line, 2), 5);
    assert_eq!(skip_spaces(&line, 5), 6);
    assert_eq!(skip_word(&line, 6), 8);
    assert_eq!(skip_spaces(&line, 8), 9);
    assert_eq!(skip_word(&line, 9), 9);
}

#[test]
fn find_char_gives_first_index_or_length() {
    assert_eq!(find_char(&chars("a:b:c"), ':'), 1);
    assert_eq!(find_char(&chars("abc"), ':'), 3);
    assert_eq!(find_char(&chars(""), ':'), 0);
}

#[test]
fn find_last_char_gives_index_behind_last_or_zero() {
    assert_eq!(find_last_char(&chars("/echo/abc"), '/'), 6);
    assert_eq!(find_last_char(&chars("/echo/"), '/'), 6);
    assert_eq!(find_last_char(&chars("abc"), '/'), 0);
}

#[test]
fn same_text_compares_characters() {
    assert!(same_text("GET", "GET"));
    assert!(!same_text("GET", "get"));
    assert!(!same_text("GET", "GETS"));
    assert!(same_text("", ""));
    assert!(same_text("\u{e9}", "\u{e9}"));
}

#[test]
fn starts_with_checks_the_prefix() {
    assert!(starts_with(&chars("/echo/abc"), &chars("/echo")));
    assert!(starts_with(&chars("/echo"), &chars("/echo")));
    assert!(!starts_with(&chars("/ech"), &chars("/echo")));
    assert!(!starts_with(&chars("x/echo"), &chars("/echo")));
    assert!(starts_with(&chars("abc"), &chars("")));
}

#[test]
fn contains_text_finds_a_pattern_anywhere() {
    assert!(contains_text(&chars("gzip"), &chars("gzip")));
    assert!(contains_text(&chars("deflate, gzip"), &chars("gzip")));
    assert!(contains_text(&chars("notgzip"), &chars("gzip")));
    assert!(!contains_text(&chars("gzi"), &chars("gzip")));
    assert!(!contains_text(&chars("deflate, br"), &chars("gzip")));
    assert!(contains_text(&chars(""), &chars("")));
}

#[test]
fn ascii_lower_changes_only_ascii_capitals() {
    assert_eq!(to_ascii_lower('A'), 'a');
    assert_eq!(to_ascii_lower('Z'), 'z');
    assert_eq!(to_ascii_lower('a'), 'a');
    assert_eq!(to_ascii_lower('@'), '@');
    assert_eq!(to_ascii_lower('['), '[');
    assert_eq!(to_ascii_lower('\u{c9}'), '\u{c9}');
}

#[test]
fn eq_ignoring_ascii_case_compares_letters_without_case() {
    assert!(eq_ignoring_ascii_case(&chars("Close"), &chars("close")));
    assert!(eq_ignoring_ascii_case(&chars("CLOSE"), &chars("close")));
    assert!(!eq_ignoring_ascii_case(&chars("closed"), &chars("close")));
    assert!(!eq_ignoring_ascii_case(&chars("clos\u{c9}"), &chars("clos\u{e9}")));
}

#[test]
fn format_decimal_writes_digits_without_leading_zeros() {
    assert_eq!(format_decimal(0), "0");
    assert_eq!(format_decimal(7), "7");
    assert_eq!(format_decimal(10), "10");
    assert_eq!(format_decimal(1234567890), "1234567890");
    assert_eq!(format_decimal(usize::MAX), usize::MAX.to_string());
}

#[test]
fn format_signed_writes_a_minus_sign_for_negative_numbers() {
    assert_eq!(format_signed(200), "200");
    assert_eq!(format_signed(0), "0");
    assert_eq!(format_signed(-5), "-5");
    assert_eq!(format_signed(i32::MIN), "-2147483648");
    assert_eq!(format_signed(i32::MAX), "2147483647");
}

#[test]
fn parse_number_reads_digits_with_an_optional_plus() {
    assert_eq!(parse_number("0"), Some(0));
    assert_eq!(parse_number("5"), Some(5));
    assert_eq!(parse_number("+5"), Some(5));
    assert_eq!(parse_number("007"), Some(7));
    assert_eq!(parse_number(&usize::MAX.to_string()), Some(usize::MAX));
}

#[test]
fn parse_number_refuses_everything_else() {
    assert_eq!(parse_number(""), None);
    assert_eq!(parse_number("+"), None);
    assert_eq!(parse_number("-1"), None);
    assert_eq!(parse_number("++1"), None);
    assert_eq!(parse_number(" 1"), None);
    assert_eq!(parse_number("1 "), None);
    assert_eq!(parse_number("12a"), None);
    assert_eq!(parse_number("\u{661}"), None);
    assert_eq!(parse_number("340282366920938463463374607431768211456"), None);
    let mut too_big = usize::MAX.to_string();
    too_big.push('0');
    assert_eq!(parse_number(&too_big), None);
}

#[test]
fn parse_number_agrees_with_the_standard_library() {
    for s in ["", "0", "+0", "-0", "12", "+12", "1_000", "0x10", "18446744073709551615",
        "18446744073709551616", "4294967295", "4294967296"]
    {
        assert_eq!(parse_number(s), s.parse::<usize>().ok(), "{:?}", s);
    }
}

#[test]
fn parse_number_reads_back_what_format_decimal_wrote() {
    for n in [0usize, 1, 9, 10, 99, 100, 65535, usize::MAX] {
        assert_eq!(parse_number(&format_decimal(n)), Some(n));
    }
}
