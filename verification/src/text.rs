//! Character-level text operations: scanning, trimming, splitting and
//! decimal numbers, each with a mathematical definition over `Seq<char>`.

use vstd::prelude::*;
use vstd::string::*;
use vstd::utf8::*;

verus! {

/// True for the characters that carry the Unicode `White_Space` property.
pub open spec fn is_whitespace(c: char) -> bool {
    let u = c as u32;
    ||| 0x09 <= u <= 0x0D
    ||| u == 0x20
    ||| u == 0x85
    ||| u == 0xA0
    ||| u == 0x1680
    ||| 0x2000 <= u <= 0x200A
    ||| u == 0x2028
    ||| u == 0x2029
    ||| u == 0x202F
    ||| u == 0x205F
    ||| u == 0x3000
}

/// The predicate "is white space".
pub open spec fn space() -> spec_fn(char) -> bool {
    |c: char| is_whitespace(c)
}

/// The predicate "is not white space".
pub open spec fn non_space() -> spec_fn(char) -> bool {
    |c: char| !is_whitespace(c)
}

/// The predicate "equals `x`".
pub open spec fn equal_to<T>(x: T) -> spec_fn(T) -> bool {
    |y: T| y == x
}

/// The first index at or after `from` whose element satisfies `stop`, or
/// `s.len()` when there is none.
pub open spec fn scan<T>(s: Seq<T>, from: int, stop: spec_fn(T) -> bool) -> int
    decreases s.len() - from,
{
    if 0 <= from < s.len() && !stop(s[from]) {
        scan(s, from + 1, stop)
    } else {
        from
    }
}

/// One past the last index below `to` whose element satisfies `stop`, or `0`
/// when there is none.
pub open spec fn scan_back<T>(s: Seq<T>, to: int, stop: spec_fn(T) -> bool) -> int
    decreases to,
{
    if 0 < to <= s.len() && !stop(s[to - 1]) {
        scan_back(s, to - 1, stop)
    } else {
        to
    }
}

/// `scan` stops at the first element that satisfies `stop` and nowhere before.
pub proof fn lemma_scan<T>(s: Seq<T>, from: int, stop: spec_fn(T) -> bool)
    requires
        0 <= from <= s.len(),
    ensures
        from <= scan(s, from, stop) <= s.len(),
        forall|i: int| from <= i < scan(s, from, stop) ==> !stop(#[trigger] s[i]),
        scan(s, from, stop) < s.len() ==> stop(s[scan(s, from, stop)]),
    decreases s.len() - from,
{
    if from < s.len() && !stop(s[from]) {
        lemma_scan(s, from + 1, stop);
    }
}

/// An index with the two defining properties of `scan` is its result.
pub proof fn lemma_scan_is<T>(s: Seq<T>, from: int, stop: spec_fn(T) -> bool, at: int)
    requires
        0 <= from <= at <= s.len(),
        forall|i: int| from <= i < at ==> !stop(#[trigger] s[i]),
        at < s.len() ==> stop(s[at]),
    ensures
        scan(s, from, stop) == at,
    decreases at - from,
{
    if from < at {
        lemma_scan_is(s, from + 1, stop, at);
    }
}

/// `scan_back` stops behind the last element that satisfies `stop`.
pub proof fn lemma_scan_back<T>(s: Seq<T>, to: int, stop: spec_fn(T) -> bool)
    requires
        0 <= to <= s.len(),
    ensures
        0 <= scan_back(s, to, stop) <= to,
        forall|i: int| scan_back(s, to, stop) <= i < to ==> !stop(#[trigger] s[i]),
        scan_back(s, to, stop) > 0 ==> stop(s[scan_back(s, to, stop) - 1]),
    decreases to,
{
    if 0 < to && !stop(s[to - 1]) {
        lemma_scan_back(s, to - 1, stop);
    }
}

/// An index with the two defining properties of `scan_back` is its result.
pub proof fn lemma_scan_back_is<T>(s: Seq<T>, to: int, stop: spec_fn(T) -> bool, at: int)
    requires
        0 <= at <= to <= s.len(),
        forall|i: int| at <= i < to ==> !stop(#[trigger] s[i]),
        at > 0 ==> stop(s[at - 1]),
    ensures
        scan_back(s, to, stop) == at,
    decreases to - at,
{
    if at < to {
        lemma_scan_back_is(s, to - 1, stop, at);
    }
}

/// `s` without its leading and trailing white space.
pub open spec fn trimmed(s: Seq<char>) -> Seq<char> {
    let start = scan(s, 0, non_space());
    let end = scan_back(s, s.len() as int, non_space());
    if start < end {
        s.subrange(start, end)
    } else {
        Seq::empty()
    }
}

/// True when `s` neither begins nor ends with white space.
pub open spec fn is_trimmed(s: Seq<char>) -> bool {
    s.len() > 0 ==> !is_whitespace(s.first()) && !is_whitespace(s.last())
}

/// Trimming leaves a text without white space at its ends as it is.
pub proof fn lemma_trimmed_fixed(s: Seq<char>)
    requires
        is_trimmed(s),
    ensures
        trimmed(s) == s,
{
    if s.len() > 0 {
        lemma_scan_is(s, 0, non_space(), 0);
        lemma_scan_back_is(s, s.len() as int, non_space(), s.len() as int);
        assert(s.subrange(0, s.len() as int) =~= s);
    } else {
        assert(trimmed(s) =~= s);
    }
}

/// Trimming drops any white space put around a text that has none at its ends.
pub proof fn lemma_trimmed_padded(before: Seq<char>, s: Seq<char>, after: Seq<char>)
    requires
        is_trimmed(s),
        forall|i: int| 0 <= i < before.len() ==> is_whitespace(#[trigger] before[i]),
        forall|i: int| 0 <= i < after.len() ==> is_whitespace(#[trigger] after[i]),
    ensures
        trimmed(before + s + after) == s,
{
    let all = before + s + after;
    let n = all.len() as int;
    if s.len() > 0 {
        let a = before.len() as int;
        let b = a + s.len();
        assert(all[a] == s.first());
        assert(all[b - 1] == s.last());
        assert forall|i: int| 0 <= i < a implies !non_space()(#[trigger] all[i]) by {
            assert(all[i] == before[i]);
        }
        assert forall|i: int| b <= i < n implies !non_space()(#[trigger] all[i]) by {
            assert(all[i] == after[i - b]);
        }
        lemma_scan_is(all, 0, non_space(), a);
        lemma_scan_back_is(all, n, non_space(), b);
        assert(all.subrange(a, b) =~= s);
    } else {
        assert forall|i: int| 0 <= i < n implies !non_space()(#[trigger] all[i]) by {
            if i < before.len() {
                assert(all[i] == before[i]);
            } else {
                assert(all[i] == after[i - before.len()]);
            }
        }
        lemma_scan_is(all, 0, non_space(), n);
        lemma_scan_back_is(all, n, non_space(), 0);
        assert(trimmed(all) =~= s);
    }
}

/// What `trimmed` returns is a piece of `s` without white space at its ends:
/// it stands in `s` behind the leading white space.
pub proof fn lemma_trimmed_within(s: Seq<char>)
    ensures
        is_trimmed(trimmed(s)),
        0 <= scan(s, 0, non_space()),
        scan(s, 0, non_space()) + trimmed(s).len() <= s.len(),
        trimmed(s) == s.subrange(
            scan(s, 0, non_space()),
            scan(s, 0, non_space()) + trimmed(s).len(),
        ),
{
    lemma_scan(s, 0, non_space());
    lemma_scan_back(s, s.len() as int, non_space());
    let start = scan(s, 0, non_space());
    assert(trimmed(s) =~= s.subrange(start, start + trimmed(s).len()));
}

/// True when `text` holds no line feed.
pub open spec fn no_line_feed(text: Seq<char>) -> bool {
    forall|i: int| 0 <= i < text.len() ==> #[trigger] text[i] != '\n'
}

/// The part of `s` behind its last `sep`, or all of `s` when it holds none.
pub open spec fn last_segment(s: Seq<char>, sep: char) -> Seq<char> {
    s.skip(scan_back(s, s.len() as int, equal_to(sep)))
}

/// The last segment is the end of `s` behind its last `sep`: it holds no
/// `sep`, a `sep` stands in front of it unless it is all of `s`, and it is
/// empty when `s` ends in `sep`.
pub proof fn lemma_last_segment(s: Seq<char>, sep: char)
    ensures
        last_segment(s, sep).len() <= s.len(),
        last_segment(s, sep) == s.skip(s.len() - last_segment(s, sep).len()),
        forall|i: int|
            0 <= i < last_segment(s, sep).len() ==> #[trigger] last_segment(s, sep)[i] != sep,
        last_segment(s, sep).len() < s.len() ==> s[s.len() - last_segment(s, sep).len() - 1]
            == sep,
        s.len() > 0 && s.last() == sep ==> last_segment(s, sep).len() == 0,
{
    let start = scan_back(s, s.len() as int, equal_to(sep));
    lemma_scan_back(s, s.len() as int, equal_to(sep));
    assert forall|i: int| 0 <= i < last_segment(s, sep).len() implies #[trigger] last_segment(
        s,
        sep,
    )[i] != sep by {
        assert(!equal_to(sep)(s[start + i]));
    }
    if s.len() > 0 && s.last() == sep {
        lemma_scan_back_is(s, s.len() as int, equal_to(sep), s.len() as int);
    }
}

/// `s` without `prefix` at its start; `s` itself when it does not start so.
pub open spec fn without_prefix(s: Seq<char>, prefix: Seq<char>) -> Seq<char> {
    if prefix.is_prefix_of(s) {
        s.skip(prefix.len() as int)
    } else {
        s
    }
}

/// True when `pattern` occurs in `s` at index `at`.
pub open spec fn occurs_at<T>(s: Seq<T>, pattern: Seq<T>, at: int) -> bool {
    0 <= at && at + pattern.len() <= s.len() && s.subrange(at, at + pattern.len()) == pattern
}

/// True when `pattern` occurs somewhere in `s`.
pub open spec fn contains<T>(s: Seq<T>, pattern: Seq<T>) -> bool {
    exists|at: int| occurs_at(s, pattern, at)
}

/// The lower-case form of an ASCII letter; any other character unchanged.
pub open spec fn ascii_lower(c: char) -> char {
    if 'A' <= c <= 'Z' {
        ((c as u32 + 32) as u8) as char
    } else {
        c
    }
}

/// True when `a` and `b` differ at most in the case of ASCII letters.
pub open spec fn same_ignoring_ascii_case(a: Seq<char>, b: Seq<char>) -> bool {
    a.len() == b.len() && forall|i: int|
        0 <= i < a.len() ==> ascii_lower(#[trigger] a[i]) == ascii_lower(b[i])
}

/// The decimal digit of `d`, for `d` below ten.
pub open spec fn digit(d: nat) -> char {
    ((48 + d) as u8) as char
}

/// True for the ten ASCII digits.
pub open spec fn is_digit(c: char) -> bool {
    '0' <= c <= '9'
}

/// The value of an ASCII digit.
pub open spec fn digit_value(c: char) -> nat {
    (c as u32 - 48) as nat
}

/// `n` written in decimal, without leading zeros.
pub open spec fn decimal(n: nat) -> Seq<char>
    decreases n,
{
    if n < 10 {
        seq![digit(n)]
    } else {
        decimal(n / 10).push(digit(n % 10))
    }
}

/// `n` written in decimal, with a minus sign when negative.
pub open spec fn signed_decimal(n: int) -> Seq<char> {
    if n < 0 {
        seq!['-'] + decimal((-n) as nat)
    } else {
        decimal(n as nat)
    }
}

/// The number that a row of digits denotes; `0` for the empty row.
pub open spec fn digits_value(s: Seq<char>) -> nat
    decreases s.len(),
{
    if s.len() == 0 {
        0
    } else {
        digits_value(s.drop_last()) * 10 + digit_value(s.last())
    }
}

/// True when `s` is a non-empty row of ASCII digits.
pub open spec fn all_digits(s: Seq<char>) -> bool {
    s.len() > 0 && forall|i: int| 0 <= i < s.len() ==> is_digit(#[trigger] s[i])
}

/// The digits of an unsigned number text: `s` without one leading `+`.
pub open spec fn unsigned_digits(s: Seq<char>) -> Seq<char> {
    if s.len() > 0 && s[0] == '+' {
        s.drop_first()
    } else {
        s
    }
}

/// The number that `s` denotes as a `usize`: an optional `+`, then one or more
/// ASCII digits, with a value that fits. `None` for every other text.
pub open spec fn number(s: Seq<char>) -> Option<usize> {
    let digits = unsigned_digits(s);
    if all_digits(digits) && digits_value(digits) <= usize::MAX {
        Some(digits_value(digits) as usize)
    } else {
        None
    }
}

/// A decimal consists of digits, and denotes the number it was written from.
pub proof fn lemma_decimal(n: nat)
    ensures
        all_digits(decimal(n)),
        digits_value(decimal(n)) == n,
    decreases n,
{
    if n < 10 {
        let s = decimal(n);
        assert(s.drop_last() =~= Seq::<char>::empty());
        assert(digits_value(s.drop_last()) == 0);
    } else {
        lemma_decimal(n / 10);
        let s = decimal(n);
        assert(s.drop_last() =~= decimal(n / 10));
        assert(s.last() == digit(n % 10));
    }
}

/// Reading a written number gives the number back.
pub proof fn lemma_number_of_decimal(n: usize)
    ensures
        number(decimal(n as nat)) == Some(n),
{
    lemma_decimal(n as nat);
    assert(decimal(n as nat)[0] != '+');
}

/// The characters of `s`.
pub fn to_chars(s: &str) -> (chars: Vec<char>)
    ensures
        chars@ == s@,
{
    let mut chars: Vec<char> = Vec::new();
    for c in it: s.chars()
        invariant
            it.seq() == s@,
            chars@ =~= s@.take(it.index() as int),
    {
        chars.push(c);
    }
    chars
}

/// Tells whether `c` is white space.
pub fn whitespace(c: char) -> (res: bool)
    ensures
        res == is_whitespace(c),
{
    let u: u32 = c as u32;
    (0x09 <= u && u <= 0x0D) || u == 0x20 || u == 0x85 || u == 0xA0 || u == 0x1680 || (0x2000 <= u
        && u <= 0x200A) || u == 0x2028 || u == 0x2029 || u == 0x202F || u == 0x205F || u == 0x3000
}

/// The first index at or after `from` that holds no white space, or the
/// length when there is none; `from` itself when it lies behind the end.
pub fn skip_spaces(chars: &Vec<char>, from: usize) -> (at: usize)
    ensures
        at == scan(chars@, from as int, non_space()),
        from <= at,
        from <= chars.len() ==> at <= chars.len(),
{
    if from > chars.len() {
        return from;
    }
    let mut at: usize = from;
    while at < chars.len() && whitespace(chars[at])
        invariant
            from <= at <= chars.len(),
            forall|i: int| from <= i < at ==> !non_space()(#[trigger] chars@[i]),
        decreases chars.len() - at,
    {
        at += 1;
    }
    proof {
        lemma_scan_is(chars@, from as int, non_space(), at as int);
    }
    at
}

/// The first index at or after `from` that holds white space, or the length
/// when there is none; `from` itself when it lies behind the end.
pub fn skip_word(chars: &Vec<char>, from: usize) -> (at: usize)
    ensures
        at == scan(chars@, from as int, space()),
        from <= at,
        from <= chars.len() ==> at <= chars.len(),
{
    if from > chars.len() {
        return from;
    }
    let mut at: usize = from;
    while at < chars.len() && !whitespace(chars[at])
        invariant
            from <= at <= chars.len(),
            forall|i: int| from <= i < at ==> !space()(#[trigger] chars@[i]),
        decreases chars.len() - at,
    {
        at += 1;
    }
    proof {
        lemma_scan_is(chars@, from as int, space(), at as int);
    }
    at
}

/// The first index that holds `c`, or the length when none does.
pub fn find_char(chars: &Vec<char>, c: char) -> (at: usize)
    ensures
        at == scan(chars@, 0, equal_to(c)),
        at <= chars.len(),
{
    let mut at: usize = 0;
    while at < chars.len() && chars[at] != c
        invariant
            at <= chars.len(),
            forall|i: int| 0 <= i < at ==> !equal_to(c)(#[trigger] chars@[i]),
        decreases chars.len() - at,
    {
        at += 1;
    }
    proof {
        lemma_scan_is(chars@, 0, equal_to(c), at as int);
    }
    at
}

/// One past the last index that holds `c`, or `0` when none does.
pub fn find_last_char(chars: &Vec<char>, c: char) -> (at: usize)
    ensures
        at == scan_back(chars@, chars.len() as int, equal_to(c)),
        at <= chars.len(),
{
    let mut at: usize = chars.len();
    while at > 0 && chars[at - 1] != c
        invariant
            at <= chars.len(),
            forall|i: int| at <= i < chars.len() ==> !equal_to(c)(#[trigger] chars@[i]),
        decreases at,
    {
        at -= 1;
    }
    proof {
        lemma_scan_back_is(chars@, chars.len() as int, equal_to(c), at as int);
    }
    at
}

/// `s` without the white space at its two ends.
pub fn trim(s: &str) -> (res: &str)
    ensures
        res@ == trimmed(s@),
{
    let chars = to_chars(s);
    let start = skip_spaces(&chars, 0);
    let mut end: usize = chars.len();
    while end > 0 && whitespace(chars[end - 1])
        invariant
            end <= chars.len(),
            forall|i: int| end <= i < chars.len() ==> !non_space()(#[trigger] chars@[i]),
        decreases end,
    {
        end -= 1;
    }
    proof {
        lemma_scan_back_is(chars@, chars.len() as int, non_space(), end as int);
    }
    if start < end {
        s.substring_char(start, end)
    } else {
        s.substring_char(0, 0)
    }
}

/// Tells whether two texts hold the same characters.
pub fn same_text(a: &str, b: &str) -> (res: bool)
    ensures
        res == (a@ == b@),
{
    let x = a.as_bytes();
    let y = b.as_bytes();
    proof {
        encode_utf8_decode_utf8(a@);
        encode_utf8_decode_utf8(b@);
    }
    if x.len() != y.len() {
        return false;
    }
    let mut i: usize = 0;
    while i < x.len()
        invariant
            i <= x.len(),
            x.len() == y.len(),
            x@ == encode_utf8(a@),
            y@ == encode_utf8(b@),
            forall|j: int| 0 <= j < i ==> x@[j] == y@[j],
        decreases x.len() - i,
    {
        if x[i] != y[i] {
            return false;
        }
        i += 1;
    }
    assert(x@ =~= y@);
    true
}

/// Tells whether `s` begins with `prefix`.
pub fn starts_with(s: &Vec<char>, prefix: &Vec<char>) -> (res: bool)
    ensures
        res == prefix@.is_prefix_of(s@),
{
    if prefix.len() > s.len() {
        return false;
    }
    let mut i: usize = 0;
    while i < prefix.len()
        invariant
            i <= prefix.len() <= s.len(),
            forall|j: int| 0 <= j < i ==> s@[j] == prefix@[j],
        decreases prefix.len() - i,
    {
        if s[i] != prefix[i] {
            return false;
        }
        i += 1;
    }
    true
}

/// Tells whether `pattern` occurs in `s` at index `at`.
fn matches_at(s: &Vec<char>, pattern: &Vec<char>, at: usize) -> (res: bool)
    requires
        at + pattern.len() <= s.len(),
    ensures
        res == occurs_at(s@, pattern@, at as int),
{
    let mut i: usize = 0;
    while i < pattern.len()
        invariant
            i <= pattern.len(),
            at + pattern.len() <= s.len(),
            forall|j: int| 0 <= j < i ==> s@[at + j] == pattern@[j],
        decreases pattern.len() - i,
    {
        if s[at + i] != pattern[i] {
            return false;
        }
        i += 1;
    }
    assert(s@.subrange(at as int, at + pattern@.len()) =~= pattern@);
    true
}

/// Tells whether `pattern` occurs somewhere in `s`.
pub fn contains_text(s: &Vec<char>, pattern: &Vec<char>) -> (res: bool)
    ensures
        res == contains(s@, pattern@),
{
    if pattern.len() > s.len() {
        return false;
    }
    let last: usize = s.len() - pattern.len();
    let mut at: usize = 0;
    loop
        invariant
            at <= last,
            last == s.len() - pattern.len(),
            forall|j: int| 0 <= j < at ==> !occurs_at(s@, pattern@, j),
        decreases last - at,
    {
        if matches_at(s, pattern, at) {
            return true;
        }
        if at == last {
            return false;
        }
        at += 1;
    }
}

/// The lower-case form of an ASCII letter; any other character unchanged.
pub fn to_ascii_lower(c: char) -> (res: char)
    ensures
        res == ascii_lower(c),
{
    if 'A' <= c && c <= 'Z' {
        let low: u8 = (c as u32 + 32) as u8;
        low as char
    } else {
        c
    }
}

/// Tells whether `a` and `b` differ at most in the case of ASCII letters.
pub fn eq_ignoring_ascii_case(a: &Vec<char>, b: &Vec<char>) -> (res: bool)
    ensures
        res == same_ignoring_ascii_case(a@, b@),
{
    if a.len() != b.len() {
        return false;
    }
    let mut i: usize = 0;
    while i < a.len()
        invariant
            i <= a.len(),
            a.len() == b.len(),
            forall|j: int| 0 <= j < i ==> ascii_lower(#[trigger] a@[j]) == ascii_lower(b@[j]),
        decreases a.len() - i,
    {
        if to_ascii_lower(a[i]) != to_ascii_lower(b[i]) {
            return false;
        }
        i += 1;
    }
    true
}

/// The one-character text of a decimal digit.
fn digit_text(d: usize) -> (res: &'static str)
    requires
        d < 10,
    ensures
        res@ == seq![digit(d as nat)],
{
    proof {
        reveal_strlit("0");
        reveal_strlit("1");
        reveal_strlit("2");
        reveal_strlit("3");
        reveal_strlit("4");
        reveal_strlit("5");
        reveal_strlit("6");
        reveal_strlit("7");
        reveal_strlit("8");
        reveal_strlit("9");
    }
    let res = if d == 0 {
        "0"
    } else if d == 1 {
        "1"
    } else if d == 2 {
        "2"
    } else if d == 3 {
        "3"
    } else if d == 4 {
        "4"
    } else if d == 5 {
        "5"
    } else if d == 6 {
        "6"
    } else if d == 7 {
        "7"
    } else if d == 8 {
        "8"
    } else {
        "9"
    };
    res
}

/// Writes `n` in decimal.
pub fn format_decimal(n: usize) -> (res: String)
    ensures
        res@ == decimal(n as nat),
    decreases n,
{
    if n < 10 {
        digit_text(n).to_owned()
    } else {
        let mut res = format_decimal(n / 10);
        res.append(digit_text(n % 10));
        res
    }
}

/// Writes `n` in decimal, with a minus sign when it is negative.
pub fn format_signed(n: i32) -> (res: String)
    ensures
        res@ == signed_decimal(n as int),
{
    if n < 0 {
        let wide: i64 = n as i64;
        let magnitude: u32 = (0 - wide) as u32;
        let mut res = "-".to_owned();
        proof {
            reveal_strlit("-");
        }
        res.append(format_decimal(magnitude as usize).as_str());
        res
    } else {
        format_decimal(n as usize)
    }
}

/// A longer row of digits denotes no smaller a number than its beginning.
proof fn lemma_digits_value_grows(s: Seq<char>, k: int)
    requires
        0 <= k <= s.len(),
    ensures
        digits_value(s.take(k)) <= digits_value(s),
    decreases s.len() - k,
{
    if k < s.len() {
        lemma_digits_value_grows(s, k + 1);
        assert(s.take(k + 1).drop_last() =~= s.take(k));
    } else {
        assert(s.take(k) =~= s);
    }
}

/// Reads an unsigned decimal number: an optional `+`, then digits.
pub fn parse_number(s: &str) -> (res: Option<usize>)
    ensures
        res == number(s@),
{
    let chars = to_chars(s);
    let start: usize = if chars.len() > 0 && chars[0] == '+' {
        1
    } else {
        0
    };
    let ghost digits = unsigned_digits(s@);
    if start == chars.len() {
        return None;
    }
    let mut value: usize = 0;
    let mut i: usize = start;
    while i < chars.len()
        invariant
            start <= i <= chars.len(),
            start < chars.len(),
            digits == unsigned_digits(s@),
            digits == chars@.skip(start as int),
            forall|j: int| 0 <= j < i - start ==> is_digit(#[trigger] digits[j]),
            value == digits_value(digits.take(i - start)),
        decreases chars.len() - i,
    {
        let c = chars[i];
        if !('0' <= c && c <= '9') {
            assert(!is_digit(digits[i - start]));
            return None;
        }
        let d: usize = (c as u32 - 48) as usize;
        proof {
            let next = digits.take(i - start + 1);
            assert(next.drop_last() =~= digits.take(i - start));
            lemma_digits_value_grows(digits, i - start + 1);
        }
        let scaled = match value.checked_mul(10) {
            Some(v) => v,
            None => {
                return None;
            },
        };
        value = match scaled.checked_add(d) {
            Some(v) => v,
            None => {
                return None;
            },
        };
        i += 1;
    }
    assert(digits.take(i - start) =~= digits);
    Some(value)
}


} // verus!
