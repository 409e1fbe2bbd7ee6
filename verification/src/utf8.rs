//! What this library takes on trust about UTF-8 decoding in the standard
//! library, and what it proves about UTF-8 encoding on top of `vstd`.

use vstd::prelude::*;
use vstd::utf8::*;

verus! {

/// `core::str::Utf8Error`, the error of `core::str::from_utf8`. Nothing is
/// said of what it holds.
#[verifier::external_type_specification]
#[verifier::external_body]
pub struct ExUtf8Error(core::str::Utf8Error);

/// `core::str::from_utf8` accepts exactly the byte sequences that are valid
/// UTF-8, and the text it returns is the one that they encode. Taken on trust
/// from the function's documentation.
pub assume_specification[ core::str::from_utf8 ](v: &[u8]) -> (res: Result<
    &str,
    core::str::Utf8Error,
>)
    ensures
        res is Ok <==> valid_utf8(v@),
        res matches Ok(text) ==> text@ == decode_utf8(v@),
;

/// The encoding of two texts in a row is their encodings in a row.
pub proof fn lemma_encode_concat(a: Seq<char>, b: Seq<char>)
    ensures
        encode_utf8(a + b) == encode_utf8(a) + encode_utf8(b),
    decreases a.len(),
{
    if a.len() == 0 {
        assert(a + b =~= b);
        assert(encode_utf8(a) + encode_utf8(b) =~= encode_utf8(b));
    } else {
        assert((a + b).drop_first() =~= a.drop_first() + b);
        lemma_encode_concat(a.drop_first(), b);
        assert(encode_utf8(a + b) =~= encode_utf8(a) + encode_utf8(b));
    }
}

/// A character below 128 is encoded as the one byte of its number, and the
/// bytes of any other character are all 128 or more.
pub proof fn lemma_encode_scalar_bytes(c: char)
    ensures
        encode_scalar(c as u32).len() >= 1,
        (c as u32) < 0x80 ==> encode_scalar(c as u32) == seq![c as u8],
        (c as u32) >= 0x80 ==> forall|i: int|
            0 <= i < encode_scalar(c as u32).len() ==> #[trigger] encode_scalar(c as u32)[i]
                >= 0x80,
{
    char_is_scalar(c);
    let v = c as u32;
    if v < 0x80 {
        assert((v & 0x7F) as u8 == v as u8) by (bit_vector)
            requires
                v < 0x80,
        ;
        assert(encode_scalar(v) =~= seq![c as u8]);
    } else {
        let first2 = ((v >> 6) & 0x1F) as u8;
        let first3 = ((v >> 12) & 0x0F) as u8;
        let first4 = ((v >> 18) & 0x7) as u8;
        let last = (v & 0x3F) as u8;
        let second_last = ((v >> 6) & 0x3F) as u8;
        let third_last = ((v >> 12) & 0x3F) as u8;
        assert(0xC0u8 | first2 >= 0x80) by (bit_vector);
        assert(0xE0u8 | first3 >= 0x80) by (bit_vector);
        assert(0xF0u8 | first4 >= 0x80) by (bit_vector);
        assert(0x80u8 | last >= 0x80) by (bit_vector);
        assert(0x80u8 | second_last >= 0x80) by (bit_vector);
        assert(0x80u8 | third_last >= 0x80) by (bit_vector);
    }
}

/// The encoding of a text holds at least one byte for each character.
pub proof fn lemma_encode_len(text: Seq<char>)
    ensures
        encode_utf8(text).len() >= text.len(),
    decreases text.len(),
{
    if text.len() > 0 {
        lemma_encode_scalar_bytes(text[0]);
        lemma_encode_len(text.drop_first());
    }
}

/// A character below 128 stands in the encoding of a text as its one byte,
/// behind the encoding of what stands in front of it in the text.
pub proof fn lemma_encode_at(text: Seq<char>, at: int)
    requires
        0 <= at < text.len(),
        (text[at] as u32) < 0x80,
    ensures
        encode_utf8(text) == encode_utf8(text.take(at)) + seq![text[at] as u8] + encode_utf8(
            text.skip(at + 1),
        ),
{
    let c = text[at];
    lemma_encode_scalar_bytes(c);
    assert(seq![c].drop_first() =~= Seq::<char>::empty());
    assert(encode_utf8(seq![c].drop_first()) =~= Seq::<u8>::empty());
    assert(encode_utf8(seq![c]) =~= seq![c as u8]);
    assert(text =~= text.take(at) + seq![c] + text.skip(at + 1));
    lemma_encode_concat(text.take(at) + seq![c], text.skip(at + 1));
    lemma_encode_concat(text.take(at), seq![c]);
}

/// Two different characters below 128 have different bytes.
proof fn lemma_low_chars_differ(a: char, b: char)
    requires
        a != b,
        (a as u32) < 0x80,
        (b as u32) < 0x80,
    ensures
        a as u8 != b as u8,
{
}

/// The byte of a character below 128 that a text does not hold does not
/// occur in the text's encoding, which is at least as long as the text.
pub proof fn lemma_encode_omits(text: Seq<char>, c: char)
    requires
        (c as u32) < 0x80,
        forall|i: int| 0 <= i < text.len() ==> #[trigger] text[i] != c,
    ensures
        encode_utf8(text).len() >= text.len(),
        forall|i: int|
            0 <= i < encode_utf8(text).len() ==> #[trigger] encode_utf8(text)[i] != c as u8,
    decreases text.len(),
{
    if text.len() > 0 {
        let rest = text.drop_first();
        assert forall|i: int| 0 <= i < rest.len() implies #[trigger] rest[i] != c by {
            assert(rest[i] == text[i + 1]);
        }
        lemma_encode_omits(rest, c);
        let head = text[0];
        lemma_encode_scalar_bytes(head);
        let first = encode_scalar(head as u32);
        assert forall|i: int| 0 <= i < encode_utf8(text).len() implies #[trigger] encode_utf8(
            text,
        )[i] != c as u8 by {
            assert(encode_utf8(text) == first + encode_utf8(rest));
            if i < first.len() {
                assert(encode_utf8(text)[i] == first[i]);
                if (head as u32) < 0x80 {
                    lemma_low_chars_differ(head, c);
                }
            } else {
                assert(encode_utf8(text)[i] == encode_utf8(rest)[i - first.len()]);
            }
        }
    }
}

} // verus!
