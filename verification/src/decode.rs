//! Percent-decoding of the segment that a selection carries.
//!
//! The decoding itself is done by the `percent-encoding` crate. This module
//! states what that crate returns and proves the consequences the rest of
//! the library relies on.

use vstd::prelude::*;
use vstd::utf8::{
    decode_utf8, encode_scalar, encode_utf8, encode_utf8_decode_utf8, encode_utf8_valid_utf8,
    valid_utf8,
};

verus! {

/// The byte `%`, which introduces an escape.
pub const PERCENT: u8 = 0x25;

/// Value of an ASCII hexadecimal digit, of either case.
pub open spec fn hex_digit(b: u8) -> Option<u8> {
    if 0x30 <= b <= 0x39 {
        Some((b - 0x30) as u8)
    } else if 0x41 <= b <= 0x46 {
        Some((b - 0x41 + 10) as u8)
    } else if 0x61 <= b <= 0x66 {
        Some((b - 0x61 + 10) as u8)
    } else {
        None
    }
}

/// `bytes` begins with an escape: `%` and two hexadecimal digits.
pub open spec fn starts_with_escape(bytes: Seq<u8>) -> bool {
    &&& bytes.len() >= 3
    &&& bytes[0] == PERCENT
    &&& hex_digit(bytes[1]) is Some
    &&& hex_digit(bytes[2]) is Some
}

/// The bytes with every escape replaced by the byte it stands for, read
/// from left to right. A `%` that no two hexadecimal digits follow stays.
pub open spec fn unescaped(bytes: Seq<u8>) -> Seq<u8>
    decreases bytes.len(),
{
    if bytes.len() == 0 {
        Seq::empty()
    } else if starts_with_escape(bytes) {
        seq![(hex_digit(bytes[1])->0 * 16 + hex_digit(bytes[2])->0) as u8] + unescaped(
            bytes.skip(3),
        )
    } else {
        seq![bytes[0]] + unescaped(bytes.skip(1))
    }
}

/// What lossy percent-decoding makes of `encoded` where its unescaped bytes
/// are not well-formed UTF-8.
pub uninterp spec fn lossy_text(encoded: Seq<char>) -> Seq<char>;

/// The text that lossy percent-decoding makes of `encoded`: the text that
/// the unescaped bytes of `encoded` encode in UTF-8 or, where they encode
/// none, the replacement that `lossy_text` names.
pub open spec fn decoded_text(encoded: Seq<char>) -> Seq<char> {
    let bytes = unescaped(encode_utf8(encoded));
    if valid_utf8(bytes) {
        decode_utf8(bytes)
    } else {
        lossy_text(encoded)
    }
}

/// The text holds no `%`, and so no escape.
pub open spec fn is_plain(text: Seq<char>) -> bool {
    forall|i: int| 0 <= i < text.len() ==> text[i] != '%'
}

/// Calls `percent_encoding::percent_decode_str` and, on what it returns,
/// `PercentDecode::decode_utf8_lossy`.
///
/// Trusted, not proved: where the unescaped bytes of `encoded` are
/// well-formed UTF-8 the result is the text they encode. On other input the
/// crate substitutes U+FFFD for what does not decode; of that text the
/// contract says only that it depends on `encoded` alone.
#[verifier::external_body]
pub(crate) fn percent_decode_lossy(encoded: &str) -> (text: String)
    ensures
        text@ == (if valid_utf8(unescaped(encode_utf8(encoded@))) {
            decode_utf8(unescaped(encode_utf8(encoded@)))
        } else {
            lossy_text(encoded@)
        }),
{
    percent_encoding::percent_decode_str(encoded).decode_utf8_lossy().into_owned()
}

/// Bytes without a `%` hold nothing to unescape.
pub proof fn lemma_unescaped_without_percent(bytes: Seq<u8>)
    requires
        forall|i: int| 0 <= i < bytes.len() ==> bytes[i] != PERCENT,
    ensures
        unescaped(bytes) == bytes,
    decreases bytes.len(),
{
    if bytes.len() > 0 {
        lemma_unescaped_without_percent(bytes.skip(1));
    }
}

/// The UTF-8 encoding of a character other than `%` holds no `%` byte.
proof fn lemma_char_without_percent(c: char)
    requires
        c != '%',
    ensures
        forall|i: int|
            0 <= i < encode_scalar(c as u32).len() ==> #[trigger] encode_scalar(c as u32)[i]
                != PERCENT,
{
    let v = c as u32;
    assert(v <= 0x7F ==> (v & 0x7F) as u8 != 0x25u8) by (bit_vector)
        requires
            v != 0x25,
    ;
    let a = ((v >> 6) & 0x1F) as u8;
    let b = ((v >> 12) & 0x0F) as u8;
    let d = ((v >> 18) & 0x7) as u8;
    let x = (v & 0x3F) as u8;
    let y = ((v >> 6) & 0x3F) as u8;
    let z = ((v >> 12) & 0x3F) as u8;
    assert(0xC0u8 | a >= 0x80) by (bit_vector);
    assert(0xE0u8 | b >= 0x80) by (bit_vector);
    assert(0xF0u8 | d >= 0x80) by (bit_vector);
    assert(0x80u8 | x >= 0x80) by (bit_vector);
    assert(0x80u8 | y >= 0x80) by (bit_vector);
    assert(0x80u8 | z >= 0x80) by (bit_vector);
}

/// The UTF-8 encoding of a plain text holds no `%` byte.
pub proof fn lemma_plain_encoding(text: Seq<char>)
    requires
        is_plain(text),
    ensures
        forall|i: int|
            0 <= i < encode_utf8(text).len() ==> #[trigger] encode_utf8(text)[i] != PERCENT,
    decreases text.len(),
{
    if text.len() > 0 {
        // The encoding is that of the first character, then that of the rest.
        let head = encode_scalar(text[0] as u32);
        let rest = text.drop_first();
        lemma_char_without_percent(text[0]);
        lemma_plain_encoding(rest);
        assert forall|i: int| 0 <= i < encode_utf8(text).len() implies encode_utf8(text)[i]
            != PERCENT by {
            if i >= head.len() {
                assert(encode_utf8(text)[i] == encode_utf8(rest)[i - head.len()]);
            }
        }
    }
}

/// Decoding leaves a plain text as it is.
pub proof fn lemma_plain_text_decodes_to_itself(text: Seq<char>)
    requires
        is_plain(text),
    ensures
        decoded_text(text) == text,
{
    lemma_plain_encoding(text);
    lemma_unescaped_without_percent(encode_utf8(text));
    encode_utf8_valid_utf8(text);
    encode_utf8_decode_utf8(text);
}

} // verus!
