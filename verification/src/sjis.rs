//! Shift-JIS, the encoding of names inside an archive, through `encoding_rs`.
use encoding_rs::SHIFT_JIS;
use vstd::prelude::*;

verus! {

/// What `encoding_rs::SHIFT_JIS.encode` makes of a text: the bytes, and
/// whether some character had no Shift-JIS form.
pub uninterp spec fn sjis_encoded(text: Seq<char>) -> (Seq<u8>, bool);

/// What `encoding_rs::SHIFT_JIS.decode` makes of bytes: the text, and
/// whether some bytes were malformed.
pub uninterp spec fn sjis_decoded(bytes: Seq<u8>) -> (Seq<char>, bool);

/// Text made only of ASCII characters.
pub open spec fn is_ascii_text(text: Seq<char>) -> bool {
    forall|i: int| 0 <= i < text.len() ==> (#[trigger] text[i] as u32) < 0x80
}

/// Bytes that are all below 0x80.
pub open spec fn is_ascii_bytes(bytes: Seq<u8>) -> bool {
    forall|i: int| 0 <= i < bytes.len() ==> #[trigger] bytes[i] < 0x80
}

/// Text without a NUL character.
pub open spec fn nul_free_text(text: Seq<char>) -> bool {
    forall|i: int| 0 <= i < text.len() ==> #[trigger] text[i] != '\0'
}

/// Bytes without a zero byte.
pub open spec fn nul_free_bytes(bytes: Seq<u8>) -> bool {
    forall|i: int| 0 <= i < bytes.len() ==> #[trigger] bytes[i] != 0
}

/// The one-byte codes of an ASCII text.
pub open spec fn ascii_bytes(text: Seq<char>) -> Seq<u8> {
    Seq::new(text.len(), |i: int| text[i] as u8)
}

/// The characters of ASCII bytes.
pub open spec fn ascii_text(bytes: Seq<u8>) -> Seq<char> {
    Seq::new(bytes.len(), |i: int| bytes[i] as char)
}

/// `encoding_rs::Encoding::encode` on `SHIFT_JIS`, the borrowed or owned bytes
/// taken as a `Vec`. Claimed: the result is `sjis_encoded` of the text; an
/// ASCII text comes back as its own bytes with no error (the source returns
/// the input's bytes unchanged when all of them are ASCII); and a text without
/// NUL gives no zero byte (ASCII is copied, every Shift-JIS byte the encoder
/// writes is 0x40 or above, and an unmappable character becomes `&#...;`).
#[verifier::external_body]
pub(crate) fn sjis_encode(text: &str) -> (res: (Vec<u8>, bool))
    ensures
        (res.0@, res.1) == sjis_encoded(text@),
        is_ascii_text(text@) ==> res.0@ == ascii_bytes(text@) && !res.1,
        nul_free_text(text@) ==> nul_free_bytes(res.0@),
{
    let (bytes, _, had_errors) = SHIFT_JIS.encode(text);
    (bytes.into_owned(), had_errors)
}

/// `encoding_rs::Encoding::decode` on `SHIFT_JIS`, the text taken as a
/// `String`. Claimed: the result is `sjis_decoded` of the bytes; ASCII bytes
/// come back as their own characters with no error (no byte-order mark
/// starts with an ASCII byte, and the source borrows all-ASCII input as is);
/// and bytes without a zero give text without NUL (ASCII passes through, the
/// other characters come from tables, U+0080, half-width katakana or U+FFFD,
/// and after a byte-order mark UTF-8 or UTF-16 yield NUL only from zero bytes).
#[verifier::external_body]
pub(crate) fn sjis_decode(bytes: &[u8]) -> (res: (String, bool))
    ensures
        (res.0@, res.1) == sjis_decoded(bytes@),
        is_ascii_bytes(bytes@) ==> res.0@ == ascii_text(bytes@) && !res.1,
        nul_free_bytes(bytes@) ==> nul_free_text(res.0@),
{
    let (text, _, had_errors) = SHIFT_JIS.decode(bytes);
    (text.into_owned(), had_errors)
}

} // verus!
