//! Conversion between text and the initial token sequence of raw bytes.

use vstd::prelude::*;
use vstd::utf8::{decode_utf8, encode_utf8, valid_utf8};

verus! {

/// Each byte widened to a token identifier of the same value.
pub open spec fn widen(bytes: Seq<u8>) -> Seq<u16> {
    Seq::new(bytes.len(), |i: int| bytes[i] as u16)
}

/// The initial token sequence of a text: one identifier per byte of its UTF-8 encoding.
pub open spec fn byte_ids(text: Seq<char>) -> Seq<u16> {
    widen(encode_utf8(text))
}

/// Maps a string to its initial token sequence, one identifier in `0..=255` per byte.
pub fn convert_to_bytes(input: &str) -> (ids: Vec<u16>)
    ensures
        ids@ == byte_ids(input@),
{
    let bytes = input.as_bytes();
    let mut ids: Vec<u16> = Vec::new();
    let mut i: usize = 0;
    while i < bytes.len()
        invariant
            i <= bytes.len(),
            bytes@ == encode_utf8(input@),
            ids@ == widen(bytes@.take(i as int)),
        decreases bytes.len() - i,
    {
        ids.push(bytes[i] as u16);
        i += 1;
        assert(ids@ =~= widen(bytes@.take(i as int)));
    }
    assert(bytes@.take(i as int) =~= bytes@);
    ids
}

/// The text that lossy decoding yields for a byte sequence that is not valid
/// UTF-8: each ill-formed part replaced by U+FFFD.
pub uninterp spec fn lossy_text(bytes: Seq<u8>) -> Seq<char>;

/// The text that a byte buffer is read as: its UTF-8 decoding where it is
/// well formed, and the lossy decoding otherwise.
pub open spec fn text_of(bytes: Seq<u8>) -> Seq<char> {
    if valid_utf8(bytes) {
        decode_utf8(bytes)
    } else {
        lossy_text(bytes)
    }
}

/// `String::from_utf8_lossy`: valid UTF-8 is decoded as it stands; for any
/// other input the result is only named, as a function of the bytes.
#[verifier::external_body]
pub(crate) fn from_utf8_lossy(bytes: &Vec<u8>) -> (text: String)
    ensures
        valid_utf8(bytes@) ==> text@ == decode_utf8(bytes@),
        !valid_utf8(bytes@) ==> text@ == lossy_text(bytes@),
{
    String::from_utf8_lossy(bytes).to_string()
}

} // verus!
