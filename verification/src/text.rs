//! Text decoded from bytes, through the standard library.

use vstd::prelude::*;
use vstd::utf8::{decode_first_scalar, decode_utf8, pop_first_scalar, valid_first_scalar, valid_utf8};

verus! {

/// The text that `String::from_utf8_lossy` makes of `bytes`: invalid sequences become
/// U+FFFD.
pub uninterp spec fn utf8_lossy(bytes: Seq<u8>) -> Seq<char>;

/// The text of `bytes` as `String::from_utf8_lossy` makes it: the characters they encode
/// where they are valid UTF-8.
pub open spec fn text_of(bytes: Seq<u8>) -> Seq<char> {
    if valid_utf8(bytes) {
        decode_utf8(bytes)
    } else {
        utf8_lossy(bytes)
    }
}

/// A sequence that starts with an ASCII byte starts with a valid scalar: that byte.
proof fn lemma_ascii_first(bytes: Seq<u8>)
    requires
        bytes.len() >= 1,
        bytes[0] < 0x80,
    ensures
        valid_first_scalar(bytes),
        decode_first_scalar(bytes) == bytes[0] as u32,
        pop_first_scalar(bytes) == bytes.subrange(1, bytes.len() as int),
{
    let b = bytes[0];
    assert(b & 0x7f == b) by (bit_vector)
        requires
            b < 0x80,
    ;
}

/// ASCII bytes are valid UTF-8, and encode the characters of their values.
pub(crate) proof fn lemma_ascii_text(bytes: Seq<u8>)
    requires
        forall|k: int| 0 <= k < bytes.len() ==> #[trigger] bytes[k] < 0x80,
    ensures
        valid_utf8(bytes),
        decode_utf8(bytes) == bytes.map_values(|b: u8| (b as u32) as char),
    decreases bytes.len(),
{
    if bytes.len() > 0 {
        lemma_ascii_first(bytes);
        let rest = bytes.subrange(1, bytes.len() as int);
        lemma_ascii_text(rest);
        assert(decode_utf8(bytes) =~= bytes.map_values(|b: u8| (b as u32) as char));
    } else {
        assert(decode_utf8(bytes) =~= bytes.map_values(|b: u8| (b as u32) as char));
    }
}

/// The four bytes `Exif` are the text `Exif`.
pub proof fn lemma_exif_text()
    ensures
        text_of(seq![0x45u8, 0x78u8, 0x69u8, 0x66u8]) == seq!['E', 'x', 'i', 'f'],
{
    let b = seq![0x45u8, 0x78u8, 0x69u8, 0x66u8];
    lemma_ascii_text(b);
    assert(b.map_values(|x: u8| (x as u32) as char) =~= seq!['E', 'x', 'i', 'f']);
}

/// Whether `bytes` are valid UTF-8.
///
/// Calls `std::str::from_utf8`, which returns `Ok` exactly when the bytes are valid
/// UTF-8; the contract states this with vstd's definition of valid UTF-8.
#[verifier::external_body]
pub(crate) fn is_utf8(bytes: &[u8]) -> (r: bool)
    ensures
        r == valid_utf8(bytes@),
{
    std::str::from_utf8(bytes).is_ok()
}

/// The text of `bytes`, with each invalid sequence replaced by U+FFFD.
///
/// Calls `String::from_utf8_lossy`; the contract names its result `utf8_lossy`, and says
/// of it only what the standard library documents for valid input: valid UTF-8 comes
/// back as the text it encodes. What invalid input becomes is left unsaid.
#[verifier::external_body]
pub(crate) fn lossy_string(bytes: &[u8]) -> (r: String)
    ensures
        r@ == utf8_lossy(bytes@),
        valid_utf8(bytes@) ==> r@ == decode_utf8(bytes@),
{
    String::from_utf8_lossy(bytes).into_owned()
}

} // verus!
