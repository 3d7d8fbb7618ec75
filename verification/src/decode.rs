//! Decoding bytes read from files into text.

use vstd::prelude::*;
use vstd::utf8::*;

verus! {

/// What `String::from_utf8_lossy` makes of a byte sequence: its UTF-8 decoding, with each
/// ill-formed subsequence replaced by U+FFFD.
pub uninterp spec fn utf8_lossy(bytes: Seq<u8>) -> Seq<char>;

/// Calls `std::str::from_utf8`: it succeeds exactly on well-formed UTF-8 and then yields
/// the decoded characters.
#[verifier::external_body]
pub(crate) fn decode_strict(bytes: &[u8]) -> (out: Option<String>)
    ensures
        out is Some <==> valid_utf8(bytes@),
        out matches Some(s) ==> s@ == decode_utf8(bytes@),
{
    std::str::from_utf8(bytes).ok().map(|s| s.to_string())
}

/// The text read from bytes that may not be well-formed UTF-8: their decoding where they
/// are well-formed, else what `String::from_utf8_lossy` makes of them.
pub open spec fn lossy_text(bytes: Seq<u8>) -> Seq<char> {
    if valid_utf8(bytes) {
        decode_utf8(bytes)
    } else {
        utf8_lossy(bytes)
    }
}

/// Calls `String::from_utf8_lossy`. Its result is named `utf8_lossy`. The documentation
/// promises that only ill-formed sequences are replaced: well-formed UTF-8 decodes plainly,
/// and the characters of a well-formed prefix start the result.
#[verifier::external_body]
pub(crate) fn decode_lossy(bytes: &[u8]) -> (out: String)
    ensures
        out@ == utf8_lossy(bytes@),
        valid_utf8(bytes@) ==> out@ == decode_utf8(bytes@),
        forall|k: int|
            0 <= k <= bytes@.len() && valid_utf8(#[trigger] bytes@.take(k)) ==> decode_utf8(bytes@.take(k)).is_prefix_of(out@),
{
    String::from_utf8_lossy(bytes).into_owned()
}

} // verus!
