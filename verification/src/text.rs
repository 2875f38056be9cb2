//! Turning bytes into text with std's UTF-8 conversions.
use vstd::prelude::*;
use vstd::string::StringSliceAdditionalSpecFns;
use vstd::utf8::valid_utf8;

verus! {

/// The text that `String::from_utf8_lossy` makes of `b`: the characters that
/// `b` encodes, with each invalid sequence replaced by U+FFFD.
pub uninterp spec fn utf8_lossy(b: Seq<u8>) -> Seq<char>;

/// `core::str::from_utf8`: the text that `b` encodes, exactly when `b` is
/// valid UTF-8; the slice borrows `b`'s bytes.
#[verifier::external_body]
pub(crate) fn str_from_utf8<'x>(b: &'x [u8]) -> (r: Option<&'x str>)
    ensures
        r is Some <==> valid_utf8(b@),
        r matches Some(s) ==> s.spec_bytes() == b@,
{
    core::str::from_utf8(b).ok()
}

/// `String::from_utf8_lossy(b).to_string()`: the text of `b`, which is
/// exactly what `b` encodes when `b` is valid UTF-8.
#[verifier::external_body]
pub(crate) fn string_from_utf8_lossy(b: &[u8]) -> (s: String)
    ensures
        s@ == utf8_lossy(b@),
        valid_utf8(b@) ==> s@ == vstd::utf8::decode_utf8(b@),
{
    String::from_utf8_lossy(b).to_string()
}

} // verus!
