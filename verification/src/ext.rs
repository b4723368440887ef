//! Trusted wrappers around standard-library UTF-8 conversions that Verus
//! gives no specification to.

use vstd::prelude::*;

verus! {

/// The text `String::from_utf8_lossy` produces for a byte string.
pub uninterp spec fn utf8_lossy_of(bytes: Seq<u8>) -> Seq<char>;

/// Relies on `str::from_utf8`: `Ok` exactly on valid UTF-8, yielding the
/// decoded characters.
#[verifier::external_body]
pub fn utf8_to_string(b: &[u8]) -> (r: Option<String>)
    ensures
        r matches Some(v) ==> vstd::utf8::valid_utf8(b@) && v@ == vstd::utf8::decode_utf8(b@),
        r is None ==> !vstd::utf8::valid_utf8(b@),
{
    core::str::from_utf8(b).ok().map(String::from)
}

/// Relies on `String::from_utf8_lossy`: invalid sequences become the
/// replacement character, and valid UTF-8 is returned unchanged; the
/// result depends on the bytes alone.
#[verifier::external_body]
pub fn utf8_lossy(b: &[u8]) -> (r: String)
    ensures
        r@ == utf8_lossy_of(b@),
        vstd::utf8::valid_utf8(b@) ==> r@ == vstd::utf8::decode_utf8(b@),
{
    String::from_utf8_lossy(b).into_owned()
}

} // verus!
