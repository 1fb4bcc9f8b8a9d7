//! The gzip decompression step of the decoder, wrapped once.

use vstd::prelude::*;

verus! {

/// What gzip-decompressing a byte sequence and reading the result as text
/// yields: `Some` of the inflated text, or `None` when the bytes are not a
/// well-formed gzip stream of UTF-8 text.  A fixed function of the bytes.
pub uninterp spec fn inflated_text_of(b: Seq<u8>) -> Option<Seq<char>>;

/// Relies on `flate2::read::GzDecoder` together with
/// `std::io::Read::read_to_string`: decompressing a byte slice is a fixed
/// function of those bytes, succeeding exactly when they form a gzip
/// stream that inflates to UTF-8 text.
#[verifier::external_body]
pub(crate) fn gunzip_to_string(bytes: &[u8]) -> (r: Option<String>)
    ensures
        match r {
            Some(s) => inflated_text_of(bytes@) == Some(s@),
            None => inflated_text_of(bytes@) is None,
        },
{
    let mut decoder = flate2::read::GzDecoder::new(bytes);
    let mut text = String::new();
    match std::io::Read::read_to_string(&mut decoder, &mut text) {
        Ok(_) => Some(text),
        Err(_) => None,
    }
}

} // verus!
