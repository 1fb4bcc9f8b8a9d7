//! Text conversions the codec needs from the standard library: UTF-8
//! decoding, Unicode lower-casing and the Unicode white-space test.
//! Each is wrapped once, with its behaviour stated over vstd's UTF-8 model
//! or named by an uninterpreted function where only determinism is claimed.

use vstd::prelude::*;
use vstd::string::StrSliceExecFns;
use vstd::utf8::{decode_utf8, valid_utf8};

verus! {

/// What `str::to_lowercase` returns for a given character sequence.
/// The mapping is a fixed function of the characters alone.
pub uninterp spec fn lower_of(s: Seq<char>) -> Seq<char>;

/// Whether a character has the Unicode `White_Space` property, as
/// `char::is_whitespace` reports it.  A fixed function of the character.
pub uninterp spec fn is_unicode_space(c: char) -> bool;

/// Relies on `str::from_utf8`: it succeeds exactly on valid UTF-8 and
/// returns the string those bytes encode; `to_owned` copies it.
#[verifier::external_body]
pub(crate) fn utf8_to_string(bytes: &[u8]) -> (r: Option<String>)
    ensures
        match r {
            Some(s) => valid_utf8(bytes@) && s@ == decode_utf8(bytes@),
            None => !valid_utf8(bytes@),
        },
{
    match core::str::from_utf8(bytes) {
        Ok(s) => Some(s.to_owned()),
        Err(_) => None,
    }
}

/// Relies on `str::to_lowercase`: the result depends on the characters alone.
#[verifier::external_body]
pub(crate) fn to_lowercase_string(s: &str) -> (r: String)
    ensures
        r@ == lower_of(s@),
{
    s.to_lowercase()
}

/// Relies on `char::is_whitespace`: reports the `White_Space` property.
#[verifier::external_body]
pub(crate) fn is_space_char(c: char) -> (r: bool)
    ensures
        r == is_unicode_space(c),
{
    c.is_whitespace()
}

/// The sequence with the trailing white-space characters removed, as
/// `str::trim_end` leaves it.
pub open spec fn trim_end_of(s: Seq<char>) -> Seq<char>
    decreases s.len(),
{
    if s.len() == 0 {
        s
    } else if is_unicode_space(s.last()) {
        trim_end_of(s.drop_last())
    } else {
        s
    }
}

/// Removes trailing white space from a string, as `str::trim_end` does.
pub fn trim_end_string(s: &str) -> (r: String)
    ensures
        r@ == trim_end_of(s@),
{
    let len = s.unicode_len();
    let mut keep = len;
    proof {
        assert(s@.take(len as int) =~= s@);
    }
    loop
        invariant
            keep <= len,
            len == s@.len(),
            trim_end_of(s@) == trim_end_of(s@.take(keep as int)),
        decreases keep,
    {
        if keep == 0 {
            return String::new();
        }
        let c = s.get_char(keep - 1);
        if !is_space_char(c) {
            let kept = s.substring_char(0, keep);
            proof {
                assert(s@.take(keep as int).last() == c);
                assert(trim_end_of(s@.take(keep as int)) == s@.take(keep as int));
                assert(s@.take(keep as int) =~= kept@);
            }
            return kept.to_owned();
        }
        proof {
            assert(s@.take(keep as int).drop_last() =~= s@.take(keep - 1));
        }
        keep = keep - 1;
    }
}

} // verus!
