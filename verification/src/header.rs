//! Reserved header names used by the frame codec.

use vstd::prelude::*;

verus! {

/// The header names the codec itself gives meaning to.
pub enum Headers {
    ContentLength,
    ContentType,
}

impl Headers {
    /// The on-wire spelling of the header name.
    pub open spec fn spec_name(self) -> Seq<char> {
        match self {
            Headers::ContentLength => "content-length"@,
            Headers::ContentType => "content_hyphen_type"@,
        }
    }

    /// Converts the header to its on-wire name.
    pub fn as_str(&self) -> (r: &'static str)
        ensures
            r@ == self.spec_name(),
    {
        match self {
            Headers::ContentLength => "content-length",
            Headers::ContentType => "content_hyphen_type",
        }
    }
}

} // verus!
