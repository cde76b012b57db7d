//! The content codings a response body can carry.

use vstd::prelude::*;

verus! {

/// How the bytes of a response body are encoded.
#[derive(Clone, Copy, Debug, PartialEq, Eq, Structural)]
pub enum Encoding {
    Gzip,
    Brotli,
    Identity,
}

impl Encoding {
    /// The token that names this coding in a `Content-Encoding` header.
    pub open spec fn token(self) -> Seq<char> {
        match self {
            Encoding::Gzip => "gzip"@,
            Encoding::Brotli => "br"@,
            Encoding::Identity => "identity"@,
        }
    }

    /// The token that names this coding in a `Content-Encoding` header.
    pub fn to_str(self) -> (s: &'static str)
        ensures
            s@ == self.token(),
    {
        match self {
            Encoding::Gzip => "gzip",
            Encoding::Brotli => "br",
            Encoding::Identity => "identity",
        }
    }
}

} // verus!
