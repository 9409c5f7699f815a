//! The single-byte discriminator that prefixes every primary-store key.

use vstd::prelude::*;

verus! {

/// The record kinds that share the primary key space.
#[derive(Copy, Clone, PartialEq, Eq, Structural, Debug)]
pub enum Tag {
    User,
    ScreenName,
    ShortStatus,
    FullStatus,
    Delete,
    CompletedFile,
}

impl Tag {
    /// The on-disk byte for this record kind (a fixed contract).
    pub open spec fn spec_value(self) -> u8 {
        match self {
            Tag::User => 0,
            Tag::ScreenName => 1,
            Tag::FullStatus => 2,
            Tag::ShortStatus => 3,
            Tag::Delete => 4,
            Tag::CompletedFile => 16,
        }
    }

    /// The on-disk byte for this record kind.
    #[verifier::when_used_as_spec(spec_value)]
    pub fn value(self) -> (r: u8)
        ensures
            r == self.spec_value(),
    {
        match self {
            Tag::User => 0,
            Tag::ScreenName => 1,
            Tag::FullStatus => 2,
            Tag::ShortStatus => 3,
            Tag::Delete => 4,
            Tag::CompletedFile => 16,
        }
    }

    /// Whether `b` is the byte of any record kind.
    pub open spec fn spec_known(b: u8) -> bool {
        b == 0 || b == 1 || b == 2 || b == 3 || b == 4 || b == 16
    }
}

} // verus!
