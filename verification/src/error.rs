//! The errors the index surfaces to its callers.

use crate::merge::MergeCollision;
use vstd::prelude::*;

verus! {

/// A failure surfaced by the read or write layer: a key whose bytes do not
/// fit any record kind's shape, or a full-status merge whose writes
/// disagree.
#[derive(Debug, PartialEq, Eq)]
pub enum Error {
    UnexpectedKey(String),
    Collision(MergeCollision),
}

} // verus!
