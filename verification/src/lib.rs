//! An archival index over a stream of social-media status records.
//!
//! Six record kinds share a single ordered key space, each selected by a
//! leading tag byte; multi-byte integers are big-endian so that lexicographic
//! byte order matches numeric order.

pub mod error;
pub mod extended;
pub mod full_status;
pub mod ids;
pub mod lookup;
pub mod merge;
pub mod order;
pub mod report;
pub mod screen_name;
pub mod store;
pub mod tag;
pub mod text;
pub mod user;

