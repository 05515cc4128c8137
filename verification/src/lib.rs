pub mod codec;
pub mod digits;
pub mod pasta;
pub mod persist;
pub mod store;
pub mod text;

use vstd::prelude::*;

verus! {

/// A failure reported by the paste store or the identifier codec.
#[derive(Clone, Copy, Debug, PartialEq, Eq, Structural)]
pub enum StoreError {
    /// An expiration keyword that is not one of the recognized choices.
    InvalidExpirationChoice,
    /// A word sequence that does not denote a 64-bit identifier.
    InvalidIdentifier,
    /// The target of a lookup or removal is absent.
    NotFound,
    /// A snapshot exists but does not parse; fatal at startup, so that a
    /// corrupt store is never mistaken for an empty one.
    PersistenceCorrupt,
}

} // verus!
