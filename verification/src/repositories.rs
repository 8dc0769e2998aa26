//! Repositories: arenas granting shared access to bulk document resources.
//!
//! A repository hands out opaque handles for immutable data and serves
//! lookups against them. Storage is resident for now; the fallible lookup
//! result already leaves room for a future tiered store that evicts.

use vstd::prelude::*;

pub mod points;

verus! {

/// Why a repository lookup could not hand the data out.
#[derive(Clone, Copy, PartialEq, Eq, Structural, Debug)]
pub enum TryRepositoryError {
    /// The resource exists but is not resident in memory. Reserved for a
    /// future evicting store; the current append-only policy never
    /// produces it.
    NotResident,
    /// The requested resource handle is not known.
    NotFound,
}

} // verus!
