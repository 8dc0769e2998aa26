//! The chunk identifiers of the container format. The chunked layout
//! itself — sizes, nesting, padding — is written and read by the
//! embedding layer.

use vstd::prelude::*;

verus! {

/// A four-byte chunk identifier.
#[derive(PartialEq, Eq, Debug, Clone, Copy)]
pub struct ChunkID(pub [u8; 4]);

} // verus!
