//! Document persistence: the data the container format is built from.
//!
//! The framing and the actual reading and writing of files belong to the
//! embedding layer; the core only defines the values that cross that
//! boundary and the rules for data from a newer format version.

use vstd::prelude::*;

pub mod riff;

verus! {

/// Why a document could not be written out.
#[derive(Clone, PartialEq, Eq, Debug)]
pub enum WriteError {
    /// The underlying writer failed; the message says how.
    IO(String),
    /// The data could not be assembled; the message says why.
    Other(String),
}

/// How a reader that meets a chunk from a newer format version than it
/// supports is to treat it.
#[derive(PartialEq, Eq, Structural, Debug, Clone, Copy)]
pub enum OrphanMode {
    /// Keep the chunk's data unread, and write it back out.
    Keep,
    /// Drop the chunk.
    Discard,
    /// Refuse to load the document.
    Deny,
}

/// The orphan mode a marker byte stands for, if any.
pub open spec fn spec_orphan_mode(byte: u8) -> Option<OrphanMode> {
    if byte == 0 {
        Some(OrphanMode::Keep)
    } else if byte == 1 {
        Some(OrphanMode::Discard)
    } else if byte == 2 {
        Some(OrphanMode::Deny)
    } else {
        None
    }
}

impl OrphanMode {
    /// Decode an orphan-mode marker byte; bytes past the known modes are
    /// rejected.
    pub fn from_byte(byte: u8) -> (r: Option<Self>)
        ensures
            r == spec_orphan_mode(byte),
    {
        match byte {
            0 => Some(Self::Keep),
            1 => Some(Self::Discard),
            2 => Some(Self::Deny),
            _ => None,
        }
    }
}

/// A format version: major, minor, patch.
#[derive(PartialEq, Eq, Structural, Debug, Clone, Copy)]
pub struct Version(pub u8, pub u8, pub u8);

impl Version {
    /// The version this core writes.
    pub fn current() -> (r: Self)
        ensures
            r == Version(0, 0, 0),
    {
        Version(0, 0, 0)
    }
}

/// The version-and-orphan-mode header every versioned chunk carries.
#[derive(PartialEq, Eq, Structural, Debug, Clone, Copy)]
pub struct VersionedChunkHeader(pub Version, pub OrphanMode);

/// Data read from a file newer than this version supports, but marked by
/// its writer as keepable: carried along unread and written back out
/// under the same parent chunk.
pub struct OrphanedData {
    /// Where in the chunk tree the data belongs. Only the parent is
    /// fixed; the index within the parent is free.
    pub position: (),
    /// The chunk's identifier.
    pub id: riff::ChunkID,
    /// The version that wrote the chunk.
    pub version: Version,
    /// The entire chunk, header included.
    pub data: Vec<u8>,
}

} // verus!
