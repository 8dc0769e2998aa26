//! Tests of the persistence-facing data types.

use fuzzpaint::io::riff::ChunkID;
use fuzzpaint::io::{OrphanMode, OrphanedData, Version, VersionedChunkHeader, WriteError};

#[test]
fn orphan_mode_decodes_known_bytes_only() {
    assert_eq!(OrphanMode::from_byte(0), Some(OrphanMode::Keep));
    assert_eq!(OrphanMode::from_byte(1), Some(OrphanMode::Discard));
    assert_eq!(OrphanMode::from_byte(2), Some(OrphanMode::Deny));
    assert_eq!(OrphanMode::from_byte(3), None);
    assert_eq!(OrphanMode::from_byte(255), None);
}

#[test]
fn current_version_is_zero() {
    assert_eq!(Version::current(), Version(0, 0, 0));
    let header = VersionedChunkHeader(Version::current(), OrphanMode::Keep);
    assert_eq!(header.0, Version(0, 0, 0));
    assert_eq!(header.1, OrphanMode::Keep);
}

#[test]
fn orphaned_data_carries_the_chunk_whole() {
    let orphan = OrphanedData {
        position: (),
        id: ChunkID(*b"GRPH"),
        version: Version(9, 9, 9),
        data: vec![1, 2, 3],
    };
    assert_eq!(orphan.id, ChunkID(*b"GRPH"));
    assert_ne!(orphan.id, ChunkID(*b"DICT"));
    assert_eq!(orphan.version, Version(9, 9, 9));
    assert_eq!(orphan.data.len(), 3);
}

#[test]
fn write_errors_carry_their_message() {
    let io = WriteError::IO(String::from("disk full"));
    let other = WriteError::Other(String::from("bad graph"));
    assert_ne!(io, other);
    assert_eq!(io, WriteError::IO(String::from("disk full")));
}
