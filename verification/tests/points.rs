//! Tests of the point repository: insertion, lookup, serialization.

use fuzzpaint::repositories::points::{
    CollectionSummary, PointArchetype, PointRepository, WriteError, ARCHETYPE_ARC_LENGTH,
    ARCHETYPE_POSITION, ARCHETYPE_PRESSURE, ARCHETYPE_TILT, POINT_BYTES, SLAB_SIZE,
};
use fuzzpaint::repositories::TryRepositoryError;
use fuzzpaint::StrokePoint;

fn pt(x: u32, y: u32, pressure: u32, dist: u32) -> StrokePoint {
    StrokePoint { x, y, pressure, dist }
}

#[test]
fn archetype_len_counts_two_field_channels_twice() {
    let full = PointArchetype { bits: 0b1111_1111 };
    // Eight channels, of which position and tilt carry two elements.
    assert_eq!(full.len(), 10);
    assert_eq!(full.len_bytes(), 40);

    let stroke = PointArchetype {
        bits: ARCHETYPE_POSITION | ARCHETYPE_ARC_LENGTH | ARCHETYPE_PRESSURE,
    };
    assert_eq!(stroke.len(), 4);
    assert_eq!(stroke.len_bytes(), POINT_BYTES);

    let tilt_only = PointArchetype { bits: ARCHETYPE_TILT };
    assert_eq!(tilt_only.len(), 2);

    let empty = PointArchetype { bits: 0 };
    assert_eq!(empty.len(), 0);
    assert_eq!(empty.len_bytes(), 0);
}

#[test]
fn summary_reports_length_and_final_arc_length() {
    let points = vec![pt(1, 2, 3, 10), pt(4, 5, 6, 20)];
    let summary = CollectionSummary::from_points(&points);
    assert_eq!(summary.len, 2);
    assert_eq!(summary.arc_length, Some(20));
    assert!(summary.archetype.contains(ARCHETYPE_POSITION));
    assert!(summary.archetype.contains(ARCHETYPE_ARC_LENGTH));
    assert!(summary.archetype.contains(ARCHETYPE_PRESSURE));

    let empty: Vec<StrokePoint> = Vec::new();
    assert_eq!(CollectionSummary::from_points(&empty).arc_length, Some(0));
}

#[test]
fn insert_three_points_round_trips() {
    // Scenario: empty repository, one small collection.
    let mut repo = PointRepository::new();
    let points = vec![pt(1, 1, 100, 0), pt(2, 2, 200, 5), pt(3, 3, 300, 9)];
    let a = repo.insert(&points).expect("three points fit well within a slab");

    let summary = repo.summary_of(a).expect("handle just returned must be known");
    assert_eq!(summary.len, 3);
    assert!(summary.archetype.contains(ARCHETYPE_POSITION));
    assert!(summary.archetype.contains(ARCHETYPE_ARC_LENGTH));
    assert!(summary.archetype.contains(ARCHETYPE_PRESSURE));
    assert_eq!(summary.arc_length, Some(9));

    let lock = repo.try_get(a).expect("handle just returned must be readable");
    assert_eq!(lock.as_ref().as_slice(), points.as_slice());
}

#[test]
fn oversized_insert_is_rejected_and_changes_nothing() {
    let mut repo = PointRepository::new();
    let small = vec![pt(7, 7, 7, 7)];
    repo.insert(&small).expect("one point fits");
    let usage_before = repo.resident_usage();

    let too_large = vec![pt(0, 0, 0, 0); SLAB_SIZE + 1];
    assert!(repo.insert(&too_large).is_none());
    assert_eq!(repo.resident_usage(), usage_before);

    // The repository still takes and serves new data.
    let next = repo.insert(&small).unwrap();
    let lock = repo.try_get(next).unwrap();
    assert_eq!(lock.as_ref().as_slice(), small.as_slice());
}

#[test]
fn insert_at_exact_capacity_succeeds() {
    let mut repo = PointRepository::new();
    let full_slab = vec![pt(1, 2, 3, 4); SLAB_SIZE];
    let id = repo.insert(&full_slab).expect("a collection of exactly one slab fits");
    let summary = repo.summary_of(id).unwrap();
    assert_eq!(summary.len, SLAB_SIZE);
    let (used, capacity) = repo.resident_usage();
    assert_eq!(used, SLAB_SIZE * POINT_BYTES);
    assert_eq!(capacity, SLAB_SIZE * POINT_BYTES);
}

#[test]
fn many_inserts_read_back_intact() {
    // A batch of inserts, none lost, none corrupted.
    let mut repo = PointRepository::new();
    let mut handles = Vec::new();
    for k in 0..64u32 {
        let points = vec![pt(k, k + 1, k + 2, k + 3), pt(k * 10, k, k, k * 2)];
        handles.push((repo.insert(&points).unwrap(), points));
    }
    for (handle, points) in &handles {
        let lock = repo.try_get(*handle).unwrap();
        assert_eq!(lock.as_ref().as_slice(), points.as_slice());
    }
}

#[test]
fn second_slab_is_added_when_the_first_is_full() {
    let mut repo = PointRepository::new();
    let full_slab = vec![pt(1, 1, 1, 1); SLAB_SIZE];
    repo.insert(&full_slab).unwrap();
    let one = vec![pt(9, 9, 9, 9)];
    let id = repo.insert(&one).expect("a fresh slab takes the overflow");
    let (used, capacity) = repo.resident_usage();
    assert_eq!(used, (SLAB_SIZE + 1) * POINT_BYTES);
    assert_eq!(capacity, 2 * SLAB_SIZE * POINT_BYTES);
    let lock = repo.try_get(id).unwrap();
    assert_eq!(lock.as_ref().as_slice(), one.as_slice());
}

#[test]
fn unknown_handles_are_not_found() {
    let mut repo = PointRepository::new();
    let id = repo.insert(&vec![pt(1, 2, 3, 4)]).unwrap();

    let other = PointRepository::new();
    assert!(other.summary_of(id).is_none());
    match other.try_get(id) {
        Err(TryRepositoryError::NotFound) => {}
        _ => panic!("an unknown handle must be NotFound"),
    }
    // The repository that minted the handle still serves it.
    assert!(repo.try_get(id).is_ok());
}

#[test]
fn write_into_encodes_channels_little_endian() {
    let mut repo = PointRepository::new();
    let points = vec![pt(0x0102_0304, 0x0506_0708, 0x090A_0B0C, 0x0D0E_0F10)];
    let id = repo.insert(&points).unwrap();
    let bytes = repo.write_into(&vec![id]).expect("known handles encode");
    assert_eq!(
        bytes,
        vec![
            0x04, 0x03, 0x02, 0x01, // x
            0x08, 0x07, 0x06, 0x05, // y
            0x0C, 0x0B, 0x0A, 0x09, // pressure
            0x10, 0x0F, 0x0E, 0x0D, // dist
        ]
    );
}

#[test]
fn write_into_concatenates_in_request_order() {
    let mut repo = PointRepository::new();
    let first = vec![pt(1, 0, 0, 0)];
    let second = vec![pt(2, 0, 0, 0), pt(3, 0, 0, 0)];
    let a = repo.insert(&first).unwrap();
    let b = repo.insert(&second).unwrap();
    let ab = repo.write_into(&vec![a, b]).unwrap();
    let ba = repo.write_into(&vec![b, a]).unwrap();
    assert_eq!(ab.len(), 3 * POINT_BYTES);
    assert_eq!(ba.len(), 3 * POINT_BYTES);
    assert_eq!(ab[0], 1);
    assert_eq!(ba[0], 2);
    assert_eq!(&ab[..POINT_BYTES], &ba[2 * POINT_BYTES..]);
}

#[test]
fn write_into_reports_the_first_unknown_handle() {
    let mut repo = PointRepository::new();
    let id = repo.insert(&vec![pt(1, 2, 3, 4)]).unwrap();
    let stranger = {
        let mut other = PointRepository::new();
        other.insert(&vec![pt(0, 0, 0, 0)]).unwrap();
        other.insert(&vec![pt(0, 0, 0, 0)]).unwrap()
    };
    match repo.write_into(&vec![id, stranger]) {
        Err(WriteError::UnknownID(bad)) => assert_eq!(bad, stranger),
        _ => panic!("an unknown handle must be reported"),
    }
}
