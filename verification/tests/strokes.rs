//! Tests of the stroke collection and command application.

use fuzzpaint::commands::{CommandError, DoUndo, StrokeCollectionCommand, StrokeCommand};
use fuzzpaint::repositories::points::PointRepository;
use fuzzpaint::state::stroke_collection::{
    ImmutableStroke, ImmutableStrokeID, StrokeCollection, StrokeCollectionID,
};
use fuzzpaint::state::StrokeBrushSettings;
use fuzzpaint::StrokePoint;

fn brush() -> StrokeBrushSettings {
    StrokeBrushSettings { brush: 42, size_bits: 0x4120_0000, is_eraser: false }
}

fn sample_stroke(id: u64) -> ImmutableStroke {
    let mut repo = PointRepository::new();
    let points = vec![StrokePoint { x: 0, y: 0, pressure: 1, dist: 0 }];
    ImmutableStroke {
        id: ImmutableStrokeID(id),
        brush: brush(),
        point_collection: repo.insert(&points).unwrap(),
    }
}

fn created(stroke: &ImmutableStroke) -> StrokeCollectionCommand {
    StrokeCollectionCommand::Stroke(StrokeCommand::Created {
        target: stroke.id,
        brush: stroke.brush,
        points: stroke.point_collection,
    })
}

#[test]
fn push_back_starts_active() {
    let mut collection = StrokeCollection::new(StrokeCollectionID(1));
    let stroke = sample_stroke(10);
    collection.push_back(stroke);
    let got = collection.get(ImmutableStrokeID(10)).expect("a pushed stroke is active");
    assert_eq!(got.id, ImmutableStrokeID(10));
    assert_eq!(got.brush, brush());
    assert!(collection.get(ImmutableStrokeID(11)).is_none());
}

#[test]
fn undo_deactivates_and_do_reactivates() {
    let mut collection = StrokeCollection::new(StrokeCollectionID(1));
    let stroke = sample_stroke(10);
    collection.push_back(stroke);
    let cmd = created(&stroke);

    collection.apply(DoUndo::Undo(cmd)).expect("undoing an active stroke succeeds");
    assert!(collection.get(stroke.id).is_none());
    assert!(collection.iter_active().is_empty());

    collection.apply(DoUndo::Do(cmd)).expect("redoing an undone stroke succeeds");
    assert!(collection.get(stroke.id).is_some());
    assert_eq!(collection.iter_active().len(), 1);
}

#[test]
fn reapplying_do_fails_with_mismatched_state() {
    // Do(Created) twice without an intervening Undo: the second must be
    // rejected and the activity stays exactly as the first set it.
    let mut collection = StrokeCollection::new(StrokeCollectionID(1));
    let stroke = sample_stroke(10);
    collection.push_back(stroke);
    let cmd = created(&stroke);

    collection.apply(DoUndo::Undo(cmd)).unwrap();
    collection.apply(DoUndo::Do(cmd)).expect("first Do succeeds");
    assert_eq!(collection.apply(DoUndo::Do(cmd)), Err(CommandError::MismatchedState));
    assert!(collection.get(stroke.id).is_some(), "activity stays as the first Do set it");
}

#[test]
fn reapplying_undo_fails_with_mismatched_state() {
    let mut collection = StrokeCollection::new(StrokeCollectionID(1));
    let stroke = sample_stroke(10);
    collection.push_back(stroke);
    let cmd = created(&stroke);

    collection.apply(DoUndo::Undo(cmd)).unwrap();
    assert_eq!(collection.apply(DoUndo::Undo(cmd)), Err(CommandError::MismatchedState));
    assert!(collection.get(stroke.id).is_none());
}

#[test]
fn mismatched_payload_is_rejected() {
    let mut collection = StrokeCollection::new(StrokeCollectionID(1));
    let stroke = sample_stroke(10);
    collection.push_back(stroke);

    let mut wrong_brush = brush();
    wrong_brush.is_eraser = true;
    let cmd = StrokeCollectionCommand::Stroke(StrokeCommand::Created {
        target: stroke.id,
        brush: wrong_brush,
        points: stroke.point_collection,
    });
    assert_eq!(collection.apply(DoUndo::Undo(cmd)), Err(CommandError::MismatchedState));
    assert!(collection.get(stroke.id).is_some(), "a rejected command changes nothing");
}

#[test]
fn unknown_target_is_rejected() {
    let mut collection = StrokeCollection::new(StrokeCollectionID(1));
    let stroke = sample_stroke(10);
    let cmd = created(&stroke);
    assert_eq!(collection.apply(DoUndo::Do(cmd)), Err(CommandError::UnknownResource));
}

#[test]
fn iter_active_keeps_stored_order() {
    let mut collection = StrokeCollection::new(StrokeCollectionID(1));
    let first = sample_stroke(1);
    let second = sample_stroke(2);
    let third = sample_stroke(3);
    collection.push_back(first);
    collection.push_back(second);
    collection.push_back(third);
    collection.apply(DoUndo::Undo(created(&second))).unwrap();

    let active = collection.iter_active();
    assert_eq!(active.len(), 2);
    assert_eq!(active[0].id, ImmutableStrokeID(1));
    assert_eq!(active[1].id, ImmutableStrokeID(3));
}
