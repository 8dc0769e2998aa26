//! Commands: the replayable units of document mutation.
//!
//! Every edit is recorded as a command that can be applied forwards (Do)
//! or backwards (Undo). A consumer checks that the live state agrees with
//! the command's payload before switching it, so replay of a corrupted or
//! duplicated log is detected immediately instead of drifting silently.

use vstd::prelude::*;

verus! {

/// A command together with the direction it is to be applied in.
#[derive(Clone, Copy, PartialEq, Eq, Structural, Debug)]
pub enum DoUndo<C> {
    /// Apply the command forwards.
    Do(C),
    /// Apply the command backwards.
    Undo(C),
}

/// Why a command could not be applied to the live state.
#[derive(Clone, Copy, PartialEq, Eq, Structural, Debug)]
pub enum CommandError {
    /// The resource the command targets does not exist.
    UnknownResource,
    /// The live state disagrees with the command: the target is already
    /// in the state the command would set, or the stored content does not
    /// match the command's payload.
    MismatchedState,
}

/// A command on a single stroke.
#[derive(Clone, Copy, PartialEq, Eq, Structural, Debug)]
pub enum StrokeCommand {
    /// A stroke with this content was created. Doing it activates the
    /// stroke; undoing it deactivates it again.
    Created {
        /// The stroke the command speaks of.
        target: crate::state::stroke_collection::ImmutableStrokeID,
        /// The brush settings the stroke was made with.
        brush: crate::state::StrokeBrushSettings,
        /// The point collection holding the stroke's path.
        points: crate::repositories::points::PointCollectionID,
    },
}

/// A command on a stroke collection.
#[derive(Clone, Copy, PartialEq, Eq, Structural, Debug)]
pub enum StrokeCollectionCommand {
    /// A command on one stroke of the collection.
    Stroke(StrokeCommand),
}

} // verus!
