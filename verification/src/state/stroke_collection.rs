//! Strokes and ordered collections of strokes.
//!
//! A stroke's content is immutable once recorded; only its activity flag
//! moves, in lockstep with paired Do/Undo commands, which gives soft
//! deletion for undo. Identity is never reassigned.

use vstd::prelude::*;

use crate::commands::{CommandError, DoUndo, StrokeCollectionCommand, StrokeCommand};
use crate::state::StrokeBrushSettings;

verus! {

/// Identifier of one stroke collection, minted by the embedding session.
#[derive(Clone, Copy, PartialEq, Eq, Structural, Debug)]
pub struct StrokeCollectionID(pub u64);

/// Identifier of one stroke. Minted by the command queue when the stroke
/// is recorded; not required to be dense or ordered, to leave room for
/// cross-process reconciliation.
#[derive(Clone, Copy, PartialEq, Eq, Structural, Debug)]
pub struct ImmutableStrokeID(pub u64);

/// A recorded stroke: immutable content plus the identity it keeps for
/// the rest of its life. The points themselves are owned by the point
/// repository, not by the stroke.
#[derive(Clone, Copy, PartialEq, Eq, Structural, Debug)]
pub struct ImmutableStroke {
    pub id: ImmutableStrokeID,
    pub brush: StrokeBrushSettings,
    /// Handle of the stroke's path in the point repository.
    pub point_collection: crate::repositories::points::PointCollectionID,
}

/// Index of the first stroke carrying `id`, or -1 when no stroke does.
pub open spec fn spec_first_index(strokes: Seq<ImmutableStroke>, id: ImmutableStrokeID) -> int
    decreases strokes.len(),
{
    if strokes.len() == 0 {
        -1
    } else if strokes[0].id == id {
        0
    } else {
        let rest = spec_first_index(strokes.subrange(1, strokes.len() as int), id);
        if rest < 0 {
            -1
        } else {
            rest + 1
        }
    }
}

/// The strokes of a collection that are active, in stored order.
pub open spec fn spec_active_list(strokes: Seq<ImmutableStroke>, active: Seq<bool>) -> Seq<
    ImmutableStroke,
>
    decreases strokes.len(),
{
    if strokes.len() == 0 {
        Seq::empty()
    } else {
        spec_active_list(strokes.drop_last(), active.drop_last()) + (if active[strokes.len()
            - 1] {
            seq![strokes.last()]
        } else {
            Seq::empty()
        })
    }
}

/// An ordered, soft-deletable list of strokes.
pub struct StrokeCollection {
    pub id: StrokeCollectionID,
    /// The strokes, in paint order.
    pub strokes: Vec<ImmutableStroke>,
    /// Which strokes are active, i.e. not currently undone; one flag per
    /// stroke, by index.
    pub strokes_active: Vec<bool>,
}

/// What applying a Created command does to a collection's activity
/// flags: find the first stroke carrying the target id; fail with
/// `UnknownResource` when none does; fail with `MismatchedState` when the
/// stroke is already in the state the command would set or its stored
/// content disagrees with the command's payload; otherwise switch the
/// flag. The strokes themselves never change.
pub open spec fn spec_apply(
    strokes: Seq<ImmutableStroke>,
    active: Seq<bool>,
    command: DoUndo<StrokeCollectionCommand>,
) -> (Seq<bool>, Result<(), CommandError>) {
    let (target, brush, points, new_active) = match command {
        DoUndo::Do(
            StrokeCollectionCommand::Stroke(StrokeCommand::Created { target, brush, points }),
        ) => (target, brush, points, true),
        DoUndo::Undo(
            StrokeCollectionCommand::Stroke(StrokeCommand::Created { target, brush, points }),
        ) => (target, brush, points, false),
    };
    let fi = spec_first_index(strokes, target);
    if fi < 0 {
        (active, Err(CommandError::UnknownResource))
    } else if active[fi] == new_active || strokes[fi].point_collection != points || strokes[
        fi
    ].brush != brush {
        (active, Err(CommandError::MismatchedState))
    } else {
        (active.update(fi, new_active), Ok(()))
    }
}

impl StrokeCollection {
    /// One activity flag per stroke.
    pub open spec fn wf(&self) -> bool {
        self.strokes@.len() == self.strokes_active@.len()
    }

    /// An empty collection under the given identity.
    pub fn new(id: StrokeCollectionID) -> (r: Self)
        ensures
            r.wf(),
            r.id == id,
            r.strokes@ == Seq::<ImmutableStroke>::empty(),
    {
        StrokeCollection { id, strokes: Vec::new(), strokes_active: Vec::new() }
    }

    /// Append a stroke at the end, initially active.
    pub fn push_back(&mut self, stroke: ImmutableStroke)
        requires
            old(self).wf(),
        ensures
            final(self).wf(),
            final(self).id == old(self).id,
            final(self).strokes@ == old(self).strokes@.push(stroke),
            final(self).strokes_active@ == old(self).strokes_active@.push(true),
    {
        self.strokes.push(stroke);
        self.strokes_active.push(true);
    }

    /// Index of the first stroke carrying `id`, if any.
    fn find_index(&self, id: ImmutableStrokeID) -> (r: Option<usize>)
        ensures
            r matches Some(i) ==> i == spec_first_index(self.strokes@, id),
            r is None ==> spec_first_index(self.strokes@, id) == -1,
    {
        let mut i: usize = 0;
        while i < self.strokes.len()
            invariant
                i <= self.strokes@.len(),
                forall|j: int| 0 <= j < i ==> self.strokes@[j].id != id,
            decreases self.strokes@.len() - i,
        {
            if self.strokes[i].id == id {
                proof {
                    lemma_first_index_found(self.strokes@, id, i as int);
                }
                return Some(i);
            }
            i = i + 1;
        }
        proof {
            lemma_first_index_not_found(self.strokes@, id);
        }
        None
    }

    /// Get a stroke by id. Returns `None` if no stroke carries the id, or
    /// if the stroke has been undone. Linear by design: ids need not be
    /// dense or sortable.
    pub fn get(&self, id: ImmutableStrokeID) -> (r: Option<&ImmutableStroke>)
        requires
            self.wf(),
        ensures
            ({
                let fi = spec_first_index(self.strokes@, id);
                &&& (r is Some <==> fi >= 0 && self.strokes_active@[fi])
                &&& (r matches Some(stroke) ==> *stroke == self.strokes@[fi])
            }),
    {
        match self.find_index(id) {
            Some(i) => {
                proof {
                    lemma_first_index_bounds(self.strokes@, id);
                }
                if self.strokes_active[i] {
                    Some(&self.strokes[i])
                } else {
                    None
                }
            },
            None => None,
        }
    }

    /// The active strokes, in stored order.
    pub fn iter_active(&self) -> (r: Vec<ImmutableStroke>)
        requires
            self.wf(),
        ensures
            r@ == spec_active_list(self.strokes@, self.strokes_active@),
    {
        let mut out: Vec<ImmutableStroke> = Vec::new();
        let mut i: usize = 0;
        while i < self.strokes.len()
            invariant
                i <= self.strokes@.len(),
                self.wf(),
                out@ == spec_active_list(
                    self.strokes@.subrange(0, i as int),
                    self.strokes_active@.subrange(0, i as int),
                ),
            decreases self.strokes@.len() - i,
        {
            if self.strokes_active[i] {
                out.push(self.strokes[i]);
            }
            i = i + 1;
            proof {
                let s = self.strokes@.subrange(0, i as int);
                let a = self.strokes_active@.subrange(0, i as int);
                assert(s.drop_last() =~= self.strokes@.subrange(0, i - 1));
                assert(a.drop_last() =~= self.strokes_active@.subrange(0, i - 1));
            }
        }
        proof {
            assert(self.strokes@.subrange(0, self.strokes@.len() as int) =~= self.strokes@);
            assert(self.strokes_active@.subrange(0, self.strokes_active@.len() as int)
                =~= self.strokes_active@);
        }
        out
    }

    /// Apply a Do/Undo-tagged Created command: check that the live state
    /// agrees with the command, then switch the target's activity flag.
    /// On any disagreement the collection is left unchanged and the error
    /// says what went wrong, so replay of a corrupted or duplicated log
    /// is detected immediately.
    pub fn apply(&mut self, command: DoUndo<StrokeCollectionCommand>) -> (r: Result<
        (),
        CommandError,
    >)
        requires
            old(self).wf(),
        ensures
            final(self).wf(),
            final(self).id == old(self).id,
            final(self).strokes@ == old(self).strokes@,
            (final(self).strokes_active@, r) == spec_apply(
                old(self).strokes@,
                old(self).strokes_active@,
                command,
            ),
    {
        let (target, brush, points, new_active): (
            ImmutableStrokeID,
            StrokeBrushSettings,
            crate::repositories::points::PointCollectionID,
            bool,
        ) = match command {
            DoUndo::Do(
                StrokeCollectionCommand::Stroke(StrokeCommand::Created { target, brush, points }),
            ) => (target, brush, points, true),
            DoUndo::Undo(
                StrokeCollectionCommand::Stroke(StrokeCommand::Created { target, brush, points }),
            ) => (target, brush, points, false),
        };
        match self.find_index(target) {
            None => Err(CommandError::UnknownResource),
            Some(i) => {
                proof {
                    lemma_first_index_bounds(self.strokes@, target);
                }
                if self.strokes_active[i] == new_active || self.strokes[i].point_collection
                    != points || self.strokes[i].brush != brush {
                    Err(CommandError::MismatchedState)
                } else {
                    self.strokes_active[i] = new_active;
                    Ok(())
                }
            },
        }
    }
}

/// A first-index scan that stopped at `i` with a match, having passed no
/// earlier match, found the first index.
proof fn lemma_first_index_found(strokes: Seq<ImmutableStroke>, id: ImmutableStrokeID, i: int)
    requires
        0 <= i < strokes.len(),
        strokes[i].id == id,
        forall|j: int| 0 <= j < i ==> strokes[j].id != id,
    ensures
        spec_first_index(strokes, id) == i,
    decreases strokes.len(),
{
    if i > 0 {
        lemma_first_index_found(strokes.subrange(1, strokes.len() as int), id, i - 1);
    }
}

/// A full scan without a match means there is no first index.
proof fn lemma_first_index_not_found(strokes: Seq<ImmutableStroke>, id: ImmutableStrokeID)
    requires
        forall|j: int| 0 <= j < strokes.len() ==> strokes[j].id != id,
    ensures
        spec_first_index(strokes, id) == -1,
    decreases strokes.len(),
{
    if strokes.len() > 0 {
        lemma_first_index_not_found(strokes.subrange(1, strokes.len() as int), id);
    }
}

/// The first index is in bounds and carries the id when it is not -1.
pub proof fn lemma_first_index_bounds(strokes: Seq<ImmutableStroke>, id: ImmutableStrokeID)
    ensures
        spec_first_index(strokes, id) == -1 || (0 <= spec_first_index(strokes, id)
            < strokes.len() && strokes[spec_first_index(strokes, id)].id == id),
    decreases strokes.len(),
{
    if strokes.len() > 0 && strokes[0].id != id {
        lemma_first_index_bounds(strokes.subrange(1, strokes.len() as int), id);
    }
}

/// Re-applying a Do of the same Created command, without an intervening
/// Undo, fails with a mismatched-state error and leaves the activity
/// flags exactly as the first application set them.
pub proof fn lemma_reapply_do_fails(
    strokes: Seq<ImmutableStroke>,
    active: Seq<bool>,
    command: StrokeCollectionCommand,
)
    requires
        active.len() == strokes.len(),
        spec_apply(strokes, active, DoUndo::Do(command)).1 is Ok,
    ensures
        ({
            let once = spec_apply(strokes, active, DoUndo::Do(command)).0;
            spec_apply(strokes, once, DoUndo::Do(command)) == (
                once,
                Err::<(), CommandError>(CommandError::MismatchedState),
            )
        }),
{
    let target = match command {
        StrokeCollectionCommand::Stroke(StrokeCommand::Created { target, .. }) => target,
    };
    lemma_first_index_bounds(strokes, target);
}

} // verus!
