//! Live document state: the data a document is edited through.

use vstd::prelude::*;

pub mod stroke_collection;

verus! {

/// Identifier of one open document, minted by the embedding session.
#[derive(Clone, Copy, PartialEq, Eq, Structural, Debug)]
pub struct DocumentID(pub u64);

/// The brush configuration a stroke was drawn with. Scalar settings are
/// carried as the raw bit patterns of the samples; the core only stores
/// and compares them.
#[derive(Clone, Copy, PartialEq, Eq, Structural, Debug)]
pub struct StrokeBrushSettings {
    /// Handle of the brush resource used.
    pub brush: u64,
    /// Raw bits of the brush size factor.
    pub size_bits: u32,
    /// Whether the stroke erases instead of painting.
    pub is_eraser: bool,
}

} // verus!
