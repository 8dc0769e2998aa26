//! Document state core of a layered painting tool.
//!
//! The crate holds the data structures the editor's document state is made
//! of: an append-only point repository, an ordered soft-deletable stroke
//! collection driven by replayable commands, a compositing tree (the blend
//! graph), a change tracker that computes which cached renders a batch of
//! edits staled, and the bookkeeping of a render cache that reconciles
//! materialized images against the tree. Windowing, GPU work and file I/O
//! are collaborators around this core and live outside the crate.

use vstd::prelude::*;

pub mod commands;
pub mod graph;
pub mod io;
pub mod renderer;
pub mod repositories;
pub mod state;

verus! {

/// A single sampled point of a stroke.
///
/// Every channel is carried as the raw 32-bit pattern of the sample the
/// input device produced; the core never does arithmetic on the samples,
/// it only stores, copies and compares them.
#[derive(Clone, Copy, PartialEq, Eq, Structural, Debug)]
pub struct StrokePoint {
    /// Horizontal position sample.
    pub x: u32,
    /// Vertical position sample.
    pub y: u32,
    /// Normalized pressure sample.
    pub pressure: u32,
    /// Cumulative arc length of the path at this point.
    pub dist: u32,
}

/// How a layer or group is combined with what lies beneath it.
#[derive(Clone, Copy, PartialEq, Eq, Structural, Debug)]
pub enum BlendMode {
    Normal,
    Add,
    Multiply,
    Screen,
}

/// A full blend assignment: mode, opacity and whether the layer clips to
/// the alpha of what is beneath. Opacity is carried as the raw bit
/// pattern of the sample; the core only stores and compares it.
#[derive(Clone, Copy, PartialEq, Eq, Structural, Debug)]
pub struct Blend {
    pub mode: BlendMode,
    /// Raw bits of the normalized opacity factor.
    pub opacity_bits: u32,
    pub alpha_clip: bool,
}

} // verus!
