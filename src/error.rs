//! The ways a render run can fail.
use vstd::prelude::*;

verus! {

/// What went wrong. Every kind is fatal to the run that meets it.
#[derive(Clone, Copy, Debug, PartialEq, Eq, Structural)]
pub enum ErrorKind {
    /// A tile does not fit the frame it is composited into, or its pixel data
    /// does not have the size of a tile.
    InvalidTileGeometry,
    /// The rendering backend could not accept a tile.
    BackendSubmitFailed,
    /// The rendering backend could not deliver a tile's pixels.
    BackendRetrieveFailed,
    /// The output sink could not store a finished frame.
    OutputWriteFailed,
}

} // verus!
