//! Tiled rendering of large images: a planner that splits a frame into tiles,
//! a compositor that copies rendered tiles into a frame buffer, and a scheduler
//! that keeps a rendering backend fed and reassembles its results into frames.
use vstd::prelude::*;

pub mod error;
pub mod jobs;
pub mod pixels;
pub mod progress;
pub mod scheduler;
pub mod tiles;

verus! {

/// Settings of a render of input images into an output image.
#[derive(Debug, Clone, Copy)]
pub struct RenderSettings {
    /// Batch size
    pub batch_size: u32,
    /// Width dimension of the rendered image
    pub output_width: u32,
    /// Height dimension of the rendered image
    pub output_height: u32,
    /// Number of input images
    pub input_images: u32,
    /// Width of input images
    pub input_width: u32,
    /// Height of input images
    pub input_height: u32,
    /// Number of input points
    pub input_points: u32,
}

/// A render under given settings.
pub struct Render {
    pub cfg: RenderSettings,
}

/// The input of a render.
pub struct Input;

} // verus!
