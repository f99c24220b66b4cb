//! What a render is asked to do.
use vstd::prelude::*;

verus! {

/// The scene to render, where to write the picture, and its size in pixels.
pub struct RenderOptions {
    pub scene_file: String,
    pub output_file: String,
    pub width: u32,
    pub height: u32,
}

} // verus!
