//! Why a scene could not be loaded.
use vstd::prelude::*;

verus! {

/// A scene file that was read but cannot be rendered.
pub enum SceneError {
    /// The file names no scene to show.
    NoDefaultScene,
    /// The scene holds no camera to look through.
    NoCameras,
    /// The file is in a format that is not read; the text says which.
    UnsupportedFormat(String),
}

} // verus!
