//! Building blocks of a ray tracer: a bounded traversal stack, a spatial
//! partitioning tree over triangles, a texture store and a content cache.
pub mod bounds;
pub mod content_cache;
pub mod integrator;
pub mod kdtree;
pub mod options;
pub mod scene_error;
pub mod static_stack;
pub mod texture;
