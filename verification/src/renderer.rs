//! Renderer: the resource cache, pipeline configuration, procedural mesh
//! topology and buffer sizing.

pub mod buffers;
pub mod cache;
pub mod error;
pub mod pipeline;
pub mod primitives;
pub mod surface;
