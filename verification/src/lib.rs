//! A triangle-strip codec for indexed triangle meshes.
//!
//! `stripify` turns a triangle list (three vertex indices per triangle) into a
//! triangle strip, stitching runs either with a primitive-restart sentinel or,
//! when no restart value is available, with degenerate triangles.
//! `unstripify` walks a strip back into the triangle list it encodes.

pub mod codec;
pub mod model;

pub use codec::stripify;
pub use codec::unstripify;
pub use codec::Error;
