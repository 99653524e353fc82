//! The upscaler's side of a frame: per-pixel signal planes, the staged input
//! planes, and the choice of provider.
pub mod buffers;
pub mod calls;
pub mod provider;
pub mod staging;
