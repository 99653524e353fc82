//! Verified core of a frustum-marching ray tracer.
pub mod bits;
pub mod bvh;
pub mod calls;
pub mod foliage;
pub mod forest;
pub mod frd;
pub mod frustcap;
pub mod frustum;
pub mod fsr;
pub mod ftree;
pub mod gfx;
pub mod scene;
pub mod sight;
pub mod tally;
pub mod text;
