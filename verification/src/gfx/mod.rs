//! What both graphics backends share: frame constants, shader assembly,
//! texture planes and the vocabulary between them.
pub mod ablations;
pub mod announcing;
pub mod calls;
pub mod defines;
pub mod denoise;
pub mod frame;
pub mod hud_frame;
pub mod kernels;
pub mod layout;
pub mod scene;
pub mod shaders;
pub mod tiles;
pub mod vocab;
