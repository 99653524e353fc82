//! Wind-swayed foliage: which triangles sway, how they group into plants and
//! cells, and how the acceleration-structure plan is re-cut around them.
pub mod attach;
pub mod audit;
pub mod calls;
pub mod cells;
pub mod components;
pub mod growth;
pub mod merge;
pub mod parting;
pub mod plants;
pub(crate) mod raster;
pub mod regions;
pub mod session;
pub mod soundness;
pub mod split;
pub mod voxels;
pub mod whole;
