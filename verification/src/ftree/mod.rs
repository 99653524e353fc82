//! The wide tree: up to eight boxes a node, collapsed from the binary
//! hierarchy, for bound queries only.
//!
//! Every slot's box is the box of a binary node, so that the two trees say the
//! same of a frustum; the wide one gets there in fewer and wider steps.
pub mod accel;
pub mod calls;
pub mod collapse;
pub mod quantize;
pub mod query;
