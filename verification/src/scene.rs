//! The scene as the library reads it: topology, material slots, and geometry
//! as bit patterns.
use crate::bits::Bits3;
use vstd::prelude::*;

verus! {

/// A material's empty texture slot.
pub const NO_TEX: u32 = u32::MAX;

/// `Material::class` of leaf-like materials.
pub const IDX_FOLIAGE: u8 = 1;

/// `Material::class` of trunks, branches and stems.
pub const IDX_BARK: u8 = 2;

/// What colours the surface.
#[derive(Clone, Copy, Debug, PartialEq, Eq, Structural)]
pub enum MatKind {
    Diffuse,
    Marble { scale: u32 },
    Textured { tex: u32 },
}

/// One material. Every scalar is the bit pattern of its binary32 value.
#[derive(Clone, Copy, Debug, PartialEq, Eq, Structural)]
pub struct Material {
    pub albedo: Bits3,
    pub roughness: u32,
    pub metallic: u32,
    pub anisotropy: u32,
    pub sheen: u32,
    pub translucency: u32,
    pub transmission: u32,
    pub trans_tint: Bits3,
    pub ior: u32,
    pub ripple_amp: u32,
    pub emissive: Bits3,
    pub normal_tex: u32,
    pub normal_scale: u32,
    pub height_amp: u32,
    pub rough_tex: u32,
    pub metal_tex: u32,
    pub emissive_tex: u32,
    /// The classifier's verdict (`IDX_FOLIAGE`, `IDX_BARK`, or another index).
    pub class: u8,
    pub kind: MatKind,
}

/// The part of a texture that the material maps read.
#[derive(Clone, Copy, Debug, PartialEq, Eq, Structural)]
pub struct Texture {
    /// Some texel is masked out.
    pub alpha_masked: bool,
}

/// A range of triangles with its own content box: the frame every sway length
/// inside it is measured in.
#[derive(Clone, Copy, Debug, PartialEq, Eq, Structural)]
pub struct SwayRegion {
    pub tri_start: u32,
    /// Exclusive.
    pub tri_end: u32,
    pub cmin: Bits3,
    pub cmax: Bits3,
}

/// Triangles, vertices and materials of one scene.
pub struct Scene {
    pub positions: Vec<Bits3>,
    pub normals: Vec<Bits3>,
    pub texcoords: Vec<[u32; 2]>,
    pub indices: Vec<[u32; 3]>,
    pub tri_mat: Vec<u32>,
    pub materials: Vec<Material>,
    pub textures: Vec<Texture>,
    /// World-space detail texel scale per material; missing means off.
    pub detail_scales: Vec<u32>,
    /// Slope-variance companion per texture; missing means none.
    pub tex_var: Vec<u32>,
    /// Some material is cut out, carries relief, or transmits light.
    pub any_alpha: bool,
    pub any_height: bool,
    pub any_transmissive: bool,
    pub content_min: Bits3,
    pub content_max: Bits3,
    /// Ascending, disjoint; empty means one region over the whole scene.
    pub sway_regions: Vec<SwayRegion>,
}

impl Scene {
    /// Triangle count.
    pub open spec fn tris(&self) -> nat {
        self.indices@.len()
    }

    /// Every triangle has a material slot and names existing vertices, and all
    /// ids fit the 32-bit index fields.
    pub open spec fn wf(&self) -> bool {
        &&& self.tri_mat@.len() == self.indices@.len()
        &&& self.indices@.len() < u32::MAX
        &&& self.positions@.len() <= u32::MAX
        &&& forall|t: int, k: int|
            #![trigger self.indices@[t]@[k]]
            0 <= t < self.indices@.len() && 0 <= k < 3 ==> self.indices@[t]@[k]
                < self.positions@.len()
    }
}

} // verus!
