//! The scene's streams as the shaders read them.
use vstd::prelude::*;
use crate::bits;
use crate::bits::Bits3;
use crate::bvh::BvhNode;
use crate::gfx::frame::Row4;
use crate::scene::{MatKind, Material, Scene, NO_TEX};

verus! {

/// Words of a packed material, and its bytes.
pub const GPU_MAT_WORDS: usize = 27;

pub const GPU_MAT_BYTES: usize = 108;

/// Vertices of the ground that the cloud shadows must cover.
pub const GROUND_VERTS: usize = 6;

/// A corner lowered by the first `n` points.
pub open spec fn lowered(lo: Bits3, p: Seq<Bits3>, n: nat) -> Bits3
    decreases n,
{
    if n == 0 {
        lo
    } else {
        bits::min3(lowered(lo, p, (n - 1) as nat), p[n - 1])
    }
}

/// A corner raised by the first `n` points.
pub open spec fn raised(hi: Bits3, p: Seq<Bits3>, n: nat) -> Bits3
    decreases n,
{
    if n == 0 {
        hi
    } else {
        bits::max3(raised(hi, p, (n - 1) as nat), p[n - 1])
    }
}

/// How many of the first vertices count as ground.
pub open spec fn ground_len(p: Seq<Bits3>) -> nat {
    if p.len() < GROUND_VERTS {
        p.len()
    } else {
        GROUND_VERTS as nat
    }
}

/// The box that the cloud-shadow grid spans: the content box and the ground's
/// first vertices.
pub fn shadow_aabb(scene: &Scene) -> (r: (Bits3, Bits3))
    ensures
        r.0 == lowered(scene.content_min, scene.positions@, ground_len(scene.positions@)),
        r.1 == raised(scene.content_max, scene.positions@, ground_len(scene.positions@)),
{
    let mut lo = scene.content_min;
    let mut hi = scene.content_max;
    let n: usize = if scene.positions.len() < GROUND_VERTS {
        scene.positions.len()
    } else {
        GROUND_VERTS
    };
    let mut i: usize = 0;
    while i < n
        invariant
            i <= n,
            n == ground_len(scene.positions@),
            n <= scene.positions@.len(),
            lo == lowered(scene.content_min, scene.positions@, i as nat),
            hi == raised(scene.content_max, scene.positions@, i as nat),
        decreases n - i,
    {
        lo = bits::smaller3(lo, scene.positions[i]);
        hi = bits::larger3(hi, scene.positions[i]);
        i = i + 1;
    }
    (lo, hi)
}

/// Bytes of the geometry and material streams: position, normal and texture
/// coordinates a vertex, three indices and a material slot a triangle, and the
/// packed material with its cutout slot.
pub open spec fn stream_size(scene: Scene) -> int {
    scene.positions@.len() * 32 + scene.indices@.len() * 16 + scene.materials@.len() * (
    GPU_MAT_BYTES + 4)
}

/// Bytes of the geometry and material streams.
pub fn stream_bytes(scene: &Scene) -> (n: usize)
    requires
        stream_size(*scene) <= usize::MAX,
    ensures
        n == stream_size(*scene),
{
    let v: usize = scene.positions.len();
    let t: usize = scene.indices.len();
    let m: usize = scene.materials.len();
    v * 32 + t * 16 + m * (GPU_MAT_BYTES + 4)
}

/// A node as the shaders read it.
#[derive(Clone, Copy, Debug, PartialEq, Eq, Structural)]
pub struct GpuBvhNode {
    pub mn: Bits3,
    pub left_first: u32,
    pub mx: Bits3,
    pub count: u32,
}

/// Packs a node.
pub fn gpu_bvh_node(n: &BvhNode) -> (g: GpuBvhNode)
    ensures
        g == (GpuBvhNode {
            mn: n.aabb.lo,
            left_first: n.left_first,
            mx: n.aabb.hi,
            count: n.count,
        }),
{
    GpuBvhNode { mn: n.aabb.lo, left_first: n.left_first, mx: n.aabb.hi, count: n.count }
}

/// A material as the shaders read it, field by field in their order.
#[derive(Clone, Copy, Debug, PartialEq, Eq, Structural)]
pub struct GpuMat {
    pub albedo: Bits3,
    pub roughness: u32,
    pub metallic: u32,
    pub anisotropy: u32,
    /// 0 diffuse, 1 marble, 2 textured.
    pub kind: u32,
    pub scale: u32,
    pub sheen: u32,
    pub translucency: u32,
    pub transmission: u32,
    pub tex: u32,
    pub emissive: Bits3,
    pub normal_tex: u32,
    pub rough_tex: u32,
    pub metal_tex: u32,
    pub emissive_tex: u32,
    pub normal_scale: u32,
    pub trans_tint: Bits3,
    pub ior: u32,
    pub ripple_amp: u32,
    pub detail_scale: u32,
    pub normal_var_tex: u32,
}

impl GpuMat {
    /// The words in layout order.
    pub open spec fn words(self) -> Seq<u32> {
        seq![
            self.albedo.x,
            self.albedo.y,
            self.albedo.z,
            self.roughness,
            self.metallic,
            self.anisotropy,
            self.kind,
            self.scale,
            self.sheen,
            self.translucency,
            self.transmission,
            self.tex,
            self.emissive.x,
            self.emissive.y,
            self.emissive.z,
            self.normal_tex,
            self.rough_tex,
            self.metal_tex,
            self.emissive_tex,
            self.normal_scale,
            self.trans_tint.x,
            self.trans_tint.y,
            self.trans_tint.z,
            self.ior,
            self.ripple_amp,
            self.detail_scale,
            self.normal_var_tex,
        ]
    }

    /// The words in layout order.
    pub fn to_words(&self) -> (w: Vec<u32>)
        ensures
            w@ == self.words(),
            w@.len() == GPU_MAT_WORDS,
            w@.len() * 4 == GPU_MAT_BYTES,
    {
        let w: Vec<u32> = vec![
            self.albedo.x,
            self.albedo.y,
            self.albedo.z,
            self.roughness,
            self.metallic,
            self.anisotropy,
            self.kind,
            self.scale,
            self.sheen,
            self.translucency,
            self.transmission,
            self.tex,
            self.emissive.x,
            self.emissive.y,
            self.emissive.z,
            self.normal_tex,
            self.rough_tex,
            self.metal_tex,
            self.emissive_tex,
            self.normal_scale,
            self.trans_tint.x,
            self.trans_tint.y,
            self.trans_tint.z,
            self.ior,
            self.ripple_amp,
            self.detail_scale,
            self.normal_var_tex,
        ];
        assert(w@ =~= self.words());
        w
    }
}

/// The kind's number, its marble scale and its texture.
pub open spec fn kind_fields(k: MatKind) -> (u32, u32, u32) {
    match k {
        MatKind::Diffuse => (0, 0, 0),
        MatKind::Marble { scale } => (1, scale, 0),
        MatKind::Textured { tex } => (2, 0, tex),
    }
}

/// Entry `i` of a list, or a stand-in past its end.
pub open spec fn entry_or(list: Seq<u32>, i: int, none: u32) -> u32 {
    if i < list.len() {
        list[i]
    } else {
        none
    }
}

/// Material `mi` as the shaders read it.
pub open spec fn packed_mat(m: Material, detail: Seq<u32>, tex_var: Seq<u32>, mi: int) -> GpuMat {
    GpuMat {
        albedo: m.albedo,
        roughness: m.roughness,
        metallic: m.metallic,
        anisotropy: m.anisotropy,
        kind: kind_fields(m.kind).0,
        scale: kind_fields(m.kind).1,
        sheen: m.sheen,
        translucency: m.translucency,
        transmission: m.transmission,
        tex: kind_fields(m.kind).2,
        emissive: m.emissive,
        normal_tex: m.normal_tex,
        rough_tex: m.rough_tex,
        metal_tex: m.metal_tex,
        emissive_tex: m.emissive_tex,
        normal_scale: m.normal_scale,
        trans_tint: m.trans_tint,
        ior: m.ior,
        ripple_amp: m.ripple_amp,
        detail_scale: entry_or(detail, mi, 0),
        normal_var_tex: entry_or(tex_var, m.normal_tex as int, NO_TEX),
    }
}

fn fields_of(k: &MatKind) -> (r: (u32, u32, u32))
    ensures
        r == kind_fields(*k),
{
    match *k {
        MatKind::Diffuse => (0, 0, 0),
        MatKind::Marble { scale } => (1, scale, 0),
        MatKind::Textured { tex } => (2, 0, tex),
    }
}

/// Every material, packed in order.
pub fn gpu_materials(scene: &Scene) -> (mats: Vec<GpuMat>)
    ensures
        mats@ == Seq::new(
            scene.materials@.len(),
            |i: int| packed_mat(scene.materials@[i], scene.detail_scales@, scene.tex_var@, i),
        ),
{
    let mut out: Vec<GpuMat> = Vec::new();
    let n: usize = scene.materials.len();
    let mut mi: usize = 0;
    while mi < n
        invariant
            mi <= n,
            n == scene.materials@.len(),
            out@.len() == mi,
            forall|i: int|
                0 <= i < mi ==> #[trigger] out@[i] == packed_mat(
                    scene.materials@[i],
                    scene.detail_scales@,
                    scene.tex_var@,
                    i,
                ),
        decreases n - mi,
    {
        let m = &scene.materials[mi];
        let (kind, scale, tex) = fields_of(&m.kind);
        let nt: usize = m.normal_tex as usize;
        out.push(
            GpuMat {
                albedo: m.albedo,
                roughness: m.roughness,
                metallic: m.metallic,
                anisotropy: m.anisotropy,
                kind,
                scale,
                sheen: m.sheen,
                translucency: m.translucency,
                transmission: m.transmission,
                tex,
                emissive: m.emissive,
                normal_tex: m.normal_tex,
                rough_tex: m.rough_tex,
                metal_tex: m.metal_tex,
                emissive_tex: m.emissive_tex,
                normal_scale: m.normal_scale,
                trans_tint: m.trans_tint,
                ior: m.ior,
                ripple_amp: m.ripple_amp,
                detail_scale: if mi < scene.detail_scales.len() {
                    scene.detail_scales[mi]
                } else {
                    0
                },
                normal_var_tex: if nt < scene.tex_var.len() {
                    scene.tex_var[nt]
                } else {
                    NO_TEX
                },
            },
        );
        mi = mi + 1;
    }
    assert(out@ =~= Seq::new(
        scene.materials@.len(),
        |i: int| packed_mat(scene.materials@[i], scene.detail_scales@, scene.tex_var@, i),
    ));
    out
}

/// Every textured material names a texture.
pub open spec fn textures_exist(scene: Scene) -> bool {
    forall|i: int|
        0 <= i < scene.materials@.len() ==> match (#[trigger] scene.materials@[i]).kind {
            MatKind::Textured { tex } => tex < scene.textures@.len() && tex < u32::MAX,
            _ => true,
        }
}

/// The texture of a material that has masked texels.
pub open spec fn cutout_of(m: Material, scene: Scene) -> u32 {
    match m.kind {
        MatKind::Textured { tex } => if scene.textures@[tex as int].alpha_masked {
            (tex + 1) as u32
        } else {
            0
        },
        _ => 0,
    }
}

/// Per material: its texture's index plus one where that texture has masked
/// texels, else 0.
pub fn mat_cutout(scene: &Scene) -> (r: Vec<u32>)
    requires
        textures_exist(*scene),
    ensures
        r@ == Seq::new(scene.materials@.len(), |i: int| cutout_of(scene.materials@[i], *scene)),
{
    let mut out: Vec<u32> = Vec::new();
    let n: usize = scene.materials.len();
    let mut i: usize = 0;
    while i < n
        invariant
            i <= n,
            n == scene.materials@.len(),
            textures_exist(*scene),
            out@.len() == i,
            forall|j: int|
                0 <= j < i ==> #[trigger] out@[j] == cutout_of(scene.materials@[j], *scene),
        decreases n - i,
    {
        let slot: u32 = match scene.materials[i].kind {
            MatKind::Textured { tex } => {
                assert(scene.materials@[i as int].kind is Textured);
                if scene.textures[tex as usize].alpha_masked {
                    tex + 1
                } else {
                    0
                }
            },
            _ => 0,
        };
        out.push(slot);
        i = i + 1;
    }
    assert(out@ =~= Seq::new(
        scene.materials@.len(),
        |i: int| cutout_of(scene.materials@[i], *scene),
    ));
    out
}

/// The relief slot of a material.
pub open spec fn relief_of(m: Material) -> (u32, u32) {
    if bits::lt(0, m.height_amp) && m.normal_tex != NO_TEX {
        ((m.normal_tex + 1) as u32, m.height_amp)
    } else {
        (0, 0)
    }
}

/// Per material: its normal texture's index plus one and its relief amplitude
/// where it carries relief, else zeros.
pub fn mat_height(scene: &Scene) -> (r: Vec<(u32, u32)>)
    ensures
        r@ == Seq::new(scene.materials@.len(), |i: int| relief_of(scene.materials@[i])),
{
    let mut out: Vec<(u32, u32)> = Vec::new();
    let n: usize = scene.materials.len();
    let mut i: usize = 0;
    while i < n
        invariant
            i <= n,
            n == scene.materials@.len(),
            out@.len() == i,
            forall|j: int| 0 <= j < i ==> #[trigger] out@[j] == relief_of(scene.materials@[j]),
        decreases n - i,
    {
        let m = &scene.materials[i];
        if bits::is_lt(0, m.height_amp) && m.normal_tex != NO_TEX {
            out.push((m.normal_tex + 1, m.height_amp));
        } else {
            out.push((0, 0));
        }
        i = i + 1;
    }
    assert(out@ =~= Seq::new(scene.materials@.len(), |i: int| relief_of(scene.materials@[i])));
    out
}

/// Per material: the tint that its surface gives a shadow, and its
/// transmission. `tints` holds each material's tint.
pub fn mat_shadow(scene: &Scene, tints: &Vec<Bits3>) -> (r: Vec<Row4>)
    requires
        tints@.len() == scene.materials@.len(),
    ensures
        r@ == Seq::new(
            scene.materials@.len(),
            |i: int|
                Row4 {
                    x: tints@[i].x,
                    y: tints@[i].y,
                    z: tints@[i].z,
                    w: scene.materials@[i].transmission,
                },
        ),
{
    let mut out: Vec<Row4> = Vec::new();
    let n: usize = scene.materials.len();
    let mut i: usize = 0;
    while i < n
        invariant
            i <= n,
            n == scene.materials@.len(),
            n == tints@.len(),
            out@.len() == i,
            forall|j: int|
                0 <= j < i ==> #[trigger] out@[j] == (Row4 {
                    x: tints@[j].x,
                    y: tints@[j].y,
                    z: tints@[j].z,
                    w: scene.materials@[j].transmission,
                }),
        decreases n - i,
    {
        let t = tints[i];
        out.push(Row4 { x: t.x, y: t.y, z: t.z, w: scene.materials[i].transmission });
        i = i + 1;
    }
    assert(out@ =~= Seq::new(
        scene.materials@.len(),
        |i: int|
            Row4 {
                x: tints@[i].x,
                y: tints@[i].y,
                z: tints@[i].z,
                w: scene.materials@[i].transmission,
            },
    ));
    out
}

/// A cutout slot is set exactly for the materials whose texture has masked
/// texels, and a relief slot exactly for those with relief and a normal map.
pub proof fn slots_mark_their_materials(scene: Scene, i: int)
    requires
        textures_exist(scene),
        0 <= i < scene.materials@.len(),
    ensures
        cutout_of(scene.materials@[i], scene) != 0 <==> (scene.materials@[i].kind matches
            MatKind::Textured { tex } && scene.textures@[tex as int].alpha_masked),
        relief_of(scene.materials@[i]).0 != 0 <==> bits::lt(0, scene.materials@[i].height_amp)
            && scene.materials@[i].normal_tex != NO_TEX,
{
}

/// Every ground vertex and the content box lie inside the shadow box, where
/// all of them are numbers.
pub proof fn shadow_box_covers(lo: Bits3, p: Seq<Bits3>, n: nat, i: int)
    requires
        n <= p.len(),
        0 <= i < n,
        forall|j: int| 0 <= j < n ==> #[trigger] numbers(p[j]),
        numbers(lo),
    ensures
        numbers(lowered(lo, p, n)),
        below(lowered(lo, p, n), lo),
        below(lowered(lo, p, n), p[i]),
        numbers(raised(lo, p, n)),
        below(lo, raised(lo, p, n)),
        below(p[i], raised(lo, p, n)),
    decreases n,
{
    let m = (n - 1) as nat;
    assert(numbers(p[n - 1]));
    assert(lowered(lo, p, 0) == lo && raised(lo, p, 0) == lo);
    if m > 0 {
        let k = if i < m {
            i
        } else {
            0
        };
        shadow_box_covers(lo, p, m, k);
    }
}

/// Every lane is a number.
pub open spec fn numbers(b: Bits3) -> bool {
    !bits::is_nan(b.x) && !bits::is_nan(b.y) && !bits::is_nan(b.z)
}

/// Lane-wise no greater.
pub open spec fn below(a: Bits3, b: Bits3) -> bool {
    bits::le(a.x, b.x) && bits::le(a.y, b.y) && bits::le(a.z, b.z)
}

/// A packed material's fields stand at fixed places of its words.
pub proof fn material_words_stand_in_place(m: GpuMat)
    ensures
        m.words().len() == 27,
        m.words()[0] == m.albedo.x,
        m.words()[1] == m.albedo.y,
        m.words()[2] == m.albedo.z,
        m.words()[3] == m.roughness,
        m.words()[4] == m.metallic,
        m.words()[5] == m.anisotropy,
        m.words()[6] == m.kind,
        m.words()[7] == m.scale,
        m.words()[8] == m.sheen,
        m.words()[9] == m.translucency,
        m.words()[10] == m.transmission,
        m.words()[11] == m.tex,
        m.words()[12] == m.emissive.x,
        m.words()[13] == m.emissive.y,
        m.words()[14] == m.emissive.z,
        m.words()[15] == m.normal_tex,
        m.words()[16] == m.rough_tex,
        m.words()[17] == m.metal_tex,
        m.words()[18] == m.emissive_tex,
        m.words()[19] == m.normal_scale,
        m.words()[20] == m.trans_tint.x,
        m.words()[21] == m.trans_tint.y,
        m.words()[22] == m.trans_tint.z,
        m.words()[23] == m.ior,
        m.words()[24] == m.ripple_amp,
        m.words()[25] == m.detail_scale,
        m.words()[26] == m.normal_var_tex,
{
}

/// A material is packed field for field. Its kind is told by a number, with the
/// scale of a marble and the texture of a textured one; its detail scale is its
/// own entry of the list, or zero past its end, and its normal map's variance
/// that of the map, or none.
pub proof fn materials_are_packed_field_for_field(
    m: Material,
    detail: Seq<u32>,
    tex_var: Seq<u32>,
    mi: int,
)
    requires
        0 <= mi,
    ensures
        ({
            let g = packed_mat(m, detail, tex_var, mi);
            &&& g.albedo == m.albedo
            &&& g.roughness == m.roughness
            &&& g.metallic == m.metallic
            &&& g.anisotropy == m.anisotropy
            &&& g.sheen == m.sheen
            &&& g.translucency == m.translucency
            &&& g.transmission == m.transmission
            &&& g.emissive == m.emissive
            &&& g.normal_tex == m.normal_tex
            &&& g.rough_tex == m.rough_tex
            &&& g.metal_tex == m.metal_tex
            &&& g.emissive_tex == m.emissive_tex
            &&& g.normal_scale == m.normal_scale
            &&& g.trans_tint == m.trans_tint
            &&& g.ior == m.ior
            &&& g.ripple_amp == m.ripple_amp
            &&& m.kind is Diffuse ==> g.kind == 0 && g.scale == 0 && g.tex == 0
            &&& m.kind matches MatKind::Marble { scale } ==> g.kind == 1 && g.scale == scale && g.tex
                == 0
            &&& m.kind matches MatKind::Textured { tex } ==> g.kind == 2 && g.scale == 0 && g.tex
                == tex
            &&& mi < detail.len() ==> g.detail_scale == detail[mi]
            &&& mi >= detail.len() ==> g.detail_scale == 0
            &&& m.normal_tex < tex_var.len() ==> g.normal_var_tex == tex_var[m.normal_tex as int]
            &&& m.normal_tex >= tex_var.len() ==> g.normal_var_tex == u32::MAX
        }),
{
}

/// A slot is one more than the index that it stands for: of the cutout the
/// texture's, of the relief the normal map's, with the amplitude beside it. Zero
/// stands for none.
pub proof fn slots_are_one_past_their_index(scene: Scene, i: int)
    requires
        textures_exist(scene),
        0 <= i < scene.materials@.len(),
    ensures
        ({
            let m = scene.materials@[i];
            &&& m.kind matches MatKind::Textured { tex } ==> cutout_of(m, scene) == if scene.textures@[tex as int].alpha_masked {
                tex + 1
            } else {
                0
            }
            &&& !(m.kind is Textured) ==> cutout_of(m, scene) == 0
            &&& bits::lt(0, m.height_amp) && m.normal_tex != u32::MAX ==> relief_of(m).0
                == m.normal_tex + 1 && relief_of(m).1 == m.height_amp
            &&& !bits::lt(0, m.height_amp) || m.normal_tex == u32::MAX ==> relief_of(m) == (0u32, 0u32)
        }),
{
}

/// The streams take thirty-two bytes a vertex, sixteen a triangle and a hundred
/// and twelve a material.
pub proof fn streams_take_their_bytes(scene: Scene)
    ensures
        stream_size(scene) == 32 * scene.positions@.len() + 16 * scene.indices@.len() + 112
            * scene.materials@.len(),
{
}

/// The shadow box takes in the first six vertices, or all where there are fewer,
/// and no other: each of its faces is one of the content box or goes through one
/// of those.
pub proof fn shadow_boxes_take_in_the_ground(lo: Bits3, p: Seq<Bits3>, n: nat)
    requires
        n <= p.len(),
        forall|j: int| 0 <= j < n ==> #[trigger] numbers(p[j]),
        numbers(lo),
    ensures
        p.len() < 6 ==> ground_len(p) == p.len(),
        p.len() >= 6 ==> ground_len(p) == 6,
        lowered(lo, p, n).x == lo.x || exists|i: int| 0 <= i < n && lowered(lo, p, n).x == (#[trigger] p[i]).x,
        lowered(lo, p, n).y == lo.y || exists|i: int| 0 <= i < n && lowered(lo, p, n).y == (#[trigger] p[i]).y,
        lowered(lo, p, n).z == lo.z || exists|i: int| 0 <= i < n && lowered(lo, p, n).z == (#[trigger] p[i]).z,
        raised(lo, p, n).x == lo.x || exists|i: int| 0 <= i < n && raised(lo, p, n).x == (#[trigger] p[i]).x,
        raised(lo, p, n).y == lo.y || exists|i: int| 0 <= i < n && raised(lo, p, n).y == (#[trigger] p[i]).y,
        raised(lo, p, n).z == lo.z || exists|i: int| 0 <= i < n && raised(lo, p, n).z == (#[trigger] p[i]).z,
    decreases n,
{
    if n > 0 {
        let m = (n - 1) as nat;
        shadow_boxes_take_in_the_ground(lo, p, m);
        let q = p[n - 1];
        assert(numbers(p[n - 1]));
        let (a, b) = (lowered(lo, p, m), raised(lo, p, m));
        assert(lowered(lo, p, n).x == a.x || lowered(lo, p, n).x == q.x);
        assert(lowered(lo, p, n).y == a.y || lowered(lo, p, n).y == q.y);
        assert(lowered(lo, p, n).z == a.z || lowered(lo, p, n).z == q.z);
        assert(raised(lo, p, n).x == b.x || raised(lo, p, n).x == q.x);
        assert(raised(lo, p, n).y == b.y || raised(lo, p, n).y == q.y);
        assert(raised(lo, p, n).z == b.z || raised(lo, p, n).z == q.z);
    }
}

} // verus!
