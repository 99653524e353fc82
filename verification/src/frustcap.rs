//! A frozen view's leaf tiles as self-lit scene geometry.
//!
//! Each leaf tile becomes a quad at its proven-empty distance, as two flat
//! triangles with vertices of their own, coloured by its depth in the
//! quadtree. What is appended is a tail of every list, so that it can be
//! taken off again.
use vstd::prelude::*;
use crate::bits;
use crate::bits::Bits3;
use crate::scene::{MatKind, Material, Scene, NO_TEX};

verus! {

/// Depths that get a material of their own; deeper ones share the last.
pub const DEPTHS: usize = 32;

/// How much a snapshot appended to the scene.
#[derive(Clone, Copy, Debug, PartialEq, Eq, Structural)]
pub struct FrustArtifact {
    pub verts: u32,
    pub tris: u32,
    pub mats: u32,
}

/// A leaf tile: its empty distance, its depth, its corners clockwise from the
/// top left at that distance, the normals of its two triangles, and the
/// radiance of its depth.
#[derive(Clone, Copy, Debug, PartialEq, Eq, Structural)]
pub struct LeafQuad {
    pub t_start: u32,
    pub depth: u32,
    pub p0: Bits3,
    pub p1: Bits3,
    pub p2: Bits3,
    pub p3: Bits3,
    pub n0: Bits3,
    pub n1: Bits3,
    pub emissive: Bits3,
}

/// Every lane of a triple.
pub open spec fn splat(v: u32) -> Bits3 {
    Bits3 { x: v, y: v, z: v }
}

/// A self-lit material: nearly black under its own radiance, fully rough, no
/// map, and nothing that a scene flag would notice.
pub open spec fn glow(emissive: Bits3) -> Material {
    Material {
        albedo: splat(0x3ca3_d70a),
        roughness: 0x3f80_0000,
        metallic: 0,
        anisotropy: 0,
        sheen: 0,
        translucency: 0,
        transmission: 0,
        trans_tint: splat(0xbf80_0000),
        ior: 0x3fc0_0000,
        ripple_amp: 0,
        emissive,
        normal_tex: NO_TEX,
        normal_scale: 0x3f80_0000,
        height_amp: 0,
        rough_tex: NO_TEX,
        metal_tex: NO_TEX,
        emissive_tex: NO_TEX,
        class: 0,
        kind: MatKind::Diffuse,
    }
}

/// A self-lit material of the given radiance.
fn emissive_material(emissive: Bits3) -> (m: Material)
    ensures
        m == glow(emissive),
{
    let dark: u32 = 0x3ca3_d70a;
    let one: u32 = 0x3f80_0000;
    let minus_one: u32 = 0xbf80_0000;
    Material {
        albedo: Bits3 { x: dark, y: dark, z: dark },
        roughness: one,
        metallic: 0,
        anisotropy: 0,
        sheen: 0,
        translucency: 0,
        transmission: 0,
        trans_tint: Bits3 { x: minus_one, y: minus_one, z: minus_one },
        ior: 0x3fc0_0000,
        ripple_amp: 0,
        emissive,
        normal_tex: NO_TEX,
        normal_scale: one,
        height_amp: 0,
        rough_tex: NO_TEX,
        metal_tex: NO_TEX,
        emissive_tex: NO_TEX,
        class: 0,
        kind: MatKind::Diffuse,
    }
}

/// The slot of a depth.
pub open spec fn slot(depth: u32) -> int {
    if depth < DEPTHS {
        depth as int
    } else {
        DEPTHS - 1
    }
}

/// The tile is not so near that its quad collapses.
pub open spec fn shown(q: LeafQuad, min_t: u32) -> bool {
    !bits::le(q.t_start, min_t)
}

/// The tiles that are shown, in order.
pub open spec fn visible(quads: Seq<LeafQuad>, min_t: u32) -> Seq<LeafQuad>
    decreases quads.len(),
{
    if quads.len() == 0 {
        Seq::empty()
    } else {
        let rest = visible(quads.drop_last(), min_t);
        if shown(quads.last(), min_t) {
            rest.push(quads.last())
        } else {
            rest
        }
    }
}

/// The quads that bring a depth's slot up for the first time, in order.
pub open spec fn openers(quads: Seq<LeafQuad>) -> Seq<LeafQuad>
    decreases quads.len(),
{
    if quads.len() == 0 {
        Seq::empty()
    } else {
        let rest = openers(quads.drop_last());
        if slot_at(rest, slot(quads.last().depth)) is Some {
            rest
        } else {
            rest.push(quads.last())
        }
    }
}

/// Where a slot was opened.
pub open spec fn slot_at(opened: Seq<LeafQuad>, s: int) -> Option<int>
    decreases opened.len(),
{
    if opened.len() == 0 {
        None
    } else if slot(opened.last().depth) == s {
        Some(opened.len() - 1)
    } else {
        slot_at(opened.drop_last(), s)
    }
}

/// The six vertices of each quad.
pub open spec fn quad_points(quads: Seq<LeafQuad>) -> Seq<Bits3>
    decreases quads.len(),
{
    if quads.len() == 0 {
        Seq::empty()
    } else {
        let q = quads.last();
        quad_points(quads.drop_last()) + seq![q.p0, q.p1, q.p2, q.p0, q.p2, q.p3]
    }
}

/// The six normals of each quad.
pub open spec fn quad_normals(quads: Seq<LeafQuad>) -> Seq<Bits3>
    decreases quads.len(),
{
    if quads.len() == 0 {
        Seq::empty()
    } else {
        let q = quads.last();
        quad_normals(quads.drop_last()) + seq![q.n0, q.n0, q.n0, q.n1, q.n1, q.n1]
    }
}

/// The material that a shown tile's triangles take, where `m0` materials stood
/// before.
pub open spec fn quad_mat(quads: Seq<LeafQuad>, m0: int, i: int) -> int {
    m0 + slot_at(openers(quads), slot(quads[i].depth))->0
}

/// The corners of triangle `k` of the snapshot, where `v0` vertices stood
/// before.
pub open spec fn tri_corners(v0: int, k: int) -> Seq<u32> {
    seq![(v0 + 3 * k) as u32, (v0 + 3 * k + 1) as u32, (v0 + 3 * k + 2) as u32]
}

/// A new triangle has fresh corners and its tile's material.
pub open spec fn tri_holds(old: Scene, new: Scene, quads: Seq<LeafQuad>, k: int) -> bool {
    let t0 = old.indices@.len();
    let m0 = old.tri_mat@.len();
    &&& new.indices@[t0 + k]@ == tri_corners(old.positions@.len() as int, k)
    &&& new.tri_mat@[m0 + k] == quad_mat(quads, old.materials@.len() as int, k / 2)
}

/// Every field but the six lists is the same.
pub open spec fn rest_unchanged(old: Scene, new: Scene) -> bool {
    &&& new.textures == old.textures
    &&& new.detail_scales == old.detail_scales
    &&& new.tex_var == old.tex_var
    &&& new.any_alpha == old.any_alpha
    &&& new.any_height == old.any_height
    &&& new.any_transmissive == old.any_transmissive
    &&& new.content_min == old.content_min
    &&& new.content_max == old.content_max
    &&& new.sway_regions == old.sway_regions
}

/// `new` is `old` with the shown tiles `quads` appended.
pub open spec fn appended(old: Scene, new: Scene, quads: Seq<LeafQuad>) -> bool {
    let n = quads.len() as int;
    &&& new.positions@ == old.positions@ + quad_points(quads)
    &&& new.normals@ == old.normals@ + quad_normals(quads)
    &&& new.texcoords@.len() == old.texcoords@.len() + 6 * n
    &&& new.texcoords@.take(old.texcoords@.len() as int) == old.texcoords@
    &&& forall|k: int|
        old.texcoords@.len() <= k < new.texcoords@.len() ==> (#[trigger] new.texcoords@[k])@
            == seq![0u32, 0u32]
    &&& new.indices@.len() == old.indices@.len() + 2 * n
    &&& new.indices@.take(old.indices@.len() as int) == old.indices@
    &&& new.tri_mat@.len() == old.tri_mat@.len() + 2 * n
    &&& new.tri_mat@.take(old.tri_mat@.len() as int) == old.tri_mat@
    &&& forall|k: int| 0 <= k < 2 * n ==> #[trigger] tri_holds(old, new, quads, k)
    &&& new.materials@ == old.materials@ + openers(quads).map_values(|q: LeafQuad| glow(q.emissive))
    &&& rest_unchanged(old, new)
}

/// The counts of a snapshot.
pub open spec fn counts_of(quads: Seq<LeafQuad>, a: FrustArtifact) -> bool {
    &&& a.verts == 6 * quads.len()
    &&& a.tris == 2 * quads.len()
    &&& a.mats == openers(quads).len()
}

/// Six points and normals a tile, and at most one material.
pub proof fn lemma_lens(quads: Seq<LeafQuad>)
    ensures
        quad_points(quads).len() == 6 * quads.len(),
        quad_normals(quads).len() == 6 * quads.len(),
        openers(quads).len() <= quads.len(),
    decreases quads.len(),
{
    if quads.len() > 0 {
        lemma_lens(quads.drop_last());
    }
}

/// A slot lies among the opened ones.
proof fn lemma_slot_at(opened: Seq<LeafQuad>, s: int)
    ensures
        slot_at(opened, s) matches Some(i) ==> 0 <= i < opened.len() && slot(opened[i].depth) == s,
    decreases opened.len(),
{
    if opened.len() > 0 {
        lemma_slot_at(opened.drop_last(), s);
    }
}

/// Another tile keeps the slots that were open, and opens its own.
proof fn lemma_open(quads: Seq<LeafQuad>, q: LeafQuad)
    ensures
        ({
            let before = openers(quads);
            let after = openers(quads.push(q));
            &&& slot_at(after, slot(q.depth)) is Some
            &&& after == if slot_at(before, slot(q.depth)) is Some {
                before
            } else {
                before.push(q)
            }
            &&& forall|s: int|
                s != slot(q.depth) || slot_at(before, s) is Some ==> #[trigger] slot_at(after, s)
                    == slot_at(before, s)
            &&& slot_at(before, slot(q.depth)) is None ==> slot_at(after, slot(q.depth)) == Some(
                before.len() as int,
            )
        }),
{
    assert(quads.push(q).drop_last() =~= quads);
    let before = openers(quads);
    assert(before.push(q).drop_last() =~= before);
}

/// Shown tiles have open slots.
proof fn lemma_all_open(quads: Seq<LeafQuad>)
    ensures
        forall|i: int|
            0 <= i < quads.len() ==> slot_at(
                openers(quads),
                slot((#[trigger] quads[i]).depth),
            ) is Some,
    decreases quads.len(),
{
    if quads.len() > 0 {
        let rest = quads.drop_last();
        let q = quads.last();
        lemma_all_open(rest);
        lemma_open(rest, q);
        assert(rest.push(q) =~= quads);
        assert forall|i: int| 0 <= i < quads.len() implies slot_at(
            openers(quads),
            slot((#[trigger] quads[i]).depth),
        ) is Some by {
            if i < rest.len() {
                assert(rest[i] == quads[i]);
            }
        }
    }
}

/// `new` is `mid` with one more triangle.
spec fn one_tri(mid: Scene, new: Scene, p: Seq<Bits3>, n: Bits3, mat: u32) -> bool {
    let base = mid.positions@.len() as int;
    let t = mid.indices@.len() as int;
    let c = mid.texcoords@.len() as int;
    &&& new.positions@ == mid.positions@ + p
    &&& new.normals@ == mid.normals@ + seq![n, n, n]
    &&& new.texcoords@.len() == c + 3
    &&& new.texcoords@.take(c) == mid.texcoords@
    &&& new.texcoords@[c]@ == seq![0u32, 0u32]
    &&& new.texcoords@[c + 1]@ == seq![0u32, 0u32]
    &&& new.texcoords@[c + 2]@ == seq![0u32, 0u32]
    &&& new.indices@.len() == t + 1
    &&& new.indices@.take(t) == mid.indices@
    &&& new.indices@[t]@ == seq![base as u32, (base + 1) as u32, (base + 2) as u32]
    &&& new.tri_mat@ == mid.tri_mat@.push(mat)
    &&& new.materials@ == mid.materials@
    &&& rest_unchanged(mid, new)
}

/// Appends one flat triangle with corners of its own.
fn push_tri(scene: &mut Scene, p0: Bits3, p1: Bits3, p2: Bits3, n: Bits3, mat: u32)
    requires
        old(scene).positions.len() + 3 <= u32::MAX,
    ensures
        one_tri(*old(scene), *final(scene), seq![p0, p1, p2], n, mat),
{
    let base: u32 = scene.positions.len() as u32;
    let ghost mid = *scene;
    scene.positions.push(p0);
    scene.positions.push(p1);
    scene.positions.push(p2);
    scene.normals.push(n);
    scene.normals.push(n);
    scene.normals.push(n);
    let z0: [u32; 2] = [0, 0];
    let z1: [u32; 2] = [0, 0];
    let z2: [u32; 2] = [0, 0];
    assert(z0@ =~= seq![0u32, 0u32] && z1@ =~= seq![0u32, 0u32] && z2@ =~= seq![0u32, 0u32]);
    scene.texcoords.push(z0);
    scene.texcoords.push(z1);
    scene.texcoords.push(z2);
    let corners: [u32; 3] = [base, base + 1, base + 2];
    assert(corners@ =~= seq![base, (base + 1) as u32, (base + 2) as u32]);
    scene.indices.push(corners);
    scene.tri_mat.push(mat);
    proof {
        assert(scene.positions@ =~= mid.positions@ + seq![p0, p1, p2]);
        assert(scene.normals@ =~= mid.normals@ + seq![n, n, n]);
        assert(scene.texcoords@.take(mid.texcoords@.len() as int) =~= mid.texcoords@);
        assert(scene.indices@.take(mid.indices@.len() as int) =~= mid.indices@);
    }
}

/// Two more triangles and their material make one more tile.
proof fn lemma_append(
    old: Scene,
    before: Scene,
    opened: Scene,
    half: Scene,
    new: Scene,
    vis: Seq<LeafQuad>,
    q: LeafQuad,
    mat: u32,
)
    requires
        appended(old, before, vis),
        opened.positions == before.positions,
        opened.normals == before.normals,
        opened.texcoords == before.texcoords,
        opened.indices == before.indices,
        opened.tri_mat == before.tri_mat,
        rest_unchanged(before, opened),
        opened.materials@ == old.materials@ + openers(vis.push(q)).map_values(
            |q: LeafQuad| glow(q.emissive),
        ),
        mat == quad_mat(vis.push(q), old.materials@.len() as int, vis.len() as int),
        one_tri(opened, half, seq![q.p0, q.p1, q.p2], q.n0, mat),
        one_tri(half, new, seq![q.p0, q.p2, q.p3], q.n1, mat),
        old.positions@.len() + 6 * (vis.len() + 1) <= u32::MAX,
    ensures
        appended(old, new, vis.push(q)),
{
    let all = vis.push(q);
    let n = vis.len() as int;
    lemma_lens(vis);
    lemma_open(vis, q);
    lemma_all_open(vis);
    assert(all.drop_last() =~= vis);
    assert(new.positions@ =~= old.positions@ + quad_points(all));
    assert(new.normals@ =~= old.normals@ + quad_normals(all));
    let c0 = old.texcoords@.len() as int;
    assert(new.texcoords@.take(c0) =~= old.texcoords@) by {
        assert forall|k: int| 0 <= k < c0 implies #[trigger] new.texcoords@[k]
            == old.texcoords@[k] by {
            assert(half.texcoords@[k] == new.texcoords@.take(half.texcoords@.len() as int)[k]);
            assert(before.texcoords@[k] == half.texcoords@.take(before.texcoords@.len() as int)[k]);
            assert(old.texcoords@[k] == before.texcoords@.take(c0)[k]);
        }
    }
    assert forall|k: int| c0 <= k < new.texcoords@.len() implies (#[trigger] new.texcoords@[k])@
        == seq![0u32, 0u32] by {
        let h = half.texcoords@.len() as int;
        let b = before.texcoords@.len() as int;
        if k < h {
            assert(half.texcoords@[k] == new.texcoords@.take(h)[k]);
            if k < b {
                assert(before.texcoords@[k] == half.texcoords@.take(b)[k]);
            }
        }
    }
    let t0 = old.indices@.len() as int;
    let h = half.indices@.len() as int;
    let b = before.indices@.len() as int;
    assert forall|k: int| 0 <= k < b implies #[trigger] new.indices@[k] == before.indices@[k] by {
        assert(half.indices@[k] == new.indices@.take(h)[k]);
        assert(before.indices@[k] == half.indices@.take(b)[k]);
    }
    assert(half.indices@[b] == new.indices@.take(h)[b]);
    assert(new.indices@.take(t0) =~= old.indices@) by {
        assert forall|k: int| 0 <= k < t0 implies #[trigger] new.indices@[k] == old.indices@[k] by {
            assert(old.indices@[k] == before.indices@.take(t0)[k]);
        }
    }
    let m0 = old.tri_mat@.len() as int;
    assert(new.tri_mat@.take(m0) =~= old.tri_mat@) by {
        assert forall|k: int| 0 <= k < m0 implies #[trigger] new.tri_mat@[k] == old.tri_mat@[k] by {
            assert(old.tri_mat@[k] == before.tri_mat@.take(m0)[k]);
        }
    }
    assert forall|k: int| 0 <= k < 2 * all.len() implies #[trigger] tri_holds(
        old,
        new,
        all,
        k,
    ) by {
        if k < 2 * n {
            assert(tri_holds(old, before, vis, k));
            assert(all[k / 2] == vis[k / 2]);
            assert(slot_at(openers(vis), slot(vis[k / 2].depth)) is Some);
        } else {
            assert(k / 2 == n);
        }
    }
}

/// Appends a quad for every leaf tile that is not nearer than `min_t`, and a
/// material for every depth among them. The caller rebuilds the hierarchy.
pub fn build(scene: &mut Scene, quads: &[LeafQuad], min_t: u32) -> (a: FrustArtifact)
    requires
        old(scene).positions.len() + 6 * visible(quads@, min_t).len() <= u32::MAX,
        old(scene).materials.len() + openers(visible(quads@, min_t)).len() <= u32::MAX,
    ensures
        appended(*old(scene), *final(scene), visible(quads@, min_t)),
        counts_of(visible(quads@, min_t), a),
{
    let ghost base = *scene;
    let m0: usize = scene.materials.len();
    let mut depth_mat: Vec<Option<u32>> = Vec::new();
    let mut d: usize = 0;
    while d < DEPTHS
        invariant
            d <= DEPTHS,
            depth_mat@.len() == d,
            forall|s: int| 0 <= s < d ==> #[trigger] depth_mat@[s] is None,
        decreases DEPTHS - d,
    {
        depth_mat.push(None);
        d = d + 1;
    }
    let n: usize = quads.len();
    let mut i: usize = 0;
    let mut tiles: usize = 0;
    let ghost vis: Seq<LeafQuad> = Seq::empty();
    proof {
        assert(quads@.take(0) =~= Seq::<LeafQuad>::empty());
        let e = Seq::<LeafQuad>::empty();
        assert(scene.positions@ =~= base.positions@ + quad_points(e));
        assert(scene.normals@ =~= base.normals@ + quad_normals(e));
        assert(scene.texcoords@.take(base.texcoords@.len() as int) =~= base.texcoords@);
        assert(scene.indices@.take(base.indices@.len() as int) =~= base.indices@);
        assert(scene.tri_mat@.take(base.tri_mat@.len() as int) =~= base.tri_mat@);
        assert(scene.materials@ =~= base.materials@ + openers(e).map_values(
            |q: LeafQuad| glow(q.emissive),
        ));
    }
    while i < n
        invariant
            i <= n,
            n == quads@.len(),
            m0 == base.materials@.len(),
            base.positions@.len() + 6 * visible(quads@, min_t).len() <= u32::MAX,
            base.materials@.len() + openers(visible(quads@, min_t)).len() <= u32::MAX,
            vis == visible(quads@.take(i as int), min_t),
            tiles == vis.len(),
            tiles <= i,
            appended(base, *scene, vis),
            depth_mat@.len() == DEPTHS,
            forall|s: int|
                0 <= s < DEPTHS ==> #[trigger] depth_mat@[s] == match slot_at(openers(vis), s) {
                    Some(k) => Some((m0 + k) as u32),
                    None => None::<u32>,
                },
        decreases n - i,
    {
        let q = quads[i];
        proof {
            assert(quads@.take(i as int + 1).drop_last() =~= quads@.take(i as int));
            assert(quads@.take(i as int + 1).last() == q);
            lemma_visible_prefix(quads@, min_t, i as int + 1);
        }
        if !bits::is_le(q.t_start, min_t) {
            let ghost before = *scene;
            proof {
                lemma_open(vis, q);
                lemma_lens(vis);
                lemma_slot_at(openers(vis), slot(q.depth));
                lemma_openers_prefix(visible(quads@, min_t), vis.len() as int + 1);
                assert(visible(quads@, min_t).take(vis.len() as int + 1) =~= vis.push(q));
            }
            let di: usize = if (q.depth as usize) < DEPTHS {
                q.depth as usize
            } else {
                DEPTHS - 1
            };
            let mat: u32 = match depth_mat[di] {
                Some(m) => m,
                None => {
                    let m: u32 = scene.materials.len() as u32;
                    scene.materials.push(emissive_material(q.emissive));
                    depth_mat.set(di, Some(m));
                    m
                },
            };
            let ghost opened = *scene;
            proof {
                let f = |q: LeafQuad| glow(q.emissive);
                assert(scene.materials@ =~= base.materials@ + openers(vis.push(q)).map_values(f));
            }
            push_tri(scene, q.p0, q.p1, q.p2, q.n0, mat);
            let ghost half = *scene;
            push_tri(scene, q.p0, q.p2, q.p3, q.n1, mat);
            tiles = tiles + 1;
            proof {
                lemma_append(base, before, opened, half, *scene, vis, q, mat);
                vis = vis.push(q);
            }
        }
        i = i + 1;
    }
    proof {
        assert(quads@.take(n as int) =~= quads@);
        lemma_lens(vis);
    }
    let verts: u32 = (tiles * 6) as u32;
    FrustArtifact {
        verts,
        tris: (tiles * 2) as u32,
        mats: (scene.materials.len() - m0) as u32,
    }
}

/// The tiles shown of a prefix are a prefix of the tiles shown.
proof fn lemma_visible_prefix(quads: Seq<LeafQuad>, min_t: u32, i: int)
    requires
        0 <= i <= quads.len(),
    ensures
        ({
            let part = visible(quads.take(i), min_t);
            let all = visible(quads, min_t);
            part.len() <= all.len() && all.take(part.len() as int) == part
        }),
    decreases quads.len() - i,
{
    let part = visible(quads.take(i), min_t);
    let all = visible(quads, min_t);
    if i < quads.len() {
        lemma_visible_prefix(quads, min_t, i + 1);
        let more = visible(quads.take(i + 1), min_t);
        assert(quads.take(i + 1).drop_last() =~= quads.take(i));
        assert(all.take(part.len() as int) =~= all.take(more.len() as int).take(part.len() as int));
        assert(more.take(part.len() as int) =~= part);
    } else {
        assert(quads.take(i) =~= quads);
        assert(all.take(part.len() as int) =~= part);
    }
}

/// More tiles open no fewer slots.
proof fn lemma_openers_prefix(quads: Seq<LeafQuad>, i: int)
    requires
        0 <= i <= quads.len(),
    ensures
        openers(quads.take(i)).len() <= openers(quads).len(),
    decreases quads.len() - i,
{
    if i < quads.len() {
        lemma_openers_prefix(quads, i + 1);
        assert(quads.take(i + 1).drop_last() =~= quads.take(i));
    } else {
        assert(quads.take(i) =~= quads);
    }
}

/// The first entries of a list, or all of them where it has no more.
pub open spec fn cut<T>(s: Seq<T>, n: int) -> Seq<T> {
    if n <= s.len() {
        s.take(n)
    } else {
        s
    }
}

/// `new` is `old` with an artifact's tail taken off every list.
pub open spec fn truncated(old: Scene, new: Scene, a: FrustArtifact) -> bool {
    let v = old.positions@.len() - a.verts;
    let t = old.indices@.len() - a.tris;
    let m = old.materials@.len() - a.mats;
    &&& new.positions@ == old.positions@.take(v)
    &&& new.normals@ == cut(old.normals@, v)
    &&& new.texcoords@ == cut(old.texcoords@, v)
    &&& new.indices@ == old.indices@.take(t)
    &&& new.tri_mat@ == cut(old.tri_mat@, t)
    &&& new.materials@ == old.materials@.take(m)
    &&& rest_unchanged(old, new)
}

/// Takes a snapshot off the scene again. The caller rebuilds the hierarchy.
pub fn clear(scene: &mut Scene, a: FrustArtifact)
    requires
        a.verts <= old(scene).positions.len(),
        a.tris <= old(scene).indices.len(),
        a.mats <= old(scene).materials.len(),
    ensures
        truncated(*old(scene), *final(scene), a),
{
    let ghost given = *scene;
    let v: usize = scene.positions.len() - a.verts as usize;
    scene.positions.truncate(v);
    scene.normals.truncate(v);
    scene.texcoords.truncate(v);
    let t: usize = scene.indices.len() - a.tris as usize;
    scene.indices.truncate(t);
    scene.tri_mat.truncate(t);
    let m: usize = scene.materials.len() - a.mats as usize;
    scene.materials.truncate(m);
    proof {
        assert(scene.positions@ =~= given.positions@.take(v as int));
        assert(scene.normals@ =~= cut(given.normals@, v as int));
        assert(scene.texcoords@ =~= cut(given.texcoords@, v as int));
        assert(scene.indices@ =~= given.indices@.take(t as int));
        assert(scene.tri_mat@ =~= cut(given.tri_mat@, t as int));
        assert(scene.materials@ =~= given.materials@.take(m as int));
    }
}

/// A snapshot brings no cutout, relief or transmissive material, so no scene
/// flag changes with it.
pub proof fn snapshots_flip_no_flag(emissive: Bits3)
    ensures
        glow(emissive).transmission == 0,
        glow(emissive).height_amp == 0,
        glow(emissive).kind == MatKind::Diffuse,
{
}

/// Clearing a snapshot gives back the scene that it was taken in.
pub proof fn clear_undoes_build(
    old: Scene,
    built: Scene,
    cleared: Scene,
    quads: Seq<LeafQuad>,
    a: FrustArtifact,
)
    requires
        old.normals@.len() == old.positions@.len(),
        old.texcoords@.len() == old.positions@.len(),
        old.tri_mat@.len() == old.indices@.len(),
        appended(old, built, quads),
        counts_of(quads, a),
        truncated(built, cleared, a),
    ensures
        cleared.positions@ == old.positions@,
        cleared.normals@ == old.normals@,
        cleared.texcoords@ == old.texcoords@,
        cleared.indices@ == old.indices@,
        cleared.tri_mat@ == old.tri_mat@,
        cleared.materials@ == old.materials@,
        rest_unchanged(old, cleared),
{
    lemma_lens(quads);
    assert(cleared.positions@ =~= old.positions@);
    assert(cleared.normals@ =~= old.normals@);
    assert(cleared.texcoords@ =~= old.texcoords@);
    assert(cleared.indices@ =~= old.indices@);
    assert(cleared.tri_mat@ =~= old.tri_mat@);
    assert(cleared.materials@ =~= old.materials@);
}

/// Tiles of one depth share a material, and tiles whose depths have slots of
/// their own do not.
pub proof fn tiles_of_a_depth_share_a_material(quads: Seq<LeafQuad>, m0: int, i: int, j: int)
    requires
        0 <= i < quads.len(),
        0 <= j < quads.len(),
    ensures
        quad_mat(quads, m0, i) == quad_mat(quads, m0, j) <==> slot(quads[i].depth) == slot(
            quads[j].depth,
        ),
        m0 <= quad_mat(quads, m0, i) < m0 + openers(quads).len(),
{
    lemma_all_open(quads);
    lemma_slot_at(openers(quads), slot(quads[i].depth));
    lemma_slot_at(openers(quads), slot(quads[j].depth));
}

proof fn lemma_points_at(quads: Seq<LeafQuad>, i: int)
    requires
        0 <= i < quads.len(),
    ensures
        ({
            let (p, n, q) = (quad_points(quads), quad_normals(quads), quads[i]);
            &&& p.len() == 6 * quads.len()
            &&& n.len() == 6 * quads.len()
            &&& p[6 * i] == q.p0 && p[6 * i + 1] == q.p1 && p[6 * i + 2] == q.p2
            &&& p[6 * i + 3] == q.p0 && p[6 * i + 4] == q.p2 && p[6 * i + 5] == q.p3
            &&& n[6 * i] == q.n0 && n[6 * i + 1] == q.n0 && n[6 * i + 2] == q.n0
            &&& n[6 * i + 3] == q.n1 && n[6 * i + 4] == q.n1 && n[6 * i + 5] == q.n1
        }),
    decreases quads.len(),
{
    lemma_lens(quads.drop_last());
    if i < quads.len() - 1 {
        lemma_points_at(quads.drop_last(), i);
        assert(quads.drop_last()[i] == quads[i]);
    }
}

/// The tiles that are shown are those that start past the limit, in order.
pub proof fn near_tiles_are_left_out(quads: Seq<LeafQuad>, min_t: u32)
    ensures
        visible(quads, min_t) == quads.filter(|q: LeafQuad| !bits::le(q.t_start, min_t)),
    decreases quads.len(),
{
    reveal(Seq::filter);
    if quads.len() > 0 {
        near_tiles_are_left_out(quads.drop_last(), min_t);
    }
}

/// A shown tile stands in the scene as two flat triangles behind everything that
/// was there: from the first corner over the second to the third, and from the
/// first over the third to the fourth, each with corners and a normal of its
/// own, and both with the tile's material.
pub proof fn tiles_become_two_triangles(old: Scene, new: Scene, quads: Seq<LeafQuad>, i: int)
    requires
        appended(old, new, quads),
        0 <= i < quads.len(),
        old.positions@.len() + 6 * quads.len() <= u32::MAX,
    ensures
        ({
            let (v, q) = (old.positions@.len() + 6 * i, quads[i]);
            let (n, t, m) = (
                old.normals@.len() + 6 * i,
                old.indices@.len() + 2 * i,
                old.tri_mat@.len() + 2 * i,
            );
            let (a, b) = (new.indices@[t]@, new.indices@[t + 1]@);
            &&& a.len() == 3 && a[0] == v && a[1] == v + 1 && a[2] == v + 2
            &&& b.len() == 3 && b[0] == v + 3 && b[1] == v + 4 && b[2] == v + 5
            &&& new.positions@[v] == q.p0
            &&& new.positions@[v + 1] == q.p1
            &&& new.positions@[v + 2] == q.p2
            &&& new.positions@[v + 3] == q.p0
            &&& new.positions@[v + 4] == q.p2
            &&& new.positions@[v + 5] == q.p3
            &&& new.normals@[n] == q.n0 && new.normals@[n + 1] == q.n0 && new.normals@[n + 2] == q.n0
            &&& new.normals@[n + 3] == q.n1 && new.normals@[n + 4] == q.n1 && new.normals@[n + 5]
                == q.n1
            &&& new.tri_mat@[m] == new.tri_mat@[m + 1]
        }),
        new.positions@.take(old.positions@.len() as int) == old.positions@,
        new.normals@.take(old.normals@.len() as int) == old.normals@,
        new.materials@.take(old.materials@.len() as int) == old.materials@,
{
    lemma_points_at(quads, i);
    assert(tri_holds(old, new, quads, 2 * i));
    assert(tri_holds(old, new, quads, 2 * i + 1));
    assert((2 * i) / 2 == i && (2 * i + 1) / 2 == i);
    assert(new.positions@.take(old.positions@.len() as int) =~= old.positions@);
    assert(new.normals@.take(old.normals@.len() as int) =~= old.normals@);
    assert(new.materials@.take(old.materials@.len() as int) =~= old.materials@);
}

proof fn lemma_first_opens(quads: Seq<LeafQuad>, s: int)
    ensures
        slot_at(openers(quads), s) matches Some(k) ==> exists|f: int|
            0 <= f < quads.len() && slot((#[trigger] quads[f]).depth) == s && openers(quads)[k]
                == quads[f] && forall|j: int|
                0 <= j < f ==> slot((#[trigger] quads[j]).depth) != s,
        slot_at(openers(quads), s) is None ==> forall|j: int|
            0 <= j < quads.len() ==> slot((#[trigger] quads[j]).depth) != s,
    decreases quads.len(),
{
    if quads.len() > 0 {
        let rest = quads.drop_last();
        let q = quads.last();
        lemma_first_opens(rest, s);
        lemma_open(rest, q);
        lemma_slot_at(openers(rest), s);
        assert(rest.push(q) =~= quads);
        if slot_at(openers(rest), s) is Some {
            let k = slot_at(openers(rest), s)->0;
            let f = choose|f: int|
                0 <= f < rest.len() && slot((#[trigger] rest[f]).depth) == s && openers(rest)[k]
                    == rest[f] && forall|j: int|
                    0 <= j < f ==> slot((#[trigger] rest[j]).depth) != s;
            assert(rest[f] == quads[f]);
            assert forall|j: int| 0 <= j < f implies slot((#[trigger] quads[j]).depth) != s by {
                assert(rest[j] == quads[j]);
            }
        } else {
            assert forall|j: int| 0 <= j < rest.len() implies slot((#[trigger] quads[j]).depth) != s by {
                assert(rest[j] == quads[j]);
            }
            if slot(q.depth) == s {
                assert(quads[quads.len() - 1] == q);
            } else {
                assert(slot_at(openers(quads), s) is None);
            }
        }
    }
}

/// A tile's material glows as the first tile of its depth does; depths from
/// thirty-one on count as one. It is nearly black but for that, rough, and has no
/// map.
pub proof fn tiles_glow_by_depth(old: Scene, new: Scene, quads: Seq<LeafQuad>, i: int)
    requires
        appended(old, new, quads),
        0 <= i < quads.len(),
        old.materials@.len() + quads.len() <= u32::MAX,
    ensures
        ({
            let m = new.tri_mat@[old.tri_mat@.len() + 2 * i] as int;
            let same = |a: u32, b: u32| a == b || (a >= 31 && b >= 31);
            &&& old.materials@.len() <= m < new.materials@.len()
            &&& exists|f: int|
                0 <= f <= i && same((#[trigger] quads[f]).depth, quads[i].depth)
                    && new.materials@[m].emissive == quads[f].emissive && forall|j: int|
                    0 <= j < f ==> !same((#[trigger] quads[j]).depth, quads[i].depth)
            &&& new.materials@[m].roughness == 0x3f80_0000
            &&& new.materials@[m].metallic == 0 && new.materials@[m].anisotropy == 0
            &&& new.materials@[m].sheen == 0 && new.materials@[m].translucency == 0
            &&& new.materials@[m].transmission == 0 && new.materials@[m].ripple_amp == 0
            &&& new.materials@[m].height_amp == 0 && new.materials@[m].class == 0
            &&& new.materials@[m].albedo.x == 0x3ca3_d70a && new.materials@[m].albedo.y
                == 0x3ca3_d70a && new.materials@[m].albedo.z == 0x3ca3_d70a
            &&& new.materials@[m].trans_tint.x == 0xbf80_0000 && new.materials@[m].trans_tint.y
                == 0xbf80_0000 && new.materials@[m].trans_tint.z == 0xbf80_0000
            &&& new.materials@[m].ior == 0x3fc0_0000 && new.materials@[m].normal_scale
                == 0x3f80_0000
            &&& new.materials@[m].normal_tex == u32::MAX && new.materials@[m].rough_tex == u32::MAX
            &&& new.materials@[m].metal_tex == u32::MAX && new.materials@[m].emissive_tex
                == u32::MAX
            &&& new.materials@[m].kind == MatKind::Diffuse
        }),
{
    let s = slot(quads[i].depth);
    let own = openers(quads);
    lemma_lens(quads);
    lemma_all_open(quads);
    lemma_slot_at(own, s);
    lemma_first_opens(quads, s);
    assert(tri_holds(old, new, quads, 2 * i));
    assert((2 * i) / 2 == i);
    let k = slot_at(own, s)->0;
    let f = choose|f: int|
        0 <= f < quads.len() && slot((#[trigger] quads[f]).depth) == s && own[k] == quads[f]
            && forall|j: int| 0 <= j < f ==> slot((#[trigger] quads[j]).depth) != s;
    if i < f {
        assert(slot(quads[i].depth) != s);
    }
    let m = old.materials@.len() + k;
    assert(new.materials@[m] == glow(own[k].emissive));
    assert(slot(quads[f].depth) == s);
    assert forall|j: int| 0 <= j < f implies !(#[trigger] quads[j].depth == quads[i].depth || (
    quads[j].depth >= 31 && quads[i].depth >= 31)) by {
        assert(slot(quads[j].depth) != s);
    }
}

} // verus!
