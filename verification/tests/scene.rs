//! Scene streams, material slots, the frozen view, and float bit patterns.
use frustracer::bits;
use frustracer::bits::{Bits3, BitsBox};
use frustracer::bvh::{BvhNode, GATEWAY_BIT};
use frustracer::frustcap;
use frustracer::frustcap::LeafQuad;
use frustracer::gfx::frame::Row4;
use frustracer::gfx::scene::{
    gpu_bvh_node, gpu_materials, mat_cutout, mat_height, mat_shadow, shadow_aabb, stream_bytes,
};
use frustracer::scene::{MatKind, Material, Scene, Texture, NO_TEX};

fn v3(x: f32, y: f32, z: f32) -> Bits3 {
    Bits3 { x: x.to_bits(), y: y.to_bits(), z: z.to_bits() }
}

fn material(kind: MatKind) -> Material {
    Material {
        albedo: v3(0.5, 0.25, 0.125),
        roughness: 0.5f32.to_bits(),
        metallic: 0,
        anisotropy: 0,
        sheen: 0,
        translucency: 0,
        transmission: 0.75f32.to_bits(),
        trans_tint: v3(1.0, 1.0, 1.0),
        ior: 1.5f32.to_bits(),
        ripple_amp: 0,
        emissive: v3(0.0, 0.0, 0.0),
        normal_tex: NO_TEX,
        normal_scale: 1.0f32.to_bits(),
        height_amp: 0,
        rough_tex: NO_TEX,
        metal_tex: NO_TEX,
        emissive_tex: NO_TEX,
        class: 0,
        kind,
    }
}

fn scene() -> Scene {
    let relief = Material { normal_tex: 1, height_amp: 0.1f32.to_bits(), ..material(MatKind::Diffuse) };
    Scene {
        positions: vec![v3(-9.0, 0.0, 2.0), v3(0.0, 0.0, 0.0), v3(4.0, -1.0, 0.0)],
        normals: vec![v3(0.0, 1.0, 0.0); 3],
        texcoords: vec![[0, 0]; 3],
        indices: vec![[0, 1, 2]],
        tri_mat: vec![0],
        materials: vec![
            material(MatKind::Textured { tex: 0 }),
            material(MatKind::Textured { tex: 1 }),
            material(MatKind::Marble { scale: 3 }),
            relief,
        ],
        textures: vec![Texture { alpha_masked: true }, Texture { alpha_masked: false }],
        detail_scales: vec![7],
        tex_var: vec![40, 41],
        any_alpha: true,
        any_height: true,
        any_transmissive: false,
        content_min: v3(-1.0, 0.0, -1.0),
        content_max: v3(1.0, 2.0, 1.0),
        sway_regions: vec![],
    }
}

#[test]
fn bit_patterns_compare_as_floats_do() {
    let vals = [
        0.0f32, -0.0, 1.0, -1.0, 1e-40, -1e-40, 3.5, 1e30, f32::INFINITY, f32::NEG_INFINITY,
        f32::NAN, -f32::NAN,
    ];
    for a in vals {
        for b in vals {
            assert_eq!(bits::is_lt(a.to_bits(), b.to_bits()), a < b);
            assert_eq!(bits::is_le(a.to_bits(), b.to_bits()), a <= b);
            let want_min = if a < b { a } else { b };
            let want_max = if b < a { a } else { b };
            assert_eq!(bits::smaller(a.to_bits(), b.to_bits()), want_min.to_bits());
            assert_eq!(bits::larger(a.to_bits(), b.to_bits()), want_max.to_bits());
        }
    }
}

#[test]
fn boxes_grow_merge_and_overlap() {
    let b = bits::grow(bits::new_box(), v3(1.0, 2.0, 3.0));
    assert_eq!(b, BitsBox { lo: v3(1.0, 2.0, 3.0), hi: v3(1.0, 2.0, 3.0) });
    let c = bits::grow(b, v3(-1.0, 5.0, 3.0));
    assert_eq!(c, BitsBox { lo: v3(-1.0, 2.0, 3.0), hi: v3(1.0, 5.0, 3.0) });
    assert_eq!(bits::merge(b, c), c);
    assert!(bits::overlap(b, c));
    let far = BitsBox { lo: v3(9.0, 9.0, 9.0), hi: v3(10.0, 10.0, 10.0) };
    assert!(!bits::overlap(far, c));
}

#[test]
fn shadow_box_takes_the_ground_in() {
    let (lo, hi) = shadow_aabb(&scene());
    assert_eq!(lo, v3(-9.0, -1.0, -1.0));
    assert_eq!(hi, v3(4.0, 2.0, 2.0));
}

#[test]
fn stream_sizes_add_up() {
    assert_eq!(stream_bytes(&scene()), 3 * 32 + 16 + 4 * 112);
}

#[test]
fn nodes_keep_their_words() {
    let n = BvhNode {
        aabb: BitsBox { lo: v3(1.0, 2.0, 3.0), hi: v3(4.0, 5.0, 6.0) },
        left_first: 8,
        count: GATEWAY_BIT + 9,
    };
    let g = gpu_bvh_node(&n);
    assert_eq!((g.mn, g.mx, g.left_first, g.count), (n.aabb.lo, n.aabb.hi, 8, GATEWAY_BIT + 9));
    assert_eq!(n.leaf_count(), 9);
    assert_eq!(BvhNode { count: 5, ..n }.leaf_count(), 5);
}

#[test]
fn materials_are_packed_with_their_companions() {
    let s = scene();
    let mats = gpu_materials(&s);
    assert_eq!(mats.len(), 4);
    assert_eq!((mats[0].kind, mats[0].tex, mats[0].detail_scale), (2, 0, 7));
    assert_eq!((mats[1].kind, mats[1].tex, mats[1].detail_scale), (2, 1, 0));
    assert_eq!((mats[2].kind, mats[2].scale), (1, 3));
    assert_eq!((mats[3].kind, mats[3].normal_tex, mats[3].normal_var_tex), (0, 1, 41));
    assert_eq!(mats[0].normal_var_tex, NO_TEX);
    let words = mats[0].to_words();
    assert_eq!(words.len(), 27);
    assert_eq!(words[0], 0.5f32.to_bits());
    assert_eq!(words[25], 7);
}

#[test]
fn slots_are_one_based_or_zero() {
    let s = scene();
    assert_eq!(mat_cutout(&s), vec![1, 0, 0, 0]);
    assert_eq!(
        mat_height(&s),
        vec![(0, 0), (0, 0), (0, 0), (2, 0.1f32.to_bits())]
    );
    let tints = vec![v3(1.0, 0.5, 0.25); 4];
    let rows = mat_shadow(&s, &tints);
    assert_eq!(
        rows[2],
        Row4 {
            x: 1.0f32.to_bits(),
            y: 0.5f32.to_bits(),
            z: 0.25f32.to_bits(),
            w: 0.75f32.to_bits()
        }
    );
}

// The frozen view.

fn quad(t: f32, depth: u32, k: f32) -> LeafQuad {
    LeafQuad {
        t_start: t.to_bits(),
        depth,
        p0: v3(k, 0.0, 0.0),
        p1: v3(k, 1.0, 0.0),
        p2: v3(k, 1.0, 1.0),
        p3: v3(k, 0.0, 1.0),
        n0: v3(1.0, 0.0, 0.0),
        n1: v3(-1.0, 0.0, 0.0),
        emissive: v3(depth as f32, 0.0, 0.0),
    }
}

#[test]
fn snapshots_append_and_come_off() {
    let mut s = scene();
    let quads = [
        quad(5.0, 2, 10.0),
        quad(0.01, 2, 11.0), // collapses at the camera
        quad(6.0, 3, 12.0),
        quad(7.0, 2, 13.0),
        quad(8.0, 40, 14.0),
        quad(9.0, 31, 15.0), // shares the last slot with the one before
    ];
    let a = frustcap::build(&mut s, &quads, 0.1f32.to_bits());
    assert_eq!((a.verts, a.tris, a.mats), (30, 10, 3));
    assert_eq!(s.positions.len(), 33);
    assert_eq!(s.positions[3..9].to_vec(), {
        let q = quads[0];
        vec![q.p0, q.p1, q.p2, q.p0, q.p2, q.p3]
    });
    assert_eq!(s.indices[1], [3, 4, 5]);
    assert_eq!(s.tri_mat[1..].to_vec(), vec![4, 4, 5, 5, 4, 4, 6, 6, 6, 6]);
    assert_eq!(s.materials[5].emissive, v3(3.0, 0.0, 0.0));
    assert_eq!(s.materials[5].albedo, v3(0.02, 0.02, 0.02));
    assert!(s.any_alpha && s.any_height && !s.any_transmissive);
    frustcap::clear(&mut s, a);
    let fresh = scene();
    assert_eq!(s.positions, fresh.positions);
    assert_eq!(s.normals, fresh.normals);
    assert_eq!(s.texcoords, fresh.texcoords);
    assert_eq!(s.indices, fresh.indices);
    assert_eq!(s.tri_mat, fresh.tri_mat);
    assert_eq!(s.materials, fresh.materials);
}

#[test]
fn a_view_with_no_tiles_appends_nothing() {
    let mut s = scene();
    let a = frustcap::build(&mut s, &[], 0.1f32.to_bits());
    assert_eq!((a.verts, a.tris, a.mats), (0, 0, 0));
    assert_eq!(s.positions.len(), 3);
}
