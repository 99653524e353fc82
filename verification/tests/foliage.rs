//! Foliage: which materials sway, how triangles group into plants and cells,
//! and how a plan is cut along the cells. Lengths and boxes are computed here
//! with floats, as the renderer does.
use frustracer::bits::{Bits3, BitsBox};
use frustracer::foliage::attach::{attach_leaves, best_contact, leaf_candidates, LeafPrint};
use frustracer::foliage::cells::{
    cell_partition, flutter_seed, sway_cells, CellPose, GridPos, Partition, SwayCell,
    PLANT_KEY_BIT, STATIC_CELL,
};
use frustracer::foliage::components::{components, is_marked, is_masked, Components, NO_COMP};
use frustracer::foliage::merge::{merge_woody, Footprint, WoodyPlants, FIELD_PLANT};
use frustracer::foliage::plants::{
    demote, derive_plants, plant_boxes, plant_tri_counts, tri_plants, Derived, PlantPose, PlantSet,
    MAX_CELLS, MAX_PLANTS,
};
use frustracer::foliage::regions::{region_of, regions_of};
use frustracer::foliage::session::{
    attach, census, leaf_materials, mv_wanted, plant_materials, sway_abl, woody_materials, Builder,
    Session, WindCache, NEVER,
};
use frustracer::foliage::split::{split_plan, BlasPlan, SceneSway, NO_NODE};
use frustracer::foliage::voxels::{
    is_large, vox_span, voxel_key, ContactGrid, VoxRange, PLANT_LARGE_VOX,
};
use frustracer::forest::Forest;
use frustracer::scene::{
    MatKind, Material, Scene, SwayRegion, Texture, IDX_BARK, IDX_FOLIAGE, NO_TEX,
};

type V = [f32; 3];

fn bits3(v: V) -> Bits3 {
    Bits3 { x: v[0].to_bits(), y: v[1].to_bits(), z: v[2].to_bits() }
}

fn vec3(b: Bits3) -> V {
    [f32::from_bits(b.x), f32::from_bits(b.y), f32::from_bits(b.z)]
}

fn map2(a: V, b: V, f: impl Fn(f32, f32) -> f32) -> V {
    [f(a[0], b[0]), f(a[1], b[1]), f(a[2], b[2])]
}

fn material(kind: MatKind, class: u8) -> Material {
    let zero = bits3([0.0; 3]);
    Material {
        albedo: zero,
        roughness: 0,
        metallic: 0,
        anisotropy: 0,
        sheen: 0,
        translucency: 0,
        transmission: 0,
        trans_tint: zero,
        ior: 0,
        ripple_amp: 0,
        emissive: zero,
        normal_tex: NO_TEX,
        normal_scale: 0,
        height_amp: 0,
        rough_tex: NO_TEX,
        metal_tex: NO_TEX,
        emissive_tex: NO_TEX,
        class,
        kind,
    }
}

const STATIC: u32 = 0;
const LEAF: u32 = 1;
const TRUNK: u32 = 2;

/// A scene of one still, one leaf and one trunk material.
fn empty() -> Scene {
    Scene {
        positions: vec![],
        normals: vec![],
        texcoords: vec![],
        indices: vec![],
        tri_mat: vec![],
        materials: vec![
            material(MatKind::Diffuse, 0),
            material(MatKind::Textured { tex: 0 }, IDX_FOLIAGE),
            material(MatKind::Textured { tex: 1 }, IDX_BARK),
        ],
        textures: vec![Texture { alpha_masked: true }, Texture { alpha_masked: false }],
        detail_scales: vec![],
        tex_var: vec![],
        any_alpha: true,
        any_height: false,
        any_transmissive: false,
        content_min: bits3([0.0; 3]),
        content_max: bits3([0.0; 3]),
        sway_regions: vec![],
    }
}

fn add_mesh(s: &mut Scene, pos: &[V], tris: &[[u32; 3]], mat: u32) {
    let base = s.positions.len() as u32;
    s.positions.extend(pos.iter().map(|&p| bits3(p)));
    s.indices.extend(tris.iter().map(|t| t.map(|i| i + base)));
    s.tri_mat.extend(tris.iter().map(|_| mat));
}

fn card(s: &mut Scene, o: V, mat: u32) {
    let p = [o, [o[0] + 0.1, o[1], o[2]], [o[0], o[1] + 0.1, o[2]]];
    add_mesh(s, &p, &[[0, 1, 2]], mat);
}

/// A trunk: rungs a unit apart from height 1 up, two triangles each.
fn strip(s: &mut Scene, x0: f32, y1: f32) {
    let segs = (y1 - 1.0) as u32;
    let mut pos = vec![];
    let mut tris = vec![];
    for k in 0..=segs {
        pos.push([x0, 1.0 + k as f32, 0.0]);
        pos.push([x0 + 0.3, 1.0 + k as f32, 0.0]);
    }
    for k in 0..segs {
        let b = 2 * k;
        tris.push([b, b + 1, b + 2]);
        tris.push([b + 1, b + 3, b + 2]);
    }
    add_mesh(s, &pos, &tris, TRUNK);
}

fn finish(s: &mut Scene) {
    let mut lo = [f32::INFINITY; 3];
    let mut hi = [f32::NEG_INFINITY; 3];
    for p in &s.positions {
        lo = map2(lo, vec3(*p), f32::min);
        hi = map2(hi, vec3(*p), f32::max);
    }
    s.content_min = bits3(lo);
    s.content_max = bits3(hi);
}

// The float side.

const MERGE_K: f32 = 0.002;
const CELL_K: f32 = 0.03;

struct Reg {
    scale: f32,
    h: f32,
    pad: f32,
    org: V,
    top: V,
}

fn scales(regs: &[SwayRegion]) -> Vec<Reg> {
    regs.iter()
        .map(|r| {
            let d = map2(vec3(r.cmax), vec3(r.cmin), |a, b| a - b);
            let scale = (d[0] * d[0] + d[1] * d[1] + d[2] * d[2]).sqrt().max(1e-3);
            let h = (MERGE_K * scale).max(1e-6);
            Reg { scale, h, pad: 0.5 * h, org: vec3(r.cmin), top: vec3(r.cmax) }
        })
        .collect()
}

fn inflated(b: &BitsBox, pad: f32) -> (V, V) {
    (vec3(b.lo).map(|v| v - pad), vec3(b.hi).map(|v| v + pad))
}

fn ranges(lo: V, hi: V, org: V, pitch: f32) -> VoxRange {
    let k = |v: f32, o: f32| ((v - o) / pitch).floor() as i32;
    VoxRange {
        x0: k(lo[0], org[0]),
        x1: k(hi[0], org[0]),
        y0: k(lo[1], org[1]),
        y1: k(hi[1], org[1]),
        z0: k(lo[2], org[2]),
        z1: k(hi[2], org[2]),
    }
}

fn spans_many(b: &BitsBox, pitch: f32) -> bool {
    let e = map2(vec3(b.hi), vec3(b.lo), |a, c| ((a - c) / pitch).ceil().max(0.0));
    is_large(e[0] as u64, e[1] as u64, e[2] as u64)
}

/// Planes one contact pitch apart.
fn contact_grid(r: &Reg) -> ContactGrid {
    let planes = |o: f32| -> Vec<u32> { (0..600).map(|k| (o + k as f32 * r.h).to_bits()).collect() };
    ContactGrid { xs: planes(r.org[0]), ys: planes(r.org[1]), zs: planes(r.org[2]) }
}

fn prints(comps: &Components, reg: &[Reg]) -> Vec<Footprint> {
    (0..comps.boxes.len())
        .map(|c| {
            let r = &reg[comps.region[c] as usize];
            let (lo, hi) = inflated(&comps.boxes[c], r.pad);
            Footprint {
                large: spans_many(&comps.boxes[c], r.h),
                reach: BitsBox { lo: bits3(lo), hi: bits3(hi) },
            }
        })
        .collect()
}

fn ramp(y: f32, y0: f32, y1: f32) -> f32 {
    let band = (0.3 * (y1 - y0)).max(1e-6);
    ((y - y0) / band).clamp(0.0, 1.0).powf(0.5)
}

struct Plants {
    comps: Components,
    woody: WoodyPlants,
    ids: Vec<u32>,
    out: Derived,
}

fn derive(s: &Scene, regs: &[SwayRegion]) -> Plants {
    let mask = plant_materials(s);
    let wood = woody_materials(s);
    let reg = scales(regs);
    let comps = components(s, &mask, &wood, regs);
    let grids: Vec<ContactGrid> = reg.iter().map(contact_grid).collect();
    let woody = merge_woody(&comps, &prints(&comps, &reg), &grids);
    let n_plants = woody.plant_region.len() as u32;
    let boxes = plant_boxes(&comps, &woody.plant_of_comp, n_plants);
    let mut widest = vec![0.0f32; regs.len()];
    for (p, b) in boxes.iter().enumerate() {
        let e = map2(vec3(b.hi), vec3(b.lo), |a, c| a - c);
        let w = &mut widest[woody.plant_region[p] as usize];
        *w = w.max(e[0].max(e[1]).max(e[2]));
    }
    let h_p: Vec<f32> =
        (0..regs.len()).map(|r| reg[r].h.max(widest[r] / 8.0).max(1e-6)).collect();
    let grid: Vec<VoxRange> = boxes
        .iter()
        .zip(&woody.plant_region)
        .map(|(b, &r)| {
            let (lo, hi) = inflated(b, 0.5 * h_p[r as usize]);
            ranges(lo, hi, reg[r as usize].org, h_p[r as usize])
        })
        .collect();
    let leaves: Vec<LeafPrint> = (0..comps.boxes.len())
        .map(|c| {
            let r = comps.region[c] as usize;
            let (lo, hi) = inflated(&comps.boxes[c], 0.5 * h_p[r]);
            LeafPrint {
                large: spans_many(&comps.boxes[c], h_p[r]),
                voxels: ranges(lo, hi, reg[r].org, h_p[r]),
            }
        })
        .collect();
    let cands = leaf_candidates(&comps, &woody, &leaves, &grid);
    let vols: Vec<Vec<u32>> = cands
        .iter()
        .enumerate()
        .map(|(c, list)| {
            let pad = reg[comps.region[c] as usize].pad;
            let (lo, hi) = inflated(&comps.boxes[c], pad);
            list.iter()
                .map(|&p| {
                    let (plo, phi) = inflated(&boxes[p as usize], pad);
                    let o = map2(map2(hi, phi, f32::min), map2(lo, plo, f32::max), |a, b| {
                        (a - b).max(0.0)
                    });
                    (o[0] * o[1] * o[2]).to_bits()
                })
                .collect()
        })
        .collect();
    let ids = attach_leaves(&comps, &woody, &cands, &vols);
    let full = plant_boxes(&comps, &ids, n_plants);
    let poses: Vec<PlantPose> = full
        .iter()
        .zip(&woody.plant_region)
        .map(|(b, &r)| {
            let reg = &reg[r as usize];
            let (lo, hi) = (vec3(b.lo), vec3(b.hi));
            let floor = 0.01 * (0.3 * (reg.top[1] - reg.org[1])).max(1e-6);
            let w_max = ramp(hi[1], reg.org[1], reg.top[1]);
            let b = if hi[1] > lo[1] { w_max / (hi[1] - lo[1]).max(floor) } else { 0.0 };
            PlantPose {
                anchor: bits3([0.5 * (lo[0] + hi[0]), lo[1], 0.5 * (lo[2] + hi[2])]),
                a: (0.0 - b * lo[1]).to_bits(),
                b: b.to_bits(),
                w_max: w_max.to_bits(),
            }
        })
        .collect();
    let out = derive_plants(&comps, &ids, n_plants, &poses);
    Plants { comps, woody, ids, out }
}

fn grid_pos(s: &Scene, regs: &[SwayRegion]) -> Vec<GridPos> {
    let reg = scales(regs);
    s.indices
        .iter()
        .enumerate()
        .map(|(t, tri)| match region_of(regs, t as u32) {
            None => GridPos { x: 0, y: 0, z: 0 },
            Some(r) => {
                let r = &reg[r as usize];
                let pitch = (CELL_K * r.scale).max(1e-6);
                let c = tri
                    .iter()
                    .map(|&i| vec3(s.positions[i as usize]))
                    .fold([0.0; 3], |a, p| map2(a, p, |x, y| x + y))
                    .map(|v| v * (1.0 / 3.0));
                let q = map2(c, r.org, |a, b| ((a - b) * (1.0 / pitch)).floor());
                GridPos { x: q[0] as i64, y: q[1] as i64, z: q[2] as i64 }
            }
        })
        .collect()
}

fn cells_of(s: &Scene, plants: &PlantSet, regs: &[SwayRegion]) -> Option<(Partition, Vec<SwayCell>)> {
    let mask = plant_materials(s);
    let reg = scales(regs);
    let part = cell_partition(s, &mask, plants, regs, &grid_pos(s, regs))?;
    let mult = 2.0f32.powi(part.level as i32);
    let poses: Vec<CellPose> = part
        .keys
        .iter()
        .enumerate()
        .map(|(c, k)| {
            let r = &reg[k.region as usize];
            let (y0, y1) = (f32::from_bits(part.y0[c]), f32::from_bits(part.y1[c]));
            if k.plant != FIELD_PLANT {
                let p = &plants.plants[k.plant as usize];
                let w = f32::from_bits(p.a) + f32::from_bits(p.b) * y1;
                return CellPose { anchor: p.anchor, a: p.a, b: p.b, w_max: w.to_bits() };
            }
            let cell = (CELL_K * r.scale).max(1e-6) * mult;
            let at = [k.x, k.y, k.z].map(|v| (v as f32 + 0.5) * cell);
            let (w0, w1) = (ramp(y0, r.org[1], r.top[1]), ramp(y1, r.org[1], r.top[1]));
            let floor = 0.01 * (0.3 * (r.top[1] - r.org[1])).max(1e-6);
            let b = if y1 > y0 { (w1 - w0) / (y1 - y0).max(floor) } else { 0.0 };
            CellPose {
                anchor: bits3(map2(r.org, at, |a, b| a + b)),
                a: (w0 - b * y0).to_bits(),
                b: b.to_bits(),
                w_max: w1.to_bits(),
            }
        })
        .collect();
    let sizes: Vec<u32> = reg.iter().map(|r| r.scale.to_bits()).collect();
    let cells = sway_cells(&part, &plants.plants, &poses, &sizes);
    Some((part, cells))
}

// Materials and the session.

#[test]
fn each_leg_of_the_leaf_predicate_counts() {
    let mut s = empty();
    s.materials = vec![
        material(MatKind::Textured { tex: 0 }, IDX_FOLIAGE), // a leaf
        material(MatKind::Textured { tex: 1 }, IDX_FOLIAGE), // opaque
        material(MatKind::Textured { tex: 0 }, 0),           // a cut-out of another class
        material(MatKind::Diffuse, IDX_FOLIAGE),             // no texture
        material(MatKind::Textured { tex: 1 }, IDX_BARK),    // a trunk
        material(MatKind::Diffuse, IDX_BARK),                // a plain trunk
    ];
    assert_eq!(leaf_materials(&s), [true, false, false, false, false, false]);
    assert_eq!(woody_materials(&s), [false, false, false, false, true, true]);
    assert_eq!(plant_materials(&s), [true, false, false, false, true, true]);
}

#[test]
fn sway_needs_instances() {
    let mut session = Session::new();
    assert!(session.armed() && !session.sweep_armed() && !session.gateway_mode());
    assert!(attach(&session, &empty()).is_none());
    session.max_prims = Some(4096);
    assert!(session.sweep_armed() && session.gateway_mode());
    let roots = attach(&session, &empty()).expect("sway is on");
    assert_eq!(roots.mask, [false, true, true]);
    assert_eq!(roots.woody, [false, false, true]);
    assert_eq!(roots.regions.len(), 1);
    session.builder = Builder::Lbvh;
    assert!(session.sweep_armed() && !session.gateway_mode());
    session.set_armed(false);
    assert!(!session.sweep_armed());
    session.set_amp_mult(4.0f32.to_bits());
    assert_eq!(session.amp_mult(), 4.0f32.to_bits());
}

#[test]
fn swept_boxes_cover_rest_amplitude() {
    let mut s = Session::new();
    for (amp, want) in [(0.25, 1.0), (1.0, 1.0), (4.0, 4.0), (f32::NAN, 1.0)] {
        s.set_amp_mult(f32::to_bits(amp));
        assert_eq!(f32::from_bits(s.sweep_mult()), want);
    }
}

#[test]
fn cost_probes_are_named_anywhere() {
    assert!(!sway_abl(None).rest && !sway_abl(None).noshift);
    let a = sway_abl(Some("noshift,rest"));
    assert!(a.rest && a.noshift);
    assert!(sway_abl(Some("xrest")).rest && !sway_abl(Some("shift")).noshift);
}

#[test]
fn a_frozen_clock_bakes_once() {
    let abl = sway_abl(None);
    let mut w = WindCache::new(2);
    assert_eq!(w.baked, NEVER);
    assert!(f32::from_bits(NEVER).is_nan());
    let (t, u) = (7.3f32.to_bits(), vec![bits3([1.0, 0.0, 2.0]), bits3([3.0, 0.0, 4.0])]);
    assert!(w.needs_bake(&abl, t));
    assert!(!w.needs_bake(&sway_abl(Some("rest")), t));
    w.bake(u.clone(), t);
    assert!(!w.needs_bake(&abl, t) && w.needs_bake(&abl, 8.1f32.to_bits()));
    assert_eq!(w.offsets_snapshot(), u);
    assert_eq!(w.wind(1), u[1]);
    assert!(!mv_wanted(t, t) && mv_wanted(t, 0));
}

// Regions.

fn region(a: u32, b: u32) -> SwayRegion {
    SwayRegion { tri_start: a, tri_end: b, cmin: bits3([0.0; 3]), cmax: bits3([1.0; 3]) }
}

#[test]
fn regions_are_found_by_triangle() {
    let r = [region(2, 5), region(5, 6), region(9, 12)];
    let want = [None, None, Some(0), Some(0), Some(0), Some(1), None, None, None, Some(2)];
    for (t, w) in want.iter().enumerate() {
        assert_eq!(region_of(&r, t as u32), *w);
    }
    assert_eq!(region_of(&r, 12), None);
    let mut s = empty();
    card(&mut s, [0.0; 3], LEAF);
    assert_eq!(regions_of(&s)[0].tri_end, 1);
    s.sway_regions = r.to_vec();
    assert_eq!(regions_of(&s).len(), 3);
}

// Grouping.

#[test]
fn forests_number_groups_by_first_member() {
    let mut f = Forest::new(6);
    f.join(4, 2);
    f.join(2, 5);
    assert_eq!(f.find(5), f.find(4));
    assert_ne!(f.find(0), f.find(1));
    let (ids, n) = f.number(&[true, true, true, false, true, true], 99);
    assert_eq!(n, 3);
    assert_eq!(ids, [0, 1, 2, 99, 2, 2]);
}

#[test]
fn voxels_have_keys_of_their_own() {
    let mut seen = vec![];
    for r in [0, 1, u32::MAX] {
        for x in [i32::MIN, -1, 0, i32::MAX] {
            for y in [-1, 0] {
                for z in [i32::MIN, 7] {
                    let k = voxel_key(r, x, y, z);
                    assert!(!seen.contains(&k));
                    seen.push(k);
                }
            }
        }
    }
}

#[test]
fn components_follow_shared_vertices() {
    let mut s = empty();
    card(&mut s, [9.0, 9.0, 9.0], STATIC);
    strip(&mut s, 0.0, 3.0); // four triangles
    card(&mut s, [5.0, 0.0, 0.0], LEAF);
    finish(&mut s);
    let (mask, wood, regs) = (plant_materials(&s), woody_materials(&s), regions_of(&s));
    assert!(!is_marked(&s, &mask, 0) && is_masked(&s, &mask, &regs, 1));
    let c = components(&s, &mask, &wood, &regs);
    assert_eq!(c.tri_comp, [NO_COMP, 0, 0, 0, 0, 1]);
    assert_eq!(c.tris, [4, 1]);
    assert_eq!(c.woody, [true, false]);
    assert_eq!(c.region, [0, 0]);
    assert_eq!(vec3(c.boxes[0].hi), [0.3, 3.0, 0.0]);
}

/// A trunk with leaves at its top and a lone card far off.
fn tree_scene() -> Scene {
    let mut s = empty();
    add_mesh(&mut s, &[[0.0; 3], [1.0, 0.0, 0.0], [0.0, 0.0, 1.0]], &[[0, 1, 2]], STATIC);
    strip(&mut s, 0.0, 9.0);
    for j in 0..4 {
        card(&mut s, [0.05 * j as f32, 8.5 + 0.15 * j as f32, 0.0], LEAF);
    }
    card(&mut s, [5.0, 0.5, 5.0], LEAF);
    finish(&mut s);
    s
}

#[test]
fn canopies_join_their_trunk() {
    let s = tree_scene();
    let regs = regions_of(&s);
    let d = derive(&s, &regs);
    let n = s.indices.len();
    assert_eq!(d.out.set.plants.len(), 1);
    let tp = &d.out.set.tri_plant;
    assert!(tp[1..n - 1].iter().all(|&p| p == 0));
    assert_eq!((tp[0], tp[n - 1]), (FIELD_PLANT, FIELD_PLANT));
    let p = &d.out.set.plants[0];
    assert_eq!(f32::from_bits(p.y0), 1.0);
    assert!(f32::from_bits(p.y1) >= 8.9);
    assert_eq!(p.tris, n as u32 - 2);
    assert!(f32::from_bits(p.b) > 0.0);
    assert_eq!(f32::from_bits(p.a) + f32::from_bits(p.b) * f32::from_bits(p.y0), 0.0);
    assert_eq!((d.out.demoted, d.out.demoted_tris), (0, 0));
    assert_eq!(d.woody.plant_of_comp[0], 0);
    assert_eq!(d.ids.len(), d.comps.tris.len());
    let again = derive(&s, &regs);
    assert_eq!(again.out.set.plants, d.out.set.plants);
    assert_eq!(again.out.set.tri_plant, d.out.set.tri_plant);
}

#[test]
fn a_plants_cells_share_its_pose() {
    let s = tree_scene();
    let regs = regions_of(&s);
    let d = derive(&s, &regs);
    let (part, cells) = cells_of(&s, &d.out.set, &regs).expect("the tree sways");
    assert!(cells.len() <= MAX_CELLS);
    let own: Vec<&SwayCell> = cells.iter().filter(|c| c.key == PLANT_KEY_BIT).collect();
    assert!(own.len() >= 2);
    for c in &own {
        assert_eq!((c.anchor, c.a, c.b), (own[0].anchor, own[0].a, own[0].b));
        let w = f32::from_bits(c.a) + f32::from_bits(c.b) * f32::from_bits(c.y1);
        assert_eq!(c.w_max, w.to_bits());
    }
    assert!(own.iter().any(|c| c.w_max != own[0].w_max));
    // The lone card is a cell of the field, named by its own index.
    let lone = *part.tri_cell.last().unwrap();
    assert_eq!(cells[lone as usize].key, lone as u32);
    assert_eq!(part.tri_cell[0], STATIC_CELL);
    let wood = woody_materials(&s);
    let c = census(&part.tri_cell, &d.out.set.tri_plant, &s.tri_mat, &wood);
    assert_eq!((c.woody, c.attached, c.field), (16, 4, 1));
    let mut w = WindCache::new(cells.len());
    w.bake(vec![bits3([1.0, 0.0, 1.0]); cells.len()], 1);
    let sh = w.shear(&cells, lone);
    assert_eq!((sh.a, sh.b), (cells[lone as usize].a, cells[lone as usize].b));
    assert_eq!(flutter_seed(0), 0x5ea5_1eaf);
    assert_eq!(flutter_seed(PLANT_KEY_BIT), PLANT_KEY_BIT.wrapping_mul(0x9e37_79b9) ^ 0x5ea5_1eaf);
}

/// Two trunks a hundredth apart, and a card outside both regions.
fn island_scene() -> Scene {
    let mut s = empty();
    add_mesh(&mut s, &[[0.0; 3], [1.0, 0.0, 0.0], [0.0, 0.0, 1.0]], &[[0, 1, 2]], STATIC);
    strip(&mut s, 0.0, 5.0);
    strip(&mut s, 0.31, 9.0);
    card(&mut s, [2.0, 0.5, 2.0], LEAF);
    finish(&mut s);
    s
}

fn islands() -> Vec<SwayRegion> {
    vec![
        SwayRegion {
            tri_start: 0,
            tri_end: 9,
            cmin: bits3([-1.0, 0.0, -1.0]),
            cmax: bits3([1.0, 6.0, 1.0]),
        },
        SwayRegion {
            tri_start: 9,
            tri_end: 25,
            cmin: bits3([-10.0, 0.0, -10.0]),
            cmax: bits3([10.0, 40.0, 10.0]),
        },
    ]
}

#[test]
fn regions_keep_touching_trunks_apart() {
    let s = island_scene();
    assert_eq!(s.indices.len(), 26);
    let regs = islands();
    let apart = derive(&s, &regs);
    assert_eq!(apart.out.set.plants.len(), 2);
    // Without regions the same trunks are one plant.
    let whole = regions_of(&s);
    assert_eq!(derive(&s, &whole).out.set.plants.len(), 1);
    let (part, cells) = cells_of(&s, &apart.out.set, &regs).expect("the trunks sway");
    assert_eq!(part.tri_cell[25], STATIC_CELL);
    let reg = scales(&regs);
    let (a, b) = (part.tri_cell[1] as usize, part.tri_cell[9] as usize);
    assert_eq!(cells[a].scale, reg[0].scale.to_bits());
    assert_eq!(cells[b].scale, reg[1].scale.to_bits());
    assert_ne!(cells[a].scale, cells[b].scale);
    let w = |p: usize, r: usize| {
        let y1 = f32::from_bits(apart.out.set.plants[p].y1);
        ramp(y1, reg[r].org[1], reg[r].top[1]).to_bits()
    };
    assert_eq!(apart.out.set.plants[0].w_max, w(0, 0));
    assert_eq!(apart.out.set.plants[1].w_max, w(1, 1));
    assert_ne!(w(0, 0), w(1, 1));
}

#[test]
fn no_list_means_one_region_over_all() {
    let mut s = island_scene();
    let implicit = regions_of(&s);
    s.sway_regions = vec![SwayRegion {
        tri_start: 0,
        tri_end: s.indices.len() as u32,
        cmin: s.content_min,
        cmax: s.content_max,
    }];
    let explicit = regions_of(&s);
    assert_eq!(implicit, explicit);
    let (a, b) = (derive(&s, &implicit), derive(&s, &explicit));
    let (pa, ca) = cells_of(&s, &a.out.set, &implicit).unwrap();
    let (pb, cb) = cells_of(&s, &b.out.set, &explicit).unwrap();
    assert_eq!(pa.tri_cell, pb.tri_cell);
    assert_eq!(ca, cb);
}

#[test]
fn large_woody_components_are_tested_by_box() {
    let comps = Components {
        tri_comp: vec![0, 1, 2],
        tris: vec![1, 1, 1],
        woody: vec![true, true, true],
        region: vec![0, 0, 1],
        boxes: vec![
            BitsBox { lo: bits3([0.0; 3]), hi: bits3([9.0; 3]) },
            BitsBox { lo: bits3([8.0; 3]), hi: bits3([9.0; 3]) },
            BitsBox { lo: bits3([8.0; 3]), hi: bits3([9.0; 3]) },
        ],
    };
    let print = |c: usize, large: bool| Footprint { large, reach: comps.boxes[c] };
    let planes = |n: u32| -> Vec<u32> { (0..n).map(|k| (k as f32).to_bits()).collect() };
    let grid = |n: u32| ContactGrid { xs: planes(n), ys: planes(n), zs: planes(n) };
    // The first reaches the second; the third lies in another region. Size and
    // grid decide nothing.
    for large in [[true, false, false], [false, false, false], [false, true, true]] {
        let p = [print(0, large[0]), print(1, large[1]), print(2, large[2])];
        for n in [0, 1, 20] {
            let w = merge_woody(&comps, &p, &[grid(n), grid(20 - n)]);
            assert_eq!(w.plant_of_comp, [0, 0, 1]);
            assert_eq!(w.plant_region, [0, 1]);
        }
    }
}

#[test]
fn woody_pieces_merge_under_one_pitch() {
    // Two points a gap apart, widened by half a pitch of 1, both in the voxel
    // between the planes 0 and 1 after widening.
    let merged = |gap: f32| {
        let at = |x: f32| BitsBox { lo: bits3([x, 0.0, 0.0]), hi: bits3([x, 0.0, 0.0]) };
        let comps = Components {
            tri_comp: vec![0, 1],
            tris: vec![1, 1],
            woody: vec![true, true],
            region: vec![0, 0],
            boxes: vec![at(0.4), at(0.4 + gap)],
        };
        let prints: Vec<Footprint> = comps
            .boxes
            .iter()
            .map(|b| {
                let (lo, hi) = inflated(b, 0.5);
                let reach = BitsBox { lo: bits3(lo), hi: bits3(hi) };
                Footprint { large: false, reach }
            })
            .collect();
        let planes = || -> Vec<u32> { (0..4).map(|k| (k as f32).to_bits()).collect() };
        let grid = ContactGrid { xs: planes(), ys: planes(), zs: planes() };
        let ids = merge_woody(&comps, &prints, &[grid]).plant_of_comp;
        ids[0] == ids[1]
    };
    assert!(merged(0.0) && merged(0.95));
    assert!(!merged(1.05));
}

#[test]
fn contact_goes_to_the_largest_overlap() {
    let v = |x: f32| x.to_bits();
    assert_eq!(best_contact(&[4, 7, 9], &[v(1.0), v(3.0), v(3.0)]), 7);
    assert_eq!(best_contact(&[4, 7], &[v(0.0), v(-0.0)]), FIELD_PLANT);
    assert_eq!(best_contact(&[], &[]), FIELD_PLANT);
    assert_eq!(best_contact(&[4, 7], &[v(f32::NAN), v(1e-20)]), 7);
}

#[test]
fn the_smallest_plants_give_way() {
    let n = MAX_PLANTS + 3;
    let tris: Vec<u32> = (0..n as u32).map(|p| if p % 500 == 7 { 1 } else { 5 }).collect();
    let small: Vec<u32> = (0..n as u32).filter(|p| p % 500 == 7).collect();
    assert_eq!(small.len(), 5);
    let map: Vec<u32> = (0..n as u32).chain([FIELD_PLANT]).collect();
    let d = demote(&tris, &map);
    assert_eq!((d.demoted, d.demoted_tris), (3, 3));
    assert_eq!(d.kept.len(), MAX_PLANTS);
    for &p in &small[..3] {
        assert!(!d.kept.contains(&p));
        assert_eq!(d.tri_plant[p as usize], FIELD_PLANT);
    }
    assert!(d.kept.contains(&small[3]));
    assert_eq!(d.tri_plant[8], 7);
    assert_eq!(d.tri_plant[n], FIELD_PLANT);
    let few = demote(&[3, 1], &[1, 0, FIELD_PLANT]);
    assert_eq!((few.kept, few.tri_plant, few.demoted), (vec![0, 1], vec![1, 0, FIELD_PLANT], 0));
}

#[test]
fn extents_and_counts_follow_the_members() {
    let s = tree_scene();
    let d = derive(&s, &regions_of(&s));
    assert_eq!(plant_tri_counts(&d.comps, &d.ids, 1), [s.indices.len() as u32 - 2]);
    assert_eq!(tri_plants(&d.comps, &d.ids)[1], 0);
    let none = PlantSet::field_only(3);
    assert_eq!(none.tri_plant, [FIELD_PLANT; 3]);
    assert!(none.plants.is_empty());
}

#[test]
fn still_scenes_have_no_partition() {
    let mut s = empty();
    card(&mut s, [0.0; 3], STATIC);
    finish(&mut s);
    let regs = regions_of(&s);
    assert!(cells_of(&s, &PlantSet::field_only(1), &regs).is_none());
}

#[test]
fn fine_grids_coarsen_until_they_fit() {
    let n = MAX_CELLS + 100;
    let mut s = empty();
    for _ in 0..n {
        card(&mut s, [0.0; 3], LEAF);
    }
    finish(&mut s);
    let mask = plant_materials(&s);
    let regs = regions_of(&s);
    let pos: Vec<GridPos> = (0..n as i64).map(|i| GridPos { x: i - 50, y: 0, z: 0 }).collect();
    let p = cell_partition(&s, &mask, &PlantSet::field_only(n), &regs, &pos).unwrap();
    assert_eq!(p.level, 1);
    assert_eq!(p.keys.len(), n / 2);
    assert_eq!((p.keys[0].x, p.keys[25].x), (-25, 0));
    assert_eq!((p.tri_cell[0], p.tri_cell[1], p.tri_cell[2]), (0, 0, 1));
}

// Cutting a plan along the cells.

fn cell(key: u32) -> SwayCell {
    SwayCell { anchor: bits3([0.0; 3]), y0: 0, y1: 0, a: 0, b: 0, w_max: 0, key, scale: 0 }
}

fn sway(tri_cell: Vec<u16>, n: u32) -> SceneSway {
    SceneSway { cells: (0..n).map(cell).collect(), tri_cell, cell: 5, n_plants: 0 }
}

#[test]
fn plans_are_cut_along_cells() {
    let s = STATIC_CELL;
    // Two chunks: triangles 4 2 0 | 1 3 5.
    let mut plan = BlasPlan {
        packed_tris: vec![4, 2, 0, 1, 3, 5],
        chunk_base: vec![0, 3, 6],
        chunk_node: vec![10, 11],
    };
    assert_eq!((plan.chunks(), plan.prims(0)), (2, 3));
    let sw = sway(vec![1, s, 0, 1, 1, s], 3);
    let split = split_plan(&mut plan, &sw, 2).expect("something sways");
    assert_eq!(plan.packed_tris, [1, 5, 2, 4, 0, 3]);
    assert_eq!(plan.chunk_base, [0, 2, 3, 5, 6]);
    assert_eq!(plan.chunk_node, [11, NO_NODE, NO_NODE, NO_NODE]);
    assert_eq!(split.first_chunk, 1);
    assert_eq!(split.cell_of, [0, 1, 1]);
    assert_eq!(split.cells, [cell(0), cell(1), cell(1)]);
    assert_eq!(split.cell, 5);
    let mut sorted = plan.packed_tris.clone();
    sorted.sort();
    assert_eq!(sorted, [0, 1, 2, 3, 4, 5]);
}

#[test]
fn still_plans_are_left_alone() {
    let mut plan = BlasPlan { packed_tris: vec![0, 1], chunk_base: vec![0, 2], chunk_node: vec![3] };
    assert!(split_plan(&mut plan, &sway(vec![STATIC_CELL; 2], 1), 8).is_none());
    assert_eq!((plan.packed_tris, plan.chunk_base), (vec![0, 1], vec![0, 2]));
}

#[test]
fn large_components_are_told_by_their_span() {
    assert_eq!(PLANT_LARGE_VOX, 32 * 32 * 32);
    assert_eq!(vox_span(0, 0, 0), 8);
    assert_eq!(vox_span(30, 30, 30), PLANT_LARGE_VOX);
    assert!(!is_large(30, 30, 30) && is_large(30, 30, 31));
    assert_eq!(vox_span(1 << 40, 1 << 40, 0), u64::MAX);
    assert_eq!(vox_span(1 << 30, 1 << 30, 1 << 30), u64::MAX);
}

#[test]
fn grouping_is_repeatable() {
    let mut s = empty();
    strip(&mut s, 0.0, 5.0);
    strip(&mut s, 0.31, 9.0);
    for k in 0..4 {
        card(&mut s, [0.05 * k as f32, 8.5, 0.0], LEAF);
    }
    card(&mut s, [5.0, 0.5, 5.0], LEAF);
    finish(&mut s);
    let regs = regions_of(&s);
    let (a, b) = (derive(&s, &regs), derive(&s, &regs));
    assert_eq!(a.comps.tri_comp, b.comps.tri_comp);
    assert_eq!(a.comps.tris, b.comps.tris);
    assert_eq!(a.comps.boxes, b.comps.boxes);
    assert_eq!(a.woody.plant_of_comp, b.woody.plant_of_comp);
    assert_eq!(a.woody.plant_region, b.woody.plant_region);
    assert_eq!(a.out.set.tri_plant, b.out.set.tri_plant);
    let (p, cells) = cells_of(&s, &a.out.set, &regs).expect("it sways");
    let (q, again) = cells_of(&s, &b.out.set, &regs).expect("it sways");
    assert_eq!((p.level, &p.keys, &p.tri_cell), (q.level, &q.keys, &q.tri_cell));
    assert_eq!((p.y0, p.y1), (q.y0, q.y1));
    assert_eq!(cells, again);
}

/// What holds of the plants of every scene.
fn whole(s: &Scene, regs: &[SwayRegion]) {
    let d = derive(s, regs).out.set;
    let mask = plant_materials(s);
    let n = s.indices.len();
    assert_eq!(d.tri_plant.len(), n);
    assert!(d.plants.len() <= MAX_PLANTS);
    let sways: Vec<bool> = (0..n).map(|t| is_masked(s, &mask, regs, t)).collect();
    for t in 0..n {
        assert!(d.tri_plant[t] == FIELD_PLANT || sways[t]);
        for u in 0..n {
            let meet = s.indices[t].iter().any(|v| s.indices[u].contains(v));
            if sways[t] && sways[u] && meet {
                assert_eq!(d.tri_plant[t], d.tri_plant[u]);
            }
            if d.tri_plant[t] == d.tri_plant[u] && d.tri_plant[t] != FIELD_PLANT {
                assert_eq!(region_of(regs, t as u32), region_of(regs, u as u32));
            }
        }
    }
    for (p, plant) in d.plants.iter().enumerate() {
        let tris: Vec<usize> = (0..n).filter(|&t| d.tri_plant[t] == p as u32).collect();
        assert_eq!(plant.tris as usize, tris.len());
        assert!(plant.tris >= 1);
        let y: Vec<f32> = tris
            .iter()
            .flat_map(|&t| s.indices[t])
            .map(|v| f32::from_bits(s.positions[v as usize].y))
            .collect();
        assert_eq!(f32::from_bits(plant.y0), y.iter().copied().fold(f32::INFINITY, f32::min));
        assert_eq!(f32::from_bits(plant.y1), y.iter().copied().fold(f32::NEG_INFINITY, f32::max));
    }
}

#[test]
fn plants_are_whole() {
    let s = tree_scene();
    whole(&s, &regions_of(&s));
    let s = island_scene();
    whole(&s, &regions_of(&s));
    whole(&s, &islands());
    whole(&empty(), &regions_of(&empty()));
}

#[test]
fn cell_heights_pass_over_what_is_no_number() {
    let regs = [region(0, 1)];
    let extent = |heights: [f32; 3]| {
        let mut s = empty();
        card(&mut s, [0.0, 1.0, 0.0], LEAF);
        finish(&mut s);
        for (v, h) in heights.into_iter().enumerate() {
            s.positions[v].y = h.to_bits();
        }
        let pos = [GridPos { x: 0, y: 0, z: 0 }];
        let field = PlantSet::field_only(1);
        let part = cell_partition(&s, &plant_materials(&s), &field, &regs, &pos).expect("a cell");
        (f32::from_bits(part.y0[0]), f32::from_bits(part.y1[0]))
    };
    assert_eq!(extent([3.0, 1.0, 2.0]), (1.0, 3.0));
    assert_eq!(extent([1.0, f32::NAN, 2.0]), (1.0, 2.0));
    assert_eq!(extent([f32::NAN, 2.0, -4.0]), (-4.0, 2.0));
    assert_eq!(extent([f32::NAN, 5.0, f32::NAN]), (5.0, 5.0));
    assert_eq!(extent([f32::NAN; 3]), (f32::INFINITY, f32::NEG_INFINITY));
}
