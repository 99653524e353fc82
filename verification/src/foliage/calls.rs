//! What callers of the sway derivation can count on, call by call.
use crate::bits;
use crate::bits::{Bits3, BitsBox};
use crate::foliage::attach;
use crate::foliage::attach::LeafPrint;
use crate::foliage::cells;
use crate::foliage::cells::{CellPose, GridPos, Partition, SwayCell};
use crate::foliage::components;
use crate::foliage::components::Components;
use crate::foliage::growth;
use crate::foliage::merge;
use crate::foliage::merge::{Footprint, WoodyPlants};
use crate::foliage::parting;
use crate::foliage::plants;
use crate::foliage::plants::{Demotion, Derived, Plant, PlantPose, PlantSet};
use crate::foliage::raster;
use crate::foliage::regions;
use crate::foliage::session;
use crate::foliage::session::{Census, CellShear, Roots, Session, SwayAbl, WindCache};
use crate::foliage::split;
use crate::foliage::split::{BlasPlan, SceneSway, SwaySplit};
use crate::foliage::voxels;
use crate::foliage::voxels::{ContactGrid, VoxRange};
use crate::scene::{MatKind, Scene, SwayRegion};
use crate::tally;
use crate::text;
use std::collections::HashMap;
use vstd::arithmetic::power2::pow2;
use vstd::prelude::*;

verus! {

/// Merging gives one plant to any two woody components of one region whose
/// widened boxes share a point on every axis, and none to what is not woody.
pub proof fn merging_joins_what_meets(
    comps: &Components,
    prints: &[Footprint],
    grids: &[ContactGrid],
    woody: WoodyPlants,
    c: int,
    d: int,
    q: Bits3,
)
    requires
        call_ensures(merge::merge_woody, (comps, prints, grids), woody),
        0 <= c < comps.len(),
        0 <= d < comps.len(),
    ensures
        !comps.woody@[c] ==> woody.plant_of_comp@[c] == u32::MAX,
        comps.woody@[c] && comps.woody@[d] && comps.region@[c] == comps.region@[d] && bits::inside(
            q,
            prints@[c].reach,
        ) && bits::inside(q, prints@[d].reach) ==> woody.plant_of_comp@[c]
            == woody.plant_of_comp@[d] && woody.plant_of_comp@[c] < woody.plant_region@.len()
            && woody.plant_region@[woody.plant_of_comp@[c] as int] == comps.region@[c],
{
    if comps.woody@[c] && comps.woody@[d] && comps.region@[c] == comps.region@[d] && bits::inside(
        q,
        prints@[c].reach,
    ) && bits::inside(q, prints@[d].reach) {
        merge::boxes_that_meet_are_one_plant(comps, prints@, &woody, c, d, q);
    }
}

/// Partitioning gives every triangle that sways the cell of its plant, of its
/// region and of its place on the grid, on all three axes, and every other none;
/// and there is a partition exactly where some triangle sways.
pub proof fn partitioning_follows_the_grid(
    scene: &Scene,
    mask: &[bool],
    plants: &PlantSet,
    rs: &[SwayRegion],
    pos: &[GridPos],
    r: Option<Partition>,
    t: int,
)
    requires
        regions::regions_sorted(rs@),
        call_ensures(cells::cell_partition, (scene, mask, plants, rs, pos), r),
        0 <= t < scene.tris(),
    ensures
        growth::sways(scene, mask@, rs@, t) ==> r is Some,
        r is Some ==> exists|u: int| 0 <= u < scene.tris() && growth::sways(scene, mask@, rs@, u),
        r matches Some(part) ==> if growth::sways(scene, mask@, rs@, t) {
            let c = part.tri_cell@[t] as int;
            let key = part.keys@[c];
            let w = pow2(part.level as nat);
            &&& c < part.keys@.len()
            &&& key.plant == plants.tri_plant@[t]
            &&& key.region < rs@.len()
            &&& rs@[key.region as int].tri_start <= t < rs@[key.region as int].tri_end
            &&& parting::holds_place(key.x, w, pos@[t].x)
            &&& parting::holds_place(key.y, w, pos@[t].y)
            &&& parting::holds_place(key.z, w, pos@[t].z)
        } else {
            part.tri_cell@[t] == u16::MAX
        },
{
    assert forall|u: int| #[trigger] components::masked(scene, mask@, rs@, u) <==> growth::sways(
        scene,
        mask@,
        rs@,
        u,
    ) by {
        growth::lemma_sways(scene, mask@, rs@, u);
    }
    if r is Some {
        parting::triangles_lie_in_their_cells(scene, mask@, plants, rs@, pos@, &r->0, t);
    }
    growth::lemma_sways(scene, mask@, rs@, t);
}

/// The cells' poses: every cell of a plant has the plant's, a field cell its
/// own, and both their region's scale.
pub proof fn cells_pose_as_their_plant(
    part: &Partition,
    plants: &[Plant],
    poses: &[CellPose],
    scales: &[u32],
    list: Vec<SwayCell>,
    c: int,
)
    requires
        part.wf(),
        plants@.len() <= 2048,
        cells::keys_in_range(part, plants@.len(), scales@.len()),
        call_ensures(cells::sway_cells, (part, plants, poses, scales), list),
        0 <= c < part.keys@.len(),
    ensures
        list@.len() == part.keys@.len(),
        ({
            let (cell, p) = (list@[c], part.keys@[c].plant);
            &&& cell.y0 == part.y0@[c] && cell.y1 == part.y1@[c]
            &&& cell.w_max == poses@[c].w_max
            &&& cell.scale == scales@[part.keys@[c].region as int]
            &&& p == u32::MAX ==> cell.anchor == poses@[c].anchor && cell.a == poses@[c].a && cell.b
                == poses@[c].b && cell.key == c
            &&& p != u32::MAX ==> cell.anchor == plants@[p as int].anchor && cell.a
                == plants@[p as int].a && cell.b == plants@[p as int].b && cell.key == 0x8000_0000
                + p
        }),
{
    parting::sway_cells_pose_as_their_plant(part, plants@, poses@, scales@, list@[c], c);
}

/// Splitting into components: a triangle has one exactly where it sways, and two
/// that sway and share a vertex have the same.
pub proof fn components_follow_shared_vertices(
    scene: &Scene,
    mask: &[bool],
    woody: &[bool],
    rs: &[SwayRegion],
    comps: Components,
    t: int,
    u: int,
    v: int,
)
    requires
        regions::regions_sorted(rs@),
        call_ensures(components::components, (scene, mask, woody, rs), comps),
        0 <= t < scene.tris(),
        0 <= u < scene.tris(),
    ensures
        comps.tri_comp@[t] == u32::MAX <==> !growth::sways(scene, mask@, rs@, t),
        growth::sways(scene, mask@, rs@, t) && growth::sways(scene, mask@, rs@, u)
            && growth::has_vertex(scene, t, v) && growth::has_vertex(scene, u, v)
            ==> comps.tri_comp@[t] == comps.tri_comp@[u],
{
    growth::shared_vertices_make_one_component(&comps, scene, mask@, woody@, rs@, t, u, v);
}

/// A triangle's region is the one whose range holds it, and the scene's regions
/// are its own list, or one over everything.
pub proof fn regions_are_found_by_range(
    rs: &[SwayRegion],
    t: u32,
    r: Option<u32>,
    i: u32,
    scene: &Scene,
    own: Vec<SwayRegion>,
)
    requires
        regions::regions_sorted(rs@),
        call_ensures(regions::region_of, (rs, t), r),
        scene.indices@.len() <= u32::MAX,
        call_ensures(regions::regions_of, (scene,), own),
    ensures
        r == Some(i) <==> i < rs@.len() && rs@[i as int].tri_start <= t < rs@[i as int].tri_end,
        scene.sway_regions@.len() > 0 ==> own@ == scene.sway_regions@,
        scene.sway_regions@.len() == 0 ==> own@.len() == 1 && own@[0].tri_start == 0
            && own@[0].tri_end == scene.indices@.len() && own@[0].cmin == scene.content_min
            && own@[0].cmax == scene.content_max,
{
    growth::regions_hold_their_ranges(rs@, t as int, i);
    growth::scenes_sway_by_their_list(scene);
}

/// Whether a triangle is marked and sways.
pub proof fn swaying_triangles_are_told(
    scene: &Scene,
    mask: &[bool],
    rs: &[SwayRegion],
    t: usize,
    marked: bool,
    swaying: bool,
)
    requires
        regions::regions_sorted(rs@),
        call_ensures(components::is_marked, (scene, mask, t), marked),
        call_ensures(components::is_masked, (scene, mask, rs, t), swaying),
    ensures
        marked <==> scene.tri_mat@[t as int] < mask@.len() && mask@[scene.tri_mat@[t as int] as int],
        swaying <==> growth::sways(scene, mask@, rs@, t as int),
{
    growth::lemma_sways(scene, mask@, rs@, t as int);
}

/// The candidates of a leaf component are the plants of its region that share a
/// voxel with it, or all of its region's where it is large.
pub proof fn candidates_share_a_voxel(
    comps: &Components,
    woody: &WoodyPlants,
    leaves: &[LeafPrint],
    ranges: &[VoxRange],
    lists: Vec<Vec<u32>>,
    c: int,
    p: u32,
)
    requires
        call_ensures(attach::leaf_candidates, (comps, woody, leaves, ranges), lists),
        0 <= c < comps.len(),
    ensures
        lists@.len() == comps.len(),
        lists@[c]@.contains(p) <==> {
            let (l, v) = (leaves@[c].voxels, ranges@[p as int]);
            &&& !comps.woody@[c]
            &&& p < woody.plant_region@.len()
            &&& woody.plant_region@[p as int] == comps.region@[c]
            &&& leaves@[c].large || {
                &&& l.x0 <= l.x1 && v.x0 <= v.x1 && l.x0 <= v.x1 && v.x0 <= l.x1
                &&& l.y0 <= l.y1 && v.y0 <= v.y1 && l.y0 <= v.y1 && v.y0 <= l.y1
                &&& l.z0 <= l.z1 && v.z0 <= v.z1 && l.z0 <= v.z1 && v.z0 <= l.z1
            }
        },
{
    assert(attach::lists_candidates(comps, woody, leaves@, ranges@, c, lists@[c]@));
    growth::leaves_are_tried_where_they_reach(comps, woody, leaves@, ranges@, c, lists@[c]@, p);
}

/// A leaf component is attached to the candidate of its largest positive overlap
/// volume, the first of equals, and without one to none. A woody one keeps its
/// plant.
pub proof fn leaves_attach_to_their_largest_overlap(
    comps: &Components,
    woody: &WoodyPlants,
    cands: &[Vec<u32>],
    vols: &[Vec<u32>],
    r: Vec<u32>,
    c: int,
    i: int,
)
    requires
        call_ensures(attach::attach_leaves, (comps, woody, cands, vols), r),
        0 <= c < comps.len(),
        cands@[c]@.len() == vols@[c]@.len(),
        0 <= i < vols@[c]@.len(),
    ensures
        comps.woody@[c] ==> r@[c] == woody.plant_of_comp@[c],
        !comps.woody@[c] && bits::lt(0, vols@[c]@[i]) ==> exists|b: int|
            0 <= b < vols@[c]@.len() && r@[c] == cands@[c]@[b] && bits::lt(
                0,
                #[trigger] vols@[c]@[b],
            ) && !bits::lt(vols@[c]@[b], vols@[c]@[i]) && (i < b ==> bits::lt(
                vols@[c]@[i],
                vols@[c]@[b],
            )),
        !comps.woody@[c] && (forall|j: int|
            0 <= j < vols@[c]@.len() ==> !bits::lt(0, #[trigger] vols@[c]@[j])) ==> r@[c] == u32::MAX,
{
    let v = vols@[c]@;
    assert(comps.woody@[c] ==> r@[c] == woody.plant_of_comp@[c]);
    if !comps.woody@[c] {
        assert(attach::attaches_to(cands@[c]@, v, r@[c]));
        growth::leaves_go_to_their_largest_overlap(cands@[c]@, v, r@[c]);
        if bits::lt(0, v[i]) {
            let b = choose|b: int|
                0 <= b < v.len() && r@[c] == cands@[c]@[b] && bits::lt(0, #[trigger] v[b]) && forall|
                    j: int,
                |
                    0 <= j < v.len() ==> !bits::lt(v[b], #[trigger] v[j]) && (j < b ==> bits::lt(
                        v[j],
                        v[b],
                    ) || !bits::lt(0, v[j]));
            assert(bits::lt(0, vols@[c]@[b]));
            assert(!bits::lt(v[b], v[i]));
        }
    }
}

/// The best contact of a list is the same as that.
pub proof fn best_contacts_are_the_largest(cand: &[u32], vols: &[u32], plant: u32)
    requires
        cand@.len() == vols@.len(),
        call_ensures(attach::best_contact, (cand, vols), plant),
    ensures
        (forall|i: int| 0 <= i < vols@.len() ==> !bits::lt(0, #[trigger] vols@[i])) ==> plant
            == u32::MAX,
        (exists|i: int| 0 <= i < vols@.len() && bits::lt(0, #[trigger] vols@[i])) ==> exists|b: int|
            0 <= b < vols@.len() && plant == cand@[b] && bits::lt(0, #[trigger] vols@[b]) && forall|
                i: int,
            |
                0 <= i < vols@.len() ==> !bits::lt(vols@[b], #[trigger] vols@[i]) && (i < b
                    ==> bits::lt(vols@[i], vols@[b]) || !bits::lt(0, vols@[i])),
{
    growth::leaves_go_to_their_largest_overlap(cand@, vols@, plant);
}

/// Capping the plants keeps the largest, in order, and renumbers the triangles.
pub proof fn capping_keeps_the_largest(
    tris: &[u32],
    map: &[u32],
    d: Demotion,
    p: u32,
    i: int,
    t: int,
)
    requires
        call_ensures(plants::demote, (tris, map), d),
        0 <= i < d.kept@.len(),
        0 <= t < map@.len(),
    ensures
        tris@.len() <= 2048 ==> d.kept@.len() == tris@.len(),
        tris@.len() > 2048 ==> d.kept@.len() == 2048,
        i + 1 < d.kept@.len() ==> d.kept@[i] < d.kept@[i + 1],
        p < tris@.len() && !d.kept@.contains(p) ==> tris@[p as int] < tris@[d.kept@[i] as int] || (
        tris@[p as int] == tris@[d.kept@[i] as int] && p < d.kept@[i]),
        map@[t] == d.kept@[i] ==> d.tri_plant@[t] == i,
        !d.kept@.contains(map@[t]) ==> d.tri_plant@[t] == u32::MAX,
{
    growth::the_largest_plants_stay(&d, tris@, map@, p, i, t);
}

/// A derived plant counts the triangles whose components are its own, spans
/// them, and has the pose it was given.
pub proof fn derived_plants_are_their_members(
    comps: &Components,
    ids: &[u32],
    n_plants: u32,
    poses: &[PlantPose],
    d: Derived,
    map: Seq<u32>,
    i: int,
    c: int,
    q: Bits3,
)
    requires
        comps.wf(),
        comps.tri_comp@.len() <= u32::MAX,
        forall|e: int|
            0 <= e < comps.len() ==> #[trigger] comps.tris@[e] == tally::count_of(
                comps.tri_comp@,
                e as u32,
            ),
        ids@.len() == comps.len(),
        n_plants != u32::MAX,
        call_ensures(plants::derive_plants, (comps, ids, n_plants, poses), d),
        map.len() == comps.tri_comp@.len(),
        forall|t: int|
            0 <= t < map.len() ==> #[trigger] map[t] == if comps.tri_comp@[t] == u32::MAX {
                u32::MAX
            } else {
                ids@[comps.tri_comp@[t] as int]
            },
        0 <= i < d.set.plants@.len(),
        forall|e: int|
            0 <= e < comps.len() ==> bits::is_point((#[trigger] comps.boxes@[e]).lo)
                && bits::is_point(comps.boxes@[e].hi),
        0 <= c < comps.len(),
    ensures
        ({
            let (plant, p) = (d.set.plants@[i], d.kept@[i]);
            &&& plant.anchor == poses@[p as int].anchor
            &&& plant.a == poses@[p as int].a
            &&& plant.b == poses@[p as int].b
            &&& plant.w_max == poses@[p as int].w_max
            &&& plant.tris == tally::count_of(map, p)
            &&& ids@[c] == p && bits::inside(q, comps.boxes@[c]) ==> bits::le(plant.y0, q.y)
                && bits::le(q.y, plant.y1)
        }),
        forall|t: int|
            0 <= t < map.len() && map[t] == d.kept@[i] ==> #[trigger] d.set.tri_plant@[t] == i,
        d.set.plants@.len() <= 2048,
{
    growth::derived_plants_count_their_triangles(&d, comps, ids@, n_plants, poses@, map, i);
    let p = d.kept@[i];
    if ids@[c] == p && bits::inside(q, comps.boxes@[c]) {
        growth::plants_span_their_members(comps.boxes@, ids@, p, c, q);
    }
}

/// The triangle map, the boxes and the counts of plants go by their components.
pub proof fn plants_go_by_their_components(
    comps: &Components,
    ids: &[u32],
    n_plants: u32,
    map: Vec<u32>,
    boxes: Vec<BitsBox>,
    counts: Vec<u32>,
    t: int,
    c: int,
    q: Bits3,
)
    requires
        comps.wf(),
        comps.tri_comp@.len() <= u32::MAX,
        forall|e: int|
            0 <= e < comps.len() ==> #[trigger] comps.tris@[e] == tally::count_of(
                comps.tri_comp@,
                e as u32,
            ),
        ids@.len() == comps.len(),
        n_plants != u32::MAX,
        call_ensures(plants::tri_plants, (comps, ids), map),
        call_ensures(plants::plant_boxes, (comps, ids, n_plants), boxes),
        call_ensures(plants::plant_tri_counts, (comps, ids, n_plants), counts),
        0 <= t < comps.tri_comp@.len(),
        0 <= c < comps.len(),
        ids@[c] < n_plants,
        forall|e: int|
            0 <= e < comps.len() ==> bits::is_point((#[trigger] comps.boxes@[e]).lo)
                && bits::is_point(comps.boxes@[e].hi),
    ensures
        map@.len() == comps.tri_comp@.len(),
        comps.tri_comp@[t] == u32::MAX ==> map@[t] == u32::MAX,
        comps.tri_comp@[t] != u32::MAX ==> map@[t] == ids@[comps.tri_comp@[t] as int],
        bits::inside(q, comps.boxes@[c]) ==> bits::inside(q, boxes@[ids@[c] as int]),
        counts@[ids@[c] as int] == tally::count_of(map@, ids@[c]),
{
    let p = ids@[c];
    assert(map@[t] == map@[t]);
    if bits::inside(q, comps.boxes@[c]) {
        growth::plants_span_their_members(comps.boxes@, ids@, p, c, q);
        assert(boxes@[p as int] == plants::plant_box(comps.boxes@, ids@, p, comps.len() as int));
    }
    growth::lemma_count(comps, ids@, map@, p);
    assert(counts@[p as int] == plants::plant_tris(comps.tris@, ids@, p, comps.len() as int));
}

/// Two voxels have one key exactly where they are one voxel of one region. Keys
/// go by the region, then axis by axis, and by one along the last axis. A
/// box's voxel count is the product over the axes, two more than it spans on
/// each, as far as it can be held; past thirty-two thousand seven hundred and
/// sixty-eight it is large.
pub proof fn voxels_are_keyed_and_counted(
    a: (u32, i32, i32, i32),
    b: (u32, i32, i32, i32),
    ka: u128,
    kb: u128,
    n: (u64, u64, u64),
    span: u64,
    large: bool,
)
    requires
        call_ensures(voxels::voxel_key, (a.0, a.1, a.2, a.3), ka),
        call_ensures(voxels::voxel_key, (b.0, b.1, b.2, b.3), kb),
        call_ensures(voxels::vox_span, (n.0, n.1, n.2), span),
        call_ensures(voxels::is_large, (n.0, n.1, n.2), large),
    ensures
        ka == kb <==> a == b,
        a.0 < b.0 ==> ka < kb,
        a.0 == b.0 && a.1 < b.1 ==> ka < kb,
        a.0 == b.0 && a.1 == b.1 && a.2 < b.2 ==> ka < kb,
        a.0 == b.0 && a.1 == b.1 && a.2 == b.2 ==> kb - ka == b.3 - a.3,
        ({
            let all = (n.0 + 2) * (n.1 + 2) * (n.2 + 2);
            &&& all <= u64::MAX ==> span == all
            &&& all > u64::MAX ==> span == u64::MAX
            &&& large <==> all > 32768
        }),
{
    if ka == kb {
        voxels::keys_are_distinct(a.0, a.1, a.2, a.3, b.0, b.1, b.2, b.3);
    }
}

/// A flutter seed is the cell's key times an odd constant, with some bits turned.
pub proof fn seeds_come_from_the_key(key: u32, h: u32)
    requires
        call_ensures(cells::flutter_seed, (key,), h),
    ensures
        (h ^ 0x5ea5_1eafu32) == (key * 0x9e37_79b9) % 0x1_0000_0000,
{
    let m = key.wrapping_mul(0x9e37_79b9);
    assert(m ^ 0x5ea5_1eafu32 ^ 0x5ea5_1eafu32 == m) by (bit_vector);
}

/// Re-cutting a plan leaves it alone where nothing sways. Else every triangle is
/// packed as often as before, the chunks below the first sway chunk hold what
/// does not sway, and each from there on holds triangles of the one cell that
/// the record names for it, no more than the cap, and has no node.
pub proof fn plans_are_cut_along_cells(
    plan: &mut BlasPlan,
    sway: &SceneSway,
    max_prims: u32,
    r: Option<SwaySplit>,
    before: BlasPlan,
    after: BlasPlan,
    x: u32,
    i: int,
    k: int,
)
    requires
        sway.wf(),
        sway.covers(&before),
        call_ensures(split::split_plan, (plan, sway, max_prims), r),
        before == *old(plan),
        after == *final(plan),
        0 <= i < after.chunk_node@.len(),
        after.chunk_base@[i] <= k < after.chunk_base@[i + 1],
    ensures
        r is None <==> forall|j: int|
            0 <= j < before.packed_tris@.len() ==> sway.tri_cell@[#[trigger] before.packed_tris@[j] as int]
                == u16::MAX,
        r is None ==> after == before,
        r matches Some(s) ==> {
            &&& tally::count_of(after.packed_tris@, x) == tally::count_of(before.packed_tris@, x)
            &&& after.chunk_base@.len() == after.chunk_node@.len() + 1
            &&& after.chunk_base@[0] == 0
            &&& after.chunk_base@[after.chunk_node@.len() as int] == after.packed_tris@.len()
            &&& i < s.first_chunk ==> sway.tri_cell@[after.packed_tris@[k] as int] == u16::MAX
            &&& s.first_chunk <= i ==> {
                let n = i - s.first_chunk;
                &&& n < s.cell_of@.len()
                &&& sway.tri_cell@[after.packed_tris@[k] as int] == s.cell_of@[n]
                &&& s.cells@[n] == sway.cells@[s.cell_of@[n] as int]
                &&& after.chunk_node@[i] == u32::MAX
                &&& max_prims > 0 ==> after.chunk_base@[i + 1] - after.chunk_base@[i] <= max_prims
                &&& max_prims == 0 ==> after.chunk_base@[i + 1] - after.chunk_base@[i] == 1
            }
        },
{
    if r is Some {
        let s = r->0;
        let list = split::split_list(&before, sway, max_prims);
        split::split_is_a_permutation(&before, sway, x);
        split::split_separates_static_from_sway(&before, sway, max_prims, &s, i);
        let (packed, base) = (after.packed_tris@, after.chunk_base@);
        assert(split::spells_chunk(packed, base, after.chunk_node@, i, list[i]));
        let part = packed.subrange(base[i] as int, base[i + 1] as int);
        assert(part[k - base[i]] == packed[k]);
        assert(list[i].0[k - base[i]] == packed[k]);
        let j = choose|j: int|
            0 <= j < before.packed_tris@.len() && sway.tri_cell@[#[trigger] before.packed_tris@[j] as int]
                != u16::MAX;
        assert(sway.tri_cell@[before.packed_tris@[j] as int] != u16::MAX);
    }
}

/// The session's levers do what they are set to: sway is attached where it is
/// wanted and the scene is split, behind gateways with the one builder that has
/// them, and boxes are swept for the amplitude, but never for less than one.
pub proof fn sessions_do_what_they_are_set_to(
    s: Session,
    swept: bool,
    gateways: bool,
    m: u32,
    fresh: Session,
)
    requires
        call_ensures(Session::sweep_armed, (&s,), swept),
        call_ensures(Session::gateway_mode, (&s,), gateways),
        call_ensures(Session::sweep_mult, (&s,), m),
        call_ensures(Session::new, (), fresh),
    ensures
        swept <==> s.armed && s.max_prims is Some,
        gateways <==> s.armed && s.max_prims is Some && s.builder == session::Builder::Sah,
        bits::lt(0x3f80_0000, s.amp_mult) ==> m == s.amp_mult,
        !bits::lt(0x3f80_0000, s.amp_mult) ==> m == 0x3f80_0000,
        fresh.armed && fresh.max_prims is None && fresh.amp_mult == 0x3f80_0000,
{
}

/// Setting a lever sets it and leaves the others.
pub proof fn levers_are_set_one_by_one(
    a: &mut Session,
    b: &mut Session,
    on: bool,
    m: u32,
)
    requires
        call_ensures(Session::set_armed, (a, on), ()),
        call_ensures(Session::set_amp_mult, (b, m), ()),
    ensures
        final(a).armed == on && final(a).amp_mult == old(a).amp_mult && final(a).max_prims
            == old(a).max_prims && final(a).builder == old(a).builder,
        final(b).amp_mult == m && final(b).armed == old(b).armed && final(b).max_prims
            == old(b).max_prims && final(b).builder == old(b).builder,
{
}

/// The masks of a scene: a material is a leaf where it is foliage with a cut-out
/// texture, wood where it is bark, and sways where it is either.
pub proof fn materials_sway_as_leaves_or_wood(
    scene: &Scene,
    leaves: Vec<bool>,
    woods: Vec<bool>,
    both: Vec<bool>,
    i: int,
)
    requires
        call_ensures(session::leaf_materials, (scene,), leaves),
        call_ensures(session::woody_materials, (scene,), woods),
        call_ensures(session::plant_materials, (scene,), both),
        0 <= i < scene.materials@.len(),
    ensures
        leaves@.len() == scene.materials@.len() && woods@.len() == scene.materials@.len()
            && both@.len() == scene.materials@.len(),
        leaves@[i] <==> scene.materials@[i].class == 1 && (scene.materials@[i].kind matches
            MatKind::Textured { tex } && scene.textures@[tex as int].alpha_masked),
        woods@[i] <==> scene.materials@[i].class == 2,
        both@[i] <==> leaves@[i] || woods@[i],
{
}

/// What a scene's sway is derived from is there where the session attaches sway.
pub proof fn attached_scenes_have_their_roots(s: &Session, scene: &Scene, r: Option<Roots>, i: int)
    requires
        scene.indices@.len() <= u32::MAX,
        call_ensures(session::attach, (s, scene), r),
        0 <= i < scene.materials@.len(),
    ensures
        r is Some <==> s.armed && s.max_prims is Some,
        r matches Some(x) ==> {
            &&& x.mask@.len() == scene.materials@.len() && x.woody@.len() == x.mask@.len()
            &&& x.woody@[i] <==> scene.materials@[i].class == 2
            &&& x.mask@[i] <==> scene.materials@[i].class == 2 || (scene.materials@[i].class == 1
                && (scene.materials@[i].kind matches MatKind::Textured { tex }
                && scene.textures@[tex as int].alpha_masked))
            &&& scene.sway_regions@.len() > 0 ==> x.regions@ == scene.sway_regions@
        },
{
}

/// A bake gives every cell the wind it was given, and holds until the clock
/// moves; a pinned rest pose bakes nothing.
pub proof fn winds_last_until_the_clock_moves(
    w: &mut WindCache,
    winds: Vec<Bits3>,
    time: u32,
    after: WindCache,
    abl: SwayAbl,
    later: u32,
    again: bool,
    c: u16,
    u: Bits3,
    cells: &Vec<SwayCell>,
    s: CellShear,
)
    requires
        call_ensures(WindCache::bake, (w, winds, time), ()),
        after == *final(w),
        call_ensures(WindCache::needs_bake, (&after, &abl, later), again),
        call_ensures(WindCache::wind, (&after, c), u),
        call_ensures(WindCache::shear, (&after, cells, c), s),
    ensures
        u == winds@[c as int],
        s.u == winds@[c as int] && s.a == cells@[c as int].a && s.b == cells@[c as int].b,
        again <==> !abl.rest && later != time,
{
}

/// Fresh winds are still, and stand for no clock: whatever number it shows, they
/// must be computed, unless the rest pose is pinned.
pub proof fn fresh_winds_are_still(
    n: usize,
    w: WindCache,
    abl: SwayAbl,
    time: u32,
    wanted: bool,
    c: u16,
    u: Bits3,
)
    requires
        call_ensures(WindCache::new, (n,), w),
        call_ensures(WindCache::needs_bake, (&w, &abl, time), wanted),
        call_ensures(WindCache::wind, (&w, c), u),
        c < n,
        !bits::is_nan(time),
    ensures
        wanted <==> !abl.rest,
        u.x == 0 && u.y == 0 && u.z == 0,
        w.offsets@.len() == n,
{
}

/// Cost probes are named anywhere in their setting, and motion is wanted where
/// the clock moved.
pub proof fn probes_are_named_anywhere(
    var: Option<&str>,
    a: SwayAbl,
    now: u32,
    before: u32,
    moved: bool,
)
    requires
        call_ensures(session::sway_abl, (var,), a),
        call_ensures(session::mv_wanted, (now, before), moved),
    ensures
        var is None ==> !a.noshift && !a.rest,
        var matches Some(v) ==> (a.noshift <==> text::has(v@, "noshift"@)) && (a.rest
            <==> text::has(v@, "rest"@)),
        moved <==> now != before,
{
}

/// The census of one more triangle is the census before it and the triangle.
pub proof fn a_census_counts_each_triangle_once(
    tri_cell: &Vec<u16>,
    tri_plant: &Vec<u32>,
    tri_mat: &Vec<u32>,
    woody: &Vec<bool>,
    c: Census,
    short_cell: &Vec<u16>,
    short_plant: &Vec<u32>,
    short_mat: &Vec<u32>,
    b: Census,
)
    requires
        call_ensures(session::census, (tri_cell, tri_plant, tri_mat, woody), c),
        call_ensures(session::census, (short_cell, short_plant, short_mat, woody), b),
        tri_cell@.len() > 0,
        tri_plant@.len() == tri_cell@.len(),
        tri_mat@.len() == tri_cell@.len(),
        short_cell@ == tri_cell@.drop_last(),
        short_plant@ == tri_plant@.drop_last(),
        short_mat@ == tri_mat@.drop_last(),
    ensures
        ({
            let t = tri_cell@.len() - 1;
            let wood = tri_mat@[t] < woody@.len() && woody@[tri_mat@[t] as int];
            let moves = tri_cell@[t] != u16::MAX;
            let held = tri_plant@[t] != u32::MAX;
            &&& c.woody == b.woody + if moves && wood { 1int } else { 0 }
            &&& c.attached == b.attached + if moves && !wood && held { 1int } else { 0 }
            &&& c.field == b.field + if moves && !wood && !held { 1int } else { 0 }
        }),
{
    let n = (tri_cell@.len() - 1) as nat;
    lemma_same_roles(tri_cell@, tri_plant@, tri_mat@, woody@, 1, n);
    lemma_same_roles(tri_cell@, tri_plant@, tri_mat@, woody@, 2, n);
    lemma_same_roles(tri_cell@, tri_plant@, tri_mat@, woody@, 3, n);
}

proof fn lemma_same_roles(
    tri_cell: Seq<u16>,
    tri_plant: Seq<u32>,
    tri_mat: Seq<u32>,
    woody: Seq<bool>,
    r: int,
    n: nat,
)
    requires
        n < tri_cell.len(),
        tri_plant.len() == tri_cell.len(),
        tri_mat.len() == tri_cell.len(),
    ensures
        session::with_role(
            tri_cell.drop_last(),
            tri_plant.drop_last(),
            tri_mat.drop_last(),
            woody,
            r,
            n,
        ) == session::with_role(tri_cell, tri_plant, tri_mat, woody, r, n),
    decreases n,
{
    if n > 0 {
        lemma_same_roles(tri_cell, tri_plant, tri_mat, woody, r, (n - 1) as nat);
    }
}

/// Components are numbered as they come: a triangle's component is one that an
/// earlier triangle has, or the next number; and every number is used.
pub proof fn components_are_numbered_as_they_come(
    scene: &Scene,
    mask: &[bool],
    woody: &[bool],
    rs: &[SwayRegion],
    comps: Components,
    t: int,
    c: u32,
)
    requires
        call_ensures(components::components, (scene, mask, woody, rs), comps),
        0 <= t < scene.tris(),
    ensures
        comps.tri_comp@[t] != u32::MAX ==> comps.tri_comp@[t] < comps.tris@.len(),
        comps.tri_comp@[t] != u32::MAX && comps.tri_comp@[t] > 0 ==> exists|u: int|
            0 <= u < t && #[trigger] comps.tri_comp@[u] == comps.tri_comp@[t] - 1,
        c < comps.tris@.len() && c != u32::MAX ==> exists|u: int|
            0 <= u < comps.tri_comp@.len() && #[trigger] comps.tri_comp@[u] == c,
{
    let ids = comps.tri_comp@;
    if ids[t] != u32::MAX && ids[t] > 0 {
        let before = ids.take(t);
        let k = (ids[t] - 1) as u32;
        assert(before.contains(k));
        let u = choose|u: int| 0 <= u < before.len() && before[u] == k;
        assert(ids[u] == k);
    }
    if c < comps.tris@.len() && c != u32::MAX {
        assert(ids.contains(c));
    }
}

/// Woody plants are numbered by their first components.
pub proof fn woody_plants_are_numbered_as_they_come(
    comps: &Components,
    prints: &[Footprint],
    grids: &[ContactGrid],
    woody: WoodyPlants,
    c: int,
)
    requires
        call_ensures(merge::merge_woody, (comps, prints, grids), woody),
        0 <= c < comps.len(),
        woody.plant_of_comp@[c] != u32::MAX,
    ensures
        woody.plant_of_comp@[c] < woody.plant_region@.len(),
        woody.plant_of_comp@[c] > 0 ==> exists|d: int|
            0 <= d < c && #[trigger] woody.plant_of_comp@[d] == woody.plant_of_comp@[c] - 1,
{
    let ids = woody.plant_of_comp@;
    if ids[c] > 0 {
        let before = ids.take(c);
        let k = (ids[c] - 1) as u32;
        assert(before.contains(k));
        let d = choose|d: int| 0 <= d < before.len() && before[d] == k;
        assert(ids[d] == k);
    }
}

/// Cells are listed by plant, then by region, then along x, y and z, and no cell
/// is listed without a triangle.
pub proof fn cells_are_listed_in_order(
    scene: &Scene,
    mask: &[bool],
    plants: &PlantSet,
    rs: &[SwayRegion],
    pos: &[GridPos],
    part: Partition,
    i: int,
    j: int,
)
    requires
        call_ensures(cells::cell_partition, (scene, mask, plants, rs, pos), Some(part)),
        0 <= i < j < part.keys@.len(),
    ensures
        ({
            let (a, b) = (part.keys@[i], part.keys@[j]);
            &&& a.plant <= b.plant
            &&& a.plant == b.plant ==> a.region <= b.region
            &&& a.plant == b.plant && a.region == b.region ==> a.x <= b.x
            &&& a.plant == b.plant && a.region == b.region && a.x == b.x ==> a.y <= b.y
            &&& a.plant == b.plant && a.region == b.region && a.x == b.x && a.y == b.y ==> a.z < b.z
        }),
        exists|t: int| 0 <= t < scene.tris() && #[trigger] part.tri_cell@[t] == i,
{
    let key = part.keys@[i];
    assert(part.keys@.contains(key));
    let t = choose|t: int|
        0 <= t < scene.tris() && #[trigger] components::masked(scene, mask@, rs@, t)
            && cells::key_at(plants, rs@, pos@, t, part.level as nat) == key;
    let c = part.tri_cell@[t] as int;
    assert(part.keys@[c] == key);
    if c < i {
        assert(cells::key_lt(part.keys@[c], part.keys@[i]));
    } else if i < c {
        assert(cells::key_lt(part.keys@[i], part.keys@[c]));
    }
}

/// What gives way is counted: with the triangles of the plants that stay it comes
/// to all triangles.
pub proof fn left_out_triangles_are_counted(tris: &[u32], map: &[u32], d: Demotion)
    requires
        tris@.len() < u32::MAX,
        call_ensures(plants::demote, (tris, map), d),
    ensures
        d.demoted == tris@.len() - d.kept@.len(),
        d.demoted_tris + growth::kept_tris(tris@, d.kept@) == growth::all_tris(tris@),
{
    growth::kept_and_left_out_are_all(tris@, d.kept@);
}

/// What is entered on the grid is gathered again wherever a range of its region
/// shares a voxel with its own, and nowhere else.
pub proof fn entered_items_are_gathered(
    regions: &Vec<u32>,
    ranges: &[VoxRange],
    grid: &mut HashMap<u128, Vec<u32>>,
    p: u32,
    now: &HashMap<u128, Vec<u32>>,
    region: u32,
    v: VoxRange,
    list: Vec<u32>,
    q: u32,
    x: i32,
    y: i32,
    z: i32,
)
    requires
        p < regions@.len(),
        raster::grid_sound(regions@, ranges@, old(grid)@),
        call_ensures(raster::enter, (regions, ranges, grid, p), ()),
        now@ == final(grid)@,
        call_ensures(raster::gather, (now, region, v), list),
    ensures
        region == regions@[p as int] && voxels::covers(v, x, y, z) && voxels::covers(
            ranges@[p as int],
            x,
            y,
            z,
        ) ==> list@.contains(p),
        list@.contains(q) ==> q < regions@.len() && regions@[q as int] == region
            && voxels::share_voxel(v, ranges@[q as int]),
        forall|i: int, j: int|
            0 <= i < j < list@.len() ==> #[trigger] list@[i] < #[trigger] list@[j],
{
    if region == regions@[p as int] && voxels::covers(v, x, y, z) && voxels::covers(
        ranges@[p as int],
        x,
        y,
        z,
    ) {
        assert(raster::on_grid(now@, region, p, x, y, z));
    }
    if list@.contains(q) {
        assert(raster::gathered_from(now@, region, v, q));
        let (x, y, z) = choose|x: i32, y: i32, z: i32| #[trigger]
            voxels::covers(v, x, y, z) && raster::on_grid(now@, region, q, x, y, z);
        let k = voxels::key_spec(region, x, y, z);
        assert(0 <= k < 0x1_0000_0000_0000_0000_0000_0000_0000_0000) by {
            assert(region <= 0xffff_ffff);
        }
        assert(raster::stands_at(regions@, ranges@, q as int, k));
        let (a, b, c) = choose|a: i32, b: i32, c: i32| #[trigger]
            voxels::covers(ranges@[q as int], a, b, c) && voxels::key_spec(
                regions@[q as int],
                a,
                b,
                c,
            ) == k;
        voxels::keys_are_distinct(region, x, y, z, regions@[q as int], a, b, c);
    }
}

/// A session tells what it was set to, its winds are those that were baked, a
/// scene without plants is all field, and a plan counts its chunks and their
/// triangles.
pub proof fn small_answers_are_as_held(
    s: &Session,
    on: bool,
    amp: u32,
    w: &WindCache,
    winds: Vec<Bits3>,
    n: usize,
    field: PlantSet,
    t: int,
    plan: &BlasPlan,
    chunks: usize,
    i: usize,
    prims: u32,
)
    requires
        call_ensures(Session::armed, (s,), on),
        call_ensures(Session::amp_mult, (s,), amp),
        call_ensures(WindCache::offsets_snapshot, (w,), winds),
        call_ensures(PlantSet::field_only, (n,), field),
        call_ensures(BlasPlan::chunks, (plan,), chunks),
        call_ensures(BlasPlan::prims, (plan, i), prims),
        plan.wf(),
        i < plan.chunk_node@.len(),
    ensures
        on == s.armed && amp == s.amp_mult && winds@ == w.offsets@,
        field.plants@.len() == 0 && field.tri_plant@.len() == n,
        0 <= t < n ==> field.tri_plant@[t] == u32::MAX,
        chunks == plan.chunk_node@.len(),
        prims == plan.chunk_base@[i + 1] - plan.chunk_base@[i as int],
{
}

} // verus!
