//! How components and plants come about, said of triangles, vertices, voxels
//! and volumes themselves.
use crate::bits;
use crate::bits::{Bits3, BitsBox};
use crate::foliage::attach;
use crate::foliage::attach::LeafPrint;
use crate::foliage::components;
use crate::foliage::components::{Components, NO_COMP};
use crate::foliage::merge::WoodyPlants;
use crate::foliage::plants;
use crate::foliage::plants::{Demotion, Derived, PlantPose};
use crate::foliage::regions;
use crate::foliage::voxels;
use crate::foliage::voxels::VoxRange;
use crate::forest;
use crate::scene::{Scene, SwayRegion};
use crate::tally;
use vstd::prelude::*;

verus! {

/// Triangle `t` sways: its material does, and a region holds it.
pub open spec fn sways(scene: &Scene, mask: Seq<bool>, rs: Seq<SwayRegion>, t: int) -> bool {
    &&& scene.tri_mat@[t] < mask.len()
    &&& mask[scene.tri_mat@[t] as int]
    &&& exists|i: int| 0 <= i < rs.len() && (#[trigger] rs[i]).tri_start <= t < rs[i].tri_end
}

/// Vertex `v` is one of the three of triangle `t`.
pub open spec fn has_vertex(scene: &Scene, t: int, v: int) -> bool {
    exists|k: int| 0 <= k < 3 && #[trigger] scene.indices@[t]@[k] == v
}

/// A triangle is in a region exactly where the region's range holds it, and in
/// one at most.
pub proof fn regions_hold_their_ranges(rs: Seq<SwayRegion>, t: int, i: u32)
    requires
        regions::regions_sorted(rs),
    ensures
        regions::region_at(rs, t) == Some(i) <==> i < rs.len() && rs[i as int].tri_start <= t
            < rs[i as int].tri_end,
        regions::region_at(rs, t) is None <==> forall|j: int|
            0 <= j < rs.len() ==> t < (#[trigger] rs[j]).tri_start || rs[j].tri_end <= t,
{
    if i < rs.len() && rs[i as int].tri_start <= t < rs[i as int].tri_end {
        assert(regions::in_region(rs, i as int, t));
        regions::lemma_region_unique(rs, i as int, t);
    }
    if regions::region_at(rs, t) is Some {
        let j = choose|j: int| regions::in_region(rs, j, t);
        assert(regions::in_region(rs, j, t));
        regions::lemma_region_unique(rs, j, t);
    }
    assert forall|j: int| 0 <= j < rs.len() && regions::region_at(rs, t) is None implies t < (
    #[trigger] rs[j]).tri_start || rs[j].tri_end <= t by {
        assert(!regions::in_region(rs, j, t));
    }
}

/// A scene sways by its own list, and without one by a single region over all
/// its triangles and its content box.
pub proof fn scenes_sway_by_their_list(scene: &Scene)
    requires
        scene.indices@.len() <= u32::MAX,
    ensures
        ({
            let rs = regions::regions_spec(scene);
            &&& scene.sway_regions@.len() > 0 ==> rs == scene.sway_regions@
            &&& scene.sway_regions@.len() == 0 ==> {
                &&& rs.len() == 1
                &&& rs[0].tri_start == 0
                &&& rs[0].tri_end == scene.indices@.len()
                &&& rs[0].cmin == scene.content_min
                &&& rs[0].cmax == scene.content_max
            }
        }),
{
}

/// A triangle sways exactly where it is masked.
pub proof fn lemma_sways(scene: &Scene, mask: Seq<bool>, rs: Seq<SwayRegion>, t: int)
    requires
        regions::regions_sorted(rs),
    ensures
        components::masked(scene, mask, rs, t) <==> sways(scene, mask, rs, t),
{
    regions_hold_their_ranges(rs, t, 0);
    if regions::region_at(rs, t) is Some {
        let j = choose|j: int| regions::in_region(rs, j, t);
        assert(regions::in_region(rs, j, t));
        assert(rs[j].tri_start <= t < rs[j].tri_end);
    }
}

proof fn lemma_vertex(scene: &Scene, t: int, v: int)
    ensures
        components::corner(scene, t, v) <==> has_vertex(scene, t, v),
{
    if components::corner(scene, t, v) {
        let k: int = if scene.indices@[t]@[0] == v {
            0
        } else if scene.indices@[t]@[1] == v {
            1
        } else {
            2
        };
        assert(scene.indices@[t]@[k] == v);
    }
}

/// A triangle has a component exactly where it sways. Two that sway and share a
/// vertex are in one component, whichever they are.
pub proof fn shared_vertices_make_one_component(
    comps: &Components,
    scene: &Scene,
    mask: Seq<bool>,
    woody: Seq<bool>,
    rs: Seq<SwayRegion>,
    t: int,
    u: int,
    v: int,
)
    requires
        regions::regions_sorted(rs),
        comps.describes(scene, mask, woody, rs),
        0 <= t < scene.tris(),
        0 <= u < scene.tris(),
    ensures
        comps.tri_comp@.len() == scene.tris(),
        comps.tri_comp@[t] == u32::MAX <==> !sways(scene, mask, rs, t),
        sways(scene, mask, rs, t) ==> comps.tri_comp@[t] < comps.tris@.len(),
        sways(scene, mask, rs, t) && sways(scene, mask, rs, u) && has_vertex(scene, t, v)
            && has_vertex(scene, u, v) ==> comps.tri_comp@[t] == comps.tri_comp@[u],
{
    lemma_sways(scene, mask, rs, t);
    lemma_sways(scene, mask, rs, u);
    let ids = comps.tri_comp@;
    assert(ids[t] != NO_COMP <==> components::masked(scene, mask, rs, t));
    assert(ids[u] != NO_COMP <==> components::masked(scene, mask, rs, u));
    if sways(scene, mask, rs, t) && sways(scene, mask, rs, u) && has_vertex(scene, t, v)
        && has_vertex(scene, u, v) {
        lemma_vertex(scene, t, v);
        lemma_vertex(scene, u, v);
        let link = components::vertex_link(scene, mask, rs);
        let (a, b) = (scene.indices@[t]@[0] as int, scene.indices@[u]@[0] as int);
        assert(components::corner(scene, t, a) && components::corner(scene, u, b));
        assert(link(a, v));
        assert(link(v, b));
        forest::connected_step(link, a, v);
        forest::connected_step(link, v, b);
        forest::connected_trans(link, a, v, b);
        assert(components::together(scene, mask, rs, t, u));
    }
}

/// Vertices `a` and `b` belong to one triangle that sways.
pub open spec fn one_triangle_has(
    scene: &Scene,
    mask: Seq<bool>,
    rs: Seq<SwayRegion>,
    a: int,
    b: int,
) -> bool {
    exists|w: int|
        0 <= w < scene.tris() && #[trigger] sways(scene, mask, rs, w) && has_vertex(scene, w, a)
            && has_vertex(scene, w, b)
}

/// A component is no more than that: from a vertex of one member to a vertex of
/// any other leads a chain of vertices, each two neighbours of which belong to
/// one triangle that sways.
pub proof fn components_hang_together_by_their_vertices(
    comps: &Components,
    scene: &Scene,
    mask: Seq<bool>,
    woody: Seq<bool>,
    rs: Seq<SwayRegion>,
    t: int,
    u: int,
)
    requires
        regions::regions_sorted(rs),
        comps.describes(scene, mask, woody, rs),
        0 <= t < scene.tris(),
        0 <= u < scene.tris(),
        comps.tri_comp@[t] != u32::MAX,
        comps.tri_comp@[t] == comps.tri_comp@[u],
    ensures
        exists|p: Seq<int>|
            #![trigger p.len()]
            p.len() > 0 && has_vertex(scene, t, p[0]) && has_vertex(scene, u, p.last()) && forall|
                k: int,
            |
                0 <= k < p.len() - 1 ==> one_triangle_has(
                    scene,
                    mask,
                    rs,
                    #[trigger] p[k],
                    p[k + 1],
                ),
{
    let ids = comps.tri_comp@;
    let link = components::vertex_link(scene, mask, rs);
    let (a, b) = (scene.indices@[t]@[0] as int, scene.indices@[u]@[0] as int);
    assert(ids[t] == ids[u]);
    assert(components::together(scene, mask, rs, t, u));
    let p = choose|p: Seq<int>| #[trigger]
        forest::is_chain(link, p) && p[0] == a && p.last() == b;
    assert(p.len() > 0 && has_vertex(scene, t, p[0]) && has_vertex(scene, u, p.last())) by {
        lemma_vertex(scene, t, a);
        lemma_vertex(scene, u, b);
    }
    assert forall|k: int| 0 <= k < p.len() - 1 implies one_triangle_has(
        scene,
        mask,
        rs,
        #[trigger] p[k],
        p[k + 1],
    ) by {
        assert(forest::adjacent(link, p[k], p[k + 1]));
        let (x, y) = (p[k], p[k + 1]);
        assert(link(x, y) || link(y, x));
        let w = if link(x, y) {
            choose|w: int|
                0 <= w < scene.tris() && #[trigger] components::masked(scene, mask, rs, w)
                    && components::corner(scene, w, x) && components::corner(scene, w, y)
        } else {
            choose|w: int|
                0 <= w < scene.tris() && #[trigger] components::masked(scene, mask, rs, w)
                    && components::corner(scene, w, y) && components::corner(scene, w, x)
        };
        lemma_sways(scene, mask, rs, w);
        lemma_vertex(scene, w, x);
        lemma_vertex(scene, w, y);
        assert(sways(scene, mask, rs, w));
    }
}

proof fn lemma_member_box(scene: &Scene, ids: Seq<u32>, c: u32, n: int, t: int, k: int)
    requires
        0 <= t < n,
        ids[t] == c,
        0 <= k < 3,
        forall|u: int, j: int|
            0 <= u < n && 0 <= j < 3 ==> bits::is_point(
                scene.positions@[#[trigger] scene.indices@[u]@[j] as int],
            ),
    ensures
        bits::inside(
            scene.positions@[scene.indices@[t]@[k] as int],
            components::member_box(scene, ids, c, n),
        ),
        bits::is_point(components::member_box(scene, ids, c, n).lo),
        bits::is_point(components::member_box(scene, ids, c, n).hi),
    decreases n,
{
    let q = scene.positions@[scene.indices@[t]@[k] as int];
    let b = components::member_box(scene, ids, c, n - 1);
    lemma_numbers(scene, ids, c, n - 1);
    if t < n - 1 {
        lemma_member_box(scene, ids, c, n - 1, t, k);
    }
    if ids[n - 1] == c {
        let i = scene.indices@[n - 1]@;
        let (p0, p1, p2) = (
            scene.positions@[i[0] as int],
            scene.positions@[i[1] as int],
            scene.positions@[i[2] as int],
        );
        assert(bits::is_point(p0) && bits::is_point(p1) && bits::is_point(p2)) by {
            assert(bits::is_point(scene.positions@[scene.indices@[n - 1]@[0] as int]));
            assert(bits::is_point(scene.positions@[scene.indices@[n - 1]@[1] as int]));
            assert(bits::is_point(scene.positions@[scene.indices@[n - 1]@[2] as int]));
        }
        let b1 = bits::grown(b, p0);
        let b2 = bits::grown(b1, p1);
        bits::boxes_grow_to_hold(b, p0, q);
        bits::boxes_grow_to_hold(b1, p1, q);
        bits::boxes_grow_to_hold(b2, p2, q);
        bits::boxes_grow_to_hold(b1, p1, p0);
        bits::boxes_grow_to_hold(b2, p2, p0);
        bits::boxes_grow_to_hold(b2, p2, p1);
    }
}

proof fn lemma_numbers(scene: &Scene, ids: Seq<u32>, c: u32, n: int)
    requires
        forall|u: int, j: int|
            0 <= u < n && 0 <= j < 3 ==> bits::is_point(
                scene.positions@[#[trigger] scene.indices@[u]@[j] as int],
            ),
    ensures
        bits::is_point(components::member_box(scene, ids, c, n).lo),
        bits::is_point(components::member_box(scene, ids, c, n).hi),
    decreases n,
{
    if n > 0 {
        lemma_numbers(scene, ids, c, n - 1);
        if ids[n - 1] == c {
            let i = scene.indices@[n - 1]@;
            let b = components::member_box(scene, ids, c, n - 1);
            assert(bits::is_point(scene.positions@[scene.indices@[n - 1]@[0] as int]));
            assert(bits::is_point(scene.positions@[scene.indices@[n - 1]@[1] as int]));
            assert(bits::is_point(scene.positions@[scene.indices@[n - 1]@[2] as int]));
            let b1 = bits::grown(b, scene.positions@[i[0] as int]);
            let b2 = bits::grown(b1, scene.positions@[i[1] as int]);
            bits::boxes_grow_to_hold(b, scene.positions@[i[0] as int], b.lo);
            bits::boxes_grow_to_hold(b1, scene.positions@[i[1] as int], b.lo);
            bits::boxes_grow_to_hold(b2, scene.positions@[i[2] as int], b.lo);
        }
    }
}

/// A component holds its members: its box every corner of theirs, where the
/// corners are numbers. It is woody exactly where a member's material is, and
/// its region is the one that holds its first triangle.
pub proof fn components_hold_their_members(
    comps: &Components,
    scene: &Scene,
    mask: Seq<bool>,
    woody: Seq<bool>,
    rs: Seq<SwayRegion>,
    t: int,
    k: int,
)
    requires
        regions::regions_sorted(rs),
        comps.describes(scene, mask, woody, rs),
        0 <= t < scene.tris(),
        0 <= k < 3,
        comps.tri_comp@[t] != u32::MAX,
        forall|u: int, j: int|
            0 <= u < scene.tris() && 0 <= j < 3 ==> bits::is_point(
                scene.positions@[#[trigger] scene.indices@[u]@[j] as int],
            ),
    ensures
        ({
            let c = comps.tri_comp@[t] as int;
            &&& bits::inside(scene.positions@[scene.indices@[t]@[k] as int], comps.boxes@[c])
            &&& comps.woody@[c] <==> exists|u: int|
                0 <= u < scene.tris() && #[trigger] comps.tri_comp@[u] == c && scene.tri_mat@[u]
                    < woody.len() && woody[scene.tri_mat@[u] as int]
            &&& exists|f: int|
                0 <= f <= t && #[trigger] comps.tri_comp@[f] == c && (forall|u: int|
                    0 <= u < f ==> #[trigger] comps.tri_comp@[u] != c) && comps.region@[c]
                    < rs.len() && rs[comps.region@[c] as int].tri_start <= f
                    < rs[comps.region@[c] as int].tri_end
        }),
{
    let ids = comps.tri_comp@;
    let c = ids[t];
    lemma_member_box(scene, ids, c, ids.len() as int, t, k);
    assert(components::tally_holds(
        scene,
        woody,
        ids,
        c,
        comps.tris@[c as int],
        comps.woody@[c as int],
        comps.boxes@[c as int],
    ));
    assert(components::region_of_first(rs, ids, c, comps.region@[c as int]));
    let f = choose|f: int| #[trigger]
        tally::first_at(ids, f, c) && Some(comps.region@[c as int]) == regions::region_at(rs, f);
    regions_hold_their_ranges(rs, f, comps.region@[c as int]);
    if f > t {
        assert(ids[t] != c);
    }
    assert(ids[f] == c);
    if comps.woody@[c as int] {
        let u = choose|u: int|
            0 <= u < ids.len() && #[trigger] ids[u] == c && components::marked(scene, woody, u);
        assert(ids[u] == c);
    }
    assert forall|u: int|
        0 <= u < scene.tris() && #[trigger] ids[u] == c && scene.tri_mat@[u] < woody.len()
            && woody[scene.tri_mat@[u] as int] implies comps.woody@[c as int] by {
        assert(components::marked(scene, woody, u));
    }
}

/// A leaf component is tried against a plant exactly where the plant is of its
/// region and, unless the component is large, their voxel ranges have a voxel in
/// common on every axis. A woody component is tried against none.
pub proof fn leaves_are_tried_where_they_reach(
    comps: &Components,
    woody: &WoodyPlants,
    leaves: Seq<LeafPrint>,
    ranges: Seq<VoxRange>,
    c: int,
    list: Seq<u32>,
    p: u32,
)
    requires
        attach::lists_candidates(comps, woody, leaves, ranges, c, list),
    ensures
        list.contains(p) <==> {
            let (l, v) = (leaves[c].voxels, ranges[p as int]);
            &&& !comps.woody@[c]
            &&& p < woody.plant_region@.len()
            &&& woody.plant_region@[p as int] == comps.region@[c]
            &&& leaves[c].large || {
                &&& l.x0 <= l.x1 && v.x0 <= v.x1 && l.x0 <= v.x1 && v.x0 <= l.x1
                &&& l.y0 <= l.y1 && v.y0 <= v.y1 && l.y0 <= v.y1 && v.y0 <= l.y1
                &&& l.z0 <= l.z1 && v.z0 <= v.z1 && l.z0 <= v.z1 && v.z0 <= l.z1
            }
        },
        forall|i: int, j: int| 0 <= i < j < list.len() ==> #[trigger] list[i] < #[trigger] list[j],
{
    let (l, v) = (leaves[c].voxels, ranges[p as int]);
    if l.x0 <= l.x1 && v.x0 <= v.x1 && l.x0 <= v.x1 && v.x0 <= l.x1 && l.y0 <= l.y1 && v.y0 <= v.y1
        && l.y0 <= v.y1 && v.y0 <= l.y1 && l.z0 <= l.z1 && v.z0 <= v.z1 && l.z0 <= v.z1 && v.z0
        <= l.z1 {
        let x = if l.x0 < v.x0 {
            v.x0
        } else {
            l.x0
        };
        let y = if l.y0 < v.y0 {
            v.y0
        } else {
            l.y0
        };
        let z = if l.z0 < v.z0 {
            v.z0
        } else {
            l.z0
        };
        assert(voxels::covers(l, x, y, z) && voxels::covers(v, x, y, z));
    }
}

/// A leaf component goes to a candidate whose overlap volume is positive and
/// none exceeds; of equal ones to the first. Without a positive volume it goes
/// to no plant.
pub proof fn leaves_go_to_their_largest_overlap(cand: Seq<u32>, vols: Seq<u32>, plant: u32)
    requires
        cand.len() == vols.len(),
        attach::attaches_to(cand, vols, plant),
    ensures
        (forall|i: int| 0 <= i < vols.len() ==> !bits::lt(0, #[trigger] vols[i])) ==> plant
            == u32::MAX,
        (exists|i: int| 0 <= i < vols.len() && bits::lt(0, #[trigger] vols[i])) ==> exists|b: int|
            0 <= b < vols.len() && plant == cand[b] && bits::lt(0, #[trigger] vols[b]) && forall|
                i: int,
            |
                0 <= i < vols.len() ==> !bits::lt(vols[b], #[trigger] vols[i]) && (i < b ==> bits::lt(
                    vols[i],
                    vols[b],
                ) || !bits::lt(0, vols[i])),
{
    if exists|i: int| 0 <= i < vols.len() && bits::lt(0, #[trigger] vols[i]) {
        let b = choose|b: int| #[trigger] attach::is_best(vols, b) && plant == cand[b];
        assert(bits::lt(0, vols[b]));
        assert forall|i: int| 0 <= i < vols.len() implies !bits::lt(vols[b], #[trigger] vols[i])
            && (i < b ==> bits::lt(vols[i], vols[b]) || !bits::lt(0, vols[i])) by {}
    }
}

proof fn lemma_plant_box(boxes: Seq<BitsBox>, ids: Seq<u32>, p: u32, n: int, q: Bits3)
    requires
        forall|c: int|
            0 <= c < n ==> bits::is_point((#[trigger] boxes[c]).lo) && bits::is_point(boxes[c].hi),
    ensures
        bits::is_point(plants::plant_box(boxes, ids, p, n).lo),
        bits::is_point(plants::plant_box(boxes, ids, p, n).hi),
        forall|c: int|
            0 <= c < n && #[trigger] ids[c] == p && bits::inside(q, boxes[c]) ==> bits::inside(
                q,
                plants::plant_box(boxes, ids, p, n),
            ),
        (exists|c: int| 0 <= c < n && #[trigger] ids[c] == p) ==> {
            let b = plants::plant_box(boxes, ids, p, n);
            &&& exists|c: int|
                0 <= c < n && #[trigger] ids[c] == p && bits::le(boxes[c].lo.y, b.lo.y) && bits::le(
                    b.lo.y,
                    boxes[c].lo.y,
                )
            &&& exists|c: int|
                0 <= c < n && #[trigger] ids[c] == p && bits::le(boxes[c].hi.y, b.hi.y) && bits::le(
                    b.hi.y,
                    boxes[c].hi.y,
                )
        },
        !(exists|c: int| 0 <= c < n && #[trigger] ids[c] == p) ==> plants::plant_box(
            boxes,
            ids,
            p,
            n,
        ) == bits::empty_box(),
    decreases n,
{
    if n > 0 {
        lemma_plant_box(boxes, ids, p, n - 1, q);
        let b = plants::plant_box(boxes, ids, p, n - 1);
        let all = plants::plant_box(boxes, ids, p, n);
        if ids[n - 1] == p {
            let m = boxes[n - 1];
            bits::merged_boxes_hold_both(b, m, q);
            if exists|c: int| 0 <= c < n - 1 && #[trigger] ids[c] == p {
                let lo = choose|c: int|
                    0 <= c < n - 1 && #[trigger] ids[c] == p && bits::le(boxes[c].lo.y, b.lo.y)
                        && bits::le(b.lo.y, boxes[c].lo.y);
                let hi = choose|c: int|
                    0 <= c < n - 1 && #[trigger] ids[c] == p && bits::le(boxes[c].hi.y, b.hi.y)
                        && bits::le(b.hi.y, boxes[c].hi.y);
                assert(ids[lo] == p && ids[hi] == p);
            }
            assert(ids[n - 1] == p);
        }
    }
}

/// A plant spans its members: its box holds every point that a member's does,
/// and it starts and ends at the height at which some member does.
pub proof fn plants_span_their_members(
    boxes: Seq<BitsBox>,
    ids: Seq<u32>,
    p: u32,
    c: int,
    q: Bits3,
)
    requires
        0 <= c < boxes.len(),
        ids[c] == p,
        bits::inside(q, boxes[c]),
        forall|e: int|
            0 <= e < boxes.len() ==> bits::is_point((#[trigger] boxes[e]).lo) && bits::is_point(
                boxes[e].hi,
            ),
    ensures
        ({
            let b = plants::plant_box(boxes, ids, p, boxes.len() as int);
            &&& bits::inside(q, b)
            &&& exists|e: int|
                0 <= e < boxes.len() && #[trigger] ids[e] == p && bits::le(boxes[e].lo.y, b.lo.y)
                    && bits::le(b.lo.y, boxes[e].lo.y)
            &&& exists|e: int|
                0 <= e < boxes.len() && #[trigger] ids[e] == p && bits::le(boxes[e].hi.y, b.hi.y)
                    && bits::le(b.hi.y, boxes[e].hi.y)
        }),
{
    lemma_plant_box(boxes, ids, p, boxes.len() as int, q);
}

/// The largest plants stay. There are as many as before, or two thousand and
/// forty-eight; they keep their order; one that stays has more triangles than
/// each that goes, or as many and the later number. A triangle of one that stays
/// names its new place, any other the field.
pub proof fn the_largest_plants_stay(
    d: &Demotion,
    tris: Seq<u32>,
    tri_plant: Seq<u32>,
    p: u32,
    i: int,
    t: int,
)
    requires
        d.describes(tris, tri_plant),
        0 <= i < d.kept@.len(),
        0 <= t < tri_plant.len(),
    ensures
        tris.len() <= 2048 ==> d.kept@.len() == tris.len() && d.demoted == 0,
        tris.len() > 2048 ==> d.kept@.len() == 2048 && d.demoted == tris.len() - 2048,
        d.kept@[i] < tris.len(),
        i + 1 < d.kept@.len() ==> d.kept@[i] < d.kept@[i + 1],
        p < tris.len() && !d.kept@.contains(p) ==> {
            let q = d.kept@[i];
            tris[p as int] < tris[q as int] || (tris[p as int] == tris[q as int] && p < q)
        },
        d.tri_plant@.len() == tri_plant.len(),
        tri_plant[t] == d.kept@[i] ==> d.tri_plant@[t] == i,
        !d.kept@.contains(tri_plant[t]) ==> d.tri_plant@[t] == u32::MAX,
{
    let k = d.kept@;
    assert(k.contains(p) || !k.contains(p));
    assert(plants::renumbered(k, tri_plant[t], d.tri_plant@[t]));
    if tri_plant[t] == k[i] {
        assert(k.contains(tri_plant[t]));
        let j = d.tri_plant@[t] as int;
        if j < i {
            assert(k[j] < k[i]);
        } else if i < j {
            assert(k[i] < k[j]);
        }
    }
}

/// Occurrences of `p` among the plants of a list of components.
spec fn in_plant(comp: Seq<u32>, ids: Seq<u32>, p: u32) -> nat
    decreases comp.len(),
{
    if comp.len() == 0 {
        0
    } else {
        in_plant(comp.drop_last(), ids, p) + if comp.last() < ids.len() && ids[comp.last() as int]
            == p {
            1nat
        } else {
            0nat
        }
    }
}

/// Triangles of the components below `n` that are in plant `p`, counted
/// component by component.
spec fn by_component(comp: Seq<u32>, ids: Seq<u32>, p: u32, n: int) -> nat
    decreases n,
{
    if n <= 0 {
        0
    } else {
        by_component(comp, ids, p, n - 1) + if ids[n - 1] == p {
            tally::count_of(comp, (n - 1) as u32)
        } else {
            0
        }
    }
}

proof fn lemma_by_component_push(comp: Seq<u32>, ids: Seq<u32>, p: u32, n: int)
    requires
        comp.len() > 0,
        n <= ids.len() <= u32::MAX,
    ensures
        by_component(comp, ids, p, n) == by_component(comp.drop_last(), ids, p, n) + if comp.last()
            < n && ids[comp.last() as int] == p {
            1nat
        } else {
            0nat
        },
    decreases n,
{
    if n > 0 {
        lemma_by_component_push(comp, ids, p, n - 1);
    }
}

proof fn lemma_by_component(comp: Seq<u32>, ids: Seq<u32>, p: u32)
    requires
        ids.len() <= u32::MAX,
    ensures
        by_component(comp, ids, p, ids.len() as int) == in_plant(comp, ids, p),
    decreases comp.len(),
{
    if comp.len() > 0 {
        lemma_by_component_push(comp, ids, p, ids.len() as int);
        lemma_by_component(comp.drop_last(), ids, p);
    } else {
        lemma_no_triangles(comp, ids, p, ids.len() as int);
    }
}

proof fn lemma_no_triangles(comp: Seq<u32>, ids: Seq<u32>, p: u32, n: int)
    requires
        comp.len() == 0,
    ensures
        by_component(comp, ids, p, n) == 0,
    decreases n,
{
    if n > 0 {
        lemma_no_triangles(comp, ids, p, n - 1);
    }
}

proof fn lemma_tris(comp: Seq<u32>, tris: Seq<u32>, ids: Seq<u32>, p: u32, n: int)
    requires
        n <= tris.len(),
        forall|c: int| 0 <= c < tris.len() ==> #[trigger] tris[c] == tally::count_of(comp, c as u32),
    ensures
        plants::plant_tris(tris, ids, p, n) == by_component(comp, ids, p, n),
    decreases n,
{
    if n > 0 {
        lemma_tris(comp, tris, ids, p, n - 1);
        assert(tris[n - 1] == tally::count_of(comp, (n - 1) as u32));
    }
}

proof fn lemma_map_count(comp: Seq<u32>, ids: Seq<u32>, map: Seq<u32>, p: u32)
    requires
        map.len() == comp.len(),
        p != u32::MAX,
        forall|t: int|
            0 <= t < comp.len() ==> #[trigger] map[t] == if comp[t] == NO_COMP {
                u32::MAX
            } else {
                ids[comp[t] as int]
            },
        forall|t: int| 0 <= t < comp.len() ==> #[trigger] comp[t] == NO_COMP || comp[t] < ids.len(),
        ids.len() <= u32::MAX,
    ensures
        tally::count_of(map, p) == in_plant(comp, ids, p),
    decreases comp.len(),
{
    if comp.len() > 0 {
        let (c, m) = (comp.drop_last(), map.drop_last());
        assert forall|t: int| 0 <= t < c.len() implies #[trigger] m[t] == if c[t] == NO_COMP {
            u32::MAX
        } else {
            ids[c[t] as int]
        } by {
            assert(m[t] == map[t]);
        }
        assert forall|t: int| 0 <= t < c.len() implies #[trigger] c[t] == NO_COMP || c[t] < ids.len() by {
            assert(c[t] == comp[t]);
        }
        lemma_map_count(c, ids, m, p);
        assert(map[comp.len() - 1] == map.last());
        assert(comp[comp.len() - 1] == comp.last());
    }
}

/// A plant's triangles, counted over its components, are those of the map.
pub proof fn lemma_count(comps: &Components, ids: Seq<u32>, map: Seq<u32>, p: u32)
    requires
        comps.wf(),
        forall|c: int|
            0 <= c < comps.len() ==> #[trigger] comps.tris@[c] == tally::count_of(
                comps.tri_comp@,
                c as u32,
            ),
        ids.len() == comps.len(),
        p != u32::MAX,
        map.len() == comps.tri_comp@.len(),
        forall|t: int|
            0 <= t < map.len() ==> #[trigger] map[t] == if comps.tri_comp@[t] == u32::MAX {
                u32::MAX
            } else {
                ids[comps.tri_comp@[t] as int]
            },
    ensures
        plants::plant_tris(comps.tris@, ids, p, comps.len() as int) == tally::count_of(map, p),
{
    let comp = comps.tri_comp@;
    lemma_tris(comp, comps.tris@, ids, p, comps.len() as int);
    lemma_by_component(comp, ids, p);
    lemma_map_count(comp, ids, map, p);
}

/// A derived plant carries the pose it was given, starts and ends with its box,
/// and counts the triangles that are its own: as many as the triangle map
/// before the cap names it for. Every triangle of the map names its component's
/// plant, or the field.
pub proof fn derived_plants_count_their_triangles(
    d: &Derived,
    comps: &Components,
    ids: Seq<u32>,
    n_plants: u32,
    poses: Seq<PlantPose>,
    map: Seq<u32>,
    i: int,
)
    requires
        comps.wf(),
        comps.tri_comp@.len() <= u32::MAX,
        forall|c: int|
            0 <= c < comps.len() ==> #[trigger] comps.tris@[c] == tally::count_of(
                comps.tri_comp@,
                c as u32,
            ),
        ids.len() == comps.len(),
        n_plants != u32::MAX,
        d.describes(comps, ids, n_plants, poses),
        map.len() == comps.tri_comp@.len(),
        forall|t: int|
            0 <= t < map.len() ==> #[trigger] map[t] == if comps.tri_comp@[t] == u32::MAX {
                u32::MAX
            } else {
                ids[comps.tri_comp@[t] as int]
            },
        0 <= i < d.set.plants@.len(),
    ensures
        ({
            let (plant, p) = (d.set.plants@[i], d.kept@[i]);
            let b = plants::plant_box(comps.boxes@, ids, p, comps.len() as int);
            &&& plant.anchor == poses[p as int].anchor
            &&& plant.a == poses[p as int].a
            &&& plant.b == poses[p as int].b
            &&& plant.w_max == poses[p as int].w_max
            &&& plant.y0 == b.lo.y
            &&& plant.y1 == b.hi.y
            &&& plant.tris == tally::count_of(map, p)
        }),
        forall|t: int|
            0 <= t < map.len() && map[t] == d.kept@[i] ==> #[trigger] d.set.tri_plant@[t] == i,
        forall|t: int|
            0 <= t < map.len() && !d.kept@.contains(map[t]) ==> #[trigger] d.set.tri_plant@[t]
                == u32::MAX,
{
    let k = d.kept@;
    let p = k[i];
    let comp = comps.tri_comp@;
    let own = plants::plants_of(comps, ids);
    assert(p < n_plants);
    lemma_count(comps, ids, map, p);
    tally::lemma_count_bound(map, p);
    assert(d.set.plants@[i] == plants::plant_at(comps, ids, n_plants, poses, p));
    assert(own =~= map);
    assert forall|t: int| 0 <= t < map.len() && map[t] == p implies #[trigger] d.set.tri_plant@[t]
        == i by {
        assert(plants::renumbered(k, own[t], d.set.tri_plant@[t]));
        assert(k.contains(p));
        let j = d.set.tri_plant@[t] as int;
        if j < i {
            assert(k[j] < k[i]);
        } else if i < j {
            assert(k[i] < k[j]);
        }
    }
    assert forall|t: int| 0 <= t < map.len() && !k.contains(map[t]) implies #[trigger] d.set.tri_plant@[t]
        == u32::MAX by {
        assert(plants::renumbered(k, own[t], d.set.tri_plant@[t]));
    }
}

/// The triangles of all plants.
pub open spec fn all_tris(tris: Seq<u32>) -> nat
    decreases tris.len(),
{
    if tris.len() == 0 {
        0
    } else {
        all_tris(tris.drop_last()) + tris.last() as nat
    }
}

/// The triangles of the plants listed.
pub open spec fn kept_tris(tris: Seq<u32>, kept: Seq<u32>) -> nat
    decreases kept.len(),
{
    if kept.len() == 0 {
        0
    } else {
        kept_tris(tris, kept.drop_last()) + tris[kept.last() as int] as nat
    }
}

/// What is kept and what is left out are all triangles.
pub proof fn kept_and_left_out_are_all(tris: Seq<u32>, kept: Seq<u32>)
    requires
        tris.len() <= u32::MAX,
        tally::ascending(kept),
        forall|i: int| 0 <= i < kept.len() ==> (#[trigger] kept[i]) < tris.len(),
    ensures
        plants::tris_left_out(tris, kept, tris.len() as int) + kept_tris(tris, kept) == all_tris(tris),
    decreases tris.len(),
{
    let n = tris.len() as int;
    if n > 0 {
        let less = tris.drop_last();
        let last = (n - 1) as u32;
        if kept.len() > 0 && kept.last() == last {
            let rest = kept.drop_last();
            assert forall|i: int| 0 <= i < rest.len() implies (#[trigger] rest[i]) < less.len() by {
                assert(rest[i] == kept[i]);
                assert(kept[i] < kept[kept.len() - 1]);
            }
            kept_and_left_out_are_all(less, rest);
            assert(kept.contains(last)) by {
                assert(kept[kept.len() - 1] == last);
            }
            lemma_same_left_out(tris, less, kept, rest, n - 1);
            lemma_same_kept(tris, less, rest);
        } else {
            assert forall|i: int| 0 <= i < kept.len() implies (#[trigger] kept[i]) < less.len() by {
                if i < kept.len() - 1 {
                    assert(kept[i] < kept[kept.len() - 1]);
                }
            }
            assert(!kept.contains(last));
            kept_and_left_out_are_all(less, kept);
            lemma_same_left_out(tris, less, kept, kept, n - 1);
            lemma_same_kept(tris, less, kept);
        }
    } else if kept.len() > 0 {
        assert(kept[0] < tris.len());
    }
}

proof fn lemma_same_kept(tris: Seq<u32>, less: Seq<u32>, kept: Seq<u32>)
    requires
        less.len() <= tris.len(),
        forall|i: int| 0 <= i < less.len() ==> less[i] == tris[i],
        forall|i: int| 0 <= i < kept.len() ==> (#[trigger] kept[i]) < less.len(),
    ensures
        kept_tris(tris, kept) == kept_tris(less, kept),
    decreases kept.len(),
{
    if kept.len() > 0 {
        assert(kept[kept.len() - 1] < less.len());
        assert forall|i: int| 0 <= i < kept.drop_last().len() implies (
        #[trigger] kept.drop_last()[i]) < less.len() by {
            assert(kept.drop_last()[i] == kept[i]);
        }
        lemma_same_kept(tris, less, kept.drop_last());
    }
}

proof fn lemma_same_left_out(
    tris: Seq<u32>,
    less: Seq<u32>,
    kept: Seq<u32>,
    rest: Seq<u32>,
    n: int,
)
    requires
        0 <= n <= less.len() <= tris.len() <= u32::MAX,
        forall|i: int| 0 <= i < less.len() ==> less[i] == tris[i],
        rest == kept || (kept.len() > 0 && rest == kept.drop_last() && kept.last() >= n),
    ensures
        plants::tris_left_out(tris, kept, n) == plants::tris_left_out(less, rest, n),
    decreases n,
{
    if n > 0 {
        lemma_same_left_out(tris, less, kept, rest, n - 1);
        let p = (n - 1) as u32;
        if kept.contains(p) && rest != kept {
            let k = choose|k: int| 0 <= k < kept.len() && kept[k] == p;
            assert(k < kept.len() - 1);
            assert(rest[k] == p);
        }
        if rest.contains(p) && rest != kept {
            let k = choose|k: int| 0 <= k < rest.len() && rest[k] == p;
            assert(kept[k] == p);
        }
    }
}

} // verus!
