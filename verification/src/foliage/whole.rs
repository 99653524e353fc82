//! What the steps from triangles to plants give together: components, woody
//! merging, leaf attachment and the plant set.
use crate::bits;
use crate::bits::BitsBox;
use crate::foliage::attach;
use crate::foliage::attach::LeafPrint;
use crate::foliage::components;
use crate::foliage::components::{Components, NO_COMP};
use crate::foliage::merge::{Footprint, WoodyPlants, FIELD_PLANT};
use crate::foliage::plants;
use crate::foliage::plants::{Derived, PlantPose, MAX_PLANTS};
use crate::foliage::regions;
use crate::foliage::voxels::VoxRange;
use crate::forest;
use crate::scene::{Scene, SwayRegion};
use crate::tally;
use vstd::prelude::*;

verus! {

/// The plant of each component: woody ones keep theirs, and every other goes
/// to the best of its candidates.
pub open spec fn assigned(
    comps: &Components,
    woody: &WoodyPlants,
    leaves: Seq<LeafPrint>,
    voxels: Seq<VoxRange>,
    cands: Seq<Vec<u32>>,
    vols: Seq<Vec<u32>>,
    ids: Seq<u32>,
) -> bool {
    &&& ids.len() == comps.len()
    &&& forall|c: int|
        0 <= c < comps.len() ==> {
            &&& attach::lists_candidates(comps, woody, leaves, voxels, c, (#[trigger] cands[c])@)
            &&& cands[c]@.len() == vols[c]@.len()
        }
    &&& forall|c: int|
        0 <= c < comps.len() ==> if comps.woody@[c] {
            #[trigger] ids[c] == woody.plant_of_comp@[c]
        } else {
            attach::attaches_to(cands[c]@, vols[c]@, ids[c])
        }
}

/// Every component that has a plant has one of its own region.
proof fn lemma_plant_region(
    comps: &Components,
    prints: Seq<Footprint>,
    woody: &WoodyPlants,
    leaves: Seq<LeafPrint>,
    voxels: Seq<VoxRange>,
    cands: Seq<Vec<u32>>,
    vols: Seq<Vec<u32>>,
    ids: Seq<u32>,
    c: int,
)
    requires
        woody.describes(comps, prints),
        assigned(comps, woody, leaves, voxels, cands, vols, ids),
        0 <= c < comps.len(),
        ids[c] != FIELD_PLANT,
    ensures
        ids[c] < woody.len(),
        woody.plant_region@[ids[c] as int] == comps.region@[c],
{
    if comps.woody@[c] {
        assert(woody.plant_of_comp@[c] != FIELD_PLANT);
    } else {
        assert(attach::lists_candidates(comps, woody, leaves, voxels, c, cands[c]@));
        attach::attach_stays_in_region(
            comps,
            woody,
            leaves,
            voxels,
            c,
            cands[c]@,
            vols[c]@,
            ids[c],
        );
    }
}

/// The triangles `s` puts into the components below `n` that belong to plant
/// `p`.
spec fn members(s: Seq<u32>, ids: Seq<u32>, p: u32, n: int) -> nat
    decreases n,
{
    if n <= 0 {
        0
    } else {
        members(s, ids, p, n - 1) + if ids[n - 1] == p {
            tally::count_of(s, (n - 1) as u32)
        } else {
            0nat
        }
    }
}

proof fn lemma_members_last(s: Seq<u32>, ids: Seq<u32>, p: u32, n: int)
    requires
        s.len() > 0,
        0 <= n <= NO_COMP,
    ensures
        members(s, ids, p, n) == members(s.drop_last(), ids, p, n) + if s.last() < n
            && ids[s.last() as int] == p {
            1nat
        } else {
            0nat
        },
    decreases n,
{
    if n > 0 {
        lemma_members_last(s, ids, p, n - 1);
    }
}

proof fn lemma_no_members(ids: Seq<u32>, p: u32, n: int)
    ensures
        members(Seq::<u32>::empty(), ids, p, n) == 0,
    decreases n,
{
    if n > 0 {
        lemma_no_members(ids, p, n - 1);
    }
}

/// A map from triangles to plants that goes by component has as many triangles
/// of a plant as the plant's components hold.
proof fn lemma_count_members(s: Seq<u32>, map: Seq<u32>, ids: Seq<u32>, p: u32, n: int)
    requires
        0 <= n <= NO_COMP,
        p != FIELD_PLANT,
        map.len() == s.len(),
        forall|t: int|
            0 <= t < s.len() ==> #[trigger] map[t] == if s[t] == NO_COMP {
                FIELD_PLANT
            } else {
                ids[s[t] as int]
            },
        forall|t: int| 0 <= t < s.len() && #[trigger] s[t] != NO_COMP ==> s[t] < n,
    ensures
        tally::count_of(map, p) == members(s, ids, p, n),
    decreases s.len(),
{
    if s.len() == 0 {
        assert(s == Seq::<u32>::empty());
        lemma_no_members(ids, p, n);
    } else {
        lemma_count_members(s.drop_last(), map.drop_last(), ids, p, n);
        lemma_members_last(s, ids, p, n);
        assert(map[s.len() - 1] == map.last());
        assert(s[s.len() - 1] == s.last());
    }
}

proof fn lemma_members_tris(s: Seq<u32>, tris: Seq<u32>, ids: Seq<u32>, p: u32, n: int)
    requires
        0 <= n <= tris.len() < u32::MAX,
        forall|c: int| 0 <= c < tris.len() ==> #[trigger] tris[c] == tally::count_of(s, c as u32),
    ensures
        plants::plant_tris(tris, ids, p, n) == members(s, ids, p, n),
    decreases n,
{
    if n > 0 {
        lemma_members_tris(s, tris, ids, p, n - 1);
        assert(tris[n - 1] == tally::count_of(s, (n - 1) as u32));
    }
}

/// An element that occurs is counted.
proof fn lemma_counted(s: Seq<u32>, x: u32, i: int)
    requires
        0 <= i < s.len(),
        s[i] == x,
    ensures
        tally::count_of(s, x) >= 1,
    decreases s.len(),
{
    if i < s.len() - 1 {
        lemma_counted(s.drop_last(), x, i);
    }
}

/// Renumbering counts one plant's triangles under its new id.
proof fn lemma_count_renumbered(kept: Seq<u32>, map: Seq<u32>, tri_plant: Seq<u32>, i: int)
    requires
        tally::ascending(kept),
        kept.len() <= MAX_PLANTS,
        0 <= i < kept.len(),
        map.len() == tri_plant.len(),
        forall|t: int|
            0 <= t < map.len() ==> plants::renumbered(kept, map[t], #[trigger] tri_plant[t]),
    ensures
        tally::count_of(tri_plant, i as u32) == tally::count_of(map, kept[i]),
    decreases map.len(),
{
    if map.len() > 0 {
        let m = map.drop_last();
        let r = tri_plant.drop_last();
        assert forall|t: int| 0 <= t < m.len() implies plants::renumbered(
            kept,
            m[t],
            #[trigger] r[t],
        ) by {
            assert(plants::renumbered(kept, map[t], tri_plant[t]));
        }
        lemma_count_renumbered(kept, m, r, i);
        let t = map.len() - 1;
        assert(plants::renumbered(kept, map[t], tri_plant[t]));
        assert(kept.contains(kept[i]));
        if tri_plant[t] == i as u32 {
            assert(kept.contains(map[t]));
        } else if map[t] == kept[i] {
            let j = tri_plant[t] as int;
            assert(kept[j] == kept[i]);
            if i < j {
                assert(kept[i] < kept[j]);
            } else {
                assert(kept[j] < kept[i]);
            }
        }
    }
}

/// Two swaying triangles with a common corner are in one component.
proof fn lemma_corner_joins(
    scene: &Scene,
    mask: Seq<bool>,
    rs: Seq<SwayRegion>,
    t: int,
    u: int,
    v: int,
)
    requires
        0 <= t < scene.tris(),
        0 <= u < scene.tris(),
        components::masked(scene, mask, rs, t),
        components::masked(scene, mask, rs, u),
        components::corner(scene, t, v),
        components::corner(scene, u, v),
    ensures
        components::together(scene, mask, rs, t, u),
{
    let link = components::vertex_link(scene, mask, rs);
    let a = scene.indices@[t]@[0] as int;
    let b = scene.indices@[u]@[0] as int;
    assert(link(a, v)) by {
        assert(components::masked(scene, mask, rs, t));
    }
    assert(link(v, b)) by {
        assert(components::masked(scene, mask, rs, u));
    }
    forest::connected_step(link, a, v);
    forest::connected_step(link, v, b);
    forest::connected_trans(link, a, v, b);
}

/// Plants are whole: only swaying triangles have one, two of them that share a
/// vertex have the same, and a plant counts its triangles, of which it has at
/// least one. There are never more plants than the cap allows.
pub proof fn plants_are_whole(
    scene: &Scene,
    mask: Seq<bool>,
    woody_mat: Seq<bool>,
    rs: Seq<SwayRegion>,
    comps: &Components,
    prints: Seq<Footprint>,
    woody: &WoodyPlants,
    leaves: Seq<LeafPrint>,
    voxels: Seq<VoxRange>,
    cands: Seq<Vec<u32>>,
    vols: Seq<Vec<u32>>,
    ids: Seq<u32>,
    poses: Seq<PlantPose>,
    d: &Derived,
)
    requires
        scene.wf(),
        comps.describes(scene, mask, woody_mat, rs),
        woody.describes(comps, prints),
        woody.len() <= comps.len(),
        assigned(comps, woody, leaves, voxels, cands, vols, ids),
        d.describes(comps, ids, woody.len() as u32, poses),
    ensures
        d.set.tri_plant@.len() == scene.tris(),
        d.set.plants@.len() <= MAX_PLANTS,
        forall|t: int|
            0 <= t < scene.tris() && #[trigger] d.set.tri_plant@[t] != FIELD_PLANT ==> {
                &&& components::masked(scene, mask, rs, t)
                &&& d.set.tri_plant@[t] < d.set.plants@.len()
            },
        forall|t: int, u: int, v: int|
            #![trigger components::corner(scene, t, v), components::corner(scene, u, v)]
            {
                &&& 0 <= t < scene.tris()
                &&& 0 <= u < scene.tris()
                &&& components::masked(scene, mask, rs, t)
                &&& components::masked(scene, mask, rs, u)
                &&& components::corner(scene, t, v)
                &&& components::corner(scene, u, v)
            } ==> d.set.tri_plant@[t] == d.set.tri_plant@[u],
        forall|p: int|
            0 <= p < d.set.plants@.len() ==> {
                &&& (#[trigger] d.set.plants@[p]).tris == tally::count_of(
                    d.set.tri_plant@,
                    p as u32,
                )
                &&& d.set.plants@[p].tris >= 1
            },
{
    let s = comps.tri_comp@;
    let map = plants::plants_of(comps, ids);
    let kept = d.kept@;
    let n = woody.len() as u32;
    let tris = plants::tris_of(comps, ids, n);
    let r = d.set.tri_plant@;
    assert(comps.len() < u32::MAX);
    assert forall|t: int| 0 <= t < scene.tris() && #[trigger] r[t] != FIELD_PLANT implies {
        &&& components::masked(scene, mask, rs, t)
        &&& r[t] < d.set.plants@.len()
    } by {
        assert(plants::renumbered(kept, map[t], r[t]));
        assert(kept.contains(map[t]));
        if s[t] == NO_COMP {
            let i = kept.index_of(FIELD_PLANT);
            assert(kept[i] < tris.len());
        }
    }
    assert forall|t: int, u: int, v: int|
        #![trigger components::corner(scene, t, v), components::corner(scene, u, v)]
        {
            &&& 0 <= t < scene.tris()
            &&& 0 <= u < scene.tris()
            &&& components::masked(scene, mask, rs, t)
            &&& components::masked(scene, mask, rs, u)
            &&& components::corner(scene, t, v)
            &&& components::corner(scene, u, v)
        } implies r[t] == r[u] by {
        lemma_corner_joins(scene, mask, rs, t, u, v);
        assert(s[t] != NO_COMP && s[u] != NO_COMP);
        assert(s[t] == s[u]);
        assert(map[t] == map[u]);
        lemma_same_new_id(kept, map[t], r[t], r[u]);
    }
    assert forall|p: int| 0 <= p < d.set.plants@.len() implies {
        &&& (#[trigger] d.set.plants@[p]).tris == tally::count_of(r, p as u32)
        &&& d.set.plants@[p].tris >= 1
    } by {
        let q = kept[p];
        assert(d.set.plants@[p] == plants::plant_at(comps, ids, n, poses, q));
        assert(q < tris.len());
        assert forall|c: int| 0 <= c < comps.len() implies #[trigger] comps.tris@[c]
            == tally::count_of(s, c as u32) by {
            assert(components::tally_holds(
                scene,
                woody_mat,
                s,
                c as u32,
                comps.tris@[c],
                comps.woody@[c],
                comps.boxes@[c],
            ));
        }
        lemma_members_tris(s, comps.tris@, ids, q, comps.len() as int);
        lemma_count_members(s, map, ids, q, comps.len() as int);
        lemma_count_renumbered(kept, map, r, p);
        tally::lemma_count_bound(map, q);
        assert(woody.plant_of_comp@.contains(q));
        let c = woody.plant_of_comp@.index_of(q);
        assert(woody.plant_of_comp@[c] == q);
        assert(ids[c] == q);
        assert(s.contains(c as u32));
        let t = s.index_of(c as u32);
        assert(s[t] == c as u32);
        assert(map[t] == q);
        lemma_counted(map, q, t);
    }
}

/// Equal plants stay equal under new ids.
proof fn lemma_same_new_id(kept: Seq<u32>, old_id: u32, a: u32, b: u32)
    requires
        tally::ascending(kept),
        plants::renumbered(kept, old_id, a),
        plants::renumbered(kept, old_id, b),
    ensures
        a == b,
{
    if kept.contains(old_id) {
        if a < b {
            assert(kept[a as int] < kept[b as int]);
        } else if b < a {
            assert(kept[b as int] < kept[a as int]);
        }
    }
}

/// Two triangles that share a vertex and both sway lie in one region.
pub open spec fn regions_part_vertices(
    scene: &Scene,
    mask: Seq<bool>,
    rs: Seq<SwayRegion>,
) -> bool {
    forall|t: int, u: int, v: int|
        #![trigger components::corner(scene, t, v), components::corner(scene, u, v)]
        {
            &&& 0 <= t < scene.tris()
            &&& 0 <= u < scene.tris()
            &&& components::masked(scene, mask, rs, t)
            &&& components::masked(scene, mask, rs, u)
            &&& components::corner(scene, t, v)
            &&& components::corner(scene, u, v)
        } ==> regions::region_at(rs, t) == regions::region_at(rs, u)
}

/// A swaying triangle with corner `v`.
spec fn swaying_at(
    scene: &Scene,
    mask: Seq<bool>,
    rs: Seq<SwayRegion>,
    t: int,
    v: int,
) -> bool {
    &&& 0 <= t < scene.tris()
    &&& components::masked(scene, mask, rs, t)
    &&& components::corner(scene, t, v)
}

/// The region of the swaying triangles at vertex `v`.
spec fn vertex_region(scene: &Scene, mask: Seq<bool>, rs: Seq<SwayRegion>, v: int) -> int {
    regions::region_at(rs, choose|t: int| swaying_at(scene, mask, rs, t, v))->0 as int
}

proof fn lemma_vertex_region(
    scene: &Scene,
    mask: Seq<bool>,
    rs: Seq<SwayRegion>,
    t: int,
    v: int,
)
    requires
        regions_part_vertices(scene, mask, rs),
        swaying_at(scene, mask, rs, t, v),
    ensures
        regions::region_at(rs, t) == Some(vertex_region(scene, mask, rs, v) as u32),
        0 <= vertex_region(scene, mask, rs, v) <= u32::MAX,
{
    let u = choose|u: int| swaying_at(scene, mask, rs, u, v);
    assert(swaying_at(scene, mask, rs, u, v));
    assert(components::corner(scene, t, v) && components::corner(scene, u, v));
}

/// Where no vertex crosses regions, a component lies in its region.
proof fn lemma_component_region(
    scene: &Scene,
    mask: Seq<bool>,
    woody_mat: Seq<bool>,
    rs: Seq<SwayRegion>,
    comps: &Components,
    t: int,
)
    requires
        comps.describes(scene, mask, woody_mat, rs),
        regions_part_vertices(scene, mask, rs),
        0 <= t < scene.tris(),
        comps.tri_comp@[t] != NO_COMP,
    ensures
        regions::region_at(rs, t) == Some(comps.region@[comps.tri_comp@[t] as int]),
{
    let s = comps.tri_comp@;
    let c = s[t];
    assert(components::region_of_first(rs, s, c, comps.region@[c as int]));
    let f = choose|f: int|
        #[trigger] tally::first_at(s, f, c) && Some(comps.region@[c as int])
            == regions::region_at(rs, f);
    assert(s[f] == s[t]);
    let link = components::vertex_link(scene, mask, rs);
    let label = |v: int| vertex_region(scene, mask, rs, v);
    let a = scene.indices@[t]@[0] as int;
    let b = scene.indices@[f]@[0] as int;
    assert(components::together(scene, mask, rs, t, f));
    assert forall|x: int, y: int| #[trigger] link(x, y) implies label(x) == label(y) by {
        let u = choose|u: int|
            0 <= u < scene.tris() && #[trigger] components::masked(scene, mask, rs, u)
                && components::corner(scene, u, x) && components::corner(scene, u, y);
        assert(swaying_at(scene, mask, rs, u, x));
        assert(swaying_at(scene, mask, rs, u, y));
        lemma_vertex_region(scene, mask, rs, u, x);
        lemma_vertex_region(scene, mask, rs, u, y);
    }
    forest::connected_label(link, label, a, b);
    assert(components::corner(scene, t, a));
    assert(components::corner(scene, f, b));
    assert(swaying_at(scene, mask, rs, t, a));
    assert(swaying_at(scene, mask, rs, f, b));
    lemma_vertex_region(scene, mask, rs, t, a);
    lemma_vertex_region(scene, mask, rs, f, b);
}

/// Where no two regions share a vertex, the triangles of one plant lie in one
/// region.
pub proof fn plants_stay_in_one_region(
    scene: &Scene,
    mask: Seq<bool>,
    woody_mat: Seq<bool>,
    rs: Seq<SwayRegion>,
    comps: &Components,
    prints: Seq<Footprint>,
    woody: &WoodyPlants,
    leaves: Seq<LeafPrint>,
    voxels: Seq<VoxRange>,
    cands: Seq<Vec<u32>>,
    vols: Seq<Vec<u32>>,
    ids: Seq<u32>,
    poses: Seq<PlantPose>,
    d: &Derived,
    t: int,
    u: int,
)
    requires
        scene.wf(),
        regions_part_vertices(scene, mask, rs),
        comps.describes(scene, mask, woody_mat, rs),
        woody.describes(comps, prints),
        woody.len() <= comps.len(),
        assigned(comps, woody, leaves, voxels, cands, vols, ids),
        d.describes(comps, ids, woody.len() as u32, poses),
        0 <= t < scene.tris(),
        0 <= u < scene.tris(),
        d.set.tri_plant@[t] == d.set.tri_plant@[u],
        d.set.tri_plant@[t] != FIELD_PLANT,
    ensures
        regions::region_at(rs, t) is Some,
        regions::region_at(rs, t) == regions::region_at(rs, u),
{
    lemma_region_of_plant(
        scene,
        mask,
        woody_mat,
        rs,
        comps,
        prints,
        woody,
        leaves,
        voxels,
        cands,
        vols,
        ids,
        poses,
        d,
        t,
    );
    lemma_region_of_plant(
        scene,
        mask,
        woody_mat,
        rs,
        comps,
        prints,
        woody,
        leaves,
        voxels,
        cands,
        vols,
        ids,
        poses,
        d,
        u,
    );
}

/// A triangle of a plant lies in the region of the plant's woody parts.
proof fn lemma_region_of_plant(
    scene: &Scene,
    mask: Seq<bool>,
    woody_mat: Seq<bool>,
    rs: Seq<SwayRegion>,
    comps: &Components,
    prints: Seq<Footprint>,
    woody: &WoodyPlants,
    leaves: Seq<LeafPrint>,
    voxels: Seq<VoxRange>,
    cands: Seq<Vec<u32>>,
    vols: Seq<Vec<u32>>,
    ids: Seq<u32>,
    poses: Seq<PlantPose>,
    d: &Derived,
    t: int,
)
    requires
        regions_part_vertices(scene, mask, rs),
        comps.describes(scene, mask, woody_mat, rs),
        woody.describes(comps, prints),
        woody.len() <= comps.len(),
        assigned(comps, woody, leaves, voxels, cands, vols, ids),
        d.describes(comps, ids, woody.len() as u32, poses),
        0 <= t < scene.tris(),
        d.set.tri_plant@[t] != FIELD_PLANT,
    ensures
        regions::region_at(rs, t) == Some(
            woody.plant_region@[d.kept@[d.set.tri_plant@[t] as int] as int],
        ),
{
    let s = comps.tri_comp@;
    let map = plants::plants_of(comps, ids);
    let kept = d.kept@;
    assert(plants::renumbered(kept, map[t], d.set.tri_plant@[t]));
    assert(kept.contains(map[t]));
    assert(kept[d.set.tri_plant@[t] as int] < woody.len());
    assert(s[t] != NO_COMP);
    lemma_plant_region(comps, prints, woody, leaves, voxels, cands, vols, ids, s[t] as int);
    lemma_component_region(scene, mask, woody_mat, rs, comps, t);
}

/// Height of corner `k` of triangle `t`.
pub open spec fn height(scene: &Scene, t: int, k: int) -> u32 {
    scene.positions@[scene.indices@[t]@[k] as int].y
}

/// Every corner of the triangles of `ids` below `n` that carry `c` has a height
/// from `lo` to `hi`.
pub open spec fn spans(scene: &Scene, ids: Seq<u32>, c: u32, n: int, lo: u32, hi: u32) -> bool {
    forall|t: int, k: int|
        0 <= t < n && ids[t] == c && 0 <= k < 3 ==> {
            &&& bits::le(lo, #[trigger] height(scene, t, k))
            &&& bits::le(height(scene, t, k), hi)
        }
}

/// Some corner of the triangles of `ids` below `n` that carry `c` has height
/// `y`.
pub open spec fn attains(scene: &Scene, ids: Seq<u32>, c: u32, n: int, y: u32) -> bool {
    exists|t: int, k: int|
        0 <= t < n && ids[t] == c && 0 <= k < 3 && #[trigger] height(scene, t, k) == y
}

/// No corner of a triangle of `ids` that carries an id has a height that is not
/// a number.
pub open spec fn heights_known(scene: &Scene, ids: Seq<u32>) -> bool {
    forall|t: int, k: int|
        0 <= t < ids.len() && ids[t] != NO_COMP && 0 <= k < 3 ==> !bits::is_nan(
            #[trigger] height(scene, t, k),
        )
}

proof fn lemma_member_box(scene: &Scene, ids: Seq<u32>, c: u32, n: int)
    requires
        0 <= n <= ids.len(),
        c != NO_COMP,
        heights_known(scene, ids),
    ensures
        ({
            let b = components::member_box(scene, ids, c, n);
            &&& !bits::is_nan(b.lo.y)
            &&& !bits::is_nan(b.hi.y)
            &&& spans(scene, ids, c, n, b.lo.y, b.hi.y)
            &&& ({
                ||| b == bits::empty_box()
                ||| attains(scene, ids, c, n, b.lo.y) && attains(scene, ids, c, n, b.hi.y)
            })
        }),
    decreases n,
{
    if n > 0 {
        lemma_member_box(scene, ids, c, n - 1);
        let b = components::member_box(scene, ids, c, n - 1);
        let e = components::member_box(scene, ids, c, n);
        let t = n - 1;
        if ids[t] == c {
            let h0 = height(scene, t, 0);
            let h1 = height(scene, t, 1);
            let h2 = height(scene, t, 2);
            assert(!bits::is_nan(h0) && !bits::is_nan(h1) && !bits::is_nan(h2));
            assert(e.lo.y == bits::min(bits::min(bits::min(b.lo.y, h0), h1), h2));
            assert(e.hi.y == bits::max(bits::max(bits::max(b.hi.y, h0), h1), h2));
            assert forall|u: int, k: int| 0 <= u < n && ids[u] == c && 0 <= k < 3 implies {
                &&& bits::le(e.lo.y, #[trigger] height(scene, u, k))
                &&& bits::le(height(scene, u, k), e.hi.y)
            } by {
                if u == t {
                    assert(k == 0 || k == 1 || k == 2);
                }
            }
            if b != bits::empty_box() {
                let (u, k) = choose|u: int, k: int|
                    0 <= u < n - 1 && ids[u] == c && 0 <= k < 3 && #[trigger] height(scene, u, k)
                        == b.lo.y;
                assert(height(scene, u, k) == b.lo.y);
                let (w, j) = choose|w: int, j: int|
                    0 <= w < n - 1 && ids[w] == c && 0 <= j < 3 && #[trigger] height(scene, w, j)
                        == b.hi.y;
                assert(height(scene, w, j) == b.hi.y);
            }
            assert(attains(scene, ids, c, n, e.lo.y));
            assert(attains(scene, ids, c, n, e.hi.y));
        } else {
            if b != bits::empty_box() {
                let (u, k) = choose|u: int, k: int|
                    0 <= u < n - 1 && ids[u] == c && 0 <= k < 3 && #[trigger] height(scene, u, k)
                        == b.lo.y;
                assert(height(scene, u, k) == b.lo.y);
                let (w, j) = choose|w: int, j: int|
                    0 <= w < n - 1 && ids[w] == c && 0 <= j < 3 && #[trigger] height(scene, w, j)
                        == b.hi.y;
                assert(height(scene, w, j) == b.hi.y);
            }
        }
    }
}

proof fn lemma_plant_box(boxes: Seq<BitsBox>, ids: Seq<u32>, p: u32, n: int)
    requires
        0 <= n <= ids.len(),
        boxes.len() == ids.len(),
        forall|c: int|
            0 <= c < boxes.len() ==> !bits::is_nan((#[trigger] boxes[c]).lo.y) && !bits::is_nan(
                boxes[c].hi.y,
            ),
    ensures
        ({
            let b = plants::plant_box(boxes, ids, p, n);
            &&& !bits::is_nan(b.lo.y)
            &&& !bits::is_nan(b.hi.y)
            &&& forall|c: int|
                0 <= c < n && ids[c] == p ==> bits::le(b.lo.y, (#[trigger] boxes[c]).lo.y)
                    && bits::le(boxes[c].hi.y, b.hi.y)
            &&& ({
                ||| b == bits::empty_box() && forall|c: int| 0 <= c < n ==> #[trigger] ids[c] != p
                ||| {
                    &&& exists|c: int| 0 <= c < n && ids[c] == p && (#[trigger] boxes[c]).lo.y == b.lo.y
                    &&& exists|c: int| 0 <= c < n && ids[c] == p && (#[trigger] boxes[c]).hi.y == b.hi.y
                }
            })
        }),
    decreases n,
{
    if n > 0 {
        lemma_plant_box(boxes, ids, p, n - 1);
        let b = plants::plant_box(boxes, ids, p, n - 1);
        let e = plants::plant_box(boxes, ids, p, n);
        if ids[n - 1] == p {
            let x = boxes[n - 1];
            assert(e.lo.y == bits::min(b.lo.y, x.lo.y));
            assert(e.hi.y == bits::max(b.hi.y, x.hi.y));
        }
    }
}

/// Where every height is a number, a plant spans its triangles exactly: `y0`
/// and `y1` are the least and the greatest height of their corners.
pub proof fn plants_span_their_triangles(
    scene: &Scene,
    mask: Seq<bool>,
    woody_mat: Seq<bool>,
    rs: Seq<SwayRegion>,
    comps: &Components,
    prints: Seq<Footprint>,
    woody: &WoodyPlants,
    leaves: Seq<LeafPrint>,
    voxels: Seq<VoxRange>,
    cands: Seq<Vec<u32>>,
    vols: Seq<Vec<u32>>,
    ids: Seq<u32>,
    poses: Seq<PlantPose>,
    d: &Derived,
    p: int,
)
    requires
        scene.wf(),
        comps.describes(scene, mask, woody_mat, rs),
        heights_known(scene, comps.tri_comp@),
        woody.describes(comps, prints),
        woody.len() <= comps.len(),
        assigned(comps, woody, leaves, voxels, cands, vols, ids),
        d.describes(comps, ids, woody.len() as u32, poses),
        0 <= p < d.set.plants@.len(),
    ensures
        ({
            let plant = d.set.plants@[p];
            let map = d.set.tri_plant@;
            let n = scene.tris() as int;
            &&& spans(scene, map, p as u32, n, plant.y0, plant.y1)
            &&& attains(scene, map, p as u32, n, plant.y0)
            &&& attains(scene, map, p as u32, n, plant.y1)
        }),
{
    let s = comps.tri_comp@;
    let map = plants::plants_of(comps, ids);
    let kept = d.kept@;
    let r = d.set.tri_plant@;
    let q = kept[p];
    let n = scene.tris() as int;
    let boxes = comps.boxes@;
    let b = plants::plant_box(boxes, ids, q, comps.len() as int);
    assert(d.set.plants@[p] == plants::plant_at(comps, ids, woody.len() as u32, poses, q));
    assert(q < plants::tris_of(comps, ids, woody.len() as u32).len());
    assert forall|c: int| 0 <= c < comps.len() implies {
        &&& #[trigger] boxes[c] == components::member_box(scene, s, c as u32, n)
        &&& !bits::is_nan(boxes[c].lo.y)
        &&& !bits::is_nan(boxes[c].hi.y)
        &&& spans(scene, s, c as u32, n, boxes[c].lo.y, boxes[c].hi.y)
        &&& attains(scene, s, c as u32, n, boxes[c].lo.y)
        &&& attains(scene, s, c as u32, n, boxes[c].hi.y)
    } by {
        assert(components::tally_holds(
            scene,
            woody_mat,
            s,
            c as u32,
            comps.tris@[c],
            comps.woody@[c],
            boxes[c],
        ));
        lemma_member_box(scene, s, c as u32, n);
        assert(s.contains(c as u32));
        let t = s.index_of(c as u32);
        assert(s[t] == c as u32);
        assert(bits::le(boxes[c].lo.y, height(scene, t, 0)));
        assert(bits::le(height(scene, t, 0), boxes[c].hi.y));
    }
    lemma_plant_box(boxes, ids, q, comps.len() as int);
    assert forall|t: int, k: int| 0 <= t < n && r[t] == p as u32 && 0 <= k < 3 implies {
        &&& bits::le(b.lo.y, #[trigger] height(scene, t, k))
        &&& bits::le(height(scene, t, k), b.hi.y)
    } by {
        assert(plants::renumbered(kept, map[t], r[t]));
        assert(kept.contains(map[t]));
        assert(map[t] == q);
        let c = s[t] as int;
        assert(ids[c] == q);
        assert(spans(scene, s, c as u32, n, boxes[c].lo.y, boxes[c].hi.y));
    }
    assert(woody.plant_of_comp@.contains(q));
    let w = woody.plant_of_comp@.index_of(q);
    assert(woody.plant_of_comp@[w] == q);
    assert(ids[w] == q);
    let lo = choose|c: int|
        0 <= c < comps.len() && ids[c] == q && (#[trigger] boxes[c]).lo.y == b.lo.y;
    assert(boxes[lo].lo.y == b.lo.y);
    lemma_attained(scene, s, map, ids, kept, r, lo, p, n, b.lo.y);
    let hi = choose|c: int|
        0 <= c < comps.len() && ids[c] == q && (#[trigger] boxes[c]).hi.y == b.hi.y;
    assert(boxes[hi].hi.y == b.hi.y);
    lemma_attained(scene, s, map, ids, kept, r, hi, p, n, b.hi.y);
}

/// A height attained in a component of a plant is attained in the plant.
proof fn lemma_attained(
    scene: &Scene,
    s: Seq<u32>,
    map: Seq<u32>,
    ids: Seq<u32>,
    kept: Seq<u32>,
    r: Seq<u32>,
    c: int,
    p: int,
    n: int,
    y: u32,
)
    requires
        0 <= c < NO_COMP,
        0 <= p < kept.len(),
        kept.len() <= MAX_PLANTS,
        tally::ascending(kept),
        attains(scene, s, c as u32, n, y),
        map.len() == n,
        s.len() == n,
        r.len() == n,
        ids[c] == kept[p],
        forall|t: int|
            0 <= t < n && s[t] != NO_COMP ==> #[trigger] map[t] == ids[s[t] as int],
        forall|t: int| 0 <= t < n ==> plants::renumbered(kept, map[t], #[trigger] r[t]),
    ensures
        attains(scene, r, p as u32, n, y),
{
    let (t, k) = choose|t: int, k: int|
        0 <= t < n && s[t] == c as u32 && 0 <= k < 3 && #[trigger] height(scene, t, k) == y;
    assert(height(scene, t, k) == y);
    assert(map[t] == kept[p]);
    assert(plants::renumbered(kept, map[t], r[t]));
    assert(kept.contains(kept[p]));
    lemma_same_new_id(kept, kept[p], r[t], p as u32);
}

} // verus!
