//! What a partition into sway cells promises, said of the triangles, the grid
//! and the heights themselves.
use crate::bits;
use crate::foliage::cells;
use crate::foliage::cells::{CellPose, GridPos, Partition, SwayCell, STATIC_CELL};
use crate::foliage::components;
use crate::foliage::plants::{Plant, PlantSet};
use crate::foliage::regions;
use crate::scene::{Scene, SwayRegion};
use vstd::arithmetic::power2::pow2;
use vstd::prelude::*;

verus! {

/// Coordinate `q` of a grid whose step is `w` holds the place `v`; past the
/// 32-bit range the last coordinate does.
pub open spec fn holds_place(q: i32, w: nat, v: i64) -> bool {
    &&& q > i32::MIN ==> q * w <= v
    &&& q < i32::MAX ==> v < (q + 1) * w
}

/// Halving rounds down to the step of the power of two.
proof fn lemma_halved(v: int, k: nat)
    ensures
        cells::halved(v, k) * pow2(k) <= v < (cells::halved(v, k) + 1) * pow2(k),
    decreases k,
{
    if k == 0 {
        vstd::arithmetic::power2::lemma2_to64();
        assert(pow2(0) == 1);
    } else {
        let h = cells::halved(v, (k - 1) as nat);
        let q = h / 2;
        let w = pow2((k - 1) as nat) as int;
        lemma_halved(v, (k - 1) as nat);
        vstd::arithmetic::power2::lemma_pow2_unfold(k);
        vstd::arithmetic::power2::lemma_pow2_pos((k - 1) as nat);
        assert(q * (2 * w) <= h * w && (h + 1) * w <= (q + 1) * (2 * w)) by (nonlinear_arith)
            requires
                2 * q <= h < 2 * q + 2,
                w > 0,
        ;
    }
}

proof fn lemma_holds_place(v: i64, k: nat)
    ensures
        holds_place(cells::saturated(cells::halved(v as int, k)), pow2(k), v),
{
    lemma_halved(v as int, k);
    vstd::arithmetic::power2::lemma_pow2_pos(k);
    let h = cells::halved(v as int, k);
    let q = cells::saturated(h) as int;
    let w = pow2(k) as int;
    if h < q {
        assert((h + 1) * w <= q * w && q * w <= (q + 1) * w) by (nonlinear_arith)
            requires
                h + 1 <= q,
                w > 0,
        ;
    } else if h > q {
        assert(q * w <= h * w) by (nonlinear_arith)
            requires
                q <= h,
                w > 0,
        ;
    }
}

/// A triangle that sways is in a cell of its own plant and region, whose place
/// on the grid holds the triangle's on all three axes; any other is in none.
pub proof fn triangles_lie_in_their_cells(
    scene: &Scene,
    mask: Seq<bool>,
    plants: &PlantSet,
    rs: Seq<SwayRegion>,
    pos: Seq<GridPos>,
    part: &Partition,
    t: int,
)
    requires
        regions::regions_sorted(rs),
        part.describes(scene, mask, plants, rs, pos),
        0 <= t < scene.tris(),
    ensures
        ({
            let marked = scene.tri_mat@[t] < mask.len() && mask[scene.tri_mat@[t] as int];
            let placed = exists|r: int|
                0 <= r < rs.len() && (#[trigger] rs[r]).tri_start <= t < rs[r].tri_end;
            if marked && placed {
                let c = part.tri_cell@[t] as int;
                let key = part.keys@[c];
                let w = pow2(part.level as nat);
                &&& c < part.keys@.len()
                &&& key.plant == plants.tri_plant@[t]
                &&& key.region < rs.len()
                &&& rs[key.region as int].tri_start <= t < rs[key.region as int].tri_end
                &&& holds_place(key.x, w, pos[t].x)
                &&& holds_place(key.y, w, pos[t].y)
                &&& holds_place(key.z, w, pos[t].z)
            } else {
                part.tri_cell@[t] == u16::MAX
            }
        }),
{
    let k = part.level as nat;
    let placed = exists|r: int|
        0 <= r < rs.len() && (#[trigger] rs[r]).tri_start <= t < rs[r].tri_end;
    if placed {
        let r = choose|r: int|
            0 <= r < rs.len() && (#[trigger] rs[r]).tri_start <= t < rs[r].tri_end;
        assert(regions::in_region(rs, r, t));
        regions::lemma_region_unique(rs, r, t);
    }
    if components::masked(scene, mask, rs, t) {
        assert(part.tri_cell@[t] != STATIC_CELL);
        let r = choose|r: int| regions::in_region(rs, r, t);
        assert(regions::in_region(rs, r, t));
        assert(rs[r].tri_start <= t);
        lemma_holds_place(pos[t].x, k);
        lemma_holds_place(pos[t].y, k);
        lemma_holds_place(pos[t].z, k);
    }
}

/// Two triangles that sway share a cell exactly where they share plant and
/// region and one step of the grid holds both on all three axes.
pub proof fn cells_are_steps_of_the_grid(
    scene: &Scene,
    mask: Seq<bool>,
    plants: &PlantSet,
    rs: Seq<SwayRegion>,
    pos: Seq<GridPos>,
    part: &Partition,
    t: int,
    u: int,
    qx: i32,
    qy: i32,
    qz: i32,
)
    requires
        regions::regions_sorted(rs),
        part.describes(scene, mask, plants, rs, pos),
        0 <= t < scene.tris(),
        0 <= u < scene.tris(),
        part.tri_cell@[t] != u16::MAX,
        part.tri_cell@[u] != u16::MAX,
        holds_place(qx, pow2(part.level as nat), pos[t].x),
        holds_place(qy, pow2(part.level as nat), pos[t].y),
        holds_place(qz, pow2(part.level as nat), pos[t].z),
    ensures
        part.tri_cell@[t] == part.tri_cell@[u] <==> {
            &&& plants.tri_plant@[t] == plants.tri_plant@[u]
            &&& exists|r: int|
                0 <= r < rs.len() && (#[trigger] rs[r]).tri_start <= t < rs[r].tri_end
                    && rs[r].tri_start <= u < rs[r].tri_end
            &&& holds_place(qx, pow2(part.level as nat), pos[u].x)
            &&& holds_place(qy, pow2(part.level as nat), pos[u].y)
            &&& holds_place(qz, pow2(part.level as nat), pos[u].z)
        },
{
    let w = pow2(part.level as nat);
    vstd::arithmetic::power2::lemma_pow2_pos(part.level as nat);
    triangles_lie_in_their_cells(scene, mask, plants, rs, pos, part, t);
    triangles_lie_in_their_cells(scene, mask, plants, rs, pos, part, u);
    let (a, b) = (part.keys@[part.tri_cell@[t] as int], part.keys@[part.tri_cell@[u] as int]);
    lemma_one_step(a.x, qx, w, pos[t].x);
    lemma_one_step(a.y, qy, w, pos[t].y);
    lemma_one_step(a.z, qz, w, pos[t].z);
    if part.tri_cell@[t] == part.tri_cell@[u] {
        assert(rs[a.region as int].tri_start <= t);
    } else if plants.tri_plant@[t] == plants.tri_plant@[u] && holds_place(qx, w, pos[u].x)
        && holds_place(qy, w, pos[u].y) && holds_place(qz, w, pos[u].z) {
        lemma_one_step(b.x, qx, w, pos[u].x);
        lemma_one_step(b.y, qy, w, pos[u].y);
        lemma_one_step(b.z, qz, w, pos[u].z);
        if exists|r: int|
            0 <= r < rs.len() && (#[trigger] rs[r]).tri_start <= t < rs[r].tri_end
                && rs[r].tri_start <= u < rs[r].tri_end {
            let r = choose|r: int|
                0 <= r < rs.len() && (#[trigger] rs[r]).tri_start <= t < rs[r].tri_end
                    && rs[r].tri_start <= u < rs[r].tri_end;
            assert(regions::in_region(rs, r, t) && regions::in_region(rs, r, u));
            assert(regions::in_region(rs, a.region as int, t));
            assert(regions::in_region(rs, b.region as int, u));
            regions::lemma_region_unique(rs, r, t);
            regions::lemma_region_unique(rs, r, u);
            regions::lemma_region_unique(rs, a.region as int, t);
            regions::lemma_region_unique(rs, b.region as int, u);
            assert(a == b);
            let (i, j) = (part.tri_cell@[t] as int, part.tri_cell@[u] as int);
            if i < j {
                assert(cells::key_lt(part.keys@[i], part.keys@[j]));
            } else {
                assert(cells::key_lt(part.keys@[j], part.keys@[i]));
            }
        }
    }
}

/// One step alone holds a place.
proof fn lemma_one_step(p: i32, q: i32, w: nat, v: i64)
    requires
        w > 0,
        holds_place(p, w, v),
        holds_place(q, w, v),
    ensures
        p == q,
{
    if p < q {
        assert((p + 1) * w <= q * w) by (nonlinear_arith)
            requires
                p + 1 <= q,
                w > 0,
        ;
    } else if q < p {
        assert((q + 1) * w <= p * w) by (nonlinear_arith)
            requires
                q + 1 <= p,
                w > 0,
        ;
    }
}

/// Cells are listed once each, plants before the field and field by field from
/// there, each with a triangle in it, and never more than the cap allows.
pub proof fn cells_are_listed_in_order(
    scene: &Scene,
    mask: Seq<bool>,
    plants: &PlantSet,
    rs: Seq<SwayRegion>,
    pos: Seq<GridPos>,
    part: &Partition,
    c: int,
    d: int,
)
    requires
        part.describes(scene, mask, plants, rs, pos),
        0 <= c < d < part.keys@.len(),
    ensures
        part.keys@.len() <= 4096,
        ({
            let (a, b) = (part.keys@[c], part.keys@[d]);
            ||| a.plant < b.plant
            ||| a.plant == b.plant && a.region < b.region
            ||| a.plant == b.plant && a.region == b.region && a.x < b.x
            ||| a.plant == b.plant && a.region == b.region && a.x == b.x && a.y < b.y
            ||| a.plant == b.plant && a.region == b.region && a.x == b.x && a.y == b.y && a.z < b.z
        }),
        exists|t: int| 0 <= t < scene.tris() && #[trigger] part.tri_cell@[t] == c,
        exists|t: int| 0 <= t < scene.tris() && #[trigger] part.tri_cell@[t] == d,
{
    assert(cells::key_lt(part.keys@[c], part.keys@[d]));
    lemma_has_member(scene, mask, plants, rs, pos, part, c);
    lemma_has_member(scene, mask, plants, rs, pos, part, d);
}

proof fn lemma_has_member(
    scene: &Scene,
    mask: Seq<bool>,
    plants: &PlantSet,
    rs: Seq<SwayRegion>,
    pos: Seq<GridPos>,
    part: &Partition,
    c: int,
)
    requires
        part.describes(scene, mask, plants, rs, pos),
        0 <= c < part.keys@.len(),
    ensures
        exists|t: int| 0 <= t < scene.tris() && #[trigger] part.tri_cell@[t] == c,
{
    let key = part.keys@[c];
    let k = part.level as nat;
    assert(part.keys@.contains(key));
    assert(cells::occupied(scene, mask, plants, rs, pos, k, key));
    let t = choose|t: int|
        0 <= t < scene.tris() && #[trigger] components::masked(scene, mask, rs, t)
            && cells::key_at(plants, rs, pos, t, k) == key;
    let e = part.tri_cell@[t] as int;
    assert(part.tri_cell@[t] != STATIC_CELL);
    if e < c {
        assert(cells::key_lt(part.keys@[e], part.keys@[c]));
    } else if c < e {
        assert(cells::key_lt(part.keys@[c], part.keys@[e]));
    }
    assert(part.tri_cell@[t] == c);
}

/// Height of corner `k` of triangle `t`.
pub open spec fn corner_height(scene: &Scene, t: int, k: int) -> u32 {
    scene.positions@[scene.indices@[t]@[k] as int].y
}

/// A cell spans its triangles: no corner height that is a number lies outside,
/// and each end is such a height, or the empty one where there is none.
pub proof fn cells_span_their_triangles(
    scene: &Scene,
    mask: Seq<bool>,
    plants: &PlantSet,
    rs: Seq<SwayRegion>,
    pos: Seq<GridPos>,
    part: &Partition,
    c: u16,
)
    requires
        part.describes(scene, mask, plants, rs, pos),
        c < part.keys@.len(),
    ensures
        forall|t: int, k: int|
            0 <= t < scene.tris() && part.tri_cell@[t] == c && 0 <= k < 3 && !bits::is_nan(
                #[trigger] corner_height(scene, t, k),
            ) ==> bits::le(part.y0@[c as int], corner_height(scene, t, k)) && bits::le(
                corner_height(scene, t, k),
                part.y1@[c as int],
            ),
        part.y0@[c as int] == bits::INFINITY || exists|t: int, k: int|
            0 <= t < scene.tris() && part.tri_cell@[t] == c && 0 <= k < 3
                && #[trigger] corner_height(scene, t, k) == part.y0@[c as int],
        part.y1@[c as int] == bits::NEG_INFINITY || exists|t: int, k: int|
            0 <= t < scene.tris() && part.tri_cell@[t] == c && 0 <= k < 3
                && #[trigger] corner_height(scene, t, k) == part.y1@[c as int],
{
    lemma_extent(scene, part.tri_cell@, c, scene.tris() as int);
    assert((part.y0@[c as int], part.y1@[c as int]) == cells::cell_extent(
        scene,
        part.tri_cell@,
        c,
        scene.tris() as int,
    ));
}

proof fn lemma_extent(scene: &Scene, tri_cell: Seq<u16>, c: u16, n: int)
    ensures
        ({
            let e = cells::cell_extent(scene, tri_cell, c, n);
            &&& !bits::is_nan(e.0) && !bits::is_nan(e.1)
            &&& forall|t: int, k: int|
                0 <= t < n && tri_cell[t] == c && 0 <= k < 3 && !bits::is_nan(
                    #[trigger] corner_height(scene, t, k),
                ) ==> bits::le(e.0, corner_height(scene, t, k)) && bits::le(
                    corner_height(scene, t, k),
                    e.1,
                )
            &&& e.0 == bits::INFINITY || exists|t: int, k: int|
                0 <= t < n && tri_cell[t] == c && 0 <= k < 3 && #[trigger] corner_height(scene, t, k)
                    == e.0
            &&& e.1 == bits::NEG_INFINITY || exists|t: int, k: int|
                0 <= t < n && tri_cell[t] == c && 0 <= k < 3 && #[trigger] corner_height(scene, t, k)
                    == e.1
        }),
    decreases n,
{
    if n > 0 {
        lemma_extent(scene, tri_cell, c, n - 1);
        let was = cells::cell_extent(scene, tri_cell, c, n - 1);
        let e = cells::cell_extent(scene, tri_cell, c, n);
        let t = n - 1;
        if tri_cell[t] == c {
            let h0 = corner_height(scene, t, 0);
            let h1 = corner_height(scene, t, 1);
            let h2 = corner_height(scene, t, 2);
            assert(e.0 == bits::least(bits::least(bits::least(was.0, h0), h1), h2));
            assert(e.1 == bits::greatest(bits::greatest(bits::greatest(was.1, h0), h1), h2));
            assert forall|u: int, k: int|
                0 <= u < n && tri_cell[u] == c && 0 <= k < 3 && !bits::is_nan(
                    #[trigger] corner_height(scene, u, k),
                ) implies bits::le(e.0, corner_height(scene, u, k)) && bits::le(
                corner_height(scene, u, k),
                e.1,
            ) by {
                if u == t {
                    assert(k == 0 || k == 1 || k == 2);
                }
            }
            if was.0 != bits::INFINITY {
                let (u, k) = choose|u: int, k: int|
                    0 <= u < n - 1 && tri_cell[u] == c && 0 <= k < 3 && #[trigger] corner_height(
                        scene,
                        u,
                        k,
                    ) == was.0;
                assert(corner_height(scene, u, k) == was.0);
            }
            if was.1 != bits::NEG_INFINITY {
                let (u, k) = choose|u: int, k: int|
                    0 <= u < n - 1 && tri_cell[u] == c && 0 <= k < 3 && #[trigger] corner_height(
                        scene,
                        u,
                        k,
                    ) == was.1;
                assert(corner_height(scene, u, k) == was.1);
            }
        }
    }
}

/// A sway cell has its cell's span and its region's scale. A plant's cell has
/// the plant's anchor and chord, a field cell the pose of its own; the bound is
/// the pose's.
pub proof fn sway_cells_pose_as_their_plant(
    part: &Partition,
    plants: Seq<Plant>,
    poses: Seq<CellPose>,
    scales: Seq<u32>,
    cell: SwayCell,
    c: int,
)
    requires
        part.wf(),
        plants.len() <= 2048,
        cells::keys_in_range(part, plants.len(), scales.len()),
        0 <= c < part.keys@.len(),
        cell == cells::cell_spec(part, plants, poses, scales, c),
    ensures
        cell.y0 == part.y0@[c],
        cell.y1 == part.y1@[c],
        cell.w_max == poses[c].w_max,
        cell.scale == scales[part.keys@[c].region as int],
        ({
            let p = part.keys@[c].plant;
            if p == u32::MAX {
                cell.anchor == poses[c].anchor && cell.a == poses[c].a && cell.b == poses[c].b
                    && cell.key == c
            } else {
                cell.anchor == plants[p as int].anchor && cell.a == plants[p as int].a && cell.b
                    == plants[p as int].b && cell.key == 0x8000_0000 + p
            }
        }),
{
    let p = part.keys@[c].plant;
    assert(part.keys@[c].plant == u32::MAX || part.keys@[c].plant < plants.len());
    assert(p < 0x8000_0000u32 ==> (0x8000_0000u32 | p) == 0x8000_0000u32 + p) by (bit_vector);
}

/// Triangles `t` and `u` fall into one step of a grid: they are of one plant and
/// one region, and on every axis some coordinate holds the places of both.
pub open spec fn one_step(
    plants: &PlantSet,
    rs: Seq<SwayRegion>,
    pos: Seq<GridPos>,
    w: nat,
    t: int,
    u: int,
) -> bool {
    &&& plants.tri_plant@[t] == plants.tri_plant@[u]
    &&& exists|r: int|
        0 <= r < rs.len() && (#[trigger] rs[r]).tri_start <= t < rs[r].tri_end && rs[r].tri_start <= u
            < rs[r].tri_end
    &&& exists|q: i32| #[trigger] holds_place(q, w, pos[t].x) && holds_place(q, w, pos[u].x)
    &&& exists|q: i32| #[trigger] holds_place(q, w, pos[t].y) && holds_place(q, w, pos[u].y)
    &&& exists|q: i32| #[trigger] holds_place(q, w, pos[t].z) && holds_place(q, w, pos[u].z)
}

proof fn lemma_holds_one(q: i32, k: nat, v: i64)
    requires
        holds_place(q, pow2(k), v),
    ensures
        cells::saturated(cells::halved(v as int, k)) == q,
{
    vstd::arithmetic::power2::lemma_pow2_pos(k);
    lemma_holds_place(v, k);
    lemma_one_step(cells::saturated(cells::halved(v as int, k)), q, pow2(k), v);
}

proof fn lemma_one_key(
    plants: &PlantSet,
    rs: Seq<SwayRegion>,
    pos: Seq<GridPos>,
    k: nat,
    t: int,
    u: int,
)
    requires
        regions::regions_sorted(rs),
        one_step(plants, rs, pos, pow2(k), t, u),
    ensures
        cells::key_at(plants, rs, pos, t, k) == cells::key_at(plants, rs, pos, u, k),
{
    let w = pow2(k);
    let r = choose|r: int|
        0 <= r < rs.len() && (#[trigger] rs[r]).tri_start <= t < rs[r].tri_end && rs[r].tri_start <= u
            < rs[r].tri_end;
    assert(regions::in_region(rs, r, t) && regions::in_region(rs, r, u));
    regions::lemma_region_unique(rs, r, t);
    regions::lemma_region_unique(rs, r, u);
    let x = choose|q: i32| #[trigger] holds_place(q, w, pos[t].x) && holds_place(q, w, pos[u].x);
    let y = choose|q: i32| #[trigger] holds_place(q, w, pos[t].y) && holds_place(q, w, pos[u].y);
    let z = choose|q: i32| #[trigger] holds_place(q, w, pos[t].z) && holds_place(q, w, pos[u].z);
    lemma_holds_one(x, k, pos[t].x);
    lemma_holds_one(x, k, pos[u].x);
    lemma_holds_one(y, k, pos[t].y);
    lemma_holds_one(y, k, pos[u].y);
    lemma_holds_one(z, k, pos[t].z);
    lemma_holds_one(z, k, pos[u].z);
}

/// The pitch doubles only where it must: at half the pitch that was taken there
/// are more than four thousand and ninety-six triangles that sway and of which
/// no two fall into one step of the grid.
pub proof fn the_pitch_doubles_only_where_it_must(
    scene: &Scene,
    mask: Seq<bool>,
    plants: &PlantSet,
    rs: Seq<SwayRegion>,
    pos: Seq<GridPos>,
    part: &Partition,
)
    requires
        regions::regions_sorted(rs),
        part.describes(scene, mask, plants, rs, pos),
        part.level > 0,
    ensures
        exists|ts: Seq<int>|
            #![trigger ts.len()]
            ts.len() > 4096 && (forall|i: int|
                0 <= i < ts.len() ==> 0 <= #[trigger] ts[i] < scene.tris() && part.tri_cell@[ts[i]]
                    != u16::MAX) && forall|i: int, j: int|
                0 <= i < j < ts.len() ==> !one_step(
                    plants,
                    rs,
                    pos,
                    pow2((part.level - 1) as nat),
                    #[trigger] ts[i],
                    #[trigger] ts[j],
                ),
{
    let k = (part.level - 1) as nat;
    let list = cells::lemma_finer_is_too_full(part, scene, mask, plants, rs, pos);
    let member = |i: int|
        choose|t: int|
            0 <= t < scene.tris() && #[trigger] components::masked(scene, mask, rs, t)
                && cells::key_at(plants, rs, pos, t, k) == list[i];
    let ts = Seq::new(list.len(), member);
    assert forall|i: int| 0 <= i < ts.len() implies 0 <= #[trigger] ts[i] < scene.tris()
        && part.tri_cell@[ts[i]] != u16::MAX && cells::key_at(plants, rs, pos, ts[i], k) == list[i] by {
        assert(cells::occupied(scene, mask, plants, rs, pos, k, list[i]));
        assert(components::masked(scene, mask, rs, ts[i]));
        assert(part.tri_cell@[ts[i]] != STATIC_CELL);
    }
    assert forall|i: int, j: int| 0 <= i < j < ts.len() implies !one_step(
        plants,
        rs,
        pos,
        pow2(k),
        #[trigger] ts[i],
        #[trigger] ts[j],
    ) by {
        assert(cells::key_lt(list[i], list[j]));
        if one_step(plants, rs, pos, pow2(k), ts[i], ts[j]) {
            lemma_one_key(plants, rs, pos, k, ts[i], ts[j]);
        }
    }
    assert(ts.len() > 4096);
}

} // verus!
