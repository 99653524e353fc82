//! Items entered on the voxels of their regions' grids, and found again by the
//! voxels that they share.
use crate::foliage::voxels;
use crate::foliage::voxels::VoxRange;
use crate::tally;
use std::collections::HashMap;
use vstd::prelude::*;

verus! {

broadcast use vstd::std_specs::hash::group_hash_axioms;

/// Item `p` covers the voxel that `key` names.
pub open spec fn stands_at(regions: Seq<u32>, ranges: Seq<VoxRange>, p: int, key: int) -> bool {
    &&& 0 <= p < regions.len()
    &&& exists|x: i32, y: i32, z: i32| #[trigger]
        voxels::covers(ranges[p], x, y, z) && voxels::key_spec(
            regions[p],
            x,
            y,
            z,
        ) == key
}

/// Every item in a voxel's list covers that voxel.
pub open spec fn grid_sound(regions: Seq<u32>, ranges: Seq<VoxRange>, grid: Map<u128, Vec<u32>>) -> bool {
    forall|k: u128, q: u32|
        #![trigger grid[k]@.contains(q)]
        grid.contains_key(k) && grid[k]@.contains(q) ==> stands_at(
            regions,
            ranges,
            q as int,
            k as int,
        )
}

/// The voxel's list holds item `p`.
pub open spec fn on_grid(grid: Map<u128, Vec<u32>>, region: u32, p: u32, x: i32, y: i32, z: i32) -> bool {
    let k = voxels::key_spec(region, x, y, z) as u128;
    grid.contains_key(k) && grid[k]@.contains(p)
}

/// No list loses an item.
pub open spec fn grid_grows(a: Map<u128, Vec<u32>>, b: Map<u128, Vec<u32>>) -> bool {
    forall|k: u128, q: u32|
        #![trigger a[k]@.contains(q)]
        a.contains_key(k) && a[k]@.contains(q) ==> b.contains_key(k) && b[k]@.contains(q)
}

/// Item `p` is on the grid at every voxel of its range.
pub open spec fn entered(grid: Map<u128, Vec<u32>>, region: u32, v: VoxRange, p: u32) -> bool {
    forall|x: i32, y: i32, z: i32| #[trigger]
        voxels::covers(v, x, y, z) ==> on_grid(grid, region, p, x, y, z)
}

/// What is on the grid stays on it.
pub proof fn entered_stays(
    a: Map<u128, Vec<u32>>,
    b: Map<u128, Vec<u32>>,
    region: u32,
    v: VoxRange,
    p: u32,
)
    requires
        grid_grows(a, b),
        entered(a, region, v, p),
    ensures
        entered(b, region, v, p),
{
    assert forall|x: i32, y: i32, z: i32| #[trigger] voxels::covers(v, x, y, z) implies on_grid(
        b,
        region,
        p,
        x,
        y,
        z,
    ) by {
        assert(on_grid(a, region, p, x, y, z));
    }
}

/// Enter item `p` at one voxel.
fn enter_voxel(
    regions: &Vec<u32>,
    ranges: &[VoxRange],
    grid: &mut HashMap<u128, Vec<u32>>,
    p: u32,
    x: i32,
    y: i32,
    z: i32,
)
    requires
        ranges@.len() == regions@.len(),
        p < regions@.len(),
        voxels::covers(ranges@[p as int], x, y, z),
        grid_sound(regions@, ranges@, old(grid)@),
    ensures
        grid_sound(regions@, ranges@, final(grid)@),
        grid_grows(old(grid)@, final(grid)@),
        on_grid(final(grid)@, regions@[p as int], p, x, y, z),
{
    let ghost g0 = grid@;
    let k: u128 = voxels::voxel_key(regions[p as usize], x, y, z);
    let mut list: Vec<u32> = match grid.remove(&k) {
        Some(l) => l,
        None => Vec::new(),
    };
    let ghost l0 = list@;
    list.push(p);
    proof {
        assert(list@[l0.len() as int] == p);
        assert forall|q: u32| #[trigger] list@.contains(q) implies l0.contains(q) || q == p by {
            let i = list@.index_of(q);
            if i < l0.len() {
                assert(l0[i] == q);
            }
        }
        assert forall|q: u32| #[trigger] l0.contains(q) implies list@.contains(q) by {
            assert(list@[l0.index_of(q)] == q);
        }
    }
    grid.insert(k, list);
    proof {
        assert forall|k2: u128, q: u32|
            #![trigger grid@[k2]@.contains(q)]
            grid@.contains_key(k2) && grid@[k2]@.contains(q) implies stands_at(
            regions@,
            ranges@,
            q as int,
            k2 as int,
        ) by {
            if k2 == k {
                if q != p {
                    assert(l0.contains(q));
                    assert(g0.contains_key(k) && g0[k]@.contains(q));
                }
            } else {
                assert(g0.contains_key(k2) && g0[k2]@.contains(q));
            }
        }
        assert forall|k2: u128, q: u32|
            #![trigger g0[k2]@.contains(q)]
            g0.contains_key(k2) && g0[k2]@.contains(q) implies grid@.contains_key(k2)
            && grid@[k2]@.contains(q) by {
            if k2 == k {
                assert(l0.contains(q));
            }
        }
    }
}

/// Enter item `p` at every voxel of its range.
pub fn enter(
    regions: &Vec<u32>,
    ranges: &[VoxRange],
    grid: &mut HashMap<u128, Vec<u32>>,
    p: u32,
)
    requires
        ranges@.len() == regions@.len(),
        p < regions@.len(),
        grid_sound(regions@, ranges@, old(grid)@),
    ensures
        grid_sound(regions@, ranges@, final(grid)@),
        grid_grows(old(grid)@, final(grid)@),
        entered(final(grid)@, regions@[p as int], ranges@[p as int], p),
{
    let v: VoxRange = ranges[p as usize];
    let ghost g0 = grid@;
    let ghost region = regions@[p as int];
    let mut x: i64 = v.x0 as i64;
    while x <= v.x1 as i64
        invariant
            ranges@.len() == regions@.len(),
            p < regions@.len(),
            v == ranges@[p as int],
            region == regions@[p as int],
            v.x0 <= x,
            x <= v.x1 + 1 || x == v.x0,
            grid_sound(regions@, ranges@, grid@),
            grid_grows(g0, grid@),
            forall|a: i32, b: i32, d: i32|
                #![trigger voxels::covers(v, a, b, d)]
                voxels::covers(v, a, b, d) && a < x ==> on_grid(grid@, region, p, a, b, d),
        decreases v.x1 + 1 - x,
    {
        let mut y: i64 = v.y0 as i64;
        while y <= v.y1 as i64
            invariant
                ranges@.len() == regions@.len(),
                p < regions@.len(),
                v == ranges@[p as int],
                region == regions@[p as int],
                v.x0 <= x <= v.x1,
                v.y0 <= y,
                y <= v.y1 + 1 || y == v.y0,
                grid_sound(regions@, ranges@, grid@),
                grid_grows(g0, grid@),
                forall|a: i32, b: i32, d: i32|
                    #![trigger voxels::covers(v, a, b, d)]
                    voxels::covers(v, a, b, d) && (a < x || (a == x && b < y)) ==> on_grid(
                        grid@,
                        region,
                        p,
                        a,
                        b,
                        d,
                    ),
            decreases v.y1 + 1 - y,
        {
            let mut z: i64 = v.z0 as i64;
            while z <= v.z1 as i64
                invariant
                    ranges@.len() == regions@.len(),
                    p < regions@.len(),
                    v == ranges@[p as int],
                    region == regions@[p as int],
                    v.x0 <= x <= v.x1,
                    v.y0 <= y <= v.y1,
                    v.z0 <= z,
                    z <= v.z1 + 1 || z == v.z0,
                    grid_sound(regions@, ranges@, grid@),
                    grid_grows(g0, grid@),
                    forall|a: i32, b: i32, d: i32|
                        #![trigger voxels::covers(v, a, b, d)]
                        voxels::covers(v, a, b, d) && (a < x || (a == x && (b < y || (b == y && d
                            < z)))) ==> on_grid(grid@, region, p, a, b, d),
                decreases v.z1 + 1 - z,
            {
                let ghost g1 = grid@;
                enter_voxel(regions, ranges, grid, p, x as i32, y as i32, z as i32);
                proof {
                    assert forall|a: i32, b: i32, d: i32|
                        #![trigger voxels::covers(v, a, b, d)]
                        voxels::covers(v, a, b, d) && (a < x || (a == x && (b < y || (b == y && d
                            < z + 1)))) implies on_grid(grid@, region, p, a, b, d) by {
                        if a == x && b == y && d == z {
                        } else {
                            assert(on_grid(g1, region, p, a, b, d));
                        }
                    }
                }
                z = z + 1;
            }
            y = y + 1;
        }
        x = x + 1;
    }
}

/// Gather the items listed at one voxel.
fn gather_voxel(
    grid: &HashMap<u128, Vec<u32>>,
    region: u32,
    list: &mut Vec<u32>,
    x: i32,
    y: i32,
    z: i32,
)
    requires
        tally::ascending(old(list)@),
    ensures
        tally::ascending(final(list)@),
        forall|q: u32| #[trigger]
            final(list)@.contains(q) <==> (old(list)@.contains(q) || on_grid(
                grid@,
                region,
                q,
                x,
                y,
                z,
            )),
{
    let k: u128 = voxels::voxel_key(region, x, y, z);
    match grid.get(&k) {
        None => {},
        Some(found) => {
            let ghost l0 = list@;
            let mut i: usize = 0;
            while i < found.len()
                invariant
                    i <= found@.len(),
                    tally::ascending(list@),
                    forall|q: u32| #[trigger]
                        list@.contains(q) <==> (l0.contains(q) || found@.take(i as int).contains(q)),
                decreases found@.len() - i,
            {
                let q0: u32 = found[i];
                tally::insert_sorted(list, q0);
                proof {
                    let a = found@.take(i as int);
                    let b = found@.take(i + 1);
                    assert(b == a.push(q0));
                    assert(b[i as int] == q0);
                    assert forall|q: u32| #[trigger] b.contains(q) <==> (a.contains(q) || q
                        == q0) by {
                        if a.contains(q) {
                            assert(b[a.index_of(q)] == q);
                        }
                        if b.contains(q) {
                            let j = b.index_of(q);
                            if j < i {
                                assert(a[j] == q);
                            }
                        }
                    }
                }
                i = i + 1;
            }
            assert(found@.take(i as int) == found@);
        },
    }
}

/// Every listed item shares some voxel already walked.
pub open spec fn gathered(
    grid: Map<u128, Vec<u32>>,
    region: u32,
    v: VoxRange,
    list: Seq<u32>,
    done: spec_fn(i32, i32, i32) -> bool,
) -> bool {
    &&& tally::ascending(list)
    &&& forall|q: u32| #[trigger] list.contains(q) ==> gathered_from(grid, region, v, q)
    &&& forall|q: u32, x: i32, y: i32, z: i32|
        #![trigger on_grid(grid, region, q, x, y, z)]
        voxels::covers(v, x, y, z) && done(x, y, z) && on_grid(grid, region, q, x, y, z)
            ==> list.contains(q)
}

pub open spec fn gathered_from(grid: Map<u128, Vec<u32>>, region: u32, v: VoxRange, q: u32) -> bool {
    exists|x: i32, y: i32, z: i32| #[trigger]
        voxels::covers(v, x, y, z) && on_grid(grid, region, q, x, y, z)
}

/// The items that share a voxel with a range, ascending.
pub fn gather(grid: &HashMap<u128, Vec<u32>>, region: u32, v: VoxRange) -> (list: Vec<u32>)
    ensures
        gathered(grid@, region, v, list@, |x: i32, y: i32, z: i32| true),
{
    let mut list: Vec<u32> = Vec::new();
    let mut x: i64 = v.x0 as i64;
    while x <= v.x1 as i64
        invariant
            v.x0 <= x,
            x <= v.x1 + 1 || x == v.x0,
            gathered(grid@, region, v, list@, |a: i32, b: i32, d: i32| a < x),
        decreases v.x1 + 1 - x,
    {
        let mut y: i64 = v.y0 as i64;
        while y <= v.y1 as i64
            invariant
                v.x0 <= x <= v.x1,
                v.y0 <= y,
                y <= v.y1 + 1 || y == v.y0,
                gathered(
                    grid@,
                    region,
                    v,
                    list@,
                    |a: i32, b: i32, d: i32| a < x || (a == x && b < y),
                ),
            decreases v.y1 + 1 - y,
        {
            let mut z: i64 = v.z0 as i64;
            while z <= v.z1 as i64
                invariant
                    v.x0 <= x <= v.x1,
                    v.y0 <= y <= v.y1,
                    v.z0 <= z,
                    z <= v.z1 + 1 || z == v.z0,
                    gathered(
                        grid@,
                        region,
                        v,
                        list@,
                        |a: i32, b: i32, d: i32|
                            a < x || (a == x && (b < y || (b == y && d < z))),
                    ),
                decreases v.z1 + 1 - z,
            {
                let ghost l0 = list@;
                gather_voxel(grid, region, &mut list, x as i32, y as i32, z as i32);
                proof {
                    assert forall|q: u32| #[trigger] list@.contains(q) implies gathered_from(
                        grid@,
                        region,
                        v,
                        q,
                    ) by {
                        if l0.contains(q) {
                        } else {
                            assert(voxels::covers(v, x as i32, y as i32, z as i32));
                        }
                    }
                    let done = |a: i32, b: i32, d: i32|
                        a < x || (a == x && (b < y || (b == y && d < z)));
                    assert forall|q: u32, a: i32, b: i32, d: i32|
                        #![trigger on_grid(grid@, region, q, a, b, d)]
                        voxels::covers(v, a, b, d) && (a < x || (a == x && (b < y || (b == y && d
                            < z + 1)))) && on_grid(grid@, region, q, a, b, d) implies list@.contains(
                        q,
                    ) by {
                        if a == x && b == y && d == z {
                        } else {
                            assert(done(a, b, d));
                            assert(l0.contains(q));
                        }
                    }
                }
                z = z + 1;
            }
            y = y + 1;
        }
        x = x + 1;
    }
    list
}

/// What is gathered for a range of a region are the items of that region that
/// share a voxel with it, where every item is on the grid.
pub proof fn gathered_share_a_voxel(
    regions: Seq<u32>,
    ranges: Seq<VoxRange>,
    grid: Map<u128, Vec<u32>>,
    region: u32,
    v: VoxRange,
    list: Seq<u32>,
    q: u32,
)
    requires
        grid_sound(regions, ranges, grid),
        gathered(grid, region, v, list, |x: i32, y: i32, z: i32| true),
    ensures
        list.contains(q) ==> q < regions.len() && regions[q as int] == region
            && voxels::share_voxel(v, ranges[q as int]),
        voxels::share_voxel(v, ranges[q as int]) && entered(grid, region, ranges[q as int], q)
            ==> list.contains(q),
{
    if list.contains(q) {
        assert(gathered_from(grid, region, v, q));
        let (x, y, z) = choose|x: i32, y: i32, z: i32| #[trigger]
            voxels::covers(v, x, y, z) && on_grid(grid, region, q, x, y, z);
        let k = voxels::key_spec(region, x, y, z) as u128;
        lemma_key_fits(region, x, y, z);
        assert(grid[k]@.contains(q));
        assert(stands_at(regions, ranges, q as int, k as int));
        let (x2, y2, z2) = choose|x2: i32, y2: i32, z2: i32| #[trigger]
            voxels::covers(ranges[q as int], x2, y2, z2) && voxels::key_spec(
                regions[q as int],
                x2,
                y2,
                z2,
            ) == k as int;
        voxels::keys_are_distinct(region, x, y, z, regions[q as int], x2, y2, z2);
        assert(voxels::share_voxel(v, ranges[q as int]));
    }
    if voxels::share_voxel(v, ranges[q as int]) && entered(grid, region, ranges[q as int], q) {
        let done = |x: i32, y: i32, z: i32| true;
        let (x, y, z) = choose|x: i32, y: i32, z: i32| #[trigger]
            voxels::covers(v, x, y, z) && voxels::covers(ranges[q as int], x, y, z);
        assert(on_grid(grid, region, q, x, y, z));
        assert(done(x, y, z));
    }
}

proof fn lemma_key_fits(region: u32, x: i32, y: i32, z: i32)
    ensures
        0 <= voxels::key_spec(region, x, y, z) <= u128::MAX,
{
}

} // verus!
