//! Merging woody components that touch into plants.
use crate::bits;
use crate::bits::{Bits3, BitsBox};
use crate::foliage::components::Components;
use crate::foliage::raster;
use crate::foliage::voxels;
use crate::foliage::voxels::{ContactGrid, VoxRange};
use crate::forest;
use crate::forest::Forest;
use crate::tally;
use std::collections::HashMap;
use vstd::prelude::*;

verus! {

broadcast use vstd::std_specs::hash::group_hash_axioms;

/// Plant id of a triangle or component that belongs to no plant.
pub const FIELD_PLANT: u32 = u32::MAX;

/// What a component reaches after its box is widened by half the contact
/// pitch, and whether it is too large to be entered on its region's contact
/// grid voxel by voxel.
#[derive(Clone, Copy, Debug, PartialEq, Eq, Structural)]
pub struct Footprint {
    pub large: bool,
    pub reach: BitsBox,
}

/// Woody component `c` touches woody component `d`: both in one region, and
/// their widened boxes overlap.
pub open spec fn touches(comps: &Components, prints: Seq<Footprint>, c: int, d: int) -> bool {
    &&& 0 <= c < comps.len()
    &&& 0 <= d < comps.len()
    &&& c != d
    &&& comps.woody@[c]
    &&& comps.woody@[d]
    &&& comps.region@[c] == comps.region@[d]
    &&& bits::boxes_overlap(prints[c].reach, prints[d].reach)
}

/// `touches` as a link relation between component ids.
pub open spec fn touch_link(comps: &Components, prints: Seq<Footprint>) -> spec_fn(
    int,
    int,
) -> bool {
    |c: int, d: int| touches(comps, prints, c, d)
}

/// Plants before any leaf is attached.
pub struct WoodyPlants {
    /// Plant of each component; `FIELD_PLANT` for a component that is not woody.
    pub plant_of_comp: Vec<u32>,
    /// Region of each plant.
    pub plant_region: Vec<u32>,
}

impl WoodyPlants {
    /// Number of plants.
    pub open spec fn len(&self) -> nat {
        self.plant_region@.len()
    }

    /// What the woody plants of a component set are: woody components share a
    /// plant exactly where a chain of touching woody components joins them;
    /// plants are numbered by their first component; and a plant lies in one
    /// region.
    pub open spec fn describes(&self, comps: &Components, prints: Seq<Footprint>) -> bool {
        let ids = self.plant_of_comp@;
        &&& ids.len() == comps.len()
        &&& forall|c: int|
            0 <= c < ids.len() ==> (#[trigger] ids[c] != FIELD_PLANT <==> comps.woody@[c])
        &&& forall|c: int, d: int|
            #![trigger ids[c], ids[d]]
            0 <= c < ids.len() && 0 <= d < ids.len() && comps.woody@[c] && comps.woody@[d] ==> (
            ids[c] == ids[d] <==> forest::connected(touch_link(comps, prints), c, d))
        &&& tally::numbered(ids, FIELD_PLANT, self.len())
        &&& forall|c: int|
            0 <= c < ids.len() && #[trigger] ids[c] != FIELD_PLANT ==> self.plant_region@[ids[c] as int]
                == comps.region@[c]
    }
}

/// Groups are never split: later grouping `b` is coarser than `a`.
spec fn coarser(a: Seq<int>, b: Seq<int>) -> bool {
    &&& a.len() == b.len()
    &&& forall|i: int, j: int|
        #![trigger b[i], b[j]]
        0 <= i < a.len() && 0 <= j < a.len() && a[i] == a[j] ==> b[i] == b[j]
}

spec fn rooted(r: spec_fn(int, int) -> bool, roots: Seq<int>) -> bool {
    forall|i: int| 0 <= i < roots.len() ==> forest::connected(r, i, #[trigger] roots[i])
}

/// Components `c` and `d` share a group if one touches the other.
spec fn settled(
    comps: &Components,
    prints: Seq<Footprint>,
    roots: Seq<int>,
    c: int,
    d: int,
) -> bool {
    touches(comps, prints, c, d) || touches(comps, prints, d, c) ==> roots[c] == roots[d]
}

/// Joins two components where one touches the other.
fn join_touching(
    comps: &Components,
    prints: &[Footprint],
    f: &mut Forest,
    c: u32,
    d: u32,
)
    requires
        comps.wf(),
        prints@.len() == comps.len(),
        c < comps.len(),
        d < comps.len(),
        old(f).wf(),
        old(f).size() == comps.len(),
        rooted(touch_link(comps, prints@), old(f).roots()),
    ensures
        final(f).wf(),
        final(f).size() == comps.len(),
        coarser(old(f).roots(), final(f).roots()),
        rooted(touch_link(comps, prints@), final(f).roots()),
        settled(comps, prints@, final(f).roots(), c as int, d as int),
{
    let (i, j) = (c as usize, d as usize);
    if i != j && comps.woody[i] && comps.woody[j] && comps.region[i] == comps.region[j] && (
    bits::overlap(prints[i].reach, prints[j].reach) || bits::overlap(
        prints[j].reach,
        prints[i].reach,
    )) {
        proof {
            let r = touch_link(comps, prints@);
            let (a, b) = (c as int, d as int);
            if touches(comps, prints@, a, b) {
                assert(r(a, b));
                forest::connected_step(r, a, b);
            } else {
                assert(r(b, a));
                forest::connected_step(r, b, a);
                forest::connected_sym(r, b, a);
            }
            forest::lemma_joined_sound(f.roots(), r, a, b);
        }
        f.join(c, d);
    }
}

/// The voxels that each component can reach.
fn ranges_of(comps: &Components, prints: &[Footprint], grids: &[ContactGrid]) -> (v: Vec<VoxRange>)
    requires
        comps.wf(),
        prints@.len() == comps.len(),
        gridded(comps, grids@),
    ensures
        v@.len() == comps.len(),
        forall|c: int|
            0 <= c < comps.len() ==> voxels::rasters(
                &grids@[comps.region@[c] as int],
                prints@[c].reach,
                #[trigger] v@[c],
            ),
{
    let n: usize = comps.tris.len();
    let mut v: Vec<VoxRange> = Vec::with_capacity(n);
    let mut c: usize = 0;
    while c < n
        invariant
            n == comps.len(),
            c <= n,
            comps.wf(),
            prints@.len() == comps.len(),
            gridded(comps, grids@),
            v@.len() == c,
            forall|e: int|
                0 <= e < c ==> voxels::rasters(
                    &grids@[comps.region@[e] as int],
                    prints@[e].reach,
                    #[trigger] v@[e],
                ),
        decreases n - c,
    {
        assert(comps.region@[c as int] < grids@.len());
        v.push(voxels::raster(&grids[comps.region[c] as usize], &prints[c].reach));
        c = c + 1;
    }
    v
}

/// Small woody component `c` is on the grid, and settled with every other one
/// before `upto`.
spec fn placed(
    comps: &Components,
    prints: Seq<Footprint>,
    ranges: Seq<VoxRange>,
    grid: Map<u128, Vec<u32>>,
    roots: Seq<int>,
    c: int,
    upto: int,
) -> bool {
    comps.woody@[c] && !prints[c].large ==> {
        &&& raster::entered(grid, comps.region@[c], ranges[c], c as u32)
        &&& forall|d: int|
            0 <= d < upto && comps.woody@[d] && !prints[d].large ==> #[trigger] settled(
                comps,
                prints,
                roots,
                c,
                d,
            )
    }
}

/// Settles small woody component `c` with those already on the grid.
fn settle_small(
    comps: &Components,
    prints: &[Footprint],
    grids: &[ContactGrid],
    ranges: &Vec<VoxRange>,
    grid: &HashMap<u128, Vec<u32>>,
    f: &mut Forest,
    c: u32,
)
    requires
        comps.wf(),
        prints@.len() == comps.len(),
        gridded(comps, grids@),
        ranges@.len() == comps.len(),
        forall|e: int|
            0 <= e < comps.len() ==> voxels::rasters(
                &grids@[comps.region@[e] as int],
                prints@[e].reach,
                #[trigger] ranges@[e],
            ),
        c < comps.len(),
        raster::grid_sound(comps.region@, ranges@, grid@),
        old(f).wf(),
        old(f).size() == comps.len(),
        rooted(touch_link(comps, prints@), old(f).roots()),
    ensures
        final(f).wf(),
        final(f).size() == comps.len(),
        coarser(old(f).roots(), final(f).roots()),
        rooted(touch_link(comps, prints@), final(f).roots()),
        forall|d: u32|
            d < comps.len() && #[trigger] raster::entered(
                grid@,
                comps.region@[d as int],
                ranges@[d as int],
                d,
            ) ==> settled(comps, prints@, final(f).roots(), c as int, d as int),
{
    let near: Vec<u32> = raster::gather(grid, comps.region[c as usize], ranges[c as usize]);
    let ghost f0 = f.roots();
    proof {
        assert forall|q: u32| #[trigger] near@.contains(q) implies q < comps.len() by {
            raster::gathered_share_a_voxel(
                comps.region@,
                ranges@,
                grid@,
                comps.region@[c as int],
                ranges@[c as int],
                near@,
                q,
            );
        }
    }
    let mut i: usize = 0;
    while i < near.len()
        invariant
            i <= near@.len(),
            comps.wf(),
            prints@.len() == comps.len(),
            c < comps.len(),
            forall|q: u32| #[trigger] near@.contains(q) ==> q < comps.len(),
            f.wf(),
            f.size() == comps.len(),
            f0.len() == comps.len(),
            coarser(f0, f.roots()),
            rooted(touch_link(comps, prints@), f.roots()),
            forall|k: int|
                0 <= k < i ==> settled(
                    comps,
                    prints@,
                    f.roots(),
                    c as int,
                    #[trigger] near@[k] as int,
                ),
        decreases near@.len() - i,
    {
        assert(near@.contains(near@[i as int]));
        let ghost f1 = f.roots();
        join_touching(comps, prints, f, c, near[i]);
        proof {
            assert forall|k: int| 0 <= k < i + 1 implies settled(
                comps,
                prints@,
                f.roots(),
                c as int,
                #[trigger] near@[k] as int,
            ) by {
                assert(near@.contains(near@[k]));
                if k < i {
                    assert(settled(comps, prints@, f1, c as int, near@[k] as int));
                }
            }
        }
        i = i + 1;
    }
    proof {
        assert forall|d: u32|
            d < comps.len() && #[trigger] raster::entered(
                grid@,
                comps.region@[d as int],
                ranges@[d as int],
                d,
            ) implies settled(comps, prints@, f.roots(), c as int, d as int) by {
            let (a, b) = (c as int, d as int);
            if touches(comps, prints@, a, b) || touches(comps, prints@, b, a) {
                assert(voxels::rasters(
                    &grids@[comps.region@[a] as int],
                    prints@[a].reach,
                    ranges@[a],
                ));
                assert(voxels::rasters(
                    &grids@[comps.region@[b] as int],
                    prints@[b].reach,
                    ranges@[b],
                ));
                assert(comps.region@[a] < grids@.len());
                if touches(comps, prints@, a, b) {
                    voxels::overlapping_boxes_share_a_voxel(
                        &grids@[comps.region@[a] as int],
                        prints@[a].reach,
                        ranges@[a],
                        prints@[b].reach,
                        ranges@[b],
                    );
                } else {
                    voxels::overlapping_boxes_share_a_voxel(
                        &grids@[comps.region@[a] as int],
                        prints@[b].reach,
                        ranges@[b],
                        prints@[a].reach,
                        ranges@[a],
                    );
                }
                raster::gathered_share_a_voxel(
                    comps.region@,
                    ranges@,
                    grid@,
                    comps.region@[a],
                    ranges@[a],
                    near@,
                    d,
                );
                let k = near@.index_of(d);
                assert(near@[k] == d);
            }
        }
    }
}

/// Components `c` and `d` share a group wherever one touches the other.
spec fn touch_complete(comps: &Components, prints: Seq<Footprint>, roots: Seq<int>) -> bool {
    forall|c: int, d: int| #[trigger] touches(comps, prints, c, d) ==> roots[c] == roots[d]
}

/// Every component has a contact grid: that of its region.
pub open spec fn gridded(comps: &Components, grids: Seq<ContactGrid>) -> bool {
    &&& forall|c: int| 0 <= c < comps.len() ==> (#[trigger] comps.region@[c]) < grids.len()
    &&& forall|r: int| 0 <= r < grids.len() ==> (#[trigger] grids[r]).wf()
}

/// Group the woody components: a small one is compared with those it shares a
/// voxel with, a large one with every other.
fn group_woody(comps: &Components, prints: &[Footprint], grids: &[ContactGrid]) -> (f: Forest)
    requires
        comps.wf(),
        prints@.len() == comps.len(),
        gridded(comps, grids@),
    ensures
        f.wf(),
        f.size() == comps.len(),
        rooted(touch_link(comps, prints@), f.roots()),
        touch_complete(comps, prints@, f.roots()),
{
    let n: usize = comps.tris.len();
    let ranges = ranges_of(comps, prints, grids);
    let mut f: Forest = Forest::new(n as u32);
    let mut grid: HashMap<u128, Vec<u32>> = HashMap::new();
    let ghost r = touch_link(comps, prints@);
    proof {
        assert forall|i: int| 0 <= i < f.roots().len() implies forest::connected(
            r,
            i,
            #[trigger] f.roots()[i],
        ) by {
            forest::connected_refl(r, i);
        }
    }
    let mut c: usize = 0;
    while c < n
        invariant
            n == comps.len(),
            c <= n,
            comps.wf(),
            prints@.len() == comps.len(),
            gridded(comps, grids@),
            ranges@.len() == comps.len(),
            forall|e: int|
                0 <= e < comps.len() ==> voxels::rasters(
                    &grids@[comps.region@[e] as int],
                    prints@[e].reach,
                    #[trigger] ranges@[e],
                ),
            r == touch_link(comps, prints@),
            f.wf(),
            f.size() == comps.len(),
            rooted(r, f.roots()),
            raster::grid_sound(comps.region@, ranges@, grid@),
            forall|e: int|
                0 <= e < c ==> #[trigger] placed(
                    comps,
                    prints@,
                    ranges@,
                    grid@,
                    f.roots(),
                    e,
                    c as int,
                ),
        decreases n - c,
    {
        let ghost f1 = f.roots();
        let ghost g1 = grid@;
        if comps.woody[c] && !prints[c].large {
            settle_small(comps, prints, grids, &ranges, &grid, &mut f, c as u32);
            let ghost f2 = f.roots();
            raster::enter(&comps.region, ranges.as_slice(), &mut grid, c as u32);
            proof {
                assert forall|e: int| 0 <= e < c + 1 implies #[trigger] placed(
                    comps,
                    prints@,
                    ranges@,
                    grid@,
                    f.roots(),
                    e,
                    c + 1,
                ) by {
                    if e < c {
                        assert(placed(comps, prints@, ranges@, g1, f1, e, c as int));
                    }
                    if comps.woody@[e] && !prints@[e].large {
                        if e < c {
                            raster::entered_stays(
                                g1,
                                grid@,
                                comps.region@[e],
                                ranges@[e],
                                e as u32,
                            );
                            let d = e as u32;
                            assert(raster::entered(
                                g1,
                                comps.region@[d as int],
                                ranges@[d as int],
                                d,
                            ));
                            assert(settled(comps, prints@, f.roots(), c as int, e));
                        }
                        assert forall|d: int|
                            0 <= d < c + 1 && comps.woody@[d] && !prints@[d].large implies #[trigger] settled(
                        comps, prints@, f.roots(), e, d) by {
                            if d < c {
                                assert(placed(comps, prints@, ranges@, g1, f1, d, c as int));
                                if e < c {
                                    assert(settled(comps, prints@, f1, e, d));
                                } else {
                                    let q = d as u32;
                                    assert(raster::entered(
                                        g1,
                                        comps.region@[q as int],
                                        ranges@[q as int],
                                        q,
                                    ));
                                }
                            }
                        }
                    }
                }
            }
        } else {
            proof {
                assert forall|e: int| 0 <= e < c + 1 implies #[trigger] placed(
                    comps,
                    prints@,
                    ranges@,
                    grid@,
                    f.roots(),
                    e,
                    c + 1,
                ) by {
                    if e < c {
                        assert(placed(comps, prints@, ranges@, g1, f1, e, c as int));
                    }
                }
            }
        }
        c = c + 1;
    }
    proof {
        assert forall|a: int, b: int|
            #![trigger touches(comps, prints@, a, b)]
            touches(comps, prints@, a, b) && !prints@[a].large && !prints@[b].large implies f.roots()[a]
            == f.roots()[b] by {
            assert(placed(comps, prints@, ranges@, grid@, f.roots(), a, n as int));
            assert(settled(comps, prints@, f.roots(), a, b));
        }
    }
    let mut l: usize = 0;
    while l < n
        invariant
            n == comps.len(),
            l <= n,
            comps.wf(),
            prints@.len() == comps.len(),
            r == touch_link(comps, prints@),
            f.wf(),
            f.size() == comps.len(),
            rooted(r, f.roots()),
            forall|a: int, b: int|
                #![trigger touches(comps, prints@, a, b)]
                touches(comps, prints@, a, b) && !prints@[a].large && !prints@[b].large
                    ==> f.roots()[a] == f.roots()[b],
            forall|a: int, b: int|
                #![trigger touches(comps, prints@, a, b)]
                touches(comps, prints@, a, b) && ((prints@[a].large && a < l) || (prints@[b].large
                    && b < l)) ==> f.roots()[a] == f.roots()[b],
        decreases n - l,
    {
        if comps.woody[l] && prints[l].large {
            let mut d: usize = 0;
            while d < n
                invariant
                    n == comps.len(),
                    l < n,
                    d <= n,
                    comps.wf(),
                    prints@.len() == comps.len(),
                    r == touch_link(comps, prints@),
                    f.wf(),
                    f.size() == comps.len(),
                    rooted(r, f.roots()),
                    forall|a: int, b: int|
                        #![trigger touches(comps, prints@, a, b)]
                        touches(comps, prints@, a, b) && !prints@[a].large && !prints@[b].large
                            ==> f.roots()[a] == f.roots()[b],
                    forall|a: int, b: int|
                        #![trigger touches(comps, prints@, a, b)]
                        touches(comps, prints@, a, b) && ((prints@[a].large && a < l) || (
                        prints@[b].large && b < l)) ==> f.roots()[a] == f.roots()[b],
                    forall|e: int|
                        0 <= e < d ==> #[trigger] settled(
                            comps,
                            prints@,
                            f.roots(),
                            l as int,
                            e,
                        ),
                decreases n - d,
            {
                let ghost f1 = f.roots();
                join_touching(comps, prints, &mut f, l as u32, d as u32);
                proof {
                    assert forall|e: int| 0 <= e < d + 1 implies #[trigger] settled(
                        comps,
                        prints@,
                        f.roots(),
                        l as int,
                        e,
                    ) by {
                        if e < d {
                            assert(settled(comps, prints@, f1, l as int, e));
                        }
                    }
                }
                d = d + 1;
            }
            proof {
                assert forall|a: int, b: int|
                    #![trigger touches(comps, prints@, a, b)]
                    touches(comps, prints@, a, b) && (a == l || b == l) implies f.roots()[a]
                    == f.roots()[b] by {
                    assert(settled(comps, prints@, f.roots(), l as int, a));
                    assert(settled(comps, prints@, f.roots(), l as int, b));
                }
            }
        }
        l = l + 1;
    }
    f
}

/// Merge the woody components into plants. The regions' contact grids only
/// narrow down which pairs are compared.
pub fn merge_woody(comps: &Components, prints: &[Footprint], grids: &[ContactGrid]) -> (r:
    WoodyPlants)
    requires
        comps.wf(),
        prints@.len() == comps.len(),
        gridded(comps, grids@),
    ensures
        r.describes(comps, prints@),
        r.len() <= comps.len(),
{
    let mut f: Forest = group_woody(comps, prints, grids);
    let ghost roots = f.roots();
    let ghost link = touch_link(comps, prints@);
    let (ids, count) = f.number(comps.woody.as_slice(), FIELD_PLANT);
    let mut plant_region: Vec<u32> = Vec::with_capacity(count as usize);
    let mut p: u32 = 0;
    while p < count
        invariant
            p <= count,
            plant_region@.len() == p,
        decreases count - p,
    {
        plant_region.push(0);
        p = p + 1;
    }
    proof {
        assert forall|c: int, d: int|
            #![trigger ids@[c], ids@[d]]
            0 <= c < ids@.len() && 0 <= d < ids@.len() && comps.woody@[c]
                && comps.woody@[d] implies {
            &&& (ids@[c] == ids@[d] <==> forest::connected(link, c, d))
            &&& ids@[c] == ids@[d] ==> comps.region@[c] == comps.region@[d]
        } by {
            if roots[c] == roots[d] {
                assert(forest::connected(link, c, roots[c]));
                assert(forest::connected(link, d, roots[d]));
                forest::connected_sym(link, d, roots[d]);
                forest::connected_trans(link, c, roots[c], d);
            }
            if forest::connected(link, c, d) {
                let label = |i: int| roots[i];
                assert forall|a: int, b: int| #[trigger] link(a, b) implies label(a)
                    == label(b) by {
                    assert(touches(comps, prints@, a, b));
                }
                forest::connected_label(link, label, c, d);
                assert(label(c) == roots[c]);
                assert(label(d) == roots[d]);
                let region = |i: int| comps.region@[i] as int;
                assert forall|a: int, b: int| #[trigger] link(a, b) implies region(a)
                    == region(b) by {
                    assert(touches(comps, prints@, a, b));
                }
                forest::connected_label(link, region, c, d);
                assert(region(c) == comps.region@[c]);
                assert(region(d) == comps.region@[d]);
            }
        }
    }
    let mut c: usize = 0;
    while c < ids.len()
        invariant
            c <= ids@.len(),
            comps.wf(),
            ids@.len() == comps.len(),
            plant_region@.len() == count,
            forall|e: int| 0 <= e < ids@.len() ==> (#[trigger] ids@[e] != FIELD_PLANT <==> comps.woody@[e]),
            forall|e: int| 0 <= e < ids@.len() && #[trigger] ids@[e] != FIELD_PLANT ==> ids@[e] < count,
            forall|e: int, d: int|
                #![trigger ids@[e], ids@[d]]
                0 <= e < ids@.len() && 0 <= d < ids@.len() && comps.woody@[e] && comps.woody@[d]
                    && ids@[e] == ids@[d] ==> comps.region@[e] == comps.region@[d],
            forall|e: int|
                0 <= e < c && #[trigger] ids@[e] != FIELD_PLANT ==> plant_region@[ids@[e] as int]
                    == comps.region@[e],
        decreases ids@.len() - c,
    {
        if comps.woody[c] {
            let id: u32 = ids[c];
            assert(ids@[c as int] < count);
            plant_region.set(id as usize, comps.region[c]);
        }
        c = c + 1;
    }
    WoodyPlants { plant_of_comp: ids, plant_region }
}

/// The woody plants of a component set are determined: two lists of them agree
/// in every entry.
pub proof fn woody_plants_are_determined(
    a: WoodyPlants,
    b: WoodyPlants,
    comps: &Components,
    prints: Seq<Footprint>,
)
    requires
        a.describes(comps, prints),
        b.describes(comps, prints),
        a.len() <= FIELD_PLANT,
        b.len() <= FIELD_PLANT,
    ensures
        a.plant_of_comp@ == b.plant_of_comp@,
        a.plant_region@ == b.plant_region@,
{
    let (x, y) = (a.plant_of_comp@, b.plant_of_comp@);
    assert forall|c: int| 0 <= c < x.len() implies (#[trigger] x[c] == FIELD_PLANT <==> y[c]
        == FIELD_PLANT) by {
        assert(y[c] != FIELD_PLANT <==> comps.woody@[c]);
    }
    assert forall|c: int, d: int|
        #![trigger x[c], x[d]]
        0 <= c < x.len() && 0 <= d < x.len() && x[c] != FIELD_PLANT && x[d]
            != FIELD_PLANT implies (x[c] == x[d] <==> y[c] == y[d]) by {
        assert(y[c] == y[d] <==> forest::connected(touch_link(comps, prints), c, d));
    }
    tally::numberings_agree(x, y, FIELD_PLANT, a.len(), b.len());
    assert forall|p: int| 0 <= p < a.len() implies #[trigger] a.plant_region@[p]
        == b.plant_region@[p] by {
        assert(x.contains(p as u32));
        let c = choose|c: int| 0 <= c < x.len() && x[c] == p as u32;
        assert(x[c] != FIELD_PLANT && y[c] != FIELD_PLANT);
    }
    assert(a.plant_region@ =~= b.plant_region@);
}

/// The reach boxes of two components have a point in common.
pub open spec fn boxes_meet(prints: Seq<Footprint>, c: int, d: int) -> bool {
    exists|q: Bits3| #[trigger]
        bits::inside(q, prints[c].reach) && bits::inside(q, prints[d].reach)
}

/// Woody components of one region whose widened boxes have a point in common
/// are parts of one plant, whichever they are.
pub proof fn boxes_that_meet_are_one_plant(
    comps: &Components,
    prints: Seq<Footprint>,
    woody: &WoodyPlants,
    c: int,
    d: int,
    q: Bits3,
)
    requires
        woody.describes(comps, prints),
        0 <= c < comps.len(),
        0 <= d < comps.len(),
        comps.woody@[c],
        comps.woody@[d],
        comps.region@[c] == comps.region@[d],
        bits::le(prints[c].reach.lo.x, q.x) && bits::le(q.x, prints[c].reach.hi.x),
        bits::le(prints[c].reach.lo.y, q.y) && bits::le(q.y, prints[c].reach.hi.y),
        bits::le(prints[c].reach.lo.z, q.z) && bits::le(q.z, prints[c].reach.hi.z),
        bits::le(prints[d].reach.lo.x, q.x) && bits::le(q.x, prints[d].reach.hi.x),
        bits::le(prints[d].reach.lo.y, q.y) && bits::le(q.y, prints[d].reach.hi.y),
        bits::le(prints[d].reach.lo.z, q.z) && bits::le(q.z, prints[d].reach.hi.z),
    ensures
        woody.plant_of_comp@[c] == woody.plant_of_comp@[d],
        woody.plant_of_comp@[c] < woody.plant_region@.len(),
        woody.plant_region@[woody.plant_of_comp@[c] as int] == comps.region@[c],
{
    let link = touch_link(comps, prints);
    bits::overlap_is_a_common_point(prints[c].reach, prints[d].reach, q);
    if c != d {
        assert(touches(comps, prints, c, d));
        assert(link(c, d));
        forest::connected_step(link, c, d);
    }
    assert(woody.plant_of_comp@[c] != FIELD_PLANT);
}

/// A plant is no more than that: from any of its woody components to any other
/// leads a chain of woody components of one region, each of whose boxes meets
/// the next. What is not woody has no plant yet.
pub proof fn plants_hang_together_by_their_boxes(
    comps: &Components,
    prints: Seq<Footprint>,
    woody: &WoodyPlants,
    c: int,
    d: int,
)
    requires
        woody.describes(comps, prints),
        0 <= c < comps.len(),
        0 <= d < comps.len(),
        forall|e: int|
            0 <= e < comps.len() ==> bits::is_point((#[trigger] prints[e]).reach.lo)
                && bits::is_point(prints[e].reach.hi),
    ensures
        !comps.woody@[c] ==> woody.plant_of_comp@[c] == u32::MAX,
        comps.woody@[c] && comps.woody@[d] && woody.plant_of_comp@[c] == woody.plant_of_comp@[d]
            ==> exists|p: Seq<int>|
            #![trigger p.len()]
            p.len() > 0 && p[0] == c && p.last() == d && forall|k: int|
                0 <= k < p.len() - 1 ==> {
                    &&& 0 <= #[trigger] p[k] < comps.len()
                    &&& 0 <= p[k + 1] < comps.len()
                    &&& comps.woody@[p[k]] && comps.woody@[p[k + 1]]
                    &&& comps.region@[p[k]] == comps.region@[p[k + 1]]
                    &&& boxes_meet(prints, p[k], p[k + 1])
                },
{
    let link = touch_link(comps, prints);
    assert(woody.plant_of_comp@[c] != FIELD_PLANT <==> comps.woody@[c]);
    if comps.woody@[c] && comps.woody@[d] && woody.plant_of_comp@[c] == woody.plant_of_comp@[d] {
        assert(forest::connected(link, c, d));
        let p = choose|p: Seq<int>| #[trigger]
            forest::is_chain(link, p) && p[0] == c && p.last() == d;
        assert forall|k: int| 0 <= k < p.len() - 1 implies {
            &&& 0 <= #[trigger] p[k] < comps.len()
            &&& 0 <= p[k + 1] < comps.len()
            &&& comps.woody@[p[k]] && comps.woody@[p[k + 1]]
            &&& comps.region@[p[k]] == comps.region@[p[k + 1]]
            &&& boxes_meet(prints, p[k], p[k + 1])
        } by {
            let (x, y) = (p[k], p[k + 1]);
            assert(forest::adjacent(link, p[k], p[k + 1]));
            assert(touches(comps, prints, x, y) || touches(comps, prints, y, x));
            let q = prints[x].reach.lo;
            bits::overlap_is_a_common_point(prints[x].reach, prints[y].reach, q);
            bits::overlap_is_a_common_point(prints[y].reach, prints[x].reach, q);
        }
        assert(p.len() > 0);
    }
}

/// Plants are numbered by their first component: the first woody component is
/// in plant 0, and a plant that another component opens has the next number.
pub proof fn plants_are_numbered_in_order(
    comps: &Components,
    prints: Seq<Footprint>,
    woody: &WoodyPlants,
    c: int,
)
    requires
        woody.describes(comps, prints),
        woody.len() < u32::MAX,
        0 <= c < comps.len(),
        comps.woody@[c],
    ensures
        woody.plant_of_comp@[c] > 0 ==> exists|d: int|
            0 <= d < c && #[trigger] woody.plant_of_comp@[d] == woody.plant_of_comp@[c] - 1,
        forall|p: u32|
            p < woody.plant_region@.len() ==> #[trigger] woody.plant_of_comp@.contains(p),
{
    let ids = woody.plant_of_comp@;
    assert(ids[c] != FIELD_PLANT);
    if ids[c] > 0 {
        let head = ids.take(c);
        assert(head.contains((ids[c] - 1) as u32));
        let d = choose|d: int| 0 <= d < head.len() && head[d] == (ids[c] - 1) as u32;
        assert(ids[d] == ids[c] - 1);
    }
}

} // verus!
