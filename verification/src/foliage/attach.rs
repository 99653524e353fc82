//! Attaching leaf components to the plants they touch.
use crate::bits;
use crate::foliage::components::Components;
use crate::foliage::merge::{WoodyPlants, FIELD_PLANT};
use crate::foliage::raster;
use crate::foliage::voxels;
use crate::foliage::voxels::VoxRange;
use crate::tally;
use std::collections::HashMap;
use vstd::prelude::*;

verus! {

broadcast use vstd::std_specs::hash::group_hash_axioms;

/// What a leaf component reaches on its region's candidate grid. A large one
/// is not rasterized: every plant of its region is a candidate.
#[derive(Clone, Copy, Debug, PartialEq, Eq, Structural)]
pub struct LeafPrint {
    pub large: bool,
    pub voxels: VoxRange,
}

/// Plant `p` is worth an exact contact test against leaf component `c`.
pub open spec fn is_candidate(
    comps: &Components,
    woody: &WoodyPlants,
    leaves: Seq<LeafPrint>,
    plants: Seq<VoxRange>,
    c: int,
    p: int,
) -> bool {
    &&& 0 <= p < woody.len()
    &&& woody.plant_region@[p] == comps.region@[c]
    &&& leaves[c].large || voxels::share_voxel(leaves[c].voxels, plants[p])
}

/// The list holds exactly the candidates of component `c`, ascending; a woody
/// component has none.
pub open spec fn lists_candidates(
    comps: &Components,
    woody: &WoodyPlants,
    leaves: Seq<LeafPrint>,
    plants: Seq<VoxRange>,
    c: int,
    list: Seq<u32>,
) -> bool {
    &&& tally::ascending(list)
    &&& forall|p: u32| #[trigger]
        list.contains(p) <==> (!comps.woody@[c] && is_candidate(
            comps,
            woody,
            leaves,
            plants,
            c,
            p as int,
        ))
}

/// For every leaf component, the plants worth an exact contact test: those of
/// its region that share a candidate voxel with it, or all of its region's
/// where the component is large.
pub fn leaf_candidates(
    comps: &Components,
    woody: &WoodyPlants,
    leaves: &[LeafPrint],
    plants: &[VoxRange],
) -> (r: Vec<Vec<u32>>)
    requires
        comps.wf(),
        leaves@.len() == comps.len(),
        plants@.len() == woody.len(),
        woody.len() < u32::MAX,
    ensures
        r@.len() == comps.len(),
        forall|c: int|
            0 <= c < comps.len() ==> lists_candidates(
                comps,
                woody,
                leaves@,
                plants@,
                c,
                #[trigger] r@[c]@,
            ),
{
    let mut grid: HashMap<u128, Vec<u32>> = HashMap::new();
    let n_plants: usize = woody.plant_region.len();
    let mut p: usize = 0;
    while p < n_plants
        invariant
            n_plants == woody.len(),
            p <= n_plants,
            n_plants < u32::MAX,
            plants@.len() == woody.len(),
            raster::grid_sound(woody.plant_region@, plants@, grid@),
            forall|q: u32|
                q < p ==> #[trigger] raster::entered(
                    grid@,
                    woody.plant_region@[q as int],
                    plants@[q as int],
                    q,
                ),
        decreases n_plants - p,
    {
        let ghost g0 = grid@;
        raster::enter(&woody.plant_region, plants, &mut grid, p as u32);
        proof {
            assert forall|q: u32| q < p + 1 implies #[trigger] raster::entered(
                grid@,
                woody.plant_region@[q as int],
                plants@[q as int],
                q,
            ) by {
                if q < p {
                    raster::entered_stays(
                        g0,
                        grid@,
                        woody.plant_region@[q as int],
                        plants@[q as int],
                        q,
                    );
                }
            }
        }
        p = p + 1;
    }
    let n: usize = comps.tris.len();
    let mut r: Vec<Vec<u32>> = Vec::with_capacity(n);
    let mut c: usize = 0;
    while c < n
        invariant
            n == comps.len(),
            c <= n,
            comps.wf(),
            n_plants == woody.len(),
            n_plants < u32::MAX,
            leaves@.len() == comps.len(),
            plants@.len() == woody.len(),
            raster::grid_sound(woody.plant_region@, plants@, grid@),
            forall|q: u32|
                q < n_plants ==> #[trigger] raster::entered(
                    grid@,
                    woody.plant_region@[q as int],
                    plants@[q as int],
                    q,
                ),
            r@.len() == c,
            forall|e: int|
                0 <= e < c ==> lists_candidates(
                    comps,
                    woody,
                    leaves@,
                    plants@,
                    e,
                    #[trigger] r@[e]@,
                ),
        decreases n - c,
    {
        let mut list: Vec<u32> = Vec::new();
        if !comps.woody[c] {
            let region: u32 = comps.region[c];
            if leaves[c].large {
                let mut q: u32 = 0;
                while (q as usize) < n_plants
                    invariant
                        n_plants == woody.len(),
                        n_plants < u32::MAX,
                        q <= n_plants,
                        c < comps.len(),
                        region == comps.region@[c as int],
                        tally::ascending(list@),
                        forall|i: int| 0 <= i < list@.len() ==> #[trigger] list@[i] < q,
                        forall|w: u32| #[trigger]
                            list@.contains(w) <==> (w < q && woody.plant_region@[w as int]
                                == region),
                    decreases n_plants - q,
                {
                    if woody.plant_region[q as usize] == region {
                        let ghost l0 = list@;
                        list.push(q);
                        proof {
                            assert(list@[l0.len() as int] == q);
                            assert forall|w: u32| #[trigger] list@.contains(w) <==> (w < q + 1
                                && woody.plant_region@[w as int] == region) by {
                                if l0.contains(w) {
                                    assert(list@[l0.index_of(w)] == w);
                                }
                                if list@.contains(w) {
                                    let i = list@.index_of(w);
                                    if i < l0.len() {
                                        assert(l0[i] == w);
                                    }
                                }
                            }
                        }
                    }
                    q = q + 1;
                }
            } else {
                list = raster::gather(&grid, region, leaves[c].voxels);
                proof {
                    assert forall|q: u32| #[trigger] list@.contains(q) <==> is_candidate(
                        comps,
                        woody,
                        leaves@,
                        plants@,
                        c as int,
                        q as int,
                    ) by {
                        raster::gathered_share_a_voxel(
                            woody.plant_region@,
                            plants@,
                            grid@,
                            region,
                            leaves@[c as int].voxels,
                            list@,
                            q,
                        );
                        if q < woody.len() {
                            assert(raster::entered(
                                grid@,
                                woody.plant_region@[q as int],
                                plants@[q as int],
                                q,
                            ));
                        }
                    }
                }
            }
        }
        r.push(list);
        c = c + 1;
    }
    r
}

/// Entry `i` is the best contact: a positive overlap volume, larger than every
/// positive one before it and not exceeded by any after it.
pub open spec fn is_best(vols: Seq<u32>, i: int) -> bool {
    &&& 0 <= i < vols.len()
    &&& bits::lt(0, vols[i])
    &&& forall|j: int| 0 <= j < i && bits::lt(0, #[trigger] vols[j]) ==> bits::lt(vols[j], vols[i])
    &&& forall|j: int| i < j < vols.len() ==> !bits::lt(vols[i], #[trigger] vols[j])
}

/// Where the component goes: to the candidate of best contact, or, where no
/// overlap volume is positive, to no plant.
pub open spec fn attaches_to(cand: Seq<u32>, vols: Seq<u32>, plant: u32) -> bool {
    if exists|i: int| 0 <= i < vols.len() && bits::lt(0, #[trigger] vols[i]) {
        exists|i: int| #[trigger] is_best(vols, i) && plant == cand[i]
    } else {
        plant == FIELD_PLANT
    }
}

/// The candidate of largest positive overlap volume (the first of equals).
pub fn best_contact(cand: &[u32], vols: &[u32]) -> (plant: u32)
    requires
        cand@.len() == vols@.len(),
    ensures
        attaches_to(cand@, vols@, plant),
{
    let mut best: Option<usize> = None;
    let mut i: usize = 0;
    while i < vols.len()
        invariant
            i <= vols@.len(),
            match best {
                None => forall|j: int| 0 <= j < i ==> !bits::lt(0, #[trigger] vols@[j]),
                Some(b) => {
                    &&& b < i
                    &&& bits::lt(0, vols@[b as int])
                    &&& forall|j: int|
                        0 <= j < b && bits::lt(0, #[trigger] vols@[j]) ==> bits::lt(
                            vols@[j],
                            vols@[b as int],
                        )
                    &&& forall|j: int|
                        b < j < i ==> !bits::lt(vols@[b as int], #[trigger] vols@[j])
                },
            },
        decreases vols@.len() - i,
    {
        let better: bool = match best {
            None => true,
            Some(b) => bits::is_lt(vols[b], vols[i]),
        };
        if bits::is_lt(0, vols[i]) && better {
            best = Some(i);
        }
        i = i + 1;
    }
    match best {
        None => FIELD_PLANT,
        Some(b) => {
            assert(is_best(vols@, b as int));
            cand[b]
        },
    }
}

/// Give every leaf component its plant; woody components keep theirs.
pub fn attach_leaves(
    comps: &Components,
    woody: &WoodyPlants,
    cands: &[Vec<u32>],
    vols: &[Vec<u32>],
) -> (r: Vec<u32>)
    requires
        comps.wf(),
        woody.plant_of_comp@.len() == comps.len(),
        cands@.len() == comps.len(),
        vols@.len() == comps.len(),
        forall|c: int|
            0 <= c < comps.len() ==> (#[trigger] cands@[c])@.len() == vols@[c]@.len(),
    ensures
        r@.len() == comps.len(),
        forall|c: int|
            0 <= c < comps.len() ==> if comps.woody@[c] {
                #[trigger] r@[c] == woody.plant_of_comp@[c]
            } else {
                attaches_to(cands@[c]@, vols@[c]@, r@[c])
            },
{
    let n: usize = comps.tris.len();
    let mut r: Vec<u32> = Vec::with_capacity(n);
    let mut c: usize = 0;
    while c < n
        invariant
            n == comps.len(),
            c <= n,
            comps.wf(),
            woody.plant_of_comp@.len() == comps.len(),
            cands@.len() == comps.len(),
            vols@.len() == comps.len(),
            forall|e: int|
                0 <= e < comps.len() ==> (#[trigger] cands@[e])@.len() == vols@[e]@.len(),
            r@.len() == c,
            forall|e: int|
                0 <= e < c ==> if comps.woody@[e] {
                    #[trigger] r@[e] == woody.plant_of_comp@[e]
                } else {
                    attaches_to(cands@[e]@, vols@[e]@, r@[e])
                },
        decreases n - c,
    {
        if comps.woody[c] {
            r.push(woody.plant_of_comp[c]);
        } else {
            assert(cands@[c as int]@.len() == vols@[c as int]@.len());
            r.push(best_contact(cands[c].as_slice(), vols[c].as_slice()));
        }
        c = c + 1;
    }
    r
}

/// Leaves only go to plants of their own region: an attached leaf component
/// shares its plant's region.
pub proof fn attach_stays_in_region(
    comps: &Components,
    woody: &WoodyPlants,
    leaves: Seq<LeafPrint>,
    plants: Seq<VoxRange>,
    c: int,
    cand: Seq<u32>,
    vols: Seq<u32>,
    plant: u32,
)
    requires
        lists_candidates(comps, woody, leaves, plants, c, cand),
        cand.len() == vols.len(),
        attaches_to(cand, vols, plant),
        plant != FIELD_PLANT,
    ensures
        plant < woody.len(),
        woody.plant_region@[plant as int] == comps.region@[c],
{
    let i = choose|i: int| #[trigger] is_best(vols, i) && plant == cand[i];
    assert(cand.contains(plant)) by {
        assert(cand[i] == plant);
    }
}

} // verus!
