//! Sway regions: triangle ranges with their own length frame.
use crate::scene::{Scene, SwayRegion};
use vstd::prelude::*;

verus! {

/// The list is ascending and its ranges are disjoint.
pub open spec fn regions_sorted(rs: Seq<SwayRegion>) -> bool {
    &&& rs.len() <= u32::MAX
    &&& forall|i: int| 0 <= i < rs.len() ==> (#[trigger] rs[i]).tri_start <= rs[i].tri_end
    &&& forall|i: int, j: int|
        #![trigger rs[i], rs[j]]
        0 <= i < j < rs.len() ==> rs[i].tri_end <= rs[j].tri_start
}

/// Triangle `t` lies in the `i`-th range.
pub open spec fn in_region(rs: Seq<SwayRegion>, i: int, t: int) -> bool {
    0 <= i < rs.len() && rs[i].tri_start <= t < rs[i].tri_end
}

/// The region triangle `t` lies in, if any.
pub open spec fn region_at(rs: Seq<SwayRegion>, t: int) -> Option<u32> {
    if exists|i: int| in_region(rs, i, t) {
        Some((choose|i: int| in_region(rs, i, t)) as u32)
    } else {
        None
    }
}

/// In a sorted list a triangle lies in one region at most.
pub proof fn lemma_region_unique(rs: Seq<SwayRegion>, i: int, t: int)
    requires
        regions_sorted(rs),
        in_region(rs, i, t),
    ensures
        region_at(rs, t) == Some(i as u32),
        i <= u32::MAX,
{
    let j = choose|j: int| in_region(rs, j, t);
    assert(in_region(rs, j, t));
    if i < j {
        assert(rs[i].tri_end <= rs[j].tri_start);
    } else if j < i {
        assert(rs[j].tri_end <= rs[i].tri_start);
    }
}

/// Which region a triangle lies in; `None` outside every region.
pub fn region_of(regions: &[SwayRegion], t: u32) -> (r: Option<u32>)
    requires
        regions_sorted(regions@),
    ensures
        r == region_at(regions@, t as int),
        r matches Some(i) ==> in_region(regions@, i as int, t as int),
{
    let mut lo: usize = 0;
    let mut hi: usize = regions.len();
    while lo < hi
        invariant
            0 <= lo <= hi <= regions@.len(),
            regions_sorted(regions@),
            forall|i: int| 0 <= i < lo ==> (#[trigger] regions@[i]).tri_end <= t,
            forall|i: int| hi <= i < regions@.len() ==> t < (#[trigger] regions@[i]).tri_end,
        decreases hi - lo,
    {
        let mid: usize = lo + (hi - lo) / 2;
        if regions[mid].tri_end <= t {
            proof {
                assert forall|i: int| 0 <= i < mid + 1 implies (#[trigger] regions@[i]).tri_end <= t by {
                    if i < mid {
                        assert(regions@[i].tri_end <= regions@[mid as int].tri_start);
                    }
                }
            }
            lo = mid + 1;
        } else {
            proof {
                assert forall|i: int| mid <= i < regions@.len() implies t < (#[trigger] regions@[i]).tri_end by {
                    if mid < i {
                        assert(regions@[mid as int].tri_end <= regions@[i].tri_start);
                    }
                }
            }
            hi = mid;
        }
    }
    if lo < regions.len() && regions[lo].tri_start <= t {
        proof {
            assert(in_region(regions@, lo as int, t as int));
            lemma_region_unique(regions@, lo as int, t as int);
        }
        Some(lo as u32)
    } else {
        proof {
            assert forall|i: int| !in_region(regions@, i, t as int) by {
                if in_region(regions@, i, t as int) {
                    if i < lo {
                        assert(regions@[i].tri_end <= t);
                    } else if lo < i {
                        assert(regions@[lo as int].tri_end <= regions@[i].tri_start);
                    }
                }
            }
        }
        None
    }
}

/// The regions the scene sways by: its own list, or one region over all of it.
pub open spec fn regions_spec(scene: &Scene) -> Seq<SwayRegion> {
    if scene.sway_regions@.len() == 0 {
        seq![
            SwayRegion {
                tri_start: 0,
                tri_end: scene.indices@.len() as u32,
                cmin: scene.content_min,
                cmax: scene.content_max,
            },
        ]
    } else {
        scene.sway_regions@
    }
}

/// The scene's region list, with the whole-scene fallback.
pub fn regions_of(scene: &Scene) -> (r: Vec<SwayRegion>)
    requires
        scene.indices@.len() <= u32::MAX,
    ensures
        r@ == regions_spec(scene),
{
    if scene.sway_regions.len() == 0 {
        let mut r: Vec<SwayRegion> = Vec::new();
        r.push(
            SwayRegion {
                tri_start: 0,
                tri_end: scene.indices.len() as u32,
                cmin: scene.content_min,
                cmax: scene.content_max,
            },
        );
        r
    } else {
        let mut r: Vec<SwayRegion> = Vec::new();
        let mut i: usize = 0;
        while i < scene.sway_regions.len()
            invariant
                i <= scene.sway_regions@.len(),
                r@ == scene.sway_regions@.take(i as int),
            decreases scene.sway_regions@.len() - i,
        {
            r.push(scene.sway_regions[i]);
            i = i + 1;
        }
        assert(scene.sway_regions@.take(i as int) == scene.sway_regions@);
        r
    }
}

/// A scene without a region list behaves as if it listed one region over all
/// its triangles: every triangle is in region 0.
pub proof fn implicit_region_covers_all(scene: &Scene, t: int)
    requires
        scene.sway_regions@.len() == 0,
        scene.indices@.len() <= u32::MAX,
        0 <= t < scene.indices@.len(),
    ensures
        regions_sorted(regions_spec(scene)),
        region_at(regions_spec(scene), t) == Some(0u32),
{
    let rs = regions_spec(scene);
    assert(in_region(rs, 0, t));
    lemma_region_unique(rs, 0, t);
}

} // verus!
