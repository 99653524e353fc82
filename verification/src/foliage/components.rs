//! Connected components of the swaying triangles.
use crate::bits;
use crate::bits::{Bits3, BitsBox};
use crate::foliage::regions;
use crate::forest;
use crate::forest::Forest;
use crate::scene::{Scene, SwayRegion};
use crate::tally;
use vstd::prelude::*;

verus! {

/// `tri_comp` of a triangle outside every component.
pub const NO_COMP: u32 = u32::MAX;

/// The material of triangle `t` is marked in `mask` (unlisted means unmarked).
pub open spec fn marked(scene: &Scene, mask: Seq<bool>, t: int) -> bool {
    scene.tri_mat@[t] < mask.len() && mask[scene.tri_mat@[t] as int]
}

/// Triangle `t` takes part in sway: marked, and inside some region.
pub open spec fn masked(scene: &Scene, mask: Seq<bool>, rs: Seq<SwayRegion>, t: int) -> bool {
    marked(scene, mask, t) && regions::region_at(rs, t) is Some
}

/// `v` is a corner of triangle `t`.
pub open spec fn corner(scene: &Scene, t: int, v: int) -> bool {
    ||| scene.indices@[t]@[0] == v
    ||| scene.indices@[t]@[1] == v
    ||| scene.indices@[t]@[2] == v
}

/// Two vertices are linked when one swaying triangle has both as corners.
pub open spec fn vertex_link(scene: &Scene, mask: Seq<bool>, rs: Seq<SwayRegion>) -> spec_fn(
    int,
    int,
) -> bool {
    |a: int, b: int|
        exists|t: int|
            0 <= t < scene.tris() && #[trigger] masked(scene, mask, rs, t) && corner(scene, t, a)
                && corner(scene, t, b)
}

/// Two swaying triangles hang together: a chain of shared vertices leads from
/// one to the other.
pub open spec fn together(
    scene: &Scene,
    mask: Seq<bool>,
    rs: Seq<SwayRegion>,
    t: int,
    u: int,
) -> bool {
    forest::connected(
        vertex_link(scene, mask, rs),
        scene.indices@[t]@[0] as int,
        scene.indices@[u]@[0] as int,
    )
}

/// A box after the three corners of triangle `t`, in corner order.
pub open spec fn tri_grown(scene: &Scene, b: BitsBox, t: int) -> BitsBox {
    let p = scene.positions@;
    let i = scene.indices@[t]@;
    bits::grown(bits::grown(bits::grown(b, p[i[0] as int]), p[i[1] as int]), p[i[2] as int])
}

/// The box over the triangles below `n` that carry id `c`, in ascending order.
pub open spec fn member_box(scene: &Scene, ids: Seq<u32>, c: u32, n: int) -> BitsBox
    decreases n,
{
    if n <= 0 {
        bits::empty_box()
    } else {
        let b = member_box(scene, ids, c, n - 1);
        if ids[n - 1] == c {
            tri_grown(scene, b, n - 1)
        } else {
            b
        }
    }
}

/// Some triangle of component `c` below `n` has a woody material.
pub open spec fn has_woody(scene: &Scene, woody: Seq<bool>, ids: Seq<u32>, c: u32, n: int) -> bool {
    exists|t: int| 0 <= t < n && #[trigger] ids[t] == c && marked(scene, woody, t)
}

/// `region` is the region of the first triangle that carries id `c`.
pub open spec fn region_of_first(rs: Seq<SwayRegion>, ids: Seq<u32>, c: u32, region: u32) -> bool {
    exists|f: int|
        #[trigger] tally::first_at(ids, f, c) && Some(region) == regions::region_at(rs, f)
}

/// The tallies of component `c` match the ids: its triangle
/// count, whether a member is woody, and the box over its members.
pub open spec fn tally_holds(
    scene: &Scene,
    woody: Seq<bool>,
    ids: Seq<u32>,
    c: u32,
    tris: u32,
    is_woody: bool,
    b: BitsBox,
) -> bool {
    &&& tris == tally::count_of(ids, c)
    &&& is_woody == has_woody(scene, woody, ids, c, ids.len() as int)
    &&& b == member_box(scene, ids, c, ids.len() as int)
}

/// The tallies of every component match the ids.
pub open spec fn tallied(
    scene: &Scene,
    woody: Seq<bool>,
    ids: Seq<u32>,
    tris: Seq<u32>,
    woodies: Seq<bool>,
    boxes: Seq<BitsBox>,
) -> bool {
    &&& woodies.len() == tris.len()
    &&& boxes.len() == tris.len()
    &&& forall|c: u32|
        c < tris.len() ==> #[trigger] tally_holds(
            scene,
            woody,
            ids,
            c,
            tris[c as int],
            woodies[c as int],
            boxes[c as int],
        )
}

/// Connected components of the swaying triangles, numbered in order of their
/// first triangle.
pub struct Components {
    /// Component of each triangle; `NO_COMP` for a triangle that does not sway.
    pub tri_comp: Vec<u32>,
    /// Triangles per component.
    pub tris: Vec<u32>,
    /// Whether any member triangle is woody.
    pub woody: Vec<bool>,
    /// Region of the component's first triangle.
    pub region: Vec<u32>,
    /// Box over the member triangles' corners.
    pub boxes: Vec<BitsBox>,
}

impl Components {
    /// Number of components.
    pub open spec fn len(&self) -> nat {
        self.tris@.len()
    }

    /// The lists run in parallel and ids are in range.
    pub open spec fn wf(&self) -> bool {
        &&& self.len() < u32::MAX
        &&& self.woody@.len() == self.len()
        &&& self.region@.len() == self.len()
        &&& self.boxes@.len() == self.len()
        &&& forall|t: int|
            0 <= t < self.tri_comp@.len() && #[trigger] self.tri_comp@[t] != NO_COMP ==> self.tri_comp@[t]
                < self.len()
    }

    /// What the components of a scene are.
    pub open spec fn describes(
        &self,
        scene: &Scene,
        mask: Seq<bool>,
        woody: Seq<bool>,
        rs: Seq<SwayRegion>,
    ) -> bool {
        let ids = self.tri_comp@;
        &&& self.wf()
        &&& ids.len() == scene.tris()
        &&& forall|t: int|
            0 <= t < ids.len() ==> (#[trigger] ids[t] != NO_COMP <==> masked(scene, mask, rs, t))
        &&& forall|t: int, u: int|
            #![trigger ids[t], ids[u]]
            0 <= t < ids.len() && 0 <= u < ids.len() && ids[t] != NO_COMP && ids[u] != NO_COMP ==> (
            ids[t] == ids[u] <==> together(scene, mask, rs, t, u))
        &&& tally::numbered(ids, NO_COMP, self.len())
        &&& tallied(scene, woody, ids, self.tris@, self.woody@, self.boxes@)
        &&& forall|c: int|
            0 <= c < self.len() ==> region_of_first(rs, ids, c as u32, #[trigger] self.region@[c])
    }
}

/// Whether the material of triangle `t` is marked.
pub fn is_marked(scene: &Scene, mask: &[bool], t: usize) -> (r: bool)
    requires
        scene.wf(),
        t < scene.tris(),
    ensures
        r == marked(scene, mask@, t as int),
{
    let m: usize = scene.tri_mat[t] as usize;
    m < mask.len() && mask[m]
}

/// Whether triangle `t` takes part in sway.
pub fn is_masked(scene: &Scene, mask: &[bool], regs: &[SwayRegion], t: usize) -> (r: bool)
    requires
        scene.wf(),
        regions::regions_sorted(regs@),
        t < scene.tris(),
    ensures
        r == masked(scene, mask@, regs@, t as int),
{
    is_marked(scene, mask, t) && regions::region_of(regs, t as u32).is_some()
}

/// The grouping says exactly which vertices are connected.
spec fn grouping_exact(
    scene: &Scene,
    mask: Seq<bool>,
    rs: Seq<SwayRegion>,
    roots: Seq<int>,
) -> bool {
    &&& roots.len() == scene.positions@.len()
    &&& forall|v: int|
        0 <= v < roots.len() ==> forest::connected(
            vertex_link(scene, mask, rs),
            v,
            #[trigger] roots[v],
        )
    &&& forall|t: int|
        0 <= t < scene.tris() && #[trigger] masked(scene, mask, rs, t) ==> tri_joined(
            scene,
            roots,
            t,
        )
}

spec fn tri_joined(scene: &Scene, roots: Seq<int>, t: int) -> bool {
    let i = scene.indices@[t]@;
    roots[i[0] as int] == roots[i[1] as int] && roots[i[0] as int] == roots[i[2] as int]
}

proof fn lemma_exact(
    scene: &Scene,
    mask: Seq<bool>,
    rs: Seq<SwayRegion>,
    roots: Seq<int>,
    a: int,
    b: int,
)
    requires
        scene.wf(),
        grouping_exact(scene, mask, rs, roots),
        0 <= a < roots.len(),
        0 <= b < roots.len(),
    ensures
        roots[a] == roots[b] <==> forest::connected(vertex_link(scene, mask, rs), a, b),
{
    let r = vertex_link(scene, mask, rs);
    if roots[a] == roots[b] {
        assert(forest::connected(r, a, roots[a]));
        assert(forest::connected(r, b, roots[b]));
        forest::connected_sym(r, b, roots[b]);
        forest::connected_trans(r, a, roots[a], b);
    }
    if forest::connected(r, a, b) {
        let label = |v: int| roots[v];
        assert forall|x: int, y: int| #[trigger] r(x, y) implies label(x) == label(y) by {
            let t = choose|t: int|
                0 <= t < scene.tris() && #[trigger] masked(scene, mask, rs, t) && corner(scene, t, x)
                    && corner(scene, t, y);
            assert(tri_joined(scene, roots, t));
        }
        forest::connected_label(r, label, a, b);
        assert(label(a) == roots[a]);
        assert(label(b) == roots[b]);
    }
}

/// Group the vertices of the swaying triangles by shared corners.
fn group_vertices(scene: &Scene, mask: &[bool], regs: &[SwayRegion]) -> (f: Forest)
    requires
        scene.wf(),
        regions::regions_sorted(regs@),
    ensures
        f.wf(),
        grouping_exact(scene, mask@, regs@, f.roots()),
{
    let nv: u32 = scene.positions.len() as u32;
    let mut f: Forest = Forest::new(nv);
    let ghost r = vertex_link(scene, mask@, regs@);
    proof {
        assert forall|v: int| 0 <= v < f.roots().len() implies forest::connected(
            r,
            v,
            #[trigger] f.roots()[v],
        ) by {
            forest::connected_refl(r, v);
        }
    }
    let mut t: usize = 0;
    while t < scene.indices.len()
        invariant
            scene.wf(),
            regions::regions_sorted(regs@),
            t <= scene.tris(),
            r == vertex_link(scene, mask@, regs@),
            f.wf(),
            f.roots().len() == scene.positions@.len(),
            forall|v: int|
                0 <= v < f.roots().len() ==> forest::connected(r, v, #[trigger] f.roots()[v]),
            forall|u: int|
                0 <= u < t && #[trigger] masked(scene, mask@, regs@, u) ==> tri_joined(
                    scene,
                    f.roots(),
                    u,
                ),
        decreases scene.tris() - t,
    {
        if is_masked(scene, mask, regs, t) {
            let i0: u32 = scene.indices[t][0];
            let i1: u32 = scene.indices[t][1];
            let i2: u32 = scene.indices[t][2];
            assert(scene.indices@[t as int]@[0] < scene.positions@.len());
            assert(scene.indices@[t as int]@[1] < scene.positions@.len());
            assert(scene.indices@[t as int]@[2] < scene.positions@.len());
            let r0: u32 = f.find(i0);
            let r1: u32 = f.find(i1);
            let r2: u32 = f.find(i2);
            let ghost g0 = f.roots();
            proof {
                f.lemma_roots(i0 as int);
                f.lemma_roots(i1 as int);
                f.lemma_roots(i2 as int);
                assert(masked(scene, mask@, regs@, t as int));
                assert(r(i0 as int, i1 as int));
                assert(r(i0 as int, i2 as int));
                forest::connected_step(r, i0 as int, i1 as int);
                forest::connected_step(r, i0 as int, i2 as int);
                Forest::lemma_link_sound(g0, r, i0 as int, i1 as int);
            }
            f.link(r0, r1);
            let ghost g1 = f.roots();
            if r2 != r1 {
                proof {
                    Forest::lemma_link_sound(g1, r, i0 as int, i2 as int);
                }
                f.link(r0, r2);
            }
            proof {
                assert forall|u: int|
                    0 <= u < t + 1 && #[trigger] masked(scene, mask@, regs@, u) implies tri_joined(
                    scene,
                    f.roots(),
                    u,
                ) by {
                    assert(scene.indices@[u]@[0] < scene.positions@.len());
                    assert(scene.indices@[u]@[1] < scene.positions@.len());
                    assert(scene.indices@[u]@[2] < scene.positions@.len());
                    if u < t {
                        assert(tri_joined(scene, g0, u));
                        assert(tri_joined(scene, g1, u));
                    }
                }
            }
        }
        t = t + 1;
    }
    f
}

/// One more triangle id `y` changes the tallies of component `d` only where
/// `y` is `d`.
proof fn lemma_push(scene: &Scene, woody: Seq<bool>, ids: Seq<u32>, y: u32, d: u32)
    ensures
        tally::count_of(ids.push(y), d) == tally::count_of(ids, d) + if y == d {
            1nat
        } else {
            0nat
        },
        has_woody(scene, woody, ids.push(y), d, ids.len() as int + 1) <==> (has_woody(
            scene,
            woody,
            ids,
            d,
            ids.len() as int,
        ) || (y == d && marked(scene, woody, ids.len() as int))),
        member_box(scene, ids.push(y), d, ids.len() as int + 1) == if y == d {
            tri_grown(scene, member_box(scene, ids, d, ids.len() as int), ids.len() as int)
        } else {
            member_box(scene, ids, d, ids.len() as int)
        },
{
    tally::lemma_count_push(ids, y, d);
    let n = ids.len() as int;
    let pushed = ids.push(y);
    lemma_box_prefix(scene, ids, pushed, d, n);
    if has_woody(scene, woody, ids, d, n) {
        let t = choose|t: int| 0 <= t < n && #[trigger] ids[t] == d && marked(scene, woody, t);
        assert(pushed[t] == d);
    }
    if y == d && marked(scene, woody, n) {
        assert(pushed[n] == d);
    }
    if has_woody(scene, woody, pushed, d, n + 1) {
        let t = choose|t: int|
            0 <= t < n + 1 && #[trigger] pushed[t] == d && marked(scene, woody, t);
        if t < n {
            assert(ids[t] == d);
        }
    }
}

proof fn lemma_box_prefix(scene: &Scene, a: Seq<u32>, b: Seq<u32>, d: u32, n: int)
    requires
        0 <= n <= a.len(),
        n <= b.len(),
        forall|u: int| 0 <= u < n ==> a[u] == b[u],
    ensures
        member_box(scene, a, d, n) == member_box(scene, b, d, n),
    decreases n,
{
    if n > 0 {
        lemma_box_prefix(scene, a, b, d, n - 1);
    }
}

/// An id that does not occur has empty tallies.
proof fn lemma_absent(scene: &Scene, woody: Seq<bool>, ids: Seq<u32>, c: u32, n: int)
    requires
        n == ids.len(),
        forall|u: int| 0 <= u < n ==> ids[u] != c,
    ensures
        tally::count_of(ids, c) == 0,
        !has_woody(scene, woody, ids, c, n),
        member_box(scene, ids, c, n) == bits::empty_box(),
    decreases n,
{
    if n > 0 {
        lemma_absent(scene, woody, ids.drop_last(), c, n - 1);
        lemma_box_prefix(scene, ids.drop_last(), ids, c, n - 1);
    }
}

/// The numbering so far: ids follow the vertex grouping, and `first` lists
/// each component's first triangle in ascending order.
#[verifier::opaque]
spec fn numbering(
    scene: &Scene,
    mask: Seq<bool>,
    rs: Seq<SwayRegion>,
    roots: Seq<int>,
    cor: Seq<u32>,
    ids: Seq<u32>,
    region: Seq<u32>,
    first: Seq<int>,
) -> bool {
    let n = region.len();
    &&& n <= ids.len() <= scene.tris()
    &&& first.len() == n
    &&& cor.len() == roots.len()
    &&& forall|u: int|
        0 <= u < ids.len() ==> (#[trigger] ids[u] != NO_COMP <==> masked(scene, mask, rs, u))
    &&& forall|u: int|
        0 <= u < ids.len() && #[trigger] ids[u] != NO_COMP ==> {
            &&& ids[u] < n
            &&& cor[roots[scene.indices@[u]@[0] as int]] == ids[u]
            &&& first[ids[u] as int] <= u
        }
    &&& forall|c: int|
        0 <= c < n ==> {
            &&& 0 <= #[trigger] first[c] < ids.len()
            &&& ids[first[c]] == c
            &&& Some(region[c]) == regions::region_at(rs, first[c])
        }
    &&& forall|c: int, d: int| 0 <= c < d < n ==> #[trigger] first[c] < #[trigger] first[d]
    &&& forall|v: int|
        0 <= v < roots.len() && #[trigger] cor[v] != NO_COMP ==> {
            &&& cor[v] < n
            &&& v == roots[scene.indices@[first[cor[v] as int]]@[0] as int]
        }
}

/// What the numbering says of the ids handed out so far.
proof fn lemma_numbering_facts(
    scene: &Scene,
    mask: Seq<bool>,
    rs: Seq<SwayRegion>,
    roots: Seq<int>,
    cor: Seq<u32>,
    ids: Seq<u32>,
    region: Seq<u32>,
    first: Seq<int>,
)
    requires
        numbering(scene, mask, rs, roots, cor, ids, region, first),
    ensures
        region.len() <= ids.len(),
        forall|u: int| 0 <= u < ids.len() ==> #[trigger] ids[u] == NO_COMP || ids[u] < region.len(),
        forall|v: int|
            0 <= v < roots.len() ==> #[trigger] cor[v] == NO_COMP || cor[v] < region.len(),
{
    reveal(numbering);
}

/// A triangle that does not sway gets no id.
proof fn lemma_number_skip(
    scene: &Scene,
    mask: Seq<bool>,
    rs: Seq<SwayRegion>,
    roots: Seq<int>,
    cor: Seq<u32>,
    ids: Seq<u32>,
    region: Seq<u32>,
    first: Seq<int>,
)
    requires
        numbering(scene, mask, rs, roots, cor, ids, region, first),
        ids.len() < scene.tris(),
        !masked(scene, mask, rs, ids.len() as int),
    ensures
        numbering(scene, mask, rs, roots, cor, ids.push(NO_COMP), region, first),
{
    reveal(numbering);
    let after = ids.push(NO_COMP);
    assert forall|c: int| 0 <= c < region.len() implies {
        &&& 0 <= #[trigger] first[c] < after.len()
        &&& after[first[c]] == c
        &&& Some(region[c]) == regions::region_at(rs, first[c])
    } by {
        assert(ids[first[c]] == c);
    }
}

/// A triangle on a known root takes its id.
proof fn lemma_number_old(
    scene: &Scene,
    mask: Seq<bool>,
    rs: Seq<SwayRegion>,
    roots: Seq<int>,
    cor: Seq<u32>,
    ids: Seq<u32>,
    region: Seq<u32>,
    first: Seq<int>,
)
    requires
        numbering(scene, mask, rs, roots, cor, ids, region, first),
        ids.len() < scene.tris(),
        masked(scene, mask, rs, ids.len() as int),
        0 <= scene.indices@[ids.len() as int]@[0] < roots.len(),
        0 <= roots[scene.indices@[ids.len() as int]@[0] as int] < roots.len(),
        cor[roots[scene.indices@[ids.len() as int]@[0] as int]] != NO_COMP,
    ensures
        numbering(
            scene,
            mask,
            rs,
            roots,
            cor,
            ids.push(cor[roots[scene.indices@[ids.len() as int]@[0] as int]]),
            region,
            first,
        ),
{
    reveal(numbering);
    let c0 = cor[roots[scene.indices@[ids.len() as int]@[0] as int]];
    let after = ids.push(c0);
    assert forall|c: int| 0 <= c < region.len() implies {
        &&& 0 <= #[trigger] first[c] < after.len()
        &&& after[first[c]] == c
        &&& Some(region[c]) == regions::region_at(rs, first[c])
    } by {
        assert(ids[first[c]] == c);
    }
    assert(0 <= first[c0 as int] < ids.len());
}

/// A triangle on a new root opens the next id.
proof fn lemma_number_new(
    scene: &Scene,
    mask: Seq<bool>,
    rs: Seq<SwayRegion>,
    roots: Seq<int>,
    cor: Seq<u32>,
    ids: Seq<u32>,
    region: Seq<u32>,
    first: Seq<int>,
    reg: u32,
)
    requires
        scene.wf(),
        numbering(scene, mask, rs, roots, cor, ids, region, first),
        ids.len() < scene.tris(),
        masked(scene, mask, rs, ids.len() as int),
        roots.len() == scene.positions@.len(),
        forall|v: int| 0 <= v < roots.len() ==> 0 <= #[trigger] roots[v] < roots.len(),
        cor[roots[scene.indices@[ids.len() as int]@[0] as int]] == NO_COMP,
        Some(reg) == regions::region_at(rs, ids.len() as int),
    ensures
        numbering(
            scene,
            mask,
            rs,
            roots,
            cor.update(
                roots[scene.indices@[ids.len() as int]@[0] as int],
                region.len() as u32,
            ),
            ids.push(region.len() as u32),
            region.push(reg),
            first.push(ids.len() as int),
        ),
{
    reveal(numbering);
    let t = ids.len() as int;
    let root = roots[scene.indices@[t]@[0] as int];
    let c0 = region.len() as u32;
    let cor2 = cor.update(root, c0);
    let ids2 = ids.push(c0);
    let first2 = first.push(t);
    let region2 = region.push(reg);
    assert forall|u: int| 0 <= u < ids2.len() && #[trigger] ids2[u] != NO_COMP implies {
        &&& ids2[u] < region2.len()
        &&& cor2[roots[scene.indices@[u]@[0] as int]] == ids2[u]
        &&& first2[ids2[u] as int] <= u
    } by {
        assert(scene.indices@[u]@[0] < scene.positions@.len());
        if u < t {
            assert(ids[u] != NO_COMP);
            assert(cor[roots[scene.indices@[u]@[0] as int]] == ids[u]);
        }
    }
    assert forall|c: int| 0 <= c < region2.len() implies {
        &&& 0 <= #[trigger] first2[c] < ids2.len()
        &&& ids2[first2[c]] == c
        &&& Some(region2[c]) == regions::region_at(rs, first2[c])
    } by {
        if c < region.len() {
            assert(ids[first[c]] == c);
        }
    }
    assert forall|v: int| 0 <= v < roots.len() && #[trigger] cor2[v] != NO_COMP implies {
        &&& cor2[v] < region2.len()
        &&& v == roots[scene.indices@[first2[cor2[v] as int]]@[0] as int]
    } by {
        if v != root {
            assert(cor[v] != NO_COMP);
        }
    }
}

proof fn lemma_finish(
    scene: &Scene,
    mask: Seq<bool>,
    rs: Seq<SwayRegion>,
    roots: Seq<int>,
    cor: Seq<u32>,
    ids: Seq<u32>,
    region: Seq<u32>,
    first: Seq<int>,
)
    requires
        scene.wf(),
        grouping_exact(scene, mask, rs, roots),
        numbering(scene, mask, rs, roots, cor, ids, region, first),
        ids.len() == scene.tris(),
        forall|v: int| 0 <= v < roots.len() ==> 0 <= #[trigger] roots[v] < roots.len(),
    ensures
        region.len() <= ids.len(),
        forall|t: int|
            0 <= t < ids.len() ==> (#[trigger] ids[t] != NO_COMP <==> masked(scene, mask, rs, t)),
        forall|t: int, u: int|
            #![trigger ids[t], ids[u]]
            0 <= t < ids.len() && 0 <= u < ids.len() && ids[t] != NO_COMP && ids[u] != NO_COMP ==> (
            ids[t] == ids[u] <==> together(scene, mask, rs, t, u)),
        tally::numbered(ids, NO_COMP, region.len()),
        forall|c: int|
            0 <= c < region.len() ==> region_of_first(rs, ids, c as u32, #[trigger] region[c]),
{
    reveal(numbering);
    assert forall|t: int, u: int|
        #![trigger ids[t], ids[u]]
        0 <= t < ids.len() && 0 <= u < ids.len() && ids[t] != NO_COMP && ids[u]
            != NO_COMP implies (ids[t] == ids[u] <==> together(scene, mask, rs, t, u)) by {
        let a = scene.indices@[t]@[0] as int;
        let b = scene.indices@[u]@[0] as int;
        assert(scene.indices@[t]@[0] < scene.positions@.len());
        assert(scene.indices@[u]@[0] < scene.positions@.len());
        lemma_exact(scene, mask, rs, roots, a, b);
        assert(cor[roots[a]] == ids[t]);
        assert(cor[roots[b]] == ids[u]);
    }
    assert forall|c: u32| c < region.len() && c != NO_COMP implies #[trigger] ids.contains(c) by {
        assert(ids[first[c as int]] == c);
    }
    assert forall|t: int|
        0 <= t < ids.len() && #[trigger] ids[t] != NO_COMP && ids[t] > 0 implies ids.take(
        t,
    ).contains((ids[t] - 1) as u32) by {
        let c = (ids[t] - 1) as int;
        assert(first[c] < first[c + 1]);
        assert(ids.take(t)[first[c]] == c);
    }
    assert forall|c: int| 0 <= c < region.len() implies region_of_first(
        rs,
        ids,
        c as u32,
        #[trigger] region[c],
    ) by {
        let f = first[c];
        assert forall|u: int| 0 <= u < f implies #[trigger] ids[u] != c as u32 by {
            if ids[u] == c as u32 {
                assert(first[ids[u] as int] <= u);
            }
        }
        assert(tally::first_at(ids, f, c as u32));
    }
}

/// The tallies after triangle `ids.len()` joins component `c`.
proof fn lemma_tallied_join(
    scene: &Scene,
    woody: Seq<bool>,
    ids: Seq<u32>,
    tris: Seq<u32>,
    woodies: Seq<bool>,
    boxes: Seq<BitsBox>,
    c: u32,
)
    requires
        tallied(scene, woody, ids, tris, woodies, boxes),
        c < tris.len(),
        tris[c as int] < u32::MAX,
    ensures
        tallied(
            scene,
            woody,
            ids.push(c),
            tris.update(c as int, (tris[c as int] + 1) as u32),
            woodies.update(
                c as int,
                woodies[c as int] || marked(scene, woody, ids.len() as int),
            ),
            boxes.update(c as int, tri_grown(scene, boxes[c as int], ids.len() as int)),
        ),
{
    let tris2 = tris.update(c as int, (tris[c as int] + 1) as u32);
    let woodies2 = woodies.update(
        c as int,
        woodies[c as int] || marked(scene, woody, ids.len() as int),
    );
    let boxes2 = boxes.update(c as int, tri_grown(scene, boxes[c as int], ids.len() as int));
    assert forall|d: u32| d < tris2.len() implies #[trigger] tally_holds(
        scene,
        woody,
        ids.push(c),
        d,
        tris2[d as int],
        woodies2[d as int],
        boxes2[d as int],
    ) by {
        assert(tally_holds(
            scene,
            woody,
            ids,
            d,
            tris[d as int],
            woodies[d as int],
            boxes[d as int],
        ));
        lemma_push(scene, woody, ids, c, d);
    }
}

/// A triangle without a component leaves the tallies alone.
proof fn lemma_tallied_skip(
    scene: &Scene,
    woody: Seq<bool>,
    ids: Seq<u32>,
    tris: Seq<u32>,
    woodies: Seq<bool>,
    boxes: Seq<BitsBox>,
)
    requires
        tallied(scene, woody, ids, tris, woodies, boxes),
        tris.len() < NO_COMP,
    ensures
        tallied(scene, woody, ids.push(NO_COMP), tris, woodies, boxes),
{
    assert forall|d: u32| d < tris.len() implies #[trigger] tally_holds(
        scene,
        woody,
        ids.push(NO_COMP),
        d,
        tris[d as int],
        woodies[d as int],
        boxes[d as int],
    ) by {
        assert(tally_holds(
            scene,
            woody,
            ids,
            d,
            tris[d as int],
            woodies[d as int],
            boxes[d as int],
        ));
        lemma_push(scene, woody, ids, NO_COMP, d);
    }
}

/// A fresh component starts with empty tallies.
proof fn lemma_tallied_open(
    scene: &Scene,
    woody: Seq<bool>,
    ids: Seq<u32>,
    tris: Seq<u32>,
    woodies: Seq<bool>,
    boxes: Seq<BitsBox>,
)
    requires
        tallied(scene, woody, ids, tris, woodies, boxes),
        tris.len() < NO_COMP,
        forall|u: int| 0 <= u < ids.len() ==> #[trigger] ids[u] == NO_COMP || ids[u] < tris.len(),
    ensures
        tallied(
            scene,
            woody,
            ids,
            tris.push(0),
            woodies.push(false),
            boxes.push(bits::empty_box()),
        ),
{
    lemma_absent(scene, woody, ids, tris.len() as u32, ids.len() as int);
    let tris2 = tris.push(0);
    let woodies2 = woodies.push(false);
    let boxes2 = boxes.push(bits::empty_box());
    assert forall|d: u32| d < tris2.len() implies #[trigger] tally_holds(
        scene,
        woody,
        ids,
        d,
        tris2[d as int],
        woodies2[d as int],
        boxes2[d as int],
    ) by {
        if d < tris.len() {
            assert(tally_holds(
                scene,
                woody,
                ids,
                d,
                tris[d as int],
                woodies[d as int],
                boxes[d as int],
            ));
        }
    }
}

/// Split the swaying triangles into components: two belong together when a
/// chain of shared vertices of swaying triangles leads from one to the other.
pub fn components(scene: &Scene, mask: &[bool], woody_mat: &[bool], regs: &[SwayRegion]) -> (r:
    Components)
    requires
        scene.wf(),
        regions::regions_sorted(regs@),
    ensures
        r.describes(scene, mask@, woody_mat@, regs@),
{
    let mut f: Forest = group_vertices(scene, mask, regs);
    let ghost roots = f.roots();
    let n: usize = scene.indices.len();
    let mut comp_of_root: Vec<u32> = Vec::with_capacity(scene.positions.len());
    let mut v: usize = 0;
    while v < scene.positions.len()
        invariant
            v <= scene.positions@.len(),
            comp_of_root@.len() == v,
            forall|k: int| 0 <= k < v ==> comp_of_root@[k] == NO_COMP,
        decreases scene.positions@.len() - v,
    {
        comp_of_root.push(NO_COMP);
        v = v + 1;
    }
    let mut out: Components = Components {
        tri_comp: Vec::with_capacity(n),
        tris: Vec::new(),
        woody: Vec::new(),
        region: Vec::new(),
        boxes: Vec::new(),
    };
    let ghost mut first: Seq<int> = Seq::empty();
    proof {
        reveal(numbering);
        assert forall|v: int| 0 <= v < roots.len() implies 0 <= #[trigger] roots[v] < roots.len() by {
            f.lemma_roots(v);
        }
    }
    let mut t: usize = 0;
    while t < n
        invariant
            scene.wf(),
            regions::regions_sorted(regs@),
            n == scene.tris(),
            t <= n,
            f.wf(),
            f.roots() == roots,
            roots.len() == scene.positions@.len(),
            comp_of_root@.len() == roots.len(),
            forall|v: int| 0 <= v < roots.len() ==> 0 <= #[trigger] roots[v] < roots.len(),
            out.tri_comp@.len() == t,
            out.region@.len() == out.tris@.len(),
            numbering(
                scene,
                mask@,
                regs@,
                roots,
                comp_of_root@,
                out.tri_comp@,
                out.region@,
                first,
            ),
            tallied(scene, woody_mat@, out.tri_comp@, out.tris@, out.woody@, out.boxes@),
        decreases n - t,
    {
        let ghost ids0 = out.tri_comp@;
        proof {
            lemma_numbering_facts(
                scene,
                mask@,
                regs@,
                roots,
                comp_of_root@,
                ids0,
                out.region@,
                first,
            );
        }
        if is_masked(scene, mask, regs, t) {
            let i0: u32 = scene.indices[t][0];
            let i1: u32 = scene.indices[t][1];
            let i2: u32 = scene.indices[t][2];
            assert(scene.indices@[t as int]@[0] < scene.positions@.len());
            assert(scene.indices@[t as int]@[1] < scene.positions@.len());
            assert(scene.indices@[t as int]@[2] < scene.positions@.len());
            let root: u32 = f.find(i0);
            if comp_of_root[root as usize] == NO_COMP {
                let c: u32 = out.tris.len() as u32;
                let reg: u32 = regions::region_of(regs, t as u32).unwrap();
                proof {
                    lemma_number_new(
                        scene,
                        mask@,
                        regs@,
                        roots,
                        comp_of_root@,
                        ids0,
                        out.region@,
                        first,
                        reg,
                    );
                    lemma_tallied_open(
                        scene,
                        woody_mat@,
                        ids0,
                        out.tris@,
                        out.woody@,
                        out.boxes@,
                    );
                    first = first.push(t as int);
                }
                comp_of_root.set(root as usize, c);
                out.tris.push(0);
                out.woody.push(false);
                out.region.push(reg);
                out.boxes.push(bits::new_box());
            } else {
                proof {
                    lemma_number_old(
                        scene,
                        mask@,
                        regs@,
                        roots,
                        comp_of_root@,
                        ids0,
                        out.region@,
                        first,
                    );
                }
            }
            let c: u32 = comp_of_root[root as usize];
            proof {
                tally::lemma_count_bound(ids0, c);
                assert(tally_holds(
                    scene,
                    woody_mat@,
                    ids0,
                    c,
                    out.tris@[c as int],
                    out.woody@[c as int],
                    out.boxes@[c as int],
                ));
                lemma_tallied_join(
                    scene,
                    woody_mat@,
                    ids0,
                    out.tris@,
                    out.woody@,
                    out.boxes@,
                    c,
                );
            }
            let b: BitsBox = out.boxes[c as usize];
            let p0: Bits3 = scene.positions[i0 as usize];
            let p1: Bits3 = scene.positions[i1 as usize];
            let p2: Bits3 = scene.positions[i2 as usize];
            out.boxes.set(c as usize, bits::grow(bits::grow(bits::grow(b, p0), p1), p2));
            let k: u32 = out.tris[c as usize];
            out.tris.set(c as usize, k + 1);
            let w: bool = out.woody[c as usize];
            out.woody.set(c as usize, w || is_marked(scene, woody_mat, t));
            out.tri_comp.push(c);
        } else {
            proof {
                lemma_number_skip(
                    scene,
                    mask@,
                    regs@,
                    roots,
                    comp_of_root@,
                    ids0,
                    out.region@,
                    first,
                );
                lemma_tallied_skip(
                    scene,
                    woody_mat@,
                    ids0,
                    out.tris@,
                    out.woody@,
                    out.boxes@,
                );
            }
            out.tri_comp.push(NO_COMP);
        }
        t = t + 1;
    }
    proof {
        lemma_finish(
            scene,
            mask@,
            regs@,
            roots,
            comp_of_root@,
            out.tri_comp@,
            out.region@,
            first,
        );
    }
    out
}

/// The components of a scene are determined: two lists of them agree in every
/// entry.
pub proof fn components_are_determined(
    a: Components,
    b: Components,
    scene: &Scene,
    mask: Seq<bool>,
    woody: Seq<bool>,
    rs: Seq<SwayRegion>,
)
    requires
        a.describes(scene, mask, woody, rs),
        b.describes(scene, mask, woody, rs),
    ensures
        a.tri_comp@ == b.tri_comp@,
        a.tris@ == b.tris@,
        a.woody@ == b.woody@,
        a.region@ == b.region@,
        a.boxes@ == b.boxes@,
{
    let (x, y) = (a.tri_comp@, b.tri_comp@);
    assert forall|t: int| 0 <= t < x.len() implies (#[trigger] x[t] == NO_COMP <==> y[t]
        == NO_COMP) by {
        assert(y[t] != NO_COMP <==> masked(scene, mask, rs, t));
    }
    assert forall|t: int, u: int|
        #![trigger x[t], x[u]]
        0 <= t < x.len() && 0 <= u < x.len() && x[t] != NO_COMP && x[u] != NO_COMP implies (x[t]
        == x[u] <==> y[t] == y[u]) by {
        assert(y[t] != NO_COMP && y[u] != NO_COMP);
        assert(y[t] == y[u] <==> together(scene, mask, rs, t, u));
    }
    tally::numberings_agree(x, y, NO_COMP, a.len(), b.len());
    assert forall|c: int|
        #![trigger a.tris@[c]]
        #![trigger a.woody@[c]]
        #![trigger a.boxes@[c]]
        #![trigger a.region@[c]]
        0 <= c < a.len() implies a.tris@[c] == b.tris@[c] && a.woody@[c] == b.woody@[c]
        && a.boxes@[c] == b.boxes@[c] && a.region@[c] == b.region@[c] by {
        let k = c as u32;
        assert(tally_holds(scene, woody, x, k, a.tris@[c], a.woody@[c], a.boxes@[c]));
        assert(tally_holds(scene, woody, y, k, b.tris@[c], b.woody@[c], b.boxes@[c]));
        assert(region_of_first(rs, x, k, a.region@[c]));
        assert(region_of_first(rs, y, k, b.region@[c]));
        let f = choose|f: int|
            #[trigger] tally::first_at(x, f, k) && Some(a.region@[c]) == regions::region_at(rs, f);
        let g = choose|g: int|
            #[trigger] tally::first_at(y, g, k) && Some(b.region@[c]) == regions::region_at(rs, g);
        if f < g {
            assert(y[f] == k);
        } else if g < f {
            assert(x[g] == k);
        }
    }
    assert(a.tris@ =~= b.tris@);
    assert(a.woody@ =~= b.woody@);
    assert(a.region@ =~= b.region@);
    assert(a.boxes@ =~= b.boxes@);
}

} // verus!
