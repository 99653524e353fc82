//! Plants: extents, the triangle map, and the cap on their number.
use crate::bits;
use crate::bits::{Bits3, BitsBox};
use crate::foliage::components::{Components, NO_COMP};
use crate::foliage::merge::FIELD_PLANT;
use crate::tally;
use vstd::prelude::*;

verus! {

/// Cap on the cells of a partition.
pub const MAX_CELLS: usize = 4096;

/// Cap on the plants of a scene: half the cell cap, so that one cell per plant
/// always leaves room for the field.
pub const MAX_PLANTS: usize = 2048;

/// One pose group. Scalars are bit patterns; every cell of the plant copies
/// `anchor`, `a` and `b`.
#[derive(Clone, Copy, Debug, PartialEq, Eq, Structural)]
pub struct Plant {
    /// Where the wind is sampled.
    pub anchor: Bits3,
    /// Lowest and highest vertex height over all members.
    pub y0: u32,
    pub y1: u32,
    /// Displacement weight at height y is `a + b * y`.
    pub a: u32,
    pub b: u32,
    pub w_max: u32,
    /// Member triangles.
    pub tris: u32,
}

/// The plants of a scene and the plant of each triangle.
pub struct PlantSet {
    pub plants: Vec<Plant>,
    /// `FIELD_PLANT` for a triangle outside every plant.
    pub tri_plant: Vec<u32>,
}

impl PlantSet {
    /// Every triangle of the map names a listed plant or the field.
    pub open spec fn wf(&self) -> bool {
        forall|t: int|
            0 <= t < self.tri_plant@.len() && #[trigger] self.tri_plant@[t] != FIELD_PLANT
                ==> self.tri_plant@[t] < self.plants@.len()
    }

    /// The set without plants: every triangle is a field member.
    pub fn field_only(n_tris: usize) -> (r: PlantSet)
        ensures
            r.wf(),
            r.plants@.len() == 0,
            r.tri_plant@ == Seq::new(n_tris as nat, |t: int| FIELD_PLANT),
    {
        let mut tri_plant: Vec<u32> = Vec::with_capacity(n_tris);
        let mut t: usize = 0;
        while t < n_tris
            invariant
                t <= n_tris,
                tri_plant@ == Seq::new(t as nat, |i: int| FIELD_PLANT),
            decreases n_tris - t,
        {
            tri_plant.push(FIELD_PLANT);
            t = t + 1;
        }
        PlantSet { plants: Vec::new(), tri_plant }
    }
}

/// The box over the components below `n` that belong to plant `p`, in
/// ascending order.
pub open spec fn plant_box(boxes: Seq<BitsBox>, ids: Seq<u32>, p: u32, n: int) -> BitsBox
    decreases n,
{
    if n <= 0 {
        bits::empty_box()
    } else {
        let b = plant_box(boxes, ids, p, n - 1);
        if ids[n - 1] == p {
            bits::merged(b, boxes[n - 1])
        } else {
            b
        }
    }
}

/// The triangles of the components below `n` that belong to plant `p`.
pub open spec fn plant_tris(tris: Seq<u32>, ids: Seq<u32>, p: u32, n: int) -> nat
    decreases n,
{
    if n <= 0 {
        0
    } else {
        plant_tris(tris, ids, p, n - 1) + if ids[n - 1] == p {
            tris[n - 1] as nat
        } else {
            0nat
        }
    }
}

/// Box of each plant over its member components.
pub fn plant_boxes(comps: &Components, ids: &[u32], n_plants: u32) -> (r: Vec<BitsBox>)
    requires
        comps.wf(),
        ids@.len() == comps.len(),
        n_plants != FIELD_PLANT,
        forall|c: int|
            0 <= c < ids@.len() ==> #[trigger] ids@[c] == FIELD_PLANT || ids@[c] < n_plants,
    ensures
        r@.len() == n_plants,
        forall|p: u32|
            p < n_plants ==> #[trigger] r@[p as int] == plant_box(
                comps.boxes@,
                ids@,
                p,
                comps.len() as int,
            ),
{
    let mut r: Vec<BitsBox> = Vec::with_capacity(n_plants as usize);
    let mut p: u32 = 0;
    while p < n_plants
        invariant
            p <= n_plants,
            r@.len() == p,
            forall|q: u32|
                q < p ==> #[trigger] r@[q as int] == plant_box(comps.boxes@, ids@, q, 0),
        decreases n_plants - p,
    {
        r.push(bits::new_box());
        p = p + 1;
    }
    let mut c: usize = 0;
    while c < ids.len()
        invariant
            c <= ids@.len(),
            comps.wf(),
            ids@.len() == comps.len(),
            n_plants != FIELD_PLANT,
            forall|e: int|
                0 <= e < ids@.len() ==> #[trigger] ids@[e] == FIELD_PLANT || ids@[e] < n_plants,
            r@.len() == n_plants,
            forall|q: u32|
                q < n_plants ==> #[trigger] r@[q as int] == plant_box(
                    comps.boxes@,
                    ids@,
                    q,
                    c as int,
                ),
        decreases ids@.len() - c,
    {
        let id: u32 = ids[c];
        if id != FIELD_PLANT {
            let b: BitsBox = r[id as usize];
            r.set(id as usize, bits::merge(b, comps.boxes[c]));
        }
        c = c + 1;
    }
    r
}

/// Sum of a plain list.
pub open spec fn total(tris: Seq<u32>, n: int) -> nat
    decreases n,
{
    if n <= 0 {
        0
    } else {
        total(tris, n - 1) + tris[n - 1] as nat
    }
}

proof fn lemma_part_of_total(tris: Seq<u32>, ids: Seq<u32>, p: u32, m: int, n: int)
    requires
        0 <= m <= n <= tris.len(),
    ensures
        plant_tris(tris, ids, p, m) <= total(tris, n),
    decreases n,
{
    if m < n {
        lemma_part_of_total(tris, ids, p, m, n - 1);
    } else if n > 0 {
        lemma_part_of_total(tris, ids, p, m - 1, n - 1);
    }
}

/// How many entries of `s` are below `n`.
spec fn below(s: Seq<u32>, n: int) -> nat
    decreases s.len(),
{
    if s.len() == 0 {
        0
    } else {
        below(s.drop_last(), n) + if s.last() < n {
            1nat
        } else {
            0nat
        }
    }
}

proof fn lemma_below_bound(s: Seq<u32>, n: int)
    ensures
        below(s, n) <= s.len(),
    decreases s.len(),
{
    if s.len() > 0 {
        lemma_below_bound(s.drop_last(), n);
    }
}

proof fn lemma_below_step(s: Seq<u32>, n: int)
    requires
        0 <= n < u32::MAX,
    ensures
        below(s, n + 1) == below(s, n) + tally::count_of(s, n as u32),
    decreases s.len(),
{
    if s.len() > 0 {
        lemma_below_step(s.drop_last(), n);
    }
}

/// Triangle counts that match the component ids sum to at most the number of
/// triangles.
proof fn lemma_total_bound(ids: Seq<u32>, tris: Seq<u32>, n: int)
    requires
        0 <= n <= tris.len() < u32::MAX,
        forall|c: int| 0 <= c < tris.len() ==> #[trigger] tris[c] == tally::count_of(ids, c as u32),
    ensures
        total(tris, n) == below(ids, n),
        total(tris, n) <= ids.len(),
    decreases n,
{
    lemma_below_bound(ids, n);
    if n > 0 {
        lemma_total_bound(ids, tris, n - 1);
        lemma_below_step(ids, n - 1);
        assert(tris[n - 1] == tally::count_of(ids, (n - 1) as u32));
    } else {
        lemma_below_zero(ids);
    }
}

proof fn lemma_below_zero(s: Seq<u32>)
    ensures
        below(s, 0) == 0,
    decreases s.len(),
{
    if s.len() > 0 {
        lemma_below_zero(s.drop_last());
    }
}

/// Member triangles of each plant.
pub fn plant_tri_counts(comps: &Components, ids: &[u32], n_plants: u32) -> (r: Vec<u32>)
    requires
        comps.wf(),
        comps.tri_comp@.len() <= u32::MAX,
        forall|c: int|
            0 <= c < comps.len() ==> #[trigger] comps.tris@[c] == tally::count_of(
                comps.tri_comp@,
                c as u32,
            ),
        ids@.len() == comps.len(),
        n_plants != FIELD_PLANT,
        forall|c: int|
            0 <= c < ids@.len() ==> #[trigger] ids@[c] == FIELD_PLANT || ids@[c] < n_plants,
    ensures
        r@.len() == n_plants,
        forall|p: u32|
            p < n_plants ==> #[trigger] r@[p as int] == plant_tris(
                comps.tris@,
                ids@,
                p,
                comps.len() as int,
            ),
{
    let mut r: Vec<u32> = Vec::with_capacity(n_plants as usize);
    let mut p: u32 = 0;
    while p < n_plants
        invariant
            p <= n_plants,
            r@.len() == p,
            forall|q: u32| q < p ==> #[trigger] r@[q as int] == 0,
        decreases n_plants - p,
    {
        r.push(0);
        p = p + 1;
    }
    proof {
        lemma_total_bound(comps.tri_comp@, comps.tris@, comps.len() as int);
    }
    let mut c: usize = 0;
    while c < ids.len()
        invariant
            c <= ids@.len(),
            comps.wf(),
            total(comps.tris@, comps.len() as int) <= u32::MAX,
            ids@.len() == comps.len(),
            n_plants != FIELD_PLANT,
            forall|e: int|
                0 <= e < ids@.len() ==> #[trigger] ids@[e] == FIELD_PLANT || ids@[e] < n_plants,
            r@.len() == n_plants,
            forall|q: u32|
                q < n_plants ==> #[trigger] r@[q as int] == plant_tris(
                    comps.tris@,
                    ids@,
                    q,
                    c as int,
                ),
        decreases ids@.len() - c,
    {
        let id: u32 = ids[c];
        if id != FIELD_PLANT {
            proof {
                lemma_part_of_total(comps.tris@, ids@, id, c + 1, comps.len() as int);
            }
            let k: u32 = r[id as usize];
            r.set(id as usize, k + comps.tris[c]);
        }
        c = c + 1;
    }
    r
}

/// Plant of each triangle: its component's, or none.
pub fn tri_plants(comps: &Components, ids: &[u32]) -> (r: Vec<u32>)
    requires
        comps.wf(),
        ids@.len() == comps.len(),
    ensures
        r@.len() == comps.tri_comp@.len(),
        forall|t: int|
            0 <= t < r@.len() ==> #[trigger] r@[t] == if comps.tri_comp@[t] == NO_COMP {
                FIELD_PLANT
            } else {
                ids@[comps.tri_comp@[t] as int]
            },
{
    let n: usize = comps.tri_comp.len();
    let mut r: Vec<u32> = Vec::with_capacity(n);
    let mut t: usize = 0;
    while t < n
        invariant
            n == comps.tri_comp@.len(),
            t <= n,
            comps.wf(),
            ids@.len() == comps.len(),
            r@.len() == t,
            forall|u: int|
                0 <= u < t ==> #[trigger] r@[u] == if comps.tri_comp@[u] == NO_COMP {
                    FIELD_PLANT
                } else {
                    ids@[comps.tri_comp@[u] as int]
                },
        decreases n - t,
    {
        let c: u32 = comps.tri_comp[t];
        if c == NO_COMP {
            r.push(FIELD_PLANT);
        } else {
            r.push(ids[c as usize]);
        }
        t = t + 1;
    }
    r
}

/// Plant `p` goes before plant `q` when room runs out: fewer triangles, or as
/// many and a smaller id.
pub open spec fn yields_to(tris: Seq<u32>, p: int, q: int) -> bool {
    tris[p] < tris[q] || (tris[p] == tris[q] && p < q)
}

/// Which plants stay under the cap, and the triangle map after the others have
/// become field members.
pub struct Demotion {
    /// Old ids of the plants that stay, in their new order.
    pub kept: Vec<u32>,
    pub tri_plant: Vec<u32>,
    /// How many plants gave way, and how many triangles they had.
    pub demoted: u32,
    pub demoted_tris: u64,
}

/// `kept` lists, in order, as many plants as the cap allows, and every plant
/// left out yields to every plant kept.
pub open spec fn keeps_largest(tris: Seq<u32>, kept: Seq<u32>) -> bool {
    &&& tally::ascending(kept)
    &&& kept.len() == if tris.len() <= MAX_PLANTS {
        tris.len()
    } else {
        MAX_PLANTS as nat
    }
    &&& forall|i: int| 0 <= i < kept.len() ==> #[trigger] kept[i] < tris.len()
    &&& forall|p: u32, i: int|
        #![trigger kept.contains(p), kept[i]]
        p < tris.len() && !kept.contains(p) && 0 <= i < kept.len() ==> yields_to(
            tris,
            p as int,
            kept[i] as int,
        )
}

/// A triangle's plant after renumbering: its place among the kept, or the
/// field.
pub open spec fn renumbered(kept: Seq<u32>, old_id: u32, new_id: u32) -> bool {
    if kept.contains(old_id) {
        0 <= new_id < kept.len() && kept[new_id as int] == old_id
    } else {
        new_id == FIELD_PLANT
    }
}

/// Triangles of the plants below `n` that are not in `kept`.
pub open spec fn tris_left_out(tris: Seq<u32>, kept: Seq<u32>, n: int) -> nat
    decreases n,
{
    if n <= 0 {
        0
    } else {
        tris_left_out(tris, kept, n - 1) + if kept.contains((n - 1) as u32) {
            0nat
        } else {
            tris[n - 1] as nat
        }
    }
}

impl Demotion {
    /// What capping the plants of a set gives.
    pub open spec fn describes(&self, tris: Seq<u32>, tri_plant: Seq<u32>) -> bool {
        &&& keeps_largest(tris, self.kept@)
        &&& self.tri_plant@.len() == tri_plant.len()
        &&& forall|t: int|
            0 <= t < tri_plant.len() ==> renumbered(
                self.kept@,
                tri_plant[t],
                #[trigger] self.tri_plant@[t],
            )
        &&& self.demoted == tris.len() - self.kept@.len()
        &&& self.demoted_tris == tris_left_out(tris, self.kept@, tris.len() as int)
    }
}

spec fn key_of(tris: Seq<u32>, p: int) -> int {
    tris[p] * 0x1_0000_0000 + p
}

spec fn count_true(s: Seq<bool>) -> nat
    decreases s.len(),
{
    if s.len() == 0 {
        0
    } else {
        count_true(s.drop_last()) + if s.last() {
            1nat
        } else {
            0nat
        }
    }
}

proof fn lemma_mark_one(s: Seq<bool>, i: int)
    requires
        0 <= i < s.len(),
        !s[i],
    ensures
        count_true(s.update(i, true)) == count_true(s) + 1,
    decreases s.len(),
{
    if i == s.len() - 1 {
        assert(s.update(i, true).drop_last() == s.drop_last());
    } else {
        assert(s.update(i, true).drop_last() == s.drop_last().update(i, true));
        lemma_mark_one(s.drop_last(), i);
    }
}

proof fn lemma_none_marked(s: Seq<bool>)
    requires
        forall|i: int| 0 <= i < s.len() ==> !s[i],
    ensures
        count_true(s) == 0,
    decreases s.len(),
{
    if s.len() > 0 {
        lemma_none_marked(s.drop_last());
    }
}

/// Plants by triangle count, then id, as one sorted list of keys.
fn ranked(tris: &[u32]) -> (keys: Vec<u64>)
    requires
        tris@.len() < u32::MAX,
    ensures
        keys@.len() == tris@.len(),
        tally::ascending64(keys@),
        forall|k: u64| #[trigger]
            keys@.contains(k) ==> exists|p: int| 0 <= p < tris@.len() && k == #[trigger] key_of(tris@, p),
        forall|p: int| 0 <= p < tris@.len() ==> keys@.contains(#[trigger] key_of(tris@, p) as u64),
{
    let mut keys: Vec<u64> = Vec::with_capacity(tris.len());
    let mut p: usize = 0;
    while p < tris.len()
        invariant
            p <= tris@.len(),
            tris@.len() < u32::MAX,
            keys@.len() == p,
            tally::ascending64(keys@),
            forall|k: u64| #[trigger]
                keys@.contains(k) ==> exists|q: int| 0 <= q < p && k == #[trigger] key_of(tris@, q),
            forall|q: int| 0 <= q < p ==> keys@.contains(#[trigger] key_of(tris@, q) as u64),
        decreases tris@.len() - p,
    {
        let k: u64 = (tris[p] as u64) * 0x1_0000_0000 + (p as u64);
        let ghost k0 = keys@;
        proof {
            assert(k == key_of(tris@, p as int));
            if k0.contains(k) {
                let q = choose|q: int| 0 <= q < p && k == #[trigger] key_of(tris@, q);
                assert(false);
            }
        }
        tally::insert_key(&mut keys, k);
        proof {
            assert forall|q: int| 0 <= q < p + 1 implies keys@.contains(
                #[trigger] key_of(tris@, q) as u64,
            ) by {
                if q < p {
                    assert(k0.contains(key_of(tris@, q) as u64));
                }
            }
            assert forall|x: u64| #[trigger] keys@.contains(x) implies exists|q: int|
                0 <= q < p + 1 && x == #[trigger] key_of(tris@, q) by {
                if x == k {
                    assert(x == key_of(tris@, p as int));
                } else {
                    assert(k0.contains(x));
                    let q = choose|q: int| 0 <= q < p && x == #[trigger] key_of(tris@, q);
                    assert(x == key_of(tris@, q));
                }
            }
        }
        p = p + 1;
    }
    keys
}

/// Mark the `n_demote` plants of smallest key.
fn mark_smallest(tris: &[u32], keys: &[u64], n_demote: usize) -> (demoted: Vec<bool>)
    requires
        tris@.len() < u32::MAX,
        keys@.len() == tris@.len(),
        n_demote <= tris@.len(),
        tally::ascending64(keys@),
        forall|k: u64| #[trigger]
            keys@.contains(k) ==> exists|p: int| 0 <= p < tris@.len() && k == #[trigger] key_of(tris@, p),
        forall|p: int| 0 <= p < tris@.len() ==> keys@.contains(#[trigger] key_of(tris@, p) as u64),
    ensures
        demoted@.len() == tris@.len(),
        count_true(demoted@) == n_demote,
        forall|p: int, q: int|
            #![trigger demoted@[p], demoted@[q]]
            0 <= p < tris@.len() && 0 <= q < tris@.len() && demoted@[p] && !demoted@[q]
                ==> yields_to(tris@, p, q),
{
    let n: usize = tris.len();
    let mut demoted: Vec<bool> = Vec::with_capacity(n);
    let mut p: usize = 0;
    while p < n
        invariant
            p <= n,
            demoted@.len() == p,
            forall|q: int| 0 <= q < p ==> !demoted@[q],
        decreases n - p,
    {
        demoted.push(false);
        p = p + 1;
    }
    proof {
        lemma_none_marked(demoted@);
    }
    let mut i: usize = 0;
    while i < n_demote
        invariant
            i <= n_demote,
            n == tris@.len(),
            n < u32::MAX,
            keys@.len() == n,
            n_demote <= n,
            tally::ascending64(keys@),
            forall|k: u64| #[trigger]
                keys@.contains(k) ==> exists|p: int|
                    0 <= p < tris@.len() && k == #[trigger] key_of(tris@, p),
            demoted@.len() == n,
            count_true(demoted@) == i,
            forall|q: int|
                0 <= q < n && #[trigger] demoted@[q] ==> exists|j: int|
                    0 <= j < i && #[trigger] keys@[j] == key_of(tris@, q),
            forall|q: int, j: int|
                #![trigger demoted@[q], keys@[j]]
                0 <= q < n && 0 <= j < i && keys@[j] == key_of(tris@, q) ==> demoted@[q],
        decreases n_demote - i,
    {
        let k: u64 = keys[i];
        let ghost q0 = choose|p: int| 0 <= p < tris@.len() && k == #[trigger] key_of(tris@, p);
        proof {
            assert(keys@.contains(k));
            assert(k == key_of(tris@, q0));
        }
        let id: usize = (k % 0x1_0000_0000) as usize;
        assert(id == q0);
        let ghost d0 = demoted@;
        proof {
            if d0[q0] {
                let j = choose|j: int| 0 <= j < i && #[trigger] keys@[j] == key_of(tris@, q0);
                assert(keys@[j] < keys@[i as int]);
            }
            lemma_mark_one(d0, q0);
        }
        demoted.set(id, true);
        proof {
            assert forall|q: int| 0 <= q < n && #[trigger] demoted@[q] implies exists|j: int|
                0 <= j < i + 1 && #[trigger] keys@[j] == key_of(tris@, q) by {
                if q == q0 {
                    assert(keys@[i as int] == key_of(tris@, q));
                } else {
                    assert(d0[q]);
                    let j = choose|j: int| 0 <= j < i && #[trigger] keys@[j] == key_of(tris@, q);
                    assert(keys@[j] == key_of(tris@, q));
                }
            }
            assert forall|q: int, j: int|
                #![trigger demoted@[q], keys@[j]]
                0 <= q < n && 0 <= j < i + 1 && keys@[j] == key_of(tris@, q) implies demoted@[q] by {
                if j == i {
                    assert(q == q0);
                } else {
                    assert(d0[q]);
                }
            }
        }
        i = i + 1;
    }
    proof {
        assert forall|p: int, q: int|
            #![trigger demoted@[p], demoted@[q]]
            0 <= p < tris@.len() && 0 <= q < tris@.len() && demoted@[p]
                && !demoted@[q] implies yields_to(tris@, p, q) by {
            let j = choose|j: int| 0 <= j < i && #[trigger] keys@[j] == key_of(tris@, p);
            assert(keys@.contains(key_of(tris@, q) as u64));
            let j2 = keys@.index_of(key_of(tris@, q) as u64);
            assert(keys@[j2] == key_of(tris@, q));
            if j2 < i {
                assert(demoted@[q]);
            }
            assert(keys@[j] < keys@[j2]);
        }
    }
    demoted
}

/// Cap the plants at `MAX_PLANTS`: where there are more, those with the fewest
/// triangles become field members and the rest close ranks.
pub fn demote(tris: &[u32], tri_plant: &[u32]) -> (r: Demotion)
    requires
        tris@.len() < u32::MAX,
        forall|t: int|
            0 <= t < tri_plant@.len() ==> #[trigger] tri_plant@[t] == FIELD_PLANT || tri_plant@[t]
                < tris@.len(),
    ensures
        r.describes(tris@, tri_plant@),
{
    let n: usize = tris.len();
    let n_demote: usize = if n > MAX_PLANTS {
        n - MAX_PLANTS
    } else {
        0
    };
    let keys: Vec<u64> = if n_demote > 0 {
        ranked(tris)
    } else {
        Vec::new()
    };
    let demoted: Vec<bool> = if n_demote > 0 {
        mark_smallest(tris, keys.as_slice(), n_demote)
    } else {
        let mut none: Vec<bool> = Vec::with_capacity(n);
        let mut p: usize = 0;
        while p < n
            invariant
                p <= n,
                none@.len() == p,
                forall|q: int| 0 <= q < p ==> !none@[q],
            decreases n - p,
        {
            none.push(false);
            p = p + 1;
        }
        proof {
            lemma_none_marked(none@);
        }
        none
    };
    assert(n_demote == 0 ==> forall|q: int| 0 <= q < n ==> !#[trigger] demoted@[q]);
    let mut kept: Vec<u32> = Vec::new();
    let mut remap: Vec<u32> = Vec::with_capacity(n);
    let mut gone: u64 = 0;
    let mut p: usize = 0;
    while p < n
        invariant
            p <= n,
            n == tris@.len(),
            n < u32::MAX,
            demoted@.len() == n,
            remap@.len() == p,
            kept@.len() + count_true(demoted@.take(p as int)) == p,
            tally::ascending(kept@),
            forall|i: int| 0 <= i < kept@.len() ==> #[trigger] kept@[i] < p,
            forall|q: u32| q < p ==> (#[trigger] kept@.contains(q) <==> !demoted@[q as int]),
            forall|q: u32|
                q < p ==> if demoted@[q as int] {
                    #[trigger] remap@[q as int] == FIELD_PLANT
                } else {
                    remap@[q as int] < kept@.len() && kept@[remap@[q as int] as int] == q
                },
            gone == marked_tris(tris@, demoted@, p as int),
            gone <= p * 0xffff_ffff,
        decreases n - p,
    {
        let ghost k0 = kept@;
        assert(demoted@.take(p + 1).drop_last() == demoted@.take(p as int));
        if demoted[p] {
            remap.push(FIELD_PLANT);
            assert(gone + tris@[p as int] <= (p + 1) * 0xffff_ffff) by (nonlinear_arith)
                requires
                    gone <= p * 0xffff_ffff,
                    tris@[p as int] <= 0xffff_ffff,
            ;
            assert((p + 1) * 0xffff_ffff <= 0xffff_ffff * 0xffff_ffff) by (nonlinear_arith)
                requires
                    p + 1 <= 0xffff_ffff,
            ;
            gone = gone + tris[p] as u64;
            proof {
                if k0.contains(p as u32) {
                    let i = k0.index_of(p as u32);
                    assert(k0[i] < p);
                }
            }
        } else {
            remap.push(kept.len() as u32);
            kept.push(p as u32);
            proof {
                assert(kept@[k0.len() as int] == p as u32);
                assert forall|q: u32| q < p + 1 implies (#[trigger] kept@.contains(q)
                    <==> !demoted@[q as int]) by {
                    if k0.contains(q) {
                        assert(kept@[k0.index_of(q)] == q);
                    }
                    if q < p && kept@.contains(q) {
                        let i = kept@.index_of(q);
                        assert(k0[i] == q);
                    }
                }
            }
        }
        p = p + 1;
    }
    proof {
        assert(demoted@.take(n as int) == demoted@);
        lemma_left_out(tris@, demoted@, kept@, n as int);
        assert forall|q: u32, i: int|
            #![trigger kept@.contains(q), kept@[i]]
            q < tris@.len() && !kept@.contains(q) && 0 <= i < kept@.len() implies yields_to(
            tris@,
            q as int,
            kept@[i] as int,
        ) by {
            assert(kept@.contains(kept@[i]));
            assert(demoted@[q as int]);
            assert(!demoted@[kept@[i] as int]);
            if n_demote == 0 {
                assert(!demoted@[q as int]);
            }
        }
        assert(keeps_largest(tris@, kept@));
    }
    let mut map: Vec<u32> = Vec::with_capacity(tri_plant.len());
    let mut t: usize = 0;
    while t < tri_plant.len()
        invariant
            t <= tri_plant@.len(),
            n == tris@.len(),
            n < u32::MAX,
            remap@.len() == n,
            demoted@.len() == n,
            forall|u: int|
                0 <= u < tri_plant@.len() ==> #[trigger] tri_plant@[u] == FIELD_PLANT
                    || tri_plant@[u] < n,
            forall|i: int| 0 <= i < kept@.len() ==> #[trigger] kept@[i] < n,
            forall|q: u32| q < n ==> (#[trigger] kept@.contains(q) <==> !demoted@[q as int]),
            forall|q: u32|
                q < n ==> if demoted@[q as int] {
                    #[trigger] remap@[q as int] == FIELD_PLANT
                } else {
                    remap@[q as int] < kept@.len() && kept@[remap@[q as int] as int] == q
                },
            map@.len() == t,
            forall|u: int| 0 <= u < t ==> renumbered(kept@, tri_plant@[u], #[trigger] map@[u]),
        decreases tri_plant@.len() - t,
    {
        let old_id: u32 = tri_plant[t];
        if old_id == FIELD_PLANT {
            proof {
                if kept@.contains(FIELD_PLANT) {
                    let i = kept@.index_of(FIELD_PLANT);
                    assert(kept@[i] < n);
                }
            }
            map.push(FIELD_PLANT);
        } else {
            assert(tri_plant@[t as int] < n);
            map.push(remap[old_id as usize]);
        }
        t = t + 1;
    }
    Demotion { kept, tri_plant: map, demoted: n_demote as u32, demoted_tris: gone }
}

spec fn marked_tris(tris: Seq<u32>, demoted: Seq<bool>, n: int) -> nat
    decreases n,
{
    if n <= 0 {
        0
    } else {
        marked_tris(tris, demoted, n - 1) + if demoted[n - 1] {
            tris[n - 1] as nat
        } else {
            0nat
        }
    }
}

proof fn lemma_left_out(tris: Seq<u32>, demoted: Seq<bool>, kept: Seq<u32>, n: int)
    requires
        0 <= n < u32::MAX,
        forall|q: u32| q < n ==> (#[trigger] kept.contains(q) <==> !demoted[q as int]),
    ensures
        tris_left_out(tris, kept, n) == marked_tris(tris, demoted, n),
    decreases n,
{
    if n > 0 {
        lemma_left_out(tris, demoted, kept, n - 1);
        assert(kept.contains((n - 1) as u32) <==> !demoted[n - 1]);
    }
}

/// A set within the cap is left as it is.
pub proof fn small_sets_keep_every_plant(d: &Demotion, tris: Seq<u32>, tri_plant: Seq<u32>)
    requires
        d.describes(tris, tri_plant),
        tris.len() <= MAX_PLANTS,
        forall|t: int|
            0 <= t < tri_plant.len() ==> #[trigger] tri_plant[t] == FIELD_PLANT || tri_plant[t]
                < tris.len(),
    ensures
        d.demoted == 0,
        d.kept@ == Seq::new(tris.len(), |i: int| i as u32),
        d.tri_plant@ == tri_plant,
{
    lemma_full_ascending(d.kept@, tris.len() as int);
    assert forall|t: int| 0 <= t < tri_plant.len() implies d.tri_plant@[t] == tri_plant[t] by {
        let old_id = tri_plant[t];
        assert(renumbered(d.kept@, old_id, d.tri_plant@[t]));
        if old_id != FIELD_PLANT {
            assert(d.kept@[old_id as int] == old_id);
            assert(d.kept@.contains(old_id));
        } else if d.kept@.contains(FIELD_PLANT) {
            let i = d.kept@.index_of(FIELD_PLANT);
            assert(d.kept@[i] < tris.len());
        }
    }
}

/// An ascending list of `n` ids below `n` is `0, 1, ..., n - 1`.
proof fn lemma_full_ascending(s: Seq<u32>, n: int)
    requires
        s.len() == n,
        tally::ascending(s),
        forall|i: int| 0 <= i < n ==> #[trigger] s[i] < n,
    ensures
        forall|i: int| 0 <= i < n ==> #[trigger] s[i] == i,
{
    assert forall|i: int| 0 <= i < n implies #[trigger] s[i] == i by {
        lemma_at_least(s, i);
        lemma_at_most(s, n, i);
    }
}

proof fn lemma_at_least(s: Seq<u32>, i: int)
    requires
        0 <= i < s.len(),
        tally::ascending(s),
    ensures
        s[i] >= i,
    decreases i,
{
    if i > 0 {
        lemma_at_least(s, i - 1);
        assert(s[i - 1] < s[i]);
    }
}

proof fn lemma_at_most(s: Seq<u32>, n: int, i: int)
    requires
        0 <= i < s.len(),
        s.len() == n,
        tally::ascending(s),
        forall|j: int| 0 <= j < n ==> #[trigger] s[j] < n,
    ensures
        s[i] <= i,
    decreases n - i,
{
    if i < n - 1 {
        lemma_at_most(s, n, i + 1);
        assert(s[i] < s[i + 1]);
    }
}

/// Where a plant's wind is sampled and how its sway grows with height: float
/// results on the plant's box and its region.
#[derive(Clone, Copy, Debug, PartialEq, Eq, Structural)]
pub struct PlantPose {
    pub anchor: Bits3,
    pub a: u32,
    pub b: u32,
    pub w_max: u32,
}

/// The plants of a scene, which of the plants before the cap they are, and how
/// many gave way, with how many triangles.
pub struct Derived {
    pub set: PlantSet,
    pub kept: Vec<u32>,
    pub demoted: u32,
    pub demoted_tris: u64,
}

/// Triangles of each plant before the cap.
pub open spec fn tris_of(comps: &Components, ids: Seq<u32>, n_plants: u32) -> Seq<u32> {
    Seq::new(
        n_plants as nat,
        |p: int| plant_tris(comps.tris@, ids, p as u32, comps.len() as int) as u32,
    )
}

/// Plant of each triangle before the cap.
pub open spec fn plants_of(comps: &Components, ids: Seq<u32>) -> Seq<u32> {
    Seq::new(
        comps.tri_comp@.len(),
        |t: int|
            if comps.tri_comp@[t] == NO_COMP {
                FIELD_PLANT
            } else {
                ids[comps.tri_comp@[t] as int]
            },
    )
}

/// A plant over all its members.
pub open spec fn plant_at(
    comps: &Components,
    ids: Seq<u32>,
    n_plants: u32,
    poses: Seq<PlantPose>,
    p: u32,
) -> Plant {
    let b = plant_box(comps.boxes@, ids, p, comps.len() as int);
    let pose = poses[p as int];
    Plant {
        anchor: pose.anchor,
        y0: b.lo.y,
        y1: b.hi.y,
        a: pose.a,
        b: pose.b,
        w_max: pose.w_max,
        tris: tris_of(comps, ids, n_plants)[p as int],
    }
}

impl Derived {
    /// What the plants of a component set are, given the plant of each
    /// component and the pose of each plant.
    pub open spec fn describes(
        &self,
        comps: &Components,
        ids: Seq<u32>,
        n_plants: u32,
        poses: Seq<PlantPose>,
    ) -> bool {
        let tris = tris_of(comps, ids, n_plants);
        let map = plants_of(comps, ids);
        &&& keeps_largest(tris, self.kept@)
        &&& self.set.plants@.len() == self.kept@.len()
        &&& forall|i: int|
            0 <= i < self.kept@.len() ==> #[trigger] self.set.plants@[i] == plant_at(
                comps,
                ids,
                n_plants,
                poses,
                self.kept@[i],
            )
        &&& self.set.tri_plant@.len() == map.len()
        &&& forall|t: int|
            0 <= t < map.len() ==> renumbered(
                self.kept@,
                map[t],
                #[trigger] self.set.tri_plant@[t],
            )
        &&& self.demoted == tris.len() - self.kept@.len()
        &&& self.demoted_tris == tris_left_out(tris, self.kept@, tris.len() as int)
    }
}

/// The plants of a scene: every plant's extent and triangle count over all its
/// members, woody and attached alike, the plant of every triangle, and the cap
/// on their number.
pub fn derive_plants(
    comps: &Components,
    ids: &[u32],
    n_plants: u32,
    poses: &[PlantPose],
) -> (r: Derived)
    requires
        comps.wf(),
        comps.tri_comp@.len() <= u32::MAX,
        forall|c: int|
            0 <= c < comps.len() ==> #[trigger] comps.tris@[c] == tally::count_of(
                comps.tri_comp@,
                c as u32,
            ),
        ids@.len() == comps.len(),
        n_plants != FIELD_PLANT,
        forall|c: int|
            0 <= c < ids@.len() ==> #[trigger] ids@[c] == FIELD_PLANT || ids@[c] < n_plants,
        poses@.len() == n_plants,
    ensures
        r.describes(comps, ids@, n_plants, poses@),
        r.set.wf(),
        r.set.plants@.len() <= MAX_PLANTS,
{
    let boxes = plant_boxes(comps, ids, n_plants);
    let tris = plant_tri_counts(comps, ids, n_plants);
    let map = tri_plants(comps, ids);
    proof {
        assert forall|p: int| 0 <= p < n_plants implies tris@[p] == tris_of(
            comps,
            ids@,
            n_plants,
        )[p] by {
            assert(tris@[(p as u32) as int] == plant_tris(
                comps.tris@,
                ids@,
                p as u32,
                comps.len() as int,
            ));
        }
        assert(tris@ =~= tris_of(comps, ids@, n_plants));
        assert(map@ =~= plants_of(comps, ids@));
        assert forall|t: int| 0 <= t < map@.len() implies #[trigger] map@[t] == FIELD_PLANT
            || map@[t] < tris@.len() by {
            let c = comps.tri_comp@[t];
            if c != NO_COMP {
                assert(ids@[c as int] == map@[t]);
            }
        }
    }
    let d: Demotion = demote(tris.as_slice(), map.as_slice());
    let mut plants: Vec<Plant> = Vec::new();
    let n: usize = d.kept.len();
    let mut i: usize = 0;
    while i < n
        invariant
            i <= n,
            n == d.kept@.len(),
            d.describes(tris@, map@),
            tris@ == tris_of(comps, ids@, n_plants),
            tris@.len() == n_plants,
            boxes@.len() == n_plants,
            poses@.len() == n_plants,
            forall|p: u32|
                p < n_plants ==> #[trigger] boxes@[p as int] == plant_box(
                    comps.boxes@,
                    ids@,
                    p,
                    comps.len() as int,
                ),
            plants@.len() == i,
            forall|k: int|
                0 <= k < i ==> #[trigger] plants@[k] == plant_at(
                    comps,
                    ids@,
                    n_plants,
                    poses@,
                    d.kept@[k],
                ),
        decreases n - i,
    {
        let p: u32 = d.kept[i];
        assert(d.kept@[i as int] < tris@.len());
        let b = boxes[p as usize];
        assert(boxes@[p as int] == b);
        let pose = poses[p as usize];
        plants.push(
            Plant {
                anchor: pose.anchor,
                y0: b.lo.y,
                y1: b.hi.y,
                a: pose.a,
                b: pose.b,
                w_max: pose.w_max,
                tris: tris[p as usize],
            },
        );
        i = i + 1;
    }
    let Demotion { kept, tri_plant, demoted, demoted_tris } = d;
    Derived { set: PlantSet { plants, tri_plant }, kept, demoted, demoted_tris }
}

} // verus!
