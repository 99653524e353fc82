//! Re-cutting an acceleration-structure plan so that every sway cell is a
//! chunk of its own.
use crate::foliage::cells::{SwayCell, STATIC_CELL};
use crate::foliage::plants::MAX_CELLS;
use crate::tally;
use vstd::prelude::*;

verus! {

/// The node of a chunk that is no subtree.
pub const NO_NODE: u32 = u32::MAX;

/// Triangles packed chunk after chunk. Chunk `i` is
/// `packed_tris[chunk_base[i]..chunk_base[i + 1]]`.
pub struct BlasPlan {
    pub packed_tris: Vec<u32>,
    pub chunk_base: Vec<u32>,
    pub chunk_node: Vec<u32>,
}

/// A chunk: its triangles and its node.
pub type Chunk = (Seq<u32>, u32);

/// The three arrays spell out this list of chunks.
pub open spec fn spells(packed: Seq<u32>, base: Seq<u32>, node: Seq<u32>, list: Seq<Chunk>) -> bool {
    &&& base.len() == list.len() + 1
    &&& node.len() == list.len()
    &&& base[0] == 0
    &&& base[list.len() as int] == packed.len()
    &&& forall|i: int|
        0 <= i < list.len() ==> #[trigger] spells_chunk(packed, base, node, i, list[i])
}

/// Entry `i` of the arrays spells out this chunk.
pub open spec fn spells_chunk(
    packed: Seq<u32>,
    base: Seq<u32>,
    node: Seq<u32>,
    i: int,
    chunk: Chunk,
) -> bool {
    &&& base[i] <= base[i + 1] <= packed.len()
    &&& packed.subrange(base[i] as int, base[i + 1] as int) == chunk.0
    &&& node[i] == chunk.1
}

impl BlasPlan {
    /// The bases partition the packed triangles.
    pub open spec fn wf(&self) -> bool {
        &&& self.packed_tris@.len() <= u32::MAX
        &&& self.chunk_base@.len() == self.chunk_node@.len() + 1
        &&& self.chunk_base@[0] == 0
        &&& self.chunk_base@[self.chunk_node@.len() as int] == self.packed_tris@.len()
        &&& forall|i: int|
            0 <= i < self.chunk_node@.len() ==> #[trigger] self.chunk_base@[i]
                <= self.chunk_base@[i + 1] <= self.packed_tris@.len()
    }

    /// Triangles of chunk `i`.
    pub open spec fn chunk(&self, i: int) -> Seq<u32> {
        self.packed_tris@.subrange(self.chunk_base@[i] as int, self.chunk_base@[i + 1] as int)
    }

    /// Number of chunks.
    pub fn chunks(&self) -> (r: usize)
        ensures
            r == self.chunk_node@.len(),
    {
        self.chunk_node.len()
    }

    /// Number of triangles in chunk `i`.
    pub fn prims(&self, i: usize) -> (r: u32)
        requires
            self.wf(),
            i < self.chunk_node@.len(),
        ensures
            r == self.chunk(i as int).len(),
    {
        let n: usize = self.chunk_node.len();
        assert(i + 1 <= n);
        assert(self.chunk_base@[i as int] <= self.chunk_base@[i + 1]);
        self.chunk_base[i + 1] - self.chunk_base[i]
    }
}

/// The triangles of `s` in cell `c`, in order.
pub open spec fn in_cell(s: Seq<u32>, tri_cell: Seq<u16>, c: u16) -> Seq<u32>
    decreases s.len(),
{
    if s.len() == 0 {
        Seq::empty()
    } else {
        let r = in_cell(s.drop_last(), tri_cell, c);
        if tri_cell[s.last() as int] == c {
            r.push(s.last())
        } else {
            r
        }
    }
}

/// The first `n` chunks without their swaying triangles; chunks left empty
/// are dropped.
pub open spec fn static_chunks(plan: &BlasPlan, tri_cell: Seq<u16>, n: int) -> Seq<Chunk>
    decreases n,
{
    if n <= 0 {
        Seq::empty()
    } else {
        let r = static_chunks(plan, tri_cell, n - 1);
        let rest = in_cell(plan.chunk(n - 1), tri_cell, STATIC_CELL);
        if rest.len() == 0 {
            r
        } else {
            r.push((rest, plan.chunk_node@[n - 1]))
        }
    }
}

/// The triangles of `s` from `off` on, cut into runs of `cap`.
pub open spec fn runs(s: Seq<u32>, cap: int, off: int) -> Seq<Chunk>
    decreases s.len() - off,
{
    if off >= s.len() || cap <= 0 {
        Seq::empty()
    } else {
        let end = if off + cap <= s.len() {
            off + cap
        } else {
            s.len() as int
        };
        seq![(s.subrange(off, end), NO_NODE)] + runs(s, cap, end)
    }
}

/// The runs of the first `n` cells, in cell order.
pub open spec fn sway_chunks(packed: Seq<u32>, tri_cell: Seq<u16>, cap: int, n: int) -> Seq<Chunk>
    decreases n,
{
    if n <= 0 {
        Seq::empty()
    } else {
        sway_chunks(packed, tri_cell, cap, n - 1) + runs(
            in_cell(packed, tri_cell, (n - 1) as u16),
            cap,
            0,
        )
    }
}

/// The cell behind each of those runs.
pub open spec fn run_cells(packed: Seq<u32>, tri_cell: Seq<u16>, cap: int, n: int) -> Seq<u32>
    decreases n,
{
    if n <= 0 {
        Seq::empty()
    } else {
        run_cells(packed, tri_cell, cap, n - 1) + Seq::new(
            runs(in_cell(packed, tri_cell, (n - 1) as u16), cap, 0).len(),
            |i: int| (n - 1) as u32,
        )
    }
}

/// Which chunks of the re-cut plan sway.
pub struct SwaySplit {
    /// Chunks from here on sway; everything below is static.
    pub first_chunk: u32,
    /// The cell of each sway chunk.
    pub cells: Vec<SwayCell>,
    /// Index of that cell in the partition.
    pub cell_of: Vec<u32>,
    /// Grid pitch of the partition (a bit pattern).
    pub cell: u32,
}

/// The run length: at least one triangle.
pub open spec fn run_cap(max_prims: u32) -> int {
    if max_prims == 0 {
        1
    } else {
        max_prims as int
    }
}

/// The attached half of the feature: the cells and the cell of each triangle.
pub struct SceneSway {
    pub cells: Vec<SwayCell>,
    /// `STATIC_CELL` for a triangle that does not sway.
    pub tri_cell: Vec<u16>,
    /// Grid pitch of the first region (a bit pattern).
    pub cell: u32,
    /// Whole-plant pose groups.
    pub n_plants: u32,
}

impl SceneSway {
    /// Every triangle names a listed cell or none.
    pub open spec fn wf(&self) -> bool {
        &&& self.cells@.len() <= MAX_CELLS
        &&& forall|t: int|
            0 <= t < self.tri_cell@.len() && #[trigger] self.tri_cell@[t] != STATIC_CELL
                ==> self.tri_cell@[t] < self.cells@.len()
    }

    /// The partition covers every triangle of the plan.
    pub open spec fn covers(&self, plan: &BlasPlan) -> bool {
        forall|i: int|
            0 <= i < plan.packed_tris@.len() ==> #[trigger] plan.packed_tris@[i]
                < self.tri_cell@.len()
    }
}

/// What re-cutting gives: the static chunks without their swaying triangles,
/// then each cell's triangles in runs.
pub open spec fn split_list(plan: &BlasPlan, sway: &SceneSway, max_prims: u32) -> Seq<Chunk> {
    static_chunks(plan, sway.tri_cell@, plan.chunk_node@.len() as int) + sway_chunks(
        plan.packed_tris@,
        sway.tri_cell@,
        run_cap(max_prims),
        sway.cells@.len() as int,
    )
}

impl SwaySplit {
    /// The split record that goes with the re-cut plan.
    pub open spec fn describes(&self, plan: &BlasPlan, sway: &SceneSway, max_prims: u32) -> bool {
        let of = run_cells(
            plan.packed_tris@,
            sway.tri_cell@,
            run_cap(max_prims),
            sway.cells@.len() as int,
        );
        &&& self.first_chunk == static_chunks(
            plan,
            sway.tri_cell@,
            plan.chunk_node@.len() as int,
        ).len()
        &&& self.cell_of@ == of
        &&& self.cells@ == Seq::new(of.len(), |i: int| sway.cells@[of[i] as int])
        &&& self.cell == sway.cell
    }
}

/// Some packed triangle sways.
pub open spec fn any_sways(packed: Seq<u32>, tri_cell: Seq<u16>) -> bool {
    exists|i: int| 0 <= i < packed.len() && tri_cell[#[trigger] packed[i] as int] != STATIC_CELL
}

/// One more triangle, seen from the front of a longer list.
proof fn lemma_in_cell_push(s: Seq<u32>, t: u32, tri_cell: Seq<u16>, c: u16)
    ensures
        in_cell(s.push(t), tri_cell, c) == if tri_cell[t as int] == c {
            in_cell(s, tri_cell, c).push(t)
        } else {
            in_cell(s, tri_cell, c)
        },
{
    assert(s.push(t).drop_last() == s);
}

proof fn lemma_in_cell_len(s: Seq<u32>, tri_cell: Seq<u16>, c: u16)
    ensures
        in_cell(s, tri_cell, c).len() <= s.len(),
    decreases s.len(),
{
    if s.len() > 0 {
        lemma_in_cell_len(s.drop_last(), tri_cell, c);
    }
}

/// The arrays under construction.
struct Draft {
    packed: Vec<u32>,
    base: Vec<u32>,
    node: Vec<u32>,
}

impl Draft {
    spec fn spells(&self, list: Seq<Chunk>) -> bool {
        spells(self.packed@, self.base@, self.node@, list)
    }

    /// Everything packed since the last base becomes a chunk.
    fn close(&mut self, node: u32, Ghost(list): Ghost<Seq<Chunk>>, Ghost(tail): Ghost<Seq<u32>>)
        requires
            old(self).base@.len() == list.len() + 1,
            old(self).packed@.len() <= u32::MAX,
            old(self).packed@.len() >= tail.len(),
            spells(
                old(self).packed@.take(old(self).packed@.len() - tail.len()),
                old(self).base@,
                old(self).node@,
                list,
            ),
            old(self).packed@.skip(old(self).packed@.len() - tail.len()) == tail,
        ensures
            final(self).packed@ == old(self).packed@,
            final(self).spells(list.push((tail, node))),
    {
        let ghost p0 = self.packed@.take(self.packed@.len() - tail.len());
        let ghost b0 = self.base@;
        let ghost n0 = self.node@;
        self.base.push(self.packed.len() as u32);
        self.node.push(node);
        proof {
            let list2 = list.push((tail, node));
            assert forall|i: int| 0 <= i < list2.len() implies #[trigger] spells_chunk(
                self.packed@,
                self.base@,
                self.node@,
                i,
                list2[i],
            ) by {
                if i < list.len() {
                    assert(spells_chunk(p0, b0, n0, i, list[i]));
                    assert(p0.subrange(b0[i] as int, b0[i + 1] as int)
                        == self.packed@.subrange(b0[i] as int, b0[i + 1] as int));
                } else {
                    assert(self.packed@.subrange(p0.len() as int, self.packed@.len() as int)
                        == tail);
                }
            }
        }
    }
}

proof fn lemma_in_cell_concat(a: Seq<u32>, b: Seq<u32>, tri_cell: Seq<u16>, c: u16)
    ensures
        in_cell(a + b, tri_cell, c) == in_cell(a, tri_cell, c) + in_cell(b, tri_cell, c),
    decreases b.len(),
{
    if b.len() == 0 {
        assert(a + b == a);
        assert(in_cell(a, tri_cell, c) + in_cell(b, tri_cell, c) == in_cell(a, tri_cell, c));
    } else {
        assert((a + b).drop_last() == a + b.drop_last());
        lemma_in_cell_concat(a, b.drop_last(), tri_cell, c);
        assert(in_cell(a + b, tri_cell, c) == in_cell(a, tri_cell, c) + in_cell(b, tri_cell, c));
    }
}

/// The triangles of the first `n` cells, cell after cell.
pub open spec fn by_cell(s: Seq<u32>, tri_cell: Seq<u16>, n: int) -> Seq<u32>
    decreases n,
{
    if n <= 0 {
        Seq::empty()
    } else {
        by_cell(s, tri_cell, n - 1) + in_cell(s, tri_cell, (n - 1) as u16)
    }
}

proof fn lemma_by_cell_push_len(s: Seq<u32>, t: u32, tri_cell: Seq<u16>, n: int)
    requires
        0 <= n <= STATIC_CELL,
    ensures
        by_cell(s.push(t), tri_cell, n).len() == by_cell(s, tri_cell, n).len() + if tri_cell[t as int]
            < n {
            1int
        } else {
            0int
        },
    decreases n,
{
    if n > 0 {
        lemma_by_cell_push_len(s, t, tri_cell, n - 1);
        lemma_in_cell_push(s, t, tri_cell, (n - 1) as u16);
    }
}

proof fn lemma_by_cell_empty(s: Seq<u32>, tri_cell: Seq<u16>, n: int)
    requires
        s.len() == 0,
    ensures
        by_cell(s, tri_cell, n).len() == 0,
    decreases n,
{
    if n > 0 {
        lemma_by_cell_empty(s, tri_cell, n - 1);
    }
}

/// Static triangles and cell triangles together are no more than there are.
proof fn lemma_room(s: Seq<u32>, tri_cell: Seq<u16>, n: int)
    requires
        0 <= n <= STATIC_CELL,
    ensures
        in_cell(s, tri_cell, STATIC_CELL).len() + by_cell(s, tri_cell, n).len() <= s.len(),
    decreases s.len(),
{
    if s.len() == 0 {
        lemma_by_cell_empty(s, tri_cell, n);
    } else {
        let a = s.drop_last();
        lemma_room(a, tri_cell, n);
        lemma_by_cell_push_len(a, s.last(), tri_cell, n);
        assert(a.push(s.last()) == s);
    }
}

proof fn lemma_by_cell_prefix(s: Seq<u32>, tri_cell: Seq<u16>, m: int, n: int)
    requires
        0 <= m <= n,
    ensures
        by_cell(s, tri_cell, m).len() <= by_cell(s, tri_cell, n).len(),
    decreases n,
{
    if m < n {
        lemma_by_cell_prefix(s, tri_cell, m, n - 1);
    }
}

/// One chunk's static triangles are copied; a chunk left empty is dropped.
fn copy_statics(plan: &BlasPlan, sway: &SceneSway) -> (d: Draft)
    requires
        plan.wf(),
        sway.wf(),
        sway.covers(plan),
    ensures
        d.packed@ == in_cell(plan.packed_tris@, sway.tri_cell@, STATIC_CELL),
        d.spells(static_chunks(plan, sway.tri_cell@, plan.chunk_node@.len() as int)),
        d.node@.len() <= d.packed@.len(),
{
    let n: usize = plan.chunk_node.len();
    let mut d: Draft = Draft { packed: Vec::new(), base: Vec::new(), node: Vec::new() };
    d.base.push(0);
    let ghost src = plan.packed_tris@;
    let ghost tc = sway.tri_cell@;
    proof {
        assert(src.take(0) == Seq::<u32>::empty());
    }
    let mut i: usize = 0;
    while i < n
        invariant
            n == plan.chunk_node@.len(),
            i <= n,
            plan.wf(),
            sway.wf(),
            sway.covers(plan),
            src == plan.packed_tris@,
            tc == sway.tri_cell@,
            d.packed@ == in_cell(src.take(plan.chunk_base@[i as int] as int), tc, STATIC_CELL),
            d.spells(static_chunks(plan, tc, i as int)),
            d.node@.len() <= d.packed@.len(),
        decreases n - i,
    {
        assert(plan.chunk_base@[i as int] <= plan.chunk_base@[i + 1]);
        let b: usize = plan.chunk_base[i] as usize;
        let e: usize = plan.chunk_base[i + 1] as usize;
        let before: usize = d.packed.len();
        let ghost p0 = d.packed@;
        let ghost base0 = d.base@;
        let ghost node0 = d.node@;
        let ghost list = static_chunks(plan, tc, i as int);
        let mut j: usize = b;
        while j < e
            invariant
                b <= j <= e <= src.len(),
                src == plan.packed_tris@,
                tc == sway.tri_cell@,
                sway.covers(plan),
                d.packed@ == in_cell(src.take(j as int), tc, STATIC_CELL),
                d.base@ == base0,
                d.node@ == node0,
            decreases e - j,
        {
            let t: u32 = plan.packed_tris[j];
            assert(src[j as int] < tc.len());
            proof {
                lemma_in_cell_push(src.take(j as int), t, tc, STATIC_CELL);
                assert(src.take(j as int).push(t) == src.take(j + 1));
            }
            if sway.tri_cell[t as usize] == STATIC_CELL {
                d.packed.push(t);
            }
            j = j + 1;
        }
        let ghost rest = in_cell(plan.chunk(i as int), tc, STATIC_CELL);
        proof {
            assert(src.take(e as int) == src.take(b as int) + plan.chunk(i as int));
            lemma_in_cell_concat(src.take(b as int), plan.chunk(i as int), tc, STATIC_CELL);
            lemma_in_cell_len(src.take(e as int), tc, STATIC_CELL);
            assert(d.packed@ == p0 + rest);
            assert(d.packed@.take(d.packed@.len() - rest.len()) == p0);
            assert(d.packed@.skip(d.packed@.len() - rest.len()) == rest);
        }
        if d.packed.len() != before {
            d.close(plan.chunk_node[i], Ghost(list), Ghost(rest));
        } else {
            assert(d.packed@ == p0);
        }
        i = i + 1;
    }
    assert(src.take(plan.chunk_base@[n as int] as int) == src);
    d
}

/// Sort the swaying triangles by cell, keeping their order.
fn fill_buckets(plan: &BlasPlan, sway: &SceneSway) -> (buckets: Vec<Vec<u32>>)
    requires
        sway.wf(),
        sway.covers(plan),
    ensures
        buckets@.len() == sway.cells@.len(),
        forall|c: u16|
            c < buckets@.len() ==> (#[trigger] buckets@[c as int])@ == in_cell(
                plan.packed_tris@,
                sway.tri_cell@,
                c,
            ),
{
    let ghost src = plan.packed_tris@;
    let ghost tc = sway.tri_cell@;
    let mut buckets: Vec<Vec<u32>> = Vec::with_capacity(sway.cells.len());
    let mut c: usize = 0;
    proof {
        assert(src.take(0) == Seq::<u32>::empty());
    }
    while c < sway.cells.len()
        invariant
            c <= sway.cells@.len(),
            buckets@.len() == c,
            forall|d: u16|
                d < c ==> (#[trigger] buckets@[d as int])@ == in_cell(src.take(0), tc, d),
            src.take(0) == Seq::<u32>::empty(),
        decreases sway.cells@.len() - c,
    {
        buckets.push(Vec::new());
        c = c + 1;
    }
    let mut i: usize = 0;
    while i < plan.packed_tris.len()
        invariant
            i <= src.len(),
            src == plan.packed_tris@,
            tc == sway.tri_cell@,
            sway.wf(),
            sway.covers(plan),
            buckets@.len() == sway.cells@.len(),
            forall|d: u16|
                d < buckets@.len() ==> (#[trigger] buckets@[d as int])@ == in_cell(
                    src.take(i as int),
                    tc,
                    d,
                ),
        decreases src.len() - i,
    {
        let t: u32 = plan.packed_tris[i];
        assert(src[i as int] < tc.len());
        let c: u16 = sway.tri_cell[t as usize];
        let ghost b0 = buckets@;
        if c != STATIC_CELL {
            buckets[c as usize].push(t);
        }
        proof {
            assert(src.take(i as int).push(t) == src.take(i + 1));
            assert forall|d: u16| d < buckets@.len() implies (#[trigger] buckets@[d as int])@
                == in_cell(src.take(i + 1), tc, d) by {
                lemma_in_cell_push(src.take(i as int), t, tc, d);
                assert(b0[d as int]@ == in_cell(src.take(i as int), tc, d));
            }
        }
        i = i + 1;
    }
    assert(src.take(src.len() as int) == src);
    buckets
}

/// Run `k` carries a copy of its cell.
spec fn copies(cells: Seq<SwayCell>, of: Seq<u32>, all: Seq<SwayCell>, k: int) -> bool {
    of[k] < all.len() && cells[k] == all[of[k] as int]
}

/// The runs listed so far for one bucket, from `off` on, complete the bucket.
proof fn lemma_run_step(s: Seq<u32>, cap: int, off: int)
    requires
        0 <= off < s.len(),
        cap >= 1,
    ensures
        ({
            let end = if off + cap <= s.len() {
                off + cap
            } else {
                s.len() as int
            };
            runs(s, cap, off) == seq![(s.subrange(off, end), NO_NODE)] + runs(s, cap, end)
        }),
{
}

/// Re-cut the plan around an attached partition. Swaying triangles leave the
/// static chunks; then comes one chunk per cell, split into runs of at most
/// `max_prims` triangles. `None`, and the plan untouched, where no triangle of
/// the plan sways.
pub fn split_plan(plan: &mut BlasPlan, sway: &SceneSway, max_prims: u32) -> (r: Option<SwaySplit>)
    requires
        old(plan).wf(),
        sway.wf(),
        sway.covers(old(plan)),
    ensures
        r is Some <==> any_sways(old(plan).packed_tris@, sway.tri_cell@),
        r is None ==> *final(plan) == *old(plan),
        r matches Some(split) ==> {
            &&& split.describes(old(plan), sway, max_prims)
            &&& spells(
                final(plan).packed_tris@,
                final(plan).chunk_base@,
                final(plan).chunk_node@,
                split_list(old(plan), sway, max_prims),
            )
            &&& final(plan).packed_tris@ == in_cell(
                old(plan).packed_tris@,
                sway.tri_cell@,
                STATIC_CELL,
            ) + by_cell(old(plan).packed_tris@, sway.tri_cell@, sway.cells@.len() as int)
        },
{
    let mut any: bool = false;
    let mut i: usize = 0;
    while i < plan.packed_tris.len()
        invariant
            i <= plan.packed_tris@.len(),
            *plan == *old(plan),
            sway.covers(plan),
            any <==> exists|k: int|
                0 <= k < i && sway.tri_cell@[#[trigger] plan.packed_tris@[k] as int] != STATIC_CELL,
        decreases plan.packed_tris@.len() - i,
    {
        assert(plan.packed_tris@[i as int] < sway.tri_cell@.len());
        if sway.tri_cell[plan.packed_tris[i] as usize] != STATIC_CELL {
            any = true;
        }
        i = i + 1;
    }
    if !any {
        return None;
    }
    let buckets: Vec<Vec<u32>> = fill_buckets(plan, sway);
    let mut d: Draft = copy_statics(plan, sway);
    let first_chunk: usize = d.node.len();
    let mut cells: Vec<SwayCell> = Vec::new();
    let mut cell_of: Vec<u32> = Vec::new();
    let cap: usize = if max_prims == 0 {
        1
    } else {
        max_prims as usize
    };
    let ghost src = plan.packed_tris@;
    let ghost tc = sway.tri_cell@;
    let ghost statics = static_chunks(plan, tc, plan.chunk_node@.len() as int);
    let ghost still = in_cell(src, tc, STATIC_CELL);
    proof {
        assert(still + by_cell(src, tc, 0) == still);
        assert(statics + sway_chunks(src, tc, cap as int, 0) == statics);
        lemma_in_cell_len(src, tc, STATIC_CELL);
    }
    let mut c: usize = 0;
    while c < buckets.len()
        invariant
            c <= buckets@.len(),
            buckets@.len() == sway.cells@.len(),
            sway.wf(),
            cap == run_cap(max_prims),
            cap >= 1,
            src.len() <= u32::MAX,
            forall|k: u16|
                k < buckets@.len() ==> (#[trigger] buckets@[k as int])@ == in_cell(src, tc, k),
            d.packed@ == still + by_cell(src, tc, c as int),
            still == in_cell(src, tc, STATIC_CELL),
            d.spells(statics + sway_chunks(src, tc, cap as int, c as int)),
            cell_of@ == run_cells(src, tc, cap as int, c as int),
            cells@.len() == cell_of@.len(),
            forall|k: int| 0 <= k < cells@.len() ==> #[trigger] copies(
                cells@,
                cell_of@,
                sway.cells@,
                k,
            ),
        decreases buckets@.len() - c,
    {
        let ghost cu = c as u16;
        let ghost bucket = in_cell(src, tc, cu);
        assert(buckets@[cu as int]@ == bucket);
        let n: usize = buckets[c].len();
        let ghost p0 = d.packed@;
        let ghost l0 = statics + sway_chunks(src, tc, cap as int, c as int);
        let ghost of0 = cell_of@;
        let ghost all = runs(bucket, cap as int, 0);
        let ghost mut done: Seq<Chunk> = Seq::empty();
        proof {
            lemma_room(src, tc, sway.cells@.len() as int);
            lemma_by_cell_prefix(src, tc, c + 1, sway.cells@.len() as int);
            assert(p0 + bucket.take(0) == p0);
            assert(l0 + done == l0);
            assert(done + runs(bucket, cap as int, 0) == all);
            assert(of0 + Seq::new(0, |i: int| c as u32) == of0);
        }
        let mut off: usize = 0;
        while off < n
            invariant
                off <= n,
                n == bucket.len(),
                c < buckets@.len(),
                buckets@.len() == sway.cells@.len(),
                sway.wf(),
                cap >= 1,
                buckets@[c as int]@ == bucket,
                p0.len() + n <= u32::MAX,
                d.packed@ == p0 + bucket.take(off as int),
                d.spells(l0 + done),
                done + runs(bucket, cap as int, off as int) == all,
                cell_of@ == of0 + Seq::new(done.len(), |i: int| c as u32),
                cells@.len() == cell_of@.len(),
                forall|k: int| 0 <= k < cells@.len() ==> #[trigger] copies(
                    cells@,
                    cell_of@,
                    sway.cells@,
                    k,
                ),
            decreases n - off,
        {
            let take: usize = if n - off < cap {
                n - off
            } else {
                cap
            };
            let ghost start = d;
            let ghost run = bucket.subrange(off as int, off + take);
            let mut j: usize = 0;
            while j < take
                invariant
                    j <= take,
                    off + take <= n,
                    n == bucket.len(),
                    c < buckets@.len(),
                    buckets@[c as int]@ == bucket,
                    d.packed@ == p0 + bucket.take(off + j),
                    d.base@ == start.base@,
                    d.node@ == start.node@,
                decreases take - j,
            {
                d.packed.push(buckets[c][off + j]);
                proof {
                    assert(bucket.take(off + j).push(bucket[off + j]) == bucket.take(off + j + 1));
                }
                j = j + 1;
            }
            proof {
                assert(d.packed@.take(d.packed@.len() - run.len()) == start.packed@);
                assert(d.packed@.skip(d.packed@.len() - run.len()) == run);
            }
            d.close(NO_NODE, Ghost(l0 + done), Ghost(run));
            let ghost cells0 = cells@;
            let ghost cell_of0 = cell_of@;
            cells.push(sway.cells[c]);
            cell_of.push(c as u32);
            proof {
                assert forall|k: int| 0 <= k < cells@.len() implies #[trigger] copies(
                    cells@,
                    cell_of@,
                    sway.cells@,
                    k,
                ) by {
                    if k < cells0.len() {
                        assert(copies(cells0, cell_of0, sway.cells@, k));
                    }
                }
                lemma_run_step(bucket, cap as int, off as int);
                let chunk: Chunk = (run, NO_NODE);
                assert((l0 + done).push(chunk) == l0 + done.push(chunk));
                assert(done.push(chunk) + runs(bucket, cap as int, off + take) == done
                    + runs(bucket, cap as int, off as int));
                done = done.push(chunk);
                assert(cell_of@ == of0 + Seq::new(done.len(), |i: int| c as u32));
            }
            off = off + take;
        }
        proof {
            assert(bucket.take(n as int) == bucket);
            assert(done == all) by {
                assert(runs(bucket, cap as int, n as int).len() == 0);
            }
            assert(p0 + bucket == still + by_cell(src, tc, c + 1));
            assert(l0 + all == statics + sway_chunks(src, tc, cap as int, c + 1));
            assert(cell_of@ == run_cells(src, tc, cap as int, c + 1));
        }
        c = c + 1;
    }
    proof {
        let mirror = Seq::new(cell_of@.len(), |k: int| sway.cells@[cell_of@[k] as int]);
        assert forall|k: int| 0 <= k < cells@.len() implies #[trigger] cells@[k] == mirror[k] by {
            assert(copies(cells@, cell_of@, sway.cells@, k));
        }
        assert(cells@ == mirror);
    }
    plan.packed_tris = d.packed;
    plan.chunk_base = d.base;
    plan.chunk_node = d.node;
    Some(SwaySplit { first_chunk: first_chunk as u32, cells, cell_of, cell: sway.cell })
}

proof fn lemma_count_in_cell(s: Seq<u32>, tri_cell: Seq<u16>, c: u16, x: u32)
    ensures
        tally::count_of(in_cell(s, tri_cell, c), x) == if tri_cell[x as int] == c {
            tally::count_of(s, x)
        } else {
            0
        },
    decreases s.len(),
{
    if s.len() > 0 {
        lemma_count_in_cell(s.drop_last(), tri_cell, c, x);
        tally::lemma_count_push(in_cell(s.drop_last(), tri_cell, c), s.last(), x);
    }
}

proof fn lemma_count_by_cell(s: Seq<u32>, tri_cell: Seq<u16>, n: int, x: u32)
    requires
        0 <= n <= STATIC_CELL,
    ensures
        tally::count_of(by_cell(s, tri_cell, n), x) == if tri_cell[x as int] < n {
            tally::count_of(s, x)
        } else {
            0
        },
    decreases n,
{
    if n > 0 {
        lemma_count_by_cell(s, tri_cell, n - 1, x);
        lemma_count_in_cell(s, tri_cell, (n - 1) as u16, x);
        tally::lemma_count_concat(
            by_cell(s, tri_cell, n - 1),
            in_cell(s, tri_cell, (n - 1) as u16),
            x,
        );
    }
}

proof fn lemma_count_absent(s: Seq<u32>, x: u32)
    requires
        !s.contains(x),
    ensures
        tally::count_of(s, x) == 0,
    decreases s.len(),
{
    if s.len() > 0 {
        assert(s[s.len() - 1] == s.last());
        assert forall|y: u32| s.drop_last().contains(y) implies s.contains(y) by {
            let i = s.drop_last().index_of(y);
            assert(s[i] == y);
        }
        lemma_count_absent(s.drop_last(), x);
    }
}

/// Re-cutting loses and doubles nothing: every triangle is packed as often
/// after the split as before it.
pub proof fn split_is_a_permutation(plan: &BlasPlan, sway: &SceneSway, x: u32)
    requires
        sway.wf(),
        sway.covers(plan),
    ensures
        tally::count_of(
            in_cell(plan.packed_tris@, sway.tri_cell@, STATIC_CELL) + by_cell(
                plan.packed_tris@,
                sway.tri_cell@,
                sway.cells@.len() as int,
            ),
            x,
        ) == tally::count_of(plan.packed_tris@, x),
{
    let s = plan.packed_tris@;
    let tc = sway.tri_cell@;
    let n = sway.cells@.len() as int;
    tally::lemma_count_concat(in_cell(s, tc, STATIC_CELL), by_cell(s, tc, n), x);
    lemma_count_in_cell(s, tc, STATIC_CELL, x);
    lemma_count_by_cell(s, tc, n, x);
    if x < tc.len() {
        assert(tc[x as int] == STATIC_CELL || tc[x as int] < n);
    } else {
        if s.contains(x) {
            let i = s.index_of(x);
            assert(s[i] < tc.len());
        }
        lemma_count_absent(s, x);
    }
}

proof fn lemma_in_cell_members(s: Seq<u32>, tri_cell: Seq<u16>, c: u16)
    ensures
        forall|i: int|
            0 <= i < in_cell(s, tri_cell, c).len() ==> tri_cell[#[trigger] in_cell(
                s,
                tri_cell,
                c,
            )[i] as int] == c,
    decreases s.len(),
{
    if s.len() > 0 {
        lemma_in_cell_members(s.drop_last(), tri_cell, c);
        let prev = in_cell(s.drop_last(), tri_cell, c);
        let all = in_cell(s, tri_cell, c);
        assert forall|i: int| 0 <= i < all.len() implies tri_cell[#[trigger] all[i] as int] == c by {
            if i < prev.len() {
                assert(all[i] == prev[i]);
            }
        }
    }
}

/// A chunk below the first sway chunk: not empty, and nothing in it sways.
pub open spec fn is_static_chunk(tri_cell: Seq<u16>, chunk: Chunk) -> bool {
    &&& chunk.0.len() > 0
    &&& forall|i: int| 0 <= i < chunk.0.len() ==> tri_cell[#[trigger] chunk.0[i] as int] == STATIC_CELL
}

/// A sway chunk: not empty, within the cap, without a node, and all of cell
/// `c`.
pub open spec fn is_run(tri_cell: Seq<u16>, cap: int, c: u32, chunk: Chunk) -> bool {
    &&& 0 < chunk.0.len() <= cap
    &&& chunk.1 == NO_NODE
    &&& forall|i: int| 0 <= i < chunk.0.len() ==> tri_cell[#[trigger] chunk.0[i] as int] == c
}

proof fn lemma_static_chunks(plan: &BlasPlan, tri_cell: Seq<u16>, n: int, i: int)
    requires
        0 <= i < static_chunks(plan, tri_cell, n).len(),
    ensures
        is_static_chunk(tri_cell, static_chunks(plan, tri_cell, n)[i]),
        exists|j: int|
            0 <= j < n && #[trigger] plan.chunk_node@[j] == static_chunks(plan, tri_cell, n)[i].1,
    decreases n,
{
    let prev = static_chunks(plan, tri_cell, n - 1);
    if i < prev.len() {
        lemma_static_chunks(plan, tri_cell, n - 1, i);
        let j = choose|j: int|
            0 <= j < n - 1 && #[trigger] plan.chunk_node@[j] == prev[i].1;
        assert(plan.chunk_node@[j] == static_chunks(plan, tri_cell, n)[i].1);
    } else {
        lemma_in_cell_members(plan.chunk(n - 1), tri_cell, STATIC_CELL);
        assert(plan.chunk_node@[n - 1] == static_chunks(plan, tri_cell, n)[i].1);
    }
}

proof fn lemma_runs(s: Seq<u32>, tri_cell: Seq<u16>, cap: int, c: u16, off: int, i: int)
    requires
        cap >= 1,
        0 <= off,
        forall|j: int| 0 <= j < s.len() ==> tri_cell[#[trigger] s[j] as int] == c,
        0 <= i < runs(s, cap, off).len(),
    ensures
        is_run(tri_cell, cap, c as u32, runs(s, cap, off)[i]),
    decreases s.len() - off,
{
    let end = if off + cap <= s.len() {
        off + cap
    } else {
        s.len() as int
    };
    if i > 0 {
        lemma_runs(s, tri_cell, cap, c, end, i - 1);
        assert(runs(s, cap, off)[i] == runs(s, cap, end)[i - 1]);
    } else {
        let chunk = runs(s, cap, off)[0];
        assert(chunk.0 == s.subrange(off, end));
    }
}

proof fn lemma_sway_chunks(packed: Seq<u32>, tri_cell: Seq<u16>, cap: int, n: int, i: int)
    requires
        cap >= 1,
        0 <= n <= MAX_CELLS,
        0 <= i < sway_chunks(packed, tri_cell, cap, n).len(),
    ensures
        run_cells(packed, tri_cell, cap, n).len() == sway_chunks(packed, tri_cell, cap, n).len(),
        run_cells(packed, tri_cell, cap, n)[i] < n,
        is_run(
            tri_cell,
            cap,
            run_cells(packed, tri_cell, cap, n)[i],
            sway_chunks(packed, tri_cell, cap, n)[i],
        ),
    decreases n,
{
    lemma_run_cells_len(packed, tri_cell, cap, n);
    lemma_run_cells_len(packed, tri_cell, cap, n - 1);
    let prev = sway_chunks(packed, tri_cell, cap, n - 1);
    if i < prev.len() {
        lemma_sway_chunks(packed, tri_cell, cap, n - 1, i);
    } else {
        let c = (n - 1) as u16;
        lemma_in_cell_members(packed, tri_cell, c);
        lemma_runs(in_cell(packed, tri_cell, c), tri_cell, cap, c, 0, i - prev.len());
    }
}

proof fn lemma_run_cells_len(packed: Seq<u32>, tri_cell: Seq<u16>, cap: int, n: int)
    ensures
        run_cells(packed, tri_cell, cap, n).len() == sway_chunks(packed, tri_cell, cap, n).len(),
    decreases n,
{
    if n > 0 {
        lemma_run_cells_len(packed, tri_cell, cap, n - 1);
    }
}

/// Every chunk of a re-cut plan is on the right side: below `first_chunk` it
/// is a non-empty static chunk that kept its node; from there on it is a
/// non-empty run of one cell, no longer than the cap and without a node, and
/// the split record names that cell.
pub proof fn split_separates_static_from_sway(
    plan: &BlasPlan,
    sway: &SceneSway,
    max_prims: u32,
    split: &SwaySplit,
    i: int,
)
    requires
        sway.wf(),
        split.describes(plan, sway, max_prims),
        0 <= i < split_list(plan, sway, max_prims).len(),
    ensures
        ({
            let chunk = split_list(plan, sway, max_prims)[i];
            if i < split.first_chunk {
                &&& is_static_chunk(sway.tri_cell@, chunk)
                &&& exists|j: int|
                    0 <= j < plan.chunk_node@.len() && #[trigger] plan.chunk_node@[j] == chunk.1
            } else {
                let k = i - split.first_chunk;
                &&& k < split.cell_of@.len()
                &&& split.cells@.len() == split.cell_of@.len()
                &&& is_run(sway.tri_cell@, run_cap(max_prims), split.cell_of@[k], chunk)
                &&& split.cells@[k] == sway.cells@[split.cell_of@[k] as int]
            }
        }),
{
    let n = plan.chunk_node@.len() as int;
    let m = sway.cells@.len() as int;
    if i < split.first_chunk {
        lemma_static_chunks(plan, sway.tri_cell@, n, i);
    } else {
        lemma_run_cells_len(plan.packed_tris@, sway.tri_cell@, run_cap(max_prims), m);
        lemma_sway_chunks(
            plan.packed_tris@,
            sway.tri_cell@,
            run_cap(max_prims),
            m,
            i - split.first_chunk,
        );
    }
}

proof fn lemma_full_runs(s: Seq<u32>, cap: int, off: int, i: int)
    requires
        cap >= 1,
        0 <= off,
        0 <= i < runs(s, cap, off).len(),
    ensures
        i + 1 < runs(s, cap, off).len() ==> runs(s, cap, off)[i].0.len() == cap,
        runs(s, cap, off)[i].0 == s.subrange(
            off + cap * i,
            off + cap * i + runs(s, cap, off)[i].0.len(),
        ),
        off + cap * i + runs(s, cap, off)[i].0.len() <= s.len(),
        i + 1 == runs(s, cap, off).len() ==> off + cap * i + runs(s, cap, off)[i].0.len() == s.len(),
    decreases s.len() - off,
{
    let end = if off + cap <= s.len() {
        off + cap
    } else {
        s.len() as int
    };
    if i > 0 {
        lemma_full_runs(s, cap, end, i - 1);
        assert(runs(s, cap, off)[i] == runs(s, cap, end)[i - 1]);
        assert(cap * i == cap * (i - 1) + cap) by (nonlinear_arith);
    } else {
        assert(runs(s, cap, off)[0].0 == s.subrange(off, end));
        assert(cap * 0 == 0);
        if runs(s, cap, off).len() > 1 {
            assert(runs(s, cap, end).len() > 0);
        }
    }
}

proof fn lemma_neighbours(packed: Seq<u32>, tri_cell: Seq<u16>, cap: int, n: int, i: int)
    requires
        cap >= 1,
        0 <= n <= MAX_CELLS,
        0 <= i,
        i + 1 < sway_chunks(packed, tri_cell, cap, n).len(),
    ensures
        ({
            let (of, list) = (
                run_cells(packed, tri_cell, cap, n),
                sway_chunks(packed, tri_cell, cap, n),
            );
            &&& of.len() == list.len()
            &&& of[i] <= of[i + 1]
            &&& of[i] == of[i + 1] ==> list[i].0.len() == cap
        }),
    decreases n,
{
    lemma_run_cells_len(packed, tri_cell, cap, n);
    lemma_run_cells_len(packed, tri_cell, cap, n - 1);
    let prev = sway_chunks(packed, tri_cell, cap, n - 1);
    if i + 1 < prev.len() {
        lemma_neighbours(packed, tri_cell, cap, n - 1, i);
    } else if i < prev.len() {
        lemma_sway_chunks(packed, tri_cell, cap, n - 1, i);
    } else {
        lemma_full_runs(in_cell(packed, tri_cell, (n - 1) as u16), cap, 0, i - prev.len());
    }
}

/// Runs are as long as they may be, and cells come in order: of two sway chunks
/// that follow each other the second is of the same cell or a later one, and
/// where it is of the same, the first is full. A cap of zero counts as one.
pub proof fn runs_are_full_and_in_order(
    plan: &BlasPlan,
    sway: &SceneSway,
    max_prims: u32,
    split: &SwaySplit,
    i: int,
)
    requires
        sway.wf(),
        split.describes(plan, sway, max_prims),
        split.first_chunk <= i,
        i + 1 < split_list(plan, sway, max_prims).len(),
    ensures
        ({
            let k = i - split.first_chunk;
            let (list, of) = (split_list(plan, sway, max_prims), split.cell_of@);
            &&& of.len() == list.len() - split.first_chunk
            &&& of[k] <= of[k + 1]
            &&& of[k] == of[k + 1] && max_prims > 0 ==> list[i].0.len() == max_prims
            &&& of[k] == of[k + 1] && max_prims == 0 ==> list[i].0.len() == 1
            &&& max_prims > 0 ==> list[i].0.len() <= max_prims
            &&& split.cell == sway.cell
        }),
{
    let (tc, cap, n) = (sway.tri_cell@, run_cap(max_prims), sway.cells@.len() as int);
    let k = i - split.first_chunk;
    lemma_run_cells_len(plan.packed_tris@, tc, cap, n);
    lemma_neighbours(plan.packed_tris@, tc, cap, n, k);
    lemma_sway_chunks(plan.packed_tris@, tc, cap, n, k);
}

/// The triangles of a cell are those of the list that name it, in the list's
/// order.
pub proof fn cells_pick_their_triangles(s: Seq<u32>, tri_cell: Seq<u16>, c: u16)
    ensures
        in_cell(s, tri_cell, c) == s.filter(|t: u32| tri_cell[t as int] == c),
    decreases s.len(),
{
    reveal(Seq::filter);
    if s.len() > 0 {
        cells_pick_their_triangles(s.drop_last(), tri_cell, c);
    }
}

proof fn lemma_static_at(plan: &BlasPlan, tri_cell: Seq<u16>, j: int, n: int)
    requires
        0 <= j < n,
        in_cell(plan.chunk(j), tri_cell, STATIC_CELL).len() > 0,
    ensures
        ({
            let (list, i) = (
                static_chunks(plan, tri_cell, n),
                static_chunks(plan, tri_cell, j).len() as int,
            );
            &&& i < list.len()
            &&& list[i] == (in_cell(plan.chunk(j), tri_cell, STATIC_CELL), plan.chunk_node@[j])
        }),
    decreases n,
{
    if j < n - 1 {
        lemma_static_at(plan, tri_cell, j, n - 1);
    }
}

proof fn lemma_static_grows(plan: &BlasPlan, tri_cell: Seq<u16>, j: int, n: int)
    requires
        0 <= j <= n,
    ensures
        static_chunks(plan, tri_cell, j).len() <= static_chunks(plan, tri_cell, n).len(),
    decreases n,
{
    if j < n {
        lemma_static_grows(plan, tri_cell, j, n - 1);
    }
}

/// What does not sway stays where it was: a chunk with a triangle that does not
/// is there after the cut, with those triangles in their order and its own node,
/// ahead of the chunks that come after it.
pub proof fn static_chunks_keep_what_stays(
    plan: &BlasPlan,
    sway: &SceneSway,
    max_prims: u32,
    split: &SwaySplit,
    j: int,
    k: int,
)
    requires
        split.describes(plan, sway, max_prims),
        0 <= j < k < plan.chunk_node@.len(),
        plan.chunk(j).filter(|t: u32| sway.tri_cell@[t as int] == u16::MAX).len() > 0,
        plan.chunk(k).filter(|t: u32| sway.tri_cell@[t as int] == u16::MAX).len() > 0,
    ensures
        exists|a: int, b: int|
            0 <= a < b < split.first_chunk && #[trigger] split_list(plan, sway, max_prims)[a] == (
                plan.chunk(j).filter(|t: u32| sway.tri_cell@[t as int] == u16::MAX),
                plan.chunk_node@[j],
            ) && #[trigger] split_list(plan, sway, max_prims)[b] == (
                plan.chunk(k).filter(|t: u32| sway.tri_cell@[t as int] == u16::MAX),
                plan.chunk_node@[k],
            ),
{
    let (tc, n) = (sway.tri_cell@, plan.chunk_node@.len() as int);
    cells_pick_their_triangles(plan.chunk(j), tc, STATIC_CELL);
    cells_pick_their_triangles(plan.chunk(k), tc, STATIC_CELL);
    let (a, b) = (
        static_chunks(plan, tc, j).len() as int,
        static_chunks(plan, tc, k).len() as int,
    );
    lemma_static_at(plan, tc, j, n);
    lemma_static_at(plan, tc, k, n);
    lemma_static_grows(plan, tc, j + 1, k);
    let list = split_list(plan, sway, max_prims);
    assert(list[a] == static_chunks(plan, tc, n)[a]);
    assert(list[b] == static_chunks(plan, tc, n)[b]);
}

} // verus!
