//! The wide tree's upload form: boxes as bytes on a grid of their node's own,
//! rounded outward.
//!
//! The grid's values are float results that come from outside: what each of
//! the 256 steps decodes to, and a first guess for every face.
use vstd::prelude::*;
use crate::bits;
use crate::bits::{BitsBox, INFINITY, NEG_INFINITY};
use crate::ftree::collapse::{FTree, Slot, INVALID, WIDTH};

verus! {

/// Steps of a grid.
pub const STEPS: usize = 256;

/// One axis of a node's frame: the least and the greatest coordinate of its
/// slots' boxes.
#[derive(Clone, Copy, Debug, PartialEq, Eq, Structural)]
pub struct Span {
    pub org: u32,
    pub top: u32,
}

/// One axis of a node's grid: its step, zero where the frame is flat, what
/// each step decodes to, and a first guess for each slot's two faces.
pub struct Grid {
    pub step: u32,
    pub decoded: Vec<u32>,
    pub min_guess: Vec<u8>,
    pub max_guess: Vec<u8>,
}

/// One axis of a quantized node.
pub struct QAxis {
    pub org: u32,
    pub sca: u32,
    pub qmn: Vec<u8>,
    pub qmx: Vec<u8>,
}

/// A quantized node: three axes, the wide nodes behind the eight places, and
/// which places hold a slot.
pub struct QFNode {
    pub axes: Vec<QAxis>,
    pub child: Vec<u32>,
    pub occ: u32,
}

/// The coordinate of a box's lower corner on an axis.
pub open spec fn low(b: BitsBox, axis: int) -> u32 {
    if axis == 0 {
        b.lo.x
    } else if axis == 1 {
        b.lo.y
    } else {
        b.lo.z
    }
}

/// The coordinate of a box's upper corner on an axis.
pub open spec fn high(b: BitsBox, axis: int) -> u32 {
    if axis == 0 {
        b.hi.x
    } else if axis == 1 {
        b.hi.y
    } else {
        b.hi.z
    }
}

/// A coordinate pair of a box.
fn faces(b: &BitsBox, axis: usize) -> (r: (u32, u32))
    requires
        axis < 3,
    ensures
        r.0 == low(*b, axis as int),
        r.1 == high(*b, axis as int),
{
    if axis == 0 {
        (b.lo.x, b.hi.x)
    } else if axis == 1 {
        (b.lo.y, b.hi.y)
    } else {
        (b.lo.z, b.hi.z)
    }
}

/// The frame of the first `n` slots on an axis. What is not a number is
/// passed over.
pub open spec fn span_of(slots: Seq<Slot>, axis: int, n: int) -> Span
    decreases n,
{
    if n <= 0 {
        Span { org: INFINITY, top: NEG_INFINITY }
    } else {
        let s = span_of(slots, axis, n - 1);
        let (a, b) = (low(slots[n - 1].aabb, axis), high(slots[n - 1].aabb, axis));
        Span {
            org: if bits::lt(a, s.org) {
                a
            } else {
                s.org
            },
            top: if bits::lt(s.top, b) {
                b
            } else {
                s.top
            },
        }
    }
}

/// The value is finite.
pub open spec fn is_finite(b: u32) -> bool {
    bits::magnitude(b) < INFINITY
}

/// The next number up from one that is finite and not negative.
pub fn bump_up(x: u32) -> (r: u32)
    requires
        x < INFINITY,
    ensures
        r == x + 1,
        bits::lt(x, r),
        forall|y: u32| #[trigger] bits::lt(x, y) ==> bits::le(r, y),
{
    x + 1
}

/// The step that a lower face is rounded to: from the guess down to the first
/// that decodes to no more than the face, or to zero.
pub open spec fn rounds_down(decoded: Seq<u32>, guess: u8, v: u32, q: u8) -> bool {
    &&& q <= guess
    &&& q == 0 || !bits::lt(v, decoded[q as int])
    &&& forall|i: int| q < i <= guess ==> bits::lt(v, #[trigger] decoded[i])
}

/// The step that an upper face is rounded to: from the guess up to the first
/// that decodes to no less than the face, or to the last.
pub open spec fn rounds_up(decoded: Seq<u32>, guess: u8, v: u32, q: u8) -> bool {
    &&& guess <= q
    &&& q == 255 || !bits::lt(decoded[q as int], v)
    &&& forall|i: int| guess <= i < q ==> bits::lt(#[trigger] decoded[i], v)
}

/// A lower face on the grid; zero on a flat axis.
pub fn quantize_min(grid: &Grid, guess: u8, v: u32) -> (q: u8)
    requires
        grid.decoded@.len() == STEPS,
    ensures
        if grid.step == 0 {
            q == 0
        } else {
            rounds_down(grid.decoded@, guess, v, q)
        },
{
    if grid.step == 0 {
        return 0;
    }
    let mut q: u8 = guess;
    while q > 0 && bits::is_lt(v, grid.decoded[q as usize])
        invariant
            grid.decoded@.len() == STEPS,
            q <= guess,
            forall|i: int| q < i <= guess ==> bits::lt(v, #[trigger] grid.decoded@[i]),
        decreases q,
    {
        q = q - 1;
    }
    q
}

/// An upper face on the grid; zero on a flat axis.
pub fn quantize_max(grid: &Grid, guess: u8, v: u32) -> (q: u8)
    requires
        grid.decoded@.len() == STEPS,
    ensures
        if grid.step == 0 {
            q == 0
        } else {
            rounds_up(grid.decoded@, guess, v, q)
        },
{
    if grid.step == 0 {
        return 0;
    }
    let mut q: u8 = guess;
    while q < 255 && bits::is_lt(grid.decoded[q as usize], v)
        invariant
            grid.decoded@.len() == STEPS,
            guess <= q,
            forall|i: int| guess <= i < q ==> bits::lt(#[trigger] grid.decoded@[i], v),
        decreases 255 - q,
    {
        q = q + 1;
    }
    q
}

/// The grid has every value that the slots need.
pub open spec fn serves(grid: Grid, slots: Seq<Slot>) -> bool {
    &&& grid.decoded@.len() == STEPS
    &&& grid.min_guess@.len() >= slots.len()
    &&& grid.max_guess@.len() >= slots.len()
}

/// The quantized axis of a node: where the frame is finite its origin and the
/// grid's step, else zero; every slot's faces rounded outward, the other
/// places zero.
pub open spec fn axis_says(slots: Seq<Slot>, axis: int, grid: Grid, q: QAxis) -> bool {
    let span = span_of(slots, axis, slots.len() as int);
    &&& q.qmn@.len() == WIDTH
    &&& q.qmx@.len() == WIDTH
    &&& q.org == if is_finite(span.org) {
        span.org
    } else {
        0
    }
    &&& q.sca == if is_finite(span.org) {
        grid.step
    } else {
        0
    }
    &&& forall|s: int| 0 <= s < WIDTH ==> #[trigger] lane_says(slots, axis, grid, q, s)
}

/// One place of a quantized axis.
pub open spec fn lane_says(slots: Seq<Slot>, axis: int, grid: Grid, q: QAxis, s: int) -> bool {
    if s < slots.len() && q.sca != 0 {
        &&& rounds_down(
            grid.decoded@,
            grid.min_guess@[s],
            low(slots[s].aabb, axis),
            q.qmn@[s],
        )
        &&& rounds_up(grid.decoded@, grid.max_guess@[s], high(slots[s].aabb, axis), q.qmx@[s])
    } else {
        q.qmn@[s] == 0 && q.qmx@[s] == 0
    }
}

/// The wide node behind a place, or none.
pub open spec fn place_child(slots: Seq<Slot>, s: int) -> u32 {
    if s < slots.len() {
        slots[s].child
    } else {
        INVALID
    }
}

/// Place `s` is marked as occupied.
pub open spec fn is_occupied(occ: u32, s: u32) -> bool {
    occ & (1u32 << s) != 0
}

/// The quantized form of a node.
pub open spec fn node_says(slots: Seq<Slot>, grids: Seq<Grid>, q: QFNode) -> bool {
    &&& q.axes@.len() == 3
    &&& forall|a: int| 0 <= a < 3 ==> axis_says(slots, a, grids[a], #[trigger] q.axes@[a])
    &&& q.child@.len() == WIDTH
    &&& forall|s: int| 0 <= s < WIDTH ==> #[trigger] q.child@[s] == place_child(slots, s)
    &&& forall|s: u32| s < WIDTH ==> (#[trigger] is_occupied(q.occ, s) <==> s < slots.len())
    &&& q.occ < 256
}

/// One axis of a node, on its grid.
fn quantize_axis(slots: &Vec<Slot>, axis: usize, span: Span, grid: &Grid) -> (q: QAxis)
    requires
        axis < 3,
        slots@.len() <= WIDTH,
        span == span_of(slots@, axis as int, slots@.len() as int),
        serves(*grid, slots@),
    ensures
        axis_says(slots@, axis as int, *grid, q),
{
    let m: u32 = if span.org >= bits::SIGN {
        span.org - bits::SIGN
    } else {
        span.org
    };
    let finite: bool = m < INFINITY;
    let org: u32 = if finite {
        span.org
    } else {
        0
    };
    let sca: u32 = if finite {
        grid.step
    } else {
        0
    };
    let mut q = QAxis { org, sca, qmn: Vec::new(), qmx: Vec::new() };
    let mut s: usize = 0;
    while s < WIDTH
        invariant
            s <= WIDTH,
            axis < 3,
            slots@.len() <= WIDTH,
            serves(*grid, slots@),
            q.org == org,
            q.sca == sca,
            sca != 0 ==> grid.step != 0,
            q.qmn@.len() == s,
            q.qmx@.len() == s,
            forall|k: int| 0 <= k < s ==> #[trigger] lane_says(slots@, axis as int, *grid, q, k),
        decreases WIDTH - s,
    {
        let ghost was = q;
        if s < slots.len() && sca != 0 {
            let (a, b) = faces(&slots[s].aabb, axis);
            let lo: u8 = quantize_min(grid, grid.min_guess[s], a);
            let hi: u8 = quantize_max(grid, grid.max_guess[s], b);
            q.qmn.push(lo);
            q.qmx.push(hi);
        } else {
            q.qmn.push(0);
            q.qmx.push(0);
        }
        assert forall|k: int| 0 <= k < s + 1 implies #[trigger] lane_says(
            slots@,
            axis as int,
            *grid,
            q,
            k,
        ) by {
            if k < s {
                assert(lane_says(slots@, axis as int, *grid, was, k));
            }
        }
        s = s + 1;
    }
    q
}

impl FTree {
    /// The frame of a node on an axis: the least and the greatest coordinate
    /// of its slots' boxes.
    pub fn frame(&self, i: usize, axis: usize) -> (span: Span)
        requires
            i < self.nodes@.len(),
            axis < 3,
        ensures
            span == span_of(
                self.nodes@[i as int].slots@,
                axis as int,
                self.nodes@[i as int].slots@.len() as int,
            ),
    {
        let slots = &self.nodes[i].slots;
        let n: usize = slots.len();
        let mut span = Span { org: INFINITY, top: NEG_INFINITY };
        let mut s: usize = 0;
        while s < n
            invariant
                s <= n,
                n == slots@.len(),
                axis < 3,
                span == span_of(slots@, axis as int, s as int),
            decreases n - s,
        {
            let (a, b) = faces(&slots[s].aabb, axis);
            let org: u32 = if bits::is_lt(a, span.org) {
                a
            } else {
                span.org
            };
            let top: u32 = if bits::is_lt(span.top, b) {
                b
            } else {
                span.top
            };
            span = Span { org, top };
            s = s + 1;
        }
        span
    }

    /// One node in its upload form, on the given grids for its three axes.
    pub fn quantize_node(&self, i: usize, grids: &Vec<Grid>) -> (q: QFNode)
        requires
            i < self.nodes@.len(),
            all_serve(grids@, self.nodes@[i as int].slots@),
        ensures
            node_says(self.nodes@[i as int].slots@, grids@, q),
    {
        let slots = &self.nodes[i].slots;
        let n: usize = slots.len();
        let mut axes: Vec<QAxis> = Vec::new();
        let mut a: usize = 0;
        while a < 3
            invariant
                a <= 3,
                i < self.nodes@.len(),
                *slots == self.nodes@[i as int].slots,
                slots@.len() <= WIDTH,
                grids@.len() == 3,
                forall|a: int| 0 <= a < 3 ==> serves(#[trigger] grids@[a], slots@),
                axes@.len() == a,
                forall|k: int|
                    0 <= k < a ==> axis_says(slots@, k, grids@[k], #[trigger] axes@[k]),
            decreases 3 - a,
        {
            let span = self.frame(i, a);
            assert(serves(grids@[a as int], slots@));
            let q = quantize_axis(slots, a, span, &grids[a]);
            axes.push(q);
            a = a + 1;
        }
        let mut child: Vec<u32> = Vec::new();
        let mut s: usize = 0;
        while s < WIDTH
            invariant
                s <= WIDTH,
                n == slots@.len(),
                child@.len() == s,
                forall|k: int| 0 <= k < s ==> #[trigger] child@[k] == place_child(slots@, k),
            decreases WIDTH - s,
        {
            let c: u32 = if s < n {
                slots[s].child
            } else {
                INVALID
            };
            child.push(c);
            s = s + 1;
        }
        let k: u32 = n as u32;
        assert(1u32 << k >= 1 && 1u32 << k <= 256) by (bit_vector)
            requires
                k <= 8,
        ;
        let occ: u32 = (1u32 << k) - 1;
        assert forall|s: u32| s < WIDTH implies (#[trigger] is_occupied(occ, s) <==> s < n) by {
            assert((((1u32 << k) - 1) as u32 & (1u32 << s) != 0) <==> s < k) by (bit_vector)
                requires
                    k <= 8,
                    s < 8,
            ;
        }
        QFNode { axes, child, occ }
    }

    /// Every node in its upload form, under the same id.
    pub fn quantized(&self, grids: &Vec<Vec<Grid>>) -> (q: Vec<QFNode>)
        requires
            grids@.len() == self.nodes@.len(),
            forall|i: int|
                0 <= i < self.nodes@.len() ==> #[trigger] all_serve(
                    grids@[i]@,
                    self.nodes@[i].slots@,
                ),
        ensures
            q@.len() == self.nodes@.len(),
            forall|i: int|
                0 <= i < q@.len() ==> node_says(
                    self.nodes@[i].slots@,
                    grids@[i]@,
                    #[trigger] q@[i],
                ),
    {
        let n: usize = self.nodes.len();
        let mut q: Vec<QFNode> = Vec::new();
        let mut i: usize = 0;
        while i < n
            invariant
                i <= n,
                n == self.nodes@.len(),
                grids@.len() == n,
                forall|i: int|
                    0 <= i < n ==> #[trigger] all_serve(grids@[i]@, self.nodes@[i].slots@),
                q@.len() == i,
                forall|k: int|
                    0 <= k < i ==> node_says(
                        self.nodes@[k].slots@,
                        grids@[k]@,
                        #[trigger] q@[k],
                    ),
            decreases n - i,
        {
            assert(all_serve(grids@[i as int]@, self.nodes@[i as int].slots@));
            let node = self.quantize_node(i, &grids[i]);
            q.push(node);
            i = i + 1;
        }
        q
    }
}

/// The three grids have every value that the slots need.
pub open spec fn all_serve(grids: Seq<Grid>, slots: Seq<Slot>) -> bool {
    &&& slots.len() <= WIDTH
    &&& grids.len() == 3
    &&& forall|a: int| 0 <= a < 3 ==> serves(#[trigger] grids[a], slots)
}

/// A node without slots is uploaded with no place marked, so that whoever
/// reads the root of an empty tree finds nothing in it.
pub proof fn bare_nodes_upload_no_slot(grids: Seq<Grid>, q: QFNode)
    requires
        node_says(Seq::empty(), grids, q),
    ensures
        q.occ == 0,
{
    let o = q.occ;
    assert(!is_occupied(o, 0) && !is_occupied(o, 1) && !is_occupied(o, 2) && !is_occupied(o, 3)
        && !is_occupied(o, 4) && !is_occupied(o, 5) && !is_occupied(o, 6) && !is_occupied(o, 7));
    assert(o == 0) by (bit_vector)
        requires
            o < 256,
            o & (1u32 << 0u32) == 0,
            o & (1u32 << 1u32) == 0,
            o & (1u32 << 2u32) == 0,
            o & (1u32 << 3u32) == 0,
            o & (1u32 << 4u32) == 0,
            o & (1u32 << 5u32) == 0,
            o & (1u32 << 6u32) == 0,
            o & (1u32 << 7u32) == 0,
    ;
}

/// The grid spans the frame: on a flat axis every step decodes to the frame's
/// only coordinate, elsewhere the first step decodes to its least and the last
/// to no less than its greatest.
pub open spec fn spans(grid: Grid, span: Span) -> bool {
    &&& grid.decoded@.len() == STEPS
    &&& bits::le(grid.decoded@[0], span.org)
    &&& if grid.step == 0 {
        bits::le(span.top, grid.decoded@[0])
    } else {
        bits::le(span.top, grid.decoded@[255])
    }
    &&& forall|i: int| 0 <= i < STEPS ==> !bits::is_nan(#[trigger] grid.decoded@[i])
}

/// No coordinate of the slots is below the frame or above it.
proof fn lemma_span_bounds(slots: Seq<Slot>, axis: int, n: int, s: int)
    requires
        0 <= s < n <= slots.len(),
        forall|k: int|
            0 <= k < n ==> !bits::is_nan(low((#[trigger] slots[k]).aabb, axis)) && !bits::is_nan(
                high(slots[k].aabb, axis),
            ),
    ensures
        bits::le(span_of(slots, axis, n).org, low(slots[s].aabb, axis)),
        bits::le(high(slots[s].aabb, axis), span_of(slots, axis, n).top),
    decreases n,
{
    lemma_span_numbers(slots, axis, n - 1);
    if s < n - 1 {
        lemma_span_bounds(slots, axis, n - 1, s);
    }
    assert(slots[n - 1] == slots[n - 1]);
    assert(!bits::is_nan(low(slots[n - 1].aabb, axis)));
}

proof fn lemma_span_numbers(slots: Seq<Slot>, axis: int, n: int)
    ensures
        !bits::is_nan(span_of(slots, axis, n).org),
        !bits::is_nan(span_of(slots, axis, n).top),
    decreases n,
{
    if n > 0 {
        lemma_span_numbers(slots, axis, n - 1);
    }
}

/// Rounding is outward: on a grid that spans the frame, every decoded box
/// holds the true one.
pub proof fn decoded_boxes_hold_the_true_ones(
    slots: Seq<Slot>,
    axis: int,
    grid: Grid,
    q: QAxis,
    s: int,
)
    requires
        0 <= axis < 3,
        0 <= s < slots.len() <= WIDTH,
        forall|k: int|
            0 <= k < slots.len() ==> !bits::is_nan(low((#[trigger] slots[k]).aabb, axis))
                && !bits::is_nan(high(slots[k].aabb, axis)),
        is_finite(span_of(slots, axis, slots.len() as int).org),
        spans(grid, span_of(slots, axis, slots.len() as int)),
        axis_says(slots, axis, grid, q),
    ensures
        bits::le(grid.decoded@[q.qmn@[s] as int], low(slots[s].aabb, axis)),
        bits::le(high(slots[s].aabb, axis), grid.decoded@[q.qmx@[s] as int]),
{
    assert(lane_says(slots, axis, grid, q, s));
    lemma_span_bounds(slots, axis, slots.len() as int, s);
    assert(!bits::is_nan(grid.decoded@[q.qmn@[s] as int]));
    assert(!bits::is_nan(grid.decoded@[q.qmx@[s] as int]));
}

proof fn lemma_span_attained(slots: Seq<Slot>, axis: int, n: int)
    requires
        0 < n <= slots.len(),
        forall|k: int|
            0 <= k < n ==> bits::lt(low((#[trigger] slots[k]).aabb, axis), INFINITY) && bits::lt(
                NEG_INFINITY,
                high(slots[k].aabb, axis),
            ),
    ensures
        exists|k: int| 0 <= k < n && low((#[trigger] slots[k]).aabb, axis) == span_of(slots, axis, n).org,
        exists|k: int| 0 <= k < n && high((#[trigger] slots[k]).aabb, axis) == span_of(slots, axis, n).top,
    decreases n,
{
    let s = slots[n - 1];
    assert(bits::lt(low(s.aabb, axis), INFINITY));
    if n > 1 {
        lemma_span_attained(slots, axis, n - 1);
        let a = choose|k: int|
            0 <= k < n - 1 && low((#[trigger] slots[k]).aabb, axis) == span_of(slots, axis, n - 1).org;
        let b = choose|k: int|
            0 <= k < n - 1 && high((#[trigger] slots[k]).aabb, axis) == span_of(slots, axis, n - 1).top;
        let (lo, hi) = (slots[a], slots[b]);
        if span_of(slots, axis, n).org != span_of(slots, axis, n - 1).org {
            assert(low(slots[n - 1].aabb, axis) == span_of(slots, axis, n).org);
        } else {
            assert(low(slots[a].aabb, axis) == span_of(slots, axis, n).org);
        }
        if span_of(slots, axis, n).top != span_of(slots, axis, n - 1).top {
            assert(high(slots[n - 1].aabb, axis) == span_of(slots, axis, n).top);
        } else {
            assert(high(slots[b].aabb, axis) == span_of(slots, axis, n).top);
        }
    } else {
        assert(span_of(slots, axis, 0) == Span { org: INFINITY, top: NEG_INFINITY });
        assert(low(slots[0].aabb, axis) == span_of(slots, axis, n).org);
        assert(high(slots[0].aabb, axis) == span_of(slots, axis, n).top);
    }
}

/// A node's frame is as wide as its slots: on each axis no box starts before it
/// or ends past it, and some box starts where it starts and some ends where it
/// ends.
pub proof fn frames_fit_their_slots(slots: Seq<Slot>, axis: int, span: Span)
    requires
        0 <= axis < 3,
        slots.len() > 0,
        span == span_of(slots, axis, slots.len() as int),
        forall|k: int|
            0 <= k < slots.len() ==> bits::lt(low((#[trigger] slots[k]).aabb, axis), INFINITY)
                && bits::lt(NEG_INFINITY, high(slots[k].aabb, axis)),
    ensures
        forall|k: int|
            0 <= k < slots.len() ==> {
                let b = (#[trigger] slots[k]).aabb;
                &&& axis == 0 ==> bits::le(span.org, b.lo.x) && bits::le(b.hi.x, span.top)
                &&& axis == 1 ==> bits::le(span.org, b.lo.y) && bits::le(b.hi.y, span.top)
                &&& axis == 2 ==> bits::le(span.org, b.lo.z) && bits::le(b.hi.z, span.top)
            },
        exists|k: int|
            0 <= k < slots.len() && {
                let b = (#[trigger] slots[k]).aabb;
                &&& axis == 0 ==> b.lo.x == span.org
                &&& axis == 1 ==> b.lo.y == span.org
                &&& axis == 2 ==> b.lo.z == span.org
            },
        exists|k: int|
            0 <= k < slots.len() && {
                let b = (#[trigger] slots[k]).aabb;
                &&& axis == 0 ==> b.hi.x == span.top
                &&& axis == 1 ==> b.hi.y == span.top
                &&& axis == 2 ==> b.hi.z == span.top
            },
{
    let n = slots.len() as int;
    assert forall|k: int| 0 <= k < n implies {
        let b = (#[trigger] slots[k]).aabb;
        &&& axis == 0 ==> bits::le(span.org, b.lo.x) && bits::le(b.hi.x, span.top)
        &&& axis == 1 ==> bits::le(span.org, b.lo.y) && bits::le(b.hi.y, span.top)
        &&& axis == 2 ==> bits::le(span.org, b.lo.z) && bits::le(b.hi.z, span.top)
    } by {
        lemma_span_bounds(slots, axis, n, k);
    }
    lemma_span_attained(slots, axis, n);
    let a = choose|k: int|
        0 <= k < n && low((#[trigger] slots[k]).aabb, axis) == span_of(slots, axis, n).org;
    let b = choose|k: int|
        0 <= k < n && high((#[trigger] slots[k]).aabb, axis) == span_of(slots, axis, n).top;
    let (x, y) = (slots[a], slots[b]);
}

/// A place of an uploaded node tells of its slot and of no other: the wide node
/// behind it, that it is taken, and on each axis the steps of its two faces. A
/// lower face walks down from its guess and stops at the first step that does
/// not lie past it, an upper one up in the same way. The places past the slots
/// are marked free and point nowhere.
pub proof fn places_tell_of_their_slots(
    slots: Seq<Slot>,
    grids: Seq<Grid>,
    q: QFNode,
    axis: int,
    s: u32,
)
    requires
        node_says(slots, grids, q),
        slots.len() <= 8,
        0 <= axis < 3,
        s < 8,
    ensures
        q.axes@.len() == 3,
        s < slots.len() ==> q.child@[s as int] == slots[s as int].child && q.occ & (1u32 << s) != 0,
        s >= slots.len() ==> q.child@[s as int] == u32::MAX && q.occ & (1u32 << s) == 0,
        ({
            let (g, a, at) = (grids[axis], q.axes@[axis], s as int);
            let b = slots[at].aabb;
            let (lo, hi) = if axis == 0 {
                (b.lo.x, b.hi.x)
            } else if axis == 1 {
                (b.lo.y, b.hi.y)
            } else {
                (b.lo.z, b.hi.z)
            };
            &&& a.sca == 0 || a.sca == g.step
            &&& s >= slots.len() || a.sca == 0 ==> a.qmn@[at] == 0 && a.qmx@[at] == 0
            &&& s < slots.len() && a.sca != 0 ==> {
                &&& a.qmn@[at] <= g.min_guess@[at]
                &&& a.qmn@[at] == 0 || !bits::lt(lo, g.decoded@[a.qmn@[at] as int])
                &&& forall|i: int|
                    a.qmn@[at] < i <= g.min_guess@[at] ==> bits::lt(lo, #[trigger] g.decoded@[i])
                &&& g.max_guess@[at] <= a.qmx@[at]
                &&& a.qmx@[at] == 255 || !bits::lt(g.decoded@[a.qmx@[at] as int], hi)
                &&& forall|i: int|
                    g.max_guess@[at] <= i < a.qmx@[at] ==> bits::lt(#[trigger] g.decoded@[i], hi)
            }
        }),
{
    assert(axis_says(slots, axis, grids[axis], q.axes@[axis]));
    assert(lane_says(slots, axis, grids[axis], q.axes@[axis], s as int));
    assert(q.child@[s as int] == place_child(slots, s as int));
    assert(is_occupied(q.occ, s) <==> s < slots.len());
}

/// A node is uploaded with its frame's origin and its grid's step, where the
/// origin is finite, else with zeros.
pub proof fn frames_are_uploaded_with_their_step(
    slots: Seq<Slot>,
    grids: Seq<Grid>,
    q: QFNode,
    axis: int,
)
    requires
        node_says(slots, grids, q),
        0 <= axis < 3,
    ensures
        ({
            let org = span_of(slots, axis, slots.len() as int).org;
            let a = q.axes@[axis];
            if org % 0x8000_0000 < 0x7f80_0000 {
                a.org == org && a.sca == grids[axis].step
            } else {
                a.org == 0 && a.sca == 0
            }
        }),
{
    assert(axis_says(slots, axis, grids[axis], q.axes@[axis]));
}

} // verus!
