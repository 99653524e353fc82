//! Bound queries on the binary hierarchy: how near geometry inside a frustum
//! can start, and which nodes a narrower frustum still has to look at.
//!
//! Distances are floats held as their bit patterns, and compared as floats are.
//! A frustum is known by what it says of each node's box.
use vstd::prelude::*;
use crate::bits;
use crate::bits::{BitsBox, INFINITY};
use crate::bvh as tree;
use crate::bvh::{Bvh, BvhNode};

verus! {

/// Nodes that a tile's inherited cut may hold.
pub const MAX_CUT: u32 = 64;

/// What a frustum says of one box.
#[derive(Clone, Copy, Debug, PartialEq, Eq, Structural)]
pub struct Verdict {
    /// The box lies fully outside a side plane.
    pub outside: bool,
    /// Distance of the box's farthest point from the apex.
    pub farthest: u32,
    /// Distance of the box's nearest point.
    pub nearest: u32,
    /// Lower bound on the distance of what the box holds inside the frustum.
    pub range: u32,
}

/// What a bound query finds, and how many nodes it looked at.
#[derive(Clone, Copy, Debug)]
pub struct Bound {
    pub t: Option<u32>,
    pub visits: u64,
}

/// The box holds nothing past `t_start` inside the frustum.
pub open spec fn dropped(v: Verdict, t_start: u32) -> bool {
    v.outside || bits::le(v.farthest, t_start)
}

/// The bound that a box gives, never nearer than `t_start`: the larger of the
/// two, and `t_start` where the box's own is not a number.
pub open spec fn key(v: Verdict, t_start: u32) -> u32 {
    if bits::is_nan(v.range) || bits::lt(v.range, t_start) {
        t_start
    } else {
        v.range
    }
}

/// Whether the box holds nothing past `t_start` inside the frustum.
pub(crate) fn is_dropped(v: &Verdict, t_start: u32) -> (r: bool)
    ensures
        r == dropped(*v, t_start),
{
    v.outside || bits::is_le(v.farthest, t_start)
}

/// The bound that a box gives.
pub(crate) fn key_of(v: &Verdict, t_start: u32) -> (d: u32)
    ensures
        d == key(*v, t_start),
        !bits::is_nan(t_start) ==> !bits::is_nan(d),
{
    if !bits::is_le(v.range, v.range) || bits::is_lt(v.range, t_start) {
        t_start
    } else {
        v.range
    }
}

/// The box cannot bring the bound below `best`.
pub open spec fn stops(v: Verdict, t_start: u32, best: u32) -> bool {
    dropped(v, t_start) || bits::le(best, key(v, t_start))
}

/// Some box on the path cannot bring the bound below `best`.
pub open spec fn blocked(table: Seq<Verdict>, t_start: u32, best: u32, p: Seq<int>) -> bool {
    exists|k: int| 0 <= k < p.len() && stops(table[#[trigger] p[k]], t_start, best)
}

/// A leaf under `b` gives exactly this bound.
pub open spec fn attained(
    nodes: Seq<BvhNode>,
    table: Seq<Verdict>,
    t_start: u32,
    b: int,
    d: u32,
) -> bool {
    exists|l: int| #[trigger]
        tree::under(nodes, b, l) && nodes[l].count != 0 && !dropped(table[l], t_start) && key(
            table[l],
            t_start,
        ) == d
}

/// Every way from `b` down to a leaf is blocked.
pub open spec fn all_blocked(
    nodes: Seq<BvhNode>,
    table: Seq<Verdict>,
    t_start: u32,
    b: int,
    best: u32,
) -> bool {
    forall|p: Seq<int>| #[trigger]
        tree::to_leaf(nodes, b, p) ==> blocked(table, t_start, best, p)
}

/// The answer to a bound query over roots: a bound below the limit that a leaf
/// gives and that nothing undercuts, or none where nothing comes below the
/// limit.
pub open spec fn found(
    nodes: Seq<BvhNode>,
    table: Seq<Verdict>,
    t_start: u32,
    t_limit: u32,
    roots: Seq<u32>,
    t: Option<u32>,
) -> bool {
    match t {
        Some(d) => {
            &&& bits::lt(d, t_limit)
            &&& exists|i: int|
                0 <= i < roots.len() && attained(
                    nodes,
                    table,
                    t_start,
                    #[trigger] roots[i] as int,
                    d,
                )
            &&& forall|i: int|
                0 <= i < roots.len() ==> all_blocked(
                    nodes,
                    table,
                    t_start,
                    #[trigger] roots[i] as int,
                    d,
                )
        },
        None => forall|i: int|
            0 <= i < roots.len() ==> all_blocked(
                nodes,
                table,
                t_start,
                #[trigger] roots[i] as int,
                t_limit,
            ),
    }
}

/// The hierarchy is a tree under every root, and the table has a verdict for
/// every node.
pub open spec fn rooted(nodes: Seq<BvhNode>, table: Seq<Verdict>, roots: Seq<u32>) -> bool {
    &&& tree::links_inside(nodes)
    &&& nodes.len() <= u32::MAX
    &&& table.len() == nodes.len()
    &&& forall|i: int|
        0 <= i < roots.len() ==> #[trigger] roots[i] < nodes.len() && tree::is_tree(
            nodes,
            roots[i] as int,
        )
}

/// A lower bound blocks no less.
pub proof fn lemma_blocked_lower(
    nodes: Seq<BvhNode>,
    table: Seq<Verdict>,
    t_start: u32,
    b: int,
    hi: u32,
    lo: u32,
)
    requires
        all_blocked(nodes, table, t_start, b, hi),
        bits::le(lo, hi),
    ensures
        all_blocked(nodes, table, t_start, b, lo),
{
    assert forall|p: Seq<int>| #[trigger] tree::to_leaf(nodes, b, p) implies blocked(
        table,
        t_start,
        lo,
        p,
    ) by {
        assert(blocked(table, t_start, hi, p));
        let k = choose|k: int| 0 <= k < p.len() && stops(table[#[trigger] p[k]], t_start, hi);
        assert(stops(table[p[k]], t_start, lo));
    }
}

/// A node that stops blocks every way through it.
pub proof fn lemma_stopped(
    nodes: Seq<BvhNode>,
    table: Seq<Verdict>,
    t_start: u32,
    b: int,
    best: u32,
)
    requires
        stops(table[b], t_start, best),
    ensures
        all_blocked(nodes, table, t_start, b, best),
{
    assert forall|p: Seq<int>| #[trigger] tree::to_leaf(nodes, b, p) implies blocked(
        table,
        t_start,
        best,
        p,
    ) by {
        assert(p[0] == b);
    }
}

/// Ways through an internal node lead through a child.
proof fn lemma_children_blocked(
    nodes: Seq<BvhNode>,
    table: Seq<Verdict>,
    t_start: u32,
    b: int,
    best: u32,
)
    requires
        0 <= b < nodes.len(),
        nodes[b].count == 0,
        all_blocked(nodes, table, t_start, nodes[b].left_first as int, best),
        all_blocked(nodes, table, t_start, nodes[b].left_first + 1, best),
    ensures
        all_blocked(nodes, table, t_start, b, best),
{
    assert forall|p: Seq<int>| #[trigger] tree::to_leaf(nodes, b, p) implies blocked(
        table,
        t_start,
        best,
        p,
    ) by {
        assert(p.len() > 1);
        assert(tree::descends(nodes, p, 0));
        let q = p.skip(1);
        tree::lemma_tail(nodes, b, p, 1);
        assert(tree::to_leaf(nodes, p[1], q));
        assert(blocked(table, t_start, best, q));
        let k = choose|k: int| 0 <= k < q.len() && stops(table[#[trigger] q[k]], t_start, best);
        assert(p[k + 1] == q[k]);
    }
}

/// A bound that a child's leaf gives is the parent's too.
pub proof fn lemma_attained_up(
    nodes: Seq<BvhNode>,
    table: Seq<Verdict>,
    t_start: u32,
    b: int,
    c: int,
    d: u32,
)
    requires
        tree::under(nodes, b, c),
        attained(nodes, table, t_start, c, d),
    ensures
        attained(nodes, table, t_start, b, d),
{
    let l = choose|l: int| #[trigger]
        tree::under(nodes, c, l) && nodes[l].count != 0 && !dropped(table[l], t_start) && key(
            table[l],
            t_start,
        ) == d;
    tree::lemma_under_trans(nodes, b, c, l);
}

/// What looking under a node for a bound below `best` comes to, the near side
/// first: the bound, and how many nodes are looked at. `depth` caps the
/// levels.
pub open spec fn search(
    nodes: Seq<BvhNode>,
    table: Seq<Verdict>,
    t_start: u32,
    b: int,
    best: u32,
    depth: nat,
) -> (u32, nat)
    decreases depth,
{
    if depth == 0 || stops(table[b], t_start, best) {
        (best, 1)
    } else if nodes[b].count != 0 {
        (key(table[b], t_start), 1)
    } else {
        let l = nodes[b].left_first as int;
        let near_left = bits::le(table[l].nearest, table[l + 1].nearest);
        let one = search(
            nodes,
            table,
            t_start,
            if near_left {
                l
            } else {
                l + 1
            },
            best,
            (depth - 1) as nat,
        );
        let two = search(
            nodes,
            table,
            t_start,
            if near_left {
                l + 1
            } else {
                l
            },
            one.0,
            (depth - 1) as nat,
        );
        (two.0, 1 + one.1 + two.1)
    }
}

/// What looking under the first `n` roots comes to, one after the other.
pub open spec fn search_all(
    nodes: Seq<BvhNode>,
    table: Seq<Verdict>,
    t_start: u32,
    t_limit: u32,
    roots: Seq<u32>,
    n: int,
) -> (u32, nat)
    decreases n,
{
    if n <= 0 {
        (t_limit, 0)
    } else {
        let so_far = search_all(nodes, table, t_start, t_limit, roots, n - 1);
        let last = search(nodes, table, t_start, roots[n - 1] as int, so_far.0, nodes.len());
        (last.0, so_far.1 + last.1)
    }
}

/// Both distances are numbers.
pub open spec fn numbers(t_start: u32, best: u32) -> bool {
    !bits::is_nan(t_start) && !bits::is_nan(best)
}

/// The bound that a search ends with, where it came below the limit.
pub open spec fn below(best: u32, t_limit: u32) -> Option<u32> {
    if bits::lt(best, t_limit) {
        Some(best)
    } else {
        None
    }
}

/// Looks under one node for a bound below `best`, near side first.
fn visit(bvh: &Bvh, table: &Vec<Verdict>, t_start: u32, idx: u32, best: u32) -> (r: (u32, u64))
    requires
        tree::links_inside(bvh.nodes@),
        bvh.nodes@.len() <= u32::MAX,
        table@.len() == bvh.nodes@.len(),
        idx < bvh.nodes@.len(),
        tree::is_tree(bvh.nodes@, idx as int),
    ensures
        numbers(t_start, best) ==> r.0 == best || (bits::lt(r.0, best) && attained(
            bvh.nodes@,
            table@,
            t_start,
            idx as int,
            r.0,
        )),
        numbers(t_start, best) ==> all_blocked(bvh.nodes@, table@, t_start, idx as int, r.0),
        1 <= r.1 <= tree::weight(bvh.nodes@, idx as int),
        forall|depth: nat|
            depth >= tree::weight(bvh.nodes@, idx as int) ==> #[trigger] search(
                bvh.nodes@,
                table@,
                t_start,
                idx as int,
                best,
                depth,
            ) == (r.0, r.1 as nat),
    decreases tree::weight(bvh.nodes@, idx as int),
{
    let ghost nodes = bvh.nodes@;
    let ghost b = idx as int;
    proof {
        tree::lemma_family_finite(nodes, b);
    }
    let v = table[idx as usize];
    let node = bvh.nodes[idx as usize];
    if is_dropped(&v, t_start) {
        proof {
            lemma_stopped(nodes, table@, t_start, b, best);
        }
        return (best, 1);
    }
    let d: u32 = key_of(&v, t_start);
    if bits::is_le(best, d) {
        proof {
            lemma_stopped(nodes, table@, t_start, b, best);
        }
        return (best, 1);
    }
    if node.count > 0 {
        proof {
            tree::lemma_under_self(nodes, b);
            if numbers(t_start, best) {
                lemma_stopped(nodes, table@, t_start, b, d);
            }
        }
        return (d, 1);
    }
    let l: u32 = node.left_first;
    proof {
        assert(nodes[b].count == 0);
        assert(tree::is_child(nodes, b, l as int) && tree::is_child(nodes, b, l + 1));
        tree::lemma_lighter(nodes, b, l as int);
        tree::lemma_lighter(nodes, b, l + 1);
        tree::lemma_weight(nodes, b);
    }
    let near_left: bool = bits::is_le(
        table[l as usize].nearest,
        table[l as usize + 1].nearest,
    );
    let (first, second): (u32, u32) = if near_left {
        (l, l + 1)
    } else {
        (l + 1, l)
    };
    let (b1, n1) = visit(bvh, table, t_start, first, best);
    let (b2, n2) = visit(bvh, table, t_start, second, b1);
    proof {
        if numbers(t_start, best) {
            lemma_blocked_lower(nodes, table@, t_start, first as int, b1, b2);
            lemma_children_blocked(nodes, table@, t_start, b, b2);
        }
        tree::lemma_under_split(nodes, b, first as int);
        tree::lemma_under_split(nodes, b, second as int);
        tree::lemma_under_self(nodes, first as int);
        tree::lemma_under_self(nodes, second as int);
        if numbers(t_start, best) && b2 != best {
            if b2 != b1 {
                lemma_attained_up(nodes, table@, t_start, b, second as int, b2);
            } else {
                lemma_attained_up(nodes, table@, t_start, b, first as int, b1);
            }
        }
        assert forall|depth: nat| depth >= tree::weight(nodes, b) implies #[trigger] search(
            nodes,
            table@,
            t_start,
            b,
            best,
            depth,
        ) == (b2, (1 + n1 + n2) as nat) by {
            let less = (depth - 1) as nat;
            assert(search(nodes, table@, t_start, first as int, best, less) == (b1, n1 as nat));
            assert(search(nodes, table@, t_start, second as int, b1, less) == (b2, n2 as nat));
        }
    }
    (b2, 1 + n1 + n2)
}

/// How near geometry inside the frustum can start, past `t_start` and below
/// `t_limit`, looking under the given nodes. A start that is not a number
/// drops nothing, and no bound lies below a limit that is not one.
pub fn nearest_geometry_distance_within(
    bvh: &Bvh,
    table: &Vec<Verdict>,
    t_start: u32,
    t_limit: u32,
    roots: &[u32],
) -> (r: Bound)
    requires
        roots@.len() <= u32::MAX,
        bvh.tri_idx@.len() > 0 ==> rooted(bvh.nodes@, table@, roots@),
    ensures
        bvh.tri_idx@.len() == 0 ==> r.t is None && r.visits == roots@.len(),
        bvh.tri_idx@.len() > 0 && numbers(t_start, t_limit) ==> found(
            bvh.nodes@,
            table@,
            t_start,
            t_limit,
            roots@,
            r.t,
        ),
        bvh.tri_idx@.len() > 0 ==> ({
            let end = search_all(
                bvh.nodes@,
                table@,
                t_start,
                t_limit,
                roots@,
                roots@.len() as int,
            );
            r.t == below(end.0, t_limit) && r.visits == end.1
        }),
        bvh.tri_idx@.len() > 0 ==> roots@.len() <= r.visits <= roots@.len() * bvh.nodes@.len(),
{
    if bvh.tri_idx.len() == 0 {
        return Bound { t: None, visits: roots.len() as u64 };
    }
    let ghost nodes = bvh.nodes@;
    let mut best: u32 = t_limit;
    let mut visits: u64 = 0;
    let n: usize = roots.len();
    let mut i: usize = 0;
    while i < n
        invariant
            i <= n,
            n == roots@.len(),
            n <= u32::MAX,
            nodes == bvh.nodes@,
            rooted(nodes, table@, roots@),
            numbers(t_start, t_limit) ==> {
                &&& !bits::is_nan(best)
                &&& best == t_limit || bits::lt(best, t_limit)
                &&& best != t_limit ==> exists|j: int|
                    0 <= j < i && attained(
                        nodes,
                        table@,
                        t_start,
                        #[trigger] roots@[j] as int,
                        best,
                    )
                &&& forall|j: int|
                    0 <= j < i ==> all_blocked(
                        nodes,
                        table@,
                        t_start,
                        #[trigger] roots@[j] as int,
                        best,
                    )
            },
            i <= visits <= i * nodes.len(),
            search_all(nodes, table@, t_start, t_limit, roots@, i as int) == (best, visits as nat),
        decreases n - i,
    {
        let root: u32 = roots[i];
        let ghost was = best;
        proof {
            assert(roots@[i as int] == root);
            tree::lemma_family_finite(nodes, root as int);
            assert(i * nodes.len() + nodes.len() == (i + 1) * nodes.len()) by (nonlinear_arith);
            assert((i + 1) * nodes.len() <= 0xffff_ffff * 0xffff_ffff) by (nonlinear_arith)
                requires
                    i + 1 <= 0xffff_ffff,
                    nodes.len() <= 0xffff_ffff,
            ;
        }
        let (b, v) = visit(bvh, table, t_start, root, best);
        best = b;
        visits = visits + v;
        proof {
            assert(search(nodes, table@, t_start, root as int, was, nodes.len()) == (b, v as nat));
            if numbers(t_start, t_limit) {
                assert forall|j: int| 0 <= j < i + 1 implies all_blocked(
                    nodes,
                    table@,
                    t_start,
                    #[trigger] roots@[j] as int,
                    best,
                ) by {
                    if j < i {
                        lemma_blocked_lower(nodes, table@, t_start, roots@[j] as int, was, best);
                    }
                }
                if best != t_limit {
                    if best != was {
                        assert(attained(nodes, table@, t_start, roots@[i as int] as int, best));
                    } else {
                        let j = choose|j: int|
                            0 <= j < i && attained(
                                nodes,
                                table@,
                                t_start,
                                #[trigger] roots@[j] as int,
                                best,
                            );
                        assert(0 <= j < i + 1);
                    }
                }
            }
        }
        i = i + 1;
    }
    let t: Option<u32> = if bits::is_lt(best, t_limit) {
        Some(best)
    } else {
        None
    };
    Bound { t, visits }
}

/// How near geometry inside the frustum can start past `t_start`; none where
/// the frustum is empty.
pub fn nearest_geometry_distance(
    bvh: &Bvh,
    table: &Vec<Verdict>,
    t_start: u32,
    roots: &[u32],
) -> (r: Bound)
    requires
        roots@.len() <= u32::MAX,
        bvh.tri_idx@.len() > 0 ==> rooted(bvh.nodes@, table@, roots@),
    ensures
        bvh.tri_idx@.len() == 0 ==> r.t is None && r.visits == roots@.len(),
        bvh.tri_idx@.len() > 0 && !bits::is_nan(t_start) ==> found(
            bvh.nodes@,
            table@,
            t_start,
            INFINITY,
            roots@,
            r.t,
        ),
        bvh.tri_idx@.len() > 0 ==> ({
            let end = search_all(
                bvh.nodes@,
                table@,
                t_start,
                INFINITY,
                roots@,
                roots@.len() as int,
            );
            r.t == below(end.0, INFINITY) && r.visits == end.1
        }),
        bvh.tri_idx@.len() > 0 ==> roots@.len() <= r.visits <= roots@.len() * bvh.nodes@.len(),
{
    nearest_geometry_distance_within(bvh, table, t_start, INFINITY, roots)
}

/// A box says no less than the boxes inside it: what is outside stays outside,
/// and distances only tighten downward.
pub open spec fn nested(nodes: Seq<BvhNode>, table: Seq<Verdict>) -> bool {
    forall|i: int, c: int| #[trigger]
        tree::is_child(nodes, i, c) ==> {
            &&& table[i].outside ==> table[c].outside
            &&& bits::le(table[c].farthest, table[i].farthest)
            &&& bits::le(table[i].range, table[c].range)
        }
}

/// Box `a` holds box `b`.
pub open spec fn holds(a: BitsBox, b: BitsBox) -> bool {
    &&& bits::le(a.lo.x, b.lo.x) && bits::le(a.lo.y, b.lo.y) && bits::le(a.lo.z, b.lo.z)
    &&& bits::le(b.hi.x, a.hi.x) && bits::le(b.hi.y, a.hi.y) && bits::le(b.hi.z, a.hi.z)
}

/// What a frustum says of a box, it says no less of every box inside.
pub open spec fn tightens(f: spec_fn(BitsBox) -> Verdict) -> bool {
    forall|a: BitsBox, b: BitsBox| #[trigger]
        holds(a, b) ==> {
            &&& f(a).outside ==> f(b).outside
            &&& bits::le(f(b).farthest, f(a).farthest)
            &&& bits::le(f(a).range, f(b).range)
        }
}

/// A frustum whose verdicts tighten with the box gives a nested table over a
/// hierarchy whose boxes hold their children's.
pub proof fn tightening_verdicts_nest(
    nodes: Seq<BvhNode>,
    table: Seq<Verdict>,
    f: spec_fn(BitsBox) -> Verdict,
)
    requires
        tree::links_inside(nodes),
        table.len() == nodes.len(),
        forall|i: int| 0 <= i < nodes.len() ==> #[trigger] table[i] == f(nodes[i].aabb),
        forall|i: int, c: int| #[trigger]
            tree::is_child(nodes, i, c) ==> holds(nodes[i].aabb, nodes[c].aabb),
        tightens(f),
    ensures
        nested(nodes, table),
{
    assert forall|i: int, c: int| #[trigger] tree::is_child(nodes, i, c) implies {
        &&& table[i].outside ==> table[c].outside
        &&& bits::le(table[c].farthest, table[i].farthest)
        &&& bits::le(table[i].range, table[c].range)
    } by {
        assert(holds(nodes[i].aabb, nodes[c].aabb));
        assert(table[i] == f(nodes[i].aabb) && table[c] == f(nodes[c].aabb));
    }
}

/// A bound that is found lies below the limit, and no nearer than the start.
pub proof fn bounds_lie_past_the_start(
    nodes: Seq<BvhNode>,
    table: Seq<Verdict>,
    t_start: u32,
    t_limit: u32,
    roots: Seq<u32>,
    t: Option<u32>,
)
    requires
        !bits::is_nan(t_start),
        found(nodes, table, t_start, t_limit, roots, t),
    ensures
        t matches Some(d) ==> bits::le(t_start, d) && bits::lt(d, t_limit),
{
}

/// What stops at a node of a path stops at its end.
proof fn lemma_stops_down(
    nodes: Seq<BvhNode>,
    table: Seq<Verdict>,
    t_start: u32,
    best: u32,
    b: int,
    p: Seq<int>,
    k: int,
)
    requires
        nested(nodes, table),
        tree::is_path(nodes, b, p),
        0 <= k < p.len(),
        stops(table[p[k]], t_start, best),
    ensures
        stops(table[p.last()], t_start, best),
    decreases p.len() - k,
{
    if k < p.len() - 1 {
        assert(tree::descends(nodes, p, k));
        lemma_stops_down(nodes, table, t_start, best, b, p, k + 1);
    }
}

/// On nested boxes a bound query gives the least bound of any leaf that is not
/// dropped, and nothing only where no such leaf comes below the limit.
pub proof fn bound_is_the_least_leaf(
    nodes: Seq<BvhNode>,
    table: Seq<Verdict>,
    t_start: u32,
    t_limit: u32,
    roots: Seq<u32>,
    t: Option<u32>,
    i: int,
    l: int,
)
    requires
        tree::links_inside(nodes),
        nested(nodes, table),
        found(nodes, table, t_start, t_limit, roots, t),
        0 <= i < roots.len(),
        roots[i] < nodes.len(),
        tree::under(nodes, roots[i] as int, l),
        nodes[l].count != 0,
        !dropped(table[l], t_start),
    ensures
        match t {
            Some(d) => bits::le(d, key(table[l], t_start)),
            None => bits::le(t_limit, key(table[l], t_start)),
        },
{
    let b = roots[i] as int;
    let best = match t {
        Some(d) => d,
        None => t_limit,
    };
    let p = choose|p: Seq<int>| #[trigger] tree::leads_to(nodes, b, p, l);
    tree::lemma_under_inside(nodes, b, l);
    assert(tree::to_leaf(nodes, b, p));
    assert(all_blocked(nodes, table, t_start, roots[i] as int, best));
    assert(blocked(table, t_start, best, p));
    let k = choose|k: int| 0 <= k < p.len() && stops(table[#[trigger] p[k]], t_start, best);
    lemma_stops_down(nodes, table, t_start, best, b, p, k);
}

/// The leaves under the roots `a` are leaves under the roots `b`.
pub open spec fn leaves_within(nodes: Seq<BvhNode>, a: Seq<u32>, b: Seq<u32>) -> bool {
    forall|i: int, l: int|
        0 <= i < a.len() && #[trigger] tree::under(nodes, #[trigger] a[i] as int, l)
            && nodes[l].count != 0 ==> reached(nodes, b, l)
}

/// The node lies under one of the roots.
pub open spec fn reached(nodes: Seq<BvhNode>, roots: Seq<u32>, l: int) -> bool {
    exists|j: int| 0 <= j < roots.len() && tree::under(nodes, #[trigger] roots[j] as int, l)
}

/// Both queries find nothing, or both the same distance.
pub open spec fn agree(s: Option<u32>, t: Option<u32>) -> bool {
    match (s, t) {
        (Some(a), Some(b)) => bits::le(a, b) && bits::le(b, a),
        (None, None) => true,
        _ => false,
    }
}

/// On nested boxes two queries that reach the same leaves give the same
/// answer, whatever order or shape they were made in.
pub proof fn queries_over_the_same_leaves_agree(
    nodes: Seq<BvhNode>,
    table: Seq<Verdict>,
    t_start: u32,
    t_limit: u32,
    a: Seq<u32>,
    b: Seq<u32>,
    s: Option<u32>,
    t: Option<u32>,
)
    requires
        nested(nodes, table),
        rooted(nodes, table, a),
        rooted(nodes, table, b),
        leaves_within(nodes, a, b),
        leaves_within(nodes, b, a),
        found(nodes, table, t_start, t_limit, a, s),
        found(nodes, table, t_start, t_limit, b, t),
    ensures
        agree(s, t),
{
    lemma_no_less(nodes, table, t_start, t_limit, a, b, s, t);
    lemma_no_less(nodes, table, t_start, t_limit, b, a, t, s);
}

/// A query that reaches no leaf that another misses finds nothing below it.
proof fn lemma_no_less(
    nodes: Seq<BvhNode>,
    table: Seq<Verdict>,
    t_start: u32,
    t_limit: u32,
    a: Seq<u32>,
    b: Seq<u32>,
    s: Option<u32>,
    t: Option<u32>,
)
    requires
        nested(nodes, table),
        rooted(nodes, table, a),
        rooted(nodes, table, b),
        leaves_within(nodes, a, b),
        found(nodes, table, t_start, t_limit, a, s),
        found(nodes, table, t_start, t_limit, b, t),
    ensures
        s matches Some(d) ==> t matches Some(e) && bits::le(e, d),
{
    if let Some(d) = s {
        let i = choose|i: int|
            0 <= i < a.len() && attained(nodes, table, t_start, #[trigger] a[i] as int, d);
        let l = choose|l: int| #[trigger]
            tree::under(nodes, a[i] as int, l) && nodes[l].count != 0 && !dropped(
                table[l],
                t_start,
            ) && key(table[l], t_start) == d;
        assert(reached(nodes, b, l));
        let j = choose|j: int| 0 <= j < b.len() && tree::under(nodes, #[trigger] b[j] as int, l);
        bound_is_the_least_leaf(nodes, table, t_start, t_limit, b, t, j, l);
    }
}

/// A refined cut, how many nodes were looked at, and how many of its nodes
/// are internal because the budget ran out.
pub struct Cut {
    pub entries: Vec<u32>,
    pub visits: u64,
    pub overflows: u64,
}

/// No ray of the frustum can hit what the box holds: it lies outside, inside
/// the ball that was proven empty, or beyond the reach of every consumer.
pub open spec fn unhittable(v: Verdict, t_ball: u32, t_far: u32) -> bool {
    v.outside || bits::le(v.farthest, t_ball) || (bits::magnitude(t_far) < INFINITY && bits::le(
        t_far,
        v.nearest,
    ))
}

/// Whether no ray of the frustum can hit what the box holds.
pub fn cannot_hit(v: &Verdict, t_ball: u32, t_far: u32) -> (r: bool)
    ensures
        r == unhittable(*v, t_ball, t_far),
{
    let reach: u32 = if t_far >= bits::SIGN {
        t_far - bits::SIGN
    } else {
        t_far
    };
    v.outside || bits::is_le(v.farthest, t_ball) || (reach < INFINITY && bits::is_le(
        t_far,
        v.nearest,
    ))
}

/// A cut in the making: entries still to be looked at, the last one first, and
/// entries that are part of the cut.
pub struct Making {
    pub work: Seq<u32>,
    pub out: Seq<u32>,
    pub over: nat,
}

/// How a cut is made: what each entry splits into, what the frustum says of
/// it, the ball and the reach, and the budget.
pub struct Rule {
    pub parts: spec_fn(u32) -> Seq<u32>,
    pub verdict: spec_fn(u32) -> Verdict,
    pub t_ball: u32,
    pub t_far: u32,
    pub budget: nat,
}

/// Looks at one entry: it is left out, split where the budget allows, or made
/// part of the cut.
pub open spec fn look(rule: Rule, m: Making) -> Making {
    let e = m.work.last();
    let rest = m.work.drop_last();
    let parts = (rule.parts)(e);
    if unhittable((rule.verdict)(e), rule.t_ball, rule.t_far) {
        Making { work: rest, ..m }
    } else if parts.len() > 0 && m.out.len() + rest.len() + parts.len() <= rule.budget {
        Making { work: rest + parts, ..m }
    } else {
        Making {
            work: rest,
            out: m.out.push(e),
            over: if parts.len() > 0 {
                m.over + 1
            } else {
                m.over
            },
        }
    }
}

/// The making after `n` looks.
pub open spec fn after(rule: Rule, start: Seq<u32>, n: nat) -> Making
    decreases n,
{
    if n == 0 {
        Making { work: start, out: Seq::empty(), over: 0 }
    } else {
        look(rule, after(rule, start, (n - 1) as nat))
    }
}

/// The cut is what is left once nothing waits.
pub open spec fn makes(rule: Rule, start: Seq<u32>, cut: Cut) -> bool {
    after(rule, start, cut.visits as nat) == (Making {
        work: Seq::empty(),
        out: cut.entries@,
        over: cut.overflows as nat,
    }) && forall|k: nat| k < cut.visits ==> (#[trigger] after(rule, start, k)).work.len() > 0
}

/// What a node splits into.
pub open spec fn node_parts(nodes: Seq<BvhNode>, e: u32) -> Seq<u32> {
    if nodes[e as int].count == 0 {
        seq![nodes[e as int].left_first, (nodes[e as int].left_first + 1) as u32]
    } else {
        Seq::empty()
    }
}

/// The rule on the binary hierarchy.
pub open spec fn node_rule(
    nodes: Seq<BvhNode>,
    table: Seq<Verdict>,
    t_ball: u32,
    t_far: u32,
    budget: nat,
) -> Rule {
    Rule {
        parts: |e: u32| node_parts(nodes, e),
        verdict: |e: u32| table[e as int],
        t_ball,
        t_far,
        budget,
    }
}

/// The path leads through one of the entries.
pub open spec fn passes(p: Seq<int>, entries: Seq<u32>) -> bool {
    exists|k: int, j: int|
        0 <= k < p.len() && 0 <= j < entries.len() && #[trigger] p[k] == #[trigger] entries[j]
}

/// Some box on the path cannot be hit.
pub open spec fn shut(table: Seq<Verdict>, t_ball: u32, t_far: u32, p: Seq<int>) -> bool {
    exists|k: int| 0 <= k < p.len() && unhittable(table[#[trigger] p[k]], t_ball, t_far)
}

/// Every way from `b` down to a leaf that can be hit leads through an entry.
pub open spec fn covered(
    nodes: Seq<BvhNode>,
    table: Seq<Verdict>,
    t_ball: u32,
    t_far: u32,
    b: int,
    entries: Seq<u32>,
) -> bool {
    forall|p: Seq<int>| #[trigger]
        tree::to_leaf(nodes, b, p) ==> shut(table, t_ball, t_far, p) || passes(p, entries)
}

/// Nodes under all the entries together, entry by entry.
pub open spec fn load(nodes: Seq<BvhNode>, work: Seq<u32>) -> nat
    decreases work.len(),
{
    if work.len() == 0 {
        0
    } else {
        load(nodes, work.drop_last()) + tree::weight(nodes, work.last() as int)
    }
}

pub proof fn lemma_load_push(nodes: Seq<BvhNode>, work: Seq<u32>, e: u32)
    ensures
        load(nodes, work.push(e)) == load(nodes, work) + tree::weight(nodes, e as int),
{
    assert(work.push(e).drop_last() =~= work);
}

pub proof fn lemma_load_bound(nodes: Seq<BvhNode>, work: Seq<u32>)
    requires
        tree::links_inside(nodes),
        forall|i: int| 0 <= i < work.len() ==> #[trigger] work[i] < nodes.len(),
    ensures
        load(nodes, work) <= work.len() * nodes.len(),
    decreases work.len(),
{
    if work.len() > 0 {
        let rest = work.drop_last();
        assert forall|i: int| 0 <= i < rest.len() implies #[trigger] rest[i] < nodes.len() by {
            assert(work[i] < nodes.len());
        }
        lemma_load_bound(nodes, rest);
        assert(work[work.len() - 1] < nodes.len());
        tree::lemma_family_finite(nodes, work.last() as int);
        let (a, b) = (rest.len() as int, nodes.len() as int);
        assert(a * b + b == (a + 1) * b) by (nonlinear_arith);
    }
}

/// Every entry that is part of the cut can be hit, lies under a root, and is
/// internal only where the budget ran out.
pub open spec fn sound_entries(
    nodes: Seq<BvhNode>,
    table: Seq<Verdict>,
    t_ball: u32,
    t_far: u32,
    roots: Seq<u32>,
    out: Seq<u32>,
    over: nat,
) -> bool {
    &&& forall|j: int|
        0 <= j < out.len() ==> (#[trigger] out[j]) < nodes.len() && !unhittable(
            table[out[j] as int],
            t_ball,
            t_far,
        ) && reached(nodes, roots, out[j] as int)
    &&& over == 0 ==> forall|j: int|
        0 <= j < out.len() ==> nodes[(#[trigger] out[j]) as int].count != 0
}

/// One look keeps every way covered.
proof fn lemma_look_covers(
    nodes: Seq<BvhNode>,
    table: Seq<Verdict>,
    rule: Rule,
    m: Making,
    b: int,
)
    requires
        rule == node_rule(nodes, table, rule.t_ball, rule.t_far, rule.budget),
        tree::links_inside(nodes),
        nodes.len() <= u32::MAX,
        m.work.len() > 0,
        m.work.last() < nodes.len(),
        covered(nodes, table, rule.t_ball, rule.t_far, b, m.work + m.out),
    ensures
        covered(nodes, table, rule.t_ball, rule.t_far, b, look(rule, m).work + look(rule, m).out),
{
    let n = look(rule, m);
    let e = m.work.last();
    let rest = m.work.drop_last();
    let all = n.work + n.out;
    assert((rule.parts)(e) == node_parts(nodes, e));
    assert((rule.verdict)(e) == table[e as int]);
    assert forall|p: Seq<int>| #[trigger] tree::to_leaf(nodes, b, p) implies shut(
        table,
        rule.t_ball,
        rule.t_far,
        p,
    ) || passes(p, all) by {
        if !shut(table, rule.t_ball, rule.t_far, p) {
            assert(passes(p, m.work + m.out));
            let (k, j) = choose|k: int, j: int|
                0 <= k < p.len() && 0 <= j < (m.work + m.out).len() && #[trigger] p[k]
                    == #[trigger] (m.work + m.out)[j];
            if j < rest.len() {
                assert(all[j] == rest[j]);
                assert(p[k] == all[j]);
            } else if j >= m.work.len() {
                let o = j - m.work.len();
                assert(m.out[o] == p[k]);
                assert(n.out[o] == m.out[o]);
                assert(all[n.work.len() + o] == p[k]);
            } else {
                assert(p[k] == e);
                assert(!unhittable(table[p[k]], rule.t_ball, rule.t_far));
                if n.out.len() > m.out.len() {
                    assert(n.out[m.out.len() as int] == e);
                    assert(all[n.work.len() as int + m.out.len()] == e);
                } else {
                    // Split: the way goes on through a part.
                    assert(nodes[e as int].count == 0);
                    if k == p.len() - 1 {
                        assert(nodes[p.last()].count != 0);
                    }
                    assert(tree::descends(nodes, p, k));
                    let l = nodes[e as int].left_first;
                    assert(n.work[rest.len() as int] == l);
                    assert(n.work[rest.len() as int + 1] == l + 1);
                    if p[k + 1] == l {
                        assert(all[rest.len() as int] == p[k + 1]);
                    } else {
                        assert(all[rest.len() as int + 1] == p[k + 1]);
                    }
                }
            }
        }
    }
}

/// Refines a parent's cut for a narrower frustum. What no ray can hit is left
/// out; internal nodes are split as long as the budget lasts, and kept whole
/// when it does not. No node is left out for being far.
#[verifier::rlimit(40)]
pub fn refine_cut(
    bvh: &Bvh,
    table: &Vec<Verdict>,
    t_ball: u32,
    t_far: u32,
    parent_cut: &[u32],
    budget: u32,
) -> (cut: Cut)
    requires
        parent_cut@.len() <= budget,
        bvh.tri_idx@.len() > 0 ==> rooted(bvh.nodes@, table@, parent_cut@),
    ensures
        cut.entries@.len() <= budget,
        bvh.tri_idx@.len() == 0 ==> cut.entries@.len() == 0 && cut.visits == 0 && cut.overflows
            == 0,
        bvh.tri_idx@.len() > 0 ==> {
            &&& makes(
                node_rule(bvh.nodes@, table@, t_ball, t_far, budget as nat),
                parent_cut@,
                cut,
            )
            &&& sound_entries(
                bvh.nodes@,
                table@,
                t_ball,
                t_far,
                parent_cut@,
                cut.entries@,
                cut.overflows as nat,
            )
            &&& forall|i: int|
                0 <= i < parent_cut@.len() ==> covered(
                    bvh.nodes@,
                    table@,
                    t_ball,
                    t_far,
                    #[trigger] parent_cut@[i] as int,
                    cut.entries@,
                )
        },
{
    let mut out: Vec<u32> = Vec::new();
    let mut visits: u64 = 0;
    let mut overflows: u64 = 0;
    if bvh.tri_idx.len() == 0 {
        return Cut { entries: out, visits, overflows };
    }
    let ghost nodes = bvh.nodes@;
    let ghost rule = node_rule(nodes, table@, t_ball, t_far, budget as nat);
    let mut work: Vec<u32> = Vec::new();
    let n: usize = parent_cut.len();
    let mut i: usize = 0;
    while i < n
        invariant
            i <= n,
            n == parent_cut@.len(),
            work@ == parent_cut@.take(i as int),
        decreases n - i,
    {
        work.push(parent_cut[i]);
        i = i + 1;
        assert(work@ =~= parent_cut@.take(i as int));
    }
    proof {
        assert(work@ =~= parent_cut@);
        lemma_load_bound(nodes, parent_cut@);
        let (a, b) = (parent_cut@.len() as int, nodes.len() as int);
        assert(a * b <= 0xffff_ffff * 0xffff_ffff) by (nonlinear_arith)
            requires
                0 <= a <= 0xffff_ffff,
                0 <= b <= 0xffff_ffff,
        ;
        assert forall|i: int| 0 <= i < parent_cut@.len() implies covered(
            nodes,
            table@,
            t_ball,
            t_far,
            #[trigger] parent_cut@[i] as int,
            work@ + out@,
        ) by {
            let all = work@ + out@;
            assert forall|p: Seq<int>| #[trigger]
                tree::to_leaf(nodes, parent_cut@[i] as int, p) implies shut(
                table@,
                t_ball,
                t_far,
                p,
            ) || passes(p, all) by {
                assert(p[0] == all[i]);
            }
        }
        assert forall|k: int| 0 <= k < work@.len() implies (#[trigger] work@[k]) < nodes.len()
            && tree::is_tree(nodes, work@[k] as int) && reached(
            nodes,
            parent_cut@,
            work@[k] as int,
        ) by {
            assert(parent_cut@[k] == work@[k]);
            tree::lemma_under_self(nodes, work@[k] as int);
        }
        assert(out@ =~= Seq::empty());
    }
    while work.len() > 0
        invariant
            nodes == bvh.nodes@,
            rule == node_rule(nodes, table@, t_ball, t_far, budget as nat),
            rooted(nodes, table@, parent_cut@),
            work@.len() + out@.len() <= budget,
            overflows <= out@.len(),
            after(rule, parent_cut@, visits as nat) == (Making {
                work: work@,
                out: out@,
                over: overflows as nat,
            }),
            forall|k: nat| k < visits ==> (#[trigger] after(rule, parent_cut@, k)).work.len() > 0,
            forall|k: int|
                0 <= k < work@.len() ==> (#[trigger] work@[k]) < nodes.len() && tree::is_tree(
                    nodes,
                    work@[k] as int,
                ) && reached(nodes, parent_cut@, work@[k] as int),
            sound_entries(nodes, table@, t_ball, t_far, parent_cut@, out@, overflows as nat),
            forall|i: int|
                0 <= i < parent_cut@.len() ==> covered(
                    nodes,
                    table@,
                    t_ball,
                    t_far,
                    #[trigger] parent_cut@[i] as int,
                    work@ + out@,
                ),
            visits + load(nodes, work@) <= load(nodes, parent_cut@) <= 0xffff_ffff * 0xffff_ffff,
        decreases load(nodes, work@),
    {
        let ghost m = Making { work: work@, out: out@, over: overflows as nat };
        let ghost was = work@;
        let top: usize = work.len() - 1;
        let e: u32 = work[top];
        work.pop();
        proof {
            assert(was[top as int] == e);
            assert(work@ =~= was.drop_last());
            assert(was.drop_last().push(e) =~= was);
            lemma_load_push(nodes, work@, e);
            tree::lemma_family_finite(nodes, e as int);
            assert((rule.parts)(e) == node_parts(nodes, e));
            assert((rule.verdict)(e) == table@[e as int]);
            assert forall|i: int| 0 <= i < parent_cut@.len() implies covered(
                nodes,
                table@,
                t_ball,
                t_far,
                #[trigger] parent_cut@[i] as int,
                look(rule, m).work + look(rule, m).out,
            ) by {
                lemma_look_covers(nodes, table@, rule, m, parent_cut@[i] as int);
            }
            assert(after(rule, parent_cut@, (visits + 1) as nat) == look(rule, m));
            assert(after(rule, parent_cut@, visits as nat).work.len() > 0);
            assert(out@.len() + work@.len() + 1 <= budget <= usize::MAX);
        }
        visits = visits + 1;
        let v = table[e as usize];
        if cannot_hit(&v, t_ball, t_far) {
            assert(look(rule, m).work =~= work@);
        } else {
            let node = bvh.nodes[e as usize];
            let taken: usize = out.len() + work.len();
            if node.count == 0 && budget as usize - taken >= 2 {
                let ghost rest = work@;
                let l: u32 = node.left_first;
                proof {
                    assert(nodes[e as int].count == 0);
                    tree::lemma_weight(nodes, e as int);
                    assert(tree::is_child(nodes, e as int, l as int));
                    assert(tree::is_child(nodes, e as int, l + 1));
                    tree::lemma_lighter(nodes, e as int, l as int);
                    tree::lemma_lighter(nodes, e as int, l + 1);
                    lemma_load_push(nodes, rest, l);
                    lemma_load_push(nodes, rest.push(l), (l + 1) as u32);
                    lemma_reached_down(nodes, parent_cut@, e as int, l as int);
                    lemma_reached_down(nodes, parent_cut@, e as int, l + 1);
                }
                work.push(l);
                work.push(l + 1);
                assert(work@ =~= rest + node_parts(nodes, e));
                assert(look(rule, m).work =~= work@);
            } else {
                if node.count == 0 {
                    overflows = overflows + 1;
                }
                let ghost had = out@;
                out.push(e);
                proof {
                    assert(look(rule, m).work =~= work@);
                    assert(look(rule, m).out =~= out@);
                    assert forall|j: int| 0 <= j < out@.len() implies (#[trigger] out@[j])
                        < nodes.len() && !unhittable(table@[out@[j] as int], t_ball, t_far)
                        && reached(nodes, parent_cut@, out@[j] as int) by {
                        if j < had.len() {
                            assert(had[j] == out@[j]);
                        }
                    }
                    if overflows == 0 {
                        assert forall|j: int| 0 <= j < out@.len() implies nodes[(
                        #[trigger] out@[j]) as int].count != 0 by {
                            if j < had.len() {
                                assert(had[j] == out@[j]);
                            }
                        }
                    }
                }
            }
        }
    }
    proof {
        assert(work@ =~= Seq::empty());
        assert(work@ + out@ =~= out@);
    }
    Cut { entries: out, visits, overflows }
}

/// A child of what lies under a root lies under it too.
proof fn lemma_reached_down(nodes: Seq<BvhNode>, roots: Seq<u32>, e: int, c: int)
    requires
        reached(nodes, roots, e),
        tree::is_child(nodes, e, c),
    ensures
        reached(nodes, roots, c),
{
    let j = choose|j: int| 0 <= j < roots.len() && tree::under(nodes, #[trigger] roots[j] as int, e);
    tree::lemma_under_self(nodes, c);
    tree::lemma_under_split(nodes, e, c);
    tree::lemma_under_trans(nodes, roots[j] as int, e, c);
}

/// `narrow` speaks for a frustum inside that of `wide`, from the same apex:
/// what is outside stays outside, and the distances of a box are the same.
pub open spec fn narrows(nodes: Seq<BvhNode>, wide: Seq<Verdict>, narrow: Seq<Verdict>) -> bool {
    forall|i: int|
        0 <= i < nodes.len() ==> {
            &&& (#[trigger] wide[i]).outside ==> narrow[i].outside
            &&& narrow[i].farthest == wide[i].farthest
            &&& bits::le(wide[i].nearest, narrow[i].range)
        }
}

/// A bound query inside a narrower frustum, from no nearer than the ball and
/// to no farther than the reach, finds the same on the refined cut as on the
/// cut that it was refined from.
pub proof fn narrower_frustums_lose_nothing(
    nodes: Seq<BvhNode>,
    wide: Seq<Verdict>,
    narrow: Seq<Verdict>,
    t_ball: u32,
    t_far: u32,
    t_start: u32,
    t_limit: u32,
    parent: Seq<u32>,
    cut: Seq<u32>,
    over: nat,
    s: Option<u32>,
    t: Option<u32>,
)
    requires
        rooted(nodes, wide, parent),
        narrow.len() == nodes.len(),
        nested(nodes, narrow),
        narrows(nodes, wide, narrow),
        bits::le(t_ball, t_start),
        bits::le(t_limit, t_far),
        sound_entries(nodes, wide, t_ball, t_far, parent, cut, over),
        forall|i: int|
            0 <= i < parent.len() ==> covered(
                nodes,
                wide,
                t_ball,
                t_far,
                #[trigger] parent[i] as int,
                cut,
            ),
        found(nodes, narrow, t_start, t_limit, parent, s),
        found(nodes, narrow, t_start, t_limit, cut, t),
    ensures
        agree(s, t),
{
    // What the parent's cut finds, the refined one finds no later.
    if let Some(d) = s {
        let i = choose|i: int|
            0 <= i < parent.len() && attained(nodes, narrow, t_start, #[trigger] parent[i] as int, d);
        let b = parent[i] as int;
        let l = choose|l: int| #[trigger]
            tree::under(nodes, b, l) && nodes[l].count != 0 && !dropped(narrow[l], t_start) && key(
                narrow[l],
                t_start,
            ) == d;
        let p = choose|p: Seq<int>| #[trigger] tree::leads_to(nodes, b, p, l);
        tree::lemma_under_inside(nodes, b, l);
        assert(tree::to_leaf(nodes, b, p));
        assert(covered(nodes, wide, t_ball, t_far, parent[i] as int, cut));
        if shut(wide, t_ball, t_far, p) {
            let k = choose|k: int| 0 <= k < p.len() && unhittable(wide[#[trigger] p[k]], t_ball, t_far);
            tree::lemma_head(nodes, b, p, k);
            assert(tree::leads_to(nodes, b, p.take(k + 1), p[k]));
            tree::lemma_under_inside(nodes, b, p[k]);
            assert(stops(narrow[p[k]], t_start, t_limit));
            lemma_stops_down(nodes, narrow, t_start, t_limit, b, p, k);
        }
        assert(passes(p, cut));
        let (k, j) = choose|k: int, j: int|
            0 <= k < p.len() && 0 <= j < cut.len() && #[trigger] p[k] == #[trigger] cut[j];
        tree::lemma_tail(nodes, b, p, k);
        assert(tree::leads_to(nodes, cut[j] as int, p.skip(k), l));
        assert(cut[j] < nodes.len());
        bound_is_the_least_leaf(nodes, narrow, t_start, t_limit, cut, t, j, l);
    }
    // What the refined cut finds lies under the parent's.
    if let Some(d) = t {
        let j = choose|j: int|
            0 <= j < cut.len() && attained(nodes, narrow, t_start, #[trigger] cut[j] as int, d);
        let l = choose|l: int| #[trigger]
            tree::under(nodes, cut[j] as int, l) && nodes[l].count != 0 && !dropped(
                narrow[l],
                t_start,
            ) && key(narrow[l], t_start) == d;
        assert(reached(nodes, parent, cut[j] as int));
        let i = choose|i: int|
            0 <= i < parent.len() && tree::under(
                nodes,
                #[trigger] parent[i] as int,
                cut[j] as int,
            );
        tree::lemma_under_trans(nodes, parent[i] as int, cut[j] as int, l);
        bound_is_the_least_leaf(nodes, narrow, t_start, t_limit, parent, s, i, l);
    }
}

} // verus!
