//! The gateway tree's structure: every swaying cell sits behind one gateway,
//! the nodes are tiled by the main tree and the subtrees behind the gateways,
//! and the leaves behind a gateway tile its triangles.
use vstd::prelude::*;
use vstd::set_lib::*;
use crate::bits::BitsBox;
use crate::bvh as tree;
use crate::bvh::{Bvh, BvhNode, GATEWAY_BIT};
use crate::foliage::cells::STATIC_CELL;
use crate::foliage::split::SceneSway;

verus! {

/// Leaf `i` holds slot `k` of the triangle order.
pub open spec fn holds_slot(nodes: Seq<BvhNode>, i: int, k: int) -> bool {
    nodes[i].count != 0 && nodes[i].left_first <= k < nodes[i].left_first + nodes[i].count
}

/// What a walk has seen: the path to each node that it marked, and the paths
/// that wait on its stack.
spec fn walk_holds(
    nodes: Seq<BvhNode>,
    root: int,
    before: Seq<u8>,
    mark: Seq<u8>,
    tag: u8,
    stack: Seq<u32>,
    paths: Map<int, Seq<int>>,
    waiting: Seq<Seq<int>>,
) -> bool {
    &&& mark.len() == nodes.len()
    &&& before.len() == nodes.len()
    &&& waiting.len() == stack.len()
    &&& forall|k: int| 0 <= k < stack.len() ==> waits(nodes, root, #[trigger] waiting[k], stack[k])
    &&& forall|m: int| #[trigger] paths.contains_key(m) ==> seen(nodes, root, before, paths, m)
    &&& forall|i: int|
        0 <= i < nodes.len() ==> #[trigger] mark[i] == if paths.contains_key(i) {
            tag
        } else {
            before[i]
        }
    &&& forall|k: int| 0 <= k < stack.len() ==> has_parent(paths, #[trigger] waiting[k])
    &&& forall|m: int| #[trigger] paths.contains_key(m) ==> has_parent(paths, paths[m])
    &&& forall|k: int, l: int|
        0 <= k < l < waiting.len() ==> #[trigger] waiting[k] != #[trigger] waiting[l]
    &&& forall|k: int, m: int|
        0 <= k < waiting.len() && paths.contains_key(m) ==> #[trigger] waiting[k]
            != #[trigger] paths[m]
    &&& known(paths, waiting, seq![root])
    &&& forall|m: int, c: int|
        #[trigger] paths.contains_key(m) && #[trigger] tree::is_child(nodes, m, c) ==> known(
            paths,
            waiting,
            paths[m].push(c),
        )
}

/// A waiting path leads to its stack entry.
spec fn waits(nodes: Seq<BvhNode>, root: int, p: Seq<int>, i: u32) -> bool {
    tree::leads_to(nodes, root, p, i as int)
}

/// A marked node was free, and its path leads to it.
spec fn seen(
    nodes: Seq<BvhNode>,
    root: int,
    before: Seq<u8>,
    paths: Map<int, Seq<int>>,
    m: int,
) -> bool {
    0 <= m < nodes.len() && before[m] == 0 && tree::leads_to(nodes, root, paths[m], m)
}

/// The path's parent is the marked node that it was found through.
spec fn has_parent(paths: Map<int, Seq<int>>, p: Seq<int>) -> bool {
    p.len() > 1 ==> paths.contains_key(p[p.len() - 2]) && paths[p[p.len() - 2]] == p.drop_last()
}

/// The path is marked or waits.
spec fn known(paths: Map<int, Seq<int>>, waiting: Seq<Seq<int>>, p: Seq<int>) -> bool {
    (paths.contains_key(p.last()) && paths[p.last()] == p) || exists|k: int|
        0 <= k < waiting.len() && #[trigger] waiting[k] == p
}

/// Once nothing waits, every path is the marked one of its end.
proof fn lemma_walked(
    nodes: Seq<BvhNode>,
    root: int,
    before: Seq<u8>,
    mark: Seq<u8>,
    tag: u8,
    paths: Map<int, Seq<int>>,
    p: Seq<int>,
)
    requires
        walk_holds(nodes, root, before, mark, tag, Seq::empty(), paths, Seq::empty()),
        tree::is_path(nodes, root, p),
    ensures
        paths.contains_key(p.last()),
        paths[p.last()] == p,
    decreases p.len(),
{
    if p.len() == 1 {
        assert(p =~= seq![root]);
        assert(known(paths, Seq::empty(), seq![root]));
    } else {
        let q = p.drop_last();
        assert(tree::is_path(nodes, root, q)) by {
            assert forall|k: int| 0 <= k < q.len() - 1 implies #[trigger] tree::descends(nodes, q, k) by {
                assert(tree::descends(nodes, p, k));
            }
        }
        lemma_walked(nodes, root, before, mark, tag, paths, q);
        assert(tree::descends(nodes, p, p.len() - 2));
        let c = p.last();
        assert(tree::is_child(nodes, q.last(), c));
        assert(known(paths, Seq::empty(), paths[q.last()].push(c)));
        assert(q.push(c) =~= p);
    }
}

/// The walk's start.
proof fn lemma_walk_starts(nodes: Seq<BvhNode>, root: u32, before: Seq<u8>, tag: u8)
    requires
        root < nodes.len(),
        before.len() == nodes.len(),
    ensures
        walk_holds(
            nodes,
            root as int,
            before,
            before,
            tag,
            seq![root],
            Map::empty(),
            seq![seq![root as int]],
        ),
{
    let w = seq![seq![root as int]];
    assert(w[0] == seq![root as int]);
    assert(tree::is_path(nodes, root as int, seq![root as int]));
    assert(tree::leads_to(nodes, root as int, seq![root as int], root as int));
}

/// The walk takes a free node off its stack and puts its children on.
proof fn lemma_walk_steps(
    nodes: Seq<BvhNode>,
    root: int,
    before: Seq<u8>,
    mark: Seq<u8>,
    tag: u8,
    stack: Seq<u32>,
    paths: Map<int, Seq<int>>,
    waiting: Seq<Seq<int>>,
    i: u32,
)
    requires
        tag != 0,
        walk_holds(nodes, root, before, mark, tag, stack.push(i), paths, waiting),
        i < nodes.len(),
        mark[i as int] == 0,
        nodes[i as int].count == 0 ==> nodes[i as int].left_first < u32::MAX,
    ensures
        ({
            let p = waiting.last();
            let rest = waiting.drop_last();
            let l = nodes[i as int].left_first;
            let m2 = mark.update(i as int, tag);
            let p2 = paths.insert(i as int, p);
            if nodes[i as int].count == 0 {
                walk_holds(
                    nodes,
                    root,
                    before,
                    m2,
                    tag,
                    stack.push(l).push((l + 1) as u32),
                    p2,
                    rest.push(p.push(l as int)).push(p.push(l + 1)),
                )
            } else {
                walk_holds(nodes, root, before, m2, tag, stack, p2, rest)
            }
        }),
{
    let n = i as int;
    let p = waiting.last();
    let rest = waiting.drop_last();
    let l = nodes[n].left_first as int;
    let m2 = mark.update(n, tag);
    let p2 = paths.insert(n, p);
    let top = stack.len() as int;
    assert(waits(nodes, root, waiting[top], stack.push(i)[top]));
    assert(!paths.contains_key(n)) by {
        if paths.contains_key(n) {
            assert(mark[n] == tag);
        }
    }
    assert(before[n] == 0);
    assert(p.last() == n);
    // Parents stay marked, and the marked node's own path is new.
    assert forall|m: int| #[trigger] p2.contains_key(m) implies seen(nodes, root, before, p2, m) by {
        if m != n {
            assert(paths.contains_key(m));
            assert(seen(nodes, root, before, paths, m));
        }
    }
    assert forall|q: Seq<int>| #[trigger] has_parent(paths, q) implies has_parent(p2, q) by {
        if q.len() > 1 {
            assert(q[q.len() - 2] != n);
        }
    }
    assert forall|m: int| #[trigger] p2.contains_key(m) implies has_parent(p2, p2[m]) by {
        if m != n {
            assert(paths.contains_key(m));
            assert(has_parent(paths, paths[m]));
        } else {
            assert(has_parent(paths, waiting[top]));
        }
    }
    let internal = nodes[n].count == 0;
    let s2 = if internal {
        stack.push(l as u32).push((l + 1) as u32)
    } else {
        stack
    };
    let w2 = if internal {
        rest.push(p.push(l)).push(p.push(l + 1))
    } else {
        rest
    };
    assert(internal ==> tree::is_child(nodes, n, l) && tree::is_child(nodes, n, l + 1));
    if internal {
        tree::lemma_extend(nodes, root, p, l);
        tree::lemma_extend(nodes, root, p, l + 1);
        assert(p.push(l).drop_last() =~= p);
        assert(p.push(l + 1).drop_last() =~= p);
    }
    assert forall|k: int| 0 <= k < s2.len() implies waits(nodes, root, #[trigger] w2[k], s2[k]) by {
        if k < stack.len() {
            assert(w2[k] == waiting[k]);
            assert(waits(nodes, root, waiting[k], stack.push(i)[k]));
        }
    }
    assert forall|k: int| 0 <= k < s2.len() implies has_parent(p2, #[trigger] w2[k]) by {
        if k < stack.len() {
            assert(w2[k] == waiting[k]);
            assert(has_parent(paths, waiting[k]));
        }
    }
    // A waiting or marked path whose parent ends at this node cannot have
    // been there before.
    assert forall|q: Seq<int>| #[trigger] has_parent(paths, q) implies q != p.push(l) && q
        != p.push(l + 1) by {
        if q == p.push(l) || q == p.push(l + 1) {
            assert(q[q.len() - 2] == p.last());
        }
    }
    assert forall|a: int, b: int| 0 <= a < b < w2.len() implies #[trigger] w2[a]
        != #[trigger] w2[b] by {
        if b < rest.len() {
            assert(waiting[a] != waiting[b]);
        } else if a < rest.len() {
            assert(has_parent(paths, waiting[a]));
        } else {
            assert(p.push(l).last() == l && p.push(l + 1).last() == l + 1);
        }
    }
    assert forall|k: int, m: int| 0 <= k < w2.len() && p2.contains_key(m) implies #[trigger] w2[k]
        != #[trigger] p2[m] by {
        if m == n {
            if k < rest.len() {
                assert(waiting[k] != waiting[top]);
            } else {
                assert(w2[k].len() == p.len() + 1);
            }
        } else {
            assert(paths.contains_key(m));
            if k < rest.len() {
                assert(waiting[k] != paths[m]);
            } else {
                assert(has_parent(paths, paths[m]));
            }
        }
    }
    assert forall|q: Seq<int>| #[trigger] known(paths, waiting, q) implies known(p2, w2, q) by {
        if !(paths.contains_key(q.last()) && paths[q.last()] == q) {
            let k = choose|k: int| 0 <= k < waiting.len() && #[trigger] waiting[k] == q;
            if k < rest.len() {
                assert(w2[k] == q);
            } else {
                assert(q == p);
            }
        } else {
            assert(q.last() != n);
        }
    }
    assert forall|m: int, c: int|
        #[trigger] p2.contains_key(m) && #[trigger] tree::is_child(nodes, m, c) implies known(
        p2,
        w2,
        p2[m].push(c),
    ) by {
        if m == n {
            let k = if c == l {
                rest.len() as int
            } else {
                rest.len() as int + 1
            };
            assert(w2[k] == p.push(c));
        } else {
            assert(paths.contains_key(m));
            assert(known(paths, waiting, paths[m].push(c)));
        }
    }
    assert forall|j: int| 0 <= j < nodes.len() implies #[trigger] m2[j] == if p2.contains_key(j) {
        tag
    } else {
        before[j]
    } by {
        if j != n {
            assert(mark[j] == mark[j]);
        }
    }
}

/// A node under `root` is a gateway.
pub open spec fn nests(nodes: Seq<BvhNode>, root: int) -> bool {
    exists|i: int| #[trigger] tree::under(nodes, root, i) && nodes[i].is_gateway()
}

/// A leaf under `root` holds a slot outside a range, or one that another leaf
/// holds.
pub open spec fn strays(nodes: Seq<BvhNode>, root: int, lo: int, hi: int) -> bool {
    exists|i: int, k: int|
        #[trigger] tree::under(nodes, root, i) && #[trigger] holds_slot(nodes, i, k) && (k < lo || hi <= k
            || shared(nodes, root, i, k))
}

/// Another leaf under `root` holds the slot too.
pub open spec fn shared(nodes: Seq<BvhNode>, root: int, i: int, k: int) -> bool {
    exists|j: int| j != i && #[trigger] tree::under(nodes, root, j) && holds_slot(nodes, j, k)
}

/// Some leaf under `root` holds the slot.
pub open spec fn reaches_slot(nodes: Seq<BvhNode>, root: int, k: int) -> bool {
    exists|i: int| #[trigger] tree::under(nodes, root, i) && holds_slot(nodes, i, k)
}

/// Every slot of a range is held by a leaf under `root`.
pub open spec fn fills(nodes: Seq<BvhNode>, root: int, lo: int, hi: int) -> bool {
    forall|k: int| lo <= k < hi ==> #[trigger] reaches_slot(nodes, root, k)
}

/// The nodes under `root` are free in `mark`.
pub open spec fn all_free(nodes: Seq<BvhNode>, root: int, mark: Seq<u8>) -> bool {
    forall|i: int| #[trigger] tree::under(nodes, root, i) ==> 0 <= i < mark.len() && mark[i] == 0
}

/// `new` is `old` with the nodes under `root` marked.
pub open spec fn marks(nodes: Seq<BvhNode>, root: int, old: Seq<u8>, new: Seq<u8>, tag: u8) -> bool {
    &&& new.len() == old.len()
    &&& forall|i: int|
        0 <= i < new.len() ==> #[trigger] new[i] == if tree::under(nodes, root, i) {
            tag
        } else {
            old[i]
        }
}

/// What ends a walk.
#[derive(Clone, Copy, Debug, PartialEq, Eq, Structural)]
pub enum Stop {
    /// The node was marked already.
    Owned(u32),
    /// A gateway lies in the way.
    Nested,
    /// A leaf holds a slot outside the range, or one that another holds.
    Strayed,
    /// A slot is left that no leaf holds.
    Unfilled,
    /// A link leads out of the hierarchy.
    Astray,
}

/// The slots that the marked leaves hold.
spec fn tiles_hold(
    nodes: Seq<BvhNode>,
    paths: Map<int, Seq<int>>,
    tiled: Seq<bool>,
    lo: int,
) -> bool {
    &&& forall|m: int| #[trigger] paths.contains_key(m) ==> !nodes[m].is_gateway()
    &&& forall|m: int, k: int|
        #[trigger] paths.contains_key(m) && #[trigger] holds_slot(nodes, m, k) ==> lo <= k < lo
            + tiled.len() && tiled[k - lo]
    &&& forall|m: int, j: int, k: int|
        #[trigger] paths.contains_key(m) && #[trigger] paths.contains_key(j) && m != j
            && #[trigger] holds_slot(nodes, m, k) ==> !holds_slot(nodes, j, k)
    &&& forall|s: int| 0 <= s < tiled.len() && #[trigger] tiled[s] ==> held(nodes, paths, lo + s)
}

/// A marked leaf holds the slot.
spec fn held(nodes: Seq<BvhNode>, paths: Map<int, Seq<int>>, k: int) -> bool {
    exists|m: int| #[trigger] paths.contains_key(m) && holds_slot(nodes, m, k)
}

/// The slot lies in the range and no leaf holds it yet.
pub open spec fn open_slot(tiled: Seq<bool>, lo: int, k: int) -> bool {
    lo <= k < lo + tiled.len() && !tiled[k - lo]
}

/// Marks the slots of a leaf; fails where one lies outside the range or is
/// marked already.
fn tile_leaf(tiled: &mut Vec<bool>, lo: usize, first: u32, count: u32) -> (ok: bool)
    requires
        lo + old(tiled)@.len() <= usize::MAX,
    ensures
        final(tiled)@.len() == old(tiled)@.len(),
        ok <==> forall|k: int|
            first <= k < first + count ==> #[trigger] open_slot(old(tiled)@, lo as int, k),
        ok ==> forall|s: int|
            0 <= s < old(tiled)@.len() ==> #[trigger] final(tiled)@[s] == (old(tiled)@[s] || first
                <= lo + s < first + count),
{
    let ghost was = tiled@;
    let n: usize = tiled.len();
    let mut j: u32 = 0;
    while j < count
        invariant
            j <= count,
            lo + n <= usize::MAX,
            n == was.len(),
            was == old(tiled)@,
            tiled@.len() == n,
            forall|k: int|
                first <= k < first + j ==> #[trigger] open_slot(was, lo as int, k),
            forall|s: int|
                0 <= s < n ==> #[trigger] tiled@[s] == (was[s] || first <= lo + s < first + j),
        decreases count - j,
    {
        let k: u64 = first as u64 + j as u64;
        if k < lo as u64 || k >= (lo + n) as u64 {
            assert(!open_slot(was, lo as int, first + j));
            return false;
        }
        let at: usize = k as usize - lo;
        if tiled[at] {
            assert(!open_slot(was, lo as int, first + j));
            return false;
        }
        assert(open_slot(was, lo as int, first + j));
        tiled.set(at, true);
        j = j + 1;
    }
    true
}

fn no_tiles(n: usize) -> (v: Vec<bool>)
    ensures
        v@ == Seq::new(n as nat, |i: int| false),
{
    let mut v: Vec<bool> = Vec::new();
    let mut i: usize = 0;
    while i < n
        invariant
            i <= n,
            v@ == Seq::new(i as nat, |j: int| false),
        decreases n - i,
    {
        v.push(false);
        i = i + 1;
        assert(v@ =~= Seq::new(i as nat, |j: int| false));
    }
    v
}

/// Every slot of leaf `i` lies in the range and is open.
pub open spec fn all_open(nodes: Seq<BvhNode>, tiled: Seq<bool>, lo: int, i: int) -> bool {
    forall|k: int|
        nodes[i].left_first <= k < nodes[i].left_first + nodes[i].count ==> #[trigger] open_slot(
            tiled,
            lo,
            k,
        )
}

/// The slots with those of leaf `i` marked.
pub open spec fn tiled_with(nodes: Seq<BvhNode>, tiled: Seq<bool>, lo: int, i: int) -> Seq<bool> {
    Seq::new(tiled.len(), |s: int| tiled[s] || holds_slot(nodes, i, lo + s))
}

/// What stops a walk that goes on from the end of this stack; nothing where it
/// comes to its end within `more` steps.
pub open spec fn stop_of(
    nodes: Seq<BvhNode>,
    stack: Seq<u32>,
    mark: Seq<u8>,
    tag: u8,
    cell: bool,
    lo: int,
    tiled: Seq<bool>,
    more: nat,
) -> Option<Stop>
    decreases more,
{
    if more == 0 || stack.len() == 0 {
        None
    } else {
        let i = stack.last();
        let nd = nodes[i as int];
        let rest = stack.drop_last();
        if i >= nodes.len() {
            Some(Stop::Astray)
        } else if mark[i as int] != 0 {
            Some(Stop::Owned(i))
        } else if nd.count == 0 && nd.left_first == u32::MAX {
            Some(Stop::Astray)
        } else if cell && nd.is_gateway() {
            Some(Stop::Nested)
        } else if cell && nd.count != 0 && !all_open(nodes, tiled, lo, i as int) {
            Some(Stop::Strayed)
        } else {
            stop_of(
                nodes,
                if nd.count == 0 {
                    rest.push(nd.left_first).push((nd.left_first + 1) as u32)
                } else {
                    rest
                },
                mark.update(i as int, tag),
                tag,
                cell,
                lo,
                if cell {
                    tiled_with(nodes, tiled, lo, i as int)
                } else {
                    tiled
                },
                (more - 1) as nat,
            )
        }
    }
}

/// What stops a walk from `root` over these marks, second children first. Where
/// `cell` is set, its leaves are to tile the `n` slots from `lo` on.
pub open spec fn walk_stop(
    nodes: Seq<BvhNode>,
    root: u32,
    mark: Seq<u8>,
    tag: u8,
    cell: bool,
    lo: int,
    n: int,
) -> Option<Stop> {
    let tiled = Seq::new(
        if cell {
            n as nat
        } else {
            0
        },
        |s: int| false,
    );
    stop_of(nodes, seq![root], mark, tag, cell, lo, tiled, 3 * nodes.len() + 1)
}

/// Walks the nodes under `root` and marks them. Where `cell` is set, they must
/// hold no gateway, and their leaves tile the slots `lo..lo + n`.
#[verifier::rlimit(60)]
fn walk(bvh: &Bvh, root: u32, mark: &mut Vec<u8>, tag: u8, cell: bool, lo: usize, n: usize) -> (r:
    Result<(), Stop>)
    requires
        bvh.nodes@.len() <= u32::MAX,
        root < bvh.nodes@.len(),
        old(mark)@.len() == bvh.nodes@.len(),
        tag != 0,
        lo + n <= usize::MAX,
    ensures
        final(mark)@.len() == old(mark)@.len(),
        r is Ok ==> {
            &&& tree::is_tree(bvh.nodes@, root as int)
            &&& all_free(bvh.nodes@, root as int, old(mark)@)
            &&& marks(bvh.nodes@, root as int, old(mark)@, final(mark)@, tag)
            &&& cell ==> !nests(bvh.nodes@, root as int) && !strays(
                bvh.nodes@,
                root as int,
                lo as int,
                lo + n,
            ) && fills(bvh.nodes@, root as int, lo as int, lo + n)
        },
        r matches Err(Stop::Owned(i)) ==> tree::under(bvh.nodes@, root as int, i as int) && i
            < bvh.nodes@.len() && (old(mark)@[i as int] != 0 || tree::twice(
            bvh.nodes@,
            root as int,
            i as int,
        )),
        r matches Err(Stop::Nested) ==> cell && nests(bvh.nodes@, root as int),
        r matches Err(Stop::Strayed) ==> cell && strays(
            bvh.nodes@,
            root as int,
            lo as int,
            lo + n,
        ),
        r matches Err(Stop::Unfilled) ==> cell && !fills(
            bvh.nodes@,
            root as int,
            lo as int,
            lo + n,
        ),
        walk_stop(bvh.nodes@, root, old(mark)@, tag, cell, lo as int, n as int) == match r {
            Err(stop) if stop != Stop::Unfilled => Some(stop),
            _ => None,
        },
{
    let ghost nodes = bvh.nodes@;
    let ghost before = mark@;
    let ghost top = root as int;
    let total: usize = bvh.nodes.len();
    let mut tiled: Vec<bool> = no_tiles(if cell {
        n
    } else {
        0
    });
    let mut stack: Vec<u32> = Vec::new();
    stack.push(root);
    let ghost mut paths: Map<int, Seq<int>> = Map::empty();
    let ghost mut waiting: Seq<Seq<int>> = seq![seq![root as int]];
    let ghost stop = walk_stop(nodes, root, before, tag, cell, lo as int, n as int);
    let ghost mut more: nat = 3 * nodes.len() + 1;
    proof {
        assert(stack@ =~= seq![root]);
        lemma_walk_starts(nodes, root, before, tag);
    }
    while stack.len() > 0
        invariant
            nodes.len() <= u32::MAX,
            nodes == bvh.nodes@,
            total == nodes.len(),
            top == root,
            root < nodes.len(),
            before == old(mark)@,
            before.len() == nodes.len(),
            mark@.len() == nodes.len(),
            tag != 0,
            lo + n <= usize::MAX,
            tiled@.len() == if cell {
                n
            } else {
                0
            },
            walk_holds(nodes, top, before, mark@, tag, stack@, paths, waiting),
            cell ==> tiles_hold(nodes, paths, tiled@, lo as int),
            stop == walk_stop(nodes, root, before, tag, cell, lo as int, n as int),
            stop == stop_of(nodes, stack@, mark@, tag, cell, lo as int, tiled@, more),
            more >= 3 * (nodes.len() - paths.dom().len()) + stack@.len(),
            paths.dom().finite(),
            paths.dom().subset_of(set_int_range(0, nodes.len() as int)),
        decreases 3 * (nodes.len() - paths.dom().len()) + stack@.len(),
    {
        let ghost old_stack = stack@;
        let ghost old_mark = mark@;
        let ghost old_tiled = tiled@;
        let ghost p = waiting.last();
        let i: u32 = stack[stack.len() - 1];
        stack.pop();
        proof {
            assert(stack@.push(i) =~= old_stack);
            assert(old_stack.drop_last() =~= stack@);
            lemma_int_range(0, nodes.len() as int);
            lemma_len_subset(paths.dom(), set_int_range(0, nodes.len() as int));
            let k = stack@.len() as int;
            assert(waits(nodes, top, waiting[k], old_stack[k]));
            assert(tree::leads_to(nodes, top, p, i as int));
            assert(tree::under(nodes, top, i as int));
        }
        if i as usize >= total {
            return Err(Stop::Astray);
        }
        if mark[i as usize] != 0 {
            proof {
                if paths.contains_key(i as int) {
                    assert(seen(nodes, top, before, paths, i as int));
                    assert(waiting[stack@.len() as int] != paths[i as int]);
                    assert(tree::leads_to(nodes, top, paths[i as int], i as int));
                    assert(tree::twice(nodes, top, i as int));
                }
            }
            return Err(Stop::Owned(i));
        }
        assert(!paths.contains_key(i as int));
        mark.set(i as usize, tag);
        let nd = bvh.nodes[i as usize];
        if nd.count == 0 && nd.left_first == u32::MAX {
            return Err(Stop::Astray);
        }
        let ghost paths2 = paths.insert(i as int, p);
        if cell && nd.count >= GATEWAY_BIT {
            return Err(Stop::Nested);
        }
        if cell && nd.count != 0 {
            let first: u32 = nd.left_first;
            let count: u32 = nd.count;
            let ghost was = tiled@;
            if !tile_leaf(&mut tiled, lo, first, count) {
                proof {
                    let k = choose|k: int|
                        first <= k < first + count && !#[trigger] open_slot(was, lo as int, k);
                    assert(holds_slot(nodes, i as int, k));
                    if lo <= k < lo + was.len() {
                        assert(was[k - lo]);
                        assert(held(nodes, paths, lo + (k - lo)));
                        let m = choose|m: int|
                            #[trigger] paths.contains_key(m) && holds_slot(nodes, m, k);
                        assert(seen(nodes, top, before, paths, m));
                        assert(tree::under(nodes, top, m));
                        assert(shared(nodes, top, i as int, k));
                    }
                    assert(strays(nodes, top, lo as int, lo + n));
                }
                return Err(Stop::Strayed);
            }
            proof {
                lemma_tiles_step(nodes, paths, was, tiled@, lo as int, i as int, p);
            }
        } else {
            proof {
                if cell {
                    lemma_tiles_skip(nodes, paths, tiled@, lo as int, i as int, p);
                }
            }
        }
        proof {
            lemma_walk_steps(nodes, top, before, mark@.update(i as int, 0u8), tag, stack@, paths, waiting, i);
            assert(mark@.update(i as int, 0u8).update(i as int, tag) =~= mark@);
            assert(paths2.dom() =~= paths.dom().insert(i as int));
            lemma_int_range(0, nodes.len() as int);
            lemma_len_subset(paths2.dom(), set_int_range(0, nodes.len() as int));
            paths = paths2;
            waiting = waiting.drop_last();
        }
        if nd.count == 0 {
            stack.push(nd.left_first);
            stack.push(nd.left_first + 1);
            proof {
                waiting = waiting.push(p.push(nd.left_first as int)).push(
                    p.push(nd.left_first + 1),
                );
            }
        }
        proof {
            assert(mark@ =~= old_mark.update(i as int, tag));
            if cell {
                assert(tiled@ =~= tiled_with(nodes, old_tiled, lo as int, i as int));
            }
            more = (more - 1) as nat;
        }
    }
    proof {
        assert(stack@ =~= Seq::empty());
        assert(waiting =~= Seq::empty());
        lemma_walk_ends(nodes, top, before, mark@, tag, paths);
    }
    if cell {
        let mut s: usize = 0;
        while s < n
            invariant
                s <= n,
                n == tiled@.len(),
                cell,
                nodes == bvh.nodes@,
                top == root,
                before == old(mark)@,
                walk_stop(nodes, root, before, tag, cell, lo as int, n as int) is None,
                mark@.len() == old(mark)@.len(),
                tiles_hold(nodes, paths, tiled@, lo as int),
                forall|i: int| #[trigger] tree::under(nodes, top, i) <==> paths.contains_key(i),
                forall|t: int| 0 <= t < s ==> #[trigger] tiled@[t],
            decreases n - s,
        {
            if !tiled[s] {
                proof {
                    let k = lo + s as int;
                    assert(!reaches_slot(nodes, top, k)) by {
                        if reaches_slot(nodes, top, k) {
                            let m = choose|m: int|
                                #[trigger] tree::under(nodes, top, m) && holds_slot(nodes, m, k);
                            assert(paths.contains_key(m));
                            assert(tiled@[k - lo]);
                        }
                    }
                }
                return Err(Stop::Unfilled);
            }
            s = s + 1;
        }
        proof {
            lemma_tiles_end(nodes, top, before, paths, tiled@, lo as int);
        }
    }
    Ok(())
}

/// A leaf that was marked joins the tiling.
proof fn lemma_tiles_step(
    nodes: Seq<BvhNode>,
    paths: Map<int, Seq<int>>,
    was: Seq<bool>,
    tiled: Seq<bool>,
    lo: int,
    i: int,
    p: Seq<int>,
)
    requires
        tiles_hold(nodes, paths, was, lo),
        tiled.len() == was.len(),
        !paths.contains_key(i),
        0 <= i < nodes.len(),
        !nodes[i].is_gateway(),
        nodes[i].count != 0,
        forall|k: int|
            nodes[i].left_first <= k < nodes[i].left_first + nodes[i].count
                ==> #[trigger] open_slot(was, lo, k),
        forall|s: int|
            0 <= s < was.len() ==> #[trigger] tiled[s] == (was[s] || nodes[i].left_first <= lo + s
                < nodes[i].left_first + nodes[i].count),
    ensures
        tiles_hold(nodes, paths.insert(i, p), tiled, lo),
{
    let all = paths.insert(i, p);
    assert forall|m: int, k: int|
        #[trigger] all.contains_key(m) && #[trigger] holds_slot(nodes, m, k) implies lo <= k < lo
        + tiled.len() && tiled[k - lo] by {
        if m == i {
            assert(open_slot(was, lo, k));
        } else {
            assert(paths.contains_key(m));
        }
        assert(tiled[k - lo] == tiled[k - lo]);
    }
    assert forall|m: int, j: int, k: int|
        #[trigger] all.contains_key(m) && #[trigger] all.contains_key(j) && m != j
            && #[trigger] holds_slot(nodes, m, k) implies !holds_slot(nodes, j, k) by {
        if holds_slot(nodes, j, k) {
            if m == i {
                assert(open_slot(was, lo, k));
                assert(paths.contains_key(j));
            } else if j == i {
                assert(open_slot(was, lo, k));
                assert(paths.contains_key(m));
            } else {
                assert(paths.contains_key(m) && paths.contains_key(j));
            }
        }
    }
    assert forall|s: int| 0 <= s < tiled.len() && #[trigger] tiled[s] implies held(
        nodes,
        all,
        lo + s,
    ) by {
        if was[s] {
            let m = choose|m: int| #[trigger] paths.contains_key(m) && holds_slot(nodes, m, lo + s);
            assert(held(nodes, paths, lo + s));
            assert(all.contains_key(m));
        } else {
            assert(all.contains_key(i));
            assert(holds_slot(nodes, i, lo + s));
        }
    }
    assert forall|m: int| #[trigger] all.contains_key(m) implies !nodes[m].is_gateway() by {
        if m != i {
            assert(paths.contains_key(m));
        }
    }
}

/// An internal node that was marked changes no tile.
proof fn lemma_tiles_skip(
    nodes: Seq<BvhNode>,
    paths: Map<int, Seq<int>>,
    tiled: Seq<bool>,
    lo: int,
    i: int,
    p: Seq<int>,
)
    requires
        tiles_hold(nodes, paths, tiled, lo),
        !paths.contains_key(i),
        nodes[i].count == 0,
    ensures
        tiles_hold(nodes, paths.insert(i, p), tiled, lo),
{
    let all = paths.insert(i, p);
    assert forall|m: int, k: int|
        #[trigger] all.contains_key(m) && #[trigger] holds_slot(nodes, m, k) implies lo <= k < lo
        + tiled.len() && tiled[k - lo] by {
        assert(paths.contains_key(m));
    }
    assert forall|m: int, j: int, k: int|
        #[trigger] all.contains_key(m) && #[trigger] all.contains_key(j) && m != j
            && #[trigger] holds_slot(nodes, m, k) implies !holds_slot(nodes, j, k) by {
        if j != i {
            assert(paths.contains_key(m) && paths.contains_key(j));
        }
    }
    assert forall|s: int| 0 <= s < tiled.len() && #[trigger] tiled[s] implies held(
        nodes,
        all,
        lo + s,
    ) by {
        assert(held(nodes, paths, lo + s));
        let m = choose|m: int| #[trigger] paths.contains_key(m) && holds_slot(nodes, m, lo + s);
        assert(all.contains_key(m));
    }
    assert forall|m: int| #[trigger] all.contains_key(m) implies !nodes[m].is_gateway() by {
        if m != i {
            assert(paths.contains_key(m));
        }
    }
}

/// A finished walk has marked exactly the nodes under its root, each along
/// its only path.
proof fn lemma_walk_ends(
    nodes: Seq<BvhNode>,
    root: int,
    before: Seq<u8>,
    mark: Seq<u8>,
    tag: u8,
    paths: Map<int, Seq<int>>,
)
    requires
        walk_holds(nodes, root, before, mark, tag, Seq::empty(), paths, Seq::empty()),
    ensures
        tree::is_tree(nodes, root),
        all_free(nodes, root, before),
        marks(nodes, root, before, mark, tag),
        forall|i: int| #[trigger] tree::under(nodes, root, i) <==> paths.contains_key(i),
{
    assert forall|i: int| #[trigger] tree::under(nodes, root, i) <==> paths.contains_key(i) by {
        if tree::under(nodes, root, i) {
            let p = choose|p: Seq<int>| #[trigger] tree::leads_to(nodes, root, p, i);
            lemma_walked(nodes, root, before, mark, tag, paths, p);
        }
        if paths.contains_key(i) {
            assert(seen(nodes, root, before, paths, i));
        }
    }
    assert forall|i: int| !#[trigger] tree::twice(nodes, root, i) by {
        if tree::twice(nodes, root, i) {
            let (p, q) = choose|p: Seq<int>, q: Seq<int>|
                p != q && #[trigger] tree::leads_to(nodes, root, p, i) && #[trigger] tree::leads_to(
                    nodes,
                    root,
                    q,
                    i,
                );
            lemma_walked(nodes, root, before, mark, tag, paths, p);
            lemma_walked(nodes, root, before, mark, tag, paths, q);
        }
    }
    assert forall|i: int| #[trigger] tree::under(nodes, root, i) implies 0 <= i < before.len()
        && before[i] == 0 by {
        assert(seen(nodes, root, before, paths, i));
    }
}

/// A finished tiling fills its range, once.
proof fn lemma_tiles_end(
    nodes: Seq<BvhNode>,
    root: int,
    before: Seq<u8>,
    paths: Map<int, Seq<int>>,
    tiled: Seq<bool>,
    lo: int,
)
    requires
        tiles_hold(nodes, paths, tiled, lo),
        forall|i: int| #[trigger] tree::under(nodes, root, i) <==> paths.contains_key(i),
        forall|s: int| 0 <= s < tiled.len() ==> #[trigger] tiled[s],
    ensures
        !nests(nodes, root),
        !strays(nodes, root, lo, lo + tiled.len()),
        fills(nodes, root, lo, lo + tiled.len()),
{
    if nests(nodes, root) {
        let i = choose|i: int| #[trigger] tree::under(nodes, root, i) && nodes[i].is_gateway();
        assert(paths.contains_key(i));
    }
    if strays(nodes, root, lo, lo + tiled.len()) {
        let (i, k) = choose|i: int, k: int|
            #[trigger] tree::under(nodes, root, i) && #[trigger] holds_slot(nodes, i, k) && (k < lo || lo
                + tiled.len() <= k || shared(nodes, root, i, k));
        assert(paths.contains_key(i));
        if shared(nodes, root, i, k) {
            let j = choose|j: int| j != i && #[trigger] tree::under(nodes, root, j) && holds_slot(nodes, j, k);
            assert(paths.contains_key(j));
        }
    }
    assert forall|k: int| lo <= k < lo + tiled.len() implies #[trigger] reaches_slot(nodes, root, k) by {
        assert(tiled[k - lo]);
        assert(held(nodes, paths, lo + (k - lo)));
        let m = choose|m: int| #[trigger] paths.contains_key(m) && holds_slot(nodes, m, k);
        assert(tree::under(nodes, root, m));
    }
}

/// Triangles of a cell among the first `n`.
pub open spec fn cell_tris(tri_cell: Seq<u16>, c: int, n: nat) -> nat
    decreases n,
{
    if n == 0 {
        0
    } else {
        cell_tris(tri_cell, c, (n - 1) as nat) + if tri_cell[n - 1] == c {
            1nat
        } else {
            0nat
        }
    }
}

/// Triangles of a cell.
pub open spec fn cell_size(s: SceneSway, c: int) -> nat {
    cell_tris(s.tri_cell@, c, s.tri_cell@.len())
}

/// Node `g` is a gateway over triangles.
pub open spec fn is_gate(b: Bvh, g: int) -> bool {
    0 <= g < b.nodes@.len() && b.nodes@[g].is_gateway() && b.nodes@[g].leaf_tris() > 0
}

/// Node `g` is a gateway over nothing, beside one that has triangles.
pub open spec fn is_filler(b: Bvh, g: int) -> bool {
    0 <= g < b.nodes@.len() && b.nodes@[g].is_gateway() && b.nodes@[g].leaf_tris() == 0
}

/// The cell of a gateway's first triangle.
pub open spec fn gate_cell(b: Bvh, s: SceneSway, g: int) -> u16 {
    s.tri_cell@[b.tri_idx@[b.nodes@[g].left_first as int] as int]
}

/// Every triangle of a gateway is in one cell.
pub open spec fn one_cell(b: Bvh, s: SceneSway, g: int) -> bool {
    forall|k: int|
        b.nodes@[g].left_first <= k < b.nodes@[g].left_first + b.nodes@[g].leaf_tris()
            ==> s.tri_cell@[#[trigger] b.tri_idx@[k] as int] == gate_cell(b, s, g)
}

/// The ids of the triangle order are triangles, and no id stands twice.
pub open spec fn ids_distinct(tri_idx: Seq<u32>, n: int) -> bool {
    &&& forall|i: int| 0 <= i < tri_idx.len() ==> #[trigger] tri_idx[i] < n
    &&& forall|i: int, j: int|
        0 <= i < j < tri_idx.len() ==> #[trigger] tri_idx[i] != #[trigger] tri_idx[j]
}

/// A filler is reached from the root and copies the box of the gateway after
/// it.
pub open spec fn filler_ok(b: Bvh, g: int) -> bool {
    &&& g + 1 < b.nodes@.len()
    &&& b.nodes@[g + 1].is_gateway()
    &&& b.nodes@[g].aabb == b.nodes@[g + 1].aabb
    &&& tree::under(b.nodes@, 0, g)
}

/// A gateway is reached from the root; its triangles are one whole cell; the
/// subtree after it is a tree of its own apart from the main one, holds no
/// other gateway, and tiles the gateway's triangles; its box is the swept one.
pub open spec fn gate_ok(b: Bvh, s: SceneSway, swept: Seq<BitsBox>, g: int) -> bool {
    let nd = b.nodes@[g];
    let lo = nd.left_first as int;
    let hi = lo + nd.leaf_tris();
    &&& tree::under(b.nodes@, 0, g)
    &&& gate_cell(b, s, g) != STATIC_CELL
    &&& nd.leaf_tris() == cell_size(s, gate_cell(b, s, g) as int)
    &&& hi <= b.tri_idx@.len()
    &&& one_cell(b, s, g)
    &&& g + 1 < b.nodes@.len()
    &&& tree::is_tree(b.nodes@, g + 1)
    &&& apart(b, 0, g + 1)
    &&& !nests(b.nodes@, g + 1)
    &&& !strays(b.nodes@, g + 1, lo, hi)
    &&& fills(b.nodes@, g + 1, lo, hi)
    &&& nd.aabb == swept[g]
}

/// No node lies under both roots.
pub open spec fn apart(b: Bvh, r: int, q: int) -> bool {
    forall|i: int| !(#[trigger] tree::under(b.nodes@, r, i) && #[trigger] tree::under(b.nodes@, q, i))
}

/// A gateway hosts the cell.
pub open spec fn hosted(b: Bvh, s: SceneSway, c: int) -> bool {
    exists|g: int| #[trigger] is_gate(b, g) && gate_cell(b, s, g) == c
}

/// The node lies behind some gateway.
pub open spec fn behind_a_gate(b: Bvh, i: int) -> bool {
    exists|g: int| #[trigger] is_gate(b, g) && tree::under(b.nodes@, g + 1, i)
}

/// Some gateway has triangles.
pub open spec fn any_gate(b: Bvh) -> bool {
    exists|g: int| #[trigger] is_gate(b, g)
}

/// Some cell has triangles.
pub open spec fn any_cell(s: SceneSway) -> bool {
    exists|c: int| 0 <= c < s.cells@.len() && #[trigger] cell_size(s, c) > 0
}

/// The gateway tree's contracts, over a scene of `n` triangles.
pub open spec fn tree_holds(b: Bvh, s: SceneSway, swept: Seq<BitsBox>, n: int) -> bool {
    &&& any_cell(s) ==> any_gate(b)
    &&& ids_distinct(b.tri_idx@, n)
    &&& b.nodes@.len() > 0 ==> tree::is_tree(b.nodes@, 0)
    &&& forall|g: int| #[trigger] is_filler(b, g) ==> filler_ok(b, g)
    &&& forall|g: int| #[trigger] is_gate(b, g) ==> gate_ok(b, s, swept, g)
    &&& forall|g: int, h: int|
        #[trigger] is_gate(b, g) && #[trigger] is_gate(b, h) && g < h ==> gate_cell(b, s, g)
            != gate_cell(b, s, h) && apart(b, g + 1, h + 1)
    &&& forall|c: int| 0 <= c < s.cells@.len() && #[trigger] cell_size(s, c) > 0 ==> hosted(b, s, c)
    &&& forall|i: int|
        0 <= i < b.nodes@.len() ==> #[trigger] tree::under(b.nodes@, 0, i) || behind_a_gate(b, i)
}

/// What an audit found, with the node, cell or triangle that it found it at.
#[derive(Clone, Copy, Debug, PartialEq, Eq, Structural)]
pub enum GatewayFault {
    /// Gateways in a tree that must have none.
    Unexpected,
    /// Cells have triangles, and no gateway was built.
    MustFire,
    /// An id is no triangle, or stands twice.
    NotPermutation(u32),
    ReachedTwice(u32),
    BadFiller(u32),
    Unreached(u32),
    StaticStart(u32),
    TwoGateways(u16),
    CountMismatch(u32),
    MixedCells(u32),
    NoSubtree(u32),
    /// A subtree's node belongs elsewhere, or is reached twice.
    Owned(u32),
    Nested(u32),
    LeafOutside(u32),
    NotTiled(u32),
    WrongBox(u32),
    NoGateway(u16),
    Orphan(u32),
    /// A link leads out of the hierarchy or its triangles. No audit is asked of
    /// a tree whose first fault this is.
    Astray,
}

/// The fault is there.
pub open spec fn faulty(f: GatewayFault, b: Bvh, s: SceneSway, swept: Seq<BitsBox>, n: int) -> bool {
    match f {
        GatewayFault::Unexpected => exists|g: int|
            0 <= g < b.nodes@.len() && (#[trigger] b.nodes@[g]).is_gateway(),
        GatewayFault::MustFire => any_cell(s) && !any_gate(b),
        GatewayFault::NotPermutation(t) => exists|i: int|
            0 <= i < b.tri_idx@.len() && #[trigger] b.tri_idx@[i] == t && (t >= n || exists|j: int|
                0 <= j < i && #[trigger] b.tri_idx@[j] == t),
        GatewayFault::ReachedTwice(i) => tree::twice(b.nodes@, 0, i as int),
        GatewayFault::BadFiller(g) => is_filler(b, g as int) && !filler_ok(b, g as int),
        GatewayFault::Unreached(g) => is_gate(b, g as int) && !tree::under(b.nodes@, 0, g as int),
        GatewayFault::StaticStart(g) => is_gate(b, g as int) && gate_cell(b, s, g as int)
            == STATIC_CELL,
        GatewayFault::TwoGateways(c) => exists|g: int, h: int|
            g != h && #[trigger] is_gate(b, g) && #[trigger] is_gate(b, h) && gate_cell(b, s, g)
                == c && gate_cell(b, s, h) == c,
        GatewayFault::CountMismatch(g) => is_gate(b, g as int) && b.nodes@[g as int].leaf_tris()
            != cell_size(s, gate_cell(b, s, g as int) as int),
        GatewayFault::MixedCells(g) => is_gate(b, g as int) && !one_cell(b, s, g as int),
        GatewayFault::NoSubtree(g) => is_gate(b, g as int) && g + 1 >= b.nodes@.len(),
        GatewayFault::Owned(i) => exists|g: int| #[trigger]
            is_gate(b, g) && tree::under(b.nodes@, g + 1, i as int) && (tree::under(b.nodes@, 0, i as int)
                || tree::twice(b.nodes@, g + 1, i as int) || exists|h: int|
                h != g && #[trigger] is_gate(b, h) && tree::under(b.nodes@, h + 1, i as int)),
        GatewayFault::Nested(g) => is_gate(b, g as int) && nests(b.nodes@, g + 1),
        GatewayFault::LeafOutside(g) => is_gate(b, g as int) && strays(
            b.nodes@,
            g + 1,
            b.nodes@[g as int].left_first as int,
            b.nodes@[g as int].left_first + b.nodes@[g as int].leaf_tris(),
        ),
        GatewayFault::NotTiled(g) => is_gate(b, g as int) && !fills(
            b.nodes@,
            g + 1,
            b.nodes@[g as int].left_first as int,
            b.nodes@[g as int].left_first + b.nodes@[g as int].leaf_tris(),
        ),
        GatewayFault::WrongBox(g) => is_gate(b, g as int) && b.nodes@[g as int].aabb
            != swept[g as int],
        GatewayFault::NoGateway(c) => c < s.cells@.len() && cell_size(s, c as int) > 0 && !hosted(
            b,
            s,
            c as int,
        ),
        GatewayFault::Orphan(i) => i < b.nodes@.len() && !tree::under(b.nodes@, 0, i as int)
            && !behind_a_gate(b, i as int),
        GatewayFault::Astray => false,
    }
}

/// A fault that is there breaks the contracts.
pub proof fn faults_break_the_contracts(
    f: GatewayFault,
    b: Bvh,
    s: SceneSway,
    swept: Seq<BitsBox>,
    n: int,
)
    requires
        f != GatewayFault::Unexpected,
        faulty(f, b, s, swept, n),
    ensures
        !tree_holds(b, s, swept, n),
{
    if tree_holds(b, s, swept, n) {
        match f {
            GatewayFault::NotPermutation(t) => {
                let i = choose|i: int|
                    0 <= i < b.tri_idx@.len() && #[trigger] b.tri_idx@[i] == t && (t >= n || exists|
                        j: int,
                    |
                        0 <= j < i && #[trigger] b.tri_idx@[j] == t);
                assert(b.tri_idx@[i] < n);
            },
            GatewayFault::ReachedTwice(i) => {
                if b.nodes@.len() == 0 {
                    lemma_no_nodes(b.nodes@, i as int);
                }
            },
            GatewayFault::TwoGateways(c) => {
                let (g, h) = choose|g: int, h: int|
                    g != h && #[trigger] is_gate(b, g) && #[trigger] is_gate(b, h) && gate_cell(
                        b,
                        s,
                        g,
                    ) == c && gate_cell(b, s, h) == c;
                if g < h {
                    assert(gate_cell(b, s, g) != gate_cell(b, s, h));
                } else {
                    assert(gate_cell(b, s, h) != gate_cell(b, s, g));
                }
            },
            GatewayFault::Owned(i) => {
                let x = i as int;
                let g = choose|g: int| #[trigger]
                    is_gate(b, g) && tree::under(b.nodes@, g + 1, x) && (tree::under(b.nodes@, 0, x) || tree::twice(
                        b.nodes@,
                        g + 1,
                        x,
                    ) || exists|h: int|
                        h != g && #[trigger] is_gate(b, h) && tree::under(b.nodes@, h + 1, x));
                assert(gate_ok(b, s, swept, g));
                if !tree::under(b.nodes@, 0, x) && !tree::twice(b.nodes@, g + 1, x) {
                    let h = choose|h: int|
                        h != g && #[trigger] is_gate(b, h) && tree::under(b.nodes@, h + 1, x);
                    if g < h {
                        assert(apart(b, g + 1, h + 1));
                    } else {
                        assert(apart(b, h + 1, g + 1));
                    }
                }
            },
            _ => {},
        }
    }
}

/// Without nodes there is one path, and it goes nowhere.
proof fn lemma_no_nodes(nodes: Seq<BvhNode>, i: int)
    requires
        nodes.len() == 0,
    ensures
        !tree::twice(nodes, 0, i),
{
    if tree::twice(nodes, 0, i) {
        let (p, q) = choose|p: Seq<int>, q: Seq<int>|
            p != q && #[trigger] tree::leads_to(nodes, 0, p, i) && #[trigger] tree::leads_to(nodes, 0, q, i);
        if p.len() > 1 {
            assert(tree::descends(nodes, p, 0));
        }
        if q.len() > 1 {
            assert(tree::descends(nodes, q, 0));
        }
        assert(p =~= q);
    }
}

/// The audit's inputs fit together: ids fit, every triangle has a cell entry
/// and every node a swept box.
pub open spec fn fitting(b: Bvh, s: SceneSway, swept: Seq<BitsBox>, n: int) -> bool {
    &&& b.nodes@.len() <= u32::MAX
    &&& s.wf()
    &&& s.tri_cell@.len() == n
    &&& n <= u32::MAX
    &&& swept.len() == b.nodes@.len()
}

/// The tree can be audited: no link that is followed before the first fault
/// leads out of the hierarchy or its triangles.
pub open spec fn auditable(b: Bvh, s: SceneSway, swept: Seq<BitsBox>, n: int) -> bool {
    fitting(b, s, swept, n) && first_fault(b, s, swept, n) != Some(GatewayFault::Astray)
}

/// The node lies behind a gateway before `g`.
pub open spec fn behind_before(b: Bvh, g: int, i: int) -> bool {
    exists|h: int| h < g && #[trigger] is_gate(b, h) && tree::under(b.nodes@, h + 1, i)
}

/// A gateway before `g` hosts the cell.
pub open spec fn hosted_before(b: Bvh, s: SceneSway, g: int, c: int) -> bool {
    exists|h: int| h < g && #[trigger] is_gate(b, h) && gate_cell(b, s, h) == c
}

/// The node's mark: 1 in the main tree, 2 behind a gateway before `g`.
pub open spec fn marked_as(b: Bvh, g: int, i: int) -> u8 {
    if tree::under(b.nodes@, 0, i) {
        1
    } else if behind_before(b, g, i) {
        2
    } else {
        0
    }
}

/// The gateways before `g` are in order, and the marks say so.
spec fn audited(
    b: Bvh,
    s: SceneSway,
    swept: Seq<BitsBox>,
    g: int,
    mark: Seq<u8>,
    cell_seen: Seq<bool>,
) -> bool {
    &&& mark.len() == b.nodes@.len()
    &&& forall|i: int| 0 <= i < mark.len() ==> #[trigger] mark[i] == marked_as(b, g, i)
    &&& forall|i: int| #[trigger] tree::under(b.nodes@, 0, i) ==> 0 <= i < b.nodes@.len()
    &&& cell_seen.len() == s.cells@.len()
    &&& forall|c: int|
        0 <= c < cell_seen.len() ==> #[trigger] cell_seen[c] == hosted_before(b, s, g, c)
    &&& forall|h: int| h < g && #[trigger] is_filler(b, h) ==> filler_ok(b, h)
    &&& forall|h: int| h < g && #[trigger] is_gate(b, h) ==> gate_ok(b, s, swept, h)
    &&& forall|x: int, y: int|
        #[trigger] is_gate(b, x) && #[trigger] is_gate(b, y) && x < y < g ==> gate_cell(b, s, x)
            != gate_cell(b, s, y) && apart(b, x + 1, y + 1)
}

/// The marks before gateway `g` is held to its contracts.
pub open spec fn marks_before(b: Bvh, g: int) -> Seq<u8> {
    Seq::new(b.nodes@.len(), |i: int| marked_as(b, g, i))
}

/// The first fault of gateway `g`, in the order in which its contracts are
/// held to it.
pub open spec fn gate_fault(b: Bvh, s: SceneSway, swept: Seq<BitsBox>, g: int) -> Option<
    GatewayFault,
> {
    let nd = b.nodes@[g];
    let lo = nd.left_first as int;
    let n = nd.leaf_tris() as int;
    let c = gate_cell(b, s, g);
    if !tree::under(b.nodes@, 0, g) {
        Some(GatewayFault::Unreached(g as u32))
    } else if lo >= b.tri_idx@.len() {
        Some(GatewayFault::Astray)
    } else if c == STATIC_CELL {
        Some(GatewayFault::StaticStart(g as u32))
    } else if hosted_before(b, s, g, c as int) {
        Some(GatewayFault::TwoGateways(c))
    } else if n != cell_size(s, c as int) {
        Some(GatewayFault::CountMismatch(g as u32))
    } else if lo + n > b.tri_idx@.len() {
        Some(GatewayFault::Astray)
    } else if !one_cell(b, s, g) {
        Some(GatewayFault::MixedCells(g as u32))
    } else if g + 1 >= b.nodes@.len() {
        Some(GatewayFault::NoSubtree(g as u32))
    } else {
        match walk_stop(b.nodes@, (g + 1) as u32, marks_before(b, g), 2, true, lo, n) {
            Some(Stop::Owned(i)) => Some(GatewayFault::Owned(i)),
            Some(Stop::Nested) => Some(GatewayFault::Nested(g as u32)),
            Some(Stop::Strayed) => Some(GatewayFault::LeafOutside(g as u32)),
            Some(Stop::Astray) => Some(GatewayFault::Astray),
            _ => if !fills(b.nodes@, g + 1, lo, lo + n) {
                Some(GatewayFault::NotTiled(g as u32))
            } else if nd.aabb != swept[g] {
                Some(GatewayFault::WrongBox(g as u32))
            } else {
                None
            },
        }
    }
}

/// The first fault at node `g` or after it.
pub open spec fn fault_from(b: Bvh, s: SceneSway, swept: Seq<BitsBox>, g: int) -> Option<
    GatewayFault,
>
    decreases b.nodes@.len() - g,
{
    if g >= b.nodes@.len() {
        None
    } else if is_gate(b, g) && gate_fault(b, s, swept, g) is Some {
        gate_fault(b, s, swept, g)
    } else if is_filler(b, g) && !filler_ok(b, g) {
        Some(GatewayFault::BadFiller(g as u32))
    } else {
        fault_from(b, s, swept, g + 1)
    }
}

/// The first id from position `i` on that is no triangle or stands before.
pub open spec fn bad_id_from(tri_idx: Seq<u32>, n: int, i: int) -> Option<u32>
    decreases tri_idx.len() - i,
{
    if i >= tri_idx.len() {
        None
    } else if tri_idx[i] >= n || tri_idx.take(i).contains(tri_idx[i]) {
        Some(tri_idx[i])
    } else {
        bad_id_from(tri_idx, n, i + 1)
    }
}

/// The first cell from `c` on that has triangles and no gateway.
pub open spec fn unhosted_from(b: Bvh, s: SceneSway, c: int) -> Option<u16>
    decreases s.cells@.len() - c,
{
    if c >= s.cells@.len() {
        None
    } else if cell_size(s, c) > 0 && !hosted(b, s, c) {
        Some(c as u16)
    } else {
        unhosted_from(b, s, c + 1)
    }
}

/// The first node from `i` on that is neither in the main tree nor behind a
/// gateway.
pub open spec fn orphan_from(b: Bvh, i: int) -> Option<u32>
    decreases b.nodes@.len() - i,
{
    if i >= b.nodes@.len() {
        None
    } else if !tree::under(b.nodes@, 0, i) && !behind_a_gate(b, i) {
        Some(i as u32)
    } else {
        orphan_from(b, i + 1)
    }
}

/// The fault of cells without a gateway and of nodes without a place.
pub open spec fn host_fault(b: Bvh, s: SceneSway) -> Option<GatewayFault> {
    match unhosted_from(b, s, 0) {
        Some(c) => Some(GatewayFault::NoGateway(c)),
        None => match orphan_from(b, 0) {
            Some(i) => Some(GatewayFault::Orphan(i)),
            None => None,
        },
    }
}

/// The fault that an audit reports: the first one, in the order in which the
/// contracts are held to the tree.
pub open spec fn first_fault(b: Bvh, s: SceneSway, swept: Seq<BitsBox>, n: int) -> Option<
    GatewayFault,
> {
    let blank = Seq::new(b.nodes@.len(), |i: int| 0u8);
    if any_cell(s) && !any_gate(b) {
        Some(GatewayFault::MustFire)
    } else if let Some(t) = bad_id_from(b.tri_idx@, n, 0) {
        Some(GatewayFault::NotPermutation(t))
    } else if b.nodes@.len() == 0 {
        host_fault(b, s)
    } else if let Some(Stop::Owned(i)) = walk_stop(b.nodes@, 0, blank, 1, false, 0, 0) {
        Some(GatewayFault::ReachedTwice(i))
    } else if walk_stop(b.nodes@, 0, blank, 1, false, 0, 0) == Some(Stop::Astray) {
        Some(GatewayFault::Astray)
    } else if let Some(f) = fault_from(b, s, swept, 0) {
        Some(f)
    } else {
        host_fault(b, s)
    }
}

/// A fault as the audit's result.
pub open spec fn verdict_of(f: Option<GatewayFault>) -> Result<(), GatewayFault> {
    match f {
        Some(f) => Err(f),
        None => Ok(()),
    }
}

/// Triangles of every cell.
fn count_cells(sway: &SceneSway) -> (v: Vec<u32>)
    requires
        sway.wf(),
        sway.tri_cell@.len() <= u32::MAX,
    ensures
        v@.len() == sway.cells@.len(),
        forall|c: int| 0 <= c < v@.len() ==> #[trigger] v@[c] == cell_size(*sway, c),
{
    let n_cells: usize = sway.cells.len();
    let mut v: Vec<u32> = Vec::new();
    let mut i: usize = 0;
    while i < n_cells
        invariant
            i <= n_cells,
            v@.len() == i,
            forall|c: int| 0 <= c < i ==> #[trigger] v@[c] == 0,
        decreases n_cells - i,
    {
        v.push(0);
        i = i + 1;
    }
    let n: usize = sway.tri_cell.len();
    let mut t: usize = 0;
    while t < n
        invariant
            t <= n,
            n == sway.tri_cell@.len(),
            n <= u32::MAX,
            sway.wf(),
            v@.len() == sway.cells@.len(),
            forall|c: int|
                0 <= c < v@.len() ==> #[trigger] v@[c] == cell_tris(sway.tri_cell@, c, t as nat)
                    && v@[c] <= t,
        decreases n - t,
    {
        let c: u16 = sway.tri_cell[t];
        if c != STATIC_CELL {
            assert(sway.tri_cell@[t as int] != STATIC_CELL);
            let k: usize = c as usize;
            assert(v@[k as int] <= t);
            v.set(k, v[k] + 1);
        }
        t = t + 1;
    }
    v
}

/// Holds the ids of the triangle order to being distinct triangles.
fn check_ids(tri_idx: &Vec<u32>, n: usize) -> (r: Result<(), u32>)
    ensures
        r is Ok <==> ids_distinct(tri_idx@, n as int),
        r matches Err(t) ==> exists|i: int|
            0 <= i < tri_idx@.len() && #[trigger] tri_idx@[i] == t && (t >= n || exists|j: int|
                0 <= j < i && #[trigger] tri_idx@[j] == t),
        bad_id_from(tri_idx@, n as int, 0) == match r {
            Ok(()) => None,
            Err(t) => Some(t),
        },
{
    let mut seen: Vec<bool> = no_tiles(n);
    let len: usize = tri_idx.len();
    let mut i: usize = 0;
    while i < len
        invariant
            i <= len,
            len == tri_idx@.len(),
            seen@.len() == n,
            forall|j: int| 0 <= j < i ==> #[trigger] tri_idx@[j] < n,
            forall|j: int, k: int|
                0 <= j < k < i ==> #[trigger] tri_idx@[j] != #[trigger] tri_idx@[k],
            forall|t: int|
                0 <= t < n ==> (#[trigger] seen@[t] <==> exists|j: int|
                    0 <= j < i && #[trigger] tri_idx@[j] == t),
            bad_id_from(tri_idx@, n as int, 0) == bad_id_from(tri_idx@, n as int, i as int),
        decreases len - i,
    {
        let t: u32 = tri_idx[i];
        proof {
            let had = tri_idx@.take(i as int);
            assert(had.contains(t) <==> exists|j: int| 0 <= j < i && #[trigger] tri_idx@[j] == t)
                by {
                if had.contains(t) {
                    let j = choose|j: int| 0 <= j < had.len() && had[j] == t;
                    assert(tri_idx@[j] == t);
                }
                if exists|j: int| 0 <= j < i && #[trigger] tri_idx@[j] == t {
                    let j = choose|j: int| 0 <= j < i && #[trigger] tri_idx@[j] == t;
                    assert(had[j] == t);
                }
            }
        }
        if t as usize >= n {
            assert(tri_idx@[i as int] == t);
            return Err(t);
        }
        if seen[t as usize] {
            assert(tri_idx@[i as int] == t);
            return Err(t);
        }
        seen.set(t as usize, true);
        i = i + 1;
    }
    Ok(())
}

/// Holds one gateway over triangles to its contracts.
#[verifier::rlimit(60)]
fn check_gate(
    bvh: &Bvh,
    sway: &SceneSway,
    swept: &Vec<BitsBox>,
    cell_n: &Vec<u32>,
    g: u32,
    mark: &mut Vec<u8>,
    cell_seen: &mut Vec<bool>,
) -> (r: Result<(), GatewayFault>)
    requires
        fitting(*bvh, *sway, swept@, sway.tri_cell@.len() as int),
        ids_distinct(bvh.tri_idx@, sway.tri_cell@.len() as int),
        is_gate(*bvh, g as int),
        audited(*bvh, *sway, swept@, g as int, old(mark)@, old(cell_seen)@),
        cell_n@.len() == sway.cells@.len(),
        forall|c: int| 0 <= c < cell_n@.len() ==> #[trigger] cell_n@[c] == cell_size(*sway, c),
    ensures
        r is Ok ==> audited(*bvh, *sway, swept@, g + 1, final(mark)@, final(cell_seen)@),
        r matches Err(f) ==> f != GatewayFault::Unexpected && (f == GatewayFault::Astray || faulty(
            f,
            *bvh,
            *sway,
            swept@,
            sway.tri_cell@.len() as int,
        )),
        r == verdict_of(gate_fault(*bvh, *sway, swept@, g as int)),
{
    let ghost before = mark@;
    let ghost seen0 = cell_seen@;
    let ghost gi = g as int;
    let nd = bvh.nodes[g as usize];
    let cc: usize = nd.leaf_count() as usize;
    let lf: usize = nd.left_first as usize;
    assert(bvh.nodes@[gi] == nd);
    assert(before[gi] == marked_as(*bvh, gi, gi));
    if mark[g as usize] != 1 {
        return Err(GatewayFault::Unreached(g));
    }
    let idx_len: usize = bvh.tri_idx.len();
    if lf >= idx_len {
        return Err(GatewayFault::Astray);
    }
    assert(bvh.tri_idx@[lf as int] < sway.tri_cell@.len());
    let c: u16 = sway.tri_cell[bvh.tri_idx[lf] as usize];
    assert(c == gate_cell(*bvh, *sway, gi));
    if c == STATIC_CELL {
        return Err(GatewayFault::StaticStart(g));
    }
    assert(sway.tri_cell@[bvh.tri_idx@[lf as int] as int] != STATIC_CELL);
    if cell_seen[c as usize] {
        proof {
            assert(hosted_before(*bvh, *sway, gi, c as int));
            let h = choose|h: int|
                h < gi && #[trigger] is_gate(*bvh, h) && gate_cell(*bvh, *sway, h) == c;
            assert(is_gate(*bvh, gi) && is_gate(*bvh, h));
        }
        return Err(GatewayFault::TwoGateways(c));
    }
    cell_seen.set(c as usize, true);
    if cc as u32 != cell_n[c as usize] {
        return Err(GatewayFault::CountMismatch(g));
    }
    if cc > idx_len - lf {
        return Err(GatewayFault::Astray);
    }
    let mut k: usize = lf;
    while k < lf + cc
        invariant
            lf <= k <= lf + cc,
            lf + cc <= bvh.tri_idx@.len(),
            idx_len == bvh.tri_idx@.len(),
            ids_distinct(bvh.tri_idx@, sway.tri_cell@.len() as int),
            bvh.nodes@[gi] == nd,
            gi == g,
            is_gate(*bvh, gi),
            lf == nd.left_first,
            cc == nd.leaf_tris(),
            c == gate_cell(*bvh, *sway, gi),
            tree::under(bvh.nodes@, 0, gi),
            c != STATIC_CELL,
            !hosted_before(*bvh, *sway, gi, c as int),
            cc == cell_size(*sway, c as int),
            forall|j: int|
                lf <= j < k ==> sway.tri_cell@[#[trigger] bvh.tri_idx@[j] as int] == c,
        decreases lf + cc - k,
    {
        assert(bvh.tri_idx@[k as int] < sway.tri_cell@.len());
        if sway.tri_cell[bvh.tri_idx[k] as usize] != c {
            assert(!one_cell(*bvh, *sway, gi));
            return Err(GatewayFault::MixedCells(g));
        }
        k = k + 1;
    }
    assert(one_cell(*bvh, *sway, gi));
    if g as usize + 1 >= bvh.nodes.len() {
        return Err(GatewayFault::NoSubtree(g));
    }
    assert(before =~= marks_before(*bvh, gi));
    match walk(bvh, g + 1, mark, 2, true, lf, cc) {
        Ok(()) => {},
        Err(Stop::Owned(i)) => {
            proof {
                let x = i as int;
                assert(tree::under(bvh.nodes@, gi + 1, x));
                if before[x] != 0 {
                    assert(before[x] == marked_as(*bvh, gi, x));
                    if !tree::under(bvh.nodes@, 0, x) {
                        assert(behind_before(*bvh, gi, x));
                        let h = choose|h: int|
                            h < gi && #[trigger] is_gate(*bvh, h) && tree::under(bvh.nodes@, h + 1, x);
                        assert(h != gi && is_gate(*bvh, h));
                    }
                }
                assert(is_gate(*bvh, gi));
            }
            return Err(GatewayFault::Owned(i));
        },
        Err(Stop::Nested) => {
            return Err(GatewayFault::Nested(g));
        },
        Err(Stop::Strayed) => {
            return Err(GatewayFault::LeafOutside(g));
        },
        Err(Stop::Unfilled) => {
            return Err(GatewayFault::NotTiled(g));
        },
        Err(Stop::Astray) => {
            return Err(GatewayFault::Astray);
        },
    }
    if nd.aabb != swept[g as usize] {
        return Err(GatewayFault::WrongBox(g));
    }
    proof {
        lemma_gate_audited(*bvh, *sway, swept@, gi, before, mark@, seen0, cell_seen@);
    }
    Ok(())
}

/// A gateway in order keeps the audit going.
proof fn lemma_gate_audited(
    b: Bvh,
    s: SceneSway,
    swept: Seq<BitsBox>,
    g: int,
    before: Seq<u8>,
    mark: Seq<u8>,
    seen0: Seq<bool>,
    seen1: Seq<bool>,
)
    requires
        is_gate(b, g),
        audited(b, s, swept, g, before, seen0),
        before[g] == 1,
        gate_cell(b, s, g) < seen0.len(),
        gate_cell(b, s, g) != STATIC_CELL,
        !seen0[gate_cell(b, s, g) as int],
        seen1 == seen0.update(gate_cell(b, s, g) as int, true),
        b.nodes@[g].leaf_tris() == cell_size(s, gate_cell(b, s, g) as int),
        b.nodes@[g].left_first + b.nodes@[g].leaf_tris() <= b.tri_idx@.len(),
        one_cell(b, s, g),
        g + 1 < b.nodes@.len(),
        tree::is_tree(b.nodes@, g + 1),
        all_free(b.nodes@, g + 1, before),
        marks(b.nodes@, g + 1, before, mark, 2),
        !nests(b.nodes@, g + 1),
        !strays(
            b.nodes@,
            g + 1,
            b.nodes@[g].left_first as int,
            b.nodes@[g].left_first + b.nodes@[g].leaf_tris(),
        ),
        fills(
            b.nodes@,
            g + 1,
            b.nodes@[g].left_first as int,
            b.nodes@[g].left_first + b.nodes@[g].leaf_tris(),
        ),
        b.nodes@[g].aabb == swept[g],
    ensures
        audited(b, s, swept, g + 1, mark, seen1),
{
    let c = gate_cell(b, s, g) as int;
    assert(before[g] == marked_as(b, g, g));
    assert forall|i: int| !(#[trigger] tree::under(b.nodes@, 0, i) && #[trigger] tree::under(b.nodes@, g + 1, i)) by {
        if tree::under(b.nodes@, 0, i) && tree::under(b.nodes@, g + 1, i) {
            assert(before[i] == marked_as(b, g, i));
        }
    }
    assert(gate_ok(b, s, swept, g));
    assert forall|i: int| 0 <= i < mark.len() implies #[trigger] mark[i] == marked_as(
        b,
        g + 1,
        i,
    ) by {
        assert(before[i] == marked_as(b, g, i));
        if tree::under(b.nodes@, g + 1, i) {
            assert(before[i] == 0);
            assert(behind_before(b, g + 1, i));
        } else {
            if behind_before(b, g + 1, i) {
                let h = choose|h: int|
                    h < g + 1 && #[trigger] is_gate(b, h) && tree::under(b.nodes@, h + 1, i);
                assert(h < g);
                assert(behind_before(b, g, i));
            }
            if behind_before(b, g, i) {
                let h = choose|h: int|
                    h < g && #[trigger] is_gate(b, h) && tree::under(b.nodes@, h + 1, i);
                assert(behind_before(b, g + 1, i));
            }
        }
    }
    assert forall|d: int| 0 <= d < seen1.len() implies #[trigger] seen1[d] == hosted_before(
        b,
        s,
        g + 1,
        d,
    ) by {
        assert(seen0[d] == hosted_before(b, s, g, d));
        if d == c {
            assert(hosted_before(b, s, g + 1, d));
        } else {
            if hosted_before(b, s, g + 1, d) {
                let h = choose|h: int| h < g + 1 && #[trigger] is_gate(b, h) && gate_cell(b, s, h) == d;
                assert(h < g);
                assert(hosted_before(b, s, g, d));
            }
            if hosted_before(b, s, g, d) {
                let h = choose|h: int| h < g && #[trigger] is_gate(b, h) && gate_cell(b, s, h) == d;
                assert(hosted_before(b, s, g + 1, d));
            }
        }
    }
    assert forall|x: int, y: int|
        #[trigger] is_gate(b, x) && #[trigger] is_gate(b, y) && x < y < g + 1 implies gate_cell(
        b,
        s,
        x,
    ) != gate_cell(b, s, y) && apart(b, x + 1, y + 1) by {
        if y == g {
            if gate_cell(b, s, x) == c {
                assert(hosted_before(b, s, g, c));
                assert(seen0[c] == hosted_before(b, s, g, c));
            }
            assert forall|i: int| !(#[trigger] tree::under(b.nodes@, x + 1, i) && #[trigger] tree::under(
                b.nodes@,
                y + 1,
                i,
            )) by {
                if tree::under(b.nodes@, x + 1, i) && tree::under(b.nodes@, y + 1, i) {
                    assert(behind_before(b, g, i));
                    assert(before[i] == marked_as(b, g, i));
                }
            }
        }
    }
}

/// A node that is no gateway over triangles changes nothing.
proof fn lemma_other_audited(
    b: Bvh,
    s: SceneSway,
    swept: Seq<BitsBox>,
    g: int,
    mark: Seq<u8>,
    cell_seen: Seq<bool>,
)
    requires
        audited(b, s, swept, g, mark, cell_seen),
        !is_gate(b, g),
        is_filler(b, g) ==> filler_ok(b, g),
    ensures
        audited(b, s, swept, g + 1, mark, cell_seen),
{
    assert forall|i: int| behind_before(b, g, i) == #[trigger] behind_before(b, g + 1, i) by {
        if behind_before(b, g, i) {
            let h = choose|h: int| h < g && #[trigger] is_gate(b, h) && tree::under(b.nodes@, h + 1, i);
            assert(h < g + 1 && is_gate(b, h));
        }
        if behind_before(b, g + 1, i) {
            let h = choose|h: int|
                h < g + 1 && #[trigger] is_gate(b, h) && tree::under(b.nodes@, h + 1, i);
            assert(h < g);
        }
    }
    assert forall|i: int| 0 <= i < mark.len() implies #[trigger] mark[i] == marked_as(
        b,
        g + 1,
        i,
    ) by {
        assert(mark[i] == marked_as(b, g, i));
        assert(behind_before(b, g, i) == behind_before(b, g + 1, i));
    }
    assert forall|c: int| 0 <= c < cell_seen.len() implies #[trigger] cell_seen[c]
        == hosted_before(b, s, g + 1, c) by {
        assert(cell_seen[c] == hosted_before(b, s, g, c));
        if hosted_before(b, s, g, c) {
            let h = choose|h: int| h < g && #[trigger] is_gate(b, h) && gate_cell(b, s, h) == c;
            assert(h < g + 1 && is_gate(b, h));
        }
        if hosted_before(b, s, g + 1, c) {
            let h = choose|h: int| h < g + 1 && #[trigger] is_gate(b, h) && gate_cell(b, s, h) == c;
            assert(h < g);
        }
    }
}

/// Some cell has triangles and no gateway does.
fn missed_fire(bvh: &Bvh, sway: &SceneSway, cell_n: &Vec<u32>) -> (r: bool)
    requires
        cell_n@.len() == sway.cells@.len(),
        forall|c: int| 0 <= c < cell_n@.len() ==> #[trigger] cell_n@[c] == cell_size(*sway, c),
    ensures
        r <==> any_cell(*sway) && !any_gate(*bvh),
{
    let n: usize = bvh.nodes.len();
    let mut g: usize = 0;
    while g < n
        invariant
            g <= n,
            n == bvh.nodes@.len(),
            forall|h: int| 0 <= h < g ==> !#[trigger] is_gate(*bvh, h),
        decreases n - g,
    {
        let nd = bvh.nodes[g];
        if nd.count >= GATEWAY_BIT && nd.leaf_count() > 0 {
            assert(is_gate(*bvh, g as int));
            return false;
        }
        g = g + 1;
    }
    let m: usize = cell_n.len();
    let mut c: usize = 0;
    while c < m
        invariant
            c <= m,
            m == cell_n@.len(),
            m == sway.cells@.len(),
            !any_gate(*bvh),
            forall|c: int| 0 <= c < cell_n@.len() ==> #[trigger] cell_n@[c] == cell_size(*sway, c),
            forall|d: int| 0 <= d < c ==> #[trigger] cell_size(*sway, d) == 0,
        decreases m - c,
    {
        if cell_n[c] > 0 {
            assert(cell_size(*sway, c as int) > 0);
            return true;
        }
        assert(cell_n@[c as int] == cell_size(*sway, c as int));
        c = c + 1;
    }
    false
}

/// No node is a gateway.
pub open spec fn no_gateway(b: Bvh) -> bool {
    forall|g: int| 0 <= g < b.nodes@.len() ==> !(#[trigger] b.nodes@[g]).is_gateway()
}

/// Audits the gateway tree of a scene with `n_tris` triangles. `swept` holds,
/// for every gateway, the box that its subtree and its cell's sway give it.
/// Without sway, or where gateways are not in use, there must be none.
pub fn gateway_audit(
    n_tris: usize,
    sway: Option<&SceneSway>,
    gateway_mode: bool,
    bvh: &Bvh,
    swept: &Vec<BitsBox>,
) -> (r: Result<(), GatewayFault>)
    requires
        gateway_mode && sway is Some ==> auditable(*bvh, *sway->0, swept@, n_tris as int),
    ensures
        gateway_mode && sway is Some ==> {
            &&& r is Ok <==> tree_holds(*bvh, *sway->0, swept@, n_tris as int)
            &&& r matches Err(f) ==> f != GatewayFault::Unexpected && faulty(
                f,
                *bvh,
                *sway->0,
                swept@,
                n_tris as int,
            )
            &&& r == verdict_of(first_fault(*bvh, *sway->0, swept@, n_tris as int))
        },
        !(gateway_mode && sway is Some) ==> {
            &&& r is Ok <==> no_gateway(*bvh)
            &&& r matches Err(f) ==> f == GatewayFault::Unexpected
        },
{
    match sway {
        Some(s) if gateway_mode => {
            let r = audit_attached(n_tris, s, bvh, swept);
            proof {
                if let Err(f) = r {
                    faults_break_the_contracts(f, *bvh, *s, swept@, n_tris as int);
                }
            }
            r
        },
        _ => {
            let total: usize = bvh.nodes.len();
            let mut g: usize = 0;
            while g < total
                invariant
                    !(gateway_mode && sway is Some),
                    g <= total,
                    total == bvh.nodes@.len(),
                    forall|h: int| 0 <= h < g ==> !(#[trigger] bvh.nodes@[h]).is_gateway(),
                decreases total - g,
            {
                if bvh.nodes[g].count >= GATEWAY_BIT {
                    assert(bvh.nodes@[g as int].is_gateway());
                    return Err(GatewayFault::Unexpected);
                }
                g = g + 1;
            }
            Ok(())
        },
    }
}

/// Whether an audit of a swaying scene's tree follows no link out of it before
/// its first fault.
pub fn stays_inside(n_tris: usize, sway: &SceneSway, bvh: &Bvh, swept: &Vec<BitsBox>) -> (r: bool)
    requires
        fitting(*bvh, *sway, swept@, n_tris as int),
    ensures
        r == auditable(*bvh, *sway, swept@, n_tris as int),
{
    match audit_attached(n_tris, sway, bvh, swept) {
        Err(GatewayFault::Astray) => false,
        _ => true,
    }
}

/// Audits the gateway tree of a swaying scene.
#[verifier::rlimit(60)]
fn audit_attached(n_tris: usize, sway: &SceneSway, bvh: &Bvh, swept: &Vec<BitsBox>) -> (r: Result<
    (),
    GatewayFault,
>)
    requires
        fitting(*bvh, *sway, swept@, n_tris as int),
    ensures
        r is Ok ==> tree_holds(*bvh, *sway, swept@, n_tris as int),
        r matches Err(f) ==> f != GatewayFault::Unexpected && (f == GatewayFault::Astray || faulty(
            f,
            *bvh,
            *sway,
            swept@,
            n_tris as int,
        )),
        r == verdict_of(first_fault(*bvh, *sway, swept@, n_tris as int)),
{
    let total: usize = bvh.nodes.len();
    let cell_n = count_cells(sway);
    if missed_fire(bvh, sway, &cell_n) {
        return Err(GatewayFault::MustFire);
    }
    match check_ids(&bvh.tri_idx, n_tris) {
        Ok(()) => {},
        Err(t) => {
            return Err(GatewayFault::NotPermutation(t));
        },
    }
    let mut mark: Vec<u8> = Vec::new();
    let mut i: usize = 0;
    while i < total
        invariant
            i <= total,
            mark@.len() == i,
            forall|j: int| 0 <= j < i ==> #[trigger] mark@[j] == 0,
        decreases total - i,
    {
        mark.push(0);
        i = i + 1;
    }
    if total == 0 {
        proof {
            lemma_empty_tree(*bvh, *sway, swept@, n_tris as int);
        }
        return check_hosts(bvh, sway, swept, &cell_n, &no_tiles(sway.cells.len()), &mark, n_tris);
    }
    let ghost blank = mark@;
    assert(blank =~= Seq::new(bvh.nodes@.len(), |i: int| 0u8));
    match walk(bvh, 0, &mut mark, 1, false, 0, 0) {
        Ok(()) => {},
        Err(Stop::Owned(i)) => {
            assert(blank[i as int] == 0);
            return Err(GatewayFault::ReachedTwice(i));
        },
        Err(_) => {
            return Err(GatewayFault::Astray);
        },
    }
    let mut cell_seen: Vec<bool> = no_tiles(sway.cells.len());
    proof {
        lemma_audit_starts(*bvh, *sway, swept@, blank, mark@, cell_seen@);
    }
    let mut g: u32 = 0;
    while (g as usize) < total
        invariant
            g <= total,
            total == bvh.nodes@.len(),
            fitting(*bvh, *sway, swept@, n_tris as int),
            ids_distinct(bvh.tri_idx@, n_tris as int),
            cell_n@.len() == sway.cells@.len(),
            forall|c: int| 0 <= c < cell_n@.len() ==> #[trigger] cell_n@[c] == cell_size(*sway, c),
            audited(*bvh, *sway, swept@, g as int, mark@, cell_seen@),
            fault_from(*bvh, *sway, swept@, 0) == fault_from(*bvh, *sway, swept@, g as int),
            first_fault(*bvh, *sway, swept@, n_tris as int) == match fault_from(
                *bvh,
                *sway,
                swept@,
                0,
            ) {
                Some(f) => Some(f),
                None => host_fault(*bvh, *sway),
            },
        decreases total - g,
    {
        let nd = bvh.nodes[g as usize];
        let ghost gi = g as int;
        if nd.count >= GATEWAY_BIT {
            if nd.leaf_count() == 0 {
                assert(is_filler(*bvh, gi));
                assert(mark@[gi] == marked_as(*bvh, gi, gi));
                if g as usize + 1 >= total {
                    return Err(GatewayFault::BadFiller(g));
                }
                let sib = bvh.nodes[g as usize + 1];
                if sib.count < GATEWAY_BIT || nd.aabb != sib.aabb || mark[g as usize] != 1 {
                    return Err(GatewayFault::BadFiller(g));
                }
                proof {
                    lemma_other_audited(*bvh, *sway, swept@, gi, mark@, cell_seen@);
                }
            } else {
                check_gate(bvh, sway, swept, &cell_n, g, &mut mark, &mut cell_seen)?;
            }
        } else {
            proof {
                lemma_other_audited(*bvh, *sway, swept@, gi, mark@, cell_seen@);
            }
        }
        g = g + 1;
    }
    check_hosts(bvh, sway, swept, &cell_n, &cell_seen, &mark, n_tris)
}

/// The audit before any gateway.
proof fn lemma_audit_starts(
    b: Bvh,
    s: SceneSway,
    swept: Seq<BitsBox>,
    blank: Seq<u8>,
    mark: Seq<u8>,
    cell_seen: Seq<bool>,
)
    requires
        blank.len() == b.nodes@.len(),
        forall|i: int| 0 <= i < blank.len() ==> #[trigger] blank[i] == 0,
        all_free(b.nodes@, 0, blank),
        marks(b.nodes@, 0, blank, mark, 1),
        cell_seen == Seq::new(s.cells@.len(), |i: int| false),
    ensures
        audited(b, s, swept, 0, mark, cell_seen),
{
    assert forall|i: int| 0 <= i < mark.len() implies #[trigger] mark[i] == marked_as(b, 0, i) by {
        assert(blank[i] == 0);
    }
}

/// Without nodes every rule about nodes holds.
proof fn lemma_empty_tree(b: Bvh, s: SceneSway, swept: Seq<BitsBox>, n: int)
    requires
        b.nodes@.len() == 0,
    ensures
        forall|g: int| !#[trigger] is_gate(b, g) && !is_filler(b, g),
        forall|c: int| !#[trigger] hosted(b, s, c),
{
    assert forall|c: int| !#[trigger] hosted(b, s, c) by {
        if hosted(b, s, c) {
            let g = choose|g: int| #[trigger] is_gate(b, g) && gate_cell(b, s, g) == c;
            assert(is_gate(b, g));
        }
    }
}

/// Every cell with triangles has its gateway, and every node its place.
fn check_hosts(
    bvh: &Bvh,
    sway: &SceneSway,
    swept: &Vec<BitsBox>,
    cell_n: &Vec<u32>,
    cell_seen: &Vec<bool>,
    mark: &Vec<u8>,
    n_tris: usize,
) -> (r: Result<(), GatewayFault>)
    requires
        fitting(*bvh, *sway, swept@, n_tris as int),
        ids_distinct(bvh.tri_idx@, n_tris as int),
        any_cell(*sway) ==> any_gate(*bvh),
        bvh.nodes@.len() > 0 ==> tree::is_tree(bvh.nodes@, 0),
        cell_n@.len() == sway.cells@.len(),
        forall|c: int| 0 <= c < cell_n@.len() ==> #[trigger] cell_n@[c] == cell_size(*sway, c),
        audited(*bvh, *sway, swept@, bvh.nodes@.len() as int, mark@, cell_seen@)
            || bvh.nodes@.len() == 0 && mark@.len() == 0 && cell_seen@ == Seq::new(
            sway.cells@.len(),
            |i: int| false,
        ),
    ensures
        r is Ok ==> tree_holds(*bvh, *sway, swept@, n_tris as int),
        r matches Err(f) ==> f != GatewayFault::Unexpected && faulty(
            f,
            *bvh,
            *sway,
            swept@,
            n_tris as int,
        ),
        r == verdict_of(host_fault(*bvh, *sway)),
{
    let ghost len = bvh.nodes@.len() as int;
    proof {
        if len == 0 {
            lemma_empty_tree(*bvh, *sway, swept@, n_tris as int);
        }
        assert forall|c: int| 0 <= c < cell_seen@.len() implies #[trigger] cell_seen@[c]
            == hosted(*bvh, *sway, c) by {
            if len > 0 {
                assert(cell_seen@[c] == hosted_before(*bvh, *sway, len, c));
                if hosted(*bvh, *sway, c) {
                    let g = choose|g: int| #[trigger]
                        is_gate(*bvh, g) && gate_cell(*bvh, *sway, g) == c;
                    assert(g < len && is_gate(*bvh, g));
                    assert(hosted_before(*bvh, *sway, len, c));
                }
                if hosted_before(*bvh, *sway, len, c) {
                    let g = choose|g: int|
                        g < len && #[trigger] is_gate(*bvh, g) && gate_cell(*bvh, *sway, g) == c;
                    assert(is_gate(*bvh, g));
                }
            }
        }
    }
    let m: usize = cell_n.len();
    let mut c: usize = 0;
    while c < m
        invariant
            c <= m,
            m == cell_n@.len(),
            m == sway.cells@.len(),
            m == cell_seen@.len(),
            m <= u16::MAX,
            forall|d: int| 0 <= d < cell_n@.len() ==> #[trigger] cell_n@[d] == cell_size(*sway, d),
            forall|d: int|
                0 <= d < cell_seen@.len() ==> #[trigger] cell_seen@[d] == hosted(*bvh, *sway, d),
            forall|d: int|
                0 <= d < c && #[trigger] cell_size(*sway, d) > 0 ==> hosted(*bvh, *sway, d),
            unhosted_from(*bvh, *sway, 0) == unhosted_from(*bvh, *sway, c as int),
        decreases m - c,
    {
        assert(cell_n@[c as int] == cell_size(*sway, c as int));
        assert(cell_seen@[c as int] == hosted(*bvh, *sway, c as int));
        if cell_n[c] > 0 && !cell_seen[c] {
            return Err(GatewayFault::NoGateway(c as u16));
        }
        c = c + 1;
    }
    let total: usize = mark.len();
    let mut i: usize = 0;
    while i < total
        invariant
            i <= total,
            total == mark@.len(),
            total == bvh.nodes@.len(),
            total <= u32::MAX,
            len == total,
            total > 0 ==> audited(*bvh, *sway, swept@, len, mark@, cell_seen@),
            forall|j: int|
                0 <= j < i ==> #[trigger] tree::under(bvh.nodes@, 0, j) || behind_a_gate(*bvh, j),
            unhosted_from(*bvh, *sway, 0) is None,
            orphan_from(*bvh, 0) == orphan_from(*bvh, i as int),
        decreases total - i,
    {
        proof {
            let j = i as int;
            assert(mark@[j] == marked_as(*bvh, len, j));
            if behind_a_gate(*bvh, j) {
                let g = choose|g: int| #[trigger] is_gate(*bvh, g) && tree::under(bvh.nodes@, g + 1, j);
                assert(g < len && is_gate(*bvh, g));
                assert(behind_before(*bvh, len, j));
            }
            if behind_before(*bvh, len, j) {
                let g = choose|g: int|
                    g < len && #[trigger] is_gate(*bvh, g) && tree::under(bvh.nodes@, g + 1, j);
                assert(is_gate(*bvh, g));
                assert(behind_a_gate(*bvh, j));
            }
        }
        if mark[i] == 0 {
            return Err(GatewayFault::Orphan(i as u32));
        }
        i = i + 1;
    }
    Ok(())
}

/// The triangles of a cell among the first `n`.
spec fn cell_ids(tri_cell: Seq<u16>, c: int, n: nat) -> Set<u32> {
    Set::new(|t: u32| t < n && tri_cell[t as int] == c)
}

/// They are as many as their count says.
proof fn lemma_cell_ids(tri_cell: Seq<u16>, c: int, n: nat)
    requires
        n <= tri_cell.len(),
        n <= u32::MAX,
    ensures
        cell_ids(tri_cell, c, n).finite(),
        cell_ids(tri_cell, c, n).len() == cell_tris(tri_cell, c, n),
    decreases n,
{
    if n == 0 {
        assert(cell_ids(tri_cell, c, n) =~= Set::empty());
    } else {
        let m = (n - 1) as nat;
        lemma_cell_ids(tri_cell, c, m);
        if tri_cell[m as int] == c {
            assert(cell_ids(tri_cell, c, n) =~= cell_ids(tri_cell, c, m).insert(m as u32));
        } else {
            assert(cell_ids(tri_cell, c, n) =~= cell_ids(tri_cell, c, m));
        }
    }
}

/// A gateway's range holds every triangle of its cell: the range is a
/// permutation of the cell.
pub proof fn gateways_hold_whole_cells(
    b: Bvh,
    s: SceneSway,
    swept: Seq<BitsBox>,
    n: int,
    g: int,
    t: int,
)
    requires
        fitting(b, s, swept, n),
        tree_holds(b, s, swept, n),
        is_gate(b, g),
        0 <= t < n,
        s.tri_cell@[t] == gate_cell(b, s, g),
    ensures
        exists|k: int|
            b.nodes@[g].left_first <= k < b.nodes@[g].left_first + b.nodes@[g].leaf_tris()
                && #[trigger] b.tri_idx@[k] == t,
{
    let lo = b.nodes@[g].left_first as int;
    let hi = lo + b.nodes@[g].leaf_tris();
    let c = gate_cell(b, s, g) as int;
    assert(gate_ok(b, s, swept, g));
    let range = b.tri_idx@.subrange(lo, hi);
    let cell = cell_ids(s.tri_cell@, c, s.tri_cell@.len());
    lemma_cell_ids(s.tri_cell@, c, s.tri_cell@.len());
    assert(range.no_duplicates()) by {
        assert forall|i: int, j: int| 0 <= i < range.len() && 0 <= j < range.len() && i != j implies range[i]
            != range[j] by {
            if i < j {
                assert(b.tri_idx@[lo + i] != b.tri_idx@[lo + j]);
            } else {
                assert(b.tri_idx@[lo + j] != b.tri_idx@[lo + i]);
            }
        }
    }
    range.unique_seq_to_set();
    assert(range.to_set().subset_of(cell)) by {
        assert forall|x: u32| range.to_set().contains(x) implies cell.contains(x) by {
            let i = choose|i: int| 0 <= i < range.len() && range[i] == x;
            assert(b.tri_idx@[lo + i] == x);
        }
    }
    lemma_subset_equality(range.to_set(), cell);
    assert(cell.contains(t as u32));
    let i = choose|i: int| 0 <= i < range.len() && range[i] == t as u32;
    assert(b.tri_idx@[lo + i] == t);
}

/// Every node has one home: the main tree, or the subtree behind one gateway.
pub proof fn nodes_have_one_home(b: Bvh, s: SceneSway, swept: Seq<BitsBox>, n: int, i: int)
    requires
        tree_holds(b, s, swept, n),
        0 <= i < b.nodes@.len(),
    ensures
        tree::under(b.nodes@, 0, i) <==> !behind_a_gate(b, i),
        forall|g: int, h: int|
            #[trigger] is_gate(b, g) && #[trigger] is_gate(b, h) && tree::under(b.nodes@, g + 1, i)
                && tree::under(b.nodes@, h + 1, i) ==> g == h,
{
    if tree::under(b.nodes@, 0, i) && behind_a_gate(b, i) {
        let g = choose|g: int| #[trigger] is_gate(b, g) && tree::under(b.nodes@, g + 1, i);
        assert(gate_ok(b, s, swept, g));
    }
    assert(tree::under(b.nodes@, 0, i) || behind_a_gate(b, i));
    assert forall|g: int, h: int|
        #[trigger] is_gate(b, g) && #[trigger] is_gate(b, h) && tree::under(b.nodes@, g + 1, i) && tree::under(
            b.nodes@,
            h + 1,
            i,
        ) implies g == h by {
        if g < h {
            assert(apart(b, g + 1, h + 1));
        } else if h < g {
            assert(apart(b, h + 1, g + 1));
        }
    }
}

/// Every cell with triangles has exactly one gateway.
pub proof fn cells_have_one_gateway(b: Bvh, s: SceneSway, swept: Seq<BitsBox>, n: int, c: int)
    requires
        tree_holds(b, s, swept, n),
        0 <= c < s.cells@.len(),
        cell_size(s, c) > 0,
    ensures
        exists|g: int|
            #[trigger] is_gate(b, g) && gate_cell(b, s, g) == c && forall|h: int|
                #[trigger] is_gate(b, h) && gate_cell(b, s, h) == c ==> h == g,
{
    assert(hosted(b, s, c));
    let g = choose|g: int| #[trigger] is_gate(b, g) && gate_cell(b, s, g) == c;
    assert forall|h: int| #[trigger] is_gate(b, h) && gate_cell(b, s, h) == c implies h == g by {
        assert(is_gate(b, g));
        if g < h {
            assert(gate_cell(b, s, g) != gate_cell(b, s, h));
        } else if h < g {
            assert(gate_cell(b, s, h) != gate_cell(b, s, g));
        }
    }
}

} // verus!
