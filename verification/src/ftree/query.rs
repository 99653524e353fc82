//! Bound queries on the wide tree: the same answers as on the binary
//! hierarchy, in fewer and wider steps.
use vstd::prelude::*;
use crate::bits;
use crate::bits::BitsBox;
use crate::bvh as tree;
use crate::bvh::BvhNode;
use crate::frustum as bound;
use crate::frustum::{Bound, Cut, Verdict};
use crate::ftree::collapse as wide;
use crate::ftree::collapse::{FTree, Slot, INVALID, MAX_NODES, WIDTH};

verus! {

/// The number is that of an occupied slot.
pub open spec fn is_entry(ft: FTree, e: u32) -> bool {
    (e / 8) < ft.nodes@.len() && (e % 8) < ft.nodes@[(e / 8) as int].slots@.len()
}

/// The binary node behind a slot.
pub open spec fn bnode_of(ft: FTree, e: u32) -> u32 {
    ft.nodes@[(e / 8) as int].slots@[(e % 8) as int].bnode
}

/// The wide node behind a slot.
pub open spec fn child_of(ft: FTree, e: u32) -> u32 {
    ft.nodes@[(e / 8) as int].slots@[(e % 8) as int].child
}

/// The binary nodes behind a cut.
pub open spec fn bnodes(ft: FTree, cut: Seq<u32>) -> Seq<u32> {
    Seq::new(cut.len(), |i: int| bnode_of(ft, cut[i]))
}

/// Every number of the cut is that of an occupied slot.
pub open spec fn is_cut(ft: FTree, cut: Seq<u32>) -> bool {
    forall|i: int| 0 <= i < cut.len() ==> is_entry(ft, #[trigger] cut[i])
}

/// The tree is collapsed from a binary hierarchy, and the table has a verdict
/// for every binary node.
pub open spec fn tabled(ft: FTree, table: Seq<Verdict>) -> bool {
    ft.wf() && (ft.root_cut@.len() > 0 ==> table.len() == ft.over@.len())
}

/// A slot of a collapsed tree.
proof fn lemma_slot(ft: FTree, w: int, i: int)
    requires
        ft.wf(),
        0 <= w < ft.nodes@.len(),
        0 <= i < ft.nodes@[w].slots@.len(),
    ensures
        wide::collapsed(ft.over@, ft.areas@, ft),
        ft.root_cut@.len() > 0,
        ft.nodes@[w].slots@.len() <= WIDTH,
        ({
            let s = ft.nodes@[w].slots@[i];
            &&& s.bnode < ft.over@.len()
            &&& tree::is_tree(ft.over@, s.bnode as int)
            &&& s.aabb == ft.over@[s.bnode as int].aabb
            &&& (s.child == INVALID) == (ft.over@[s.bnode as int].count != 0)
            &&& s.child != INVALID ==> w < s.child < ft.nodes@.len() && ft.covers@[s.child as int]
                == s.bnode
        }),
{
    assert(wide::collapsed(ft.over@, ft.areas@, ft));
    let slots = ft.nodes@[w].slots@;
    assert(wide::node_ok(ft.over@, ft.areas@, ft.nodes@, ft.covers@, ft.ends@, 0));
    assert(wide::node_ok(ft.over@, ft.areas@, ft.nodes@, ft.covers@, ft.ends@, w));
    assert(wide::slot_ok(ft.over@, slots, ft.covers@, ft.ends@, w, ft.ends@[w], i));
    let b = ft.covers@[w];
    let held = wide::ids(ft.nodes@[w]);
    assert(held[i] == slots[i].bnode);
    if ft.over@[b].count == 0 {
        wide::lemma_holds_parts(ft.over@, ft.areas@, b, held);
    } else {
        assert(held[0] == b);
        assert(held.len() == 1);
    }
}

/// A node has at most eight slots.
pub proof fn lemma_slots_fit(ft: FTree, w: int)
    requires
        ft.wf(),
        0 <= w < ft.nodes@.len(),
    ensures
        ft.nodes@[w].slots@.len() <= WIDTH,
{
    if ft.nodes@[w].slots@.len() > 0 {
        lemma_slot(ft, w, 0);
    }
}

/// The slots of a node over an internal binary node part what is under it.
proof fn lemma_node_parts(ft: FTree, w: int)
    requires
        wide::collapsed(ft.over@, ft.areas@, ft),
        0 <= w < ft.nodes@.len(),
        ft.over@[ft.covers@[w]].count == 0,
    ensures
        0 <= ft.covers@[w] < ft.over@.len(),
        wide::parts(ft.over@, ft.covers@[w], wide::ids(ft.nodes@[w])),
        bound::load(ft.over@, wide::ids(ft.nodes@[w])) + 1 <= tree::weight(
            ft.over@,
            ft.covers@[w],
        ),
{
    assert(wide::node_ok(ft.over@, ft.areas@, ft.nodes@, ft.covers@, ft.ends@, w));
    wide::lemma_holds_parts(ft.over@, ft.areas@, ft.covers@[w], wide::ids(ft.nodes@[w]));
    wide::lemma_parts_load(ft.over@, ft.covers@[w], wide::ids(ft.nodes@[w]));
}

/// Where every part is blocked, the node is.
proof fn lemma_parts_blocked(
    nodes: Seq<BvhNode>,
    table: Seq<Verdict>,
    t_start: u32,
    b: int,
    s: Seq<u32>,
    best: u32,
)
    requires
        wide::parts(nodes, b, s),
        forall|j: int|
            0 <= j < s.len() ==> bound::all_blocked(
                nodes,
                table,
                t_start,
                #[trigger] s[j] as int,
                best,
            ),
    ensures
        bound::all_blocked(nodes, table, t_start, b, best),
{
    assert forall|p: Seq<int>| #[trigger] tree::to_leaf(nodes, b, p) implies bound::blocked(
        table,
        t_start,
        best,
        p,
    ) by {
        assert(bound::passes(p, s));
        let (k, j) = choose|k: int, j: int|
            0 <= k < p.len() && 0 <= j < s.len() && #[trigger] p[k] == #[trigger] s[j];
        let q = p.skip(k);
        tree::lemma_tail(nodes, b, p, k);
        assert(tree::to_leaf(nodes, s[j] as int, q));
        assert(bound::all_blocked(nodes, table, t_start, s[j] as int, best));
        let i = choose|i: int|
            0 <= i < q.len() && bound::stops(table[#[trigger] q[i]], t_start, best);
        assert(p[k + i] == q[i]);
    }
}

/// Wide nodes behind slot `j`.
spec fn room(ft: FTree, w: int, j: int) -> int {
    let c = ft.nodes@[w].slots@[j].child;
    if c != INVALID {
        ft.ends@[c as int] - c
    } else {
        0
    }
}

/// Wide nodes behind those of the first `n` slots that are marked.
spec fn marked_room(ft: FTree, w: int, marked: Seq<bool>, n: int) -> int
    decreases n,
{
    if n <= 0 {
        0
    } else {
        marked_room(ft, w, marked, n - 1) + if marked[n - 1] {
            room(ft, w, n - 1)
        } else {
            0
        }
    }
}

/// All the slots together have room for the node's descendants only.
proof fn lemma_marked_bound(ft: FTree, w: int, marked: Seq<bool>, n: int)
    requires
        wide::collapsed(ft.over@, ft.areas@, ft),
        0 <= w < ft.nodes@.len(),
        0 <= n <= ft.nodes@[w].slots@.len(),
    ensures
        0 <= marked_room(ft, w, marked, n) <= wide::start_of(
            ft.nodes@[w].slots@,
            ft.ends@,
            w,
            n,
        ) - w - 1,
    decreases n,
{
    if n > 0 {
        lemma_marked_bound(ft, w, marked, n - 1);
        let slots = ft.nodes@[w].slots@;
        assert(wide::node_ok(ft.over@, ft.areas@, ft.nodes@, ft.covers@, ft.ends@, w));
        assert(wide::slot_ok(ft.over@, slots, ft.covers@, ft.ends@, w, ft.ends@[w], n - 1));
        let c = slots[n - 1].child as int;
        if c != INVALID {
            assert(wide::node_ok(ft.over@, ft.areas@, ft.nodes@, ft.covers@, ft.ends@, c));
        }
    }
}

/// Marking one more slot adds its room.
proof fn lemma_marked_more(ft: FTree, w: int, marked: Seq<bool>, n: int, j: int)
    requires
        0 <= j < marked.len(),
        n <= marked.len(),
        !marked[j],
    ensures
        marked_room(ft, w, marked.update(j, true), n) == marked_room(ft, w, marked, n) + if j < n {
            room(ft, w, j)
        } else {
            0
        },
    decreases n,
{
    if n > 0 {
        lemma_marked_more(ft, w, marked, n - 1, j);
    }
}

/// Where a slot with this key goes among the first `n` of a list, behind those
/// that are no farther.
pub open spec fn place(order: Seq<(u32, u32)>, d: u32, n: int) -> int
    decreases n,
{
    if n <= 0 || !bits::lt(d, order[n - 1].0) {
        n
    } else {
        place(order, d, n - 1)
    }
}

/// What looking at the boxes of the first `n` slots comes to: the bound, and
/// the wide nodes to descend into with their keys, near ones first.
pub open spec fn scan(
    slots: Seq<Slot>,
    table: Seq<Verdict>,
    t_start: u32,
    best: u32,
    n: int,
) -> (u32, Seq<(u32, u32)>)
    decreases n,
{
    if n <= 0 {
        (best, Seq::empty())
    } else {
        let (low, order) = scan(slots, table, t_start, best, n - 1);
        let v = table[slots[n - 1].bnode as int];
        let d = bound::key(v, t_start);
        if bound::stops(v, t_start, low) {
            (low, order)
        } else if slots[n - 1].child == INVALID {
            (d, order)
        } else {
            (low, order.insert(place(order, d, order.len() as int), (d, slots[n - 1].child)))
        }
    }
}

/// What looking at all slots of node `w`, and behind them, comes to: the bound
/// and how many nodes are looked at.
pub open spec fn search_node(
    ft: FTree,
    table: Seq<Verdict>,
    t_start: u32,
    w: int,
    best: u32,
) -> (u32, nat)
    decreases ft.nodes@.len() - w, 1int, 0int,
{
    let slots = ft.nodes@[w].slots@;
    let (low, order) = scan(slots, table, t_start, best, slots.len() as int);
    let deeper = search_list(ft, table, t_start, w, order, 0, low);
    (deeper.0, 1 + deeper.1)
}

/// What descending into a list's nodes from the `k`-th on comes to, until one
/// is too far. They all lie past `w`.
pub open spec fn search_list(
    ft: FTree,
    table: Seq<Verdict>,
    t_start: u32,
    w: int,
    order: Seq<(u32, u32)>,
    k: int,
    low: u32,
) -> (u32, nat)
    decreases ft.nodes@.len() - w, 0int, order.len() - k,
{
    if k >= order.len() || bits::le(low, order[k].0) || !(w < order[k].1 < ft.nodes@.len()) {
        (low, 0)
    } else {
        let one = search_node(ft, table, t_start, order[k].1 as int, low);
        let rest = search_list(ft, table, t_start, w, order, k + 1, one.0);
        (rest.0, one.1 + rest.1)
    }
}

/// What looking behind one slot comes to.
pub open spec fn search_entry(
    ft: FTree,
    table: Seq<Verdict>,
    t_start: u32,
    e: u32,
    best: u32,
) -> (u32, nat) {
    let v = table[bnode_of(ft, e) as int];
    if bound::stops(v, t_start, best) {
        (best, 0)
    } else if child_of(ft, e) == INVALID {
        (bound::key(v, t_start), 0)
    } else {
        search_node(ft, table, t_start, child_of(ft, e) as int, best)
    }
}

/// What looking behind the first `n` slots of a cut comes to, one after the
/// other.
pub open spec fn search_cut(
    ft: FTree,
    table: Seq<Verdict>,
    t_start: u32,
    t_limit: u32,
    cut: Seq<u32>,
    n: int,
) -> (u32, nat)
    decreases n,
{
    if n <= 0 {
        (t_limit, 0)
    } else {
        let so_far = search_cut(ft, table, t_start, t_limit, cut, n - 1);
        let last = search_entry(ft, table, t_start, cut[n - 1], so_far.0);
        (last.0, so_far.1 + last.1)
    }
}

/// The keys of a list are numbers, near ones first.
spec fn near_first(order: Seq<(u32, u32)>) -> bool {
    &&& forall|i: int| 0 <= i < order.len() ==> !bits::is_nan((#[trigger] order[i]).0)
    &&& forall|i: int, j: int|
        0 <= i < j < order.len() ==> bits::le((#[trigger] order[i]).0, (#[trigger] order[j]).0)
}

/// Where a slot with this key goes, behind those that are no farther.
fn place_of(order: &Vec<(u32, u32)>, d: u32) -> (at: usize)
    ensures
        at <= order@.len(),
        !bits::is_nan(d) && near_first(order@) ==> forall|i: int|
            0 <= i < at ==> bits::le((#[trigger] order@[i]).0, d),
        forall|i: int| at <= i < order@.len() ==> bits::lt(d, (#[trigger] order@[i]).0),
        at == place(order@, d, order@.len() as int),
{
    let mut at: usize = order.len();
    while at > 0 && bits::is_lt(d, order[at - 1].0)
        invariant
            at <= order@.len(),
            place(order@, d, at as int) == place(order@, d, order@.len() as int),
            forall|i: int| at <= i < order@.len() ==> bits::lt(d, (#[trigger] order@[i]).0),
        decreases at,
    {
        at = at - 1;
    }
    proof {
        if at > 0 && !bits::is_nan(d) && near_first(order@) {
            assert forall|i: int| 0 <= i < at implies bits::le((#[trigger] order@[i]).0, d) by {
                assert(bits::le(order@[at - 1].0, d));
                if i < at - 1 {
                    assert(bits::le(order@[i].0, order@[at - 1].0));
                }
            }
        }
    }
    at
}

/// What waits in `order` are slots of node `w`, each once: `src` says which.
spec fn waiting(
    ft: FTree,
    table: Seq<Verdict>,
    t_start: u32,
    w: int,
    n: int,
    order: Seq<(u32, u32)>,
    src: Seq<int>,
) -> bool {
    let slots = ft.nodes@[w].slots@;
    &&& src.len() == order.len()
    &&& src.no_duplicates()
    &&& forall|k: int| 0 <= k < src.len() ==> 0 <= #[trigger] src[k] < n
    &&& forall|k: int|
        0 <= k < order.len() ==> {
            let v = table[slots[src[k]].bnode as int];
            &&& (#[trigger] order[k]).1 == slots[src[k]].child
            &&& order[k].1 != INVALID
            &&& order[k].0 == bound::key(v, t_start)
        }
}

/// One more slot waits.
proof fn lemma_waiting_more(
    ft: FTree,
    table: Seq<Verdict>,
    t_start: u32,
    w: int,
    n: int,
    order: Seq<(u32, u32)>,
    src: Seq<int>,
    at: int,
    d: u32,
)
    requires
        waiting(ft, table, t_start, w, n, order, src),
        0 <= at <= order.len(),
        0 <= n < ft.nodes@[w].slots@.len(),
        ft.nodes@[w].slots@[n].child != INVALID,
        d == bound::key(table[ft.nodes@[w].slots@[n].bnode as int], t_start),
    ensures
        waiting(
            ft,
            table,
            t_start,
            w,
            n + 1,
            order.insert(at, (d, ft.nodes@[w].slots@[n].child)),
            src.insert(at, n),
        ),
        forall|j: int| src.contains(j) ==> #[trigger] src.insert(at, n).contains(j),
        src.insert(at, n).contains(n),
{
    let slots = ft.nodes@[w].slots@;
    let more = order.insert(at, (d, slots[n].child));
    let from = src.insert(at, n);
    assert(from[at] == n);
    assert forall|i: int, j: int| 0 <= i < from.len() && 0 <= j < from.len() && i != j implies from[i]
        != from[j] by {
        let a = if i > at { i - 1 } else { i };
        let c = if j > at { j - 1 } else { j };
        if i != at {
            assert(from[i] == src[a]);
        }
        if j != at {
            assert(from[j] == src[c]);
        }
    }
    assert forall|k: int| 0 <= k < from.len() implies 0 <= #[trigger] from[k] < n + 1 by {
        if k != at {
            assert(from[k] == src[if k > at { k - 1 } else { k }]);
        }
    }
    assert forall|k: int| 0 <= k < more.len() implies {
        let v = table[slots[from[k]].bnode as int];
        &&& (#[trigger] more[k]).1 == slots[from[k]].child
        &&& more[k].1 != INVALID
        &&& more[k].0 == bound::key(v, t_start)
    } by {
        if k != at {
            let a = if k > at { k - 1 } else { k };
            assert(more[k] == order[a] && from[k] == src[a]);
        }
    }
    assert forall|j: int| src.contains(j) implies #[trigger] from.contains(j) by {
        let k = choose|k: int| 0 <= k < src.len() && src[k] == j;
        assert(from[if k >= at { k + 1 } else { k }] == j);
    }
}

/// A slot put in its place leaves near ones first.
proof fn lemma_near_first(order: Seq<(u32, u32)>, at: int, e: (u32, u32))
    requires
        near_first(order),
        0 <= at <= order.len(),
        !bits::is_nan(e.0),
        forall|i: int| 0 <= i < at ==> bits::le((#[trigger] order[i]).0, e.0),
        forall|i: int| at <= i < order.len() ==> bits::lt(e.0, (#[trigger] order[i]).0),
    ensures
        near_first(order.insert(at, e)),
{
    let more = order.insert(at, e);
    assert forall|i: int| 0 <= i < more.len() implies !bits::is_nan((#[trigger] more[i]).0) by {
        if i != at {
            assert(more[i] == order[if i > at { i - 1 } else { i }]);
        }
    }
    assert forall|i: int, j: int| 0 <= i < j < more.len() implies bits::le(
        (#[trigger] more[i]).0,
        (#[trigger] more[j]).0,
    ) by {
        let a = if i > at { i - 1 } else { i };
        let c = if j > at { j - 1 } else { j };
        if i != at {
            assert(more[i] == order[a]);
        }
        if j != at {
            assert(more[j] == order[c]);
        }
        if i != at && j != at {
            assert(bits::le(order[a].0, order[c].0));
        }
    }
}

/// A bound from under a slot is one from under the node.
proof fn lemma_slot_attained(
    ft: FTree,
    table: Seq<Verdict>,
    t_start: u32,
    w: int,
    j: int,
    d: u32,
)
    requires
        wide::collapsed(ft.over@, ft.areas@, ft),
        0 <= w < ft.nodes@.len(),
        ft.over@[ft.covers@[w]].count == 0,
        0 <= j < ft.nodes@[w].slots@.len(),
        bound::attained(
            ft.over@,
            table,
            t_start,
            ft.nodes@[w].slots@[j].bnode as int,
            d,
        ),
    ensures
        bound::attained(ft.over@, table, t_start, ft.covers@[w], d),
{
    lemma_node_parts(ft, w);
    let held = wide::ids(ft.nodes@[w]);
    assert(held[j] == ft.nodes@[w].slots@[j].bnode);
    bound::lemma_attained_up(ft.over@, table, t_start, ft.covers@[w], held[j] as int, d);
}

/// Looks at all slots of a node for a bound below `best`: terminal slots set
/// it, the others are descended into, near ones first.
#[verifier::rlimit(60)]
fn visit_node(
    ft: &FTree,
    table: &Vec<Verdict>,
    t_start: u32,
    node: u32,
    best: u32,
) -> (r: (u32, u64))
    requires
        wide::collapsed(ft.over@, ft.areas@, *ft),
        table@.len() == ft.over@.len(),
        node < ft.nodes@.len(),
        ft.over@[ft.covers@[node as int]].count == 0,
    ensures
        bound::numbers(t_start, best) ==> r.0 == best || (bits::lt(r.0, best) && bound::attained(
            ft.over@,
            table@,
            t_start,
            ft.covers@[node as int],
            r.0,
        )),
        bound::numbers(t_start, best) ==> bound::all_blocked(
            ft.over@,
            table@,
            t_start,
            ft.covers@[node as int],
            r.0,
        ),
        1 <= r.1 <= ft.ends@[node as int] - node,
        search_node(*ft, table@, t_start, node as int, best) == (r.0, r.1 as nat),
    decreases ft.nodes@.len() - node,
{
    let ghost w = node as int;
    let ghost over = ft.over@;
    let ghost b = ft.covers@[w];
    let ghost slots = ft.nodes@[w].slots@;
    let ghost sane = bound::numbers(t_start, best);
    let n: usize = ft.nodes[node as usize].slots.len();
    let mut low: u32 = best;
    let mut order: Vec<(u32, u32)> = Vec::new();
    let ghost mut src: Seq<int> = Seq::empty();
    let mut i: usize = 0;
    while i < n
        invariant
            i <= n,
            w == node,
            over == ft.over@,
            b == ft.covers@[w],
            slots == ft.nodes@[w].slots@,
            n == slots.len(),
            wide::collapsed(over, ft.areas@, *ft),
            table@.len() == over.len(),
            node < ft.nodes@.len(),
            over[b].count == 0,
            sane == bound::numbers(t_start, best),
            sane ==> !bits::is_nan(low),
            sane ==> near_first(order@),
            sane ==> low == best || (bits::lt(low, best) && bound::attained(
                over,
                table@,
                t_start,
                b,
                low,
            )),
            scan(slots, table@, t_start, best, i as int) == (low, order@),
            waiting(*ft, table@, t_start, w, i as int, order@, src),
            sane ==> forall|j: int|
                0 <= j < i ==> bound::all_blocked(
                    over,
                    table@,
                    t_start,
                    (#[trigger] slots[j]).bnode as int,
                    low,
                ) || src.contains(j),
        decreases n - i,
    {
        let slot = ft.nodes[node as usize].slots[i];
        let ghost was = low;
        let ghost from = src;
        proof {
            assert(slots[i as int] == slot);
            lemma_slot(*ft, w, i as int);
        }
        let v = table[slot.bnode as usize];
        let ghost x = slot.bnode as int;
        let d: u32 = bound::key_of(&v, t_start);
        if bound::is_dropped(&v, t_start) || bits::is_le(low, d) {
            proof {
                bound::lemma_stopped(over, table@, t_start, x, low);
            }
        } else if slot.child == INVALID {
            low = d;
            proof {
                if sane {
                    bound::lemma_stopped(over, table@, t_start, x, low);
                }
                tree::lemma_under_self(over, x);
                assert(bound::attained(over, table@, t_start, x, low));
                lemma_slot_attained(*ft, table@, t_start, w, i as int, low);
            }
        } else {
            let at: usize = place_of(&order, d);
            proof {
                lemma_waiting_more(
                    *ft,
                    table@,
                    t_start,
                    w,
                    i as int,
                    order@,
                    src,
                    at as int,
                    d,
                );
                src = src.insert(at as int, i as int);
                if sane {
                    lemma_near_first(order@, at as int, (d, slot.child));
                }
            }
            order.insert(at, (d, slot.child));
        }
        proof {
            if sane {
                assert forall|j: int| 0 <= j < i + 1 implies bound::all_blocked(
                    over,
                    table@,
                    t_start,
                    (#[trigger] slots[j]).bnode as int,
                    low,
                ) || src.contains(j) by {
                    if j < i {
                        if from.contains(j) {
                            assert(src.contains(j));
                        } else {
                            bound::lemma_blocked_lower(
                                over,
                                table@,
                                t_start,
                                slots[j].bnode as int,
                                was,
                                low,
                            );
                        }
                    }
                }
            }
        }
        i = i + 1;
    }
    let m: usize = order.len();
    let mut visits: u64 = 1;
    let ghost full = search_list(*ft, table@, t_start, w, order@, 0, low);
    let ghost mut marked: Seq<bool> = Seq::new(n as nat, |j: int| false);
    let mut k: usize = 0;
    proof {
        lemma_unmarked(*ft, w, marked, n as int);
        assert(src.skip(0) =~= src);
    }
    while k < m && !bits::is_le(low, order[k].0)
        invariant
            k <= m,
            m == order@.len(),
            w == node,
            over == ft.over@,
            b == ft.covers@[w],
            slots == ft.nodes@[w].slots@,
            n == slots.len(),
            wide::collapsed(over, ft.areas@, *ft),
            table@.len() == over.len(),
            node < ft.nodes@.len(),
            over[b].count == 0,
            sane == bound::numbers(t_start, best),
            sane ==> !bits::is_nan(low),
            sane ==> low == best || (bits::lt(low, best) && bound::attained(
                over,
                table@,
                t_start,
                b,
                low,
            )),
            waiting(*ft, table@, t_start, w, n as int, order@, src),
            sane ==> near_first(order@),
            sane ==> forall|j: int|
                0 <= j < n ==> bound::all_blocked(
                    over,
                    table@,
                    t_start,
                    (#[trigger] slots[j]).bnode as int,
                    low,
                ) || src.skip(k as int).contains(j),
            marked.len() == n,
            forall|q: int| k <= q < m ==> !marked[#[trigger] src[q]],
            1 <= visits <= 1 + marked_room(*ft, w, marked, n as int),
            full.0 == search_list(*ft, table@, t_start, w, order@, k as int, low).0,
            1 + full.1 == visits + search_list(*ft, table@, t_start, w, order@, k as int, low).1,
        decreases m - k,
    {
        let c: u32 = order[k].1;
        let ghost j = src[k as int];
        let ghost was = low;
        let ghost had = marked;
        let ghost rest = src.skip(k as int);
        proof {
            assert(order@[k as int].1 == slots[j].child);
            lemma_slot(*ft, w, j);
            marked = marked.update(j, true);
            lemma_marked_more(*ft, w, had, n as int, j);
            lemma_marked_bound(*ft, w, marked, n as int);
            assert(wide::node_ok(over, ft.areas@, ft.nodes@, ft.covers@, ft.ends@, w));
        }
        let (l, v) = visit_node(ft, table, t_start, c, low);
        low = l;
        visits = visits + v;
        proof {
            if sane {
                if low != was {
                    lemma_slot_attained(*ft, table@, t_start, w, j, low);
                }
                let left = src.skip(k + 1);
                assert forall|i: int| 0 <= i < n implies bound::all_blocked(
                    over,
                    table@,
                    t_start,
                    (#[trigger] slots[i]).bnode as int,
                    low,
                ) || left.contains(i) by {
                    if rest.contains(i) {
                        let q = choose|q: int| 0 <= q < rest.len() && rest[q] == i;
                        if q > 0 {
                            assert(left[q - 1] == i);
                        } else {
                            assert(i == j);
                        }
                    } else {
                        bound::lemma_blocked_lower(
                            over,
                            table@,
                            t_start,
                            slots[i].bnode as int,
                            was,
                            low,
                        );
                    }
                }
            }
            assert forall|q: int| k + 1 <= q < m implies !marked[#[trigger] src[q]] by {
                assert(src[q] != src[k as int]);
                assert(!had[src[q]]);
            }
        }
        k = k + 1;
    }
    proof {
        lemma_node_parts(*ft, w);
        let held = wide::ids(ft.nodes@[w]);
        if sane {
            assert forall|j: int| 0 <= j < held.len() implies bound::all_blocked(
                over,
                table@,
                t_start,
                #[trigger] held[j] as int,
                low,
            ) by {
                assert(held[j] == slots[j].bnode);
                let rest = src.skip(k as int);
                if rest.contains(j) {
                    let q = choose|q: int| 0 <= q < rest.len() && rest[q] == j;
                    assert(src[k + q] == j);
                    if q > 0 {
                        assert(bits::le(order@[k as int].0, order@[k + q].0));
                    }
                    bound::lemma_stopped(over, table@, t_start, held[j] as int, low);
                }
            }
            lemma_parts_blocked(over, table@, t_start, b, held, low);
        }
        lemma_marked_bound(*ft, w, marked, n as int);
        assert(wide::node_ok(over, ft.areas@, ft.nodes@, ft.covers@, ft.ends@, w));
    }
    (low, visits)
}

proof fn lemma_unmarked(ft: FTree, w: int, marked: Seq<bool>, n: int)
    requires
        n <= marked.len(),
        forall|j: int| 0 <= j < n ==> !(#[trigger] marked[j]),
    ensures
        marked_room(ft, w, marked, n) == 0,
    decreases n,
{
    if n > 0 {
        lemma_unmarked(ft, w, marked, n - 1);
    }
}

impl FTree {
    /// The box of a slot.
    pub fn slot_aabb(&self, e: u32) -> (b: BitsBox)
        requires
            self.wf(),
            is_entry(*self, e),
        ensures
            b == self.over@[bnode_of(*self, e) as int].aabb,
    {
        proof {
            lemma_slot(*self, (e / 8) as int, (e % 8) as int);
        }
        self.nodes[(e / 8) as usize].slots[(e % 8) as usize].aabb
    }

    /// Tests one slot's box, and what is behind it.
    fn visit_entry(&self, table: &Vec<Verdict>, t_start: u32, e: u32, best: u32) -> (r: (u32, u64))
        requires
            tabled(*self, table@),
            is_entry(*self, e),
        ensures
            bound::numbers(t_start, best) ==> r.0 == best || (bits::lt(r.0, best)
                && bound::attained(
                self.over@,
                table@,
                t_start,
                bnode_of(*self, e) as int,
                r.0,
            )),
            bound::numbers(t_start, best) ==> bound::all_blocked(
                self.over@,
                table@,
                t_start,
                bnode_of(*self, e) as int,
                r.0,
            ),
            r.1 <= self.nodes@.len(),
            search_entry(*self, table@, t_start, e, best) == (r.0, r.1 as nat),
    {
        proof {
            lemma_slot(*self, (e / 8) as int, (e % 8) as int);
        }
        let slot = self.nodes[(e / 8) as usize].slots[(e % 8) as usize];
        let ghost x = slot.bnode as int;
        let v = table[slot.bnode as usize];
        let d: u32 = bound::key_of(&v, t_start);
        if bound::is_dropped(&v, t_start) || bits::is_le(best, d) {
            proof {
                bound::lemma_stopped(self.over@, table@, t_start, x, best);
            }
            return (best, 0);
        }
        if slot.child == INVALID {
            proof {
                if bound::numbers(t_start, best) {
                    bound::lemma_stopped(self.over@, table@, t_start, x, d);
                }
                tree::lemma_under_self(self.over@, x);
            }
            return (d, 0);
        }
        proof {
            let c = slot.child as int;
            assert(wide::node_ok(
                self.over@,
                self.areas@,
                self.nodes@,
                self.covers@,
                self.ends@,
                c,
            ));
        }
        visit_node(self, table, t_start, slot.child, best)
    }

    /// How near geometry inside the frustum can start, past `t_start` and
    /// below `t_limit`, looking behind the given slots. The table has what the
    /// frustum says of each binary node's box; `visits` counts wide nodes.
    pub fn nearest_within(
        &self,
        table: &Vec<Verdict>,
        t_start: u32,
        t_limit: u32,
        roots: &[u32],
    ) -> (r: Bound)
        requires
            tabled(*self, table@),
            is_cut(*self, roots@),
            roots@.len() <= u32::MAX,
        ensures
            bound::numbers(t_start, t_limit) ==> bound::found(
                self.over@,
                table@,
                t_start,
                t_limit,
                bnodes(*self, roots@),
                r.t,
            ),
            ({
                let end = search_cut(
                    *self,
                    table@,
                    t_start,
                    t_limit,
                    roots@,
                    roots@.len() as int,
                );
                r.t == bound::below(end.0, t_limit) && r.visits == end.1
            }),
            r.visits <= roots@.len() * self.nodes@.len(),
    {
        let ghost over = self.over@;
        let ghost ids = bnodes(*self, roots@);
        let mut best: u32 = t_limit;
        let mut visits: u64 = 0;
        let n: usize = roots.len();
        let mut i: usize = 0;
        proof {
            assert(0int * self.nodes@.len() == 0) by (nonlinear_arith);
        }
        while i < n
            invariant
                i <= n,
                n == roots@.len(),
                n <= u32::MAX,
                over == self.over@,
                ids == bnodes(*self, roots@),
                tabled(*self, table@),
                is_cut(*self, roots@),
                bound::numbers(t_start, t_limit) ==> {
                    &&& !bits::is_nan(best)
                    &&& best == t_limit || bits::lt(best, t_limit)
                    &&& best != t_limit ==> exists|j: int|
                        0 <= j < i && bound::attained(
                            over,
                            table@,
                            t_start,
                            #[trigger] ids[j] as int,
                            best,
                        )
                    &&& forall|j: int|
                        0 <= j < i ==> bound::all_blocked(
                            over,
                            table@,
                            t_start,
                            #[trigger] ids[j] as int,
                            best,
                        )
                },
                visits <= i * self.nodes@.len(),
                search_cut(*self, table@, t_start, t_limit, roots@, i as int) == (
                    best,
                    visits as nat,
                ),
            decreases n - i,
        {
            let e: u32 = roots[i];
            let ghost was = best;
            proof {
                assert(is_entry(*self, roots@[i as int]));
                assert(ids[i as int] == bnode_of(*self, e));
                lemma_slot(*self, (e / 8) as int, (e % 8) as int);
                let (a, m) = (i as int, self.nodes@.len() as int);
                assert(a * m + m == (a + 1) * m && (a + 1) * m <= 0xffff_ffff * 0xffff_ffff)
                    by (nonlinear_arith)
                    requires
                        0 <= a < 0xffff_ffff,
                        0 <= m <= 0xffff_ffff,
                ;
            }
            let (b, v) = self.visit_entry(table, t_start, e, best);
            best = b;
            visits = visits + v;
            proof {
                if bound::numbers(t_start, t_limit) {
                    assert forall|j: int| 0 <= j < i + 1 implies bound::all_blocked(
                        over,
                        table@,
                        t_start,
                        #[trigger] ids[j] as int,
                        best,
                    ) by {
                        if j < i {
                            bound::lemma_blocked_lower(
                                over,
                                table@,
                                t_start,
                                ids[j] as int,
                                was,
                                best,
                            );
                        }
                    }
                    if best != t_limit {
                        if best != was {
                            assert(bound::attained(
                                over,
                                table@,
                                t_start,
                                ids[i as int] as int,
                                best,
                            ));
                        } else {
                            let j = choose|j: int|
                                0 <= j < i && bound::attained(
                                    over,
                                    table@,
                                    t_start,
                                    #[trigger] ids[j] as int,
                                    best,
                                );
                            assert(bound::attained(over, table@, t_start, ids[j] as int, best));
                        }
                    }
                }
            }
            i = i + 1;
        }
        let t: Option<u32> = if bits::is_lt(best, t_limit) {
            Some(best)
        } else {
            None
        };
        Bound { t, visits }
    }
}

/// What an entry splits into: the slots of the wide node behind it.
pub open spec fn entry_parts(ft: FTree, e: u32) -> Seq<u32> {
    let c = child_of(ft, e);
    if c == INVALID {
        Seq::empty()
    } else {
        wide::entries_of(c as int, ft.nodes@[c as int].slots@.len() as int)
    }
}

/// The rule on the wide tree.
pub open spec fn entry_rule(
    ft: FTree,
    table: Seq<Verdict>,
    t_ball: u32,
    t_far: u32,
    budget: nat,
) -> bound::Rule {
    bound::Rule {
        parts: |e: u32| entry_parts(ft, e),
        verdict: |e: u32| table[bnode_of(ft, e) as int],
        t_ball,
        t_far,
        budget,
    }
}

/// An entry's parts are entries, over the binary nodes of the wide node
/// behind it.
proof fn lemma_entry_parts(ft: FTree, e: u32)
    requires
        ft.wf(),
        is_entry(ft, e),
        child_of(ft, e) != INVALID,
        ft.nodes@.len() <= MAX_NODES,
    ensures
        is_cut(ft, entry_parts(ft, e)),
        bnodes(ft, entry_parts(ft, e)) == wide::ids(ft.nodes@[child_of(ft, e) as int]),
        1 <= entry_parts(ft, e).len() <= WIDTH,
        wide::parts(ft.over@, bnode_of(ft, e) as int, bnodes(ft, entry_parts(ft, e))),
        bound::load(ft.over@, bnodes(ft, entry_parts(ft, e))) + 1 <= tree::weight(
            ft.over@,
            bnode_of(ft, e) as int,
        ),
{
    let c = child_of(ft, e) as int;
    lemma_slot(ft, (e / 8) as int, (e % 8) as int);
    assert(wide::node_ok(ft.over@, ft.areas@, ft.nodes@, ft.covers@, ft.ends@, c));
    lemma_node_parts(ft, c);
    let more = entry_parts(ft, e);
    assert forall|i: int| 0 <= i < more.len() implies is_entry(ft, #[trigger] more[i]) by {
        lemma_slot_ref(c, i);
    }
    assert(bnodes(ft, more) =~= wide::ids(ft.nodes@[c])) by {
        assert forall|i: int| 0 <= i < more.len() implies bnodes(ft, more)[i] == wide::ids(
            ft.nodes@[c],
        )[i] by {
            lemma_slot_ref(c, i);
        }
    }
}

/// A slot's number gives its node and its place back.
proof fn lemma_slot_ref(w: int, i: int)
    requires
        0 <= w < MAX_NODES,
        0 <= i < WIDTH,
    ensures
        0 <= wide::slot_ref(w, i) <= u32::MAX,
        wide::slot_ref(w, i) as u32 / 8 == w,
        wide::slot_ref(w, i) as u32 % 8 == i,
{
}

/// The root cut is a cut.
proof fn lemma_root_cut(ft: FTree)
    requires
        ft.wf(),
    ensures
        is_cut(ft, ft.root_cut@),
        ft.root_cut@.len() > 0 ==> bnodes(ft, ft.root_cut@) == wide::ids(ft.nodes@[0]),
{
    let cut = ft.root_cut@;
    if cut.len() > 0 {
        assert(wide::node_ok(ft.over@, ft.areas@, ft.nodes@, ft.covers@, ft.ends@, 0));
        assert forall|i: int| 0 <= i < cut.len() implies is_entry(ft, #[trigger] cut[i]) by {
            lemma_slot_ref(0, i);
        }
        assert(bnodes(ft, cut) =~= wide::ids(ft.nodes@[0])) by {
            assert forall|i: int| 0 <= i < cut.len() implies bnodes(ft, cut)[i] == wide::ids(
                ft.nodes@[0],
            )[i] by {
                lemma_slot_ref(0, i);
            }
        }
    }
}

/// The binary nodes of one list after another.
proof fn lemma_bnodes_join(ft: FTree, a: Seq<u32>, b: Seq<u32>)
    ensures
        bnodes(ft, a + b) == bnodes(ft, a) + bnodes(ft, b),
{
    assert(bnodes(ft, a + b) =~= bnodes(ft, a) + bnodes(ft, b));
}

proof fn lemma_load_join(nodes: Seq<BvhNode>, a: Seq<u32>, b: Seq<u32>)
    ensures
        bound::load(nodes, a + b) == bound::load(nodes, a) + bound::load(nodes, b),
    decreases b.len(),
{
    if b.len() == 0 {
        assert(a + b =~= a);
    } else {
        lemma_load_join(nodes, a, b.drop_last());
        assert((a + b).drop_last() =~= a + b.drop_last());
    }
}

/// One look keeps every way covered.
proof fn lemma_look_covers(
    ft: FTree,
    table: Seq<Verdict>,
    rule: bound::Rule,
    m: bound::Making,
    b: int,
)
    requires
        ft.wf(),
        rule == entry_rule(ft, table, rule.t_ball, rule.t_far, rule.budget),
        m.work.len() > 0,
        ft.nodes@.len() <= MAX_NODES,
        is_entry(ft, m.work.last()),
        bound::covered(
            ft.over@,
            table,
            rule.t_ball,
            rule.t_far,
            b,
            bnodes(ft, m.work + m.out),
        ),
    ensures
        bound::covered(
            ft.over@,
            table,
            rule.t_ball,
            rule.t_far,
            b,
            bnodes(ft, bound::look(rule, m).work + bound::look(rule, m).out),
        ),
{
    let over = ft.over@;
    let n = bound::look(rule, m);
    let e = m.work.last();
    let x = bnode_of(ft, e) as int;
    let rest = m.work.drop_last();
    let before = m.work + m.out;
    let after = n.work + n.out;
    let ids = bnodes(ft, before);
    let all = bnodes(ft, after);
    assert((rule.parts)(e) == entry_parts(ft, e));
    assert((rule.verdict)(e) == table[x]);
    assert forall|p: Seq<int>| #[trigger] tree::to_leaf(over, b, p) implies bound::shut(
        table,
        rule.t_ball,
        rule.t_far,
        p,
    ) || bound::passes(p, all) by {
        if !bound::shut(table, rule.t_ball, rule.t_far, p) {
            assert(bound::passes(p, ids));
            let (k, j) = choose|k: int, j: int|
                0 <= k < p.len() && 0 <= j < ids.len() && #[trigger] p[k] == #[trigger] ids[j];
            if j < rest.len() {
                assert(after[j] == before[j]);
                assert(all[j] == ids[j]);
            } else if j >= m.work.len() {
                let o = j - m.work.len();
                assert(before[j] == m.out[o]);
                assert(n.out[o] == m.out[o]);
                assert(after[n.work.len() + o] == m.out[o]);
                assert(all[n.work.len() + o] == p[k]);
            } else {
                assert(before[j] == e);
                assert(p[k] == x);
                assert(!bound::unhittable(table[p[k]], rule.t_ball, rule.t_far));
                if n.out.len() > m.out.len() {
                    let o = n.work.len() as int + m.out.len();
                    assert(n.out[m.out.len() as int] == e);
                    assert(after[o] == e);
                    assert(all[o] == x);
                } else {
                    // Split: the way goes on through a part.
                    let more = entry_parts(ft, e);
                    lemma_entry_parts(ft, e);
                    tree::lemma_tail(over, b, p, k);
                    let q = p.skip(k);
                    assert(tree::to_leaf(over, x, q));
                    let inner = bnodes(ft, more);
                    assert(bound::passes(q, inner));
                    let (u, v) = choose|u: int, v: int|
                        0 <= u < q.len() && 0 <= v < inner.len() && #[trigger] q[u]
                            == #[trigger] inner[v];
                    assert(p[k + u] == q[u]);
                    assert(after[rest.len() + v] == more[v]);
                    assert(all[rest.len() + v] == p[k + u]);
                }
            }
        }
    }
}

/// What lies under something reached is reached.
proof fn lemma_reached_under(nodes: Seq<BvhNode>, roots: Seq<u32>, e: int, c: int)
    requires
        bound::reached(nodes, roots, e),
        tree::under(nodes, e, c),
    ensures
        bound::reached(nodes, roots, c),
{
    let j = choose|j: int|
        0 <= j < roots.len() && tree::under(nodes, #[trigger] roots[j] as int, e);
    tree::lemma_under_trans(nodes, roots[j] as int, e, c);
}

impl FTree {
    /// Refines a parent's cut for a narrower frustum. What no ray can hit is
    /// left out; an entry is split into all the slots behind it as long as the
    /// budget lasts, and kept whole when it does not. None is left out for
    /// being far.
    #[verifier::rlimit(60)]
    pub fn refine_cut(
        &self,
        table: &Vec<Verdict>,
        t_ball: u32,
        t_far: u32,
        parent_cut: &[u32],
        budget: u32,
    ) -> (cut: Cut)
        requires
            tabled(*self, table@),
            is_cut(*self, parent_cut@),
            parent_cut@.len() <= budget,
            self.nodes@.len() <= MAX_NODES,
        ensures
            cut.entries@.len() <= budget,
            is_cut(*self, cut.entries@),
            bound::makes(
                entry_rule(*self, table@, t_ball, t_far, budget as nat),
                parent_cut@,
                cut,
            ),
            bound::sound_entries(
                self.over@,
                table@,
                t_ball,
                t_far,
                bnodes(*self, parent_cut@),
                bnodes(*self, cut.entries@),
                cut.overflows as nat,
            ),
            forall|i: int|
                0 <= i < parent_cut@.len() ==> bound::covered(
                    self.over@,
                    table@,
                    t_ball,
                    t_far,
                    #[trigger] bnodes(*self, parent_cut@)[i] as int,
                    bnodes(*self, cut.entries@),
                ),
    {
        let ghost over = self.over@;
        let ghost rule = entry_rule(*self, table@, t_ball, t_far, budget as nat);
        let ghost roots = bnodes(*self, parent_cut@);
        let mut out: Vec<u32> = Vec::new();
        let mut visits: u64 = 0;
        let mut overflows: u64 = 0;
        let mut work: Vec<u32> = Vec::new();
        let n: usize = parent_cut.len();
        let mut i: usize = 0;
        while i < n
            invariant
                i <= n,
                n == parent_cut@.len(),
                work@ == parent_cut@.take(i as int),
            decreases n - i,
        {
            work.push(parent_cut[i]);
            i = i + 1;
            assert(work@ =~= parent_cut@.take(i as int));
        }
        proof {
            assert(work@ =~= parent_cut@);
            lemma_start(*self, table@, t_ball, t_far, parent_cut@);
            assert(work@ + out@ =~= parent_cut@);
            assert(out@ =~= Seq::empty());
            assert(bnodes(*self, out@) =~= Seq::empty());
        }
        while work.len() > 0
            invariant
                over == self.over@,
                rule == entry_rule(*self, table@, t_ball, t_far, budget as nat),
                roots == bnodes(*self, parent_cut@),
                tabled(*self, table@),
                self.nodes@.len() <= MAX_NODES,
                is_cut(*self, parent_cut@),
                is_cut(*self, work@),
                is_cut(*self, out@),
                work@.len() + out@.len() <= budget,
                overflows <= out@.len(),
                bound::after(rule, parent_cut@, visits as nat) == (bound::Making {
                    work: work@,
                    out: out@,
                    over: overflows as nat,
                }),
                forall|k: nat|
                    k < visits ==> (#[trigger] bound::after(rule, parent_cut@, k)).work.len() > 0,
                forall|k: int|
                    0 <= k < work@.len() ==> bound::reached(
                        over,
                        roots,
                        bnode_of(*self, #[trigger] work@[k]) as int,
                    ),
                bound::sound_entries(
                    over,
                    table@,
                    t_ball,
                    t_far,
                    roots,
                    bnodes(*self, out@),
                    overflows as nat,
                ),
                forall|i: int|
                    0 <= i < parent_cut@.len() ==> bound::covered(
                        over,
                        table@,
                        t_ball,
                        t_far,
                        #[trigger] roots[i] as int,
                        bnodes(*self, work@ + out@),
                    ),
                visits + bound::load(over, bnodes(*self, work@)) <= bound::load(over, roots)
                    <= 0xffff_ffff * 0xffff_ffff,
            decreases bound::load(over, bnodes(*self, work@)),
        {
            let ghost m = bound::Making { work: work@, out: out@, over: overflows as nat };
            let ghost was = work@;
            let top: usize = work.len() - 1;
            let e: u32 = work[top];
            work.pop();
            let ghost x = bnode_of(*self, e);
            proof {
                assert(was[top as int] == e);
                assert(is_entry(*self, was[top as int]));
                assert(work@ =~= was.drop_last());
                assert(bnodes(*self, was) =~= bnodes(*self, work@).push(x));
                bound::lemma_load_push(over, bnodes(*self, work@), x);
                lemma_slot(*self, (e / 8) as int, (e % 8) as int);
                tree::lemma_family_finite(over, x as int);
                tree::lemma_under_self(over, x as int);
                assert(tree::family(over, x as int).contains(x as int));
                assert(tree::weight(over, x as int) >= 1);
                assert((rule.parts)(e) == entry_parts(*self, e));
                assert((rule.verdict)(e) == table@[x as int]);
                assert forall|i: int| 0 <= i < parent_cut@.len() implies bound::covered(
                    over,
                    table@,
                    t_ball,
                    t_far,
                    #[trigger] roots[i] as int,
                    bnodes(*self, bound::look(rule, m).work + bound::look(rule, m).out),
                ) by {
                    lemma_look_covers(*self, table@, rule, m, roots[i] as int);
                }
                assert(bound::after(rule, parent_cut@, (visits + 1) as nat) == bound::look(
                    rule,
                    m,
                ));
                assert(bound::after(rule, parent_cut@, visits as nat).work.len() > 0);
                assert(out@.len() + work@.len() + 1 <= budget <= usize::MAX);
            }
            visits = visits + 1;
            let slot = self.nodes[(e / 8) as usize].slots[(e % 8) as usize];
            let v = table[slot.bnode as usize];
            if bound::cannot_hit(&v, t_ball, t_far) {
                assert(bound::look(rule, m).work =~= work@);
            } else {
                let taken: usize = out.len() + work.len();
                let count: usize = if slot.child == INVALID {
                    0
                } else {
                    self.nodes[slot.child as usize].slots.len()
                };
                let ghost more = entry_parts(*self, e);
                proof {
                    if slot.child != INVALID {
                        lemma_entry_parts(*self, e);
                    }
                    assert(count == more.len());
                }
                if count > 0 && budget as usize - taken >= count {
                    let ghost rest = work@;
                    let mut j: usize = 0;
                    proof {
                        assert(more.take(0) =~= Seq::empty());
                        assert(work@ =~= rest + more.take(0));
                    }
                    while j < count
                        invariant
                            j <= count,
                            count <= WIDTH,
                            count == more.len(),
                            slot.child < self.nodes@.len(),
                            self.nodes@.len() <= MAX_NODES,
                            more == wide::entries_of(slot.child as int, count as int),
                            work@ == rest + more.take(j as int),
                        decreases count - j,
                    {
                        let c: u32 = wide::entry(slot.child, j);
                        work.push(c);
                        assert(more[j as int] == c);
                        j = j + 1;
                        assert(work@ =~= rest + more.take(j as int));
                    }
                    proof {
                        assert(more.take(count as int) =~= more);
                        assert(bound::look(rule, m).work =~= work@);
                        lemma_bnodes_join(*self, rest, more);
                        lemma_load_join(over, bnodes(*self, rest), bnodes(*self, more));
                        assert forall|k: int| 0 <= k < work@.len() implies is_entry(
                            *self,
                            #[trigger] work@[k],
                        ) && bound::reached(over, roots, bnode_of(*self, work@[k]) as int) by {
                            if k < rest.len() {
                                assert(work@[k] == was[k]);
                            } else {
                                assert(work@[k] == more[k - rest.len()]);
                                let y = bnodes(*self, more)[k - rest.len()];
                                assert(y == bnode_of(*self, work@[k]));
                                lemma_reached_under(over, roots, x as int, y as int);
                            }
                        }
                    }
                } else {
                    if count > 0 {
                        overflows = overflows + 1;
                    }
                    let ghost had = out@;
                    out.push(e);
                    proof {
                        assert(bound::look(rule, m).work =~= work@);
                        assert(bound::look(rule, m).out =~= out@);
                        let ids = bnodes(*self, out@);
                        assert forall|j: int| 0 <= j < ids.len() implies (#[trigger] ids[j])
                            < over.len() && !bound::unhittable(
                            table@[ids[j] as int],
                            t_ball,
                            t_far,
                        ) && bound::reached(over, roots, ids[j] as int) by {
                            if j < had.len() {
                                assert(bnodes(*self, had)[j] == ids[j]);
                            }
                        }
                        if overflows == 0 {
                            assert forall|j: int| 0 <= j < ids.len() implies over[(
                            #[trigger] ids[j]) as int].count != 0 by {
                                if j < had.len() {
                                    assert(bnodes(*self, had)[j] == ids[j]);
                                }
                            }
                        }
                    }
                }
            }
        }
        proof {
            assert(work@ =~= Seq::empty());
            assert(work@ + out@ =~= out@);
        }
        Cut { entries: out, visits, overflows }
    }
}

/// Before the first look, the cut covers itself.
proof fn lemma_start(ft: FTree, table: Seq<Verdict>, t_ball: u32, t_far: u32, cut: Seq<u32>)
    requires
        tabled(ft, table),
        is_cut(ft, cut),
        cut.len() <= u32::MAX,
    ensures
        forall|i: int|
            0 <= i < cut.len() ==> bound::covered(
                ft.over@,
                table,
                t_ball,
                t_far,
                #[trigger] bnodes(ft, cut)[i] as int,
                bnodes(ft, cut),
            ),
        forall|k: int|
            0 <= k < cut.len() ==> bound::reached(
                ft.over@,
                bnodes(ft, cut),
                bnode_of(ft, #[trigger] cut[k]) as int,
            ),
        bound::load(ft.over@, bnodes(ft, cut)) <= 0xffff_ffff * 0xffff_ffff,
{
    let ids = bnodes(ft, cut);
    assert forall|i: int| 0 <= i < cut.len() implies (#[trigger] ids[i]) < ft.over@.len()
        && ft.over@.len() <= u32::MAX && tree::links_inside(ft.over@) by {
        let e = cut[i];
        assert(is_entry(ft, cut[i]));
        lemma_slot(ft, (e / 8) as int, (e % 8) as int);
    }
    assert forall|i: int| 0 <= i < cut.len() implies bound::covered(
        ft.over@,
        table,
        t_ball,
        t_far,
        #[trigger] ids[i] as int,
        ids,
    ) by {
        assert forall|p: Seq<int>| #[trigger]
            tree::to_leaf(ft.over@, ids[i] as int, p) implies bound::shut(table, t_ball, t_far, p)
            || bound::passes(p, ids) by {
            assert(p[0] == ids[i]);
        }
    }
    assert forall|k: int| 0 <= k < cut.len() implies bound::reached(
        ft.over@,
        ids,
        bnode_of(ft, #[trigger] cut[k]) as int,
    ) by {
        assert(ids[k] == bnode_of(ft, cut[k]));
        tree::lemma_under_self(ft.over@, ids[k] as int);
    }
    if cut.len() > 0 {
        assert(ids[0] < ft.over@.len());
        bound::lemma_load_bound(ft.over@, ids);
        let (a, b) = (ids.len() as int, ft.over@.len() as int);
        assert(a * b <= 0xffff_ffff * 0xffff_ffff) by (nonlinear_arith)
            requires
                0 <= a <= 0xffff_ffff,
                0 <= b <= 0xffff_ffff,
        ;
    }
}

/// The flat map from slots to binary nodes: eight places for each wide node,
/// those without a slot marked invalid.
pub open spec fn flat_map(ft: FTree) -> Seq<u32> {
    Seq::new(
        (ft.nodes@.len() * WIDTH) as nat,
        |i: int| flat_bnode(ft.nodes@[i / 8].slots@, i % 8),
    )
}

/// The binary node at a place of a wide node.
pub open spec fn flat_bnode(slots: Seq<wide::Slot>, s: int) -> u32 {
    if s < slots.len() {
        slots[s].bnode
    } else {
        INVALID
    }
}

impl FTree {
    /// The binary nodes behind a cut, as many as `limit` allows.
    pub fn to_bvh_roots(&self, cut: &[u32], limit: usize) -> (roots: Vec<u32>)
        requires
            self.wf(),
            is_cut(*self, cut@),
        ensures
            roots@ == bnodes(*self, cut@).take(
                if cut@.len() < limit {
                    cut@.len() as int
                } else {
                    limit as int
                },
            ),
            forall|i: int| 0 <= i < roots@.len() ==> (#[trigger] roots@[i]) < self.over@.len(),
    {
        let n: usize = if cut.len() < limit {
            cut.len()
        } else {
            limit
        };
        let mut roots: Vec<u32> = Vec::new();
        let mut i: usize = 0;
        while i < n
            invariant
                i <= n <= cut@.len(),
                self.wf(),
                is_cut(*self, cut@),
                roots@ == bnodes(*self, cut@).take(i as int),
                forall|i: int| 0 <= i < roots@.len() ==> (#[trigger] roots@[i]) < self.over@.len(),
            decreases n - i,
        {
            let e: u32 = cut[i];
            proof {
                assert(is_entry(*self, cut@[i as int]));
                lemma_slot(*self, (e / 8) as int, (e % 8) as int);
            }
            roots.push(self.nodes[(e / 8) as usize].slots[(e % 8) as usize].bnode);
            i = i + 1;
            assert(roots@ =~= bnodes(*self, cut@).take(i as int));
        }
        roots
    }

    /// One place of the flat map from slots to binary nodes.
    pub fn bnode_at(&self, flat: usize) -> (b: u32)
        requires
            flat < self.nodes@.len() * WIDTH,
        ensures
            b == flat_map(*self)[flat as int],
    {
        let slots = &self.nodes[flat / WIDTH].slots;
        let s: usize = flat % WIDTH;
        if s < slots.len() {
            slots[s].bnode
        } else {
            INVALID
        }
    }

    /// The flat map from slots to binary nodes.
    pub fn bnode_flat(&self) -> (flat: Vec<u32>)
        requires
            self.nodes@.len() * WIDTH <= usize::MAX,
        ensures
            flat@ == flat_map(*self),
    {
        let n: usize = self.nodes.len() * WIDTH;
        let mut flat: Vec<u32> = Vec::new();
        let mut i: usize = 0;
        while i < n
            invariant
                i <= n,
                n == self.nodes@.len() * WIDTH,
                flat@ == flat_map(*self).take(i as int),
            decreases n - i,
        {
            flat.push(self.bnode_at(i));
            i = i + 1;
            assert(flat@ =~= flat_map(*self).take(i as int));
        }
        assert(flat_map(*self).take(n as int) =~= flat_map(*self));
        flat
    }
}

/// Every occupied slot is a binary node: it has that node's very box, and a
/// wide node behind it exactly where that node is internal.
pub proof fn slots_are_binary_nodes(ft: FTree, e: u32)
    requires
        ft.wf(),
        is_entry(ft, e),
    ensures
        bnode_of(ft, e) < ft.over@.len(),
        ft.nodes@[(e / 8) as int].slots@[(e % 8) as int].aabb == ft.over@[bnode_of(
            ft,
            e,
        ) as int].aabb,
        child_of(ft, e) != INVALID <==> ft.over@[bnode_of(ft, e) as int].count == 0,
        child_of(ft, e) != INVALID ==> child_of(ft, e) < ft.nodes@.len(),
{
    lemma_slot(ft, (e / 8) as int, (e % 8) as int);
}

/// The root cut is valid, and its binary nodes reach exactly the leaves that
/// the binary root reaches.
pub proof fn root_cut_covers_every_leaf(ft: FTree)
    requires
        ft.wf(),
        ft.root_cut@.len() > 0,
    ensures
        is_cut(ft, ft.root_cut@),
        bound::leaves_within(ft.over@, bnodes(ft, ft.root_cut@), seq![0u32]),
        bound::leaves_within(ft.over@, seq![0u32], bnodes(ft, ft.root_cut@)),
{
    let over = ft.over@;
    let ids = bnodes(ft, ft.root_cut@);
    let one = seq![0u32];
    lemma_root_cut(ft);
    assert(wide::node_ok(over, ft.areas@, ft.nodes@, ft.covers@, ft.ends@, 0));
    assert(one[0] == 0);
    if over[0].count == 0 {
        wide::lemma_holds_parts(over, ft.areas@, 0, ids);
        assert forall|i: int, l: int|
            0 <= i < ids.len() && #[trigger] tree::under(over, #[trigger] ids[i] as int, l)
                && over[l].count != 0 implies bound::reached(over, one, l) by {
            tree::lemma_under_trans(over, 0, ids[i] as int, l);
            assert(tree::under(over, one[0] as int, l));
        }
        assert forall|i: int, l: int|
            0 <= i < one.len() && #[trigger] tree::under(over, #[trigger] one[i] as int, l)
                && over[l].count != 0 implies bound::reached(over, ids, l) by {
            let p = choose|p: Seq<int>| #[trigger] tree::leads_to(over, 0, p, l);
            tree::lemma_under_inside(over, 0, l);
            assert(tree::to_leaf(over, 0, p));
            assert(bound::passes(p, ids));
            let (k, j) = choose|k: int, j: int|
                0 <= k < p.len() && 0 <= j < ids.len() && #[trigger] p[k] == #[trigger] ids[j];
            tree::lemma_tail(over, 0, p, k);
            assert(tree::leads_to(over, ids[j] as int, p.skip(k), l));
        }
    } else {
        assert(ids == one);
        assert forall|i: int, l: int|
            0 <= i < one.len() && #[trigger] tree::under(over, #[trigger] one[i] as int, l)
                && over[l].count != 0 implies bound::reached(over, one, l) by {}
    }
}

/// On nested boxes the wide tree's root cut gives the bound that the binary
/// root gives.
pub proof fn wide_bounds_are_the_binary_ones(
    ft: FTree,
    table: Seq<Verdict>,
    t_start: u32,
    t_limit: u32,
    s: Option<u32>,
    t: Option<u32>,
)
    requires
        tabled(ft, table),
        ft.root_cut@.len() > 0,
        bound::nested(ft.over@, table),
        bound::found(ft.over@, table, t_start, t_limit, bnodes(ft, ft.root_cut@), s),
        bound::found(ft.over@, table, t_start, t_limit, seq![0u32], t),
    ensures
        bound::agree(s, t),
{
    let over = ft.over@;
    let ids = bnodes(ft, ft.root_cut@);
    root_cut_covers_every_leaf(ft);
    assert(wide::node_ok(over, ft.areas@, ft.nodes@, ft.covers@, ft.ends@, 0));
    assert forall|i: int| 0 <= i < ids.len() implies #[trigger] ids[i] < over.len()
        && tree::is_tree(over, ids[i] as int) by {
        let e = ft.root_cut@[i];
        assert(is_entry(ft, ft.root_cut@[i]));
        lemma_slot(ft, (e / 8) as int, (e % 8) as int);
    }
    bound::queries_over_the_same_leaves_agree(
        over,
        table,
        t_start,
        t_limit,
        ids,
        seq![0u32],
        s,
        t,
    );
}

/// A wide node's slots are descended into near ones first, and in slot order
/// where they are equally near: each listed one is a slot with a node behind it
/// that may help, listed with its key.
pub proof fn slots_are_descended_near_first(
    slots: Seq<Slot>,
    table: Seq<Verdict>,
    t_start: u32,
    best: u32,
    n: int,
    i: int,
    j: int,
)
    requires
        0 <= n <= slots.len(),
        !bits::is_nan(t_start),
        forall|a: int, b: int|
            0 <= a < b < slots.len() && (#[trigger] slots[a]).child != u32::MAX && (
            #[trigger] slots[b]).child != u32::MAX ==> slots[a].child < slots[b].child,
    ensures
        ({
            let order = scan(slots, table, t_start, best, n).1;
            &&& 0 <= i < j < order.len() ==> bits::lt(order[i].0, order[j].0) || (bits::le(
                order[i].0,
                order[j].0,
            ) && order[i].1 < order[j].1)
            &&& 0 <= i < order.len() ==> exists|k: int|
                0 <= k < n && (#[trigger] slots[k]).child == order[i].1 && order[i].0 == bound::key(
                    table[slots[k].bnode as int],
                    t_start,
                ) && !table[slots[k].bnode as int].outside && !bits::le(
                    table[slots[k].bnode as int].farthest,
                    t_start,
                ) && order[i].1 != u32::MAX
        }),
{
    lemma_scan_order(slots, table, t_start, best, n);
    let order = scan(slots, table, t_start, best, n).1;
    if 0 <= i < order.len() {
        assert(listed(slots, table, t_start, n, order[i]));
    }
}

/// The pair is a slot among the first `n` with a node behind it and its key.
spec fn listed(
    slots: Seq<Slot>,
    table: Seq<Verdict>,
    t_start: u32,
    n: int,
    e: (u32, u32),
) -> bool {
    exists|k: int|
        0 <= k < n && (#[trigger] slots[k]).child == e.1 && e.0 == bound::key(
            table[slots[k].bnode as int],
            t_start,
        ) && !bound::dropped(table[slots[k].bnode as int], t_start) && e.1 != u32::MAX
}

proof fn lemma_scan_order(
    slots: Seq<Slot>,
    table: Seq<Verdict>,
    t_start: u32,
    best: u32,
    n: int,
)
    requires
        0 <= n <= slots.len(),
        !bits::is_nan(t_start),
        forall|a: int, b: int|
            0 <= a < b < slots.len() && (#[trigger] slots[a]).child != u32::MAX && (
            #[trigger] slots[b]).child != u32::MAX ==> slots[a].child < slots[b].child,
    ensures
        ({
            let order = scan(slots, table, t_start, best, n).1;
            &&& forall|i: int, j: int|
                0 <= i < j < order.len() ==> bits::lt(
                    (#[trigger] order[i]).0,
                    (#[trigger] order[j]).0,
                ) || (bits::le(order[i].0, order[j].0) && order[i].1 < order[j].1)
            &&& forall|i: int|
                0 <= i < order.len() ==> listed(slots, table, t_start, n, #[trigger] order[i])
        }),
    decreases n,
{
    if n > 0 {
        lemma_scan_order(slots, table, t_start, best, n - 1);
        let (low, order) = scan(slots, table, t_start, best, n - 1);
        let last = slots[n - 1];
        let v = table[last.bnode as int];
        let d = bound::key(v, t_start);
        assert forall|i: int| 0 <= i < order.len() implies listed(
            slots,
            table,
            t_start,
            n,
            #[trigger] order[i],
        ) && (last.child != u32::MAX ==> order[i].1 < last.child) && !bits::is_nan(order[i].0) by {
            assert(listed(slots, table, t_start, n - 1, order[i]));
            let k = choose|k: int|
                0 <= k < n - 1 && (#[trigger] slots[k]).child == order[i].1 && order[i].0
                    == bound::key(table[slots[k].bnode as int], t_start) && !bound::dropped(
                    table[slots[k].bnode as int],
                    t_start,
                ) && order[i].1 != u32::MAX;
            assert(slots[k].child == order[i].1);
        }
        if !bound::stops(v, t_start, low) && last.child != INVALID {
            let at = place(order, d, order.len() as int);
            lemma_place_parts(order, d, order.len() as int);
            let new = order.insert(at, (d, last.child));
            assert(slots[n - 1].child == last.child);
            assert(listed(slots, table, t_start, n, (d, last.child)));
            assert forall|i: int, j: int| 0 <= i < j < new.len() implies bits::lt(
                (#[trigger] new[i]).0,
                (#[trigger] new[j]).0,
            ) || (bits::le(new[i].0, new[j].0) && new[i].1 < new[j].1) by {
                let p = if i < at {
                    i
                } else {
                    i - 1
                };
                let q = if j < at {
                    j
                } else {
                    j - 1
                };
                if i != at && j != at {
                    assert(new[i] == order[p] && new[j] == order[q]);
                    assert(p < q);
                } else if j == at {
                    assert(new[i] == order[i]);
                    if at - 1 > i {
                        assert(bits::le(order[i].0, order[at - 1].0));
                    }
                } else {
                    assert(new[j] == order[q]);
                }
            }
            assert forall|i: int| 0 <= i < new.len() implies listed(
                slots,
                table,
                t_start,
                n,
                #[trigger] new[i],
            ) by {
                if i < at {
                    assert(new[i] == order[i]);
                } else if i > at {
                    assert(new[i] == order[i - 1]);
                }
            }
        }
    }
}

proof fn lemma_place_parts(order: Seq<(u32, u32)>, d: u32, n: int)
    requires
        0 <= n <= order.len(),
    ensures
        0 <= place(order, d, n) <= n,
        forall|i: int| place(order, d, n) <= i < n ==> bits::lt(d, (#[trigger] order[i]).0),
        place(order, d, n) > 0 ==> !bits::lt(d, order[place(order, d, n) - 1].0),
    decreases n,
{
    if n > 0 && bits::lt(d, order[n - 1].0) {
        lemma_place_parts(order, d, n - 1);
    }
}

} // verus!
