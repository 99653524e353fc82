//! Collapsing the binary hierarchy: which binary nodes a wide node holds, and
//! how the wide nodes are numbered.
use vstd::prelude::*;
use crate::bits;
use crate::bits::BitsBox;
use crate::bvh as tree;
use crate::bvh::{Bvh, BvhNode};
use crate::frustum as bound;
use crate::tally;

verus! {

/// Minus one, as a bit pattern.
pub const MINUS_ONE: u32 = 0xbf80_0000;

/// Slots of a wide node.
pub const WIDTH: usize = 8;

/// No child, or no binary node.
pub const INVALID: u32 = u32::MAX;

/// Deepest wide tree that the iterative consumers have stack for.
pub const FT_STACK: usize = 32;

/// Bytes of a wide node in memory, and of its quantized form.
pub const FNODE_BYTES: usize = 256;

pub const QFNODE_BYTES: usize = 112;

/// Wide node ids that leave room for a slot number.
pub const MAX_NODES: usize = 0x2000_0000;

/// One box of a wide node: the binary node that it bounds, and the wide node
/// below it, unless the binary node is a leaf.
#[derive(Clone, Copy, Debug, PartialEq, Eq, Structural)]
pub struct Slot {
    pub aabb: BitsBox,
    pub child: u32,
    pub bnode: u32,
}

/// A wide node: its occupied slots, at most eight.
pub struct FNode {
    pub slots: Vec<Slot>,
}

/// A wide tree. Node 0 is its root.
pub struct FTree {
    pub nodes: Vec<FNode>,
    /// The root's slots, as cut entries.
    pub root_cut: Vec<u32>,
    /// The binary hierarchy that was collapsed, and its areas.
    pub over: Ghost<Seq<BvhNode>>,
    pub areas: Ghost<Seq<u32>>,
    /// The binary node that each wide node covers.
    pub covers: Ghost<Seq<int>>,
    /// Where each wide node's descendants end.
    pub ends: Ghost<Seq<int>>,
}

/// The number of a slot: its node's id and its place there.
pub open spec fn slot_ref(node: int, slot: int) -> int {
    node * 8 + slot
}

/// The number of a slot.
pub fn entry(node: u32, slot: usize) -> (e: u32)
    requires
        node < MAX_NODES,
        slot < WIDTH,
    ensures
        e == slot_ref(node as int, slot as int),
{
    node * 8 + slot as u32
}

/// Slot `i` is internal.
pub open spec fn splits(nodes: Seq<BvhNode>, e: u32) -> bool {
    nodes[e as int].count == 0
}

/// Slot `e` is internal and its area is a number above minus one: a box turned
/// inside out can have a negative area.
pub open spec fn splittable(nodes: Seq<BvhNode>, areas: Seq<u32>, e: u32) -> bool {
    splits(nodes, e) && bits::lt(MINUS_ONE, areas[e as int])
}

/// Some slot can be split.
pub open spec fn any_splits(nodes: Seq<BvhNode>, areas: Seq<u32>, s: Seq<u32>) -> bool {
    exists|i: int| 0 <= i < s.len() && splittable(nodes, areas, #[trigger] s[i])
}

/// Slot `x` gives way to slot `y`: its area is smaller, or as large, and its id
/// is no lower.
pub open spec fn gives_way(areas: Seq<u32>, x: u32, y: u32) -> bool {
    bits::lt(areas[x as int], areas[y as int]) || (bits::le(areas[x as int], areas[y as int]) && y
        <= x)
}

/// Slot `i` is the widest that can be split; among equals it has the lowest
/// id.
pub open spec fn is_widest(nodes: Seq<BvhNode>, areas: Seq<u32>, s: Seq<u32>, i: int) -> bool {
    &&& 0 <= i < s.len()
    &&& splittable(nodes, areas, s[i])
    &&& forall|j: int|
        0 <= j < s.len() && splittable(nodes, areas, #[trigger] s[j]) ==> gives_way(
            areas,
            s[j],
            s[i],
        )
}

/// The slots with one of them split into its two children.
pub open spec fn split_at(nodes: Seq<BvhNode>, s: Seq<u32>, i: int) -> Seq<u32> {
    s.update(i, nodes[s[i] as int].left_first).push((nodes[s[i] as int].left_first + 1) as u32)
}

/// The widest slot.
pub open spec fn widest(nodes: Seq<BvhNode>, areas: Seq<u32>, s: Seq<u32>) -> int {
    choose|i: int| is_widest(nodes, areas, s, i)
}

/// The slots after splitting the widest one again and again, until all eight
/// are taken or none can be split.
pub open spec fn frontier(nodes: Seq<BvhNode>, areas: Seq<u32>, s: Seq<u32>) -> Seq<u32>
    decreases WIDTH - s.len(),
{
    if s.len() >= WIDTH || !any_splits(nodes, areas, s) {
        s
    } else {
        proof {
            lemma_widest_exists(nodes, areas, s);
        }
        frontier(nodes, areas, split_at(nodes, s, widest(nodes, areas, s)))
    }
}

/// The binary nodes that the wide node over `b` holds: `b` itself where it is
/// a leaf, else what splitting it gives, by ascending id.
pub open spec fn holds(nodes: Seq<BvhNode>, areas: Seq<u32>, b: int, s: Seq<u32>) -> bool {
    if nodes[b].count != 0 {
        s == seq![b as u32]
    } else {
        let f = frontier(
            nodes,
            areas,
            seq![nodes[b].left_first, (nodes[b].left_first + 1) as u32],
        );
        &&& s.len() == f.len()
        &&& tally::ascending(s)
        &&& forall|x: u32| #[trigger] s.contains(x) <==> f.contains(x)
    }
}

/// Nothing lies under both.
pub open spec fn disjoint(nodes: Seq<BvhNode>, x: int, y: int) -> bool {
    forall|i: int| !(#[trigger] tree::under(nodes, x, i) && #[trigger] tree::under(nodes, y, i))
}

/// The nodes `s` part what is under `b`: each lies properly under it, no two
/// share anything, and every way down to a leaf leads through one.
pub open spec fn parts(nodes: Seq<BvhNode>, b: int, s: Seq<u32>) -> bool {
    &&& forall|i: int|
        0 <= i < s.len() ==> (#[trigger] s[i]) < nodes.len() && tree::under(nodes, b, s[i] as int)
            && tree::is_tree(nodes, s[i] as int) && !tree::under(nodes, s[i] as int, b)
    &&& forall|i: int, j: int|
        0 <= i < j < s.len() ==> disjoint(nodes, #[trigger] s[i] as int, #[trigger] s[j] as int)
    &&& forall|p: Seq<int>| #[trigger] tree::to_leaf(nodes, b, p) ==> bound::passes(p, s)
}

/// The two children part what is under a node.
proof fn lemma_children_part(nodes: Seq<BvhNode>, b: int)
    requires
        tree::links_inside(nodes),
        nodes.len() <= u32::MAX,
        0 <= b < nodes.len(),
        tree::is_tree(nodes, b),
        nodes[b].count == 0,
    ensures
        parts(nodes, b, seq![nodes[b].left_first, (nodes[b].left_first + 1) as u32]),
{
    let l = nodes[b].left_first as int;
    let s = seq![nodes[b].left_first, (nodes[b].left_first + 1) as u32];
    assert(nodes[b].count == 0);
    assert(tree::is_child(nodes, b, l) && tree::is_child(nodes, b, l + 1));
    tree::lemma_lighter(nodes, b, l);
    tree::lemma_lighter(nodes, b, l + 1);
    tree::lemma_tree_parts(nodes, b);
    tree::lemma_under_self(nodes, l);
    tree::lemma_under_self(nodes, l + 1);
    tree::lemma_under_split(nodes, b, l);
    tree::lemma_under_split(nodes, b, l + 1);
    assert(s[0] == l && s[1] == l + 1);
    assert forall|p: Seq<int>| #[trigger] tree::to_leaf(nodes, b, p) implies bound::passes(p, s) by {
        assert(p.len() > 1);
        assert(tree::descends(nodes, p, 0));
        if p[1] == l {
            assert(p[1] == s[0]);
        } else {
            assert(p[1] == s[1]);
        }
    }
}

/// Splitting one part keeps the rest parted.
proof fn lemma_split_parts(nodes: Seq<BvhNode>, b: int, s: Seq<u32>, i: int)
    requires
        tree::links_inside(nodes),
        nodes.len() <= u32::MAX,
        0 <= b < nodes.len(),
        parts(nodes, b, s),
        0 <= i < s.len(),
        splits(nodes, s[i]),
    ensures
        parts(nodes, b, split_at(nodes, s, i)),
{
    let x = s[i] as int;
    let l = nodes[x].left_first as int;
    let t = split_at(nodes, s, i);
    let n = s.len() as int;
    assert(s[i] < nodes.len());
    assert(nodes[x].count == 0);
    assert(tree::is_child(nodes, x, l) && tree::is_child(nodes, x, l + 1));
    tree::lemma_lighter(nodes, x, l);
    tree::lemma_lighter(nodes, x, l + 1);
    tree::lemma_tree_parts(nodes, x);
    tree::lemma_under_self(nodes, l);
    tree::lemma_under_self(nodes, l + 1);
    tree::lemma_under_split(nodes, x, l);
    tree::lemma_under_split(nodes, x, l + 1);
    assert(t[i] == l && t[n] == l + 1);
    assert forall|c: int| #[trigger] tree::is_child(nodes, x, c) implies tree::under(nodes, b, c)
        && !tree::under(nodes, c, b) by {
        tree::lemma_under_self(nodes, c);
        tree::lemma_under_split(nodes, x, c);
        tree::lemma_under_trans(nodes, b, x, c);
        if tree::under(nodes, c, b) {
            tree::lemma_under_trans(nodes, x, c, b);
        }
    }
    assert forall|k: int| 0 <= k < t.len() implies (#[trigger] t[k]) < nodes.len() && tree::under(
        nodes,
        b,
        t[k] as int,
    ) && tree::is_tree(nodes, t[k] as int) && !tree::under(nodes, t[k] as int, b) by {
        if k != i && k != n {
            assert(t[k] == s[k]);
        }
    }
    assert forall|j: int, k: int| 0 <= j < k < t.len() implies disjoint(
        nodes,
        #[trigger] t[j] as int,
        #[trigger] t[k] as int,
    ) by {
        assert forall|y: int| !(#[trigger] tree::under(nodes, t[j] as int, y)
            && #[trigger] tree::under(nodes, t[k] as int, y)) by {
            if tree::under(nodes, t[j] as int, y) && tree::under(nodes, t[k] as int, y) {
                let a = if j == n {
                    i
                } else {
                    j
                };
                let c = if k == n {
                    i
                } else {
                    k
                };
                if j == i {
                    tree::lemma_under_trans(nodes, x, l, y);
                }
                if k == i {
                    tree::lemma_under_trans(nodes, x, l, y);
                }
                if k == n {
                    tree::lemma_under_trans(nodes, x, l + 1, y);
                }
                assert(tree::under(nodes, s[a] as int, y) && tree::under(nodes, s[c] as int, y));
                if a < c {
                    assert(disjoint(nodes, s[a] as int, s[c] as int));
                } else if c < a {
                    assert(disjoint(nodes, s[c] as int, s[a] as int));
                } else {
                    assert(j == i && k == n);
                }
            }
        }
    }
    assert forall|p: Seq<int>| #[trigger] tree::to_leaf(nodes, b, p) implies bound::passes(p, t) by {
        assert(bound::passes(p, s));
        let (k, j) = choose|k: int, j: int|
            0 <= k < p.len() && 0 <= j < s.len() && #[trigger] p[k] == #[trigger] s[j];
        if j != i {
            assert(p[k] == t[j]);
        } else {
            if k == p.len() - 1 {
                assert(nodes[p.last()].count != 0);
            }
            assert(tree::descends(nodes, p, k));
            if p[k + 1] == l {
                assert(p[k + 1] == t[i]);
            } else {
                assert(p[k + 1] == t[n]);
            }
        }
    }
}

/// Some slot that can be split is the widest.
pub proof fn lemma_widest_exists(nodes: Seq<BvhNode>, areas: Seq<u32>, s: Seq<u32>)
    requires
        any_splits(nodes, areas, s),
    ensures
        is_widest(nodes, areas, s, widest(nodes, areas, s)),
    decreases s.len(),
{
    let i = lemma_widest_upto(nodes, areas, s, s.len() as int);
    assert(is_widest(nodes, areas, s, i));
}

/// The widest among the first `n` slots.
proof fn lemma_widest_upto(nodes: Seq<BvhNode>, areas: Seq<u32>, s: Seq<u32>, n: int) -> (i: int)
    requires
        0 <= n <= s.len(),
        exists|i: int| 0 <= i < n && splittable(nodes, areas, #[trigger] s[i]),
    ensures
        0 <= i < n,
        splittable(nodes, areas, s[i]),
        forall|j: int|
            0 <= j < n && splittable(nodes, areas, #[trigger] s[j]) ==> gives_way(
                areas,
                s[j],
                s[i],
            ),
    decreases n,
{
    let last = n - 1;
    if exists|i: int| 0 <= i < last && splittable(nodes, areas, #[trigger] s[i]) {
        let k = lemma_widest_upto(nodes, areas, s, last);
        if splittable(nodes, areas, s[last]) && gives_way(areas, s[k], s[last]) {
            last
        } else {
            k
        }
    } else {
        let w = choose|i: int| 0 <= i < n && splittable(nodes, areas, #[trigger] s[i]);
        assert(w == last);
        last
    }
}

/// Splitting on keeps what is under `b` parted.
proof fn lemma_frontier_parts(nodes: Seq<BvhNode>, areas: Seq<u32>, b: int, s: Seq<u32>)
    requires
        tree::links_inside(nodes),
        nodes.len() <= u32::MAX,
        0 <= b < nodes.len(),
        parts(nodes, b, s),
        s.len() <= WIDTH,
    ensures
        parts(nodes, b, frontier(nodes, areas, s)),
        s.len() <= frontier(nodes, areas, s).len() <= WIDTH,
    decreases WIDTH - s.len(),
{
    if s.len() < WIDTH && any_splits(nodes, areas, s) {
        lemma_widest_exists(nodes, areas, s);
        let i = widest(nodes, areas, s);
        lemma_split_parts(nodes, b, s, i);
        lemma_frontier_parts(nodes, areas, b, split_at(nodes, s, i));
    }
}

/// What parts a node does so in any order.
proof fn lemma_parts_order(nodes: Seq<BvhNode>, b: int, s: Seq<u32>, t: Seq<u32>)
    requires
        parts(nodes, b, s),
        tally::ascending(t),
        forall|x: u32| #[trigger] t.contains(x) <==> s.contains(x),
    ensures
        parts(nodes, b, t),
{
    assert forall|i: int| 0 <= i < t.len() implies (#[trigger] t[i]) < nodes.len() && tree::under(
        nodes,
        b,
        t[i] as int,
    ) && tree::is_tree(nodes, t[i] as int) && !tree::under(nodes, t[i] as int, b) by {
        assert(t.contains(t[i]));
        let k = choose|k: int| 0 <= k < s.len() && s[k] == t[i];
        assert(s[k] < nodes.len());
    }
    assert forall|i: int, j: int| 0 <= i < j < t.len() implies disjoint(
        nodes,
        #[trigger] t[i] as int,
        #[trigger] t[j] as int,
    ) by {
        assert(t.contains(t[i]) && t.contains(t[j]));
        let a = choose|a: int| 0 <= a < s.len() && s[a] == t[i];
        let c = choose|c: int| 0 <= c < s.len() && s[c] == t[j];
        assert(t[i] < t[j]);
        if a < c {
            assert(disjoint(nodes, s[a] as int, s[c] as int));
        } else {
            assert(disjoint(nodes, s[c] as int, s[a] as int));
        }
    }
    assert forall|p: Seq<int>| #[trigger] tree::to_leaf(nodes, b, p) implies bound::passes(p, t) by {
        assert(bound::passes(p, s));
        let (k, j) = choose|k: int, j: int|
            0 <= k < p.len() && 0 <= j < s.len() && #[trigger] p[k] == #[trigger] s[j];
        assert(s.contains(s[j]));
        assert(t.contains(s[j]));
        let m = choose|m: int| 0 <= m < t.len() && t[m] == s[j];
        assert(p[k] == t[m]);
    }
}

/// What a wide node over an internal node holds parts what is under it.
pub proof fn lemma_holds_parts(nodes: Seq<BvhNode>, areas: Seq<u32>, b: int, s: Seq<u32>)
    requires
        tree::links_inside(nodes),
        nodes.len() <= u32::MAX,
        0 <= b < nodes.len(),
        tree::is_tree(nodes, b),
        nodes[b].count == 0,
        holds(nodes, areas, b, s),
    ensures
        parts(nodes, b, s),
        2 <= s.len() <= WIDTH,
{
    let two = seq![nodes[b].left_first, (nodes[b].left_first + 1) as u32];
    lemma_children_part(nodes, b);
    lemma_frontier_parts(nodes, areas, b, two);
    lemma_parts_order(nodes, b, frontier(nodes, areas, two), s);
}

/// Everything under the nodes.
spec fn families(nodes: Seq<BvhNode>, s: Seq<u32>) -> Set<int> {
    Set::new(|i: int| bound::reached(nodes, s, i))
}

/// Parts that share nothing weigh what is under them.
proof fn lemma_families(nodes: Seq<BvhNode>, s: Seq<u32>)
    requires
        tree::links_inside(nodes),
        forall|i: int| 0 <= i < s.len() ==> (#[trigger] s[i]) < nodes.len(),
        forall|i: int, j: int|
            0 <= i < j < s.len() ==> disjoint(nodes, #[trigger] s[i] as int, #[trigger] s[j] as int),
    ensures
        families(nodes, s).finite(),
        families(nodes, s).len() == bound::load(nodes, s),
    decreases s.len(),
{
    if s.len() == 0 {
        assert(families(nodes, s) =~= Set::empty());
    } else {
        let rest = s.drop_last();
        let x = s.last() as int;
        assert(s[s.len() - 1] < nodes.len());
        assert forall|i: int| 0 <= i < rest.len() implies (#[trigger] rest[i]) < nodes.len() by {
            assert(s[i] < nodes.len());
        }
        assert forall|i: int, j: int| 0 <= i < j < rest.len() implies disjoint(
            nodes,
            #[trigger] rest[i] as int,
            #[trigger] rest[j] as int,
        ) by {
            assert(disjoint(nodes, s[i] as int, s[j] as int));
        }
        lemma_families(nodes, rest);
        tree::lemma_family_finite(nodes, x);
        let (a, b) = (families(nodes, rest), tree::family(nodes, x));
        assert(families(nodes, s) =~= a.union(b)) by {
            assert forall|i: int| families(nodes, s).contains(i) <==> a.union(b).contains(i) by {
                if bound::reached(nodes, s, i) {
                    let j = choose|j: int|
                        0 <= j < s.len() && tree::under(nodes, #[trigger] s[j] as int, i);
                    if j < rest.len() {
                        assert(rest[j] == s[j]);
                    }
                }
                if bound::reached(nodes, rest, i) {
                    let j = choose|j: int|
                        0 <= j < rest.len() && tree::under(nodes, #[trigger] rest[j] as int, i);
                    assert(s[j] == rest[j]);
                }
                if tree::under(nodes, x, i) {
                    assert(s[s.len() - 1] == x);
                }
            }
        }
        assert(a.disjoint(b)) by {
            assert forall|i: int| a.contains(i) implies !b.contains(i) by {
                let j = choose|j: int|
                    0 <= j < rest.len() && tree::under(nodes, #[trigger] rest[j] as int, i);
                assert(disjoint(nodes, s[j] as int, s[s.len() - 1] as int));
            }
        }
        vstd::set_lib::lemma_set_disjoint_lens(a, b);
    }
}

/// The parts of a node weigh less than the node.
pub proof fn lemma_parts_load(nodes: Seq<BvhNode>, b: int, s: Seq<u32>)
    requires
        tree::links_inside(nodes),
        0 <= b < nodes.len(),
        parts(nodes, b, s),
    ensures
        bound::load(nodes, s) + 1 <= tree::weight(nodes, b),
{
    lemma_families(nodes, s);
    tree::lemma_family_finite(nodes, b);
    tree::lemma_under_self(nodes, b);
    let rest = tree::family(nodes, b).remove(b);
    assert(families(nodes, s).subset_of(rest)) by {
        assert forall|i: int| families(nodes, s).contains(i) implies rest.contains(i) by {
            let j = choose|j: int| 0 <= j < s.len() && tree::under(nodes, #[trigger] s[j] as int, i);
            tree::lemma_under_trans(nodes, b, s[j] as int, i);
        }
    }
    vstd::set_lib::lemma_len_subset(families(nodes, s), rest);
    assert(tree::family(nodes, b).contains(b));
}

/// Only one slot is the widest.
proof fn lemma_widest_unique(
    nodes: Seq<BvhNode>,
    areas: Seq<u32>,
    b: int,
    s: Seq<u32>,
    i: int,
    j: int,
)
    requires
        parts(nodes, b, s),
        is_widest(nodes, areas, s, i),
        is_widest(nodes, areas, s, j),
    ensures
        i == j,
{
    assert(s[i] == s[j]);
    tree::lemma_under_self(nodes, s[i] as int);
    if i < j {
        assert(disjoint(nodes, s[i] as int, s[j] as int));
    } else if j < i {
        assert(disjoint(nodes, s[j] as int, s[i] as int));
    }
}

/// Parts are distinct.
proof fn lemma_parts_distinct(nodes: Seq<BvhNode>, b: int, s: Seq<u32>)
    requires
        parts(nodes, b, s),
    ensures
        s.no_duplicates(),
{
    assert forall|i: int, j: int| 0 <= i < s.len() && 0 <= j < s.len() && i != j implies s[i]
        != s[j] by {
        tree::lemma_under_self(nodes, s[i] as int);
        if i < j {
            assert(disjoint(nodes, s[i] as int, s[j] as int));
        } else {
            assert(disjoint(nodes, s[j] as int, s[i] as int));
        }
    }
}

/// The widest slot that can be split, if there is one.
fn find_widest(bvh: &Bvh, areas: &Vec<u32>, slots: &Vec<u32>) -> (pick: Option<usize>)
    requires
        areas@.len() == bvh.nodes@.len(),
        forall|i: int| 0 <= i < slots@.len() ==> (#[trigger] slots@[i]) < bvh.nodes@.len(),
    ensures
        pick is None <==> !any_splits(bvh.nodes@, areas@, slots@),
        pick matches Some(i) ==> is_widest(bvh.nodes@, areas@, slots@, i as int),
{
    let ghost nodes = bvh.nodes@;
    let n: usize = slots.len();
    let mut pick: Option<usize> = None;
    let mut i: usize = 0;
    while i < n
        invariant
            i <= n,
            n == slots@.len(),
            nodes == bvh.nodes@,
            areas@.len() == nodes.len(),
            forall|i: int| 0 <= i < slots@.len() ==> (#[trigger] slots@[i]) < nodes.len(),
            pick is None <==> forall|j: int|
                0 <= j < i ==> !splittable(nodes, areas@, #[trigger] slots@[j]),
            pick matches Some(k) ==> k < i && splittable(nodes, areas@, slots@[k as int])
                && forall|j: int|
                0 <= j < i && splittable(nodes, areas@, #[trigger] slots@[j]) ==> gives_way(
                    areas@,
                    slots@[j],
                    slots@[k as int],
                ),
        decreases n - i,
    {
        let s: u32 = slots[i];
        assert(slots@[i as int] == s);
        let a: u32 = areas[s as usize];
        if bvh.nodes[s as usize].count == 0 && bits::is_lt(MINUS_ONE, a) {
            let better: bool = match pick {
                None => true,
                Some(k) => {
                    let t: u32 = slots[k];
                    let at: u32 = areas[t as usize];
                    bits::is_lt(at, a) || (bits::is_le(at, a) && s < t)
                },
            };
            if better {
                pick = Some(i);
            }
        }
        i = i + 1;
    }
    pick
}

/// The binary nodes that the wide node over `b` holds.
fn gather(bvh: &Bvh, areas: &Vec<u32>, b: u32) -> (s: Vec<u32>)
    requires
        tree::links_inside(bvh.nodes@),
        bvh.nodes@.len() <= u32::MAX,
        areas@.len() == bvh.nodes@.len(),
        b < bvh.nodes@.len(),
        tree::is_tree(bvh.nodes@, b as int),
    ensures
        holds(bvh.nodes@, areas@, b as int, s@),
        1 <= s@.len() <= WIDTH,
{
    let ghost nodes = bvh.nodes@;
    let nd = bvh.nodes[b as usize];
    let mut slots: Vec<u32> = Vec::new();
    if nd.count != 0 {
        slots.push(b);
        assert(slots@ =~= seq![b]);
        return slots;
    }
    let ghost two = seq![nd.left_first, (nd.left_first + 1) as u32];
    assert(nodes[b as int].count == 0);
    slots.push(nd.left_first);
    slots.push(nd.left_first + 1);
    proof {
        assert(slots@ =~= two);
        lemma_children_part(nodes, b as int);
    }
    let mut done: bool = false;
    while !done
        invariant
            nodes == bvh.nodes@,
            tree::links_inside(nodes),
            nodes.len() <= u32::MAX,
            areas@.len() == nodes.len(),
            b < nodes.len(),
            parts(nodes, b as int, slots@),
            2 <= slots@.len() <= WIDTH,
            frontier(nodes, areas@, slots@) == frontier(nodes, areas@, two),
            done ==> slots@ == frontier(nodes, areas@, slots@),
        decreases WIDTH - slots@.len(), (if done { 0int } else { 1int }),
    {
        assert forall|i: int| 0 <= i < slots@.len() implies (#[trigger] slots@[i]) < nodes.len() by {}
        match find_widest(bvh, areas, &slots) {
            None => {
                done = true;
            },
            Some(i) => {
                if slots.len() + 1 > WIDTH {
                    done = true;
                } else {
                    let ghost was = slots@;
                    proof {
                        assert(any_splits(nodes, areas@, was)) by {
                            assert(splittable(nodes, areas@, was[i as int]));
                        }
                        lemma_widest_exists(nodes, areas@, was);
                        lemma_widest_unique(
                            nodes,
                            areas@,
                            b as int,
                            was,
                            i as int,
                            widest(nodes, areas@, was),
                        );
                        lemma_split_parts(nodes, b as int, was, i as int);
                    }
                    let x: u32 = slots[i];
                    assert(was[i as int] == x && nodes[x as int].count == 0);
                    let l: u32 = bvh.nodes[x as usize].left_first;
                    slots.set(i, l);
                    slots.push(l + 1);
                    assert(slots@ =~= split_at(nodes, was, i as int));
                }
            },
        }
    }
    let ghost f = slots@;
    let mut sorted: Vec<u32> = Vec::new();
    let n: usize = slots.len();
    let mut i: usize = 0;
    while i < n
        invariant
            i <= n,
            n == slots@.len(),
            tally::ascending(sorted@),
            forall|x: u32| #[trigger] sorted@.contains(x) <==> slots@.take(i as int).contains(x),
        decreases n - i,
    {
        let x: u32 = slots[i];
        tally::insert_sorted(&mut sorted, x);
        proof {
            let (a, c) = (slots@.take(i as int), slots@.take(i as int + 1));
            assert(c =~= a.push(x));
            assert forall|y: u32| #[trigger] sorted@.contains(y) <==> c.contains(y) by {
                if a.contains(y) {
                    let k = choose|k: int| 0 <= k < a.len() && a[k] == y;
                    assert(c[k] == y);
                }
                if c.contains(y) {
                    let k = choose|k: int| 0 <= k < c.len() && c[k] == y;
                    if k < a.len() {
                        assert(a[k] == y);
                    }
                }
                if y == x {
                    assert(c[i as int] == y);
                }
            }
        }
        i = i + 1;
    }
    proof {
        assert(slots@.take(n as int) =~= slots@);
        lemma_parts_distinct(nodes, b as int, f);
        assert(sorted@.no_duplicates());
        f.unique_seq_to_set();
        sorted@.unique_seq_to_set();
        assert(f.to_set() =~= sorted@.to_set()) by {
            assert forall|x: u32| f.to_set().contains(x) <==> sorted@.to_set().contains(x) by {
                assert(sorted@.contains(x) <==> f.contains(x));
            }
        }
    }
    sorted
}

/// The binary nodes of a wide node.
pub open spec fn ids(f: FNode) -> Seq<u32> {
    Seq::new(f.slots@.len(), |i: int| f.slots@[i].bnode)
}

/// Where the subtree of slot `i` starts, in a node `w` with these slots: the
/// subtrees follow their node, one after the other.
pub open spec fn start_of(slots: Seq<Slot>, ends: Seq<int>, w: int, i: int) -> int
    decreases i,
{
    if i <= 0 {
        w + 1
    } else if slots[i - 1].child != INVALID {
        ends[slots[i - 1].child as int]
    } else {
        start_of(slots, ends, w, i - 1)
    }
}

/// A slot has its binary node's box, and a subtree of its own exactly where
/// that node is internal.
pub open spec fn slot_ok(
    nodes: Seq<BvhNode>,
    slots: Seq<Slot>,
    covers: Seq<int>,
    ends: Seq<int>,
    w: int,
    end: int,
    i: int,
) -> bool {
    let s = slots[i];
    &&& s.bnode < nodes.len()
    &&& s.aabb == nodes[s.bnode as int].aabb
    &&& if splits(nodes, s.bnode) {
        &&& s.child != INVALID
        &&& s.child == start_of(slots, ends, w, i)
        &&& w < s.child < end
        &&& ends[s.child as int] <= end
        &&& covers[s.child as int] == s.bnode
    } else {
        s.child == INVALID
    }
}

/// Wide node `w` is what collapsing the binary node that it covers gives.
pub open spec fn node_ok(
    nodes: Seq<BvhNode>,
    areas: Seq<u32>,
    wide: Seq<FNode>,
    covers: Seq<int>,
    ends: Seq<int>,
    w: int,
) -> bool {
    let slots = wide[w].slots@;
    &&& 0 <= covers[w] < nodes.len()
    &&& tree::is_tree(nodes, covers[w])
    &&& holds(nodes, areas, covers[w], ids(wide[w]))
    &&& 1 <= slots.len() <= WIDTH
    &&& w < ends[w] <= wide.len()
    &&& ends[w] == start_of(slots, ends, w, slots.len() as int)
    &&& forall|i: int|
        0 <= i < slots.len() ==> #[trigger] slot_ok(nodes, slots, covers, ends, w, ends[w], i)
}

/// The lists agree from `lo` up to `hi`.
spec fn same_block(
    a: Seq<FNode>,
    ac: Seq<int>,
    ae: Seq<int>,
    b: Seq<FNode>,
    bc: Seq<int>,
    be: Seq<int>,
    lo: int,
    hi: int,
) -> bool {
    &&& hi <= a.len()
    &&& hi <= b.len()
    &&& forall|w: int|
        lo <= w < hi ==> #[trigger] a[w] == b[w] && ac[w] == bc[w] && ae[w] == be[w]
}

/// Where the subtrees start depends on the node's own descendants only.
proof fn lemma_start_same(
    slots: Seq<Slot>,
    ae: Seq<int>,
    be: Seq<int>,
    w: int,
    end: int,
    i: int,
)
    requires
        0 <= i <= slots.len(),
        forall|j: int|
            0 <= j < i && (#[trigger] slots[j]).child != INVALID ==> w < slots[j].child < end,
        forall|k: int| w < k < end ==> #[trigger] ae[k] == be[k],
    ensures
        start_of(slots, ae, w, i) == start_of(slots, be, w, i),
    decreases i,
{
    if i > 0 {
        assert(slots[i - 1].child != INVALID ==> w < slots[i - 1].child < end);
        lemma_start_same(slots, ae, be, w, end, i - 1);
    }
}

/// A node stays in order as long as its own descendants do.
proof fn lemma_node_same(
    nodes: Seq<BvhNode>,
    areas: Seq<u32>,
    a: Seq<FNode>,
    ac: Seq<int>,
    ae: Seq<int>,
    b: Seq<FNode>,
    bc: Seq<int>,
    be: Seq<int>,
    w: int,
)
    requires
        0 <= w,
        node_ok(nodes, areas, a, ac, ae, w),
        same_block(a, ac, ae, b, bc, be, w, ae[w]),
    ensures
        node_ok(nodes, areas, b, bc, be, w),
{
    let slots = a[w].slots@;
    let end = ae[w];
    assert(a[w] == b[w]);
    assert forall|j: int| 0 <= j < slots.len() && (#[trigger] slots[j]).child != INVALID implies w
        < slots[j].child < end by {
        assert(slot_ok(nodes, slots, ac, ae, w, end, j));
    }
    assert forall|k: int| w < k < end implies #[trigger] ae[k] == be[k] by {
        assert(a[k] == b[k]);
    }
    lemma_start_same(slots, ae, be, w, end, slots.len() as int);
    assert forall|i: int| 0 <= i < slots.len() implies #[trigger] slot_ok(
        nodes,
        slots,
        bc,
        be,
        w,
        be[w],
        i,
    ) by {
        assert(slot_ok(nodes, slots, ac, ae, w, end, i));
        lemma_start_same(slots, ae, be, w, end, i);
        if splits(nodes, slots[i].bnode) {
            let c = slots[i].child as int;
            assert(a[c] == b[c]);
        }
    }
}

proof fn lemma_load_take(nodes: Seq<BvhNode>, s: Seq<u32>, i: int)
    requires
        0 <= i <= s.len(),
    ensures
        bound::load(nodes, s.take(i)) <= bound::load(nodes, s),
        i < s.len() ==> bound::load(nodes, s.take(i + 1)) == bound::load(nodes, s.take(i))
            + tree::weight(nodes, s[i] as int),
    decreases s.len() - i,
{
    if i < s.len() {
        assert(s.take(i + 1).drop_last() =~= s.take(i));
        lemma_load_take(nodes, s, i + 1);
    } else {
        assert(s.take(i) =~= s);
    }
}

/// Appends the wide nodes over binary node `b`, the one over `b` first.
#[verifier::rlimit(60)]
fn collapse(ft: &mut FTree, bvh: &Bvh, areas: &Vec<u32>, b: u32) -> (id: u32)
    requires
        tree::links_inside(bvh.nodes@),
        bvh.nodes@.len() <= u32::MAX,
        areas@.len() == bvh.nodes@.len(),
        b < bvh.nodes@.len(),
        tree::is_tree(bvh.nodes@, b as int),
        old(ft).nodes@.len() + tree::weight(bvh.nodes@, b as int) <= u32::MAX,
        old(ft).covers@.len() == old(ft).nodes@.len(),
        old(ft).ends@.len() == old(ft).nodes@.len(),
    ensures
        id == old(ft).nodes@.len(),
        id < final(ft).nodes@.len() <= id + tree::weight(bvh.nodes@, b as int),
        final(ft).covers@.len() == final(ft).nodes@.len(),
        final(ft).ends@.len() == final(ft).nodes@.len(),
        final(ft).root_cut == old(ft).root_cut,
        final(ft).over == old(ft).over,
        final(ft).areas == old(ft).areas,
        same_block(
            old(ft).nodes@,
            old(ft).covers@,
            old(ft).ends@,
            final(ft).nodes@,
            final(ft).covers@,
            final(ft).ends@,
            0,
            id as int,
        ),
        final(ft).covers@[id as int] == b,
        final(ft).ends@[id as int] == final(ft).nodes@.len(),
        forall|w: int|
            id <= w < final(ft).nodes@.len() ==> #[trigger] node_ok(
                bvh.nodes@,
                areas@,
                final(ft).nodes@,
                final(ft).covers@,
                final(ft).ends@,
                w,
            ),
    decreases tree::weight(bvh.nodes@, b as int),
{
    let ghost nodes = bvh.nodes@;
    let ghost start = *ft;
    proof {
        tree::lemma_family_finite(nodes, b as int);
    }
    let held = gather(bvh, areas, b);
    let ghost s = held@;
    let ghost internal = nodes[b as int].count == 0;
    proof {
        if internal {
            lemma_holds_parts(nodes, areas@, b as int, s);
            lemma_parts_load(nodes, b as int, s);
        }
    }
    let n: usize = held.len();
    let id: u32 = ft.nodes.len() as u32;
    ft.nodes.push(FNode { slots: Vec::new() });
    proof {
        ft.covers@ = ft.covers@.push(b as int);
        ft.ends@ = ft.ends@.push(0);
    }
    let mut slots: Vec<Slot> = Vec::new();
    let mut i: usize = 0;
    let ghost w0 = id as int;
    while i < n
        invariant
            i <= n,
            n == held@.len(),
            s == held@,
            1 <= n <= WIDTH,
            nodes == bvh.nodes@,
            tree::links_inside(nodes),
            nodes.len() <= u32::MAX,
            areas@.len() == nodes.len(),
            b < nodes.len(),
            internal == (nodes[b as int].count == 0),
            holds(nodes, areas@, b as int, s),
            internal ==> parts(nodes, b as int, s) && bound::load(nodes, s) + 1 <= tree::weight(
                nodes,
                b as int,
            ),
            w0 == id,
            id == start.nodes@.len(),
            start.nodes@.len() + tree::weight(nodes, b as int) <= u32::MAX,
            start.covers@.len() == start.nodes@.len(),
            start.ends@.len() == start.nodes@.len(),
            ft.root_cut == start.root_cut,
            ft.over == start.over,
            ft.areas == start.areas,
            id < ft.nodes@.len(),
            ft.nodes@.len() <= u32::MAX,
            internal ==> ft.nodes@.len() <= id + 1 + bound::load(nodes, s.take(i as int)),
            !internal ==> ft.nodes@.len() == id + 1,
            ft.covers@.len() == ft.nodes@.len(),
            ft.ends@.len() == ft.nodes@.len(),
            same_block(
                start.nodes@,
                start.covers@,
                start.ends@,
                ft.nodes@,
                ft.covers@,
                ft.ends@,
                0,
                w0,
            ),
            ft.covers@[w0] == b,
            forall|w: int|
                w0 < w < ft.nodes@.len() ==> #[trigger] node_ok(
                    nodes,
                    areas@,
                    ft.nodes@,
                    ft.covers@,
                    ft.ends@,
                    w,
                ),
            slots@.len() == i,
            forall|j: int| 0 <= j < i ==> (#[trigger] slots@[j]).bnode == s[j],
            forall|j: int|
                0 <= j < i ==> #[trigger] slot_ok(
                    nodes,
                    slots@,
                    ft.covers@,
                    ft.ends@,
                    w0,
                    ft.nodes@.len() as int,
                    j,
                ),
            ft.nodes@.len() == start_of(slots@, ft.ends@, w0, i as int),
        decreases n - i,
    {
        let bn: u32 = held[i];
        let ghost mid = *ft;
        let ghost had = slots@;
        proof {
            assert(s[i as int] == bn);
            lemma_load_take(nodes, s, i as int);
            lemma_load_take(nodes, s, i as int + 1);
            if !internal {
                assert(s[0] == b);
            } else {
                assert(s[i as int] < nodes.len());
            }
        }
        let nd = bvh.nodes[bn as usize];
        let mut child: u32 = INVALID;
        if nd.count == 0 {
            proof {
                assert(internal);
                lemma_part_lighter(nodes, b as int, s, i as int);
            }
            child = collapse(ft, bvh, areas, bn);
            proof {
                assert forall|w: int| w0 < w < ft.nodes@.len() implies #[trigger] node_ok(
                    nodes,
                    areas@,
                    ft.nodes@,
                    ft.covers@,
                    ft.ends@,
                    w,
                ) by {
                    if w < child {
                        assert(node_ok(nodes, areas@, mid.nodes@, mid.covers@, mid.ends@, w));
                        assert(same_block(
                            mid.nodes@,
                            mid.covers@,
                            mid.ends@,
                            ft.nodes@,
                            ft.covers@,
                            ft.ends@,
                            w,
                            mid.ends@[w],
                        ));
                        lemma_node_same(
                            nodes,
                            areas@,
                            mid.nodes@,
                            mid.covers@,
                            mid.ends@,
                            ft.nodes@,
                            ft.covers@,
                            ft.ends@,
                            w,
                        );
                    }
                }
                assert forall|w: int| 0 <= w < w0 implies #[trigger] start.nodes@[w] == ft.nodes@[w]
                    && start.covers@[w] == ft.covers@[w] && start.ends@[w] == ft.ends@[w] by {
                    assert(mid.nodes@[w] == ft.nodes@[w]);
                    assert(start.nodes@[w] == mid.nodes@[w]);
                }
                assert(mid.nodes@[w0] == ft.nodes@[w0]);
                lemma_slots_same(nodes, had, mid, *ft, w0);
            }
        }
        slots.push(Slot { aabb: nd.aabb, child, bnode: bn });
        proof {
            lemma_slots_push(nodes, had, slots@, ft.covers@, ft.ends@, w0, ft.nodes@.len() as int);
        }
        i = i + 1;
    }
    let ghost body = *ft;
    let ghost list = slots@;
    ft.nodes.set(id as usize, FNode { slots });
    proof {
        ft.ends@ = ft.ends@.update(w0, body.nodes@.len() as int);
        assert(s.take(n as int) =~= s);
        let end = body.nodes@.len() as int;
        assert(ft.nodes@[w0].slots@ == list);
        assert(ids(ft.nodes@[w0]) =~= s);
        assert forall|j: int| 0 <= j < list.len() && (#[trigger] list[j]).child != INVALID implies w0
            < list[j].child < end by {
            assert(slot_ok(nodes, list, body.covers@, body.ends@, w0, end, j));
        }
        lemma_start_same(list, body.ends@, ft.ends@, w0, end, list.len() as int);
        assert forall|j: int| 0 <= j < list.len() implies #[trigger] slot_ok(
            nodes,
            list,
            ft.covers@,
            ft.ends@,
            w0,
            ft.ends@[w0],
            j,
        ) by {
            assert(slot_ok(nodes, list, body.covers@, body.ends@, w0, end, j));
            lemma_start_same(list, body.ends@, ft.ends@, w0, end, j);
        }
        assert(node_ok(nodes, areas@, ft.nodes@, ft.covers@, ft.ends@, w0));
        assert forall|w: int| w0 <= w < ft.nodes@.len() implies #[trigger] node_ok(
            nodes,
            areas@,
            ft.nodes@,
            ft.covers@,
            ft.ends@,
            w,
        ) by {
            if w > w0 {
                assert(node_ok(nodes, areas@, body.nodes@, body.covers@, body.ends@, w));
                lemma_node_same(
                    nodes,
                    areas@,
                    body.nodes@,
                    body.covers@,
                    body.ends@,
                    ft.nodes@,
                    ft.covers@,
                    ft.ends@,
                    w,
                );
            }
        }
        assert forall|w: int| 0 <= w < w0 implies #[trigger] start.nodes@[w] == ft.nodes@[w]
            && start.covers@[w] == ft.covers@[w] && start.ends@[w] == ft.ends@[w] by {
            assert(start.nodes@[w] == body.nodes@[w]);
        }
    }
    id
}

/// A part weighs less than the node.
proof fn lemma_part_lighter(nodes: Seq<BvhNode>, b: int, s: Seq<u32>, i: int)
    requires
        tree::links_inside(nodes),
        0 <= b < nodes.len(),
        parts(nodes, b, s),
        0 <= i < s.len(),
    ensures
        tree::weight(nodes, s[i] as int) < tree::weight(nodes, b),
        tree::is_tree(nodes, s[i] as int),
{
    lemma_parts_load(nodes, b, s);
    lemma_load_take(nodes, s, i);
    lemma_load_take(nodes, s, i + 1);
}

/// Slots stay in order as the tree grows behind them.
proof fn lemma_slots_same(nodes: Seq<BvhNode>, slots: Seq<Slot>, mid: FTree, ft: FTree, w: int)
    requires
        forall|j: int|
            0 <= j < slots.len() ==> #[trigger] slot_ok(
                nodes,
                slots,
                mid.covers@,
                mid.ends@,
                w,
                mid.nodes@.len() as int,
                j,
            ),
        0 <= w,
        mid.nodes@.len() <= ft.nodes@.len(),
        same_block(
            mid.nodes@,
            mid.covers@,
            mid.ends@,
            ft.nodes@,
            ft.covers@,
            ft.ends@,
            0,
            mid.nodes@.len() as int,
        ),
    ensures
        forall|j: int|
            0 <= j < slots.len() ==> #[trigger] slot_ok(
                nodes,
                slots,
                ft.covers@,
                ft.ends@,
                w,
                ft.nodes@.len() as int,
                j,
            ),
        start_of(slots, mid.ends@, w, slots.len() as int) == start_of(
            slots,
            ft.ends@,
            w,
            slots.len() as int,
        ),
{
    let end = mid.nodes@.len() as int;
    assert forall|j: int| 0 <= j < slots.len() && (#[trigger] slots[j]).child != INVALID implies w
        < slots[j].child < end by {
        assert(slot_ok(nodes, slots, mid.covers@, mid.ends@, w, end, j));
    }
    assert forall|k: int| w < k < end implies #[trigger] mid.ends@[k] == ft.ends@[k] by {
        assert(mid.nodes@[k] == ft.nodes@[k]);
    }
    lemma_start_same(slots, mid.ends@, ft.ends@, w, end, slots.len() as int);
    assert forall|j: int| 0 <= j < slots.len() implies #[trigger] slot_ok(
        nodes,
        slots,
        ft.covers@,
        ft.ends@,
        w,
        ft.nodes@.len() as int,
        j,
    ) by {
        assert(slot_ok(nodes, slots, mid.covers@, mid.ends@, w, end, j));
        lemma_start_same(slots, mid.ends@, ft.ends@, w, end, j);
        if splits(nodes, slots[j].bnode) {
            assert(mid.nodes@[slots[j].child as int] == ft.nodes@[slots[j].child as int]);
        }
    }
}

/// One more slot leaves the earlier ones in order.
proof fn lemma_slots_push(
    nodes: Seq<BvhNode>,
    had: Seq<Slot>,
    slots: Seq<Slot>,
    covers: Seq<int>,
    ends: Seq<int>,
    w: int,
    end: int,
)
    requires
        slots.len() == had.len() + 1,
        slots.drop_last() =~= had,
        forall|j: int|
            0 <= j < had.len() ==> #[trigger] slot_ok(nodes, had, covers, ends, w, end, j),
    ensures
        forall|j: int|
            0 <= j < had.len() ==> #[trigger] slot_ok(nodes, slots, covers, ends, w, end, j),
        start_of(slots, ends, w, had.len() as int) == start_of(had, ends, w, had.len() as int),
{
    lemma_start_prefix(had, slots, ends, w, had.len() as int);
    assert forall|j: int| 0 <= j < had.len() implies #[trigger] slot_ok(
        nodes,
        slots,
        covers,
        ends,
        w,
        end,
        j,
    ) by {
        assert(slot_ok(nodes, had, covers, ends, w, end, j));
        assert(slots[j] == had[j]);
        lemma_start_prefix(had, slots, ends, w, j);
    }
}

proof fn lemma_start_prefix(had: Seq<Slot>, slots: Seq<Slot>, ends: Seq<int>, w: int, i: int)
    requires
        i <= had.len(),
        slots.len() == had.len() + 1,
        slots.drop_last() =~= had,
    ensures
        start_of(slots, ends, w, i) == start_of(had, ends, w, i),
    decreases i,
{
    if i > 0 {
        assert(slots[i - 1] == slots.drop_last()[i - 1]);
        lemma_start_prefix(had, slots, ends, w, i - 1);
    }
}

/// Every child comes after its node.
pub open spec fn grows(wide: Seq<FNode>) -> bool {
    forall|w: int, i: int|
        0 <= w < wide.len() && 0 <= i < wide[w].slots@.len() ==> {
            let c = (#[trigger] wide[w].slots@[i]).child;
            c == INVALID || w < c < wide.len()
        }
}

/// Wide levels below the first `i` slots of a node.
pub open spec fn deepest(wide: Seq<FNode>, w: int, i: int) -> nat
    decreases wide.len() - w, i,
    when w <= wide.len()
{
    if i <= 0 {
        0
    } else {
        let c = wide[w].slots@[i - 1].child as int;
        let rest = deepest(wide, w, i - 1);
        if c != INVALID && w < c < wide.len() {
            let d = 1 + deepest(wide, c, wide[c].slots@.len() as int);
            if d > rest {
                d
            } else {
                rest
            }
        } else {
            rest
        }
    }
}

/// Wide levels from a node down, its own included.
pub open spec fn depth(wide: Seq<FNode>, w: int) -> nat {
    1 + deepest(wide, w, wide[w].slots@.len() as int)
}

/// The first slots of a node, as cut entries.
pub open spec fn entries_of(w: int, n: int) -> Seq<u32> {
    Seq::new(n as nat, |i: int| slot_ref(w, i) as u32)
}

/// The tree is what collapsing the whole binary hierarchy gives.
pub open spec fn collapsed(nodes: Seq<BvhNode>, areas: Seq<u32>, ft: FTree) -> bool {
    &&& ft.over@ == nodes
    &&& ft.areas@ == areas
    &&& tree::links_inside(nodes)
    &&& 1 <= nodes.len() <= u32::MAX
    &&& 1 <= ft.nodes@.len() <= u32::MAX
    &&& ft.covers@.len() == ft.nodes@.len()
    &&& ft.ends@.len() == ft.nodes@.len()
    &&& ft.covers@[0] == 0
    &&& ft.ends@[0] == ft.nodes@.len()
    &&& forall|w: int|
        0 <= w < ft.nodes@.len() ==> #[trigger] node_ok(
            nodes,
            areas,
            ft.nodes@,
            ft.covers@,
            ft.ends@,
            w,
        )
    &&& ft.root_cut@ == entries_of(0, ft.nodes@[0].slots@.len() as int)
}

/// The tree of a scene without triangles: a root with no slots.
pub open spec fn is_bare(ft: FTree) -> bool {
    ft.nodes@.len() == 1 && ft.nodes@[0].slots@.len() == 0 && ft.root_cut@.len() == 0
}

/// In a collapsed tree every child comes after its node.
pub proof fn lemma_grows(nodes: Seq<BvhNode>, areas: Seq<u32>, ft: FTree)
    requires
        collapsed(nodes, areas, ft),
    ensures
        grows(ft.nodes@),
{
    let wide = ft.nodes@;
    assert forall|w: int, i: int| 0 <= w < wide.len() && 0 <= i < wide[w].slots@.len() implies {
        let c = (#[trigger] wide[w].slots@[i]).child;
        c == INVALID || w < c < wide.len()
    } by {
        assert(node_ok(nodes, areas, wide, ft.covers@, ft.ends@, w));
        assert(slot_ok(nodes, wide[w].slots@, ft.covers@, ft.ends@, w, ft.ends@[w], i));
    }
}

/// The wide tree of this hierarchy is so deep.
pub open spec fn collapses_to(nodes: Seq<BvhNode>, areas: Seq<u32>, d: nat) -> bool {
    exists|ft: FTree| #[trigger] collapsed(nodes, areas, ft) && ft.levels() == d
}

impl FTree {
    /// The tree is what collapsing its binary hierarchy gives.
    pub open spec fn wf(self) -> bool {
        is_bare(self) || collapsed(self.over@, self.areas@, self)
    }

    /// How deep the tree is.
    pub open spec fn levels(self) -> nat {
        if self.root_cut@.len() == 0 {
            0
        } else {
            depth(self.nodes@, 0)
        }
    }

    /// Collapses the binary hierarchy. Each wide node holds up to eight binary
    /// nodes, found by splitting the one with the largest area first; `areas`
    /// has each node's as a bit pattern.
    /// Fails with the depth of the tree where that is more than the iterative
    /// consumers have stack for.
    pub fn build(bvh: &Bvh, areas: &Vec<u32>) -> (r: Result<FTree, usize>)
        requires
            bvh.tri_idx@.len() > 0 ==> {
                &&& tree::links_inside(bvh.nodes@)
                &&& 1 <= bvh.nodes@.len() <= u32::MAX
                &&& areas@.len() == bvh.nodes@.len()
                &&& tree::is_tree(bvh.nodes@, 0)
            },
        ensures
            bvh.tri_idx@.len() == 0 ==> r is Ok,
            match r {
                Ok(ft) => {
                    &&& ft.levels() <= FT_STACK
                    &&& ft.wf()
                    &&& ft.over@ == bvh.nodes@
                    &&& if bvh.tri_idx@.len() == 0 {
                        is_bare(ft)
                    } else {
                        collapsed(bvh.nodes@, areas@, ft)
                    }
                },
                Err(d) => {
                    &&& d > FT_STACK
                    &&& collapses_to(bvh.nodes@, areas@, d as nat)
                },
            },
    {
        let mut ft = FTree {
            nodes: Vec::new(),
            root_cut: Vec::new(),
            over: Ghost(bvh.nodes@),
            areas: Ghost(areas@),
            covers: Ghost(Seq::empty()),
            ends: Ghost(Seq::empty()),
        };
        if bvh.tri_idx.len() == 0 {
            ft.nodes.push(FNode { slots: Vec::new() });
            return Ok(ft);
        }
        let ghost nodes = bvh.nodes@;
        proof {
            tree::lemma_family_finite(nodes, 0);
        }
        let root: u32 = collapse(&mut ft, bvh, areas, 0);
        proof {
            assert(node_ok(nodes, areas@, ft.nodes@, ft.covers@, ft.ends@, 0));
        }
        let n: usize = ft.nodes[root as usize].slots.len();
        let ghost body = ft;
        let mut i: usize = 0;
        while i < n
            invariant
                i <= n,
                n <= WIDTH,
                root == 0,
                ft.nodes == body.nodes,
                ft.over == body.over,
                ft.areas == body.areas,
                ft.covers == body.covers,
                ft.ends == body.ends,
                ft.root_cut@ == entries_of(0, i as int),
            decreases n - i,
        {
            ft.root_cut.push(entry(root, i));
            i = i + 1;
            assert(ft.root_cut@ =~= entries_of(0, i as int));
        }
        assert(collapsed(nodes, areas@, ft));
        let d: usize = ft.max_depth();
        if d <= FT_STACK {
            Ok(ft)
        } else {
            Err(d)
        }
    }

    /// How deep the tree is; its root is level one.
    pub fn max_depth(&self) -> (d: usize)
        requires
            self.wf(),
        ensures
            d == self.levels(),
    {
        if self.root_cut.len() == 0 {
            return 0;
        }
        proof {
            lemma_grows(self.over@, self.areas@, *self);
        }
        let ghost wide = self.nodes@;
        let n: usize = self.nodes.len();
        // Depths of the nodes from the last one up, so that a child's is known.
        let mut depths: Vec<usize> = Vec::new();
        let mut done: usize = 0;
        while done < n
            invariant
                done <= n,
                n == wide.len(),
                wide == self.nodes@,
                grows(wide),
                depths@.len() == done,
                forall|k: int|
                    0 <= k < done ==> (#[trigger] depths@[k]) == depth(wide, n - 1 - k) && depths@[k]
                        <= k + 1,
            decreases n - done,
        {
            let w: usize = n - 1 - done;
            let m: usize = self.nodes[w].slots.len();
            let mut below: usize = 0;
            let mut i: usize = 0;
            while i < m
                invariant
                    i <= m,
                    done < n,
                    w == n - 1 - done,
                    n == wide.len(),
                    wide == self.nodes@,
                    m == wide[w as int].slots@.len(),
                    grows(wide),
                    depths@.len() == done,
                    forall|k: int|
                        0 <= k < done ==> (#[trigger] depths@[k]) == depth(wide, n - 1 - k)
                            && depths@[k] <= k + 1,
                    below == deepest(wide, w as int, i as int),
                    below <= done,
                decreases m - i,
            {
                let c: u32 = self.nodes[w].slots[i].child;
                assert(wide[w as int].slots@[i as int].child == c);
                if c != INVALID && (c as usize) < n {
                    let k: usize = n - 1 - c as usize;
                    assert(depths@[k as int] == depth(wide, c as int));
                    let d: usize = depths[k];
                    if d > below {
                        below = d;
                    }
                }
                i = i + 1;
                assert(below == deepest(wide, w as int, i as int));
            }
            depths.push(below + 1);
            done = done + 1;
        }
        assert(depths@[n - 1] == depth(wide, 0));
        depths[n - 1]
    }

    /// The whole-tree cut: the root's slots.
    pub fn root_cut(&self) -> (cut: &[u32])
        ensures
            cut@ == self.root_cut@,
    {
        self.root_cut.as_slice()
    }

    /// Size of the nodes in memory.
    pub fn bytes(&self) -> (n: usize)
        requires
            self.nodes@.len() * FNODE_BYTES <= usize::MAX,
        ensures
            n == self.nodes@.len() * FNODE_BYTES,
    {
        self.nodes.len() * FNODE_BYTES
    }

    /// Size of the nodes in their quantized form.
    pub fn quantized_bytes(&self) -> (n: usize)
        requires
            self.nodes@.len() * QFNODE_BYTES <= usize::MAX,
        ensures
            n == self.nodes@.len() * QFNODE_BYTES,
    {
        self.nodes.len() * QFNODE_BYTES
    }
}

/// Ascending lists of the same numbers are the same.
proof fn lemma_ascending_unique(s: Seq<u32>, t: Seq<u32>)
    requires
        s.len() == t.len(),
        tally::ascending(s),
        tally::ascending(t),
        forall|x: u32| #[trigger] s.contains(x) <==> t.contains(x),
    ensures
        s == t,
{
    lemma_ascending_upto(s, t, s.len() as int);
    assert(s =~= t);
}

proof fn lemma_ascending_upto(s: Seq<u32>, t: Seq<u32>, n: int)
    requires
        s.len() == t.len(),
        0 <= n <= s.len(),
        tally::ascending(s),
        tally::ascending(t),
        forall|x: u32| #[trigger] s.contains(x) <==> t.contains(x),
    ensures
        forall|i: int| 0 <= i < n ==> s[i] == t[i],
    decreases n,
{
    if n > 0 {
        lemma_ascending_upto(s, t, n - 1);
        let i = n - 1;
        assert(s.contains(s[i]));
        assert(t.contains(t[i]));
        assert(t.contains(s[i]));
        assert(s.contains(t[i]));
        let k = choose|k: int| 0 <= k < t.len() && t[k] == s[i];
        let j = choose|j: int| 0 <= j < s.len() && s[j] == t[i];
        if k < i {
            assert(s[k] == t[k]);
        }
        if j < i {
            assert(s[j] == t[j]);
        }
    }
}

/// What a wide node holds is settled by the binary node that it covers.
proof fn lemma_holds_unique(
    nodes: Seq<BvhNode>,
    areas: Seq<u32>,
    b: int,
    s: Seq<u32>,
    t: Seq<u32>,
)
    requires
        holds(nodes, areas, b, s),
        holds(nodes, areas, b, t),
    ensures
        s == t,
{
    if nodes[b].count == 0 {
        let f = frontier(
            nodes,
            areas,
            seq![nodes[b].left_first, (nodes[b].left_first + 1) as u32],
        );
        assert forall|x: u32| #[trigger] s.contains(x) <==> t.contains(x) by {
            assert(s.contains(x) <==> f.contains(x));
            assert(t.contains(x) <==> f.contains(x));
        }
        lemma_ascending_unique(s, t);
    }
}

/// The trees hold the same from `lo` up to `hi`.
pub open spec fn same_nodes(a: FTree, b: FTree, lo: int, hi: int) -> bool {
    forall|w: int|
        lo <= w < hi ==> (#[trigger] a.nodes@[w]).slots@ == b.nodes@[w].slots@ && a.covers@[w]
            == b.covers@[w] && a.ends@[w] == b.ends@[w]
}

proof fn lemma_same_subtree(nodes: Seq<BvhNode>, areas: Seq<u32>, a: FTree, b: FTree, w: int)
    requires
        collapsed(nodes, areas, a),
        collapsed(nodes, areas, b),
        0 <= w < a.nodes@.len(),
        w < b.nodes@.len(),
        a.covers@[w] == b.covers@[w],
    ensures
        a.ends@[w] == b.ends@[w],
        same_nodes(a, b, w, a.ends@[w]),
    decreases a.ends@[w] - w, 1nat, 0nat,
{
    let (s, t) = (a.nodes@[w].slots@, b.nodes@[w].slots@);
    assert(node_ok(nodes, areas, a.nodes@, a.covers@, a.ends@, w));
    assert(node_ok(nodes, areas, b.nodes@, b.covers@, b.ends@, w));
    lemma_holds_unique(nodes, areas, a.covers@[w], ids(a.nodes@[w]), ids(b.nodes@[w]));
    assert(ids(a.nodes@[w]).len() == s.len() && ids(b.nodes@[w]).len() == t.len());
    assert forall|i: int| 0 <= i < s.len() implies (#[trigger] s[i]).bnode == t[i].bnode by {
        assert(ids(a.nodes@[w])[i] == s[i].bnode);
        assert(ids(b.nodes@[w])[i] == t[i].bnode);
    }
    lemma_same_slots(nodes, areas, a, b, w, s.len() as int);
    assert(s =~= t);
}

proof fn lemma_same_slots(
    nodes: Seq<BvhNode>,
    areas: Seq<u32>,
    a: FTree,
    b: FTree,
    w: int,
    i: int,
)
    requires
        collapsed(nodes, areas, a),
        collapsed(nodes, areas, b),
        0 <= w < a.nodes@.len(),
        w < b.nodes@.len(),
        a.covers@[w] == b.covers@[w],
        a.nodes@[w].slots@.len() == b.nodes@[w].slots@.len(),
        forall|j: int|
            0 <= j < a.nodes@[w].slots@.len() ==> (#[trigger] a.nodes@[w].slots@[j]).bnode
                == b.nodes@[w].slots@[j].bnode,
        0 <= i <= a.nodes@[w].slots@.len(),
    ensures
        w + 1 <= start_of(a.nodes@[w].slots@, a.ends@, w, i) <= a.ends@[w],
        start_of(a.nodes@[w].slots@, a.ends@, w, i) == start_of(b.nodes@[w].slots@, b.ends@, w, i),
        same_nodes(a, b, w + 1, start_of(a.nodes@[w].slots@, a.ends@, w, i)),
        forall|j: int|
            0 <= j < i ==> #[trigger] a.nodes@[w].slots@[j] == b.nodes@[w].slots@[j],
    decreases a.ends@[w] - w, 0nat, i,
{
    let (s, t) = (a.nodes@[w].slots@, b.nodes@[w].slots@);
    assert(node_ok(nodes, areas, a.nodes@, a.covers@, a.ends@, w));
    assert(node_ok(nodes, areas, b.nodes@, b.covers@, b.ends@, w));
    if i > 0 {
        lemma_same_slots(nodes, areas, a, b, w, i - 1);
        assert(slot_ok(nodes, s, a.covers@, a.ends@, w, a.ends@[w], i - 1));
        assert(slot_ok(nodes, t, b.covers@, b.ends@, w, b.ends@[w], i - 1));
        assert(s[i - 1].bnode == t[i - 1].bnode);
        if splits(nodes, s[i - 1].bnode) {
            let c = s[i - 1].child as int;
            assert(node_ok(nodes, areas, a.nodes@, a.covers@, a.ends@, c));
            lemma_same_subtree(nodes, areas, a, b, c);
        }
    }
}

/// Collapsing is a function of the binary hierarchy and its areas: two
/// collapsed trees are node for node the same.
pub proof fn collapse_is_deterministic(nodes: Seq<BvhNode>, areas: Seq<u32>, a: FTree, b: FTree)
    requires
        collapsed(nodes, areas, a),
        collapsed(nodes, areas, b),
    ensures
        a.nodes@.len() == b.nodes@.len(),
        same_nodes(a, b, 0, a.nodes@.len() as int),
        a.root_cut@ == b.root_cut@,
{
    lemma_same_subtree(nodes, areas, a, b, 0);
    assert(a.nodes@[0].slots@ == b.nodes@[0].slots@);
}

/// The parent of a node is on every way down to it.
proof fn lemma_parent_between(nodes: Seq<BvhNode>, b: int, x: int, e: int, c: int)
    requires
        tree::is_tree(nodes, b),
        tree::under(nodes, b, x),
        tree::under(nodes, b, e),
        tree::is_child(nodes, e, c),
        tree::under(nodes, x, c),
        x != c,
    ensures
        tree::under(nodes, x, e),
{
    let h = choose|h: Seq<int>| #[trigger] tree::leads_to(nodes, b, h, x);
    let g = choose|g: Seq<int>| #[trigger] tree::leads_to(nodes, b, g, e);
    let p = choose|p: Seq<int>| #[trigger] tree::leads_to(nodes, x, p, c);
    let k = p.len() - 2;
    assert(p.len() > 1);
    assert(tree::descends(nodes, p, k));
    tree::lemma_head(nodes, x, p, k);
    assert(tree::leads_to(nodes, x, p.take(k + 1), p[k]));
    tree::lemma_join(nodes, b, h, p);
    tree::lemma_extend(nodes, b, g, c);
    let (u, v) = (h + p.skip(1), g.push(c));
    assert(tree::leads_to(nodes, b, u, c) && tree::leads_to(nodes, b, v, c));
    assert(!tree::twice(nodes, b, c));
    assert(u == v);
    assert(u[u.len() - 2] == p[k]) by {
        if k == 0 {
            assert(h.last() == x);
        }
    }
    assert(v[v.len() - 2] == g.last());
}

/// No area exceeds that of the node above.
pub open spec fn areas_shrink(nodes: Seq<BvhNode>, areas: Seq<u32>) -> bool {
    forall|a: int, c: int| #[trigger]
        tree::is_child(nodes, a, c) ==> bits::le(areas[c], areas[a])
}

/// Nodes stand behind the node above.
pub open spec fn ids_grow(nodes: Seq<BvhNode>) -> bool {
    forall|a: int, c: int| #[trigger] tree::is_child(nodes, a, c) ==> a < c
}

/// What lies between `b` and the parts was split: nothing that could still be
/// split is wider, or as wide and in front.
spec fn widest_went(nodes: Seq<BvhNode>, areas: Seq<u32>, b: int, s: Seq<u32>) -> bool {
    forall|x: int, j: int, m: int|
        #![trigger tree::under(nodes, x, s[j] as int), s[m]]
        0 <= j < s.len() && 0 <= m < s.len() && tree::under(nodes, b, x) && x != b && tree::under(
            nodes,
            x,
            s[j] as int,
        ) && x != s[j] && splittable(nodes, areas, s[m]) ==> !bits::lt(
            areas[x],
            areas[s[m] as int],
        ) && (ids_grow(nodes) && bits::le(areas[x], areas[s[m] as int]) ==> x < s[m])
}

proof fn lemma_no_way_back(nodes: Seq<BvhNode>, a: int, x: int)
    requires
        tree::is_tree(nodes, a),
        tree::under(nodes, a, x),
        tree::under(nodes, x, a),
    ensures
        a == x,
{
    if a != x {
        let p = choose|p: Seq<int>| #[trigger] tree::leads_to(nodes, a, p, x);
        let q = choose|q: Seq<int>| #[trigger] tree::leads_to(nodes, x, q, a);
        tree::lemma_join(nodes, a, p, q);
        assert(p.len() > 1 && q.len() > 1);
        let (u, v) = (p + q.skip(1), seq![a]);
        assert(tree::leads_to(nodes, a, u, a) && tree::leads_to(nodes, a, v, a));
        assert(u.len() > v.len());
        assert(tree::twice(nodes, a, a));
    }
}

proof fn lemma_first_went(nodes: Seq<BvhNode>, areas: Seq<u32>, b: int)
    requires
        tree::links_inside(nodes),
        nodes.len() <= u32::MAX,
        0 <= b < nodes.len(),
        tree::is_tree(nodes, b),
        nodes[b].count == 0,
    ensures
        widest_went(
            nodes,
            areas,
            b,
            seq![nodes[b].left_first, (nodes[b].left_first + 1) as u32],
        ),
{
    let l = nodes[b].left_first as int;
    let s = seq![nodes[b].left_first, (nodes[b].left_first + 1) as u32];
    assert(s[0] == l && s[1] == l + 1);
    tree::lemma_tree_parts(nodes, b);
    assert forall|x: int, j: int|
        0 <= j < s.len() && tree::under(nodes, b, x) && x != b && #[trigger] tree::under(
            nodes,
            x,
            s[j] as int,
        ) implies x == s[j] by {
        let y = s[j] as int;
        tree::lemma_under_split(nodes, b, x);
        let c = choose|c: int| #[trigger] tree::is_child(nodes, b, c) && tree::under(nodes, c, x);
        tree::lemma_under_trans(nodes, c, x, y);
        tree::lemma_under_self(nodes, y);
        assert(c == l || c == l + 1);
        if c != y {
            assert(tree::under(nodes, l, y) && tree::under(nodes, l + 1, y));
        }
        tree::lemma_lighter(nodes, b, c);
        lemma_no_way_back(nodes, c, x);
    }
}

proof fn lemma_next_went(nodes: Seq<BvhNode>, areas: Seq<u32>, b: int, s: Seq<u32>, i: int)
    requires
        tree::links_inside(nodes),
        nodes.len() <= u32::MAX,
        0 <= b < nodes.len(),
        tree::is_tree(nodes, b),
        parts(nodes, b, s),
        areas_shrink(nodes, areas),
        is_widest(nodes, areas, s, i),
        widest_went(nodes, areas, b, s),
    ensures
        widest_went(nodes, areas, b, split_at(nodes, s, i)),
{
    let t = split_at(nodes, s, i);
    let n = s.len() as int;
    let e = s[i] as int;
    let l = nodes[e].left_first as int;
    assert(s[i] < nodes.len());
    assert(nodes[e].count == 0);
    assert(t[i] == l && t[n] == l + 1);
    assert(tree::is_child(nodes, e, l) && tree::is_child(nodes, e, l + 1));
    tree::lemma_under_self(nodes, e);
    assert forall|x: int, j: int, m: int|
        #![trigger tree::under(nodes, x, t[j] as int), t[m]]
        0 <= j < t.len() && 0 <= m < t.len() && tree::under(nodes, b, x) && x != b && tree::under(
            nodes,
            x,
            t[j] as int,
        ) && x != t[j] && splittable(nodes, areas, t[m]) implies !bits::lt(
        areas[x],
        areas[t[m] as int],
    ) && (ids_grow(nodes) && bits::le(areas[x], areas[t[m] as int]) ==> x < t[m]) by {
        // the slot of the old list that the way down from `x` leads to
        let k = if j == n {
            i
        } else {
            j
        };
        if j == i || j == n {
            lemma_parent_between(nodes, b, x, e, t[j] as int);
        } else {
            assert(t[j] == s[j]);
        }
        assert(tree::under(nodes, x, s[k] as int));
        if x != s[k] {
            assert(!bits::lt(areas[x], areas[e])) by {
                assert(s[i] == e);
            }
            if m != i && m != n {
                assert(t[m] == s[m]);
                assert(!bits::lt(areas[x], areas[s[m] as int]));
            }
        } else {
            assert(j == i || j == n);
            if m != i && m != n {
                assert(t[m] == s[m]);
                assert(gives_way(areas, s[m], s[i]));
                tree::lemma_under_self(nodes, s[m] as int);
                if m < i {
                    assert(disjoint(nodes, s[m] as int, s[i] as int));
                } else {
                    assert(disjoint(nodes, s[i] as int, s[m] as int));
                }
            }
        }
    }
}

proof fn lemma_frontier_went(nodes: Seq<BvhNode>, areas: Seq<u32>, b: int, s: Seq<u32>)
    requires
        tree::links_inside(nodes),
        nodes.len() <= u32::MAX,
        0 <= b < nodes.len(),
        tree::is_tree(nodes, b),
        parts(nodes, b, s),
        s.len() <= WIDTH,
        areas_shrink(nodes, areas),
        widest_went(nodes, areas, b, s),
    ensures
        widest_went(nodes, areas, b, frontier(nodes, areas, s)),
        frontier(nodes, areas, s).len() < WIDTH ==> !any_splits(
            nodes,
            areas,
            frontier(nodes, areas, s),
        ),
    decreases WIDTH - s.len(),
{
    if s.len() < WIDTH && any_splits(nodes, areas, s) {
        lemma_widest_exists(nodes, areas, s);
        let i = widest(nodes, areas, s);
        lemma_split_parts(nodes, b, s, i);
        lemma_next_went(nodes, areas, b, s, i);
        lemma_frontier_went(nodes, areas, b, split_at(nodes, s, i));
    }
}

/// A wide node over an internal one holds two to eight binary nodes, by
/// ascending id, each with its own box. They lie under it, share nothing, and
/// no way down to a leaf goes past them. One with a subtree of its own is
/// internal, and that subtree covers it; a leaf has none. The root covers the
/// whole hierarchy, and the first cut lists its slots.
pub proof fn slots_part_the_hierarchy(nodes: Seq<BvhNode>, areas: Seq<u32>, ft: FTree, w: int)
    requires
        collapsed(nodes, areas, ft),
        0 <= w < ft.nodes@.len(),
    ensures
        ft.covers@[0] == 0,
        ft.root_cut@.len() == ft.nodes@[0].slots@.len(),
        forall|i: int| 0 <= i < ft.root_cut@.len() ==> #[trigger] ft.root_cut@[i] == i,
        ({
            let slots = ft.nodes@[w].slots@;
            let b = ft.covers@[w];
            &&& 0 <= b < nodes.len()
            &&& 1 <= slots.len() <= 8
            &&& nodes[b].count != 0 ==> slots.len() == 1 && slots[0].bnode == b
            &&& nodes[b].count == 0 ==> {
                &&& slots.len() >= 2
                &&& forall|i: int|
                    0 <= i < slots.len() ==> #[trigger] slots[i].bnode != b && tree::under(
                        nodes,
                        b,
                        slots[i].bnode as int,
                    )
                &&& forall|i: int, j: int, x: int|
                    0 <= i < j < slots.len() && #[trigger] tree::under(
                        nodes,
                        slots[i].bnode as int,
                        x,
                    ) ==> !#[trigger] tree::under(nodes, slots[j].bnode as int, x)
                &&& forall|p: Seq<int>| #[trigger]
                    tree::to_leaf(nodes, b, p) ==> exists|k: int, i: int|
                        0 <= k < p.len() && 0 <= i < slots.len() && #[trigger] p[k]
                            == #[trigger] slots[i].bnode
            }
            &&& forall|i: int, j: int|
                0 <= i < j < slots.len() ==> #[trigger] slots[i].bnode < #[trigger] slots[j].bnode
            &&& forall|i: int|
                0 <= i < slots.len() ==> {
                    let s = #[trigger] slots[i];
                    &&& s.bnode < nodes.len()
                    &&& s.aabb == nodes[s.bnode as int].aabb
                    &&& s.child == u32::MAX <==> nodes[s.bnode as int].count != 0
                    &&& s.child != u32::MAX ==> w < s.child < ft.nodes@.len()
                        && ft.covers@[s.child as int] == s.bnode
                }
        }),
{
    assert(node_ok(nodes, areas, ft.nodes@, ft.covers@, ft.ends@, 0));
    assert(node_ok(nodes, areas, ft.nodes@, ft.covers@, ft.ends@, w));
    let slots = ft.nodes@[w].slots@;
    let b = ft.covers@[w];
    let own = ids(ft.nodes@[w]);
    assert forall|i: int| 0 <= i < slots.len() implies {
        let s = #[trigger] slots[i];
        &&& s.bnode < nodes.len()
        &&& s.aabb == nodes[s.bnode as int].aabb
        &&& s.child == u32::MAX <==> nodes[s.bnode as int].count != 0
        &&& s.child != u32::MAX ==> w < s.child < ft.nodes@.len() && ft.covers@[s.child as int]
            == s.bnode
    } by {
        assert(slot_ok(nodes, slots, ft.covers@, ft.ends@, w, ft.ends@[w], i));
    }
    if nodes[b].count == 0 {
        lemma_holds_parts(nodes, areas, b, own);
        assert forall|i: int| 0 <= i < slots.len() implies #[trigger] slots[i].bnode != b
            && tree::under(nodes, b, slots[i].bnode as int) by {
            assert(own[i] == slots[i].bnode);
            tree::lemma_under_self(nodes, b);
        }
        assert forall|i: int, j: int, x: int|
            0 <= i < j < slots.len() && #[trigger] tree::under(
                nodes,
                slots[i].bnode as int,
                x,
            ) implies !#[trigger] tree::under(nodes, slots[j].bnode as int, x) by {
            assert(own[i] == slots[i].bnode && own[j] == slots[j].bnode);
            assert(disjoint(nodes, own[i] as int, own[j] as int));
        }
        assert forall|p: Seq<int>| #[trigger] tree::to_leaf(nodes, b, p) implies exists|
            k: int,
            i: int,
        |
            0 <= k < p.len() && 0 <= i < slots.len() && #[trigger] p[k] == #[trigger] slots[i].bnode by {
            assert(bound::passes(p, own));
            let (k, i) = choose|k: int, i: int|
                0 <= k < p.len() && 0 <= i < own.len() && #[trigger] p[k] == #[trigger] own[i];
            assert(p[k] == slots[i].bnode);
        }
        assert forall|i: int, j: int| 0 <= i < j < slots.len() implies #[trigger] slots[i].bnode
            < #[trigger] slots[j].bnode by {
            assert(own[i] < own[j]);
        }
    } else {
        assert(own[0] == b);
        assert(own.len() == 1);
    }
}

/// The widest goes first. Where areas shrink on the way down, a binary node that
/// was split to make a wide node's slots, and so lies between the node covered
/// and a slot, is no narrower than any slot that could have been split in its
/// place; and a wide node with room left has no such slot. Of equally wide ones
/// the one in front went first, where nodes stand behind the node above.
pub proof fn nothing_wider_is_left_unsplit(
    nodes: Seq<BvhNode>,
    areas: Seq<u32>,
    ft: FTree,
    w: int,
    x: int,
    i: int,
    j: int,
)
    requires
        collapsed(nodes, areas, ft),
        areas_shrink(nodes, areas),
        0 <= w < ft.nodes@.len(),
        0 <= i < ft.nodes@[w].slots@.len(),
        0 <= j < ft.nodes@[w].slots@.len(),
        nodes[ft.covers@[w]].count == 0,
    ensures
        ({
            let slots = ft.nodes@[w].slots@;
            let (e, f) = (slots[i].bnode as int, slots[j].bnode as int);
            let open = nodes[f].count == 0 && bits::lt(0xbf80_0000, areas[f]);
            &&& slots.len() < 8 ==> !open
            &&& tree::under(nodes, ft.covers@[w], x) && x != ft.covers@[w] && tree::under(
                nodes,
                x,
                e,
            ) && x != e && open ==> !bits::lt(areas[x], areas[f]) && (ids_grow(nodes) && bits::le(
                areas[x],
                areas[f],
            ) ==> x < f)
        }),
{
    assert(node_ok(nodes, areas, ft.nodes@, ft.covers@, ft.ends@, w));
    let slots = ft.nodes@[w].slots@;
    let b = ft.covers@[w];
    let own = ids(ft.nodes@[w]);
    let two = seq![nodes[b].left_first, (nodes[b].left_first + 1) as u32];
    let f = frontier(nodes, areas, two);
    lemma_children_part(nodes, b);
    lemma_first_went(nodes, areas, b);
    lemma_frontier_went(nodes, areas, b, two);
    assert(own[i] == slots[i].bnode && own[j] == slots[j].bnode);
    assert(own.contains(own[i]) && own.contains(own[j]));
    assert(f.contains(own[i]) && f.contains(own[j]));
    let k = choose|k: int| 0 <= k < f.len() && f[k] == own[i];
    let m = choose|m: int| 0 <= m < f.len() && f[m] == own[j];
    assert(f[m] == slots[j].bnode);
    assert(f[k] == slots[i].bnode);
    if tree::under(nodes, x, slots[i].bnode as int) {
        assert(tree::under(nodes, x, f[k] as int));
    }
}

/// A node with no wide nodes below is one level deep, any other one more than
/// its deepest child.
pub proof fn depth_is_that_of_the_deepest_child(wide: Seq<FNode>, w: int)
    requires
        grows(wide),
        0 <= w < wide.len(),
    ensures
        depth(wide, w) >= 1,
        forall|i: int|
            0 <= i < wide[w].slots@.len() && (#[trigger] wide[w].slots@[i]).child != u32::MAX ==> depth(
                wide,
                wide[w].slots@[i].child as int,
            ) < depth(wide, w),
        depth(wide, w) > 1 ==> exists|i: int|
            0 <= i < wide[w].slots@.len() && (#[trigger] wide[w].slots@[i]).child != u32::MAX && depth(
                wide,
                wide[w].slots@[i].child as int,
            ) == depth(wide, w) - 1,
{
    lemma_deepest(wide, w, wide[w].slots@.len() as int);
}

proof fn lemma_deepest(wide: Seq<FNode>, w: int, n: int)
    requires
        grows(wide),
        0 <= w < wide.len(),
        0 <= n <= wide[w].slots@.len(),
    ensures
        forall|i: int|
            0 <= i < n && (#[trigger] wide[w].slots@[i]).child != u32::MAX ==> depth(
                wide,
                wide[w].slots@[i].child as int,
            ) <= deepest(wide, w, n),
        deepest(wide, w, n) > 0 ==> exists|i: int|
            0 <= i < n && (#[trigger] wide[w].slots@[i]).child != u32::MAX && depth(
                wide,
                wide[w].slots@[i].child as int,
            ) == deepest(wide, w, n),
    decreases n,
{
    if n > 0 {
        lemma_deepest(wide, w, n - 1);
        let s = wide[w].slots@[n - 1];
        if deepest(wide, w, n) > deepest(wide, w, n - 1) {
            assert(depth(wide, s.child as int) == deepest(wide, w, n));
        } else if deepest(wide, w, n) > 0 {
            let i = choose|i: int|
                0 <= i < n - 1 && (#[trigger] wide[w].slots@[i]).child != u32::MAX && depth(
                    wide,
                    wide[w].slots@[i].child as int,
                ) == deepest(wide, w, n - 1);
            assert(wide[w].slots@[i].child != u32::MAX);
        }
    }
}

} // verus!
