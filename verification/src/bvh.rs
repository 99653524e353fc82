//! The bounding volume hierarchy as the library reads it: nodes, their boxes
//! as bit patterns, and the triangle order of the leaves.
use vstd::prelude::*;
use vstd::set_lib::*;
use crate::bits::BitsBox;

verus! {

/// Set in a node's count: a leaf to every bound, with a subtree behind it that
/// the tracer enters through a shear.
pub const GATEWAY_BIT: u32 = 0x8000_0000;

/// A node. A count of 0 makes it internal, with its two children at
/// `left_first` and the index after it; any other count makes it a leaf over
/// that many entries of the triangle order, from `left_first` on.
#[derive(Clone, Copy, Debug, PartialEq, Eq, Structural)]
pub struct BvhNode {
    pub aabb: BitsBox,
    pub left_first: u32,
    pub count: u32,
}

/// A hierarchy: node 0 is its root.
pub struct Bvh {
    pub nodes: Vec<BvhNode>,
    /// Triangle ids in leaf order.
    pub tri_idx: Vec<u32>,
}

impl BvhNode {
    /// The gateway mark is set.
    pub open spec fn is_gateway(self) -> bool {
        self.count >= GATEWAY_BIT
    }

    /// Triangles of the leaf, without the gateway mark.
    pub open spec fn leaf_tris(self) -> int {
        if self.count >= GATEWAY_BIT {
            self.count - GATEWAY_BIT
        } else {
            self.count as int
        }
    }

    /// Triangles of the leaf, without the gateway mark.
    pub fn leaf_count(&self) -> (n: u32)
        ensures
            n == self.leaf_tris(),
    {
        if self.count >= GATEWAY_BIT {
            self.count - GATEWAY_BIT
        } else {
            self.count
        }
    }
}

/// `c` is a child of node `a`.
pub open spec fn is_child(nodes: Seq<BvhNode>, a: int, c: int) -> bool {
    0 <= a < nodes.len() && nodes[a].count == 0 && (c == nodes[a].left_first || c
        == nodes[a].left_first + 1)
}

/// Step `k` of a path goes from a node to its child.
pub open spec fn descends(nodes: Seq<BvhNode>, p: Seq<int>, k: int) -> bool {
    is_child(nodes, p[k], p[k + 1])
}

/// `p` leads from `root` down child links.
pub open spec fn is_path(nodes: Seq<BvhNode>, root: int, p: Seq<int>) -> bool {
    &&& p.len() > 0
    &&& p[0] == root
    &&& forall|k: int| 0 <= k < p.len() - 1 ==> #[trigger] descends(nodes, p, k)
}

/// `p` leads from `root` to `i`.
pub open spec fn leads_to(nodes: Seq<BvhNode>, root: int, p: Seq<int>, i: int) -> bool {
    is_path(nodes, root, p) && p.last() == i
}

/// Node `i` lies in the tree under `root`.
pub open spec fn under(nodes: Seq<BvhNode>, root: int, i: int) -> bool {
    exists|p: Seq<int>| #[trigger] leads_to(nodes, root, p, i)
}

/// Two different paths lead from `root` to `i`.
pub open spec fn twice(nodes: Seq<BvhNode>, root: int, i: int) -> bool {
    exists|p: Seq<int>, q: Seq<int>|
        p != q && #[trigger] leads_to(nodes, root, p, i) && #[trigger] leads_to(nodes, root, q, i)
}

/// No node is reached twice.
pub open spec fn is_tree(nodes: Seq<BvhNode>, root: int) -> bool {
    forall|i: int| !#[trigger] twice(nodes, root, i)
}

/// A path and one more step.
pub proof fn lemma_extend(nodes: Seq<BvhNode>, root: int, p: Seq<int>, c: int)
    requires
        is_path(nodes, root, p),
        is_child(nodes, p.last(), c),
    ensures
        is_path(nodes, root, p.push(c)),
        leads_to(nodes, root, p.push(c), c),
{
    let q = p.push(c);
    assert forall|k: int| 0 <= k < q.len() - 1 implies #[trigger] descends(nodes, q, k) by {
        if k < p.len() - 1 {
            assert(descends(nodes, p, k));
        }
    }
}

/// The nodes under `b`.
pub open spec fn family(nodes: Seq<BvhNode>, b: int) -> Set<int> {
    Set::new(|i: int| under(nodes, b, i))
}

/// How many nodes lie under `b`.
pub open spec fn weight(nodes: Seq<BvhNode>, b: int) -> nat {
    family(nodes, b).len()
}

/// Every link stays inside, and there are no more nodes than ids.
pub open spec fn links_inside(nodes: Seq<BvhNode>) -> bool {
    forall|i: int|
        0 <= i < nodes.len() && (#[trigger] nodes[i]).count == 0 ==> nodes[i].left_first + 1
            < nodes.len()
}

/// `p` leads from `b` to a leaf.
pub open spec fn to_leaf(nodes: Seq<BvhNode>, b: int, p: Seq<int>) -> bool {
    is_path(nodes, b, p) && 0 <= p.last() < nodes.len() && nodes[p.last()].count != 0
}

/// A path from a child, seen from its parent.
pub proof fn lemma_prepend(nodes: Seq<BvhNode>, a: int, c: int, q: Seq<int>)
    requires
        is_child(nodes, a, c),
        is_path(nodes, c, q),
    ensures
        is_path(nodes, a, seq![a] + q),
        (seq![a] + q).last() == q.last(),
{
    let p = seq![a] + q;
    assert forall|k: int| 0 <= k < p.len() - 1 implies #[trigger] descends(nodes, p, k) by {
        if k > 0 {
            assert(descends(nodes, q, k - 1));
            assert(p[k] == q[k - 1] && p[k + 1] == q[k]);
        }
    }
}

/// The rest of a path, from its node `k` on.
pub proof fn lemma_tail(nodes: Seq<BvhNode>, a: int, p: Seq<int>, k: int)
    requires
        is_path(nodes, a, p),
        0 <= k < p.len(),
    ensures
        is_path(nodes, p[k], p.skip(k)),
        p.skip(k).last() == p.last(),
{
    let q = p.skip(k);
    assert forall|j: int| 0 <= j < q.len() - 1 implies #[trigger] descends(nodes, q, j) by {
        assert(descends(nodes, p, j + k));
        assert(q[j] == p[j + k] && q[j + 1] == p[j + k + 1]);
    }
}

/// The start of a path, up to its node `k`.
pub proof fn lemma_head(nodes: Seq<BvhNode>, a: int, p: Seq<int>, k: int)
    requires
        is_path(nodes, a, p),
        0 <= k < p.len(),
    ensures
        is_path(nodes, a, p.take(k + 1)),
        p.take(k + 1).last() == p[k],
{
    let q = p.take(k + 1);
    assert forall|j: int| 0 <= j < q.len() - 1 implies #[trigger] descends(nodes, q, j) by {
        assert(descends(nodes, p, j));
    }
}

/// One path after another.
pub proof fn lemma_join(nodes: Seq<BvhNode>, a: int, p: Seq<int>, q: Seq<int>)
    requires
        is_path(nodes, a, p),
        is_path(nodes, p.last(), q),
    ensures
        is_path(nodes, a, p + q.skip(1)),
        (p + q.skip(1)).last() == q.last(),
{
    let r = p + q.skip(1);
    assert forall|k: int| 0 <= k < r.len() - 1 implies #[trigger] descends(nodes, r, k) by {
        if k < p.len() - 1 {
            assert(descends(nodes, p, k));
        } else {
            let j = k - (p.len() - 1);
            assert(descends(nodes, q, j));
            assert(r[k] == q[j]);
            assert(r[k + 1] == q[j + 1]);
        }
    }
}

/// A node under a node that is under a third.
pub proof fn lemma_under_trans(nodes: Seq<BvhNode>, a: int, b: int, c: int)
    requires
        under(nodes, a, b),
        under(nodes, b, c),
    ensures
        under(nodes, a, c),
{
    let p = choose|p: Seq<int>| #[trigger] leads_to(nodes, a, p, b);
    let q = choose|q: Seq<int>| #[trigger] leads_to(nodes, b, q, c);
    lemma_join(nodes, a, p, q);
    assert(leads_to(nodes, a, p + q.skip(1), c));
}

/// Every node is under itself.
pub proof fn lemma_under_self(nodes: Seq<BvhNode>, a: int)
    ensures
        under(nodes, a, a),
{
    assert(leads_to(nodes, a, seq![a], a));
}

/// What is under a node is the node, or under one of its children.
pub proof fn lemma_under_split(nodes: Seq<BvhNode>, b: int, i: int)
    ensures
        under(nodes, b, i) <==> i == b || exists|c: int|
            #[trigger] is_child(nodes, b, c) && under(nodes, c, i),
{
    lemma_under_self(nodes, b);
    if under(nodes, b, i) && i != b {
        let p = choose|p: Seq<int>| #[trigger] leads_to(nodes, b, p, i);
        assert(descends(nodes, p, 0));
        lemma_tail(nodes, b, p, 1);
        assert(leads_to(nodes, p[1], p.skip(1), i));
        assert(is_child(nodes, b, p[1]));
    }
    if exists|c: int| #[trigger] is_child(nodes, b, c) && under(nodes, c, i) {
        let c = choose|c: int| #[trigger] is_child(nodes, b, c) && under(nodes, c, i);
        let q = choose|q: Seq<int>| #[trigger] leads_to(nodes, c, q, i);
        lemma_prepend(nodes, b, c, q);
        assert(leads_to(nodes, b, seq![b] + q, i));
    }
}

/// What is under a node is a node.
pub proof fn lemma_under_inside(nodes: Seq<BvhNode>, b: int, i: int)
    requires
        links_inside(nodes),
        0 <= b < nodes.len(),
        under(nodes, b, i),
    ensures
        0 <= i < nodes.len(),
{
    let p = choose|p: Seq<int>| #[trigger] leads_to(nodes, b, p, i);
    if p.len() > 1 {
        assert(descends(nodes, p, p.len() - 2));
    }
}

/// A family is finite.
pub proof fn lemma_family_finite(nodes: Seq<BvhNode>, b: int)
    requires
        links_inside(nodes),
        0 <= b < nodes.len(),
    ensures
        family(nodes, b).finite(),
        0 < weight(nodes, b) <= nodes.len(),
{
    let all = set_int_range(0, nodes.len() as int);
    lemma_int_range(0, nodes.len() as int);
    assert(family(nodes, b).subset_of(all)) by {
        assert forall|i: int| family(nodes, b).contains(i) implies all.contains(i) by {
            lemma_under_inside(nodes, b, i);
        }
    }
    lemma_len_subset(family(nodes, b), all);
    lemma_under_self(nodes, b);
    if weight(nodes, b) == 0 {
        assert(family(nodes, b).contains(b));
        assert(family(nodes, b) =~= Set::empty());
    }
}

/// A part of a tree is a tree.
pub proof fn lemma_tree_down(nodes: Seq<BvhNode>, r: int, b: int)
    requires
        is_tree(nodes, r),
        under(nodes, r, b),
    ensures
        is_tree(nodes, b),
{
    let h = choose|h: Seq<int>| #[trigger] leads_to(nodes, r, h, b);
    assert forall|i: int| !#[trigger] twice(nodes, b, i) by {
        if twice(nodes, b, i) {
            let (p, q) = choose|p: Seq<int>, q: Seq<int>|
                p != q && #[trigger] leads_to(nodes, b, p, i) && #[trigger] leads_to(nodes, b, q, i);
            lemma_join(nodes, r, h, p);
            lemma_join(nodes, r, h, q);
            let (x, y) = (h + p.skip(1), h + q.skip(1));
            assert(leads_to(nodes, r, x, i) && leads_to(nodes, r, y, i));
            if x == y {
                assert(p.len() == q.len());
                assert forall|k: int| 0 <= k < p.len() implies p[k] == q[k] by {
                    if k > 0 {
                        assert(x[h.len() + k - 1] == p[k]);
                        assert(y[h.len() + k - 1] == q[k]);
                    }
                }
                assert(p =~= q);
            }
            assert(twice(nodes, r, i));
        }
    }
}

/// A node of a tree is not under its own child, and its children share
/// nothing.
pub proof fn lemma_tree_parts(nodes: Seq<BvhNode>, b: int)
    requires
        is_tree(nodes, b),
        0 <= b < nodes.len(),
        nodes[b].count == 0,
    ensures
        !under(nodes, nodes[b].left_first as int, b),
        !under(nodes, nodes[b].left_first + 1, b),
        forall|i: int|
            !(#[trigger] under(nodes, nodes[b].left_first as int, i) && #[trigger] under(
                nodes,
                nodes[b].left_first + 1,
                i,
            )),
{
    let l = nodes[b].left_first as int;
    assert(is_child(nodes, b, l) && is_child(nodes, b, l + 1));
    assert forall|c: int| #[trigger] is_child(nodes, b, c) implies !under(nodes, c, b) by {
        if under(nodes, c, b) {
            let q = choose|q: Seq<int>| #[trigger] leads_to(nodes, c, q, b);
            lemma_prepend(nodes, b, c, q);
            assert(leads_to(nodes, b, seq![b] + q, b));
            assert(leads_to(nodes, b, seq![b], b));
            assert((seq![b] + q).len() != seq![b].len());
            assert(twice(nodes, b, b));
        }
    }
    assert forall|i: int| !(#[trigger] under(nodes, l, i) && #[trigger] under(nodes, l + 1, i)) by {
        if under(nodes, l, i) && under(nodes, l + 1, i) {
            let p = choose|p: Seq<int>| #[trigger] leads_to(nodes, l, p, i);
            let q = choose|q: Seq<int>| #[trigger] leads_to(nodes, l + 1, q, i);
            lemma_prepend(nodes, b, l, p);
            lemma_prepend(nodes, b, l + 1, q);
            let (x, y) = (seq![b] + p, seq![b] + q);
            assert(leads_to(nodes, b, x, i) && leads_to(nodes, b, y, i));
            assert(x[1] == l && y[1] == l + 1);
            assert(twice(nodes, b, i));
        }
    }
}

/// A node of a tree weighs one more than its children together.
pub proof fn lemma_weight(nodes: Seq<BvhNode>, b: int)
    requires
        links_inside(nodes),
        is_tree(nodes, b),
        0 <= b < nodes.len(),
        nodes[b].count == 0,
    ensures
        weight(nodes, b) == 1 + weight(nodes, nodes[b].left_first as int) + weight(
            nodes,
            nodes[b].left_first + 1,
        ),
{
    let l = nodes[b].left_first as int;
    assert(nodes[b].count == 0);
    lemma_tree_parts(nodes, b);
    lemma_family_finite(nodes, b);
    lemma_family_finite(nodes, l);
    lemma_family_finite(nodes, l + 1);
    let (x, y) = (family(nodes, l), family(nodes, l + 1));
    assert(family(nodes, b) =~= x.union(y).insert(b)) by {
        assert forall|i: int| family(nodes, b).contains(i) <==> x.union(y).insert(b).contains(i) by {
            lemma_under_split(nodes, b, i);
            assert(is_child(nodes, b, l) && is_child(nodes, b, l + 1));
        }
    }
    assert(x.disjoint(y)) by {
        assert forall|i: int| x.contains(i) implies !y.contains(i) by {}
    }
    lemma_set_disjoint_lens(x, y);
    assert(!x.union(y).contains(b));
}

/// A child of a tree's node weighs less than the node.
pub proof fn lemma_lighter(nodes: Seq<BvhNode>, b: int, c: int)
    requires
        links_inside(nodes),
        is_tree(nodes, b),
        0 <= b < nodes.len(),
        is_child(nodes, b, c),
    ensures
        weight(nodes, c) < weight(nodes, b),
        is_tree(nodes, c),
        0 <= c < nodes.len(),
{
    lemma_weight(nodes, b);
    lemma_under_self(nodes, c);
    lemma_under_split(nodes, b, c);
    lemma_tree_down(nodes, b, c);
}

} // verus!
