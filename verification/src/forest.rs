//! Disjoint-set forest with path halving, and the chains of links whose
//! connected groups it computes.
use vstd::prelude::*;

verus! {

/// Two neighbours on a chain: linked by `r` in one direction or the other.
pub open spec fn adjacent(r: spec_fn(int, int) -> bool, a: int, b: int) -> bool {
    r(a, b) || r(b, a)
}

/// `p` is a chain of `r`-links (a single stop is a chain).
pub open spec fn is_chain(r: spec_fn(int, int) -> bool, p: Seq<int>) -> bool {
    &&& p.len() >= 1
    &&& forall|i: int| 0 <= i < p.len() - 1 ==> adjacent(r, #[trigger] p[i], p[i + 1])
}

/// Some chain of `r`-links leads from `a` to `b`.
pub open spec fn connected(r: spec_fn(int, int) -> bool, a: int, b: int) -> bool {
    exists|p: Seq<int>| #[trigger] is_chain(r, p) && p[0] == a && p.last() == b
}

/// Every point is connected to itself.
pub proof fn connected_refl(r: spec_fn(int, int) -> bool, a: int)
    ensures
        connected(r, a, a),
{
    assert(is_chain(r, seq![a]));
}

/// Two adjacent points are connected.
pub proof fn connected_step(r: spec_fn(int, int) -> bool, a: int, b: int)
    requires
        adjacent(r, a, b),
    ensures
        connected(r, a, b),
{
    let p = seq![a, b];
    assert(is_chain(r, p));
}

/// Connection runs both ways.
pub proof fn connected_sym(r: spec_fn(int, int) -> bool, a: int, b: int)
    requires
        connected(r, a, b),
    ensures
        connected(r, b, a),
{
    let p = choose|p: Seq<int>| #[trigger] is_chain(r, p) && p[0] == a && p.last() == b;
    let q = p.reverse();
    assert forall|i: int| 0 <= i < q.len() - 1 implies adjacent(r, #[trigger] q[i], q[i + 1]) by {
        assert(adjacent(r, p[p.len() - 2 - i], p[p.len() - 2 - i + 1]));
    }
    assert(is_chain(r, q));
}

/// Connections compose.
pub proof fn connected_trans(r: spec_fn(int, int) -> bool, a: int, b: int, c: int)
    requires
        connected(r, a, b),
        connected(r, b, c),
    ensures
        connected(r, a, c),
{
    let p = choose|p: Seq<int>| #[trigger] is_chain(r, p) && p[0] == a && p.last() == b;
    let q = choose|q: Seq<int>| #[trigger] is_chain(r, q) && q[0] == b && q.last() == c;
    let w = p + q.drop_first();
    assert forall|i: int| 0 <= i < w.len() - 1 implies adjacent(r, #[trigger] w[i], w[i + 1]) by {
        if i < p.len() - 1 {
            assert(adjacent(r, p[i], p[i + 1]));
        } else {
            let j = i - (p.len() - 1);
            assert(adjacent(r, q[j], q[j + 1]));
        }
    }
    assert(is_chain(r, w));
}

/// A label that no link changes is the same along the whole chain.
pub proof fn connected_label(r: spec_fn(int, int) -> bool, label: spec_fn(int) -> int, a: int, b: int)
    requires
        connected(r, a, b),
        forall|x: int, y: int| #[trigger] r(x, y) ==> label(x) == label(y),
    ensures
        label(a) == label(b),
{
    let p = choose|p: Seq<int>| #[trigger] is_chain(r, p) && p[0] == a && p.last() == b;
    label_along(r, label, p);
}

proof fn label_along(r: spec_fn(int, int) -> bool, label: spec_fn(int) -> int, p: Seq<int>)
    requires
        is_chain(r, p),
        forall|x: int, y: int| #[trigger] r(x, y) ==> label(x) == label(y),
    ensures
        label(p[0]) == label(p.last()),
    decreases p.len(),
{
    if p.len() > 1 {
        let q = p.drop_last();
        assert forall|i: int| 0 <= i < q.len() - 1 implies adjacent(r, #[trigger] q[i], q[i + 1]) by {
            assert(adjacent(r, p[i], p[i + 1]));
        }
        label_along(r, label, q);
        assert(adjacent(r, p[p.len() - 2], p[p.len() - 2 + 1]));
    }
}

/// Ids `0..n` grouped under roots. `parent` is the working array; the ghost
/// fields carry the grouping it stands for and the descent measure of `find`.
pub struct Forest {
    parent: Vec<u32>,
    root: Ghost<Seq<int>>,
    rank: Ghost<Seq<nat>>,
}

impl Forest {
    /// The root of each id's group.
    pub closed spec fn roots(&self) -> Seq<int> {
        self.root@
    }

    /// Number of ids.
    pub open spec fn size(&self) -> nat {
        self.roots().len()
    }

    /// Every id reaches its root: parents share the root, strictly descend in
    /// rank, and the roots are exactly their own parents.
    pub closed spec fn wf(&self) -> bool {
        &&& self.root@.len() == self.parent@.len()
        &&& self.rank@.len() == self.parent@.len()
        &&& self.parent@.len() <= u32::MAX
        &&& forall|i: int|
            0 <= i < self.parent@.len() ==> {
                &&& (#[trigger] self.parent@[i]) < self.parent@.len()
                &&& self.root@[self.parent@[i] as int] == self.root@[i]
                &&& self.parent@[i] != i ==> self.rank@[self.parent@[i] as int] < self.rank@[i]
                &&& self.parent@[i] == i ==> self.root@[i] == i
                &&& 0 <= self.root@[i] < self.parent@.len()
                &&& self.parent@[self.root@[i]] == self.root@[i]
            }
    }

    /// Roots are ids, and a root is its own root.
    pub proof fn lemma_roots(&self, i: int)
        requires
            self.wf(),
            0 <= i < self.size(),
        ensures
            0 <= self.roots()[i] < self.size(),
            self.roots()[self.roots()[i]] == self.roots()[i],
            self.size() <= u32::MAX,
    {
        let j = self.parent@[i];
        let k = self.parent@[self.root@[i]];
    }

    /// `n` singleton groups.
    pub fn new(n: u32) -> (f: Forest)
        ensures
            f.wf(),
            f.roots() == Seq::new(n as nat, |i: int| i),
    {
        let mut parent: Vec<u32> = Vec::with_capacity(n as usize);
        let mut i: u32 = 0;
        while i < n
            invariant
                i <= n,
                parent@.len() == i,
                forall|k: int| 0 <= k < i ==> parent@[k] == k,
            decreases n - i,
        {
            parent.push(i);
            i = i + 1;
        }
        Forest {
            parent,
            root: Ghost(Seq::new(n as nat, |i: int| i)),
            rank: Ghost(Seq::new(n as nat, |i: int| 0nat)),
        }
    }

    /// The root of `x`, halving the path walked. The grouping is unchanged.
    pub fn find(&mut self, x: u32) -> (r: u32)
        requires
            old(self).wf(),
            x < old(self).size(),
        ensures
            final(self).wf(),
            final(self).roots() == old(self).roots(),
            r == old(self).roots()[x as int],
    {
        let mut x: u32 = x;
        let ghost x0 = x as int;
        while self.parent[x as usize] != x
            invariant
                self.wf(),
                self.roots() == old(self).roots(),
                x < self.parent@.len(),
                0 <= x0 < self.parent@.len(),
                self.root@[x as int] == self.root@[x0],
            decreases self.rank@[x as int],
        {
            let p: u32 = self.parent[x as usize];
            let g: u32 = self.parent[p as usize];
            let ghost before = *self;
            proof {
                assert(before.parent@[x as int] == p);
                assert(before.parent@[p as int] == g);
                assert(before.parent@[g as int] < before.parent@.len());
                assert(before.rank@[g as int] <= before.rank@[p as int]);
            }
            self.parent.set(x as usize, g);
            proof {
                assert forall|i: int| 0 <= i < self.parent@.len() implies {
                    &&& (#[trigger] self.parent@[i]) < self.parent@.len()
                    &&& self.root@[self.parent@[i] as int] == self.root@[i]
                    &&& self.parent@[i] != i ==> self.rank@[self.parent@[i] as int] < self.rank@[i]
                    &&& self.parent@[i] == i ==> self.root@[i] == i
                    &&& 0 <= self.root@[i] < self.parent@.len()
                    &&& self.parent@[self.root@[i]] == self.root@[i]
                } by {
                    assert(before.parent@[i] < before.parent@.len());
                    let ri = before.root@[i];
                    assert(before.parent@[ri] == ri);
                    assert(ri != x);
                }
            }
            x = g;
        }
        x
    }

    /// Put the whole group of `drop` under `keep`; both must be roots.
    pub fn link(&mut self, keep: u32, drop: u32)
        requires
            old(self).wf(),
            keep < old(self).size(),
            drop < old(self).size(),
            old(self).roots()[keep as int] == keep,
            old(self).roots()[drop as int] == drop,
        ensures
            final(self).wf(),
            final(self).roots() == regrouped(old(self).roots(), keep as int, drop as int),
    {
        let ghost before = *self;
        self.parent.set(drop as usize, keep);
        let ghost root = regrouped(before.root@, keep as int, drop as int);
        let ghost rank = Seq::new(
            before.rank@.len(),
            |i: int|
                if before.root@[i] == drop && keep != drop {
                    (before.rank@[i] + before.rank@[keep as int] + 1) as nat
                } else {
                    before.rank@[i]
                },
        );
        self.root = Ghost(root);
        self.rank = Ghost(rank);
        proof {
            assert(before.parent@[keep as int] < before.parent@.len());
            assert(before.parent@[drop as int] < before.parent@.len());
            assert(before.parent@[before.root@[keep as int]] == before.root@[keep as int]);
            assert(before.parent@[before.root@[drop as int]] == before.root@[drop as int]);
            assert forall|i: int| 0 <= i < self.parent@.len() implies {
                &&& (#[trigger] self.parent@[i]) < self.parent@.len()
                &&& self.root@[self.parent@[i] as int] == self.root@[i]
                &&& self.parent@[i] != i ==> self.rank@[self.parent@[i] as int] < self.rank@[i]
                &&& self.parent@[i] == i ==> self.root@[i] == i
                &&& 0 <= self.root@[i] < self.parent@.len()
                &&& self.parent@[self.root@[i]] == self.root@[i]
            } by {
                let j = before.parent@[i];
                assert(before.root@[j as int] == before.root@[i]);
            }
        }
    }

    /// Make one group of the groups of `a` and `b`, under the smaller root.
    pub fn join(&mut self, a: u32, b: u32)
        requires
            old(self).wf(),
            a < old(self).size(),
            b < old(self).size(),
        ensures
            final(self).wf(),
            final(self).roots() == joined(old(self).roots(), a as int, b as int),
    {
        let ra: u32 = self.find(a);
        let rb: u32 = self.find(b);
        proof {
            self.lemma_roots(a as int);
            self.lemma_roots(b as int);
        }
        if ra < rb {
            self.link(ra, rb);
        } else if rb < ra {
            self.link(rb, ra);
        }
    }

    /// Number the groups of the selected ids `0, 1, ...` in order of their
    /// first selected id; `none` marks the ids that are not selected.
    pub fn number(&mut self, select: &[bool], none: u32) -> (r: (Vec<u32>, u32))
        requires
            old(self).wf(),
            select@.len() == old(self).size(),
            old(self).size() <= none,
        ensures
            final(self).wf(),
            final(self).roots() == old(self).roots(),
            r.0@.len() == select@.len(),
            r.1 <= select@.len(),
            forall|i: int| 0 <= i < select@.len() ==> (#[trigger] r.0@[i] != none <==> select@[i]),
            forall|i: int, j: int|
                #![trigger r.0@[i], r.0@[j]]
                0 <= i < select@.len() && 0 <= j < select@.len() && select@[i] && select@[j] ==> (
                r.0@[i] == r.0@[j] <==> old(self).roots()[i] == old(self).roots()[j]),
            crate::tally::numbered(r.0@, none, r.1 as nat),
    {
        let n: usize = select.len();
        let mut of_root: Vec<u32> = Vec::with_capacity(n);
        let mut v: usize = 0;
        while v < n
            invariant
                v <= n,
                of_root@.len() == v,
                forall|k: int| 0 <= k < v ==> of_root@[k] == none,
            decreases n - v,
        {
            of_root.push(none);
            v = v + 1;
        }
        let mut ids: Vec<u32> = Vec::with_capacity(n);
        let mut count: u32 = 0;
        let ghost roots = self.roots();
        let ghost mut first: Seq<int> = Seq::empty();
        let mut i: usize = 0;
        while i < n
            invariant
                i <= n,
                n == select@.len(),
                n == roots.len(),
                n <= none,
                self.wf(),
                self.roots() == roots,
                of_root@.len() == n,
                ids@.len() == i,
                count == first.len(),
                count <= i,
                forall|u: int| 0 <= u < i ==> (#[trigger] ids@[u] != none <==> select@[u]),
                forall|u: int|
                    0 <= u < i && #[trigger] ids@[u] != none ==> {
                        &&& ids@[u] < count
                        &&& of_root@[roots[u]] == ids@[u]
                        &&& first[ids@[u] as int] <= u
                    },
                forall|c: int|
                    0 <= c < count ==> 0 <= #[trigger] first[c] < i && ids@[first[c]] == c,
                forall|c: int, d: int|
                    0 <= c < d < count ==> #[trigger] first[c] < #[trigger] first[d],
                forall|w: int|
                    0 <= w < n && #[trigger] of_root@[w] != none ==> of_root@[w] < count && w
                        == roots[first[of_root@[w] as int]],
            decreases n - i,
        {
            let ghost ids0 = ids@;
            if select[i] {
                let root: u32 = self.find(i as u32);
                proof {
                    self.lemma_roots(i as int);
                    assert forall|u: int| 0 <= u < i implies 0 <= #[trigger] roots[u] < n by {
                        self.lemma_roots(u);
                    }
                }
                if of_root[root as usize] == none {
                    of_root.set(root as usize, count);
                    count = count + 1;
                    proof {
                        first = first.push(i as int);
                    }
                }
                let c: u32 = of_root[root as usize];
                ids.push(c);
            } else {
                ids.push(none);
            }
            proof {
                assert forall|u: int| 0 <= u < i implies #[trigger] ids@[u] == ids0[u] by {}
                assert forall|c: int| 0 <= c < count implies 0 <= #[trigger] first[c] < i + 1
                    && ids@[first[c]] == c by {
                    if first[c] < i {
                        assert(ids0[first[c]] == c);
                    }
                }
            }
            i = i + 1;
        }
        proof {
            assert forall|w: int, j: int|
                #![trigger ids@[w], ids@[j]]
                0 <= w < n && 0 <= j < n && select@[w] && select@[j] implies (ids@[w] == ids@[j]
                <==> roots[w] == roots[j]) by {
                self.lemma_roots(w);
                self.lemma_roots(j);
                assert(of_root@[roots[w]] == ids@[w]);
                assert(of_root@[roots[j]] == ids@[j]);
            }
            assert forall|c: u32| c < count && c != none implies #[trigger] ids@.contains(c) by {
                assert(ids@[first[c as int]] == c);
            }
            assert forall|t: int|
                0 <= t < n && #[trigger] ids@[t] != none && ids@[t] > 0 implies ids@.take(
                t,
            ).contains((ids@[t] - 1) as u32) by {
                let c = (ids@[t] - 1) as int;
                assert(first[c] < first[c + 1]);
                assert(ids@.take(t)[first[c]] == c);
            }
        }
        (ids, count)
    }

    /// Moving the group of `b` under the root of `a` keeps every id connected
    /// to its root, where `a` and `b` are connected.
    pub proof fn lemma_link_sound(
        before: Seq<int>,
        r: spec_fn(int, int) -> bool,
        a: int,
        b: int,
    )
        requires
            0 <= a < before.len(),
            0 <= b < before.len(),
            forall|i: int| 0 <= i < before.len() ==> connected(r, i, #[trigger] before[i]),
            connected(r, a, b),
        ensures
            ({
                let after = regrouped(before, before[a], before[b]);
                forall|i: int| 0 <= i < after.len() ==> connected(r, i, #[trigger] after[i])
            }),
    {
        let after = regrouped(before, before[a], before[b]);
        assert forall|i: int| 0 <= i < after.len() implies connected(r, i, #[trigger] after[i]) by {
            assert(connected(r, i, before[i]));
            if before[i] == before[b] {
                assert(connected(r, b, before[b]));
                assert(connected(r, a, before[a]));
                connected_sym(r, b, before[b]);
                connected_sym(r, a, b);
                connected_trans(r, i, before[b], b);
                connected_trans(r, i, b, a);
                connected_trans(r, i, a, before[a]);
            }
        }
    }
}

/// The grouping after the groups of `a` and `b` become one, under the smaller
/// of their two roots.
pub open spec fn joined(roots: Seq<int>, a: int, b: int) -> Seq<int> {
    if roots[a] == roots[b] {
        roots
    } else if roots[a] < roots[b] {
        regrouped(roots, roots[a], roots[b])
    } else {
        regrouped(roots, roots[b], roots[a])
    }
}

/// Joining two connected ids keeps every id connected to its root.
pub proof fn lemma_joined_sound(roots: Seq<int>, r: spec_fn(int, int) -> bool, a: int, b: int)
    requires
        0 <= a < roots.len(),
        0 <= b < roots.len(),
        forall|i: int| 0 <= i < roots.len() ==> connected(r, i, #[trigger] roots[i]),
        connected(r, a, b),
    ensures
        forall|i: int|
            0 <= i < roots.len() ==> connected(r, i, #[trigger] joined(roots, a, b)[i]),
{
    if roots[a] < roots[b] {
        Forest::lemma_link_sound(roots, r, a, b);
    } else if roots[a] > roots[b] {
        connected_sym(r, a, b);
        Forest::lemma_link_sound(roots, r, b, a);
    }
}

/// The grouping after every id under `drop` moves under `keep`.
pub open spec fn regrouped(roots: Seq<int>, keep: int, drop: int) -> Seq<int> {
    Seq::new(roots.len(), |i: int| if roots[i] == drop { keep } else { roots[i] })
}

} // verus!
