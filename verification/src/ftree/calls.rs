//! What callers of the bound queries can count on, call by call.
use crate::bits;
use crate::bits::{BitsBox, INFINITY, NEG_INFINITY};
use crate::bvh as tree;
use crate::bvh::Bvh;
use crate::frustum as bound;
use crate::frustum::{Bound, Cut, Verdict};
use crate::ftree::accel::{Accel, Hierarchy, TreeLevers};
use crate::ftree::collapse as wide;
use crate::ftree::collapse::FTree;
use crate::ftree::quantize;
use crate::ftree::quantize::{Grid, QFNode, Span};
use crate::ftree::query;
use crate::sight;
use vstd::prelude::*;

verus! {

/// Every box on the way may hold something past the start and below the limit.
pub open spec fn in_sight(table: Seq<Verdict>, t_start: u32, t_limit: u32, p: Seq<int>) -> bool {
    forall|k: int|
        0 <= k < p.len() ==> {
            let v = table[#[trigger] p[k]];
            !v.outside && bits::lt(t_start, v.farthest) && bits::lt(v.range, t_limit)
        }
}

/// Some box on the way is no nearer than `d`, or the start is not.
pub open spec fn some_bounds(table: Seq<Verdict>, t_start: u32, p: Seq<int>, d: u32) -> bool {
    exists|k: int|
        0 <= k < p.len() && (bits::le(d, table[#[trigger] p[k]].range) || bits::le(d, t_start))
}

/// A query on the binary hierarchy finds a bound wherever a leaf is in sight,
/// and none that is nearer than the start or not below the limit.
pub proof fn queries_find_what_is_in_sight(
    bvh: &Bvh,
    table: &Vec<Verdict>,
    t_start: u32,
    t_limit: u32,
    roots: &[u32],
    r: Bound,
    i: int,
    p: Seq<int>,
)
    requires
        call_ensures(
            bound::nearest_geometry_distance_within,
            (bvh, table, t_start, t_limit, roots),
            r,
        ),
        bits::lt(t_start, t_limit),
        0 <= i < roots@.len(),
        sight::way_down(bvh.nodes@, p),
        p[0] == roots@[i],
        in_sight(table@, t_start, t_limit, p),
    ensures
        bvh.tri_idx@.len() > 0 ==> r.t is Some && bits::le(t_start, r.t->0) && bits::lt(
            r.t->0,
            t_limit,
        ) && some_bounds(table@, t_start, p, r.t->0),
        bvh.tri_idx@.len() == 0 ==> r.t is None && r.visits == roots@.len(),
{
    if bvh.tri_idx@.len() > 0 {
        sight::a_leaf_in_sight_is_found(
            bvh.nodes@,
            table@,
            t_start,
            t_limit,
            roots@,
            r.t,
            i,
            p,
        );
    }
}

/// Without a limit the query is the same with infinity for one.
pub proof fn unlimited_queries_reach_to_infinity(
    bvh: &Bvh,
    table: &Vec<Verdict>,
    t_start: u32,
    roots: &[u32],
    r: Bound,
    s: Bound,
    i: int,
    p: Seq<int>,
)
    requires
        call_ensures(bound::nearest_geometry_distance, (bvh, table, t_start, roots), r),
        call_ensures(
            bound::nearest_geometry_distance_within,
            (bvh, table, t_start, 0x7f80_0000u32, roots),
            s,
        ),
    ensures
        r.t == s.t && r.visits == s.visits,
        bvh.tri_idx@.len() > 0 && bits::lt(t_start, 0x7f80_0000) && 0 <= i < roots@.len()
            && sight::way_down(bvh.nodes@, p) && p[0] == roots@[i] && in_sight(
            table@,
            t_start,
            0x7f80_0000,
            p,
        ) ==> r.t is Some && bits::le(t_start, r.t->0) && some_bounds(table@, t_start, p, r.t->0),
{
    if bvh.tri_idx@.len() > 0 && bits::lt(t_start, 0x7f80_0000) && 0 <= i < roots@.len()
        && sight::way_down(bvh.nodes@, p) && p[0] == roots@[i] && in_sight(
        table@,
        t_start,
        0x7f80_0000,
        p,
    ) {
        queries_find_what_is_in_sight(bvh, table, t_start, 0x7f80_0000u32, roots, s, i, p);
    }
}

/// What a query finds is the bound of a leaf under one of its roots: the leaf's
/// own, or the start where that is no nearer.
pub proof fn queries_find_nothing_else(
    bvh: &Bvh,
    table: &Vec<Verdict>,
    t_start: u32,
    t_limit: u32,
    roots: &[u32],
    r: Bound,
)
    requires
        tree::links_inside(bvh.nodes@),
        forall|i: int| 0 <= i < roots@.len() ==> (#[trigger] roots@[i]) < bvh.nodes@.len(),
        bound::numbers(t_start, t_limit),
        call_ensures(
            bound::nearest_geometry_distance_within,
            (bvh, table, t_start, t_limit, roots),
            r,
        ),
        r.t is Some,
    ensures
        bits::lt(r.t->0, t_limit),
        exists|i: int, p: Seq<int>|
            0 <= i < roots@.len() && #[trigger] sight::way_down(bvh.nodes@, p) && p[0]
                == #[trigger] roots@[i] && {
                let v = table@[p.last()];
                &&& !v.outside
                &&& !bits::le(v.farthest, t_start)
                &&& r.t->0 == v.range && bits::le(t_start, v.range) || r.t->0 == t_start
                    && !bits::lt(t_start, v.range)
            },
{
    sight::bounds_come_from_a_leaf(bvh.nodes@, table@, t_start, t_limit, roots@, r.t->0);
}

/// Looking at one root more takes up where the others ended: the visits add up,
/// and its bound counts where it is below theirs. A root that cannot help, and
/// a leaf, is one visit.
pub proof fn roots_are_looked_at_in_turn(
    bvh: &Bvh,
    table: &Vec<Verdict>,
    t_start: u32,
    t_limit: u32,
    some: &[u32],
    one: &[u32],
    all: &[u32],
    a: Bound,
    b: Bound,
    c: Bound,
)
    requires
        bvh.tri_idx@.len() > 0,
        bvh.nodes@.len() > 0,
        bound::numbers(t_start, t_limit),
        one@.len() == 1,
        all@ == some@ + one@,
        call_ensures(
            bound::nearest_geometry_distance_within,
            (bvh, table, t_start, t_limit, some),
            a,
        ),
        call_ensures(
            bound::nearest_geometry_distance_within,
            (
                bvh,
                table,
                t_start,
                match a.t {
                    Some(d) => d,
                    None => t_limit,
                },
                one,
            ),
            b,
        ),
        call_ensures(
            bound::nearest_geometry_distance_within,
            (bvh, table, t_start, t_limit, all),
            c,
        ),
    ensures
        c.visits == a.visits + b.visits,
        c.t == match b.t {
            Some(d) => Some(d),
            None => a.t,
        },
        ({
            let v = table@[one@[0] as int];
            v.outside || bits::le(v.farthest, t_start) || bvh.nodes@[one@[0] as int].count != 0
                ==> b.visits == 1
        }),
{
    let n = some@.len() as int;
    let best = match a.t {
        Some(d) => d,
        None => t_limit,
    };
    lemma_prefix(bvh, table@, t_start, t_limit, some@, all@, n);
    lemma_never_farther(bvh, table@, t_start, t_limit, some@, n);
    lemma_search_lowers(bvh, table@, t_start, one@[0] as int, best, bvh.nodes@.len());
    assert(all@[n] == one@[0]);
    assert(bound::search_all(bvh.nodes@, table@, t_start, best, one@, 0) == (best, 0nat));
}

/// An internal root that may help is one visit and those of its two children,
/// the one whose box starts nearer first, the other with what that one found for
/// a limit.
pub proof fn the_near_side_goes_first(
    bvh: &Bvh,
    table: &Vec<Verdict>,
    t_start: u32,
    t_limit: u32,
    root: &[u32],
    near: &[u32],
    far: &[u32],
    a: Bound,
    b: Bound,
    c: Bound,
)
    requires
        bvh.tri_idx@.len() > 0,
        bound::rooted(bvh.nodes@, table@, root@),
        bound::numbers(t_start, t_limit),
        root@.len() == 1 && near@.len() == 1 && far@.len() == 1,
        bvh.nodes@[root@[0] as int].count == 0,
        ({
            let (l, v) = (bvh.nodes@[root@[0] as int].left_first as int, table@[root@[0] as int]);
            &&& !v.outside && bits::lt(t_start, v.farthest) && bits::lt(v.range, t_limit)
                && bits::lt(t_start, t_limit)
            &&& if bits::le(table@[l].nearest, table@[l + 1].nearest) {
                near@[0] == l && far@[0] == l + 1
            } else {
                near@[0] == l + 1 && far@[0] == l
            }
        }),
        call_ensures(
            bound::nearest_geometry_distance_within,
            (bvh, table, t_start, t_limit, near),
            a,
        ),
        call_ensures(
            bound::nearest_geometry_distance_within,
            (
                bvh,
                table,
                t_start,
                match a.t {
                    Some(d) => d,
                    None => t_limit,
                },
                far,
            ),
            b,
        ),
        call_ensures(
            bound::nearest_geometry_distance_within,
            (bvh, table, t_start, t_limit, root),
            c,
        ),
    ensures
        c.visits == 1 + a.visits + b.visits,
        c.t == match b.t {
            Some(d) => Some(d),
            None => a.t,
        },
{
    let nodes = bvh.nodes@;
    let r = root@[0] as int;
    let l = nodes[r].left_first as int;
    let best = match a.t {
        Some(d) => d,
        None => t_limit,
    };
    let full = nodes.len();
    assert(root@[0] < nodes.len() && tree::is_tree(nodes, r));
    assert(tree::is_child(nodes, r, l) && tree::is_child(nodes, r, l + 1));
    tree::lemma_lighter(nodes, r, l);
    tree::lemma_lighter(nodes, r, l + 1);
    tree::lemma_family_finite(nodes, r);
    assert(bound::search_all(nodes, table@, t_start, t_limit, near@, 0) == (t_limit, 0nat));
    assert(bound::search_all(nodes, table@, t_start, best, far@, 0) == (best, 0nat));
    assert(bound::search_all(nodes, table@, t_start, t_limit, root@, 0) == (t_limit, 0nat));
    let (x, y) = (near@[0] as int, far@[0] as int);
    lemma_search_lowers(bvh, table@, t_start, x, t_limit, full);
    lemma_search_lowers(bvh, table@, t_start, y, best, full);
    lemma_deep_enough(bvh, table@, t_start, x, t_limit, full, (full - 1) as nat);
    lemma_deep_enough(bvh, table@, t_start, y, best, full, (full - 1) as nat);
}

/// A search that may go as deep as the tree is the same however much deeper it
/// might go.
proof fn lemma_deep_enough(
    bvh: &Bvh,
    table: Seq<Verdict>,
    t_start: u32,
    b: int,
    best: u32,
    d: nat,
    e: nat,
)
    requires
        tree::links_inside(bvh.nodes@),
        0 <= b < bvh.nodes@.len(),
        tree::is_tree(bvh.nodes@, b),
        d >= tree::weight(bvh.nodes@, b),
        e >= tree::weight(bvh.nodes@, b),
    ensures
        bound::search(bvh.nodes@, table, t_start, b, best, d) == bound::search(
            bvh.nodes@,
            table,
            t_start,
            b,
            best,
            e,
        ),
    decreases d,
{
    let nodes = bvh.nodes@;
    tree::lemma_family_finite(nodes, b);
    if nodes[b].count == 0 && !bound::stops(table[b], t_start, best) {
        let l = nodes[b].left_first as int;
        assert(tree::is_child(nodes, b, l) && tree::is_child(nodes, b, l + 1));
        tree::lemma_lighter(nodes, b, l);
        tree::lemma_lighter(nodes, b, l + 1);
        let (x, y) = if bits::le(table[l].nearest, table[l + 1].nearest) {
            (l, l + 1)
        } else {
            (l + 1, l)
        };
        let (p, q) = ((d - 1) as nat, (e - 1) as nat);
        lemma_deep_enough(bvh, table, t_start, x, best, p, q);
        let mid = bound::search(nodes, table, t_start, x, best, p).0;
        lemma_deep_enough(bvh, table, t_start, y, mid, p, q);
    }
}

/// A search ends with the bound that it started from, or one below it.
proof fn lemma_search_lowers(
    bvh: &Bvh,
    table: Seq<Verdict>,
    t_start: u32,
    b: int,
    best: u32,
    depth: nat,
)
    requires
        bound::numbers(t_start, best),
    ensures
        ({
            let end = bound::search(bvh.nodes@, table, t_start, b, best, depth).0;
            end == best || bits::lt(end, best)
        }),
    decreases depth,
{
    if depth > 0 && !bound::stops(table[b], t_start, best) && bvh.nodes@[b].count == 0 {
        let l = bvh.nodes@[b].left_first as int;
        let near_left = bits::le(table[l].nearest, table[l + 1].nearest);
        let (x, y) = if near_left {
            (l, l + 1)
        } else {
            (l + 1, l)
        };
        let less = (depth - 1) as nat;
        lemma_search_lowers(bvh, table, t_start, x, best, less);
        let mid = bound::search(bvh.nodes@, table, t_start, x, best, less).0;
        lemma_search_lowers(bvh, table, t_start, y, mid, less);
    }
}

proof fn lemma_never_farther(
    bvh: &Bvh,
    table: Seq<Verdict>,
    t_start: u32,
    t_limit: u32,
    roots: Seq<u32>,
    n: int,
)
    requires
        bound::numbers(t_start, t_limit),
    ensures
        ({
            let end = bound::search_all(bvh.nodes@, table, t_start, t_limit, roots, n).0;
            end == t_limit || bits::lt(end, t_limit)
        }),
    decreases n,
{
    if n > 0 {
        lemma_never_farther(bvh, table, t_start, t_limit, roots, n - 1);
        let so_far = bound::search_all(bvh.nodes@, table, t_start, t_limit, roots, n - 1).0;
        lemma_search_lowers(bvh, table, t_start, roots[n - 1] as int, so_far, bvh.nodes@.len());
    }
}

proof fn lemma_prefix(
    bvh: &Bvh,
    table: Seq<Verdict>,
    t_start: u32,
    t_limit: u32,
    some: Seq<u32>,
    all: Seq<u32>,
    n: int,
)
    requires
        0 <= n <= some.len() <= all.len(),
        forall|i: int| 0 <= i < some.len() ==> some[i] == all[i],
    ensures
        bound::search_all(bvh.nodes@, table, t_start, t_limit, some, n) == bound::search_all(
            bvh.nodes@,
            table,
            t_start,
            t_limit,
            all,
            n,
        ),
    decreases n,
{
    if n > 0 {
        lemma_prefix(bvh, table, t_start, t_limit, some, all, n - 1);
    }
}

/// A box cannot be hit where it lies outside, wholly inside the ball, or past a
/// finite reach.
pub proof fn hits_are_ruled_out(v: &Verdict, t_ball: u32, t_far: u32, r: bool)
    requires
        call_ensures(bound::cannot_hit, (v, t_ball, t_far), r),
    ensures
        r <==> v.outside || bits::le(v.farthest, t_ball) || (bits::lt(NEG_INFINITY, t_far)
            && bits::lt(t_far, INFINITY) && bits::le(t_far, v.nearest)),
{
}

/// A refined cut of the binary hierarchy keeps to its budget, holds an entry on
/// every way down that may be hit, holds nothing that cannot be hit, and nothing
/// but leaves where the budget sufficed.
pub proof fn refined_cuts_lose_nothing(
    bvh: &Bvh,
    table: &Vec<Verdict>,
    t_ball: u32,
    t_far: u32,
    from: &[u32],
    budget: u32,
    cut: Cut,
    i: int,
    j: int,
    p: Seq<int>,
)
    requires
        call_ensures(bound::refine_cut, (bvh, table, t_ball, t_far, from, budget), cut),
        bvh.tri_idx@.len() > 0,
    ensures
        cut.entries@.len() <= budget,
        0 <= i < from@.len() && sight::way_down(bvh.nodes@, p) && p[0] == from@[i] && (forall|k: int|
            0 <= k < p.len() ==> sight::may_be_hit(table@[#[trigger] p[k]], t_ball, t_far))
            ==> exists|k: int, e: int|
            0 <= k < p.len() && 0 <= e < cut.entries@.len() && #[trigger] p[k]
                == #[trigger] cut.entries@[e],
        0 <= j < cut.entries@.len() ==> {
            &&& sight::may_be_hit(table@[cut.entries@[j] as int], t_ball, t_far)
            &&& cut.overflows == 0 ==> bvh.nodes@[cut.entries@[j] as int].count != 0
        },
{
    if 0 <= i < from@.len() && sight::way_down(bvh.nodes@, p) && p[0] == from@[i] && (forall|k: int|
        0 <= k < p.len() ==> sight::may_be_hit(table@[#[trigger] p[k]], t_ball, t_far)) {
        sight::cuts_keep_what_may_be_hit(
            bvh.nodes@,
            table@,
            t_ball,
            t_far,
            from@[i],
            cut.entries@,
            p,
        );
    }
    if 0 <= j < cut.entries@.len() {
        sight::cuts_hold_nothing_else(
            bvh.nodes@,
            table@,
            t_ball,
            t_far,
            from@,
            cut.entries@,
            cut.overflows as nat,
            j,
        );
    }
}

/// How two refinements of the binary hierarchy relate: the last entry of a cut
/// is looked at first. It is left out where it cannot be hit, makes way for its
/// two children where the budget has room, and else heads the cut.
pub proof fn refinements_go_entry_by_entry(
    bvh: &Bvh,
    table: &Vec<Verdict>,
    t_ball: u32,
    t_far: u32,
    from: &[u32],
    less: &[u32],
    budget: u32,
    e: u32,
    a: Cut,
    b: Cut,
)
    requires
        bvh.tri_idx@.len() > 0,
        tree::links_inside(bvh.nodes@),
        bvh.nodes@.len() <= u32::MAX,
        e < bvh.nodes@.len(),
        from@.len() > 0,
        from@.last() == e,
        call_ensures(bound::refine_cut, (bvh, table, t_ball, t_far, from, budget), a),
        call_ensures(bound::refine_cut, (bvh, table, t_ball, t_far, less, budget), b),
    ensures
        ({
            let s = from@.drop_last();
            let l = bvh.nodes@[e as int].left_first;
            let hit = sight::may_be_hit(table@[e as int], t_ball, t_far);
            let split = bvh.nodes@[e as int].count == 0 && s.len() + 2 <= budget;
            &&& !hit && less@ == s || hit && split && less@ == s.push(l).push((l + 1) as u32) ==> {
                a.entries@ == b.entries@ && a.overflows == b.overflows && a.visits == b.visits + 1
            }
            &&& hit && !split ==> a.entries@.len() > 0 && a.entries@[0] == e && (a.overflows > 0
                <== bvh.nodes@[e as int].count == 0)
        }),
{
    let s = from@.drop_last();
    assert(from@ =~= s.push(e));
    sight::cuts_split_what_may_be_hit(
        bvh.nodes@,
        table@,
        t_ball,
        t_far,
        budget as nat,
        s,
        e,
        a,
        b,
    );
}

/// The wide tree's queries find the same: a leaf in sight behind one of the
/// slots bounds them.
pub proof fn wide_queries_find_what_is_in_sight(
    ft: &FTree,
    table: &Vec<Verdict>,
    t_start: u32,
    t_limit: u32,
    cut: &[u32],
    r: Bound,
    i: int,
    p: Seq<int>,
)
    requires
        call_ensures(FTree::nearest_within, (ft, table, t_start, t_limit, cut), r),
        bits::lt(t_start, t_limit),
        0 <= i < cut@.len(),
        sight::way_down(ft.over@, p),
        p[0] == ft.nodes@[cut@[i] as int / 8].slots@[cut@[i] as int % 8].bnode,
        in_sight(table@, t_start, t_limit, p),
    ensures
        r.t is Some && bits::le(t_start, r.t->0) && bits::lt(r.t->0, t_limit) && some_bounds(
            table@,
            t_start,
            p,
            r.t->0,
        ),
{
    assert(query::bnodes(*ft, cut@)[i] == p[0]);
    sight::a_leaf_in_sight_is_found(
        ft.over@,
        table@,
        t_start,
        t_limit,
        query::bnodes(*ft, cut@),
        r.t,
        i,
        p,
    );
}

/// What a wide query finds is the bound of a leaf behind one of its slots.
pub proof fn wide_queries_find_nothing_else(
    ft: &FTree,
    table: &Vec<Verdict>,
    t_start: u32,
    t_limit: u32,
    cut: &[u32],
    r: Bound,
)
    requires
        ft.wf(),
        query::is_cut(*ft, cut@),
        tree::links_inside(ft.over@),
        bound::numbers(t_start, t_limit),
        call_ensures(FTree::nearest_within, (ft, table, t_start, t_limit, cut), r),
        r.t is Some,
    ensures
        bits::lt(r.t->0, t_limit),
        exists|i: int, p: Seq<int>|
            0 <= i < cut@.len() && #[trigger] sight::way_down(ft.over@, p) && p[0]
                == ft.nodes@[(#[trigger] cut@[i]) as int / 8].slots@[cut@[i] as int % 8].bnode && {
                let v = table@[p.last()];
                &&& !v.outside
                &&& !bits::le(v.farthest, t_start)
                &&& r.t->0 == v.range && bits::le(t_start, v.range) || r.t->0 == t_start
                    && !bits::lt(t_start, v.range)
            },
{
    let roots = query::bnodes(*ft, cut@);
    assert forall|i: int| 0 <= i < roots.len() implies (#[trigger] roots[i]) < ft.over@.len() by {
        query::slots_are_binary_nodes(*ft, cut@[i]);
    }
    sight::bounds_come_from_a_leaf(ft.over@, table@, t_start, t_limit, roots, r.t->0);
    let (i, p) = choose|i: int, p: Seq<int>|
        0 <= i < roots.len() && #[trigger] sight::way_down(ft.over@, p) && p[0]
            == #[trigger] roots[i] && {
            let v = table@[p.last()];
            &&& !v.outside
            &&& !bits::le(v.farthest, t_start)
            &&& r.t->0 == v.range && bits::le(t_start, v.range) || r.t->0 == t_start && !bits::lt(
                t_start,
                v.range,
            )
        };
    assert(cut@[i] as int / 8 == (cut@[i] / 8) as int);
    assert(roots[i] == ft.nodes@[cut@[i] as int / 8].slots@[cut@[i] as int % 8].bnode);
}

/// A wide cut is refined in the same way: every way down that may be hit goes
/// through the binary node behind one of its entries, and no entry is one that
/// cannot be hit.
pub proof fn wide_cuts_lose_nothing(
    ft: &FTree,
    table: &Vec<Verdict>,
    t_ball: u32,
    t_far: u32,
    from: &[u32],
    budget: u32,
    cut: Cut,
    i: int,
    j: int,
    p: Seq<int>,
)
    requires
        call_ensures(FTree::refine_cut, (ft, table, t_ball, t_far, from, budget), cut),
    ensures
        cut.entries@.len() <= budget,
        0 <= i < from@.len() && sight::way_down(ft.over@, p) && p[0]
            == ft.nodes@[from@[i] as int / 8].slots@[from@[i] as int % 8].bnode && (forall|k: int|
            0 <= k < p.len() ==> sight::may_be_hit(table@[#[trigger] p[k]], t_ball, t_far))
            ==> exists|k: int, e: int|
            0 <= k < p.len() && 0 <= e < cut.entries@.len() && #[trigger] p[k]
                == ft.nodes@[(#[trigger] cut.entries@[e]) as int / 8].slots@[cut.entries@[e] as int
                % 8].bnode,
        0 <= j < cut.entries@.len() ==> {
            let b = ft.nodes@[cut.entries@[j] as int / 8].slots@[cut.entries@[j] as int % 8].bnode;
            &&& sight::may_be_hit(table@[b as int], t_ball, t_far)
            &&& cut.overflows == 0 ==> ft.over@[b as int].count != 0
        },
{
    let out = query::bnodes(*ft, cut.entries@);
    if 0 <= i < from@.len() && sight::way_down(ft.over@, p) && p[0]
        == ft.nodes@[from@[i] as int / 8].slots@[from@[i] as int % 8].bnode && (forall|k: int|
        0 <= k < p.len() ==> sight::may_be_hit(table@[#[trigger] p[k]], t_ball, t_far)) {
        let root = query::bnodes(*ft, from@)[i];
        assert(root == p[0]);
        sight::cuts_keep_what_may_be_hit(ft.over@, table@, t_ball, t_far, root, out, p);
        let (k, e) = choose|k: int, e: int|
            0 <= k < p.len() && 0 <= e < out.len() && #[trigger] p[k] == #[trigger] out[e];
        assert(out[e] == ft.nodes@[cut.entries@[e] as int / 8].slots@[cut.entries@[e] as int
            % 8].bnode);
    }
    if 0 <= j < cut.entries@.len() {
        sight::cuts_hold_nothing_else(
            ft.over@,
            table@,
            t_ball,
            t_far,
            query::bnodes(*ft, from@),
            out,
            cut.overflows as nat,
            j,
        );
        assert(out[j] == ft.nodes@[cut.entries@[j] as int / 8].slots@[cut.entries@[j] as int
            % 8].bnode);
    }
}

/// The box, the binary nodes and the flat map of the wide tree are those of its
/// slots; a place without one is marked.
pub proof fn slots_are_told_by_number(
    ft: &FTree,
    e: u32,
    b: BitsBox,
    cut: &[u32],
    limit: usize,
    roots: Vec<u32>,
    flat: Vec<u32>,
    at: usize,
    one: u32,
    i: int,
)
    requires
        ft.wf(),
        query::is_entry(*ft, e),
        call_ensures(FTree::slot_aabb, (ft, e), b),
        call_ensures(FTree::to_bvh_roots, (ft, cut, limit), roots),
        call_ensures(FTree::bnode_flat, (ft,), flat),
        call_ensures(FTree::bnode_at, (ft, at), one),
        at < flat@.len(),
    ensures
        b == ft.nodes@[e as int / 8].slots@[e as int % 8].aabb,
        roots@.len() == if cut@.len() < limit { cut@.len() as int } else { limit as int },
        0 <= i < roots@.len() ==> roots@[i] == ft.nodes@[cut@[i] as int / 8].slots@[cut@[i] as int
            % 8].bnode,
        flat@.len() == 8 * ft.nodes@.len(),
        one == flat@[at as int],
        ({
            let slots = ft.nodes@[at as int / 8].slots@;
            let s = at as int % 8;
            one == if s < slots.len() { slots[s].bnode } else { u32::MAX }
        }),
{
    query::slots_are_binary_nodes(*ft, e);
    assert((e / 8) as int == e as int / 8);
    if 0 <= i < roots@.len() {
        assert((cut@[i] / 8) as int == cut@[i] as int / 8);
    }
}

/// Slot `s` of wide node `w` goes by the number `8 w + s`.
pub proof fn slots_are_numbered_in_eights(node: u32, slot: usize, e: u32)
    requires
        slot < 8,
        call_ensures(wide::entry, (node, slot), e),
    ensures
        e == 8 * node + slot,
        e / 8 == node && e % 8 == slot,
{
}

/// The sizes of the two upload forms, a node at a time.
pub proof fn trees_are_so_large(ft: &FTree, full: usize, packed: usize, cut: &[u32])
    requires
        call_ensures(FTree::bytes, (ft,), full),
        call_ensures(FTree::quantized_bytes, (ft,), packed),
        call_ensures(FTree::root_cut, (ft,), cut),
    ensures
        full == 256 * ft.nodes@.len(),
        packed == 112 * ft.nodes@.len(),
        cut@ == ft.root_cut@,
{
    assert(full == wide::FNODE_BYTES * ft.nodes@.len());
}

/// A wide tree is built over the hierarchy: its slots part it as far as eight
/// places go, and it is no deeper than the traversal stack. An empty hierarchy
/// always gives a tree.
pub proof fn trees_part_their_hierarchy(
    bvh: &Bvh,
    areas: &Vec<u32>,
    r: Result<FTree, usize>,
    w: int,
    i: int,
)
    requires
        call_ensures(FTree::build, (bvh, areas), r),
    ensures
        bvh.tri_idx@.len() == 0 ==> r is Ok,
        r matches Ok(ft) ==> ft.over@ == bvh.nodes@ && ft.levels() <= 32,
        r matches Ok(ft) ==> bvh.tri_idx@.len() > 0 && 0 <= w < ft.nodes@.len() && 0 <= i
            < ft.nodes@[w].slots@.len() ==> {
            let slots = ft.nodes@[w].slots@;
            let s = slots[i];
            &&& 1 <= slots.len() <= 8
            &&& s.bnode < bvh.nodes@.len()
            &&& s.aabb == bvh.nodes@[s.bnode as int].aabb
            &&& s.child == u32::MAX <==> bvh.nodes@[s.bnode as int].count != 0
            &&& ft.root_cut@.len() == ft.nodes@[0].slots@.len()
        },
        r matches Err(d) ==> d > 32,
{
    if let Ok(ft) = r {
        if bvh.tri_idx@.len() > 0 && 0 <= w < ft.nodes@.len() && 0 <= i < ft.nodes@[w].slots@.len() {
            wide::slots_part_the_hierarchy(bvh.nodes@, areas@, ft, w);
        }
    }
}

/// Two trees built over one hierarchy hold the same slots.
pub proof fn trees_are_built_alike(
    bvh: &Bvh,
    areas: &Vec<u32>,
    a: FTree,
    b: FTree,
)
    requires
        bvh.tri_idx@.len() > 0,
        call_ensures(FTree::build, (bvh, areas), Ok(a)),
        call_ensures(FTree::build, (bvh, areas), Ok(b)),
    ensures
        a.nodes@.len() == b.nodes@.len(),
        a.root_cut@ == b.root_cut@,
        wide::same_nodes(a, b, 0, a.nodes@.len() as int),
{
    wide::collapse_is_deterministic(bvh.nodes@, areas@, a, b);
}

/// The dispatch handle takes the wide tree where the levers ask for it and it is
/// there; a tile's only where tiles are asked for too. Its first cut is the
/// binary root, or the wide root's slots.
pub proof fn handles_follow_the_levers<'a>(
    h: &'a Hierarchy,
    levers: &TreeLevers,
    a: Accel<'a>,
    t: Accel<'a>,
    cut: Vec<u32>,
)
    requires
        call_ensures(Accel::of, (h, levers), a),
        call_ensures(Accel::for_tiles, (h, levers), t),
        call_ensures(Accel::root_cut, (&a,), cut),
    ensures
        *a.bvh == h.bvh && *t.bvh == h.bvh,
        levers.ftree_enabled && h.ftree is Some ==> a.ft is Some && Some(*a.ft->0) == h.ftree,
        !levers.ftree_enabled || h.ftree is None ==> a.ft is None,
        levers.ftree_enabled && levers.ftree_tiles && h.ftree is Some ==> t.ft is Some && Some(
            *t.ft->0,
        ) == h.ftree,
        !levers.ftree_enabled || !levers.ftree_tiles || h.ftree is None ==> t.ft is None,
        a.ft is None ==> cut@ == seq![0u32],
        a.ft matches Some(ft) ==> cut@ == ft.root_cut@,
{
}

/// Through the handle a leaf in sight is found, whichever tree answers.
pub proof fn handles_find_what_is_in_sight<'a>(
    a: &Accel<'a>,
    table: &Vec<Verdict>,
    t_start: u32,
    t_limit: u32,
    cut: &[u32],
    r: Bound,
    i: int,
    p: Seq<int>,
)
    requires
        call_ensures(Accel::nearest_within, (a, table, t_start, t_limit, cut), r),
        bits::lt(t_start, t_limit),
        0 <= i < cut@.len(),
        sight::way_down(a.bvh.nodes@, p),
        p[0] == match a.ft {
            Some(ft) => ft.nodes@[cut@[i] as int / 8].slots@[cut@[i] as int % 8].bnode,
            None => cut@[i],
        },
        in_sight(table@, t_start, t_limit, p),
    ensures
        a.bvh.tri_idx@.len() > 0 ==> r.t is Some && bits::le(t_start, r.t->0) && bits::lt(
            r.t->0,
            t_limit,
        ) && some_bounds(table@, t_start, p, r.t->0),
        a.bvh.tri_idx@.len() == 0 ==> r.t is None,
{
    if a.bvh.tri_idx@.len() > 0 {
        crate::ftree::accel::cuts_name_binary_nodes(*a, cut@, i);
        sight::a_leaf_in_sight_is_found(
            a.bvh.nodes@,
            table@,
            t_start,
            t_limit,
            a.seeds(cut@),
            r.t,
            i,
            p,
        );
    }
}

/// Through the handle a refined cut loses nothing that may be hit, and rays start
/// at the binary nodes behind it, as many as the limit allows on the wide tree.
pub proof fn handles_refine_and_seed<'a>(
    a: &Accel<'a>,
    table: &Vec<Verdict>,
    t_ball: u32,
    t_far: u32,
    from: &[u32],
    budget: u32,
    cut: Cut,
    limit: usize,
    roots: Vec<u32>,
    j: int,
)
    requires
        call_ensures(Accel::refine_cut, (a, table, t_ball, t_far, from, budget), cut),
        call_ensures(Accel::ray_roots, (a, from, limit), roots),
    ensures
        cut.entries@.len() <= budget,
        a.bvh.tri_idx@.len() == 0 ==> cut.entries@.len() == 0,
        a.bvh.tri_idx@.len() > 0 && 0 <= j < cut.entries@.len() ==> {
            let b = match a.ft {
                Some(ft) => ft.nodes@[cut.entries@[j] as int / 8].slots@[cut.entries@[j] as int
                    % 8].bnode,
                None => cut.entries@[j],
            };
            sight::may_be_hit(table@[b as int], t_ball, t_far)
        },
        a.ft is None ==> roots@ == from@,
        a.ft matches Some(ft) ==> roots@.len() == (if from@.len() < limit {
            from@.len() as int
        } else {
            limit as int
        }) && (0 <= j < roots@.len() ==> roots@[j] == ft.nodes@[from@[j] as int
            / 8].slots@[from@[j] as int % 8].bnode),
{
    if a.bvh.tri_idx@.len() > 0 && 0 <= j < cut.entries@.len() {
        crate::ftree::accel::cuts_name_binary_nodes(*a, cut.entries@, j);
        sight::cuts_hold_nothing_else(
            a.bvh.nodes@,
            table@,
            t_ball,
            t_far,
            a.seeds(from@),
            a.seeds(cut.entries@),
            cut.overflows as nat,
            j,
        );
    }
    if 0 <= j < roots@.len() && j < from@.len() {
        crate::ftree::accel::cuts_name_binary_nodes(*a, from@, j);
    }
}

/// Installing builds the tree once: one that is there stays, and with the lever
/// off nothing is built.
pub proof fn trees_are_installed_once(
    h: &mut Hierarchy,
    areas: &Vec<u32>,
    levers: &TreeLevers,
    r: Result<(), usize>,
)
    requires
        call_ensures(Hierarchy::install, (h, areas, levers), r),
    ensures
        final(h).bvh == old(h).bvh,
        old(h).ftree is Some || !levers.ftree_enabled ==> r is Ok && final(h).ftree == old(h).ftree,
        old(h).ftree is None && levers.ftree_enabled ==> (r is Ok <==> final(h).ftree is Some),
        old(h).ftree is None && final(h).ftree is Some ==> final(h).ftree->0.over@
            == old(h).bvh.nodes@,
{
}

/// The next number up, and nothing between.
pub proof fn bumps_are_the_least(x: u32, r: u32, y: u32)
    requires
        x < 0x7f80_0000,
        call_ensures(quantize::bump_up, (x,), r),
    ensures
        bits::lt(x, r),
        bits::lt(x, y) ==> bits::le(r, y),
{
}

/// A frame is as wide as its node's slots and no wider.
pub proof fn frames_are_those_of_the_slots(ft: &FTree, i: usize, axis: usize, span: Span)
    requires
        axis < 3,
        ft.nodes@[i as int].slots@.len() > 0,
        call_ensures(FTree::frame, (ft, i, axis), span),
        forall|k: int|
            0 <= k < ft.nodes@[i as int].slots@.len() ==> bits::lt(
                quantize::low((#[trigger] ft.nodes@[i as int].slots@[k]).aabb, axis as int),
                INFINITY,
            ) && bits::lt(
                NEG_INFINITY,
                quantize::high(ft.nodes@[i as int].slots@[k].aabb, axis as int),
            ),
    ensures
        forall|k: int|
            0 <= k < ft.nodes@[i as int].slots@.len() ==> {
                let b = (#[trigger] ft.nodes@[i as int].slots@[k]).aabb;
                &&& axis == 0 ==> bits::le(span.org, b.lo.x) && bits::le(b.hi.x, span.top)
                &&& axis == 1 ==> bits::le(span.org, b.lo.y) && bits::le(b.hi.y, span.top)
                &&& axis == 2 ==> bits::le(span.org, b.lo.z) && bits::le(b.hi.z, span.top)
            },
        exists|k: int|
            0 <= k < ft.nodes@[i as int].slots@.len() && {
                let b = (#[trigger] ft.nodes@[i as int].slots@[k]).aabb;
                &&& axis == 0 ==> b.lo.x == span.org
                &&& axis == 1 ==> b.lo.y == span.org
                &&& axis == 2 ==> b.lo.z == span.org
            },
        exists|k: int|
            0 <= k < ft.nodes@[i as int].slots@.len() && {
                let b = (#[trigger] ft.nodes@[i as int].slots@[k]).aabb;
                &&& axis == 0 ==> b.hi.x == span.top
                &&& axis == 1 ==> b.hi.y == span.top
                &&& axis == 2 ==> b.hi.z == span.top
            },
{
    quantize::frames_fit_their_slots(ft.nodes@[i as int].slots@, axis as int, span);
}

/// A node's upload tells of its slots, place by place, and marks the rest free.
pub proof fn uploads_tell_of_their_slots(
    ft: &FTree,
    i: usize,
    grids: &Vec<Grid>,
    q: QFNode,
    s: u32,
)
    requires
        ft.nodes@[i as int].slots@.len() <= 8,
        s < 8,
        call_ensures(FTree::quantize_node, (ft, i, grids), q),
    ensures
        ({
            let slots = ft.nodes@[i as int].slots@;
            &&& s < slots.len() ==> q.child@[s as int] == slots[s as int].child && q.occ & (1u32
                << s) != 0
            &&& s >= slots.len() ==> q.child@[s as int] == u32::MAX && q.occ & (1u32 << s) == 0
        }),
{
    quantize::places_tell_of_their_slots(ft.nodes@[i as int].slots@, grids@, q, 0, s);
}

/// A face is rounded outward from its guess: a lower one walks down to the first
/// step that does not lie past it, an upper one up.
pub proof fn faces_round_outward(
    grid: &Grid,
    guess: u8,
    v: u32,
    lo: u8,
    hi: u8,
    k: int,
)
    requires
        call_ensures(quantize::quantize_min, (grid, guess, v), lo),
        call_ensures(quantize::quantize_max, (grid, guess, v), hi),
    ensures
        grid.step == 0 ==> lo == 0 && hi == 0,
        grid.step != 0 ==> {
            &&& lo <= guess <= hi
            &&& lo == 0 || !bits::lt(v, grid.decoded@[lo as int])
            &&& hi == 255 || !bits::lt(grid.decoded@[hi as int], v)
            &&& lo < k <= guess ==> bits::lt(v, grid.decoded@[k])
            &&& guess <= k < hi ==> bits::lt(grid.decoded@[k], v)
        },
{
}

/// Every node is uploaded in its own place, as it is on its own; and the depth is
/// one more than that of the deepest node below the root.
pub proof fn nodes_are_uploaded_in_order(
    ft: &FTree,
    grids: &Vec<Vec<Grid>>,
    all: Vec<QFNode>,
    d: usize,
    i: int,
    s: u32,
    k: int,
)
    requires
        call_ensures(FTree::quantized, (ft, grids), all),
        call_ensures(FTree::max_depth, (ft,), d),
        0 <= i < ft.nodes@.len(),
        ft.nodes@[i].slots@.len() <= 8,
        s < 8,
    ensures
        all@.len() == ft.nodes@.len(),
        s < ft.nodes@[i].slots@.len() ==> all@[i].child@[s as int]
            == ft.nodes@[i].slots@[s as int].child && all@[i].occ & (1u32 << s) != 0,
        s >= ft.nodes@[i].slots@.len() ==> all@[i].child@[s as int] == u32::MAX && all@[i].occ & (
        1u32 << s) == 0,
        ft.root_cut@.len() == 0 ==> d == 0,
        ft.root_cut@.len() > 0 && wide::grows(ft.nodes@) ==> d >= 1 && (0 <= k
            < ft.nodes@[0].slots@.len() && ft.nodes@[0].slots@[k].child != u32::MAX ==> wide::depth(
            ft.nodes@,
            ft.nodes@[0].slots@[k].child as int,
        ) < d),
{
    quantize::places_tell_of_their_slots(ft.nodes@[i].slots@, grids@[i]@, all@[i], 0, s);
    if wide::grows(ft.nodes@) {
        wide::depth_is_that_of_the_deepest_child(ft.nodes@, 0);
    }
}

} // verus!
