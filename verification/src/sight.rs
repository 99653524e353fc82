//! What bound queries and cuts promise, said of the boxes and the links of the
//! hierarchy themselves.
use crate::bits;
use crate::bvh as tree;
use crate::bvh::BvhNode;
use crate::frustum as bound;
use crate::frustum::{Cut, Rule, Verdict};
use crate::ftree::collapse::FTree;
use crate::ftree::query;
use vstd::prelude::*;

verus! {

/// `p` goes from node to child and ends in a leaf.
pub open spec fn way_down(nodes: Seq<BvhNode>, p: Seq<int>) -> bool {
    &&& p.len() > 0
    &&& forall|k: int| 0 <= k < p.len() ==> 0 <= #[trigger] p[k] < nodes.len()
    &&& forall|k: int|
        0 <= k < p.len() - 1 ==> nodes[#[trigger] p[k]].count == 0 && (p[k + 1]
            == nodes[p[k]].left_first || p[k + 1] == nodes[p[k]].left_first + 1)
    &&& nodes[p.last()].count != 0
}

proof fn lemma_way_down(nodes: Seq<BvhNode>, p: Seq<int>)
    requires
        way_down(nodes, p),
    ensures
        tree::to_leaf(nodes, p[0], p),
{
    assert forall|k: int| 0 <= k < p.len() - 1 implies #[trigger] tree::descends(nodes, p, k) by {
        assert(nodes[p[k]].count == 0);
    }
}

/// The bound that a box gives is the farther of the box's own and the start:
/// one of the two, and no nearer than either. A box that knows none gives the
/// start.
pub proof fn a_box_bounds_by_the_farther(v: Verdict, t_start: u32)
    requires
        !bits::is_nan(t_start),
    ensures
        bits::is_nan(v.range) ==> bound::key(v, t_start) == t_start,
        !bits::is_nan(v.range) ==> {
            &&& bound::key(v, t_start) == v.range || bound::key(v, t_start) == t_start
            &&& bits::le(v.range, bound::key(v, t_start))
            &&& bits::le(t_start, bound::key(v, t_start))
        },
{
}

/// A leaf in sight is never lost: where nothing on the way down to it lies
/// outside, is behind the start, or begins past the limit, the query finds a
/// bound, and one that is no farther than what some box on the way gives.
pub proof fn a_leaf_in_sight_is_found(
    nodes: Seq<BvhNode>,
    table: Seq<Verdict>,
    t_start: u32,
    t_limit: u32,
    roots: Seq<u32>,
    t: Option<u32>,
    i: int,
    p: Seq<int>,
)
    requires
        bound::found(nodes, table, t_start, t_limit, roots, t),
        bits::lt(t_start, t_limit),
        0 <= i < roots.len(),
        way_down(nodes, p),
        p[0] == roots[i],
        forall|k: int|
            0 <= k < p.len() ==> {
                let v = table[#[trigger] p[k]];
                !v.outside && bits::lt(t_start, v.farthest) && bits::lt(v.range, t_limit)
            },
    ensures
        t matches Some(d) && bits::le(t_start, d) && bits::lt(d, t_limit) && exists|k: int|
            0 <= k < p.len() && (bits::le(d, table[#[trigger] p[k]].range) || bits::le(d, t_start)),
{
    lemma_way_down(nodes, p);
    let best = match t {
        Some(d) => d,
        None => t_limit,
    };
    assert(bound::all_blocked(nodes, table, t_start, roots[i] as int, best));
    assert(bound::blocked(table, t_start, best, p));
    let k = choose|k: int|
        0 <= k < p.len() && bound::stops(table[#[trigger] p[k]], t_start, best);
    assert(0 <= p[k] < nodes.len());
    assert(bits::le(best, table[p[k]].range) || bits::le(best, t_start));
}

/// No bound is made up: what a query finds is what a leaf under one of its
/// roots gives that is neither outside nor behind the start, the farther of its
/// box's own bound and the start.
pub proof fn bounds_come_from_a_leaf(
    nodes: Seq<BvhNode>,
    table: Seq<Verdict>,
    t_start: u32,
    t_limit: u32,
    roots: Seq<u32>,
    d: u32,
)
    requires
        tree::links_inside(nodes),
        forall|i: int| 0 <= i < roots.len() ==> (#[trigger] roots[i]) < nodes.len(),
        !bits::is_nan(t_start),
        bound::found(nodes, table, t_start, t_limit, roots, Some(d)),
    ensures
        bits::lt(d, t_limit),
        exists|i: int, p: Seq<int>|
            0 <= i < roots.len() && #[trigger] way_down(nodes, p) && p[0] == #[trigger] roots[i] && {
                let v = table[p.last()];
                &&& !v.outside
                &&& !bits::le(v.farthest, t_start)
                &&& d == v.range && bits::le(t_start, v.range) || d == t_start && !bits::lt(
                    t_start,
                    v.range,
                )
            },
{
    let i = choose|i: int|
        0 <= i < roots.len() && bound::attained(
            nodes,
            table,
            t_start,
            #[trigger] roots[i] as int,
            d,
        );
    let b = roots[i] as int;
    let l = choose|l: int| #[trigger]
        tree::under(nodes, b, l) && nodes[l].count != 0 && !bound::dropped(table[l], t_start)
            && bound::key(table[l], t_start) == d;
    let p = choose|p: Seq<int>| #[trigger] tree::leads_to(nodes, b, p, l);
    assert(way_down(nodes, p)) by {
        assert forall|k: int| 0 <= k < p.len() - 1 implies nodes[#[trigger] p[k]].count == 0 && (
        p[k + 1] == nodes[p[k]].left_first || p[k + 1] == nodes[p[k]].left_first + 1) && 0 <= p[k]
            < nodes.len() by {
            assert(tree::descends(nodes, p, k));
        }
        assert forall|k: int| 0 <= k < p.len() implies 0 <= #[trigger] p[k] < nodes.len() by {
            if k > 0 {
                assert(tree::descends(nodes, p, k - 1));
            }
        }
    }
    assert(roots[i] == p[0]);
}

/// On nested boxes the bound is the least that any leaf in sight gives.
pub proof fn the_nearest_leaf_bounds(
    nodes: Seq<BvhNode>,
    table: Seq<Verdict>,
    t_start: u32,
    t_limit: u32,
    roots: Seq<u32>,
    t: Option<u32>,
    i: int,
    p: Seq<int>,
)
    requires
        tree::links_inside(nodes),
        forall|k: int|
            #![trigger table[p[k]]]
            0 <= k < p.len() - 1 ==> {
                &&& table[p[k]].outside ==> table[p[k + 1]].outside
                &&& bits::le(table[p[k + 1]].farthest, table[p[k]].farthest)
                &&& bits::le(table[p[k]].range, table[p[k + 1]].range)
            },
        bound::found(nodes, table, t_start, t_limit, roots, t),
        bits::lt(t_start, t_limit),
        0 <= i < roots.len(),
        way_down(nodes, p),
        p[0] == roots[i],
        !table[p.last()].outside,
        bits::lt(t_start, table[p.last()].farthest),
        bits::lt(table[p.last()].range, t_limit),
    ensures
        t matches Some(d) && bits::lt(d, t_limit) && (bits::le(d, table[p.last()].range)
            || bits::le(d, t_start)),
{
    let n = p.len() - 1;
    assert forall|k: int| 0 <= k < p.len() implies {
        let v = table[#[trigger] p[k]];
        !v.outside && bits::lt(t_start, v.farthest) && bits::le(v.range, table[p[n]].range)
    } by {
        lemma_tightens_up(table, p, t_start, k);
    }
    a_leaf_in_sight_is_found(nodes, table, t_start, t_limit, roots, t, i, p);
    let d = t->0;
    let k = choose|k: int|
        0 <= k < p.len() && (bits::le(d, table[#[trigger] p[k]].range) || bits::le(d, t_start));
    assert(bits::le(table[p[k]].range, table[p[n]].range));
}

proof fn lemma_tightens_up(table: Seq<Verdict>, p: Seq<int>, t_start: u32, k: int)
    requires
        0 <= k < p.len(),
        forall|j: int|
            #![trigger table[p[j]]]
            0 <= j < p.len() - 1 ==> {
                &&& table[p[j]].outside ==> table[p[j + 1]].outside
                &&& bits::le(table[p[j + 1]].farthest, table[p[j]].farthest)
                &&& bits::le(table[p[j]].range, table[p[j + 1]].range)
            },
        !table[p.last()].outside,
        bits::lt(t_start, table[p.last()].farthest),
        !bits::is_nan(table[p.last()].range),
    ensures
        !table[p[k]].outside,
        bits::lt(t_start, table[p[k]].farthest),
        bits::le(table[p[k]].range, table[p.last()].range),
    decreases p.len() - k,
{
    if k < p.len() - 1 {
        lemma_tightens_up(table, p, t_start, k + 1);
        assert(table[p[k]].outside ==> table[p[k + 1]].outside);
    }
}

/// Some ray of the frustum may hit what the box holds: the box is not outside,
/// reaches past the ball, and begins before the reach where that is finite.
pub open spec fn may_be_hit(v: Verdict, t_ball: u32, t_far: u32) -> bool {
    &&& !v.outside
    &&& !bits::le(v.farthest, t_ball)
    &&& bits::lt(t_far, bits::INFINITY) && bits::lt(bits::NEG_INFINITY, t_far) ==> !bits::le(
        t_far,
        v.nearest,
    )
}

proof fn lemma_may_be_hit(v: Verdict, t_ball: u32, t_far: u32)
    ensures
        may_be_hit(v, t_ball, t_far) <==> !bound::unhittable(v, t_ball, t_far),
{
}

/// A refined cut loses no leaf that a ray may hit: every way down to one leads
/// through an entry of the cut.
pub proof fn cuts_keep_what_may_be_hit(
    nodes: Seq<BvhNode>,
    table: Seq<Verdict>,
    t_ball: u32,
    t_far: u32,
    root: u32,
    entries: Seq<u32>,
    p: Seq<int>,
)
    requires
        bound::covered(nodes, table, t_ball, t_far, root as int, entries),
        way_down(nodes, p),
        p[0] == root,
        forall|k: int| 0 <= k < p.len() ==> may_be_hit(table[#[trigger] p[k]], t_ball, t_far),
    ensures
        exists|k: int, j: int|
            0 <= k < p.len() && 0 <= j < entries.len() && #[trigger] p[k] == #[trigger] entries[j],
{
    lemma_way_down(nodes, p);
    if bound::shut(table, t_ball, t_far, p) {
        let k = choose|k: int|
            0 <= k < p.len() && bound::unhittable(table[#[trigger] p[k]], t_ball, t_far);
        lemma_may_be_hit(table[p[k]], t_ball, t_far);
    }
    assert(bound::passes(p, entries));
}

/// A refined cut holds only what may be hit and lies under the cut it was made
/// from, and nothing but leaves where the budget did not run out.
pub proof fn cuts_hold_nothing_else(
    nodes: Seq<BvhNode>,
    table: Seq<Verdict>,
    t_ball: u32,
    t_far: u32,
    roots: Seq<u32>,
    entries: Seq<u32>,
    overflows: nat,
    j: int,
)
    requires
        bound::sound_entries(nodes, table, t_ball, t_far, roots, entries, overflows),
        0 <= j < entries.len(),
    ensures
        entries[j] < nodes.len(),
        may_be_hit(table[entries[j] as int], t_ball, t_far),
        overflows == 0 ==> nodes[entries[j] as int].count != 0,
        exists|i: int, p: Seq<int>|
            0 <= i < roots.len() && p.len() > 0 && p[0] == #[trigger] roots[i] && p.last()
                == entries[j] && #[trigger] links(nodes, p),
{
    lemma_may_be_hit(table[entries[j] as int], t_ball, t_far);
    let e = entries[j] as int;
    assert(bound::reached(nodes, roots, e));
    let i = choose|i: int| 0 <= i < roots.len() && tree::under(nodes, #[trigger] roots[i] as int, e);
    let p = choose|p: Seq<int>| #[trigger] tree::leads_to(nodes, roots[i] as int, p, e);
    assert forall|k: int| 0 <= k < p.len() - 1 implies 0 <= #[trigger] p[k] < nodes.len()
        && nodes[p[k]].count == 0 && (p[k + 1] == nodes[p[k]].left_first || p[k + 1]
        == nodes[p[k]].left_first + 1) by {
        assert(tree::descends(nodes, p, k));
    }
    assert(links(nodes, p));
    assert(p[0] == roots[i]);
}

/// Each stop of `p` is a child of the one before.
pub open spec fn links(nodes: Seq<BvhNode>, p: Seq<int>) -> bool {
    forall|k: int|
        0 <= k < p.len() - 1 ==> 0 <= #[trigger] p[k] < nodes.len() && nodes[p[k]].count == 0 && (
        p[k + 1] == nodes[p[k]].left_first || p[k + 1] == nodes[p[k]].left_first + 1)
}

/// The making after one look at a time from a list is that from the list after
/// the first look.
proof fn lemma_after_first(rule: Rule, s: Seq<u32>, r: Seq<u32>, n: nat)
    requires
        s.len() > 0,
        bound::look(rule, bound::after(rule, s, 0)) == bound::after(rule, r, 0),
    ensures
        bound::after(rule, s, n + 1) == bound::after(rule, r, n),
    decreases n,
{
    if n > 0 {
        lemma_after_first(rule, s, r, (n - 1) as nat);
        assert(bound::after(rule, s, n + 1) == bound::look(rule, bound::after(rule, s, n)));
    } else {
        assert(bound::after(rule, s, 1) == bound::look(rule, bound::after(rule, s, 0)));
    }
}

/// Two cuts whose making differs by the first look alone are the same.
proof fn lemma_cuts_agree(rule: Rule, s: Seq<u32>, r: Seq<u32>, a: Cut, b: Cut)
    requires
        s.len() > 0,
        bound::look(rule, bound::after(rule, s, 0)) == bound::after(rule, r, 0),
        bound::makes(rule, s, a),
        bound::makes(rule, r, b),
    ensures
        a.entries@ == b.entries@,
        a.overflows == b.overflows,
        a.visits == b.visits + 1,
{
    let (m, n) = (a.visits as nat, b.visits as nat);
    assert(bound::after(rule, s, 0).work.len() > 0);
    assert(m > 0);
    lemma_after_first(rule, s, r, (m - 1) as nat);
    lemma_after_first(rule, s, r, n);
    if m - 1 < n {
        assert(bound::after(rule, r, (m - 1) as nat).work.len() > 0);
    } else if m > n + 1 {
        assert(bound::after(rule, s, n + 1).work.len() > 0);
    }
}

/// How a cut of the binary hierarchy is made, the last of its list first: what
/// no ray can hit is left out, an internal node makes way for its two children
/// as long as there is room for them, and a leaf is the cut's first entry.
pub proof fn cuts_split_what_may_be_hit(
    nodes: Seq<BvhNode>,
    table: Seq<Verdict>,
    t_ball: u32,
    t_far: u32,
    budget: nat,
    s: Seq<u32>,
    e: u32,
    a: Cut,
    b: Cut,
)
    requires
        tree::links_inside(nodes),
        nodes.len() <= u32::MAX,
        e < nodes.len(),
        bound::makes(bound::node_rule(nodes, table, t_ball, t_far, budget), s.push(e), a),
    ensures
        !may_be_hit(table[e as int], t_ball, t_far) && bound::makes(
            bound::node_rule(nodes, table, t_ball, t_far, budget),
            s,
            b,
        ) ==> a.entries@ == b.entries@ && a.overflows == b.overflows && a.visits == b.visits + 1,
        may_be_hit(table[e as int], t_ball, t_far) && nodes[e as int].count == 0 && s.len() + 2
            <= budget && bound::makes(
            bound::node_rule(nodes, table, t_ball, t_far, budget),
            s.push(nodes[e as int].left_first).push((nodes[e as int].left_first + 1) as u32),
            b,
        ) ==> a.entries@ == b.entries@ && a.overflows == b.overflows && a.visits == b.visits + 1,
        may_be_hit(table[e as int], t_ball, t_far) && (nodes[e as int].count != 0 || s.len() + 2
            > budget) ==> a.entries@.len() > 0 && a.entries@[0] == e && (a.overflows > 0 <==
            nodes[e as int].count == 0),
{
    let rule = bound::node_rule(nodes, table, t_ball, t_far, budget);
    let from = s.push(e);
    let first = bound::after(rule, from, 0);
    assert(first.work.drop_last() =~= s);
    assert(first.work.last() == e);
    assert((rule.verdict)(e) == table[e as int]);
    assert((rule.parts)(e) == bound::node_parts(nodes, e));
    lemma_may_be_hit(table[e as int], t_ball, t_far);
    let l = nodes[e as int].left_first;
    if !may_be_hit(table[e as int], t_ball, t_far) {
        assert(bound::look(rule, first) == bound::after(rule, s, 0));
        if bound::makes(rule, s, b) {
            lemma_cuts_agree(rule, from, s, a, b);
        }
    } else if nodes[e as int].count == 0 && s.len() + 2 <= budget {
        let r = s.push(l).push((l + 1) as u32);
        assert(s + bound::node_parts(nodes, e) =~= r);
        assert(bound::look(rule, first) == bound::after(rule, r, 0));
        if bound::makes(rule, r, b) {
            lemma_cuts_agree(rule, from, r, a, b);
        }
    } else {
        assert(bound::after(rule, from, 0).work.len() > 0);
        lemma_kept(rule, from, 1, a.visits as nat);
        assert(bound::look(rule, first).out[0] == e);
    }
}

/// What is part of the cut stays so, and overflows are never taken back.
proof fn lemma_kept(rule: Rule, s: Seq<u32>, m: nat, n: nat)
    requires
        m <= n,
    ensures
        bound::after(rule, s, m).out.len() <= bound::after(rule, s, n).out.len(),
        bound::after(rule, s, m).over <= bound::after(rule, s, n).over,
        forall|j: int|
            0 <= j < bound::after(rule, s, m).out.len() ==> #[trigger] bound::after(rule, s, n).out[j]
                == bound::after(rule, s, m).out[j],
    decreases n,
{
    if m < n {
        lemma_kept(rule, s, m, (n - 1) as nat);
    }
}

/// Nothing is made of nothing.
pub proof fn an_empty_list_gives_an_empty_cut(rule: Rule, a: Cut)
    requires
        bound::makes(rule, Seq::empty(), a),
    ensures
        a.entries@.len() == 0,
        a.visits == 0,
        a.overflows == 0,
{
    if a.visits > 0 {
        assert(bound::after(rule, Seq::empty(), 0).work.len() > 0);
    }
}

/// The same on the wide tree, where an entry makes way for all the slots of the
/// node behind it.
pub proof fn wide_cuts_split_what_may_be_hit(
    ft: FTree,
    table: Seq<Verdict>,
    t_ball: u32,
    t_far: u32,
    budget: nat,
    s: Seq<u32>,
    e: u32,
    more: Seq<u32>,
    a: Cut,
    b: Cut,
)
    requires
        ft.wf(),
        query::is_entry(ft, e),
        ft.nodes@.len() <= 0x2000_0000,
        bound::makes(query::entry_rule(ft, table, t_ball, t_far, budget), s.push(e), a),
        ({
            let slot = ft.nodes@[(e / 8) as int].slots@[(e % 8) as int];
            if ft.over@[slot.bnode as int].count != 0 {
                more.len() == 0
            } else {
                &&& more.len() == ft.nodes@[slot.child as int].slots@.len()
                &&& forall|j: int| 0 <= j < more.len() ==> #[trigger] more[j] == 8 * slot.child + j
            }
        }),
    ensures
        ({
            let v = table[ft.nodes@[(e / 8) as int].slots@[(e % 8) as int].bnode as int];
            let rule = query::entry_rule(ft, table, t_ball, t_far, budget);
            &&& !may_be_hit(v, t_ball, t_far) && bound::makes(rule, s, b) ==> a.entries@
                == b.entries@ && a.overflows == b.overflows && a.visits == b.visits + 1
            &&& may_be_hit(v, t_ball, t_far) && more.len() > 0 && s.len() + more.len() <= budget
                && bound::makes(rule, s + more, b) ==> a.entries@ == b.entries@ && a.overflows
                == b.overflows && a.visits == b.visits + 1
            &&& may_be_hit(v, t_ball, t_far) && (more.len() == 0 || s.len() + more.len() > budget)
                ==> a.entries@.len() > 0 && a.entries@[0] == e && (a.overflows > 0 <== more.len()
                > 0)
        }),
{
    let rule = query::entry_rule(ft, table, t_ball, t_far, budget);
    let slot = ft.nodes@[(e / 8) as int].slots@[(e % 8) as int];
    let v = table[slot.bnode as int];
    let from = s.push(e);
    let first = bound::after(rule, from, 0);
    query::slots_are_binary_nodes(ft, e);
    assert(first.work.drop_last() =~= s);
    assert(first.work.last() == e);
    assert((rule.verdict)(e) == v);
    assert((rule.parts)(e) == query::entry_parts(ft, e));
    assert(query::entry_parts(ft, e) =~= more) by {
        if more.len() > 0 {
            query::lemma_slots_fit(ft, slot.child as int);
        }
    }
    lemma_may_be_hit(v, t_ball, t_far);
    if !may_be_hit(v, t_ball, t_far) {
        assert(bound::look(rule, first) == bound::after(rule, s, 0));
        if bound::makes(rule, s, b) {
            lemma_cuts_agree(rule, from, s, a, b);
        }
    } else if more.len() > 0 && s.len() + more.len() <= budget {
        assert(bound::look(rule, first) == bound::after(rule, s + more, 0));
        if bound::makes(rule, s + more, b) {
            lemma_cuts_agree(rule, from, s + more, a, b);
        }
    } else {
        assert(bound::after(rule, from, 0).work.len() > 0);
        lemma_kept(rule, from, 1, a.visits as nat);
        assert(bound::look(rule, first).out[0] == e);
    }
}

} // verus!
