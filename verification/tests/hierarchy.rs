//! Bound queries on the binary hierarchy and on the wide tree, the upload
//! form, and the gateway audit. Trees come from a seeded generator.
use frustracer::bits::{Bits3, BitsBox, INFINITY};
use frustracer::bvh::{Bvh, BvhNode, GATEWAY_BIT};
use frustracer::foliage::audit::{gateway_audit, stays_inside, GatewayFault};
use frustracer::foliage::cells::{SwayCell, STATIC_CELL};
use frustracer::foliage::split::SceneSway;
use frustracer::frustum::{
    cannot_hit, nearest_geometry_distance, nearest_geometry_distance_within, refine_cut, Verdict,
    MAX_CUT,
};
use frustracer::ftree::accel::{Accel, Hierarchy, TreeLevers};
use frustracer::ftree::collapse::{entry, FTree, FNODE_BYTES, FT_STACK, INVALID, QFNODE_BYTES, WIDTH};
use frustracer::ftree::quantize::{bump_up, quantize_max, quantize_min, Grid, QFNode};

struct Rng(u64);

impl Rng {
    fn next(&mut self) -> u64 {
        self.0 = self.0.wrapping_mul(6364136223846793005).wrapping_add(1442695040888963407);
        self.0 >> 33
    }

    fn below(&mut self, n: u64) -> u64 {
        self.next() % n
    }

    fn unit(&mut self) -> f32 {
        (self.next() % 10_000) as f32 / 10_000.0
    }
}

fn bits3(v: [f32; 3]) -> Bits3 {
    Bits3 { x: v[0].to_bits(), y: v[1].to_bits(), z: v[2].to_bits() }
}

fn corner(b: Bits3) -> [f32; 3] {
    [f32::from_bits(b.x), f32::from_bits(b.y), f32::from_bits(b.z)]
}

type Ends = ([f32; 3], [f32; 3]);

fn union(a: Ends, b: Ends) -> Ends {
    let mut r = a;
    for k in 0..3 {
        r.0[k] = r.0[k].min(b.0[k]);
        r.1[k] = r.1[k].max(b.1[k]);
    }
    r
}

fn node(b: Ends, left_first: u32, count: u32) -> BvhNode {
    BvhNode { aabb: BitsBox { lo: bits3(b.0), hi: bits3(b.1) }, left_first, count }
}

/// A random hierarchy over `leaves` boxes, one triangle each.
fn random_bvh(rng: &mut Rng, leaves: usize) -> Bvh {
    fn grow(rng: &mut Rng, at: usize, boxes: &[Ends], first: u32, nodes: &mut Vec<BvhNode>) {
        let all = boxes.iter().copied().reduce(union).unwrap();
        if boxes.len() == 1 {
            nodes[at] = node(all, first, 1);
            return;
        }
        let left = nodes.len() as u32;
        nodes.push(nodes[at]);
        nodes.push(nodes[at]);
        nodes[at] = node(all, left, 0);
        let cut = 1 + rng.below(boxes.len() as u64 - 1) as usize;
        grow(rng, left as usize, &boxes[..cut], first, nodes);
        grow(rng, left as usize + 1, &boxes[cut..], first + cut as u32, nodes);
    }
    let boxes: Vec<Ends> = (0..leaves)
        .map(|_| {
            let p = [0, 1, 2].map(|_| 20.0 * rng.unit() - 10.0);
            (p, [p[0] + rng.unit(), p[1] + rng.unit(), p[2] + rng.unit()])
        })
        .collect();
    let mut nodes = vec![node(boxes[0], 0, 1)];
    grow(rng, 0, &boxes, 0, &mut nodes);
    Bvh { nodes, tri_idx: (0..leaves as u32).collect() }
}

fn area(b: &BitsBox) -> u32 {
    let (lo, hi) = (corner(b.lo), corner(b.hi));
    let d = [hi[0] - lo[0], hi[1] - lo[1], hi[2] - lo[2]];
    (2.0 * (d[0] * d[1] + d[1] * d[2] + d[2] * d[0])).to_bits()
}

fn areas(bvh: &Bvh) -> Vec<u32> {
    bvh.nodes.iter().map(|n| area(&n.aabb)).collect()
}

/// A half space from the apex: what it says of a box.
fn verdict(b: &BitsBox, apex: [f32; 3], axis: [f32; 3]) -> Verdict {
    let (lo, hi) = (corner(b.lo), corner(b.hi));
    let (mut near, mut far, mut front) = (0.0f32, 0.0f32, 0.0f32);
    for k in 0..3 {
        let d = (lo[k] - apex[k]).max(apex[k] - hi[k]).max(0.0);
        let f = (apex[k] - lo[k]).abs().max((apex[k] - hi[k]).abs());
        near += d * d;
        far += f * f;
        let p = if axis[k] >= 0.0 { hi[k] } else { lo[k] };
        front += axis[k] * (p - apex[k]);
    }
    Verdict {
        outside: front < 0.0,
        farthest: far.sqrt().to_bits(),
        nearest: near.sqrt().to_bits(),
        range: near.sqrt().to_bits(),
    }
}

fn table(bvh: &Bvh, apex: [f32; 3], axis: [f32; 3]) -> Vec<Verdict> {
    bvh.nodes.iter().map(|n| verdict(&n.aabb, apex, axis)).collect()
}

/// The least bound of any leaf, the plain way.
fn least(bvh: &Bvh, t: &[Verdict], t_start: u32, t_limit: u32) -> Option<u32> {
    (0..bvh.nodes.len())
        .filter(|&i| bvh.nodes[i].count != 0)
        .filter(|&i| !t[i].outside && t[i].farthest > t_start)
        .map(|i| t[i].range.max(t_start))
        .min()
        .filter(|&d| d < t_limit)
}

/// How many nodes a near-first descent looks at.
fn looks(bvh: &Bvh, t: &[Verdict], t_start: u32, i: usize, best: &mut u32) -> u64 {
    let d = t[i].range.max(t_start);
    if t[i].outside || t[i].farthest <= t_start || d >= *best {
        return 1;
    }
    if bvh.nodes[i].count != 0 {
        *best = d;
        return 1;
    }
    let l = bvh.nodes[i].left_first as usize;
    let (first, second) = if t[l].nearest <= t[l + 1].nearest { (l, l + 1) } else { (l + 1, l) };
    1 + looks(bvh, t, t_start, first, best) + looks(bvh, t, t_start, second, best)
}

struct Probe {
    table: Vec<Verdict>,
    t_start: u32,
    t_limit: u32,
}

fn probe(rng: &mut Rng, bvh: &Bvh) -> Probe {
    let apex = [0, 1, 2].map(|_| 24.0 * rng.unit() - 12.0);
    let axis = [0, 1, 2].map(|_| rng.unit() - 0.5);
    let t_start = if rng.below(3) == 0 { 0.0 } else { 6.0 * rng.unit() };
    let t_limit = if rng.below(4) == 0 { f32::INFINITY } else { 15.0 * rng.unit() };
    Probe { table: table(bvh, apex, axis), t_start: t_start.to_bits(), t_limit: t_limit.to_bits() }
}

fn build(bvh: &Bvh) -> FTree {
    FTree::build(bvh, &areas(bvh)).expect("the tree is shallow")
}

#[test]
fn bounds_are_the_least_leafs() {
    let mut rng = Rng(1);
    for round in 0..60 {
        let bvh = random_bvh(&mut rng, 1 + round);
        for _ in 0..20 {
            let p = probe(&mut rng, &bvh);
            let want = least(&bvh, &p.table, p.t_start, p.t_limit);
            let r = nearest_geometry_distance_within(&bvh, &p.table, p.t_start, p.t_limit, &[0]);
            assert_eq!(r.t, want);
            let mut best = p.t_limit;
            assert_eq!(r.visits, looks(&bvh, &p.table, p.t_start, 0, &mut best));
            let all = nearest_geometry_distance(&bvh, &p.table, p.t_start, &[0]);
            assert_eq!(all.t, least(&bvh, &p.table, p.t_start, INFINITY));
        }
    }
}

#[test]
fn wide_bounds_match_the_binary_ones() {
    let mut rng = Rng(2);
    for round in 0..60 {
        let bvh = random_bvh(&mut rng, 1 + 3 * round);
        let ft = build(&bvh);
        for _ in 0..20 {
            let p = probe(&mut rng, &bvh);
            let wide = ft.nearest_within(&p.table, p.t_start, p.t_limit, ft.root_cut());
            let plain =
                nearest_geometry_distance_within(&bvh, &p.table, p.t_start, p.t_limit, &[0]);
            assert_eq!(wide.t, plain.t);
        }
    }
}

#[test]
fn wide_queries_count_wide_nodes() {
    // Nine leaves in a row: seven in the root node, two behind its last slot.
    let leaf = |k: u32| ([k as f32 + 1.0, 0.0, 0.0], [k as f32 + 1.5, 1.0, 1.0]);
    let mut nodes = vec![node(leaf(0), 1, 0)];
    for k in 0..8u32 {
        nodes.push(node(leaf(k), k, 1));
        let last = k == 7;
        nodes.push(node(leaf(k + 1), if last { 8 } else { 2 * k + 3 }, if last { 1 } else { 0 }));
    }
    for i in (0..nodes.len()).rev() {
        if nodes[i].count == 0 {
            let l = nodes[i].left_first as usize;
            nodes[i].aabb.hi = nodes[l + 1].aabb.hi;
        }
    }
    let bvh = Bvh { nodes, tri_idx: (0..9).collect() };
    let ft = build(&bvh);
    assert_eq!(ft.nodes.iter().map(|n| n.slots.len()).collect::<Vec<_>>(), [8, 2]);
    let t = table(&bvh, [0.0; 3], [1.0, 0.0, 0.0]);
    let far = |d: f32| ft.nearest_within(&t, d.to_bits(), INFINITY, ft.root_cut());
    // The first leaf answers, and the slot behind which there is more is farther.
    assert_eq!((far(0.0).t, far(0.0).visits), (Some(1.0f32.to_bits()), 0));
    // Past the seventh leaf only the second node is left to look at.
    assert_eq!((far(7.9).t, far(7.9).visits), (Some(8.0f32.to_bits()), 1));
    assert_eq!((far(99.0).t, far(99.0).visits), (None, 0));
}

#[test]
fn cuts_lose_nothing_for_narrower_queries() {
    let mut rng = Rng(3);
    for round in 0..40 {
        let bvh = random_bvh(&mut rng, 2 + 2 * round);
        let ft = build(&bvh);
        for _ in 0..10 {
            let p = probe(&mut rng, &bvh);
            for budget in [1, 3, 8, MAX_CUT] {
                let cut = refine_cut(&bvh, &p.table, p.t_start, p.t_limit, &[0], budget);
                assert!(cut.entries.len() <= budget as usize);
                let after =
                    nearest_geometry_distance_within(&bvh, &p.table, p.t_start, p.t_limit, &cut.entries);
                assert_eq!(after.t, least(&bvh, &p.table, p.t_start, p.t_limit));
                if cut.overflows == 0 {
                    assert!(cut.entries.iter().all(|&e| bvh.nodes[e as usize].count != 0));
                }
                if ft.root_cut().len() <= budget as usize {
                    let cut =
                        ft.refine_cut(&p.table, p.t_start, p.t_limit, ft.root_cut(), budget);
                    assert!(cut.entries.len() <= budget as usize);
                    let wide =
                        ft.nearest_within(&p.table, p.t_start, p.t_limit, &cut.entries);
                    assert_eq!(wide.t, after.t);
                    let roots = ft.to_bvh_roots(&cut.entries, 64);
                    assert_eq!(roots.len(), cut.entries.len());
                    assert!(roots.iter().all(|&r| (r as usize) < bvh.nodes.len()));
                }
            }
        }
    }
}

#[test]
fn far_nodes_stay_in_a_cut() {
    // Two leaves, one far behind the other: no budget drops the far one.
    let near = ([1.0, 0.0, 0.0], [2.0, 1.0, 1.0]);
    let far = ([50.0, 0.0, 0.0], [51.0, 1.0, 1.0]);
    let bvh = Bvh {
        nodes: vec![node(union(near, far), 1, 0), node(near, 0, 1), node(far, 1, 1)],
        tri_idx: vec![0, 1],
    };
    let t = table(&bvh, [0.0; 3], [1.0, 0.0, 0.0]);
    let cut = refine_cut(&bvh, &t, 0, INFINITY, &[0], 64);
    assert_eq!(cut.entries, [2, 1]);
    assert_eq!((cut.visits, cut.overflows), (3, 0));
    let coarse = refine_cut(&bvh, &t, 0, INFINITY, &[0], 1);
    assert_eq!((coarse.entries, coarse.overflows), (vec![0], 1));
    // Past the reach, and inside the ball, they go.
    let cut = refine_cut(&bvh, &t, 0, 40.0f32.to_bits(), &[0], 64);
    assert_eq!(cut.entries, [1]);
    let cut = refine_cut(&bvh, &t, 10.0f32.to_bits(), INFINITY, &[0], 64);
    assert_eq!(cut.entries, [2]);
    let v = Verdict { outside: false, farthest: 9, nearest: 3, range: 3 };
    assert!(cannot_hit(&v, 9, INFINITY) && cannot_hit(&v, 0, 3) && !cannot_hit(&v, 0, 4));
    assert!(!cannot_hit(&v, 8, INFINITY));
    assert!(cannot_hit(&Verdict { outside: true, ..v }, 0, INFINITY));
}

#[test]
fn empty_hierarchies_answer_nothing() {
    let bvh = Bvh { nodes: vec![node(([0.0; 3], [0.0; 3]), 0, 0)], tri_idx: vec![] };
    let t: Vec<Verdict> = vec![];
    assert_eq!(nearest_geometry_distance(&bvh, &t, 0, &[0]).t, None);
    assert_eq!(refine_cut(&bvh, &t, 0, INFINITY, &[0], 8).entries, []);
    let ft = FTree::build(&bvh, &vec![]).expect("a bare root is shallow");
    assert!(ft.root_cut().is_empty());
    assert_eq!((ft.max_depth(), ft.nodes.len()), (0, 1));
    assert_eq!(ft.nearest_within(&t, 0, INFINITY, ft.root_cut()).t, None);
    assert_eq!(ft.bnode_flat(), [INVALID; WIDTH]);
    let q = ft.quantized(&vec![vec![blank(), blank(), blank()]]);
    assert_eq!((q.len(), q[0].occ), (1, 0));
    assert_eq!(q[0].child, [INVALID; WIDTH]);
}

// The wide tree's structure.

#[test]
fn slots_are_binary_nodes() {
    let mut rng = Rng(4);
    for round in 0..40 {
        let bvh = random_bvh(&mut rng, 1 + 5 * round);
        let ft = build(&bvh);
        let mut leaves = vec![];
        for (w, n) in ft.nodes.iter().enumerate() {
            assert!((1..=WIDTH).contains(&n.slots.len()));
            for (i, s) in n.slots.iter().enumerate() {
                let b = &bvh.nodes[s.bnode as usize];
                assert_eq!(s.aabb, b.aabb);
                assert_eq!(ft.slot_aabb(entry(w as u32, i)), b.aabb);
                assert_eq!(s.child != INVALID, b.count == 0);
                if s.child != INVALID {
                    assert!(s.child as usize > w && (s.child as usize) < ft.nodes.len());
                } else {
                    leaves.push(s.bnode);
                }
                assert_eq!(ft.bnode_at(w * WIDTH + i), s.bnode);
                if i > 0 {
                    assert!(n.slots[i - 1].bnode < s.bnode);
                }
            }
        }
        leaves.sort();
        let want: Vec<u32> =
            (0..bvh.nodes.len() as u32).filter(|&i| bvh.nodes[i as usize].count != 0).collect();
        assert_eq!(leaves, want);
        let flat = ft.bnode_flat();
        assert_eq!(flat.len(), ft.nodes.len() * WIDTH);
        assert_eq!(ft.bytes(), ft.nodes.len() * FNODE_BYTES);
        assert_eq!(ft.quantized_bytes(), ft.nodes.len() * QFNODE_BYTES);
        // The same tree comes out again.
        let again = build(&bvh);
        assert_eq!(again.root_cut(), ft.root_cut());
        assert!(again.nodes.iter().zip(&ft.nodes).all(|(a, b)| a.slots == b.slots));
    }
}

#[test]
fn the_widest_node_is_split_first() {
    // Node 1 is wider than node 2, and only seven slots are left for both.
    let leaf = |x: f32, w: f32| ([x, 0.0, 0.0], [x + w, w, w]);
    let mut nodes = vec![node(leaf(0.0, 100.0), 1, 0)];
    nodes.push(node(leaf(0.0, 50.0), 3, 0));
    nodes.push(node(leaf(60.0, 10.0), 5, 0));
    nodes.push(node(leaf(0.0, 20.0), 7, 0));
    nodes.push(node(leaf(20.0, 21.0), 9, 0));
    for x in [60.0, 65.0] {
        nodes.push(node(leaf(x, 4.0), 0, 1));
    }
    for x in [0.0, 10.0, 20.0, 30.0] {
        nodes.push(node(leaf(x, 5.0), 0, 1));
    }
    let bvh = Bvh { nodes, tri_idx: vec![0] };
    let ft = build(&bvh);
    // 1 splits, then 4, then 3, then 2: six leaves.
    let ids: Vec<u32> = ft.nodes[0].slots.iter().map(|s| s.bnode).collect();
    assert_eq!(ids, [5, 6, 7, 8, 9, 10]);
    assert_eq!(ft.max_depth(), 1);
}

/// A chain of `n` internal nodes, a leaf at each.
fn chain(n: usize) -> Bvh {
    let b = ([0.0; 3], [1.0; 3]);
    let mut nodes = vec![node(b, 1, 0)];
    for k in 0..n {
        let last = k == n - 1;
        nodes.push(node(b, 0, 1));
        nodes.push(node(b, if last { 0 } else { 2 * k as u32 + 3 }, if last { 1 } else { 0 }));
    }
    Bvh { nodes, tri_idx: vec![0] }
}

#[test]
fn depth_is_capped() {
    // A wide node takes seven links of a chain.
    let deep = chain(7 * FT_STACK);
    let ft = FTree::build(&deep, &areas(&deep)).expect("exactly the stack's depth");
    assert_eq!(ft.max_depth(), FT_STACK);
    let deeper = chain(7 * FT_STACK + 1);
    assert_eq!(FTree::build(&deeper, &areas(&deeper)).err(), Some(FT_STACK + 1));
}

// The upload form.

fn blank() -> Grid {
    Grid { step: 0, decoded: vec![0; 256], min_guess: vec![0; 8], max_guess: vec![0; 8] }
}

fn grid(ft: &FTree, i: usize, axis: usize) -> Grid {
    let span = ft.frame(i, axis);
    let (org, top) = (f32::from_bits(span.org), f32::from_bits(span.top));
    let ext = top - org;
    let mut sca = 0.0f32;
    if ext > 0.0 {
        sca = ext / 255.0;
        while org + 255.0 * sca < top {
            sca = f32::from_bits(sca.to_bits() + 1);
        }
    }
    let face = |v: f32| (v - org) / sca;
    let (mut lo, mut hi) = (vec![], vec![]);
    for s in &ft.nodes[i].slots {
        lo.push(face(corner(s.aabb.lo)[axis]).floor().clamp(0.0, 255.0) as u8);
        hi.push(face(corner(s.aabb.hi)[axis]).ceil().clamp(0.0, 255.0) as u8);
    }
    Grid {
        step: sca.to_bits(),
        decoded: (0..256).map(|q| (org + q as f32 * sca).to_bits()).collect(),
        min_guess: lo,
        max_guess: hi,
    }
}

#[test]
fn decoded_boxes_hold_the_true_ones() {
    let mut rng = Rng(5);
    for round in 0..20 {
        let bvh = random_bvh(&mut rng, 2 + 9 * round);
        let ft = build(&bvh);
        let grids: Vec<Vec<Grid>> =
            (0..ft.nodes.len()).map(|i| (0..3).map(|a| grid(&ft, i, a)).collect()).collect();
        let all: Vec<QFNode> = ft.quantized(&grids);
        for (i, q) in all.iter().enumerate() {
            let slots = &ft.nodes[i].slots;
            assert_eq!(q.occ, (1 << slots.len()) - 1);
            for (s, slot) in slots.iter().enumerate() {
                assert_eq!(q.child[s], slot.child);
                for a in 0..3 {
                    let x = &q.axes[a];
                    let (org, sca) = (f32::from_bits(x.org), f32::from_bits(x.sca));
                    let (lo, hi) = (corner(slot.aabb.lo)[a], corner(slot.aabb.hi)[a]);
                    let dmn = org + x.qmn[s] as f32 * sca;
                    let dmx = org + x.qmx[s] as f32 * sca;
                    assert!(dmn <= lo && hi <= dmx);
                    let slack = (lo - dmn).max(dmx - hi);
                    assert!(slack <= 1.5 * sca + 4.0 * f32::EPSILON * dmn.abs().max(dmx.abs()));
                }
            }
            for s in slots.len()..WIDTH {
                assert_eq!((q.child[s], q.axes[0].qmn[s], q.axes[2].qmx[s]), (INVALID, 0, 0));
            }
        }
    }
}

#[test]
fn faces_walk_from_their_guess() {
    let g = Grid {
        step: 1.0f32.to_bits(),
        decoded: (0..256).map(|q| (q as f32).to_bits()).collect(),
        min_guess: vec![],
        max_guess: vec![],
    };
    let v = 9.5f32.to_bits();
    assert_eq!((quantize_min(&g, 12, v), quantize_min(&g, 9, v), quantize_min(&g, 3, v)), (9, 9, 3));
    assert_eq!((quantize_max(&g, 3, v), quantize_max(&g, 10, v), quantize_max(&g, 40, v)), (10, 10, 40));
    assert_eq!(quantize_min(&g, 5, (-1.0f32).to_bits()), 0);
    assert_eq!(quantize_max(&g, 5, 999.0f32.to_bits()), 255);
    assert_eq!((quantize_min(&blank(), 9, v), quantize_max(&blank(), 9, v)), (0, 0));
}

// The two-tree handle.

#[test]
fn levers_pick_the_tree() {
    let mut rng = Rng(6);
    let bvh = random_bvh(&mut rng, 30);
    let keys = areas(&bvh);
    let off = TreeLevers { ftree_enabled: false, ftree_tiles: true };
    let on = TreeLevers::default();
    assert!(on.ftree_enabled && !on.ftree_tiles);
    let mut h = Hierarchy::new(bvh);
    assert_eq!(h.install(&keys, &off), Ok(()));
    assert!(h.ftree.is_none());
    assert!(Accel::of(&h, &on).ft.is_none());
    assert_eq!(h.install(&keys, &on), Ok(()));
    let first = h.ftree.as_ref().map(|f| f.nodes.as_ptr());
    assert_eq!(h.install(&keys, &on), Ok(()));
    assert_eq!(h.ftree.as_ref().map(|f| f.nodes.as_ptr()), first);
    assert!(Accel::of(&h, &on).ft.is_some());
    assert!(Accel::of(&h, &off).ft.is_none());
    assert!(Accel::for_tiles(&h, &on).ft.is_none());
    assert!(Accel::for_tiles(&h, &TreeLevers { ftree_tiles: true, ..on }).ft.is_some());
    assert!(Accel::for_tiles(&h, &off).ft.is_none());
    let deep = chain(7 * FT_STACK + 1);
    let keys = areas(&deep);
    let mut d = Hierarchy::new(deep);
    assert_eq!(d.install(&keys, &on), Err(FT_STACK + 1));
    assert!(d.ftree.is_none());
}

#[test]
fn either_handle_answers_alike() {
    let mut rng = Rng(7);
    let bvh = random_bvh(&mut rng, 40);
    let keys = areas(&bvh);
    let mut h = Hierarchy::new(bvh);
    h.install(&keys, &TreeLevers::default()).unwrap();
    let wired = Accel::of(&h, &TreeLevers::default());
    let plain = Accel::for_tiles(&h, &TreeLevers::default());
    assert_eq!(plain.root_cut(), [0]);
    for _ in 0..40 {
        let p = probe(&mut rng, &h.bvh);
        let a = wired.nearest_within(&p.table, p.t_start, p.t_limit, &wired.root_cut());
        let b = plain.nearest_within(&p.table, p.t_start, p.t_limit, &plain.root_cut());
        assert_eq!(a.t, b.t);
        for x in [&wired, &plain] {
            let cut = x.refine_cut(&p.table, p.t_start, p.t_limit, &x.root_cut(), 64);
            let roots = x.ray_roots(&cut.entries, 64);
            let seeded = nearest_geometry_distance_within(
                &h.bvh, &p.table, p.t_start, p.t_limit, &roots,
            );
            assert_eq!(seeded.t, b.t);
        }
    }
    assert_eq!(plain.ray_roots(&[3, 1, 4], 2), [3, 1, 4]);
    assert_eq!(wired.ray_roots(&wired.root_cut(), 1).len(), 1);
}

// The gateway audit.

fn sway(tri_cell: Vec<u16>, n: u32) -> SceneSway {
    let z = bits3([0.0; 3]);
    SceneSway {
        cells: (0..n)
            .map(|key| SwayCell { anchor: z, y0: 0, y1: 0, a: 0, b: 0, w_max: 0, key, scale: 0 })
            .collect(),
        tri_cell,
        cell: 0,
        n_plants: 0,
    }
}

struct Tree {
    bvh: Bvh,
    sway: SceneSway,
    swept: Vec<BitsBox>,
}

/// Two cells of two triangles each, behind a gateway and a filler each.
///
/// 0 over 1 and 2; 1 over the filler 3 and the gateway 4, whose subtree is
/// leaf 5; 2 over the filler 6 and the gateway 7, whose subtree is 8 over the
/// leaves 9 and 10.
fn gateways() -> Tree {
    let b = ([0.0; 3], [1.0; 3]);
    let wide = ([-1.0, 0.0, -1.0], [2.0, 1.0, 2.0]);
    let nodes = vec![
        node(wide, 1, 0),
        node(wide, 3, 0),
        node(wide, 6, 0),
        node(wide, 0, GATEWAY_BIT),
        node(wide, 0, GATEWAY_BIT + 2),
        node(b, 0, 2),
        node(wide, 0, GATEWAY_BIT),
        node(wide, 2, GATEWAY_BIT + 2),
        node(b, 9, 0),
        node(b, 2, 1),
        node(b, 3, 1),
    ];
    let swept = nodes.iter().map(|n| n.aabb).collect();
    Tree {
        bvh: Bvh { nodes, tri_idx: vec![2, 0, 3, 1] },
        sway: sway(vec![0, 1, 0, 1], 2),
        swept,
    }
}

fn audit(t: &Tree) -> Result<(), GatewayFault> {
    gateway_audit(4, Some(&t.sway), true, &t.bvh, &t.swept)
}

#[test]
fn sound_gateway_trees_pass() {
    assert_eq!(audit(&gateways()), Ok(()));
    // One cell: the root is its gateway.
    let b = ([0.0; 3], [1.0; 3]);
    let nodes = vec![node(b, 0, GATEWAY_BIT + 1), node(b, 0, 1)];
    let t = Tree {
        swept: nodes.iter().map(|n| n.aabb).collect(),
        bvh: Bvh { nodes, tri_idx: vec![0] },
        sway: sway(vec![0], 1),
    };
    assert_eq!(gateway_audit(1, Some(&t.sway), true, &t.bvh, &t.swept), Ok(()));
}

#[test]
fn gateways_must_be_absent_where_unused() {
    let t = gateways();
    assert_eq!(gateway_audit(4, None, true, &t.bvh, &t.swept), Err(GatewayFault::Unexpected));
    assert_eq!(
        gateway_audit(4, Some(&t.sway), false, &t.bvh, &t.swept),
        Err(GatewayFault::Unexpected)
    );
    let plain = chain(3);
    assert_eq!(gateway_audit(4, None, false, &plain, &vec![]), Ok(()));
}

#[test]
fn every_fault_is_named() {
    let fault = |change: &dyn Fn(&mut Tree)| {
        let mut t = gateways();
        change(&mut t);
        audit(&t).unwrap_err()
    };
    let count = |t: &mut Tree, i: usize, c: u32| t.bvh.nodes[i].count = c;
    assert_eq!(
        fault(&|t| {
            count(t, 3, 1);
            count(t, 4, 1);
            count(t, 6, 1);
            count(t, 7, 1);
        }),
        GatewayFault::MustFire
    );
    assert_eq!(fault(&|t| t.bvh.tri_idx[1] = 2), GatewayFault::NotPermutation(2));
    assert_eq!(fault(&|t| t.bvh.tri_idx[1] = 9), GatewayFault::NotPermutation(9));
    assert_eq!(fault(&|t| t.bvh.nodes[2].left_first = 3), GatewayFault::ReachedTwice(4));
    assert_eq!(
        fault(&|t| t.bvh.nodes[3].aabb.lo = bits3([7.0; 3])),
        GatewayFault::BadFiller(3)
    );
    assert_eq!(
        fault(&|t| {
            t.bvh.nodes[2].left_first = 0;
            count(t, 2, 1);
            count(t, 6, 1);
        }),
        GatewayFault::Unreached(7)
    );
    assert_eq!(fault(&|t| t.sway.tri_cell[2] = STATIC_CELL), GatewayFault::StaticStart(4));
    assert_eq!(
        fault(&|t| {
            t.bvh.tri_idx = vec![2, 1, 0, 3];
            t.sway.tri_cell = vec![0, 0, 0, 0];
            count(t, 4, GATEWAY_BIT + 4);
            count(t, 5, 4);
        }),
        GatewayFault::TwoGateways(0)
    );
    assert_eq!(fault(&|t| t.sway.tri_cell[3] = 0), GatewayFault::CountMismatch(4));
    assert_eq!(fault(&|t| t.bvh.tri_idx = vec![2, 1, 3, 0]), GatewayFault::MixedCells(4));
    assert_eq!(
        fault(&|t| {
            t.bvh.nodes.truncate(8);
            t.swept.truncate(8);
        }),
        GatewayFault::NoSubtree(7)
    );
    assert_eq!(
        fault(&|t| {
            count(t, 5, 0);
            t.bvh.nodes[5].left_first = 1;
        }),
        GatewayFault::Owned(2)
    );
    assert_eq!(fault(&|t| count(t, 10, GATEWAY_BIT + 1)), GatewayFault::Nested(7));
    assert_eq!(fault(&|t| t.bvh.nodes[9].left_first = 0), GatewayFault::LeafOutside(7));
    assert_eq!(fault(&|t| count(t, 5, 1)), GatewayFault::NotTiled(4));
    assert_eq!(fault(&|t| t.swept[4].hi = bits3([9.0; 3])), GatewayFault::WrongBox(4));
    assert_eq!(
        fault(&|t| {
            count(t, 6, 1);
            count(t, 7, 1);
        }),
        GatewayFault::NoGateway(1)
    );
    assert_eq!(
        fault(&|t| {
            let extra = t.bvh.nodes[10];
            t.bvh.nodes.push(extra);
            t.swept.push(extra.aabb);
        }),
        GatewayFault::Orphan(11)
    );
}

#[test]
fn a_bump_is_the_next_number_up() {
    assert_eq!(f32::from_bits(bump_up(1.0f32.to_bits())), 1.0 + f32::EPSILON);
    assert_eq!(bump_up(0), 1);
    assert_eq!(bump_up(f32::MAX.to_bits()), f32::INFINITY.to_bits());
}

#[test]
fn starts_below_zero_leave_bounds_alone() {
    // One leaf from 2 to 4 along x, seen from the origin.
    let bvh = Bvh { nodes: vec![node(([2.0, 0.0, 0.0], [4.0, 0.0, 0.0]), 0, 1)], tri_idx: vec![0] };
    let at = |x: f32| x.to_bits();
    let t = vec![Verdict { outside: false, farthest: at(4.0), nearest: at(2.0), range: at(2.0) }];
    let ask = |start: f32, limit: f32| {
        nearest_geometry_distance_within(&bvh, &t, at(start), at(limit), &[0]).t.map(f32::from_bits)
    };
    for start in [f32::NEG_INFINITY, -3.0, -0.0, 0.0, 1.5] {
        assert_eq!(ask(start, f32::INFINITY), Some(2.0));
        assert_eq!(ask(start, 2.0), None);
        assert_eq!(ask(start, -1.0), None);
        let ft = build(&bvh);
        let wide = ft.nearest_within(&t, at(start), INFINITY, ft.root_cut());
        assert_eq!(wide.t.map(f32::from_bits), Some(2.0));
    }
    assert_eq!(ask(3.0, 10.0), Some(3.0));
    assert_eq!(ask(4.0, 10.0), None);
    // A range that is not a number says nothing past the start.
    let t = vec![Verdict { range: at(f32::NAN), ..t[0] }];
    let r = nearest_geometry_distance(&bvh, &t, at(-1.0), &[0]);
    assert_eq!(r.t.map(f32::from_bits), Some(-1.0));
    // A start that is not a number drops nothing; a limit that is not has
    // nothing below it.
    let t = vec![Verdict { range: at(2.0), ..t[0] }];
    let r = nearest_geometry_distance_within(&bvh, &t, at(f32::NAN), at(9.0), &[0]);
    assert_eq!((r.t.map(f32::from_bits), r.visits), (Some(2.0), 1));
    let r = nearest_geometry_distance_within(&bvh, &t, at(0.0), at(f32::NAN), &[0, 0]);
    assert_eq!((r.t, r.visits), (None, 2));
    // The two zeros are one distance.
    let zero = Verdict { outside: false, farthest: 0, nearest: 0, range: 0 };
    assert!(cannot_hit(&zero, at(-0.0), INFINITY));
    assert!(!cannot_hit(&zero, at(-1.0), INFINITY));
}

#[test]
fn tightening_verdicts_give_either_tree_one_answer() {
    // A start far back: nothing is dropped for being near.
    let mut rng = Rng(9);
    for round in 0..20 {
        let bvh = random_bvh(&mut rng, 2 + 4 * round);
        let ft = build(&bvh);
        let p = probe(&mut rng, &bvh);
        let start = (-1.0f32).to_bits();
        let wide = ft.nearest_within(&p.table, start, p.t_limit, ft.root_cut());
        let plain = nearest_geometry_distance_within(&bvh, &p.table, start, p.t_limit, &[0]);
        assert_eq!(wide.t, plain.t);
        if let Some(t) = wide.t {
            assert!(f32::from_bits(t) >= -1.0 && f32::from_bits(t) < f32::from_bits(p.t_limit));
        }
    }
}

#[test]
fn links_of_unreached_nodes_are_not_followed() {
    let mut t = gateways();
    let astray = node(([0.0; 3], [1.0; 3]), 4_000, 0);
    t.bvh.nodes.push(astray);
    t.swept.push(astray.aabb);
    assert_eq!(audit(&t), Err(GatewayFault::Orphan(11)));
    // Nor the triangles of a gateway that no walk comes to.
    let mut t = gateways();
    let astray = node(([0.0; 3], [1.0; 3]), 4_000, GATEWAY_BIT + 3);
    t.bvh.nodes.push(astray);
    t.swept.push(astray.aabb);
    assert_eq!(audit(&t), Err(GatewayFault::Unreached(11)));
}

/// A full tree over four leaves: 0 over 1 and 2, 1 over 3 and 4, 2 over 5 and 6.
fn four_leaves() -> Bvh {
    let b = ([0.0; 3], [1.0; 3]);
    let mut nodes: Vec<BvhNode> = [1, 3, 5].map(|l| node(b, l, 0)).into();
    nodes.extend((0..4).map(|k| node(b, k, 1)));
    Bvh { nodes, tri_idx: vec![0, 1, 2, 3] }
}

fn root_slots(bvh: &Bvh, areas: [f32; 3]) -> Vec<u32> {
    let mut keys = vec![0; bvh.nodes.len()];
    for (key, a) in keys.iter_mut().zip(areas) {
        *key = a.to_bits();
    }
    let ft = FTree::build(bvh, &keys).expect("the tree is shallow");
    ft.nodes[0].slots.iter().map(|s| s.bnode).collect()
}

#[test]
fn only_areas_above_minus_one_are_split() {
    let bvh = four_leaves();
    assert_eq!(root_slots(&bvh, [9.0, 1.0, 2.0]), [3, 4, 5, 6]);
    // What is not a number is never split, nor is an area of minus one or less.
    assert_eq!(root_slots(&bvh, [9.0, f32::NAN, 2.0]), [1, 5, 6]);
    assert_eq!(root_slots(&bvh, [9.0, 2.0, -f32::NAN]), [2, 3, 4]);
    assert_eq!(root_slots(&bvh, [9.0, f32::NAN, f32::NAN]), [1, 2]);
    assert_eq!(root_slots(&bvh, [9.0, -1.0, -0.5]), [1, 5, 6]);
    assert_eq!(root_slots(&bvh, [9.0, -0.0, 0.0]), [3, 4, 5, 6]);
    // The root is opened whatever its own area is.
    assert_eq!(root_slots(&bvh, [f32::NAN, f32::NAN, -2.0]), [1, 2]);
}

#[test]
fn wide_areas_order_as_numbers() {
    // 5 is split before 6, whose zero is as large and whose id is higher; then
    // 11, the widest; then 6; and 4 takes the last slot, since its area is
    // above that of 3.
    let b = ([0.0; 3], [1.0; 3]);
    // 0 over 1, 2; 1 over 3, 4; 2 over 5, 6; 3 and 4 over 7 to 10; 5 and
    // 6 over 11 to 14; those over leaves from 15 on.
    let mut nodes: Vec<BvhNode> = (0..7).map(|k| node(b, 2 * k + 1, 0)).collect();
    nodes.extend((7..15).map(|k| node(b, 2 * k + 1, 0)));
    nodes.extend((0..16).map(|k| node(b, k, 1)));
    let bvh = Bvh { nodes, tri_idx: (0..16).collect() };
    let mut areas = vec![1.0f32; bvh.nodes.len()];
    for (i, a) in [(3, -0.75), (4, -0.25), (5, 0.0), (6, -0.0)] {
        areas[i] = a;
    }
    for a in &mut areas[7..15] {
        *a = f32::NAN;
    }
    areas[11] = 1.0;
    let keys: Vec<u32> = areas.iter().map(|a| a.to_bits()).collect();
    let ft = FTree::build(&bvh, &keys).expect("the tree is shallow");
    let ids: Vec<u32> = ft.nodes[0].slots.iter().map(|s| s.bnode).collect();
    assert_eq!(ids, [3, 9, 10, 12, 13, 14, 23, 24]);
}

#[test]
fn an_earlier_fault_hides_a_link_astray() {
    let out = 4_000u32;
    let inside = |t: &Tree| stays_inside(4, &t.sway, &t.bvh, &t.swept);
    // No gateway at all, and a child that is not there.
    let mut t = gateways();
    for i in [3, 4, 6, 7] {
        t.bvh.nodes[i].count = 1;
    }
    t.bvh.nodes[2].left_first = out;
    assert!(inside(&t));
    assert_eq!(audit(&t), Err(GatewayFault::MustFire));
    // Ids that repeat.
    let mut t = gateways();
    t.bvh.tri_idx[1] = 2;
    t.bvh.nodes[2].left_first = out;
    assert!(inside(&t));
    assert_eq!(audit(&t), Err(GatewayFault::NotPermutation(2)));
    // A node reached twice; the walk looks at second children first, so the
    // first child's links are not read.
    let mut t = gateways();
    t.bvh.nodes[2].left_first = 0;
    t.bvh.nodes[1].left_first = out;
    assert!(!inside(&t));
    t.bvh.nodes[2].left_first = 1;
    assert!(inside(&t));
    assert_eq!(audit(&t), Err(GatewayFault::ReachedTwice(2)));
    // An earlier gateway out of order.
    let mut t = gateways();
    t.swept[4].hi = bits3([9.0; 3]);
    t.bvh.nodes[8].left_first = out;
    assert!(inside(&t));
    assert_eq!(audit(&t), Err(GatewayFault::WrongBox(4)));
    // The same link without the earlier fault.
    let mut t = gateways();
    t.bvh.nodes[8].left_first = out;
    assert!(!inside(&t));
    // A gateway whose triangles are not there.
    let mut t = gateways();
    t.bvh.nodes[7].left_first = out;
    assert!(!inside(&t));
    t.sway.tri_cell[2] = STATIC_CELL;
    assert!(inside(&t));
    assert_eq!(audit(&t), Err(GatewayFault::StaticStart(4)));
    assert!(inside(&gateways()));
}
