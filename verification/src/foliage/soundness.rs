//! What an audit of the gateway tree promises, said of the nodes, the triangle
//! order and the cells themselves.
use crate::bits::BitsBox;
use crate::bvh as tree;
use crate::bvh::Bvh;
use crate::foliage::audit;
use crate::foliage::audit::GatewayFault;
use crate::foliage::split::SceneSway;
use vstd::prelude::*;

verus! {

/// The node is a gateway over triangles: the mark and a count.
pub open spec fn gate(b: Bvh, g: int) -> bool {
    0 <= g < b.nodes@.len() && b.nodes@[g].count > 0x8000_0000
}

/// Triangle order position `k` belongs to the gateway.
pub open spec fn in_gate(b: Bvh, g: int, k: int) -> bool {
    b.nodes@[g].left_first <= k < b.nodes@[g].left_first + b.nodes@[g].count - 0x8000_0000
}

/// The cell of the triangle at order position `k`.
pub open spec fn cell_at(b: Bvh, s: SceneSway, k: int) -> u16 {
    s.tri_cell@[b.tri_idx@[k] as int]
}

proof fn lemma_gate(b: Bvh, g: int)
    ensures
        gate(b, g) <==> audit::is_gate(b, g),
{
}

/// A cell has triangles exactly where one is marked with it.
proof fn lemma_cell_size(tri_cell: Seq<u16>, c: int, n: nat)
    requires
        n <= tri_cell.len(),
    ensures
        audit::cell_tris(tri_cell, c, n) > 0 <==> exists|t: int|
            0 <= t < n && #[trigger] tri_cell[t] == c,
    decreases n,
{
    if n > 0 {
        let m = (n - 1) as nat;
        lemma_cell_size(tri_cell, c, m);
        if tri_cell[m as int] == c {
            assert(0 <= m as int && (m as int) < n && tri_cell[m as int] == c);
        } else if exists|t: int| 0 <= t < n && #[trigger] tri_cell[t] == c {
            let t = choose|t: int| 0 <= t < n && #[trigger] tri_cell[t] == c;
            assert(0 <= t < m && tri_cell[t] == c);
        } else if exists|t: int| 0 <= t < m && #[trigger] tri_cell[t] == c {
            let t = choose|t: int| 0 <= t < m && #[trigger] tri_cell[t] == c;
            assert(0 <= t < n && tri_cell[t] == c);
        }
    }
}

/// Where gateways are not in use, the audit passes exactly the trees that have
/// none, empty ones and full ones alike.
pub proof fn unused_gateways_are_refused(
    n: usize,
    sway: Option<&SceneSway>,
    mode: bool,
    b: &Bvh,
    swept: &Vec<BitsBox>,
    r: Result<(), GatewayFault>,
)
    requires
        call_ensures(audit::gateway_audit, (n, sway, mode, b, swept), r),
        !mode || sway is None,
    ensures
        (exists|g: int| 0 <= g < b.nodes@.len() && (#[trigger] b.nodes@[g]).count >= 0x8000_0000)
            ==> r == Err::<(), GatewayFault>(GatewayFault::Unexpected),
        (forall|g: int| 0 <= g < b.nodes@.len() ==> (#[trigger] b.nodes@[g]).count < 0x8000_0000)
            ==> r is Ok,
{
    if exists|g: int| 0 <= g < b.nodes@.len() && (#[trigger] b.nodes@[g]).count >= 0x8000_0000 {
        let g = choose|g: int|
            0 <= g < b.nodes@.len() && (#[trigger] b.nodes@[g]).count >= 0x8000_0000;
        assert(b.nodes@[g].is_gateway());
        assert(!audit::no_gateway(*b));
    } else {
        assert(audit::no_gateway(*b));
    }
}

/// A tree that passes has no id twice and none past the triangles.
pub proof fn passed_orders_are_permutations(
    n: usize,
    s: &SceneSway,
    b: &Bvh,
    swept: &Vec<BitsBox>,
    i: int,
    j: int,
)
    requires
        call_ensures(audit::gateway_audit, (n, Some(s), true, b, swept), Ok(())),
        0 <= i < j < b.tri_idx@.len(),
    ensures
        b.tri_idx@[i] < n && b.tri_idx@[j] < n && b.tri_idx@[i] != b.tri_idx@[j],
{
}

/// A gateway of a tree that passes holds the triangles of one cell, all of them
/// and no other, has the box that was swept for it, is reached from the root,
/// and has its subtree next to it. A filler beside it copies its box.
pub proof fn passed_gateways_hold_their_cells(
    n: usize,
    s: &SceneSway,
    b: &Bvh,
    swept: &Vec<BitsBox>,
    g: int,
    t: int,
    k: int,
)
    requires
        audit::fitting(*b, *s, swept@, n as int),
        call_ensures(audit::gateway_audit, (n, Some(s), true, b, swept), Ok(())),
        0 <= g < b.nodes@.len(),
    ensures
        gate(*b, g) ==> {
            let c = cell_at(*b, *s, b.nodes@[g].left_first as int);
            &&& c != 0xffff
            &&& b.nodes@[g].aabb == swept@[g]
            &&& g + 1 < b.nodes@.len()
            &&& tree::under(b.nodes@, 0, g)
            &&& in_gate(*b, g, k) ==> k < b.tri_idx@.len() && cell_at(*b, *s, k) == c
            &&& 0 <= t < n && s.tri_cell@[t] == c ==> exists|k: int|
                in_gate(*b, g, k) && #[trigger] b.tri_idx@[k] == t
        },
        b.nodes@[g].count == 0x8000_0000 ==> {
            &&& g + 1 < b.nodes@.len()
            &&& b.nodes@[g + 1].count >= 0x8000_0000
            &&& b.nodes@[g].aabb == b.nodes@[g + 1].aabb
            &&& tree::under(b.nodes@, 0, g)
        },
{
    lemma_gate(*b, g);
    if gate(*b, g) {
        assert(audit::gate_ok(*b, *s, swept@, g));
        let c = cell_at(*b, *s, b.nodes@[g].left_first as int);
        if in_gate(*b, g, k) {
            assert(s.tri_cell@[b.tri_idx@[k] as int] == audit::gate_cell(*b, *s, g));
        }
        if 0 <= t < n && s.tri_cell@[t] == c {
            audit::gateways_hold_whole_cells(*b, *s, swept@, n as int, g, t);
            let k = choose|k: int|
                b.nodes@[g].left_first <= k < b.nodes@[g].left_first + b.nodes@[g].leaf_tris()
                    && #[trigger] b.tri_idx@[k] == t;
            assert(in_gate(*b, g, k) && b.tri_idx@[k] == t);
        }
    }
    if b.nodes@[g].count == 0x8000_0000 {
        assert(audit::is_filler(*b, g));
        assert(audit::filler_ok(*b, g));
    }
}

/// In a tree that passes every triangle of a cell has one gateway, and two
/// gateways hold different cells.
pub proof fn passed_cells_have_one_gateway(
    n: usize,
    s: &SceneSway,
    b: &Bvh,
    swept: &Vec<BitsBox>,
    t: int,
    g: int,
    h: int,
)
    requires
        call_ensures(audit::gateway_audit, (n, Some(s), true, b, swept), Ok(())),
    ensures
        0 <= t < s.tri_cell@.len() && s.tri_cell@[t] < s.cells@.len() ==> exists|g: int| #[trigger]
            gate(*b, g) && cell_at(*b, *s, b.nodes@[g].left_first as int) == s.tri_cell@[t],
        gate(*b, g) && gate(*b, h) && g != h ==> cell_at(*b, *s, b.nodes@[g].left_first as int)
            != cell_at(*b, *s, b.nodes@[h].left_first as int),
{
    if 0 <= t < s.tri_cell@.len() && s.tri_cell@[t] < s.cells@.len() {
        let c = s.tri_cell@[t] as int;
        lemma_cell_size(s.tri_cell@, c, s.tri_cell@.len());
        assert(audit::cell_size(*s, c) > 0);
        assert(audit::hosted(*b, *s, c));
        let g = choose|g: int| #[trigger] audit::is_gate(*b, g) && audit::gate_cell(*b, *s, g) == c;
        lemma_gate(*b, g);
        assert(gate(*b, g));
    }
    lemma_gate(*b, g);
    lemma_gate(*b, h);
    if gate(*b, g) && gate(*b, h) && g != h {
        if g < h {
            assert(audit::gate_cell(*b, *s, g) != audit::gate_cell(*b, *s, h));
        } else {
            assert(audit::gate_cell(*b, *s, h) != audit::gate_cell(*b, *s, g));
        }
    }
}

/// Every node of a tree that passes is reached once: from the root, or behind one
/// gateway.
pub proof fn passed_nodes_have_one_home(
    n: usize,
    s: &SceneSway,
    b: &Bvh,
    swept: &Vec<BitsBox>,
    i: int,
    g: int,
)
    requires
        call_ensures(audit::gateway_audit, (n, Some(s), true, b, swept), Ok(())),
        0 <= i < b.nodes@.len(),
    ensures
        tree::under(b.nodes@, 0, i) || exists|g: int| #[trigger]
            gate(*b, g) && tree::under(b.nodes@, g + 1, i),
        gate(*b, g) && tree::under(b.nodes@, g + 1, i) ==> !tree::under(b.nodes@, 0, i)
            && b.nodes@[i].count < 0x8000_0000,
{
    audit::nodes_have_one_home(*b, *s, swept@, n as int, i);
    if audit::behind_a_gate(*b, i) {
        let g = choose|g: int| #[trigger] audit::is_gate(*b, g) && tree::under(b.nodes@, g + 1, i);
        lemma_gate(*b, g);
        assert(gate(*b, g) && tree::under(b.nodes@, g + 1, i));
    }
    lemma_gate(*b, g);
    if gate(*b, g) && tree::under(b.nodes@, g + 1, i) {
        assert(audit::is_gate(*b, g));
        assert(audit::gate_ok(*b, *s, swept@, g));
    }
}

/// A fault that is reported is there.
pub proof fn reported_faults_are_there(
    n: usize,
    s: &SceneSway,
    b: &Bvh,
    swept: &Vec<BitsBox>,
    f: GatewayFault,
)
    requires
        call_ensures(audit::gateway_audit, (n, Some(s), true, b, swept), Err(f)),
    ensures
        f != GatewayFault::Unexpected && f != GatewayFault::Astray,
        f matches GatewayFault::MustFire ==> forall|g: int| !#[trigger] gate(*b, g),
        f matches GatewayFault::MustFire ==> exists|t: int|
            0 <= t < s.tri_cell@.len() && (#[trigger] s.tri_cell@[t]) < s.cells@.len(),
        f matches GatewayFault::NotPermutation(t) ==> exists|i: int|
            0 <= i < b.tri_idx@.len() && #[trigger] b.tri_idx@[i] == t && (t >= n || exists|j: int|
                0 <= j < i && #[trigger] b.tri_idx@[j] == t),
        f matches GatewayFault::BadFiller(g) ==> g < b.nodes@.len() && b.nodes@[g as int].count
            == 0x8000_0000 && (g + 1 >= b.nodes@.len() || b.nodes@[g + 1].count < 0x8000_0000
            || b.nodes@[g as int].aabb != b.nodes@[g + 1].aabb || !tree::under(
            b.nodes@,
            0,
            g as int,
        )),
        f matches GatewayFault::Unreached(g) ==> gate(*b, g as int) && !tree::under(
            b.nodes@,
            0,
            g as int,
        ),
        f matches GatewayFault::StaticStart(g) ==> gate(*b, g as int) && cell_at(
            *b,
            *s,
            b.nodes@[g as int].left_first as int,
        ) == 0xffff,
        f matches GatewayFault::TwoGateways(c) ==> exists|g: int, h: int|
            g != h && #[trigger] gate(*b, g) && #[trigger] gate(*b, h) && cell_at(
                *b,
                *s,
                b.nodes@[g].left_first as int,
            ) == c && cell_at(*b, *s, b.nodes@[h].left_first as int) == c,
        f matches GatewayFault::MixedCells(g) ==> gate(*b, g as int) && exists|k: int|
            in_gate(*b, g as int, k) && s.tri_cell@[#[trigger] b.tri_idx@[k] as int] != cell_at(
                *b,
                *s,
                b.nodes@[g as int].left_first as int,
            ),
        f matches GatewayFault::NoSubtree(g) ==> gate(*b, g as int) && g + 1 >= b.nodes@.len(),
        f matches GatewayFault::WrongBox(g) ==> gate(*b, g as int) && b.nodes@[g as int].aabb
            != swept@[g as int],
        f matches GatewayFault::NoGateway(c) ==> exists|t: int|
            0 <= t < s.tri_cell@.len() && #[trigger] s.tri_cell@[t] == c,
        f matches GatewayFault::NoGateway(c) ==> forall|g: int| #[trigger]
            gate(*b, g) ==> cell_at(*b, *s, b.nodes@[g].left_first as int) != c,
        f matches GatewayFault::Orphan(i) ==> i < b.nodes@.len() && !tree::under(
            b.nodes@,
            0,
            i as int,
        ),
        f matches GatewayFault::Orphan(i) ==> forall|g: int| #[trigger]
            gate(*b, g) ==> !tree::under(b.nodes@, g + 1, i as int),
{
    assert forall|g: int| true implies (#[trigger] gate(*b, g) <==> audit::is_gate(*b, g)) by {
        lemma_gate(*b, g);
    }
    match f {
        GatewayFault::MustFire => {
            let c = choose|c: int| 0 <= c < s.cells@.len() && #[trigger] audit::cell_size(*s, c) > 0;
            lemma_cell_size(s.tri_cell@, c, s.tri_cell@.len());
        },
        GatewayFault::TwoGateways(c) => {
            let (g, h) = choose|g: int, h: int|
                g != h && #[trigger] audit::is_gate(*b, g) && #[trigger] audit::is_gate(*b, h)
                    && audit::gate_cell(*b, *s, g) == c && audit::gate_cell(*b, *s, h) == c;
            assert(gate(*b, g) && gate(*b, h));
        },
        GatewayFault::MixedCells(g) => {
            assert(gate(*b, g as int));
            let k = choose|k: int|
                b.nodes@[g as int].left_first <= k < b.nodes@[g as int].left_first
                    + b.nodes@[g as int].leaf_tris() && s.tri_cell@[#[trigger] b.tri_idx@[k] as int]
                    != audit::gate_cell(*b, *s, g as int);
            assert(in_gate(*b, g as int, k));
        },
        GatewayFault::NoGateway(c) => {
            lemma_cell_size(s.tri_cell@, c as int, s.tri_cell@.len());
        },
        _ => {},
    }
}

/// The first things are reported first: cells with triangles and no gateway at
/// all, then the first id that is no triangle or stands twice.
pub proof fn faults_are_reported_in_order(
    n: usize,
    s: &SceneSway,
    b: &Bvh,
    swept: &Vec<BitsBox>,
    r: Result<(), GatewayFault>,
    t: int,
    i: int,
)
    requires
        call_ensures(audit::gateway_audit, (n, Some(s), true, b, swept), r),
    ensures
        0 <= t < s.tri_cell@.len() && s.tri_cell@[t] < s.cells@.len() && (forall|g: int|
            !#[trigger] gate(*b, g)) ==> r == Err::<(), GatewayFault>(GatewayFault::MustFire),
        (exists|g: int| #[trigger] gate(*b, g)) && 0 <= i < b.tri_idx@.len() && (b.tri_idx@[i] >= n
            || exists|j: int| 0 <= j < i && #[trigger] b.tri_idx@[j] == b.tri_idx@[i]) && (forall|k: int|
            0 <= k < i ==> (#[trigger] b.tri_idx@[k]) < n) && (forall|j: int, k: int|
            0 <= j < k < i ==> #[trigger] b.tri_idx@[j] != #[trigger] b.tri_idx@[k]) ==> r == Err::<
            (),
            GatewayFault,
        >(GatewayFault::NotPermutation(b.tri_idx@[i])),
{
    assert forall|g: int| true implies (#[trigger] gate(*b, g) <==> audit::is_gate(*b, g)) by {
        lemma_gate(*b, g);
    }
    if 0 <= t < s.tri_cell@.len() && s.tri_cell@[t] < s.cells@.len() && (forall|g: int|
        !#[trigger] gate(*b, g)) {
        let c = s.tri_cell@[t] as int;
        lemma_cell_size(s.tri_cell@, c, s.tri_cell@.len());
        assert(audit::cell_size(*s, c) > 0);
        assert(audit::any_cell(*s));
        if audit::any_gate(*b) {
            let g = choose|g: int| #[trigger] audit::is_gate(*b, g);
            assert(gate(*b, g));
        }
    }
    if (exists|g: int| #[trigger] gate(*b, g)) && 0 <= i < b.tri_idx@.len() && (b.tri_idx@[i] >= n
        || exists|j: int| 0 <= j < i && #[trigger] b.tri_idx@[j] == b.tri_idx@[i]) && (forall|k: int|
        0 <= k < i ==> (#[trigger] b.tri_idx@[k]) < n) && (forall|j: int, k: int|
        0 <= j < k < i ==> #[trigger] b.tri_idx@[j] != #[trigger] b.tri_idx@[k]) {
        let g = choose|g: int| #[trigger] gate(*b, g);
        assert(audit::is_gate(*b, g));
        lemma_bad_id(b.tri_idx@, n as int, 0, i);
    }
}

/// The search for a bad id stops at the first one.
proof fn lemma_bad_id(ids: Seq<u32>, n: int, k: int, i: int)
    requires
        0 <= k <= i < ids.len(),
        ids[i] >= n || exists|j: int| 0 <= j < i && #[trigger] ids[j] == ids[i],
        forall|k: int| 0 <= k < i ==> (#[trigger] ids[k]) < n,
        forall|j: int, k: int| 0 <= j < k < i ==> #[trigger] ids[j] != #[trigger] ids[k],
    ensures
        audit::bad_id_from(ids, n, k) == Some(ids[i]),
    decreases i - k,
{
    if k < i {
        if ids.take(k).contains(ids[k]) {
            let j = choose|j: int| 0 <= j < k && ids.take(k)[j] == ids[k];
            assert(ids[j] == ids[k]);
        }
        lemma_bad_id(ids, n, k + 1, i);
    } else if ids[i] < n {
        let j = choose|j: int| 0 <= j < i && #[trigger] ids[j] == ids[i];
        assert(ids.take(i)[j] == ids[i]);
        assert(ids.take(i).contains(ids[i]));
    }
}

/// The fault of a node comes from a gateway or a filler there.
proof fn lemma_fault_from(b: Bvh, s: SceneSway, swept: Seq<BitsBox>, k: int, f: GatewayFault) -> (g: int)
    requires
        0 <= k,
        audit::fault_from(b, s, swept, k) == Some(f),
    ensures
        k <= g < b.nodes@.len(),
        (audit::is_gate(b, g) && audit::gate_fault(b, s, swept, g) == Some(f)) || (audit::is_filler(
            b,
            g,
        ) && !audit::filler_ok(b, g) && f == GatewayFault::BadFiller(g as u32)),
        forall|h: int|
            k <= h < g && #[trigger] audit::is_gate(b, h) ==> audit::gate_fault(b, s, swept, h) is None,
        forall|h: int| k <= h < g && #[trigger] audit::is_filler(b, h) ==> audit::filler_ok(b, h),
    decreases b.nodes@.len() - k,
{
    if audit::is_gate(b, k) && audit::gate_fault(b, s, swept, k) is Some {
        k
    } else if audit::is_filler(b, k) && !audit::filler_ok(b, k) {
        k
    } else {
        lemma_fault_from(b, s, swept, k + 1, f)
    }
}

/// A gateway's faults are reported in order: reached, not static, the only one of
/// its cell so far, as many triangles as the cell, all of the cell, a subtree,
/// and last the box. What comes before the fault that is reported holds.
pub proof fn a_gateways_faults_are_reported_in_order(
    n: usize,
    s: &SceneSway,
    b: &Bvh,
    swept: &Vec<BitsBox>,
    f: GatewayFault,
    g: u32,
    h: int,
    k: int,
)
    requires
        b.nodes@.len() <= u32::MAX,
        call_ensures(audit::gateway_audit, (n, Some(s), true, b, swept), Err(f)),
        f == GatewayFault::StaticStart(g) || f == GatewayFault::CountMismatch(g) || f
            == GatewayFault::MixedCells(g) || f == GatewayFault::NoSubtree(g) || f
            == GatewayFault::WrongBox(g),
    ensures
        tree::under(b.nodes@, 0, g as int),
        ({
            let c = cell_at(*b, *s, b.nodes@[g as int].left_first as int);
            &&& f == GatewayFault::StaticStart(g) <==> c == 0xffff
            &&& f != GatewayFault::StaticStart(g) && gate(*b, h) && h < g ==> cell_at(
                *b,
                *s,
                b.nodes@[h].left_first as int,
            ) != c
            &&& f != GatewayFault::StaticStart(g) ==> (f == GatewayFault::CountMismatch(g)
                <==> b.nodes@[g as int].count - 0x8000_0000 != audit::cell_size(*s, c as int))
            &&& (f == GatewayFault::NoSubtree(g) || f == GatewayFault::WrongBox(g)) && in_gate(
                *b,
                g as int,
                k,
            ) ==> cell_at(*b, *s, k) == c
            &&& f == GatewayFault::WrongBox(g) ==> g + 1 < b.nodes@.len()
        }),
        gate(*b, h) && h < g ==> b.nodes@[h].aabb == swept@[h] && h + 1 < b.nodes@.len()
            && tree::under(b.nodes@, 0, h),
{
    lemma_gate(*b, h);
    let first = lemma_fault_from(*b, *s, swept@, 0, f);
    if gate(*b, h) && h < g {
        assert(audit::is_gate(*b, h));
    }
    if in_gate(*b, g as int, k) {
        assert(cell_at(*b, *s, k) == s.tri_cell@[b.tri_idx@[k] as int]);
    }
    if gate(*b, h) && h < g && audit::gate_cell(*b, *s, h) == audit::gate_cell(*b, *s, g as int) {
        assert(audit::hosted_before(
            *b,
            *s,
            g as int,
            audit::gate_cell(*b, *s, g as int) as int,
        ));
    }
}

/// The lowest cell without a gateway is named, and an orphan only where every cell
/// has one, the lowest again.
pub proof fn the_lowest_cell_and_orphan_are_named(
    n: usize,
    s: &SceneSway,
    b: &Bvh,
    swept: &Vec<BitsBox>,
    f: GatewayFault,
    c: u16,
    i: u32,
    t: int,
    k: int,
)
    requires
        b.nodes@.len() <= u32::MAX,
        s.cells@.len() <= u16::MAX,
        call_ensures(audit::gateway_audit, (n, Some(s), true, b, swept), Err(f)),
        f == GatewayFault::NoGateway(c) || f == GatewayFault::Orphan(i),
        0 <= t < s.tri_cell@.len(),
        s.tri_cell@[t] < s.cells@.len(),
    ensures
        f == GatewayFault::Orphan(i) || s.tri_cell@[t] < c ==> exists|g: int| #[trigger]
            gate(*b, g) && cell_at(*b, *s, b.nodes@[g].left_first as int) == s.tri_cell@[t],
        f == GatewayFault::Orphan(i) && 0 <= k < i ==> tree::under(b.nodes@, 0, k) || exists|g: int|
            #[trigger] gate(*b, g) && tree::under(b.nodes@, g + 1, k),
{
    let e = s.tri_cell@[t] as int;
    lemma_cell_size(s.tri_cell@, e, s.tri_cell@.len());
    assert(audit::cell_size(*s, e) > 0);
    if audit::fault_from(*b, *s, swept@, 0) == Some(f) {
        let g = lemma_fault_from(*b, *s, swept@, 0, f);
    }
    lemma_unhosted(*b, *s, 0, e);
    if audit::hosted(*b, *s, e) {
        let g = choose|g: int| #[trigger] audit::is_gate(*b, g) && audit::gate_cell(*b, *s, g) == e;
        lemma_gate(*b, g);
        assert(gate(*b, g));
    }
    if f == GatewayFault::Orphan(i) && 0 <= k < i {
        lemma_orphan(*b, 0, k);
        if audit::behind_a_gate(*b, k) {
            let g = choose|g: int| #[trigger]
                audit::is_gate(*b, g) && tree::under(b.nodes@, g + 1, k);
            lemma_gate(*b, g);
            assert(gate(*b, g) && tree::under(b.nodes@, g + 1, k));
        }
    }
}

proof fn lemma_unhosted(b: Bvh, s: SceneSway, c: int, e: int)
    requires
        0 <= c <= e < s.cells@.len() <= u16::MAX,
        audit::cell_size(s, e) > 0,
    ensures
        audit::unhosted_from(b, s, c) is None ==> audit::hosted(b, s, e),
        audit::unhosted_from(b, s, c) matches Some(d) ==> c <= d && (e < d ==> audit::hosted(b, s, e)),
    decreases s.cells@.len() - c,
{
    if c < e && !(audit::cell_size(s, c) > 0 && !audit::hosted(b, s, c)) {
        lemma_unhosted(b, s, c + 1, e);
    } else if c == e && audit::hosted(b, s, e) {
        lemma_unhosted_above(b, s, c);
    }
}

proof fn lemma_unhosted_above(b: Bvh, s: SceneSway, c: int)
    requires
        0 <= c,
        s.cells@.len() <= u16::MAX,
    ensures
        audit::unhosted_from(b, s, c) matches Some(d) ==> c <= d,
    decreases s.cells@.len() - c,
{
    if c < s.cells@.len() {
        lemma_unhosted_above(b, s, c + 1);
    }
}

proof fn lemma_orphan(b: Bvh, i: int, k: int)
    requires
        0 <= i <= k,
        b.nodes@.len() <= u32::MAX,
    ensures
        audit::orphan_from(b, i) matches Some(d) ==> (k < d ==> tree::under(b.nodes@, 0, k)
            || audit::behind_a_gate(b, k)),
    decreases b.nodes@.len() - i,
{
    if i < b.nodes@.len() && i < k {
        lemma_orphan(b, i + 1, k);
    }
}

} // verus!
