//! The cell partition: every swaying triangle falls into one cell of a grid
//! that is coarsened until the cells fit their cap.
use crate::bits;
use crate::bits::Bits3;
use crate::foliage::components;
use crate::foliage::merge::FIELD_PLANT;
use crate::foliage::plants::{Plant, PlantSet, MAX_CELLS, MAX_PLANTS};
use crate::foliage::regions;
use crate::scene::{Scene, SwayRegion};
use vstd::prelude::*;

verus! {

/// `tri_cell` of a triangle that does not sway.
pub const STATIC_CELL: u16 = u16::MAX;

/// Separates plant keys from field-cell ordinals in `SwayCell::key`.
pub const PLANT_KEY_BIT: u32 = 0x8000_0000;

/// After this many halvings every 64-bit coordinate is 0 or -1.
pub const COARSEST: u32 = 64;

/// A triangle's grid coordinates at the finest pitch of its region.
#[derive(Clone, Copy, Debug, PartialEq, Eq, Structural)]
pub struct GridPos {
    pub x: i64,
    pub y: i64,
    pub z: i64,
}

/// What names a cell. Cells are ordered field by field, so plants come first
/// in id order and the field follows.
#[derive(Clone, Copy, Debug, PartialEq, Eq, Structural)]
pub struct CellKey {
    pub plant: u32,
    pub region: u32,
    pub x: i32,
    pub y: i32,
    pub z: i32,
}

/// Field-by-field order of cell keys.
pub open spec fn key_lt(a: CellKey, b: CellKey) -> bool {
    ||| a.plant < b.plant
    ||| a.plant == b.plant && a.region < b.region
    ||| a.plant == b.plant && a.region == b.region && a.x < b.x
    ||| a.plant == b.plant && a.region == b.region && a.x == b.x && a.y < b.y
    ||| a.plant == b.plant && a.region == b.region && a.x == b.x && a.y == b.y && a.z < b.z
}

/// Listed in order, without repetition.
pub open spec fn keys_ascend(s: Seq<CellKey>) -> bool {
    forall|i: int, j: int| 0 <= i < j < s.len() ==> key_lt(#[trigger] s[i], #[trigger] s[j])
}

/// `v` halved `k` times, each time rounding down.
pub open spec fn halved(v: int, k: nat) -> int
    decreases k,
{
    if k == 0 {
        v
    } else {
        halved(v, (k - 1) as nat) / 2
    }
}

/// `v` brought into the 32-bit range.
pub open spec fn saturated(v: int) -> i32 {
    if v < i32::MIN {
        i32::MIN
    } else if v > i32::MAX {
        i32::MAX
    } else {
        v as i32
    }
}

/// The cell of triangle `t` when the pitch has been doubled `k` times.
pub open spec fn key_at(
    plants: &PlantSet,
    rs: Seq<SwayRegion>,
    pos: Seq<GridPos>,
    t: int,
    k: nat,
) -> CellKey {
    CellKey {
        plant: plants.tri_plant@[t],
        region: regions::region_at(rs, t)->0,
        x: saturated(halved(pos[t].x as int, k)),
        y: saturated(halved(pos[t].y as int, k)),
        z: saturated(halved(pos[t].z as int, k)),
    }
}

/// Some swaying triangle falls into the cell at this pitch.
pub open spec fn occupied(
    scene: &Scene,
    mask: Seq<bool>,
    plants: &PlantSet,
    rs: Seq<SwayRegion>,
    pos: Seq<GridPos>,
    k: nat,
    key: CellKey,
) -> bool {
    exists|t: int|
        0 <= t < scene.tris() && #[trigger] components::masked(scene, mask, rs, t) && key_at(
            plants,
            rs,
            pos,
            t,
            k,
        ) == key
}

/// Some triangle takes part in sway.
pub open spec fn any_sways(scene: &Scene, mask: Seq<bool>, rs: Seq<SwayRegion>) -> bool {
    exists|t: int| 0 <= t < scene.tris() && #[trigger] components::masked(scene, mask, rs, t)
}

/// The list holds exactly the occupied cells at this pitch, in order.
pub open spec fn lists_cells(
    scene: &Scene,
    mask: Seq<bool>,
    plants: &PlantSet,
    rs: Seq<SwayRegion>,
    pos: Seq<GridPos>,
    k: nat,
    list: Seq<CellKey>,
) -> bool {
    &&& keys_ascend(list)
    &&& forall|key: CellKey| #[trigger]
        list.contains(key) <==> occupied(scene, mask, plants, rs, pos, k, key)
}

/// The occupied cells at this pitch fit the cap.
pub open spec fn fits(
    scene: &Scene,
    mask: Seq<bool>,
    plants: &PlantSet,
    rs: Seq<SwayRegion>,
    pos: Seq<GridPos>,
    k: nat,
) -> bool {
    exists|list: Seq<CellKey>|
        #[trigger] lists_cells(scene, mask, plants, rs, pos, k, list) && list.len() <= MAX_CELLS
}

/// Lowest and highest corner height over the triangles below `n` of cell `c`.
/// What is not a number is passed over.
pub open spec fn cell_extent(scene: &Scene, tri_cell: Seq<u16>, c: u16, n: int) -> (u32, u32)
    decreases n,
{
    if n <= 0 {
        (bits::INFINITY, bits::NEG_INFINITY)
    } else {
        let e = cell_extent(scene, tri_cell, c, n - 1);
        if tri_cell[n - 1] == c {
            tri_extent(scene, e, n - 1)
        } else {
            e
        }
    }
}

/// An extent after the three corners of triangle `t`.
pub open spec fn tri_extent(scene: &Scene, e: (u32, u32), t: int) -> (u32, u32) {
    let i = scene.indices@[t]@;
    let y0 = scene.positions@[i[0] as int].y;
    let y1 = scene.positions@[i[1] as int].y;
    let y2 = scene.positions@[i[2] as int].y;
    (
        bits::least(bits::least(bits::least(e.0, y0), y1), y2),
        bits::greatest(bits::greatest(bits::greatest(e.1, y0), y1), y2),
    )
}

/// The cells of a scene and the cell of each triangle.
pub struct Partition {
    /// Occupied cells in order; a cell's index is its id.
    pub keys: Vec<CellKey>,
    /// How often the pitch was doubled.
    pub level: u32,
    /// `STATIC_CELL` for a triangle that does not sway.
    pub tri_cell: Vec<u16>,
    /// Lowest and highest member corner of each cell.
    pub y0: Vec<u32>,
    pub y1: Vec<u32>,
}

impl Partition {
    /// Ids are in range and the lists run in parallel.
    pub open spec fn wf(&self) -> bool {
        &&& 1 <= self.keys@.len() <= MAX_CELLS
        &&& self.y0@.len() == self.keys@.len()
        &&& self.y1@.len() == self.keys@.len()
        &&& forall|t: int|
            0 <= t < self.tri_cell@.len() && #[trigger] self.tri_cell@[t] != STATIC_CELL
                ==> self.tri_cell@[t] < self.keys@.len()
    }

    /// What the partition of a scene is: the occupied cells at the finest pitch
    /// that fits, with each swaying triangle in its own cell.
    pub open spec fn describes(
        &self,
        scene: &Scene,
        mask: Seq<bool>,
        plants: &PlantSet,
        rs: Seq<SwayRegion>,
        pos: Seq<GridPos>,
    ) -> bool {
        let k = self.level as nat;
        &&& self.wf()
        &&& lists_cells(scene, mask, plants, rs, pos, k, self.keys@)
        &&& forall|j: nat| j < k ==> !#[trigger] fits(scene, mask, plants, rs, pos, j)
        &&& self.tri_cell@.len() == scene.tris()
        &&& forall|t: int|
            0 <= t < scene.tris() ==> if components::masked(scene, mask, rs, t) {
                &&& #[trigger] self.tri_cell@[t] != STATIC_CELL
                &&& self.keys@[self.tri_cell@[t] as int] == key_at(plants, rs, pos, t, k)
            } else {
                self.tri_cell@[t] == STATIC_CELL
            }
        &&& forall|c: u16|
            c < self.keys@.len() ==> (#[trigger] self.y0@[c as int], self.y1@[c as int])
                == cell_extent(scene, self.tri_cell@, c, scene.tris() as int)
    }
}

fn is_key_lt(a: CellKey, b: CellKey) -> (r: bool)
    ensures
        r == key_lt(a, b),
{
    if a.plant != b.plant {
        a.plant < b.plant
    } else if a.region != b.region {
        a.region < b.region
    } else if a.x != b.x {
        a.x < b.x
    } else if a.y != b.y {
        a.y < b.y
    } else {
        a.z < b.z
    }
}

/// Where `key` stands, or would stand, in the ordered list.
fn find_key(list: &Vec<CellKey>, key: CellKey) -> (r: usize)
    requires
        keys_ascend(list@),
    ensures
        r <= list@.len(),
        forall|i: int| 0 <= i < r ==> key_lt(#[trigger] list@[i], key),
        forall|i: int| r <= i < list@.len() ==> !key_lt(#[trigger] list@[i], key),
        list@.contains(key) ==> r < list@.len() && list@[r as int] == key,
{
    let mut lo: usize = 0;
    let mut hi: usize = list.len();
    while lo < hi
        invariant
            lo <= hi <= list@.len(),
            keys_ascend(list@),
            forall|i: int| 0 <= i < lo ==> key_lt(#[trigger] list@[i], key),
            forall|i: int| hi <= i < list@.len() ==> !key_lt(#[trigger] list@[i], key),
        decreases hi - lo,
    {
        let mid: usize = lo + (hi - lo) / 2;
        if is_key_lt(list[mid], key) {
            proof {
                assert forall|i: int| 0 <= i < mid + 1 implies key_lt(#[trigger] list@[i], key) by {
                    if i < mid {
                        assert(key_lt(list@[i], list@[mid as int]));
                    }
                }
            }
            lo = mid + 1;
        } else {
            proof {
                assert forall|i: int| mid <= i < list@.len() implies !key_lt(
                    #[trigger] list@[i],
                    key,
                ) by {
                    if mid < i {
                        assert(key_lt(list@[mid as int], list@[i]));
                    }
                }
            }
            hi = mid;
        }
    }
    proof {
        if list@.contains(key) {
            let i = list@.index_of(key);
            assert(!key_lt(list@[i], key));
            if lo < i {
                assert(key_lt(list@[lo as int], list@[i]));
            }
        }
    }
    lo
}

/// Put `key` into the ordered list, unless it is there already.
fn insert_cell(list: &mut Vec<CellKey>, key: CellKey)
    requires
        keys_ascend(old(list)@),
    ensures
        keys_ascend(final(list)@),
        old(list)@.len() <= final(list)@.len() <= old(list)@.len() + 1,
        forall|y: CellKey| #[trigger]
            final(list)@.contains(y) <==> (old(list)@.contains(y) || y == key),
{
    let ghost v0 = list@;
    let i: usize = find_key(list, key);
    if i < list.len() && list[i] == key {
        assert(v0[i as int] == key);
    } else {
        list.insert(i, key);
        proof {
            assert(list@[i as int] == key);
            assert forall|a: int, b: int| 0 <= a < b < list@.len() implies key_lt(
                #[trigger] list@[a],
                #[trigger] list@[b],
            ) by {
                let a0 = if a < i { a } else { a - 1 };
                let b0 = if b < i { b } else { b - 1 };
                if a == i {
                    assert(list@[b] == v0[b0]);
                    assert(!key_lt(v0[b0], key));
                    if v0[b0] == key {
                        assert(v0.contains(key));
                    }
                } else if b == i {
                    assert(list@[a] == v0[a0]);
                } else {
                    assert(list@[a] == v0[a0]);
                    assert(list@[b] == v0[b0]);
                }
            }
            assert forall|y: CellKey| #[trigger] list@.contains(y) <==> (v0.contains(y) || y
                == key) by {
                if v0.contains(y) {
                    let j = v0.index_of(y);
                    assert(list@[if j < i { j } else { j + 1 }] == y);
                }
                if list@.contains(y) {
                    let j = list@.index_of(y);
                    if j != i {
                        assert(v0[if j < i { j } else { j - 1 }] == y);
                    }
                }
            }
        }
    }
}

fn half(v: i64) -> (r: i64)
    ensures
        r == v as int / 2,
{
    if v >= 0 {
        v / 2
    } else {
        -((-(v + 1)) / 2) - 1
    }
}

fn saturate(v: i64) -> (r: i32)
    ensures
        r == saturated(v as int),
{
    if v < -0x8000_0000 {
        i32::MIN
    } else if v > 0x7fff_ffff {
        i32::MAX
    } else {
        v as i32
    }
}

/// The grid coordinates after `k` halvings.
spec fn pos_halved(pos: Seq<GridPos>, cur: Seq<GridPos>, k: nat) -> bool {
    &&& cur.len() == pos.len()
    &&& forall|t: int|
        0 <= t < pos.len() ==> {
            &&& (#[trigger] cur[t]).x == halved(pos[t].x as int, k)
            &&& cur[t].y == halved(pos[t].y as int, k)
            &&& cur[t].z == halved(pos[t].z as int, k)
        }
}

fn cell_key(
    scene: &Scene,
    plants: &PlantSet,
    regs: &[SwayRegion],
    Ghost(pos): Ghost<Seq<GridPos>>,
    cur: &[GridPos],
    Ghost(k): Ghost<nat>,
    t: usize,
) -> (r: CellKey)
    requires
        scene.wf(),
        regions::regions_sorted(regs@),
        plants.tri_plant@.len() == scene.tris(),
        pos.len() == scene.tris(),
        pos_halved(pos, cur@, k),
        t < scene.tris(),
        regions::region_at(regs@, t as int) is Some,
    ensures
        r == key_at(plants, regs@, pos, t as int, k),
{
    let region: u32 = regions::region_of(regs, t as u32).unwrap();
    assert(cur@[t as int].x == halved(pos[t as int].x as int, k));
    CellKey {
        plant: plants.tri_plant[t],
        region,
        x: saturate(cur[t].x),
        y: saturate(cur[t].y),
        z: saturate(cur[t].z),
    }
}

proof fn lemma_ascend_no_dup(s: Seq<CellKey>)
    requires
        keys_ascend(s),
    ensures
        s.no_duplicates(),
{
    assert forall|i: int, j: int|
        0 <= i < s.len() && 0 <= j < s.len() && i != j implies s[i] != s[j] by {
        if i < j {
            assert(key_lt(s[i], s[j]));
        } else {
            assert(key_lt(s[j], s[i]));
        }
    }
}

/// A list whose entries all occur in an ordered list is no longer than it.
proof fn lemma_sublist_len(a: Seq<CellKey>, b: Seq<CellKey>)
    requires
        keys_ascend(a),
        keys_ascend(b),
        forall|x: CellKey| #[trigger] a.contains(x) ==> b.contains(x),
    ensures
        a.len() <= b.len(),
{
    lemma_ascend_no_dup(a);
    lemma_ascend_no_dup(b);
    a.unique_seq_to_set();
    b.unique_seq_to_set();
    assert(a.to_set().subset_of(b.to_set()));
    vstd::seq_lib::seq_to_set_is_finite(b);
    vstd::set_lib::lemma_len_subset(a.to_set(), b.to_set());
}

/// List the occupied cells, or find that they are too many.
fn try_list(
    scene: &Scene,
    mask: &[bool],
    plants: &PlantSet,
    regs: &[SwayRegion],
    members: &[u32],
    Ghost(pos): Ghost<Seq<GridPos>>,
    cur: &[GridPos],
    Ghost(k): Ghost<nat>,
) -> (r: Option<Vec<CellKey>>)
    requires
        scene.wf(),
        regions::regions_sorted(regs@),
        plants.tri_plant@.len() == scene.tris(),
        pos.len() == scene.tris(),
        pos_halved(pos, cur@, k),
        forall|t: u32| #[trigger]
            members@.contains(t) <==> (t < scene.tris() && components::masked(
                scene,
                mask@,
                regs@,
                t as int,
            )),
    ensures
        r is Some <==> fits(scene, mask@, plants, regs@, pos, k),
        r matches Some(list) ==> list@.len() <= MAX_CELLS && lists_cells(
            scene,
            mask@,
            plants,
            regs@,
            pos,
            k,
            list@,
        ),
{
    let mut list: Vec<CellKey> = Vec::new();
    let mut i: usize = 0;
    while i < members.len()
        invariant
            i <= members@.len(),
            scene.wf(),
            regions::regions_sorted(regs@),
            plants.tri_plant@.len() == scene.tris(),
            pos.len() == scene.tris(),
            pos_halved(pos, cur@, k),
            forall|t: u32| #[trigger]
                members@.contains(t) <==> (t < scene.tris() && components::masked(
                    scene,
                    mask@,
                    regs@,
                    t as int,
                )),
            keys_ascend(list@),
            list@.len() <= MAX_CELLS,
            forall|key: CellKey| #[trigger]
                list@.contains(key) ==> occupied(scene, mask@, plants, regs@, pos, k, key),
            forall|j: int|
                0 <= j < i ==> list@.contains(
                    key_at(plants, regs@, pos, #[trigger] members@[j] as int, k),
                ),
        decreases members@.len() - i,
    {
        let t: u32 = members[i];
        assert(members@.contains(t));
        let key: CellKey = cell_key(
            scene,
            plants,
            regs,
            Ghost(pos),
            cur,
            Ghost(k),
            t as usize,
        );
        let ghost l0 = list@;
        insert_cell(&mut list, key);
        proof {
            assert forall|x: CellKey| #[trigger] list@.contains(x) implies occupied(
                scene,
                mask@,
                plants,
                regs@,
                pos,
                k,
                x,
            ) by {
                if x == key {
                    assert(components::masked(scene, mask@, regs@, t as int));
                } else {
                    assert(l0.contains(x));
                }
            }
        }
        if list.len() > MAX_CELLS {
            proof {
                if fits(scene, mask@, plants, regs@, pos, k) {
                    let full = choose|full: Seq<CellKey>|
                        #[trigger] lists_cells(scene, mask@, plants, regs@, pos, k, full)
                            && full.len() <= MAX_CELLS;
                    assert forall|x: CellKey| #[trigger] list@.contains(x) implies full.contains(x) by {
                        assert(occupied(scene, mask@, plants, regs@, pos, k, x));
                    }
                    lemma_sublist_len(list@, full);
                }
            }
            return None;
        }
        i = i + 1;
    }
    proof {
        assert forall|key: CellKey| #[trigger] list@.contains(key) <==> occupied(
            scene,
            mask@,
            plants,
            regs@,
            pos,
            k,
            key,
        ) by {
            if occupied(scene, mask@, plants, regs@, pos, k, key) {
                let t = choose|t: int|
                    0 <= t < scene.tris() && #[trigger] components::masked(scene, mask@, regs@, t)
                        && key_at(plants, regs@, pos, t, k) == key;
                assert(members@.contains(t as u32));
                let j = members@.index_of(t as u32);
                assert(members@[j] == t as u32);
                assert(list@.contains(key_at(plants, regs@, pos, members@[j] as int, k)));
            }
        }
        assert(lists_cells(scene, mask@, plants, regs@, pos, k, list@));
    }
    Some(list)
}

/// Double the pitch once: halve every coordinate.
fn halve_all(Ghost(pos): Ghost<Seq<GridPos>>, cur: &[GridPos], Ghost(k): Ghost<nat>) -> (r: Vec<
    GridPos,
>)
    requires
        pos_halved(pos, cur@, k),
    ensures
        pos_halved(pos, r@, k + 1),
{
    let mut r: Vec<GridPos> = Vec::with_capacity(cur.len());
    let mut t: usize = 0;
    while t < cur.len()
        invariant
            t <= cur@.len(),
            pos_halved(pos, cur@, k),
            r@.len() == t,
            forall|u: int|
                0 <= u < t ==> {
                    &&& (#[trigger] r@[u]).x == halved(pos[u].x as int, k + 1)
                    &&& r@[u].y == halved(pos[u].y as int, k + 1)
                    &&& r@[u].z == halved(pos[u].z as int, k + 1)
                },
        decreases cur@.len() - t,
    {
        let g: GridPos = cur[t];
        assert(cur@[t as int].x == halved(pos[t as int].x as int, k));
        r.push(GridPos { x: half(g.x), y: half(g.y), z: half(g.z) });
        t = t + 1;
    }
    r
}

/// The swaying triangles, ascending.
fn members_of(scene: &Scene, mask: &[bool], regs: &[SwayRegion]) -> (r: Vec<u32>)
    requires
        scene.wf(),
        regions::regions_sorted(regs@),
    ensures
        forall|t: u32| #[trigger]
            r@.contains(t) <==> (t < scene.tris() && components::masked(
                scene,
                mask@,
                regs@,
                t as int,
            )),
{
    let mut r: Vec<u32> = Vec::new();
    let mut t: u32 = 0;
    while (t as usize) < scene.indices.len()
        invariant
            t <= scene.tris(),
            scene.wf(),
            regions::regions_sorted(regs@),
            forall|u: u32| #[trigger]
                r@.contains(u) <==> (u < t && components::masked(scene, mask@, regs@, u as int)),
        decreases scene.tris() - t,
    {
        let ghost r0 = r@;
        if components::is_masked(scene, mask, regs, t as usize) {
            r.push(t);
            proof {
                assert(r@[r0.len() as int] == t);
            }
        }
        proof {
            assert forall|u: u32| #[trigger] r@.contains(u) <==> (u < t + 1 && components::masked(
                scene,
                mask@,
                regs@,
                u as int,
            )) by {
                if r0.contains(u) {
                    assert(r@[r0.index_of(u)] == u);
                }
                if r@.contains(u) {
                    let i = r@.index_of(u);
                    if i < r0.len() {
                        assert(r0[i] == u);
                    }
                }
            }
        }
        t = t + 1;
    }
    r
}

proof fn lemma_extent_prefix(scene: &Scene, a: Seq<u16>, b: Seq<u16>, c: u16, n: int)
    requires
        0 <= n <= a.len(),
        n <= b.len(),
        forall|u: int| 0 <= u < n ==> a[u] == b[u],
    ensures
        cell_extent(scene, a, c, n) == cell_extent(scene, b, c, n),
    decreases n,
{
    if n > 0 {
        lemma_extent_prefix(scene, a, b, c, n - 1);
    }
}

/// Partition the swaying triangles into cells. `pos` gives each triangle's
/// grid coordinates at its region's finest pitch; the pitch of every region is
/// doubled together until the occupied cells fit the cap. `None` where no
/// triangle sways.
pub fn cell_partition(
    scene: &Scene,
    plant_mat: &[bool],
    plants: &PlantSet,
    regs: &[SwayRegion],
    pos: &[GridPos],
) -> (r: Option<Partition>)
    requires
        scene.wf(),
        regions::regions_sorted(regs@),
        plants.tri_plant@.len() == scene.tris(),
        pos@.len() == scene.tris(),
        fits(scene, plant_mat@, plants, regs@, pos@, COARSEST as nat),
    ensures
        r is Some <==> any_sways(scene, plant_mat@, regs@),
        r matches Some(p) ==> p.describes(scene, plant_mat@, plants, regs@, pos@),
{
    let members: Vec<u32> = members_of(scene, plant_mat, regs);
    if members.len() == 0 {
        proof {
            assert forall|t: int| 0 <= t < scene.tris() implies !#[trigger] components::masked(
                scene,
                plant_mat@,
                regs@,
                t,
            ) by {
                if components::masked(scene, plant_mat@, regs@, t) {
                    assert(members@.contains(t as u32));
                }
            }
        }
        return None;
    }
    proof {
        let t0 = members@[0];
        assert(members@.contains(t0));
        assert(components::masked(scene, plant_mat@, regs@, t0 as int));
    }
    let mut cur: Vec<GridPos> = Vec::with_capacity(pos.len());
    let mut t: usize = 0;
    while t < pos.len()
        invariant
            t <= pos@.len(),
            cur@ == pos@.take(t as int),
        decreases pos@.len() - t,
    {
        cur.push(pos[t]);
        t = t + 1;
    }
    assert(cur@ == pos@);
    let mut k: u32 = 0;
    let mut found: Option<Vec<CellKey>> = try_list(
        scene,
        plant_mat,
        plants,
        regs,
        members.as_slice(),
        Ghost(pos@),
        cur.as_slice(),
        Ghost(0),
    );
    while found.is_none()
        invariant
            scene.wf(),
            regions::regions_sorted(regs@),
            plants.tri_plant@.len() == scene.tris(),
            pos@.len() == scene.tris(),
            fits(scene, plant_mat@, plants, regs@, pos@, COARSEST as nat),
            k <= COARSEST,
            pos_halved(pos@, cur@, k as nat),
            forall|u: u32| #[trigger]
                members@.contains(u) <==> (u < scene.tris() && components::masked(
                    scene,
                    plant_mat@,
                    regs@,
                    u as int,
                )),
            forall|j: nat| j < k ==> !#[trigger] fits(scene, plant_mat@, plants, regs@, pos@, j),
            found is Some <==> fits(scene, plant_mat@, plants, regs@, pos@, k as nat),
            found matches Some(list) ==> list@.len() <= MAX_CELLS && lists_cells(
                scene,
                plant_mat@,
                plants,
                regs@,
                pos@,
                k as nat,
                list@,
            ),
        decreases COARSEST - k,
    {
        cur = halve_all(Ghost(pos@), cur.as_slice(), Ghost(k as nat));
        k = k + 1;
        found =
        try_list(
            scene,
            plant_mat,
            plants,
            regs,
            members.as_slice(),
            Ghost(pos@),
            cur.as_slice(),
            Ghost(k as nat),
        );
    }
    let keys: Vec<CellKey> = found.unwrap();
    let n: usize = scene.indices.len();
    let mut tri_cell: Vec<u16> = Vec::with_capacity(n);
    let mut y0: Vec<u32> = Vec::with_capacity(keys.len());
    let mut y1: Vec<u32> = Vec::with_capacity(keys.len());
    let mut c: usize = 0;
    while c < keys.len()
        invariant
            c <= keys@.len(),
            y0@.len() == c,
            y1@.len() == c,
            forall|d: u16|
                d < c ==> (#[trigger] y0@[d as int], y1@[d as int]) == cell_extent(
                    scene,
                    tri_cell@,
                    d,
                    0,
                ),
        decreases keys@.len() - c,
    {
        y0.push(bits::INFINITY);
        y1.push(bits::NEG_INFINITY);
        c = c + 1;
    }
    let mut t: usize = 0;
    while t < n
        invariant
            n == scene.tris(),
            t <= n,
            scene.wf(),
            regions::regions_sorted(regs@),
            plants.tri_plant@.len() == scene.tris(),
            pos@.len() == scene.tris(),
            pos_halved(pos@, cur@, k as nat),
            keys@.len() <= MAX_CELLS,
            lists_cells(scene, plant_mat@, plants, regs@, pos@, k as nat, keys@),
            tri_cell@.len() == t,
            forall|u: int|
                0 <= u < t ==> if components::masked(scene, plant_mat@, regs@, u) {
                    &&& #[trigger] tri_cell@[u] != STATIC_CELL
                    &&& tri_cell@[u] < keys@.len()
                    &&& keys@[tri_cell@[u] as int] == key_at(plants, regs@, pos@, u, k as nat)
                } else {
                    tri_cell@[u] == STATIC_CELL
                },
            y0@.len() == keys@.len(),
            y1@.len() == keys@.len(),
            forall|d: u16|
                d < keys@.len() ==> (#[trigger] y0@[d as int], y1@[d as int]) == cell_extent(
                    scene,
                    tri_cell@,
                    d,
                    t as int,
                ),
        decreases n - t,
    {
        let ghost tc0 = tri_cell@;
        if components::is_masked(scene, plant_mat, regs, t) {
            let key: CellKey = cell_key(
                scene,
                plants,
                regs,
                Ghost(pos@),
                cur.as_slice(),
                Ghost(k as nat),
                t,
            );
            proof {
                assert(components::masked(scene, plant_mat@, regs@, t as int));
                assert(occupied(scene, plant_mat@, plants, regs@, pos@, k as nat, key));
                assert(keys@.contains(key));
            }
            let c: usize = find_key(&keys, key);
            assert(scene.indices@[t as int]@[0] < scene.positions@.len());
            assert(scene.indices@[t as int]@[1] < scene.positions@.len());
            assert(scene.indices@[t as int]@[2] < scene.positions@.len());
            let h0: u32 = scene.positions[scene.indices[t][0] as usize].y;
            let h1: u32 = scene.positions[scene.indices[t][1] as usize].y;
            let h2: u32 = scene.positions[scene.indices[t][2] as usize].y;
            let ghost a0 = y0@;
            let ghost a1 = y1@;
            let lo: u32 = bits::lesser(bits::lesser(bits::lesser(y0[c], h0), h1), h2);
            let hi: u32 = bits::greater(bits::greater(bits::greater(y1[c], h0), h1), h2);
            y0.set(c, lo);
            y1.set(c, hi);
            tri_cell.push(c as u16);
            proof {
                assert forall|d: u16| d < keys@.len() implies (#[trigger] y0@[d as int], y1@[d as int])
                    == cell_extent(scene, tri_cell@, d, t + 1) by {
                    lemma_extent_prefix(scene, tc0, tri_cell@, d, t as int);
                    assert((a0[d as int], a1[d as int]) == cell_extent(scene, tc0, d, t as int));
                }
            }
        } else {
            tri_cell.push(STATIC_CELL);
            proof {
                assert forall|d: u16| d < keys@.len() implies (#[trigger] y0@[d as int], y1@[d as int])
                    == cell_extent(scene, tri_cell@, d, t + 1) by {
                    lemma_extent_prefix(scene, tc0, tri_cell@, d, t as int);
                }
            }
        }
        t = t + 1;
    }
    proof {
        let t0 = members@[0] as int;
        assert(tri_cell@[t0] != STATIC_CELL);
    }
    Some(Partition { keys, level: k, tri_cell, y0, y1 })
}

/// One sway cell: a bucket of triangles that moves as one. Scalars are bit
/// patterns.
#[derive(Clone, Copy, Debug, PartialEq, Eq, Structural)]
pub struct SwayCell {
    pub anchor: Bits3,
    /// Lowest and highest member corner.
    pub y0: u32,
    pub y1: u32,
    /// Displacement weight at height y is `a + b * y`.
    pub a: u32,
    pub b: u32,
    /// Bounds the weight over the cell.
    pub w_max: u32,
    /// Flutter key: `PLANT_KEY_BIT` and the plant id, or the cell's own index.
    pub key: u32,
    /// The region's content diagonal.
    pub scale: u32,
}

/// A cell's pose as its own geometry gives it.
#[derive(Clone, Copy, Debug, PartialEq, Eq, Structural)]
pub struct CellPose {
    pub anchor: Bits3,
    pub a: u32,
    pub b: u32,
    pub w_max: u32,
}

/// The cell of a key: a plant's cell takes the plant's anchor and chord, a
/// field cell its own.
pub open spec fn cell_spec(
    part: &Partition,
    plants: Seq<Plant>,
    poses: Seq<CellPose>,
    scales: Seq<u32>,
    c: int,
) -> SwayCell {
    let k = part.keys@[c];
    let pose = poses[c];
    let scale = scales[k.region as int];
    if k.plant != FIELD_PLANT {
        let p = plants[k.plant as int];
        SwayCell {
            anchor: p.anchor,
            y0: part.y0@[c],
            y1: part.y1@[c],
            a: p.a,
            b: p.b,
            w_max: pose.w_max,
            key: PLANT_KEY_BIT | k.plant,
            scale,
        }
    } else {
        SwayCell {
            anchor: pose.anchor,
            y0: part.y0@[c],
            y1: part.y1@[c],
            a: pose.a,
            b: pose.b,
            w_max: pose.w_max,
            key: c as u32,
            scale,
        }
    }
}

/// Every key names a listed plant (or the field) and a listed region.
pub open spec fn keys_in_range(part: &Partition, n_plants: nat, n_regions: nat) -> bool {
    forall|c: int|
        0 <= c < part.keys@.len() ==> {
            &&& (#[trigger] part.keys@[c]).plant == FIELD_PLANT || part.keys@[c].plant < n_plants
            &&& part.keys@[c].region < n_regions
        }
}

/// The cells of a partition, with their poses.
pub fn sway_cells(part: &Partition, plants: &[Plant], poses: &[CellPose], scales: &[u32]) -> (r:
    Vec<SwayCell>)
    requires
        part.wf(),
        poses@.len() == part.keys@.len(),
        keys_in_range(part, plants@.len(), scales@.len()),
    ensures
        r@.len() == part.keys@.len(),
        forall|c: int|
            0 <= c < r@.len() ==> #[trigger] r@[c] == cell_spec(
                part,
                plants@,
                poses@,
                scales@,
                c,
            ),
{
    let n: usize = part.keys.len();
    let mut r: Vec<SwayCell> = Vec::with_capacity(n);
    let mut c: usize = 0;
    while c < n
        invariant
            n == part.keys@.len(),
            c <= n,
            part.wf(),
            poses@.len() == part.keys@.len(),
            keys_in_range(part, plants@.len(), scales@.len()),
            r@.len() == c,
            forall|d: int|
                0 <= d < c ==> #[trigger] r@[d] == cell_spec(part, plants@, poses@, scales@, d),
        decreases n - c,
    {
        let k: CellKey = part.keys[c];
        assert(part.keys@[c as int] == k);
        let pose: CellPose = poses[c];
        let scale: u32 = scales[k.region as usize];
        if k.plant != FIELD_PLANT {
            let p: Plant = plants[k.plant as usize];
            r.push(
                SwayCell {
                    anchor: p.anchor,
                    y0: part.y0[c],
                    y1: part.y1[c],
                    a: p.a,
                    b: p.b,
                    w_max: pose.w_max,
                    key: PLANT_KEY_BIT | k.plant,
                    scale,
                },
            );
        } else {
            r.push(
                SwayCell {
                    anchor: pose.anchor,
                    y0: part.y0[c],
                    y1: part.y1[c],
                    a: pose.a,
                    b: pose.b,
                    w_max: pose.w_max,
                    key: c as u32,
                    scale,
                },
            );
        }
        c = c + 1;
    }
    r
}

proof fn lemma_key_bit(p: u32)
    requires
        p < PLANT_KEY_BIT,
    ensures
        (PLANT_KEY_BIT | p) == PLANT_KEY_BIT + p,
{
    assert(p < 0x8000_0000u32 ==> (0x8000_0000u32 | p) == 0x8000_0000u32 + p) by (bit_vector);
}

/// No tearing: all cells of one plant carry the same anchor, chord, flutter
/// key and, where they share a region, scale.
pub proof fn plant_cells_share_their_pose(
    part: &Partition,
    plants: Seq<Plant>,
    poses: Seq<CellPose>,
    scales: Seq<u32>,
    c: int,
    d: int,
)
    requires
        part.wf(),
        0 <= c < part.keys@.len(),
        0 <= d < part.keys@.len(),
        part.keys@[c].plant == part.keys@[d].plant,
        part.keys@[c].plant != FIELD_PLANT,
    ensures
        ({
            let a = cell_spec(part, plants, poses, scales, c);
            let b = cell_spec(part, plants, poses, scales, d);
            &&& a.anchor == b.anchor
            &&& a.a == b.a
            &&& a.b == b.b
            &&& a.key == b.key
            &&& part.keys@[c].region == part.keys@[d].region ==> a.scale == b.scale
        }),
{
}

/// Flutter keys never collide: two cells share a key exactly when they belong
/// to one plant or are the same cell.
pub proof fn cell_keys_are_distinct(
    part: &Partition,
    plants: Seq<Plant>,
    poses: Seq<CellPose>,
    scales: Seq<u32>,
    c: int,
    d: int,
)
    requires
        part.wf(),
        plants.len() <= MAX_PLANTS,
        keys_in_range(part, plants.len(), scales.len()),
        0 <= c < part.keys@.len(),
        0 <= d < part.keys@.len(),
    ensures
        cell_spec(part, plants, poses, scales, c).key == cell_spec(part, plants, poses, scales, d).key
            <==> (c == d || (part.keys@[c].plant != FIELD_PLANT && part.keys@[c].plant
            == part.keys@[d].plant)),
{
    let p = part.keys@[c].plant;
    let q = part.keys@[d].plant;
    if p != FIELD_PLANT {
        lemma_key_bit(p);
    }
    if q != FIELD_PLANT {
        lemma_key_bit(q);
    }
}

proof fn lemma_halve_first(v: int, k: nat)
    requires
        k >= 1,
    ensures
        halved(v, k) == halved(v / 2, (k - 1) as nat),
    decreases k,
{
    if k > 1 {
        lemma_halve_first(v, (k - 1) as nat);
    } else {
        reveal_with_fuel(halved, 2);
    }
}

proof fn lemma_halved_to_zero(v: int, k: nat)
    requires
        0 <= v < vstd::arithmetic::power2::pow2(k),
    ensures
        halved(v, k) == 0,
    decreases k,
{
    if k == 0 {
        vstd::arithmetic::power2::lemma2_to64();
    } else {
        lemma_halve_first(v, k);
        vstd::arithmetic::power2::lemma_pow2_unfold(k);
        lemma_halved_to_zero(v / 2, (k - 1) as nat);
    }
}

/// Where a new key belongs in an ordered list.
proof fn lemma_slot(list: Seq<CellKey>, key: CellKey) -> (i: int)
    requires
        keys_ascend(list),
        !list.contains(key),
    ensures
        0 <= i <= list.len(),
        keys_ascend(list.insert(i, key)),
    decreases list.len(),
{
    if list.len() == 0 || key_lt(list.last(), key) {
        let i = list.len() as int;
        assert forall|a: int, b: int| 0 <= a < b < list.insert(i, key).len() implies key_lt(
            #[trigger] list.insert(i, key)[a],
            #[trigger] list.insert(i, key)[b],
        ) by {
            if b == i && a < i - 1 {
                assert(key_lt(list[a], list[i - 1]));
            }
        }
        i
    } else {
        let init = list.drop_last();
        assert forall|x: CellKey| init.contains(x) implies list.contains(x) by {
            let j = init.index_of(x);
            assert(list[j] == x);
        }
        assert(list.contains(list.last()));
        let i = lemma_slot(init, key);
        let n = list.len() as int;
        let w = list.insert(i, key);
        assert forall|a: int, b: int| 0 <= a < b < w.len() implies key_lt(
            #[trigger] w[a],
            #[trigger] w[b],
        ) by {
            if b < n {
                assert(w[a] == init.insert(i, key)[a]);
                assert(w[b] == init.insert(i, key)[b]);
            } else {
                assert(w[b] == list.last());
                if a < i {
                    assert(w[a] == list[a]);
                } else if a == i {
                    assert(w[a] == key);
                } else {
                    assert(w[a] == list[a - 1]);
                }
            }
        }
        i
    }
}

/// The occupied cells of the triangles below `n`, as an ordered list.
proof fn lemma_listing(
    scene: &Scene,
    mask: Seq<bool>,
    plants: &PlantSet,
    rs: Seq<SwayRegion>,
    pos: Seq<GridPos>,
    k: nat,
    n: int,
) -> (list: Seq<CellKey>)
    requires
        0 <= n <= scene.tris(),
    ensures
        keys_ascend(list),
        forall|key: CellKey| #[trigger]
            list.contains(key) <==> exists|t: int|
                0 <= t < n && #[trigger] components::masked(scene, mask, rs, t) && key_at(
                    plants,
                    rs,
                    pos,
                    t,
                    k,
                ) == key,
    decreases n,
{
    if n == 0 {
        Seq::empty()
    } else {
        let prev = lemma_listing(scene, mask, plants, rs, pos, k, n - 1);
        let key = key_at(plants, rs, pos, n - 1, k);
        let fresh = components::masked(scene, mask, rs, n - 1) && !prev.contains(key);
        let i = if fresh {
            lemma_slot(prev, key)
        } else {
            0
        };
        let list = if fresh {
            prev.insert(i, key)
        } else {
            prev
        };
        assert forall|x: CellKey| #[trigger] list.contains(x) <==> exists|t: int|
            0 <= t < n && #[trigger] components::masked(scene, mask, rs, t) && key_at(
                plants,
                rs,
                pos,
                t,
                k,
            ) == x by {
            if fresh {
                prev.insert_ensures(i, key);
                assert(list[i] == key);
                if prev.contains(x) {
                    let j = prev.index_of(x);
                    assert(list[if j < i { j } else { j + 1 }] == x);
                }
                if list.contains(x) && x != key {
                    let j = list.index_of(x);
                    assert(prev[if j < i { j } else { j - 1 }] == x);
                }
            }
            if exists|t: int|
                0 <= t < n && #[trigger] components::masked(scene, mask, rs, t) && key_at(
                    plants,
                    rs,
                    pos,
                    t,
                    k,
                ) == x {
                let t = choose|t: int|
                    0 <= t < n && #[trigger] components::masked(scene, mask, rs, t) && key_at(
                        plants,
                        rs,
                        pos,
                        t,
                        k,
                    ) == x;
                if t < n - 1 {
                    assert(prev.contains(x));
                } else {
                    assert(x == key);
                }
            }
            if list.contains(x) {
                if prev.contains(x) {
                    let t = choose|t: int|
                        0 <= t < n - 1 && #[trigger] components::masked(scene, mask, rs, t)
                            && key_at(plants, rs, pos, t, k) == x;
                    assert(components::masked(scene, mask, rs, t));
                } else {
                    assert(components::masked(scene, mask, rs, n - 1));
                }
            }
        }
        list
    }
}

/// The slot a cell takes when every coordinate is zero: one per plant, then
/// one per region for the field.
spec fn floor_slot(n_plants: int, key: CellKey) -> int {
    if key.plant == FIELD_PLANT {
        n_plants + key.region
    } else {
        key.plant as int
    }
}

/// Coarsening ends. Where no coordinate is negative, no plant spans two
/// regions, the plants are within their cap and the regions are a quarter of
/// the cell cap at most, the coarsest grid has one cell per plant and one
/// field cell per region, which fits.
pub proof fn coarsest_grid_fits(
    scene: &Scene,
    mask: Seq<bool>,
    plants: &PlantSet,
    rs: Seq<SwayRegion>,
    pos: Seq<GridPos>,
)
    requires
        scene.wf(),
        regions::regions_sorted(rs),
        rs.len() <= MAX_CELLS / 4,
        plants.wf(),
        plants.plants@.len() <= MAX_PLANTS,
        plants.tri_plant@.len() == scene.tris(),
        pos.len() == scene.tris(),
        forall|t: int|
            0 <= t < pos.len() ==> (#[trigger] pos[t]).x >= 0 && pos[t].y >= 0 && pos[t].z >= 0,
        forall|t: int, u: int|
            #![trigger plants.tri_plant@[t], plants.tri_plant@[u]]
            0 <= t < scene.tris() && 0 <= u < scene.tris() && components::masked(scene, mask, rs, t)
                && components::masked(scene, mask, rs, u) && plants.tri_plant@[t]
                == plants.tri_plant@[u] && plants.tri_plant@[t] != FIELD_PLANT
                ==> regions::region_at(rs, t) == regions::region_at(rs, u),
    ensures
        fits(scene, mask, plants, rs, pos, COARSEST as nat),
{
    let k = COARSEST as nat;
    let list = lemma_listing(scene, mask, plants, rs, pos, k, scene.tris() as int);
    assert forall|key: CellKey| #[trigger] list.contains(key) <==> occupied(
        scene,
        mask,
        plants,
        rs,
        pos,
        k,
        key,
    ) by {}
    assert(lists_cells(scene, mask, plants, rs, pos, k, list));
    let p = plants.plants@.len() as int;
    let m = p + rs.len();
    let slots = list.map_values(|key: CellKey| floor_slot(p, key));
    assert forall|i: int| 0 <= i < list.len() implies {
        &&& 0 <= floor_slot(p, #[trigger] list[i]) < m
        &&& list[i].x == 0
        &&& list[i].y == 0
        &&& list[i].z == 0
    } by {
        assert(list.contains(list[i]));
        let t = choose|t: int|
            0 <= t < scene.tris() && #[trigger] components::masked(scene, mask, rs, t) && key_at(
                plants,
                rs,
                pos,
                t,
                k,
            ) == list[i];
        vstd::arithmetic::power2::lemma2_to64();
        assert(pos[t].x >= 0);
        lemma_halved_to_zero(pos[t].x as int, k);
        lemma_halved_to_zero(pos[t].y as int, k);
        lemma_halved_to_zero(pos[t].z as int, k);
        let r = choose|r: int| regions::in_region(rs, r, t);
        regions::lemma_region_unique(rs, r, t);
        assert(plants.tri_plant@[t] == FIELD_PLANT || plants.tri_plant@[t] < p);
    }
    assert forall|i: int, j: int|
        0 <= i < slots.len() && 0 <= j < slots.len() && i != j implies slots[i] != slots[j] by {
        if slots[i] == slots[j] {
            assert(list.contains(list[i]));
            assert(list.contains(list[j]));
            let t = choose|t: int|
                0 <= t < scene.tris() && #[trigger] components::masked(scene, mask, rs, t) && key_at(
                    plants,
                    rs,
                    pos,
                    t,
                    k,
                ) == list[i];
            let u = choose|u: int|
                0 <= u < scene.tris() && #[trigger] components::masked(scene, mask, rs, u) && key_at(
                    plants,
                    rs,
                    pos,
                    u,
                    k,
                ) == list[j];
            assert(plants.tri_plant@[t] == FIELD_PLANT || plants.tri_plant@[t] < p);
            assert(plants.tri_plant@[u] == FIELD_PLANT || plants.tri_plant@[u] < p);
            assert(floor_slot(p, list[i]) == slots[i]);
            assert(floor_slot(p, list[j]) == slots[j]);
            assert(list[i] == list[j]);
            lemma_ascend_no_dup(list);
        }
    }
    slots.unique_seq_to_set();
    vstd::set_lib::lemma_int_range(0, m);
    assert(slots.to_set().subset_of(vstd::set_lib::set_int_range(0, m)));
    vstd::set_lib::lemma_len_subset(slots.to_set(), vstd::set_lib::set_int_range(0, m));
}

/// First link of a cell's flutter hashes: cells of one key flutter alike.
pub fn flutter_seed(key: u32) -> (h: u32)
    ensures
        h == key.wrapping_mul(0x9e37_79b9) ^ 0x5ea5_1eafu32,
{
    key.wrapping_mul(0x9e37_79b9) ^ 0x5ea5_1eafu32
}

/// Ascending lists of the same keys are the same.
proof fn lemma_same_keys(a: Seq<CellKey>, b: Seq<CellKey>)
    requires
        keys_ascend(a),
        keys_ascend(b),
        forall|key: CellKey| #[trigger] a.contains(key) <==> b.contains(key),
    ensures
        a == b,
    decreases a.len(),
{
    if a.len() == 0 {
        if b.len() > 0 {
            assert(b.contains(b[0]));
            assert(a.contains(b[0]));
        }
        assert(a =~= b);
    } else {
        assert(a.contains(a.last()));
        let j = choose|j: int| 0 <= j < b.len() && b[j] == a.last();
        assert(b.contains(b.last()));
        assert(a.contains(b.last()));
        let i = choose|i: int| 0 <= i < a.len() && a[i] == b.last();
        assert(a.last() == b.last()) by {
            if i < a.len() - 1 && j < b.len() - 1 {
                assert(key_lt(a[i], a[a.len() - 1]));
                assert(key_lt(b[j], b[b.len() - 1]));
            }
        }
        let (p, q) = (a.drop_last(), b.drop_last());
        assert forall|key: CellKey| #[trigger] p.contains(key) <==> q.contains(key) by {
            if p.contains(key) {
                let i = choose|i: int| 0 <= i < p.len() && p[i] == key;
                assert(key_lt(a[i], a[a.len() - 1]));
                assert(a.contains(key));
                let j = choose|j: int| 0 <= j < b.len() && b[j] == key;
                assert(j < b.len() - 1);
                assert(q[j] == key);
            }
            if q.contains(key) {
                let j = choose|j: int| 0 <= j < q.len() && q[j] == key;
                assert(key_lt(b[j], b[b.len() - 1]));
                assert(b.contains(key));
                assert(a.contains(key));
                let i = choose|i: int| 0 <= i < a.len() && a[i] == key;
                assert(i < a.len() - 1);
                assert(p[i] == key);
            }
        }
        lemma_same_keys(p, q);
        assert(a =~= p.push(a.last()));
        assert(b =~= q.push(b.last()));
    }
}

/// The partition of a scene is determined: two partitions of it agree in their
/// cells, their pitch and the cell of every triangle.
pub proof fn partition_is_determined(
    a: Partition,
    b: Partition,
    scene: &Scene,
    mask: Seq<bool>,
    plants: &PlantSet,
    rs: Seq<SwayRegion>,
    pos: Seq<GridPos>,
)
    requires
        a.describes(scene, mask, plants, rs, pos),
        b.describes(scene, mask, plants, rs, pos),
    ensures
        a.keys@ == b.keys@,
        a.level == b.level,
        a.tri_cell@ == b.tri_cell@,
        a.y0@ == b.y0@,
        a.y1@ == b.y1@,
{
    assert(fits(scene, mask, plants, rs, pos, a.level as nat));
    assert(fits(scene, mask, plants, rs, pos, b.level as nat));
    let k = a.level as nat;
    assert forall|key: CellKey| #[trigger] a.keys@.contains(key) <==> b.keys@.contains(key) by {
        assert(a.keys@.contains(key) <==> occupied(scene, mask, plants, rs, pos, k, key));
        assert(b.keys@.contains(key) <==> occupied(scene, mask, plants, rs, pos, k, key));
    }
    lemma_same_keys(a.keys@, b.keys@);
    assert forall|t: int| 0 <= t < scene.tris() implies #[trigger] a.tri_cell@[t]
        == b.tri_cell@[t] by {
        if components::masked(scene, mask, rs, t) {
            let (c, d) = (a.tri_cell@[t] as int, b.tri_cell@[t] as int);
            assert(a.keys@[c] == key_at(plants, rs, pos, t, k));
            assert(b.keys@[d] == key_at(plants, rs, pos, t, k));
            if c < d {
                assert(key_lt(a.keys@[c], a.keys@[d]));
            } else if d < c {
                assert(key_lt(a.keys@[d], a.keys@[c]));
            }
        }
    }
    assert(a.tri_cell@ =~= b.tri_cell@);
    assert forall|c: int|
        #![trigger a.y0@[c]]
        #![trigger a.y1@[c]]
        0 <= c < a.keys@.len() implies a.y0@[c] == b.y0@[c] && a.y1@[c] == b.y1@[c] by {
        let i = c as u16;
        let n = scene.tris() as int;
        assert((a.y0@[i as int], a.y1@[i as int]) == cell_extent(scene, a.tri_cell@, i, n));
        assert((b.y0@[i as int], b.y1@[i as int]) == cell_extent(scene, b.tri_cell@, i, n));
    }
    assert(a.y0@ =~= b.y0@);
    assert(a.y1@ =~= b.y1@);
}

/// The cells at the pitch before a partition's own are too many.
pub proof fn lemma_finer_is_too_full(
    part: &Partition,
    scene: &Scene,
    mask: Seq<bool>,
    plants: &PlantSet,
    rs: Seq<SwayRegion>,
    pos: Seq<GridPos>,
) -> (list: Seq<CellKey>)
    requires
        part.describes(scene, mask, plants, rs, pos),
        part.level > 0,
    ensures
        keys_ascend(list),
        list.len() > MAX_CELLS,
        forall|i: int|
            0 <= i < list.len() ==> occupied(
                scene,
                mask,
                plants,
                rs,
                pos,
                (part.level - 1) as nat,
                #[trigger] list[i],
            ),
{
    let k = (part.level - 1) as nat;
    let list = lemma_listing(scene, mask, plants, rs, pos, k, scene.tris() as int);
    assert forall|key: CellKey| #[trigger] list.contains(key) <==> occupied(
        scene,
        mask,
        plants,
        rs,
        pos,
        k,
        key,
    ) by {}
    assert(lists_cells(scene, mask, plants, rs, pos, k, list));
    assert(!fits(scene, mask, plants, rs, pos, k));
    assert forall|i: int| 0 <= i < list.len() implies occupied(
        scene,
        mask,
        plants,
        rs,
        pos,
        k,
        #[trigger] list[i],
    ) by {
        assert(list.contains(list[i]));
    }
    list
}

} // verus!
