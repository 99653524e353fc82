//! Voxel ranges on a region's grids, the integer keys that name their voxels,
//! and the contact grid, whose planes are given.
use crate::bits;
use crate::bits::BitsBox;
use vstd::prelude::*;

verus! {

/// The grid voxels a box reaches, inclusive on both ends of each axis.
#[derive(Clone, Copy, Debug, PartialEq, Eq, Structural)]
pub struct VoxRange {
    pub x0: i32,
    pub x1: i32,
    pub y0: i32,
    pub y1: i32,
    pub z0: i32,
    pub z1: i32,
}

/// The range covers voxel `(x, y, z)`.
pub open spec fn covers(r: VoxRange, x: i32, y: i32, z: i32) -> bool {
    r.x0 <= x <= r.x1 && r.y0 <= y <= r.y1 && r.z0 <= z <= r.z1
}

/// Some voxel is covered by both ranges.
pub open spec fn share_voxel(a: VoxRange, b: VoxRange) -> bool {
    exists|x: i32, y: i32, z: i32| #[trigger] covers(a, x, y, z) && covers(b, x, y, z)
}

/// The key of voxel `(x, y, z)` of region `r`.
pub open spec fn key_spec(r: u32, x: i32, y: i32, z: i32) -> int {
    r * 0x1_0000_0000_0000_0000_0000_0000 + (x + 0x8000_0000) * 0x1_0000_0000_0000_0000 + (y
        + 0x8000_0000) * 0x1_0000_0000 + (z + 0x8000_0000)
}

/// Distinct voxels, and voxels of distinct regions, have distinct keys.
pub proof fn keys_are_distinct(r: u32, x: i32, y: i32, z: i32, r2: u32, x2: i32, y2: i32, z2: i32)
    requires
        key_spec(r, x, y, z) == key_spec(r2, x2, y2, z2),
    ensures
        r == r2,
        x == x2,
        y == y2,
        z == z2,
{
}

/// The key of one voxel as a single integer.
pub fn voxel_key(r: u32, x: i32, y: i32, z: i32) -> (k: u128)
    ensures
        k == key_spec(r, x, y, z),
{
    let ux: u128 = (x as i64 + 0x8000_0000) as u128;
    let uy: u128 = (y as i64 + 0x8000_0000) as u128;
    let uz: u128 = (z as i64 + 0x8000_0000) as u128;
    (r as u128) * 0x1_0000_0000_0000_0000_0000_0000 + ux * 0x1_0000_0000_0000_0000 + uy
        * 0x1_0000_0000 + uz
}

/// Voxels past which a component is too large to be entered voxel by voxel.
pub const PLANT_LARGE_VOX: u64 = 32768;

/// Voxels that a box of these extents can reach, with a voxel of slack on
/// either side of each axis.
pub open spec fn reach_of(nx: u64, ny: u64, nz: u64) -> int {
    (nx + 2) * (ny + 2) * (nz + 2)
}

/// How many voxels a box can reach that spans so many on each axis; the
/// largest number where there are more.
pub fn vox_span(nx: u64, ny: u64, nz: u64) -> (n: u64)
    requires
        nx + 2 <= u64::MAX,
        ny + 2 <= u64::MAX,
        nz + 2 <= u64::MAX,
    ensures
        n == if reach_of(nx, ny, nz) > u64::MAX {
            u64::MAX as int
        } else {
            reach_of(nx, ny, nz)
        },
{
    let a: u64 = nx + 2;
    let b: u64 = ny + 2;
    let c: u64 = nz + 2;
    match a.checked_mul(b) {
        Some(ab) => match ab.checked_mul(c) {
            Some(n) => n,
            None => u64::MAX,
        },
        None => {
            assert(a * b * c >= a * b) by (nonlinear_arith)
                requires
                    c >= 1,
                    a * b >= 0,
            ;
            u64::MAX
        },
    }
}

/// Whether a component that spans so many voxels on each axis is large.
pub fn is_large(nx: u64, ny: u64, nz: u64) -> (r: bool)
    requires
        nx + 2 <= u64::MAX,
        ny + 2 <= u64::MAX,
        nz + 2 <= u64::MAX,
    ensures
        r == (reach_of(nx, ny, nz) > PLANT_LARGE_VOX),
{
    vox_span(nx, ny, nz) > PLANT_LARGE_VOX
}

/// A region's contact grid: where its planes stand on each axis, ascending.
pub struct ContactGrid {
    pub xs: Vec<u32>,
    pub ys: Vec<u32>,
    pub zs: Vec<u32>,
}

/// The planes ascend, and cells between them can be numbered.
pub open spec fn lines_ascend(lines: Seq<u32>) -> bool {
    &&& lines.len() < i32::MAX
    &&& forall|i: int, j: int|
        #![trigger lines[i], lines[j]]
        0 <= i <= j < lines.len() ==> bits::le(lines[i], lines[j])
}

impl ContactGrid {
    /// The planes of each axis ascend.
    pub open spec fn wf(&self) -> bool {
        lines_ascend(self.xs@) && lines_ascend(self.ys@) && lines_ascend(self.zs@)
    }
}

/// Cell `i` of an axis holds the coordinate: the planes before it are at or
/// below the coordinate, and no other plane is.
spec fn in_cell(lines: Seq<u32>, v: u32, i: int) -> bool {
    &&& 0 <= i <= lines.len()
    &&& forall|j: int| 0 <= j < i ==> bits::le(#[trigger] lines[j], v)
    &&& forall|j: int| i <= j < lines.len() ==> !bits::le(#[trigger] lines[j], v)
}

/// The first cell that a box with this lower coordinate can reach.
spec fn is_low(lines: Seq<u32>, v: u32, i: int) -> bool {
    if bits::is_nan(v) {
        i == 0
    } else {
        in_cell(lines, v, i)
    }
}

/// The last cell that a box with this upper coordinate can reach.
spec fn is_high(lines: Seq<u32>, v: u32, i: int) -> bool {
    if bits::is_nan(v) {
        i == lines.len()
    } else {
        in_cell(lines, v, i)
    }
}

/// A box reaches at least these voxels of a grid.
pub closed spec fn rasters(grid: &ContactGrid, b: BitsBox, v: VoxRange) -> bool {
    &&& is_low(grid.xs@, b.lo.x, v.x0 as int)
    &&& is_low(grid.ys@, b.lo.y, v.y0 as int)
    &&& is_low(grid.zs@, b.lo.z, v.z0 as int)
    &&& is_high(grid.xs@, b.hi.x, v.x1 as int)
    &&& is_high(grid.ys@, b.hi.y, v.y1 as int)
    &&& is_high(grid.zs@, b.hi.z, v.z1 as int)
}

/// The cell of a coordinate.
fn cell_of(lines: &Vec<u32>, v: u32) -> (i: i32)
    requires
        lines_ascend(lines@),
    ensures
        in_cell(lines@, v, i as int),
{
    let n: usize = lines.len();
    let mut lo: usize = 0;
    let mut hi: usize = n;
    while lo < hi
        invariant
            n == lines@.len(),
            lines_ascend(lines@),
            lo <= hi <= n,
            forall|j: int| 0 <= j < lo ==> bits::le(#[trigger] lines@[j], v),
            forall|j: int| hi <= j < n ==> !bits::le(#[trigger] lines@[j], v),
        decreases hi - lo,
    {
        let mid: usize = lo + (hi - lo) / 2;
        if bits::is_le(lines[mid], v) {
            assert forall|j: int| 0 <= j < mid + 1 implies bits::le(#[trigger] lines@[j], v) by {
                assert(bits::le(lines@[j], lines@[mid as int]));
            }
            lo = mid + 1;
        } else {
            assert forall|j: int| mid <= j < n implies !bits::le(#[trigger] lines@[j], v) by {
                assert(bits::le(lines@[mid as int], lines@[j]));
            }
            hi = mid;
        }
    }
    lo as i32
}

fn low_cell(lines: &Vec<u32>, v: u32) -> (i: i32)
    requires
        lines_ascend(lines@),
    ensures
        is_low(lines@, v, i as int),
{
    if bits::is_le(v, v) {
        cell_of(lines, v)
    } else {
        0
    }
}

fn high_cell(lines: &Vec<u32>, v: u32) -> (i: i32)
    requires
        lines_ascend(lines@),
    ensures
        is_high(lines@, v, i as int),
{
    if bits::is_le(v, v) {
        cell_of(lines, v)
    } else {
        lines.len() as i32
    }
}

/// The voxels that a box can reach.
pub(crate) fn raster(grid: &ContactGrid, b: &BitsBox) -> (v: VoxRange)
    requires
        grid.wf(),
    ensures
        rasters(grid, *b, v),
{
    VoxRange {
        x0: low_cell(&grid.xs, b.lo.x),
        x1: high_cell(&grid.xs, b.hi.x),
        y0: low_cell(&grid.ys, b.lo.y),
        y1: high_cell(&grid.ys, b.hi.y),
        z0: low_cell(&grid.zs, b.lo.z),
        z1: high_cell(&grid.zs, b.hi.z),
    }
}

/// Where two spans overlap, so do the cells that they reach.
proof fn lemma_cells_meet(
    lines: Seq<u32>,
    alo: u32,
    ahi: u32,
    blo: u32,
    bhi: u32,
    a0: int,
    a1: int,
    b0: int,
    b1: int,
)
    requires
        lines_ascend(lines),
        bits::le(bits::max(alo, blo), bits::min(ahi, bhi)),
        is_low(lines, alo, a0),
        is_high(lines, ahi, a1),
        is_low(lines, blo, b0),
        is_high(lines, bhi, b1),
    ensures
        a0 <= a1,
        a0 <= b1,
        b0 <= a1,
        b0 <= b1,
{
    lemma_cell_order(lines, alo, ahi, a0, a1);
    lemma_cell_order(lines, alo, bhi, a0, b1);
    lemma_cell_order(lines, blo, ahi, b0, a1);
    lemma_cell_order(lines, blo, bhi, b0, b1);
}

proof fn lemma_cell_order(lines: Seq<u32>, lo: u32, hi: u32, i: int, j: int)
    requires
        lines_ascend(lines),
        bits::is_nan(lo) || bits::is_nan(hi) || bits::le(lo, hi),
        is_low(lines, lo, i),
        is_high(lines, hi, j),
    ensures
        i <= j,
{
    if !bits::is_nan(lo) && !bits::is_nan(hi) && j < i {
        assert(bits::le(lines[j], lo));
        assert(!bits::le(lines[j], hi));
    }
}

/// Boxes that overlap share a voxel of every grid: the grid loses no contact.
pub proof fn overlapping_boxes_share_a_voxel(
    grid: &ContactGrid,
    a: BitsBox,
    va: VoxRange,
    b: BitsBox,
    vb: VoxRange,
)
    requires
        grid.wf(),
        rasters(grid, a, va),
        rasters(grid, b, vb),
        bits::boxes_overlap(a, b),
    ensures
        share_voxel(va, vb),
        share_voxel(vb, va),
{
    lemma_cells_meet(
        grid.xs@,
        a.lo.x,
        a.hi.x,
        b.lo.x,
        b.hi.x,
        va.x0 as int,
        va.x1 as int,
        vb.x0 as int,
        vb.x1 as int,
    );
    lemma_cells_meet(
        grid.ys@,
        a.lo.y,
        a.hi.y,
        b.lo.y,
        b.hi.y,
        va.y0 as int,
        va.y1 as int,
        vb.y0 as int,
        vb.y1 as int,
    );
    lemma_cells_meet(
        grid.zs@,
        a.lo.z,
        a.hi.z,
        b.lo.z,
        b.hi.z,
        va.z0 as int,
        va.z1 as int,
        vb.z0 as int,
        vb.z1 as int,
    );
    let x = if va.x0 < vb.x0 {
        vb.x0
    } else {
        va.x0
    };
    let y = if va.y0 < vb.y0 {
        vb.y0
    } else {
        va.y0
    };
    let z = if va.z0 < vb.z0 {
        vb.z0
    } else {
        va.z0
    };
    assert(covers(va, x, y, z) && covers(vb, x, y, z));
}

/// A box reaches from the cell of its lower corner to that of its upper one, on
/// each axis, both included: a cell starts at its plane, so that a corner on a
/// plane lies in the cell behind it. A corner that is no number reaches to the
/// end.
pub proof fn boxes_reach_from_corner_to_corner(grid: &ContactGrid, b: BitsBox, v: VoxRange, j: int)
    requires
        rasters(grid, b, v),
    ensures
        0 <= j < grid.xs@.len() && !bits::is_nan(b.lo.x) ==> (j < v.x0 <==> bits::le(grid.xs@[j], b.lo.x)),
        0 <= j < grid.xs@.len() && !bits::is_nan(b.hi.x) ==> (j < v.x1 <==> bits::le(grid.xs@[j], b.hi.x)),
        0 <= j < grid.ys@.len() && !bits::is_nan(b.lo.y) ==> (j < v.y0 <==> bits::le(grid.ys@[j], b.lo.y)),
        0 <= j < grid.ys@.len() && !bits::is_nan(b.hi.y) ==> (j < v.y1 <==> bits::le(grid.ys@[j], b.hi.y)),
        0 <= j < grid.zs@.len() && !bits::is_nan(b.lo.z) ==> (j < v.z0 <==> bits::le(grid.zs@[j], b.lo.z)),
        0 <= j < grid.zs@.len() && !bits::is_nan(b.hi.z) ==> (j < v.z1 <==> bits::le(grid.zs@[j], b.hi.z)),
        bits::is_nan(b.lo.x) ==> v.x0 == 0,
        bits::is_nan(b.lo.y) ==> v.y0 == 0,
        bits::is_nan(b.lo.z) ==> v.z0 == 0,
        bits::is_nan(b.hi.x) ==> v.x1 == grid.xs@.len(),
        bits::is_nan(b.hi.y) ==> v.y1 == grid.ys@.len(),
        bits::is_nan(b.hi.z) ==> v.z1 == grid.zs@.len(),
        0 <= v.x0 <= grid.xs@.len() && 0 <= v.x1 <= grid.xs@.len(),
        0 <= v.y0 <= grid.ys@.len() && 0 <= v.y1 <= grid.ys@.len(),
        0 <= v.z0 <= grid.zs@.len() && 0 <= v.z1 <= grid.zs@.len(),
{
}

} // verus!
