//! Which tiles of the screen quadtree an adapter renders.
//!
//! The screen is split at its midpoint, level by level, into quadrants
//! numbered 0 top left, 1 top right, 2 bottom left, 3 bottom right. A tile at
//! depth `d` is named by its path: the quadrant numbers on the way down, first
//! one most significant, two bits each.
use vstd::prelude::*;

verus! {

/// Deepest split whose tiles the 64-bit mask can name.
pub const MAX_SPLIT_DEPTH: u32 = 3;

/// A set of tiles at one depth. Depth 0 is the unsplit screen, whatever the
/// mask.
#[derive(Clone, Copy, Debug, PartialEq, Eq, Structural)]
pub struct TileSplit {
    /// Bit `p` is set when the tile of path `p` is owned.
    pub mask: u64,
    pub depth: u32,
}

/// Tiles at a depth: four to its power.
pub open spec fn tile_count(depth: int) -> int
    decreases depth,
{
    if depth <= 0 {
        1
    } else {
        4 * tile_count(depth - 1)
    }
}

/// Tile rows at a depth: two to its power.
pub open spec fn side_of(depth: int) -> int
    decreases depth,
{
    if depth <= 0 {
        1
    } else {
        2 * side_of(depth - 1)
    }
}

/// Tile row of a path: the row bit of each quadrant number.
pub open spec fn row_of(depth: int, path: int) -> int
    decreases depth,
{
    if depth <= 0 {
        0
    } else {
        2 * row_of(depth - 1, path / 4) + (path % 4) / 2
    }
}

/// The mask holds path `p`.
pub open spec fn has_bit(mask: u64, p: int) -> bool {
    0 <= p < 64 && (mask >> (p as u64)) & 1 == 1
}

/// A pixel rectangle, exclusive at its far edges.
#[derive(Clone, Copy, Debug, PartialEq, Eq, Structural)]
pub struct Rect {
    pub x0: u32,
    pub y0: u32,
    pub x1: u32,
    pub y1: u32,
}

/// The pixel lies in the rectangle.
pub open spec fn in_rect(r: Rect, x: int, y: int) -> bool {
    r.x0 <= x < r.x1 && r.y0 <= y < r.y1
}

/// Midpoint of a span.
pub open spec fn mid(a: u32, b: u32) -> int {
    a + (b - a) / 2
}

/// Quadrant `code` of a rectangle.
pub open spec fn quadrant(r: Rect, code: int) -> Rect {
    let xm = mid(r.x0, r.x1) as u32;
    let ym = mid(r.y0, r.y1) as u32;
    Rect {
        x0: if code % 2 == 0 {
            r.x0
        } else {
            xm
        },
        x1: if code % 2 == 0 {
            xm
        } else {
            r.x1
        },
        y0: if code / 2 == 0 {
            r.y0
        } else {
            ym
        },
        y1: if code / 2 == 0 {
            ym
        } else {
            r.y1
        },
    }
}

/// Pixel rectangle of a tile.
pub open spec fn tile_rect(depth: int, path: int, rw: u32, rh: u32) -> Rect
    decreases depth,
{
    if depth <= 0 {
        Rect { x0: 0, y0: 0, x1: rw, y1: rh }
    } else {
        quadrant(tile_rect(depth - 1, path / 4, rw, rh), path % 4)
    }
}

/// Path of the tile that a pixel falls into.
pub open spec fn px_path(depth: int, x: u32, y: u32, rw: u32, rh: u32) -> int
    decreases depth,
{
    if depth <= 0 {
        0
    } else {
        let p = px_path(depth - 1, x, y, rw, rh);
        let r = tile_rect(depth - 1, p, rw, rh);
        4 * p + if y >= mid(r.y0, r.y1) {
            2int
        } else {
            0int
        } + if x >= mid(r.x0, r.x1) {
            1int
        } else {
            0int
        }
    }
}

/// Pixel rows of a tile row.
pub open spec fn row_span(depth: int, row: int, rh: u32) -> (u32, u32)
    decreases depth,
{
    if depth <= 0 {
        (0, rh)
    } else {
        let s = row_span(depth - 1, row / 2, rh);
        let m = mid(s.0, s.1) as u32;
        if row % 2 == 0 {
            (s.0, m)
        } else {
            (m, s.1)
        }
    }
}

/// The mask holds exactly the paths of tile rows `row0..row1`.
pub open spec fn is_band(mask: u64, depth: int, row0: int, row1: int) -> bool {
    forall|p: int|
        0 <= p < 64 ==> (#[trigger] has_bit(mask, p) <==> p < tile_count(depth) && row0 <= row_of(
            depth,
            p,
        ) < row1)
}

/// Within the depth's own tiles, the mask owns tile rows `row0..row1` and
/// nothing else.
pub open spec fn owns_band(mask: u64, depth: int, row0: int, row1: int) -> bool {
    forall|p: int|
        0 <= p < tile_count(depth) ==> (#[trigger] has_bit(mask, p) <==> row0 <= row_of(depth, p)
            < row1)
}

/// `rest` holds the depth's tiles that `mask` does not.
pub open spec fn leaves(mask: u64, depth: int, rest: u64) -> bool {
    forall|p: int|
        0 <= p < 64 ==> (#[trigger] has_bit(rest, p) <==> p < tile_count(depth) && !has_bit(
            mask,
            p,
        ))
}

/// Counts at the depths the mask can hold.
proof fn lemma_counts()
    ensures
        tile_count(0) == 1,
        tile_count(1) == 4,
        tile_count(2) == 16,
        tile_count(3) == 64,
        side_of(0) == 1,
        side_of(1) == 2,
        side_of(2) == 4,
        side_of(3) == 8,
{
    reveal_with_fuel(tile_count, 4);
    reveal_with_fuel(side_of, 4);
}

proof fn lemma_count_grows(d: int)
    requires
        0 <= d <= 15,
    ensures
        1 <= tile_count(d) <= 0x4000_0000,
        d < 15 ==> tile_count(d) <= 0x1000_0000,
        tile_count(d) == vstd::arithmetic::power2::pow2((2 * d) as nat),
        1 <= side_of(d) <= 0x8000,
        d < 15 ==> side_of(d) <= 0x4000,
        side_of(d) == vstd::arithmetic::power2::pow2(d as nat),
    decreases d,
{
    vstd::arithmetic::power2::lemma2_to64();
    reveal_with_fuel(tile_count, 16);
    reveal_with_fuel(side_of, 16);
    if d > 0 {
        lemma_count_grows(d - 1);
        vstd::arithmetic::power2::lemma_pow2_unfold((2 * d) as nat);
        vstd::arithmetic::power2::lemma_pow2_unfold((2 * d - 1) as nat);
        vstd::arithmetic::power2::lemma_pow2_unfold(d as nat);
    }
}

/// A tile row lies below the side.
proof fn lemma_row_bound(d: int, p: int)
    requires
        0 <= d,
    ensures
        0 <= row_of(d, p) < side_of(d),
    decreases d,
{
    if d > 0 {
        lemma_row_bound(d - 1, p / 4);
    }
}

/// Lowest path of a tile row: every column code 0.
pub open spec fn first_path(depth: int, row: int) -> int
    decreases depth,
{
    if depth <= 0 {
        0
    } else {
        4 * first_path(depth - 1, row / 2) + 2 * (row % 2)
    }
}

proof fn lemma_first_path(d: int, row: int)
    requires
        0 <= d,
        0 <= row < side_of(d),
    ensures
        0 <= first_path(d, row) < tile_count(d),
        row_of(d, first_path(d, row)) == row,
    decreases d,
{
    if d > 0 {
        lemma_first_path(d - 1, row / 2);
        let q = first_path(d - 1, row / 2);
        let p = first_path(d, row);
        assert(p / 4 == q && p % 4 == 2 * (row % 2));
    }
}

/// Masks that hold the same paths are equal.
proof fn lemma_same_bits(a: u64, b: u64)
    requires
        forall|p: int| 0 <= p < 64 ==> (#[trigger] has_bit(a, p) <==> has_bit(b, p)),
    ensures
        a == b,
{
    lemma_same_above(a, b, 0);
    assert(a >> 0u64 == a && b >> 0u64 == b) by (bit_vector);
}

proof fn lemma_same_above(a: u64, b: u64, p: int)
    requires
        forall|p: int| 0 <= p < 64 ==> (#[trigger] has_bit(a, p) <==> has_bit(b, p)),
        0 <= p < 64,
    ensures
        a >> (p as u64) == b >> (p as u64),
    decreases 64 - p,
{
    assert(has_bit(a, p) <==> has_bit(b, p));
    let q = p as u64;
    if p == 63 {
        assert(a >> q == b >> q) by (bit_vector)
            requires
                q == 63,
                ((a >> q) & 1 == 1) <==> ((b >> q) & 1 == 1),
        ;
    } else {
        lemma_same_above(a, b, p + 1);
        let n = (p + 1) as u64;
        assert(a >> q == b >> q) by (bit_vector)
            requires
                q < 63,
                n == q + 1,
                a >> n == b >> n,
                ((a >> q) & 1 == 1) <==> ((b >> q) & 1 == 1),
        ;
    }
}

/// Setting bit `q` adds path `q` and nothing else.
proof fn lemma_bit_set(m: u64, q: u64)
    requires
        q < 64,
    ensures
        forall|p: int|
            0 <= p < 64 ==> (#[trigger] has_bit(m | (1u64 << q), p) <==> has_bit(m, p) || p == q),
{
    assert forall|p: int| 0 <= p < 64 implies (#[trigger] has_bit(m | (1u64 << q), p) <==> has_bit(
        m,
        p,
    ) || p == q) by {
        let r = p as u64;
        assert((((m | (1u64 << q)) >> r) & 1 == 1) <==> ((m >> r) & 1 == 1 || r == q))
            by (bit_vector)
            requires
                q < 64,
                r < 64,
        ;
    }
}

/// The mask of the paths below `n`.
proof fn lemma_low_bits(n: u64)
    requires
        n < 64,
    ensures
        1u64 << n >= 1,
        forall|p: int|
            0 <= p < 64 ==> (#[trigger] has_bit(((1u64 << n) - 1) as u64, p) <==> p < n),
{
    assert(1u64 << n >= 1) by (bit_vector)
        requires
            n < 64,
    ;
    assert forall|p: int| 0 <= p < 64 implies (#[trigger] has_bit(((1u64 << n) - 1) as u64, p)
        <==> p < n) by {
        let r = p as u64;
        assert((((((1u64 << n) - 1) as u64) >> r) & 1 == 1) <==> r < n) by (bit_vector)
            requires
                n < 64,
                r < 64,
        ;
    }
}

/// An empty mask holds nothing, a full one everything.
proof fn lemma_plain_masks()
    ensures
        forall|p: int| 0 <= p < 64 ==> !#[trigger] has_bit(0, p),
        forall|p: int| 0 <= p < 64 ==> #[trigger] has_bit(u64::MAX, p),
{
    assert forall|p: int| 0 <= p < 64 implies !#[trigger] has_bit(0, p) by {
        let r = p as u64;
        assert((0u64 >> r) & 1 == 0) by (bit_vector);
    }
    assert forall|p: int| 0 <= p < 64 implies #[trigger] has_bit(u64::MAX, p) by {
        let r = p as u64;
        assert((0xffff_ffff_ffff_ffffu64 >> r) & 1 == 1) by (bit_vector)
            requires
                r < 64,
        ;
    }
}

proof fn lemma_masked_out(m: u64, a: u64)
    ensures
        forall|p: int|
            0 <= p < 64 ==> (#[trigger] has_bit(!m & a, p) <==> !has_bit(m, p) && has_bit(a, p)),
{
    assert forall|p: int| 0 <= p < 64 implies (#[trigger] has_bit(!m & a, p) <==> !has_bit(m, p)
        && has_bit(a, p)) by {
        let r = p as u64;
        assert(((!m & a) >> r) & 1 == 1 <==> !((m >> r) & 1 == 1) && (a >> r) & 1 == 1)
            by (bit_vector)
            requires
                r < 64,
        ;
    }
}

/// Tile row of a path.
fn tile_row(depth: u32, path: u32) -> (row: u32)
    requires
        depth <= 15,
    ensures
        row == row_of(depth as int, path as int),
    decreases depth,
{
    if depth == 0 {
        0
    } else {
        proof {
            lemma_row_bound(depth - 1, path as int / 4);
            lemma_count_grows(depth - 1);
        }
        2 * tile_row(depth - 1, path / 4) + (path % 4) / 2
    }
}

/// Mask of every tile at a depth.
fn every_tile(depth: u32) -> (mask: u64)
    requires
        depth <= 15,
    ensures
        forall|p: int| 0 <= p < 64 ==> (#[trigger] has_bit(mask, p) <==> p < tile_count(depth as int)),
{
    let n: u32 = TileSplit::tiles_at(depth);
    if n >= 64 {
        proof {
            lemma_plain_masks();
        }
        u64::MAX
    } else {
        proof {
            lemma_low_bits(n as u64);
        }
        (1u64 << (n as u64)) - 1
    }
}

impl TileSplit {
    /// The whole screen: no split.
    pub open spec fn whole() -> TileSplit {
        TileSplit { mask: u64::MAX, depth: 0 }
    }

    /// The tile that pixel `(x, y)` falls into is owned, or has a path past
    /// the mask.
    pub open spec fn owns(self, x: u32, y: u32, rw: u32, rh: u32) -> bool {
        let path = px_path(self.depth as int, x, y, rw, rh) % 0x1_0000_0000;
        self.depth == 0 || path >= 64 || has_bit(self.mask, path)
    }

    /// The whole screen: no split.
    pub fn all() -> (s: TileSplit)
        ensures
            s == TileSplit::whole(),
    {
        TileSplit { mask: u64::MAX, depth: 0 }
    }

    /// Tiles at `depth`.
    pub fn tiles_at(depth: u32) -> (n: u32)
        requires
            depth <= 15,
        ensures
            n == tile_count(depth as int),
    {
        proof {
            lemma_count_grows(depth as int);
            vstd::bits::lemma_u32_shl_is_mul(1, (2 * depth) as u32);
        }
        1u32 << (2 * depth)
    }

    /// The tile rows `row0..row1` of the grid at `depth`. Every tile of the
    /// band needs a path that the mask can hold.
    pub fn rows(depth: u32, row0: u32, row1: u32) -> (s: TileSplit)
        requires
            depth <= 15,
            depth <= MAX_SPLIT_DEPTH || (forall|p: int|
                0 <= p < tile_count(depth as int) && row0 <= #[trigger] row_of(depth as int, p)
                    < row1 ==> p < 64),
        ensures
            s.depth == depth,
            is_band(s.mask, depth as int, row0 as int, row1 as int),
    {
        proof {
            lemma_plain_masks();
            lemma_counts();
        }
        let n: u32 = TileSplit::tiles_at(depth);
        let mut mask: u64 = 0;
        let mut path: u32 = 0;
        while path < n
            invariant
                depth <= 15,
                n == tile_count(depth as int),
                path <= n,
                n <= 64 || (forall|p: int|
                    0 <= p < tile_count(depth as int) && row0 <= #[trigger] row_of(depth as int, p)
                        < row1 ==> p < 64),
                forall|p: int|
                    0 <= p < 64 ==> (#[trigger] has_bit(mask, p) <==> p < path && row0 <= row_of(
                        depth as int,
                        p,
                    ) < row1),
            decreases n - path,
        {
            let row: u32 = tile_row(depth, path);
            if row >= row0 && row < row1 {
                proof {
                    lemma_bit_set(mask, path as u64);
                }
                mask = mask | (1u64 << (path as u64));
            }
            path = path + 1;
        }
        TileSplit { mask, depth }
    }

    /// The tiles at this depth that `self` leaves to its partner. The unsplit
    /// screen leaves none.
    pub fn complement(&self) -> (s: TileSplit)
        requires
            self.depth <= 15,
        ensures
            s.depth == self.depth,
            self.depth == 0 ==> s.mask == 0,
            self.depth > 0 ==> leaves(self.mask, self.depth as int, s.mask),
    {
        if self.depth == 0 {
            return TileSplit { mask: 0, depth: 0 };
        }
        let all: u64 = every_tile(self.depth);
        proof {
            lemma_masked_out(self.mask, all);
        }
        TileSplit { mask: !self.mask & all, depth: self.depth }
    }

    /// The primary's and the secondary's tiles when the secondary takes the
    /// last `rows` tile rows. A share of none is the unsplit screen and no
    /// secondary; the primary keeps at least one row.
    pub fn for_share(rows: u32, depth: u32) -> (pair: (TileSplit, Option<TileSplit>))
        requires
            rows == 0 || depth <= MAX_SPLIT_DEPTH,
        ensures
            rows == 0 || depth == 0 ==> pair == (TileSplit::whole(), None::<TileSplit>),
            rows > 0 && depth > 0 ==> {
                let side = side_of(depth as int);
                let given = if rows < side {
                    rows as int
                } else {
                    side - 1
                };
                &&& pair.0.depth == depth
                &&& is_band(pair.0.mask, depth as int, 0, side - given)
                &&& pair.1 matches Some(s) && s.depth == depth && is_band(
                    s.mask,
                    depth as int,
                    side - given,
                    side,
                )
            },
    {
        if rows == 0 || depth == 0 {
            return (TileSplit::all(), None);
        }
        proof {
            lemma_counts();
            lemma_count_grows(depth as int);
            vstd::bits::lemma_u32_shl_is_mul(1, depth);
        }
        let side: u32 = 1u32 << depth;
        let given: u32 = if rows < side {
            rows
        } else {
            side - 1
        };
        let prim = TileSplit::rows(depth, 0, side - given);
        let rest = prim.complement();
        assert forall|p: int| 0 <= p < 64 implies (#[trigger] has_bit(rest.mask, p) <==> p
            < tile_count(depth as int) && side - given <= row_of(depth as int, p) < side) by {
            lemma_row_bound(depth as int, p);
            assert(has_bit(prim.mask, p) <==> p < tile_count(depth as int) && 0 <= row_of(
                depth as int,
                p,
            ) < side - given);
        }
        (prim, Some(rest))
    }
}

/// Quadrants keep a rectangle ordered.
proof fn lemma_rect_ordered(d: int, p: int, rw: u32, rh: u32)
    requires
        0 <= d,
    ensures
        tile_rect(d, p, rw, rh).x0 <= tile_rect(d, p, rw, rh).x1 <= rw,
        tile_rect(d, p, rw, rh).y0 <= tile_rect(d, p, rw, rh).y1 <= rh,
    decreases d,
{
    if d > 0 {
        lemma_rect_ordered(d - 1, p / 4, rw, rh);
    }
}

/// A tile's pixel rows are those of its tile row.
proof fn lemma_rect_rows(d: int, p: int, rw: u32, rh: u32)
    requires
        0 <= d,
    ensures
        (tile_rect(d, p, rw, rh).y0, tile_rect(d, p, rw, rh).y1) == row_span(
            d,
            row_of(d, p),
            rh,
        ),
    decreases d,
{
    if d > 0 {
        lemma_rect_rows(d - 1, p / 4, rw, rh);
        assert(row_of(d, p) / 2 == row_of(d - 1, p / 4));
        assert(row_of(d, p) % 2 == (p % 4) / 2);
    }
}

/// Paths stay below the tile count.
proof fn lemma_px_path_bound(d: int, x: u32, y: u32, rw: u32, rh: u32)
    requires
        0 <= d,
    ensures
        0 <= px_path(d, x, y, rw, rh) < tile_count(d),
    decreases d,
{
    if d > 0 {
        lemma_px_path_bound(d - 1, x, y, rw, rh);
    }
}

/// Screen rectangle of a tile.
fn rect_for_path(depth: u32, path: u32, rw: u32, rh: u32) -> (r: Rect)
    ensures
        r == tile_rect(depth as int, path as int, rw, rh),
        r.x0 <= r.x1 <= rw,
        r.y0 <= r.y1 <= rh,
    decreases depth,
{
    if depth == 0 {
        Rect { x0: 0, y0: 0, x1: rw, y1: rh }
    } else {
        let up = rect_for_path(depth - 1, path / 4, rw, rh);
        let code: u32 = path % 4;
        let xm: u32 = up.x0 + (up.x1 - up.x0) / 2;
        let ym: u32 = up.y0 + (up.y1 - up.y0) / 2;
        Rect {
            x0: if code % 2 == 0 {
                up.x0
            } else {
                xm
            },
            y0: if code / 2 == 0 {
                up.y0
            } else {
                ym
            },
            x1: if code % 2 == 0 {
                xm
            } else {
                up.x1
            },
            y1: if code / 2 == 0 {
                ym
            } else {
                up.y1
            },
        }
    }
}

/// Any of row `row`'s tiles is owned, and all of them are.
fn row_state(mask: u64, depth: u32, row: u32) -> (r: (bool, bool))
    requires
        depth <= MAX_SPLIT_DEPTH,
    ensures
        !r.0 <==> forall|p: int|
            0 <= p < tile_count(depth as int) && row_of(depth as int, p) == row
                ==> !#[trigger] has_bit(mask, p),
        r.1 <==> forall|p: int|
            0 <= p < tile_count(depth as int) && row_of(depth as int, p) == row
                ==> #[trigger] has_bit(mask, p),
{
    proof {
        lemma_counts();
    }
    let n: u32 = TileSplit::tiles_at(depth);
    let mut some: bool = false;
    let mut all: bool = true;
    let mut path: u32 = 0;
    while path < n
        invariant
            depth <= MAX_SPLIT_DEPTH,
            n == tile_count(depth as int),
            n <= 64,
            path <= n,
            !some <==> forall|p: int|
                0 <= p < path && row_of(depth as int, p) == row ==> !#[trigger] has_bit(mask, p),
            all <==> forall|p: int|
                0 <= p < path && row_of(depth as int, p) == row ==> #[trigger] has_bit(mask, p),
        decreases n - path,
    {
        if tile_row(depth, path) == row {
            let held: bool = (mask >> (path as u64)) & 1 == 1;
            assert(held == has_bit(mask, path as int));
            if held {
                some = true;
            } else {
                all = false;
            }
        }
        path = path + 1;
    }
    (some, all)
}

/// A band names its tile rows uniquely.
proof fn lemma_band_unique(mask: u64, d: int, a: int, b: int, a2: int, b2: int)
    requires
        0 <= d,
        owns_band(mask, d, a, b),
        owns_band(mask, d, a2, b2),
        0 <= a < b <= side_of(d),
        0 <= a2 < b2 <= side_of(d),
    ensures
        a == a2,
        b == b2,
{
    lemma_first_path(d, a);
    lemma_first_path(d, a2);
    lemma_first_path(d, b - 1);
    lemma_first_path(d, b2 - 1);
    assert(has_bit(mask, first_path(d, a)));
    assert(has_bit(mask, first_path(d, a2)));
    assert(has_bit(mask, first_path(d, b - 1)));
    assert(has_bit(mask, first_path(d, b2 - 1)));
}

/// What row ranges the mask may own: rows `first..=last` wholly, the other
/// rows before `upto` not at all.
spec fn band_upto(mask: u64, d: int, first: Option<u32>, last: int, upto: int) -> bool {
    forall|p: int|
        0 <= p < tile_count(d) && row_of(d, p) < upto ==> (#[trigger] has_bit(mask, p) <==> (
        first matches Some(f) && f <= row_of(d, p) <= last))
}

impl TileSplit {
    /// Whether the tile that pixel `(x, y)` falls into is owned. The unsplit
    /// screen owns every pixel, and so does a path past the mask.
    pub fn owns_px(&self, x: u32, y: u32, rw: u32, rh: u32) -> (owned: bool)
        ensures
            owned <==> self.owns(x, y, rw, rh),
    {
        if self.depth == 0 {
            return true;
        }
        let mut r = Rect { x0: 0, y0: 0, x1: rw, y1: rh };
        let mut path: u32 = 0;
        let mut level: u32 = 0;
        while level < self.depth
            invariant
                level <= self.depth,
                r == tile_rect(level as int, px_path(level as int, x, y, rw, rh), rw, rh),
                r.x0 <= r.x1 <= rw,
                r.y0 <= r.y1 <= rh,
                path == px_path(level as int, x, y, rw, rh) % 0x1_0000_0000,
            decreases self.depth - level,
        {
            let ghost whole = px_path(level as int, x, y, rw, rh);
            let xm: u32 = r.x0 + (r.x1 - r.x0) / 2;
            let ym: u32 = r.y0 + (r.y1 - r.y0) / 2;
            let right: bool = x >= xm;
            let below: bool = y >= ym;
            let code: u32 = (if below {
                2u32
            } else {
                0u32
            }) + (if right {
                1u32
            } else {
                0u32
            });
            let kept: u32 = path % 0x4000_0000;
            let ghost next = px_path(level as int + 1, x, y, rw, rh);
            proof {
                assert(next == 4 * whole + code);
                assert(4 * (path % 0x4000_0000) + code == next % 0x1_0000_0000);
                assert(next / 4 == whole && next % 4 == code);
            }
            path = 4 * kept + code;
            if right {
                r.x0 = xm;
            } else {
                r.x1 = xm;
            }
            if below {
                r.y0 = ym;
            } else {
                r.y1 = ym;
            }
            assert(r == tile_rect(level as int + 1, next, rw, rh));
            level = level + 1;
        }
        if path >= 64 {
            return true;
        }
        (self.mask >> (path as u64)) & 1 == 1
    }

    /// The pixel rows that `self` owns, where its tiles are one band of whole
    /// tile rows; nothing where they are not.
    pub fn row_range(&self, rw: u32, rh: u32) -> (range: Option<(u32, u32)>)
        requires
            self.depth <= MAX_SPLIT_DEPTH,
        ensures
            self.depth == 0 ==> range == Some((0u32, rh)),
            self.depth > 0 ==> (range is Some <==> exists|a: int, b: int|
                0 <= a < b <= side_of(self.depth as int) && #[trigger] owns_band(
                    self.mask,
                    self.depth as int,
                    a,
                    b,
                )),
            self.depth > 0 ==> forall|a: int, b: int|
                0 <= a < b <= side_of(self.depth as int) && #[trigger] owns_band(
                    self.mask,
                    self.depth as int,
                    a,
                    b,
                ) ==> range == Some(
                    (
                        row_span(self.depth as int, a, rh).0,
                        row_span(self.depth as int, b - 1, rh).1,
                    ),
                ),
    {
        if self.depth == 0 {
            return Some((0, rh));
        }
        proof {
            lemma_counts();
            lemma_count_grows(self.depth as int);
            vstd::bits::lemma_u32_shl_is_mul(1, self.depth);
        }
        let side: u32 = 1u32 << self.depth;
        let ghost d = self.depth as int;
        let mut first: Option<u32> = None;
        let mut last: u32 = 0;
        let mut row: u32 = 0;
        assert forall|p: int| 0 <= p < tile_count(d) implies 0 <= #[trigger] row_of(d, p) by {
            lemma_row_bound(d, p);
        }
        while row < side
            invariant
                d == self.depth,
                0 < self.depth <= MAX_SPLIT_DEPTH,
                side == side_of(d),
                side <= 8,
                row <= side,
                first matches Some(f) ==> f <= last < row,
                band_upto(self.mask, d, first, last as int, row as int),
            decreases side - row,
        {
            let (some, all) = row_state(self.mask, self.depth, row);
            proof {
                lemma_first_path(d, row as int);
            }
            let ghost here = first_path(d, row as int);
            if some {
                if !all {
                    proof {
                        assert forall|a: int, b: int| 0 <= a < b <= side implies !#[trigger] owns_band(
                            self.mask,
                            d,
                            a,
                            b,
                        ) by {
                            if owns_band(self.mask, d, a, b) {
                                if a <= row < b {
                                    assert(all);
                                } else {
                                    assert(!some);
                                }
                            }
                        }
                    }
                    return None;
                }
                assert(has_bit(self.mask, here));
                match first {
                    None => {
                        first = Some(row);
                    },
                    Some(f) => {
                        if row != last + 1 {
                            proof {
                                lemma_first_path(d, f as int);
                                lemma_first_path(d, last + 1);
                                let start = first_path(d, f as int);
                                let gap = first_path(d, last + 1);
                                assert(has_bit(self.mask, start));
                                assert(!has_bit(self.mask, gap));
                                assert forall|a: int, b: int| 0 <= a < b <= side implies !#[trigger] owns_band(
                                    self.mask,
                                    d,
                                    a,
                                    b,
                                ) by {
                                    if owns_band(self.mask, d, a, b) {
                                        assert(a <= row_of(d, start) < b);
                                        assert(a <= row_of(d, here) < b);
                                        assert(a <= row_of(d, gap) < b);
                                    }
                                }
                            }
                            return None;
                        }
                    },
                }
                last = row;
            }
            assert forall|p: int| 0 <= p < tile_count(d) && row_of(d, p) < row + 1 implies (
            #[trigger] has_bit(self.mask, p) <==> (first matches Some(f) && f <= row_of(d, p)
                <= last)) by {
                if row_of(d, p) == row {
                    assert(has_bit(self.mask, p) == some);
                }
            }
            row = row + 1;
        }
        match first {
            None => {
                proof {
                    assert forall|a: int, b: int| 0 <= a < b <= side implies !#[trigger] owns_band(
                        self.mask,
                        d,
                        a,
                        b,
                    ) by {
                        lemma_first_path(d, a);
                        assert(!has_bit(self.mask, first_path(d, a)));
                    }
                }
                None
            },
            Some(f) => {
                proof {
                    assert forall|p: int| 0 <= p < tile_count(d) implies (#[trigger] has_bit(
                        self.mask,
                        p,
                    ) <==> f <= row_of(d, p) < last + 1) by {
                        lemma_row_bound(d, p);
                    }
                    assert(owns_band(self.mask, d, f as int, last + 1));
                    assert forall|a: int, b: int|
                        0 <= a < b <= side && #[trigger] owns_band(self.mask, d, a, b) implies a
                        == f && b == last + 1 by {
                        lemma_band_unique(self.mask, d, a, b, f as int, last + 1);
                    }
                }
                let top: u32 = TileSplit::first_path_of_row(self.depth, f);
                let bottom: u32 = TileSplit::first_path_of_row(self.depth, last);
                proof {
                    lemma_first_path(d, f as int);
                    lemma_first_path(d, last as int);
                    lemma_rect_rows(d, top as int, rw, rh);
                    lemma_rect_rows(d, bottom as int, rw, rh);
                }
                let y0: u32 = rect_for_path(self.depth, top, rw, rh).y0;
                let y1: u32 = rect_for_path(self.depth, bottom, rw, rh).y1;
                Some((y0, y1))
            },
        }
    }

    /// Lowest path of a tile row.
    fn first_path_of_row(depth: u32, row: u32) -> (path: u32)
        requires
            depth <= 15,
            row < side_of(depth as int),
        ensures
            path == first_path(depth as int, row as int),
        decreases depth,
    {
        if depth == 0 {
            0
        } else {
            proof {
                lemma_first_path(depth as int, row as int);
                lemma_first_path(depth - 1, row as int / 2);
                lemma_count_grows(depth as int);
            }
            4 * TileSplit::first_path_of_row(depth - 1, row / 2) + 2 * (row % 2)
        }
    }

    /// The words that the shaders read: the mask low half first, the depth,
    /// and padding.
    pub fn cb_row(&self) -> (row: [u32; 4])
        ensures
            row@ == seq![
                (self.mask % 0x1_0000_0000) as u32,
                (self.mask / 0x1_0000_0000) as u32,
                self.depth,
                0u32,
            ],
    {
        let row: [u32; 4] = [
            (self.mask % 0x1_0000_0000) as u32,
            (self.mask / 0x1_0000_0000) as u32,
            self.depth,
            0,
        ];
        assert(row@ =~= seq![
            (self.mask % 0x1_0000_0000) as u32,
            (self.mask / 0x1_0000_0000) as u32,
            self.depth,
            0u32,
        ]);
        row
    }
}

/// Bands above and below a tile row partition the tiles: no path is in both
/// and every path of the depth is in one.
pub proof fn bands_partition_the_tiles(a: u64, b: u64, d: int, r: int)
    requires
        0 <= d <= MAX_SPLIT_DEPTH,
        0 <= r <= side_of(d),
        is_band(a, d, 0, r),
        is_band(b, d, r, side_of(d)),
    ensures
        forall|p: int| 0 <= p < tile_count(d) ==> (#[trigger] has_bit(a, p) <==> !has_bit(b, p)),
        a & b == 0,
        leaves(a, d, b),
{
    lemma_counts();
    assert forall|p: int| 0 <= p < 64 implies (#[trigger] has_bit(a, p) ==> !has_bit(b, p)) && (
    has_bit(b, p) <==> p < tile_count(d) && !has_bit(a, p)) by {
        lemma_row_bound(d, p);
        assert(has_bit(b, p) <==> p < tile_count(d) && r <= row_of(d, p) < side_of(d));
    }
    assert forall|p: int| 0 <= p < 64 implies (#[trigger] has_bit(a & b, p) <==> has_bit(0, p)) by {
        assert(has_bit(a, p) ==> !has_bit(b, p));
        let q = p as u64;
        assert(((a & b) >> q) & 1 == 1 ==> (a >> q) & 1 == 1 && (b >> q) & 1 == 1) by (bit_vector)
            requires
                q < 64,
        ;
        lemma_plain_masks();
    }
    lemma_same_bits(a & b, 0);
    assert forall|p: int| 0 <= p < 64 implies (#[trigger] has_bit(b, p) <==> p < tile_count(d)
        && !has_bit(a, p)) by {
        assert(has_bit(a, p) ==> !has_bit(b, p));
    }
}

/// The band that starts at the other's end is its complement, so that the
/// second device may be set up either way.
pub proof fn complement_of_a_top_band(a: u64, b: u64, rest: u64, d: int, r: int)
    requires
        0 <= d <= MAX_SPLIT_DEPTH,
        0 <= r <= side_of(d),
        is_band(a, d, 0, r),
        is_band(b, d, r, side_of(d)),
        leaves(a, d, rest),
    ensures
        rest == b,
{
    bands_partition_the_tiles(a, b, d, r);
    lemma_same_bits(rest, b);
}

/// Every pixel of the screen lies in the rectangle of exactly one tile, the
/// one that its path names.
pub proof fn each_pixel_has_one_tile(d: int, p: int, x: u32, y: u32, rw: u32, rh: u32)
    requires
        0 <= d,
        0 <= p < tile_count(d),
        x < rw,
        y < rh,
    ensures
        in_rect(tile_rect(d, p, rw, rh), x as int, y as int) <==> p == px_path(d, x, y, rw, rh),
    decreases d,
{
    if d > 0 {
        each_pixel_has_one_tile(d - 1, p / 4, x, y, rw, rh);
        lemma_rect_ordered(d - 1, p / 4, rw, rh);
        let up = tile_rect(d - 1, p / 4, rw, rh);
        let q = px_path(d, x, y, rw, rh);
        assert(q / 4 == px_path(d - 1, x, y, rw, rh));
        if in_rect(tile_rect(d, p, rw, rh), x as int, y as int) {
            assert(in_rect(up, x as int, y as int));
        }
    }
}

/// Two devices whose masks complement each other own every pixel between
/// them, and none twice.
pub proof fn devices_own_each_pixel_once(
    a: TileSplit,
    b: TileSplit,
    x: u32,
    y: u32,
    rw: u32,
    rh: u32,
)
    requires
        0 < a.depth <= MAX_SPLIT_DEPTH,
        b.depth == a.depth,
        leaves(a.mask, a.depth as int, b.mask),
    ensures
        a.owns(x, y, rw, rh) <==> !b.owns(x, y, rw, rh),
{
    lemma_counts();
    let d = a.depth as int;
    let p = px_path(d, x, y, rw, rh);
    lemma_px_path_bound(d, x, y, rw, rh);
    assert(p % 0x1_0000_0000 == p);
    assert(has_bit(b.mask, p) <==> p < tile_count(d) && !has_bit(a.mask, p));
}

/// A device owns a pixel exactly when the pixel lies in the rectangle of one
/// of its tiles.
pub proof fn ownership_follows_the_rectangles(
    s: TileSplit,
    x: u32,
    y: u32,
    rw: u32,
    rh: u32,
)
    requires
        0 < s.depth <= MAX_SPLIT_DEPTH,
        x < rw,
        y < rh,
    ensures
        s.owns(x, y, rw, rh) <==> exists|p: int|
            0 <= p < tile_count(s.depth as int) && #[trigger] has_bit(s.mask, p) && in_rect(
                tile_rect(s.depth as int, p, rw, rh),
                x as int,
                y as int,
            ),
{
    lemma_counts();
    let d = s.depth as int;
    let q = px_path(d, x, y, rw, rh);
    lemma_px_path_bound(d, x, y, rw, rh);
    assert(q % 0x1_0000_0000 == q);
    each_pixel_has_one_tile(d, q, x, y, rw, rh);
    assert forall|p: int|
        0 <= p < tile_count(d) && #[trigger] has_bit(s.mask, p) && in_rect(
            tile_rect(d, p, rw, rh),
            x as int,
            y as int,
        ) implies p == q by {
        each_pixel_has_one_tile(d, p, x, y, rw, rh);
    }
}

/// The pixel rows of the tile rows run from the top of the screen to its
/// bottom without a gap or an overlap.
pub proof fn tile_rows_cover_the_screen(d: int, r: int, rh: u32)
    requires
        0 <= d,
        0 <= r < side_of(d),
    ensures
        r == 0 ==> row_span(d, r, rh).0 == 0,
        r == side_of(d) - 1 ==> row_span(d, r, rh).1 == rh,
        r + 1 < side_of(d) ==> row_span(d, r, rh).1 == row_span(d, r + 1, rh).0,
        row_span(d, r, rh).0 <= row_span(d, r, rh).1 <= rh,
    decreases d,
{
    if d > 0 {
        tile_rows_cover_the_screen(d - 1, r / 2, rh);
        if r % 2 == 0 {
            assert((r + 1) / 2 == r / 2);
            assert((r + 1) % 2 == 1);
        } else {
            assert((r + 1) / 2 == r / 2 + 1);
            assert((r + 1) % 2 == 0);
        }
    }
}

/// A tile row starts within half a pixel a level of its share of the height,
/// and never below it.
pub proof fn tile_rows_are_proportional(d: int, r: int, rh: u32)
    requires
        0 <= d,
        0 <= r < side_of(d),
    ensures
        0 <= r * rh - row_span(d, r, rh).0 * side_of(d),
        2 * (r * rh - row_span(d, r, rh).0 * side_of(d)) <= d * side_of(d),
    decreases d,
{
    if d > 0 {
        let k = r / 2;
        let half = side_of(d - 1);
        let side = side_of(d);
        tile_rows_are_proportional(d - 1, k, rh);
        tile_rows_cover_the_screen(d - 1, k, rh);
        let a = row_span(d - 1, k, rh).0 as int;
        let b = row_span(d - 1, k, rh).1 as int;
        let h = rh as int;
        let y = row_span(d, r, rh).0 as int;
        assert(side == 2 * half);
        assert(d * side == 2 * ((d - 1) * half) + 2 * half) by (nonlinear_arith)
            requires
                side == 2 * half,
        ;
        assert(half >= 1) by {
            lemma_row_bound(d - 1, 0);
        }
        if r % 2 == 0 {
            assert(y == a);
            assert(r * h - y * side == 2 * (k * h - a * half)) by (nonlinear_arith)
                requires
                    r == 2 * k,
                    side == 2 * half,
                    y == a,
            ;
            assert(4 * (k * h - a * half) <= 2 * ((d - 1) * half) + 2 * half);
        } else {
            // The end of the parent's span is the start of the next one.
            let e = (k + 1) * h - b * half;
            assert(0 <= e && 2 * e <= (d - 1) * half) by {
                if k + 1 < half {
                    tile_rows_are_proportional(d - 1, k + 1, rh);
                } else {
                    assert(b == h);
                    assert(e == 0) by (nonlinear_arith)
                        requires
                            e == (k + 1) * h - b * half,
                            b == h,
                            k + 1 == half,
                    ;
                    assert(0 <= (d - 1) * half) by (nonlinear_arith)
                        requires
                            d >= 1,
                            half >= 1,
                    ;
                }
            }
            let cut = a + b - 2 * y;
            assert(0 <= cut <= 1);
            assert(r * h - y * side == (k * h - a * half) + e + cut * half) by (nonlinear_arith)
                requires
                    r == 2 * k + 1,
                    side == 2 * half,
                    e == (k + 1) * h - b * half,
                    cut == a + b - 2 * y,
            ;
            assert(0 <= cut * half <= half) by (nonlinear_arith)
                requires
                    0 <= cut <= 1,
                    half >= 1,
            ;
        }
    } else {
        assert(r == 0 && side_of(d) == 1 && row_span(d, r, rh).0 == 0);
        assert(0 * rh == 0 && 0int * 1 == 0) by (nonlinear_arith);
        assert(d * side_of(d) == 0) by (nonlinear_arith)
            requires
                d == 0,
        ;
    }
}

/// Later tile rows start where earlier ones have ended.
proof fn lemma_rows_ordered(d: int, a: int, b: int, rh: u32)
    requires
        0 <= d,
        0 <= a < b < side_of(d),
    ensures
        row_span(d, a, rh).1 <= row_span(d, b, rh).0,
    decreases b - a,
{
    tile_rows_cover_the_screen(d, a, rh);
    if a + 1 < b {
        tile_rows_cover_the_screen(d, a + 1, rh);
        lemma_rows_ordered(d, a + 1, b, rh);
    }
}

/// A mask that splits the top tile row at depth 1 is no band.
proof fn lemma_split_row_is_no_band(mask: u64)
    requires
        has_bit(mask, 0),
        !has_bit(mask, 1),
    ensures
        forall|a: int, b: int|
            0 <= a < b <= side_of(1) ==> !#[trigger] owns_band(mask, 1, a, b),
{
    lemma_counts();
    reveal_with_fuel(row_of, 2);
    assert(row_of(1, 0) == 0 && row_of(1, 1) == 0);
}

/// Tests a failed gate's message into a result.
fn gate(holds: bool, fault: &str) -> (r: Result<(), String>)
    ensures
        r is Ok <==> holds,
        r matches Err(e) ==> e@ == fault@,
{
    if holds {
        Ok(())
    } else {
        Err(fault.to_string())
    }
}

/// Both masks or either mask hold a path when the two masks do.
proof fn lemma_joined_masks(a: u64, b: u64)
    ensures
        forall|p: int|
            0 <= p < 64 ==> (#[trigger] has_bit(a & b, p) <==> has_bit(a, p) && has_bit(b, p)),
        forall|p: int|
            0 <= p < 64 ==> (#[trigger] has_bit(a | b, p) <==> has_bit(a, p) || has_bit(b, p)),
{
    assert forall|p: int| 0 <= p < 64 implies (#[trigger] has_bit(a & b, p) <==> has_bit(a, p)
        && has_bit(b, p)) by {
        let q = p as u64;
        assert(((a & b) >> q) & 1 == 1 <==> (a >> q) & 1 == 1 && (b >> q) & 1 == 1) by (bit_vector)
            requires
                q < 64,
        ;
    }
    assert forall|p: int| 0 <= p < 64 implies (#[trigger] has_bit(a | b, p) <==> has_bit(a, p)
        || has_bit(b, p)) by {
        let q = p as u64;
        assert(((a | b) >> q) & 1 == 1 <==> (a >> q) & 1 == 1 || (b >> q) & 1 == 1) by (bit_vector)
            requires
                q < 64,
        ;
    }
}

/// The two splits are of one depth, name tiles of that depth alone, and
/// divide all of them between each other.
spec fn divides(a: TileSplit, b: TileSplit) -> bool {
    &&& b.depth == a.depth
    &&& forall|p: int| 0 <= p < 64 && #[trigger] has_bit(a.mask, p) ==> p < tile_count(a.depth as int)
    &&& leaves(a.mask, a.depth as int, b.mask)
}

/// Whether two splits divide the tiles of their depth, so that none is
/// rendered twice or not at all and each is the other's complement.
fn check_bands(a: &TileSplit, b: &TileSplit) -> (res: Result<(), String>)
    requires
        0 < a.depth <= MAX_SPLIT_DEPTH,
    ensures
        res is Ok <==> divides(*a, *b),
{
    let all: u64 = every_tile(a.depth);
    let rest = a.complement();
    proof {
        lemma_joined_masks(a.mask, b.mask);
        lemma_plain_masks();
        if divides(*a, *b) {
            assert forall|p: int| 0 <= p < 64 implies (#[trigger] has_bit(a.mask & b.mask, p)
                <==> has_bit(0, p)) by {
                assert(has_bit(b.mask, p) ==> !has_bit(a.mask, p));
            }
            lemma_same_bits(a.mask & b.mask, 0);
            assert forall|p: int| 0 <= p < 64 implies (#[trigger] has_bit(a.mask | b.mask, p)
                <==> has_bit(all, p)) by {
                assert(has_bit(b.mask, p) <==> p < tile_count(a.depth as int) && !has_bit(a.mask, p));
            }
            lemma_same_bits(a.mask | b.mask, all);
            lemma_same_bits(rest.mask, b.mask);
        }
    }
    if a.mask & b.mask != 0 {
        return gate(false, "the two bands overlap: those tiles would be rendered twice");
    }
    if a.mask | b.mask != all {
        return gate(false, "the two bands leave tiles unrendered: a hole in the image");
    }
    proof {
        assert forall|p: int| 0 <= p < 64 && #[trigger] has_bit(a.mask, p) implies p < tile_count(
            a.depth as int,
        ) by {
            assert(has_bit(a.mask | b.mask, p));
        }
    }
    gate(rest == *b, "the complement of a band disagrees with the band below it")
}

/// Where the lowest of a mask's tiles ends on screen, among the paths below
/// `n`; 0 where it holds none.
spec fn held_end(mask: u64, d: int, rw: u32, rh: u32, n: int) -> u32
    decreases n,
{
    if n <= 0 {
        0
    } else {
        let before = held_end(mask, d, rw, rh, n - 1);
        let y1 = tile_rect(d, n - 1, rw, rh).y1;
        if has_bit(mask, n - 1) && y1 > before {
            y1
        } else {
            before
        }
    }
}

/// Where the highest tile that a mask leaves out starts on screen, among the
/// paths below `n`; the last row number where it leaves none out.
spec fn rest_start(mask: u64, d: int, rw: u32, rh: u32, n: int) -> u32
    decreases n,
{
    if n <= 0 {
        u32::MAX
    } else {
        let before = rest_start(mask, d, rw, rh, n - 1);
        let y0 = tile_rect(d, n - 1, rw, rh).y0;
        if !has_bit(mask, n - 1) && y0 < before {
            y0
        } else {
            before
        }
    }
}

/// A split's tiles end on screen where the others start.
spec fn seam_closed(s: TileSplit, rw: u32, rh: u32) -> bool {
    let (d, n) = (s.depth as int, tile_count(s.depth as int));
    held_end(s.mask, d, rw, rh, n) == rest_start(s.mask, d, rw, rh, n)
}

/// The tiles of the first `r` tile rows end where tile row `r` starts, and the
/// others start there.
proof fn lemma_band_ends(mask: u64, d: int, r: int, rw: u32, rh: u32, n: int)
    requires
        0 < d <= MAX_SPLIT_DEPTH,
        0 < r < side_of(d),
        is_band(mask, d, 0, r),
        0 <= n <= tile_count(d),
    ensures
        held_end(mask, d, rw, rh, n) <= row_span(d, r, rh).0 <= rest_start(mask, d, rw, rh, n),
        first_path(d, r - 1) < n ==> held_end(mask, d, rw, rh, n) == row_span(d, r, rh).0,
        first_path(d, r) < n ==> rest_start(mask, d, rw, rh, n) == row_span(d, r, rh).0,
    decreases n,
{
    lemma_counts();
    lemma_first_path(d, r - 1);
    lemma_first_path(d, r);
    tile_rows_cover_the_screen(d, r - 1, rh);
    tile_rows_cover_the_screen(d, r, rh);
    if n > 0 {
        let p = n - 1;
        lemma_band_ends(mask, d, r, rw, rh, p);
        let row = row_of(d, p);
        lemma_rect_rows(d, p, rw, rh);
        lemma_row_bound(d, p);
        if row < r - 1 {
            lemma_rows_ordered(d, row, r - 1, rh);
        }
        if r < row {
            lemma_rows_ordered(d, r, row, rh);
        }
        assert(has_bit(mask, p) <==> row < r);
    }
}

/// Whether a split's tiles end on screen where the others start.
fn check_seam(s: &TileSplit, rw: u32, rh: u32) -> (res: Result<(), String>)
    requires
        0 < s.depth <= MAX_SPLIT_DEPTH,
    ensures
        res is Ok <==> seam_closed(*s, rw, rh),
{
    proof {
        lemma_counts();
    }
    let n: u32 = TileSplit::tiles_at(s.depth);
    let mut top_end: u32 = 0;
    let mut bottom_start: u32 = u32::MAX;
    let mut path: u32 = 0;
    while path < n
        invariant
            n == tile_count(s.depth as int),
            n <= 64,
            path <= n,
            top_end == held_end(s.mask, s.depth as int, rw, rh, path as int),
            bottom_start == rest_start(s.mask, s.depth as int, rw, rh, path as int),
        decreases n - path,
    {
        let rect = rect_for_path(s.depth, path, rw, rh);
        let held: bool = (s.mask >> (path as u64)) & 1 == 1;
        assert(held == has_bit(s.mask, path as int));
        if held {
            if rect.y1 > top_end {
                top_end = rect.y1;
            }
        } else {
            if rect.y0 < bottom_start {
                bottom_start = rect.y0;
            }
        }
        path = path + 1;
    }
    gate(
        top_end == bottom_start,
        "band seam disagrees: the mask's row bits and the tile rectangles have drifted apart",
    )
}

/// The pixel is owned exactly when the tile of the path is.
spec fn owned_alike(s: TileSplit, path: int, x: u32, y: u32, rw: u32, rh: u32) -> bool {
    s.owns(x, y, rw, rh) <==> has_bit(s.mask, path)
}

/// Whether a pixel is owned exactly when the tile of a path is.
fn check_pixel(s: &TileSplit, path: u32, x: u32, y: u32, rw: u32, rh: u32) -> (res: Result<
    (),
    String,
>)
    requires
        path < 64,
    ensures
        res is Ok <==> owned_alike(*s, path as int, x, y, rw, rh),
{
    let want: bool = (s.mask >> (path as u64)) & 1 == 1;
    assert(want == has_bit(s.mask, path as int));
    gate(
        s.owns_px(x, y, rw, rh) == want,
        "a pixel's tile and the tile rectangles have drifted apart",
    )
}

/// The corners and the centre of a tile's rectangle are owned exactly when the
/// tile is; a rectangle without pixels has none.
spec fn tile_owned_alike(s: TileSplit, path: int, rw: u32, rh: u32) -> bool {
    let r = tile_rect(s.depth as int, path, rw, rh);
    let (x, y) = ((r.x1 - 1) as u32, (r.y1 - 1) as u32);
    r.x0 < r.x1 && r.y0 < r.y1 ==> {
        &&& owned_alike(s, path, r.x0, r.y0, rw, rh)
        &&& owned_alike(s, path, x, r.y0, rw, rh)
        &&& owned_alike(s, path, r.x0, y, rw, rh)
        &&& owned_alike(s, path, x, y, rw, rh)
        &&& owned_alike(s, path, mid(r.x0, r.x1) as u32, mid(r.y0, r.y1) as u32, rw, rh)
    }
}

/// Every tile of the split's depth is owned together with its pixels.
spec fn tiles_owned_alike(s: TileSplit, rw: u32, rh: u32) -> bool {
    forall|p: int|
        0 <= p < tile_count(s.depth as int) ==> #[trigger] tile_owned_alike(s, p, rw, rh)
}

/// A pixel of a tile's rectangle is owned with the tile.
proof fn lemma_owned_alike(s: TileSplit, p: int, x: u32, y: u32, rw: u32, rh: u32)
    requires
        0 < s.depth <= MAX_SPLIT_DEPTH,
        0 <= p < tile_count(s.depth as int),
        in_rect(tile_rect(s.depth as int, p, rw, rh), x as int, y as int),
    ensures
        owned_alike(s, p, x, y, rw, rh),
{
    lemma_counts();
    lemma_rect_ordered(s.depth as int, p, rw, rh);
    each_pixel_has_one_tile(s.depth as int, p, x, y, rw, rh);
    assert(p % 0x1_0000_0000 == p);
}

/// Tiles are owned together with their pixels, whatever the mask.
proof fn lemma_tiles_owned_alike(s: TileSplit, rw: u32, rh: u32)
    requires
        0 < s.depth <= MAX_SPLIT_DEPTH,
    ensures
        tiles_owned_alike(s, rw, rh),
{
    assert forall|p: int| 0 <= p < tile_count(s.depth as int) implies #[trigger] tile_owned_alike(
        s,
        p,
        rw,
        rh,
    ) by {
        let r = tile_rect(s.depth as int, p, rw, rh);
        if r.x0 < r.x1 && r.y0 < r.y1 {
            let (x, y) = ((r.x1 - 1) as u32, (r.y1 - 1) as u32);
            lemma_owned_alike(s, p, r.x0, r.y0, rw, rh);
            lemma_owned_alike(s, p, x, r.y0, rw, rh);
            lemma_owned_alike(s, p, r.x0, y, rw, rh);
            lemma_owned_alike(s, p, x, y, rw, rh);
            lemma_owned_alike(s, p, mid(r.x0, r.x1) as u32, mid(r.y0, r.y1) as u32, rw, rh);
        }
    }
}

/// Whether the corners and the centre of every tile are owned with the tile.
fn check_pixels(s: &TileSplit, rw: u32, rh: u32) -> (res: Result<(), String>)
    requires
        0 < s.depth <= MAX_SPLIT_DEPTH,
    ensures
        res is Ok <==> tiles_owned_alike(*s, rw, rh),
{
    proof {
        lemma_counts();
    }
    let n: u32 = TileSplit::tiles_at(s.depth);
    let mut path: u32 = 0;
    while path < n
        invariant
            n == tile_count(s.depth as int),
            n <= 64,
            path <= n,
            forall|p: int| 0 <= p < path ==> #[trigger] tile_owned_alike(*s, p, rw, rh),
        decreases n - path,
    {
        let rect = rect_for_path(s.depth, path, rw, rh);
        let ghost alike = tile_owned_alike(*s, path as int, rw, rh);
        if rect.x0 < rect.x1 && rect.y0 < rect.y1 {
            let (x, y) = (rect.x1 - 1, rect.y1 - 1);
            let xm: u32 = rect.x0 + (rect.x1 - rect.x0) / 2;
            let ym: u32 = rect.y0 + (rect.y1 - rect.y0) / 2;
            check_pixel(s, path, rect.x0, rect.y0, rw, rh)?;
            check_pixel(s, path, x, rect.y0, rw, rh)?;
            check_pixel(s, path, rect.x0, y, rw, rh)?;
            check_pixel(s, path, x, y, rw, rh)?;
            check_pixel(s, path, xm, ym, rw, rh)?;
        }
        assert(alike);
        path = path + 1;
    }
    Ok(())
}

/// The pixel rows of a split, where its tiles are one band of whole tile rows.
spec fn rows_held(s: TileSplit, rh: u32) -> Option<(u32, u32)> {
    let d = s.depth as int;
    if d == 0 {
        Some((0u32, rh))
    } else if exists|a: int, b: int| 0 <= a < b <= side_of(d) && owns_band(s.mask, d, a, b) {
        let (a, b) = choose|a: int, b: int|
            0 <= a < b <= side_of(d) && owns_band(s.mask, d, a, b);
        Some((row_span(d, a, rh).0, row_span(d, b - 1, rh).1))
    } else {
        None
    }
}

/// The pixel rows of a band of tile rows.
proof fn lemma_rows_of_band(s: TileSplit, a: int, b: int, rh: u32)
    requires
        0 < s.depth,
        0 <= a < b <= side_of(s.depth as int),
        owns_band(s.mask, s.depth as int, a, b),
    ensures
        rows_held(s, rh) == Some(
            (row_span(s.depth as int, a, rh).0, row_span(s.depth as int, b - 1, rh).1),
        ),
{
    let d = s.depth as int;
    let (a2, b2) = choose|a: int, b: int| 0 <= a < b <= side_of(d) && owns_band(s.mask, d, a, b);
    lemma_band_unique(s.mask, d, a, b, a2, b2);
}

/// A split's pixel rows are ordered and on screen.
proof fn lemma_rows_on_screen(s: TileSplit, rh: u32)
    ensures
        rows_held(s, rh) matches Some(v) ==> v.0 <= v.1 <= rh,
{
    let d = s.depth as int;
    if d > 0 && rows_held(s, rh) is Some {
        let (a, b) = choose|a: int, b: int|
            0 <= a < b <= side_of(d) && owns_band(s.mask, d, a, b);
        tile_rows_cover_the_screen(d, a, rh);
        tile_rows_cover_the_screen(d, b - 1, rh);
        if a < b - 1 {
            lemma_rows_ordered(d, a, b - 1, rh);
        }
    }
}

/// The rows of the first split run from the top of the screen to where tile
/// row `r` starts, and those of the second from there to its bottom.
spec fn ranges_meet(a: TileSplit, b: TileSplit, r: int, rh: u32) -> bool {
    let seam = row_span(a.depth as int, r, rh).0;
    &&& rows_held(a, rh) == Some((0u32, seam))
    &&& rows_held(b, rh) == Some((seam, rh))
}

/// Whether the pixel rows of two splits partition the screen and meet where
/// the tiles of tile row `r` start.
fn check_ranges(a: &TileSplit, b: &TileSplit, r: u32, rw: u32, rh: u32) -> (res: Result<
    (),
    String,
>)
    requires
        0 < a.depth <= MAX_SPLIT_DEPTH,
        b.depth <= MAX_SPLIT_DEPTH,
        r < side_of(a.depth as int),
    ensures
        res is Ok <==> ranges_meet(*a, *b, r as int, rh),
{
    let (ay0, ay1): (u32, u32) = match a.row_range(rw, rh) {
        Some(v) => v,
        None => {
            return gate(false, "a row band has no row range");
        },
    };
    let (by0, by1): (u32, u32) = match b.row_range(rw, rh) {
        Some(v) => v,
        None => {
            return gate(false, "the complement of a row band must also be one");
        },
    };
    if ay0 != 0 || by1 != rh || ay1 != by0 {
        return gate(
            false,
            "the bands do not partition the rows: one would be copied twice or left stale",
        );
    }
    let top: u32 = TileSplit::first_path_of_row(a.depth, r);
    proof {
        lemma_first_path(a.depth as int, r as int);
        lemma_rect_rows(a.depth as int, top as int, rw, rh);
    }
    let rect = rect_for_path(a.depth, top, rw, rh);
    gate(ay1 == rect.y0, "the band seam disagrees with the tile rectangle")
}

/// The secondary takes what the primary leaves, as one band whose height on a
/// screen of 1080 rows is `rows` tile rows, to the nearest whole.
spec fn share_given(p: TileSplit, s: Option<TileSplit>, rows: int) -> bool {
    let side = side_of(p.depth as int);
    s matches Some(t) && {
        &&& t.depth == p.depth
        &&& leaves(p.mask, p.depth as int, t.mask)
        &&& rows_held(t, 1080) matches Some(v) && ((v.1 - v.0) * side * 2 + 1080) / 2160 == rows
    }
}

/// The last `rows` tile rows are given as a share of `rows`.
proof fn lemma_share_given(p: TileSplit, t: TileSplit, rows: int)
    requires
        0 < p.depth <= MAX_SPLIT_DEPTH,
        t.depth == p.depth,
        0 < rows < side_of(p.depth as int),
        is_band(p.mask, p.depth as int, 0, side_of(p.depth as int) - rows),
        is_band(
            t.mask,
            p.depth as int,
            side_of(p.depth as int) - rows,
            side_of(p.depth as int),
        ),
    ensures
        share_given(p, Some(t), rows),
{
    lemma_counts();
    let d = p.depth as int;
    let side = side_of(d);
    bands_partition_the_tiles(p.mask, t.mask, d, side - rows);
    assert(owns_band(t.mask, d, side - rows, side));
    lemma_rows_of_band(t, side - rows, side, 1080);
    tile_rows_are_proportional(d, side - rows, 1080);
    tile_rows_cover_the_screen(d, side - rows, 1080);
    tile_rows_cover_the_screen(d, side - 1, 1080);
    let y0 = row_span(d, side - rows, 1080).0;
    let e = (side - rows) * 1080 - y0 * side;
    assert((1080 - y0) * side == rows * 1080 + e) by (nonlinear_arith)
        requires
            e == (side - rows) * 1080 - y0 * side,
    ;
    assert(2 * e <= 3 * side) by (nonlinear_arith)
        requires
            2 * e <= d * side,
            d <= 3,
            side >= 0,
    ;
}

/// Whether a share of `rows` went to the secondary, as the complement of the
/// primary's band, and in proportion.
fn check_share(p: &TileSplit, s: &Option<TileSplit>, rows: u32) -> (res: Result<(), String>)
    requires
        0 < p.depth <= MAX_SPLIT_DEPTH,
    ensures
        res is Ok <==> share_given(*p, *s, rows as int),
{
    proof {
        lemma_counts();
        lemma_count_grows(p.depth as int);
        vstd::bits::lemma_u32_shl_is_mul(1, p.depth);
    }
    let side: u32 = 1u32 << p.depth;
    let s: TileSplit = match s {
        Some(s) => *s,
        None => {
            return gate(false, "a share dropped the secondary");
        },
    };
    let rest = p.complement();
    proof {
        if s.depth == p.depth && leaves(p.mask, p.depth as int, s.mask) {
            lemma_same_bits(rest.mask, s.mask);
        }
    }
    if rest != s {
        return gate(false, "a share is not a complementary pair");
    }
    let (y0, y1): (u32, u32) = match s.row_range(1920, 1080) {
        Some(v) => v,
        None => {
            return gate(false, "a secondary is not a row band");
        },
    };
    proof {
        lemma_rows_on_screen(s, 1080);
        assert(0 <= (y1 - y0) * side <= 8640) by (nonlinear_arith)
            requires
                0 <= y1 - y0 <= 1080,
                0 <= side <= 8,
        ;
    }
    let got: u32 = ((y1 - y0) * side * 2 + 1080) / 2160;
    gate(got == rows, "the share is oriented at the wrong device")
}

/// The gates that a depth's splits at tile row `r` have to pass do pass.
proof fn lemma_splits_hold(a: TileSplit, b: TileSplit, r: int, rw: u32, rh: u32)
    requires
        0 < a.depth <= MAX_SPLIT_DEPTH,
        b.depth == a.depth,
        0 <= r <= side_of(a.depth as int),
        is_band(a.mask, a.depth as int, 0, r),
        is_band(b.mask, a.depth as int, r, side_of(a.depth as int)),
    ensures
        divides(a, b),
        0 < r < side_of(a.depth as int) ==> seam_closed(a, rw, rh) && ranges_meet(a, b, r, rh),
{
    let d = a.depth as int;
    let side = side_of(d);
    lemma_counts();
    bands_partition_the_tiles(a.mask, b.mask, d, r);
    if 0 < r < side {
        lemma_first_path(d, r - 1);
        lemma_first_path(d, r);
        lemma_band_ends(a.mask, d, r, rw, rh, tile_count(d));
        assert(owns_band(a.mask, d, 0, r));
        assert(owns_band(b.mask, d, r, side));
        lemma_rows_of_band(a, 0, r, rh);
        lemma_rows_of_band(b, r, side, rh);
        tile_rows_cover_the_screen(d, 0, rh);
        tile_rows_cover_the_screen(d, r - 1, rh);
        tile_rows_cover_the_screen(d, side - 1, rh);
    }
}

/// Checks the split's arithmetic against the tile rectangles at every depth
/// and tile row, on an even and an odd screen size. Every gate holds.
pub fn split_self_test() -> (res: Result<(), String>)
    ensures
        res is Ok,
{
    proof {
        lemma_counts();
    }
    let whole = TileSplit::all();
    gate(whole.depth == 0, "the unsplit screen must have depth 0")?;
    let top = TileSplit::rows(1, 0, 1);
    proof {
        reveal_with_fuel(row_of, 2);
        lemma_low_bits(2);
        assert(((1u64 << 2u64) - 1) as u64 == 3) by (bit_vector);
        assert forall|p: int| 0 <= p < 64 implies (#[trigger] has_bit(top.mask, p) <==> has_bit(
            3,
            p,
        )) by {
            assert(has_bit(((1u64 << 2u64) - 1) as u64, p) <==> p < 2);
        }
        lemma_same_bits(top.mask, 3);
    }
    gate(top.mask == 3, "the top half must be the upper two quadrants")?;
    let mut depth: u32 = 1;
    while depth <= MAX_SPLIT_DEPTH
        invariant
            1 <= depth <= MAX_SPLIT_DEPTH + 1,
        decreases MAX_SPLIT_DEPTH + 1 - depth,
    {
        proof {
            lemma_counts();
            lemma_count_grows(depth as int);
            vstd::bits::lemma_u32_shl_is_mul(1, depth);
        }
        let side: u32 = 1u32 << depth;
        let full = TileSplit::rows(depth, 0, side);
        let all: u64 = every_tile(depth);
        proof {
            assert forall|p: int| 0 <= p < 64 implies (#[trigger] has_bit(full.mask, p)
                <==> has_bit(all, p)) by {
                lemma_row_bound(depth as int, p);
            }
            lemma_same_bits(full.mask, all);
        }
        gate(full.mask == all, "the full band must cover every tile")?;
        let mut r: u32 = 0;
        while r <= side
            invariant
                0 < depth <= MAX_SPLIT_DEPTH,
                side == side_of(depth as int),
                side <= 8,
                r <= side + 1,
            decreases side + 1 - r,
        {
            let a = TileSplit::rows(depth, 0, r);
            let b = TileSplit::rows(depth, r, side);
            proof {
                lemma_splits_hold(a, b, r as int, 1920, 1080);
                lemma_splits_hold(a, b, r as int, 533, 400);
            }
            check_bands(&a, &b)?;
            if r > 0 && r < side {
                check_seam(&a, 1920, 1080)?;
                check_seam(&a, 533, 400)?;
                let rest = a.complement();
                proof {
                    complement_of_a_top_band(a.mask, b.mask, rest.mask, depth as int, r as int);
                }
                check_ranges(&a, &rest, r, 1920, 1080)?;
                check_ranges(&a, &rest, r, 533, 400)?;
                let (p, s) = TileSplit::for_share(r, depth);
                proof {
                    lemma_share_given(p, s->0, r as int);
                }
                check_share(&p, &s, r)?;
            }
            r = r + 1;
        }
        let mixed = TileSplit { mask: 0x5555_5555_5555_5555u64 & all, depth };
        proof {
            lemma_tiles_owned_alike(mixed, 1920, 1080);
            lemma_tiles_owned_alike(mixed, 533, 400);
        }
        check_pixels(&mixed, 1920, 1080)?;
        check_pixels(&mixed, 533, 400)?;
        let (prim, _) = TileSplit::for_share(side, depth);
        proof {
            lemma_plain_masks();
            lemma_first_path(depth as int, 0);
            assert(has_bit(prim.mask, first_path(depth as int, 0)));
        }
        gate(prim.mask != 0, "a share of every row starved the primary")?;
        depth = depth + 1;
    }
    let inter = TileSplit { mask: 5, depth: 1 };
    let partial = TileSplit { mask: 1, depth: 1 };
    proof {
        assert((5u64 >> 0u64) & 1 == 1 && (5u64 >> 1u64) & 1 == 0 && (1u64 >> 0u64) & 1 == 1 && (
        1u64 >> 1u64) & 1 == 0) by (bit_vector);
        lemma_split_row_is_no_band(5);
        lemma_split_row_is_no_band(1);
    }
    gate(
        inter.row_range(1920, 1080).is_none(),
        "an interleaved mask must have no row range: it would copy the partner's pixels",
    )?;
    gate(
        partial.row_range(1920, 1080).is_none(),
        "a partially owned tile row must have no row range",
    )?;
    let mut d: u32 = 0;
    while d <= MAX_SPLIT_DEPTH
        invariant
            d <= MAX_SPLIT_DEPTH + 1,
            whole == TileSplit::whole(),
        decreases MAX_SPLIT_DEPTH + 1 - d,
    {
        let (p, s) = TileSplit::for_share(0, d);
        gate(p == whole && s.is_none(), "a share of zero must be the unsplit screen")?;
        d = d + 1;
    }
    gate(
        whole.owns_px(0, 0, 1920, 1080) && whole.owns_px(1919, 1079, 1920, 1080) && whole.owns_px(
            960,
            540,
            1920,
            1080,
        ),
        "the unsplit screen must own every pixel",
    )?;
    proof {
        lemma_counts();
    }
    gate(
        TileSplit::tiles_at(MAX_SPLIT_DEPTH) == 64,
        "the deepest split must fill the mask and no more",
    )
}

impl Default for TileSplit {
    fn default() -> (s: Self)
        ensures
            s == TileSplit::whole(),
    {
        TileSplit::all()
    }
}

/// A depth has four to its power tiles in two to its power rows.
pub proof fn tiles_come_in_powers(depth: nat)
    ensures
        tile_count(depth as int) == vstd::arithmetic::power2::pow2(2 * depth),
        side_of(depth as int) == vstd::arithmetic::power2::pow2(depth),
    decreases depth,
{
    vstd::arithmetic::power2::lemma2_to64();
    if depth > 0 {
        tiles_come_in_powers((depth - 1) as nat);
        vstd::arithmetic::power2::lemma_pow2_unfold(depth);
        vstd::arithmetic::power2::lemma_pow2_unfold(2 * depth);
        vstd::arithmetic::power2::lemma_pow2_unfold((2 * depth - 1) as nat);
    }
}

/// A tile is a quarter of the tile above it: its path ends in 0 for the upper
/// left, 1 for the upper right, 2 for the lower left and 3 for the lower right,
/// and the cuts go through the middle, rounded up and to the left. The tile of
/// depth zero is the screen.
pub proof fn tiles_quarter_the_tile_above(depth: int, path: int, rw: u32, rh: u32)
    requires
        0 <= depth,
        0 <= path,
    ensures
        ({
            let (up, t) = (
                tile_rect(depth, path / 4, rw, rh),
                tile_rect(depth + 1, path, rw, rh),
            );
            let (xm, ym) = (up.x0 + (up.x1 - up.x0) / 2, up.y0 + (up.y1 - up.y0) / 2);
            &&& path % 4 == 0 ==> t.x0 == up.x0 && t.x1 == xm && t.y0 == up.y0 && t.y1 == ym
            &&& path % 4 == 1 ==> t.x0 == xm && t.x1 == up.x1 && t.y0 == up.y0 && t.y1 == ym
            &&& path % 4 == 2 ==> t.x0 == up.x0 && t.x1 == xm && t.y0 == ym && t.y1 == up.y1
            &&& path % 4 == 3 ==> t.x0 == xm && t.x1 == up.x1 && t.y0 == ym && t.y1 == up.y1
        }),
        tile_rect(0, path, rw, rh) == (Rect { x0: 0, y0: 0, x1: rw, y1: rh }),
        path % 4 < 2 ==> row_of(depth + 1, path) == 2 * row_of(depth, path / 4),
        path % 4 >= 2 ==> row_of(depth + 1, path) == 2 * row_of(depth, path / 4) + 1,
        row_of(0, path) == 0,
{
    lemma_rect_ordered(depth, path / 4, rw, rh);
}

/// A path is in a mask exactly where its bit is set, counted from the lowest.
pub proof fn masks_hold_a_bit_a_path(mask: u64, p: int)
    requires
        0 <= p < 64,
    ensures
        has_bit(mask, p) <==> (mask as int / vstd::arithmetic::power2::pow2(p as nat) as int) % 2 == 1,
{
    let q = p as u64;
    vstd::bits::lemma_u64_shr_is_div(mask, q);
    let m = mask >> q;
    assert(m & 1 == m % 2) by (bit_vector);
}

/// A tile is as high as its tile row, wherever in the row it stands.
pub proof fn tiles_are_as_high_as_their_row(depth: int, path: int, rw: u32, rh: u32)
    requires
        0 <= depth,
        0 <= path < tile_count(depth),
    ensures
        tile_rect(depth, path, rw, rh).y0 == row_span(depth, row_of(depth, path), rh).0,
        tile_rect(depth, path, rw, rh).y1 == row_span(depth, row_of(depth, path), rh).1,
        0 <= row_of(depth, path) < side_of(depth),
    decreases depth,
{
    if depth > 0 {
        tiles_are_as_high_as_their_row(depth - 1, path / 4, rw, rh);
        let r = row_of(depth - 1, path / 4);
        let bit = (path % 4) / 2;
        assert(0 <= bit <= 1);
        assert((2 * r + bit) / 2 == r && (2 * r + bit) % 2 == bit);
    }
}

/// Tile rows follow each other down the screen.
pub proof fn tile_rows_go_down(depth: int, r: int, q: int, rh: u32)
    requires
        0 <= depth,
        0 <= r < q < side_of(depth),
    ensures
        row_span(depth, r, rh).1 <= row_span(depth, q, rh).0,
    decreases q - r,
{
    tile_rows_cover_the_screen(depth, q - 1, rh);
    if r < q - 1 {
        tile_rows_go_down(depth, r, q - 1, rh);
    }
}

/// A pixel of the screen falls into one of the depth's tiles, and into the row
/// span of that tile.
pub proof fn pixels_stand_in_their_row(depth: int, x: u32, y: u32, rw: u32, rh: u32)
    requires
        0 <= depth <= MAX_SPLIT_DEPTH,
        x < rw,
        y < rh,
    ensures
        ({
            let p = px_path(depth, x, y, rw, rh);
            let s = row_span(depth, row_of(depth, p), rh);
            0 <= p < tile_count(depth) && 0 <= row_of(depth, p) < side_of(depth) && s.0 <= y < s.1
        }),
{
    let p = px_path(depth, x, y, rw, rh);
    lemma_counts();
    lemma_px_path_bound(depth, x, y, rw, rh);
    each_pixel_has_one_tile(depth, p, x, y, rw, rh);
    tiles_are_as_high_as_their_row(depth, p, rw, rh);
}

} // verus!
