//! The overlay's changed pixels, packed for upload.
//!
//! Each rectangle's rows are tightly packed, four bytes a pixel and no pitch,
//! and the rectangles follow one another in list order. Rectangles are clamped
//! to the buffer before packing, so that the bytes and the list always agree.
use vstd::prelude::*;

verus! {

/// One changed region, in pixels.
#[derive(Clone, Copy, Debug, PartialEq, Eq, Structural)]
pub struct DirtyRect {
    pub x: u32,
    pub y: u32,
    pub w: u32,
    pub h: u32,
}

/// A frame's changed pixels.
pub struct HudFrame {
    pub rects: Vec<DirtyRect>,
    pub bytes: Vec<u8>,
}

/// The smaller of two.
pub open spec fn least(a: u32, b: int) -> u32 {
    if a <= b {
        a
    } else {
        b as u32
    }
}

/// A rectangle cut to a `w` by `h` buffer.
pub open spec fn clamped(r: DirtyRect, w: u32, h: u32) -> DirtyRect {
    let x = least(r.x, w as int);
    let y = least(r.y, h as int);
    DirtyRect { x, y, w: least(r.w, w - x), h: least(r.h, h - y) }
}

/// The rectangle lies inside the buffer and holds a pixel.
pub open spec fn fits(r: DirtyRect, w: u32, h: u32) -> bool {
    0 < r.w && 0 < r.h && r.x + r.w <= w && r.y + r.h <= h
}

/// The rectangles cut to the buffer, in order, without the empty ones.
pub open spec fn kept(rects: Seq<DirtyRect>, w: u32, h: u32) -> Seq<DirtyRect>
    decreases rects.len(),
{
    if rects.len() == 0 {
        Seq::empty()
    } else {
        let rest = kept(rects.drop_last(), w, h);
        let r = clamped(rects.last(), w, h);
        if r.w > 0 && r.h > 0 {
            rest.push(r)
        } else {
            rest
        }
    }
}

/// Offset of a pixel's bytes.
pub open spec fn offset(w: u32, x: u32, y: int) -> int {
    (y * w + x) * 4
}

/// The first `n` rows of a rectangle.
pub open spec fn rect_rows(src: Seq<u8>, w: u32, r: DirtyRect, n: nat) -> Seq<u8>
    decreases n,
{
    if n == 0 {
        Seq::empty()
    } else {
        let o = offset(w, r.x, r.y + n - 1);
        rect_rows(src, w, r, (n - 1) as nat) + src.subrange(o, o + r.w * 4)
    }
}

/// The rectangles' rows, one rectangle after the other.
pub open spec fn packed(src: Seq<u8>, w: u32, rects: Seq<DirtyRect>) -> Seq<u8>
    decreases rects.len(),
{
    if rects.len() == 0 {
        Seq::empty()
    } else {
        packed(src, w, rects.drop_last()) + rect_rows(src, w, rects.last(), rects.last().h as nat)
    }
}

/// What is kept fits the buffer.
proof fn lemma_kept_fits(rects: Seq<DirtyRect>, w: u32, h: u32)
    ensures
        forall|i: int| 0 <= i < kept(rects, w, h).len() ==> fits(#[trigger] kept(rects, w, h)[i], w, h),
    decreases rects.len(),
{
    if rects.len() > 0 {
        lemma_kept_fits(rects.drop_last(), w, h);
        let all = kept(rects, w, h);
        assert forall|i: int| 0 <= i < all.len() implies fits(#[trigger] all[i], w, h) by {
            let rest = kept(rects.drop_last(), w, h);
            if i < rest.len() {
                assert(fits(rest[i], w, h));
            }
        }
    }
}

/// Bytes of a rectangle's first rows.
proof fn lemma_rows_len(src: Seq<u8>, w: u32, h: u32, r: DirtyRect, n: nat)
    requires
        src.len() == w * h * 4,
        fits(r, w, h),
        n <= r.h,
    ensures
        rect_rows(src, w, r, n).len() == n * r.w * 4,
    decreases n,
{
    if n > 0 {
        lemma_rows_len(src, w, h, r, (n - 1) as nat);
        lemma_row_inside(w, h, r, n - 1);
        let m = (n - 1) as nat;
        let k = r.w as int;
        assert(n * k * 4 == m * k * 4 + k * 4) by (nonlinear_arith)
            requires
                n == m + 1,
        ;
    } else {
        assert(0 * r.w * 4 == 0) by (nonlinear_arith);
    }
}

/// A row of a rectangle lies inside the buffer.
proof fn lemma_row_inside(w: u32, h: u32, r: DirtyRect, row: int)
    requires
        fits(r, w, h),
        0 <= row < r.h,
    ensures
        0 <= (r.y + row) * w,
        0 <= (r.y + row) * w + r.x,
        0 <= offset(w, r.x, r.y + row),
        offset(w, r.x, r.y + row) + r.w * 4 <= w * h * 4,
{
    let y = r.y + row;
    let (a, b) = (w as int, h as int);
    assert(0 <= y * a <= (b - 1) * a) by (nonlinear_arith)
        requires
            0 <= y <= b - 1,
            0 <= a,
    ;
    assert((b - 1) * a == a * b - a) by (nonlinear_arith);
}

/// Cuts every rectangle to a `w` by `h` buffer and drops the empty ones.
pub fn clamp_rects(rects: &mut Vec<DirtyRect>, w: u32, h: u32)
    ensures
        final(rects)@ == kept(old(rects)@, w, h),
{
    let mut out: Vec<DirtyRect> = Vec::new();
    let n: usize = rects.len();
    let mut i: usize = 0;
    assert(rects@.take(0) =~= Seq::<DirtyRect>::empty());
    while i < n
        invariant
            i <= n,
            n == rects@.len(),
            rects@ == old(rects)@,
            out@ == kept(rects@.take(i as int), w, h),
        decreases n - i,
    {
        let r = rects[i];
        let x: u32 = if r.x <= w {
            r.x
        } else {
            w
        };
        let y: u32 = if r.y <= h {
            r.y
        } else {
            h
        };
        let rw: u32 = if r.w <= w - x {
            r.w
        } else {
            w - x
        };
        let rh: u32 = if r.h <= h - y {
            r.h
        } else {
            h - y
        };
        proof {
            assert(rects@.take(i as int + 1).drop_last() =~= rects@.take(i as int));
            assert(rects@.take(i as int + 1).last() == r);
        }
        if rw > 0 && rh > 0 {
            out.push(DirtyRect { x, y, w: rw, h: rh });
        }
        i = i + 1;
    }
    assert(rects@.take(n as int) =~= rects@);
    *rects = out;
}

fn push_bytes(out: &mut Vec<u8>, src: &[u8], from: usize, to: usize)
    requires
        from <= to <= src.len(),
    ensures
        final(out)@ == old(out)@ + src@.subrange(from as int, to as int),
{
    let mut i: usize = from;
    assert(out@ =~= old(out)@ + src@.subrange(from as int, from as int));
    while i < to
        invariant
            from <= i <= to <= src.len(),
            out@ == old(out)@ + src@.subrange(from as int, i as int),
        decreases to - i,
    {
        out.push(src[i]);
        i = i + 1;
        assert(out@ =~= old(out)@ + src@.subrange(from as int, i as int));
    }
}

/// Packs the rectangles out of a `w` by `h` buffer; nothing where none of them
/// holds a pixel of it.
pub fn pack_rects(src: &[u8], w: u32, h: u32, rects: Vec<DirtyRect>) -> (frame: Option<HudFrame>)
    requires
        src.len() == w * h * 4,
    ensures
        frame is None <==> kept(rects@, w, h).len() == 0,
        frame matches Some(f) ==> f.rects@ == kept(rects@, w, h) && f.bytes@ == packed(
            src@,
            w,
            kept(rects@, w, h),
        ),
{
    let mut rects = rects;
    let ghost given = rects@;
    clamp_rects(&mut rects, w, h);
    if rects.len() == 0 {
        return None;
    }
    proof {
        lemma_kept_fits(given, w, h);
    }
    let mut bytes: Vec<u8> = Vec::new();
    let n: usize = rects.len();
    let mut i: usize = 0;
    assert(rects@.take(0) =~= Seq::<DirtyRect>::empty());
    while i < n
        invariant
            i <= n,
            n == rects@.len(),
            src.len() == w * h * 4,
            forall|j: int| 0 <= j < n ==> fits(#[trigger] rects@[j], w, h),
            bytes@ == packed(src@, w, rects@.take(i as int)),
        decreases n - i,
    {
        let r = rects[i];
        let ghost before = bytes@;
        assert(fits(r, w, h));
        assert(bytes@ =~= before + rect_rows(src@, w, r, 0));
        let mut row: u32 = 0;
        while row < r.h
            invariant
                row <= r.h,
                fits(r, w, h),
                src.len() == w * h * 4,
                bytes@ == before + rect_rows(src@, w, r, row as nat),
            decreases r.h - row,
        {
            proof {
                lemma_row_inside(w, h, r, row as int);
            }
            let y: usize = (r.y + row) as usize;
            let o: usize = (y * w as usize + r.x as usize) * 4;
            push_bytes(&mut bytes, src, o, o + r.w as usize * 4);
            row = row + 1;
            assert(bytes@ =~= before + rect_rows(src@, w, r, row as nat));
        }
        proof {
            assert(rects@.take(i as int + 1).drop_last() =~= rects@.take(i as int));
            assert(rects@.take(i as int + 1).last() == r);
        }
        i = i + 1;
    }
    assert(rects@.take(n as int) =~= rects@);
    Some(HudFrame { rects, bytes })
}

/// Clamping twice is clamping once.
pub proof fn clamping_is_idempotent(rects: Seq<DirtyRect>, w: u32, h: u32)
    ensures
        kept(kept(rects, w, h), w, h) == kept(rects, w, h),
    decreases rects.len(),
{
    if rects.len() > 0 {
        clamping_is_idempotent(rects.drop_last(), w, h);
        let rest = kept(rects.drop_last(), w, h);
        let r = clamped(rects.last(), w, h);
        if r.w > 0 && r.h > 0 {
            assert(rest.push(r).drop_last() =~= rest);
            assert(clamped(r, w, h) == r);
        }
    }
}

/// Rectangles that lie inside the buffer are kept as they are.
pub proof fn fitting_rects_are_kept(rects: Seq<DirtyRect>, w: u32, h: u32)
    requires
        forall|i: int| 0 <= i < rects.len() ==> fits(#[trigger] rects[i], w, h),
    ensures
        kept(rects, w, h) == rects,
    decreases rects.len(),
{
    if rects.len() > 0 {
        assert forall|i: int| 0 <= i < rects.drop_last().len() implies fits(
            #[trigger] rects.drop_last()[i],
            w,
            h,
        ) by {
            assert(fits(rects[i], w, h));
        }
        fitting_rects_are_kept(rects.drop_last(), w, h);
        let r = rects.last();
        assert(fits(rects[rects.len() - 1], w, h));
        assert(clamped(r, w, h) == r);
        assert(rects.drop_last().push(r) =~= rects);
    } else {
        assert(rects =~= Seq::empty());
    }
}

/// Two lists packed together are their packings one after the other.
pub proof fn packing_concatenates(
    src: Seq<u8>,
    w: u32,
    a: Seq<DirtyRect>,
    b: Seq<DirtyRect>,
)
    ensures
        packed(src, w, a + b) == packed(src, w, a) + packed(src, w, b),
    decreases b.len(),
{
    if b.len() > 0 {
        assert((a + b).drop_last() =~= a + b.drop_last());
        assert((a + b).last() == b.last());
        packing_concatenates(src, w, a, b.drop_last());
        assert(packed(src, w, a + b) =~= packed(src, w, a) + packed(src, w, b));
    } else {
        assert(a + b =~= a);
        assert(packed(src, w, a) =~= packed(src, w, a) + packed(src, w, b));
    }
}

/// Total bytes of rectangles.
pub open spec fn area_bytes(rects: Seq<DirtyRect>) -> int
    decreases rects.len(),
{
    if rects.len() == 0 {
        0
    } else {
        area_bytes(rects.drop_last()) + rects.last().h * rects.last().w * 4
    }
}

/// A packing has exactly four bytes a pixel.
pub proof fn packing_has_exact_length(src: Seq<u8>, w: u32, h: u32, rects: Seq<DirtyRect>)
    requires
        src.len() == w * h * 4,
        forall|i: int| 0 <= i < rects.len() ==> fits(#[trigger] rects[i], w, h),
    ensures
        packed(src, w, rects).len() == area_bytes(rects),
    decreases rects.len(),
{
    if rects.len() > 0 {
        assert forall|i: int| 0 <= i < rects.drop_last().len() implies fits(
            #[trigger] rects.drop_last()[i],
            w,
            h,
        ) by {
            assert(fits(rects[i], w, h));
        }
        packing_has_exact_length(src, w, h, rects.drop_last());
        assert(fits(rects[rects.len() - 1], w, h));
        lemma_rows_len(src, w, h, rects.last(), rects.last().h as nat);
    }
}

fn same_bytes(a: &Vec<u8>, b: &Vec<u8>) -> (r: bool)
    ensures
        r <==> a@ == b@,
{
    if a.len() != b.len() {
        return false;
    }
    let n: usize = a.len();
    let mut i: usize = 0;
    while i < n
        invariant
            i <= n,
            n == a@.len(),
            n == b@.len(),
            a@.take(i as int) == b@.take(i as int),
        decreases n - i,
    {
        if a[i] != b[i] {
            return false;
        }
        i = i + 1;
        assert(a@.take(i as int) =~= a@.take(i - 1).push(a@[i - 1]));
        assert(b@.take(i as int) =~= b@.take(i - 1).push(b@[i - 1]));
    }
    assert(a@.take(n as int) =~= a@ && b@.take(n as int) =~= b@);
    true
}

/// The list is one given rectangle.
fn is_only(rects: &Vec<DirtyRect>, r: DirtyRect) -> (b: bool)
    ensures
        b <==> rects@ == seq![r],
{
    if rects.len() != 1 {
        return false;
    }
    let only: bool = rects[0] == r;
    assert(only ==> rects@ =~= seq![r]);
    only
}

/// A buffer with every byte hashed from its index.
fn hashed(n: usize) -> (src: Vec<u8>)
    requires
        n <= u32::MAX,
    ensures
        src@.len() == n,
        forall|i: int|
            0 <= i < n ==> #[trigger] src@[i] == (((i as u32).wrapping_mul(2654435761u32) >> 13u32)
                & 0xff) as u8,
{
    let mut src: Vec<u8> = Vec::new();
    let mut i: usize = 0;
    while i < n
        invariant
            i <= n <= u32::MAX,
            src@.len() == i,
            forall|j: int|
                0 <= j < i ==> #[trigger] src@[j] == (((j as u32).wrapping_mul(2654435761u32)
                    >> 13u32) & 0xff) as u8,
        decreases n - i,
    {
        src.push((((i as u32).wrapping_mul(2654435761u32) >> 13u32) & 0xff) as u8);
        i = i + 1;
    }
    src
}

/// The texels of a rectangle, pixel by pixel.
fn texels(src: &[u8], w: u32, h: u32, r: DirtyRect) -> (out: Vec<u8>)
    requires
        src.len() == w * h * 4,
        fits(r, w, h),
    ensures
        out@ == rect_rows(src@, w, r, r.h as nat),
{
    let mut out: Vec<u8> = Vec::new();
    let mut row: u32 = 0;
    while row < r.h
        invariant
            row <= r.h,
            fits(r, w, h),
            src.len() == w * h * 4,
            out@ == rect_rows(src@, w, r, row as nat),
        decreases r.h - row,
    {
        let ghost before = out@;
        let ghost o = offset(w, r.x, r.y + row);
        proof {
            lemma_row_inside(w, h, r, row as int);
        }
        let y: usize = (r.y + row) as usize;
        let start: usize = (y * w as usize + r.x as usize) * 4;
        let mut x: u32 = 0;
        assert(out@ =~= before + src@.subrange(o, o));
        while x < r.w
            invariant
                x <= r.w,
                start == o,
                0 <= o,
                o + r.w * 4 <= src.len(),
                out@ == before + src@.subrange(o, o + x * 4),
            decreases r.w - x,
        {
            let t: usize = start + x as usize * 4;
            push_bytes(&mut out, src, t, t + 4);
            x = x + 1;
            assert(out@ =~= before + src@.subrange(o, o + x * 4));
        }
        row = row + 1;
        assert(out@ =~= rect_rows(src@, w, r, row as nat));
    }
    out
}

/// One rectangle that fits packs into its own texels.
proof fn lemma_one_rect(src: Seq<u8>, w: u32, h: u32, r: DirtyRect)
    requires
        src.len() == w * h * 4,
        fits(r, w, h),
    ensures
        kept(seq![r], w, h) == seq![r],
        packed(src, w, seq![r]) == rect_rows(src, w, r, r.h as nat),
        packed(src, w, seq![r]).len() == r.h * r.w * 4,
{
    let one = seq![r];
    fitting_rects_are_kept(one, w, h);
    assert(one.drop_last() =~= Seq::empty());
    assert(packed(src, w, one.drop_last()) =~= Seq::empty());
    assert(packed(src, w, one) =~= rect_rows(src, w, r, r.h as nat));
    lemma_rows_len(src, w, h, r, r.h as nat);
}

/// Nothing is kept of a rectangle outside the buffer or without area.
proof fn lemma_nothing_kept(r: DirtyRect, w: u32, h: u32)
    requires
        clamped(r, w, h).w == 0 || clamped(r, w, h).h == 0,
    ensures
        kept(seq![r], w, h).len() == 0,
{
    assert(seq![r].drop_last() =~= Seq::empty());
    assert(kept(seq![r].drop_last(), w, h) =~= Seq::empty());
}

fn fault(text: &str) -> (r: Result<(), String>)
    ensures
        r matches Err(e) && e@ == text@,
{
    Err(text.to_string())
}

/// The first byte of a rectangle's texels is its corner's.
proof fn lemma_first_byte(src: Seq<u8>, w: u32, h: u32, r: DirtyRect, n: nat)
    requires
        src.len() == w * h * 4,
        fits(r, w, h),
        0 < n <= r.h,
    ensures
        rect_rows(src, w, r, n)[0] == src[offset(w, r.x, r.y as int)],
        rect_rows(src, w, r, n).len() > 0,
    decreases n,
{
    lemma_row_inside(w, h, r, n - 1);
    lemma_row_inside(w, h, r, 0);
    if n > 1 {
        lemma_first_byte(src, w, h, r, (n - 1) as nat);
    } else {
        assert(rect_rows(src, w, r, 0) =~= Seq::empty());
    }
}

/// A list of one rectangle.
fn one(r: DirtyRect) -> (v: Vec<DirtyRect>)
    ensures
        v@ == seq![r],
{
    let mut v: Vec<DirtyRect> = Vec::new();
    v.push(r);
    assert(v@ =~= seq![r]);
    v
}

/// A list of two rectangles.
fn two(a: DirtyRect, b: DirtyRect) -> (v: Vec<DirtyRect>)
    ensures
        v@ == seq![a, b],
{
    let mut v: Vec<DirtyRect> = Vec::new();
    v.push(a);
    v.push(b);
    assert(v@ =~= seq![a, b]);
    v
}

/// The packing rules on a hashed buffer: content by construction, exactness at
/// the edges, clamping, dropping, and the order of the list. Every one holds.
#[verifier::rlimit(40)]
pub fn self_test() -> (res: Result<(), String>)
    ensures
        res is Ok,
{
    let (w, h): (u32, u32) = (8, 4);
    let src = hashed(128);
    let r0 = DirtyRect { x: 2, y: 1, w: 3, h: 2 };
    let r1 = DirtyRect { x: 5, y: 2, w: 3, h: 2 };
    let corner = DirtyRect { x: 7, y: 3, w: 1, h: 1 };
    let wide = DirtyRect { x: 7, y: 3, w: 10, h: 10 };
    let outside = DirtyRect { x: 8, y: 4, w: 2, h: 2 };
    let thin = DirtyRect { x: 1, y: 1, w: 0, h: 3 };
    proof {
        lemma_one_rect(src@, w, h, r0);
        lemma_one_rect(src@, w, h, r1);
        lemma_one_rect(src@, w, h, corner);
        assert(r0.h * r0.w == 6 && r1.h * r1.w == 6) by (nonlinear_arith)
            requires
                r0.h == 2,
                r0.w == 3,
                r1.h == 2,
                r1.w == 3,
        ;
        lemma_nothing_kept(outside, w, h);
        lemma_nothing_kept(thin, w, h);
        assert(seq![wide].drop_last() =~= Seq::empty());
        assert(kept(seq![wide].drop_last(), w, h) =~= Seq::empty());
        assert(kept(seq![wide], w, h) =~= seq![corner]);
    }
    let a = match pack_rects(src.as_slice(), w, h, one(r0)) {
        Some(f) => f,
        None => {
            return fault("interior rectangle packed to nothing");
        },
    };
    let want = texels(src.as_slice(), w, h, r0);
    if !is_only(&a.rects, r0) || a.bytes.len() != 24 || !same_bytes(&a.bytes, &want) {
        return fault("interior rectangle changed");
    }
    let b = match pack_rects(src.as_slice(), w, h, one(r1)) {
        Some(f) => f,
        None => {
            return fault("edge rectangle packed to nothing");
        },
    };
    let want = texels(src.as_slice(), w, h, r1);
    if !is_only(&b.rects, r1) || b.bytes.len() != 24 || !same_bytes(&b.bytes, &want) {
        return fault("edge rectangle changed");
    }
    let c = match pack_rects(src.as_slice(), w, h, one(wide)) {
        Some(f) => f,
        None => {
            return fault("over-range rectangle packed to nothing");
        },
    };
    let want = texels(src.as_slice(), w, h, corner);
    if !is_only(&c.rects, corner) || !same_bytes(&c.bytes, &want) {
        return fault("over-range rectangle did not clamp to the corner");
    }
    if pack_rects(src.as_slice(), w, h, one(outside)).is_some() {
        return fault("rectangle outside the buffer survived clamping");
    }
    if pack_rects(src.as_slice(), w, h, one(thin)).is_some() {
        return fault("zero-width rectangle survived clamping");
    }
    let none: Vec<DirtyRect> = Vec::new();
    if pack_rects(src.as_slice(), w, h, none).is_some() {
        return fault("empty list packed to something");
    }
    proof {
        lemma_pair(src@, w, h, r0, r1);
        lemma_pair(src@, w, h, r1, r0);
    }
    let ab = match pack_rects(src.as_slice(), w, h, two(r0, r1)) {
        Some(f) => f,
        None => {
            return fault("two rectangles packed to nothing");
        },
    };
    let ba = match pack_rects(src.as_slice(), w, h, two(r1, r0)) {
        Some(f) => f,
        None => {
            return fault("two rectangles packed to nothing, swapped");
        },
    };
    if ab.bytes.len() != 48 || ba.bytes.len() != 48 {
        return fault("two rectangles have the wrong byte count");
    }
    let mut joined: Vec<u8> = Vec::new();
    push_bytes(&mut joined, a.bytes.as_slice(), 0, a.bytes.len());
    push_bytes(&mut joined, b.bytes.as_slice(), 0, b.bytes.len());
    proof {
        assert(joined@ =~= a.bytes@ + b.bytes@);
        lemma_first_byte(src@, w, h, r0, 2);
        lemma_first_byte(src@, w, h, r1, 2);
        assert(ab.bytes@[0] == src@[40] && ba.bytes@[0] == src@[84]);
        lemma_hash_differs();
    }
    if !same_bytes(&ab.bytes, &joined) {
        return fault("two rectangles are not packed in list order");
    }
    if same_bytes(&ab.bytes, &ba.bytes) {
        return fault("swapped rectangles packed identically");
    }
    Ok(())
}

/// Two rectangles that fit pack into the first's bytes and then the second's.
proof fn lemma_pair(src: Seq<u8>, w: u32, h: u32, a: DirtyRect, b: DirtyRect)
    requires
        src.len() == w * h * 4,
        fits(a, w, h),
        fits(b, w, h),
    ensures
        kept(seq![a, b], w, h) == seq![a, b],
        packed(src, w, seq![a, b]) == packed(src, w, seq![a]) + packed(src, w, seq![b]),
{
    fitting_rects_are_kept(seq![a, b], w, h);
    assert(seq![a, b] =~= seq![a] + seq![b]);
    packing_concatenates(src, w, seq![a], seq![b]);
}

/// The two corners that the order test compares hash apart.
proof fn lemma_hash_differs()
    ensures
        ((40u32.wrapping_mul(2654435761u32) >> 13u32) & 0xff) as u8 != ((84u32.wrapping_mul(
            2654435761u32,
        ) >> 13u32) & 0xff) as u8,
{
    let x = 40u32.wrapping_mul(2654435761u32);
    let y = 84u32.wrapping_mul(2654435761u32);
    assert(x == 3098215336u32);
    assert(y == 3929271828u32);
    assert(((3098215336u32 >> 13u32) & 0xff) as u8 != ((3929271828u32 >> 13u32) & 0xff) as u8)
        by (bit_vector);
}

/// The pixel lies in the rectangle.
pub open spec fn covers(r: DirtyRect, px: int, py: int) -> bool {
    r.x <= px < r.x + r.w && r.y <= py < r.y + r.h
}

proof fn lemma_kept_pixels(rects: Seq<DirtyRect>, w: u32, h: u32, px: int, py: int)
    ensures
        (exists|i: int| 0 <= i < kept(rects, w, h).len() && covers(#[trigger] kept(rects, w, h)[i], px, py))
            <==> 0 <= px < w && 0 <= py < h && exists|i: int|
            0 <= i < rects.len() && covers(#[trigger] rects[i], px, py),
        kept(rects, w, h).len() <= rects.len(),
        forall|i: int|
            0 <= i < kept(rects, w, h).len() ==> (#[trigger] kept(rects, w, h)[i]).w > 0 && kept(
                rects,
                w,
                h,
            )[i].h > 0,
    decreases rects.len(),
{
    if rects.len() > 0 {
        let part = rects.drop_last();
        lemma_kept_pixels(part, w, h, px, py);
        let (rest, all, last) = (kept(part, w, h), kept(rects, w, h), rects.last());
        let r = clamped(last, w, h);
        assert(covers(r, px, py) <==> 0 <= px < w && 0 <= py < h && covers(last, px, py));
        if exists|i: int| 0 <= i < all.len() && covers(#[trigger] all[i], px, py) {
            let i = choose|i: int| 0 <= i < all.len() && covers(#[trigger] all[i], px, py);
            if i < rest.len() {
                assert(rest[i] == all[i]);
                let j = choose|j: int| 0 <= j < part.len() && covers(#[trigger] part[j], px, py);
                assert(rects[j] == part[j]);
            } else {
                assert(rects[rects.len() - 1] == last);
            }
        }
        if 0 <= px < w && 0 <= py < h && exists|i: int|
            0 <= i < rects.len() && covers(#[trigger] rects[i], px, py) {
            let i = choose|i: int| 0 <= i < rects.len() && covers(#[trigger] rects[i], px, py);
            if i < part.len() {
                assert(part[i] == rects[i]);
                let j = choose|j: int| 0 <= j < rest.len() && covers(#[trigger] rest[j], px, py);
                assert(all[j] == rest[j]);
            } else {
                assert(covers(r, px, py));
                assert(all[rest.len() as int] == r);
            }
        }
        assert forall|i: int| 0 <= i < all.len() implies (#[trigger] all[i]).w > 0 && all[i].h > 0 by {
            if i < rest.len() {
                assert(rest[i] == all[i]);
            }
        }
    }
}

/// Cutting rectangles to the buffer loses none of its pixels and adds none: one
/// is covered after exactly where it lies in the buffer and was covered before.
/// No rectangle without a pixel is left.
pub proof fn clamping_keeps_the_pixels_inside(
    rects: Seq<DirtyRect>,
    w: u32,
    h: u32,
    px: int,
    py: int,
)
    ensures
        (exists|i: int| 0 <= i < kept(rects, w, h).len() && covers(#[trigger] kept(rects, w, h)[i], px, py))
            <==> 0 <= px < w && 0 <= py < h && exists|i: int|
            0 <= i < rects.len() && covers(#[trigger] rects[i], px, py),
        forall|i: int|
            0 <= i < kept(rects, w, h).len() ==> (#[trigger] kept(rects, w, h)[i]).w > 0 && kept(
                rects,
                w,
                h,
            )[i].h > 0,
{
    lemma_kept_pixels(rects, w, h, px, py);
}

/// Row after row of a rectangle comes out of the buffer: from the pixel where
/// the row starts on, as many pixels as the rectangle is wide, four bytes each.
pub proof fn rows_come_out_of_the_buffer(
    src: Seq<u8>,
    w: u32,
    h: u32,
    r: DirtyRect,
    row: int,
    n: nat,
)
    requires
        src.len() == w * h * 4,
        fits(r, w, h),
        0 <= row < n <= r.h,
    ensures
        packed(src, w, seq![r]) == rect_rows(src, w, r, r.h as nat),
        ({
            let from = ((r.y + row) * w + r.x) * 4;
            rect_rows(src, w, r, n).subrange(row * (r.w * 4), row * (r.w * 4) + r.w * 4)
                == src.subrange(from, from + r.w * 4)
        }),
        rect_rows(src, w, r, n).len() == n * (r.w * 4),
    decreases n,
{
    let one = seq![r];
    assert(one.drop_last() =~= Seq::<DirtyRect>::empty());
    assert(packed(src, w, one) =~= rect_rows(src, w, r, r.h as nat)) by {
        assert(packed(src, w, Seq::<DirtyRect>::empty()) =~= Seq::<u8>::empty());
    }
    let m = (n - 1) as nat;
    let k = r.w * 4;
    lemma_rows_len(src, w, h, r, n);
    lemma_rows_len(src, w, h, r, m);
    lemma_row_inside(w, h, r, n - 1);
    assert(n * r.w * 4 == n * k && m * r.w * 4 == m * k && n * k == m * k + k) by (nonlinear_arith)
        requires
            k == r.w * 4,
            n == m + 1,
    ;
    let (all, part) = (rect_rows(src, w, r, n), rect_rows(src, w, r, m));
    if row < m {
        rows_come_out_of_the_buffer(src, w, h, r, row, m);
        assert(0 <= row * k && row * k + k <= m * k) by (nonlinear_arith)
            requires
                0 <= row,
                row + 1 <= m,
                0 <= k,
        ;
        assert(all.subrange(row * k, row * k + k) =~= part.subrange(row * k, row * k + k));
    } else {
        let o = offset(w, r.x, r.y + n - 1);
        assert(all.subrange(row * k, row * k + k) =~= src.subrange(o, o + k));
    }
}

} // verus!
