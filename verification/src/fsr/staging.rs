//! The upscaler's three input planes, staged into rows of a given pitch.
//!
//! A plane's pixels are first its tight byte image; staging lays that image
//! out row by row and leaves every other byte of the buffer alone.
use vstd::prelude::*;
use crate::bits;
use crate::bits::ONE;

verus! {

/// Bit pattern of the largest finite half-precision value, as a
/// single-precision one and as a half-precision one.
pub const HALF_MAX: u32 = 0x477f_e000;

pub const HALF_MAX_HALF: u16 = 0x7bff;

/// What the test buffers hold before they are staged into.
pub const SENTINEL: u8 = 0xa5;

/// The words of a colour image: three halves a pixel, and an alpha of 0.
pub open spec fn color_words(rgb: Seq<u16>, pixels: nat) -> Seq<u16> {
    Seq::new(
        4 * pixels,
        |i: int|
            if i % 4 == 3 {
                0u16
            } else {
                rgb[(i / 4) * 3 + i % 4]
            },
    )
}

/// The bytes of half-words, low byte first.
pub open spec fn half_bytes(words: Seq<u16>) -> Seq<u8> {
    Seq::new(
        2 * words.len(),
        |i: int|
            if i % 2 == 0 {
                (words[i / 2] % 256) as u8
            } else {
                (words[i / 2] / 256) as u8
            },
    )
}

/// The bytes of words, low byte first.
pub open spec fn word_bytes(words: Seq<u32>) -> Seq<u8> {
    Seq::new(
        4 * words.len(),
        |i: int|
            {
                let w = words[i / 4];
                if i % 4 == 0 {
                    (w % 256) as u8
                } else if i % 4 == 1 {
                    (w / 256 % 256) as u8
                } else if i % 4 == 2 {
                    (w / 65536 % 256) as u8
                } else {
                    (w / 16777216) as u8
                }
            },
    )
}

/// The rows fit: a row has room in the pitch, and the buffer for every row.
pub open spec fn room_for(len: int, pitch: int, row: int, rh: int) -> bool {
    0 < pitch && row <= pitch && pitch * rh <= len
}

/// Byte `i` of a buffer of this pitch belongs to the staged rectangle.
pub open spec fn inside(i: int, pitch: int, row: int, rh: int) -> bool {
    i / pitch < rh && i % pitch < row
}

/// A buffer with an image laid out in it: `row` bytes of every row, the other
/// bytes as they were.
pub open spec fn laid_out(before: Seq<u8>, image: Seq<u8>, pitch: int, row: int, rh: int) -> Seq<
    u8,
> {
    Seq::new(
        before.len(),
        |i: int|
            if inside(i, pitch, row, rh) {
                image[(i / pitch) * row + i % pitch]
            } else {
                before[i]
            },
    )
}

/// Whether `rw` by `rh` pixels of `bpp` bytes fit a buffer of this length and
/// pitch.
pub fn rows_fit(len: usize, pitch: usize, rw: usize, rh: usize, bpp: usize) -> (r: bool)
    ensures
        r <==> room_for(len as int, pitch as int, rw * bpp, rh as int),
{
    if pitch == 0 {
        return false;
    }
    proof {
        let (a, b, c, d) = (rw as int, bpp as int, pitch as int, rh as int);
        assert(0 <= a * b <= 0xffff_ffff_ffff_ffff * 0xffff_ffff_ffff_ffff) by (nonlinear_arith)
            requires
                0 <= a <= 0xffff_ffff_ffff_ffff,
                0 <= b <= 0xffff_ffff_ffff_ffff,
        ;
        assert(0 <= c * d <= 0xffff_ffff_ffff_ffff * 0xffff_ffff_ffff_ffff) by (nonlinear_arith)
            requires
                0 <= c <= 0xffff_ffff_ffff_ffff,
                0 <= d <= 0xffff_ffff_ffff_ffff,
        ;
    }
    let row: u128 = (rw as u128) * (bpp as u128);
    let all: u128 = (pitch as u128) * (rh as u128);
    row <= pitch as u128 && all <= len as u128
}

/// Row and column of a byte are found again from its index.
proof fn lemma_place(i: int, pitch: int, y: int, x: int)
    requires
        0 <= x < pitch,
        0 <= y,
        i == y * pitch + x,
    ensures
        i / pitch == y,
        i % pitch == x,
        0 <= i,
{
    vstd::arithmetic::div_mod::lemma_fundamental_div_mod_converse(i, pitch, y, x);
    assert(0 <= y * pitch) by (nonlinear_arith)
        requires
            0 <= y,
            0 < pitch,
    ;
}

/// A place inside the rectangle lies in the buffer and has a place in the
/// image.
proof fn lemma_room(len: int, pitch: int, row: int, rh: int, y: int, x: int)
    requires
        room_for(len, pitch, row, rh),
        0 <= y < rh,
        0 <= x < row,
    ensures
        0 <= y * pitch,
        y * pitch + x < len,
        0 <= y * row,
        y * row + x < row * rh,
{
    assert(0 <= y * pitch && y * pitch + pitch <= pitch * rh) by (nonlinear_arith)
        requires
            0 <= y < rh,
            0 < pitch,
    ;
    assert(0 <= y * row && y * row + row <= row * rh) by (nonlinear_arith)
        requires
            0 <= y < rh,
            0 < row,
    ;
}

/// Byte `i` belongs to a row before `y`, or to row `y` before column `x`.
spec fn upto(i: int, pitch: int, row: int, y: int, x: int) -> bool {
    inside(i, pitch, row, y) || (i / pitch == y && i % pitch < x)
}

/// Lays an image of `rh` rows of `row` bytes out in a buffer.
fn lay(dst: &mut Vec<u8>, pitch: usize, image: &Vec<u8>, row: usize, rh: usize)
    requires
        room_for(old(dst).len() as int, pitch as int, row as int, rh as int),
        image@.len() >= row * rh,
    ensures
        final(dst)@ == laid_out(old(dst)@, image@, pitch as int, row as int, rh as int),
{
    let ghost before = dst@;
    let ghost n = before.len() as int;
    let img: usize = image.len();
    let len: usize = dst.len();
    let mut y: usize = 0;
    while y < rh
        invariant
            y <= rh,
            img == image@.len(),
            img == image.len(),
            len == n,
            room_for(n, pitch as int, row as int, rh as int),
            image@.len() >= row * rh,
            n == before.len(),
            dst@.len() == n,
            forall|i: int|
                0 <= i < n ==> #[trigger] dst@[i] == if inside(
                    i,
                    pitch as int,
                    row as int,
                    y as int,
                ) {
                    image@[(i / (pitch as int)) * row + i % (pitch as int)]
                } else {
                    before[i]
                },
        decreases rh - y,
    {
        let mut x: usize = 0;
        while x < row
            invariant
                y < rh,
                x <= row,
                img == image@.len(),
                img == image.len(),
                len == n,
                room_for(n, pitch as int, row as int, rh as int),
                image@.len() >= row * rh,
                n == before.len(),
                dst@.len() == n,
                forall|i: int|
                    0 <= i < n ==> #[trigger] dst@[i] == if upto(
                        i,
                        pitch as int,
                        row as int,
                        y as int,
                        x as int,
                    ) {
                        image@[(i / (pitch as int)) * row + i % (pitch as int)]
                    } else {
                        before[i]
                    },
            decreases row - x,
        {
            proof {
                lemma_room(n, pitch as int, row as int, rh as int, y as int, x as int);
                lemma_place(y * pitch + x, pitch as int, y as int, x as int);
            }
            let at: usize = y * pitch + x;
            let from: usize = y * row + x;
            let ghost was = dst@;
            dst.set(at, image[from]);
            proof {
                assert forall|i: int| 0 <= i < n implies #[trigger] dst@[i] == if upto(
                    i,
                    pitch as int,
                    row as int,
                    y as int,
                    x + 1,
                ) {
                    image@[(i / (pitch as int)) * row + i % (pitch as int)]
                } else {
                    before[i]
                } by {
                    assert(was[i] == was[i]);
                    if i / (pitch as int) == y && i % (pitch as int) == x {
                        vstd::arithmetic::div_mod::lemma_fundamental_div_mod(i, pitch as int);
                        assert(pitch * (i / (pitch as int)) == y * pitch) by (nonlinear_arith)
                            requires
                                i / (pitch as int) == y,
                        ;
                        assert(i == at);
                    }
                }
            }
            x = x + 1;
        }
        y = y + 1;
    }
    assert(dst@ =~= laid_out(before, image@, pitch as int, row as int, rh as int));
}

/// The byte image of half-words.
fn bytes_of_halves(words: &Vec<u16>, n: usize) -> (b: Vec<u8>)
    requires
        n <= words@.len(),
    ensures
        b@ == half_bytes(words@.take(n as int)),
{
    let mut b: Vec<u8> = Vec::new();
    let mut i: usize = 0;
    while i < n
        invariant
            i <= n,
            n <= words@.len(),
            b@.len() == 2 * i,
            forall|j: int|
                0 <= j < 2 * i ==> #[trigger] b@[j] == half_bytes(words@.take(n as int))[j],
        decreases n - i,
    {
        let w: u16 = words[i];
        b.push((w % 256) as u8);
        b.push((w / 256) as u8);
        i = i + 1;
    }
    assert(b@ =~= half_bytes(words@.take(n as int)));
    b
}

/// The words of a colour image.
fn with_alpha(rgb: &Vec<u16>, n: usize) -> (words: Vec<u16>)
    requires
        3 * n <= rgb@.len(),
    ensures
        words@ == color_words(rgb@, n as nat),
{
    let have: usize = rgb.len();
    let mut words: Vec<u16> = Vec::new();
    let mut i: usize = 0;
    while i < n
        invariant
            i <= n,
            have == rgb@.len(),
            have == rgb.len(),
            rgb@.len() >= 3 * n,
            words@.len() == 4 * i,
            forall|j: int|
                0 <= j < 4 * i ==> #[trigger] words@[j] == color_words(rgb@, n as nat)[j],
        decreases n - i,
    {
        words.push(rgb[3 * i]);
        words.push(rgb[3 * i + 1]);
        words.push(rgb[3 * i + 2]);
        words.push(0);
        i = i + 1;
    }
    assert(words@ =~= color_words(rgb@, n as nat));
    words
}

/// Stages a colour plane: three half-precision bit patterns a pixel, four
/// written, the last of them 0.
pub fn stage_color(dst: &mut Vec<u8>, pitch: usize, rgb: &Vec<u16>, rw: usize, rh: usize)
    requires
        room_for(old(dst).len() as int, pitch as int, rw * 8, rh as int),
        rgb@.len() >= rw * rh * 3,
    ensures
        final(dst)@ == laid_out(
            old(dst)@,
            half_bytes(color_words(rgb@, (rw * rh) as nat)),
            pitch as int,
            rw * 8,
            rh as int,
        ),
{
    let len: usize = dst.len();
    proof {
        let (a, b, p) = (rw as int, rh as int, pitch as int);
        assert(a * 8 * b <= p * b) by (nonlinear_arith)
            requires
                a * 8 <= p,
                0 <= b,
        ;
        assert(a * 8 * b == 8 * (a * b)) by (nonlinear_arith);
        assert(0 <= a * b) by (nonlinear_arith)
            requires
                0 <= a,
                0 <= b,
        ;
    }
    let words = with_alpha(rgb, rw * rh);
    let ghost n = rw * rh;
    assert(words@.take(4 * n) =~= words@);
    let image = bytes_of_halves(&words, words.len());
    lay(dst, pitch, &image, rw * 8, rh);
}

/// Stages a motion plane: two half-precision bit patterns a pixel, copied.
pub fn stage_mvec(dst: &mut Vec<u8>, pitch: usize, mvec: &Vec<u16>, rw: usize, rh: usize)
    requires
        room_for(old(dst).len() as int, pitch as int, rw * 4, rh as int),
        mvec@.len() >= rw * rh * 2,
    ensures
        final(dst)@ == laid_out(
            old(dst)@,
            half_bytes(mvec@.take(rw * rh * 2)),
            pitch as int,
            rw * 4,
            rh as int,
        ),
{
    let len: usize = dst.len();
    proof {
        let (a, b, p) = (rw as int, rh as int, pitch as int);
        assert(a * 4 * b <= p * b) by (nonlinear_arith)
            requires
                a * 4 <= p,
                0 <= b,
        ;
        assert(a * 4 * b == 4 * (a * b)) by (nonlinear_arith);
    }
    proof {
        assert(0 <= rw * rh) by (nonlinear_arith);
    }
    let image = bytes_of_halves(mvec, rw * rh * 2);
    lay(dst, pitch, &image, rw * 4, rh);
}

/// Stages a depth plane: one single-precision bit pattern a pixel.
pub fn stage_depth(dst: &mut Vec<u8>, pitch: usize, depth: &Vec<u32>, rw: usize, rh: usize)
    requires
        room_for(old(dst).len() as int, pitch as int, rw * 4, rh as int),
        depth@.len() >= rw * rh,
    ensures
        final(dst)@ == laid_out(
            old(dst)@,
            word_bytes(depth@.take(rw * rh)),
            pitch as int,
            rw * 4,
            rh as int,
        ),
{
    let len: usize = dst.len();
    proof {
        let (a, b, p) = (rw as int, rh as int, pitch as int);
        assert(a * 4 * b <= p * b) by (nonlinear_arith)
            requires
                a * 4 <= p,
                0 <= b,
        ;
        assert(a * 4 * b == 4 * (a * b)) by (nonlinear_arith);
    }
    let mut image: Vec<u8> = Vec::new();
    assert(0 <= rw * rh) by (nonlinear_arith);
    let n: usize = rw * rh;
    let mut i: usize = 0;
    while i < n
        invariant
            i <= n,
            n == rw * rh,
            n <= depth@.len(),
            image@.len() == 4 * i,
            forall|j: int|
                0 <= j < 4 * i ==> #[trigger] image@[j] == word_bytes(depth@.take(n as int))[j],
        decreases n - i,
    {
        let w: u32 = depth[i];
        image.push((w % 256) as u8);
        image.push((w / 256 % 256) as u8);
        image.push((w / 65536 % 256) as u8);
        image.push((w / 16777216) as u8);
        i = i + 1;
    }
    assert(image@ =~= word_bytes(depth@.take(n as int)));
    lay(dst, pitch, &image, rw * 4, rh);
}

/// Staging leaves the padding of every row and the rows past the image alone,
/// so that one buffer serves every smaller resolution.
pub proof fn staging_keeps_the_rest(
    before: Seq<u8>,
    image: Seq<u8>,
    pitch: int,
    row: int,
    rh: int,
    i: int,
)
    requires
        0 <= i < before.len(),
        0 < pitch,
        rh <= i / pitch || row <= i % pitch,
    ensures
        laid_out(before, image, pitch, row, rh)[i] == before[i],
{
}

/// Every byte of the image is found at its row and column.
pub proof fn staging_places_every_byte(
    before: Seq<u8>,
    image: Seq<u8>,
    pitch: int,
    row: int,
    rh: int,
    y: int,
    x: int,
)
    requires
        room_for(before.len() as int, pitch, row, rh),
        image.len() == row * rh,
        0 <= y < rh,
        0 <= x < row,
    ensures
        laid_out(before, image, pitch, row, rh)[y * pitch + x] == image[y * row + x],
{
    lemma_room(before.len() as int, pitch, row, rh, y, x);
    lemma_place(y * pitch + x, pitch, y, x);
}

/// A staged pixel's alpha is 0, and its colour is the one that was given.
pub proof fn staged_alpha_is_zero(rgb: Seq<u16>, pixels: nat, p: int)
    requires
        0 <= p < pixels,
        rgb.len() == 3 * pixels,
    ensures
        color_words(rgb, pixels)[4 * p + 3] == 0,
        color_words(rgb, pixels)[4 * p] == rgb[3 * p],
        color_words(rgb, pixels)[4 * p + 1] == rgb[3 * p + 1],
        color_words(rgb, pixels)[4 * p + 2] == rgb[3 * p + 2],
{
}

/// A probe of the staged planes: the frame's values, and what they were
/// encoded to. Colours and depths are bit patterns.
pub struct StageProbe {
    pub rw: usize,
    pub rh: usize,
    pub near: u32,
    pub far: u32,
    /// Linear colour, three a pixel, and its half-precision encoding.
    pub accum: Vec<u32>,
    pub color: Vec<u16>,
    /// Motion, two a pixel.
    pub mvec: Vec<u16>,
    /// View depth, and its clip-space encoding.
    pub view_z: Vec<u32>,
    pub depth: Vec<u32>,
}

impl StageProbe {
    /// The planes have the probe's size, and buffers for them can be indexed.
    pub open spec fn wf(self) -> bool {
        let n = self.rw * self.rh;
        &&& self.accum@.len() == 3 * n
        &&& self.color@.len() == 3 * n
        &&& self.mvec@.len() == 2 * n
        &&& self.view_z@.len() == n
        &&& self.depth@.len() == n
        &&& (self.rw * 8 + 16) * (self.rh + 2) <= usize::MAX
    }
}

/// The value's magnitude lies past the half-precision range.
pub open spec fn over_range(v: u32) -> bool {
    bits::lt(HALF_MAX, bits::magnitude(v) as u32)
}

/// A colour past the range is encoded to the end of it, with its own sign.
pub open spec fn saturates(v: u32, half: u16) -> bool {
    over_range(v) ==> half % 0x8000 == HALF_MAX_HALF && (half >= 0x8000 <==> v >= bits::SIGN)
}

/// Equal as floats compare.
pub open spec fn same_value(a: u32, b: u32) -> bool {
    bits::le(a, b) && bits::le(b, a)
}

/// A depth is encoded into the unit range, the far plane to exactly 0 and
/// what is nearer than the near plane to exactly 1.
pub open spec fn reverses(z: u32, d: u32, near: u32, far: u32) -> bool {
    &&& bits::le(0, d) && bits::le(d, ONE)
    &&& same_value(z, far) ==> same_value(d, 0)
    &&& bits::lt(z, near) ==> same_value(d, ONE)
}

/// The encodings keep their rules on the probe, and the probe puts every rule
/// to the test.
pub open spec fn encoders_hold(p: StageProbe) -> bool {
    &&& forall|i: int| 0 <= i < p.accum@.len() ==> saturates(#[trigger] p.accum@[i], p.color@[i])
    &&& forall|i: int|
        0 <= i < p.view_z@.len() ==> reverses(#[trigger] p.view_z@[i], p.depth@[i], p.near, p.far)
    &&& exists|i: int| 0 <= i < p.accum@.len() && over_range(#[trigger] p.accum@[i])
    &&& exists|i: int| 0 <= i < p.view_z@.len() && same_value(#[trigger] p.view_z@[i], p.far)
    &&& exists|i: int| 0 <= i < p.view_z@.len() && bits::lt(#[trigger] p.view_z@[i], p.near)
}

/// What is wrong with an encoded depth, first rule first.
pub open spec fn depth_fault(z: u32, d: u32, near: u32, far: u32) -> Option<Seq<char>> {
    if !(bits::le(0, d) && bits::le(d, ONE)) {
        Some("a depth is encoded outside the unit range"@)
    } else if same_value(z, far) && !same_value(d, 0) {
        Some("the sky is not encoded to exactly 0"@)
    } else if bits::lt(z, near) && !same_value(d, ONE) {
        Some("a depth nearer than the near plane is not encoded to exactly 1"@)
    } else {
        None
    }
}

/// What is wrong with a pixel: its colours come before its depth.
pub open spec fn pixel_fault(p: StageProbe, i: int) -> Option<Seq<char>> {
    if !(saturates(p.accum@[3 * i], p.color@[3 * i]) && saturates(
        p.accum@[3 * i + 1],
        p.color@[3 * i + 1],
    ) && saturates(p.accum@[3 * i + 2], p.color@[3 * i + 2])) {
        Some("a colour past the range does not saturate with its own sign"@)
    } else {
        depth_fault(p.view_z@[i], p.depth@[i], p.near, p.far)
    }
}

/// What is wrong with the first pixel from `i` on that breaks a rule.
pub open spec fn fault_from(p: StageProbe, i: int) -> Option<Seq<char>>
    decreases p.view_z@.len() - i,
{
    if i < 0 || i >= p.view_z@.len() {
        None
    } else {
        match pixel_fault(p, i) {
            Some(t) => Some(t),
            None => fault_from(p, i + 1),
        }
    }
}

/// The first fault of a probe: that of its first pixel that breaks a rule, or
/// else what the probe leaves untested.
pub open spec fn first_fault(p: StageProbe) -> Option<Seq<char>> {
    if fault_from(p, 0) is Some {
        fault_from(p, 0)
    } else if forall|i: int|
        0 <= i < p.view_z@.len() ==> !same_value(#[trigger] p.view_z@[i], p.far) {
        Some("no sky pixel in the probe"@)
    } else if forall|i: int|
        0 <= i < p.view_z@.len() ==> !bits::lt(#[trigger] p.view_z@[i], p.near) {
        Some("no depth nearer than the near plane in the probe"@)
    } else if forall|i: int| 0 <= i < p.accum@.len() ==> !over_range(#[trigger] p.accum@[i]) {
        Some("no out-of-range colour in the probe"@)
    } else {
        None
    }
}

fn fault(text: &str) -> (r: Result<(), String>)
    ensures
        r matches Err(e) && e@ == text@,
{
    Err(text.to_string())
}

fn sentinels(n: usize) -> (v: Vec<u8>)
    ensures
        v@ == Seq::new(n as nat, |i: int| SENTINEL),
{
    let mut v: Vec<u8> = Vec::new();
    let mut i: usize = 0;
    while i < n
        invariant
            i <= n,
            v@ == Seq::new(i as nat, |j: int| SENTINEL),
        decreases n - i,
    {
        v.push(SENTINEL);
        i = i + 1;
        assert(v@ =~= Seq::new(i as nat, |j: int| SENTINEL));
    }
    v
}

/// A pixel's bytes in the tight image.
proof fn lemma_pixel(rw: int, rh: int, bpp: int, y: int, x: int, b: int)
    requires
        0 <= y < rh,
        0 <= x < rw,
        0 <= b < bpp,
    ensures
        y * (rw * bpp) + (x * bpp + b) == (y * rw + x) * bpp + b,
        0 <= x * bpp + b < rw * bpp,
        0 <= y * rw + x < rw * rh,
        0 <= y * rw,
        0 <= x * bpp,
{
    assert(y * (rw * bpp) + (x * bpp + b) == (y * rw + x) * bpp + b) by (nonlinear_arith);
    assert(0 <= x * bpp && x * bpp + bpp <= rw * bpp) by (nonlinear_arith)
        requires
            0 <= x < rw,
            0 < bpp,
    ;
    assert(0 <= y * rw && y * rw + rw <= rw * rh) by (nonlinear_arith)
        requires
            0 <= y < rh,
            0 < rw,
    ;
}

/// Half-word `k` of pixel `(x, y)` stands at its place, low byte first.
spec fn half_stands(
    buf: Seq<u8>,
    pitch: int,
    words: Seq<u16>,
    per: int,
    rw: int,
    y: int,
    x: int,
    k: int,
) -> bool {
    let o = y * pitch + x * (2 * per) + 2 * k;
    let w = words[(y * rw + x) * per + k];
    buf[o] == (w % 256) as u8 && buf[o + 1] == (w / 256) as u8
}

/// Every pixel's half-words stand at its place.
spec fn halves_stand(
    buf: Seq<u8>,
    pitch: int,
    words: Seq<u16>,
    per: int,
    rw: int,
    rh: int,
) -> bool {
    forall|y: int, x: int, k: int|
        0 <= y < rh && 0 <= x < rw && 0 <= k < per ==> #[trigger] half_stands(
            buf,
            pitch,
            words,
            per,
            rw,
            y,
            x,
            k,
        )
}

/// A half-word's place lies in the buffer, and the half-word in the image.
proof fn lemma_half_place(
    len: int,
    pitch: int,
    per: int,
    rw: int,
    rh: int,
    y: int,
    x: int,
    k: int,
)
    requires
        0 < per,
        room_for(len, pitch, rw * (2 * per), rh),
        0 <= y < rh,
        0 <= x < rw,
        0 <= k < per,
    ensures
        0 <= y * pitch,
        0 <= x * (2 * per),
        x * (2 * per) + 2 * k + 1 < rw * (2 * per),
        y * pitch + x * (2 * per) + 2 * k + 1 < len,
        0 <= y * rw,
        0 <= (y * rw + x) * per,
        (y * rw + x) * per + k < rw * rh * per,
        y * (rw * (2 * per)) + (x * (2 * per) + 2 * k) == 2 * ((y * rw + x) * per + k),
        rw * (2 * per) * rh == 2 * (rw * rh * per),
{
    let bpp = 2 * per;
    let i = y * rw + x;
    lemma_pixel(rw, rh, bpp, y, x, 2 * k);
    lemma_pixel(rw, rh, bpp, y, x, 2 * k + 1);
    lemma_room(len, pitch, rw * bpp, rh, y, x * bpp + 2 * k + 1);
    assert(0 <= i * per && i * per + per <= rw * rh * per) by (nonlinear_arith)
        requires
            0 <= i < rw * rh,
            0 < per,
    ;
    assert(i * bpp == 2 * (i * per)) by (nonlinear_arith)
        requires
            bpp == 2 * per,
    ;
    assert(rw * bpp * rh == 2 * (rw * rh * per)) by (nonlinear_arith)
        requires
            bpp == 2 * per,
    ;
}

/// The half-words of a staged image stand at their places.
proof fn lemma_halves_stand(
    before: Seq<u8>,
    pitch: int,
    words: Seq<u16>,
    per: int,
    rw: int,
    rh: int,
)
    requires
        0 < per,
        words.len() == rw * rh * per,
        room_for(before.len() as int, pitch, rw * (2 * per), rh),
    ensures
        halves_stand(
            laid_out(before, half_bytes(words), pitch, rw * (2 * per), rh),
            pitch,
            words,
            per,
            rw,
            rh,
        ),
{
    let row = rw * (2 * per);
    let image = half_bytes(words);
    let buf = laid_out(before, image, pitch, row, rh);
    assert forall|y: int, x: int, k: int|
        0 <= y < rh && 0 <= x < rw && 0 <= k < per implies #[trigger] half_stands(
        buf,
        pitch,
        words,
        per,
        rw,
        y,
        x,
        k,
    ) by {
        lemma_half_place(before.len() as int, pitch, per, rw, rh, y, x, k);
        let c = x * (2 * per) + 2 * k;
        staging_places_every_byte(before, image, pitch, row, rh, y, c);
        staging_places_every_byte(before, image, pitch, row, rh, y, c + 1);
    }
}

/// Whether every pixel's half-words stand at its place.
fn check_halves(
    buf: &Vec<u8>,
    pitch: usize,
    words: &Vec<u16>,
    per: usize,
    rw: usize,
    rh: usize,
) -> (res: Result<(), String>)
    requires
        per == 2 || per == 4,
        words@.len() == rw * rh * per,
        room_for(buf@.len() as int, pitch as int, rw * (2 * per), rh as int),
    ensures
        res is Ok <==> halves_stand(
            buf@,
            pitch as int,
            words@,
            per as int,
            rw as int,
            rh as int,
        ),
{
    let len: usize = buf.len();
    let have: usize = words.len();
    let ghost (p, q, w) = (pitch as int, per as int, rw as int);
    let mut y: usize = 0;
    while y < rh
        invariant
            y <= rh,
            p == pitch,
            q == per,
            w == rw,
            per == 2 || per == 4,
            have == words@.len(),
            have == words.len(),
            len == buf@.len(),
            words@.len() == rw * rh * per,
            room_for(buf@.len() as int, pitch as int, rw * (2 * per), rh as int),
            forall|a: int, b: int, c: int|
                0 <= a < y && 0 <= b < rw && 0 <= c < per ==> #[trigger] half_stands(
                    buf@,
                    p,
                    words@,
                    q,
                    w,
                    a,
                    b,
                    c,
                ),
        decreases rh - y,
    {
        let mut x: usize = 0;
        while x < rw
            invariant
                y < rh,
                x <= rw,
                p == pitch,
                q == per,
                w == rw,
                per == 2 || per == 4,
                have == words@.len(),
                have == words.len(),
                len == buf@.len(),
                words@.len() == rw * rh * per,
                room_for(buf@.len() as int, pitch as int, rw * (2 * per), rh as int),
                forall|b: int, c: int|
                    0 <= b < x && 0 <= c < per ==> #[trigger] half_stands(
                        buf@,
                        p,
                        words@,
                        q,
                        w,
                        y as int,
                        b,
                        c,
                    ),
            decreases rw - x,
        {
            let mut k: usize = 0;
            while k < per
                invariant
                    y < rh,
                    x < rw,
                    k <= per,
                    p == pitch,
                    q == per,
                    w == rw,
                    per == 2 || per == 4,
                    have == words@.len(),
                    have == words.len(),
                    len == buf@.len(),
                    words@.len() == rw * rh * per,
                    room_for(buf@.len() as int, pitch as int, rw * (2 * per), rh as int),
                    forall|c: int|
                        0 <= c < k ==> #[trigger] half_stands(
                            buf@,
                            p,
                            words@,
                            q,
                            w,
                            y as int,
                            x as int,
                            c,
                        ),
                decreases per - k,
            {
                let ghost stands = half_stands(
                    buf@,
                    p,
                    words@,
                    q,
                    w,
                    y as int,
                    x as int,
                    k as int,
                );
                proof {
                    lemma_half_place(
                        buf@.len() as int,
                        p,
                        q,
                        w,
                        rh as int,
                        y as int,
                        x as int,
                        k as int,
                    );
                }
                let o: usize = y * pitch + x * (2 * per) + 2 * k;
                let want: u16 = words[(y * rw + x) * per + k];
                if buf[o] != (want % 256) as u8 || buf[o + 1] != (want / 256) as u8 {
                    assert(!stands);
                    return fault("a staged word is not at its place");
                }
                assert(stands);
                k = k + 1;
            }
            x = x + 1;
        }
        y = y + 1;
    }
    Ok(())
}

/// The word of pixel `(x, y)` stands at its place, low byte first.
spec fn word_stands(buf: Seq<u8>, pitch: int, words: Seq<u32>, rw: int, y: int, x: int) -> bool {
    let o = y * pitch + x * 4;
    let w = words[y * rw + x];
    &&& buf[o] == (w % 256) as u8
    &&& buf[o + 1] == (w / 256 % 256) as u8
    &&& buf[o + 2] == (w / 65536 % 256) as u8
    &&& buf[o + 3] == (w / 16777216) as u8
}

/// Every pixel's word stands at its place.
spec fn words_stand(buf: Seq<u8>, pitch: int, words: Seq<u32>, rw: int, rh: int) -> bool {
    forall|y: int, x: int|
        0 <= y < rh && 0 <= x < rw ==> #[trigger] word_stands(buf, pitch, words, rw, y, x)
}

/// A word's place lies in the buffer, and the word in the image.
proof fn lemma_word_place(len: int, pitch: int, rw: int, rh: int, y: int, x: int)
    requires
        room_for(len, pitch, rw * 4, rh),
        0 <= y < rh,
        0 <= x < rw,
    ensures
        0 <= y * pitch,
        x * 4 + 3 < rw * 4,
        y * pitch + x * 4 + 3 < len,
        0 <= y * rw,
        y * rw + x < rw * rh,
        y * (rw * 4) + x * 4 == 4 * (y * rw + x),
        (rw * 4) * rh == 4 * (rw * rh),
{
    lemma_pixel(rw, rh, 4, y, x, 0);
    lemma_pixel(rw, rh, 4, y, x, 3);
    lemma_room(len, pitch, rw * 4, rh, y, x * 4 + 3);
    assert((rw * 4) * rh == 4 * (rw * rh)) by (nonlinear_arith);
}

/// The words of a staged image stand at their places.
proof fn lemma_words_stand(before: Seq<u8>, pitch: int, words: Seq<u32>, rw: int, rh: int)
    requires
        words.len() == rw * rh,
        room_for(before.len() as int, pitch, rw * 4, rh),
    ensures
        words_stand(
            laid_out(before, word_bytes(words), pitch, rw * 4, rh),
            pitch,
            words,
            rw,
            rh,
        ),
{
    let image = word_bytes(words);
    let buf = laid_out(before, image, pitch, rw * 4, rh);
    assert forall|y: int, x: int| 0 <= y < rh && 0 <= x < rw implies #[trigger] word_stands(
        buf,
        pitch,
        words,
        rw,
        y,
        x,
    ) by {
        lemma_word_place(before.len() as int, pitch, rw, rh, y, x);
        staging_places_every_byte(before, image, pitch, rw * 4, rh, y, x * 4);
        staging_places_every_byte(before, image, pitch, rw * 4, rh, y, x * 4 + 1);
        staging_places_every_byte(before, image, pitch, rw * 4, rh, y, x * 4 + 2);
        staging_places_every_byte(before, image, pitch, rw * 4, rh, y, x * 4 + 3);
    }
}

/// Whether every pixel's word stands at its place.
fn check_words(buf: &Vec<u8>, pitch: usize, words: &Vec<u32>, rw: usize, rh: usize) -> (res: Result<
    (),
    String,
>)
    requires
        words@.len() == rw * rh,
        room_for(buf@.len() as int, pitch as int, rw * 4, rh as int),
    ensures
        res is Ok <==> words_stand(buf@, pitch as int, words@, rw as int, rh as int),
{
    let len: usize = buf.len();
    let have: usize = words.len();
    let ghost (p, w) = (pitch as int, rw as int);
    let mut y: usize = 0;
    while y < rh
        invariant
            y <= rh,
            p == pitch,
            w == rw,
            len == buf@.len(),
            have == words@.len(),
            words@.len() == rw * rh,
            room_for(buf@.len() as int, pitch as int, rw * 4, rh as int),
            forall|a: int, b: int|
                0 <= a < y && 0 <= b < rw ==> #[trigger] word_stands(buf@, p, words@, w, a, b),
        decreases rh - y,
    {
        let mut x: usize = 0;
        while x < rw
            invariant
                y < rh,
                x <= rw,
                p == pitch,
                w == rw,
                len == buf@.len(),
                have == words@.len(),
                words@.len() == rw * rh,
                room_for(buf@.len() as int, pitch as int, rw * 4, rh as int),
                forall|b: int|
                    0 <= b < x ==> #[trigger] word_stands(buf@, p, words@, w, y as int, b),
            decreases rw - x,
        {
            let ghost stands = word_stands(buf@, p, words@, w, y as int, x as int);
            proof {
                lemma_word_place(buf@.len() as int, p, w, rh as int, y as int, x as int);
            }
            let o: usize = y * pitch + x * 4;
            let want: u32 = words[y * rw + x];
            if buf[o] != (want % 256) as u8 || buf[o + 1] != (want / 256 % 256) as u8 || buf[o + 2]
                != (want / 65536 % 256) as u8 || buf[o + 3] != (want / 16777216) as u8 {
                assert(!stands);
                return fault("a staged depth is not at its place");
            }
            assert(stands);
            x = x + 1;
        }
        y = y + 1;
    }
    Ok(())
}

/// The bytes outside the staged rectangle are those of a fresh test buffer.
spec fn rest_untouched(buf: Seq<u8>, pitch: int, row: int, rh: int) -> bool {
    forall|i: int|
        0 <= i < buf.len() && !inside(i, pitch, row, rh) ==> #[trigger] buf[i] == SENTINEL
}

/// Whether nothing outside the staged rectangle was written.
fn check_rest(buf: &Vec<u8>, pitch: usize, row: usize, rh: usize) -> (res: Result<(), String>)
    requires
        0 < pitch,
    ensures
        res is Ok <==> rest_untouched(buf@, pitch as int, row as int, rh as int),
{
    let n: usize = buf.len();
    let mut i: usize = 0;
    while i < n
        invariant
            0 < pitch,
            i <= n,
            n == buf@.len(),
            forall|j: int|
                0 <= j < i && !inside(j, pitch as int, row as int, rh as int)
                    ==> #[trigger] buf@[j] == SENTINEL,
        decreases n - i,
    {
        if (i / pitch >= rh || i % pitch >= row) && buf[i] != SENTINEL {
            assert(!inside(i as int, pitch as int, row as int, rh as int));
            assert(buf@[i as int] != SENTINEL);
            return fault("staging wrote outside the image");
        }
        i = i + 1;
    }
    Ok(())
}

/// Whether a colour lies past the range, and whether it keeps its rule.
fn check_color(v: u32, half: u16) -> (r: (bool, bool))
    ensures
        r.0 == over_range(v),
        r.1 == saturates(v, half),
{
    let size: u32 = if v >= bits::SIGN {
        v - bits::SIGN
    } else {
        v
    };
    let over: bool = bits::is_lt(HALF_MAX, size);
    (over, !over || (half % 0x8000 == HALF_MAX_HALF && (half >= 0x8000) == (v >= bits::SIGN)))
}

/// Whether an encoded depth keeps its rules.
fn check_depth(z: u32, d: u32, near: u32, far: u32) -> (res: Result<(), String>)
    ensures
        res is Ok <==> reverses(z, d, near, far),
        match res {
            Ok(_) => depth_fault(z, d, near, far) is None,
            Err(e) => depth_fault(z, d, near, far) == Some(e@),
        },
{
    if !bits::is_le(0, d) || !bits::is_le(d, ONE) {
        return fault("a depth is encoded outside the unit range");
    }
    if bits::is_le(z, far) && bits::is_le(far, z) && !bits::is_le(d, 0) {
        return fault("the sky is not encoded to exactly 0");
    }
    if bits::is_lt(z, near) && !bits::is_le(ONE, d) {
        return fault("a depth nearer than the near plane is not encoded to exactly 1");
    }
    Ok(())
}

/// Whether the encodings keep their rules on the probe, pixel by pixel.
fn check_encoders(p: &StageProbe) -> (res: Result<(), String>)
    requires
        p.wf(),
    ensures
        res is Ok <==> encoders_hold(*p),
        match res {
            Ok(_) => first_fault(*p) is None,
            Err(e) => first_fault(*p) == Some(e@),
        },
{
    let n: usize = p.view_z.len();
    let n3: usize = p.accum.len();
    let (mut over, mut sky, mut close): (bool, bool, bool) = (false, false, false);
    let mut i: usize = 0;
    while i < n
        invariant
            i <= n,
            n == p.view_z@.len(),
            n == p.depth@.len(),
            n3 == p.accum.len(),
            n3 == 3 * n,
            p.accum@.len() == 3 * n,
            p.color@.len() == 3 * n,
            fault_from(*p, 0) == fault_from(*p, i as int),
            forall|j: int| 0 <= j < 3 * i ==> saturates(#[trigger] p.accum@[j], p.color@[j]),
            forall|j: int|
                0 <= j < i ==> reverses(#[trigger] p.view_z@[j], p.depth@[j], p.near, p.far),
            over <==> exists|j: int| 0 <= j < 3 * i && over_range(#[trigger] p.accum@[j]),
            sky <==> exists|j: int| 0 <= j < i && same_value(#[trigger] p.view_z@[j], p.far),
            close <==> exists|j: int| 0 <= j < i && bits::lt(#[trigger] p.view_z@[j], p.near),
        decreases n - i,
    {
        let (a, a_ok) = check_color(p.accum[3 * i], p.color[3 * i]);
        let (b, b_ok) = check_color(p.accum[3 * i + 1], p.color[3 * i + 1]);
        let (c, c_ok) = check_color(p.accum[3 * i + 2], p.color[3 * i + 2]);
        if !(a_ok && b_ok && c_ok) {
            assert(!saturates(p.accum@[3 * i], p.color@[3 * i]) || !saturates(
                p.accum@[3 * i + 1],
                p.color@[3 * i + 1],
            ) || !saturates(p.accum@[3 * i + 2], p.color@[3 * i + 2]));
            return fault("a colour past the range does not saturate with its own sign");
        }
        let z: u32 = p.view_z[i];
        match check_depth(z, p.depth[i], p.near, p.far) {
            Ok(_) => {},
            Err(e) => {
                assert(!reverses(p.view_z@[i as int], p.depth@[i as int], p.near, p.far));
                return Err(e);
            },
        }
        let ghost was = over;
        over = over || a || b || c;
        proof {
            let (j0, j1, j2) = (3 * i as int, 3 * i + 1, 3 * i + 2);
            assert(over_range(p.accum@[j0]) == a);
            assert(over_range(p.accum@[j1]) == b);
            assert(over_range(p.accum@[j2]) == c);
            if was {
                let j = choose|j: int| 0 <= j < 3 * i && over_range(#[trigger] p.accum@[j]);
                assert(0 <= j < 3 * (i + 1) && over_range(p.accum@[j]));
            }
        }
        if bits::is_le(z, p.far) && bits::is_le(p.far, z) {
            assert(same_value(p.view_z@[i as int], p.far));
            sky = true;
        }
        if bits::is_lt(z, p.near) {
            assert(bits::lt(p.view_z@[i as int], p.near));
            close = true;
        }
        i = i + 1;
    }
    if !sky {
        return fault("no sky pixel in the probe");
    }
    if !close {
        return fault("no depth nearer than the near plane in the probe");
    }
    if !over {
        return fault("no out-of-range colour in the probe");
    }
    Ok(())
}

/// Stages a probe into buffers that are wider and taller than it, and holds
/// every byte to its place. It fails exactly when an encoding breaks its rule
/// or the probe leaves a rule untested, and says what the first fault is.
pub fn stage_self_test(p: &StageProbe) -> (res: Result<(), String>)
    requires
        p.wf(),
    ensures
        res is Ok <==> encoders_hold(*p),
        match res {
            Ok(_) => first_fault(*p) is None,
            Err(e) => first_fault(*p) == Some(e@),
        },
{
    let (rw, rh): (usize, usize) = (p.rw, p.rh);
    proof {
        let (w, h) = (rw as int, rh as int);
        assert(w * 8 + 16 <= (w * 8 + 16) * (h + 2)) by (nonlinear_arith)
            requires
                0 <= w,
                0 <= h,
        ;
        assert((w * 4 + 12) * (h + 2) <= (w * 8 + 16) * (h + 2)) by (nonlinear_arith)
            requires
                0 <= w,
                0 <= h,
        ;
        assert((w * 4 + 8) * (h + 2) <= (w * 8 + 16) * (h + 2)) by (nonlinear_arith)
            requires
                0 <= w,
                0 <= h,
        ;
        assert(h + 2 <= (w * 8 + 16) * (h + 2)) by (nonlinear_arith)
            requires
                0 <= w,
                0 <= h,
        ;
        assert((w * 8 + 16) * h <= (w * 8 + 16) * (h + 2)) by (nonlinear_arith)
            requires
                0 <= w,
        ;
        assert((w * 4 + 12) * h <= (w * 4 + 12) * (h + 2)) by (nonlinear_arith)
            requires
                0 <= w,
        ;
        assert((w * 4 + 8) * h <= (w * 4 + 8) * (h + 2)) by (nonlinear_arith)
            requires
                0 <= w,
        ;
        assert(0 <= w * h && w * h * 4 == 4 * (w * h) && w * h * 2 == 2 * (w * h) && w * h * 3
            == 3 * (w * h)) by (nonlinear_arith)
            requires
                0 <= w,
                0 <= h,
        ;
    }
    let rows: usize = rh + 2;
    let pitch_c: usize = rw * 8 + 16;
    let pitch_m: usize = rw * 4 + 12;
    let pitch_d: usize = rw * 4 + 8;
    let mut c = sentinels(pitch_c * rows);
    let mut m = sentinels(pitch_m * rows);
    let mut d = sentinels(pitch_d * rows);
    let ghost (c0, m0, d0) = (c@, m@, d@);
    stage_color(&mut c, pitch_c, &p.color, rw, rh);
    stage_mvec(&mut m, pitch_m, &p.mvec, rw, rh);
    stage_depth(&mut d, pitch_d, &p.depth, rw, rh);
    proof {
        assert(p.mvec@.take(rw * rh * 2) =~= p.mvec@);
        assert(p.depth@.take(rw * rh) =~= p.depth@);
        assert(p.color.len() == p.color@.len());
    }
    let have: usize = p.depth.len();
    let words = with_alpha(&p.color, have);
    proof {
        let (w, h) = (rw as int, rh as int);
        lemma_halves_stand(c0, pitch_c as int, words@, 4, w, h);
        lemma_halves_stand(m0, pitch_m as int, p.mvec@, 2, w, h);
        lemma_words_stand(d0, pitch_d as int, p.depth@, w, h);
        assert(rest_untouched(c@, pitch_c as int, w * 8, h));
        assert(rest_untouched(m@, pitch_m as int, w * 4, h));
        assert(rest_untouched(d@, pitch_d as int, w * 4, h));
    }
    check_halves(&c, pitch_c, &words, 4, rw, rh)?;
    check_halves(&m, pitch_m, &p.mvec, 2, rw, rh)?;
    check_words(&d, pitch_d, &p.depth, rw, rh)?;
    check_rest(&c, pitch_c, rw * 8, rh)?;
    check_rest(&m, pitch_m, rw * 4, rh)?;
    check_rest(&d, pitch_d, rw * 4, rh)?;
    check_encoders(p)
}

/// What is staged reads back: two bytes of a half-word, low byte first, and four
/// of a word make it up again.
pub proof fn staged_bytes_read_back(halves: Seq<u16>, words: Seq<u32>, i: int)
    ensures
        0 <= i < halves.len() ==> half_bytes(halves)[2 * i] + 256 * half_bytes(halves)[2 * i + 1]
            == halves[i],
        0 <= i < words.len() ==> {
            let b = word_bytes(words);
            b[4 * i] + 256 * b[4 * i + 1] + 65536 * b[4 * i + 2] + 16777216 * b[4 * i + 3] == words[i]
        },
        half_bytes(halves).len() == 2 * halves.len(),
        word_bytes(words).len() == 4 * words.len(),
{
}

} // verus!
