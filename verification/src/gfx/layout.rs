//! Where the shaders find each value of the constant block.
//!
//! The offsets are those of the shaders' own declaration of the block, in
//! bytes from its start.
use vstd::prelude::*;
use crate::bits;
use crate::gfx::frame;
use crate::gfx::frame::{le_bytes, row_words, table_words, word_bytes};
use crate::gfx::frame::{FrameCb, FrameLevers, FrameParams, Row4, SceneRows, TableSizes, Wiring};

verus! {

/// The word that starts at a byte, low byte first.
pub open spec fn word_in(b: Seq<u8>, at: int) -> int {
    b[at] + 256 * b[at + 1] + 65536 * b[at + 2] + 16777216 * b[at + 3]
}

/// Four words in a row start at a byte.
pub open spec fn row_in(b: Seq<u8>, at: int, r: Row4) -> bool {
    &&& word_in(b, at) == r.x
    &&& word_in(b, at + 4) == r.y
    &&& word_in(b, at + 8) == r.z
    &&& word_in(b, at + 12) == r.w
}

/// A table's rows follow each other from a byte on.
pub open spec fn table_in(b: Seq<u8>, at: int, rows: Seq<Row4>) -> bool {
    forall|i: int| 0 <= i < rows.len() ==> row_in(b, at + 16 * i, #[trigger] rows[i])
}

proof fn lemma_words_in_place(words: Seq<u32>)
    ensures
        le_bytes(words).len() == 4 * words.len(),
        forall|i: int| 0 <= i < words.len() ==> word_in(le_bytes(words), 4 * i) == #[trigger] words[i],
    decreases words.len(),
{
    if words.len() > 0 {
        let init = words.drop_last();
        lemma_words_in_place(init);
        let b = le_bytes(words);
        assert forall|i: int| 0 <= i < words.len() implies word_in(b, 4 * i) == #[trigger] words[i] by {
            if i < init.len() {
                assert(word_in(le_bytes(init), 4 * i) == init[i]);
            } else {
                let w = words.last();
                let at = 4 * i;
                assert(b[at] == word_bytes(w)[0] && b[at + 1] == word_bytes(w)[1] && b[at + 2]
                    == word_bytes(w)[2] && b[at + 3] == word_bytes(w)[3]);
            }
        }
    }
}

proof fn lemma_rows_in_place(rows: Seq<Row4>)
    ensures
        table_words(rows).len() == 4 * rows.len(),
        forall|i: int|
            0 <= i < rows.len() ==> {
                &&& table_words(rows)[4 * i] == (#[trigger] rows[i]).x
                &&& table_words(rows)[4 * i + 1] == rows[i].y
                &&& table_words(rows)[4 * i + 2] == rows[i].z
                &&& table_words(rows)[4 * i + 3] == rows[i].w
            },
    decreases rows.len(),
{
    if rows.len() > 0 {
        let init = rows.drop_last();
        lemma_rows_in_place(init);
        assert forall|i: int| 0 <= i < rows.len() implies {
            &&& table_words(rows)[4 * i] == (#[trigger] rows[i]).x
            &&& table_words(rows)[4 * i + 1] == rows[i].y
            &&& table_words(rows)[4 * i + 2] == rows[i].z
            &&& table_words(rows)[4 * i + 3] == rows[i].w
        } by {
            if i < init.len() {
                assert(init[i] == rows[i]);
            }
        }
    }
}

/// A table whose words start at word `k` has its rows at byte `4 * k` on.
proof fn lemma_table_in(words: Seq<u32>, k: int, rows: Seq<Row4>)
    requires
        stands_at(words, k, table_words(rows)),
    ensures
        table_in(le_bytes(words), 4 * k, rows),
{
    lemma_words_in_place(words);
    lemma_rows_in_place(rows);
    let b = le_bytes(words);
    let part = table_words(rows);
    reveal(stands_at);
    assert forall|i: int| 0 <= i < rows.len() implies row_in(b, 4 * k + 16 * i, #[trigger] rows[i]) by {
        let w = k + 4 * i;
        assert(words[k + (4 * i)] == part[4 * i]);
        assert(words[k + (4 * i + 1)] == part[4 * i + 1]);
        assert(words[k + (4 * i + 2)] == part[4 * i + 2]);
        assert(words[k + (4 * i + 3)] == part[4 * i + 3]);
        assert(word_in(b, 4 * w) == words[w]);
        assert(word_in(b, 4 * (w + 1)) == words[w + 1]);
        assert(word_in(b, 4 * (w + 2)) == words[w + 2]);
        assert(word_in(b, 4 * (w + 3)) == words[w + 3]);
        assert(4 * w == 4 * k + 16 * i);
    }
}

proof fn lemma_head_words(cb: FrameCb)
    ensures
        cb.head_words().len() == 72,
        cb.head_words()[0] == cb.cam_origin.x,
        cb.head_words()[1] == cb.cam_origin.y,
        cb.head_words()[2] == cb.cam_origin.z,
        cb.head_words()[3] == cb.cam_origin.w,
        cb.head_words()[4] == cb.cam_forward.x,
        cb.head_words()[5] == cb.cam_forward.y,
        cb.head_words()[6] == cb.cam_forward.z,
        cb.head_words()[7] == cb.cam_forward.w,
        cb.head_words()[8] == cb.cam_right.x,
        cb.head_words()[9] == cb.cam_right.y,
        cb.head_words()[10] == cb.cam_right.z,
        cb.head_words()[11] == cb.cam_right.w,
        cb.head_words()[12] == cb.cam_up.x,
        cb.head_words()[13] == cb.cam_up.y,
        cb.head_words()[14] == cb.cam_up.z,
        cb.head_words()[15] == cb.cam_up.w,
        cb.head_words()[16] == cb.sun.x,
        cb.head_words()[17] == cb.sun.y,
        cb.head_words()[18] == cb.sun.z,
        cb.head_words()[19] == cb.sun.w,
        cb.head_words()[20] == cb.sun_e.x,
        cb.head_words()[21] == cb.sun_e.y,
        cb.head_words()[22] == cb.sun_e.z,
        cb.head_words()[23] == cb.sun_e.w,
        cb.head_words()[24] == cb.sun_l.x,
        cb.head_words()[25] == cb.sun_l.y,
        cb.head_words()[26] == cb.sun_l.z,
        cb.head_words()[27] == cb.sun_l.w,
        cb.head_words()[28] == cb.rw,
        cb.head_words()[29] == cb.rh,
        cb.head_words()[30] == cb.frame,
        cb.head_words()[31] == cb.flags,
        cb.head_words()[32] == cb.shadow_samples,
        cb.head_words()[33] == cb.ao_samples,
        cb.head_words()[34] == cb.reflections,
        cb.head_words()[35] == cb.ff_scale,
        cb.head_words()[36] == cb.frame_jitter.0,
        cb.head_words()[37] == cb.frame_jitter.1,
        cb.head_words()[38] == cb.pixel_cone,
        cb.head_words()[39] == cb.sky_scale,
        cb.head_words()[40] == cb.cap_tile,
        cb.head_words()[41] == cb.cap_leaf,
        cb.head_words()[42] == cb.cap_sky,
        cb.head_words()[43] == cb.cap_cut,
        cb.head_words()[44] == cb.fb_mode,
        cb.head_words()[45] == cb.fb_depth,
        cb.head_words()[46] == cb.hemi_batch,
        cb.head_words()[47] == cb.cap_hemi_pt,
        cb.head_words()[48] == cb.cap_hemi_cell,
        cb.head_words()[49] == cb.cap_hemi_leaf,
        cb.head_words()[50] == cb.cap_hemi_cut,
        cb.head_words()[51] == cb.ff_count,
        cb.head_words()[52] == cb.prev_origin.x,
        cb.head_words()[53] == cb.prev_origin.y,
        cb.head_words()[54] == cb.prev_origin.z,
        cb.head_words()[55] == cb.prev_origin.w,
        cb.head_words()[56] == cb.prev_forward.x,
        cb.head_words()[57] == cb.prev_forward.y,
        cb.head_words()[58] == cb.prev_forward.z,
        cb.head_words()[59] == cb.prev_forward.w,
        cb.head_words()[60] == cb.prev_right.x,
        cb.head_words()[61] == cb.prev_right.y,
        cb.head_words()[62] == cb.prev_right.z,
        cb.head_words()[63] == cb.prev_right.w,
        cb.head_words()[64] == cb.prev_up.x,
        cb.head_words()[65] == cb.prev_up.y,
        cb.head_words()[66] == cb.prev_up.z,
        cb.head_words()[67] == cb.prev_up.w,
        cb.head_words()[68] == cb.spp,
        cb.head_words()[69] == cb.probe_sample,
        cb.head_words()[70] == cb.night,
        cb.head_words()[71] == cb.height_max,
{
}

/// `part` stands in `words` from word `k` on.
#[verifier::opaque]
spec fn stands_at(words: Seq<u32>, k: int, part: Seq<u32>) -> bool {
    &&& 0 <= k
    &&& k + part.len() <= words.len()
    &&& forall|i: int| 0 <= i < part.len() ==> words[k + i] == #[trigger] part[i]
}

/// Words that follow others stand behind them, and move none.
proof fn lemma_behind(words: Seq<u32>, next: Seq<u32>)
    ensures
        (words + next).len() == words.len() + next.len(),
        stands_at(words + next, words.len() as int, next),
        forall|k: int, part: Seq<u32>| #[trigger]
            stands_at(words, k, part) ==> stands_at(words + next, k, part),
{
    reveal(stands_at);
}

/// The block's words part into its head, its tables and its last rows.
spec fn parted(cb: FrameCb, words: Seq<u32>) -> bool {
    let j = cb.jitters@.len() as int;
    let s = j + cb.sky_sh@.len();
    let f = s + cb.ff@.len();
    let a = f + 3 + cb.el_a@.len();
    let e = a + cb.el_b@.len();
    &&& words.len() == 72 + 4 * e + 4
    &&& stands_at(words, 0, cb.head_words())
    &&& stands_at(words, 72, table_words(cb.jitters@))
    &&& stands_at(words, 72 + 4 * j, table_words(cb.sky_sh@))
    &&& stands_at(words, 72 + 4 * s, table_words(cb.ff@))
    &&& stands_at(words, 72 + 4 * f, row_words(cb.cloud_grid))
    &&& stands_at(words, 76 + 4 * f, row_words(cb.sway_mv_base))
    &&& stands_at(words, 80 + 4 * f, row_words(cb.el_meta))
    &&& stands_at(words, 84 + 4 * f, table_words(cb.el_a@))
    &&& stands_at(words, 72 + 4 * a, table_words(cb.el_b@))
    &&& stands_at(words, 72 + 4 * e, row_words(cb.split))
}

proof fn lemma_parts(cb: FrameCb)
    ensures
        parted(cb, cb.words()),
{
    lemma_rows_in_place(cb.jitters@);
    lemma_rows_in_place(cb.sky_sh@);
    lemma_rows_in_place(cb.ff@);
    lemma_rows_in_place(cb.el_a@);
    lemma_rows_in_place(cb.el_b@);
    let head = cb.head_words();
    assert(head.len() == 72 && stands_at(head, 0, head)) by {
        lemma_head_words(cb);
        reveal(stands_at);
    }
    let p1 = head + table_words(cb.jitters@);
    let p2 = p1 + table_words(cb.sky_sh@);
    let p3 = p2 + table_words(cb.ff@);
    let p4 = p3 + row_words(cb.cloud_grid);
    let p5 = p4 + row_words(cb.sway_mv_base);
    let p6 = p5 + row_words(cb.el_meta);
    let p7 = p6 + table_words(cb.el_a@);
    let p8 = p7 + table_words(cb.el_b@);
    lemma_behind(head, table_words(cb.jitters@));
    lemma_behind(p1, table_words(cb.sky_sh@));
    lemma_behind(p2, table_words(cb.ff@));
    lemma_behind(p3, row_words(cb.cloud_grid));
    lemma_behind(p4, row_words(cb.sway_mv_base));
    lemma_behind(p5, row_words(cb.el_meta));
    lemma_behind(p6, table_words(cb.el_a@));
    lemma_behind(p7, table_words(cb.el_b@));
    lemma_behind(p8, row_words(cb.split));
}

/// The head of the block stands where the shaders read it: every field before
/// the tables is found, whole and unchanged, at its own byte offset.
#[verifier::rlimit(40)]
pub proof fn fields_stand_at_their_offsets(cb: FrameCb, image: Vec<u8>, b: Seq<u8>)
    requires
        call_ensures(FrameCb::bytes, (&cb,), image),
        b == image@,
    ensures
        word_in(b, 0) == cb.cam_origin.x,
        word_in(b, 4) == cb.cam_origin.y,
        word_in(b, 8) == cb.cam_origin.z,
        word_in(b, 12) == cb.cam_origin.w,
        word_in(b, 16) == cb.cam_forward.x,
        word_in(b, 20) == cb.cam_forward.y,
        word_in(b, 24) == cb.cam_forward.z,
        word_in(b, 28) == cb.cam_forward.w,
        word_in(b, 32) == cb.cam_right.x,
        word_in(b, 36) == cb.cam_right.y,
        word_in(b, 40) == cb.cam_right.z,
        word_in(b, 44) == cb.cam_right.w,
        word_in(b, 48) == cb.cam_up.x,
        word_in(b, 52) == cb.cam_up.y,
        word_in(b, 56) == cb.cam_up.z,
        word_in(b, 60) == cb.cam_up.w,
        word_in(b, 64) == cb.sun.x,
        word_in(b, 68) == cb.sun.y,
        word_in(b, 72) == cb.sun.z,
        word_in(b, 76) == cb.sun.w,
        word_in(b, 80) == cb.sun_e.x,
        word_in(b, 84) == cb.sun_e.y,
        word_in(b, 88) == cb.sun_e.z,
        word_in(b, 92) == cb.sun_e.w,
        word_in(b, 96) == cb.sun_l.x,
        word_in(b, 100) == cb.sun_l.y,
        word_in(b, 104) == cb.sun_l.z,
        word_in(b, 108) == cb.sun_l.w,
        word_in(b, 112) == cb.rw,
        word_in(b, 116) == cb.rh,
        word_in(b, 120) == cb.frame,
        word_in(b, 124) == cb.flags,
        word_in(b, 128) == cb.shadow_samples,
        word_in(b, 132) == cb.ao_samples,
        word_in(b, 136) == cb.reflections,
        word_in(b, 140) == cb.ff_scale,
        word_in(b, 144) == cb.frame_jitter.0,
        word_in(b, 148) == cb.frame_jitter.1,
        word_in(b, 152) == cb.pixel_cone,
        word_in(b, 156) == cb.sky_scale,
        word_in(b, 160) == cb.cap_tile,
        word_in(b, 164) == cb.cap_leaf,
        word_in(b, 168) == cb.cap_sky,
        word_in(b, 172) == cb.cap_cut,
        word_in(b, 176) == cb.fb_mode,
        word_in(b, 180) == cb.fb_depth,
        word_in(b, 184) == cb.hemi_batch,
        word_in(b, 188) == cb.cap_hemi_pt,
        word_in(b, 192) == cb.cap_hemi_cell,
        word_in(b, 196) == cb.cap_hemi_leaf,
        word_in(b, 200) == cb.cap_hemi_cut,
        word_in(b, 204) == cb.ff_count,
        word_in(b, 208) == cb.prev_origin.x,
        word_in(b, 212) == cb.prev_origin.y,
        word_in(b, 216) == cb.prev_origin.z,
        word_in(b, 220) == cb.prev_origin.w,
        word_in(b, 224) == cb.prev_forward.x,
        word_in(b, 228) == cb.prev_forward.y,
        word_in(b, 232) == cb.prev_forward.z,
        word_in(b, 236) == cb.prev_forward.w,
        word_in(b, 240) == cb.prev_right.x,
        word_in(b, 244) == cb.prev_right.y,
        word_in(b, 248) == cb.prev_right.z,
        word_in(b, 252) == cb.prev_right.w,
        word_in(b, 256) == cb.prev_up.x,
        word_in(b, 260) == cb.prev_up.y,
        word_in(b, 264) == cb.prev_up.z,
        word_in(b, 268) == cb.prev_up.w,
        word_in(b, 272) == cb.spp,
        word_in(b, 276) == cb.probe_sample,
        word_in(b, 280) == cb.night,
        word_in(b, 284) == cb.height_max,
{
    let words = cb.words();
    lemma_words_in_place(words);
    lemma_head_words(cb);
    lemma_parts(cb);
    assert forall|k: int| 0 <= k < 72 implies word_in(b, 4 * k) == #[trigger] cb.head_words()[k] by {
        reveal(stands_at);
        assert(words[0 + k] == cb.head_words()[k]);
        assert(word_in(b, 4 * k) == words[k]);
    }
}

/// A row whose words start at word `k` stands at byte `4 * k`.
proof fn lemma_row_in(words: Seq<u32>, k: int, r: Row4)
    requires
        stands_at(words, k, row_words(r)),
    ensures
        row_in(le_bytes(words), 4 * k, r),
{
    lemma_words_in_place(words);
    let b = le_bytes(words);
    let part = row_words(r);
    reveal(stands_at);
    assert(words[k + 0] == part[0] && words[k + 1] == part[1] && words[k + 2] == part[2] && words[k
        + 3] == part[3]);
    assert(word_in(b, 4 * k) == words[k]);
    assert(word_in(b, 4 * (k + 1)) == words[k + 1]);
    assert(word_in(b, 4 * (k + 2)) == words[k + 2]);
    assert(word_in(b, 4 * (k + 3)) == words[k + 3]);
}

/// Where the tables stand among the bytes of words that part so.
#[verifier::spinoff_prover]
#[verifier::rlimit(40)]
proof fn lemma_tables(cb: FrameCb, words: Seq<u32>)
    requires
        parted(cb, words),
    ensures
        ({
            let b = le_bytes(words);
            let sky: int = 288 + 16 * cb.jitters@.len() as int;
            let flies: int = sky + 16 * cb.sky_sh@.len();
            let clouds = flies + 16 * cb.ff@.len();
            let lights = clouds + 48;
            let powers = lights + 16 * cb.el_a@.len();
            let last = powers + 16 * cb.el_b@.len();
            &&& b.len() == last + 16
            &&& table_in(b, 288, cb.jitters@)
            &&& table_in(b, sky, cb.sky_sh@)
            &&& table_in(b, flies, cb.ff@)
            &&& row_in(b, clouds, cb.cloud_grid)
            &&& row_in(b, clouds + 16, cb.sway_mv_base)
            &&& row_in(b, clouds + 32, cb.el_meta)
            &&& table_in(b, lights, cb.el_a@)
            &&& table_in(b, powers, cb.el_b@)
            &&& row_in(b, last, cb.split)
        }),
{
    lemma_words_in_place(words);
    let j = cb.jitters@.len() as int;
    let s = j + cb.sky_sh@.len();
    let f = s + cb.ff@.len();
    let a = f + 3 + cb.el_a@.len();
    let e = a + cb.el_b@.len();
    lemma_table_in(words, 72, cb.jitters@);
    lemma_table_in(words, 72 + 4 * j, cb.sky_sh@);
    lemma_table_in(words, 72 + 4 * s, cb.ff@);
    lemma_row_in(words, 72 + 4 * f, cb.cloud_grid);
    lemma_row_in(words, 76 + 4 * f, cb.sway_mv_base);
    lemma_row_in(words, 80 + 4 * f, cb.el_meta);
    lemma_table_in(words, 84 + 4 * f, cb.el_a@);
    lemma_table_in(words, 72 + 4 * a, cb.el_b@);
    lemma_row_in(words, 72 + 4 * e, cb.split);
}

/// The tables follow the head in a fixed order, sixteen bytes a row: jitter,
/// sky, fireflies, then the cloud, sway and cluster rows, the two cluster
/// tables, and the tile row, which ends the block.
pub proof fn tables_follow_the_head(cb: FrameCb, image: Vec<u8>, b: Seq<u8>)
    requires
        call_ensures(FrameCb::bytes, (&cb,), image),
        b == image@,
    ensures
        ({
            let sky: int = 288 + 16 * cb.jitters@.len() as int;
            let flies: int = sky + 16 * cb.sky_sh@.len();
            let clouds = flies + 16 * cb.ff@.len();
            let lights = clouds + 48;
            let powers = lights + 16 * cb.el_a@.len();
            let last = powers + 16 * cb.el_b@.len();
            &&& b.len() == last + 16
            &&& table_in(b, 288, cb.jitters@)
            &&& table_in(b, sky, cb.sky_sh@)
            &&& table_in(b, flies, cb.ff@)
            &&& row_in(b, clouds, cb.cloud_grid)
            &&& row_in(b, clouds + 16, cb.sway_mv_base)
            &&& row_in(b, clouds + 32, cb.el_meta)
            &&& table_in(b, lights, cb.el_a@)
            &&& table_in(b, powers, cb.el_b@)
            &&& row_in(b, last, cb.split)
        }),
{
    lemma_parts(cb);
    lemma_tables(cb, cb.words());
}

/// A frame's camera stands in the block lane by lane: position and pixel
/// width, direction and pixel height, the right and up vectors with the cloud
/// diagonal and the cloud clock beside them. The previous camera has its own
/// rows, which keep the near and far planes, and stays as it was where there
/// is none to reproject to.
pub proof fn frames_carry_their_cameras(
    cb: FrameCb,
    base: FrameCb,
    p: FrameParams,
    w: Wiring,
    l: FrameLevers,
    halton: &[(u32, u32)],
)
    requires
        call_ensures(FrameCb::with_frame, (&base, &p, &w, &l, halton), cb),
    ensures
        cb.cam_origin.x == p.cam.origin.x,
        cb.cam_origin.y == p.cam.origin.y,
        cb.cam_origin.z == p.cam.origin.z,
        cb.cam_origin.w == p.cam.inv_w,
        cb.cam_forward.x == p.cam.forward.x,
        cb.cam_forward.y == p.cam.forward.y,
        cb.cam_forward.z == p.cam.forward.z,
        cb.cam_forward.w == p.cam.inv_h,
        cb.cam_right.x == p.cam.right.x,
        cb.cam_right.y == p.cam.right.y,
        cb.cam_right.z == p.cam.right.z,
        cb.cam_right.w == p.clouds.diag,
        cb.cam_up.x == p.cam.up.x,
        cb.cam_up.y == p.cam.up.y,
        cb.cam_up.z == p.cam.up.z,
        cb.cam_up.w == p.clouds.time,
        cb.pixel_cone == p.cam.pixel_cone,
        p.prev_cam is None ==> {
            &&& cb.prev_origin == base.prev_origin
            &&& cb.prev_forward == base.prev_forward
            &&& cb.prev_right == base.prev_right
            &&& cb.prev_up == base.prev_up
        },
        p.prev_cam matches Some(c) ==> {
            &&& cb.prev_origin.x == c.origin.x
            &&& cb.prev_origin.y == c.origin.y
            &&& cb.prev_origin.z == c.origin.z
            &&& cb.prev_origin.w == c.inv_w
            &&& cb.prev_forward.x == c.forward.x
            &&& cb.prev_forward.y == c.forward.y
            &&& cb.prev_forward.z == c.forward.z
            &&& cb.prev_forward.w == c.inv_h
            &&& cb.prev_right.x == c.right.x
            &&& cb.prev_right.y == c.right.y
            &&& cb.prev_right.z == c.right.z
            &&& cb.prev_right.w == base.prev_right.w
            &&& cb.prev_up.x == c.up.x
            &&& cb.prev_up.y == c.up.y
            &&& cb.prev_up.z == c.up.z
            &&& cb.prev_up.w == base.prev_up.w
        },
{
}

/// A frame's own numbers stand in the block as they were asked for: the frame
/// number, the sample counts, the subpixel offset, which is zero where there is
/// none, and the fireflies, whose live rows go over the first of the table and
/// leave the others. The bounce tier is 2 with global illumination, 1 with
/// ambient occlusion alone, else 0, and its depth is held between 1 and 4.
pub proof fn frames_carry_their_numbers(
    cb: FrameCb,
    base: FrameCb,
    p: FrameParams,
    w: Wiring,
    l: FrameLevers,
    halton: &[(u32, u32)],
)
    requires
        call_ensures(FrameCb::with_frame, (&base, &p, &w, &l, halton), cb),
        p.fireflies.count <= p.fireflies.pos@.len(),
        p.fireflies.count <= base.ff@.len(),
    ensures
        cb.frame == p.frame,
        cb.shadow_samples == p.q.shadow_samples,
        cb.ao_samples == p.q.ao_samples,
        cb.reflections == p.q.reflections,
        p.frame_jitter is None ==> cb.frame_jitter.0 == 0 && cb.frame_jitter.1 == 0,
        p.frame_jitter matches Some(j) ==> cb.frame_jitter.0 == j.0 && cb.frame_jitter.1 == j.1,
        cb.ff_count == p.fireflies.count,
        cb.ff_scale == p.fireflies.scale,
        cb.ff@.len() == base.ff@.len(),
        forall|i: int| 0 <= i < p.fireflies.count ==> #[trigger] cb.ff@[i] == p.fireflies.pos@[i],
        forall|i: int| p.fireflies.count <= i < base.ff@.len() ==> #[trigger] cb.ff@[i] == base.ff@[i],
        p.q.fb.gi ==> cb.fb_mode == 2,
        !p.q.fb.gi && p.q.fb.ao ==> cb.fb_mode == 1,
        !p.q.fb.gi && !p.q.fb.ao ==> cb.fb_mode == 0,
        p.q.fb.depth == 0 ==> cb.fb_depth == 1,
        1 <= p.q.fb.depth <= 4 ==> cb.fb_depth == p.q.fb.depth,
        4 < p.q.fb.depth ==> cb.fb_depth == 4,
{
}

/// A frame takes the samples it asks for, from one to twice the rows of the
/// jitter table, and one alone under a bounce tier. Sample after sample, two to
/// a row, the table then holds the frame's offsets, and past them what it held.
/// The probe is the sample asked for, or the last.
pub proof fn frames_carry_their_samples(
    cb: FrameCb,
    base: FrameCb,
    p: FrameParams,
    w: Wiring,
    l: FrameLevers,
    halton: &[(u32, u32)],
)
    requires
        base.wf(),
        call_ensures(FrameCb::with_frame, (&base, &p, &w, &l, halton), cb),
    ensures
        p.q.fb.gi || p.q.fb.ao ==> cb.spp == 1,
        !p.q.fb.gi && !p.q.fb.ao ==> {
            &&& p.spp == 0 ==> cb.spp == 1
            &&& 1 <= p.spp <= 2 * base.jitters@.len() ==> cb.spp == p.spp
            &&& 2 * base.jitters@.len() < p.spp ==> cb.spp == 2 * base.jitters@.len()
        },
        p.probe_sample < cb.spp ==> cb.probe_sample == p.probe_sample,
        cb.spp <= p.probe_sample ==> cb.probe_sample == cb.spp - 1,
        cb.jitters@.len() == base.jitters@.len(),
        forall|i: int|
            0 <= i < base.jitters@.len() ==> {
                let r = #[trigger] cb.jitters@[i];
                &&& 2 * i < cb.spp ==> r.x == halton@[2 * i].0 && r.y == halton@[2 * i].1
                &&& 2 * i + 1 < cb.spp ==> r.z == halton@[2 * i + 1].0 && r.w == halton@[2 * i + 1].1
                &&& cb.spp <= 2 * i ==> r.x == base.jitters@[i].x && r.y == base.jitters@[i].y
                &&& cb.spp <= 2 * i + 1 ==> r.z == base.jitters@[i].z && r.w == base.jitters@[i].w
            },
{
    let (rows, before) = (cb.jitters@, base.jitters@);
    assert forall|i: int| 0 <= i < before.len() implies {
        let r = #[trigger] rows[i];
        &&& 2 * i < cb.spp ==> r.x == halton@[2 * i].0 && r.y == halton@[2 * i].1
        &&& 2 * i + 1 < cb.spp ==> r.z == halton@[2 * i + 1].0 && r.w == halton@[2 * i + 1].1
        &&& cb.spp <= 2 * i ==> r.x == before[i].x && r.y == before[i].y
        &&& cb.spp <= 2 * i + 1 ==> r.z == before[i].z && r.w == before[i].w
    } by {
        assert(frame::sample_at(rows, 2 * i) == (rows[i].x, rows[i].y));
        assert(frame::sample_at(rows, 2 * i + 1) == (rows[i].z, rows[i].w));
        assert(frame::sample_at(before, 2 * i) == (before[i].x, before[i].y));
        assert(frame::sample_at(before, 2 * i + 1) == (before[i].z, before[i].w));
    }
}

/// A frame leaves the scene's rows, the screen size, the queue capacities, the
/// relief and the cloud, sway and tile rows of the block it is written over.
pub proof fn frames_leave_the_rest(
    cb: FrameCb,
    base: FrameCb,
    p: FrameParams,
    w: Wiring,
    l: FrameLevers,
    halton: &[(u32, u32)],
)
    requires
        call_ensures(FrameCb::with_frame, (&base, &p, &w, &l, halton), cb),
    ensures
        cb.rw == base.rw,
        cb.rh == base.rh,
        cb.hemi_batch == base.hemi_batch,
        cb.cap_hemi_pt == base.cap_hemi_pt,
        cb.cap_tile == base.cap_tile,
        cb.cap_leaf == base.cap_leaf,
        cb.cap_sky == base.cap_sky,
        cb.cap_cut == base.cap_cut,
        cb.cap_hemi_cell == base.cap_hemi_cell,
        cb.cap_hemi_leaf == base.cap_hemi_leaf,
        cb.cap_hemi_cut == base.cap_hemi_cut,
        cb.sun == base.sun,
        cb.sun_e == base.sun_e,
        cb.sun_l == base.sun_l,
        cb.sky_scale == base.sky_scale,
        cb.night == base.night,
        cb.el_meta == base.el_meta,
        cb.height_max == base.height_max,
        cb.cloud_grid == base.cloud_grid,
        cb.sway_mv_base == base.sway_mv_base,
        cb.split == base.split,
        cb.sky_sh@ == base.sky_sh@,
        cb.el_a@ == base.el_a@,
        cb.el_b@ == base.el_b@,
{
    assert(cb.caps()[0] == base.caps()[0]);
    assert(cb.caps()[1] == base.caps()[1]);
    assert(cb.caps()[2] == base.caps()[2]);
    assert(cb.caps()[3] == base.caps()[3]);
    assert(cb.caps()[4] == base.caps()[4]);
    assert(cb.caps()[5] == base.caps()[5]);
    assert(cb.caps()[6] == base.caps()[6]);
}

/// Each bit of a frame's flags word answers one question, and the bits past
/// them are clear.
pub proof fn flags_answer_bit_by_bit(
    cb: FrameCb,
    base: FrameCb,
    p: FrameParams,
    w: Wiring,
    l: FrameLevers,
    halton: &[(u32, u32)],
)
    requires
        call_ensures(FrameCb::with_frame, (&base, &p, &w, &l, halton), cb),
    ensures
        cb.flags & 1 != 0 <==> p.accumulate,
        cb.flags & 2 != 0 <==> p.jitter,
        cb.flags & 4 != 0 <==> p.frame_jitter is Some,
        cb.flags & 8 != 0 <==> p.verify,
        cb.flags & 16 != 0 <==> w.gbuf_full,
        cb.flags & 32 != 0 <==> p.prev_cam is Some,
        cb.flags & 64 != 0 <==> w.gbuf_full && w.fsr_sig,
        cb.flags & 128 != 0 <==> bits::lt(0x3f80_0000, l.max_aniso),
        cb.flags & 256 != 0 <==> p.clouds.enabled,
        cb.flags & 512 != 0 <==> l.height_on && bits::lt(0, base.height_max),
        cb.flags & 1024 != 0 <==> p.fireflies.count > 0,
        cb.flags & 2048 != 0 <==> l.depth_tint,
        cb.flags & 4096 != 0 <==> w.gbuf_full && (w.gbuf_ext || w.fsr_sig),
        cb.flags & 16384 != 0 <==> base.el_meta.x > 0 && l.emissive && !p.q.fb.gi,
        cb.flags & 32768 != 0 <==> l.detail_tex,
        cb.flags & 65536 != 0 <==> l.detail_ao,
        cb.flags & 131072 != 0 <==> l.amb_bump,
        cb.flags & 262144 != 0 <==> l.waveviz_on && l.waveviz_live,
        cb.flags & 524288 != 0 <==> p.q.rtgi && !p.q.fb.gi && !p.q.fb.ao,
        cb.flags & 1048576 != 0 <==> l.spec_aa,
        cb.flags & 2097152 != 0 <==> w.gbuf_full && w.fsr_sig && w.nrd_sig,
        cb.flags & 4194304 != 0 <==> w.gbuf_full && w.sky_ext_skip,
        cb.flags & 8388608 != 0 <==> w.gbuf_full && (w.gbuf_ext || w.fsr_sig) && w.nrd_rejitter,
        cb.flags & 16777216 != 0 <==> w.gbuf_full && w.fsr_sig && w.nrd_sig && w.remod_exact,
        cb.flags & 33554432 != 0 <==> w.gbuf_full && (w.gbuf_ext || w.fsr_sig) && w.rclamp.0,
        cb.flags & 67108864 != 0 <==> w.gbuf_full && (w.gbuf_ext || w.fsr_sig) && w.rclamp.0 && w.rclamp.1,
        cb.flags & 8192 == 0,
        cb.flags < 134217728,
{
}

/// The scene's light stands in the block lane by lane, with the angular radius,
/// the ray offset and the occlusion radius beside the sun's rows. Each cluster
/// has its row in both tables, position with its source radius and colour with
/// its reach, and the rows past the clusters are zero.
pub proof fn scenes_light_the_block(cb: FrameCb, s: SceneRows, sizes: TableSizes, rw: u32, rh: u32)
    requires
        call_ensures(FrameCb::base, (&s, &sizes, rw, rh), cb),
        s.lights@.len() <= u32::MAX,
    ensures
        cb.sun.x == s.sun_dir.x,
        cb.sun.y == s.sun_dir.y,
        cb.sun.z == s.sun_dir.z,
        cb.sun.w == s.sun_cos_radius,
        cb.sun_e.x == s.sun_e_over_pi.x,
        cb.sun_e.y == s.sun_e_over_pi.y,
        cb.sun_e.z == s.sun_e_over_pi.z,
        cb.sun_e.w == s.eps,
        cb.sun_l.x == s.sun_radiance.x,
        cb.sun_l.y == s.sun_radiance.y,
        cb.sun_l.z == s.sun_radiance.z,
        cb.sun_l.w == s.ao_radius,
        cb.sky_scale == s.sky_scale,
        cb.night == s.night,
        cb.el_meta.x == s.lights@.len(),
        cb.el_meta.y == s.light_gain,
        cb.el_meta.z == 0,
        cb.el_meta.w == 0,
        cb.sky_sh@.len() == s.sky_sh@.len(),
        forall|i: int|
            0 <= i < s.sky_sh@.len() ==> {
                let r = #[trigger] cb.sky_sh@[i];
                &&& r.x == s.sky_sh@[i].x
                &&& r.y == s.sky_sh@[i].y
                &&& r.z == s.sky_sh@[i].z
                &&& r.w == 0
            },
        forall|i: int|
            0 <= i < cb.el_a@.len() && i < s.lights@.len() ==> {
                let r = #[trigger] cb.el_a@[i];
                &&& r.x == s.lights@[i].pos.x
                &&& r.y == s.lights@[i].pos.y
                &&& r.z == s.lights@[i].pos.z
                &&& r.w == s.lights@[i].rc2
            },
        forall|i: int|
            0 <= i < cb.el_b@.len() && i < s.lights@.len() ==> {
                let r = #[trigger] cb.el_b@[i];
                &&& r.x == s.lights@[i].color.x
                &&& r.y == s.lights@[i].color.y
                &&& r.z == s.lights@[i].color.z
                &&& r.w == s.lights@[i].r_infl2
            },
        forall|i: int|
            s.lights@.len() <= i < cb.el_a@.len() ==> #[trigger] cb.el_a@[i] == (Row4 {
                x: 0,
                y: 0,
                z: 0,
                w: 0,
            }),
        forall|i: int|
            s.lights@.len() <= i < cb.el_b@.len() ==> #[trigger] cb.el_b@[i] == (Row4 {
                x: 0,
                y: 0,
                z: 0,
                w: 0,
            }),
{
}

/// Taking the scene's light again is taking it for the first time, and touches
/// nothing else.
pub proof fn relighting_leaves_the_rest(block: &mut FrameCb, s: SceneRows, cb: FrameCb, base: FrameCb)
    requires
        call_ensures(FrameCb::refresh_sky_rows, (block, &s), ()),
        base == *old(block),
        cb == *final(block),
    ensures
        cb.lit_by(s),
        cb.cam_origin == base.cam_origin,
        cb.cam_forward == base.cam_forward,
        cb.cam_right == base.cam_right,
        cb.cam_up == base.cam_up,
        cb.prev_origin == base.prev_origin,
        cb.prev_forward == base.prev_forward,
        cb.prev_right == base.prev_right,
        cb.prev_up == base.prev_up,
        cb.rw == base.rw,
        cb.rh == base.rh,
        cb.frame == base.frame,
        cb.flags == base.flags,
        cb.shadow_samples == base.shadow_samples,
        cb.ao_samples == base.ao_samples,
        cb.reflections == base.reflections,
        cb.ff_scale == base.ff_scale,
        cb.frame_jitter == base.frame_jitter,
        cb.pixel_cone == base.pixel_cone,
        cb.cap_tile == base.cap_tile,
        cb.cap_leaf == base.cap_leaf,
        cb.cap_sky == base.cap_sky,
        cb.cap_cut == base.cap_cut,
        cb.fb_mode == base.fb_mode,
        cb.fb_depth == base.fb_depth,
        cb.hemi_batch == base.hemi_batch,
        cb.cap_hemi_pt == base.cap_hemi_pt,
        cb.cap_hemi_cell == base.cap_hemi_cell,
        cb.cap_hemi_leaf == base.cap_hemi_leaf,
        cb.cap_hemi_cut == base.cap_hemi_cut,
        cb.ff_count == base.ff_count,
        cb.spp == base.spp,
        cb.probe_sample == base.probe_sample,
        cb.height_max == base.height_max,
        cb.cloud_grid == base.cloud_grid,
        cb.sway_mv_base == base.sway_mv_base,
        cb.split == base.split,
        cb.jitters@ == base.jitters@,
        cb.ff@ == base.ff@,
{
    assert(cb.caps()[0] == base.caps()[0]);
    assert(cb.caps()[1] == base.caps()[1]);
    assert(cb.caps()[2] == base.caps()[2]);
    assert(cb.caps()[3] == base.caps()[3]);
    assert(cb.caps()[4] == base.caps()[4]);
    assert(cb.caps()[5] == base.caps()[5]);
    assert(cb.caps()[6] == base.caps()[6]);
}

} // verus!
