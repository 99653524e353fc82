//! What callers of the upscaler's side can count on, call by call.
use crate::bits;
use crate::fsr::buffers;
use crate::fsr::buffers::{DenoiseTuning, Entry, FsrBufs, Signals};
use crate::fsr::provider;
use crate::fsr::provider::Flavor;
use crate::fsr::staging;
use crate::fsr::staging::StageProbe;
use crate::text;
use vstd::prelude::*;

verus! {

/// A pixel that is written reads back, and every other pixel of the screen reads
/// as before.
pub proof fn pixels_read_back(
    b: &mut FsrBufs,
    x: usize,
    y: usize,
    sig: &Signals,
    z: u32,
    now: FsrBufs,
    was: FsrBufs,
    x2: usize,
    y2: usize,
    here: Signals,
    there: Signals,
    before: Signals,
)
    requires
        was == *old(b),
        now == *final(b),
        was.wf(),
        x < was.rw && y < was.rh && x2 < was.rw && y2 < was.rh,
        call_ensures(FsrBufs::write, (b, x, y, sig, z), ()),
        call_ensures(FsrBufs::read, (&now, x, y), here),
        call_ensures(FsrBufs::read, (&now, x2, y2), there),
        call_ensures(FsrBufs::read, (&was, x2, y2), before),
    ensures
        here == *sig,
        now.prev_z@[y * was.rw + x] == z,
        x2 != x || y2 != y ==> there == before,
        x2 != x || y2 != y ==> now.prev_z@[y2 * was.rw + x2] == was.prev_z@[y2 * was.rw + x2],
        now.rw == was.rw && now.rh == was.rh,
{
    buffers::pixels_do_not_alias(was, x as int, y as int, x2 as int, y2 as int);
    buffers::pixels_do_not_alias(was, x2 as int, y2 as int, x as int, y as int);
    assert(now.at(x as int, y as int) == was.at(x as int, y as int));
    assert(now.at(x2 as int, y2 as int) == was.at(x2 as int, y2 as int));
}

/// A pixel's signals stand in the planes at its own number, three lanes a colour.
pub proof fn reads_take_the_pixels_triples(b: &FsrBufs, x: usize, y: usize, s: Signals)
    requires
        call_ensures(FsrBufs::read, (b, x, y), s),
    ensures
        ({
            let n = y * b.rw + x;
            &&& s.dd.x == b.dd@[3 * n] && s.dd.y == b.dd@[3 * n + 1] && s.dd.z == b.dd@[3 * n + 2]
            &&& s.ds.x == b.ds@[3 * n] && s.ds.y == b.ds@[3 * n + 1] && s.ds.z == b.ds@[3 * n + 2]
            &&& s.ind.x == b.ind@[3 * n] && s.ind.y == b.ind@[3 * n + 1] && s.ind.z == b.ind@[3 * n
                + 2]
            &&& s.residual.x == b.residual@[3 * n] && s.residual.y == b.residual@[3 * n + 1]
                && s.residual.z == b.residual@[3 * n + 2]
            &&& s.ao == b.ao@[n]
        }),
{
    buffers::signals_stand_in_their_triples(*b, x as int, y as int);
}

/// Fresh planes are dark, and a change of resolution moves no value.
pub proof fn planes_start_dark(
    rw: usize,
    rh: usize,
    fresh: FsrBufs,
    b: &mut FsrBufs,
    w: usize,
    h: usize,
    i: int,
)
    requires
        call_ensures(FsrBufs::new, (rw, rh), fresh),
        call_ensures(FsrBufs::set_res, (b, w, h), ()),
        0 <= i < rw * rh,
    ensures
        fresh.rw == rw && fresh.rh == rh,
        fresh.ao@.len() == rw * rh && fresh.prev_z@.len() == rw * rh && fresh.dd@.len() == 3 * (rw
            * rh) && fresh.residual@.len() == 3 * (rw * rh),
        fresh.ao@[i] == 0 && fresh.prev_z@[i] == 0 && fresh.dd@[3 * i] == 0 && fresh.ds@[3 * i + 1]
            == 0 && fresh.ind@[3 * i + 2] == 0 && fresh.residual@[3 * i] == 0,
        final(b).rw == w && final(b).rh == h,
        final(b).dd == old(b).dd && final(b).ds == old(b).ds && final(b).ao == old(b).ao,
        final(b).ind == old(b).ind && final(b).residual == old(b).residual && final(b).prev_z
            == old(b).prev_z,
{
}

/// The tuning lists what is set, each under its own key and name.
pub proof fn tunings_list_what_is_set(
    t: &DenoiseTuning,
    r: Vec<Entry>,
    any: bool,
    key: u64,
    name: &'static str,
    v: u32,
)
    requires
        call_ensures(DenoiseTuning::entries, (t,), r),
        call_ensures(DenoiseTuning::any, (t,), any),
    ensures
        (exists|i: int|
            0 <= i < r@.len() && (#[trigger] r@[i]).0 == key && r@[i].1@ == name@ && r@[i].2 == v)
            <==> {
            ||| key == 1 && name@ == "cross-bilateral-normal-strength"@ && t.normal_strength == Some(v)
            ||| key == 2 && name@ == "stability-bias"@ && t.stability_bias == Some(v)
            ||| key == 3 && name@ == "max-radiance"@ && t.max_radiance == Some(v)
            ||| key == 4 && name@ == "radiance-clip-std-k"@ && t.radiance_clip_k == Some(v)
            ||| key == 5 && name@ == "gaussian-kernel-relaxation"@ && t.kernel_relaxation == Some(v)
            ||| key == 6 && name@ == "disocclusion-threshold"@ && t.disocclusion_threshold == Some(v)
        },
        any <==> r@.len() > 0,
{
    buffers::set_constants_are_configured(*t, key, name@, v);
    let listed = r@.map_values(|e: Entry| buffers::read_entry(e));
    assert(listed.len() == r@.len());
    if exists|i: int|
        0 <= i < r@.len() && (#[trigger] r@[i]).0 == key && r@[i].1@ == name@ && r@[i].2 == v {
        let i = choose|i: int|
            0 <= i < r@.len() && (#[trigger] r@[i]).0 == key && r@[i].1@ == name@ && r@[i].2 == v;
        assert(listed[i] == (key, name@, v));
        assert(t.set_entries().contains((key, name@, v)));
    }
    if t.set_entries().contains((key, name@, v)) {
        let i = choose|i: int| 0 <= i < listed.len() && listed[i] == (key, name@, v);
        assert(r@[i].0 == key && r@[i].1@ == name@ && r@[i].2 == v);
    }
}

/// What the flavors are called.
pub proof fn flavors_have_their_names(
    f: Flavor,
    label: &'static str,
    hud: (&'static str, &'static str),
)
    requires
        call_ensures(Flavor::label, (f,), label),
        call_ensures(Flavor::hud, (f,), hud),
    ensures
        f == Flavor::Fsr4Rr ==> label@ == "Ray Regeneration + FSR4"@ && hud.0@ == "FSR4"@ && hud.1@
            == " + RayRegen"@,
        f == Flavor::Fsr3 ==> label@ == "FSR 3.1 upscale-only"@ && hud.0@ == "FSR3"@ && hud.1@
            == ""@,
{
}

/// Names that stand side by side list the versions of both, in order.
pub proof fn versions_are_listed_in_order(
    a: &str,
    b: &str,
    both: &str,
    c: char,
    va: Vec<(u32, u32, u32)>,
    vb: Vec<(u32, u32, u32)>,
    v: Vec<(u32, u32, u32)>,
)
    requires
        call_ensures(provider::parse_provider_versions, (a,), va),
        call_ensures(provider::parse_provider_versions, (b,), vb),
        call_ensures(provider::parse_provider_versions, (both,), v),
        both@ == a@ + seq![c] + b@,
        c != '.',
        !(48 <= c as int <= 57),
    ensures
        v@ == va@ + vb@,
{
    provider::embedded_names_keep_their_versions(a@, c, b@);
}

/// Three runs of digits joined by single dots are a version, and are listed
/// before whatever follows.
pub proof fn versions_are_read_out_of_names(
    name: &str,
    tail: &str,
    x: Seq<char>,
    y: Seq<char>,
    z: Seq<char>,
    v: Vec<(u32, u32, u32)>,
    w: Vec<(u32, u32, u32)>,
)
    requires
        call_ensures(provider::parse_provider_versions, (name,), v),
        call_ensures(provider::parse_provider_versions, (tail,), w),
        name@ == x + seq!['.'] + (y + seq!['.'] + (z + tail@)),
        text::is_number(x) && text::value_of(x) <= u32::MAX,
        text::is_number(y) && text::value_of(y) <= u32::MAX,
        text::is_number(z) && text::value_of(z) <= u32::MAX,
        tail@.len() > 0 ==> !(48 <= tail@[0] as int <= 57),
    ensures
        v@.len() == 1 + w@.len(),
        v@[0].0 == text::value_of(x) && v@[0].1 == text::value_of(y) && v@[0].2 == text::value_of(z),
        v@.skip(1) == w@,
{
    provider::a_version_is_found(x, y, z, tail@);
    assert(v@.skip(1) =~= w@);
}

/// The upscaler that is picked: ray regeneration where it is there and not ruled
/// out, else the provider that names the newest version 3, the last of equals;
/// none where no provider names one.
pub proof fn picks_are_the_newest(
    upscalers: &Vec<(u64, String)>,
    rr: bool,
    force: bool,
    r: Option<(u64, Flavor)>,
    j: int,
    v: (u32, u32, u32),
)
    requires
        call_ensures(provider::pick_version, (upscalers, rr, force), r),
    ensures
        rr && !force ==> r == Some((0u64, Flavor::Fsr4Rr)),
        (!rr || force) && r is Some ==> (r->0).1 == Flavor::Fsr3,
        (!rr || force) && 0 <= j < upscalers@.len() && provider::versions(
            upscalers@[j].1@,
        ).contains(v) && v.0 == 3 ==> r is Some && exists|i: int, w: (u32, u32, u32)|
            0 <= i < upscalers@.len() && (#[trigger] upscalers@[i]).0 == (r->0).0
                && #[trigger] provider::versions(upscalers@[i].1@).contains(w) && w.0 == 3 && (v.1
                < w.1 || (v.1 == w.1 && v.2 <= w.2)) && (i < j ==> v != w),
{
    if (!rr || force) && 0 <= j < upscalers@.len() && provider::versions(
        upscalers@[j].1@,
    ).contains(v) && v.0 == 3 {
        let vs = provider::versions(upscalers@[j].1@);
        provider::newest_is_the_newest(vs, 3);
        let k = choose|k: int| 0 <= k < vs.len() && vs[k] == v;
        assert(vs[k].0 == 3);
        assert(provider::offer(upscalers@, 3, j) is Some);
        let i = choose|i: int| #[trigger]
            provider::is_pick(upscalers@, 3, i) && upscalers@[i].0 == (r->0).0;
        provider::picks_name_the_newest_version(upscalers@, 3, i, j, v);
        let w = choose|w: (u32, u32, u32)| #[trigger]
            provider::versions(upscalers@[i].1@).contains(w) && w.0 == 3 && (v.1 < w.1 || (v.1
                == w.1 && v.2 <= w.2)) && (i < j ==> v != w);
        assert(0 <= i < upscalers@.len() && upscalers@[i].0 == (r->0).0);
        assert(provider::versions(upscalers@[i].1@).contains(w));
    }
}

/// The frame generator that is picked names the newest version of the session's
/// own major number, four or three, wherever some provider names it.
pub proof fn frame_generators_are_the_newest(
    versions: &Vec<(u64, String)>,
    four: bool,
    r: Option<(u64, String)>,
    j: int,
    v: (u32, u32, u32),
)
    requires
        call_ensures(provider::pick_fg_version, (versions, four), r),
        0 <= j < versions@.len(),
        provider::versions(versions@[j].1@).contains(v),
        v.0 == if four {
            4u32
        } else {
            3u32
        },
    ensures
        r is Some && exists|i: int, w: (u32, u32, u32)|
            0 <= i < versions@.len() && (#[trigger] versions@[i]).0 == (r->0).0 && versions@[i].1@
                == (r->0).1@ && #[trigger] provider::versions(versions@[i].1@).contains(w) && w.0
                == v.0 && (v.1 < w.1 || (v.1 == w.1 && v.2 <= w.2)) && (i < j ==> v != w),
{
    let vs = provider::versions(versions@[j].1@);
    provider::newest_is_the_newest(vs, v.0);
    let k = choose|k: int| 0 <= k < vs.len() && vs[k] == v;
    assert(vs[k].0 == v.0);
    assert(provider::offer(versions@, v.0, j) is Some);
    assert(provider::fg_major(versions@, four) == v.0);
    let i = choose|i: int| #[trigger]
        provider::is_pick(versions@, provider::fg_major(versions@, four), i) && versions@[i].0 == (
        r->0).0 && versions@[i].1@ == (r->0).1@;
    provider::picks_name_the_newest_version(versions@, v.0, i, j, v);
    let w = choose|w: (u32, u32, u32)| #[trigger]
        provider::versions(versions@[i].1@).contains(w) && w.0 == v.0 && (v.1 < w.1 || (v.1 == w.1
            && v.2 <= w.2)) && (i < j ==> v != w);
    assert(versions@[i].0 == (r->0).0);
}

/// Whether rows fit a buffer: a row in the pitch, and all rows in the buffer.
pub proof fn rows_fit_their_pitch(
    len: usize,
    pitch: usize,
    rw: usize,
    rh: usize,
    bpp: usize,
    r: bool,
)
    requires
        call_ensures(staging::rows_fit, (len, pitch, rw, rh, bpp), r),
    ensures
        r <==> pitch > 0 && rw * bpp <= pitch && pitch * rh <= len,
{
}

/// Staging leaves the padding of every row and everything past the last row
/// alone, and the buffer as long as it was.
pub proof fn staging_leaves_the_padding(
    a: &mut Vec<u8>,
    b: &mut Vec<u8>,
    c: &mut Vec<u8>,
    pitch: usize,
    rgb: &Vec<u16>,
    mvec: &Vec<u16>,
    depth: &Vec<u32>,
    rw: usize,
    rh: usize,
    i: int,
)
    requires
        pitch > 0,
        call_ensures(staging::stage_color, (a, pitch, rgb, rw, rh), ()),
        call_ensures(staging::stage_mvec, (b, pitch, mvec, rw, rh), ()),
        call_ensures(staging::stage_depth, (c, pitch, depth, rw, rh), ()),
        0 <= i,
    ensures
        final(a)@.len() == old(a)@.len() && final(b)@.len() == old(b)@.len() && final(c)@.len()
            == old(c)@.len(),
        i < old(a)@.len() && (i / pitch as int >= rh || i % pitch as int >= rw * 8) ==> final(a)@[i]
            == old(a)@[i],
        i < old(b)@.len() && (i / pitch as int >= rh || i % pitch as int >= rw * 4) ==> final(b)@[i]
            == old(b)@[i],
        i < old(c)@.len() && (i / pitch as int >= rh || i % pitch as int >= rw * 4) ==> final(c)@[i]
            == old(c)@[i],
{
}

/// Staged pixels stand at their rows and columns, low byte first: four half-words
/// a colour, of which the last is 0, two a motion vector, and one word a depth.
pub proof fn staged_pixels_stand_in_place(
    a: &mut Vec<u8>,
    b: &mut Vec<u8>,
    c: &mut Vec<u8>,
    pitch: usize,
    rgb: &Vec<u16>,
    mvec: &Vec<u16>,
    depth: &Vec<u32>,
    rw: usize,
    rh: usize,
    x: int,
    y: int,
    k: int,
)
    requires
        rw * 8 <= pitch && pitch * rh <= old(a)@.len() && pitch * rh <= old(b)@.len() && pitch * rh
            <= old(c)@.len(),
        rgb@.len() == rw * rh * 3 && mvec@.len() >= rw * rh * 2 && depth@.len() >= rw * rh,
        call_ensures(staging::stage_color, (a, pitch, rgb, rw, rh), ()),
        call_ensures(staging::stage_mvec, (b, pitch, mvec, rw, rh), ()),
        call_ensures(staging::stage_depth, (c, pitch, depth, rw, rh), ()),
        0 <= x < rw,
        0 <= y < rh,
        0 <= k < 3,
    ensures
        ({
            let p = y * rw + x;
            let (ca, cb, cc) = (
                y * pitch + (8 * x + 2 * k),
                y * pitch + (4 * x + 2 * (k % 2)),
                y * pitch + 4 * x,
            );
            let d = final(c)@;
            &&& final(a)@[ca] + 256 * final(a)@[ca + 1] == rgb@[3 * p + k]
            &&& final(a)@[y * pitch + (8 * x + 6)] == 0 && final(a)@[y * pitch + (8 * x + 7)] == 0
            &&& final(b)@[cb] + 256 * final(b)@[cb + 1] == mvec@[2 * p + k % 2]
            &&& d[cc] + 256 * d[cc + 1] + 65536 * d[cc + 2] + 16777216 * d[cc + 3] == depth@[p]
        }),
{
    let p = y * rw + x;
    let n = (rw * rh) as nat;
    assert(0 <= p < rw * rh && 0 <= rw * rh) by (nonlinear_arith)
        requires
            0 <= x < rw,
            0 <= y < rh,
            p == y * rw + x,
    ;
    let words = staging::color_words(rgb@, n);
    staging::staged_alpha_is_zero(rgb@, n, p);
    let img = staging::half_bytes(words);
    staging::staged_bytes_read_back(words, depth@.take(n as int), 4 * p + k);
    staging::staged_bytes_read_back(words, depth@.take(n as int), 4 * p + 3);
    let halves = mvec@.take(rw * rh * 2);
    let m = staging::half_bytes(halves);
    staging::staged_bytes_read_back(halves, depth@.take(n as int), 2 * p + k % 2);
    staging::staged_bytes_read_back(halves, depth@.take(n as int), p);
    let w = staging::word_bytes(depth@.take(n as int));
    assert((rw * 8) * rh == 8 * (rw * rh) && (rw * 4) * rh == 4 * (rw * rh)) by (nonlinear_arith);
    assert(y * (rw * 8) == 8 * (y * rw) && y * (rw * 4) == 4 * (y * rw)) by (nonlinear_arith);
    assert(words.len() == 4 * n);
    assert forall|t: int| 0 <= t < rw * 8 implies #[trigger] final(a)@[y * pitch + t] == img[8 * (y
        * rw) + t] by {
        staging::staging_places_every_byte(
            old(a)@,
            img,
            pitch as int,
            rw * 8,
            rh as int,
            y,
            t,
        );
    }
    assert forall|t: int| 0 <= t < rw * 4 implies #[trigger] final(b)@[y * pitch + t] == m[4 * (y
        * rw) + t] by {
        staging::staging_places_every_byte(old(b)@, m, pitch as int, rw * 4, rh as int, y, t);
    }
    assert forall|t: int| 0 <= t < rw * 4 implies #[trigger] final(c)@[y * pitch + t] == w[4 * (y
        * rw) + t] by {
        staging::staging_places_every_byte(old(c)@, w, pitch as int, rw * 4, rh as int, y, t);
    }
    let t = 8 * x + 2 * k;
    assert(final(a)@[y * pitch + t] == img[8 * (y * rw) + t]);
    assert(final(a)@[y * pitch + (t + 1)] == img[8 * (y * rw) + (t + 1)]);
    assert(final(a)@[y * pitch + (8 * x + 6)] == img[8 * (y * rw) + (8 * x + 6)]);
    assert(final(a)@[y * pitch + (8 * x + 7)] == img[8 * (y * rw) + (8 * x + 7)]);
    let u = 4 * x + 2 * (k % 2);
    assert(final(b)@[y * pitch + u] == m[4 * (y * rw) + u]);
    assert(final(b)@[y * pitch + (u + 1)] == m[4 * (y * rw) + (u + 1)]);
    assert(final(c)@[y * pitch + (4 * x)] == w[4 * (y * rw) + 4 * x]);
    assert(final(c)@[y * pitch + (4 * x + 1)] == w[4 * (y * rw) + (4 * x + 1)]);
    assert(final(c)@[y * pitch + (4 * x + 2)] == w[4 * (y * rw) + (4 * x + 2)]);
    assert(final(c)@[y * pitch + (4 * x + 3)] == w[4 * (y * rw) + (4 * x + 3)]);
}

/// The float lies past the half-precision range, on either side.
pub open spec fn too_large(v: u32) -> bool {
    0x477f_e000 < v % 0x8000_0000 <= 0x7f80_0000
}

/// The encoding of a lane: one past the range is the end of it, on its side.
pub open spec fn lane_holds(v: u32, half: u16) -> bool {
    too_large(v) ==> half == if v < 0x8000_0000 {
        0x7bffu16
    } else {
        0xfbffu16
    }
}

/// The encoding of a depth: between zero and one, zero for the far plane and one
/// for what is nearer than the near plane.
pub open spec fn depth_holds(z: u32, d: u32, near: u32, far: u32) -> bool {
    &&& d <= 0x3f80_0000 || d == 0x8000_0000
    &&& bits::le(z, far) && bits::le(far, z) ==> d == 0 || d == 0x8000_0000
    &&& bits::lt(z, near) ==> d == 0x3f80_0000
}

/// The self test passes exactly where every lane and every depth is encoded by its
/// rule and the probe has a lane past the range, a sky pixel and one that is
/// too near.
pub proof fn self_tests_hold_the_encoders(p: &StageProbe, r: Result<(), String>)
    requires
        call_ensures(staging::stage_self_test, (p,), r),
        p.wf(),
    ensures
        r is Ok <==> {
            &&& forall|i: int|
                0 <= i < p.accum@.len() ==> lane_holds(#[trigger] p.accum@[i], p.color@[i])
            &&& forall|i: int|
                0 <= i < p.view_z@.len() ==> depth_holds(
                    #[trigger] p.view_z@[i],
                    p.depth@[i],
                    p.near,
                    p.far,
                )
            &&& exists|i: int| 0 <= i < p.accum@.len() && too_large(#[trigger] p.accum@[i])
            &&& exists|i: int|
                0 <= i < p.view_z@.len() && bits::le(#[trigger] p.view_z@[i], p.far) && bits::le(
                    p.far,
                    p.view_z@[i],
                )
            &&& exists|i: int| 0 <= i < p.view_z@.len() && bits::lt(#[trigger] p.view_z@[i], p.near)
        },
{
    assert forall|v: u32, h: u16| true implies (#[trigger] lane_holds(v, h) <==> staging::saturates(
        v,
        h,
    )) by {
        lemma_lane(v, h);
    }
    assert forall|z: u32, d: u32| true implies (#[trigger] depth_holds(z, d, p.near, p.far)
        <==> staging::reverses(z, d, p.near, p.far)) by {
        lemma_depth(z, d, p.near, p.far);
    }
    assert forall|v: u32| true implies (#[trigger] too_large(v) <==> staging::over_range(v)) by {
        lemma_lane(v, 0);
    }
    assert(forall|i: int|
        0 <= i < p.accum@.len() ==> (lane_holds(#[trigger] p.accum@[i], p.color@[i])
            <==> staging::saturates(p.accum@[i], p.color@[i])));
    assert(forall|i: int|
        0 <= i < p.view_z@.len() ==> (depth_holds(
            #[trigger] p.view_z@[i],
            p.depth@[i],
            p.near,
            p.far,
        ) <==> staging::reverses(p.view_z@[i], p.depth@[i], p.near, p.far)));
    assert(forall|i: int|
        0 <= i < p.accum@.len() ==> (too_large(#[trigger] p.accum@[i]) <==> staging::over_range(
            p.accum@[i],
        )));
    assert(forall|i: int|
        0 <= i < p.view_z@.len() ==> ((bits::le(#[trigger] p.view_z@[i], p.far) && bits::le(
            p.far,
            p.view_z@[i],
        )) <==> staging::same_value(p.view_z@[i], p.far)));
}

proof fn lemma_lane(v: u32, h: u16)
    ensures
        too_large(v) <==> staging::over_range(v),
        lane_holds(v, h) <==> staging::saturates(v, h),
{
}

proof fn lemma_depth(z: u32, d: u32, near: u32, far: u32)
    ensures
        depth_holds(z, d, near, far) <==> staging::reverses(z, d, near, far),
{
}

/// A pixel's lanes and its depth are encoded by their rules.
pub open spec fn pixel_holds(p: StageProbe, j: int) -> bool {
    &&& lane_holds(p.accum@[3 * j], p.color@[3 * j])
    &&& lane_holds(p.accum@[3 * j + 1], p.color@[3 * j + 1])
    &&& lane_holds(p.accum@[3 * j + 2], p.color@[3 * j + 2])
    &&& depth_holds(p.view_z@[j], p.depth@[j], p.near, p.far)
}

/// The first pixel that breaks a rule is named, its colours before its depth.
pub proof fn self_tests_name_the_first_fault(p: &StageProbe, r: Result<(), String>, i: int)
    requires
        call_ensures(staging::stage_self_test, (p,), r),
        p.wf(),
        0 <= i < p.view_z@.len(),
        forall|j: int| 0 <= j < i ==> #[trigger] pixel_holds(*p, j),
    ensures
        ({
            let lanes = lane_holds(p.accum@[3 * i], p.color@[3 * i]) && lane_holds(
                p.accum@[3 * i + 1],
                p.color@[3 * i + 1],
            ) && lane_holds(p.accum@[3 * i + 2], p.color@[3 * i + 2]);
            let (z, d) = (p.view_z@[i], p.depth@[i]);
            let unit = d <= 0x3f80_0000 || d == 0x8000_0000;
            let sky = bits::le(z, p.far) && bits::le(p.far, z);
            &&& !lanes ==> (r matches Err(e) && e@
                == "a colour past the range does not saturate with its own sign"@)
            &&& lanes && !unit ==> (r matches Err(e) && e@
                == "a depth is encoded outside the unit range"@)
            &&& lanes && unit && sky && d % 0x8000_0000 != 0 ==> (r matches Err(e) && e@
                == "the sky is not encoded to exactly 0"@)
            &&& lanes && unit && (sky ==> d % 0x8000_0000 == 0) && bits::lt(z, p.near) && d
                != 0x3f80_0000 ==> (r matches Err(e) && e@
                == "a depth nearer than the near plane is not encoded to exactly 1"@)
        }),
{
    lemma_first(*p, 0, i);
    lemma_lane(p.accum@[3 * i], p.color@[3 * i]);
    lemma_lane(p.accum@[3 * i + 1], p.color@[3 * i + 1]);
    lemma_lane(p.accum@[3 * i + 2], p.color@[3 * i + 2]);
    lemma_depth(p.view_z@[i], p.depth@[i], p.near, p.far);
}

proof fn lemma_first(p: StageProbe, k: int, i: int)
    requires
        0 <= k <= i < p.view_z@.len(),
        forall|j: int| 0 <= j < i ==> #[trigger] pixel_holds(p, j),
    ensures
        staging::fault_from(p, k) == staging::fault_from(p, i),
    decreases i - k,
{
    if k < i {
        assert(pixel_holds(p, k));
        lemma_lane(p.accum@[3 * k], p.color@[3 * k]);
        lemma_lane(p.accum@[3 * k + 1], p.color@[3 * k + 1]);
        lemma_lane(p.accum@[3 * k + 2], p.color@[3 * k + 2]);
        lemma_depth(p.view_z@[k], p.depth@[k], p.near, p.far);
        lemma_first(p, k + 1, i);
    }
}

} // verus!
