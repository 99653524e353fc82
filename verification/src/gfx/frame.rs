//! The per-frame constant block that every shader reads.
//!
//! Floats are held as their bit patterns: the block is a byte image, and the
//! values it carries are copied into it, never computed here. Rows of four
//! words are the unit the shaders index by.
use vstd::prelude::*;
use crate::bits;
use crate::bits::{Bits3, ONE};
use crate::gfx::shaders::Reading;
use crate::gfx::tiles::TileSplit;
use crate::text;

verus! {

/// Bytes of one slot of the constant ring.
pub const CB_STRIDE: usize = 4608;

/// Hemisphere points per batch.
pub const HEMI_BATCH: u32 = 16384;

/// Deepest hemisphere subdivision that the queues are sized for.
pub const HEMI_MAX_DEPTH: u32 = 4;

/// Rows of the sky's spherical harmonics.
pub const SH_ROWS: usize = 9;

/// Bytes per pixel of the motion half of the G-buffer pack.
pub const GBUF_STRIDE: u64 = 16;

/// Bytes per pixel of its guide and signal half.
pub const GBUF_EXT_STRIDE: u64 = 72;

pub const FLAG_ACCUM: u32 = 1;

pub const FLAG_JITTER: u32 = 2;

pub const FLAG_FRAME_JITTER: u32 = 4;

pub const FLAG_VERIFY: u32 = 8;

/// The pack is full-size and may be written.
pub const FLAG_GBUF: u32 = 16;

pub const FLAG_HAS_PREV: u32 = 32;

/// The pack carries the demodulated light signals.
pub const FLAG_FSR_SIG: u32 = 64;

pub const FLAG_ANISO: u32 = 128;

pub const FLAG_CLOUDS: u32 = 256;

pub const FLAG_HEIGHT: u32 = 512;

pub const FLAG_FIREFLIES: u32 = 1024;

pub const FLAG_DEPTH_TINT: u32 = 2048;

/// The pack's guide and signal half is stored.
pub const FLAG_GBUF_EXT: u32 = 4096;

pub const FLAG_SWAY_MV: u32 = 8192;

pub const FLAG_EMISSIVE: u32 = 16384;

pub const FLAG_DETAIL: u32 = 32768;

pub const FLAG_DETAIL_AO: u32 = 65536;

pub const FLAG_AMB_BUMP: u32 = 131072;

pub const FLAG_WAVEVIZ: u32 = 262144;

pub const FLAG_RTGI: u32 = 524288;

pub const FLAG_SPEC_AA: u32 = 1048576;

/// The bounce folds into the denoiser's diffuse input.
pub const FLAG_NRD_GI: u32 = 2097152;

pub const FLAG_SKY_EXT_SKIP: u32 = 4194304;

pub const FLAG_NRD_REJITTER: u32 = 8388608;

pub const FLAG_REMOD_EXACT: u32 = 16777216;

pub const FLAG_NRD_RCLAMP: u32 = 33554432;

pub const FLAG_NRD_RCLAMP_HARD: u32 = 67108864;

/// The flag is set.
pub open spec fn has_flag(flags: u32, flag: u32) -> bool {
    flags & flag != 0
}

/// A default-on lever that the word `off` clears.
pub open spec fn on_unless_off(var: Option<Seq<char>>) -> (bool, Reading) {
    match var {
        None => (true, Reading::Unset),
        Some(v) => if v == "off"@ {
            (false, Reading::Taken)
        } else if v == "on"@ {
            (true, Reading::Taken)
        } else {
            (true, Reading::Refused)
        },
    }
}

/// The text of an optional setting.
pub open spec fn text_of(var: Option<&str>) -> Option<Seq<char>> {
    match var {
        None => None,
        Some(v) => Some(v@),
    }
}

fn read_on_unless_off(var: Option<&str>) -> (r: (bool, Reading))
    ensures
        r == on_unless_off(text_of(var)),
{
    match var {
        None => (true, Reading::Unset),
        Some(v) => if text::same(v, "off") {
            (false, Reading::Taken)
        } else if text::same(v, "on") {
            (true, Reading::Taken)
        } else {
            (true, Reading::Refused)
        },
    }
}

/// Whether the denoiser's micro-detail restoration runs.
pub fn nrd_rejitter_lever(var: Option<&str>) -> (r: (bool, Reading))
    ensures
        r == on_unless_off(text_of(var)),
{
    read_on_unless_off(var)
}

/// Whether light signals are captured at their physical weight.
pub fn nrd_remod_lever(var: Option<&str>) -> (r: (bool, Reading))
    ensures
        r == on_unless_off(text_of(var)),
{
    read_on_unless_off(var)
}

/// Whether the residual spike cap runs, and whether at its diagnostic
/// strength. Off by default.
pub fn nrd_rclamp_lever(var: Option<&str>) -> (r: ((bool, bool), Reading))
    ensures
        r == match text_of(var) {
            None => ((false, false), Reading::Unset),
            Some(v) => if v == "off"@ {
                ((false, false), Reading::Taken)
            } else if v == "on"@ {
                ((true, false), Reading::Taken)
            } else if v == "hard"@ {
                ((true, true), Reading::Taken)
            } else {
                ((false, false), Reading::Refused)
            },
        },
{
    match var {
        None => ((false, false), Reading::Unset),
        Some(v) => if text::same(v, "off") {
            ((false, false), Reading::Taken)
        } else if text::same(v, "on") {
            ((true, false), Reading::Taken)
        } else if text::same(v, "hard") {
            ((true, true), Reading::Taken)
        } else {
            ((false, false), Reading::Refused)
        },
    }
}

/// The full-bounce tiers of a quality setting.
#[derive(Clone, Copy, Debug, PartialEq, Eq, Structural)]
pub struct FullBounce {
    pub ao: bool,
    pub gi: bool,
    pub depth: u32,
}

/// Shading quality of a frame.
#[derive(Clone, Copy, Debug, PartialEq, Eq, Structural)]
pub struct Quality {
    pub shadow_samples: u32,
    pub ao_samples: u32,
    pub reflections: u32,
    pub rtgi: bool,
    pub fb: FullBounce,
}

/// The bounce tier: 2 with global illumination, which subsumes ambient
/// occlusion, 1 with that alone, else 0.
pub open spec fn fb_mode(q: Quality) -> u32 {
    if q.fb.gi {
        2
    } else if q.fb.ao {
        1
    } else {
        0
    }
}

/// The bounce tier of a quality setting.
pub fn fb_mode_of(q: &Quality) -> (mode: u32)
    ensures
        mode == fb_mode(*q),
{
    if q.fb.gi {
        2
    } else if q.fb.ao {
        1
    } else {
        0
    }
}

/// Four words of the block.
#[derive(Clone, Copy, Debug, PartialEq, Eq, Structural)]
pub struct Row4 {
    pub x: u32,
    pub y: u32,
    pub z: u32,
    pub w: u32,
}

/// Three lanes and a fourth.
pub open spec fn row(v: Bits3, w: u32) -> Row4 {
    Row4 { x: v.x, y: v.y, z: v.z, w }
}

/// A row of zeros.
pub open spec fn zero() -> Row4 {
    Row4 { x: 0, y: 0, z: 0, w: 0 }
}

fn make_row(v: &Bits3, w: u32) -> (r: Row4)
    ensures
        r == row(*v, w),
{
    Row4 { x: v.x, y: v.y, z: v.z, w }
}

fn zero_row() -> (r: Row4)
    ensures
        r == zero(),
{
    Row4 { x: 0, y: 0, z: 0, w: 0 }
}

fn zero_rows(n: usize) -> (r: Vec<Row4>)
    ensures
        r@ == Seq::new(n as nat, |i: int| zero()),
{
    let mut out: Vec<Row4> = Vec::new();
    let mut i: usize = 0;
    while i < n
        invariant
            i <= n,
            out@ == Seq::new(i as nat, |j: int| zero()),
        decreases n - i,
    {
        out.push(zero_row());
        i = i + 1;
        assert(out@ =~= Seq::new(i as nat, |j: int| zero()));
    }
    out
}

fn copy_rows(rows: &Vec<Row4>) -> (r: Vec<Row4>)
    ensures
        r@ == rows@,
{
    let mut out: Vec<Row4> = Vec::new();
    let n: usize = rows.len();
    let mut i: usize = 0;
    while i < n
        invariant
            i <= n,
            n == rows@.len(),
            out@ == rows@.take(i as int),
        decreases n - i,
    {
        out.push(rows[i]);
        i = i + 1;
        assert(out@ =~= rows@.take(i as int));
    }
    assert(out@ =~= rows@);
    out
}

/// An emissive cluster light.
#[derive(Clone, Copy, Debug, PartialEq, Eq, Structural)]
pub struct EmissiveLight {
    pub pos: Bits3,
    /// Squared source radius.
    pub rc2: u32,
    pub color: Bits3,
    /// Squared radius past which it contributes nothing.
    pub r_infl2: u32,
}

/// What the block takes from the scene.
pub struct SceneRows {
    pub sun_dir: Bits3,
    pub sun_cos_radius: u32,
    pub sun_e_over_pi: Bits3,
    pub sun_radiance: Bits3,
    pub eps: u32,
    pub ao_radius: u32,
    pub near: u32,
    pub far: u32,
    pub sky_sh: Vec<Bits3>,
    pub sky_scale: u32,
    pub night: u32,
    pub light_gain: u32,
    /// Deepest relief in world units; zero without height data.
    pub height_max: u32,
    pub lights: Vec<EmissiveLight>,
}

/// Sizes of the block's tables.
#[derive(Clone, Copy, Debug, PartialEq, Eq, Structural)]
pub struct TableSizes {
    /// Rows of the jitter table; each holds two samples.
    pub jitter_rows: usize,
    pub fireflies: usize,
    pub lights: usize,
}

/// A camera as the shaders take it.
#[derive(Clone, Copy, Debug, PartialEq, Eq, Structural)]
pub struct CamRows {
    pub origin: Bits3,
    pub forward: Bits3,
    pub right: Bits3,
    pub up: Bits3,
    pub inv_w: u32,
    pub inv_h: u32,
    /// Spread of the primary ray cone.
    pub pixel_cone: u32,
}

/// Cloud state of a frame.
#[derive(Clone, Copy, Debug, PartialEq, Eq, Structural)]
pub struct Clouds {
    pub enabled: bool,
    pub time: u32,
    pub diag: u32,
}

/// Firefly state of a frame: the first `count` rows of `pos` are live.
pub struct Fireflies {
    pub count: u32,
    pub scale: u32,
    pub pos: Vec<Row4>,
}

/// What varies from frame to frame.
pub struct FrameParams {
    pub cam: CamRows,
    pub frame: u32,
    pub accumulate: bool,
    pub jitter: bool,
    pub frame_jitter: Option<(u32, u32)>,
    /// The previous frame's camera, where there is one to reproject to.
    pub prev_cam: Option<CamRows>,
    pub q: Quality,
    pub verify: bool,
    /// Samples per pixel.
    pub spp: u32,
    /// Which sample writes the per-pixel side channels.
    pub probe_sample: u32,
    pub clouds: Clouds,
    pub fireflies: Fireflies,
    /// Sway clock; without one the rest pose is traced.
    pub sway_time: Option<u32>,
    pub sway_prev_time: Option<u32>,
    pub replay: bool,
}

/// What reads the G-buffer pack this frame.
#[derive(Clone, Copy, Debug)]
pub struct Wiring {
    /// The pack is full-size.
    pub gbuf_full: bool,
    pub fsr_sig: bool,
    pub gbuf_ext: bool,
    pub nrd_sig: bool,
    pub sky_ext_skip: bool,
    pub nrd_rejitter: bool,
    pub remod_exact: bool,
    /// The residual cap is armed, and at its diagnostic strength.
    pub rclamp: (bool, bool),
}

/// Session levers read when the block is built.
#[derive(Clone, Copy, Debug, PartialEq, Eq, Structural)]
pub struct FrameLevers {
    /// Bits of the largest anisotropy ratio.
    pub max_aniso: u32,
    pub height_on: bool,
    pub depth_tint: bool,
    pub emissive: bool,
    pub detail_tex: bool,
    pub detail_ao: bool,
    pub spec_aa: bool,
    pub amb_bump: bool,
    /// The wave overlay is compiled in, and shown.
    pub waveviz_on: bool,
    pub waveviz_live: bool,
}

/// Each flag's condition.
#[derive(Clone, Copy, Debug, PartialEq, Eq, Structural)]
pub struct Gates {
    pub accum: bool,
    pub jitter: bool,
    pub frame_jitter: bool,
    pub verify: bool,
    pub gbuf: bool,
    pub has_prev: bool,
    pub fsr_sig: bool,
    pub gbuf_ext: bool,
    pub nrd_gi: bool,
    pub sky_ext_skip: bool,
    pub nrd_rejitter: bool,
    pub remod_exact: bool,
    pub rclamp: bool,
    pub rclamp_hard: bool,
    pub aniso: bool,
    pub clouds: bool,
    pub fireflies: bool,
    pub height: bool,
    pub depth_tint: bool,
    pub emissive: bool,
    pub rtgi: bool,
    pub detail: bool,
    pub detail_ao: bool,
    pub spec_aa: bool,
    pub amb_bump: bool,
    pub waveviz: bool,
}

/// The conditions of a frame. `lights` is the scene's cluster count and
/// `height_max` its deepest relief.
pub open spec fn gates_of(
    p: FrameParams,
    w: Wiring,
    l: FrameLevers,
    lights: u32,
    height_max: u32,
) -> Gates {
    let ext = w.gbuf_full && (w.gbuf_ext || w.fsr_sig);
    let sig = w.gbuf_full && w.fsr_sig;
    Gates {
        accum: p.accumulate,
        jitter: p.jitter,
        frame_jitter: p.frame_jitter is Some,
        verify: p.verify,
        gbuf: w.gbuf_full,
        has_prev: p.prev_cam is Some,
        fsr_sig: sig,
        gbuf_ext: ext,
        nrd_gi: sig && w.nrd_sig,
        sky_ext_skip: w.gbuf_full && w.sky_ext_skip,
        nrd_rejitter: ext && w.nrd_rejitter,
        remod_exact: sig && w.nrd_sig && w.remod_exact,
        rclamp: ext && w.rclamp.0,
        rclamp_hard: ext && w.rclamp.0 && w.rclamp.1,
        aniso: bits::lt(ONE, l.max_aniso),
        clouds: p.clouds.enabled,
        fireflies: p.fireflies.count > 0,
        height: l.height_on && bits::lt(0, height_max),
        depth_tint: l.depth_tint,
        emissive: lights > 0 && l.emissive && fb_mode(p.q) != 2,
        rtgi: p.q.rtgi && fb_mode(p.q) == 0,
        detail: l.detail_tex,
        detail_ao: l.detail_ao,
        spec_aa: l.spec_aa,
        amb_bump: l.amb_bump,
        waveviz: l.waveviz_on && l.waveviz_live,
    }
}

/// The flags word says what the conditions say: each flag is set exactly when
/// its condition holds, and no other bit is.
pub open spec fn flags_say(flags: u32, g: Gates) -> bool {
    &&& has_flag(flags, FLAG_ACCUM) <==> g.accum
    &&& has_flag(flags, FLAG_JITTER) <==> g.jitter
    &&& has_flag(flags, FLAG_FRAME_JITTER) <==> g.frame_jitter
    &&& has_flag(flags, FLAG_VERIFY) <==> g.verify
    &&& has_flag(flags, FLAG_GBUF) <==> g.gbuf
    &&& has_flag(flags, FLAG_HAS_PREV) <==> g.has_prev
    &&& has_flag(flags, FLAG_FSR_SIG) <==> g.fsr_sig
    &&& has_flag(flags, FLAG_GBUF_EXT) <==> g.gbuf_ext
    &&& has_flag(flags, FLAG_NRD_GI) <==> g.nrd_gi
    &&& has_flag(flags, FLAG_SKY_EXT_SKIP) <==> g.sky_ext_skip
    &&& has_flag(flags, FLAG_NRD_REJITTER) <==> g.nrd_rejitter
    &&& has_flag(flags, FLAG_REMOD_EXACT) <==> g.remod_exact
    &&& has_flag(flags, FLAG_NRD_RCLAMP) <==> g.rclamp
    &&& has_flag(flags, FLAG_NRD_RCLAMP_HARD) <==> g.rclamp_hard
    &&& has_flag(flags, FLAG_ANISO) <==> g.aniso
    &&& has_flag(flags, FLAG_CLOUDS) <==> g.clouds
    &&& has_flag(flags, FLAG_FIREFLIES) <==> g.fireflies
    &&& has_flag(flags, FLAG_HEIGHT) <==> g.height
    &&& has_flag(flags, FLAG_DEPTH_TINT) <==> g.depth_tint
    &&& has_flag(flags, FLAG_EMISSIVE) <==> g.emissive
    &&& has_flag(flags, FLAG_RTGI) <==> g.rtgi
    &&& has_flag(flags, FLAG_DETAIL) <==> g.detail
    &&& has_flag(flags, FLAG_DETAIL_AO) <==> g.detail_ao
    &&& has_flag(flags, FLAG_SPEC_AA) <==> g.spec_aa
    &&& has_flag(flags, FLAG_AMB_BUMP) <==> g.amb_bump
    &&& has_flag(flags, FLAG_WAVEVIZ) <==> g.waveviz
    &&& !has_flag(flags, FLAG_SWAY_MV)
    &&& flags < 0x0800_0000
}

fn bit_if(on: bool, flag: u32) -> (r: u32)
    ensures
        r == if on {
            flag
        } else {
            0
        },
{
    if on {
        flag
    } else {
        0
    }
}

/// The lower half of the flags word.
fn low_flags(g: &Gates) -> (r: u32)
    ensures
        r < 0x2000,
        r & 1 != 0 <==> g.accum,
        r & 2 != 0 <==> g.jitter,
        r & 4 != 0 <==> g.frame_jitter,
        r & 8 != 0 <==> g.verify,
        r & 16 != 0 <==> g.gbuf,
        r & 32 != 0 <==> g.has_prev,
        r & 64 != 0 <==> g.fsr_sig,
        r & 128 != 0 <==> g.aniso,
        r & 256 != 0 <==> g.clouds,
        r & 512 != 0 <==> g.height,
        r & 1024 != 0 <==> g.fireflies,
        r & 2048 != 0 <==> g.depth_tint,
        r & 4096 != 0 <==> g.gbuf_ext,
{
    let b0: u32 = bit_if(g.accum, FLAG_ACCUM);
    let b1: u32 = bit_if(g.jitter, FLAG_JITTER);
    let b2: u32 = bit_if(g.frame_jitter, FLAG_FRAME_JITTER);
    let b3: u32 = bit_if(g.verify, FLAG_VERIFY);
    let b4: u32 = bit_if(g.gbuf, FLAG_GBUF);
    let b5: u32 = bit_if(g.has_prev, FLAG_HAS_PREV);
    let b6: u32 = bit_if(g.fsr_sig, FLAG_FSR_SIG);
    let b7: u32 = bit_if(g.aniso, FLAG_ANISO);
    let b8: u32 = bit_if(g.clouds, FLAG_CLOUDS);
    let b9: u32 = bit_if(g.height, FLAG_HEIGHT);
    let b10: u32 = bit_if(g.fireflies, FLAG_FIREFLIES);
    let b11: u32 = bit_if(g.depth_tint, FLAG_DEPTH_TINT);
    let b12: u32 = bit_if(g.gbuf_ext, FLAG_GBUF_EXT);
    let r: u32 = b0 | b1 | b2 | b3 | b4 | b5 | b6 | b7 | b8 | b9 | b10 | b11 | b12;
    assert(r < 0x2000 && r & 1 == b0 && r & 2 == b1 && r & 4 == b2 && r & 8 == b3 && r & 16 == b4 && r & 32 == b5 && r & 64 == b6 && r & 128 == b7 && r & 256 == b8 && r & 512 == b9 && r & 1024 == b10 && r & 2048 == b11 && r & 4096 == b12) by (bit_vector)
        requires
            r == b0 | b1 | b2 | b3 | b4 | b5 | b6 | b7 | b8 | b9 | b10 | b11 | b12,
            b0 == 0 || b0 == 1,
            b1 == 0 || b1 == 2,
            b2 == 0 || b2 == 4,
            b3 == 0 || b3 == 8,
            b4 == 0 || b4 == 16,
            b5 == 0 || b5 == 32,
            b6 == 0 || b6 == 64,
            b7 == 0 || b7 == 128,
            b8 == 0 || b8 == 256,
            b9 == 0 || b9 == 512,
            b10 == 0 || b10 == 1024,
            b11 == 0 || b11 == 2048,
            b12 == 0 || b12 == 4096,
    ;
    r
}

/// The upper half of the flags word.
fn high_flags(g: &Gates) -> (r: u32)
    ensures
        r < 0x0800_0000,
        r & 0x3fff == 0,
        r & 16384 != 0 <==> g.emissive,
        r & 32768 != 0 <==> g.detail,
        r & 65536 != 0 <==> g.detail_ao,
        r & 131072 != 0 <==> g.amb_bump,
        r & 262144 != 0 <==> g.waveviz,
        r & 524288 != 0 <==> g.rtgi,
        r & 1048576 != 0 <==> g.spec_aa,
        r & 2097152 != 0 <==> g.nrd_gi,
        r & 4194304 != 0 <==> g.sky_ext_skip,
        r & 8388608 != 0 <==> g.nrd_rejitter,
        r & 16777216 != 0 <==> g.remod_exact,
        r & 33554432 != 0 <==> g.rclamp,
        r & 67108864 != 0 <==> g.rclamp_hard,
{
    let b0: u32 = bit_if(g.emissive, FLAG_EMISSIVE);
    let b1: u32 = bit_if(g.detail, FLAG_DETAIL);
    let b2: u32 = bit_if(g.detail_ao, FLAG_DETAIL_AO);
    let b3: u32 = bit_if(g.amb_bump, FLAG_AMB_BUMP);
    let b4: u32 = bit_if(g.waveviz, FLAG_WAVEVIZ);
    let b5: u32 = bit_if(g.rtgi, FLAG_RTGI);
    let b6: u32 = bit_if(g.spec_aa, FLAG_SPEC_AA);
    let b7: u32 = bit_if(g.nrd_gi, FLAG_NRD_GI);
    let b8: u32 = bit_if(g.sky_ext_skip, FLAG_SKY_EXT_SKIP);
    let b9: u32 = bit_if(g.nrd_rejitter, FLAG_NRD_REJITTER);
    let b10: u32 = bit_if(g.remod_exact, FLAG_REMOD_EXACT);
    let b11: u32 = bit_if(g.rclamp, FLAG_NRD_RCLAMP);
    let b12: u32 = bit_if(g.rclamp_hard, FLAG_NRD_RCLAMP_HARD);
    let r: u32 = b0 | b1 | b2 | b3 | b4 | b5 | b6 | b7 | b8 | b9 | b10 | b11 | b12;
    assert(r < 0x0800_0000 && r & 0x3fff == 0 && r & 16384 == b0 && r & 32768 == b1 && r & 65536 == b2 && r & 131072 == b3 && r & 262144 == b4 && r & 524288 == b5 && r & 1048576 == b6 && r & 2097152 == b7 && r & 4194304 == b8 && r & 8388608 == b9 && r & 16777216 == b10 && r & 33554432 == b11 && r & 67108864 == b12) by (bit_vector)
        requires
            r == b0 | b1 | b2 | b3 | b4 | b5 | b6 | b7 | b8 | b9 | b10 | b11 | b12,
            b0 == 0 || b0 == 16384,
            b1 == 0 || b1 == 32768,
            b2 == 0 || b2 == 65536,
            b3 == 0 || b3 == 131072,
            b4 == 0 || b4 == 262144,
            b5 == 0 || b5 == 524288,
            b6 == 0 || b6 == 1048576,
            b7 == 0 || b7 == 2097152,
            b8 == 0 || b8 == 4194304,
            b9 == 0 || b9 == 8388608,
            b10 == 0 || b10 == 16777216,
            b11 == 0 || b11 == 33554432,
            b12 == 0 || b12 == 67108864,
    ;
    r
}

/// The flags word of a frame's conditions.
fn pack_flags(g: &Gates) -> (flags: u32)
    ensures
        flags_say(flags, *g),
{
    let lo: u32 = low_flags(g);
    let hi: u32 = high_flags(g);
    let r: u32 = lo | hi;
    assert(r < 0x0800_0000 && r & 8192 == 0 && r & 1 == lo & 1 && r & 2 == lo & 2 && r & 4 == lo & 4 && r & 8 == lo & 8 && r & 16 == lo & 16 && r & 32 == lo & 32 && r & 64 == lo & 64 && r & 128 == lo & 128 && r & 256 == lo & 256 && r & 512 == lo & 512 && r & 1024 == lo & 1024 && r & 2048 == lo & 2048 && r & 4096 == lo & 4096 && r & 16384 == hi & 16384 && r & 32768 == hi & 32768 && r & 65536 == hi & 65536 && r & 131072 == hi & 131072 && r & 262144 == hi & 262144 && r & 524288 == hi & 524288 && r & 1048576 == hi & 1048576 && r & 2097152 == hi & 2097152 && r & 4194304 == hi & 4194304 && r & 8388608 == hi & 8388608 && r & 16777216 == hi & 16777216 && r & 33554432 == hi & 33554432 && r & 67108864 == hi & 67108864) by (bit_vector)
        requires
            r == lo | hi,
            lo < 0x2000,
            hi < 0x0800_0000,
            hi & 0x3fff == 0,
    ;
    r
}

/// The block. Rows past the live counts are zero.
pub struct FrameCb {
    /// Position; width of a pixel.
    pub cam_origin: Row4,
    /// Direction; height of a pixel.
    pub cam_forward: Row4,
    /// The fourth lane is the cloud diagonal.
    pub cam_right: Row4,
    /// The fourth lane is the cloud clock.
    pub cam_up: Row4,
    /// Direction; cosine of the angular radius.
    pub sun: Row4,
    /// Irradiance over pi; the scene's ray offset.
    pub sun_e: Row4,
    /// Disc radiance; the ambient occlusion radius.
    pub sun_l: Row4,
    pub rw: u32,
    pub rh: u32,
    pub frame: u32,
    pub flags: u32,
    pub shadow_samples: u32,
    pub ao_samples: u32,
    pub reflections: u32,
    pub ff_scale: u32,
    pub frame_jitter: (u32, u32),
    pub pixel_cone: u32,
    pub sky_scale: u32,
    pub cap_tile: u32,
    pub cap_leaf: u32,
    pub cap_sky: u32,
    pub cap_cut: u32,
    pub fb_mode: u32,
    pub fb_depth: u32,
    pub hemi_batch: u32,
    pub cap_hemi_pt: u32,
    pub cap_hemi_cell: u32,
    pub cap_hemi_leaf: u32,
    pub cap_hemi_cut: u32,
    pub ff_count: u32,
    pub prev_origin: Row4,
    pub prev_forward: Row4,
    /// The fourth lane is the near plane.
    pub prev_right: Row4,
    /// The fourth lane is the far plane.
    pub prev_up: Row4,
    pub spp: u32,
    pub probe_sample: u32,
    pub night: u32,
    pub height_max: u32,
    pub jitters: Vec<Row4>,
    pub sky_sh: Vec<Row4>,
    pub ff: Vec<Row4>,
    pub cloud_grid: Row4,
    pub sway_mv_base: Row4,
    /// Cluster count and the scene's light gain.
    pub el_meta: Row4,
    pub el_a: Vec<Row4>,
    pub el_b: Vec<Row4>,
    /// Tile mask, low half first, and its depth.
    pub split: Row4,
}

/// Sample `k` of a jitter table: two to a row.
pub open spec fn sample_at(rows: Seq<Row4>, k: int) -> (u32, u32) {
    if k % 2 == 0 {
        (rows[k / 2].x, rows[k / 2].y)
    } else {
        (rows[k / 2].z, rows[k / 2].w)
    }
}

/// The value held between two bounds.
pub open spec fn clamped(v: u32, lo: int, hi: int) -> int {
    if v < lo {
        lo
    } else if v > hi {
        hi
    } else {
        v as int
    }
}

/// Samples per pixel of a frame: one where a bounce tier is on, else as asked
/// within the jitter table.
pub open spec fn samples(p: FrameParams, table: int) -> int {
    if fb_mode(p.q) > 0 {
        1
    } else {
        clamped(p.spp, 1, table)
    }
}

/// The cluster rows of the scene, padded with zeros.
pub open spec fn light_rows_a(lights: Seq<EmissiveLight>, n: nat) -> Seq<Row4> {
    Seq::new(
        n,
        |i: int|
            if i < lights.len() {
                row(lights[i].pos, lights[i].rc2)
            } else {
                zero()
            },
    )
}

pub open spec fn light_rows_b(lights: Seq<EmissiveLight>, n: nat) -> Seq<Row4> {
    Seq::new(
        n,
        |i: int|
            if i < lights.len() {
                row(lights[i].color, lights[i].r_infl2)
            } else {
                zero()
            },
    )
}

/// The sky's rows.
pub open spec fn sky_rows(sh: Seq<Bits3>) -> Seq<Row4> {
    Seq::new(sh.len(), |i: int| row(sh[i], 0))
}

fn light_rows(lights: &Vec<EmissiveLight>, n: usize, powers: bool) -> (r: Vec<Row4>)
    requires
        lights.len() <= n,
    ensures
        r@ == if powers {
            light_rows_b(lights@, n as nat)
        } else {
            light_rows_a(lights@, n as nat)
        },
{
    let mut out: Vec<Row4> = Vec::new();
    let mut i: usize = 0;
    while i < n
        invariant
            i <= n,
            lights.len() <= n,
            out@.len() == i,
            forall|j: int|
                0 <= j < i ==> #[trigger] out@[j] == if powers {
                    light_rows_b(lights@, n as nat)[j]
                } else {
                    light_rows_a(lights@, n as nat)[j]
                },
        decreases n - i,
    {
        if i < lights.len() {
            let l = lights[i];
            if powers {
                out.push(make_row(&l.color, l.r_infl2));
            } else {
                out.push(make_row(&l.pos, l.rc2));
            }
        } else {
            out.push(zero_row());
        }
        i = i + 1;
    }
    assert(out@ =~= if powers {
        light_rows_b(lights@, n as nat)
    } else {
        light_rows_a(lights@, n as nat)
    });
    out
}

fn sh_rows(sh: &Vec<Bits3>) -> (r: Vec<Row4>)
    ensures
        r@ == sky_rows(sh@),
{
    let mut out: Vec<Row4> = Vec::new();
    let n: usize = sh.len();
    let mut i: usize = 0;
    while i < n
        invariant
            i <= n,
            n == sh@.len(),
            out@.len() == i,
            forall|j: int| 0 <= j < i ==> #[trigger] out@[j] == row(sh@[j], 0),
        decreases n - i,
    {
        out.push(make_row(&sh[i], 0));
        i = i + 1;
    }
    assert(out@ =~= sky_rows(sh@));
    out
}

impl FrameCb {
    /// The tables have the shapes that the layout gives them.
    pub open spec fn wf(self) -> bool {
        &&& self.sky_sh@.len() == SH_ROWS
        &&& self.el_a@.len() == self.el_b@.len()
        &&& 0 < self.jitters@.len()
        &&& 2 * self.jitters@.len() <= u32::MAX
    }

    /// The sun, sky and cluster rows come from the scene.
    pub open spec fn lit_by(self, s: SceneRows) -> bool {
        &&& self.sun == row(s.sun_dir, s.sun_cos_radius)
        &&& self.sun_e == row(s.sun_e_over_pi, s.eps)
        &&& self.sun_l == row(s.sun_radiance, s.ao_radius)
        &&& self.sky_sh@ == sky_rows(s.sky_sh@)
        &&& self.sky_scale == s.sky_scale
        &&& self.night == s.night
        &&& self.el_meta == (Row4 { x: s.lights@.len() as u32, y: s.light_gain, z: 0, w: 0 })
        &&& self.el_a@ == light_rows_a(s.lights@, self.el_a@.len())
        &&& self.el_b@ == light_rows_b(s.lights@, self.el_b@.len())
    }

    /// The fields that a scene's light does not set are those of `other`.
    pub open spec fn unlit_fields_of(self, other: FrameCb) -> bool {
        &&& self.cam_fields_of(other)
        &&& self.size_fields_of(other)
        &&& self.frame == other.frame
        &&& self.flags == other.flags
        &&& self.shadow_samples == other.shadow_samples
        &&& self.ao_samples == other.ao_samples
        &&& self.reflections == other.reflections
        &&& self.ff_scale == other.ff_scale
        &&& self.frame_jitter == other.frame_jitter
        &&& self.pixel_cone == other.pixel_cone
        &&& self.fb_mode == other.fb_mode
        &&& self.fb_depth == other.fb_depth
        &&& self.ff_count == other.ff_count
        &&& self.spp == other.spp
        &&& self.probe_sample == other.probe_sample
        &&& self.height_max == other.height_max
        &&& self.jitters@ == other.jitters@
        &&& self.ff@ == other.ff@
        &&& self.cloud_grid == other.cloud_grid
        &&& self.sway_mv_base == other.sway_mv_base
        &&& self.split == other.split
    }

    pub open spec fn cam_fields_of(self, other: FrameCb) -> bool {
        &&& self.cam_origin == other.cam_origin
        &&& self.cam_forward == other.cam_forward
        &&& self.cam_right == other.cam_right
        &&& self.cam_up == other.cam_up
        &&& self.prev_origin == other.prev_origin
        &&& self.prev_forward == other.prev_forward
        &&& self.prev_right == other.prev_right
        &&& self.prev_up == other.prev_up
    }

    /// The screen size and the queue capacities are those of `other`.
    pub open spec fn size_fields_of(self, other: FrameCb) -> bool {
        &&& self.rw == other.rw
        &&& self.rh == other.rh
        &&& self.hemi_batch == other.hemi_batch
        &&& self.cap_hemi_pt == other.cap_hemi_pt
        &&& self.caps() == other.caps()
    }

    /// The queue capacities, in the order that they are set in.
    pub open spec fn caps(self) -> Seq<u32> {
        seq![
            self.cap_tile,
            self.cap_leaf,
            self.cap_sky,
            self.cap_cut,
            self.cap_hemi_cell,
            self.cap_hemi_leaf,
            self.cap_hemi_cut,
        ]
    }

    /// The scene-static rows are those of `other`.
    pub open spec fn light_fields_of(self, other: FrameCb) -> bool {
        &&& self.sun == other.sun
        &&& self.sun_e == other.sun_e
        &&& self.sun_l == other.sun_l
        &&& self.sky_sh@ == other.sky_sh@
        &&& self.sky_scale == other.sky_scale
        &&& self.night == other.night
        &&& self.el_meta == other.el_meta
        &&& self.el_a@ == other.el_a@
        &&& self.el_b@ == other.el_b@
    }

    /// The block before any frame: the scene's rows, the screen size, one
    /// sample per pixel, and nothing else.
    pub fn base(scene: &SceneRows, sizes: &TableSizes, rw: u32, rh: u32) -> (cb: FrameCb)
        requires
            rw * rh <= u32::MAX,
            scene.sky_sh.len() == SH_ROWS,
            scene.lights.len() <= sizes.lights,
            scene.lights.len() <= u32::MAX,
            0 < sizes.jitter_rows,
            2 * sizes.jitter_rows <= u32::MAX,
        ensures
            cb.wf(),
            cb.lit_by(*scene),
            cb.el_a@.len() == sizes.lights,
            cb.ff@ == Seq::new(sizes.fireflies as nat, |i: int| zero()),
            cb.jitters@ == Seq::new(sizes.jitter_rows as nat, |i: int| zero()),
            cb.rw == rw,
            cb.rh == rh,
            cb.cap_hemi_pt == rw * rh,
            cb.hemi_batch == HEMI_BATCH,
            cb.fb_depth == 2,
            cb.spp == 1,
            cb.ff_scale == ONE,
            cb.height_max == scene.height_max,
            cb.cam_origin == zero(),
            cb.cam_forward == zero(),
            cb.cam_right == zero(),
            cb.cam_up == zero(),
            cb.prev_origin == zero(),
            cb.prev_forward == zero(),
            cb.prev_right == (Row4 { x: 0, y: 0, z: 0, w: scene.near }),
            cb.prev_up == (Row4 { x: 0, y: 0, z: 0, w: scene.far }),
            cb.frame == 0,
            cb.flags == 0,
            cb.shadow_samples == 0,
            cb.ao_samples == 0,
            cb.reflections == 0,
            cb.frame_jitter == (0u32, 0u32),
            cb.pixel_cone == 0,
            cb.fb_mode == 0,
            cb.ff_count == 0,
            cb.probe_sample == 0,
            cb.caps() == seq![0u32, 0, 0, 0, 0, 0, 0],
            cb.cloud_grid == zero(),
            cb.sway_mv_base == zero(),
            cb.split == zero(),
    {
        let cb = FrameCb {
            cam_origin: zero_row(),
            cam_forward: zero_row(),
            cam_right: zero_row(),
            cam_up: zero_row(),
            sun: make_row(&scene.sun_dir, scene.sun_cos_radius),
            sun_e: make_row(&scene.sun_e_over_pi, scene.eps),
            sun_l: make_row(&scene.sun_radiance, scene.ao_radius),
            rw,
            rh,
            frame: 0,
            flags: 0,
            shadow_samples: 0,
            ao_samples: 0,
            reflections: 0,
            ff_scale: ONE,
            frame_jitter: (0, 0),
            pixel_cone: 0,
            sky_scale: scene.sky_scale,
            cap_tile: 0,
            cap_leaf: 0,
            cap_sky: 0,
            cap_cut: 0,
            fb_mode: 0,
            fb_depth: 2,
            hemi_batch: HEMI_BATCH,
            cap_hemi_pt: rw * rh,
            cap_hemi_cell: 0,
            cap_hemi_leaf: 0,
            cap_hemi_cut: 0,
            ff_count: 0,
            prev_origin: zero_row(),
            prev_forward: zero_row(),
            prev_right: Row4 { x: 0, y: 0, z: 0, w: scene.near },
            prev_up: Row4 { x: 0, y: 0, z: 0, w: scene.far },
            spp: 1,
            probe_sample: 0,
            night: scene.night,
            height_max: scene.height_max,
            jitters: zero_rows(sizes.jitter_rows),
            sky_sh: sh_rows(&scene.sky_sh),
            ff: zero_rows(sizes.fireflies),
            cloud_grid: zero_row(),
            sway_mv_base: zero_row(),
            el_meta: Row4 { x: scene.lights.len() as u32, y: scene.light_gain, z: 0, w: 0 },
            el_a: light_rows(&scene.lights, sizes.lights, false),
            el_b: light_rows(&scene.lights, sizes.lights, true),
            split: zero_row(),
        };
        cb
    }

    /// Sets the tracer's queue capacities.
    pub fn set_caps(
        &mut self,
        tile: u32,
        leaf: u32,
        sky: u32,
        cut: u32,
        hemi_cell: u32,
        hemi_leaf: u32,
        hemi_cut: u32,
    )
        ensures
            *final(self) == (FrameCb {
                cap_tile: tile,
                cap_leaf: leaf,
                cap_sky: sky,
                cap_cut: cut,
                cap_hemi_cell: hemi_cell,
                cap_hemi_leaf: hemi_leaf,
                cap_hemi_cut: hemi_cut,
                ..*old(self)
            }),
    {
        self.cap_tile = tile;
        self.cap_leaf = leaf;
        self.cap_sky = sky;
        self.cap_cut = cut;
        self.cap_hemi_cell = hemi_cell;
        self.cap_hemi_leaf = hemi_leaf;
        self.cap_hemi_cut = hemi_cut;
    }

    /// Sets the tiles that this device renders.
    pub fn set_split(&mut self, split: TileSplit)
        ensures
            *final(self) == (FrameCb {
                split: Row4 {
                    x: (split.mask % 0x1_0000_0000) as u32,
                    y: (split.mask / 0x1_0000_0000) as u32,
                    z: split.depth,
                    w: 0,
                },
                ..*old(self)
            }),
    {
        let words = split.cb_row();
        self.split = Row4 { x: words[0], y: words[1], z: words[2], w: words[3] };
    }

    /// Takes the sun, sky and cluster rows from the scene again.
    pub fn refresh_sky_rows(&mut self, scene: &SceneRows)
        requires
            old(self).wf(),
            scene.sky_sh.len() == SH_ROWS,
            scene.lights.len() <= old(self).el_a.len(),
            scene.lights.len() <= u32::MAX,
        ensures
            final(self).wf(),
            final(self).lit_by(*scene),
            final(self).el_a@.len() == old(self).el_a@.len(),
            final(self).unlit_fields_of(*old(self)),
    {
        let n: usize = self.el_a.len();
        self.sun = make_row(&scene.sun_dir, scene.sun_cos_radius);
        self.sun_e = make_row(&scene.sun_e_over_pi, scene.eps);
        self.sun_l = make_row(&scene.sun_radiance, scene.ao_radius);
        self.sky_sh = sh_rows(&scene.sky_sh);
        self.sky_scale = scene.sky_scale;
        self.night = scene.night;
        self.el_meta = Row4 { x: scene.lights.len() as u32, y: scene.light_gain, z: 0, w: 0 };
        self.el_a = light_rows(&scene.lights, n, false);
        self.el_b = light_rows(&scene.lights, n, true);
    }

    /// Turns the sway correction on, with the frame's first row of its table.
    pub fn arm_sway_mv(&mut self, base: u32)
        ensures
            *final(self) == (FrameCb {
                flags: old(self).flags | FLAG_SWAY_MV,
                sway_mv_base: Row4 { x: base, y: 0, z: 0, w: 0 },
                ..*old(self)
            }),
    {
        self.flags = self.flags | FLAG_SWAY_MV;
        self.sway_mv_base = Row4 { x: base, y: 0, z: 0, w: 0 };
    }
}

/// The conditions of a frame.
fn frame_gates(p: &FrameParams, w: &Wiring, l: &FrameLevers, lights: u32, height_max: u32) -> (g:
    Gates)
    ensures
        g == gates_of(*p, *w, *l, lights, height_max),
{
    let mode: u32 = fb_mode_of(&p.q);
    let ext: bool = w.gbuf_full && (w.gbuf_ext || w.fsr_sig);
    let sig: bool = w.gbuf_full && w.fsr_sig;
    Gates {
        accum: p.accumulate,
        jitter: p.jitter,
        frame_jitter: p.frame_jitter.is_some(),
        verify: p.verify,
        gbuf: w.gbuf_full,
        has_prev: p.prev_cam.is_some(),
        fsr_sig: sig,
        gbuf_ext: ext,
        nrd_gi: sig && w.nrd_sig,
        sky_ext_skip: w.gbuf_full && w.sky_ext_skip,
        nrd_rejitter: ext && w.nrd_rejitter,
        remod_exact: sig && w.nrd_sig && w.remod_exact,
        rclamp: ext && w.rclamp.0,
        rclamp_hard: ext && w.rclamp.0 && w.rclamp.1,
        aniso: bits::is_lt(ONE, l.max_aniso),
        clouds: p.clouds.enabled,
        fireflies: p.fireflies.count > 0,
        height: l.height_on && bits::is_lt(0, height_max),
        depth_tint: l.depth_tint,
        emissive: lights > 0 && l.emissive && mode != 2,
        rtgi: p.q.rtgi && mode == 0,
        detail: l.detail_tex,
        detail_ao: l.detail_ao,
        spec_aa: l.spec_aa,
        amb_bump: l.amb_bump,
        waveviz: l.waveviz_on && l.waveviz_live,
    }
}

/// A table with its first `n` rows replaced.
fn live_rows(table: &Vec<Row4>, live: &Vec<Row4>, n: usize) -> (r: Vec<Row4>)
    requires
        n <= live.len(),
        n <= table.len(),
    ensures
        r@ == live@.take(n as int) + table@.skip(n as int),
{
    let mut out: Vec<Row4> = copy_rows(table);
    let mut i: usize = 0;
    while i < n
        invariant
            i <= n,
            n <= live.len(),
            n <= table.len(),
            out@ == live@.take(i as int) + table@.skip(i as int),
        decreases n - i,
    {
        out.set(i, live[i]);
        i = i + 1;
        assert(out@ =~= live@.take(i as int) + table@.skip(i as int));
    }
    out
}

/// A jitter table with its first samples replaced.
fn live_samples(table: &Vec<Row4>, live: &[(u32, u32)], n: u32) -> (r: Vec<Row4>)
    requires
        n <= live.len(),
        n <= 2 * table@.len(),
    ensures
        r@.len() == table@.len(),
        forall|k: int| 0 <= k < n ==> #[trigger] sample_at(r@, k) == live@[k],
        forall|k: int|
            n <= k < 2 * table@.len() ==> #[trigger] sample_at(r@, k) == sample_at(table@, k),
{
    let mut out: Vec<Row4> = copy_rows(table);
    let mut k: u32 = 0;
    while k < n
        invariant
            k <= n,
            n <= live.len(),
            n <= 2 * table@.len(),
            out@.len() == table@.len(),
            forall|j: int| 0 <= j < k ==> #[trigger] sample_at(out@, j) == live@[j],
            forall|j: int|
                k <= j < 2 * table@.len() ==> #[trigger] sample_at(out@, j) == sample_at(table@, j),
        decreases n - k,
    {
        let at: usize = (k / 2) as usize;
        let old_row = out[at];
        let (x, y): (u32, u32) = live[k as usize];
        let ghost before = out@;
        let new_row = if k % 2 == 0 {
            Row4 { x, y, z: old_row.z, w: old_row.w }
        } else {
            Row4 { x: old_row.x, y: old_row.y, z: x, w: y }
        };
        out.set(at, new_row);
        proof {
            assert forall|j: int| 0 <= j < 2 * table@.len() && j != k implies #[trigger] sample_at(
                out@,
                j,
            ) == sample_at(before, j) by {}
            assert(sample_at(out@, k as int) == (x, y));
        }
        k = k + 1;
    }
    out
}

impl FrameCb {
    /// `self` is the block `base` with a frame's fields written over it.
    pub open spec fn frames(
        self,
        base: FrameCb,
        p: FrameParams,
        w: Wiring,
        l: FrameLevers,
        halton: Seq<(u32, u32)>,
    ) -> bool {
        let n = samples(p, 2 * base.jitters@.len() as int);
        &&& self.wf()
        &&& self.size_fields_of(base)
        &&& self.light_fields_of(base)
        &&& self.height_max == base.height_max
        &&& self.cloud_grid == base.cloud_grid
        &&& self.sway_mv_base == base.sway_mv_base
        &&& self.split == base.split
        &&& self.cam_origin == row(p.cam.origin, p.cam.inv_w)
        &&& self.cam_forward == row(p.cam.forward, p.cam.inv_h)
        &&& self.cam_right == row(p.cam.right, p.clouds.diag)
        &&& self.cam_up == row(p.cam.up, p.clouds.time)
        &&& self.pixel_cone == p.cam.pixel_cone
        &&& self.frame == p.frame
        &&& flags_say(self.flags, gates_of(p, w, l, base.el_meta.x, base.height_max))
        &&& self.shadow_samples == p.q.shadow_samples
        &&& self.ao_samples == p.q.ao_samples
        &&& self.reflections == p.q.reflections
        &&& self.frame_jitter == match p.frame_jitter {
            Some(j) => j,
            None => (0u32, 0u32),
        }
        &&& self.ff_count == p.fireflies.count
        &&& self.ff_scale == p.fireflies.scale
        &&& self.ff@ == p.fireflies.pos@.take(p.fireflies.count as int) + base.ff@.skip(
            p.fireflies.count as int,
        )
        &&& self.fb_mode == fb_mode(p.q)
        &&& self.fb_depth == clamped(p.q.fb.depth, 1, HEMI_MAX_DEPTH as int)
        &&& self.spp == n
        &&& self.probe_sample == clamped(p.probe_sample, 0, n - 1)
        &&& self.jitters@.len() == base.jitters@.len()
        &&& forall|k: int| 0 <= k < n ==> #[trigger] sample_at(self.jitters@, k) == halton[k]
        &&& forall|k: int|
            n <= k < 2 * base.jitters@.len() ==> #[trigger] sample_at(self.jitters@, k)
                == sample_at(base.jitters@, k)
        &&& match p.prev_cam {
            Some(c) => {
                &&& self.prev_origin == row(c.origin, c.inv_w)
                &&& self.prev_forward == row(c.forward, c.inv_h)
                &&& self.prev_right == row(c.right, base.prev_right.w)
                &&& self.prev_up == row(c.up, base.prev_up.w)
            },
            None => {
                &&& self.prev_origin == base.prev_origin
                &&& self.prev_forward == base.prev_forward
                &&& self.prev_right == base.prev_right
                &&& self.prev_up == base.prev_up
            },
        }
    }

    /// Writes a frame's fields over the static block. `halton` holds the
    /// frame's sample offsets.
    pub fn with_frame(
        &self,
        p: &FrameParams,
        wiring: &Wiring,
        levers: &FrameLevers,
        halton: &[(u32, u32)],
    ) -> (cb: FrameCb)
        requires
            self.wf(),
            p.fireflies.count <= p.fireflies.pos.len(),
            p.fireflies.count <= self.ff.len(),
            samples(*p, 2 * self.jitters@.len() as int) <= halton.len(),
        ensures
            cb.frames(*self, *p, *wiring, *levers, halton@),
    {
        let gates = frame_gates(p, wiring, levers, self.el_meta.x, self.height_max);
        let mode: u32 = fb_mode_of(&p.q);
        let most: u32 = (2 * self.jitters.len()) as u32;
        let spp: u32 = if mode > 0 {
            1
        } else if p.spp < 1 {
            1
        } else if p.spp > most {
            most
        } else {
            p.spp
        };
        let depth: u32 = if p.q.fb.depth < 1 {
            1
        } else if p.q.fb.depth > HEMI_MAX_DEPTH {
            HEMI_MAX_DEPTH
        } else {
            p.q.fb.depth
        };
        let cb = FrameCb {
            cam_origin: make_row(&p.cam.origin, p.cam.inv_w),
            cam_forward: make_row(&p.cam.forward, p.cam.inv_h),
            cam_right: make_row(&p.cam.right, p.clouds.diag),
            cam_up: make_row(&p.cam.up, p.clouds.time),
            sun: self.sun,
            sun_e: self.sun_e,
            sun_l: self.sun_l,
            rw: self.rw,
            rh: self.rh,
            frame: p.frame,
            flags: pack_flags(&gates),
            shadow_samples: p.q.shadow_samples,
            ao_samples: p.q.ao_samples,
            reflections: p.q.reflections,
            ff_scale: p.fireflies.scale,
            frame_jitter: match p.frame_jitter {
                Some(j) => j,
                None => (0, 0),
            },
            pixel_cone: p.cam.pixel_cone,
            sky_scale: self.sky_scale,
            cap_tile: self.cap_tile,
            cap_leaf: self.cap_leaf,
            cap_sky: self.cap_sky,
            cap_cut: self.cap_cut,
            fb_mode: mode,
            fb_depth: depth,
            hemi_batch: self.hemi_batch,
            cap_hemi_pt: self.cap_hemi_pt,
            cap_hemi_cell: self.cap_hemi_cell,
            cap_hemi_leaf: self.cap_hemi_leaf,
            cap_hemi_cut: self.cap_hemi_cut,
            ff_count: p.fireflies.count,
            prev_origin: match &p.prev_cam {
                Some(c) => make_row(&c.origin, c.inv_w),
                None => self.prev_origin,
            },
            prev_forward: match &p.prev_cam {
                Some(c) => make_row(&c.forward, c.inv_h),
                None => self.prev_forward,
            },
            prev_right: match &p.prev_cam {
                Some(c) => make_row(&c.right, self.prev_right.w),
                None => self.prev_right,
            },
            prev_up: match &p.prev_cam {
                Some(c) => make_row(&c.up, self.prev_up.w),
                None => self.prev_up,
            },
            spp,
            probe_sample: if p.probe_sample < spp {
                p.probe_sample
            } else {
                spp - 1
            },
            night: self.night,
            height_max: self.height_max,
            jitters: live_samples(&self.jitters, halton, spp),
            sky_sh: copy_rows(&self.sky_sh),
            ff: live_rows(&self.ff, &p.fireflies.pos, p.fireflies.count as usize),
            cloud_grid: self.cloud_grid,
            sway_mv_base: self.sway_mv_base,
            el_meta: self.el_meta,
            el_a: copy_rows(&self.el_a),
            el_b: copy_rows(&self.el_b),
            split: self.split,
        };
        cb
    }
}

/// The words of a row.
pub open spec fn row_words(r: Row4) -> Seq<u32> {
    seq![r.x, r.y, r.z, r.w]
}

/// The words of a table, row by row.
pub open spec fn table_words(rows: Seq<Row4>) -> Seq<u32>
    decreases rows.len(),
{
    if rows.len() == 0 {
        Seq::empty()
    } else {
        table_words(rows.drop_last()) + row_words(rows.last())
    }
}

/// The four bytes of a word, low byte first.
pub open spec fn word_bytes(w: u32) -> Seq<u8> {
    seq![
        (w % 256) as u8,
        (w / 256 % 256) as u8,
        (w / 65536 % 256) as u8,
        (w / 16777216) as u8,
    ]
}

/// The byte image of a word sequence.
pub open spec fn le_bytes(words: Seq<u32>) -> Seq<u8>
    decreases words.len(),
{
    if words.len() == 0 {
        Seq::empty()
    } else {
        le_bytes(words.drop_last()) + word_bytes(words.last())
    }
}

proof fn lemma_le_bytes_len(words: Seq<u32>)
    ensures
        le_bytes(words).len() == 4 * words.len(),
    decreases words.len(),
{
    if words.len() > 0 {
        lemma_le_bytes_len(words.drop_last());
    }
}

proof fn lemma_table_words_len(rows: Seq<Row4>)
    ensures
        table_words(rows).len() == 4 * rows.len(),
    decreases rows.len(),
{
    if rows.len() > 0 {
        lemma_table_words_len(rows.drop_last());
    }
}

fn push_row(out: &mut Vec<u32>, r: &Row4)
    ensures
        final(out)@ == old(out)@ + row_words(*r),
{
    out.push(r.x);
    out.push(r.y);
    out.push(r.z);
    out.push(r.w);
    assert(out@ =~= old(out)@ + row_words(*r));
}

fn push_table(out: &mut Vec<u32>, rows: &Vec<Row4>)
    ensures
        final(out)@ == old(out)@ + table_words(rows@),
{
    let n: usize = rows.len();
    let mut i: usize = 0;
    assert(rows@.take(0) =~= Seq::<Row4>::empty());
    assert(out@ =~= old(out)@ + table_words(rows@.take(0)));
    while i < n
        invariant
            i <= n,
            n == rows@.len(),
            out@ == old(out)@ + table_words(rows@.take(i as int)),
        decreases n - i,
    {
        push_row(out, &rows[i]);
        i = i + 1;
        proof {
            assert(rows@.take(i as int).drop_last() =~= rows@.take(i - 1));
            assert(out@ =~= old(out)@ + table_words(rows@.take(i as int)));
        }
    }
    assert(rows@.take(n as int) =~= rows@);
}

impl FrameCb {
    /// The words before the tables, in layout order.
    pub open spec fn head_words(self) -> Seq<u32> {
        row_words(self.cam_origin) + row_words(self.cam_forward) + row_words(self.cam_right)
            + row_words(self.cam_up) + row_words(self.sun) + row_words(self.sun_e) + row_words(
            self.sun_l,
        ) + seq![self.rw, self.rh, self.frame, self.flags] + seq![
            self.shadow_samples,
            self.ao_samples,
            self.reflections,
            self.ff_scale,
        ] + seq![self.frame_jitter.0, self.frame_jitter.1, self.pixel_cone, self.sky_scale] + seq![
            self.cap_tile,
            self.cap_leaf,
            self.cap_sky,
            self.cap_cut,
        ] + seq![self.fb_mode, self.fb_depth, self.hemi_batch, self.cap_hemi_pt] + seq![
            self.cap_hemi_cell,
            self.cap_hemi_leaf,
            self.cap_hemi_cut,
            self.ff_count,
        ] + row_words(self.prev_origin) + row_words(self.prev_forward) + row_words(self.prev_right)
            + row_words(self.prev_up) + seq![
            self.spp,
            self.probe_sample,
            self.night,
            self.height_max,
        ]
    }

    /// The block's words in layout order.
    pub open spec fn words(self) -> Seq<u32> {
        self.head_words() + table_words(self.jitters@) + table_words(self.sky_sh@) + table_words(
            self.ff@,
        ) + row_words(self.cloud_grid) + row_words(self.sway_mv_base) + row_words(self.el_meta)
            + table_words(self.el_a@) + table_words(self.el_b@) + row_words(self.split)
    }

    fn push_head(&self, out: &mut Vec<u32>)
        ensures
            final(out)@ == old(out)@ + self.head_words(),
    {
        push_row(out, &self.cam_origin);
        push_row(out, &self.cam_forward);
        push_row(out, &self.cam_right);
        push_row(out, &self.cam_up);
        push_row(out, &self.sun);
        push_row(out, &self.sun_e);
        push_row(out, &self.sun_l);
        push_row(out, &Row4 { x: self.rw, y: self.rh, z: self.frame, w: self.flags });
        push_row(
            out,
            &Row4 {
                x: self.shadow_samples,
                y: self.ao_samples,
                z: self.reflections,
                w: self.ff_scale,
            },
        );
        push_row(
            out,
            &Row4 {
                x: self.frame_jitter.0,
                y: self.frame_jitter.1,
                z: self.pixel_cone,
                w: self.sky_scale,
            },
        );
        push_row(
            out,
            &Row4 { x: self.cap_tile, y: self.cap_leaf, z: self.cap_sky, w: self.cap_cut },
        );
        push_row(
            out,
            &Row4 { x: self.fb_mode, y: self.fb_depth, z: self.hemi_batch, w: self.cap_hemi_pt },
        );
        push_row(
            out,
            &Row4 {
                x: self.cap_hemi_cell,
                y: self.cap_hemi_leaf,
                z: self.cap_hemi_cut,
                w: self.ff_count,
            },
        );
        push_row(out, &self.prev_origin);
        push_row(out, &self.prev_forward);
        push_row(out, &self.prev_right);
        push_row(out, &self.prev_up);
        push_row(
            out,
            &Row4 { x: self.spp, y: self.probe_sample, z: self.night, w: self.height_max },
        );
        assert(out@ =~= old(out)@ + self.head_words());
    }

    /// The block as the shaders read it: its words in layout order, low byte
    /// first.
    pub fn bytes(&self) -> (b: Vec<u8>)
        ensures
            b@ == le_bytes(self.words()),
            b@.len() == 352 + 16 * (self.jitters@.len() + self.sky_sh@.len() + self.ff@.len()
                + self.el_a@.len() + self.el_b@.len()),
    {
        let mut words: Vec<u32> = Vec::new();
        self.push_head(&mut words);
        push_table(&mut words, &self.jitters);
        push_table(&mut words, &self.sky_sh);
        push_table(&mut words, &self.ff);
        push_row(&mut words, &self.cloud_grid);
        push_row(&mut words, &self.sway_mv_base);
        push_row(&mut words, &self.el_meta);
        push_table(&mut words, &self.el_a);
        push_table(&mut words, &self.el_b);
        push_row(&mut words, &self.split);
        assert(words@ =~= self.words());
        let mut out: Vec<u8> = Vec::new();
        let n: usize = words.len();
        let mut i: usize = 0;
        assert(words@.take(0) =~= Seq::<u32>::empty());
        while i < n
            invariant
                i <= n,
                n == words@.len(),
                out@ == le_bytes(words@.take(i as int)),
            decreases n - i,
        {
            let w: u32 = words[i];
            out.push((w % 256) as u8);
            out.push((w / 256 % 256) as u8);
            out.push((w / 65536 % 256) as u8);
            out.push((w / 16777216) as u8);
            i = i + 1;
            proof {
                assert(words@.take(i as int).drop_last() =~= words@.take(i - 1));
                assert(out@ =~= le_bytes(words@.take(i as int)));
            }
        }
        proof {
            assert(words@.take(n as int) =~= words@);
            lemma_le_bytes_len(words@);
            lemma_table_words_len(self.jitters@);
            lemma_table_words_len(self.sky_sh@);
            lemma_table_words_len(self.ff@);
            lemma_table_words_len(self.el_a@);
            lemma_table_words_len(self.el_b@);
        }
        out
    }
}

/// A frame's flags keep their dependencies: the signal flag brings the guide
/// half, which brings the pack; the denoiser's fold and the exact weights need
/// the signals; the restoration and the cap need the guide half, and the
/// diagnostic strength needs the cap.
pub proof fn pack_flags_depend_on_the_pack(
    cb: FrameCb,
    base: FrameCb,
    p: FrameParams,
    w: Wiring,
    l: FrameLevers,
    halton: Seq<(u32, u32)>,
)
    requires
        cb.frames(base, p, w, l, halton),
    ensures
        has_flag(cb.flags, FLAG_FSR_SIG) ==> has_flag(cb.flags, FLAG_GBUF_EXT),
        has_flag(cb.flags, FLAG_GBUF_EXT) ==> has_flag(cb.flags, FLAG_GBUF),
        has_flag(cb.flags, FLAG_SKY_EXT_SKIP) ==> has_flag(cb.flags, FLAG_GBUF),
        has_flag(cb.flags, FLAG_NRD_GI) ==> has_flag(cb.flags, FLAG_FSR_SIG),
        has_flag(cb.flags, FLAG_REMOD_EXACT) ==> has_flag(cb.flags, FLAG_NRD_GI),
        has_flag(cb.flags, FLAG_NRD_REJITTER) ==> has_flag(cb.flags, FLAG_GBUF_EXT),
        has_flag(cb.flags, FLAG_NRD_RCLAMP) ==> has_flag(cb.flags, FLAG_GBUF_EXT),
        has_flag(cb.flags, FLAG_NRD_RCLAMP_HARD) ==> has_flag(cb.flags, FLAG_NRD_RCLAMP),
        !w.gbuf_full ==> !has_flag(cb.flags, FLAG_GBUF) && !has_flag(cb.flags, FLAG_GBUF_EXT),
{
}

/// Exactly one mechanism delivers emissive light: a frame with full global
/// illumination drops the cluster lights, and only frames without a bounce
/// tier run the real-time bounce. A scene without clusters never sets the
/// cluster flag, and one without height data never the relief flag.
pub proof fn bounce_tiers_stand_down(
    cb: FrameCb,
    base: FrameCb,
    p: FrameParams,
    w: Wiring,
    l: FrameLevers,
    halton: Seq<(u32, u32)>,
)
    requires
        cb.frames(base, p, w, l, halton),
    ensures
        cb.fb_mode == 2 ==> !has_flag(cb.flags, FLAG_EMISSIVE),
        cb.fb_mode > 0 ==> !has_flag(cb.flags, FLAG_RTGI) && cb.spp == 1,
        base.el_meta.x == 0 ==> !has_flag(cb.flags, FLAG_EMISSIVE),
        base.height_max == 0 ==> !has_flag(cb.flags, FLAG_HEIGHT),
        p.fireflies.count == 0 ==> !has_flag(cb.flags, FLAG_FIREFLIES) && cb.ff@ == base.ff@,
{
    if p.fireflies.count == 0 {
        assert(cb.ff@ =~= base.ff@);
    }
}

/// Every frame's probe is one of its samples, and its samples fit the table.
pub proof fn probe_is_a_sample(
    cb: FrameCb,
    base: FrameCb,
    p: FrameParams,
    w: Wiring,
    l: FrameLevers,
    halton: Seq<(u32, u32)>,
)
    requires
        base.wf(),
        cb.frames(base, p, w, l, halton),
    ensures
        cb.probe_sample < cb.spp <= 2 * cb.jitters@.len(),
        1 <= cb.fb_depth <= HEMI_MAX_DEPTH,
{
}

/// Arming the sway correction sets its flag and no other.
pub proof fn sway_flag_stands_alone(flags: u32, flag: u32)
    ensures
        has_flag(flags | FLAG_SWAY_MV, FLAG_SWAY_MV),
        flag & FLAG_SWAY_MV == 0 ==> (has_flag(flags | FLAG_SWAY_MV, flag) <==> has_flag(
            flags,
            flag,
        )),
{
    assert((flags | 8192) & 8192 != 0) by (bit_vector);
    if flag & FLAG_SWAY_MV == 0 {
        assert((flags | 8192) & flag == flags & flag) by (bit_vector)
            requires
                flag & 8192 == 0,
        ;
    }
}

/// A block fits its ring slot as long as its tables take what the slot has
/// left: the jitter rows, the fireflies and two rows a cluster.
pub proof fn block_fits_its_slot(cb: FrameCb)
    requires
        cb.wf(),
        16 * (cb.jitters@.len() + cb.ff@.len() + 2 * cb.el_a@.len()) <= 4112,
    ensures
        le_bytes(cb.words()).len() <= CB_STRIDE,
        le_bytes(cb.words()).len() % 16 == 0,
{
    lemma_le_bytes_len(cb.words());
    lemma_table_words_len(cb.jitters@);
    lemma_table_words_len(cb.sky_sh@);
    lemma_table_words_len(cb.ff@);
    lemma_table_words_len(cb.el_a@);
    lemma_table_words_len(cb.el_b@);
}

/// Nothing is lost in packing: words with one byte image are the same words.
pub proof fn packing_loses_nothing(a: Seq<u32>, b: Seq<u32>)
    requires
        le_bytes(a) == le_bytes(b),
    ensures
        a == b,
    decreases a.len(),
{
    lemma_le_bytes_len(a);
    lemma_le_bytes_len(b);
    if a.len() > 0 {
        let (x, y) = (le_bytes(a.drop_last()), le_bytes(b.drop_last()));
        lemma_le_bytes_len(a.drop_last());
        lemma_le_bytes_len(b.drop_last());
        let n = x.len() as int;
        let (s, t) = (le_bytes(a), le_bytes(b));
        assert(x =~= s.take(n));
        assert(y =~= t.take(n));
        packing_loses_nothing(a.drop_last(), b.drop_last());
        let (u, v) = (a.last(), b.last());
        assert(s[n] == word_bytes(u)[0] && s[n + 1] == word_bytes(u)[1] && s[n + 2]
            == word_bytes(u)[2] && s[n + 3] == word_bytes(u)[3]);
        assert(t[n] == word_bytes(v)[0] && t[n + 1] == word_bytes(v)[1] && t[n + 2]
            == word_bytes(v)[2] && t[n + 3] == word_bytes(v)[3]);
        assert(u == v);
        assert(a =~= a.drop_last().push(u));
        assert(b =~= b.drop_last().push(v));
    } else {
        assert(a =~= b);
    }
}

} // verus!
