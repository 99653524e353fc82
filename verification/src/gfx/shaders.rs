//! Assembly of the shader units from source texts and session levers.
use crate::gfx::vocab::Vendor;
use crate::scene::Scene;
use crate::text;
use vstd::prelude::*;
use vstd::string::*;

verus! {

/// Counter slots of the trace kernels.
pub const CTR_TILE_A: u32 = 0;
pub const CTR_TILE_B: u32 = 1;
pub const CTR_LEAF: u32 = 2;
pub const CTR_SKY: u32 = 3;
pub const CTR_CUT: u32 = 4;
pub const CTR_OVERFLOW: u32 = 5;
pub const CTR_CUT_FALLBACK: u32 = 6;
pub const CTR_SPLIT: u32 = 7;
pub const CTR_BLOCKED: u32 = 8;
pub const CTR_HEMI_PT: u32 = 9;
pub const CTR_HEMI_A: u32 = 10;
pub const CTR_HEMI_B: u32 = 11;
pub const CTR_HEMI_LEAF: u32 = 12;
pub const CTR_HEMI_CUT: u32 = 13;
pub const CTR_HEMI_EMPTY: u32 = 14;
pub const CTR_HEMI_RAYS: u32 = 15;
pub const CTR_V_FALSE_EMPTY: u32 = 16;
pub const CTR_V_TMIN: u32 = 17;
pub const CTR_ALPHA_REJ: u32 = 18;
pub const CTR_HEIGHT_REJ: u32 = 19;
pub const CTR_TRANS_PASS: u32 = 20;
pub const CTR_FRONTIER_HANDLES: u32 = 21;
pub const CTR_FRONTIER_RAYS: u32 = 22;
pub const CTR_FRONTIER_ENTRIES: u32 = 23;
pub const CTR_SKY_PX: u32 = 24;
pub const CTR_RTGI_RAYS: u32 = 25;
/// Slots that a frame clears and reads.
pub const CTR_COUNT: u32 = 26;

/// Slots of the wave-width report, past everything a frame clears.
pub const CTR_W_LEAF: u32 = 26;

pub const CTR_W_SKY: u32 = 27;

pub const CTR_W_LEVEL: u32 = 28;

pub const CTR_W_HEMI: u32 = 29;

pub const CTR_W_REFERENCE: u32 = 30;

/// All slots.
pub const CTR_TOTAL: u32 = 31;

/// Bytes of one leaf record.
pub const LEAF_REC_BYTES: u64 = 24;

/// Header word of a leaf frontier, and the token that stands for the root.
pub const FRONTIER_COOKIE_V1: u32 = 0x4652_4301;

pub const FRONTIER_ROOT_TOKEN: u32 = 0xffff_ffff;

/// Thread-group width of the leaf kernel.
pub const LEAF_GROUP: u32 = 256;

/// Thread-group width of the sky fill, and how many groups share one record.
pub const SKY_GROUP: u32 = 64;

pub const SKY_SPLIT: u32 = 128;

/// How many of the shallowest quadtree levels run one group per tile.
pub const WIDE_LEVELS: u32 = 7;

/// Entries of a lane's stack where nothing else is asked for.
pub const LANE_STACK: u32 = 16;

/// How a setting read from outside was taken.
#[derive(Clone, Copy, Debug, PartialEq, Eq, Structural)]
pub enum Reading {
    /// Nothing was set.
    Unset,
    /// The value was legal and is in force.
    Taken,
    /// The value was not legal; the default is in force.
    Refused,
}

/// A power of two from `lo` up to 256.
pub open spec fn is_width(n: u32, lo: u32, hi: u32) -> bool {
    lo <= n <= hi && (n == 8 || n == 16 || n == 32 || n == 64 || n == 128 || n == 256)
}

/// What a width setting comes to: a legal number, or the default.
pub open spec fn width_reading(var: Option<&str>, lo: u32, hi: u32, default: u32) -> (u32, Reading) {
    match var {
        None => (default, Reading::Unset),
        Some(v) => match text::reads_as(v@) {
            Some(n) if is_width(n, lo, hi) => (n, Reading::Taken),
            _ => (default, Reading::Refused),
        },
    }
}

fn read_width(var: Option<&str>, lo: u32, hi: u32, default: u32) -> (r: (u32, Reading))
    ensures
        r == width_reading(var, lo, hi, default),
{
    match var {
        None => (default, Reading::Unset),
        Some(v) => match text::parse_u32(v) {
            Some(n) => {
                let width: bool = n == 8 || n == 16 || n == 32 || n == 64 || n == 128 || n == 256;
                if lo <= n && n <= hi && width {
                    (n, Reading::Taken)
                } else {
                    (default, Reading::Refused)
                }
            },
            None => (default, Reading::Refused),
        },
    }
}

/// Thread-group width of the leaf kernel, as a setting may change it: a power
/// of two in 8..=256.
pub fn leaf_group(var: Option<&str>) -> (r: (u32, Reading))
    ensures
        r == width_reading(var, 8, 256, LEAF_GROUP),
{
    read_width(var, 8, 256, LEAF_GROUP)
}

/// Entries of a lane's stack, as a setting may change them: a power of two in
/// 8..=64.
pub fn lane_stack(var: Option<&str>) -> (r: (u32, Reading))
    ensures
        r == width_reading(var, 8, 64, LANE_STACK),
{
    read_width(var, 8, 64, LANE_STACK)
}

/// The level below which every level runs one group per tile, as a setting may
/// change it: any number.
pub fn wide_levels(var: Option<&str>) -> (r: (u32, Reading))
    ensures
        r == match var {
            None => (WIDE_LEVELS, Reading::Unset),
            Some(v) => match text::reads_as(v@) {
                Some(n) => (n, Reading::Taken),
                None => (WIDE_LEVELS, Reading::Refused),
            },
        },
{
    match var {
        None => (WIDE_LEVELS, Reading::Unset),
        Some(v) => match text::parse_u32(v) {
            Some(n) => (n, Reading::Taken),
            None => (WIDE_LEVELS, Reading::Refused),
        },
    }
}

/// The stack-layout line: empty for the depth-major default.
pub fn stack_layout_def(var: Option<&str>) -> (r: (&'static str, Reading))
    ensures
        match var {
            None => r.0@ == ""@ && r.1 == Reading::Unset,
            Some(v) => if v@ == "depth"@ {
                r.0@ == ""@ && r.1 == Reading::Unset
            } else if v@ == "lane"@ {
                r.0@ == "\n#define STACK_LANE_MAJOR 1"@ && r.1 == Reading::Taken
            } else {
                r.0@ == ""@ && r.1 == Reading::Refused
            },
        },
{
    match var {
        None => ("", Reading::Unset),
        Some(v) => if text::same(v, "depth") {
            ("", Reading::Unset)
        } else if text::same(v, "lane") {
            ("\n#define STACK_LANE_MAJOR 1", Reading::Taken)
        } else {
            ("", Reading::Refused)
        },
    }
}

/// Whether the wave-width report is armed: only by `1`.
pub fn width_probe_on(var: Option<&str>) -> (r: (bool, Reading))
    ensures
        r == match var {
            None => (false, Reading::Unset),
            Some(v) => if v@ == "1"@ {
                (true, Reading::Taken)
            } else {
                (false, Reading::Refused)
            },
        },
{
    match var {
        None => (false, Reading::Unset),
        Some(v) => if text::same(v, "1") {
            (true, Reading::Taken)
        } else {
            (false, Reading::Refused)
        },
    }
}

/// The wave-ticket mode: `1` and `chs` are known, everything else is off.
pub fn waveviz_env(var: Option<&str>) -> (r: (u8, Reading))
    ensures
        r == match var {
            None => (0u8, Reading::Unset),
            Some(v) => if v@ == "1"@ {
                (1u8, Reading::Taken)
            } else if v@ == "chs"@ {
                (2u8, Reading::Taken)
            } else {
                (0u8, Reading::Refused)
            },
        },
{
    match var {
        None => (0, Reading::Unset),
        Some(v) => if text::same(v, "1") {
            (1, Reading::Taken)
        } else if text::same(v, "chs") {
            (2, Reading::Taken)
        } else {
            (0, Reading::Refused)
        },
    }
}

/// The number behind an optional prefix, and whether the prefix was there.
pub open spec fn ballast_split(v: Seq<char>) -> (bool, Seq<char>) {
    if v.len() >= 4 && v.take(4) == "dxr:"@ {
        (true, v.skip(4))
    } else {
        (false, v)
    }
}

/// What the ballast setting comes to: live floats in the reference kernel and
/// in the ray-generation shader, of which one at most is not zero.
pub open spec fn ballast_reading(var: Option<&str>) -> ((u32, u32), Reading) {
    match var {
        None => ((0, 0), Reading::Unset),
        Some(v) => {
            let (dxr, num) = ballast_split(v@);
            match text::reads_as(num) {
                Some(n) if 1 <= n <= 256 => (
                    if dxr {
                        (0, n)
                    } else {
                        (n, 0)
                    },
                    Reading::Taken,
                ),
                _ => ((0, 0), Reading::Refused),
            }
        },
    }
}

/// Read the ballast setting: `N` or `dxr:N`, N in 1..=256.
pub fn ballast_parsed(var: Option<&str>) -> (r: ((u32, u32), Reading))
    ensures
        r == ballast_reading(var),
{
    match var {
        None => ((0, 0), Reading::Unset),
        Some(v) => {
            let n: usize = v.unicode_len();
            proof {
                reveal_strlit("dxr:");
            }
            let dxr: bool = n >= 4 && text::same(v.substring_char(0, 4), "dxr:");
            let num: Option<u32> = if dxr {
                let rest: &str = v.substring_char(4, n);
                assert(v@.subrange(0, 4) == v@.take(4));
                assert(v@.subrange(4, n as int) == v@.skip(4));
                text::parse_u32(rest)
            } else {
                assert(n >= 4 ==> v@.subrange(0, 4) == v@.take(4));
                text::parse_u32(v)
            };
            match num {
                Some(k) => if 1 <= k && k <= 256 {
                    (if dxr {
                        (0, k)
                    } else {
                        (k, 0)
                    }, Reading::Taken)
                } else {
                    ((0, 0), Reading::Refused)
                },
                None => ((0, 0), Reading::Refused),
            }
        },
    }
}

/// Session state that the command line and the keys change.
pub struct Levers {
    /// Cells per cloud wavelength of the cloud-shadow cache; 0 is off.
    pub cloud_shadow: u32,
    /// Pixel pitch of the cloud lattice; 1 is off.
    pub sky_lod: u32,
    /// Shallow levels may run one group per tile.
    pub wide_levels_on: bool,
    /// Rays are traversed in software.
    pub sw_rays: bool,
    /// Wave tickets: 0 off, 1 on, 2 in the closest-hit stage.
    pub waveviz_mode: u8,
    /// The ticket overlay is shown.
    pub waveviz_live: bool,
    /// Ablation tags, as they were given.
    pub abl: String,
    /// The wave-width report is armed.
    pub width_probe: bool,
    /// Live floats in the reference kernel and in the ray-generation shader.
    pub ballast: (u32, u32),
    pub leaf_group: u32,
    pub wide_levels: u32,
    pub lane_stack: u32,
    /// The lane stack is laid out lane by lane.
    pub stack_lane_major: bool,
}

impl Levers {
    /// The state before anything was set.
    pub fn new() -> (r: Levers)
        ensures
            r.cloud_shadow == 16,
            r.sky_lod == 4,
            r.wide_levels_on,
            !r.sw_rays,
            r.waveviz_mode == 0,
            !r.waveviz_live,
            r.abl@ == Seq::<char>::empty(),
            !r.width_probe,
            r.ballast == (0u32, 0u32),
            r.leaf_group == LEAF_GROUP,
            r.wide_levels == WIDE_LEVELS,
            r.lane_stack == LANE_STACK,
            !r.stack_lane_major,
    {
        Levers {
            cloud_shadow: 16,
            sky_lod: 4,
            wide_levels_on: true,
            sw_rays: false,
            waveviz_mode: 0,
            waveviz_live: false,
            abl: String::new(),
            width_probe: false,
            ballast: (0, 0),
            leaf_group: LEAF_GROUP,
            wide_levels: WIDE_LEVELS,
            lane_stack: LANE_STACK,
            stack_lane_major: false,
        }
    }
}

/// What the rest of the renderer contributes to the shader texts. Numbers with
/// a fraction come as they are to be printed.
pub struct Host {
    /// Rays may start from the tile's cut.
    pub cut_seed_rays: bool,
    /// Relief is traced.
    pub height_armed: bool,
    /// Traced global illumination is on.
    pub rtgi: bool,
    /// Triangles per acceleration structure; `None` is one structure.
    pub max_prims: Option<u32>,
    /// The wide tree is on.
    pub ftree_enabled: bool,
    /// Edge of a leaf tile in pixels.
    pub leaf_tile: u32,
    /// Entries of the software traversal stack.
    pub trav_stack: u32,
    pub max_spp: u32,
    pub max_fireflies: u32,
    pub max_emissive_lights: u32,
    pub detail_strength: String,
    pub detail_ao_strength: String,
    /// Sub-pixel offsets of the samples, as many as there can be samples.
    pub jitter: Vec<(String, String)>,
}

impl Host {
    /// Every sample has its offset.
    pub open spec fn wf(&self) -> bool {
        self.jitter@.len() == self.max_spp
    }
}

/// Set the cloud-shadow cache resolution (cells per cloud wavelength; 0 is
/// off).
pub fn set_cloud_shadow(l: &mut Levers, n: u32)
    ensures
        final(l).cloud_shadow == n,
        *final(l) == (Levers { cloud_shadow: n, ..*old(l) }),
{
    l.cloud_shadow = n;
}

/// The cloud-shadow cache resolution.
pub fn cloud_shadow_n(l: &Levers) -> (r: u32)
    ensures
        r == l.cloud_shadow,
{
    l.cloud_shadow
}

/// Set the pitch of the cloud lattice (a power of two; 1 is off).
pub fn set_sky_lod(l: &mut Levers, k: u32)
    ensures
        final(l).sky_lod == k,
        *final(l) == (Levers { sky_lod: k, ..*old(l) }),
{
    l.sky_lod = k;
}

/// The pitch of the cloud lattice.
pub fn sky_lod(l: &Levers) -> (r: u32)
    ensures
        r == l.sky_lod,
{
    l.sky_lod
}

/// `tile` doubled `d` times.
pub open spec fn doubled(tile: int, d: nat) -> int
    decreases d,
{
    if d == 0 {
        tile
    } else {
        2 * doubled(tile, (d - 1) as nat)
    }
}

/// Depth of the full quadtree: the least number of doublings that take the
/// leaf tile past the wider screen axis.
pub fn depth_full(leaf_tile: u32, rw: u32, rh: u32) -> (d: u32)
    requires
        leaf_tile >= 1,
    ensures
        doubled(leaf_tile as int, d as nat) >= rw,
        doubled(leaf_tile as int, d as nat) >= rh,
        d > 0 ==> doubled(leaf_tile as int, (d - 1) as nat) < rw || doubled(
            leaf_tile as int,
            (d - 1) as nat,
        ) < rh,
        d <= 32,
{
    let m: u64 = if rw >= rh {
        rw as u64
    } else {
        rh as u64
    };
    let mut d: u32 = 0;
    let mut s: u64 = leaf_tile as u64;
    proof {
        vstd::arithmetic::power2::lemma2_to64();
    }
    while s < m
        invariant
            leaf_tile >= 1,
            m <= 0xffff_ffff,
            m == rw || m == rh,
            m >= rw,
            m >= rh,
            s == doubled(leaf_tile as int, d as nat),
            s >= vstd::arithmetic::power2::pow2(d as nat),
            s <= 0x1_ffff_ffff,
            d <= 32,
            d > 0 ==> doubled(leaf_tile as int, (d - 1) as nat) < m,
        decreases 32 - d,
    {
        proof {
            vstd::arithmetic::power2::lemma2_to64();
            vstd::arithmetic::power2::lemma_pow2_unfold((d + 1) as nat);
            if d == 32 {
                assert(vstd::arithmetic::power2::pow2(32) == 0x1_0000_0000);
            }
        }
        s = s * 2;
        d = d + 1;
    }
    d
}

/// Rays are traversed in software.
pub fn sw_rays(l: &Levers) -> (r: bool)
    ensures
        r == l.sw_rays,
{
    l.sw_rays
}

/// Software rays start from the tile's cut.
pub fn sw_rays_leaf(l: &Levers, h: &Host) -> (r: bool)
    ensures
        r == (l.sw_rays && h.cut_seed_rays),
{
    sw_rays(l) && h.cut_seed_rays
}

/// The ablation tags hold this one.
pub open spec fn has_tag(l: &Levers, tag: &str) -> bool {
    text::has(l.abl@, tag@)
}

/// Whether an ablation tag was given.
pub fn abl_has(l: &Levers, tag: &str) -> (r: bool)
    ensures
        r == has_tag(l, tag),
{
    text::contains(l.abl.as_str(), tag)
}

/// `line` where the condition holds, else nothing.
pub open spec fn line_if(on: bool, line: &str) -> Seq<char> {
    if on {
        line@
    } else {
        ""@
    }
}

/// The cut-out define: some material is cut out, unless ablated.
pub fn alpha_defs(scene: &Scene, l: &Levers) -> (r: &'static str)
    ensures
        r@ == line_if(scene.any_alpha && !has_tag(l, "noalpha"), "#define ALPHA_CUTOUT 1"),
{
    if scene.any_alpha && !abl_has(l, "noalpha") {
        "#define ALPHA_CUTOUT 1"
    } else {
        ""
    }
}

/// The empty-scene define: no triangle at all.
pub fn empty_defs(scene: &Scene) -> (r: &'static str)
    ensures
        r@ == line_if(scene.indices@.len() == 0, "#define SCENE_EMPTY 1"),
{
    if scene.indices.len() == 0 {
        "#define SCENE_EMPTY 1"
    } else {
        ""
    }
}

/// The relief define: some material carries relief and relief is traced.
pub fn height_defs(scene: &Scene, l: &Levers, h: &Host) -> (r: &'static str)
    ensures
        r@ == line_if(scene.any_height && h.height_armed && !has_tag(l, "noheight"), "#define HEIGHTFIELD 1"),
{
    if scene.any_height && h.height_armed && !abl_has(l, "noheight") {
        "#define HEIGHTFIELD 1"
    } else {
        ""
    }
}

/// The tinted-shadow define: some material transmits light.
pub fn trans_defs(scene: &Scene, l: &Levers) -> (r: &'static str)
    ensures
        r@ == line_if(scene.any_transmissive && !has_tag(l, "notrans"), "#define TRANS_SHADOW 1"),
{
    if scene.any_transmissive && !abl_has(l, "notrans") {
        "#define TRANS_SHADOW 1"
    } else {
        ""
    }
}

/// The traced-global-illumination define.
pub fn rtgi_defs(h: &Host) -> (r: &'static str)
    ensures
        r@ == line_if(h.rtgi, "#define RTGI 1"),
{
    if h.rtgi {
        "#define RTGI 1"
    } else {
        ""
    }
}

/// The candidate-interval define, for one vendor only.
pub fn cand_defs(vendor: Vendor, l: &Levers) -> (r: &'static str)
    ensures
        r@ == line_if(vendor == Vendor::Amd && !has_tag(l, "nocandtmin"), "#define CAND_TMIN0 1"),
{
    if vendor == Vendor::Amd && !abl_has(l, "nocandtmin") {
        "#define CAND_TMIN0 1"
    } else {
        ""
    }
}

/// The split-structure define.
pub fn blas_defs(h: &Host) -> (r: &'static str)
    ensures
        r@ == line_if(h.max_prims is Some, "#define BLAS_SPLIT 1"),
{
    if h.max_prims.is_some() {
        "#define BLAS_SPLIT 1"
    } else {
        ""
    }
}

/// The sway-motion define.
pub fn sway_defs(armed: bool) -> (r: &'static str)
    ensures
        r@ == line_if(armed, "#define SWAY_MV 1"),
{
    if armed {
        "#define SWAY_MV 1"
    } else {
        ""
    }
}

/// Some candidate hit may be rejected: a cut-out, relief or a tinted shadow is
/// compiled in.
pub fn non_opaque(scene: &Scene, l: &Levers, h: &Host) -> (r: bool)
    ensures
        r == ((scene.any_alpha && !has_tag(l, "noalpha")) || (scene.any_height && h.height_armed
            && !has_tag(l, "noheight")) || (scene.any_transmissive && !has_tag(l, "notrans"))),
{
    proof {
        reveal_strlit("");
        reveal_strlit("#define ALPHA_CUTOUT 1");
        reveal_strlit("#define HEIGHTFIELD 1");
        reveal_strlit("#define TRANS_SHADOW 1");
    }
    !alpha_defs(scene, l).is_empty() || !height_defs(scene, l, h).is_empty() || !trans_defs(
        scene,
        l,
    ).is_empty()
}

/// The wave-width defines.
pub open spec fn width_text(l: &Levers) -> Seq<char> {
    if l.width_probe {
        "#define WIDTH_PROBE 1\n#define CTR_W_REFERENCE "@ + text::dec(CTR_W_REFERENCE as nat) + "u"@
    } else {
        Seq::empty()
    }
}

/// The wave-width defines; empty where the report is off.
pub fn width_defs(l: &Levers) -> (r: String)
    ensures
        r@ == width_text(l),
{
    if l.width_probe {
        text::with_number(
            "#define WIDTH_PROBE 1\n#define CTR_W_REFERENCE ",
            CTR_W_REFERENCE as u64,
            "u",
        )
    } else {
        String::new()
    }
}

/// Live floats in the reference kernel.
pub fn ballast_ref_n(l: &Levers) -> (r: u32)
    ensures
        r == l.ballast.0,
{
    l.ballast.0
}

/// Live floats in the ray-generation shader.
pub fn ballast_dxr_n(l: &Levers) -> (r: u32)
    ensures
        r == l.ballast.1,
{
    l.ballast.1
}

/// The ballast define; nothing for zero.
pub open spec fn ballast_text(n: u32) -> Seq<char> {
    if n == 0 {
        Seq::empty()
    } else {
        "#define BALLAST_N "@ + text::dec(n as nat) + "u"@
    }
}

fn ballast_of(n: u32) -> (r: String)
    ensures
        r@ == ballast_text(n),
{
    if n == 0 {
        String::new()
    } else {
        text::with_number("#define BALLAST_N ", n as u64, "u")
    }
}

/// The reference kernel's ballast define.
pub fn ballast_defs(l: &Levers) -> (r: String)
    ensures
        r@ == ballast_text(l.ballast.0),
{
    ballast_of(ballast_ref_n(l))
}

/// The ray-generation shader's ballast define.
pub fn ballast_dxr_defs(l: &Levers) -> (r: String)
    ensures
        r@ == ballast_text(l.ballast.1),
{
    ballast_of(ballast_dxr_n(l))
}

/// Wave tickets are compiled in.
pub fn waveviz_on(l: &Levers) -> (r: bool)
    ensures
        r == (l.waveviz_mode != 0),
{
    l.waveviz_mode != 0
}

/// Wave tickets come from the closest-hit stage.
pub fn waveviz_chs(l: &Levers) -> (r: bool)
    ensures
        r == (l.waveviz_mode == 2),
{
    l.waveviz_mode == 2
}

/// Set the wave-ticket mode.
pub fn set_waveviz(l: &mut Levers, mode: u8)
    ensures
        *final(l) == (Levers { waveviz_mode: mode, ..*old(l) }),
{
    l.waveviz_mode = mode;
}

/// The ticket overlay is shown.
pub fn waveviz_live(l: &Levers) -> (r: bool)
    ensures
        r == l.waveviz_live,
{
    l.waveviz_live
}

/// Show or drop the ticket overlay.
pub fn set_waveviz_live(l: &mut Levers, on: bool)
    ensures
        *final(l) == (Levers { waveviz_live: on, ..*old(l) }),
{
    l.waveviz_live = on;
}

/// The wave-ticket define.
pub open spec fn waveviz_text(l: &Levers) -> Seq<char> {
    if l.waveviz_mode != 0 {
        "#define WAVEVIZ 1"@
    } else {
        Seq::empty()
    }
}

/// The wave-ticket define; empty where tickets are off.
pub fn waveviz_defs(l: &Levers) -> (r: String)
    ensures
        r@ == waveviz_text(l),
{
    if waveviz_on(l) {
        "#define WAVEVIZ 1".to_owned()
    } else {
        String::new()
    }
}

/// One line with the width every kernel ran at.
pub fn format_width_report(c: &[u32]) -> (r: String)
    requires
        c@.len() >= CTR_TOTAL,
    ensures
        r@ == "width (gpu): leaf="@ + text::dec(c@[CTR_W_LEAF as int] as nat) + " sky="@ + text::dec(
            c@[CTR_W_SKY as int] as nat,
        ) + " level="@ + text::dec(c@[CTR_W_LEVEL as int] as nat) + " hemi="@ + text::dec(
            c@[CTR_W_HEMI as int] as nat,
        ) + " reference="@ + text::dec(c@[CTR_W_REFERENCE as int] as nat),
{
    let mut r: String = "width (gpu): leaf=".to_owned();
    text::push_dec(&mut r, c[CTR_W_LEAF as usize] as u64);
    r.append(" sky=");
    text::push_dec(&mut r, c[CTR_W_SKY as usize] as u64);
    r.append(" level=");
    text::push_dec(&mut r, c[CTR_W_LEVEL as usize] as u64);
    r.append(" hemi=");
    text::push_dec(&mut r, c[CTR_W_HEMI as usize] as u64);
    r.append(" reference=");
    text::push_dec(&mut r, c[CTR_W_REFERENCE as usize] as u64);
    r
}

fn push_if(out: &mut String, on: bool, line: &str)
    ensures
        final(out)@ == old(out)@ + line_if(on, line),
{
    if on {
        out.append(line);
    } else {
        out.append("");
    }
}

/// The ablation defines of the shading units: one line for each tag that was
/// given, in this order.
pub open spec fn abl_text(l: &Levers) -> Seq<char> {
    Seq::<char>::empty()
        + line_if(has_tag(l, "sunt"), "#define ABL_SUNT 1\n")
        + line_if(has_tag(l, "rough"), "#define ABL_ROUGH 1\n")
        + line_if(has_tag(l, "nogbuf"), "#define ABL_NOGBUF 1\n")
        + line_if(has_tag(l, "nopack"), "#define ABL_NOPACK 1\n")
        + line_if(has_tag(l, "nowave"), "#define ABL_NO_WAVE_OPS 1\n")
        + line_if(has_tag(l, "noelcull"), "#define ABL_NO_EL_CULL 1\n")
        + line_if(has_tag(l, "noffcode"), "#define ABL_NO_FF_CODE 1\n")
        + line_if(has_tag(l, "noelcode"), "#define ABL_NO_EL_CODE 1\n")
        + line_if(has_tag(l, "noelcode"), "#define ABL_NO_EL_CULL 1\n")
        + line_if(has_tag(l, "tzero"), "#define ABL_TZERO 1\n")
        + line_if(has_tag(l, "noshadow"), "#define ABL_NOSHADOW 1\n")
        + line_if(has_tag(l, "noao"), "#define ABL_NOAO 1\n")
        + line_if(has_tag(l, "norefl"), "#define ABL_NOREFL 1\n")
        + line_if(has_tag(l, "noglass"), "#define ABL_NOGLASS 1\n")
        + line_if(has_tag(l, "nogi"), "#define ABL_NOGI 1\n")
        + line_if(has_tag(l, "nosec"), "#define ABL_NOSEC 1\n")
}

/// The ablation defines of the shading units.
pub fn abl_defs(l: &Levers) -> (r: String)
    ensures
        r@ == abl_text(l),
{
    let mut out: String = String::new();
    push_if(&mut out, abl_has(l, "sunt"), "#define ABL_SUNT 1\n");
    push_if(&mut out, abl_has(l, "rough"), "#define ABL_ROUGH 1\n");
    push_if(&mut out, abl_has(l, "nogbuf"), "#define ABL_NOGBUF 1\n");
    push_if(&mut out, abl_has(l, "nopack"), "#define ABL_NOPACK 1\n");
    push_if(&mut out, abl_has(l, "nowave"), "#define ABL_NO_WAVE_OPS 1\n");
    push_if(&mut out, abl_has(l, "noelcull"), "#define ABL_NO_EL_CULL 1\n");
    push_if(&mut out, abl_has(l, "noffcode"), "#define ABL_NO_FF_CODE 1\n");
    push_if(&mut out, abl_has(l, "noelcode"), "#define ABL_NO_EL_CODE 1\n");
    push_if(&mut out, abl_has(l, "noelcode"), "#define ABL_NO_EL_CULL 1\n");
    push_if(&mut out, abl_has(l, "tzero"), "#define ABL_TZERO 1\n");
    push_if(&mut out, abl_has(l, "noshadow"), "#define ABL_NOSHADOW 1\n");
    push_if(&mut out, abl_has(l, "noao"), "#define ABL_NOAO 1\n");
    push_if(&mut out, abl_has(l, "norefl"), "#define ABL_NOREFL 1\n");
    push_if(&mut out, abl_has(l, "noglass"), "#define ABL_NOGLASS 1\n");
    push_if(&mut out, abl_has(l, "nogi"), "#define ABL_NOGI 1\n");
    push_if(&mut out, abl_has(l, "nosec"), "#define ABL_NOSEC 1\n");
    out
}

/// The ablation defines of the wavefront unit.
pub open spec fn wavefront_abl_text(l: &Levers) -> Seq<char> {
    Seq::<char>::empty()
        + line_if(has_tag(l, "oldcut"), "#define ABL_KEEP_TERMINAL_CUT 1\n")
        + line_if(has_tag(l, "nobatch"), "#define ABL_NO_QUEUE_BATCH 1\n")
        + line_if(has_tag(l, "nowave"), "#define ABL_NO_WAVE_OPS 1\n")
        + line_if(has_tag(l, "wavegw"), "#define ABL_WAVE_GW 1\n")
}

/// The ablation defines of the wavefront unit.
pub fn wavefront_ablation_defs(l: &Levers) -> (r: String)
    ensures
        r@ == wavefront_abl_text(l),
{
    let mut out: String = String::new();
    push_if(&mut out, abl_has(l, "oldcut"), "#define ABL_KEEP_TERMINAL_CUT 1\n");
    push_if(&mut out, abl_has(l, "nobatch"), "#define ABL_NO_QUEUE_BATCH 1\n");
    push_if(&mut out, abl_has(l, "nowave"), "#define ABL_NO_WAVE_OPS 1\n");
    push_if(&mut out, abl_has(l, "wavegw"), "#define ABL_WAVE_GW 1\n");
    out
}

/// The detail-strength defines.
pub open spec fn detail_text(h: &Host) -> Seq<char> {
    "#define DETAIL_STR "@ + h.detail_strength@ + "\n#define DETAIL_AO_STR "@ + h.detail_ao_strength@
}

/// The detail-strength defines.
pub fn detail_defs(h: &Host) -> (r: String)
    ensures
        r@ == detail_text(h),
{
    let mut r: String = "#define DETAIL_STR ".to_owned();
    r.append(h.detail_strength.as_str());
    r.append("\n#define DETAIL_AO_STR ");
    r.append(h.detail_ao_strength.as_str());
    r
}

/// The first `n` sample offsets as a list of vector literals.
pub open spec fn jitter_text(j: Seq<(String, String)>, n: int) -> Seq<char>
    decreases n,
{
    if n <= 0 {
        Seq::empty()
    } else {
        let one = "float2("@ + j[n - 1].0@ + ", "@ + j[n - 1].1@ + ")"@;
        if n == 1 {
            one
        } else {
            jitter_text(j, n - 1) + ", "@ + one
        }
    }
}

fn jitter_list(j: &Vec<(String, String)>) -> (r: String)
    ensures
        r@ == jitter_text(j@, j@.len() as int),
{
    let mut r: String = String::new();
    let mut i: usize = 0;
    while i < j.len()
        invariant
            i <= j@.len(),
            r@ == jitter_text(j@, i as int),
        decreases j@.len() - i,
    {
        let ghost before = r@;
        if i > 0 {
            r.append(", ");
        }
        r.append("float2(");
        r.append(j[i].0.as_str());
        r.append(", ");
        r.append(j[i].1.as_str());
        r.append(")");
        proof {
            let one = "float2("@ + j@[i as int].0@ + ", "@ + j@[i as int].1@ + ")"@;
            if i == 0 {
                assert(r@ == one);
            } else {
                assert(r@ == before + ", "@ + one);
            }
        }
        i = i + 1;
    }
    r
}

/// The sampling defines.
pub open spec fn spp_text(h: &Host) -> Seq<char> {
    "#define MAX_SPP "@ + text::dec(h.max_spp as nat) + "u\n#define JITTER_ROWS "@ + text::dec(
        (h.max_spp / 2) as nat,
    ) + "\n#define MAX_FIREFLIES "@ + text::dec(h.max_fireflies as nat)
        + "\n#define MAX_EMISSIVE_LIGHTS "@ + text::dec(h.max_emissive_lights as nat)
        + "\nstatic const float2 SKY_J[MAX_SPP] = { "@ + jitter_text(
        h.jitter@,
        h.max_spp as int,
    ) + " };"@
}

/// The sampling defines.
pub fn spp_defs(h: &Host) -> (r: String)
    requires
        h.wf(),
    ensures
        r@ == spp_text(h),
{
    let mut r: String = "#define MAX_SPP ".to_owned();
    text::push_dec(&mut r, h.max_spp as u64);
    r.append("u\n#define JITTER_ROWS ");
    text::push_dec(&mut r, (h.max_spp / 2) as u64);
    r.append("\n#define MAX_FIREFLIES ");
    text::push_dec(&mut r, h.max_fireflies as u64);
    r.append("\n#define MAX_EMISSIVE_LIGHTS ");
    text::push_dec(&mut r, h.max_emissive_lights as u64);
    r.append("\nstatic const float2 SKY_J[MAX_SPP] = { ");
    let j: String = jitter_list(&h.jitter);
    r.append(j.as_str());
    r.append(" };");
    r
}

/// The shader source texts, file by file.
pub struct Corpus {
    pub smoke: String,
    pub sh: String,
    pub fsr_wire: String,
    pub trace_common_body: String,
    pub ctr: String,
    pub continuation: String,
    pub queues_body: String,
    pub frustum: String,
    pub ftree: String,
    pub rt: String,
    pub rt_sw: String,
    pub ripple: String,
    pub shade: String,
    pub hemi: String,
    pub reference: String,
    pub resolve: String,
    pub wavefront: String,
    pub sky: String,
    pub skylod: String,
    pub leaf: String,
    pub hemi_wave: String,
    pub hemi_leaf: String,
    pub compose: String,
    pub feed: String,
    pub nppd: String,
    pub nrd_bridge: String,
    pub waveprobe: String,
    pub workgraph: String,
    pub rt_dxr: String,
    pub dxr: String,
    pub dxr_shade: String,
}

impl Corpus {
    /// The common prelude: spherical harmonics, then the trace constants.
    pub open spec fn trace_common_text(&self) -> Seq<char> {
        self.sh@ + "\n"@ + self.trace_common_body@
    }

    /// The queues with the continuation records in front.
    pub open spec fn queues_text(&self) -> Seq<char> {
        self.continuation@ + "\n"@ + self.queues_body@
    }

    /// The common prelude.
    pub fn trace_common(&self) -> (r: String)
        ensures
            r@ == self.trace_common_text(),
    {
        let mut r: String = self.sh.as_str().to_owned();
        r.append("\n");
        r.append(self.trace_common_body.as_str());
        r
    }

    /// The queues with the continuation records in front.
    pub fn queues(&self) -> (r: String)
        ensures
            r@ == self.queues_text(),
    {
        let mut r: String = self.continuation.as_str().to_owned();
        r.append("\n");
        r.append(self.queues_body.as_str());
        r
    }
}

/// The parts of a unit, one per line group.
pub open spec fn unit(parts: Seq<Seq<char>>) -> Seq<char> {
    text::joined(parts, "\n"@)
}

/// A part that is there only where the condition holds.
pub open spec fn part_if(on: bool, part: Seq<char>) -> Seq<Seq<char>> {
    if on {
        seq![part]
    } else {
        Seq::empty()
    }
}

/// Pitch of the cloud lattice and its logarithm.
pub open spec fn lod_text(k: u32) -> Seq<char> {
    "#define SKY_UNIT 1\n#define SKY_LOD "@ + text::dec(k as nat) + "\n#define SKY_LOD_LOG "@ + text::dec(
        vstd::std_specs::bits::u32_trailing_zeros(k) as nat,
    )
}

fn lod_defs(k: u32) -> (r: String)
    ensures
        r@ == lod_text(k),
{
    let mut r: String = text::with_number(
        "#define SKY_UNIT 1\n#define SKY_LOD ",
        k as u64,
        "\n#define SKY_LOD_LOG ",
    );
    text::push_dec(&mut r, k.trailing_zeros() as u64);
    r
}

/// Resolution of the cloud-shadow cache.
pub open spec fn cloud_text(n: u32) -> Seq<char> {
    "#define CLOUD_SHADOW_N "@ + text::dec(n as nat)
}

fn cloud_defs(n: u32) -> (r: String)
    ensures
        r@ == cloud_text(n),
{
    let mut r: String = "#define CLOUD_SHADOW_N ".to_owned();
    text::push_dec(&mut r, n as u64);
    r
}

/// Sky-fill widths and the leaf tile.
pub open spec fn sky_text(h: &Host) -> Seq<char> {
    "#define SKY_GROUP "@ + text::dec(SKY_GROUP as nat) + "\n#define SKY_SPLIT "@ + text::dec(
        SKY_SPLIT as nat,
    ) + "\n#define LEAF_TILE "@ + text::dec(h.leaf_tile as nat)
}

fn sky_defs(h: &Host) -> (r: String)
    ensures
        r@ == sky_text(h),
{
    let mut r: String = "#define SKY_GROUP ".to_owned();
    text::push_dec(&mut r, SKY_GROUP as u64);
    r.append("\n#define SKY_SPLIT ");
    text::push_dec(&mut r, SKY_SPLIT as u64);
    r.append("\n#define LEAF_TILE ");
    text::push_dec(&mut r, h.leaf_tile as u64);
    r
}

/// The sky-fill unit.
pub open spec fn sky_unit_text(l: &Levers, h: &Host, c: &Corpus, k: u32, n: u32) -> Seq<char> {
    unit(
        part_if(l.width_probe, width_text(l)) + part_if(l.waveviz_mode != 0, waveviz_text(l)) + seq![
            abl_text(l),
            lod_text(k),
            cloud_text(n),
            sky_text(h),
            spp_text(h),
            c.trace_common_text(),
            c.ctr@,
            c.queues_text(),
            c.skylod@,
            c.sky@,
        ],
    )
}

/// Assemble the sky-fill unit for lattice pitch `k` and cache resolution `n`.
pub fn sky_unit_src(l: &Levers, h: &Host, c: &Corpus, k: u32, n: u32) -> (r: String)
    requires
        h.wf(),
    ensures
        r@ == sky_unit_text(l, h, c, k, n),
{
    let wd: String = width_defs(l);
    let wv: String = waveviz_defs(l);
    let abl: String = abl_defs(l);
    let lod: String = lod_defs(k);
    let cloud: String = cloud_defs(n);
    let sky: String = sky_defs(h);
    let spp: String = spp_defs(h);
    let common: String = c.trace_common();
    let queues: String = c.queues();
    let mut parts: Vec<&str> = Vec::new();
    if l.width_probe {
        parts.push(wd.as_str());
    }
    if waveviz_on(l) {
        parts.push(wv.as_str());
    }
    parts.push(abl.as_str());
    parts.push(lod.as_str());
    parts.push(cloud.as_str());
    parts.push(sky.as_str());
    parts.push(spp.as_str());
    parts.push(common.as_str());
    parts.push(c.ctr.as_str());
    parts.push(queues.as_str());
    parts.push(c.skylod.as_str());
    parts.push(c.sky.as_str());
    assert(text::texts(parts@) == part_if(l.width_probe, width_text(l)) + part_if(
        l.waveviz_mode != 0,
        waveviz_text(l),
    ) + seq![
        abl_text(l),
        lod_text(k),
        cloud_text(n),
        sky_text(h),
        spp_text(h),
        c.trace_common_text(),
        c.ctr@,
        c.queues_text(),
        c.skylod@,
        c.sky@,
    ]);
    text::join(parts.as_slice(), "\n")
}

/// What the wavefront pipeline is compiled for.
pub struct TraceKeys<'a> {
    pub scene: &'a Scene,
    pub vendor: Vendor,
    pub sway_armed: bool,
}

/// The units of the wavefront pipeline, and the levers they were built with.
pub struct TraceSources {
    pub reference: String,
    pub resolve: String,
    pub wavefront: String,
    pub sky: String,
    pub leaf: String,
    pub leaf_fb: String,
    pub hemi_wave: String,
    pub hemi_leaf: String,
    pub compose: String,
    pub feed: String,
    pub spp: String,
    pub cloud_shadow_n: u32,
    pub sky_lod: u32,
    pub ftree_on: bool,
    pub sway_mv_on: bool,
}

/// Sway motion is compiled in: armed, and the rays see the moving geometry.
pub open spec fn sway_on(k: &TraceKeys, l: &Levers) -> bool {
    k.sway_armed && !l.sw_rays
}

/// The defines that all shading units share.
pub open spec fn trace_defs_text(k: &TraceKeys, l: &Levers, h: &Host) -> Seq<char> {
    unit(
        seq![
            line_if(k.scene.indices@.len() == 0, "#define SCENE_EMPTY 1"),
            line_if(k.scene.any_alpha && !has_tag(l, "noalpha"), "#define ALPHA_CUTOUT 1"),
            line_if(
                k.scene.any_height && h.height_armed && !has_tag(l, "noheight"),
                "#define HEIGHTFIELD 1",
            ),
            line_if(k.scene.any_transmissive && !has_tag(l, "notrans"), "#define TRANS_SHADOW 1"),
            line_if(
                k.vendor == Vendor::Amd && !has_tag(l, "nocandtmin"),
                "#define CAND_TMIN0 1",
            ),
            line_if(h.max_prims is Some, "#define BLAS_SPLIT 1"),
            line_if(sway_on(k, l), "#define SWAY_MV 1"),
            abl_text(l),
            line_if(h.rtgi, "#define RTGI 1"),
        ],
    )
}

/// The lane-stack defines.
pub open spec fn stack_text(l: &Levers) -> Seq<char> {
    "#define LANE_STACK "@ + text::dec(l.lane_stack as nat) + "u"@ + line_if(
        l.stack_lane_major,
        "\n#define STACK_LANE_MAJOR 1",
    )
}

/// The software-ray defines.
pub open spec fn sw_text(l: &Levers, h: &Host) -> Seq<char> {
    if l.sw_rays {
        "#define SW_RAYS 1\n#define SW_TRAV_STACK "@ + text::dec(h.trav_stack as nat) + "u"@
    } else {
        Seq::empty()
    }
}

/// The ray queries: in hardware or in software.
pub open spec fn rays_text(l: &Levers, c: &Corpus) -> Seq<char> {
    if l.sw_rays {
        c.rt_sw@
    } else {
        c.rt@
    }
}

/// The unit that traces every pixel on its own.
pub open spec fn reference_text(k: &TraceKeys, l: &Levers, h: &Host, c: &Corpus) -> Seq<char> {
    unit(
        part_if(l.width_probe, width_text(l)) + part_if(l.ballast.0 != 0, ballast_text(l.ballast.0))
            + part_if(l.waveviz_mode != 0, waveviz_text(l)) + seq![
            cloud_text(l.cloud_shadow),
            lod_text(l.sky_lod),
            trace_defs_text(k, l, h),
            sw_text(l, h),
            spp_text(h),
            detail_text(h),
            c.trace_common_text(),
            c.skylod@,
            rays_text(l, c),
            c.ripple@,
            c.shade@,
            c.reference@,
        ],
    )
}

/// The unit that resolves accumulated samples.
pub open spec fn resolve_text(h: &Host, c: &Corpus) -> Seq<char> {
    unit(seq![spp_text(h), c.trace_common_text(), c.resolve@])
}

/// The quadtree unit.
pub open spec fn wavefront_text(k: &TraceKeys, l: &Levers, h: &Host, c: &Corpus) -> Seq<char> {
    unit(
        part_if(l.width_probe, width_text(l)) + seq![
            sky_text(h),
            wavefront_abl_text(l),
            line_if(k.scene.indices@.len() == 0, "#define SCENE_EMPTY 1"),
            line_if(h.ftree_enabled, "#define FTREE 1"),
            stack_text(l),
            sw_text(l, h),
            line_if(l.sw_rays && h.cut_seed_rays, "#define SW_RAYS_LEAF 1"),
            spp_text(h),
            c.trace_common_text(),
            c.ctr@,
            c.queues_text(),
            c.frustum@,
            c.ftree@,
            c.wavefront@,
        ],
    )
}

/// The leaf unit, with one define of its own.
pub open spec fn leaf_text(
    k: &TraceKeys,
    l: &Levers,
    h: &Host,
    c: &Corpus,
    extra: Seq<char>,
) -> Seq<char> {
    unit(
        part_if(l.width_probe, width_text(l)) + part_if(l.waveviz_mode != 0, waveviz_text(l)) + seq![
            "#define LEAF_GROUP "@ + text::dec(l.leaf_group as nat),
            extra,
            cloud_text(l.cloud_shadow),
            lod_text(l.sky_lod),
            trace_defs_text(k, l, h),
            sw_text(l, h),
            line_if(l.sw_rays && h.cut_seed_rays, "#define SW_RAYS_LEAF 1"),
            spp_text(h),
            detail_text(h),
            c.trace_common_text(),
            c.ctr@,
            c.queues_text(),
            c.skylod@,
            rays_text(l, c),
            c.ripple@,
            c.shade@,
            c.leaf@,
        ],
    )
}

/// The hemisphere quadtree unit.
pub open spec fn hemi_wave_text(k: &TraceKeys, l: &Levers, h: &Host, c: &Corpus) -> Seq<char> {
    unit(
        seq![
            trace_defs_text(k, l, h),
            stack_text(l),
            sw_text(l, h),
            spp_text(h),
            c.trace_common_text(),
            c.ctr@,
            c.hemi@,
            c.frustum@,
            rays_text(l, c),
            c.hemi_wave@,
        ],
    )
}

/// The hemisphere leaf unit.
pub open spec fn hemi_leaf_text(k: &TraceKeys, l: &Levers, h: &Host, c: &Corpus) -> Seq<char> {
    unit(
        part_if(l.width_probe, width_text(l)) + seq![
            trace_defs_text(k, l, h),
            sw_text(l, h),
            spp_text(h),
            detail_text(h),
            c.trace_common_text(),
            c.ctr@,
            c.hemi@,
            rays_text(l, c),
            c.ripple@,
            c.shade@,
            c.hemi_leaf@,
        ],
    )
}

/// The unit that composes the quadtree's output.
pub open spec fn compose_text(h: &Host, c: &Corpus) -> Seq<char> {
    unit(seq![spp_text(h), c.trace_common_text(), c.ctr@, c.queues_text(), c.compose@])
}

/// The unit that feeds an upscaler.
pub open spec fn feed_text(l: &Levers, h: &Host, c: &Corpus) -> Seq<char> {
    unit(seq![abl_text(l), spp_text(h), c.trace_common_text(), c.fsr_wire@, c.feed@])
}

impl TraceSources {
    /// What the wavefront units are.
    pub open spec fn describes(&self, k: &TraceKeys, l: &Levers, h: &Host, c: &Corpus) -> bool {
        &&& self.reference@ == reference_text(k, l, h, c)
        &&& self.resolve@ == resolve_text(h, c)
        &&& self.wavefront@ == wavefront_text(k, l, h, c)
        &&& self.sky@ == sky_unit_text(l, h, c, l.sky_lod, l.cloud_shadow)
        &&& self.leaf@ == leaf_text(k, l, h, c, "#define LEAF_NO_FB 1"@)
        &&& self.leaf_fb@ == leaf_text(k, l, h, c, ""@)
        &&& self.hemi_wave@ == hemi_wave_text(k, l, h, c)
        &&& self.hemi_leaf@ == hemi_leaf_text(k, l, h, c)
        &&& self.compose@ == compose_text(h, c)
        &&& self.feed@ == feed_text(l, h, c)
        &&& self.spp@ == spp_text(h)
        &&& self.cloud_shadow_n == l.cloud_shadow
        &&& self.sky_lod == l.sky_lod
        &&& self.ftree_on == h.ftree_enabled
        &&& self.sway_mv_on == sway_on(k, l)
    }

    /// The denoiser bridge unit for these sources.
    pub fn nrd_bridge(&self, l: &Levers, c: &Corpus) -> (r: String)
        ensures
            r@ == unit(
                seq![abl_text(l), self.spp@, c.trace_common_text(), c.fsr_wire@, c.nrd_bridge@],
            ),
    {
        let abl: String = abl_defs(l);
        let common: String = c.trace_common();
        let mut parts: Vec<&str> = Vec::new();
        parts.push(abl.as_str());
        parts.push(self.spp.as_str());
        parts.push(common.as_str());
        parts.push(c.fsr_wire.as_str());
        parts.push(c.nrd_bridge.as_str());
        assert(text::texts(parts@) == seq![
            abl_text(l),
            self.spp@,
            c.trace_common_text(),
            c.fsr_wire@,
            c.nrd_bridge@,
        ]);
        text::join(parts.as_slice(), "\n")
    }

    /// The neural-denoiser unit for these sources.
    pub fn nppd(&self, c: &Corpus) -> (r: String)
        ensures
            r@ == unit(seq![self.spp@, c.trace_common_text(), c.nppd@]),
    {
        let common: String = c.trace_common();
        let mut parts: Vec<&str> = Vec::new();
        parts.push(self.spp.as_str());
        parts.push(common.as_str());
        parts.push(c.nppd.as_str());
        assert(text::texts(parts@) == seq![self.spp@, c.trace_common_text(), c.nppd@]);
        text::join(parts.as_slice(), "\n")
    }
}

/// The texts that several units share, built once.
struct Shared {
    defs: String,
    stack: String,
    sw: String,
    spp: String,
    detail: String,
    width: String,
    waveviz: String,
    cloud: String,
    lod: String,
    sky: String,
    common: String,
    queues: String,
}

impl Shared {
    spec fn describes(&self, k: &TraceKeys, l: &Levers, h: &Host, c: &Corpus) -> bool {
        &&& self.defs@ == trace_defs_text(k, l, h)
        &&& self.stack@ == stack_text(l)
        &&& self.sw@ == sw_text(l, h)
        &&& self.spp@ == spp_text(h)
        &&& self.detail@ == detail_text(h)
        &&& self.width@ == width_text(l)
        &&& self.waveviz@ == waveviz_text(l)
        &&& self.cloud@ == cloud_text(l.cloud_shadow)
        &&& self.lod@ == lod_text(l.sky_lod)
        &&& self.sky@ == sky_text(h)
        &&& self.common@ == c.trace_common_text()
        &&& self.queues@ == c.queues_text()
    }
}

fn trace_defs(k: &TraceKeys, l: &Levers, h: &Host) -> (r: String)
    ensures
        r@ == trace_defs_text(k, l, h),
{
    let abl: String = abl_defs(l);
    let mut parts: Vec<&str> = Vec::new();
    parts.push(empty_defs(k.scene));
    parts.push(alpha_defs(k.scene, l));
    parts.push(height_defs(k.scene, l, h));
    parts.push(trans_defs(k.scene, l));
    parts.push(cand_defs(k.vendor, l));
    parts.push(blas_defs(h));
    parts.push(sway_defs(k.sway_armed && !sw_rays(l)));
    parts.push(abl.as_str());
    parts.push(rtgi_defs(h));
    assert(text::texts(parts@) == seq![
        line_if(k.scene.indices@.len() == 0, "#define SCENE_EMPTY 1"),
        line_if(k.scene.any_alpha && !has_tag(l, "noalpha"), "#define ALPHA_CUTOUT 1"),
        line_if(
            k.scene.any_height && h.height_armed && !has_tag(l, "noheight"),
            "#define HEIGHTFIELD 1",
        ),
        line_if(k.scene.any_transmissive && !has_tag(l, "notrans"), "#define TRANS_SHADOW 1"),
        line_if(k.vendor == Vendor::Amd && !has_tag(l, "nocandtmin"), "#define CAND_TMIN0 1"),
        line_if(h.max_prims is Some, "#define BLAS_SPLIT 1"),
        line_if(sway_on(k, l), "#define SWAY_MV 1"),
        abl_text(l),
        line_if(h.rtgi, "#define RTGI 1"),
    ]);
    text::join(parts.as_slice(), "\n")
}

fn shared(k: &TraceKeys, l: &Levers, h: &Host, c: &Corpus) -> (r: Shared)
    requires
        h.wf(),
    ensures
        r.describes(k, l, h, c),
{
    let mut stack: String = text::with_number("#define LANE_STACK ", l.lane_stack as u64, "u");
    push_if(&mut stack, l.stack_lane_major, "\n#define STACK_LANE_MAJOR 1");
    let sw: String = if sw_rays(l) {
        text::with_number("#define SW_RAYS 1\n#define SW_TRAV_STACK ", h.trav_stack as u64, "u")
    } else {
        String::new()
    };
    Shared {
        defs: trace_defs(k, l, h),
        stack,
        sw,
        spp: spp_defs(h),
        detail: detail_defs(h),
        width: width_defs(l),
        waveviz: waveviz_defs(l),
        cloud: cloud_defs(l.cloud_shadow),
        lod: lod_defs(l.sky_lod),
        sky: sky_defs(h),
        common: c.trace_common(),
        queues: c.queues(),
    }
}

fn ray_queries<'a>(l: &Levers, c: &'a Corpus) -> (r: &'a str)
    ensures
        r@ == rays_text(l, c),
{
    if sw_rays(l) {
        c.rt_sw.as_str()
    } else {
        c.rt.as_str()
    }
}

fn sw_leaf_defs(l: &Levers, h: &Host) -> (r: &'static str)
    ensures
        r@ == line_if(l.sw_rays && h.cut_seed_rays, "#define SW_RAYS_LEAF 1"),
{
    if sw_rays_leaf(l, h) {
        "#define SW_RAYS_LEAF 1"
    } else {
        ""
    }
}

fn ftree_defs(h: &Host) -> (r: &'static str)
    ensures
        r@ == line_if(h.ftree_enabled, "#define FTREE 1"),
{
    if h.ftree_enabled {
        "#define FTREE 1"
    } else {
        ""
    }
}

fn reference_unit(k: &TraceKeys, l: &Levers, h: &Host, c: &Corpus, s: &Shared) -> (r: String)
    requires
        s.describes(k, l, h, c),
    ensures
        r@ == reference_text(k, l, h, c),
{
    let ballast: String = ballast_defs(l);
    let mut parts: Vec<&str> = Vec::new();
    if l.width_probe {
        parts.push(s.width.as_str());
    }
    if l.ballast.0 != 0 {
        parts.push(ballast.as_str());
    }
    if waveviz_on(l) {
        parts.push(s.waveviz.as_str());
    }
    parts.push(s.cloud.as_str());
    parts.push(s.lod.as_str());
    parts.push(s.defs.as_str());
    parts.push(s.sw.as_str());
    parts.push(s.spp.as_str());
    parts.push(s.detail.as_str());
    parts.push(s.common.as_str());
    parts.push(c.skylod.as_str());
    parts.push(ray_queries(l, c));
    parts.push(c.ripple.as_str());
    parts.push(c.shade.as_str());
    parts.push(c.reference.as_str());
    assert(text::texts(parts@) == part_if(l.width_probe, width_text(l)) + part_if(l.ballast.0 != 0, ballast_text(l.ballast.0)) + part_if(l.waveviz_mode != 0, waveviz_text(l)) + seq![
        cloud_text(l.cloud_shadow),
        lod_text(l.sky_lod),
        trace_defs_text(k, l, h),
        sw_text(l, h),
        spp_text(h),
        detail_text(h),
        c.trace_common_text(),
        c.skylod@,
        rays_text(l, c),
        c.ripple@,
        c.shade@,
        c.reference@,
    ]);
    text::join(parts.as_slice(), "\n")
}

fn resolve_unit(k: &TraceKeys, l: &Levers, h: &Host, c: &Corpus, s: &Shared) -> (r: String)
    requires
        s.describes(k, l, h, c),
    ensures
        r@ == resolve_text(h, c),
{
    let mut parts: Vec<&str> = Vec::new();
    parts.push(s.spp.as_str());
    parts.push(s.common.as_str());
    parts.push(c.resolve.as_str());
    assert(text::texts(parts@) == seq![
        spp_text(h),
        c.trace_common_text(),
        c.resolve@,
    ]);
    text::join(parts.as_slice(), "\n")
}

fn wavefront_unit(k: &TraceKeys, l: &Levers, h: &Host, c: &Corpus, s: &Shared) -> (r: String)
    requires
        s.describes(k, l, h, c),
    ensures
        r@ == wavefront_text(k, l, h, c),
{
    let abl: String = wavefront_ablation_defs(l);
    let mut parts: Vec<&str> = Vec::new();
    if l.width_probe {
        parts.push(s.width.as_str());
    }
    parts.push(s.sky.as_str());
    parts.push(abl.as_str());
    parts.push(empty_defs(k.scene));
    parts.push(ftree_defs(h));
    parts.push(s.stack.as_str());
    parts.push(s.sw.as_str());
    parts.push(sw_leaf_defs(l, h));
    parts.push(s.spp.as_str());
    parts.push(s.common.as_str());
    parts.push(c.ctr.as_str());
    parts.push(s.queues.as_str());
    parts.push(c.frustum.as_str());
    parts.push(c.ftree.as_str());
    parts.push(c.wavefront.as_str());
    assert(text::texts(parts@) == part_if(l.width_probe, width_text(l)) + seq![
        sky_text(h),
        wavefront_abl_text(l),
        line_if(k.scene.indices@.len() == 0, "#define SCENE_EMPTY 1"),
        line_if(h.ftree_enabled, "#define FTREE 1"),
        stack_text(l),
        sw_text(l, h),
        line_if(l.sw_rays && h.cut_seed_rays, "#define SW_RAYS_LEAF 1"),
        spp_text(h),
        c.trace_common_text(),
        c.ctr@,
        c.queues_text(),
        c.frustum@,
        c.ftree@,
        c.wavefront@,
    ]);
    text::join(parts.as_slice(), "\n")
}

fn leaf_unit(k: &TraceKeys, l: &Levers, h: &Host, c: &Corpus, s: &Shared, extra: &str) -> (r: String)
    requires
        s.describes(k, l, h, c),
    ensures
        r@ == leaf_text(k, l, h, c, extra@),
{
    let mut group: String = "#define LEAF_GROUP ".to_owned();
    text::push_dec(&mut group, l.leaf_group as u64);
    let mut parts: Vec<&str> = Vec::new();
    if l.width_probe {
        parts.push(s.width.as_str());
    }
    if waveviz_on(l) {
        parts.push(s.waveviz.as_str());
    }
    parts.push(group.as_str());
    parts.push(extra);
    parts.push(s.cloud.as_str());
    parts.push(s.lod.as_str());
    parts.push(s.defs.as_str());
    parts.push(s.sw.as_str());
    parts.push(sw_leaf_defs(l, h));
    parts.push(s.spp.as_str());
    parts.push(s.detail.as_str());
    parts.push(s.common.as_str());
    parts.push(c.ctr.as_str());
    parts.push(s.queues.as_str());
    parts.push(c.skylod.as_str());
    parts.push(ray_queries(l, c));
    parts.push(c.ripple.as_str());
    parts.push(c.shade.as_str());
    parts.push(c.leaf.as_str());
    assert(text::texts(parts@) == part_if(l.width_probe, width_text(l)) + part_if(l.waveviz_mode != 0, waveviz_text(l)) + seq![
        "#define LEAF_GROUP "@ + text::dec(l.leaf_group as nat),
        extra@,
        cloud_text(l.cloud_shadow),
        lod_text(l.sky_lod),
        trace_defs_text(k, l, h),
        sw_text(l, h),
        line_if(l.sw_rays && h.cut_seed_rays, "#define SW_RAYS_LEAF 1"),
        spp_text(h),
        detail_text(h),
        c.trace_common_text(),
        c.ctr@,
        c.queues_text(),
        c.skylod@,
        rays_text(l, c),
        c.ripple@,
        c.shade@,
        c.leaf@,
    ]);
    text::join(parts.as_slice(), "\n")
}

fn hemi_wave_unit(k: &TraceKeys, l: &Levers, h: &Host, c: &Corpus, s: &Shared) -> (r: String)
    requires
        s.describes(k, l, h, c),
    ensures
        r@ == hemi_wave_text(k, l, h, c),
{
    let mut parts: Vec<&str> = Vec::new();
    parts.push(s.defs.as_str());
    parts.push(s.stack.as_str());
    parts.push(s.sw.as_str());
    parts.push(s.spp.as_str());
    parts.push(s.common.as_str());
    parts.push(c.ctr.as_str());
    parts.push(c.hemi.as_str());
    parts.push(c.frustum.as_str());
    parts.push(ray_queries(l, c));
    parts.push(c.hemi_wave.as_str());
    assert(text::texts(parts@) == seq![
        trace_defs_text(k, l, h),
        stack_text(l),
        sw_text(l, h),
        spp_text(h),
        c.trace_common_text(),
        c.ctr@,
        c.hemi@,
        c.frustum@,
        rays_text(l, c),
        c.hemi_wave@,
    ]);
    text::join(parts.as_slice(), "\n")
}

fn hemi_leaf_unit(k: &TraceKeys, l: &Levers, h: &Host, c: &Corpus, s: &Shared) -> (r: String)
    requires
        s.describes(k, l, h, c),
    ensures
        r@ == hemi_leaf_text(k, l, h, c),
{
    let mut parts: Vec<&str> = Vec::new();
    if l.width_probe {
        parts.push(s.width.as_str());
    }
    parts.push(s.defs.as_str());
    parts.push(s.sw.as_str());
    parts.push(s.spp.as_str());
    parts.push(s.detail.as_str());
    parts.push(s.common.as_str());
    parts.push(c.ctr.as_str());
    parts.push(c.hemi.as_str());
    parts.push(ray_queries(l, c));
    parts.push(c.ripple.as_str());
    parts.push(c.shade.as_str());
    parts.push(c.hemi_leaf.as_str());
    assert(text::texts(parts@) == part_if(l.width_probe, width_text(l)) + seq![
        trace_defs_text(k, l, h),
        sw_text(l, h),
        spp_text(h),
        detail_text(h),
        c.trace_common_text(),
        c.ctr@,
        c.hemi@,
        rays_text(l, c),
        c.ripple@,
        c.shade@,
        c.hemi_leaf@,
    ]);
    text::join(parts.as_slice(), "\n")
}

fn compose_unit(k: &TraceKeys, l: &Levers, h: &Host, c: &Corpus, s: &Shared) -> (r: String)
    requires
        s.describes(k, l, h, c),
    ensures
        r@ == compose_text(h, c),
{
    let mut parts: Vec<&str> = Vec::new();
    parts.push(s.spp.as_str());
    parts.push(s.common.as_str());
    parts.push(c.ctr.as_str());
    parts.push(s.queues.as_str());
    parts.push(c.compose.as_str());
    assert(text::texts(parts@) == seq![
        spp_text(h),
        c.trace_common_text(),
        c.ctr@,
        c.queues_text(),
        c.compose@,
    ]);
    text::join(parts.as_slice(), "\n")
}

fn feed_unit(k: &TraceKeys, l: &Levers, h: &Host, c: &Corpus, s: &Shared) -> (r: String)
    requires
        s.describes(k, l, h, c),
    ensures
        r@ == feed_text(l, h, c),
{
    let abl: String = abl_defs(l);
    let mut parts: Vec<&str> = Vec::new();
    parts.push(abl.as_str());
    parts.push(s.spp.as_str());
    parts.push(s.common.as_str());
    parts.push(c.fsr_wire.as_str());
    parts.push(c.feed.as_str());
    assert(text::texts(parts@) == seq![
        abl_text(l),
        spp_text(h),
        c.trace_common_text(),
        c.fsr_wire@,
        c.feed@,
    ]);
    text::join(parts.as_slice(), "\n")
}

/// Assemble the units of the wavefront pipeline.
pub fn trace_sources(k: &TraceKeys, l: &Levers, h: &Host, c: &Corpus) -> (r: TraceSources)
    requires
        h.wf(),
    ensures
        r.describes(k, l, h, c),
{
    let s: Shared = shared(k, l, h, c);
    let reference: String = reference_unit(k, l, h, c, &s);
    let resolve: String = resolve_unit(k, l, h, c, &s);
    let wavefront: String = wavefront_unit(k, l, h, c, &s);
    let sky: String = sky_unit_src(l, h, c, sky_lod(l), cloud_shadow_n(l));
    let leaf: String = leaf_unit(k, l, h, c, &s, "#define LEAF_NO_FB 1");
    let leaf_fb: String = leaf_unit(k, l, h, c, &s, "");
    let hemi_wave: String = hemi_wave_unit(k, l, h, c, &s);
    let hemi_leaf: String = hemi_leaf_unit(k, l, h, c, &s);
    let compose: String = compose_unit(k, l, h, c, &s);
    let feed: String = feed_unit(k, l, h, c, &s);
    TraceSources {
        reference,
        resolve,
        wavefront,
        sky,
        leaf,
        leaf_fb,
        hemi_wave,
        hemi_leaf,
        compose,
        feed,
        spp: spp_defs(h),
        cloud_shadow_n: cloud_shadow_n(l),
        sky_lod: sky_lod(l),
        ftree_on: h.ftree_enabled,
        sway_mv_on: k.sway_armed && !sw_rays(l),
    }
}

/// The work-graph unit: the wavefront unit with its level counts in front and
/// the graph's nodes behind.
pub fn workgraph_src(c: &Corpus, wavefront: &str, wide: u32, deep: u32) -> (r: String)
    ensures
        r@ == "#define WORKGRAPH 1\n#define WG_WIDE_LEVELS "@ + text::dec(wide as nat)
            + "\n#define WG_DEEP_LEVELS "@ + text::dec(deep as nat) + "\n"@ + wavefront@ + "\n"@
            + c.workgraph@,
{
    let mut r: String = text::with_number(
        "#define WORKGRAPH 1\n#define WG_WIDE_LEVELS ",
        wide as u64,
        "\n#define WG_DEEP_LEVELS ",
    );
    text::push_dec(&mut r, deep as u64);
    r.append("\n");
    r.append(wavefront);
    r.append("\n");
    r.append(c.workgraph.as_str());
    r
}

fn push_part<'a>(parts: &mut Vec<&'a str>, on: bool, part: &'a str)
    ensures
        text::texts(final(parts)@) == text::texts(old(parts)@) + part_if(on, part@),
{
    if on {
        parts.push(part);
    }
    assert(text::texts(parts@) == text::texts(old(parts)@) + part_if(on, part@));
}

/// The first half of the known ablation tags, where they were given.
pub open spec fn first_tags(l: &Levers) -> Seq<Seq<char>> {
    Seq::<Seq<char>>::empty()
        + part_if(has_tag(l, "sunt"), "sunt"@)
        + part_if(has_tag(l, "rough"), "rough"@)
        + part_if(has_tag(l, "nogbuf"), "nogbuf"@)
        + part_if(has_tag(l, "nopack"), "nopack"@)
        + part_if(has_tag(l, "nowave"), "nowave"@)
        + part_if(has_tag(l, "wavegw"), "wavegw"@)
        + part_if(has_tag(l, "noelcull"), "noelcull"@)
        + part_if(has_tag(l, "noffcode"), "noffcode"@)
        + part_if(has_tag(l, "noelcode"), "noelcode"@)
        + part_if(has_tag(l, "oldcut"), "oldcut"@)
        + part_if(has_tag(l, "nobatch"), "nobatch"@)
}

/// The second half of the known ablation tags, where they were given.
pub open spec fn last_tags(l: &Levers) -> Seq<Seq<char>> {
    Seq::<Seq<char>>::empty()
        + part_if(has_tag(l, "nocandtmin"), "nocandtmin"@)
        + part_if(has_tag(l, "noalpha"), "noalpha"@)
        + part_if(has_tag(l, "noheight"), "noheight"@)
        + part_if(has_tag(l, "notrans"), "notrans"@)
        + part_if(has_tag(l, "tzero"), "tzero"@)
        + part_if(has_tag(l, "noshadow"), "noshadow"@)
        + part_if(has_tag(l, "noao"), "noao"@)
        + part_if(has_tag(l, "norefl"), "norefl"@)
        + part_if(has_tag(l, "noglass"), "noglass"@)
        + part_if(has_tag(l, "nogi"), "nogi"@)
        + part_if(has_tag(l, "nosec"), "nosec"@)
}

/// The ablation tags that the shader units know, where they were given.
pub open spec fn matched_tags(l: &Levers) -> Seq<Seq<char>> {
    first_tags(l) + last_tags(l)
}

fn list_first_tags(l: &Levers) -> (parts: Vec<&'static str>)
    ensures
        text::texts(parts@) == first_tags(l),
{
    let mut parts: Vec<&'static str> = Vec::new();
    assert(text::texts(parts@) == Seq::<Seq<char>>::empty());
    push_part(&mut parts, abl_has(l, "sunt"), "sunt");
    push_part(&mut parts, abl_has(l, "rough"), "rough");
    push_part(&mut parts, abl_has(l, "nogbuf"), "nogbuf");
    push_part(&mut parts, abl_has(l, "nopack"), "nopack");
    push_part(&mut parts, abl_has(l, "nowave"), "nowave");
    push_part(&mut parts, abl_has(l, "wavegw"), "wavegw");
    push_part(&mut parts, abl_has(l, "noelcull"), "noelcull");
    push_part(&mut parts, abl_has(l, "noffcode"), "noffcode");
    push_part(&mut parts, abl_has(l, "noelcode"), "noelcode");
    push_part(&mut parts, abl_has(l, "oldcut"), "oldcut");
    push_part(&mut parts, abl_has(l, "nobatch"), "nobatch");
    parts
}

fn list_last_tags(l: &Levers) -> (parts: Vec<&'static str>)
    ensures
        text::texts(parts@) == last_tags(l),
{
    let mut parts: Vec<&'static str> = Vec::new();
    assert(text::texts(parts@) == Seq::<Seq<char>>::empty());
    push_part(&mut parts, abl_has(l, "nocandtmin"), "nocandtmin");
    push_part(&mut parts, abl_has(l, "noalpha"), "noalpha");
    push_part(&mut parts, abl_has(l, "noheight"), "noheight");
    push_part(&mut parts, abl_has(l, "notrans"), "notrans");
    push_part(&mut parts, abl_has(l, "tzero"), "tzero");
    push_part(&mut parts, abl_has(l, "noshadow"), "noshadow");
    push_part(&mut parts, abl_has(l, "noao"), "noao");
    push_part(&mut parts, abl_has(l, "norefl"), "norefl");
    push_part(&mut parts, abl_has(l, "noglass"), "noglass");
    push_part(&mut parts, abl_has(l, "nogi"), "nogi");
    push_part(&mut parts, abl_has(l, "nosec"), "nosec");
    parts
}

/// The known ablation tags that were given.
#[verifier::spinoff_prover]
fn list_tags(l: &Levers) -> (parts: Vec<&'static str>)
    ensures
        text::texts(parts@) == matched_tags(l),
{
    let mut parts: Vec<&'static str> = list_first_tags(l);
    let mut rest: Vec<&'static str> = list_last_tags(l);
    let ghost a = parts@;
    let ghost b = rest@;
    parts.append(&mut rest);
    proof {
        lemma_texts_join(a, b);
    }
    parts
}

proof fn lemma_texts_join(a: Seq<&str>, b: Seq<&str>)
    ensures
        text::texts(a + b) == text::texts(a) + text::texts(b),
{
}

/// A list in words.
fn list_or_none(parts: &[&str]) -> (r: String)
    ensures
        r@ == if parts@.len() == 0 {
            "(none)"@
        } else {
            text::joined(text::texts(parts@), ","@)
        },
{
    if parts.len() == 0 {
        "(none)".to_owned()
    } else {
        text::join(parts, ",")
    }
}

/// What to announce of the ablation tags: nothing where none was given, else
/// the known ones among them.
#[verifier::spinoff_prover]
pub fn abl_announce(l: &Levers) -> (r: Option<String>)
    ensures
        match r {
            None => l.abl@.len() == 0,
            Some(list) => l.abl@.len() > 0 && list@ == if matched_tags(l).len() == 0 {
                "(none)"@
            } else {
                text::joined(matched_tags(l), ","@)
            },
        },
{
    if l.abl.as_str().is_empty() {
        return None;
    }
    let parts: Vec<&'static str> = list_tags(l);
    let ghost tags = matched_tags(l);
    assert(text::texts(parts@) == tags);
    Some(list_or_none(parts.as_slice()))
}

/// What the ray-tracing pipeline is compiled for.
pub struct DxrKeys<'a> {
    pub scene: &'a Scene,
    pub sway_armed: bool,
    /// 0: separate shaders; 1 and 2: inline secondary rays; 3: deferred
    /// shading.
    pub inline_mode: u32,
    /// Secondary rays recurse through the shader table.
    pub recurse: bool,
    /// The full set of guide planes is written.
    pub gbuf_full: bool,
    /// The denoiser bridge is wanted.
    pub nrd: bool,
}

/// The units of the ray-tracing pipeline, and the levers they were built with.
pub struct DxrSources {
    pub library: String,
    /// Shader model of the library.
    pub lib_target: &'static str,
    pub resolve: String,
    pub sky: Option<String>,
    pub feed: Option<String>,
    pub nrd_bridge: Option<String>,
    pub dxr_shade: Option<String>,
    pub cloud_shadow_n: u32,
    pub sky_lod: u32,
    pub sway_mv_on: bool,
}

/// Levers that this pipeline mode cannot honour.
#[derive(Clone, Copy, Debug, PartialEq, Eq, Structural)]
pub struct DxrNotices {
    /// Ballast needs mode 2.
    pub ballast_off: bool,
    /// Closest-hit tickets need mode 1; the ray-generation shader's are used.
    pub chs_off: bool,
    /// Tickets need mode 1 or 2.
    pub waveviz_off: bool,
}

/// The defines that the library and the deferred unit share.
pub open spec fn dxr_defs_text(k: &DxrKeys, l: &Levers, h: &Host) -> Seq<char> {
    unit(
        seq![
            line_if(k.scene.indices@.len() == 0, "#define SCENE_EMPTY 1"),
            line_if(k.scene.any_alpha && !has_tag(l, "noalpha"), "#define ALPHA_CUTOUT 1"),
            line_if(
                k.scene.any_height && h.height_armed && !has_tag(l, "noheight"),
                "#define HEIGHTFIELD 1",
            ),
            line_if(k.scene.any_transmissive && !has_tag(l, "notrans"), "#define TRANS_SHADOW 1"),
            line_if(h.max_prims is Some, "#define BLAS_SPLIT 1"),
            line_if(k.sway_armed, "#define SWAY_MV 1"),
            abl_text(l),
            line_if(h.rtgi, "#define RTGI 1"),
        ],
    )
}

/// Cloud cache and lattice, without the sky unit's own define.
pub open spec fn dxr_cloud_text(l: &Levers) -> Seq<char> {
    "#define CLOUD_SHADOW_N "@ + text::dec(l.cloud_shadow as nat) + "\n#define SKY_LOD "@ + text::dec(
        l.sky_lod as nat,
    ) + "\n#define SKY_LOD_LOG "@ + text::dec(
        vstd::std_specs::bits::u32_trailing_zeros(l.sky_lod) as nat,
    )
}

/// The mode define.
pub open spec fn inline_text(k: &DxrKeys) -> Seq<char> {
    "#define DXR_INLINE_SEC "@ + text::dec(k.inline_mode as nat)
}

/// Inline ray queries are compiled into the library.
pub open spec fn uses_queries(k: &DxrKeys) -> bool {
    k.inline_mode > 0 || k.recurse
}

/// Tickets are compiled into the library.
pub open spec fn dxr_tickets(k: &DxrKeys, l: &Levers) -> bool {
    l.waveviz_mode != 0 && (k.inline_mode == 1 || k.inline_mode == 2)
}

/// The shader library.
pub open spec fn library_text(k: &DxrKeys, l: &Levers, h: &Host, c: &Corpus) -> Seq<char> {
    unit(
        seq![dxr_defs_text(k, l, h), spp_text(h), detail_text(h), dxr_cloud_text(l)] + part_if(
            k.inline_mode > 0,
            inline_text(k),
        ) + part_if(k.recurse, "#define DXR_SBT_RECURSE 1"@) + part_if(
            l.width_probe && uses_queries(k),
            "#define WIDTH_PROBE_RAYGEN 1"@,
        ) + part_if(l.ballast.1 != 0 && k.inline_mode == 2, ballast_text(l.ballast.1)) + part_if(
            dxr_tickets(k, l),
            waveviz_text(l),
        ) + part_if(
            dxr_tickets(k, l) && l.waveviz_mode == 2 && k.inline_mode == 1,
            "#define WAVEVIZ_CHS 1"@,
        ) + seq![c.trace_common_text(), c.skylod@] + part_if(uses_queries(k), c.rt@) + seq![
            c.rt_dxr@,
            c.ripple@,
            c.shade@,
            c.dxr@,
        ],
    )
}

/// A unit behind the ablation defines, where there are any.
pub open spec fn abl_first_text(l: &Levers, h: &Host, c: &Corpus, last: Seq<char>) -> Seq<char> {
    unit(
        part_if(abl_text(l).len() > 0, abl_text(l)) + seq![
            spp_text(h),
            c.trace_common_text(),
            c.fsr_wire@,
            last,
        ],
    )
}

/// The deferred shading unit.
pub open spec fn dxr_shade_text(k: &DxrKeys, l: &Levers, h: &Host, c: &Corpus) -> Seq<char> {
    unit(
        part_if(l.width_probe, width_text(l)) + seq![
            dxr_defs_text(k, l, h),
            spp_text(h),
            detail_text(h),
            dxr_cloud_text(l),
            inline_text(k),
            c.trace_common_text(),
            c.skylod@,
            c.rt@,
            c.ripple@,
            c.shade@,
            c.dxr_shade@,
        ],
    )
}

/// The optional unit is there exactly where wanted, with this text.
pub open spec fn unit_if(r: Option<String>, on: bool, body: Seq<char>) -> bool {
    match r {
        Some(s) => on && s@ == body,
        None => !on,
    }
}

impl DxrSources {
    /// What the ray-tracing units are.
    pub open spec fn describes(&self, k: &DxrKeys, l: &Levers, h: &Host, c: &Corpus) -> bool {
        &&& self.library@ == library_text(k, l, h, c)
        &&& self.lib_target@ == if uses_queries(k) {
            "lib_6_5"@
        } else {
            "lib_6_3"@
        }
        &&& self.resolve@ == resolve_text(h, c)
        &&& unit_if(
            self.sky,
            l.sky_lod > 1 || l.cloud_shadow > 0,
            sky_unit_text(l, h, c, l.sky_lod, l.cloud_shadow),
        )
        &&& unit_if(self.feed, k.gbuf_full, abl_first_text(l, h, c, c.feed@))
        &&& unit_if(
            self.nrd_bridge,
            k.gbuf_full && k.nrd,
            abl_first_text(l, h, c, c.nrd_bridge@),
        )
        &&& unit_if(self.dxr_shade, k.inline_mode == 3, dxr_shade_text(k, l, h, c))
        &&& self.cloud_shadow_n == l.cloud_shadow
        &&& self.sky_lod == l.sky_lod
        &&& self.sway_mv_on == k.sway_armed
    }
}

fn dxr_defs(k: &DxrKeys, l: &Levers, h: &Host) -> (r: String)
    ensures
        r@ == dxr_defs_text(k, l, h),
{
    let abl: String = abl_defs(l);
    let mut parts: Vec<&str> = Vec::new();
    parts.push(empty_defs(k.scene));
    parts.push(alpha_defs(k.scene, l));
    parts.push(height_defs(k.scene, l, h));
    parts.push(trans_defs(k.scene, l));
    parts.push(blas_defs(h));
    parts.push(sway_defs(k.sway_armed));
    parts.push(abl.as_str());
    parts.push(rtgi_defs(h));
    assert(text::texts(parts@) == seq![
        line_if(k.scene.indices@.len() == 0, "#define SCENE_EMPTY 1"),
        line_if(k.scene.any_alpha && !has_tag(l, "noalpha"), "#define ALPHA_CUTOUT 1"),
        line_if(
            k.scene.any_height && h.height_armed && !has_tag(l, "noheight"),
            "#define HEIGHTFIELD 1",
        ),
        line_if(k.scene.any_transmissive && !has_tag(l, "notrans"), "#define TRANS_SHADOW 1"),
        line_if(h.max_prims is Some, "#define BLAS_SPLIT 1"),
        line_if(k.sway_armed, "#define SWAY_MV 1"),
        abl_text(l),
        line_if(h.rtgi, "#define RTGI 1"),
    ]);
    text::join(parts.as_slice(), "\n")
}

fn dxr_cloud_defs(l: &Levers) -> (r: String)
    ensures
        r@ == dxr_cloud_text(l),
{
    let mut r: String = "#define CLOUD_SHADOW_N ".to_owned();
    text::push_dec(&mut r, l.cloud_shadow as u64);
    r.append("\n#define SKY_LOD ");
    text::push_dec(&mut r, l.sky_lod as u64);
    r.append("\n#define SKY_LOD_LOG ");
    text::push_dec(&mut r, l.sky_lod.trailing_zeros() as u64);
    r
}

fn inline_defs(k: &DxrKeys) -> (r: String)
    ensures
        r@ == inline_text(k),
{
    let mut r: String = "#define DXR_INLINE_SEC ".to_owned();
    text::push_dec(&mut r, k.inline_mode as u64);
    r
}

fn library_unit(k: &DxrKeys, l: &Levers, h: &Host, c: &Corpus) -> (r: String)
    requires
        h.wf(),
    ensures
        r@ == library_text(k, l, h, c),
{
    let defs: String = dxr_defs(k, l, h);
    let spp: String = spp_defs(h);
    let detail: String = detail_defs(h);
    let cloud: String = dxr_cloud_defs(l);
    let inline: String = inline_defs(k);
    let ballast: String = ballast_dxr_defs(l);
    let tickets: String = waveviz_defs(l);
    let common: String = c.trace_common();
    let queries: bool = k.inline_mode > 0 || k.recurse;
    let ticketed: bool = waveviz_on(l) && (k.inline_mode == 1 || k.inline_mode == 2);
    let mut parts: Vec<&str> = Vec::new();
    parts.push(defs.as_str());
    parts.push(spp.as_str());
    parts.push(detail.as_str());
    parts.push(cloud.as_str());
    assert(text::texts(parts@) == seq![
        dxr_defs_text(k, l, h),
        spp_text(h),
        detail_text(h),
        dxr_cloud_text(l),
    ]);
    push_part(&mut parts, k.inline_mode > 0, inline.as_str());
    push_part(&mut parts, k.recurse, "#define DXR_SBT_RECURSE 1");
    push_part(&mut parts, l.width_probe && queries, "#define WIDTH_PROBE_RAYGEN 1");
    push_part(&mut parts, ballast_dxr_n(l) != 0 && k.inline_mode == 2, ballast.as_str());
    push_part(&mut parts, ticketed, tickets.as_str());
    push_part(
        &mut parts,
        ticketed && waveviz_chs(l) && k.inline_mode == 1,
        "#define WAVEVIZ_CHS 1",
    );
    let ghost head = text::texts(parts@);
    parts.push(common.as_str());
    parts.push(c.skylod.as_str());
    assert(text::texts(parts@) == head + seq![c.trace_common_text(), c.skylod@]);
    push_part(&mut parts, queries, c.rt.as_str());
    let ghost body = text::texts(parts@);
    parts.push(c.rt_dxr.as_str());
    parts.push(c.ripple.as_str());
    parts.push(c.shade.as_str());
    parts.push(c.dxr.as_str());
    assert(text::texts(parts@) == body + seq![c.rt_dxr@, c.ripple@, c.shade@, c.dxr@]);
    text::join(parts.as_slice(), "\n")
}

fn abl_first(l: &Levers, h: &Host, c: &Corpus, last: &str) -> (r: String)
    requires
        h.wf(),
    ensures
        r@ == abl_first_text(l, h, c, last@),
{
    let abl: String = abl_defs(l);
    let spp: String = spp_defs(h);
    let common: String = c.trace_common();
    let mut parts: Vec<&str> = Vec::new();
    if !abl.as_str().is_empty() {
        parts.push(abl.as_str());
    }
    parts.push(spp.as_str());
    parts.push(common.as_str());
    parts.push(c.fsr_wire.as_str());
    parts.push(last);
    assert(text::texts(parts@) == part_if(abl_text(l).len() > 0, abl_text(l)) + seq![
        spp_text(h),
        c.trace_common_text(),
        c.fsr_wire@,
        last@,
    ]);
    text::join(parts.as_slice(), "\n")
}

fn dxr_shade_unit(k: &DxrKeys, l: &Levers, h: &Host, c: &Corpus) -> (r: String)
    requires
        h.wf(),
    ensures
        r@ == dxr_shade_text(k, l, h, c),
{
    let width: String = width_defs(l);
    let defs: String = dxr_defs(k, l, h);
    let spp: String = spp_defs(h);
    let detail: String = detail_defs(h);
    let cloud: String = dxr_cloud_defs(l);
    let inline: String = inline_defs(k);
    let common: String = c.trace_common();
    let mut parts: Vec<&str> = Vec::new();
    if l.width_probe {
        parts.push(width.as_str());
    }
    parts.push(defs.as_str());
    parts.push(spp.as_str());
    parts.push(detail.as_str());
    parts.push(cloud.as_str());
    parts.push(inline.as_str());
    parts.push(common.as_str());
    parts.push(c.skylod.as_str());
    parts.push(c.rt.as_str());
    parts.push(c.ripple.as_str());
    parts.push(c.shade.as_str());
    parts.push(c.dxr_shade.as_str());
    assert(text::texts(parts@) == part_if(l.width_probe, width_text(l)) + seq![
        dxr_defs_text(k, l, h),
        spp_text(h),
        detail_text(h),
        dxr_cloud_text(l),
        inline_text(k),
        c.trace_common_text(),
        c.skylod@,
        c.rt@,
        c.ripple@,
        c.shade@,
        c.dxr_shade@,
    ]);
    text::join(parts.as_slice(), "\n")
}

/// Assemble the units of the ray-tracing pipeline, and say which levers this
/// mode leaves out.
pub fn dxr_sources(k: &DxrKeys, l: &Levers, h: &Host, c: &Corpus) -> (r: (DxrSources, DxrNotices))
    requires
        h.wf(),
    ensures
        r.0.describes(k, l, h, c),
        r.1.ballast_off == (l.ballast.1 != 0 && k.inline_mode != 2),
        r.1.waveviz_off == (l.waveviz_mode != 0 && k.inline_mode != 1 && k.inline_mode != 2),
        r.1.chs_off == (l.waveviz_mode == 2 && k.inline_mode == 2),
{
    let library: String = library_unit(k, l, h, c);
    let lib_target: &'static str = if k.inline_mode > 0 || k.recurse {
        "lib_6_5"
    } else {
        "lib_6_3"
    };
    let spp: String = spp_defs(h);
    let common: String = c.trace_common();
    let mut parts: Vec<&str> = Vec::new();
    parts.push(spp.as_str());
    parts.push(common.as_str());
    parts.push(c.resolve.as_str());
    assert(text::texts(parts@) == seq![spp_text(h), c.trace_common_text(), c.resolve@]);
    let resolve: String = text::join(parts.as_slice(), "\n");
    let sky: Option<String> = if sky_lod(l) > 1 || cloud_shadow_n(l) > 0 {
        Some(sky_unit_src(l, h, c, sky_lod(l), cloud_shadow_n(l)))
    } else {
        None
    };
    let feed: Option<String> = if k.gbuf_full {
        Some(abl_first(l, h, c, c.feed.as_str()))
    } else {
        None
    };
    let nrd_bridge: Option<String> = if k.gbuf_full && k.nrd {
        Some(abl_first(l, h, c, c.nrd_bridge.as_str()))
    } else {
        None
    };
    let dxr_shade: Option<String> = if k.inline_mode == 3 {
        Some(dxr_shade_unit(k, l, h, c))
    } else {
        None
    };
    let notices: DxrNotices = DxrNotices {
        ballast_off: ballast_dxr_n(l) != 0 && k.inline_mode != 2,
        chs_off: waveviz_chs(l) && k.inline_mode == 2,
        waveviz_off: waveviz_on(l) && k.inline_mode != 1 && k.inline_mode != 2,
    };
    (
        DxrSources {
            library,
            lib_target,
            resolve,
            sky,
            feed,
            nrd_bridge,
            dxr_shade,
            cloud_shadow_n: cloud_shadow_n(l),
            sky_lod: sky_lod(l),
            sway_mv_on: k.sway_armed,
        },
        notices,
    )
}

/// Both pipelines compile one sky fill and one resolve: whatever the session,
/// the texts are the same.
pub proof fn pipelines_share_sky_and_resolve(
    tk: &TraceKeys,
    dk: &DxrKeys,
    l: &Levers,
    h: &Host,
    c: &Corpus,
    t: &TraceSources,
    d: &DxrSources,
)
    requires
        t.describes(tk, l, h, c),
        d.describes(dk, l, h, c),
    ensures
        d.resolve@ == t.resolve@,
        d.sky matches Some(s) ==> s@ == t.sky@,
        d.cloud_shadow_n == t.cloud_shadow_n,
        d.sky_lod == t.sky_lod,
{
}

/// A session that arms no probe compiles no trace of one: without the width
/// report, ballast and tickets, the units start with their own defines.
pub proof fn quiet_sessions_add_no_part(k: &TraceKeys, l: &Levers, h: &Host, c: &Corpus)
    requires
        !l.width_probe,
        l.ballast.0 == 0,
        l.waveviz_mode == 0,
    ensures
        reference_text(k, l, h, c) == unit(
            seq![
                cloud_text(l.cloud_shadow),
                lod_text(l.sky_lod),
                trace_defs_text(k, l, h),
                sw_text(l, h),
                spp_text(h),
                detail_text(h),
                c.trace_common_text(),
                c.skylod@,
                rays_text(l, c),
                c.ripple@,
                c.shade@,
                c.reference@,
            ],
        ),
{
    let tail = seq![
        cloud_text(l.cloud_shadow),
        lod_text(l.sky_lod),
        trace_defs_text(k, l, h),
        sw_text(l, h),
        spp_text(h),
        detail_text(h),
        c.trace_common_text(),
        c.skylod@,
        rays_text(l, c),
        c.ripple@,
        c.shade@,
        c.reference@,
    ];
    let none = Seq::<Seq<char>>::empty();
    assert(none + none + none + tail == tail);
}

/// A recorded ballast belongs to one pipeline: never both.
pub proof fn ballast_targets_one_pipeline(var: Option<&str>)
    ensures
        ({
            let (n, _) = ballast_reading(var);
            n.0 == 0 || n.1 == 0
        }),
{
}

/// The wave-width slots lie past everything a frame clears.
pub proof fn width_slots_survive_clearing()
    ensures
        CTR_W_LEAF >= CTR_COUNT,
        CTR_W_SKY >= CTR_COUNT,
        CTR_W_LEVEL >= CTR_COUNT,
        CTR_W_HEMI >= CTR_COUNT,
        CTR_W_REFERENCE >= CTR_COUNT,
        CTR_TOTAL == CTR_W_REFERENCE + 1,
{
}

} // verus!
