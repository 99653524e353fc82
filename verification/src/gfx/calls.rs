//! What callers of the shared graphics code can count on, call by call.
use crate::bits;
use crate::bits::Bits3;
use crate::bvh::BvhNode;
use crate::gfx::defines;
use crate::gfx::defines::told;
use crate::gfx::denoise;
use crate::gfx::denoise::{Choices, CommonSettings, FrameView, Plane, ReblurSettings, ResourceTypes};
use crate::gfx::frame;
use crate::gfx::frame::{FrameCb, Quality, Row4, SceneRows, TableSizes};
use crate::gfx::hud_frame;
use crate::gfx::hud_frame::{DirtyRect, HudFrame};
use crate::gfx::scene as streams;
use crate::gfx::scene::{GpuBvhNode, GpuMat};
use crate::gfx::shaders;
use crate::gfx::shaders::{Host, Levers, Reading};
use crate::gfx::tiles;
use crate::gfx::tiles::TileSplit;
use crate::gfx::vocab::Vendor;
use crate::scene::{MatKind, Scene};
use crate::text;
use vstd::arithmetic::power2::pow2;
use vstd::prelude::*;

verus! {

/// The block before any frame is dark and idle but for the scene, the screen
/// size and the defaults: one sample a pixel, two bounces, fireflies at their
/// own size, hemisphere points for every pixel, and the near and far planes
/// beside the previous camera.
pub proof fn base_blocks_are_idle(
    s: &SceneRows,
    sizes: &TableSizes,
    rw: u32,
    rh: u32,
    cb: FrameCb,
    i: int,
)
    requires
        rw * rh <= u32::MAX,
        call_ensures(FrameCb::base, (s, sizes, rw, rh), cb),
    ensures
        cb.rw == rw && cb.rh == rh && cb.cap_hemi_pt == rw * rh && cb.hemi_batch == 16384,
        cb.spp == 1 && cb.fb_depth == 2 && cb.ff_scale == 0x3f80_0000 && cb.height_max
            == s.height_max,
        cb.prev_right.w == s.near && cb.prev_up.w == s.far,
        cb.frame == 0 && cb.flags == 0 && cb.shadow_samples == 0 && cb.ao_samples == 0
            && cb.reflections == 0 && cb.fb_mode == 0 && cb.ff_count == 0 && cb.probe_sample == 0
            && cb.pixel_cone == 0,
        cb.cap_tile == 0 && cb.cap_leaf == 0 && cb.cap_sky == 0 && cb.cap_cut == 0
            && cb.cap_hemi_cell == 0 && cb.cap_hemi_leaf == 0 && cb.cap_hemi_cut == 0,
        cb.jitters@.len() == sizes.jitter_rows && cb.ff@.len() == sizes.fireflies && cb.el_a@.len()
            == sizes.lights && cb.el_b@.len() == sizes.lights,
        0 <= i < sizes.jitter_rows ==> cb.jitters@[i].x == 0 && cb.jitters@[i].y == 0
            && cb.jitters@[i].z == 0 && cb.jitters@[i].w == 0,
        0 <= i < sizes.fireflies ==> cb.ff@[i].x == 0 && cb.ff@[i].y == 0 && cb.ff@[i].z == 0
            && cb.ff@[i].w == 0,
{
    assert(cb.caps()[0] == 0 && cb.caps()[1] == 0 && cb.caps()[2] == 0 && cb.caps()[3] == 0
        && cb.caps()[4] == 0 && cb.caps()[5] == 0 && cb.caps()[6] == 0);
}

/// Setting the queue capacities sets each of the seven to its own, and the
/// tiles' row tells of their mask, low half first, and of their depth.
pub proof fn queues_and_tiles_are_set(
    a: &mut FrameCb,
    caps: (u32, u32, u32, u32, u32, u32, u32),
    b: &mut FrameCb,
    split: TileSplit,
)
    requires
        call_ensures(
            FrameCb::set_caps,
            (a, caps.0, caps.1, caps.2, caps.3, caps.4, caps.5, caps.6),
            (),
        ),
        call_ensures(FrameCb::set_split, (b, split), ()),
    ensures
        final(a).cap_tile == caps.0 && final(a).cap_leaf == caps.1 && final(a).cap_sky == caps.2,
        final(a).cap_cut == caps.3 && final(a).cap_hemi_cell == caps.4,
        final(a).cap_hemi_leaf == caps.5 && final(a).cap_hemi_cut == caps.6,
        final(a).cam_right == old(a).cam_right && final(a).flags == old(a).flags && final(a).split
            == old(a).split && final(a).cap_hemi_pt == old(a).cap_hemi_pt,
        final(b).split.x + 0x1_0000_0000 * final(b).split.y == split.mask,
        final(b).split.z == split.depth && final(b).split.w == 0,
        final(b).flags == old(b).flags && final(b).cap_tile == old(b).cap_tile && final(b).sway_mv_base
            == old(b).sway_mv_base,
{
}

/// Arming the sway correction sets its bit and its table's first row.
pub proof fn sway_corrections_are_armed(a: &mut FrameCb, base: u32)
    requires
        call_ensures(FrameCb::arm_sway_mv, (a, base), ()),
    ensures
        final(a).sway_mv_base.x == base && final(a).sway_mv_base.y == 0 && final(a).sway_mv_base.z
            == 0 && final(a).sway_mv_base.w == 0,
        final(a).flags == old(a).flags | 8192,
        final(a).cap_tile == old(a).cap_tile && final(a).split == old(a).split && final(a).cam_up
            == old(a).cam_up && final(a).el_meta == old(a).el_meta,
{
}

/// The bounce tier: global illumination before ambient occlusion.
pub proof fn bounce_tiers_are_told(q: &Quality, mode: u32)
    requires
        call_ensures(frame::fb_mode_of, (q,), mode),
    ensures
        q.fb.gi ==> mode == 2,
        !q.fb.gi && q.fb.ao ==> mode == 1,
        !q.fb.gi && !q.fb.ao ==> mode == 0,
{
}

/// The denoiser's levers: the first two are on unless `off` is said, the residual
/// cap is off unless `on` or `hard` is, and what is none of their words is
/// refused.
pub proof fn denoiser_levers_take_their_words(
    var: Option<&str>,
    a: (bool, Reading),
    b: (bool, Reading),
    c: ((bool, bool), Reading),
)
    requires
        call_ensures(frame::nrd_rejitter_lever, (var,), a),
        call_ensures(frame::nrd_remod_lever, (var,), b),
        call_ensures(frame::nrd_rclamp_lever, (var,), c),
    ensures
        a == b,
        var is None ==> a == (true, Reading::Unset) && c == ((false, false), Reading::Unset),
        var matches Some(v) ==> {
            &&& v@ == "off"@ ==> a == (false, Reading::Taken) && c.0 == (false, false)
            &&& v@ == "on"@ && v@ != "off"@ ==> a == (true, Reading::Taken) && c == (
                (true, false),
                Reading::Taken,
            )
            &&& v@ == "hard"@ && v@ != "off"@ && v@ != "on"@ ==> c == ((true, true), Reading::Taken)
            &&& v@ != "off"@ && v@ != "on"@ ==> a == (true, Reading::Refused)
            &&& v@ != "off"@ && v@ != "on"@ && v@ != "hard"@ ==> c == (
                (false, false),
                Reading::Refused,
            )
        },
{
}

/// The width settings: the leaf group takes a power of two from 8 to 256, the
/// lane stack one from 8 to 64, and the wide levels any number; what they do not
/// take leaves 256, 16 and 7.
pub proof fn width_settings_take_their_numbers(
    var: Option<&str>,
    group: (u32, Reading),
    stack: (u32, Reading),
    levels: (u32, Reading),
)
    requires
        call_ensures(shaders::leaf_group, (var,), group),
        call_ensures(shaders::lane_stack, (var,), stack),
        call_ensures(shaders::wide_levels, (var,), levels),
    ensures
        var is None ==> group == (256u32, Reading::Unset) && stack == (16u32, Reading::Unset)
            && levels == (7u32, Reading::Unset),
        var matches Some(v) ==> {
            let n = text::reads_as(v@);
            &&& n is None ==> group == (256u32, Reading::Refused) && stack == (
                16u32,
                Reading::Refused,
            ) && levels == (7u32, Reading::Refused)
            &&& n is Some ==> {
                let k = n->0;
                let power = k == 8 || k == 16 || k == 32 || k == 64 || k == 128 || k == 256;
                &&& levels == (k, Reading::Taken)
                &&& power ==> group == (k, Reading::Taken)
                &&& !power ==> group == (256u32, Reading::Refused)
                &&& power && k <= 64 ==> stack == (k, Reading::Taken)
                &&& !(power && k <= 64) ==> stack == (16u32, Reading::Refused)
            }
        },
{
}

/// The probes are armed by their own words: the width report by `1`, wave
/// tickets by `1` and, in the closest-hit stage, by `chs`, and the lane-major
/// stack by `lane`.
pub proof fn probes_take_their_words(
    var: Option<&str>,
    width: (bool, Reading),
    tickets: (u8, Reading),
    layout: (&'static str, Reading),
)
    requires
        call_ensures(shaders::width_probe_on, (var,), width),
        call_ensures(shaders::waveviz_env, (var,), tickets),
        call_ensures(shaders::stack_layout_def, (var,), layout),
    ensures
        var is None ==> width == (false, Reading::Unset) && tickets == (0u8, Reading::Unset)
            && layout.0@ == ""@ && layout.1 == Reading::Unset,
        var matches Some(v) ==> {
            &&& width.0 <==> v@ == "1"@
            &&& width.1 == if width.0 { Reading::Taken } else { Reading::Refused }
            &&& v@ == "1"@ ==> tickets == (1u8, Reading::Taken)
            &&& v@ != "1"@ && v@ == "chs"@ ==> tickets == (2u8, Reading::Taken)
            &&& v@ != "1"@ && v@ != "chs"@ ==> tickets == (0u8, Reading::Refused)
            &&& v@ != "depth"@ && v@ == "lane"@ ==> layout.0@ == "\n#define STACK_LANE_MAJOR 1"@
                && layout.1 == Reading::Taken
            &&& v@ != "depth"@ && v@ != "lane"@ ==> layout.0@ == ""@ && layout.1
                == Reading::Refused
            &&& v@ == "depth"@ ==> layout.0@ == ""@ && layout.1 == Reading::Unset
        },
{
}

/// The levers start at their defaults and keep what they are set to.
pub proof fn levers_start_and_stay(
    fresh: Levers,
    a: &mut Levers,
    b: &mut Levers,
    c: &mut Levers,
    d: &mut Levers,
    n: u32,
    mode: u8,
    on: bool,
)
    requires
        call_ensures(Levers::new, (), fresh),
        call_ensures(shaders::set_cloud_shadow, (a, n), ()),
        call_ensures(shaders::set_sky_lod, (b, n), ()),
        call_ensures(shaders::set_waveviz, (c, mode), ()),
        call_ensures(shaders::set_waveviz_live, (d, on), ()),
    ensures
        fresh.cloud_shadow == 16 && fresh.sky_lod == 4 && fresh.leaf_group == 256
            && fresh.wide_levels == 7 && fresh.lane_stack == 16 && fresh.wide_levels_on,
        !fresh.sw_rays && fresh.waveviz_mode == 0 && !fresh.waveviz_live && !fresh.width_probe
            && fresh.ballast.0 == 0 && fresh.ballast.1 == 0 && fresh.abl@.len() == 0
            && !fresh.stack_lane_major,
        *final(a) == (Levers { cloud_shadow: n, ..*old(a) }),
        *final(b) == (Levers { sky_lod: n, ..*old(b) }),
        *final(c) == (Levers { waveviz_mode: mode, ..*old(c) }),
        *final(d) == (Levers { waveviz_live: on, ..*old(d) }),
{
}

/// The full depth is the least number of doublings that take the leaf tile past
/// both screen axes.
pub proof fn full_depths_cover_the_screen(tile: u32, rw: u32, rh: u32, d: u32)
    requires
        tile >= 1,
        call_ensures(shaders::depth_full, (tile, rw, rh), d),
    ensures
        tile * pow2(d as nat) >= rw && tile * pow2(d as nat) >= rh,
        d > 0 ==> tile * pow2((d - 1) as nat) < rw || tile * pow2((d - 1) as nat) < rh,
{
    crate::gfx::defines::doublings_are_powers_of_two(tile as int, d as nat);
    if d > 0 {
        crate::gfx::defines::doublings_are_powers_of_two(tile as int, (d - 1) as nat);
    }
}

/// The scene's defines are said exactly where the scene has what they are about
/// and no tag takes it away.
pub proof fn scene_defines_follow_the_scene(
    scene: &Scene,
    vendor: Vendor,
    l: &Levers,
    h: &Host,
    armed: bool,
    alpha: &'static str,
    empty: &'static str,
    height: &'static str,
    trans: &'static str,
    cand: &'static str,
    sway: &'static str,
    mixed: bool,
)
    requires
        call_ensures(shaders::alpha_defs, (scene, l), alpha),
        call_ensures(shaders::empty_defs, (scene,), empty),
        call_ensures(shaders::height_defs, (scene, l, h), height),
        call_ensures(shaders::trans_defs, (scene, l), trans),
        call_ensures(shaders::cand_defs, (vendor, l), cand),
        call_ensures(shaders::sway_defs, (armed,), sway),
        call_ensures(shaders::non_opaque, (scene, l, h), mixed),
    ensures
        ({
            let cut = scene.any_alpha && !text::has(l.abl@, "noalpha"@);
            let relief = scene.any_height && h.height_armed && !text::has(l.abl@, "noheight"@);
            let clear = scene.any_transmissive && !text::has(l.abl@, "notrans"@);
            &&& alpha@ == if cut { "#define ALPHA_CUTOUT 1"@ } else { ""@ }
            &&& height@ == if relief { "#define HEIGHTFIELD 1"@ } else { ""@ }
            &&& trans@ == if clear { "#define TRANS_SHADOW 1"@ } else { ""@ }
            &&& mixed <==> cut || relief || clear
        }),
        empty@ == if scene.indices@.len() == 0 { "#define SCENE_EMPTY 1"@ } else { ""@ },
        cand@ == if vendor == Vendor::Amd && !text::has(l.abl@, "nocandtmin"@) {
            "#define CAND_TMIN0 1"@
        } else {
            ""@
        },
        sway@ == if armed { "#define SWAY_MV 1"@ } else { ""@ },
{
}

/// The width report reads the five slots past everything that a frame clears.
pub proof fn width_reports_read_their_slots(c: &[u32], r: String)
    requires
        call_ensures(shaders::format_width_report, (c,), r),
    ensures
        r@ == "width (gpu): leaf="@ + text::dec(c@[26] as nat) + " sky="@ + text::dec(c@[27] as nat)
            + " level="@ + text::dec(c@[28] as nat) + " hemi="@ + text::dec(c@[29] as nat)
            + " reference="@ + text::dec(c@[30] as nat),
{
}

/// A share of the screen's tile rows: the secondary takes the last ones, the
/// primary what is above, and at least one row; no share is no split.
pub proof fn shares_go_to_the_last_rows(
    rows: u32,
    depth: u32,
    pair: (TileSplit, Option<TileSplit>),
    p: int,
)
    requires
        depth <= 3,
        call_ensures(TileSplit::for_share, (rows, depth), pair),
        0 <= p < 64,
    ensures
        rows == 0 || depth == 0 ==> pair.1 is None && pair.0.depth == 0 && pair.0.mask == u64::MAX,
        rows > 0 && depth > 0 ==> {
            let side = pow2(depth as nat) as int;
            let first = if rows < side { side - rows } else { 1 };
            let row = tiles::row_of(depth as int, p);
            let tile = p < pow2(2 * depth as nat);
            &&& pair.0.depth == depth && pair.1 is Some && pair.1->0.depth == depth
            &&& tiles::has_bit(pair.0.mask, p) <==> tile && 0 <= row < first
            &&& tiles::has_bit(pair.1->0.mask, p) <==> tile && first <= row < side
        },
{
    tiles::tiles_come_in_powers(depth as nat);
}

/// A split's row for the shaders, and what its complement holds.
pub proof fn splits_tell_their_tiles(
    s: TileSplit,
    row: [u32; 4],
    rest: TileSplit,
    n: u32,
    p: int,
)
    requires
        s.depth <= 3,
        call_ensures(TileSplit::cb_row, (&s,), row),
        call_ensures(TileSplit::complement, (&s,), rest),
        call_ensures(TileSplit::tiles_at, (s.depth,), n),
        0 <= p < 64,
    ensures
        row@.len() == 4 && row@[0] + 0x1_0000_0000 * row@[1] == s.mask && row@[2] == s.depth
            && row@[3] == 0,
        n == pow2(2 * s.depth as nat),
        rest.depth == s.depth,
        s.depth > 0 ==> (tiles::has_bit(rest.mask, p) <==> p < n && !tiles::has_bit(s.mask, p)),
        s.depth == 0 ==> rest.mask == 0,
{
    tiles::tiles_come_in_powers(s.depth as nat);
}

/// A frame's settings tell the denoiser of its view and of the one before, each
/// in its own place; a reset restarts the accumulation.
pub proof fn settings_carry_both_views(
    view: &FrameView,
    prev: &FrameView,
    scale: (u32, u32),
    range: u32,
    dt: u32,
    index: u32,
    reset: bool,
    validate: bool,
    screen: Option<u32>,
    choices: &Choices,
    cs: CommonSettings,
)
    requires
        call_ensures(
            denoise::common_settings,
            (view, prev, scale, range, dt, index, reset, validate, screen, choices),
            cs,
        ),
    ensures
        cs.view_to_clip_matrix == view.mats.view_to_clip && cs.world_to_view_matrix
            == view.mats.world_to_view,
        cs.view_to_clip_matrix_prev == prev.mats.view_to_clip && cs.world_to_view_matrix_prev
            == prev.mats.world_to_view,
        cs.motion_vector_scale@[0] == scale.0 && cs.motion_vector_scale@[1] == scale.1
            && cs.motion_vector_scale@[2] == 0x3f80_0000,
        cs.camera_jitter@[0] == view.jitter.0 && cs.camera_jitter@[1] == view.jitter.1,
        cs.camera_jitter_prev@[0] == prev.jitter.0 && cs.camera_jitter_prev@[1] == prev.jitter.1,
        view.width < 65536 ==> cs.resource_size@[0] == view.width && cs.rect_size@[0] == view.width,
        view.height < 65536 ==> cs.resource_size@[1] == view.height && cs.rect_size@[1]
            == view.height,
        prev.width < 65536 ==> cs.resource_size_prev@[0] == prev.width && cs.rect_size_prev@[0]
            == prev.width,
        prev.height < 65536 ==> cs.resource_size_prev@[1] == prev.height && cs.rect_size_prev@[1]
            == prev.height,
        cs.denoising_range == range && cs.frame_index == index,
        bits::le(0x3f80_0000, dt) && bits::le(dt, 0x4348_0000) ==> cs.time_delta_between_frames
            == dt,
        reset ==> cs.accumulation_mode == choices.accum_restart,
        !reset ==> cs.accumulation_mode == choices.accum_continue,
        screen matches Some(v) ==> cs.split_screen == v,
        screen is None ==> cs.split_screen == choices.split_screen_default,
        cs.enable_validation == if validate { 1u8 } else { 0u8 },
{
}

/// The denoiser's own settings: the mode, and each word with its override.
pub proof fn denoiser_words_take_their_overrides(
    defaults: ReblurSettings,
    mode: u32,
    tuning: &Vec<Option<u32>>,
    rs: ReblurSettings,
    i: int,
)
    requires
        call_ensures(denoise::reblur_settings, (defaults, mode, tuning), rs),
        0 <= i < defaults.words@.len(),
    ensures
        rs.hit_distance_reconstruction_mode == mode,
        rs.words@.len() == defaults.words@.len(),
        i < tuning@.len() && tuning@[i] is Some ==> Some(rs.words@[i]) == tuning@[i],
        i >= tuning@.len() || tuning@[i] is None ==> rs.words@[i] == defaults.words@[i],
{
}

/// A plane's number leads back to it where no two planes share one.
pub proof fn planes_are_found_by_number(
    p: Plane,
    t: &ResourceTypes,
    n: u32,
    found: Option<Plane>,
    i: usize,
    f: u32,
)
    requires
        denoise::distinct_types(*t),
        call_ensures(Plane::resource_type, (p, t), n),
        call_ensures(Plane::from_resource_type, (n, t), found),
        call_ensures(Plane::index, (p,), i),
        call_ensures(Plane::nrd_format, (p,), f),
    ensures
        found == Some(p),
        p == Plane::InMv ==> i == 0 && n == t.in_mv && f == 27,
        p == Plane::InNormalRoughness ==> i == 1 && n == t.in_normal_roughness && f == 40,
        p == Plane::InViewZ ==> i == 2 && n == t.in_viewz && f == 30,
        p == Plane::InDiffRadianceHitDist ==> i == 3 && n == t.in_diff_radiance_hitdist && f == 27,
        p == Plane::InSpecRadianceHitDist ==> i == 4 && n == t.in_spec_radiance_hitdist && f == 27,
        p == Plane::OutDiffRadianceHitDist ==> i == 5 && n == t.out_diff_radiance_hitdist && f == 27,
        p == Plane::OutSpecRadianceHitDist ==> i == 6 && n == t.out_spec_radiance_hitdist && f == 27,
        p == Plane::OutValidation ==> i == 7 && n == t.out_validation && f == 8,
{
    denoise::numbers_name_their_planes(p, n, *t);
}

/// The scene's streams: nodes keep their words, materials are packed in order
/// with their companions, and each stream has one entry a material.
pub proof fn streams_follow_the_materials(
    scene: &Scene,
    mats: Vec<GpuMat>,
    cut: Vec<u32>,
    relief: Vec<(u32, u32)>,
    tints: &Vec<Bits3>,
    shade: Vec<Row4>,
    i: int,
)
    requires
        streams::textures_exist(*scene),
        call_ensures(streams::gpu_materials, (scene,), mats),
        call_ensures(streams::mat_cutout, (scene,), cut),
        call_ensures(streams::mat_height, (scene,), relief),
        call_ensures(streams::mat_shadow, (scene, tints), shade),
        0 <= i < scene.materials@.len(),
    ensures
        mats@.len() == scene.materials@.len() && cut@.len() == mats@.len() && relief@.len()
            == mats@.len() && shade@.len() == mats@.len(),
        ({
            let (m, g) = (scene.materials@[i], mats@[i]);
            &&& g.albedo == m.albedo && g.roughness == m.roughness && g.metallic == m.metallic
            &&& g.anisotropy == m.anisotropy && g.sheen == m.sheen && g.translucency
                == m.translucency
            &&& g.transmission == m.transmission && g.emissive == m.emissive && g.trans_tint
                == m.trans_tint
            &&& g.normal_tex == m.normal_tex && g.rough_tex == m.rough_tex && g.metal_tex
                == m.metal_tex
            &&& g.emissive_tex == m.emissive_tex && g.normal_scale == m.normal_scale && g.ior
                == m.ior
            &&& g.ripple_amp == m.ripple_amp
            &&& m.kind matches MatKind::Textured { tex } ==> g.kind == 2 && g.tex == tex && cut@[i]
                == if scene.textures@[tex as int].alpha_masked { tex + 1 } else { 0 }
            &&& m.kind matches MatKind::Marble { scale } ==> g.kind == 1 && g.scale == scale && cut@[i]
                == 0
            &&& m.kind is Diffuse ==> g.kind == 0 && cut@[i] == 0
            &&& bits::lt(0, m.height_amp) && m.normal_tex != u32::MAX ==> relief@[i].0
                == m.normal_tex + 1 && relief@[i].1 == m.height_amp
            &&& !bits::lt(0, m.height_amp) || m.normal_tex == u32::MAX ==> relief@[i] == (0u32, 0u32)
            &&& shade@[i].x == tints@[i].x && shade@[i].y == tints@[i].y && shade@[i].z
                == tints@[i].z && shade@[i].w == m.transmission
            &&& i < scene.detail_scales@.len() ==> g.detail_scale == scene.detail_scales@[i]
            &&& m.normal_tex < scene.tex_var@.len() ==> g.normal_var_tex
                == scene.tex_var@[m.normal_tex as int]
        }),
{
}

/// A node keeps its box, its link and its count.
pub proof fn nodes_keep_their_words(n: &BvhNode, g: GpuBvhNode)
    requires
        call_ensures(streams::gpu_bvh_node, (n,), g),
    ensures
        g.mn == n.aabb.lo && g.mx == n.aabb.hi && g.left_first == n.left_first && g.count == n.count,
{
}

/// A material's words in the order that the shaders read them in.
pub proof fn material_words_are_in_order(m: GpuMat, w: Vec<u32>)
    requires
        call_ensures(GpuMat::to_words, (&m,), w),
    ensures
        w@.len() == 27,
        w@[0] == m.albedo.x && w@[1] == m.albedo.y && w@[2] == m.albedo.z,
        w@[3] == m.roughness && w@[4] == m.metallic && w@[5] == m.anisotropy,
        w@[6] == m.kind && w@[7] == m.scale && w@[8] == m.sheen,
        w@[9] == m.translucency && w@[10] == m.transmission && w@[11] == m.tex,
        w@[12] == m.emissive.x && w@[13] == m.emissive.y && w@[14] == m.emissive.z,
        w@[15] == m.normal_tex && w@[16] == m.rough_tex && w@[17] == m.metal_tex,
        w@[18] == m.emissive_tex && w@[19] == m.normal_scale,
        w@[20] == m.trans_tint.x && w@[21] == m.trans_tint.y && w@[22] == m.trans_tint.z,
        w@[23] == m.ior && w@[24] == m.ripple_amp,
        w@[25] == m.detail_scale && w@[26] == m.normal_var_tex,
{
}

/// The shadow box holds the content box and the first six vertices.
pub proof fn shadow_boxes_hold_the_ground(scene: &Scene, r: (Bits3, Bits3), i: int)
    requires
        call_ensures(streams::shadow_aabb, (scene,), r),
        0 <= i < 6,
        i < scene.positions@.len(),
        forall|j: int|
            0 <= j < 6 && j < scene.positions@.len() ==> #[trigger] streams::numbers(
                scene.positions@[j],
            ),
        streams::numbers(scene.content_min),
        streams::numbers(scene.content_max),
    ensures
        ({
            let p = scene.positions@[i];
            &&& bits::le(r.0.x, p.x) && bits::le(r.0.y, p.y) && bits::le(r.0.z, p.z)
            &&& bits::le(p.x, r.1.x) && bits::le(p.y, r.1.y) && bits::le(p.z, r.1.z)
            &&& bits::le(r.0.x, scene.content_min.x) && bits::le(scene.content_max.x, r.1.x)
            &&& bits::le(r.0.y, scene.content_min.y) && bits::le(scene.content_max.y, r.1.y)
            &&& bits::le(r.0.z, scene.content_min.z) && bits::le(scene.content_max.z, r.1.z)
        }),
{
    let n = streams::ground_len(scene.positions@);
    streams::shadow_box_covers(scene.content_min, scene.positions@, n, i);
    streams::shadow_box_covers(scene.content_max, scene.positions@, n, i);
}

/// Packing rectangles takes the pixels of the buffer that they cover, row by row
/// in order, and nothing where they cover none.
pub proof fn packing_takes_the_covered_pixels(
    src: &[u8],
    w: u32,
    h: u32,
    rects: Vec<DirtyRect>,
    frame: Option<HudFrame>,
    px: int,
    py: int,
)
    requires
        src@.len() == w * h * 4,
        call_ensures(hud_frame::pack_rects, (src, w, h, rects), frame),
        0 <= px < w,
        0 <= py < h,
        exists|i: int| 0 <= i < rects@.len() && hud_frame::covers(#[trigger] rects@[i], px, py),
    ensures
        frame matches Some(f) && exists|i: int|
            0 <= i < f.rects@.len() && hud_frame::covers(#[trigger] f.rects@[i], px, py),
{
    hud_frame::clamping_keeps_the_pixels_inside(rects@, w, h, px, py);
}

/// Cutting rectangles keeps exactly the pixels inside.
pub proof fn cutting_keeps_the_pixels_inside(
    rects: &mut Vec<DirtyRect>,
    w: u32,
    h: u32,
    before: Vec<DirtyRect>,
    after: Vec<DirtyRect>,
    px: int,
    py: int,
)
    requires
        call_ensures(hud_frame::clamp_rects, (rects, w, h), ()),
        before == *old(rects),
        after == *final(rects),
    ensures
        (exists|i: int| 0 <= i < after@.len() && hud_frame::covers(#[trigger] after@[i], px, py))
            <==> 0 <= px < w && 0 <= py < h && exists|i: int|
            0 <= i < before@.len() && hud_frame::covers(#[trigger] before@[i], px, py),
{
    hud_frame::clamping_keeps_the_pixels_inside(before@, w, h, px, py);
}

/// A row range names the pixel rows of a device: where there is one, a pixel of
/// the screen is owned exactly where its row lies in it.
pub proof fn row_ranges_hold_the_owned_pixels(
    s: TileSplit,
    rw: u32,
    rh: u32,
    range: Option<(u32, u32)>,
    x: u32,
    y: u32,
    owned: bool,
    a: int,
    b: int,
)
    requires
        s.depth <= 3,
        x < rw,
        y < rh,
        call_ensures(TileSplit::row_range, (&s, rw, rh), range),
        call_ensures(TileSplit::owns_px, (&s, x, y, rw, rh), owned),
    ensures
        s.depth == 0 ==> range == Some((0u32, rh)) && owned,
        s.depth > 0 && 0 <= a < b <= pow2(s.depth as nat) && (forall|p: int|
            0 <= p < pow2(2 * s.depth as nat) ==> (#[trigger] tiles::has_bit(s.mask, p) <==> a
                <= tiles::row_of(s.depth as int, p) < b)) ==> range is Some && (owned <==> (range->0).0
            <= y < (range->0).1),
{
    tiles::tiles_come_in_powers(s.depth as nat);
    let d = s.depth as int;
    if d > 0 && 0 <= a < b <= pow2(s.depth as nat) && (forall|p: int|
        0 <= p < pow2(2 * s.depth as nat) ==> (#[trigger] tiles::has_bit(s.mask, p) <==> a
            <= tiles::row_of(d, p) < b)) {
        assert(tiles::owns_band(s.mask, d, a, b));
        tiles::pixels_stand_in_their_row(d, x, y, rw, rh);
        let p = tiles::px_path(d, x, y, rw, rh);
        let r = tiles::row_of(d, p);
        assert(tiles::tile_count(1) == 4 && tiles::tile_count(2) == 16 && tiles::tile_count(3)
            == 64) by {
            assert(tiles::tile_count(0) == 1);
        }
        assert(p < 64);
        assert(p % 0x1_0000_0000 == p);
        if r < a {
            tiles::tile_rows_go_down(d, r, a, rh);
        }
        if a < r {
            tiles::tile_rows_go_down(d, a, r, rh);
            tiles::tile_rows_cover_the_screen(d, a, rh);
        }
        if r > b - 1 {
            tiles::tile_rows_go_down(d, b - 1, r, rh);
        }
        if r < b - 1 {
            tiles::tile_rows_go_down(d, r, b - 1, rh);
            tiles::tile_rows_cover_the_screen(d, b - 1, rh);
        }
    }
}

/// No split owns every pixel; a band owns the tiles of its rows; and a pixel is
/// owned exactly where a tile whose bit is set holds it.
pub proof fn pixels_are_owned_by_their_tiles(
    whole: TileSplit,
    depth: u32,
    row0: u32,
    row1: u32,
    band: TileSplit,
    x: u32,
    y: u32,
    rw: u32,
    rh: u32,
    owned: bool,
    p: int,
)
    requires
        0 < depth <= 3,
        x < rw,
        y < rh,
        call_ensures(TileSplit::all, (), whole),
        call_ensures(TileSplit::rows, (depth, row0, row1), band),
        call_ensures(TileSplit::owns_px, (&band, x, y, rw, rh), owned),
        0 <= p < 64,
    ensures
        whole.depth == 0 && whole.mask == u64::MAX,
        band.depth == depth,
        tiles::has_bit(band.mask, p) <==> p < pow2(2 * depth as nat) && row0 <= tiles::row_of(
            depth as int,
            p,
        ) < row1,
        owned <==> exists|q: int|
            0 <= q < pow2(2 * depth as nat) && #[trigger] tiles::has_bit(band.mask, q) && {
                let r = tiles::tile_rect(depth as int, q, rw, rh);
                r.x0 <= x < r.x1 && r.y0 <= y < r.y1
            },
{
    tiles::tiles_come_in_powers(depth as nat);
    tiles::ownership_follows_the_rectangles(band, x, y, rw, rh);
    if owned {
        let q = choose|q: int|
            0 <= q < tiles::tile_count(depth as int) && #[trigger] tiles::has_bit(band.mask, q)
                && tiles::in_rect(
                tiles::tile_rect(depth as int, q, rw, rh),
                x as int,
                y as int,
            );
        assert(tiles::has_bit(band.mask, q));
    } else if exists|q: int|
        0 <= q < pow2(2 * depth as nat) && #[trigger] tiles::has_bit(band.mask, q) && {
            let r = tiles::tile_rect(depth as int, q, rw, rh);
            r.x0 <= x < r.x1 && r.y0 <= y < r.y1
        } {
        let q = choose|q: int|
            0 <= q < pow2(2 * depth as nat) && #[trigger] tiles::has_bit(band.mask, q) && {
                let r = tiles::tile_rect(depth as int, q, rw, rh);
                r.x0 <= x < r.x1 && r.y0 <= y < r.y1
            };
        assert(tiles::in_rect(tiles::tile_rect(depth as int, q, rw, rh), x as int, y as int));
    }
}

/// The levers are told as they are set.
pub proof fn levers_are_told(
    l: &Levers,
    h: &Host,
    tag: &str,
    clouds: u32,
    sky: u32,
    sw: bool,
    leaf: bool,
    has: bool,
    a: u32,
    b: u32,
    on: bool,
    chs: bool,
    live: bool,
)
    requires
        call_ensures(shaders::cloud_shadow_n, (l,), clouds),
        call_ensures(shaders::sky_lod, (l,), sky),
        call_ensures(shaders::sw_rays, (l,), sw),
        call_ensures(shaders::sw_rays_leaf, (l, h), leaf),
        call_ensures(shaders::abl_has, (l, tag), has),
        call_ensures(shaders::ballast_ref_n, (l,), a),
        call_ensures(shaders::ballast_dxr_n, (l,), b),
        call_ensures(shaders::waveviz_on, (l,), on),
        call_ensures(shaders::waveviz_chs, (l,), chs),
        call_ensures(shaders::waveviz_live, (l,), live),
    ensures
        clouds == l.cloud_shadow && sky == l.sky_lod && sw == l.sw_rays && live == l.waveviz_live,
        leaf <==> l.sw_rays && h.cut_seed_rays,
        a == l.ballast.0 && b == l.ballast.1,
        on <==> l.waveviz_mode > 0,
        chs <==> l.waveviz_mode == 2,
        has <==> exists|x: Seq<char>, y: Seq<char>| l.abl@ == #[trigger] (x + tag@ + y),
{
    text::what_stands_in_a_text_is_found(l.abl@, tag@);
}

/// The small define blocks name their numbers and are empty where there is
/// nothing to say.
pub proof fn small_blocks_name_their_numbers(
    l: &Levers,
    h: &Host,
    width: String,
    a: String,
    b: String,
    waves: String,
    detail: String,
    spp: String,
    gi: &'static str,
    split: &'static str,
)
    requires
        call_ensures(shaders::width_defs, (l,), width),
        call_ensures(shaders::ballast_defs, (l,), a),
        call_ensures(shaders::ballast_dxr_defs, (l,), b),
        call_ensures(shaders::waveviz_defs, (l,), waves),
        call_ensures(shaders::detail_defs, (h,), detail),
        call_ensures(shaders::spp_defs, (h,), spp),
        call_ensures(shaders::rtgi_defs, (h,), gi),
        call_ensures(shaders::blas_defs, (h,), split),
    ensures
        width@ == told(
            l.width_probe,
            "#define WIDTH_PROBE 1\n#define CTR_W_REFERENCE "@ + text::dec(30) + "u"@,
        ),
        a@ == told(
            l.ballast.0 > 0,
            "#define BALLAST_N "@ + text::dec(l.ballast.0 as nat) + "u"@,
        ),
        b@ == told(
            l.ballast.1 > 0,
            "#define BALLAST_N "@ + text::dec(l.ballast.1 as nat) + "u"@,
        ),
        waves@ == told(l.waveviz_mode > 0, "#define WAVEVIZ 1"@),
        detail@ == "#define DETAIL_STR "@ + h.detail_strength@ + "\n#define DETAIL_AO_STR "@
            + h.detail_ao_strength@,
        spp@ == "#define MAX_SPP "@ + text::dec(h.max_spp as nat) + "u\n#define JITTER_ROWS "@
            + text::dec((h.max_spp / 2) as nat) + "\n#define MAX_FIREFLIES "@ + text::dec(
            h.max_fireflies as nat,
        ) + "\n#define MAX_EMISSIVE_LIGHTS "@ + text::dec(h.max_emissive_lights as nat)
            + "\nstatic const float2 SKY_J[MAX_SPP] = { "@ + shaders::jitter_text(
            h.jitter@,
            h.max_spp as int,
        ) + " };"@,
        gi@ == if h.rtgi { "#define RTGI 1"@ } else { ""@ },
        split@ == if h.max_prims is Some { "#define BLAS_SPLIT 1"@ } else { ""@ },
{
    defines::small_defines_name_their_numbers(l, h, l.ballast.0);
    defines::small_defines_name_their_numbers(l, h, l.ballast.1);
    defines::sampling_defines_size_the_tables(h);
    assert(!l.width_probe ==> width@ =~= Seq::empty());
    assert(l.ballast.0 == 0 ==> a@ =~= Seq::empty());
    assert(l.ballast.1 == 0 ==> b@ =~= Seq::empty());
    assert(l.waveviz_mode == 0 ==> waves@ =~= Seq::empty());
}

/// Ballast goes where its setting says: behind `dxr:` to the closest-hit stage,
/// else to the reference, and from 1 to 256.
pub proof fn ballast_is_read(var: &str, num: Seq<char>, r: ((u32, u32), Reading), none: ((u32, u32), Reading))
    requires
        call_ensures(shaders::ballast_parsed, (Some(var),), r),
        call_ensures(shaders::ballast_parsed, (None::<&str>,), none),
        var@ == "dxr:"@ + num || (var@ == num && !(num.len() >= 4 && num.take(4) == "dxr:"@)),
    ensures
        none == ((0u32, 0u32), Reading::Unset),
        ({
            let read = text::reads_as(num);
            if read is Some && 1 <= read->0 <= 256 {
                &&& r.1 == Reading::Taken
                &&& var@ == num ==> r.0 == (read->0, 0u32)
                &&& var@ == "dxr:"@ + num ==> r.0 == (0u32, read->0)
            } else {
                r == ((0u32, 0u32), Reading::Refused)
            }
        }),
{
    defines::ballast_goes_where_it_says(var, num);
}

/// The two shared source texts: the record code, a line break and the body.
pub proof fn shared_sources_are_put_together(c: &shaders::Corpus, a: String, b: String)
    requires
        call_ensures(shaders::Corpus::trace_common, (c,), a),
        call_ensures(shaders::Corpus::queues, (c,), b),
    ensures
        a@ == c.sh@ + "\n"@ + c.trace_common_body@,
        b@ == c.continuation@ + "\n"@ + c.queues_body@,
{
}

/// A frame time inside the band is reported as it is; outside it the band's ends
/// are, and where it is no finite number the fallback.
pub proof fn frame_times_are_reported(dt: u32, r: u32)
    requires
        call_ensures(denoise::frame_dt, (dt,), r),
    ensures
        dt % 0x8000_0000 >= 0x7f80_0000 ==> r == 0x4185_5604,
        dt % 0x8000_0000 < 0x7f80_0000 ==> {
            &&& bits::le(0x3f80_0000, dt) && bits::le(dt, 0x4348_0000) ==> r == dt
            &&& bits::lt(dt, 0x3f80_0000) ==> r == 0x3f80_0000
            &&& bits::lt(0x4348_0000, dt) ==> r == 0x4348_0000
        },
{
    denoise::frame_times_are_held_in_their_band(dt);
}

/// The planes are listed by their index, under their own names; and the numbers
/// are in order exactly where no two planes share one and no pool has a plane's.
pub proof fn planes_are_listed(
    planes: Vec<Plane>,
    p: Plane,
    at: usize,
    name: &'static str,
    t: &ResourceTypes,
    r: Result<(), String>,
)
    requires
        call_ensures(Plane::all, (), planes),
        call_ensures(Plane::index, (p,), at),
        call_ensures(Plane::name, (p,), name),
        call_ensures(denoise::self_test, (t,), r),
    ensures
        planes@.len() == 8 && at < 8 && planes@[at as int] == p,
        p == Plane::InMv ==> name@ == "in_mv"@,
        p == Plane::InNormalRoughness ==> name@ == "in_nr"@,
        p == Plane::InViewZ ==> name@ == "in_viewz"@,
        p == Plane::InDiffRadianceHitDist ==> name@ == "in_diff"@,
        p == Plane::InSpecRadianceHitDist ==> name@ == "in_spec"@,
        p == Plane::OutDiffRadianceHitDist ==> name@ == "out_diff"@,
        p == Plane::OutSpecRadianceHitDist ==> name@ == "out_spec"@,
        p == Plane::OutValidation ==> name@ == "out_validation"@,
        r is Ok ==> p.type_in(*t) != t.permanent_pool && p.type_in(*t) != t.transient_pool,
        r is Ok ==> forall|q: Plane| #[trigger] q.type_in(*t) == p.type_in(*t) ==> q == p,
{
}

/// The bytes of the geometry and material streams.
pub proof fn streams_are_so_large(scene: &Scene, n: usize)
    requires
        call_ensures(streams::stream_bytes, (scene,), n),
    ensures
        n == 32 * scene.positions@.len() + 16 * scene.indices@.len() + 112 * scene.materials@.len(),
{
    streams::streams_take_their_bytes(*scene);
}

} // verus!
