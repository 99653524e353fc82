//! Tiles, the frame block, dirty rectangles and the denoiser's vocabulary.
use frustracer::bits::Bits3;
use frustracer::gfx::denoise;
use frustracer::gfx::denoise::{
    common_settings, frame_dt, reblur_settings, CamMatrices, Choices, FrameView, Plane,
    ReblurSettings, ResourceTypes, DT_FALLBACK, PLANES,
};
use frustracer::gfx::frame::{
    fb_mode_of, nrd_rclamp_lever, nrd_rejitter_lever, nrd_remod_lever, CamRows, Clouds,
    EmissiveLight, Fireflies, FrameCb, FrameLevers, FrameParams, FullBounce, Quality, Row4,
    SceneRows, TableSizes, Wiring, CB_STRIDE, FLAG_ACCUM, FLAG_ANISO, FLAG_EMISSIVE, FLAG_GBUF,
    FLAG_GBUF_EXT, FLAG_HAS_PREV, FLAG_HEIGHT, FLAG_NRD_GI, FLAG_NRD_RCLAMP, FLAG_NRD_RCLAMP_HARD,
    FLAG_RTGI, FLAG_SWAY_MV, FLAG_WAVEVIZ,
};
use frustracer::gfx::hud_frame;
use frustracer::gfx::hud_frame::{clamp_rects, pack_rects, DirtyRect};
use frustracer::gfx::shaders::Reading;
use frustracer::gfx::tiles::{split_self_test, TileSplit};
use frustracer::gfx::vocab::Arm;

fn v3(x: f32, y: f32, z: f32) -> Bits3 {
    Bits3 { x: x.to_bits(), y: y.to_bits(), z: z.to_bits() }
}

fn row(v: Bits3, w: u32) -> Row4 {
    Row4 { x: v.x, y: v.y, z: v.z, w }
}

// Tiles.

#[test]
fn split_contracts_hold() {
    assert_eq!(split_self_test(), Ok(()));
}

#[test]
fn unsplit_screen_owns_everything() {
    let all = TileSplit::all();
    assert_eq!(all, TileSplit::default());
    assert_eq!(all.row_range(1920, 1080), Some((0, 1080)));
    assert!(all.owns_px(0, 0, 1920, 1080));
    assert!(all.owns_px(1919, 1079, 1920, 1080));
    assert_eq!(all.complement(), TileSplit { mask: 0, depth: 0 });
}

#[test]
fn tile_counts_are_powers_of_four() {
    assert_eq!(TileSplit::tiles_at(0), 1);
    assert_eq!(TileSplit::tiles_at(1), 4);
    assert_eq!(TileSplit::tiles_at(2), 16);
    assert_eq!(TileSplit::tiles_at(3), 64);
}

#[test]
fn top_band_of_a_two_way_split() {
    let top = TileSplit::rows(1, 0, 1);
    assert_eq!(top, TileSplit { mask: 0b0011, depth: 1 });
    let rest = top.complement();
    assert_eq!(rest, TileSplit { mask: 0b1100, depth: 1 });
    assert_eq!(top.row_range(101, 77), Some((0, 38)));
    assert_eq!(rest.row_range(101, 77), Some((38, 77)));
    for y in 0..77 {
        for x in 0..101 {
            assert!(top.owns_px(x, y, 101, 77) != rest.owns_px(x, y, 101, 77));
            assert_eq!(top.owns_px(x, y, 101, 77), y < 38);
        }
    }
}

#[test]
fn shares_keep_a_row_for_the_primary() {
    assert_eq!(TileSplit::for_share(0, 3), (TileSplit::all(), None));
    assert_eq!(TileSplit::for_share(5, 0), (TileSplit::all(), None));
    let (a, b) = TileSplit::for_share(3, 3);
    let b = b.expect("a share gives a secondary");
    assert_eq!(a.row_range(1920, 1080), Some((0, 675)));
    assert_eq!(b.row_range(1920, 1080), Some((675, 1080)));
    assert_eq!(a.mask ^ b.mask, u64::MAX);
    let (one, most) = TileSplit::for_share(99, 3);
    assert_eq!(one, TileSplit::rows(3, 0, 1));
    assert_eq!(most, Some(TileSplit::rows(3, 1, 8)));
}

#[test]
fn scattered_tiles_have_no_row_range() {
    let board = TileSplit { mask: 0b1001, depth: 1 };
    assert_eq!(board.row_range(64, 64), None);
    assert_eq!(TileSplit { mask: 0, depth: 2 }.row_range(64, 64), None);
}

#[test]
fn split_row_is_low_half_first() {
    let s = TileSplit { mask: 0x1122_3344_5566_7788, depth: 3 };
    assert_eq!(s.cb_row(), [0x5566_7788, 0x1122_3344, 3, 0]);
}

// Dirty rectangles.

fn rect(x: u32, y: u32, w: u32, h: u32) -> DirtyRect {
    DirtyRect { x, y, w, h }
}

fn rects_of(v: &[DirtyRect]) -> Vec<(u32, u32, u32, u32)> {
    v.iter().map(|r| (r.x, r.y, r.w, r.h)).collect()
}

#[test]
fn rect_contracts_hold() {
    assert_eq!(hud_frame::self_test(), Ok(()));
}

#[test]
fn rects_are_clipped_and_empties_dropped() {
    let mut v = vec![rect(0, 0, 4, 4), rect(6, 6, 9, 9), rect(8, 0, 1, 1), rect(1, 1, 0, 5)];
    clamp_rects(&mut v, 8, 8);
    assert_eq!(rects_of(&v), vec![(0, 0, 4, 4), (6, 6, 2, 2)]);
    let once = rects_of(&v);
    clamp_rects(&mut v, 8, 8);
    assert_eq!(rects_of(&v), once);
}

#[test]
fn packing_concatenates_rows() {
    let src: Vec<u8> = (0..64).collect();
    let frame = pack_rects(&src, 4, 4, vec![rect(1, 0, 2, 2), rect(0, 3, 1, 1)])
        .expect("two rectangles hold pixels");
    assert_eq!(frame.bytes.len(), 4 * (4 + 1));
    assert_eq!(&frame.bytes[..8], &src[4..12]);
    assert_eq!(&frame.bytes[8..16], &src[20..28]);
    assert_eq!(&frame.bytes[16..], &src[48..52]);
    assert!(pack_rects(&src, 4, 4, vec![rect(4, 0, 1, 1), rect(0, 0, 0, 4)]).is_none());
}

// The denoiser's planes and settings.

fn types() -> ResourceTypes {
    ResourceTypes {
        in_mv: 0,
        in_normal_roughness: 1,
        in_viewz: 2,
        in_diff_radiance_hitdist: 6,
        in_spec_radiance_hitdist: 7,
        out_diff_radiance_hitdist: 15,
        out_spec_radiance_hitdist: 16,
        out_validation: 25,
        permanent_pool: 27,
        transient_pool: 26,
    }
}

#[test]
fn planes_round_trip_through_their_types() {
    let t = types();
    let all = Plane::all();
    assert_eq!(all.len(), PLANES);
    for (i, p) in all.iter().enumerate() {
        assert_eq!(p.index(), i);
        assert_eq!(Plane::from_resource_type(p.resource_type(&t), &t), Some(*p));
    }
    assert_eq!(Plane::from_resource_type(t.permanent_pool, &t), None);
    assert_eq!(denoise::self_test(&t), Ok(()));
}

#[test]
fn clashing_types_are_reported() {
    let mut t = types();
    t.in_viewz = t.in_mv;
    assert_eq!(denoise::self_test(&t), Err("two planes share a resource type".to_string()));
    let mut t = types();
    t.transient_pool = t.out_validation;
    assert_eq!(denoise::self_test(&t), Err("the transient pool resolves to a plane".to_string()));
    t.permanent_pool = t.in_mv;
    assert_eq!(denoise::self_test(&t), Err("the permanent pool resolves to a plane".to_string()));
}

#[test]
fn planes_have_their_wire_formats() {
    let formats: Vec<u32> = Plane::all().iter().map(|p| p.nrd_format()).collect();
    let half4 = denoise::FMT_R16G16B16A16_FLOAT;
    assert_eq!(formats[..2], [half4, denoise::FMT_R10G10B10A2_UNORM]);
    assert_eq!(formats[2], denoise::FMT_R32_FLOAT);
    assert_eq!(formats[3..7], [half4; 4]);
    assert_eq!(formats[7], denoise::FMT_R8G8B8A8_UNORM);
}

#[test]
fn plane_names_are_unique() {
    let names: Vec<&str> = Plane::all().iter().map(|p| p.name()).collect();
    for i in 0..names.len() {
        for j in 0..i {
            assert_ne!(names[i], names[j]);
        }
    }
}

#[test]
fn frame_time_stays_in_its_band() {
    let dt = |x: f32| f32::from_bits(frame_dt(x.to_bits()));
    assert_eq!(dt(16.0), 16.0);
    assert_eq!(dt(0.0), 1.0);
    assert_eq!(dt(-3.0), 1.0);
    assert_eq!(dt(900.0), 200.0);
    assert_eq!(dt(f32::INFINITY), 16.667);
    assert_eq!(dt(f32::NAN), f32::from_bits(DT_FALLBACK));
}

fn view(k: u32, w: u32, h: u32) -> FrameView {
    FrameView {
        mats: CamMatrices { world_to_view: [k; 16], view_to_clip: [k + 1; 16] },
        jitter: (k + 2, k + 3),
        width: w,
        height: h,
    }
}

#[test]
fn common_settings_carry_both_frames() {
    let choices = Choices { accum_continue: 0, accum_restart: 1, split_screen_default: 77 };
    let (cur, prev) = (view(10, 1280, 720), view(20, 1270, 710));
    let dt = 16.0f32.to_bits();
    let cs = common_settings(&cur, &prev, (1, 2), 5, dt, 42, false, true, None, &choices);
    assert_eq!(cs.world_to_view_matrix, [10; 16]);
    assert_eq!(cs.view_to_clip_matrix, [11; 16]);
    assert_eq!(cs.world_to_view_matrix_prev, [20; 16]);
    assert_eq!(cs.camera_jitter, [12, 13]);
    assert_eq!(cs.camera_jitter_prev, [22, 23]);
    assert_eq!(cs.rect_size, [1280, 720]);
    assert_eq!(cs.rect_size_prev, [1270, 710]);
    assert_eq!(cs.frame_index, 42);
    assert_eq!(cs.accumulation_mode, 0);
    assert_eq!(cs.enable_validation, 1);
    assert_eq!(cs.split_screen, 77);
    let cs = common_settings(&cur, &prev, (1, 2), 5, dt, 42, true, false, Some(9), &choices);
    assert_eq!((cs.accumulation_mode, cs.enable_validation, cs.split_screen), (1, 0, 9));
}

#[test]
fn tuning_replaces_only_what_is_set() {
    let defaults =
        || ReblurSettings { hit_distance_reconstruction_mode: 9, words: vec![1, 2, 3, 4] };
    let plain = reblur_settings(defaults(), 2, &vec![None, None, None, None]);
    assert_eq!(plain.hit_distance_reconstruction_mode, 2);
    assert_eq!(plain.words, vec![1, 2, 3, 4]);
    let tuned = reblur_settings(defaults(), 2, &vec![None, Some(20), None, Some(40)]);
    assert_eq!(tuned.words, vec![1, 20, 3, 40]);
}

#[test]
fn arms_have_names() {
    assert_eq!(Arm::Wave.name(), "wavefront");
    assert_eq!(Arm::Dxr.name(), "DXR");
}

// The frame block.

fn scene_rows() -> SceneRows {
    SceneRows {
        sun_dir: v3(0.0, 1.0, 0.0),
        sun_cos_radius: 0.99f32.to_bits(),
        sun_e_over_pi: v3(3.0, 3.0, 3.0),
        sun_radiance: v3(900.0, 900.0, 900.0),
        eps: 1e-4f32.to_bits(),
        ao_radius: 2.0f32.to_bits(),
        near: 0.1f32.to_bits(),
        far: 500.0f32.to_bits(),
        sky_sh: (0..9).map(|i| v3(i as f32, 0.0, 0.0)).collect(),
        sky_scale: 1.0f32.to_bits(),
        night: 0,
        light_gain: 2.0f32.to_bits(),
        height_max: 0.05f32.to_bits(),
        lights: vec![EmissiveLight {
            pos: v3(1.0, 2.0, 3.0),
            rc2: 4,
            color: v3(5.0, 6.0, 7.0),
            r_infl2: 8,
        }],
    }
}

fn sizes() -> TableSizes {
    TableSizes { jitter_rows: 2, fireflies: 3, lights: 4 }
}

fn cam(k: f32) -> CamRows {
    CamRows {
        origin: v3(k, 0.0, 0.0),
        forward: v3(0.0, 0.0, -1.0),
        right: v3(1.0, 0.0, 0.0),
        up: v3(0.0, 1.0, 0.0),
        inv_w: 11,
        inv_h: 12,
        pixel_cone: 13,
    }
}

fn quality() -> Quality {
    Quality {
        shadow_samples: 1,
        ao_samples: 2,
        reflections: 3,
        rtgi: true,
        fb: FullBounce { ao: false, gi: false, depth: 2 },
    }
}

fn params() -> FrameParams {
    FrameParams {
        cam: cam(1.0),
        frame: 7,
        accumulate: true,
        jitter: false,
        frame_jitter: None,
        prev_cam: Some(cam(2.0)),
        q: quality(),
        verify: false,
        spp: 3,
        probe_sample: 9,
        clouds: Clouds { enabled: false, time: 21, diag: 22 },
        fireflies: Fireflies {
            count: 1,
            scale: 31,
            pos: vec![Row4 { x: 1, y: 2, z: 3, w: 4 }],
        },
        sway_time: None,
        sway_prev_time: None,
        replay: false,
    }
}

fn wiring() -> Wiring {
    Wiring {
        gbuf_full: true,
        fsr_sig: true,
        gbuf_ext: false,
        nrd_sig: true,
        sky_ext_skip: false,
        nrd_rejitter: true,
        remod_exact: true,
        rclamp: (true, false),
    }
}

fn levers() -> FrameLevers {
    FrameLevers {
        max_aniso: 8.0f32.to_bits(),
        height_on: true,
        depth_tint: false,
        emissive: true,
        detail_tex: false,
        detail_ao: false,
        spec_aa: false,
        amb_bump: false,
        waveviz_on: true,
        waveviz_live: false,
    }
}

const HALTON: [(u32, u32); 4] = [(1, 2), (3, 4), (5, 6), (7, 8)];

#[test]
fn base_block_holds_the_scene_and_nothing_else() {
    let cb = FrameCb::base(&scene_rows(), &sizes(), 1920, 1080);
    assert_eq!(cb.sun, row(v3(0.0, 1.0, 0.0), 0.99f32.to_bits()));
    assert_eq!((cb.rw, cb.rh, cb.cap_hemi_pt), (1920, 1080, 1920 * 1080));
    assert_eq!((cb.spp, cb.flags, cb.fb_depth), (1, 0, 2));
    assert_eq!(cb.prev_right.w, 0.1f32.to_bits());
    assert_eq!(cb.prev_up.w, 500.0f32.to_bits());
    assert_eq!(cb.el_meta, Row4 { x: 1, y: 2.0f32.to_bits(), z: 0, w: 0 });
    assert_eq!(cb.el_a[0], row(v3(1.0, 2.0, 3.0), 4));
    assert_eq!(cb.el_b[0], row(v3(5.0, 6.0, 7.0), 8));
    assert_eq!(cb.el_a[3], Row4 { x: 0, y: 0, z: 0, w: 0 });
    let bytes = cb.bytes();
    assert_eq!(bytes.len(), 352 + 16 * (2 + 9 + 3 + 4 + 4));
    assert!(bytes.len() <= CB_STRIDE);
    // The screen width follows the seven rows of camera and sun.
    assert_eq!(&bytes[112..116], &1920u32.to_le_bytes());
}

#[test]
fn frames_set_flags_from_their_conditions() {
    let base = FrameCb::base(&scene_rows(), &sizes(), 64, 48);
    let cb = base.with_frame(&params(), &wiring(), &levers(), &HALTON);
    let set = |f: u32| cb.flags & f != 0;
    assert!(set(FLAG_ACCUM) && set(FLAG_GBUF) && set(FLAG_HAS_PREV) && set(FLAG_ANISO));
    assert!(set(FLAG_HEIGHT) && set(FLAG_EMISSIVE) && set(FLAG_RTGI) && set(FLAG_NRD_GI));
    assert!(set(FLAG_GBUF_EXT) && set(FLAG_NRD_RCLAMP) && !set(FLAG_NRD_RCLAMP_HARD));
    assert!(!set(FLAG_WAVEVIZ) && !set(FLAG_SWAY_MV));
    assert_eq!(cb.frame, 7);
    assert_eq!(cb.cam_origin, row(v3(1.0, 0.0, 0.0), 11));
    assert_eq!(cb.cam_right.w, 22);
    assert_eq!(cb.prev_origin, row(v3(2.0, 0.0, 0.0), 11));
    assert_eq!(cb.prev_right.w, base.prev_right.w);
    assert_eq!((cb.spp, cb.probe_sample), (3, 2));
    assert_eq!(cb.jitters[0], Row4 { x: 1, y: 2, z: 3, w: 4 });
    assert_eq!(cb.jitters[1], Row4 { x: 5, y: 6, z: 0, w: 0 });
    assert_eq!(cb.ff[0], Row4 { x: 1, y: 2, z: 3, w: 4 });
    assert_eq!(cb.ff_count, 1);
}

#[test]
fn pack_flags_fall_with_the_pack() {
    let base = FrameCb::base(&scene_rows(), &sizes(), 64, 48);
    let mut w = wiring();
    w.gbuf_full = false;
    let cb = base.with_frame(&params(), &w, &levers(), &HALTON);
    for f in [FLAG_GBUF, FLAG_GBUF_EXT, FLAG_NRD_GI, FLAG_NRD_RCLAMP] {
        assert_eq!(cb.flags & f, 0);
    }
}

#[test]
fn bounce_tiers_take_one_sample_and_stand_others_down() {
    let base = FrameCb::base(&scene_rows(), &sizes(), 64, 48);
    let mut p = params();
    p.q.fb = FullBounce { ao: true, gi: true, depth: 9 };
    assert_eq!(fb_mode_of(&p.q), 2);
    let cb = base.with_frame(&p, &wiring(), &levers(), &HALTON);
    assert_eq!((cb.fb_mode, cb.fb_depth, cb.spp, cb.probe_sample), (2, 4, 1, 0));
    assert_eq!(cb.flags & (FLAG_RTGI | FLAG_EMISSIVE), 0);
    p.q.fb.gi = false;
    let cb = base.with_frame(&p, &wiring(), &levers(), &HALTON);
    assert_eq!(cb.fb_mode, 1);
    assert_eq!(cb.flags & (FLAG_RTGI | FLAG_EMISSIVE), FLAG_EMISSIVE);
}

#[test]
fn caps_split_and_sway_touch_their_fields_only() {
    let mut cb = FrameCb::base(&scene_rows(), &sizes(), 64, 48);
    let before = cb.bytes();
    cb.set_caps(1, 2, 3, 4, 5, 6, 7);
    assert_eq!((cb.cap_tile, cb.cap_leaf, cb.cap_sky, cb.cap_cut), (1, 2, 3, 4));
    assert_eq!((cb.cap_hemi_cell, cb.cap_hemi_leaf, cb.cap_hemi_cut), (5, 6, 7));
    cb.set_caps(0, 0, 0, 0, 0, 0, 0);
    assert_eq!(cb.bytes(), before);
    cb.set_split(TileSplit { mask: 0x1_0000_0002, depth: 3 });
    assert_eq!(cb.split, Row4 { x: 2, y: 1, z: 3, w: 0 });
    cb.arm_sway_mv(5);
    assert_eq!(cb.flags, FLAG_SWAY_MV);
    assert_eq!(cb.sway_mv_base.x, 5);
}

#[test]
fn a_new_sky_leaves_the_rest_of_the_block() {
    let mut cb = FrameCb::base(&scene_rows(), &sizes(), 64, 48);
    cb.set_caps(1, 2, 3, 4, 5, 6, 7);
    let mut dusk = scene_rows();
    dusk.sun_dir = v3(1.0, 0.0, 0.0);
    dusk.night = 99;
    dusk.lights = vec![];
    cb.refresh_sky_rows(&dusk);
    assert_eq!(cb.sun, row(v3(1.0, 0.0, 0.0), dusk.sun_cos_radius));
    assert_eq!(cb.night, 99);
    assert_eq!(cb.el_meta.x, 0);
    assert_eq!(cb.cap_cut, 4);
    assert_eq!(cb.prev_up.w, 500.0f32.to_bits());
}

#[test]
fn frame_levers_read_their_words() {
    assert_eq!(nrd_rejitter_lever(None), (true, Reading::Unset));
    assert_eq!(nrd_rejitter_lever(Some("off")), (false, Reading::Taken));
    assert_eq!(nrd_rejitter_lever(Some("nope")), (true, Reading::Refused));
    assert_eq!(nrd_remod_lever(Some("off")), (false, Reading::Taken));
    assert_eq!(nrd_rclamp_lever(None), ((false, false), Reading::Unset));
    assert_eq!(nrd_rclamp_lever(Some("on")), ((true, false), Reading::Taken));
    assert_eq!(nrd_rclamp_lever(Some("hard")), ((true, true), Reading::Taken));
    assert_eq!(nrd_rclamp_lever(Some("off")), ((false, false), Reading::Taken));
    assert_eq!(nrd_rclamp_lever(Some("x")), ((false, false), Reading::Refused));
}

#[test]
fn numbers_name_one_plane_or_none() {
    let t = types();
    for n in 0..64 {
        let named: Vec<Plane> =
            Plane::all().iter().copied().filter(|p| p.resource_type(&t) == n).collect();
        assert!(named.len() <= 1);
        assert_eq!(Plane::from_resource_type(n, &t), named.first().copied());
    }
}
