//! The upscaler's side: provider names, wire planes, staging, and the
//! denoiser's levers.
use frustracer::bits::Bits3;
use frustracer::frd;
use frustracer::frd::{FrdTuning, TuningCell};
use frustracer::fsr::buffers::{DenoiseTuning, FsrBufs, Half3, Signals};
use frustracer::fsr::provider::{parse_provider_versions, pick_fg_version, pick_version, Flavor};
use frustracer::fsr::staging::{
    rows_fit, stage_color, stage_depth, stage_mvec, stage_self_test, StageProbe, SENTINEL,
};
use frustracer::gfx::shaders::Reading;

#[test]
fn versions_are_read_out_of_names() {
    assert_eq!(parse_provider_versions("FSR 3.1.5"), vec![(3, 1, 5)]);
    assert_eq!(
        parse_provider_versions("ML 4.0.2b (v3.1.4.1) x2.3"),
        vec![(4, 0, 2), (3, 1, 4)]
    );
    assert_eq!(parse_provider_versions("3.1"), vec![]);
    assert_eq!(parse_provider_versions("99999999999.1.2 a.b.c ..."), vec![]);
    assert_eq!(parse_provider_versions(""), vec![]);
}

#[test]
fn versions_stand_anywhere_in_a_name() {
    assert_eq!(parse_provider_versions("RX9070-3.1.5"), vec![(3, 1, 5)]);
    assert_eq!(parse_provider_versions("FidelityFX FSR 3.1.5"), vec![(3, 1, 5)]);
    assert_eq!(parse_provider_versions("3.1.5"), vec![(3, 1, 5)]);
    assert_eq!(
        parse_provider_versions("AMD 24.10.1 FSR 3.1.5"),
        vec![(24, 10, 1), (3, 1, 5)]
    );
    assert_eq!(parse_provider_versions("1.2.3/4.5.6"), vec![(1, 2, 3), (4, 5, 6)]);
    assert_eq!(parse_provider_versions("1.2.3.4.5.6"), vec![(1, 2, 3), (4, 5, 6)]);
    assert_eq!(parse_provider_versions("1..2.3 4.5-6.7"), vec![]);
    assert_eq!(parse_provider_versions("9.9.99999999999 99999999999.1.2.3"), vec![(1, 2, 3)]);
    assert_eq!(
        parse_provider_versions("4294967295.0.007"),
        vec![(u32::MAX, 0, 7)]
    );
}

fn list(names: &[(u64, &str)]) -> Vec<(u64, String)> {
    names.iter().map(|(i, n)| (*i, n.to_string())).collect()
}

#[test]
fn ray_regeneration_wins_unless_forced_off() {
    let up = list(&[(10, "FSR 3.1.3"), (11, "FSR 3.1.4"), (12, "ML 4.0.0"), (13, "3.1.4 again")]);
    assert_eq!(pick_version(&up, true, false), Some((0, Flavor::Fsr4Rr)));
    assert_eq!(pick_version(&up, true, true), Some((13, Flavor::Fsr3)));
    assert_eq!(pick_version(&up, false, false), Some((13, Flavor::Fsr3)));
    assert_eq!(pick_version(&list(&[(1, "ML 4.0.0")]), false, false), None);
    assert_eq!(pick_version(&vec![], true, true), None);
}

#[test]
fn frame_generation_prefers_its_session_and_falls_back() {
    let fg = list(&[(1, "FG 3.1.6"), (2, "FG 4.0.0")]);
    assert_eq!(pick_fg_version(&fg, true), Some((2, "FG 4.0.0".to_string())));
    assert_eq!(pick_fg_version(&fg, false), Some((1, "FG 3.1.6".to_string())));
    assert_eq!(
        pick_fg_version(&list(&[(1, "FG 3.1.6")]), true),
        Some((1, "FG 3.1.6".to_string()))
    );
    assert_eq!(pick_fg_version(&list(&[(1, "none")]), true), None);
}

#[test]
fn flavors_name_themselves() {
    assert_eq!(Flavor::Fsr4Rr.label(), "Ray Regeneration + FSR4");
    assert_eq!(Flavor::Fsr3.hud(), ("FSR3", ""));
}

fn signals(k: u16) -> Signals {
    Signals {
        dd: Half3 { x: k, y: k + 1, z: k + 2 },
        ds: Half3 { x: k + 3, y: k + 4, z: k + 5 },
        ao: k + 6,
        ind: Half3 { x: k + 7, y: k + 8, z: k + 9 },
        residual: Bits3 { x: k as u32 + 10, y: k as u32 + 11, z: k as u32 + 12 },
    }
}

#[test]
fn pixels_keep_their_signals_apart() {
    let mut b = FsrBufs::new(4, 3);
    for y in 0..3 {
        for x in 0..4 {
            b.write(x, y, &signals((100 * y + 20 * x) as u16), (y * 4 + x) as u32);
        }
    }
    for y in 0..3 {
        for x in 0..4 {
            assert_eq!(b.read(x, y), signals((100 * y + 20 * x) as u16));
            assert_eq!(b.prev_z[y * 4 + x], (y * 4 + x) as u32);
        }
    }
    b.set_res(2, 2);
    b.write(1, 1, &signals(7000), 9);
    assert_eq!(b.read(1, 1), signals(7000));
    assert_eq!(b.prev_z[3], 9);
}

#[test]
fn only_set_constants_are_configured() {
    let none = DenoiseTuning {
        normal_strength: None,
        stability_bias: None,
        max_radiance: None,
        radiance_clip_k: None,
        kernel_relaxation: None,
        disocclusion_threshold: None,
    };
    assert!(!none.any());
    assert_eq!(none.entries(), vec![]);
    let two = DenoiseTuning { max_radiance: Some(5), disocclusion_threshold: Some(6), ..none };
    assert!(two.any());
    assert_eq!(
        two.entries(),
        vec![(3, "max-radiance", 5), (6, "disocclusion-threshold", 6)]
    );
}

#[test]
fn staging_places_texels_and_keeps_the_padding() {
    let mut dst = vec![SENTINEL; 2 * 40];
    let rgb: Vec<u16> = (1..=12).collect();
    stage_color(&mut dst, 40, &rgb, 2, 2);
    assert_eq!(&dst[0..8], &[1, 0, 2, 0, 3, 0, 0, 0]);
    assert_eq!(&dst[8..16], &[4, 0, 5, 0, 6, 0, 0, 0]);
    assert_eq!(&dst[40..48], &[7, 0, 8, 0, 9, 0, 0, 0]);
    assert!(dst[16..40].iter().all(|&b| b == SENTINEL));

    let mut dst = vec![SENTINEL; 20];
    stage_mvec(&mut dst, 10, &vec![0x0102, 0x0304, 0x0506, 0x0708, 9, 9, 9, 9], 2, 2);
    assert_eq!(&dst[0..10], &[2, 1, 4, 3, 6, 5, 8, 7, SENTINEL, SENTINEL]);

    let mut dst = vec![SENTINEL; 9];
    stage_depth(&mut dst, 9, &vec![0x1122_3344, 5], 2, 1);
    assert_eq!(dst, vec![0x44, 0x33, 0x22, 0x11, 5, 0, 0, 0, SENTINEL]);
}

#[test]
fn rows_must_fit_their_buffer() {
    assert!(rows_fit(80, 40, 5, 2, 8));
    assert!(!rows_fit(79, 40, 5, 2, 8));
    assert!(!rows_fit(80, 39, 5, 2, 8));
    assert!(!rows_fit(80, 0, 0, 0, 8));
    assert!(!rows_fit(usize::MAX, usize::MAX, usize::MAX, 2, 8));
}

fn probe() -> StageProbe {
    let (near, far) = (0.1f32, 100.0f32);
    let accum: Vec<f32> = vec![0.5, 1e9, -1e9, 1.0, 2.0, 3.0];
    let half = |v: f32| -> u16 {
        if v > 65504.0 {
            0x7bff
        } else if v < -65504.0 {
            0xfbff
        } else {
            0x3c00
        }
    };
    let view_z = [0.05f32, 100.0];
    let depth = [1.0f32, 0.0];
    StageProbe {
        rw: 2,
        rh: 1,
        near: near.to_bits(),
        far: far.to_bits(),
        color: accum.iter().map(|&v| half(v)).collect(),
        accum: accum.iter().map(|v| v.to_bits()).collect(),
        mvec: vec![1, 2, 3, 4],
        view_z: view_z.iter().map(|v| v.to_bits()).collect(),
        depth: depth.iter().map(|v| v.to_bits()).collect(),
    }
}

#[test]
fn sound_encoders_pass_the_probe() {
    assert_eq!(stage_self_test(&probe()), Ok(()));
}

#[test]
fn unsound_encoders_are_caught() {
    let mut p = probe();
    p.color[1] = 0x7c00; // infinity, not saturated
    assert!(stage_self_test(&p).is_err());
    let mut p = probe();
    p.color[2] = 0x7bff; // the sign is lost
    assert!(stage_self_test(&p).is_err());
    let mut p = probe();
    p.depth[1] = 0.25f32.to_bits(); // the far plane is not zero
    assert!(stage_self_test(&p).is_err());
    let mut p = probe();
    p.depth[0] = 0.5f32.to_bits(); // before the near plane is not one
    assert!(stage_self_test(&p).is_err());
    let mut p = probe();
    p.accum = vec![0; 6]; // nothing to saturate
    assert!(stage_self_test(&p).is_err());
}

// The denoiser's levers.

#[test]
fn baseline_scale_follows_the_render_height() {
    let want = |rh: u32| (rh as f32 / 540.0 + 0.5).floor().max(1.0) as u32;
    for rh in [0, 1, 269, 270, 400, 540, 600, 809, 810, 1080, 1349, 1350, 1440, 2160, 4320] {
        assert_eq!(frd::vm_baseline_scale(rh), want(rh), "render height {rh}");
    }
    assert_eq!(frd::vm_baseline_scale(1080), 2);
    assert_eq!(frd::vm_baseline_scale(2160), 4);
    assert_eq!(frd::vm_scale_for(None, 1080), 2);
    assert_eq!(frd::vm_scale_for(Some(7), 1080), 7);
}

fn lever(text: &str) -> (Option<u32>, Reading) {
    frd::vm_scale_lever(Some(text), text.parse::<f32>().ok().map(f32::to_bits))
}

#[test]
fn scale_lever_takes_off_and_whole_numbers() {
    assert_eq!(frd::vm_scale_lever(None, None), (None, Reading::Unset));
    assert_eq!(lever("OFF"), (Some(1), Reading::Taken));
    for k in 1..=8u32 {
        assert_eq!(lever(&format!("{k}")), (Some(k), Reading::Taken));
    }
    assert_eq!(lever("2.0"), (Some(2), Reading::Taken));
    for bad in ["0", "9", "1.5", "-1", "nan", "inf", "two", ""] {
        assert_eq!(lever(bad), (None, Reading::Refused), "{bad}");
    }
}

fn gain(text: &str) -> (f32, Reading) {
    let (g, r) = frd::sunpar_gain(Some(text), text.parse::<f32>().ok().map(f32::to_bits));
    (f32::from_bits(g), r)
}

#[test]
fn light_gain_takes_off_and_finite_numbers() {
    assert_eq!(frd::sunpar_gain(None, None), (1.0f32.to_bits(), Reading::Unset));
    assert_eq!(gain("off"), (0.0, Reading::Taken));
    assert_eq!(gain("0.25"), (0.25, Reading::Taken));
    assert_eq!(gain("-0.0"), (0.0, Reading::Taken));
    for bad in ["-1", "inf", "NaN", "loud"] {
        assert_eq!(gain(bad), (1.0, Reading::Refused), "{bad}");
    }
}

#[test]
fn disarming_levers_only_disarm() {
    for read in [
        frd::curv_enabled,
        frd::vmotion_enabled,
        frd::girelax_enabled,
        frd::antilag_enabled,
    ] {
        assert_eq!(read(None), (true, Reading::Unset));
        assert_eq!(read(Some("oFf")), (false, Reading::Taken));
        assert_eq!(read(Some("on")), (true, Reading::Refused));
    }
}

#[test]
fn the_first_tuning_stays() {
    let mut cell = TuningCell::new();
    assert!(!cell.tuning().any());
    let t = FrdTuning { fast_frames: Some(6), ..FrdTuning::default() };
    assert!(t.any());
    assert!(FrdTuning { no_fp16: true, ..FrdTuning::default() }.any());
    cell.set_tuning(t);
    cell.set_tuning(FrdTuning::default());
    assert_eq!(cell.tuning().fast_frames, Some(6));
}

#[test]
fn the_first_fault_of_a_probe_is_named() {
    let fault = |change: &dyn Fn(&mut StageProbe)| {
        let mut p = probe();
        change(&mut p);
        stage_self_test(&p).unwrap_err()
    };
    let colour = "a colour past the range does not saturate with its own sign";
    assert_eq!(fault(&|p| p.color[1] = 0x7c00), colour);
    assert_eq!(
        fault(&|p| p.depth[1] = 2.0f32.to_bits()),
        "a depth is encoded outside the unit range"
    );
    assert_eq!(
        fault(&|p| p.depth[1] = 0.25f32.to_bits()),
        "the sky is not encoded to exactly 0"
    );
    assert_eq!(
        fault(&|p| p.depth[0] = 0.5f32.to_bits()),
        "a depth nearer than the near plane is not encoded to exactly 1"
    );
    assert_eq!(
        fault(&|p| {
            p.view_z[1] = 50.0f32.to_bits();
        }),
        "no sky pixel in the probe"
    );
    assert_eq!(
        fault(&|p| p.view_z[0] = 50.0f32.to_bits()),
        "no depth nearer than the near plane in the probe"
    );
    assert_eq!(fault(&|p| p.accum = vec![0; 6]), "no out-of-range colour in the probe");
    // Of one pixel the colours come first, and the first pixel before both.
    assert_eq!(
        fault(&|p| {
            p.color[1] = 0x7c00;
            p.depth[0] = 0.5f32.to_bits();
        }),
        colour
    );
    assert_eq!(
        fault(&|p| {
            p.depth[0] = 0.5f32.to_bits();
            p.depth[1] = 2.0f32.to_bits();
        }),
        "a depth nearer than the near plane is not encoded to exactly 1"
    );
}
