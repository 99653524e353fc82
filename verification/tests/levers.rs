//! Shader levers: what settings read as, and the defines that follow.
use frustracer::bits::Bits3;
use frustracer::gfx::shaders;
use frustracer::gfx::shaders::{
    abl_announce, abl_defs, abl_has, alpha_defs, ballast_defs, ballast_dxr_defs, ballast_dxr_n,
    ballast_parsed, ballast_ref_n, blas_defs, cand_defs, cloud_shadow_n, depth_full, detail_defs,
    dxr_sources, format_width_report, height_defs, lane_stack, leaf_group, non_opaque, rtgi_defs,
    set_cloud_shadow, set_sky_lod, set_waveviz, set_waveviz_live, sky_lod, sky_unit_src, spp_defs,
    stack_layout_def, sw_rays, sw_rays_leaf, sway_defs, trace_sources, trans_defs,
    wavefront_ablation_defs, waveviz_chs, waveviz_defs, waveviz_env, waveviz_live, waveviz_on,
    wide_levels, width_defs, width_probe_on, workgraph_src, Corpus, DxrKeys, Host, Levers,
    Reading, TraceKeys, CTR_TOTAL,
};
use frustracer::gfx::vocab::Vendor;
use frustracer::scene::Scene;

fn own(s: &str) -> String {
    s.to_string()
}

fn host() -> Host {
    Host {
        cut_seed_rays: true,
        height_armed: true,
        rtgi: true,
        max_prims: Some(4096),
        ftree_enabled: true,
        leaf_tile: 8,
        trav_stack: 96,
        max_spp: 4,
        max_fireflies: 8,
        max_emissive_lights: 16,
        detail_strength: own("0.5"),
        detail_ao_strength: own("0.25"),
        jitter: vec![
            (own("0.0"), own("0.0")),
            (own("-0.25"), own("0.25")),
            (own("0.25"), own("-0.25")),
            (own("-0.375"), own("0.125")),
        ],
    }
}

fn scene() -> Scene {
    let zero = Bits3 { x: 0, y: 0, z: 0 };
    Scene {
        positions: vec![zero; 3],
        normals: vec![zero; 3],
        texcoords: vec![[0, 0]; 3],
        indices: vec![[0, 1, 2]],
        tri_mat: vec![0],
        materials: vec![],
        textures: vec![],
        detail_scales: vec![],
        tex_var: vec![],
        any_alpha: true,
        any_height: true,
        any_transmissive: true,
        content_min: zero,
        content_max: zero,
        sway_regions: vec![],
    }
}

/// Every text is its own name in brackets, so that a unit lists its parts.
fn corpus() -> Corpus {
    Corpus {
        smoke: own("[smoke]"),
        sh: own("[sh]"),
        fsr_wire: own("[fsr_wire]"),
        trace_common_body: own("[trace_common]"),
        ctr: own("[ctr]"),
        continuation: own("[continuation]"),
        queues_body: own("[queues]"),
        frustum: own("[frustum]"),
        ftree: own("[ftree]"),
        rt: own("[rt]"),
        rt_sw: own("[rt_sw]"),
        ripple: own("[ripple]"),
        shade: own("[shade]"),
        hemi: own("[hemi]"),
        reference: own("[reference]"),
        resolve: own("[resolve]"),
        wavefront: own("[wavefront]"),
        sky: own("[sky]"),
        skylod: own("[skylod]"),
        leaf: own("[leaf]"),
        hemi_wave: own("[hemi_wave]"),
        hemi_leaf: own("[hemi_leaf]"),
        compose: own("[compose]"),
        feed: own("[feed]"),
        nppd: own("[nppd]"),
        nrd_bridge: own("[nrd_bridge]"),
        waveprobe: own("[waveprobe]"),
        workgraph: own("[workgraph]"),
        rt_dxr: own("[rt_dxr]"),
        dxr: own("[dxr]"),
        dxr_shade: own("[dxr_shade]"),
    }
}

/// The bracketed parts of a unit, in order.
fn parts(unit: &str) -> Vec<String> {
    unit.lines()
        .filter(|l| l.starts_with('['))
        .map(|l| l.trim_matches(|c| c == '[' || c == ']').to_string())
        .collect()
}

fn tagged(tags: &str) -> Levers {
    let mut l = Levers::new();
    l.abl = own(tags);
    l
}

#[test]
fn widths_take_legal_powers_of_two() {
    assert_eq!(leaf_group(None), (256, Reading::Unset));
    assert_eq!(leaf_group(Some("64")), (64, Reading::Taken));
    assert_eq!(leaf_group(Some("100")), (256, Reading::Refused));
    assert_eq!(leaf_group(Some("x")), (256, Reading::Refused));
    assert_eq!(lane_stack(None), (16, Reading::Unset));
    assert_eq!(lane_stack(Some("32")), (32, Reading::Taken));
    assert_eq!(lane_stack(Some("-8")).1, Reading::Refused);
    assert_eq!(wide_levels(None), (7, Reading::Unset));
    assert_eq!(wide_levels(Some("3")), (3, Reading::Taken));
    assert_eq!(wide_levels(Some("3 ")), (7, Reading::Refused));
}

#[test]
fn probes_are_armed_by_their_words_only() {
    assert_eq!(width_probe_on(None), (false, Reading::Unset));
    assert_eq!(width_probe_on(Some("1")), (true, Reading::Taken));
    assert_eq!(width_probe_on(Some("yes")), (false, Reading::Refused));
    assert_eq!(waveviz_env(Some("1")), (1, Reading::Taken));
    assert_eq!(waveviz_env(Some("chs")), (2, Reading::Taken));
    assert_eq!(waveviz_env(Some("2")), (0, Reading::Refused));
    assert_eq!(stack_layout_def(Some("lane")), ("\n#define STACK_LANE_MAJOR 1", Reading::Taken));
    assert_eq!(stack_layout_def(Some("depth")), ("", Reading::Unset));
    assert_eq!(stack_layout_def(Some("both")), ("", Reading::Refused));
}

#[test]
fn ballast_goes_to_one_pipeline() {
    assert_eq!(ballast_parsed(None), ((0, 0), Reading::Unset));
    assert_eq!(ballast_parsed(Some("12")), ((12, 0), Reading::Taken));
    assert_eq!(ballast_parsed(Some("dxr:256")), ((0, 256), Reading::Taken));
    for bad in ["0", "257", "dxr:", "dxr:0", "dxr12", "", "1e2"] {
        assert_eq!(ballast_parsed(Some(bad)), ((0, 0), Reading::Refused), "{bad}");
    }
    let mut l = Levers::new();
    l.ballast = (12, 0);
    assert_eq!((ballast_ref_n(&l), ballast_dxr_n(&l)), (12, 0));
    assert_eq!(ballast_defs(&l), "#define BALLAST_N 12u");
    assert_eq!(ballast_dxr_defs(&l), "");
}

#[test]
fn defines_follow_scene_levers_and_tags() {
    let (s, l, h) = (scene(), Levers::new(), host());
    assert_eq!(alpha_defs(&s, &l), "#define ALPHA_CUTOUT 1");
    assert_eq!(alpha_defs(&s, &tagged("noalpha")), "");
    assert_eq!(height_defs(&s, &l, &h), "#define HEIGHTFIELD 1");
    assert_eq!(height_defs(&s, &tagged("x,noheight"), &h), "");
    assert_eq!(trans_defs(&s, &l), "#define TRANS_SHADOW 1");
    assert_eq!(rtgi_defs(&h), "#define RTGI 1");
    assert_eq!(blas_defs(&h), "#define BLAS_SPLIT 1");
    assert_eq!(sway_defs(true), "#define SWAY_MV 1");
    assert_eq!(cand_defs(Vendor::Amd, &l), "#define CAND_TMIN0 1");
    assert_eq!(cand_defs(Vendor::Amd, &tagged("nocandtmin")), "");
    assert_eq!(cand_defs(Vendor::Nvidia, &l), "");
    assert!(non_opaque(&s, &l, &h));
    assert!(!non_opaque(&s, &tagged("noalpha noheight notrans"), &h));
    assert!(abl_has(&tagged("abc"), "bc"));
}

#[test]
fn ablation_texts_keep_their_order() {
    assert_eq!(abl_defs(&Levers::new()), "");
    assert_eq!(
        abl_defs(&tagged("noelcode,sunt")),
        "#define ABL_SUNT 1\n#define ABL_NO_EL_CODE 1\n#define ABL_NO_EL_CULL 1\n"
    );
    assert_eq!(
        wavefront_ablation_defs(&tagged("nowave,oldcut")),
        "#define ABL_KEEP_TERMINAL_CUT 1\n#define ABL_NO_WAVE_OPS 1\n"
    );
    assert_eq!(abl_announce(&Levers::new()), None);
    assert_eq!(abl_announce(&tagged("bogus")), Some(own("(none)")));
    assert_eq!(abl_announce(&tagged("nosec,rough")), Some(own("rough,nosec")));
}

#[test]
fn levers_keep_what_they_are_set_to() {
    let mut l = Levers::new();
    assert_eq!((cloud_shadow_n(&l), sky_lod(&l)), (16, 4));
    set_cloud_shadow(&mut l, 0);
    set_sky_lod(&mut l, 8);
    assert_eq!((cloud_shadow_n(&l), sky_lod(&l)), (0, 8));
    assert!(!waveviz_on(&l) && !waveviz_live(&l));
    set_waveviz(&mut l, 2);
    set_waveviz_live(&mut l, true);
    assert!(waveviz_on(&l) && waveviz_chs(&l) && waveviz_live(&l));
    assert_eq!(waveviz_defs(&l), "#define WAVEVIZ 1");
    l.sw_rays = true;
    assert!(sw_rays(&l) && sw_rays_leaf(&l, &host()));
    l.width_probe = true;
    assert_eq!(width_defs(&l), "#define WIDTH_PROBE 1\n#define CTR_W_REFERENCE 30u");
}

#[test]
fn full_depth_covers_the_screen() {
    assert_eq!(depth_full(8, 8, 8), 0);
    assert_eq!(depth_full(8, 9, 8), 1);
    assert_eq!(depth_full(8, 1920, 1080), 8);
    assert_eq!(depth_full(1, u32::MAX, 1), 32);
}

#[test]
fn sample_tables_print_their_offsets() {
    assert_eq!(
        spp_defs(&host()),
        "#define MAX_SPP 4u\n#define JITTER_ROWS 2\n#define MAX_FIREFLIES 8\n\
         #define MAX_EMISSIVE_LIGHTS 16\nstatic const float2 SKY_J[MAX_SPP] = { \
         float2(0.0, 0.0), float2(-0.25, 0.25), float2(0.25, -0.25), float2(-0.375, 0.125) };"
    );
    assert_eq!(detail_defs(&host()), "#define DETAIL_STR 0.5\n#define DETAIL_AO_STR 0.25");
}

#[test]
fn width_reports_read_their_slots() {
    let c: Vec<u32> = (0..CTR_TOTAL).map(|i| i * 10).collect();
    assert_eq!(
        format_width_report(&c),
        "width (gpu): leaf=260 sky=270 level=280 hemi=290 reference=300"
    );
}

#[test]
fn wavefront_units_are_assembled_in_order() {
    let s = scene();
    let k = TraceKeys { scene: &s, vendor: Vendor::Amd, sway_armed: true };
    let u = trace_sources(&k, &Levers::new(), &host(), &corpus());
    assert_eq!(
        parts(&u.leaf),
        [
            "sh", "trace_common", "ctr", "continuation", "queues", "skylod", "rt", "ripple",
            "shade", "leaf"
        ]
    );
    assert_eq!(
        parts(&u.wavefront),
        ["sh", "trace_common", "ctr", "continuation", "queues", "frustum", "ftree", "wavefront"]
    );
    assert_eq!(parts(&u.resolve), ["sh", "trace_common", "resolve"]);
    assert_eq!(parts(&u.feed), ["sh", "trace_common", "fsr_wire", "feed"]);
    assert_eq!(parts(&u.nrd_bridge(&Levers::new(), &corpus())).last().unwrap(), "nrd_bridge");
    assert_eq!(parts(&u.nppd(&corpus())).last().unwrap(), "nppd");
    assert!(u.leaf.contains("#define LEAF_NO_FB 1") && !u.leaf_fb.contains("LEAF_NO_FB"));
    assert!(u.leaf.contains("#define CAND_TMIN0 1") && u.leaf.contains("#define SWAY_MV 1"));
    assert!(u.sway_mv_on && u.ftree_on);
    let mut soft = Levers::new();
    soft.sw_rays = true;
    let u = trace_sources(&k, &soft, &host(), &corpus());
    assert!(parts(&u.leaf).contains(&own("rt_sw")) && !parts(&u.leaf).contains(&own("rt")));
    assert!(u.leaf.contains("#define SW_TRAV_STACK 96u"));
    assert!(!u.sway_mv_on && !u.leaf.contains("#define SWAY_MV 1"));
}

#[test]
fn probe_sessions_put_their_defines_first() {
    let s = scene();
    let k = TraceKeys { scene: &s, vendor: Vendor::Other, sway_armed: false };
    let mut l = Levers::new();
    l.width_probe = true;
    l.ballast = (5, 0);
    let u = trace_sources(&k, &l, &host(), &corpus());
    assert!(u.reference.starts_with("#define WIDTH_PROBE 1\n"));
    assert!(u.reference.contains("#define BALLAST_N 5u"));
    assert!(!u.leaf.contains("BALLAST_N"));
}

#[test]
fn the_sky_unit_is_shared() {
    let s = scene();
    let l = Levers::new();
    let k = TraceKeys { scene: &s, vendor: Vendor::Other, sway_armed: false };
    let d = DxrKeys {
        scene: &s,
        sway_armed: false,
        inline_mode: 0,
        recurse: false,
        gbuf_full: true,
        nrd: true,
    };
    let u = trace_sources(&k, &l, &host(), &corpus());
    let (x, notices) = dxr_sources(&d, &l, &host(), &corpus());
    assert_eq!(x.sky.as_ref(), Some(&u.sky));
    assert_eq!(x.resolve, u.resolve);
    assert_eq!(u.sky, sky_unit_src(&l, &host(), &corpus(), 4, 16));
    assert!(u.sky.contains("#define SKY_LOD 4\n#define SKY_LOD_LOG 2"));
    assert_eq!(x.lib_target, "lib_6_3");
    assert_eq!(x.dxr_shade, None);
    assert!(x.feed.is_some() && x.nrd_bridge.is_some());
    assert!(!notices.ballast_off && !notices.chs_off && !notices.waveviz_off);
    let mut off = Levers::new();
    set_sky_lod(&mut off, 1);
    set_cloud_shadow(&mut off, 0);
    assert_eq!(dxr_sources(&d, &off, &host(), &corpus()).0.sky, None);
}

#[test]
fn ray_tracing_modes_pick_their_parts() {
    let s = scene();
    let mut l = Levers::new();
    l.ballast = (0, 9);
    set_waveviz(&mut l, 2);
    let keys = |mode: u32, recurse: bool| DxrKeys {
        scene: &s,
        sway_armed: true,
        inline_mode: mode,
        recurse,
        gbuf_full: false,
        nrd: true,
    };
    let (x, n) = dxr_sources(&keys(1, false), &l, &host(), &corpus());
    assert!(x.library.contains("#define WAVEVIZ_CHS 1") && !x.library.contains("BALLAST_N"));
    assert!(n.ballast_off && !n.chs_off && !n.waveviz_off);
    assert_eq!(x.lib_target, "lib_6_5");
    assert!(x.feed.is_none() && x.nrd_bridge.is_none());
    let (x, n) = dxr_sources(&keys(2, false), &l, &host(), &corpus());
    assert!(x.library.contains("#define BALLAST_N 9u") && !x.library.contains("WAVEVIZ_CHS"));
    assert!(!n.ballast_off && n.chs_off);
    let (x, n) = dxr_sources(&keys(3, false), &l, &host(), &corpus());
    assert!(n.waveviz_off && !x.library.contains("WAVEVIZ"));
    assert_eq!(
        parts(x.dxr_shade.as_ref().unwrap()),
        ["sh", "trace_common", "skylod", "rt", "ripple", "shade", "dxr_shade"]
    );
    let (x, _) = dxr_sources(&keys(0, true), &l, &host(), &corpus());
    assert!(x.library.contains("#define DXR_SBT_RECURSE 1"));
    assert!(parts(&x.library).contains(&own("rt")));
    let (x, _) = dxr_sources(&keys(0, false), &l, &host(), &corpus());
    assert!(!parts(&x.library).contains(&own("rt")));
}

#[test]
fn workgraphs_wrap_the_wavefront() {
    assert_eq!(
        workgraph_src(&corpus(), "WAVE", 7, 3),
        "#define WORKGRAPH 1\n#define WG_WIDE_LEVELS 7\n#define WG_DEEP_LEVELS 3\nWAVE\n[workgraph]"
    );
}

#[test]
fn counter_slots_are_one_run() {
    let all = [
        shaders::CTR_TILE_A,
        shaders::CTR_TILE_B,
        shaders::CTR_LEAF,
        shaders::CTR_SKY,
        shaders::CTR_CUT,
        shaders::CTR_OVERFLOW,
        shaders::CTR_CUT_FALLBACK,
        shaders::CTR_SPLIT,
        shaders::CTR_BLOCKED,
        shaders::CTR_HEMI_PT,
        shaders::CTR_HEMI_A,
        shaders::CTR_HEMI_B,
        shaders::CTR_HEMI_LEAF,
        shaders::CTR_HEMI_CUT,
        shaders::CTR_HEMI_EMPTY,
        shaders::CTR_HEMI_RAYS,
        shaders::CTR_V_FALSE_EMPTY,
        shaders::CTR_V_TMIN,
        shaders::CTR_ALPHA_REJ,
        shaders::CTR_HEIGHT_REJ,
        shaders::CTR_TRANS_PASS,
        shaders::CTR_FRONTIER_HANDLES,
        shaders::CTR_FRONTIER_RAYS,
        shaders::CTR_FRONTIER_ENTRIES,
        shaders::CTR_SKY_PX,
        shaders::CTR_RTGI_RAYS,
    ];
    for (i, &c) in all.iter().enumerate() {
        assert_eq!(c as usize, i);
    }
    assert_eq!(all.len(), shaders::CTR_COUNT as usize);
}

#[test]
fn ablation_lists_share_the_wave_line_alone() {
    let all = [
        "nowave", "oldcut", "nobatch", "wavegw", "sunt", "nosec", "rough", "noelcode", "noheight",
    ];
    for bits in 0u32..1 << all.len() {
        let tags: Vec<&str> = (0..all.len()).filter(|k| bits >> k & 1 == 1).map(|k| all[k]).collect();
        let l = tagged(&tags.join(","));
        let (shade, wave) = (abl_defs(&l), wavefront_ablation_defs(&l));
        let line = "#define ABL_NO_WAVE_OPS 1";
        let shared: Vec<&str> = shade.lines().filter(|a| wave.lines().any(|b| *a == b)).collect();
        let want = if tags.contains(&"nowave") { vec![line] } else { vec![] };
        assert_eq!(shared, want);
        assert_eq!(wave.is_empty(), bits & 15 == 0);
    }
}
