//! Source-level pins on the assembled shader units: guards, orderings and
//! routing that no image can show. The corpus here is cut down to the lines
//! that the pins read; every pin takes its text out of an assembled unit.
use frustracer::bits::Bits3;
use frustracer::gfx::shaders::{
    dxr_sources, empty_defs, trace_sources, Corpus, DxrKeys, DxrSources, Host, Levers, TraceKeys,
    TraceSources, CTR_COUNT, CTR_TOTAL, CTR_W_LEAF,
};
use frustracer::gfx::vocab::Vendor;
use frustracer::scene::Scene;

const CTR: &str = "
#define CTR_COUNT       26u
#define CTR_W_LEAF      26u
#define CTR_TOTAL       31u
void ctr_bump(uint slot, uint n) { InterlockedAdd(ctr[slot], n); }
";

const CONTINUATION: &str = "
#define FRONTIER_COOKIE_V1 0x46524301u
struct TraversalFrontier { uint2 opaque; };
TraversalFrontier frontier_from_binary_cut(uint slot, uint len) {
    TraversalFrontier h;
    h.opaque = uint2((slot << 6u) | (len - 1u), FRONTIER_COOKIE_V1);
    return h;
}
bool frontier_backend_is_root(TraversalFrontier h) {
    return h.opaque.y != FRONTIER_COOKIE_V1 || (h.opaque.x >> 6u) >= cap_cut;
}
";

const QUEUES: &str = "
struct TileRec { uint cut_slot; uint cut_len; };
struct LeafRec {
    uint xy;
    TraversalFrontier frontier;
};
struct SkyRec { uint xy; };
";

const TRACE_COMMON: &str = "
float height_tmin(float tmin) {
    if (flags & FLAG_HEIGHT) return 0.0;
    return tmin;
}
float height_tmax(float tmax) {
    if (flags & FLAG_HEIGHT) return FLT_MAX;
    return tmax;
}
uint pack_info(uint a) { return a; }
";

const FRUSTUM: &str = "
#ifndef FTREE
float bound_query(Frustum f, float t_start, float t_limit) {
#ifdef SCENE_EMPTY
    return t_limit;
#else
    BvhNode node = bvh_nodes[idx];
    return best;
#endif
}
// frustum.rs::refine_cut
uint refine_cut(Frustum f, uint slot) {
#ifdef SCENE_EMPTY
    return 0u;
#else
    BvhNode node = bvh_nodes[idx];
    return n;
#endif
}
#endif // !FTREE
";

const FTREE: &str = "
void ft_expand(uint node, inout float best, inout uint sp) {
    for (uint s = 0u; s < 8u; s++) {
        if (pd >= best) continue;
        if (sp + 1 > LANE_STACK) {
            best = min(best, pd);
            continue;
        }
        push(sp++, child[s]);
    }
}
// frustum.rs::nearest_geometry_distance
float bound_query(Frustum f) { return best; }
";

const RT: &str = "
float cand_tmin(float logical_tmin) {
#ifdef CAND_TMIN0
    return 0.0;
#else
    return height_tmin(logical_tmin);
#endif
}
#if defined(ALPHA_CUTOUT) || defined(HEIGHTFIELD)
bool trace_closest(float3 o, float3 d, float tmin, float tmax) {
    r.TMin = cand_tmin(tmin);
    r.TMax = height_tmax(tmax);
    if (ct > tmin && ct < tmax) commit();
    return hit;
}
bool occluded_q(float3 o, float3 d, float tmin, float tmax) {
    r.TMin = cand_tmin(tmin);
    return hit;
}
#endif
#ifdef TRANS_SHADOW
float3 transmit_q(float3 o, float3 d, float tmin, float tmax) {
    r.TMin = cand_tmin(tmin);
    return tr;
}
#endif
";

const RT_SW: &str = "
bool trace_closest(float3 o, float3 d) {
#ifdef SCENE_EMPTY
    return false;
#else
    BvhNode node = bvh_nodes[0];
    return hit;
#endif
}
bool occluded_q(float3 o, float3 d) {
#ifdef SCENE_EMPTY
    return false;
#else
    BvhNode node = bvh_nodes[0];
    return hit;
#endif
}
float3 transmit_q(float3 o, float3 d) {
#ifdef SCENE_EMPTY
    return float3(1.0, 1.0, 1.0);
#else
    BvhNode node = bvh_nodes[0];
    return tr;
#endif
}
bool trace_closest_frontier(TraversalFrontier frontier, float3 o, float3 d) {
#ifdef SCENE_EMPTY
    return false;
#else
    if (frontier_backend_is_root(frontier)) return trace_closest(o, d);
    uint root = cut_pool[frontier.opaque.x];
    BvhNode node = bvh_nodes[root];
    return hit;
#endif
}
";

const SHADE: &str = "
float3 shade_split(float3 p, uint depth) {
    c += trace_shade(p, rdir, rng, depth + 1u, cone_w, rec_t);
    c += trace_shade(torig, tdir, rng, depth + 1u, cone_w, trec_t);
    return c;
}
";

const REFERENCE: &str = "
#if defined(WIDTH_PROBE) || defined(WAVEVIZ)
RWStructuredBuffer<uint> ctr : register(u3);
#endif
void cs_reference(uint2 id) {
#ifdef WIDTH_PROBE
    ctr[CTR_W_REFERENCE] = WaveGetLaneCount();
#endif
#ifdef WAVEVIZ
    uint wv_t = WaveReadLaneFirst(id.y * 977u + id.x);
#endif
#if defined(BALLAST_N) && (BALLAST_N > 0)
    float ballast[BALLAST_N];
#endif
    for (uint s = 0u; s < spp; s++) {
#if defined(BALLAST_N) && (BALLAST_N > 0)
        ballast[s % BALLAST_N] += 1.0;
#endif
    }
#if defined(BALLAST_N) && (BALLAST_N > 0)
    if (spp == 0xdeadu) {
        float bacc = 0.0;
        for (uint b = 0u; b < BALLAST_N; b++) bacc += ballast[b];
        accum[0] = bacc;
    }
#endif
}
";

const RESOLVE: &str = "void cs_resolve(uint2 id) { out_tex[id] = accum[id]; }\n";

const WAVEFRONT: &str = "
void cs_seed(uint i) {
    if (i < CTR_COUNT) ctr[i] = 0u;
}
void cs_level(uint i) {
#ifdef WIDTH_PROBE
    ctr[CTR_W_LEVEL] = WaveGetLaneCount();
#endif
    lf.frontier = frontier_from_binary_cut(leaf_slot, leaf_len);
}
";

const SKY: &str = "
void cs_sky(uint2 id) {
#ifdef WIDTH_PROBE
    ctr[CTR_W_SKY] = WaveGetLaneCount();
#endif
#ifdef WAVEVIZ
    uint wv_t = WaveReadLaneFirst(id.x);
#endif
}
";

const LEAF: &str = "
void cs_leaf(uint i) {
#ifdef WIDTH_PROBE
    ctr[CTR_W_LEAF] = WaveGetLaneCount();
#endif
#ifdef WAVEVIZ
    uint wv_t = WaveReadLaneFirst(i);
#endif
    trace_closest_frontier(rec.frontier, cam_origin.xyz, dir, 0.0, INF);
}
";

const HEMI_LEAF: &str = "
void cs_hemi_leaf(uint i) {
#ifdef WIDTH_PROBE
    ctr[CTR_W_HEMI] = WaveGetLaneCount();
#endif
}
";

const RT_DXR: &str = "
struct HitPayload {
    float t;
    uint prim;
#if defined(DXR_INLINE_SEC) && DXR_INLINE_SEC == 3
    uint inst;
#endif
};
#if !defined(DXR_INLINE_SEC) && !defined(DXR_SBT_RECURSE)
RaytracingAccelerationStructure tlas : register(t0);
#endif
#if !defined(DXR_INLINE_SEC) && !defined(DXR_SBT_RECURSE)
bool trace_closest(float3 o, float3 d, float tmin, float tmax) {
    r.TMin = height_tmin(tmin);
    r.TMax = height_tmax(tmax);
    p.tmin = tmin;
    p.tmax = tmax;
    return p.t < INF;
}
#endif
#ifdef DXR_SBT_RECURSE
float3 trace_shade(float3 o, float3 d, inout uint rng, uint depth, float cone_w, out float t) {
    p.prim = 0x80000000u;
    TraceRay(tlas, OPAQUE_RF, 0xffu, 0u, 0u, 3u, r, p);
    return p.color;
}
#endif
";

const DXR: &str = "
// A banded dispatch shrinks the grid: DispatchRaysIndex() starts over at 0.
uint2 band_id(uint2 id) {
    return uint2(id.x, id.y + push1);
}
#ifdef WIDTH_PROBE_RAYGEN
RWStructuredBuffer<uint> dxr_width : register(u3);
#endif
void raygen() {
    uint2 id = band_id(DispatchRaysIndex().xy);
#ifdef WIDTH_PROBE_RAYGEN
    dxr_width[0] = WaveGetLaneCount();
#endif
#if defined(WAVEVIZ) && !defined(WAVEVIZ_CHS)
    uint wv_t = WaveReadLaneFirst(id.x);
#endif
#if defined(BALLAST_N) && (BALLAST_N > 0) && defined(DXR_INLINE_SEC) && (DXR_INLINE_SEC == 2)
    float ballast[BALLAST_N];
#endif
#if defined(DXR_INLINE_SEC) && DXR_INLINE_SEC == 3
    // The THIN arm: one ray, one record.
    TraceRay(tlas, OPAQUE_RF, 0xffu, 0u, 0u, 0u, r, p);
    hitrec[pi] = rec;
#else
#if defined(BALLAST_N) && (BALLAST_N > 0) && defined(DXR_INLINE_SEC) && (DXR_INLINE_SEC == 2)
    ballast[0] += 1.0;
#endif
#if defined(DXR_INLINE_SEC) && DXR_INLINE_SEC == 2
#if SKY_LOD > 1
    c = sky_lod_at(id);
#else
    c = shade_inline(id);
#endif
#else
    TraceRay(tlas, OPAQUE_RF, 0xffu, 0u, 0u, 0u, r, p);
#endif // DXR_INLINE_SEC == 2
#if defined(BALLAST_N) && (BALLAST_N > 0) && defined(DXR_INLINE_SEC) && (DXR_INLINE_SEC == 2)
    if (spp == 0xdeadu) accum[0] = ballast[0];
#endif
    accum[pi] += c;
#endif
}
void isect_height(float tmin, float tmax) {
    if (t <= tmin || t >= tmax) return;
}
void ahs_height(HitPayload p) {
    if (t <= p.tmin || t >= p.tmax) return;
}
void chs_shade(inout HitPayload p) {
#if defined(WAVEVIZ) && defined(WAVEVIZ_CHS)
    uint2 wid = band_id(DispatchRaysIndex().xy);
    uint wv_t = WaveReadLaneFirst(wid.x);
#endif
    if (p.prim & 0x80000000u) {
        p.color = shade_split(h, asuint(p.sp.x));
        return;
    }
    uint2 gid = band_id(DispatchRaysIndex().xy);
    p.color = shade_full(h, gid);
}
void miss_radiance(inout HitPayload p) {
    // The lattice is absolute, so DispatchRaysIndex() is lifted here too.
    uint2 lid = band_id(DispatchRaysIndex().xy);
    p.color = sky(lid, band_id(DispatchRaysIndex().xy));
}
void miss_rec(inout HitPayload p) {
    p.t = INF;
}
";

const DXR_SHADE: &str = "
#ifdef WIDTH_PROBE
RWStructuredBuffer<uint> dxr_width : register(u3);
#endif
void cs_dxr_shade(uint3 id) {
    id.y += push1;
    if (id.y >= push2) return;
    uint pi = id.y * rw + id.x;
#ifdef WIDTH_PROBE
    dxr_width[1] = WaveGetLaneCount();
#endif
    if (rec.t < 0.0) { tmiss = INF; }
    h.tri = rec.tri;
    tbuf[pi] = tmiss;
}
";

fn own(s: &str) -> String {
    s.to_string()
}

fn corpus() -> Corpus {
    Corpus {
        smoke: own("// smoke\n"),
        sh: own("// sh\n"),
        fsr_wire: own("// fsr_wire\n"),
        trace_common_body: own(TRACE_COMMON),
        ctr: own(CTR),
        continuation: own(CONTINUATION),
        queues_body: own(QUEUES),
        frustum: own(FRUSTUM),
        ftree: own(FTREE),
        rt: own(RT),
        rt_sw: own(RT_SW),
        ripple: own("// ripple\n"),
        shade: own(SHADE),
        hemi: own("// hemi\n"),
        reference: own(REFERENCE),
        resolve: own(RESOLVE),
        wavefront: own(WAVEFRONT),
        sky: own(SKY),
        skylod: own("// skylod\n"),
        leaf: own(LEAF),
        hemi_wave: own("// hemi_wave\n"),
        hemi_leaf: own(HEMI_LEAF),
        compose: own("// compose\n"),
        feed: own("// feed\n"),
        nppd: own("// nppd\n"),
        nrd_bridge: own("// nrd_bridge\n"),
        waveprobe: own("// waveprobe\n"),
        workgraph: own("// workgraph\n"),
        rt_dxr: own(RT_DXR),
        dxr: own(DXR),
        dxr_shade: own(DXR_SHADE),
    }
}

fn host() -> Host {
    Host {
        cut_seed_rays: true,
        height_armed: true,
        rtgi: false,
        max_prims: None,
        ftree_enabled: true,
        leaf_tile: 8,
        trav_stack: 96,
        max_spp: 4,
        max_fireflies: 8,
        max_emissive_lights: 16,
        detail_strength: own("0.5"),
        detail_ao_strength: own("0.25"),
        jitter: vec![
            (own("0.0"), own("0.0")),
            (own("-0.25"), own("0.25")),
            (own("0.25"), own("-0.25")),
            (own("-0.375"), own("0.125")),
        ],
    }
}

fn empty_scene() -> Scene {
    let zero = Bits3 { x: 0, y: 0, z: 0 };
    Scene {
        positions: vec![],
        normals: vec![],
        texcoords: vec![],
        indices: vec![],
        tri_mat: vec![],
        materials: vec![],
        textures: vec![],
        detail_scales: vec![],
        tex_var: vec![],
        any_alpha: false,
        any_height: false,
        any_transmissive: false,
        content_min: zero,
        content_max: zero,
        sway_regions: vec![],
    }
}

fn trace_units(sw_rays: bool, ftree: bool) -> TraceSources {
    let scene = empty_scene();
    let keys = TraceKeys { scene: &scene, vendor: Vendor::Nvidia, sway_armed: false };
    let mut levers = Levers::new();
    levers.sw_rays = sw_rays;
    let mut h = host();
    h.ftree_enabled = ftree;
    trace_sources(&keys, &levers, &h, &corpus())
}

fn dxr_units(inline_mode: u32, recurse: bool) -> DxrSources {
    let scene = empty_scene();
    let keys = DxrKeys {
        scene: &scene,
        sway_armed: false,
        inline_mode,
        recurse,
        gbuf_full: false,
        nrd: false,
    };
    dxr_sources(&keys, &Levers::new(), &host(), &corpus()).0
}

/// The part of a unit that was pasted from this text.
fn pasted<'a>(unit: &'a str, part: &str) -> &'a str {
    let at = unit.find(part).expect("the unit must hold the text whole");
    &unit[at..at + part.len()]
}

/// Every use of the width slots sits inside a probe guard, and the seed kernel
/// never clears the tail they live in.
#[test]
fn width_writes_are_guarded_and_slots_survive_zeroing() {
    let units = trace_units(false, true);
    let leaf = pasted(&units.leaf, LEAF);
    let sky = pasted(&units.sky, SKY);
    let wavefront = pasted(&units.wavefront, WAVEFRONT);
    let hemi_leaf = pasted(&units.hemi_leaf, HEMI_LEAF);
    let reference = pasted(&units.reference, REFERENCE);
    for (name, src, slot) in [
        ("leaf", leaf, "CTR_W_LEAF"),
        ("sky", sky, "CTR_W_SKY"),
        ("wavefront", wavefront, "CTR_W_LEVEL"),
        ("hemi_leaf", hemi_leaf, "CTR_W_HEMI"),
        ("reference", reference, "CTR_W_REFERENCE"),
    ] {
        for (i, _) in src.match_indices(slot) {
            let last_open = ["#ifdef WIDTH_PROBE", "#if defined(WIDTH_PROBE) || defined(WAVEVIZ)"]
                .iter()
                .filter_map(|g| src[..i].rfind(g))
                .max()
                .unwrap_or_else(|| panic!("{name}: {slot} used before any WIDTH_PROBE guard"));
            assert!(
                !src[last_open..i].contains("#endif"),
                "{name}: {slot} use at byte {i} escaped its WIDTH_PROBE guard"
            );
        }
    }
    assert!(wavefront.contains("i < CTR_COUNT"));
    assert!(!wavefront.contains("i < CTR_TOTAL"));
    assert!(CTR_W_LEAF >= CTR_COUNT && CTR_TOTAL > CTR_W_LEAF);
    let ctr = pasted(&units.leaf, CTR);
    assert!(ctr.contains("#define CTR_W_LEAF      26u"));
    assert!(ctr.contains("#define CTR_TOTAL       31u"));
    // The texts' numbers are the library's.
    assert_eq!((CTR_W_LEAF, CTR_TOTAL), (26, 31));
}

/// Every ticket sits inside a guard, and the resolve unit knows none.
#[test]
fn waveviz_blocks_are_guarded() {
    let units = trace_units(false, true);
    let guards: &[&str] = &["#ifdef WAVEVIZ", "#if defined(WIDTH_PROBE) || defined(WAVEVIZ)"];
    for (name, src, needles) in [
        ("leaf", pasted(&units.leaf, LEAF), &["wv_t"][..]),
        ("sky", pasted(&units.sky, SKY), &["wv_t"][..]),
        ("reference", pasted(&units.reference, REFERENCE), &["wv_t"][..]),
    ] {
        for needle in needles {
            let mut found = 0u32;
            for (i, _) in src.match_indices(needle) {
                found += 1;
                let last_open = guards
                    .iter()
                    .filter_map(|g| src[..i].rfind(g))
                    .max()
                    .unwrap_or_else(|| panic!("{name}: {needle} used before any WAVEVIZ guard"));
                assert!(
                    !src[last_open..i].contains("#endif"),
                    "{name}: {needle} use at byte {i} escaped its WAVEVIZ guard"
                );
            }
            assert!(found > 0, "{name}: expected at least one {needle} (anti-vacuity)");
        }
    }
    assert!(!units.resolve.contains("WAVEVIZ"));
}

/// The ballast stays inside its blocks, and its fold behind a branch that is
/// never taken.
#[test]
fn ballast_confined_and_fold_branch_dead() {
    let units = trace_units(false, true);
    let reference = pasted(&units.reference, REFERENCE);
    let n_guards = reference.matches("#if defined(BALLAST_N) && (BALLAST_N > 0)").count();
    assert_eq!(n_guards, 3, "reference.hlsl must carry exactly the 3 ballast blocks");
    for (i, _) in reference.match_indices("ballast") {
        let before = &reference[..i];
        let last_open = before
            .rfind("#if defined(BALLAST_N)")
            .expect("ballast text before any BALLAST_N guard");
        assert!(
            !reference[last_open..i].contains("#endif"),
            "ballast use at byte {i} escaped its guard"
        );
    }
    let fold = reference.find("bacc").expect("the fold accumulator must exist");
    let branch = reference.find("if (spp == 0xdeadu)").expect("the dead branch must exist");
    assert!(branch < fold, "the fold must sit under the never-true spp branch");
}

/// Distances cached before the terminals tightened the bound are rechecked,
/// and running out of stack only ever lowers it.
#[test]
fn overflow_fallback_cannot_raise_best() {
    let units = trace_units(false, true);
    let ftree = pasted(&units.wavefront, FTREE);
    let expand = ftree
        .split_once("void ft_expand")
        .expect("ft_expand must remain in the FTree shader")
        .1
        .split_once("// frustum.rs::nearest_geometry_distance")
        .expect("ft_expand must end before bound_query")
        .0;
    let stale_check = expand
        .find("if (pd >= best) continue;")
        .expect("cached distances must be rechecked after terminals tighten best");
    let overflow = expand
        .find("if (sp + 1 > LANE_STACK)")
        .expect("ft_expand must retain a conservative stack-overflow fallback");
    let coarse_min = expand
        .find("best = min(best, pd);")
        .expect("stack overflow must lower best with min");
    assert!(stale_check < overflow && overflow < coarse_min);
    assert!(!expand.contains("best = pd;"));
}

/// Leaf records carry an opaque token, and the software provider checks it
/// before it reads the arena.
#[test]
fn leaf_frontier_is_opaque_and_invalid_tokens_fall_back_to_root() {
    let units = trace_units(true, true);
    let queues = pasted(&units.leaf, QUEUES);
    let continuation = pasted(&units.leaf, CONTINUATION);
    let leaf = pasted(&units.leaf, LEAF);
    let wavefront = pasted(&units.wavefront, WAVEFRONT);
    let rt_sw = pasted(&units.leaf, RT_SW);
    let leaf_rec = queues
        .split_once("struct LeafRec")
        .expect("LeafRec must exist")
        .1
        .split_once("struct SkyRec")
        .expect("LeafRec must precede SkyRec")
        .0;
    assert!(leaf_rec.contains("TraversalFrontier frontier;"));
    assert!(!leaf_rec.contains("cut_slot"));
    assert!(!leaf_rec.contains("cut_len"));

    assert!(continuation.contains("struct TraversalFrontier"));
    assert!(continuation.contains("FRONTIER_COOKIE_V1"));
    assert!(continuation.contains("(slot << 6u) | (len - 1u)"));
    assert!(continuation.contains("(h.opaque.x >> 6u) >= cap_cut"));
    assert!(wavefront.contains("lf.frontier = frontier_from_binary_cut(leaf_slot, leaf_len);"));
    assert!(leaf.contains("trace_closest_frontier(rec.frontier, cam_origin.xyz, dir,"));
    assert!(!leaf.contains("rec.cut_slot"));
    assert!(!leaf.contains("rec.cut_len"));

    let provider = rt_sw
        .split_once("bool trace_closest_frontier(")
        .expect("software frontier provider must exist")
        .1;
    let validate = provider
        .find("frontier_backend_is_root(frontier)")
        .expect("provider must validate/fallback the opaque handle");
    let arena_read = provider
        .find("cut_pool[")
        .expect("software provider must consume the private cut arena");
    assert!(validate < arena_read);
    assert!(provider[validate..arena_read].contains("trace_closest("));
}

/// On an empty scene every binary consumer answers before it reads a node.
#[test]
fn empty_binary_consumers_short_circuit_before_node_reads() {
    let empty = empty_scene();
    assert_eq!(empty_defs(&empty), "#define SCENE_EMPTY 1");

    let binary = trace_units(true, false);
    assert!(binary.leaf.contains("#define SCENE_EMPTY 1"));
    let frustum = pasted(&binary.wavefront, FRUSTUM);
    let rt_sw = pasted(&binary.leaf, RT_SW);
    let bound = frustum
        .split_once("float bound_query")
        .expect("binary bound_query must exist")
        .1
        .split_once("// frustum.rs::refine_cut")
        .expect("bound_query must precede refine_cut")
        .0;
    assert!(bound.contains("#ifdef SCENE_EMPTY"));
    assert!(bound.contains("return t_limit;"));
    assert!(
        bound.find("return t_limit;").unwrap()
            < bound.find("BvhNode node = bvh_nodes[idx];").unwrap()
    );

    let refine = frustum
        .split_once("uint refine_cut")
        .expect("binary refine_cut must exist")
        .1
        .split_once("#endif // !FTREE")
        .expect("binary refine_cut must end before the FTREE guard")
        .0;
    assert!(refine.contains("#ifdef SCENE_EMPTY"));
    assert!(refine.contains("return 0u;"));
    assert!(
        refine.find("return 0u;").unwrap() < refine.find("BvhNode node = bvh_nodes[idx];").unwrap()
    );

    for (signature, identity) in [
        ("bool trace_closest(", "return false;"),
        ("bool occluded_q(", "return false;"),
        ("float3 transmit_q(", "return float3(1.0, 1.0, 1.0);"),
        ("bool trace_closest_frontier(", "return false;"),
    ] {
        let body = rt_sw
            .split_once(signature)
            .unwrap_or_else(|| panic!("{signature} must exist"))
            .1;
        let empty_guard = body
            .find("#ifdef SCENE_EMPTY")
            .unwrap_or_else(|| panic!("{signature} must guard an empty scene"));
        let identity_at = body[empty_guard..]
            .find(identity)
            .unwrap_or_else(|| panic!("{signature} must return its empty identity"));
        let first_node = body.find("bvh_nodes[").unwrap_or(usize::MAX);
        assert!(empty_guard + identity_at < first_node);
    }
}

/// Relief is enumerated over the whole ray and bounded after the march.
#[test]
fn relief_candidates_use_full_hardware_interval_and_logical_marched_bounds() {
    let units = trace_units(false, true);
    let dxr = dxr_units(0, false);
    let rt = pasted(&units.leaf, RT);
    let rt_dxr = pasted(&dxr.library, RT_DXR);
    let dxr_lib = pasted(&dxr.library, DXR);
    let helpers = pasted(&units.leaf, TRACE_COMMON)
        .split_once("float height_tmin")
        .expect("height_tmin helper must exist")
        .1
        .split_once("uint pack_info")
        .expect("height interval helpers must precede pack_info")
        .0;
    assert!(helpers.contains("if (flags & FLAG_HEIGHT) return 0.0;"));
    assert!(helpers.contains("if (flags & FLAG_HEIGHT) return FLT_MAX;"));

    for src in [rt, rt_dxr] {
        assert!(!src.contains("tmin - height_max"));
        assert!(!src.contains("tmax + height_max"));
        assert!(src.contains("height_tmax(tmax)"));
    }
    assert!(rt.contains("r.TMin = cand_tmin(tmin);"));
    let cand = rt
        .split_once("float cand_tmin(float logical_tmin) {")
        .expect("cand_tmin helper must exist")
        .1
        .split_once('}')
        .expect("cand_tmin must have a body")
        .0;
    assert!(cand.contains("#ifdef CAND_TMIN0"));
    assert!(cand.contains("return 0.0;"));
    assert!(cand.contains("return height_tmin(logical_tmin);"));
    assert!(rt_dxr.contains("height_tmin(tmin)"));

    let def = rt
        .find("float cand_tmin(float logical_tmin) {")
        .expect("cand_tmin helper must exist");
    let guard = rt
        .find("#if defined(ALPHA_CUTOUT) || defined(HEIGHTFIELD)")
        .expect("the cutout/relief guard must exist");
    assert!(
        def < guard,
        "cand_tmin must be defined AHEAD of the cutout/relief guard — \
         transmit_q calls it from the independent TRANS_SHADOW arm"
    );
    let calls: Vec<usize> =
        rt.match_indices("r.TMin = cand_tmin(tmin);").map(|(i, _)| i).collect();
    assert_eq!(
        calls.len(),
        3,
        "trace_closest, occluded_q and transmit_q must all route TMin through cand_tmin"
    );
    assert!(calls[0] > def, "every cand_tmin call must follow its definition");

    assert!(rt.contains("ct > tmin && ct < tmax"));
    assert!(rt_dxr.contains("p.tmin = tmin"));
    assert!(rt_dxr.contains("p.tmax = tmax"));
    assert!(dxr_lib.contains("t <= tmin || t >= tmax"));
    assert!(dxr_lib.contains("t <= p.tmin || t >= p.tmax"));
}

/// The width sink of the ray-tracing units is touched under its guards only.
#[test]
fn width_writes_are_guarded() {
    let units = dxr_units(3, false);
    let dxr = pasted(&units.library, DXR);
    let shade = units.dxr_shade.as_ref().expect("mode 3 has a deferred unit");
    for (name, src, guard) in [
        ("dxr.hlsl", dxr, "#ifdef WIDTH_PROBE_RAYGEN"),
        ("dxr_shade.hlsl", pasted(shade, DXR_SHADE), "#ifdef WIDTH_PROBE"),
    ] {
        for (i, _) in src.match_indices("dxr_width") {
            let last_open = src[..i]
                .rfind(guard)
                .unwrap_or_else(|| panic!("{name}: dxr_width used before any {guard}"));
            assert!(
                !src[last_open..i].contains("#endif"),
                "{name}: dxr_width use at byte {i} escaped its guard"
            );
        }
    }
    for (i, _) in dxr.match_indices("WaveReadLaneFirst") {
        let last_open = [
            "#if defined(WAVEVIZ) && defined(WAVEVIZ_CHS)",
            "#if defined(WAVEVIZ) && !defined(WAVEVIZ_CHS)",
        ]
        .iter()
        .filter_map(|g| dxr[..i].rfind(g))
        .max()
        .unwrap_or_else(|| panic!("dxr.hlsl: WaveReadLaneFirst outside a WAVEVIZ guard"));
        assert!(
            !dxr[last_open..i].contains("#endif"),
            "dxr.hlsl: WaveReadLaneFirst at byte {i} escaped its WAVEVIZ guard"
        );
    }
}

/// Seed, recurrence and dead fold, each under the guard that keeps them to
/// mode 2.
#[test]
fn dxr_ballast_confined_and_fold_branch_dead() {
    let units = dxr_units(2, false);
    let dxr = pasted(&units.library, DXR);
    const GUARD: &str = "#if defined(BALLAST_N) && (BALLAST_N > 0) && \
                         defined(DXR_INLINE_SEC) && (DXR_INLINE_SEC == 2)";
    let guard = GUARD.split_whitespace().collect::<Vec<_>>().join(" ");
    let n_guards = dxr.matches(guard.as_str()).count();
    assert_eq!(n_guards, 3, "dxr.hlsl must carry exactly the 3 ballast blocks");
    for (i, _) in dxr.match_indices("ballast") {
        let g = dxr[..i]
            .rfind(guard.as_str())
            .expect("ballast text before any compound BALLAST_N guard");
        assert!(!dxr[g..i].contains("#endif"), "ballast use at byte {i} escaped its guard");
    }
    assert!(
        dxr.contains("if (spp == 0xdeadu)"),
        "the dead fold must branch on the spp sentinel"
    );
}

/// A record's miss is below zero, the depth plane's is infinite.
#[test]
fn deferred_kernel_converts_miss_sentinel_before_consumers() {
    let units = dxr_units(3, false);
    let src = pasted(units.dxr_shade.as_ref().expect("mode 3 has a deferred unit"), DXR_SHADE);
    let sentinel = src.find("rec.t < 0.0").expect("miss-sentinel branch missing");
    let rebuild = src.find("h.tri = rec.tri").expect("HitInfo rebuild missing");
    let tb = src.find("tbuf[pi]").expect("tbuf write missing");
    assert!(
        sentinel < rebuild && sentinel < tb,
        "the miss-sentinel branch must precede the HitInfo rebuild and the tbuf write"
    );
}

/// The deferred unit is a compute unit.
#[test]
fn deferred_kernel_never_traces() {
    let units = dxr_units(3, false);
    let src = pasted(units.dxr_shade.as_ref().expect("mode 3 has a deferred unit"), DXR_SHADE);
    assert!(
        !src.contains("TraceRay("),
        "dxr_shade.hlsl must never contain a TraceRay — it is a cs_6_5 unit"
    );
}

/// The primitives are keyed on both defines that bring inline queries in.
#[test]
fn rt_dxr_guards_intact_and_inst_guarded() {
    let units = dxr_units(3, false);
    let src = pasted(&units.library, RT_DXR);
    assert_eq!(
        src.matches("#if !defined(DXR_INLINE_SEC) && !defined(DXR_SBT_RECURSE)").count(),
        2,
        "rt_dxr.hlsli's tlas/primitive guards must key BOTH rt.hlsli-pasting defines"
    );
    let hp = src.find("struct HitPayload").expect("HitPayload missing");
    let hp_end = hp + src[hp..].find("};").expect("HitPayload unterminated");
    let body = &src[hp..hp_end];
    let guard = body
        .find("DXR_INLINE_SEC == 3")
        .expect("HitPayload's inst field must be mode-3-guarded");
    let inst = body.find("uint inst;").expect("HitPayload inst field missing");
    assert!(guard < inst, "the mode-3 guard must precede the inst field");
}

/// Both ray calls of the ray-generation shader are dead in mode 2.
#[test]
fn mode2_raygen_tracerays_are_preprocessor_dead() {
    let units = dxr_units(2, false);
    let src = pasted(&units.library, DXR);
    let sites: Vec<usize> = src.match_indices("TraceRay(").map(|(i, _)| i).collect();
    assert_eq!(sites.len(), 2, "dxr.hlsl must carry exactly two TraceRay sites");
    let g3 = src[..sites[0]]
        .rfind("#if defined(DXR_INLINE_SEC) && DXR_INLINE_SEC == 3")
        .expect("thin TraceRay must follow a mode-3 guard");
    let between = &src[g3..sites[0]];
    assert!(
        !between.contains("#else") && !between.contains("#endif"),
        "the thin TraceRay must sit DIRECTLY in the mode-3 guard's then-arm"
    );
    let g2 = src
        .find("#if defined(DXR_INLINE_SEC) && DXR_INLINE_SEC == 2")
        .expect("mode-2 raygen guard missing");
    let (mut depth, mut arm_else, mut end2) = (0i32, None, None);
    for (off, line) in src[g2..].lines().map(|l| {
        let off = l.as_ptr() as usize - src.as_ptr() as usize;
        (off, l.trim_start())
    }) {
        if line.starts_with("#if") {
            depth += 1;
        } else if line.starts_with("#endif") {
            depth -= 1;
            if depth == 0 {
                end2 = Some(off);
                break;
            }
        } else if line.starts_with("#else") && depth == 1 {
            arm_else = Some(off);
        }
    }
    let arm_else = arm_else.expect("mode-2 guard has no depth-1 #else arm");
    let end2 = end2.expect("mode-2 guard unterminated");
    assert!(
        src[end2..].starts_with("#endif // DXR_INLINE_SEC == 2"),
        "the mode-2 guard's closing #endif lost its label — re-anchor this pin"
    );
    assert!(
        arm_else < sites[1] && sites[1] < end2,
        "the payload TraceRay must sit in the mode-2 guard's OWN #else arm"
    );
}

/// The thin arm writes the hit record and nothing that the deferred unit owns.
#[test]
fn thin_raygen_writes_no_shading_outputs() {
    let units = dxr_units(3, false);
    let src = pasted(&units.library, DXR);
    let start = src.find("The THIN arm:").expect("mode-3 raygen arm missing");
    let end = start + src[start..].find("#else").expect("mode-3 arm unterminated");
    let arm = &src[start..end];
    for w in ["accum[", "tbuf[", "info["] {
        assert!(
            !arm.contains(w),
            "the thin raygen arm must not write {w} — the deferred kernel owns it"
        );
    }
    assert!(arm.contains("hitrec[pi]"), "the thin arm must write the hit record");
}

/// A continuation takes the shading slot and the sentinel miss.
#[test]
fn trace_shade_routes_contribution_zero_and_sentinel_miss() {
    let units = dxr_units(0, true);
    let src = pasted(&units.library, RT_DXR);
    let f = src.find("float3 trace_shade(").expect("trace_shade missing");
    let body = &src[f..f + src[f..].find("\n}").expect("trace_shade unterminated")];
    assert!(
        body.contains("TraceRay(tlas, OPAQUE_RF, 0xffu, 0u, 0u, 3u, r, p)"),
        "trace_shade must fire at RayContribution 0 with MissShaderIndex 3"
    );
    assert!(
        body.contains("p.prim = 0x80000000u"),
        "trace_shade must tag the payload as a recursion continuation (probe bit 0)"
    );
}

/// Both continuations go one level deeper.
#[test]
fn both_continuations_recurse_with_incremented_depth() {
    let units = dxr_units(0, true);
    let src = pasted(&units.library, SHADE);
    assert!(
        src.contains("trace_shade(p, rdir, rng, depth + 1u, cone_w, rec_t)"),
        "the reflection continuation must recurse at depth + 1"
    );
    assert!(
        src.contains("trace_shade(torig, tdir, rng, depth + 1u, cone_w, trec_t)"),
        "the transmission continuation must recurse at depth + 1"
    );
}

/// The sentinel miss sets the distance and nothing else.
#[test]
fn miss_rec_writes_only_the_sentinel() {
    let units = dxr_units(0, true);
    let src = pasted(&units.library, DXR);
    let f = src.find("void miss_rec(").expect("miss_rec missing");
    let body = &src[f..f + src[f..].find('}').expect("miss_rec unterminated")];
    assert!(body.contains("p.t = INF"), "miss_rec must write the INF sentinel");
    assert!(!body.contains("p.color"), "miss_rec must never write color");
}

/// Continuations are told apart before the primary path shades, and carry
/// their depth.
#[test]
fn chs_recursion_branch_precedes_primary_and_carries_depth() {
    let units = dxr_units(0, true);
    let src = pasted(&units.library, DXR);
    let rec = src.find("p.prim & 0x80000000u").expect("chs recursion tag test missing");
    let full = src.find("p.color = shade_full(").expect("chs primary shade_full missing");
    assert!(rec < full, "the recursion branch must precede the primary shade_full path");
    let arm = &src[rec..full];
    assert!(
        arm.contains("asuint(p.sp.x)"),
        "the recursion branch must pass the payload's depth into shade_split"
    );
}

/// The text with its line comments blanked, byte offsets kept.
fn strip_line_comments(src: &str) -> String {
    let b = src.as_bytes();
    let mut out = Vec::with_capacity(b.len());
    let mut i = 0;
    while i < b.len() {
        if b[i] == b'/' && i + 1 < b.len() && b[i + 1] == b'/' {
            while i < b.len() && b[i] != b'\n' {
                out.push(b' ');
                i += 1;
            }
        } else {
            out.push(b[i]);
            i += 1;
        }
    }
    String::from_utf8(out).expect("ascii-preserving strip")
}

/// A banded dispatch counts its rows from zero: every index is lifted.
#[test]
fn every_dispatch_rays_index_is_band_lifted() {
    let units = dxr_units(1, false);
    let src = strip_line_comments(pasted(&units.library, DXR));
    let mut n = 0;
    for (i, _) in src.match_indices("DispatchRaysIndex()") {
        assert!(
            src[..i].trim_end().ends_with("band_id("),
            "dxr.hlsl: a DispatchRaysIndex() at byte {i} is not wrapped in band_id() — a \
             banded --dual-gpu dispatch would address the wrong pixel there, and in inline \
             modes 0-2 write past the plane"
        );
        n += 1;
    }
    assert!(n >= 5, "expected at least the 5 known lifted sites, found {n}");
    assert!(
        src.contains("uint2 band_id(uint2 id)"),
        "band_id must exist for the scan above to mean anything"
    );
    assert!(
        src[src.find("uint2 band_id(uint2 id)").unwrap()..]
            .lines()
            .take(4)
            .any(|l| l.contains("push1")),
        "band_id must lift by the band's own root constant (push1)"
    );
}

/// The deferred unit lifts and clamps its row before it has a pixel.
#[test]
fn deferred_shade_lifts_and_clamps_before_indexing() {
    let units = dxr_units(3, false);
    let src = strip_line_comments(pasted(
        units.dxr_shade.as_ref().expect("mode 3 has a deferred unit"),
        DXR_SHADE,
    ));
    let lift = src.find("id.y += push1").expect("dxr_shade.hlsl: no band lift");
    let clamp = src.find("id.y >= push2").expect("dxr_shade.hlsl: no band clamp");
    let pi = src.find("uint pi =").expect("dxr_shade.hlsl: no pixel index");
    assert!(lift < pi && clamp < pi, "the band lift and clamp must precede the pixel index");
}
