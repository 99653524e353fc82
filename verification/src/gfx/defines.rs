//! Which defines a session compiles with.
use vstd::prelude::*;
use crate::gfx::shaders;
use crate::gfx::shaders::{DxrKeys, Host, Levers, Reading, TraceKeys};
use crate::gfx::vocab::Vendor;
use crate::text;

verus! {

/// The line, where there is a reason for it.
pub open spec fn told(on: bool, line: Seq<char>) -> Seq<char> {
    if on {
        line
    } else {
        Seq::empty()
    }
}

proof fn lemma_told(on: bool, line: &str)
    ensures
        shaders::line_if(on, line) == told(on, line@),
{
    reveal_strlit("");
    assert(""@ =~= Seq::<char>::empty());
}

proof fn lemma_nine_lines(p0: Seq<char>, p1: Seq<char>, p2: Seq<char>, p3: Seq<char>, p4: Seq<char>, p5: Seq<char>, p6: Seq<char>, p7: Seq<char>, p8: Seq<char>)
    ensures
        shaders::unit(seq![p0, p1, p2, p3, p4, p5, p6, p7, p8]) == p0 + "\n"@ + p1 + "\n"@ + p2 + "\n"@ + p3 + "\n"@ + p4 + "\n"@ + p5 + "\n"@ + p6 + "\n"@ + p7 + "\n"@ + p8,
{
    let nl = "\n"@;
    let q0 = seq![p0];
    text::joining_separates_neighbours(q0, p0, nl);
    let q1 = q0.push(p1);
    text::joining_separates_neighbours(q0, p1, nl);
    let q2 = q1.push(p2);
    text::joining_separates_neighbours(q1, p2, nl);
    let q3 = q2.push(p3);
    text::joining_separates_neighbours(q2, p3, nl);
    let q4 = q3.push(p4);
    text::joining_separates_neighbours(q3, p4, nl);
    let q5 = q4.push(p5);
    text::joining_separates_neighbours(q4, p5, nl);
    let q6 = q5.push(p6);
    text::joining_separates_neighbours(q5, p6, nl);
    let q7 = q6.push(p7);
    text::joining_separates_neighbours(q6, p7, nl);
    let q8 = q7.push(p8);
    text::joining_separates_neighbours(q7, p8, nl);
    assert(q8 =~= seq![p0, p1, p2, p3, p4, p5, p6, p7, p8]);
}

proof fn lemma_eight_lines(p0: Seq<char>, p1: Seq<char>, p2: Seq<char>, p3: Seq<char>, p4: Seq<char>, p5: Seq<char>, p6: Seq<char>, p7: Seq<char>)
    ensures
        shaders::unit(seq![p0, p1, p2, p3, p4, p5, p6, p7]) == p0 + "\n"@ + p1 + "\n"@ + p2 + "\n"@ + p3 + "\n"@ + p4 + "\n"@ + p5 + "\n"@ + p6 + "\n"@ + p7,
{
    let nl = "\n"@;
    let q0 = seq![p0];
    text::joining_separates_neighbours(q0, p0, nl);
    let q1 = q0.push(p1);
    text::joining_separates_neighbours(q0, p1, nl);
    let q2 = q1.push(p2);
    text::joining_separates_neighbours(q1, p2, nl);
    let q3 = q2.push(p3);
    text::joining_separates_neighbours(q2, p3, nl);
    let q4 = q3.push(p4);
    text::joining_separates_neighbours(q3, p4, nl);
    let q5 = q4.push(p5);
    text::joining_separates_neighbours(q4, p5, nl);
    let q6 = q5.push(p6);
    text::joining_separates_neighbours(q5, p6, nl);
    let q7 = q6.push(p7);
    text::joining_separates_neighbours(q6, p7, nl);
    assert(q7 =~= seq![p0, p1, p2, p3, p4, p5, p6, p7]);
}

/// The wavefront pipeline's shading units have a line for each question about
/// the scene, the device and the session, in a fixed order; a line is left empty
/// where the answer is no.
pub proof fn trace_defines_answer_line_by_line(k: &TraceKeys, l: &Levers, h: &Host)
    ensures
        shaders::trace_defs_text(k, l, h) == told(k.scene.indices@.len() == 0, "#define SCENE_EMPTY 1"@) + "\n"@
            + told(k.scene.any_alpha && !text::has(l.abl@, "noalpha"@), "#define ALPHA_CUTOUT 1"@) + "\n"@
            + told(k.scene.any_height && h.height_armed && !text::has(l.abl@, "noheight"@), "#define HEIGHTFIELD 1"@) + "\n"@
            + told(k.scene.any_transmissive && !text::has(l.abl@, "notrans"@), "#define TRANS_SHADOW 1"@) + "\n"@
            + told(k.vendor == Vendor::Amd && !text::has(l.abl@, "nocandtmin"@), "#define CAND_TMIN0 1"@) + "\n"@
            + told(h.max_prims is Some, "#define BLAS_SPLIT 1"@) + "\n"@
            + told(k.sway_armed && !l.sw_rays, "#define SWAY_MV 1"@) + "\n"@
            + shaders::abl_text(l) + "\n"@
            + told(h.rtgi, "#define RTGI 1"@),
{
    lemma_told(k.scene.indices@.len() == 0, "#define SCENE_EMPTY 1");
    lemma_told(k.scene.any_alpha && !text::has(l.abl@, "noalpha"@), "#define ALPHA_CUTOUT 1");
    lemma_told(k.scene.any_height && h.height_armed && !text::has(l.abl@, "noheight"@), "#define HEIGHTFIELD 1");
    lemma_told(k.scene.any_transmissive && !text::has(l.abl@, "notrans"@), "#define TRANS_SHADOW 1");
    lemma_told(k.vendor == Vendor::Amd && !text::has(l.abl@, "nocandtmin"@), "#define CAND_TMIN0 1");
    lemma_told(h.max_prims is Some, "#define BLAS_SPLIT 1");
    lemma_told(k.sway_armed && !l.sw_rays, "#define SWAY_MV 1");
    lemma_told(h.rtgi, "#define RTGI 1");
    lemma_nine_lines(
        told(k.scene.indices@.len() == 0, "#define SCENE_EMPTY 1"@),
        told(k.scene.any_alpha && !text::has(l.abl@, "noalpha"@), "#define ALPHA_CUTOUT 1"@),
        told(k.scene.any_height && h.height_armed && !text::has(l.abl@, "noheight"@), "#define HEIGHTFIELD 1"@),
        told(k.scene.any_transmissive && !text::has(l.abl@, "notrans"@), "#define TRANS_SHADOW 1"@),
        told(k.vendor == Vendor::Amd && !text::has(l.abl@, "nocandtmin"@), "#define CAND_TMIN0 1"@),
        told(h.max_prims is Some, "#define BLAS_SPLIT 1"@),
        told(k.sway_armed && !l.sw_rays, "#define SWAY_MV 1"@),
        shaders::abl_text(l),
        told(h.rtgi, "#define RTGI 1"@),
    );
}

/// The ray-tracing units ask the same, but for the vendor, and of the sway alone
/// whether it is armed.
pub proof fn ray_tracing_defines_answer_line_by_line(k: &DxrKeys, l: &Levers, h: &Host)
    ensures
        shaders::dxr_defs_text(k, l, h) == told(k.scene.indices@.len() == 0, "#define SCENE_EMPTY 1"@) + "\n"@
            + told(k.scene.any_alpha && !text::has(l.abl@, "noalpha"@), "#define ALPHA_CUTOUT 1"@) + "\n"@
            + told(k.scene.any_height && h.height_armed && !text::has(l.abl@, "noheight"@), "#define HEIGHTFIELD 1"@) + "\n"@
            + told(k.scene.any_transmissive && !text::has(l.abl@, "notrans"@), "#define TRANS_SHADOW 1"@) + "\n"@
            + told(h.max_prims is Some, "#define BLAS_SPLIT 1"@) + "\n"@
            + told(k.sway_armed, "#define SWAY_MV 1"@) + "\n"@
            + shaders::abl_text(l) + "\n"@
            + told(h.rtgi, "#define RTGI 1"@),
{
    lemma_told(k.scene.indices@.len() == 0, "#define SCENE_EMPTY 1");
    lemma_told(k.scene.any_alpha && !text::has(l.abl@, "noalpha"@), "#define ALPHA_CUTOUT 1");
    lemma_told(k.scene.any_height && h.height_armed && !text::has(l.abl@, "noheight"@), "#define HEIGHTFIELD 1");
    lemma_told(k.scene.any_transmissive && !text::has(l.abl@, "notrans"@), "#define TRANS_SHADOW 1");
    lemma_told(h.max_prims is Some, "#define BLAS_SPLIT 1");
    lemma_told(k.sway_armed, "#define SWAY_MV 1");
    lemma_told(h.rtgi, "#define RTGI 1");
    lemma_eight_lines(
        told(k.scene.indices@.len() == 0, "#define SCENE_EMPTY 1"@),
        told(k.scene.any_alpha && !text::has(l.abl@, "noalpha"@), "#define ALPHA_CUTOUT 1"@),
        told(k.scene.any_height && h.height_armed && !text::has(l.abl@, "noheight"@), "#define HEIGHTFIELD 1"@),
        told(k.scene.any_transmissive && !text::has(l.abl@, "notrans"@), "#define TRANS_SHADOW 1"@),
        told(h.max_prims is Some, "#define BLAS_SPLIT 1"@),
        told(k.sway_armed, "#define SWAY_MV 1"@),
        shaders::abl_text(l),
        told(h.rtgi, "#define RTGI 1"@),
    );
}

/// A tag's line is told where the tag was given.
proof fn lemma_tag(l: &Levers, tag: &str, line: &str)
    ensures
        shaders::line_if(shaders::has_tag(l, tag), line) == told(text::has(l.abl@, tag@), line@),
{
    lemma_told(text::has(l.abl@, tag@), line);
}

/// Each ablation tag has its define, in a fixed order, and a tag that was not
/// given has none. Leaving out the emissive code leaves out its culling too.
#[verifier::spinoff_prover]
#[verifier::rlimit(60)]
pub proof fn ablation_defines_follow_the_tags(l: &Levers)
    ensures
        shaders::abl_text(l) == told(text::has(l.abl@, "sunt"@), "#define ABL_SUNT 1\n"@)
            + told(text::has(l.abl@, "rough"@), "#define ABL_ROUGH 1\n"@)
            + told(text::has(l.abl@, "nogbuf"@), "#define ABL_NOGBUF 1\n"@)
            + told(text::has(l.abl@, "nopack"@), "#define ABL_NOPACK 1\n"@)
            + told(text::has(l.abl@, "nowave"@), "#define ABL_NO_WAVE_OPS 1\n"@)
            + told(text::has(l.abl@, "noelcull"@), "#define ABL_NO_EL_CULL 1\n"@)
            + told(text::has(l.abl@, "noffcode"@), "#define ABL_NO_FF_CODE 1\n"@)
            + told(text::has(l.abl@, "noelcode"@), "#define ABL_NO_EL_CODE 1\n"@)
            + told(text::has(l.abl@, "noelcode"@), "#define ABL_NO_EL_CULL 1\n"@)
            + told(text::has(l.abl@, "tzero"@), "#define ABL_TZERO 1\n"@)
            + told(text::has(l.abl@, "noshadow"@), "#define ABL_NOSHADOW 1\n"@)
            + told(text::has(l.abl@, "noao"@), "#define ABL_NOAO 1\n"@)
            + told(text::has(l.abl@, "norefl"@), "#define ABL_NOREFL 1\n"@)
            + told(text::has(l.abl@, "noglass"@), "#define ABL_NOGLASS 1\n"@)
            + told(text::has(l.abl@, "nogi"@), "#define ABL_NOGI 1\n"@)
            + told(text::has(l.abl@, "nosec"@), "#define ABL_NOSEC 1\n"@),
        shaders::wavefront_abl_text(l) == told(text::has(l.abl@, "oldcut"@), "#define ABL_KEEP_TERMINAL_CUT 1\n"@)
            + told(text::has(l.abl@, "nobatch"@), "#define ABL_NO_QUEUE_BATCH 1\n"@)
            + told(text::has(l.abl@, "nowave"@), "#define ABL_NO_WAVE_OPS 1\n"@)
            + told(text::has(l.abl@, "wavegw"@), "#define ABL_WAVE_GW 1\n"@),
{
    let none = Seq::<char>::empty();
    lemma_tag(l, "sunt", "#define ABL_SUNT 1\n");
    lemma_tag(l, "rough", "#define ABL_ROUGH 1\n");
    lemma_tag(l, "nogbuf", "#define ABL_NOGBUF 1\n");
    lemma_tag(l, "nopack", "#define ABL_NOPACK 1\n");
    lemma_tag(l, "nowave", "#define ABL_NO_WAVE_OPS 1\n");
    lemma_tag(l, "noelcull", "#define ABL_NO_EL_CULL 1\n");
    lemma_tag(l, "noffcode", "#define ABL_NO_FF_CODE 1\n");
    lemma_tag(l, "noelcode", "#define ABL_NO_EL_CODE 1\n");
    lemma_tag(l, "noelcode", "#define ABL_NO_EL_CULL 1\n");
    lemma_tag(l, "tzero", "#define ABL_TZERO 1\n");
    lemma_tag(l, "noshadow", "#define ABL_NOSHADOW 1\n");
    lemma_tag(l, "noao", "#define ABL_NOAO 1\n");
    lemma_tag(l, "norefl", "#define ABL_NOREFL 1\n");
    lemma_tag(l, "noglass", "#define ABL_NOGLASS 1\n");
    lemma_tag(l, "nogi", "#define ABL_NOGI 1\n");
    lemma_tag(l, "nosec", "#define ABL_NOSEC 1\n");
    lemma_tag(l, "oldcut", "#define ABL_KEEP_TERMINAL_CUT 1\n");
    lemma_tag(l, "nobatch", "#define ABL_NO_QUEUE_BATCH 1\n");
    lemma_tag(l, "wavegw", "#define ABL_WAVE_GW 1\n");
    assert(none + told(text::has(l.abl@, "sunt"@), "#define ABL_SUNT 1\n"@) =~= told(
        text::has(l.abl@, "sunt"@),
        "#define ABL_SUNT 1\n"@,
    ));
    assert(none + told(text::has(l.abl@, "oldcut"@), "#define ABL_KEEP_TERMINAL_CUT 1\n"@) =~= told(
        text::has(l.abl@, "oldcut"@),
        "#define ABL_KEEP_TERMINAL_CUT 1\n"@,
    ));
}

/// The smaller defines, each from the one thing it depends on: the width report
/// names its counter slot, ballast its count, the lane stack its entries and its
/// layout, software rays their stack, the sky fill its group widths and the leaf
/// tile, the cloud cache its resolution, and the lattice its pitch.
pub proof fn small_defines_name_their_numbers(l: &Levers, h: &Host, n: u32)
    ensures
        l.width_probe ==> shaders::width_text(l) == "#define WIDTH_PROBE 1\n#define CTR_W_REFERENCE "@
            + text::dec(30) + "u"@,
        !l.width_probe ==> shaders::width_text(l).len() == 0,
        n > 0 ==> shaders::ballast_text(n) == "#define BALLAST_N "@ + text::dec(n as nat) + "u"@,
        shaders::ballast_text(0).len() == 0,
        l.waveviz_mode > 0 ==> shaders::waveviz_text(l) == "#define WAVEVIZ 1"@,
        l.waveviz_mode == 0 ==> shaders::waveviz_text(l).len() == 0,
        l.stack_lane_major ==> shaders::stack_text(l) == "#define LANE_STACK "@ + text::dec(
            l.lane_stack as nat,
        ) + "u"@ + "\n#define STACK_LANE_MAJOR 1"@,
        !l.stack_lane_major ==> shaders::stack_text(l) == "#define LANE_STACK "@ + text::dec(
            l.lane_stack as nat,
        ) + "u"@,
        l.sw_rays ==> shaders::sw_text(l, h) == "#define SW_RAYS 1\n#define SW_TRAV_STACK "@
            + text::dec(h.trav_stack as nat) + "u"@,
        !l.sw_rays ==> shaders::sw_text(l, h).len() == 0,
        shaders::sky_text(h) == "#define SKY_GROUP "@ + text::dec(64) + "\n#define SKY_SPLIT "@
            + text::dec(128) + "\n#define LEAF_TILE "@ + text::dec(h.leaf_tile as nat),
        shaders::cloud_text(n) == "#define CLOUD_SHADOW_N "@ + text::dec(n as nat),
        shaders::lod_text(n) == "#define SKY_UNIT 1\n#define SKY_LOD "@ + text::dec(n as nat)
            + "\n#define SKY_LOD_LOG "@ + text::dec(
            vstd::std_specs::bits::u32_trailing_zeros(n) as nat,
        ),
        shaders::detail_text(h) == "#define DETAIL_STR "@ + h.detail_strength@
            + "\n#define DETAIL_AO_STR "@ + h.detail_ao_strength@,
        shaders::dxr_cloud_text(l) == "#define CLOUD_SHADOW_N "@ + text::dec(l.cloud_shadow as nat)
            + "\n#define SKY_LOD "@ + text::dec(l.sky_lod as nat) + "\n#define SKY_LOD_LOG "@
            + text::dec(vstd::std_specs::bits::u32_trailing_zeros(l.sky_lod) as nat),
{
    reveal_strlit("");
    assert(shaders::stack_text(l) =~= "#define LANE_STACK "@ + text::dec(l.lane_stack as nat) + "u"@
        + told(l.stack_lane_major, "\n#define STACK_LANE_MAJOR 1"@));
}

/// The sampling defines size the tables for the host: half as many jitter rows
/// as samples, and one offset a sample in the list, each as it is printed.
pub proof fn sampling_defines_size_the_tables(h: &Host)
    ensures
        shaders::spp_text(h) == "#define MAX_SPP "@ + text::dec(h.max_spp as nat)
            + "u\n#define JITTER_ROWS "@ + text::dec((h.max_spp / 2) as nat)
            + "\n#define MAX_FIREFLIES "@ + text::dec(h.max_fireflies as nat)
            + "\n#define MAX_EMISSIVE_LIGHTS "@ + text::dec(h.max_emissive_lights as nat)
            + "\nstatic const float2 SKY_J[MAX_SPP] = { "@ + shaders::jitter_text(
            h.jitter@,
            h.max_spp as int,
        ) + " };"@,
{
}

/// The offset list grows by one vector a sample, with a comma between two.
pub proof fn offsets_are_listed_one_by_one(j: Seq<(String, String)>, n: int)
    requires
        0 < n,
    ensures
        shaders::jitter_text(j, 0).len() == 0,
        shaders::jitter_text(j, 1) == "float2("@ + j[0].0@ + ", "@ + j[0].1@ + ")"@,
        shaders::jitter_text(j, n + 1) == shaders::jitter_text(j, n) + ", "@ + ("float2("@ + j[n].0@
            + ", "@ + j[n].1@ + ")"@),
{
}

/// A width setting is taken exactly where it reads as a power of two between the
/// bounds, and then as that number; else the default is in force.
pub proof fn widths_are_powers_of_two(var: Option<&str>, lo: u32, hi: u32, default: u32)
    requires
        8 <= lo <= hi <= 256,
    ensures
        ({
            let (n, how) = shaders::width_reading(var, lo, hi, default);
            &&& var is None ==> n == default && how == Reading::Unset
            &&& var matches Some(v) ==> {
                &&& how == Reading::Taken || how == Reading::Refused
                &&& how == Reading::Taken <==> text::reads_as(v@) is Some && lo <= text::reads_as(
                    v@,
                )->0 <= hi && exists|e: nat|
                    e < 32 && #[trigger] vstd::arithmetic::power2::pow2(e) == text::reads_as(v@)->0
                &&& how == Reading::Taken ==> text::reads_as(v@) == Some(n)
                &&& how == Reading::Refused ==> n == default
            }
        }),
{
    vstd::arithmetic::power2::lemma2_to64();
    assert forall|e: nat| e < 32 && 8 <= #[trigger] vstd::arithmetic::power2::pow2(e) <= 256 implies 3
        <= e <= 8 by {
        if e < 3 {
            vstd::arithmetic::power2::lemma_pow2_strictly_increases(e, 3);
        }
        if e > 8 {
            vstd::arithmetic::power2::lemma_pow2_strictly_increases(8, e);
        }
    }
    if var is Some {
        let v = var->0;
        if text::reads_as(v@) is Some {
            let n = text::reads_as(v@)->0;
            if n == 8 {
                assert(vstd::arithmetic::power2::pow2(3) == n);
            } else if n == 16 {
                assert(vstd::arithmetic::power2::pow2(4) == n);
            } else if n == 32 {
                assert(vstd::arithmetic::power2::pow2(5) == n);
            } else if n == 64 {
                assert(vstd::arithmetic::power2::pow2(6) == n);
            } else if n == 128 {
                assert(vstd::arithmetic::power2::pow2(7) == n);
            } else if n == 256 {
                assert(vstd::arithmetic::power2::pow2(8) == n);
            }
        }
    }
}

/// A ballast of 1 to 256 goes to the reference kernel where it stands alone and
/// to the ray-generation shader behind its prefix; any other is refused.
pub proof fn ballast_goes_where_it_says(var: &str, num: Seq<char>)
    requires
        var@ == "dxr:"@ + num || (var@ == num && !(num.len() >= 4 && num.take(4) == "dxr:"@)),
    ensures
        ({
            let (n, how) = shaders::ballast_reading(Some(var));
            let read = text::reads_as(num);
            if read is Some && 1 <= read->0 <= 256 {
                &&& how == Reading::Taken
                &&& var@ == num ==> n.0 == read->0 && n.1 == 0
                &&& var@ == "dxr:"@ + num ==> n.0 == 0 && n.1 == read->0
            } else {
                how == Reading::Refused && n.0 == 0 && n.1 == 0
            }
        }),
        shaders::ballast_reading(None) == ((0u32, 0u32), Reading::Unset),
{
    reveal_strlit("dxr:");
    let behind = "dxr:"@ + num;
    assert(behind.take(4) =~= "dxr:"@);
    assert(behind.skip(4) =~= num);
    assert(behind.len() != num.len());
}

/// Doubling a tile multiplies it by a power of two.
pub proof fn doublings_are_powers_of_two(tile: int, d: nat)
    ensures
        shaders::doubled(tile, d) == tile * vstd::arithmetic::power2::pow2(d),
    decreases d,
{
    vstd::arithmetic::power2::lemma2_to64();
    if d > 0 {
        doublings_are_powers_of_two(tile, (d - 1) as nat);
        vstd::arithmetic::power2::lemma_pow2_unfold(d);
        let p = vstd::arithmetic::power2::pow2((d - 1) as nat) as int;
        assert(2 * (tile * p) == tile * (2 * p)) by (nonlinear_arith);
    } else {
        assert(tile * 1 == tile);
    }
}

} // verus!
