//! What each shader unit is made of: the sources it pastes, the kernel it ends
//! in, and the defines it is compiled with.
use vstd::prelude::*;
use crate::gfx::shaders;
use crate::gfx::shaders::{Corpus, DxrKeys, DxrNotices, DxrSources, Host, Levers, TraceKeys, TraceSources};
use crate::text;

verus! {

/// The parts one after the other, each on a new line.
pub open spec fn run(parts: Seq<Seq<char>>) -> Seq<char>
    decreases parts.len(),
{
    if parts.len() == 0 {
        Seq::empty()
    } else {
        run(parts.drop_last()) + "\n"@ + parts.last()
    }
}

/// The text comes down to these parts: after some lines of its own it pastes
/// them, each on a new line, and then ends.
pub open spec fn closes(unit: Seq<char>, parts: Seq<Seq<char>>) -> bool {
    exists|lead: Seq<char>| unit == #[trigger] (lead + run(parts))
}

/// The text starts with this line.
pub open spec fn opens(unit: Seq<char>, line: Seq<char>) -> bool {
    exists|rest: Seq<char>| unit == #[trigger] (line + "\n"@ + rest)
}

proof fn lemma_run(head: Seq<Seq<char>>, tail: Seq<Seq<char>>)
    requires
        head.len() > 0,
    ensures
        shaders::unit(head + tail) == shaders::unit(head) + run(tail),
    decreases tail.len(),
{
    if tail.len() == 0 {
        assert(head + tail =~= head);
        assert(shaders::unit(head) + run(tail) =~= shaders::unit(head));
    } else {
        let all = head + tail;
        lemma_run(head, tail.drop_last());
        assert(all.drop_last() =~= head + tail.drop_last());
        assert(all.last() == tail.last());
        assert(shaders::unit(head) + (run(tail.drop_last()) + "\n"@ + tail.last()) =~= (
        shaders::unit(head) + run(tail.drop_last())) + "\n"@ + tail.last());
    }
}

proof fn lemma_opens(parts: Seq<Seq<char>>)
    requires
        parts.len() > 1,
    ensures
        opens(shaders::unit(parts), parts[0]),
    decreases parts.len(),
{
    let init = parts.drop_last();
    if parts.len() == 2 {
        assert(shaders::unit(init) == parts[0]);
        assert(shaders::unit(parts) == parts[0] + "\n"@ + parts[1]);
    } else {
        lemma_opens(init);
        let rest = choose|rest: Seq<char>|
            shaders::unit(init) == #[trigger] (init[0] + "\n"@ + rest);
        let more = rest + "\n"@ + parts.last();
        assert(shaders::unit(parts) =~= parts[0] + "\n"@ + more);
    }
}

proof fn lemma_reference(k: &TraceKeys, l: &Levers, h: &Host, c: &Corpus)
    ensures
        closes(
            shaders::reference_text(k, l, h, c),
            seq![
                c.sh@ + "\n"@ + c.trace_common_body@,
                c.skylod@,
                if l.sw_rays {
                    c.rt_sw@
                } else {
                    c.rt@
                },
                c.ripple@,
                c.shade@,
                c.reference@,
            ],
        ),
{
    let head = shaders::part_if(l.width_probe, shaders::width_text(l)) + shaders::part_if(l.ballast.0 != 0, shaders::ballast_text(l.ballast.0)) + shaders::part_if(l.waveviz_mode != 0, shaders::waveviz_text(l)) + seq![shaders::cloud_text(l.cloud_shadow), shaders::lod_text(l.sky_lod), shaders::trace_defs_text(k, l, h), shaders::sw_text(l, h), shaders::spp_text(h), shaders::detail_text(h)];
    let tail = seq![
        c.sh@ + "\n"@ + c.trace_common_body@,
        c.skylod@,
        if l.sw_rays {
                    c.rt_sw@
                } else {
                    c.rt@
                },
        c.ripple@,
        c.shade@,
        c.reference@,
    ];
    lemma_run(head, tail);
    assert(shaders::reference_text(k, l, h, c) == shaders::unit(head) + run(tail)) by {
        assert(head + tail =~= shaders::part_if(l.width_probe, shaders::width_text(l)) + shaders::part_if(l.ballast.0 != 0, shaders::ballast_text(l.ballast.0)) + shaders::part_if(l.waveviz_mode != 0, shaders::waveviz_text(l)) + seq![shaders::cloud_text(l.cloud_shadow), shaders::lod_text(l.sky_lod), shaders::trace_defs_text(k, l, h), shaders::sw_text(l, h), shaders::spp_text(h), shaders::detail_text(h), c.trace_common_text(), c.skylod@, shaders::rays_text(l, c), c.ripple@, c.shade@, c.reference@]);
    }
}

proof fn lemma_resolve(h: &Host, c: &Corpus)
    ensures
        closes(
            shaders::resolve_text(h, c),
            seq![
                c.sh@ + "\n"@ + c.trace_common_body@,
                c.resolve@,
            ],
        ),
{
    let head = seq![shaders::spp_text(h)];
    let tail = seq![
        c.sh@ + "\n"@ + c.trace_common_body@,
        c.resolve@,
    ];
    lemma_run(head, tail);
    assert(shaders::resolve_text(h, c) == shaders::unit(head) + run(tail)) by {
        assert(head + tail =~= seq![shaders::spp_text(h), c.trace_common_text(), c.resolve@]);
    }
}

proof fn lemma_wavefront(k: &TraceKeys, l: &Levers, h: &Host, c: &Corpus)
    ensures
        closes(
            shaders::wavefront_text(k, l, h, c),
            seq![
                c.sh@ + "\n"@ + c.trace_common_body@,
                c.ctr@,
                c.continuation@ + "\n"@ + c.queues_body@,
                c.frustum@,
                c.ftree@,
                c.wavefront@,
            ],
        ),
{
    let head = shaders::part_if(l.width_probe, shaders::width_text(l)) + seq![shaders::sky_text(h), shaders::wavefront_abl_text(l), shaders::line_if(k.scene.indices@.len() == 0, "#define SCENE_EMPTY 1"), shaders::line_if(h.ftree_enabled, "#define FTREE 1"), shaders::stack_text(l), shaders::sw_text(l, h), shaders::line_if(l.sw_rays && h.cut_seed_rays, "#define SW_RAYS_LEAF 1"), shaders::spp_text(h)];
    let tail = seq![
        c.sh@ + "\n"@ + c.trace_common_body@,
        c.ctr@,
        c.continuation@ + "\n"@ + c.queues_body@,
        c.frustum@,
        c.ftree@,
        c.wavefront@,
    ];
    lemma_run(head, tail);
    assert(shaders::wavefront_text(k, l, h, c) == shaders::unit(head) + run(tail)) by {
        assert(head + tail =~= shaders::part_if(l.width_probe, shaders::width_text(l)) + seq![shaders::sky_text(h), shaders::wavefront_abl_text(l), shaders::line_if(k.scene.indices@.len() == 0, "#define SCENE_EMPTY 1"), shaders::line_if(h.ftree_enabled, "#define FTREE 1"), shaders::stack_text(l), shaders::sw_text(l, h), shaders::line_if(l.sw_rays && h.cut_seed_rays, "#define SW_RAYS_LEAF 1"), shaders::spp_text(h), c.trace_common_text(), c.ctr@, c.queues_text(), c.frustum@, c.ftree@, c.wavefront@]);
    }
}

proof fn lemma_sky(l: &Levers, h: &Host, c: &Corpus, pitch: u32, n: u32)
    ensures
        closes(
            shaders::sky_unit_text(l, h, c, pitch, n),
            seq![
                c.sh@ + "\n"@ + c.trace_common_body@,
                c.ctr@,
                c.continuation@ + "\n"@ + c.queues_body@,
                c.skylod@,
                c.sky@,
            ],
        ),
{
    let head = shaders::part_if(l.width_probe, shaders::width_text(l)) + shaders::part_if(l.waveviz_mode != 0, shaders::waveviz_text(l)) + seq![shaders::abl_text(l), shaders::lod_text(pitch), shaders::cloud_text(n), shaders::sky_text(h), shaders::spp_text(h)];
    let tail = seq![
        c.sh@ + "\n"@ + c.trace_common_body@,
        c.ctr@,
        c.continuation@ + "\n"@ + c.queues_body@,
        c.skylod@,
        c.sky@,
    ];
    lemma_run(head, tail);
    assert(shaders::sky_unit_text(l, h, c, pitch, n) == shaders::unit(head) + run(tail)) by {
        assert(head + tail =~= shaders::part_if(l.width_probe, shaders::width_text(l)) + shaders::part_if(l.waveviz_mode != 0, shaders::waveviz_text(l)) + seq![shaders::abl_text(l), shaders::lod_text(pitch), shaders::cloud_text(n), shaders::sky_text(h), shaders::spp_text(h), c.trace_common_text(), c.ctr@, c.queues_text(), c.skylod@, c.sky@]);
    }
}

proof fn lemma_leaf(k: &TraceKeys, l: &Levers, h: &Host, c: &Corpus)
    ensures
        closes(
            shaders::leaf_text(k, l, h, c, "#define LEAF_NO_FB 1"@),
            seq![
                c.sh@ + "\n"@ + c.trace_common_body@,
                c.ctr@,
                c.continuation@ + "\n"@ + c.queues_body@,
                c.skylod@,
                if l.sw_rays {
                    c.rt_sw@
                } else {
                    c.rt@
                },
                c.ripple@,
                c.shade@,
                c.leaf@,
            ],
        ),
{
    let head = shaders::part_if(l.width_probe, shaders::width_text(l)) + shaders::part_if(l.waveviz_mode != 0, shaders::waveviz_text(l)) + seq!["#define LEAF_GROUP "@ + text::dec(l.leaf_group as nat), "#define LEAF_NO_FB 1"@, shaders::cloud_text(l.cloud_shadow), shaders::lod_text(l.sky_lod), shaders::trace_defs_text(k, l, h), shaders::sw_text(l, h), shaders::line_if(l.sw_rays && h.cut_seed_rays, "#define SW_RAYS_LEAF 1"), shaders::spp_text(h), shaders::detail_text(h)];
    let tail = seq![
        c.sh@ + "\n"@ + c.trace_common_body@,
        c.ctr@,
        c.continuation@ + "\n"@ + c.queues_body@,
        c.skylod@,
        if l.sw_rays {
                    c.rt_sw@
                } else {
                    c.rt@
                },
        c.ripple@,
        c.shade@,
        c.leaf@,
    ];
    lemma_run(head, tail);
    assert(shaders::leaf_text(k, l, h, c, "#define LEAF_NO_FB 1"@) == shaders::unit(head) + run(tail)) by {
        assert(head + tail =~= shaders::part_if(l.width_probe, shaders::width_text(l)) + shaders::part_if(l.waveviz_mode != 0, shaders::waveviz_text(l)) + seq!["#define LEAF_GROUP "@ + text::dec(l.leaf_group as nat), "#define LEAF_NO_FB 1"@, shaders::cloud_text(l.cloud_shadow), shaders::lod_text(l.sky_lod), shaders::trace_defs_text(k, l, h), shaders::sw_text(l, h), shaders::line_if(l.sw_rays && h.cut_seed_rays, "#define SW_RAYS_LEAF 1"), shaders::spp_text(h), shaders::detail_text(h), c.trace_common_text(), c.ctr@, c.queues_text(), c.skylod@, shaders::rays_text(l, c), c.ripple@, c.shade@, c.leaf@]);
    }
}

proof fn lemma_leaf_fb(k: &TraceKeys, l: &Levers, h: &Host, c: &Corpus)
    ensures
        closes(
            shaders::leaf_text(k, l, h, c, ""@),
            seq![
                c.sh@ + "\n"@ + c.trace_common_body@,
                c.ctr@,
                c.continuation@ + "\n"@ + c.queues_body@,
                c.skylod@,
                if l.sw_rays {
                    c.rt_sw@
                } else {
                    c.rt@
                },
                c.ripple@,
                c.shade@,
                c.leaf@,
            ],
        ),
{
    let head = shaders::part_if(l.width_probe, shaders::width_text(l)) + shaders::part_if(l.waveviz_mode != 0, shaders::waveviz_text(l)) + seq!["#define LEAF_GROUP "@ + text::dec(l.leaf_group as nat), ""@, shaders::cloud_text(l.cloud_shadow), shaders::lod_text(l.sky_lod), shaders::trace_defs_text(k, l, h), shaders::sw_text(l, h), shaders::line_if(l.sw_rays && h.cut_seed_rays, "#define SW_RAYS_LEAF 1"), shaders::spp_text(h), shaders::detail_text(h)];
    let tail = seq![
        c.sh@ + "\n"@ + c.trace_common_body@,
        c.ctr@,
        c.continuation@ + "\n"@ + c.queues_body@,
        c.skylod@,
        if l.sw_rays {
                    c.rt_sw@
                } else {
                    c.rt@
                },
        c.ripple@,
        c.shade@,
        c.leaf@,
    ];
    lemma_run(head, tail);
    assert(shaders::leaf_text(k, l, h, c, ""@) == shaders::unit(head) + run(tail)) by {
        assert(head + tail =~= shaders::part_if(l.width_probe, shaders::width_text(l)) + shaders::part_if(l.waveviz_mode != 0, shaders::waveviz_text(l)) + seq!["#define LEAF_GROUP "@ + text::dec(l.leaf_group as nat), ""@, shaders::cloud_text(l.cloud_shadow), shaders::lod_text(l.sky_lod), shaders::trace_defs_text(k, l, h), shaders::sw_text(l, h), shaders::line_if(l.sw_rays && h.cut_seed_rays, "#define SW_RAYS_LEAF 1"), shaders::spp_text(h), shaders::detail_text(h), c.trace_common_text(), c.ctr@, c.queues_text(), c.skylod@, shaders::rays_text(l, c), c.ripple@, c.shade@, c.leaf@]);
    }
}

proof fn lemma_hemi_wave(k: &TraceKeys, l: &Levers, h: &Host, c: &Corpus)
    ensures
        closes(
            shaders::hemi_wave_text(k, l, h, c),
            seq![
                c.sh@ + "\n"@ + c.trace_common_body@,
                c.ctr@,
                c.hemi@,
                c.frustum@,
                if l.sw_rays {
                    c.rt_sw@
                } else {
                    c.rt@
                },
                c.hemi_wave@,
            ],
        ),
{
    let head = seq![shaders::trace_defs_text(k, l, h), shaders::stack_text(l), shaders::sw_text(l, h), shaders::spp_text(h)];
    let tail = seq![
        c.sh@ + "\n"@ + c.trace_common_body@,
        c.ctr@,
        c.hemi@,
        c.frustum@,
        if l.sw_rays {
                    c.rt_sw@
                } else {
                    c.rt@
                },
        c.hemi_wave@,
    ];
    lemma_run(head, tail);
    assert(shaders::hemi_wave_text(k, l, h, c) == shaders::unit(head) + run(tail)) by {
        assert(head + tail =~= seq![shaders::trace_defs_text(k, l, h), shaders::stack_text(l), shaders::sw_text(l, h), shaders::spp_text(h), c.trace_common_text(), c.ctr@, c.hemi@, c.frustum@, shaders::rays_text(l, c), c.hemi_wave@]);
    }
}

proof fn lemma_hemi_leaf(k: &TraceKeys, l: &Levers, h: &Host, c: &Corpus)
    ensures
        closes(
            shaders::hemi_leaf_text(k, l, h, c),
            seq![
                c.sh@ + "\n"@ + c.trace_common_body@,
                c.ctr@,
                c.hemi@,
                if l.sw_rays {
                    c.rt_sw@
                } else {
                    c.rt@
                },
                c.ripple@,
                c.shade@,
                c.hemi_leaf@,
            ],
        ),
{
    let head = shaders::part_if(l.width_probe, shaders::width_text(l)) + seq![shaders::trace_defs_text(k, l, h), shaders::sw_text(l, h), shaders::spp_text(h), shaders::detail_text(h)];
    let tail = seq![
        c.sh@ + "\n"@ + c.trace_common_body@,
        c.ctr@,
        c.hemi@,
        if l.sw_rays {
                    c.rt_sw@
                } else {
                    c.rt@
                },
        c.ripple@,
        c.shade@,
        c.hemi_leaf@,
    ];
    lemma_run(head, tail);
    assert(shaders::hemi_leaf_text(k, l, h, c) == shaders::unit(head) + run(tail)) by {
        assert(head + tail =~= shaders::part_if(l.width_probe, shaders::width_text(l)) + seq![shaders::trace_defs_text(k, l, h), shaders::sw_text(l, h), shaders::spp_text(h), shaders::detail_text(h), c.trace_common_text(), c.ctr@, c.hemi@, shaders::rays_text(l, c), c.ripple@, c.shade@, c.hemi_leaf@]);
    }
}

proof fn lemma_compose(h: &Host, c: &Corpus)
    ensures
        closes(
            shaders::compose_text(h, c),
            seq![
                c.sh@ + "\n"@ + c.trace_common_body@,
                c.ctr@,
                c.continuation@ + "\n"@ + c.queues_body@,
                c.compose@,
            ],
        ),
{
    let head = seq![shaders::spp_text(h)];
    let tail = seq![
        c.sh@ + "\n"@ + c.trace_common_body@,
        c.ctr@,
        c.continuation@ + "\n"@ + c.queues_body@,
        c.compose@,
    ];
    lemma_run(head, tail);
    assert(shaders::compose_text(h, c) == shaders::unit(head) + run(tail)) by {
        assert(head + tail =~= seq![shaders::spp_text(h), c.trace_common_text(), c.ctr@, c.queues_text(), c.compose@]);
    }
}

proof fn lemma_feed(l: &Levers, h: &Host, c: &Corpus)
    ensures
        closes(
            shaders::feed_text(l, h, c),
            seq![
                c.sh@ + "\n"@ + c.trace_common_body@,
                c.fsr_wire@,
                c.feed@,
            ],
        ),
{
    let head = seq![shaders::abl_text(l), shaders::spp_text(h)];
    let tail = seq![
        c.sh@ + "\n"@ + c.trace_common_body@,
        c.fsr_wire@,
        c.feed@,
    ];
    lemma_run(head, tail);
    assert(shaders::feed_text(l, h, c) == shaders::unit(head) + run(tail)) by {
        assert(head + tail =~= seq![shaders::abl_text(l), shaders::spp_text(h), c.trace_common_text(), c.fsr_wire@, c.feed@]);
    }
}

/// Each unit of the wavefront pipeline pastes its own sources in order and ends
/// in its own kernel, and in no other's.
pub proof fn wavefront_units_end_in_their_kernels(
    s: &TraceSources,
    k: &TraceKeys,
    l: &Levers,
    h: &Host,
    c: &Corpus,
)
    requires
        call_ensures(shaders::trace_sources, (k, l, h, c), *s),
    ensures
        closes(
            s.reference@,
            seq![
                c.sh@ + "\n"@ + c.trace_common_body@,
                c.skylod@,
                if l.sw_rays {
                    c.rt_sw@
                } else {
                    c.rt@
                },
                c.ripple@,
                c.shade@,
                c.reference@,
            ],
        ),
        closes(
            s.resolve@,
            seq![
                c.sh@ + "\n"@ + c.trace_common_body@,
                c.resolve@,
            ],
        ),
        closes(
            s.wavefront@,
            seq![
                c.sh@ + "\n"@ + c.trace_common_body@,
                c.ctr@,
                c.continuation@ + "\n"@ + c.queues_body@,
                c.frustum@,
                c.ftree@,
                c.wavefront@,
            ],
        ),
        closes(
            s.sky@,
            seq![
                c.sh@ + "\n"@ + c.trace_common_body@,
                c.ctr@,
                c.continuation@ + "\n"@ + c.queues_body@,
                c.skylod@,
                c.sky@,
            ],
        ),
        closes(
            s.leaf@,
            seq![
                c.sh@ + "\n"@ + c.trace_common_body@,
                c.ctr@,
                c.continuation@ + "\n"@ + c.queues_body@,
                c.skylod@,
                if l.sw_rays {
                    c.rt_sw@
                } else {
                    c.rt@
                },
                c.ripple@,
                c.shade@,
                c.leaf@,
            ],
        ),
        closes(
            s.leaf_fb@,
            seq![
                c.sh@ + "\n"@ + c.trace_common_body@,
                c.ctr@,
                c.continuation@ + "\n"@ + c.queues_body@,
                c.skylod@,
                if l.sw_rays {
                    c.rt_sw@
                } else {
                    c.rt@
                },
                c.ripple@,
                c.shade@,
                c.leaf@,
            ],
        ),
        closes(
            s.hemi_wave@,
            seq![
                c.sh@ + "\n"@ + c.trace_common_body@,
                c.ctr@,
                c.hemi@,
                c.frustum@,
                if l.sw_rays {
                    c.rt_sw@
                } else {
                    c.rt@
                },
                c.hemi_wave@,
            ],
        ),
        closes(
            s.hemi_leaf@,
            seq![
                c.sh@ + "\n"@ + c.trace_common_body@,
                c.ctr@,
                c.hemi@,
                if l.sw_rays {
                    c.rt_sw@
                } else {
                    c.rt@
                },
                c.ripple@,
                c.shade@,
                c.hemi_leaf@,
            ],
        ),
        closes(
            s.compose@,
            seq![
                c.sh@ + "\n"@ + c.trace_common_body@,
                c.ctr@,
                c.continuation@ + "\n"@ + c.queues_body@,
                c.compose@,
            ],
        ),
        closes(
            s.feed@,
            seq![
                c.sh@ + "\n"@ + c.trace_common_body@,
                c.fsr_wire@,
                c.feed@,
            ],
        ),
{
    lemma_reference(k, l, h, c);
    lemma_resolve(h, c);
    lemma_wavefront(k, l, h, c);
    lemma_sky(l, h, c, l.sky_lod, l.cloud_shadow);
    lemma_leaf(k, l, h, c);
    lemma_leaf_fb(k, l, h, c);
    lemma_hemi_wave(k, l, h, c);
    lemma_hemi_leaf(k, l, h, c);
    lemma_compose(h, c);
    lemma_feed(l, h, c);
}

/// A sky fill built for any lattice pitch and cache resolution ends in the sky
/// kernel too.
pub proof fn sky_units_end_in_the_sky_kernel(
    l: &Levers,
    h: &Host,
    c: &Corpus,
    pitch: u32,
    n: u32,
    src: String,
)
    requires
        call_ensures(shaders::sky_unit_src, (l, h, c, pitch, n), src),
    ensures
        closes(
            src@,
            seq![
                c.sh@ + "\n"@ + c.trace_common_body@,
                c.ctr@,
                c.continuation@ + "\n"@ + c.queues_body@,
                c.skylod@,
                c.sky@,
            ],
        ),
{
    lemma_sky(l, h, c, pitch, n);
}

proof fn lemma_library(k: &DxrKeys, l: &Levers, h: &Host, c: &Corpus)
    ensures
        closes(
            shaders::library_text(k, l, h, c),
            if k.inline_mode > 0 || k.recurse {
                seq![
                    c.sh@ + "\n"@ + c.trace_common_body@,
                    c.skylod@,
                    c.rt@,
                    c.rt_dxr@,
                    c.ripple@,
                    c.shade@,
                    c.dxr@,
                ]
            } else {
                seq![
                    c.sh@ + "\n"@ + c.trace_common_body@,
                    c.skylod@,
                    c.rt_dxr@,
                    c.ripple@,
                    c.shade@,
                    c.dxr@,
                ]
            },
        ),
{
    let head = seq![
        shaders::dxr_defs_text(k, l, h),
        shaders::spp_text(h),
        shaders::detail_text(h),
        shaders::dxr_cloud_text(l),
    ] + shaders::part_if(k.inline_mode > 0, shaders::inline_text(k)) + shaders::part_if(
        k.recurse,
        "#define DXR_SBT_RECURSE 1"@,
    ) + shaders::part_if(
        l.width_probe && shaders::uses_queries(k),
        "#define WIDTH_PROBE_RAYGEN 1"@,
    ) + shaders::part_if(
        l.ballast.1 != 0 && k.inline_mode == 2,
        shaders::ballast_text(l.ballast.1),
    ) + shaders::part_if(shaders::dxr_tickets(k, l), shaders::waveviz_text(l)) + shaders::part_if(
        shaders::dxr_tickets(k, l) && l.waveviz_mode == 2 && k.inline_mode == 1,
        "#define WAVEVIZ_CHS 1"@,
    );
    let tail = if k.inline_mode > 0 || k.recurse {
        seq![
            c.sh@ + "\n"@ + c.trace_common_body@,
            c.skylod@,
            c.rt@,
            c.rt_dxr@,
            c.ripple@,
            c.shade@,
            c.dxr@,
        ]
    } else {
        seq![
            c.sh@ + "\n"@ + c.trace_common_body@,
            c.skylod@,
            c.rt_dxr@,
            c.ripple@,
            c.shade@,
            c.dxr@,
        ]
    };
    lemma_run(head, tail);
    let middle = seq![c.trace_common_text(), c.skylod@] + shaders::part_if(
        shaders::uses_queries(k),
        c.rt@,
    ) + seq![c.rt_dxr@, c.ripple@, c.shade@, c.dxr@];
    assert(middle =~= tail);
    assert(head + seq![c.trace_common_text(), c.skylod@] + shaders::part_if(
        shaders::uses_queries(k),
        c.rt@,
    ) + seq![c.rt_dxr@, c.ripple@, c.shade@, c.dxr@] =~= head + middle);
}

proof fn lemma_abl_first(l: &Levers, h: &Host, c: &Corpus, last: Seq<char>)
    ensures
        closes(
            shaders::abl_first_text(l, h, c, last),
            seq![c.sh@ + "\n"@ + c.trace_common_body@, c.fsr_wire@, last],
        ),
{
    let head = shaders::part_if(shaders::abl_text(l).len() > 0, shaders::abl_text(l)) + seq![
        shaders::spp_text(h),
    ];
    let tail = seq![c.sh@ + "\n"@ + c.trace_common_body@, c.fsr_wire@, last];
    lemma_run(head, tail);
    assert(head + tail =~= shaders::part_if(shaders::abl_text(l).len() > 0, shaders::abl_text(l))
        + seq![shaders::spp_text(h), c.trace_common_text(), c.fsr_wire@, last]);
}

proof fn lemma_dxr_shade(k: &DxrKeys, l: &Levers, h: &Host, c: &Corpus)
    ensures
        closes(
            shaders::dxr_shade_text(k, l, h, c),
            seq![
                c.sh@ + "\n"@ + c.trace_common_body@,
                c.skylod@,
                c.rt@,
                c.ripple@,
                c.shade@,
                c.dxr_shade@,
            ],
        ),
{
    let head = shaders::part_if(l.width_probe, shaders::width_text(l)) + seq![
        shaders::dxr_defs_text(k, l, h),
        shaders::spp_text(h),
        shaders::detail_text(h),
        shaders::dxr_cloud_text(l),
        shaders::inline_text(k),
    ];
    let tail = seq![
        c.sh@ + "\n"@ + c.trace_common_body@,
        c.skylod@,
        c.rt@,
        c.ripple@,
        c.shade@,
        c.dxr_shade@,
    ];
    lemma_run(head, tail);
    assert(head + tail =~= shaders::part_if(l.width_probe, shaders::width_text(l)) + seq![
        shaders::dxr_defs_text(k, l, h),
        shaders::spp_text(h),
        shaders::detail_text(h),
        shaders::dxr_cloud_text(l),
        shaders::inline_text(k),
        c.trace_common_text(),
        c.skylod@,
        c.rt@,
        c.ripple@,
        c.shade@,
        c.dxr_shade@,
    ]);
}

/// Each unit of the ray-tracing pipeline ends in its own kernel too. The library
/// pastes the inline queries exactly where secondary rays are inline or recurse,
/// and is then built for the later shader model; the sky fill is there where a
/// lattice or a cache is, the upscaler's feed where the full guide planes are
/// written, the denoiser's bridge where it is wanted besides, and the shading
/// kernel where shading is deferred.
pub proof fn ray_tracing_units_end_in_their_kernels(
    s: &DxrSources,
    told: DxrNotices,
    k: &DxrKeys,
    l: &Levers,
    h: &Host,
    c: &Corpus,
)
    requires
        call_ensures(shaders::dxr_sources, (k, l, h, c), (*s, told)),
    ensures
        k.inline_mode > 0 || k.recurse ==> s.lib_target@ == "lib_6_5"@ && closes(
            s.library@,
            seq![
                c.sh@ + "\n"@ + c.trace_common_body@,
                c.skylod@,
                c.rt@,
                c.rt_dxr@,
                c.ripple@,
                c.shade@,
                c.dxr@,
            ],
        ),
        k.inline_mode == 0 && !k.recurse ==> s.lib_target@ == "lib_6_3"@ && closes(
            s.library@,
            seq![
                c.sh@ + "\n"@ + c.trace_common_body@,
                c.skylod@,
                c.rt_dxr@,
                c.ripple@,
                c.shade@,
                c.dxr@,
            ],
        ),
        closes(s.resolve@, seq![c.sh@ + "\n"@ + c.trace_common_body@, c.resolve@]),
        s.sky is Some <==> l.sky_lod > 1 || l.cloud_shadow > 0,
        s.sky matches Some(u) ==> closes(
            u@,
            seq![
                c.sh@ + "\n"@ + c.trace_common_body@,
                c.ctr@,
                c.continuation@ + "\n"@ + c.queues_body@,
                c.skylod@,
                c.sky@,
            ],
        ),
        s.feed is Some <==> k.gbuf_full,
        s.feed matches Some(u) ==> closes(
            u@,
            seq![c.sh@ + "\n"@ + c.trace_common_body@, c.fsr_wire@, c.feed@],
        ),
        s.nrd_bridge is Some <==> k.gbuf_full && k.nrd,
        s.nrd_bridge matches Some(u) ==> closes(
            u@,
            seq![c.sh@ + "\n"@ + c.trace_common_body@, c.fsr_wire@, c.nrd_bridge@],
        ),
        s.dxr_shade is Some <==> k.inline_mode == 3,
        s.dxr_shade matches Some(u) ==> closes(
            u@,
            seq![
                c.sh@ + "\n"@ + c.trace_common_body@,
                c.skylod@,
                c.rt@,
                c.ripple@,
                c.shade@,
                c.dxr_shade@,
            ],
        ),
        s.cloud_shadow_n == l.cloud_shadow,
        s.sky_lod == l.sky_lod,
        s.sway_mv_on == k.sway_armed,
{
    lemma_library(k, l, h, c);
    lemma_resolve(h, c);
    lemma_sky(l, h, c, l.sky_lod, l.cloud_shadow);
    lemma_abl_first(l, h, c, c.feed@);
    lemma_abl_first(l, h, c, c.nrd_bridge@);
    lemma_dxr_shade(k, l, h, c);
}

/// The units around an upscaler end in their own kernels too: the denoiser's
/// bridge, the neural denoiser, and the work graph, which is the wavefront unit
/// between its level counts and the graph's nodes.
pub proof fn other_units_end_in_their_kernels(
    s: TraceSources,
    l: &Levers,
    c: &Corpus,
    bridge: String,
    neural: String,
    graph: String,
    wavefront: &str,
    wide: u32,
    deep: u32,
)
    requires
        call_ensures(TraceSources::nrd_bridge, (&s, l, c), bridge),
        call_ensures(TraceSources::nppd, (&s, c), neural),
        call_ensures(shaders::workgraph_src, (c, wavefront, wide, deep), graph),
    ensures
        closes(
            bridge@,
            seq![s.spp@, c.sh@ + "\n"@ + c.trace_common_body@, c.fsr_wire@, c.nrd_bridge@],
        ),
        neural@ == s.spp@ + run(seq![c.sh@ + "\n"@ + c.trace_common_body@, c.nppd@]),
        graph@ == "#define WORKGRAPH 1\n#define WG_WIDE_LEVELS "@ + text::dec(wide as nat)
            + "\n#define WG_DEEP_LEVELS "@ + text::dec(deep as nat) + run(
            seq![wavefront@, c.workgraph@],
        ),
{
    let head = seq![shaders::abl_text(l)];
    let tail = seq![s.spp@, c.sh@ + "\n"@ + c.trace_common_body@, c.fsr_wire@, c.nrd_bridge@];
    lemma_run(head, tail);
    assert(head + tail =~= seq![
        shaders::abl_text(l),
        s.spp@,
        c.trace_common_text(),
        c.fsr_wire@,
        c.nrd_bridge@,
    ]);
    let one = seq![s.spp@];
    let more = seq![c.sh@ + "\n"@ + c.trace_common_body@, c.nppd@];
    lemma_run(one, more);
    assert(one + more =~= seq![s.spp@, c.trace_common_text(), c.nppd@]);
    let first = seq![wavefront@];
    let nodes = seq![wavefront@, c.workgraph@];
    assert(nodes.drop_last() =~= first);
    assert(first.drop_last() =~= Seq::<Seq<char>>::empty());
    assert(run(first) =~= "\n"@ + wavefront@) by {
        assert(run(Seq::<Seq<char>>::empty()) =~= Seq::<char>::empty());
    }
    assert(graph@ =~= "#define WORKGRAPH 1\n#define WG_WIDE_LEVELS "@ + text::dec(wide as nat)
        + "\n#define WG_DEEP_LEVELS "@ + text::dec(deep as nat) + run(nodes));
}

/// A ray-tracing session is told what its mode leaves out: ballast outside of
/// mode 2, wave tickets outside of modes 1 and 2, and those of the closest-hit
/// stage in mode 2.
pub proof fn left_out_levers_are_told(
    s: DxrSources,
    told: DxrNotices,
    k: &DxrKeys,
    l: &Levers,
    h: &Host,
    c: &Corpus,
)
    requires
        call_ensures(shaders::dxr_sources, (k, l, h, c), (s, told)),
    ensures
        told.ballast_off <==> l.ballast.1 > 0 && k.inline_mode != 2,
        told.waveviz_off <==> l.waveviz_mode > 0 && k.inline_mode != 1 && k.inline_mode != 2,
        told.chs_off <==> l.waveviz_mode == 2 && k.inline_mode == 2,
{
}

/// A session that reports wave widths says so first: each of the units that
/// report opens with the width defines. One that does not opens with the next
/// that it asks for, ballast in the reference unit and tickets elsewhere.
pub proof fn probe_sessions_open_with_their_defines(
    s: &TraceSources,
    k: &TraceKeys,
    l: &Levers,
    h: &Host,
    c: &Corpus,
)
    requires
        call_ensures(shaders::trace_sources, (k, l, h, c), *s),
    ensures
        l.width_probe ==> {
            &&& opens(s.reference@, shaders::width_text(l))
            &&& opens(s.wavefront@, shaders::width_text(l))
            &&& opens(s.sky@, shaders::width_text(l))
            &&& opens(s.leaf@, shaders::width_text(l))
            &&& opens(s.leaf_fb@, shaders::width_text(l))
            &&& opens(s.hemi_leaf@, shaders::width_text(l))
        },
        !l.width_probe && l.ballast.0 > 0 ==> opens(
            s.reference@,
            shaders::ballast_text(l.ballast.0),
        ),
        !l.width_probe && l.waveviz_mode > 0 ==> {
            &&& opens(s.sky@, shaders::waveviz_text(l))
            &&& opens(s.leaf@, shaders::waveviz_text(l))
            &&& opens(s.leaf_fb@, shaders::waveviz_text(l))
            &&& l.ballast.0 == 0 ==> opens(s.reference@, shaders::waveviz_text(l))
        },
{
    lemma_opens(shaders::part_if(l.width_probe, shaders::width_text(l)) + shaders::part_if(l.ballast.0 != 0, shaders::ballast_text(l.ballast.0)) + shaders::part_if(l.waveviz_mode != 0, shaders::waveviz_text(l)) + seq![shaders::cloud_text(l.cloud_shadow), shaders::lod_text(l.sky_lod), shaders::trace_defs_text(k, l, h), shaders::sw_text(l, h), shaders::spp_text(h), shaders::detail_text(h), c.trace_common_text(), c.skylod@, shaders::rays_text(l, c), c.ripple@, c.shade@, c.reference@]);
    lemma_opens(shaders::part_if(l.width_probe, shaders::width_text(l)) + seq![shaders::sky_text(h), shaders::wavefront_abl_text(l), shaders::line_if(k.scene.indices@.len() == 0, "#define SCENE_EMPTY 1"), shaders::line_if(h.ftree_enabled, "#define FTREE 1"), shaders::stack_text(l), shaders::sw_text(l, h), shaders::line_if(l.sw_rays && h.cut_seed_rays, "#define SW_RAYS_LEAF 1"), shaders::spp_text(h), c.trace_common_text(), c.ctr@, c.queues_text(), c.frustum@, c.ftree@, c.wavefront@]);
    lemma_opens(shaders::part_if(l.width_probe, shaders::width_text(l)) + shaders::part_if(l.waveviz_mode != 0, shaders::waveviz_text(l)) + seq![shaders::abl_text(l), shaders::lod_text(l.sky_lod), shaders::cloud_text(l.cloud_shadow), shaders::sky_text(h), shaders::spp_text(h), c.trace_common_text(), c.ctr@, c.queues_text(), c.skylod@, c.sky@]);
    lemma_opens(shaders::part_if(l.width_probe, shaders::width_text(l)) + shaders::part_if(l.waveviz_mode != 0, shaders::waveviz_text(l)) + seq!["#define LEAF_GROUP "@ + text::dec(l.leaf_group as nat), "#define LEAF_NO_FB 1"@, shaders::cloud_text(l.cloud_shadow), shaders::lod_text(l.sky_lod), shaders::trace_defs_text(k, l, h), shaders::sw_text(l, h), shaders::line_if(l.sw_rays && h.cut_seed_rays, "#define SW_RAYS_LEAF 1"), shaders::spp_text(h), shaders::detail_text(h), c.trace_common_text(), c.ctr@, c.queues_text(), c.skylod@, shaders::rays_text(l, c), c.ripple@, c.shade@, c.leaf@]);
    lemma_opens(shaders::part_if(l.width_probe, shaders::width_text(l)) + shaders::part_if(l.waveviz_mode != 0, shaders::waveviz_text(l)) + seq!["#define LEAF_GROUP "@ + text::dec(l.leaf_group as nat), ""@, shaders::cloud_text(l.cloud_shadow), shaders::lod_text(l.sky_lod), shaders::trace_defs_text(k, l, h), shaders::sw_text(l, h), shaders::line_if(l.sw_rays && h.cut_seed_rays, "#define SW_RAYS_LEAF 1"), shaders::spp_text(h), shaders::detail_text(h), c.trace_common_text(), c.ctr@, c.queues_text(), c.skylod@, shaders::rays_text(l, c), c.ripple@, c.shade@, c.leaf@]);
    lemma_opens(shaders::part_if(l.width_probe, shaders::width_text(l)) + seq![shaders::trace_defs_text(k, l, h), shaders::sw_text(l, h), shaders::spp_text(h), shaders::detail_text(h), c.trace_common_text(), c.ctr@, c.hemi@, shaders::rays_text(l, c), c.ripple@, c.shade@, c.hemi_leaf@]);
}

} // verus!
