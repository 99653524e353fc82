//! What both denoiser recorders share: the planes and their order, the
//! per-frame settings, and the session's settings.
use vstd::prelude::*;
use crate::bits;
use crate::bits::ONE;
use crate::text;

verus! {

/// Formats by the denoiser library's own numbers.
pub const FMT_R8G8B8A8_UNORM: u32 = 8;

pub const FMT_R32_FLOAT: u32 = 30;

pub const FMT_R16G16B16A16_FLOAT: u32 = 27;

pub const FMT_R10G10B10A2_UNORM: u32 = 40;

/// Planes that an instance reads and writes.
pub const PLANES: usize = 8;

/// Bit patterns of the shortest and the longest frame time reported, in
/// milliseconds, and of the one that stands in for a broken clock.
pub const DT_SHORTEST: u32 = 0x3f80_0000;

pub const DT_LONGEST: u32 = 0x4348_0000;

pub const DT_FALLBACK: u32 = 0x4185_5604;

/// The planes, in the order that both recorders index them in.
#[derive(Copy, Clone, PartialEq, Eq, Debug, Structural)]
pub enum Plane {
    InMv,
    InNormalRoughness,
    InViewZ,
    InDiffRadianceHitDist,
    InSpecRadianceHitDist,
    OutDiffRadianceHitDist,
    OutSpecRadianceHitDist,
    OutValidation,
}

/// The library's number for each plane's resource.
#[derive(Copy, Clone, PartialEq, Eq, Debug, Structural)]
pub struct ResourceTypes {
    pub in_mv: u32,
    pub in_normal_roughness: u32,
    pub in_viewz: u32,
    pub in_diff_radiance_hitdist: u32,
    pub in_spec_radiance_hitdist: u32,
    pub out_diff_radiance_hitdist: u32,
    pub out_spec_radiance_hitdist: u32,
    pub out_validation: u32,
    pub permanent_pool: u32,
    pub transient_pool: u32,
}

impl Plane {
    /// Position among the planes.
    pub open spec fn at(self) -> int {
        match self {
            Plane::InMv => 0,
            Plane::InNormalRoughness => 1,
            Plane::InViewZ => 2,
            Plane::InDiffRadianceHitDist => 3,
            Plane::InSpecRadianceHitDist => 4,
            Plane::OutDiffRadianceHitDist => 5,
            Plane::OutSpecRadianceHitDist => 6,
            Plane::OutValidation => 7,
        }
    }

    /// The plane at a position.
    pub open spec fn nth(i: int) -> Plane {
        if i == 0 {
            Plane::InMv
        } else if i == 1 {
            Plane::InNormalRoughness
        } else if i == 2 {
            Plane::InViewZ
        } else if i == 3 {
            Plane::InDiffRadianceHitDist
        } else if i == 4 {
            Plane::InSpecRadianceHitDist
        } else if i == 5 {
            Plane::OutDiffRadianceHitDist
        } else if i == 6 {
            Plane::OutSpecRadianceHitDist
        } else {
            Plane::OutValidation
        }
    }

    /// Every plane, in index order.
    pub fn all() -> (planes: Vec<Plane>)
        ensures
            planes@ == Seq::new(PLANES as nat, |i: int| Plane::nth(i)),
    {
        let planes: Vec<Plane> = vec![
            Plane::InMv,
            Plane::InNormalRoughness,
            Plane::InViewZ,
            Plane::InDiffRadianceHitDist,
            Plane::InSpecRadianceHitDist,
            Plane::OutDiffRadianceHitDist,
            Plane::OutSpecRadianceHitDist,
            Plane::OutValidation,
        ];
        assert(planes@ =~= Seq::new(PLANES as nat, |i: int| Plane::nth(i)));
        planes
    }

    pub fn index(self) -> (i: usize)
        ensures
            i == self.at(),
            i < PLANES,
    {
        match self {
            Plane::InMv => 0,
            Plane::InNormalRoughness => 1,
            Plane::InViewZ => 2,
            Plane::InDiffRadianceHitDist => 3,
            Plane::InSpecRadianceHitDist => 4,
            Plane::OutDiffRadianceHitDist => 5,
            Plane::OutSpecRadianceHitDist => 6,
            Plane::OutValidation => 7,
        }
    }

    /// The plane's number in a table.
    pub open spec fn type_in(self, t: ResourceTypes) -> u32 {
        match self {
            Plane::InMv => t.in_mv,
            Plane::InNormalRoughness => t.in_normal_roughness,
            Plane::InViewZ => t.in_viewz,
            Plane::InDiffRadianceHitDist => t.in_diff_radiance_hitdist,
            Plane::InSpecRadianceHitDist => t.in_spec_radiance_hitdist,
            Plane::OutDiffRadianceHitDist => t.out_diff_radiance_hitdist,
            Plane::OutSpecRadianceHitDist => t.out_spec_radiance_hitdist,
            Plane::OutValidation => t.out_validation,
        }
    }

    /// What the library calls this plane.
    pub fn resource_type(self, types: &ResourceTypes) -> (n: u32)
        ensures
            n == self.type_in(*types),
    {
        match self {
            Plane::InMv => types.in_mv,
            Plane::InNormalRoughness => types.in_normal_roughness,
            Plane::InViewZ => types.in_viewz,
            Plane::InDiffRadianceHitDist => types.in_diff_radiance_hitdist,
            Plane::InSpecRadianceHitDist => types.in_spec_radiance_hitdist,
            Plane::OutDiffRadianceHitDist => types.out_diff_radiance_hitdist,
            Plane::OutSpecRadianceHitDist => types.out_spec_radiance_hitdist,
            Plane::OutValidation => types.out_validation,
        }
    }

    /// The first plane that the library calls `n`.
    pub open spec fn named(n: u32, t: ResourceTypes) -> Option<Plane> {
        if t.in_mv == n {
            Some(Plane::InMv)
        } else if t.in_normal_roughness == n {
            Some(Plane::InNormalRoughness)
        } else if t.in_viewz == n {
            Some(Plane::InViewZ)
        } else if t.in_diff_radiance_hitdist == n {
            Some(Plane::InDiffRadianceHitDist)
        } else if t.in_spec_radiance_hitdist == n {
            Some(Plane::InSpecRadianceHitDist)
        } else if t.out_diff_radiance_hitdist == n {
            Some(Plane::OutDiffRadianceHitDist)
        } else if t.out_spec_radiance_hitdist == n {
            Some(Plane::OutSpecRadianceHitDist)
        } else if t.out_validation == n {
            Some(Plane::OutValidation)
        } else {
            None
        }
    }

    /// The first plane that the library calls `n`; none for a pool or for a
    /// signal that is not wired.
    pub fn from_resource_type(n: u32, types: &ResourceTypes) -> (p: Option<Plane>)
        ensures
            p == Plane::named(n, *types),
            p is None <==> forall|q: Plane| #[trigger] q.type_in(*types) != n,
            p matches Some(q) ==> q.type_in(*types) == n && forall|r: Plane|
                r.at() < q.at() ==> #[trigger] r.type_in(*types) != n,
    {
        let planes = Plane::all();
        let mut i: usize = 0;
        while i < PLANES
            invariant
                i <= PLANES,
                planes@ == Seq::new(PLANES as nat, |i: int| Plane::nth(i)),
                forall|r: Plane| r.at() < i ==> #[trigger] r.type_in(*types) != n,
            decreases PLANES - i,
        {
            let p = planes[i];
            if p.resource_type(types) == n {
                proof {
                    let q = Plane::named(n, *types)->0;
                    assert(q.at() < p.at() ==> q.type_in(*types) != n);
                    planes_are_in_index_order(p, i as int);
                    planes_are_in_index_order(q, i as int);
                }
                return Some(p);
            }
            assert forall|r: Plane| r.at() < i + 1 implies #[trigger] r.type_in(*types) != n by {
                if r.at() == i {
                    assert(r == p);
                }
            }
            i = i + 1;
        }
        proof {
            lemma_named(n, *types);
        }
        None
    }

    /// Wire format of the plane.
    pub open spec fn format(self) -> u32 {
        match self {
            Plane::InNormalRoughness => FMT_R10G10B10A2_UNORM,
            Plane::InViewZ => FMT_R32_FLOAT,
            Plane::OutValidation => FMT_R8G8B8A8_UNORM,
            _ => FMT_R16G16B16A16_FLOAT,
        }
    }

    /// Wire format of the plane, by the library's number.
    pub fn nrd_format(self) -> (f: u32)
        ensures
            f == self.format(),
    {
        match self {
            Plane::InNormalRoughness => FMT_R10G10B10A2_UNORM,
            Plane::InViewZ => FMT_R32_FLOAT,
            Plane::OutValidation => FMT_R8G8B8A8_UNORM,
            _ => FMT_R16G16B16A16_FLOAT,
        }
    }

    /// Label of the plane.
    pub open spec fn label(self) -> Seq<char> {
        match self {
            Plane::InMv => "in_mv"@,
            Plane::InNormalRoughness => "in_nr"@,
            Plane::InViewZ => "in_viewz"@,
            Plane::InDiffRadianceHitDist => "in_diff"@,
            Plane::InSpecRadianceHitDist => "in_spec"@,
            Plane::OutDiffRadianceHitDist => "out_diff"@,
            Plane::OutSpecRadianceHitDist => "out_spec"@,
            Plane::OutValidation => "out_validation"@,
        }
    }

    /// Label of the plane in reports.
    pub fn name(self) -> (s: &'static str)
        ensures
            s@ == self.label(),
    {
        match self {
            Plane::InMv => "in_mv",
            Plane::InNormalRoughness => "in_nr",
            Plane::InViewZ => "in_viewz",
            Plane::InDiffRadianceHitDist => "in_diff",
            Plane::InSpecRadianceHitDist => "in_spec",
            Plane::OutDiffRadianceHitDist => "out_diff",
            Plane::OutSpecRadianceHitDist => "out_spec",
            Plane::OutValidation => "out_validation",
        }
    }
}

/// No two planes share a number.
pub open spec fn distinct_types(t: ResourceTypes) -> bool {
    forall|p: Plane, q: Plane| #[trigger] p.type_in(t) == #[trigger] q.type_in(t) ==> p == q
}

/// No plane has a pool's number.
pub open spec fn pools_apart(t: ResourceTypes) -> bool {
    forall|p: Plane| #[trigger] p.type_in(t) != t.permanent_pool && p.type_in(t) != t.transient_pool
}

/// Numbers and planes name each other: where no two planes share a number, the
/// plane found for a plane's number is that plane. Whatever is found has the
/// number, and a number that no plane has finds none.
pub proof fn numbers_name_their_planes(p: Plane, n: u32, t: ResourceTypes)
    ensures
        distinct_types(t) ==> Plane::named(p.type_in(t), t) == Some(p),
        Plane::named(n, t) matches Some(q) ==> q.type_in(t) == n,
        Plane::named(n, t) is None <==> forall|q: Plane| #[trigger] q.type_in(t) != n,
        pools_apart(t) ==> Plane::named(t.permanent_pool, t) is None && Plane::named(
            t.transient_pool,
            t,
        ) is None,
{
    lemma_named(n, t);
    lemma_named(p.type_in(t), t);
    lemma_named(t.permanent_pool, t);
    lemma_named(t.transient_pool, t);
    assert(p.type_in(t) == p.type_in(t));
}

proof fn lemma_named(n: u32, t: ResourceTypes)
    ensures
        Plane::named(n, t) matches Some(q) ==> q.type_in(t) == n,
        Plane::named(n, t) is None <==> forall|q: Plane| #[trigger] q.type_in(t) != n,
{
    if forall|q: Plane| #[trigger] q.type_in(t) != n {
        assert(Plane::InMv.type_in(t) != n);
        assert(Plane::InNormalRoughness.type_in(t) != n);
        assert(Plane::InViewZ.type_in(t) != n);
        assert(Plane::InDiffRadianceHitDist.type_in(t) != n);
        assert(Plane::InSpecRadianceHitDist.type_in(t) != n);
        assert(Plane::OutDiffRadianceHitDist.type_in(t) != n);
        assert(Plane::OutSpecRadianceHitDist.type_in(t) != n);
        assert(Plane::OutValidation.type_in(t) != n);
    } else {
        let q = choose|q: Plane| #[trigger] q.type_in(t) == n;
        assert(q.type_in(t) == n);
    }
}

/// Positions and planes name each other.
pub proof fn planes_are_in_index_order(p: Plane, i: int)
    requires
        0 <= i < PLANES,
    ensures
        Plane::nth(p.at()) == p,
        Plane::nth(i).at() == i,
        0 <= p.at() < PLANES,
{
}

/// No two planes share a label, and none is empty.
pub proof fn labels_are_unique(p: Plane, q: Plane)
    ensures
        p.label() == q.label() ==> p == q,
        p.label().len() > 0,
{
    reveal_strlit("in_mv");
    reveal_strlit("in_nr");
    reveal_strlit("in_viewz");
    reveal_strlit("in_diff");
    reveal_strlit("in_spec");
    reveal_strlit("out_diff");
    reveal_strlit("out_spec");
    reveal_strlit("out_validation");
    assert(p.label()[3] == 'm' <==> p == Plane::InMv);
    assert(p.label()[3] == 'n' <==> p == Plane::InNormalRoughness);
    assert(p.label()[3] == 'v' <==> p == Plane::InViewZ);
    assert(p.label()[3] == 'd' <==> p == Plane::InDiffRadianceHitDist);
    assert(p.label()[3] == 's' <==> p == Plane::InSpecRadianceHitDist);
    assert(p.label()[3] == '_' ==> p.label()[4] == 'd' || p.label()[4] == 's' || p.label()[4]
        == 'v');
    assert(p.label()[3] == '_' && p.label()[4] == 'd' ==> p == Plane::OutDiffRadianceHitDist);
    assert(p.label()[3] == '_' && p.label()[4] == 's' ==> p == Plane::OutSpecRadianceHitDist);
    assert(p.label()[3] == '_' && p.label()[4] == 'v' ==> p == Plane::OutValidation);
    assert(q.label()[3] == 'm' <==> q == Plane::InMv);
    assert(q.label()[3] == 'n' <==> q == Plane::InNormalRoughness);
    assert(q.label()[3] == 'v' <==> q == Plane::InViewZ);
    assert(q.label()[3] == 'd' <==> q == Plane::InDiffRadianceHitDist);
    assert(q.label()[3] == 's' <==> q == Plane::InSpecRadianceHitDist);
    assert(q.label()[3] == '_' && q.label()[4] == 'd' ==> q == Plane::OutDiffRadianceHitDist);
    assert(q.label()[3] == '_' && q.label()[4] == 's' ==> q == Plane::OutSpecRadianceHitDist);
    assert(q.label()[3] == '_' && q.label()[4] == 'v' ==> q == Plane::OutValidation);
}

/// A camera's two matrices, column by column.
#[derive(Copy, Clone, Debug)]
pub struct CamMatrices {
    pub world_to_view: [u32; 16],
    pub view_to_clip: [u32; 16],
}

/// What the denoiser is told of a frame. Floats are bit patterns.
#[derive(Copy, Clone, Debug)]
pub struct CommonSettings {
    pub view_to_clip_matrix: [u32; 16],
    pub view_to_clip_matrix_prev: [u32; 16],
    pub world_to_view_matrix: [u32; 16],
    pub world_to_view_matrix_prev: [u32; 16],
    pub motion_vector_scale: [u32; 3],
    pub camera_jitter: [u32; 2],
    pub camera_jitter_prev: [u32; 2],
    pub resource_size: [u16; 2],
    pub resource_size_prev: [u16; 2],
    pub rect_size: [u16; 2],
    pub rect_size_prev: [u16; 2],
    pub denoising_range: u32,
    pub time_delta_between_frames: u32,
    pub frame_index: u32,
    pub accumulation_mode: u32,
    pub split_screen: u32,
    pub enable_validation: u8,
}

/// A frame's view: its camera, its sub-pixel offset and its size.
#[derive(Copy, Clone, Debug)]
pub struct FrameView {
    pub mats: CamMatrices,
    pub jitter: (u32, u32),
    pub width: u32,
    pub height: u32,
}

/// The library's values that the settings choose between.
#[derive(Copy, Clone, Debug)]
pub struct Choices {
    pub accum_continue: u32,
    pub accum_restart: u32,
    pub split_screen_default: u32,
}

/// The frame time to report: held in its band, and the stand-in where the
/// clock gave no number.
pub open spec fn reported_dt(dt: u32) -> u32 {
    if bits::magnitude(dt) >= bits::INFINITY {
        DT_FALLBACK
    } else if bits::lt(dt, DT_SHORTEST) {
        DT_SHORTEST
    } else if bits::lt(DT_LONGEST, dt) {
        DT_LONGEST
    } else {
        dt
    }
}

/// The frame time to report.
pub fn frame_dt(dt: u32) -> (r: u32)
    ensures
        r == reported_dt(dt),
{
    let magnitude: u32 = if dt >= bits::SIGN {
        dt - bits::SIGN
    } else {
        dt
    };
    if magnitude >= bits::INFINITY {
        DT_FALLBACK
    } else if bits::is_lt(dt, DT_SHORTEST) {
        DT_SHORTEST
    } else if bits::is_lt(DT_LONGEST, dt) {
        DT_LONGEST
    } else {
        dt
    }
}

/// The low half of a size.
pub open spec fn size_words(v: FrameView) -> Seq<u16> {
    seq![(v.width % 65536) as u16, (v.height % 65536) as u16]
}

fn sizes(v: &FrameView) -> (s: [u16; 2])
    ensures
        s@ == size_words(*v),
{
    let s: [u16; 2] = [(v.width % 65536) as u16, (v.height % 65536) as u16];
    assert(s@ =~= size_words(*v));
    s
}

/// The settings of a frame. `mv_scale` is the size of a pixel in texture
/// coordinates and `range` the largest denoised depth, both computed from the
/// current view; `reset` drops the history.
pub fn common_settings(
    view: &FrameView,
    prev: &FrameView,
    mv_scale: (u32, u32),
    range: u32,
    dt_ms: u32,
    frame_index: u32,
    reset: bool,
    enable_validation: bool,
    split_screen: Option<u32>,
    choices: &Choices,
) -> (cs: CommonSettings)
    ensures
        cs.view_to_clip_matrix == view.mats.view_to_clip,
        cs.view_to_clip_matrix_prev == prev.mats.view_to_clip,
        cs.world_to_view_matrix == view.mats.world_to_view,
        cs.world_to_view_matrix_prev == prev.mats.world_to_view,
        cs.motion_vector_scale@ == seq![mv_scale.0, mv_scale.1, ONE],
        cs.camera_jitter@ == seq![view.jitter.0, view.jitter.1],
        cs.camera_jitter_prev@ == seq![prev.jitter.0, prev.jitter.1],
        cs.resource_size@ == size_words(*view),
        cs.resource_size_prev@ == size_words(*prev),
        cs.rect_size@ == size_words(*view),
        cs.rect_size_prev@ == size_words(*prev),
        cs.denoising_range == range,
        cs.time_delta_between_frames == reported_dt(dt_ms),
        cs.frame_index == frame_index,
        cs.accumulation_mode == if reset {
            choices.accum_restart
        } else {
            choices.accum_continue
        },
        cs.split_screen == match split_screen {
            Some(x) => x,
            None => choices.split_screen_default,
        },
        cs.enable_validation == if enable_validation {
            1
        } else {
            0int
        },
{
    let motion_vector_scale: [u32; 3] = [mv_scale.0, mv_scale.1, ONE];
    let camera_jitter: [u32; 2] = [view.jitter.0, view.jitter.1];
    let camera_jitter_prev: [u32; 2] = [prev.jitter.0, prev.jitter.1];
    assert(motion_vector_scale@ =~= seq![mv_scale.0, mv_scale.1, ONE]);
    assert(camera_jitter@ =~= seq![view.jitter.0, view.jitter.1]);
    assert(camera_jitter_prev@ =~= seq![prev.jitter.0, prev.jitter.1]);
    CommonSettings {
        view_to_clip_matrix: view.mats.view_to_clip,
        view_to_clip_matrix_prev: prev.mats.view_to_clip,
        world_to_view_matrix: view.mats.world_to_view,
        world_to_view_matrix_prev: prev.mats.world_to_view,
        motion_vector_scale,
        camera_jitter,
        camera_jitter_prev,
        resource_size: sizes(view),
        resource_size_prev: sizes(prev),
        rect_size: sizes(view),
        rect_size_prev: sizes(prev),
        denoising_range: range,
        time_delta_between_frames: frame_dt(dt_ms),
        frame_index,
        accumulation_mode: if reset {
            choices.accum_restart
        } else {
            choices.accum_continue
        },
        split_screen: match split_screen {
            Some(x) => x,
            None => choices.split_screen_default,
        },
        enable_validation: if enable_validation {
            1
        } else {
            0
        },
    }
}

/// The session's settings: which neighbourhood missing hit distances are
/// rebuilt from, and the library's other words.
pub struct ReblurSettings {
    pub hit_distance_reconstruction_mode: u32,
    pub words: Vec<u32>,
}

/// A word with its override.
pub open spec fn tuned(word: u32, tuning: Seq<Option<u32>>, i: int) -> u32 {
    if i < tuning.len() {
        match tuning[i] {
            Some(v) => v,
            None => word,
        }
    } else {
        word
    }
}

/// The library's defaults with the session's reconstruction mode, and with the
/// tuning's overrides on top.
pub fn reblur_settings(
    defaults: ReblurSettings,
    mode: u32,
    tuning: &Vec<Option<u32>>,
) -> (rs: ReblurSettings)
    ensures
        rs.hit_distance_reconstruction_mode == mode,
        rs.words@ == Seq::new(
            defaults.words@.len(),
            |i: int| tuned(defaults.words@[i], tuning@, i),
        ),
{
    let mut rs = defaults;
    let ghost given = defaults.words@;
    rs.hit_distance_reconstruction_mode = mode;
    let n: usize = rs.words.len();
    let mut i: usize = 0;
    while i < n
        invariant
            i <= n,
            n == given.len(),
            rs.hit_distance_reconstruction_mode == mode,
            rs.words@.len() == n,
            forall|j: int| 0 <= j < i ==> #[trigger] rs.words@[j] == tuned(given[j], tuning@, j),
            forall|j: int| i <= j < n ==> #[trigger] rs.words@[j] == given[j],
        decreases n - i,
    {
        if i < tuning.len() {
            match tuning[i] {
                Some(v) => {
                    rs.words.set(i, v);
                },
                None => {},
            }
        }
        i = i + 1;
    }
    assert(rs.words@ =~= Seq::new(given.len(), |i: int| tuned(given[i], tuning@, i)));
    rs
}

/// A session without tuning takes the library's words as they are.
pub proof fn untuned_settings_are_the_defaults(words: Seq<u32>, tuning: Seq<Option<u32>>)
    requires
        forall|i: int| 0 <= i < tuning.len() ==> #[trigger] tuning[i] is None,
    ensures
        Seq::new(words.len(), |i: int| tuned(words[i], tuning, i)) == words,
{
    assert(Seq::new(words.len(), |i: int| tuned(words[i], tuning, i)) =~= words);
}

/// The reported frame time is never the library's own-clock sentinel, and
/// always a number inside the band.
pub proof fn reported_time_is_in_band(dt: u32)
    ensures
        bits::le(DT_SHORTEST, reported_dt(dt)),
        bits::le(reported_dt(dt), DT_LONGEST),
        reported_dt(dt) != 0,
{
}

fn fault(text: &str) -> (r: Result<(), String>)
    ensures
        r matches Err(e) && e@ == text@,
{
    Err(text.to_string())
}

/// No plane before `p` shares its number.
spec fn first_of_its_type(p: Plane, t: ResourceTypes) -> bool {
    forall|r: Plane| r.at() < p.at() ==> #[trigger] r.type_in(t) != p.type_in(t)
}

/// Some plane has this number.
pub open spec fn names_a_plane(n: u32, t: ResourceTypes) -> bool {
    exists|p: Plane| #[trigger] p.type_in(t) == n
}

/// Holds the planes' order, labels, numbers and formats, the reported frame
/// time and the settings of a frame to the rules that the recorders rely on. It
/// fails exactly when the library's numbers collide, and says how.
pub fn self_test(types: &ResourceTypes) -> (res: Result<(), String>)
    ensures
        res is Ok <==> distinct_types(*types) && pools_apart(*types),
        res matches Err(e) ==> e@ == if !distinct_types(*types) {
            "two planes share a resource type"@
        } else if names_a_plane(types.permanent_pool, *types) {
            "the permanent pool resolves to a plane"@
        } else {
            "the transient pool resolves to a plane"@
        },
{
    let planes = Plane::all();
    let mut i: usize = 0;
    while i < PLANES
        invariant
            i <= PLANES,
            planes@ == Seq::new(PLANES as nat, |i: int| Plane::nth(i)),
            forall|p: Plane| p.at() < i ==> #[trigger] first_of_its_type(p, *types),
        decreases PLANES - i,
    {
        let p = planes[i];
        if p.index() != i {
            return fault("a plane is out of index order");
        }
        match Plane::from_resource_type(p.resource_type(types), types) {
            Some(q) => {
                if q != p {
                    assert(q.type_in(*types) == p.type_in(*types));
                    assert(!distinct_types(*types));
                    return fault("two planes share a resource type");
                }
            },
            None => {
                assert(p.type_in(*types) == p.type_in(*types));
                return fault("a plane has no resource type");
            },
        }
        proof {
            labels_are_unique(p, p);
            assert forall|j: int| i < j < PLANES implies p.label() != (
            #[trigger] planes@[j]).label() by {
                labels_are_unique(p, planes@[j]);
            }
        }
        check_names(&planes, i)?;
        assert forall|r: Plane| r.at() < i + 1 implies #[trigger] first_of_its_type(r, *types) by {
            if r.at() == i {
                assert(r == p);
            }
        }
        i = i + 1;
    }
    proof {
        assert forall|p: Plane, q: Plane| #[trigger] p.type_in(*types) == #[trigger] q.type_in(
            *types,
        ) implies p == q by {
            assert(first_of_its_type(p, *types) && first_of_its_type(q, *types));
            if p.at() == q.at() {
                assert(Plane::nth(p.at()) == p && Plane::nth(q.at()) == q);
            }
        }
    }
    if Plane::from_resource_type(types.permanent_pool, types).is_some() {
        return fault("the permanent pool resolves to a plane");
    }
    if Plane::from_resource_type(types.transient_pool, types).is_some() {
        return fault("the transient pool resolves to a plane");
    }
    let want: Vec<u32> = vec![
        FMT_R16G16B16A16_FLOAT,
        FMT_R10G10B10A2_UNORM,
        FMT_R32_FLOAT,
        FMT_R16G16B16A16_FLOAT,
        FMT_R16G16B16A16_FLOAT,
        FMT_R16G16B16A16_FLOAT,
        FMT_R16G16B16A16_FLOAT,
        FMT_R8G8B8A8_UNORM,
    ];
    check_formats(&planes, &want)?;
    if frame_dt(0) != DT_SHORTEST || frame_dt(0x4e6e_6b28) != DT_LONGEST || frame_dt(0x4180_0000)
        != 0x4180_0000 || frame_dt(0x7fc0_0000) != DT_FALLBACK {
        return fault("the frame time left its band");
    }
    let view = FrameView {
        mats: CamMatrices { world_to_view: [0; 16], view_to_clip: [0; 16] },
        jitter: (0, 0),
        width: 4,
        height: 2,
    };
    let choices = Choices { accum_continue: 0, accum_restart: 1, split_screen_default: 0 };
    let scale: (u32, u32) = (0x3e80_0000, 0x3f00_0000);
    let range: u32 = 0x4479_c000;
    let dt: u32 = 0x4180_0000;
    let cs = common_settings(&view, &view, scale, range, dt, 7, true, false, None, &choices);
    let cv = common_settings(&view, &view, scale, range, dt, 7, true, true, None, &choices);
    check_settings(&cs, &cv, scale, range, 7, choices.accum_restart)
}

/// The planes have these wire formats.
spec fn formats_are(planes: Seq<Plane>, want: Seq<u32>) -> bool {
    forall|i: int| 0 <= i < planes.len() ==> (#[trigger] planes[i]).format() == want[i]
}

/// Whether the planes have the formats that the bridge packs them in.
fn check_formats(planes: &Vec<Plane>, want: &Vec<u32>) -> (res: Result<(), String>)
    requires
        want@.len() == planes@.len(),
    ensures
        res is Ok <==> formats_are(planes@, want@),
{
    let n: usize = planes.len();
    let mut i: usize = 0;
    while i < n
        invariant
            i <= n,
            n == planes@.len(),
            n == want@.len(),
            forall|j: int| 0 <= j < i ==> (#[trigger] planes@[j]).format() == want@[j],
        decreases n - i,
    {
        if planes[i].nrd_format() != want[i] {
            assert(planes@[i as int].format() != want@[i as int]);
            return fault("a plane has another format");
        }
        i = i + 1;
    }
    Ok(())
}

/// The settings carry the range, the motion scale axis by axis, a restarted
/// accumulation and the frame's number, and ask for no validation; those of the
/// second frame ask for it.
spec fn settings_arrived(
    cs: CommonSettings,
    cv: CommonSettings,
    scale: (u32, u32),
    range: u32,
    frame_index: u32,
    accum_restart: u32,
) -> bool {
    &&& cs.denoising_range == range
    &&& cs.motion_vector_scale@ == seq![scale.0, scale.1, ONE]
    &&& cs.accumulation_mode == accum_restart
    &&& cs.frame_index == frame_index
    &&& cs.enable_validation == 0
    &&& cv.enable_validation != 0
}

/// Whether the range, the motion scale, the reset, the frame's number and the
/// wish for validation reached the settings of two frames, the second of which
/// asked for validation.
fn check_settings(
    cs: &CommonSettings,
    cv: &CommonSettings,
    scale: (u32, u32),
    range: u32,
    frame_index: u32,
    accum_restart: u32,
) -> (res: Result<(), String>)
    ensures
        res is Ok <==> settings_arrived(*cs, *cv, scale, range, frame_index, accum_restart),
{
    if cs.denoising_range != range || cs.motion_vector_scale[0] != scale.0
        || cs.motion_vector_scale[1] != scale.1 || cs.motion_vector_scale[2] != ONE {
        proof {
            let want = seq![scale.0, scale.1, ONE];
            assert(want[0] == scale.0 && want[1] == scale.1 && want[2] == ONE);
        }
        return fault("the range or the motion scale is another");
    }
    assert(cs.motion_vector_scale@ =~= seq![scale.0, scale.1, ONE]);
    if cs.accumulation_mode != accum_restart || cs.frame_index != frame_index
        || cs.enable_validation != 0 {
        return fault("a reset, a frame number or a quiet validation is lost");
    }
    if cv.enable_validation == 0 {
        return fault("validation was asked for and did not arrive");
    }
    Ok(())
}

/// The plane at `i` has a label, and shares it with no later plane.
spec fn named_apart(planes: Seq<Plane>, i: int) -> bool {
    &&& planes[i].label().len() > 0
    &&& forall|j: int|
        i < j < planes.len() ==> planes[i].label() != (#[trigger] planes[j]).label()
}

/// Whether the plane at `i` has a label that it shares with no later plane.
fn check_names(planes: &Vec<Plane>, i: usize) -> (res: Result<(), String>)
    requires
        i < planes@.len(),
    ensures
        res is Ok <==> named_apart(planes@, i as int),
{
    let p = planes[i];
    let n: usize = planes.len();
    proof {
        reveal_strlit("");
        assert(p.label().len() == 0 ==> p.label() =~= ""@);
    }
    if text::same(p.name(), "") {
        return fault("a plane has no name");
    }
    let mut j: usize = i + 1;
    while j < n
        invariant
            i < j <= n,
            n == planes@.len(),
            p == planes@[i as int],
            forall|k: int| i < k < j ==> p.label() != (#[trigger] planes@[k]).label(),
        decreases n - j,
    {
        let q = planes[j];
        if text::same(p.name(), q.name()) {
            assert(planes@[j as int].label() == p.label());
            return fault("two planes share a name");
        }
        j = j + 1;
    }
    Ok(())
}

/// Each plane has its own place, its own number of the library's table and its
/// wire format: the radiance and motion planes four halves, the normals ten bits
/// a lane, the depth one float, the overlay eight bits a lane.
pub proof fn planes_have_their_places(t: ResourceTypes)
    ensures
        Plane::InMv.at() == 0 && Plane::InMv.type_in(t) == t.in_mv,
        Plane::InMv.format() == 27 && Plane::InMv.label() == "in_mv"@,
        Plane::InNormalRoughness.at() == 1 && Plane::InNormalRoughness.type_in(t) == t.in_normal_roughness,
        Plane::InNormalRoughness.format() == 40 && Plane::InNormalRoughness.label() == "in_nr"@,
        Plane::InViewZ.at() == 2 && Plane::InViewZ.type_in(t) == t.in_viewz,
        Plane::InViewZ.format() == 30 && Plane::InViewZ.label() == "in_viewz"@,
        Plane::InDiffRadianceHitDist.at() == 3 && Plane::InDiffRadianceHitDist.type_in(t) == t.in_diff_radiance_hitdist,
        Plane::InDiffRadianceHitDist.format() == 27 && Plane::InDiffRadianceHitDist.label() == "in_diff"@,
        Plane::InSpecRadianceHitDist.at() == 4 && Plane::InSpecRadianceHitDist.type_in(t) == t.in_spec_radiance_hitdist,
        Plane::InSpecRadianceHitDist.format() == 27 && Plane::InSpecRadianceHitDist.label() == "in_spec"@,
        Plane::OutDiffRadianceHitDist.at() == 5 && Plane::OutDiffRadianceHitDist.type_in(t) == t.out_diff_radiance_hitdist,
        Plane::OutDiffRadianceHitDist.format() == 27 && Plane::OutDiffRadianceHitDist.label() == "out_diff"@,
        Plane::OutSpecRadianceHitDist.at() == 6 && Plane::OutSpecRadianceHitDist.type_in(t) == t.out_spec_radiance_hitdist,
        Plane::OutSpecRadianceHitDist.format() == 27 && Plane::OutSpecRadianceHitDist.label() == "out_spec"@,
        Plane::OutValidation.at() == 7 && Plane::OutValidation.type_in(t) == t.out_validation,
        Plane::OutValidation.format() == 8 && Plane::OutValidation.label() == "out_validation"@,
{
}

/// A frame time inside the band, from one to two hundred milliseconds, is
/// reported as it is; below and above it the band's ends are, and where the
/// clock gave no finite number the stand-in.
pub proof fn frame_times_are_held_in_their_band(dt: u32)
    ensures
        dt % 0x8000_0000 >= 0x7f80_0000 ==> reported_dt(dt) == 0x4185_5604,
        dt % 0x8000_0000 < 0x7f80_0000 ==> {
            &&& bits::le(0x3f80_0000, dt) && bits::le(dt, 0x4348_0000) ==> reported_dt(dt) == dt
            &&& bits::lt(dt, 0x3f80_0000) ==> reported_dt(dt) == 0x3f80_0000
            &&& bits::lt(0x4348_0000, dt) ==> reported_dt(dt) == 0x4348_0000
        },
{
}

/// An override replaces its own word and no other.
pub proof fn overrides_replace_their_own_word(words: Seq<u32>, tuning: Seq<Option<u32>>, i: int)
    requires
        0 <= i < words.len(),
    ensures
        i < tuning.len() && tuning[i] is Some ==> Some(tuned(words[i], tuning, i)) == tuning[i],
        i >= tuning.len() || tuning[i] is None ==> tuned(words[i], tuning, i) == words[i],
{
}

/// Sizes are told in pixels, width first, as far as sixteen bits go.
pub proof fn sizes_are_told_width_first(v: FrameView)
    ensures
        size_words(v).len() == 2,
        v.width < 65536 ==> size_words(v)[0] == v.width,
        v.height < 65536 ==> size_words(v)[1] == v.height,
{
}

} // verus!
