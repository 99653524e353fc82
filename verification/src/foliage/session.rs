//! The session's side of foliage sway: its levers, which materials sway, the
//! count of what was attached, and the wind of the current clock.
use vstd::prelude::*;
use crate::bits;
use crate::bits::{Bits3, ONE};
use crate::foliage::cells::{SwayCell, STATIC_CELL};
use crate::foliage::merge::FIELD_PLANT;
use crate::foliage::regions;
use crate::scene::{MatKind, Material, Scene, SwayRegion, IDX_BARK, IDX_FOLIAGE};
use crate::text;

verus! {

/// Bit pattern that no clock has: a quiet not-a-number.
pub const NEVER: u32 = 0x7fc0_0000;

/// How the hierarchy is built.
#[derive(Clone, Copy, Debug, PartialEq, Eq, Structural)]
pub enum Builder {
    Sah,
    Lbvh,
    Ploc,
    Som,
}

/// The levers that decide whether and how foliage sways.
#[derive(Clone, Copy, Debug)]
pub struct Session {
    /// Sway is wanted.
    pub armed: bool,
    /// Bit pattern of the amplitude multiplier.
    pub amp_mult: u32,
    /// Triangles per acceleration structure, where the scene is split.
    pub max_prims: Option<u32>,
    pub builder: Builder,
}

impl Session {
    /// Sway wanted at its own amplitude, nothing split yet.
    pub fn new() -> (s: Session)
        ensures
            s.armed,
            s.amp_mult == ONE,
            s.max_prims is None,
            s.builder == Builder::Sah,
    {
        Session { armed: true, amp_mult: ONE, max_prims: None, builder: Builder::Sah }
    }

    pub fn set_armed(&mut self, on: bool)
        ensures
            *final(self) == (Session { armed: on, ..*old(self) }),
    {
        self.armed = on;
    }

    pub fn armed(&self) -> (on: bool)
        ensures
            on == self.armed,
    {
        self.armed
    }

    pub fn set_amp_mult(&mut self, m: u32)
        ensures
            *final(self) == (Session { amp_mult: m, ..*old(self) }),
    {
        self.amp_mult = m;
    }

    pub fn amp_mult(&self) -> (m: u32)
        ensures
            m == self.amp_mult,
    {
        self.amp_mult
    }

    /// Sway is wanted and the scene is split into instances that can move.
    pub open spec fn sweeps(self) -> bool {
        self.armed && self.max_prims is Some
    }

    /// Whether sway is attached to scenes.
    pub fn sweep_armed(&self) -> (r: bool)
        ensures
            r == self.sweeps(),
    {
        self.armed && self.max_prims.is_some()
    }

    /// Whether swaying cells are hosted behind gateways of the hierarchy.
    pub fn gateway_mode(&self) -> (r: bool)
        ensures
            r == (self.sweeps() && self.builder == Builder::Sah),
    {
        self.sweep_armed() && self.builder == Builder::Sah
    }

    /// The multiplier that boxes are swept for: never less than one.
    pub fn sweep_mult(&self) -> (m: u32)
        ensures
            m == if bits::lt(ONE, self.amp_mult) {
                self.amp_mult
            } else {
                ONE
            },
    {
        if bits::is_lt(ONE, self.amp_mult) {
            self.amp_mult
        } else {
            ONE
        }
    }
}

/// A swept box covers every pose of a smaller amplitude: the multiplier is at
/// least one and at least the session's own, where that is a number.
pub proof fn sweep_covers_the_amplitude(amp: u32, swept: u32)
    requires
        swept == if bits::lt(ONE, amp) {
            amp
        } else {
            ONE
        },
        !bits::is_nan(amp),
    ensures
        bits::le(ONE, swept),
        bits::le(amp, swept),
{
}

/// Cost probes of the sway, which render the wrong pose.
#[derive(Clone, Copy, Debug, PartialEq, Eq, Structural)]
pub struct SwayAbl {
    /// The intersector ignores sway.
    pub noshift: bool,
    /// The wind is never baked.
    pub rest: bool,
}

/// The probes that a setting names. Nothing is set without one.
pub fn sway_abl(var: Option<&str>) -> (a: SwayAbl)
    ensures
        a.noshift == (var matches Some(v) && text::has(v@, "noshift"@)),
        a.rest == (var matches Some(v) && text::has(v@, "rest"@)),
{
    match var {
        Some(v) => SwayAbl {
            noshift: text::contains(v, "noshift"),
            rest: text::contains(v, "rest"),
        },
        None => SwayAbl { noshift: false, rest: false },
    }
}

/// The material is foliage with a cut-out texture.
pub open spec fn is_leaf(m: Material, scene: Scene) -> bool {
    m.class == IDX_FOLIAGE && match m.kind {
        MatKind::Textured { tex } => scene.textures@[tex as int].alpha_masked,
        _ => false,
    }
}

/// The material is bark.
pub open spec fn is_wood(m: Material) -> bool {
    m.class == IDX_BARK
}

/// Every textured foliage material names a texture.
pub open spec fn foliage_textures_exist(scene: Scene) -> bool {
    forall|i: int|
        0 <= i < scene.materials@.len() ==> ((#[trigger] scene.materials@[i]).class == IDX_FOLIAGE
            ==> match scene.materials@[i].kind {
            MatKind::Textured { tex } => tex < scene.textures@.len(),
            _ => true,
        })
}

fn leaf(scene: &Scene, i: usize) -> (r: bool)
    requires
        foliage_textures_exist(*scene),
        i < scene.materials@.len(),
    ensures
        r == is_leaf(scene.materials@[i as int], *scene),
{
    let m = &scene.materials[i];
    assert(scene.materials@[i as int] == *m);
    if m.class != IDX_FOLIAGE {
        return false;
    }
    match m.kind {
        MatKind::Textured { tex } => scene.textures[tex as usize].alpha_masked,
        _ => false,
    }
}

/// Which materials are leaves: foliage, and cut out.
pub fn leaf_materials(scene: &Scene) -> (mask: Vec<bool>)
    requires
        foliage_textures_exist(*scene),
    ensures
        mask@ == Seq::new(scene.materials@.len(), |i: int| is_leaf(scene.materials@[i], *scene)),
{
    let mut out: Vec<bool> = Vec::new();
    let n: usize = scene.materials.len();
    let mut i: usize = 0;
    while i < n
        invariant
            i <= n,
            n == scene.materials@.len(),
            foliage_textures_exist(*scene),
            out@.len() == i,
            forall|j: int| 0 <= j < i ==> #[trigger] out@[j] == is_leaf(scene.materials@[j], *scene),
        decreases n - i,
    {
        out.push(leaf(scene, i));
        i = i + 1;
    }
    assert(out@ =~= Seq::new(scene.materials@.len(), |i: int| is_leaf(scene.materials@[i], *scene)));
    out
}

/// Which materials are wood.
pub fn woody_materials(scene: &Scene) -> (mask: Vec<bool>)
    ensures
        mask@ == Seq::new(scene.materials@.len(), |i: int| is_wood(scene.materials@[i])),
{
    let mut out: Vec<bool> = Vec::new();
    let n: usize = scene.materials.len();
    let mut i: usize = 0;
    while i < n
        invariant
            i <= n,
            n == scene.materials@.len(),
            out@.len() == i,
            forall|j: int| 0 <= j < i ==> #[trigger] out@[j] == is_wood(scene.materials@[j]),
        decreases n - i,
    {
        out.push(scene.materials[i].class == IDX_BARK);
        i = i + 1;
    }
    assert(out@ =~= Seq::new(scene.materials@.len(), |i: int| is_wood(scene.materials@[i])));
    out
}

/// Which materials sway: leaves and wood.
pub fn plant_materials(scene: &Scene) -> (mask: Vec<bool>)
    requires
        foliage_textures_exist(*scene),
    ensures
        mask@ == Seq::new(
            scene.materials@.len(),
            |i: int| is_leaf(scene.materials@[i], *scene) || is_wood(scene.materials@[i]),
        ),
{
    let leaves = leaf_materials(scene);
    let woods = woody_materials(scene);
    let mut out: Vec<bool> = Vec::new();
    let n: usize = leaves.len();
    let mut i: usize = 0;
    while i < n
        invariant
            i <= n,
            n == leaves@.len(),
            n == woods@.len(),
            out@.len() == i,
            forall|j: int| 0 <= j < i ==> #[trigger] out@[j] == (leaves@[j] || woods@[j]),
        decreases n - i,
    {
        out.push(leaves[i] || woods[i]);
        i = i + 1;
    }
    assert(out@ =~= Seq::new(
        scene.materials@.len(),
        |i: int| is_leaf(scene.materials@[i], *scene) || is_wood(scene.materials@[i]),
    ));
    out
}

/// No material is both, so that the masks part the swaying materials.
pub proof fn leaves_are_not_wood(m: Material, scene: Scene)
    ensures
        !(is_leaf(m, scene) && is_wood(m)),
{
}

/// How many swaying triangles are wood, leaves of a plant, and neither.
#[derive(Clone, Copy, Debug, PartialEq, Eq, Structural)]
pub struct Census {
    pub woody: u64,
    pub attached: u64,
    pub field: u64,
}

/// What triangle `t` counts as: nothing where it is static.
pub open spec fn role(
    tri_cell: Seq<u16>,
    tri_plant: Seq<u32>,
    tri_mat: Seq<u32>,
    woody: Seq<bool>,
    t: int,
) -> int {
    if tri_cell[t] == STATIC_CELL {
        0
    } else if tri_mat[t] < woody.len() && woody[tri_mat[t] as int] {
        1
    } else if tri_plant[t] != FIELD_PLANT {
        2
    } else {
        3
    }
}

/// How many of the first `n` triangles have a role.
pub open spec fn with_role(
    tri_cell: Seq<u16>,
    tri_plant: Seq<u32>,
    tri_mat: Seq<u32>,
    woody: Seq<bool>,
    r: int,
    n: nat,
) -> nat
    decreases n,
{
    if n == 0 {
        0
    } else {
        with_role(tri_cell, tri_plant, tri_mat, woody, r, (n - 1) as nat) + if role(
            tri_cell,
            tri_plant,
            tri_mat,
            woody,
            n - 1,
        ) == r {
            1nat
        } else {
            0nat
        }
    }
}

/// Counts the swaying triangles by role.
pub fn census(
    tri_cell: &Vec<u16>,
    tri_plant: &Vec<u32>,
    tri_mat: &Vec<u32>,
    woody: &Vec<bool>,
) -> (c: Census)
    requires
        tri_plant@.len() == tri_cell@.len(),
        tri_mat@.len() == tri_cell@.len(),
        tri_cell@.len() <= u64::MAX,
    ensures
        c.woody == with_role(tri_cell@, tri_plant@, tri_mat@, woody@, 1, tri_cell@.len()),
        c.attached == with_role(tri_cell@, tri_plant@, tri_mat@, woody@, 2, tri_cell@.len()),
        c.field == with_role(tri_cell@, tri_plant@, tri_mat@, woody@, 3, tri_cell@.len()),
{
    let n: usize = tri_cell.len();
    let mut c = Census { woody: 0, attached: 0, field: 0 };
    let mut t: usize = 0;
    while t < n
        invariant
            t <= n,
            n == tri_cell@.len(),
            n == tri_plant@.len(),
            n == tri_mat@.len(),
            n <= u64::MAX,
            c.woody == with_role(tri_cell@, tri_plant@, tri_mat@, woody@, 1, t as nat),
            c.attached == with_role(tri_cell@, tri_plant@, tri_mat@, woody@, 2, t as nat),
            c.field == with_role(tri_cell@, tri_plant@, tri_mat@, woody@, 3, t as nat),
            c.woody + c.attached + c.field <= t,
        decreases n - t,
    {
        if tri_cell[t] != STATIC_CELL {
            let m: usize = tri_mat[t] as usize;
            if m < woody.len() && woody[m] {
                c.woody = c.woody + 1;
            } else if tri_plant[t] != FIELD_PLANT {
                c.attached = c.attached + 1;
            } else {
                c.field = c.field + 1;
            }
        }
        t = t + 1;
    }
    c
}

/// Triangles that sway among the first `n`.
pub open spec fn swaying(tri_cell: Seq<u16>, n: nat) -> nat
    decreases n,
{
    if n == 0 {
        0
    } else {
        swaying(tri_cell, (n - 1) as nat) + if tri_cell[n - 1] != STATIC_CELL {
            1nat
        } else {
            0nat
        }
    }
}

/// Every swaying triangle is counted once, and no other is.
pub proof fn census_counts_every_swaying_triangle(
    tri_cell: Seq<u16>,
    tri_plant: Seq<u32>,
    tri_mat: Seq<u32>,
    woody: Seq<bool>,
    n: nat,
)
    ensures
        with_role(tri_cell, tri_plant, tri_mat, woody, 1, n) + with_role(
            tri_cell,
            tri_plant,
            tri_mat,
            woody,
            2,
            n,
        ) + with_role(tri_cell, tri_plant, tri_mat, woody, 3, n) == swaying(tri_cell, n),
    decreases n,
{
    if n > 0 {
        census_counts_every_swaying_triangle(
            tri_cell,
            tri_plant,
            tri_mat,
            woody,
            (n - 1) as nat,
        );
    }
}

/// A cell's pose: the displacement of a point at height y is `u * (a + b * y)`.
#[derive(Clone, Copy, Debug, PartialEq, Eq, Structural)]
pub struct CellShear {
    pub u: Bits3,
    pub a: u32,
    pub b: u32,
}

/// Whether cells have moved between two clocks: not where the clock stood.
pub fn mv_wanted(t_cur: u32, t_prev: u32) -> (r: bool)
    ensures
        r == (t_cur != t_prev),
{
    t_cur != t_prev
}

/// Each cell's wind at the clock that it was last baked for.
pub struct WindCache {
    pub offsets: Vec<Bits3>,
    /// Bit pattern of that clock.
    pub baked: u32,
}

impl WindCache {
    /// No wind for `n` cells, baked for no clock.
    pub fn new(n: usize) -> (w: WindCache)
        ensures
            w.offsets@ == Seq::new(n as nat, |i: int| Bits3 { x: 0, y: 0, z: 0 }),
            w.baked == NEVER,
    {
        let mut offsets: Vec<Bits3> = Vec::new();
        let mut i: usize = 0;
        while i < n
            invariant
                i <= n,
                offsets@ == Seq::new(i as nat, |j: int| Bits3 { x: 0, y: 0, z: 0 }),
            decreases n - i,
        {
            offsets.push(Bits3 { x: 0, y: 0, z: 0 });
            i = i + 1;
            assert(offsets@ =~= Seq::new(i as nat, |j: int| Bits3 { x: 0, y: 0, z: 0 }));
        }
        WindCache { offsets, baked: NEVER }
    }

    /// The winds must be computed for this clock: it is another than theirs,
    /// and the rest pose is not pinned.
    pub open spec fn stale(self, abl: SwayAbl, time: u32) -> bool {
        !abl.rest && self.baked != time
    }

    /// Whether the winds must be computed for this clock.
    pub fn needs_bake(&self, abl: &SwayAbl, time: u32) -> (r: bool)
        ensures
            r == self.stale(*abl, time),
    {
        !abl.rest && self.baked != time
    }

    /// Takes the winds of a clock.
    pub fn bake(&mut self, winds: Vec<Bits3>, time: u32)
        requires
            winds@.len() == old(self).offsets@.len(),
        ensures
            final(self).offsets@ == winds@,
            final(self).baked == time,
    {
        self.offsets = winds;
        self.baked = time;
    }

    /// The wind of a cell.
    pub fn wind(&self, c: u16) -> (u: Bits3)
        requires
            c < self.offsets@.len(),
        ensures
            u == self.offsets@[c as int],
    {
        self.offsets[c as usize]
    }

    /// The pose of a cell: its wind, and how that grows with height.
    pub fn shear(&self, cells: &Vec<SwayCell>, c: u16) -> (s: CellShear)
        requires
            cells@.len() == self.offsets@.len(),
            c < cells@.len(),
        ensures
            s.u == self.offsets@[c as int],
            s.a == cells@[c as int].a,
            s.b == cells@[c as int].b,
    {
        let cell = &cells[c as usize];
        CellShear { u: self.wind(c), a: cell.a, b: cell.b }
    }

    /// The winds of every cell.
    pub fn offsets_snapshot(&self) -> (v: Vec<Bits3>)
        ensures
            v@ == self.offsets@,
    {
        let mut v: Vec<Bits3> = Vec::new();
        let n: usize = self.offsets.len();
        let mut i: usize = 0;
        while i < n
            invariant
                i <= n,
                n == self.offsets@.len(),
                v@ == self.offsets@.take(i as int),
            decreases n - i,
        {
            v.push(self.offsets[i]);
            i = i + 1;
            assert(v@ =~= self.offsets@.take(i as int));
        }
        assert(v@ =~= self.offsets@);
        v
    }
}

/// A frame on the clock of the last bake computes nothing, and a pinned rest
/// pose never does.
pub proof fn a_frozen_clock_bakes_nothing(w: WindCache, abl: SwayAbl, time: u32)
    requires
        w.baked == time || abl.rest,
    ensures
        !w.stale(abl, time),
{
}

/// What a scene's sway is derived from.
pub struct Roots {
    /// Materials that sway, and those of them that are wood.
    pub mask: Vec<bool>,
    pub woody: Vec<bool>,
    pub regions: Vec<SwayRegion>,
}

/// What the scene's sway is derived from; none where the session attaches no
/// sway.
pub fn attach(session: &Session, scene: &Scene) -> (r: Option<Roots>)
    requires
        foliage_textures_exist(*scene),
        scene.indices@.len() <= u32::MAX,
    ensures
        r is Some <==> session.sweeps(),
        r matches Some(x) ==> {
            &&& x.mask@ == Seq::new(
                scene.materials@.len(),
                |i: int| is_leaf(scene.materials@[i], *scene) || is_wood(scene.materials@[i]),
            )
            &&& x.woody@ == Seq::new(
                scene.materials@.len(),
                |i: int| is_wood(scene.materials@[i]),
            )
            &&& x.regions@ == regions::regions_spec(scene)
        },
{
    if !session.sweep_armed() {
        return None;
    }
    let mask = plant_materials(scene);
    let woody = woody_materials(scene);
    let regions = regions::regions_of(scene);
    Some(Roots { mask, woody, regions })
}

/// A leaf is foliage whose own texture is cut out; wood is bark, whatever it is
/// made of.
pub proof fn leaves_are_cut_out_foliage(m: Material, scene: Scene)
    ensures
        is_leaf(m, scene) <==> m.class == 1 && exists|tex: u32|
            m.kind == (MatKind::Textured { tex }) && #[trigger] scene.textures@[tex as int].alpha_masked,
        is_wood(m) <==> m.class == 2,
{
    if is_leaf(m, scene) {
        let tex = m.kind->tex;
        assert(m.kind == (MatKind::Textured { tex }) && scene.textures@[tex as int].alpha_masked);
    }
}

/// The census goes triangle by triangle. One that sways counts once: as woody
/// where its material is wood, whatever plant it has; else as attached where it
/// has a plant, and as field where it has none. A static one does not count.
pub proof fn the_census_goes_triangle_by_triangle(
    tri_cell: Seq<u16>,
    tri_plant: Seq<u32>,
    tri_mat: Seq<u32>,
    woody: Seq<bool>,
    n: nat,
)
    ensures
        ({
            let t = n as int;
            let wood = tri_mat[t] < woody.len() && woody[tri_mat[t] as int];
            let moves = tri_cell[t] != u16::MAX;
            let more = |r: int|
                with_role(tri_cell, tri_plant, tri_mat, woody, r, n + 1) - with_role(
                    tri_cell,
                    tri_plant,
                    tri_mat,
                    woody,
                    r,
                    n,
                );
            &&& more(1) == if moves && wood { 1int } else { 0 }
            &&& more(2) == if moves && !wood && tri_plant[t] != u32::MAX { 1int } else { 0 }
            &&& more(3) == if moves && !wood && tri_plant[t] == u32::MAX { 1int } else { 0 }
        }),
        with_role(tri_cell, tri_plant, tri_mat, woody, 1, 0) == 0,
        with_role(tri_cell, tri_plant, tri_mat, woody, 2, 0) == 0,
        with_role(tri_cell, tri_plant, tri_mat, woody, 3, 0) == 0,
{
}

} // verus!
