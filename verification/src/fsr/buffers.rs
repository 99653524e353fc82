//! Per-pixel planes of the decoupled light signals, and the denoiser's tuning.
//!
//! The diffuse, specular, occlusion and reflection planes hold half-precision
//! bit patterns, the residual and the previous depth single-precision ones.
use vstd::prelude::*;
use crate::bits::Bits3;

verus! {

/// Three half-precision bit patterns.
#[derive(Clone, Copy, Debug, PartialEq, Eq, Structural)]
pub struct Half3 {
    pub x: u16,
    pub y: u16,
    pub z: u16,
}

/// A pixel's signals as they are stored.
#[derive(Clone, Copy, Debug, PartialEq, Eq, Structural)]
pub struct Signals {
    /// Demodulated direct diffuse.
    pub dd: Half3,
    /// Demodulated direct specular.
    pub ds: Half3,
    /// Open fraction of the ambient occlusion.
    pub ao: u16,
    /// Demodulated reflection.
    pub ind: Half3,
    /// What the other signals leave of the colour.
    pub residual: Bits3,
}

/// The planes, with the resolution that they are read at. They may have been
/// made for a larger one.
pub struct FsrBufs {
    pub rw: usize,
    pub rh: usize,
    pub dd: Vec<u16>,
    pub ds: Vec<u16>,
    pub ao: Vec<u16>,
    pub ind: Vec<u16>,
    pub residual: Vec<u32>,
    pub prev_z: Vec<u32>,
}

/// Pixel `i` of a three-channel half plane.
pub open spec fn half_at(plane: Seq<u16>, i: int) -> Half3 {
    Half3 { x: plane[3 * i], y: plane[3 * i + 1], z: plane[3 * i + 2] }
}

/// Pixel `i` of a three-channel full plane.
pub open spec fn bits_at(plane: Seq<u32>, i: int) -> Bits3 {
    Bits3 { x: plane[3 * i], y: plane[3 * i + 1], z: plane[3 * i + 2] }
}

fn zeros16(n: usize) -> (v: Vec<u16>)
    ensures
        v@ == Seq::new(n as nat, |i: int| 0u16),
{
    let mut v: Vec<u16> = Vec::new();
    let mut i: usize = 0;
    while i < n
        invariant
            i <= n,
            v@ == Seq::new(i as nat, |j: int| 0u16),
        decreases n - i,
    {
        v.push(0);
        i = i + 1;
        assert(v@ =~= Seq::new(i as nat, |j: int| 0u16));
    }
    v
}

fn zeros32(n: usize) -> (v: Vec<u32>)
    ensures
        v@ == Seq::new(n as nat, |i: int| 0u32),
{
    let mut v: Vec<u32> = Vec::new();
    let mut i: usize = 0;
    while i < n
        invariant
            i <= n,
            v@ == Seq::new(i as nat, |j: int| 0u32),
        decreases n - i,
    {
        v.push(0);
        i = i + 1;
        assert(v@ =~= Seq::new(i as nat, |j: int| 0u32));
    }
    v
}

fn set_half(plane: &mut Vec<u16>, i: usize, h: Half3)
    requires
        3 * i + 2 < old(plane).len(),
    ensures
        final(plane)@.len() == old(plane)@.len(),
        half_at(final(plane)@, i as int) == h,
        forall|k: int|
            0 <= k < old(plane)@.len() && !(3 * i <= k <= 3 * i + 2) ==> #[trigger] final(plane)@[k]
                == old(plane)@[k],
{
    plane.set(3 * i, h.x);
    plane.set(3 * i + 1, h.y);
    plane.set(3 * i + 2, h.z);
}

fn set_bits(plane: &mut Vec<u32>, i: usize, b: Bits3)
    requires
        3 * i + 2 < old(plane).len(),
    ensures
        final(plane)@.len() == old(plane)@.len(),
        bits_at(final(plane)@, i as int) == b,
        forall|k: int|
            0 <= k < old(plane)@.len() && !(3 * i <= k <= 3 * i + 2) ==> #[trigger] final(plane)@[k]
                == old(plane)@[k],
{
    plane.set(3 * i, b.x);
    plane.set(3 * i + 1, b.y);
    plane.set(3 * i + 2, b.z);
}

fn get_half(plane: &Vec<u16>, i: usize) -> (h: Half3)
    requires
        3 * i + 2 < plane.len(),
    ensures
        h == half_at(plane@, i as int),
{
    Half3 { x: plane[3 * i], y: plane[3 * i + 1], z: plane[3 * i + 2] }
}

impl FsrBufs {
    /// Pixels that the planes have room for.
    pub open spec fn room(self) -> nat {
        self.ao@.len()
    }

    /// The planes agree about their room, and the resolution fits it.
    pub open spec fn wf(self) -> bool {
        &&& self.dd@.len() == 3 * self.room()
        &&& self.ds@.len() == 3 * self.room()
        &&& self.ind@.len() == 3 * self.room()
        &&& self.residual@.len() == 3 * self.room()
        &&& self.prev_z@.len() == self.room()
        &&& 3 * self.room() <= usize::MAX
        &&& self.rw * self.rh <= self.room()
    }

    /// Position of a pixel.
    pub open spec fn at(self, x: int, y: int) -> int {
        y * self.rw + x
    }

    /// The signals stored at position `i`.
    pub open spec fn signals(self, i: int) -> Signals {
        Signals {
            dd: half_at(self.dd@, i),
            ds: half_at(self.ds@, i),
            ao: self.ao@[i],
            ind: half_at(self.ind@, i),
            residual: bits_at(self.residual@, i),
        }
    }

    /// Planes for a resolution, all zero.
    pub fn new(rw: usize, rh: usize) -> (b: FsrBufs)
        requires
            rw * rh * 3 <= usize::MAX,
        ensures
            b.wf(),
            b.rw == rw,
            b.rh == rh,
            b.room() == rw * rh,
            b.dd@ == Seq::new(3 * b.room(), |i: int| 0u16),
            b.ds@ == Seq::new(3 * b.room(), |i: int| 0u16),
            b.ao@ == Seq::new(b.room(), |i: int| 0u16),
            b.ind@ == Seq::new(3 * b.room(), |i: int| 0u16),
            b.residual@ == Seq::new(3 * b.room(), |i: int| 0u32),
            b.prev_z@ == Seq::new(b.room(), |i: int| 0u32),
    {
        assert(0 <= rw * rh) by (nonlinear_arith);
        let n: usize = rw * rh;
        FsrBufs {
            rw,
            rh,
            dd: zeros16(n * 3),
            ds: zeros16(n * 3),
            ao: zeros16(n),
            ind: zeros16(n * 3),
            residual: zeros32(n * 3),
            prev_z: zeros32(n),
        }
    }

    /// Reads the planes at another resolution that fits them.
    pub fn set_res(&mut self, rw: usize, rh: usize)
        requires
            old(self).wf(),
            rw * rh * 3 <= old(self).dd.len(),
        ensures
            final(self).wf(),
            *final(self) == (FsrBufs { rw, rh, ..*old(self) }),
    {
        self.rw = rw;
        self.rh = rh;
    }

    /// Stores a pixel's signals and its depth in the previous frame.
    pub fn write(&mut self, x: usize, y: usize, sig: &Signals, prev_z: u32)
        requires
            old(self).wf(),
            old(self).at(x as int, y as int) < old(self).room(),
        ensures
            final(self).wf(),
            final(self).rw == old(self).rw,
            final(self).rh == old(self).rh,
            final(self).room() == old(self).room(),
            final(self).signals(old(self).at(x as int, y as int)) == *sig,
            final(self).prev_z@[old(self).at(x as int, y as int)] == prev_z,
            forall|j: int|
                0 <= j < old(self).room() && j != old(self).at(x as int, y as int) ==> {
                    &&& #[trigger] final(self).signals(j) == old(self).signals(j)
                    &&& final(self).prev_z@[j] == old(self).prev_z@[j]
                },
    {
        proof {
            assert(0 <= y * self.rw) by (nonlinear_arith);
        }
        let i: usize = y * self.rw + x;
        set_half(&mut self.dd, i, sig.dd);
        set_half(&mut self.ds, i, sig.ds);
        self.ao.set(i, sig.ao);
        set_half(&mut self.ind, i, sig.ind);
        set_bits(&mut self.residual, i, sig.residual);
        self.prev_z.set(i, prev_z);
    }

    /// A pixel's signals.
    pub fn read(&self, x: usize, y: usize) -> (sig: Signals)
        requires
            self.wf(),
            self.at(x as int, y as int) < self.room(),
        ensures
            sig == self.signals(self.at(x as int, y as int)),
    {
        proof {
            assert(0 <= y * self.rw) by (nonlinear_arith);
        }
        let i: usize = y * self.rw + x;
        let r: usize = 3 * i;
        Signals {
            dd: get_half(&self.dd, i),
            ds: get_half(&self.ds, i),
            ao: self.ao[i],
            ind: get_half(&self.ind, i),
            residual: Bits3 {
                x: self.residual[r],
                y: self.residual[r + 1],
                z: self.residual[r + 2],
            },
        }
    }
}

/// Pixels of the screen have positions of their own, inside the planes.
pub proof fn pixels_do_not_alias(b: FsrBufs, x: int, y: int, x2: int, y2: int)
    requires
        b.wf(),
        0 <= x < b.rw,
        0 <= y < b.rh,
        0 <= x2 < b.rw,
        0 <= y2 < b.rh,
    ensures
        0 <= b.at(x, y) < b.room(),
        b.at(x, y) == b.at(x2, y2) ==> x == x2 && y == y2,
{
    let (w, h) = (b.rw as int, b.rh as int);
    assert(0 <= y * w + x < w * h) by (nonlinear_arith)
        requires
            0 <= x < w,
            0 <= y < h,
    ;
    if y * w + x == y2 * w + x2 {
        assert(y == y2) by (nonlinear_arith)
            requires
                y * w + x == y2 * w + x2,
                0 <= x < w,
                0 <= x2 < w,
        ;
    }
}

/// A smaller resolution fits the same planes again.
pub proof fn planes_serve_every_smaller_resolution(b: FsrBufs, rw: usize, rh: usize)
    requires
        b.wf(),
        rw <= b.rw,
        rh <= b.rh,
    ensures
        rw * rh * 3 <= b.dd@.len(),
{
    assert(rw * rh <= b.rw * b.rh) by (nonlinear_arith)
        requires
            rw <= b.rw,
            rh <= b.rh,
    ;
}

/// Overrides for the denoiser's constants. What is not set is not configured.
#[derive(Clone, Copy, Debug)]
pub struct DenoiseTuning {
    pub normal_strength: Option<u32>,
    pub stability_bias: Option<u32>,
    pub max_radiance: Option<u32>,
    pub radiance_clip_k: Option<u32>,
    pub kernel_relaxation: Option<u32>,
    pub disocclusion_threshold: Option<u32>,
}

/// A constant to configure: the provider's key, its name and the value.
pub type Entry = (u64, &'static str, u32);

/// An entry as it reads.
pub open spec fn read_entry(e: Entry) -> (u64, Seq<char>, u32) {
    (e.0, e.1@, e.2)
}

/// At most one entry.
pub open spec fn entry_if(key: u64, name: Seq<char>, v: Option<u32>) -> Seq<
    (u64, Seq<char>, u32),
> {
    match v {
        Some(v) => seq![(key, name, v)],
        None => Seq::empty(),
    }
}

fn push_entry(out: &mut Vec<Entry>, key: u64, name: &'static str, v: Option<u32>)
    ensures
        final(out)@.map_values(|e: Entry| read_entry(e)) == old(out)@.map_values(
            |e: Entry| read_entry(e),
        ) + entry_if(key, name@, v),
{
    match v {
        Some(v) => {
            out.push((key, name, v));
        },
        None => {},
    }
    assert(out@.map_values(|e: Entry| read_entry(e)) =~= old(out)@.map_values(
        |e: Entry| read_entry(e),
    ) + entry_if(key, name@, v));
}

impl DenoiseTuning {
    /// What is set, by ascending key.
    pub open spec fn set_entries(self) -> Seq<(u64, Seq<char>, u32)> {
        entry_if(1, "cross-bilateral-normal-strength"@, self.normal_strength) + entry_if(
            2,
            "stability-bias"@,
            self.stability_bias,
        ) + entry_if(3, "max-radiance"@, self.max_radiance) + entry_if(
            4,
            "radiance-clip-std-k"@,
            self.radiance_clip_k,
        ) + entry_if(5, "gaussian-kernel-relaxation"@, self.kernel_relaxation) + entry_if(
            6,
            "disocclusion-threshold"@,
            self.disocclusion_threshold,
        )
    }

    /// The constants to configure.
    pub fn entries(&self) -> (r: Vec<Entry>)
        ensures
            r@.map_values(|e: Entry| read_entry(e)) == self.set_entries(),
    {
        let mut out: Vec<Entry> = Vec::new();
        assert(out@.map_values(|e: Entry| read_entry(e)) =~= Seq::empty());
        push_entry(&mut out, 1, "cross-bilateral-normal-strength", self.normal_strength);
        push_entry(&mut out, 2, "stability-bias", self.stability_bias);
        push_entry(&mut out, 3, "max-radiance", self.max_radiance);
        push_entry(&mut out, 4, "radiance-clip-std-k", self.radiance_clip_k);
        push_entry(&mut out, 5, "gaussian-kernel-relaxation", self.kernel_relaxation);
        push_entry(&mut out, 6, "disocclusion-threshold", self.disocclusion_threshold);
        assert(out@.map_values(|e: Entry| read_entry(e)) =~= self.set_entries());
        out
    }

    /// Whether anything is to be configured.
    pub fn any(&self) -> (r: bool)
        ensures
            r <==> self.set_entries().len() > 0,
            r <==> self.normal_strength is Some || self.stability_bias is Some
                || self.max_radiance is Some || self.radiance_clip_k is Some
                || self.kernel_relaxation is Some || self.disocclusion_threshold is Some,
    {
        let e = self.entries();
        assert(e@.map_values(|e: Entry| read_entry(e)).len() == e@.len());
        e.len() > 0
    }
}

/// The signals of a pixel stand in its own triple of each plane: pixel `(x, y)`
/// of a screen `rw` wide at number `y * rw + x`, and its three lanes from three
/// times that on.
pub proof fn signals_stand_in_their_triples(b: FsrBufs, x: int, y: int)
    ensures
        ({
            let (n, s) = (y * b.rw + x, b.signals(b.at(x, y)));
            &&& s.dd.x == b.dd@[3 * n] && s.dd.y == b.dd@[3 * n + 1] && s.dd.z == b.dd@[3 * n + 2]
            &&& s.ds.x == b.ds@[3 * n] && s.ds.y == b.ds@[3 * n + 1] && s.ds.z == b.ds@[3 * n + 2]
            &&& s.ind.x == b.ind@[3 * n] && s.ind.y == b.ind@[3 * n + 1] && s.ind.z == b.ind@[3 * n
                + 2]
            &&& s.residual.x == b.residual@[3 * n] && s.residual.y == b.residual@[3 * n + 1]
                && s.residual.z == b.residual@[3 * n + 2]
            &&& s.ao == b.ao@[n]
        }),
{
}

/// A constant is configured exactly where it is set, under its own key and name
/// and with its own value.
pub proof fn set_constants_are_configured(t: DenoiseTuning, key: u64, name: Seq<char>, v: u32)
    ensures
        t.set_entries().contains((key, name, v)) <==> {
            ||| key == 1 && name == "cross-bilateral-normal-strength"@ && t.normal_strength == Some(v)
            ||| key == 2 && name == "stability-bias"@ && t.stability_bias == Some(v)
            ||| key == 3 && name == "max-radiance"@ && t.max_radiance == Some(v)
            ||| key == 4 && name == "radiance-clip-std-k"@ && t.radiance_clip_k == Some(v)
            ||| key == 5 && name == "gaussian-kernel-relaxation"@ && t.kernel_relaxation == Some(v)
            ||| key == 6 && name == "disocclusion-threshold"@ && t.disocclusion_threshold == Some(v)
        },
{
    let e = (key, name, v);
    let a = entry_if(1, "cross-bilateral-normal-strength"@, t.normal_strength);
    let b = entry_if(2, "stability-bias"@, t.stability_bias);
    let c = entry_if(3, "max-radiance"@, t.max_radiance);
    let d = entry_if(4, "radiance-clip-std-k"@, t.radiance_clip_k);
    let f = entry_if(5, "gaussian-kernel-relaxation"@, t.kernel_relaxation);
    let g = entry_if(6, "disocclusion-threshold"@, t.disocclusion_threshold);
    lemma_either(a, b, e);
    lemma_either(a + b, c, e);
    lemma_either(a + b + c, d, e);
    lemma_either(a + b + c + d, f, e);
    lemma_either(a + b + c + d + f, g, e);
    lemma_one_entry(1, "cross-bilateral-normal-strength"@, t.normal_strength, e);
    lemma_one_entry(2, "stability-bias"@, t.stability_bias, e);
    lemma_one_entry(3, "max-radiance"@, t.max_radiance, e);
    lemma_one_entry(4, "radiance-clip-std-k"@, t.radiance_clip_k, e);
    lemma_one_entry(5, "gaussian-kernel-relaxation"@, t.kernel_relaxation, e);
    lemma_one_entry(6, "disocclusion-threshold"@, t.disocclusion_threshold, e);
}

proof fn lemma_either<T>(a: Seq<T>, b: Seq<T>, e: T)
    ensures
        (a + b).contains(e) <==> a.contains(e) || b.contains(e),
{
    if a.contains(e) {
        let i = choose|i: int| 0 <= i < a.len() && a[i] == e;
        assert((a + b)[i] == e);
    }
    if b.contains(e) {
        let i = choose|i: int| 0 <= i < b.len() && b[i] == e;
        assert((a + b)[a.len() + i] == e);
    }
    if (a + b).contains(e) {
        let i = choose|i: int| 0 <= i < (a + b).len() && (a + b)[i] == e;
        if i < a.len() {
            assert(a[i] == e);
        } else {
            assert(b[i - a.len()] == e);
        }
    }
}

proof fn lemma_one_entry(key: u64, name: Seq<char>, v: Option<u32>, e: (u64, Seq<char>, u32))
    ensures
        entry_if(key, name, v).contains(e) <==> v is Some && e == (key, name, v->0),
{
    if v is Some {
        assert(entry_if(key, name, v)[0] == (key, name, v->0));
    }
}

} // verus!
