//! The denoiser's levers: what its variables and flags ask for.
use vstd::prelude::*;
use crate::bits;
use crate::bits::{INFINITY, ONE};
use crate::gfx::shaders::Reading;
use crate::text;

verus! {

/// Render height at which the curvature baselines are one texel.
pub const VM_BASE_RH: u32 = 540;

/// Render height over the base height of 540, to the nearest whole, at least one.
pub open spec fn baseline_scale(rh: int) -> int {
    let s = (2 * rh + 540) / 1080;
    if s < 1 {
        1
    } else {
        s
    }
}

/// The scale of the curvature baselines at a render height: the quotient is
/// rounded exactly, at every height.
pub fn vm_baseline_scale(rh: u32) -> (s: u32)
    ensures
        s == baseline_scale(rh as int),
{
    let whole: u32 = rh / VM_BASE_RH;
    let rest: u32 = rh % VM_BASE_RH;
    let s: u32 = if 2 * rest >= VM_BASE_RH {
        whole + 1
    } else {
        whole
    };
    if s < 1 {
        1
    } else {
        s
    }
}

/// The float is this whole number, from one to eight.
pub open spec fn whole_scale(b: u32) -> Option<u32> {
    if b == 0x3f80_0000 {
        Some(1u32)
    } else if b == 0x4000_0000 {
        Some(2u32)
    } else if b == 0x4040_0000 {
        Some(3u32)
    } else if b == 0x4080_0000 {
        Some(4u32)
    } else if b == 0x40a0_0000 {
        Some(5u32)
    } else if b == 0x40c0_0000 {
        Some(6u32)
    } else if b == 0x40e0_0000 {
        Some(7u32)
    } else if b == 0x4100_0000 {
        Some(8u32)
    } else {
        None
    }
}

/// The whole number from one to eight that the float is.
fn read_scale(b: u32) -> (s: Option<u32>)
    ensures
        s == whole_scale(b),
{
    match b {
        0x3f80_0000 => Some(1),
        0x4000_0000 => Some(2),
        0x4040_0000 => Some(3),
        0x4080_0000 => Some(4),
        0x40a0_0000 => Some(5),
        0x40c0_0000 => Some(6),
        0x40e0_0000 => Some(7),
        0x4100_0000 => Some(8),
        _ => None,
    }
}

/// The word is `off`, in any case.
pub open spec fn says_off(v: &str) -> bool {
    text::same_letters(v@, "off"@)
}

/// What the scale variable asks for: `off` pins the scale at one, a whole
/// number from one to eight is taken, anything else is refused.
pub open spec fn scale_reading(var: Option<&str>, number: Option<u32>) -> (Option<u32>, Reading) {
    match var {
        None => (None, Reading::Unset),
        Some(v) => if says_off(v) {
            (Some(1u32), Reading::Taken)
        } else {
            match number {
                Some(b) => match whole_scale(b) {
                    Some(s) => (Some(s), Reading::Taken),
                    None => (None, Reading::Refused),
                },
                None => (None, Reading::Refused),
            }
        },
    }
}

/// The forced scale, if any. `number` is the variable's text read as a float.
pub fn vm_scale_lever(var: Option<&str>, number: Option<u32>) -> (r: (Option<u32>, Reading))
    ensures
        r == scale_reading(var, number),
{
    match var {
        None => (None, Reading::Unset),
        Some(v) => {
            if text::eq_ignore_case(v, "off") {
                return (Some(1), Reading::Taken);
            }
            match number {
                Some(b) => match read_scale(b) {
                    Some(s) => (Some(s), Reading::Taken),
                    None => (None, Reading::Refused),
                },
                None => (None, Reading::Refused),
            }
        },
    }
}

/// The scale in force: the forced one, else the rule's.
pub fn vm_scale_for(lever: Option<u32>, rh: u32) -> (s: u32)
    ensures
        s == match lever {
            Some(s) => s as int,
            None => baseline_scale(rh as int),
        },
{
    match lever {
        Some(s) => s,
        None => vm_baseline_scale(rh),
    }
}

/// A gain: a finite number that is not negative.
pub open spec fn is_gain(b: u32) -> bool {
    bits::magnitude(b) < INFINITY && bits::ord(b) >= 0
}

/// What the light-motion variable asks for: `off` is no gain, a number that is
/// not negative is taken, anything else leaves one.
pub open spec fn gain_reading(var: Option<&str>, number: Option<u32>) -> (u32, Reading) {
    match var {
        None => (ONE, Reading::Unset),
        Some(v) => if says_off(v) {
            (0, Reading::Taken)
        } else {
            match number {
                Some(b) if is_gain(b) => (b, Reading::Taken),
                _ => (ONE, Reading::Refused),
            }
        },
    }
}

/// The light-motion gain. `number` is the variable's text read as a float.
pub fn sunpar_gain(var: Option<&str>, number: Option<u32>) -> (r: (u32, Reading))
    ensures
        r == gain_reading(var, number),
{
    match var {
        None => (ONE, Reading::Unset),
        Some(v) => {
            if text::eq_ignore_case(v, "off") {
                return (0, Reading::Taken);
            }
            match number {
                Some(b) => {
                    if b < INFINITY || b == bits::SIGN {
                        (b, Reading::Taken)
                    } else {
                        (ONE, Reading::Refused)
                    }
                },
                None => (ONE, Reading::Refused),
            }
        },
    }
}

/// What a variable that can only disarm asks for: `off` disarms, anything else
/// leaves the mechanism armed.
pub open spec fn armed_reading(var: Option<&str>) -> (bool, Reading) {
    match var {
        None => (true, Reading::Unset),
        Some(v) => if says_off(v) {
            (false, Reading::Taken)
        } else {
            (true, Reading::Refused)
        },
    }
}

fn read_armed(var: Option<&str>) -> (r: (bool, Reading))
    ensures
        r == armed_reading(var),
{
    match var {
        None => (true, Reading::Unset),
        Some(v) => {
            if text::eq_ignore_case(v, "off") {
                (false, Reading::Taken)
            } else {
                (true, Reading::Refused)
            }
        },
    }
}

/// Whether the curvature term is armed.
pub fn curv_enabled(var: Option<&str>) -> (r: (bool, Reading))
    ensures
        r == armed_reading(var),
{
    read_armed(var)
}

/// Whether specular virtual motion is armed.
pub fn vmotion_enabled(var: Option<&str>) -> (r: (bool, Reading))
    ensures
        r == armed_reading(var),
{
    read_armed(var)
}

/// Whether the diffuse lane is relaxed under the folded bounce.
pub fn girelax_enabled(var: Option<&str>) -> (r: (bool, Reading))
    ensures
        r == armed_reading(var),
{
    read_armed(var)
}

/// Whether the anti-lag brake is armed.
pub fn antilag_enabled(var: Option<&str>) -> (r: (bool, Reading))
    ensures
        r == armed_reading(var),
{
    read_armed(var)
}

/// Overrides for the denoiser's constants. Floats are bit patterns.
#[derive(Clone, Copy, Debug)]
pub struct FrdTuning {
    pub max_accum_frames: Option<u32>,
    pub fast_frames: Option<u32>,
    pub max_stab_frames: Option<u32>,
    pub blur_radius: Option<u32>,
    pub clamp_sigma: Option<u32>,
    pub anti_firefly: Option<bool>,
    pub no_fp16: bool,
}

/// Nothing is overridden.
pub open spec fn untuned() -> FrdTuning {
    FrdTuning {
        max_accum_frames: None,
        fast_frames: None,
        max_stab_frames: None,
        blur_radius: None,
        clamp_sigma: None,
        anti_firefly: None,
        no_fp16: false,
    }
}

impl Default for FrdTuning {
    /// Nothing is overridden.
    fn default() -> (t: Self)
        ensures
            t == untuned(),
    {
        FrdTuning {
            max_accum_frames: None,
            fast_frames: None,
            max_stab_frames: None,
            blur_radius: None,
            clamp_sigma: None,
            anti_firefly: None,
            no_fp16: false,
        }
    }
}

impl FrdTuning {
    /// Whether anything is overridden.
    pub fn any(&self) -> (r: bool)
        ensures
            r <==> *self != untuned(),
    {
        self.max_accum_frames.is_some() || self.fast_frames.is_some()
            || self.max_stab_frames.is_some() || self.blur_radius.is_some()
            || self.clamp_sigma.is_some() || self.anti_firefly.is_some() || self.no_fp16
    }
}

/// The session's tuning. The first one that is set stays.
pub struct TuningCell {
    pub set: Option<FrdTuning>,
}

impl TuningCell {
    /// The tuning in force.
    pub open spec fn in_force(self) -> FrdTuning {
        match self.set {
            Some(t) => t,
            None => untuned(),
        }
    }

    /// No tuning yet.
    pub fn new() -> (c: TuningCell)
        ensures
            c.set is None,
    {
        TuningCell { set: None }
    }

    /// Sets the tuning, unless one is set.
    pub fn set_tuning(&mut self, t: FrdTuning)
        ensures
            final(self).set == match old(self).set {
                Some(was) => Some(was),
                None => Some(t),
            },
    {
        if self.set.is_none() {
            self.set = Some(t);
        }
    }

    /// The tuning in force: the one that was set, else none.
    pub fn tuning(&self) -> (t: FrdTuning)
        ensures
            t == self.in_force(),
    {
        match self.set {
            Some(t) => t,
            None => FrdTuning::default(),
        }
    }
}

/// Below one and a half times the base height the baselines stay one texel,
/// and they never shrink as the height grows.
pub proof fn scale_is_one_below_the_anchor(a: int, b: int)
    requires
        0 <= a <= b,
    ensures
        1 <= baseline_scale(a) <= baseline_scale(b),
        b < 810 ==> baseline_scale(b) == 1,
{
}

/// The scale spans the same footprint: over the base height it stays within
/// half a texel of the height's ratio.
pub proof fn scale_follows_the_height(rh: int)
    requires
        rh >= VM_BASE_RH,
    ensures
        2 * rh - 540 < 1080 * baseline_scale(rh) <= 2 * rh + 540,
{
}

/// A scale is taken for what its float is worth: with the exponent `e` and the
/// mantissa `m` of the pattern it is `m / 2^23` doubled `e - 127` times, and that
/// is a whole number from one to eight.
pub proof fn scales_are_worth_their_pattern(b: u32, s: u32)
    ensures
        whole_scale(b) == Some(s) <==> 1 <= s <= 8 && {
            let (e, m) = (b / 0x80_0000, 0x80_0000 + b % 0x80_0000);
            ||| e == 127 && m == s * 0x80_0000
            ||| e == 128 && 2 * m == s * 0x80_0000
            ||| e == 129 && 4 * m == s * 0x80_0000
            ||| e == 130 && 8 * m == s * 0x80_0000
        },
{
}

/// What the variables take: the word `off` in any case, a scale or a gain that
/// is a finite number from zero up, and nothing else.
pub proof fn variables_take_off_or_a_number(v: &str, number: Option<u32>)
    ensures
        text::same_letters(v@, "off"@) ==> {
            &&& scale_reading(Some(v), number) == (Some(1u32), Reading::Taken)
            &&& gain_reading(Some(v), number) == (0u32, Reading::Taken)
            &&& armed_reading(Some(v)) == (false, Reading::Taken)
        },
        !text::same_letters(v@, "off"@) ==> {
            &&& armed_reading(Some(v)) == (true, Reading::Refused)
            &&& number is None ==> scale_reading(Some(v), number) == (None::<u32>, Reading::Refused)
                && gain_reading(Some(v), number) == (0x3f80_0000u32, Reading::Refused)
            &&& number matches Some(b) ==> {
                &&& b < 0x7f80_0000 || b == 0x8000_0000 ==> gain_reading(Some(v), number) == (
                    b,
                    Reading::Taken,
                )
                &&& !(b < 0x7f80_0000 || b == 0x8000_0000) ==> gain_reading(Some(v), number) == (
                    0x3f80_0000u32,
                    Reading::Refused,
                )
                &&& whole_scale(b) is Some ==> scale_reading(Some(v), number) == (
                    whole_scale(b),
                    Reading::Taken,
                )
                &&& whole_scale(b) is None ==> scale_reading(Some(v), number) == (
                    None::<u32>,
                    Reading::Refused,
                )
            }
        },
        scale_reading(None, number) == (None::<u32>, Reading::Unset),
        gain_reading(None, number) == (0x3f80_0000u32, Reading::Unset),
        armed_reading(None) == (true, Reading::Unset),
{
}

} // verus!
