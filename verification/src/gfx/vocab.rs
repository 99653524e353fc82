//! Words the command line, the settings file and the backends agree on.
use vstd::prelude::*;

verus! {

/// Which vendor's adapter to prefer when several are present. A wish: a
/// machine without that vendor takes its first hardware adapter.
#[derive(Clone, Copy, Debug, PartialEq, Eq, Structural)]
pub enum Prefer {
    Nvidia,
    Amd,
    Intel,
}

/// Who made the adapter that was picked.
#[derive(Clone, Copy, Debug, PartialEq, Eq, Structural)]
pub enum Vendor {
    Nvidia,
    Amd,
    Intel,
    Other,
}

/// Which tracer an adapter runs.
#[derive(Clone, Copy, Debug, PartialEq, Eq, Structural)]
pub enum Arm {
    Wave,
    Dxr,
}

impl Arm {
    /// The name that announcements and reports use.
    pub fn name(self) -> (r: &'static str)
        ensures
            r@ == match self {
                Arm::Wave => "wavefront"@,
                Arm::Dxr => "DXR"@,
            },
    {
        match self {
            Arm::Wave => "wavefront",
            Arm::Dxr => "DXR",
        }
    }
}

/// What the bytes of the presented image mean.
#[derive(Clone, Copy, Debug, PartialEq, Eq, Structural)]
pub enum PresentSpace {
    /// 8 bits per channel, display-encoded.
    Sdr,
    /// 10 bits per channel, display-encoded.
    Sdr10,
    /// 10 bits per channel, PQ.
    Hdr10,
}

/// Quality tiers of the denoiser library, as its own interface numbers them.
pub const OIDN_QUALITY_FAST: i32 = 4;

pub const OIDN_QUALITY_BALANCED: i32 = 5;

pub const OIDN_QUALITY_HIGH: i32 = 6;

} // verus!
