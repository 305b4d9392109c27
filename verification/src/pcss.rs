//! Percentage-closer soft shadow quality presets.
use vstd::prelude::*;

verus! {

/// PCSS quality preset determining sample counts.
#[derive(Debug, Clone, Copy, PartialEq, Eq, Structural)]
pub enum PcssQuality {
    /// Low quality: 8 samples, fast but noisy.
    Low,
    /// Medium quality: 16 samples, balanced (default).
    Medium,
    /// High quality: 32 samples, smooth shadows.
    High,
    /// Ultra quality: 64 samples, best quality.
    Ultra,
}

/// Number of blocker-search samples of a preset.
pub open spec fn spec_blocker_samples(q: PcssQuality) -> u32 {
    match q {
        PcssQuality::Low => 8,
        PcssQuality::Medium => 16,
        PcssQuality::High => 32,
        PcssQuality::Ultra => 64,
    }
}

impl Default for PcssQuality {
    fn default() -> (q: Self)
        ensures
            q == PcssQuality::Medium,
    {
        PcssQuality::Medium
    }
}

impl PcssQuality {
    /// Returns the number of samples for blocker search.
    pub fn blocker_search_samples(&self) -> (n: u32)
        ensures
            n == spec_blocker_samples(*self),
    {
        match self {
            PcssQuality::Low => 8,
            PcssQuality::Medium => 16,
            PcssQuality::High => 32,
            PcssQuality::Ultra => 64,
        }
    }

    /// Returns the number of samples for PCF filtering (the same as the
    /// blocker search).
    pub fn pcf_samples(&self) -> (n: u32)
        ensures
            n == spec_blocker_samples(*self),
    {
        self.blocker_search_samples()
    }
}

} // verus!
