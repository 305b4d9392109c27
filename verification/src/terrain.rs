//! Terrain bookkeeping that needs no floating point: the splatmap layer
//! weights, the material blend mode and the metadata timestamp text.
use vstd::prelude::*;
use std::time::Duration;
use std::time::SystemTime;
use std::time::SystemTimeError;
use crate::decimal::push_u64;
use crate::decimal::spec_decimal;

verus! {

#[verifier::external_type_specification]
#[verifier::external_body]
pub struct ExSystemTime(SystemTime);

#[verifier::external_type_specification]
#[verifier::external_body]
pub struct ExSystemTimeError(SystemTimeError);

/// Splatmap descriptor: a 4-channel RGBA weight texture for terrain layers.
#[derive(Debug, Clone)]
pub struct TerrainSplatmap {
    /// Width and height of the splatmap texture.
    pub resolution: u32,
    /// RGBA pixel data (row-major), each channel is the weight for one layer.
    pub data: Vec<[u8; 4]>,
}

/// A texel with all weight on layer 0.
pub open spec fn first_layer_texel() -> [u8; 4] {
    [255u8, 0u8, 0u8, 0u8]
}

impl TerrainSplatmap {
    /// A uniform splatmap: `resolution * resolution` texels, all weight on
    /// layer 0.
    pub fn uniform(resolution: u32) -> (m: Self)
        requires
            resolution * resolution <= u32::MAX,
        ensures
            m.resolution == resolution,
            m.data@ == Seq::new((resolution * resolution) as nat, |i: int| first_layer_texel()),
    {
        let n = (resolution * resolution) as usize;
        let mut data: Vec<[u8; 4]> = Vec::new();
        let mut i: usize = 0;
        while i < n
            invariant
                i <= n,
                n == resolution * resolution,
                data@ == Seq::new(i as nat, |k: int| first_layer_texel()),
            decreases n - i,
        {
            data.push([255u8, 0u8, 0u8, 0u8]);
            i = i + 1;
            assert(data@ =~= Seq::new(i as nat, |k: int| first_layer_texel()));
        }
        TerrainSplatmap { resolution, data }
    }
}

/// Blend mode for terrain material layers.
#[derive(Debug, Clone, Copy, PartialEq, Eq, Structural)]
pub enum TerrainBlendMode {
    /// Linear interpolation based on splatmap weights.
    Linear,
    /// Height-based blending using texture height maps.
    HeightBased,
    /// Triplanar projection for seamless tiling.
    Triplanar,
    /// Normal-based blending for micro-detail variation.
    NormalBased,
}

impl Default for TerrainBlendMode {
    fn default() -> (m: Self)
        ensures
            m == TerrainBlendMode::Linear,
    {
        TerrainBlendMode::Linear
    }
}

/// Calls `SystemTime::now`: the current reading of the system clock.
/// Nothing is promised of it.
#[verifier::external_body]
fn clock_now() -> SystemTime {
    SystemTime::now()
}

/// Calls `SystemTime::duration_since` with `UNIX_EPOCH`: the time elapsed
/// since the epoch, or an error when the clock reads before it.  Nothing
/// is promised of either.
#[verifier::external_body]
fn since_unix_epoch(t: &SystemTime) -> Result<Duration, SystemTimeError> {
    t.duration_since(std::time::UNIX_EPOCH)
}

/// Calls `Duration::as_secs`: the whole seconds of a duration.  Nothing is
/// stated of it, since a `Duration` is opaque here.
#[verifier::external_body]
fn whole_seconds(d: &Duration) -> u64 {
    d.as_secs()
}

/// Timestamp text for `secs` seconds since the Unix epoch: the decimal
/// number followed by `Z`.
pub fn timestamp_text(secs: u64) -> (s: String)
    ensures
        s@ == spec_decimal(secs as nat).push('Z'),
{
    let mut s = String::new();
    push_u64(&mut s, secs);
    proof {
        reveal_strlit("Z");
    }
    s.append("Z");
    s
}

/// Timestamp of the current time: whole seconds since the Unix epoch
/// followed by `Z`, with 0 seconds when the clock reads before the epoch.
pub fn chrono_timestamp() -> (s: String)
    ensures
        exists|secs: u64| s@ == spec_decimal(secs as nat).push('Z'),
{
    let now = clock_now();
    let secs: u64 = match since_unix_epoch(&now) {
        Ok(d) => whole_seconds(&d),
        Err(_) => 0,
    };
    timestamp_text(secs)
}

} // verus!
