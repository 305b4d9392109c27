//! GPU-driven culling records and the Hi-Z pyramid build plan.
use vstd::prelude::*;

verus! {

/// Indirect draw arguments written by the cull shader (the layout of
/// `DrawIndexedIndirect`).
#[derive(Debug, Clone, Copy, PartialEq, Eq, Structural)]
pub struct DrawIndexedIndirectArgs {
    pub index_count: u32,
    pub instance_count: u32,
    pub first_index: u32,
    pub base_vertex: i32,
    pub first_instance: u32,
}

/// The integer part of a queued mesh draw: its index range and base
/// vertex (the bounding box and material stay with the caller).
#[derive(Debug, Clone, Copy, PartialEq, Eq, Structural)]
pub struct IndirectDrawRange {
    pub index_count: u32,
    pub first_index: u32,
    pub base_vertex: i32,
}

/// The indirect arguments written before culling: one per queued draw, in
/// order, with no instance until the cull shader marks the draw visible.
pub fn indirect_args(draws: &[IndirectDrawRange]) -> (args: Vec<DrawIndexedIndirectArgs>)
    ensures
        args@.len() == draws@.len(),
        forall|i: int|
            0 <= i < draws@.len() ==> #[trigger] args@[i] == (DrawIndexedIndirectArgs {
                index_count: draws@[i].index_count,
                instance_count: 0,
                first_index: draws@[i].first_index,
                base_vertex: draws@[i].base_vertex,
                first_instance: 0,
            }),
{
    let mut args: Vec<DrawIndexedIndirectArgs> = Vec::new();
    let mut i: usize = 0;
    while i < draws.len()
        invariant
            i <= draws@.len(),
            args@.len() == i,
            forall|k: int|
                0 <= k < i ==> #[trigger] args@[k] == (DrawIndexedIndirectArgs {
                    index_count: draws@[k].index_count,
                    instance_count: 0,
                    first_index: draws@[k].first_index,
                    base_vertex: draws@[k].base_vertex,
                    first_instance: 0,
                }),
        decreases draws@.len() - i,
    {
        let d = draws[i];
        args.push(
            DrawIndexedIndirectArgs {
                index_count: d.index_count,
                instance_count: 0,
                first_index: d.first_index,
                base_vertex: d.base_vertex,
                first_instance: 0,
            },
        );
        i = i + 1;
    }
    args
}

/// Per-instance data written alongside indirect draw arguments so the
/// shader can look up the material and texture by index.
#[derive(Debug, Clone, Copy)]
pub struct DrawInstanceData {
    pub material_index: u32,
    pub texture_index: u32,
    pub _pad: [u32; 2],
}

/// Uniform of the Hi-Z downsample shader: parent and output extents.
#[derive(Debug, Clone, Copy)]
pub struct HizParams {
    /// (parent_w, parent_h, output_w, output_h)
    pub dims: [u32; 4],
}

/// Multi-draw-indirect-count support flag.
pub struct MultiDrawIndirectCount {
    /// Whether the device supports multi_draw_indirect_count.
    pub supported: bool,
}

/// A device's feature set as the library reads it: the two 64-bit words of
/// a `wgpu::Features` value (native wgpu features first, WebGPU features
/// second), as `Features::bits` gives them.
#[derive(Debug, Clone, Copy)]
pub struct DeviceFeatures {
    pub words: [u64; 2],
}

/// `MULTI_DRAW_INDIRECT_COUNT` is bit 15 of the native wgpu feature word.
pub open spec fn multi_draw_indirect_count_bit(words: [u64; 2]) -> bool {
    words[0] & (1u64 << 15u64) != 0
}

/// Calls `wgpu::Features::contains` with `Features::MULTI_DRAW_INDIRECT_COUNT`
/// on the feature set whose words are `words` (rebuilt, every bit kept, by
/// `Features::from_bits_retain`).  In wgpu-types that flag is the single bit
/// 15 of the native word and no WebGPU bit, and `contains` holds exactly when
/// every bit of the flag is set, so the result is that bit.
#[verifier::external_body]
fn features_contain_multi_draw_indirect_count(words: [u64; 2]) -> (r: bool)
    ensures
        r == multi_draw_indirect_count_bit(words),
{
    wgpu::Features::from_bits_retain(wgpu::wgt::FeatureBits(words)).contains(
        wgpu::Features::MULTI_DRAW_INDIRECT_COUNT,
    )
}

impl MultiDrawIndirectCount {
    /// Support as the device's feature set reports it: whether it contains
    /// `MULTI_DRAW_INDIRECT_COUNT`.
    pub fn new(device_features: DeviceFeatures) -> (m: Self)
        ensures
            m.supported == multi_draw_indirect_count_bit(device_features.words),
    {
        MultiDrawIndirectCount {
            supported: features_contain_multi_draw_indirect_count(device_features.words),
        }
    }
}

/// One dispatch of the Hi-Z build: the mip it writes, the downsample
/// uniform, and the workgroup counts (8x8 threads each).
#[derive(Debug, Clone, Copy)]
pub struct HizDispatch {
    pub mip: u32,
    pub params: HizParams,
    pub groups_x: u32,
    pub groups_y: u32,
}

/// Half an extent, at least 1.
pub open spec fn half_extent(w: u32) -> u32 {
    if w / 2 >= 1 {
        (w / 2) as u32
    } else {
        1
    }
}

/// Extent of mip `k` of a base extent.
pub open spec fn mip_extent(base: u32, k: nat) -> u32
    decreases k,
{
    if k == 0 {
        base
    } else {
        half_extent(mip_extent(base, (k - 1) as nat))
    }
}

/// The dispatch writing mip `mip` (at least 1) of a pyramid with the given
/// base extent.
pub open spec fn hiz_dispatch(base_w: u32, base_h: u32, mip: u32) -> HizDispatch {
    let sw = mip_extent(base_w, (mip - 1) as nat);
    let sh = mip_extent(base_h, (mip - 1) as nat);
    let w = mip_extent(base_w, mip as nat);
    let h = mip_extent(base_h, mip as nat);
    HizDispatch {
        mip,
        params: HizParams { dims: [sw, sh, w, h] },
        groups_x: ((w + 7) / 8) as u32,
        groups_y: ((h + 7) / 8) as u32,
    }
}

proof fn lemma_mip_extent_bound(base: u32, k: nat)
    ensures
        k >= 1 ==> mip_extent(base, k) <= 0x8000_0000u32,
    decreases k,
{
    if k >= 1 {
        lemma_mip_extent_bound(base, (k - 1) as nat);
    }
}

/// The dispatches that build mips 1 to `mip_levels - 1` of a Hi-Z pyramid:
/// each halves the previous extent (never below 1).
pub fn hiz_build_plan(base_width: u32, base_height: u32, mip_levels: u32) -> (plan: Vec<HizDispatch>)
    ensures
        plan@.len() == if mip_levels >= 1 { mip_levels - 1 } else { 0 },
        forall|k: int| 0 <= k < plan@.len() ==> #[trigger] plan@[k] == hiz_dispatch(base_width, base_height, (k + 1) as u32),
{
    let mut plan: Vec<HizDispatch> = Vec::new();
    let mut w = base_width;
    let mut h = base_height;
    let mut mip: u32 = 1;
    while mip < mip_levels
        invariant
            1 <= mip,
            mip_levels >= 1 ==> mip <= mip_levels,
            mip_levels < 1 ==> mip == 1,
            w == mip_extent(base_width, (mip - 1) as nat),
            h == mip_extent(base_height, (mip - 1) as nat),
            plan@.len() == mip - 1,
            forall|k: int| 0 <= k < plan@.len() ==> #[trigger] plan@[k] == hiz_dispatch(base_width, base_height, (k + 1) as u32),
        decreases mip_levels - mip,
    {
        let src_w = w;
        let src_h = h;
        w = if w / 2 >= 1 { w / 2 } else { 1 };
        h = if h / 2 >= 1 { h / 2 } else { 1 };
        proof {
            lemma_mip_extent_bound(base_width, mip as nat);
            lemma_mip_extent_bound(base_height, mip as nat);
        }
        plan.push(HizDispatch {
            mip,
            params: HizParams { dims: [src_w, src_h, w, h] },
            groups_x: (w + 7) / 8,
            groups_y: (h + 7) / 8,
        });
        mip = mip + 1;
    }
    plan
}

} // verus!
