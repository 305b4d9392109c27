//! Renderer configuration and the offset bookkeeping of the uniform ring
//! buffer.
use vstd::prelude::*;

verus! {

/// Ring buffer size for uniform data (4 MiB).
pub const UNIFORM_RING_SIZE: u64 = 4194304;

/// Rendering configuration options.
#[derive(Debug, Clone, Copy, PartialEq, Eq, Structural)]
pub struct RenderConfig {
    /// MSAA sample count (1 = no MSAA, 4 = 4x MSAA).
    pub msaa_sample_count: u32,
    /// Enable GPU-driven culling via compute shader + indirect draws.
    pub gpu_driven_culling: bool,
    /// Enable temporal anti-aliasing.
    pub taa_enabled: bool,
    /// Enable screen-space global illumination.
    pub ssgi_enabled: bool,
    /// Use the deferred rendering path instead of forward.
    pub deferred_enabled: bool,
}

impl Default for RenderConfig {
    /// Desktop defaults: no MSAA, GPU culling, TAA and SSGI on, forward
    /// path.
    fn default() -> (c: Self)
        ensures
            c == (RenderConfig {
                msaa_sample_count: 1,
                gpu_driven_culling: true,
                taa_enabled: true,
                ssgi_enabled: true,
                deferred_enabled: false,
            }),
    {
        RenderConfig {
            msaa_sample_count: 1,
            gpu_driven_culling: true,
            taa_enabled: true,
            ssgi_enabled: true,
            deferred_enabled: false,
        }
    }
}

/// `offset` rounded up to a multiple of `alignment`.
pub open spec fn align_up(offset: int, alignment: int) -> int {
    if offset % alignment == 0 {
        offset
    } else {
        (offset / alignment + 1) * alignment
    }
}

/// Offsets handed out by a uniform ring buffer: the next free offset and
/// the offsets allocated since the last wrap.
pub struct UniformRingState {
    capacity: u64,
    offset: u64,
    frame_offsets: Vec<u64>,
}

impl UniformRingState {
    /// Capacity in bytes.
    pub closed spec fn capacity(&self) -> u64 {
        self.capacity
    }

    /// Next free offset.
    pub closed spec fn offset(&self) -> u64 {
        self.offset
    }

    /// Offsets allocated since the last wrap, in order.
    pub closed spec fn frame_offsets(&self) -> Seq<u64> {
        self.frame_offsets@
    }

    /// An empty ring of `capacity` bytes.
    pub fn new(capacity: u64) -> (r: Self)
        ensures
            r.capacity() == capacity,
            r.offset() == 0,
            r.frame_offsets().len() == 0,
    {
        UniformRingState { capacity, offset: 0, frame_offsets: Vec::new() }
    }

    /// The next free offset.
    pub fn current_offset(&self) -> (o: u64)
        ensures
            o == self.offset(),
    {
        self.offset
    }

    /// Allocate `size` bytes at the next offset aligned to `alignment`.
    /// When they do not fit before the capacity, the ring wraps: the next
    /// offset and the recorded offsets are reset and 0 is returned.
    pub fn allocate(&mut self, size: u64, alignment: u64) -> (at: u64)
        requires
            alignment > 0,
            align_up(old(self).offset() as int, alignment as int) + size <= u64::MAX,
        ensures
            final(self).capacity() == old(self).capacity(),
            ({
                let aligned = align_up(old(self).offset() as int, alignment as int);
                if aligned + size > old(self).capacity() {
                    &&& at == 0
                    &&& final(self).offset() == 0
                    &&& final(self).frame_offsets().len() == 0
                } else {
                    &&& at == aligned
                    &&& final(self).offset() == aligned + size
                    &&& final(self).frame_offsets() == old(self).frame_offsets().push(at)
                }
            }),
    {
        let q = self.offset / alignment;
        let aligned = if self.offset % alignment == 0 {
            self.offset
        } else {
            proof {
                assert(q < u64::MAX) by (nonlinear_arith)
                    requires
                        q == self.offset / alignment,
                        alignment >= 2,
                ;
                assert((q + 1) * alignment == align_up(self.offset as int, alignment as int));
            }
            (q + 1) * alignment
        };
        let end = aligned + size;
        if end > self.capacity {
            self.offset = 0;
            self.frame_offsets.clear();
            return 0;
        }
        self.offset = end;
        self.frame_offsets.push(aligned);
        aligned
    }

    /// Start a new frame; the offsets of the previous one stay in use.
    pub fn begin_frame(&mut self)
        ensures
            final(self).capacity() == old(self).capacity(),
            final(self).offset() == old(self).offset(),
            final(self).frame_offsets() == old(self).frame_offsets(),
    {
    }
}

/// An allocation that did not wrap is aligned and lies within the ring.
pub proof fn lemma_allocation_in_ring(offset: int, size: int, alignment: int, capacity: int)
    requires
        alignment > 0,
        offset >= 0,
        size >= 0,
        align_up(offset, alignment) + size <= capacity,
    ensures
        align_up(offset, alignment) % alignment == 0,
        offset <= align_up(offset, alignment),
        align_up(offset, alignment) + size <= capacity,
{
    let q = offset / alignment;
    assert(offset == q * alignment + offset % alignment) by (nonlinear_arith)
        requires
            q == offset / alignment,
            alignment > 0,
    ;
    if offset % alignment != 0 {
        assert(((q + 1) * alignment) % alignment == 0) by (nonlinear_arith)
            requires
                alignment > 0,
        ;
        assert((q + 1) * alignment == q * alignment + alignment) by (nonlinear_arith);
    }
}

} // verus!
