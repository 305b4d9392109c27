//! Sparse virtual textures: the physical tile pool with least-recently-used
//! replacement, the bookkeeping of background tile loads, and the page table
//! that maps virtual tiles to pool slots.
use std::collections::VecDeque;
use std::path::PathBuf;
use vstd::prelude::*;
use vstd::arithmetic::power2::pow2;

use crate::decimal::{push_u32, spec_decimal};

verus! {

/// The standard library's path buffer, carried through unchanged.
#[verifier::external_type_specification]
#[verifier::external_body]
pub struct ExPathBuf(PathBuf);

/// Tile size in texels (each axis).
pub const SVT_TILE_SIZE: u32 = 128;

/// Number of physical tiles used when the caller gives no limit.
pub const DEFAULT_MAX_PHYSICAL_TILES: u32 = 1024;

/// Size of the feedback render target (much smaller than the full frame).
pub const FEEDBACK_RT_SIZE: u32 = 128;

/// A virtual tile address: (mip_level, tile_x, tile_y).
#[derive(Debug, Clone, Copy, PartialEq, Eq, Hash, Structural)]
pub struct VirtualTileId {
    pub mip: u32,
    pub x: u32,
    pub y: u32,
}

/// A physical slot index into the tile pool texture array.
#[derive(Debug, Clone, Copy, PartialEq, Eq, Structural)]
pub struct PhysicalSlot(pub u32);

/// Feedback entry produced by the GPU feedback pass, one per visible tile.
#[derive(Debug, Clone, Copy)]
pub struct FeedbackEntry {
    pub tile: VirtualTileId,
}

/// Maps virtual tiles to physical pool slots.
#[derive(Debug, Clone, Copy)]
pub struct PageTableEntry {
    /// Physical tile X in the pool atlas.
    pub phys_x: u32,
    /// Physical tile Y in the pool atlas.
    pub phys_y: u32,
    /// 1 if resident, 0 otherwise.
    pub resident: u32,
    pub _pad: u32,
}

impl Default for PageTableEntry {
    fn default() -> (e: Self)
        ensures
            e.phys_x == 0 && e.phys_y == 0 && e.resident == 0 && e._pad == 0,
    {
        PageTableEntry { phys_x: 0, phys_y: 0, resident: 0, _pad: 0 }
    }
}

/// GPU-side feedback texel (matches the R32G32B32A32Uint format).
#[derive(Debug, Clone, Copy)]
pub struct GpuFeedbackTexel {
    pub tile_x: u32,
    pub tile_y: u32,
    pub mip: u32,
    pub _pad: u32,
}

impl Default for GpuFeedbackTexel {
    fn default() -> (t: Self)
        ensures
            t.tile_x == 0 && t.tile_y == 0 && t.mip == 0 && t._pad == 0,
    {
        GpuFeedbackTexel { tile_x: 0, tile_y: 0, mip: 0, _pad: 0 }
    }
}

// ---------------------------------------------------------------------------
// Tile pool
// ---------------------------------------------------------------------------

/// A resident tile: its physical slot and the frame it was last used in.
#[derive(Debug, Clone, Copy)]
struct ResidentTile {
    tile: VirtualTileId,
    slot: PhysicalSlot,
    last_used: u64,
}

/// What the pool records of a resident tile: (slot, last-used frame).
pub type Residency = (PhysicalSlot, u64);

/// The residency map that a sequence of distinct-tile records describes.
pub open spec fn entries_map(e: Seq<(VirtualTileId, PhysicalSlot, u64)>) -> Map<VirtualTileId, Residency> {
    Map::new(
        |t: VirtualTileId| exists|i: int| 0 <= i < e.len() && e[i].0 == t,
        |t: VirtualTileId|
            {
                let i = choose|i: int| 0 <= i < e.len() && e[i].0 == t;
                (e[i].1, e[i].2)
            },
    )
}

/// Order used to pick an eviction victim: least recently used first, and
/// among equally old tiles the lower slot first.
pub open spec fn lru_le(a: Residency, b: Residency) -> bool {
    a.1 < b.1 || (a.1 == b.1 && a.0.0 <= b.0.0)
}

/// `v` is a resident tile that is minimal in the eviction order.
pub open spec fn is_lru_victim(m: Map<VirtualTileId, Residency>, v: VirtualTileId) -> bool {
    &&& m.dom().contains(v)
    &&& forall|u: VirtualTileId| m.dom().contains(u) ==> lru_le(#[trigger] m[v], m[u])
}

/// The tile that is evicted when the pool has no free slot.
pub open spec fn lru_victim(m: Map<VirtualTileId, Residency>) -> VirtualTileId {
    choose|v: VirtualTileId| is_lru_victim(m, v)
}

/// Outcome of allocating `tile` in `frame` for a pool whose residency map is
/// `m` and whose free slots are `free`: the new map, the new free slots and
/// the slot handed out.
pub open spec fn allocate_outcome(
    m: Map<VirtualTileId, Residency>,
    free: Seq<u32>,
    tile: VirtualTileId,
    frame: u64,
) -> (Map<VirtualTileId, Residency>, Seq<u32>, PhysicalSlot) {
    if m.dom().contains(tile) {
        (m.insert(tile, (m[tile].0, frame)), free, m[tile].0)
    } else if free.len() > 0 {
        (m.insert(tile, (PhysicalSlot(free[0]), frame)), free.drop_first(), PhysicalSlot(free[0]))
    } else {
        let v = lru_victim(m);
        (m.remove(v).insert(tile, (m[v].0, frame)), free, m[v].0)
    }
}

/// Smallest `r` with `r * r >= n`.
pub open spec fn is_ceil_sqrt(n: int, r: int) -> bool {
    &&& r >= 0
    &&& r * r >= n
    &&& (r == 0 || (r - 1) * (r - 1) < n)
}

/// A pool of physical tile slots backed by a large GPU texture.
pub struct TilePool {
    /// Pool dimensions in tiles (pool is `tiles_per_row x tiles_per_row` tiles).
    pub tiles_per_row: u32,
    pub max_tiles: u32,
    /// Free slot indices, handed out front first.
    free_slots: VecDeque<u32>,
    /// Resident tiles with their slot and last-used frame.
    resident: Vec<ResidentTile>,
}

impl TilePool {
    spec fn records(&self) -> Seq<(VirtualTileId, PhysicalSlot, u64)> {
        self.resident@.map_values(|r: ResidentTile| (r.tile, r.slot, r.last_used))
    }

    /// Resident tiles, each with its slot and last-used frame.
    pub closed spec fn resident_view(&self) -> Map<VirtualTileId, Residency> {
        entries_map(self.records())
    }

    /// Side of the square pool atlas, in tiles: the field `tiles_per_row`.
    pub closed spec fn row_len(&self) -> u32 {
        self.tiles_per_row
    }

    /// Number of slots of the pool: the field `max_tiles`.
    pub closed spec fn capacity(&self) -> u32 {
        self.max_tiles
    }

    /// Free slots, in the order in which they are handed out.
    pub closed spec fn free_view(&self) -> Seq<u32> {
        self.free_slots@
    }

    /// Internal consistency: tiles are recorded once, every slot below
    /// `max_tiles` is either free or held by exactly one resident tile.
    pub closed spec fn wf(&self) -> bool {
        let r = self.resident@;
        let f = self.free_slots@;
        &&& self.max_tiles as int == self.tiles_per_row as int * self.tiles_per_row as int
        &&& r.len() + f.len() == self.max_tiles as int
        &&& forall|i: int, j: int| 0 <= i < j < r.len() ==> #[trigger] r[i].tile != #[trigger] r[j].tile
        &&& forall|i: int, j: int| 0 <= i < j < r.len() ==> #[trigger] r[i].slot.0 != #[trigger] r[j].slot.0
        &&& forall|i: int, k: int| 0 <= i < r.len() && 0 <= k < f.len() ==> #[trigger] r[i].slot.0 != #[trigger] f[k]
        &&& forall|k: int, l: int| 0 <= k < l < f.len() ==> #[trigger] f[k] != #[trigger] f[l]
        &&& forall|i: int| 0 <= i < r.len() ==> #[trigger] r[i].slot.0 < self.max_tiles
        &&& forall|k: int| 0 <= k < f.len() ==> #[trigger] f[k] < self.max_tiles
    }

    proof fn lemma_record(&self, i: int)
        requires
            self.wf(),
            0 <= i < self.resident@.len(),
        ensures
            self.resident_view().dom().contains(self.resident@[i].tile),
            self.resident_view()[self.resident@[i].tile] == (self.resident@[i].slot, self.resident@[i].last_used),
    {
        let e = self.records();
        let t = self.resident@[i].tile;
        assert(e[i].0 == t);
        let j = choose|j: int| 0 <= j < e.len() && e[j].0 == t;
        assert(e[j].0 == self.resident@[j].tile);
        if j != i {
            if j < i {
                assert(self.resident@[j].tile != self.resident@[i].tile);
            } else {
                assert(self.resident@[i].tile != self.resident@[j].tile);
            }
        }
    }

    proof fn lemma_not_recorded(&self, t: VirtualTileId)
        requires
            self.wf(),
            forall|i: int| 0 <= i < self.resident@.len() ==> self.resident@[i].tile != t,
        ensures
            !self.resident_view().dom().contains(t),
    {
        let e = self.records();
        if exists|i: int| 0 <= i < e.len() && e[i].0 == t {
            let i = choose|i: int| 0 <= i < e.len() && e[i].0 == t;
            assert(self.resident@[i].tile == t);
        }
    }

    proof fn lemma_dom_recorded(&self, t: VirtualTileId) -> (i: int)
        requires
            self.wf(),
            self.resident_view().dom().contains(t),
        ensures
            0 <= i < self.resident@.len(),
            self.resident@[i].tile == t,
    {
        let e = self.records();
        let i = choose|i: int| 0 <= i < e.len() && e[i].0 == t;
        i
    }

    /// Create a pool of `ceil(sqrt(max_tiles))^2` slots, all free, handed
    /// out in increasing order.
    pub fn new(max_tiles: u32) -> (pool: Self)
        requires
            max_tiles <= 65535 * 65535,
        ensures
            pool.wf(),
            is_ceil_sqrt(max_tiles as int, pool.row_len() as int),
            pool.capacity() == pool.row_len() * pool.row_len(),
            pool.resident_view() == Map::<VirtualTileId, Residency>::empty(),
            pool.free_view() == Seq::new(pool.capacity() as nat, |i: int| i as u32),
    {
        let mut r: u32 = 0;
        let mut sq: u64 = 0;
        while sq < max_tiles as u64
            invariant
                r <= 65535,
                sq == r * r,
                r == 0 || (r - 1) * (r - 1) < max_tiles,
                max_tiles <= 65535 * 65535,
            decreases 65536 - r,
        {
            assert(r < 65535) by (nonlinear_arith)
                requires r * r < max_tiles, max_tiles <= 65535 * 65535, r <= 65535;
            assert((r + 1) * (r + 1) == r * r + 2 * r + 1) by (nonlinear_arith);
            sq = sq + 2 * (r as u64) + 1;
            r = r + 1;
        }
        assert(r * r <= 65535 * 65535) by (nonlinear_arith)
            requires r <= 65535;
        let total: u32 = r * r;
        let mut free_slots: VecDeque<u32> = VecDeque::new();
        let mut i: u32 = 0;
        while i < total
            invariant
                i <= total,
                free_slots@ == Seq::new(i as nat, |k: int| k as u32),
            decreases total - i,
        {
            free_slots.push_back(i);
            i = i + 1;
            assert(free_slots@ =~= Seq::new(i as nat, |k: int| k as u32));
        }
        let pool = TilePool { tiles_per_row: r, max_tiles: total, free_slots, resident: Vec::new() };
        proof {
            assert(pool.resident_view() =~= Map::<VirtualTileId, Residency>::empty());
        }
        pool
    }

    /// Allocate a physical slot for `tile` in `frame`.  A resident tile keeps
    /// its slot and is marked used; otherwise the first free slot is taken;
    /// when none is free the least recently used tile (lower slot on a tie)
    /// is evicted and its slot reused.
    pub fn allocate(&mut self, tile: VirtualTileId, frame: u64) -> (slot: PhysicalSlot)
        requires
            old(self).wf(),
            old(self).capacity() > 0,
        ensures
            final(self).wf(),
            final(self).row_len() == old(self).row_len(),
            final(self).capacity() == old(self).capacity(),
            (final(self).resident_view(), final(self).free_view(), slot) == allocate_outcome(
                old(self).resident_view(),
                old(self).free_view(),
                tile,
                frame,
            ),
    {
        let ghost m0 = self.resident_view();
        let ghost f0 = self.free_view();
        // Already resident: just touch.
        let n = self.resident.len();
        let mut i: usize = 0;
        while i < n
            invariant
                self.wf(),
                *self == *old(self),
                m0 == old(self).resident_view(),
                f0 == old(self).free_view(),
                n == self.resident@.len(),
                i <= n,
                forall|k: int| 0 <= k < i ==> self.resident@[k].tile != tile,
            decreases n - i,
        {
            if self.resident[i].tile == tile {
                let slot = self.resident[i].slot;
                let ghost old_r = self.resident@;
                proof {
                    self.lemma_record(i as int);
                }
                self.resident.set(i, ResidentTile { tile, slot, last_used: frame });
                proof {
                    let r = self.resident@;
                    assert(r == old_r.update(i as int, ResidentTile { tile, slot, last_used: frame }));
                    assert forall|a: int, b: int| 0 <= a < b < r.len() implies #[trigger] r[a].tile != #[trigger] r[b].tile by {
                        assert(old_r[a].tile != old_r[b].tile);
                    }
                    assert forall|a: int, b: int| 0 <= a < b < r.len() implies #[trigger] r[a].slot.0 != #[trigger] r[b].slot.0 by {
                        assert(old_r[a].slot.0 != old_r[b].slot.0);
                    }
                    assert forall|a: int, k: int| 0 <= a < r.len() && 0 <= k < self.free_slots@.len() implies #[trigger] r[a].slot.0 != #[trigger] self.free_slots@[k] by {
                        assert(old_r[a].slot.0 != self.free_slots@[k]);
                    }
                    assert forall|a: int| 0 <= a < r.len() implies #[trigger] r[a].slot.0 < self.max_tiles by {
                        assert(old_r[a].slot.0 < self.max_tiles);
                    }
                    assert(self.wf());
                    self.lemma_map_after_set(old_r, m0, i as int);
                }
                return slot;
            }
            i = i + 1;
        }
        proof {
            self.lemma_not_recorded(tile);
        }
        let popped = self.free_slots.pop_front();
        match popped {
            Some(idx) => {
                let ghost old_r = self.resident@;
                let slot = PhysicalSlot(idx);
                self.resident.push(ResidentTile { tile, slot, last_used: frame });
                proof {
                    let r = self.resident@;
                    let f = self.free_slots@;
                    assert(f =~= f0.subrange(1, f0.len() as int));
                    assert forall|a: int, b: int| 0 <= a < b < r.len() implies #[trigger] r[a].tile != #[trigger] r[b].tile by {
                        if b < old_r.len() {
                            assert(old_r[a].tile != old_r[b].tile);
                        }
                    }
                    assert forall|a: int, b: int| 0 <= a < b < r.len() implies #[trigger] r[a].slot.0 != #[trigger] r[b].slot.0 by {
                        if b < old_r.len() {
                            assert(old_r[a].slot.0 != old_r[b].slot.0);
                        } else {
                            assert(old_r[a].slot.0 != f0[0]);
                        }
                    }
                    assert forall|a: int, k: int| 0 <= a < r.len() && 0 <= k < f.len() implies #[trigger] r[a].slot.0 != #[trigger] f[k] by {
                        assert(f[k] == f0[k + 1]);
                        if a < old_r.len() {
                            assert(old_r[a].slot.0 != f0[k + 1]);
                        } else {
                            assert(f0[0] != f0[k + 1]);
                        }
                    }
                    assert forall|k: int, l: int| 0 <= k < l < f.len() implies #[trigger] f[k] != #[trigger] f[l] by {
                        assert(f0[k + 1] != f0[l + 1]);
                    }
                    assert forall|a: int| 0 <= a < r.len() implies #[trigger] r[a].slot.0 < self.max_tiles by {
                        if a < old_r.len() {
                            assert(old_r[a].slot.0 < self.max_tiles);
                        } else {
                            assert(f0[0] < self.max_tiles);
                        }
                    }
                    assert forall|k: int| 0 <= k < f.len() implies #[trigger] f[k] < self.max_tiles by {
                        assert(f0[k + 1] < self.max_tiles);
                    }
                    assert(self.wf());
                    self.lemma_map_after_push(old_r, m0);
                }
                slot
            },
            None => {
                // Evict the least recently used tile (lower slot on a tie).
                let n = self.resident.len();
                let mut best: usize = 0;
                let mut k: usize = 1;
                while k < n
                    invariant
                        self.wf(),
                        m0 == self.resident_view(),
                        self.tiles_per_row == old(self).tiles_per_row,
                        self.max_tiles == old(self).max_tiles,
                        self.free_slots@ == f0,
                        f0.len() == 0,
                        forall|a: int| 0 <= a < self.resident@.len() ==> self.resident@[a].tile != tile,
                        n == self.resident@.len(),
                        n > 0,
                        best < n,
                        1 <= k <= n,
                        forall|j: int| 0 <= j < k ==> lru_le(
                            (self.resident@[best as int].slot, self.resident@[best as int].last_used),
                            (#[trigger] self.resident@[j].slot, self.resident@[j].last_used),
                        ),
                    decreases n - k,
                {
                    let cand = self.resident[k];
                    let cur = self.resident[best];
                    if cand.last_used < cur.last_used || (cand.last_used == cur.last_used
                        && cand.slot.0 < cur.slot.0) {
                        best = k;
                    }
                    k = k + 1;
                }
                let victim = self.resident[best];
                let ghost old_r = self.resident@;
                proof {
                    self.lemma_victim(best as int);
                }
                self.resident.set(best, ResidentTile { tile, slot: victim.slot, last_used: frame });
                proof {
                    let r = self.resident@;
                    assert(r == old_r.update(best as int, ResidentTile { tile, slot: victim.slot, last_used: frame }));
                    assert forall|a: int, b: int| 0 <= a < b < r.len() implies #[trigger] r[a].tile != #[trigger] r[b].tile by {
                        if a != best && b != best {
                            assert(old_r[a].tile != old_r[b].tile);
                        }
                    }
                    assert forall|a: int, b: int| 0 <= a < b < r.len() implies #[trigger] r[a].slot.0 != #[trigger] r[b].slot.0 by {
                        assert(old_r[a].slot.0 != old_r[b].slot.0);
                    }
                    assert forall|a: int| 0 <= a < r.len() implies #[trigger] r[a].slot.0 < self.max_tiles by {
                        assert(old_r[a].slot.0 < self.max_tiles);
                    }
                    assert(self.wf());
                    self.lemma_map_after_replace(old_r, m0, best as int, tile);
                }
                victim.slot
            },
        }
    }

    proof fn lemma_map_after_set(&self, old_r: Seq<ResidentTile>, m0: Map<VirtualTileId, Residency>, i: int)
        requires
            self.wf(),
            0 <= i < old_r.len(),
            self.resident@ == old_r.update(i, self.resident@[i]),
            self.resident@[i].tile == old_r[i].tile,
            m0 == entries_map(old_r.map_values(|r: ResidentTile| (r.tile, r.slot, r.last_used))),
            m0.dom().contains(old_r[i].tile),
            m0[old_r[i].tile] == (old_r[i].slot, old_r[i].last_used),
            forall|a: int, b: int| 0 <= a < b < old_r.len() ==> #[trigger] old_r[a].tile != #[trigger] old_r[b].tile,
        ensures
            self.resident_view() == m0.insert(old_r[i].tile, (self.resident@[i].slot, self.resident@[i].last_used)),
    {
        let t = old_r[i].tile;
        let m1 = self.resident_view();
        let target = m0.insert(t, (self.resident@[i].slot, self.resident@[i].last_used));
        let e0 = old_r.map_values(|r: ResidentTile| (r.tile, r.slot, r.last_used));
        assert forall|u: VirtualTileId| #[trigger] m1.dom().contains(u) == target.dom().contains(u) by {
            if m1.dom().contains(u) {
                let a = self.lemma_dom_recorded(u);
                assert(e0[a].0 == u);
            }
            if target.dom().contains(u) && u != t {
                let e = e0;
                let a = choose|a: int| 0 <= a < e.len() && e[a].0 == u;
                assert(self.resident@[a].tile == u);
                self.lemma_record(a);
            }
            if u == t {
                self.lemma_record(i);
            }
        }
        assert forall|u: VirtualTileId| m1.dom().contains(u) implies #[trigger] m1[u] == target[u] by {
            let a = self.lemma_dom_recorded(u);
            self.lemma_record(a);
            if u != t {
                assert(a != i);
                let e = e0;
                assert(e[a].0 == u);
                let b = choose|b: int| 0 <= b < e.len() && e[b].0 == u;
                if b != a {
                    if b < a {
                        assert(old_r[b].tile != old_r[a].tile);
                    } else {
                        assert(old_r[a].tile != old_r[b].tile);
                    }
                }
            }
        }
        assert(m1 =~= target);
    }

    proof fn lemma_map_after_push(&self, old_r: Seq<ResidentTile>, m0: Map<VirtualTileId, Residency>)
        requires
            self.wf(),
            self.resident@.len() == old_r.len() + 1,
            forall|a: int| 0 <= a < old_r.len() ==> self.resident@[a] == old_r[a],
            m0 == entries_map(old_r.map_values(|r: ResidentTile| (r.tile, r.slot, r.last_used))),
        ensures
            self.resident_view() == m0.insert(
                self.resident@.last().tile,
                (self.resident@.last().slot, self.resident@.last().last_used),
            ),
    {
        let n = old_r.len() as int;
        let t = self.resident@[n].tile;
        let m1 = self.resident_view();
        let target = m0.insert(t, (self.resident@[n].slot, self.resident@[n].last_used));
        let e0 = old_r.map_values(|r: ResidentTile| (r.tile, r.slot, r.last_used));
        assert forall|u: VirtualTileId| #[trigger] m1.dom().contains(u) == target.dom().contains(u) by {
            if m1.dom().contains(u) {
                let a = self.lemma_dom_recorded(u);
                if a < n {
                    assert(e0[a].0 == u);
                }
            }
            if target.dom().contains(u) && u != t {
                let a = choose|a: int| 0 <= a < e0.len() && e0[a].0 == u;
                assert(self.resident@[a].tile == u);
                self.lemma_record(a);
            }
            if u == t {
                self.lemma_record(n);
            }
        }
        assert forall|u: VirtualTileId| m1.dom().contains(u) implies #[trigger] m1[u] == target[u] by {
            let a = self.lemma_dom_recorded(u);
            self.lemma_record(a);
            if u != t {
                assert(a != n);
                assert(e0[a].0 == u);
                let b = choose|b: int| 0 <= b < e0.len() && e0[b].0 == u;
                assert(self.resident@[b].tile == u);
                if b != a {
                    if b < a {
                        assert(self.resident@[b].tile != self.resident@[a].tile);
                    } else {
                        assert(self.resident@[a].tile != self.resident@[b].tile);
                    }
                }
            }
        }
        assert(m1 =~= target);
    }

    proof fn lemma_map_after_replace(
        &self,
        old_r: Seq<ResidentTile>,
        m0: Map<VirtualTileId, Residency>,
        i: int,
        tile: VirtualTileId,
    )
        requires
            self.wf(),
            0 <= i < old_r.len(),
            self.resident@ == old_r.update(i, self.resident@[i]),
            self.resident@[i].tile == tile,
            m0 == entries_map(old_r.map_values(|r: ResidentTile| (r.tile, r.slot, r.last_used))),
            m0.dom().contains(old_r[i].tile),
            forall|a: int, b: int| 0 <= a < b < old_r.len() ==> #[trigger] old_r[a].tile != #[trigger] old_r[b].tile,
            forall|a: int| 0 <= a < old_r.len() ==> old_r[a].tile != tile,
        ensures
            self.resident_view() == m0.remove(old_r[i].tile).insert(
                tile,
                (self.resident@[i].slot, self.resident@[i].last_used),
            ),
    {
        let v = old_r[i].tile;
        let m1 = self.resident_view();
        let target = m0.remove(v).insert(tile, (self.resident@[i].slot, self.resident@[i].last_used));
        let e0 = old_r.map_values(|r: ResidentTile| (r.tile, r.slot, r.last_used));
        assert forall|u: VirtualTileId| #[trigger] m1.dom().contains(u) == target.dom().contains(u) by {
            if m1.dom().contains(u) {
                let a = self.lemma_dom_recorded(u);
                if a != i {
                    assert(e0[a].0 == u);
                    if u == v {
                        if a < i {
                            assert(old_r[a].tile != old_r[i].tile);
                        } else {
                            assert(old_r[i].tile != old_r[a].tile);
                        }
                    }
                }
            }
            if target.dom().contains(u) && u != tile {
                let a = choose|a: int| 0 <= a < e0.len() && e0[a].0 == u;
                assert(a != i);
                assert(self.resident@[a].tile == u);
                self.lemma_record(a);
            }
            if u == tile {
                self.lemma_record(i);
            }
        }
        assert forall|u: VirtualTileId| m1.dom().contains(u) implies #[trigger] m1[u] == target[u] by {
            let a = self.lemma_dom_recorded(u);
            self.lemma_record(a);
            if u != tile {
                assert(a != i);
                assert(e0[a].0 == u);
                let b = choose|b: int| 0 <= b < e0.len() && e0[b].0 == u;
                if b != a {
                    if b < a {
                        assert(old_r[b].tile != old_r[a].tile);
                    } else {
                        assert(old_r[a].tile != old_r[b].tile);
                    }
                }
            }
        }
        assert(m1 =~= target);
    }

    proof fn lemma_victim(&self, best: int)
        requires
            self.wf(),
            0 <= best < self.resident@.len(),
            forall|j: int| 0 <= j < self.resident@.len() ==> lru_le(
                (self.resident@[best].slot, self.resident@[best].last_used),
                (#[trigger] self.resident@[j].slot, self.resident@[j].last_used),
            ),
        ensures
            is_lru_victim(self.resident_view(), self.resident@[best].tile),
            lru_victim(self.resident_view()) == self.resident@[best].tile,
            self.resident_view()[self.resident@[best].tile] == (self.resident@[best].slot, self.resident@[best].last_used),
            self.resident_view().dom().contains(self.resident@[best].tile),
    {
        let m = self.resident_view();
        let t = self.resident@[best].tile;
        self.lemma_record(best);
        assert forall|u: VirtualTileId| m.dom().contains(u) implies lru_le(#[trigger] m[t], m[u]) by {
            let a = self.lemma_dom_recorded(u);
            self.lemma_record(a);
        }
        assert(is_lru_victim(m, t));
        let v = lru_victim(m);
        assert(is_lru_victim(m, v));
        let a = self.lemma_dom_recorded(v);
        self.lemma_record(a);
        assert(lru_le(m[t], m[v]) && lru_le(m[v], m[t]));
        if a != best {
            if a < best {
                assert(self.resident@[a].slot.0 != self.resident@[best].slot.0);
            } else {
                assert(self.resident@[best].slot.0 != self.resident@[a].slot.0);
            }
        }
    }

    /// Look up the physical slot of a virtual tile, if it is resident.
    pub fn lookup(&self, tile: &VirtualTileId) -> (slot: Option<PhysicalSlot>)
        requires
            self.wf(),
        ensures
            slot == (if self.resident_view().dom().contains(*tile) {
                Some(self.resident_view()[*tile].0)
            } else {
                None
            }),
    {
        let n = self.resident.len();
        let mut i: usize = 0;
        while i < n
            invariant
                self.wf(),
                n == self.resident@.len(),
                i <= n,
                forall|k: int| 0 <= k < i ==> self.resident@[k].tile != *tile,
            decreases n - i,
        {
            if self.resident[i].tile == *tile {
                proof {
                    self.lemma_record(i as int);
                }
                return Some(self.resident[i].slot);
            }
            i = i + 1;
        }
        proof {
            self.lemma_not_recorded(*tile);
        }
        None
    }

    /// Convert a linear slot index to (tile_x, tile_y) in the pool atlas.
    pub fn slot_to_xy(&self, slot: PhysicalSlot) -> (xy: (u32, u32))
        requires
            self.row_len() > 0,
        ensures
            xy == (slot.0 % self.row_len(), slot.0 / self.row_len()),
    {
        (slot.0 % self.tiles_per_row, slot.0 / self.tiles_per_row)
    }

    /// Number of slots that are currently free.
    pub fn free_slot_count(&self) -> (n: usize)
        ensures
            n == self.free_view().len(),
    {
        self.free_slots.len()
    }
}

/// A resident tile's slot in a pool keeps being the one that `lookup`
/// reports right after it was allocated.
pub proof fn lemma_allocate_then_lookup(
    m: Map<VirtualTileId, Residency>,
    free: Seq<u32>,
    tile: VirtualTileId,
    frame: u64,
)
    requires
        m.dom().contains(tile) || free.len() > 0 || exists|v: VirtualTileId| is_lru_victim(m, v),
    ensures
        allocate_outcome(m, free, tile, frame).0.dom().contains(tile),
        allocate_outcome(m, free, tile, frame).0[tile] == (allocate_outcome(m, free, tile, frame).2, frame),
{
}

/// Two different resident tiles of a consistent pool never share a slot,
/// and every resident slot lies inside the pool.
pub proof fn lemma_resident_slots_distinct(pool: &TilePool, a: VirtualTileId, b: VirtualTileId)
    requires
        pool.wf(),
        pool.resident_view().dom().contains(a),
        pool.resident_view().dom().contains(b),
        a != b,
    ensures
        pool.resident_view()[a].0 != pool.resident_view()[b].0,
        pool.resident_view()[a].0.0 < pool.capacity(),
{
    let i = pool.lemma_dom_recorded(a);
    let j = pool.lemma_dom_recorded(b);
    pool.lemma_record(i);
    pool.lemma_record(j);
    if i < j {
        assert(pool.resident@[i].slot.0 != pool.resident@[j].slot.0);
    } else if j < i {
        assert(pool.resident@[j].slot.0 != pool.resident@[i].slot.0);
    }
}

/// In a consistent pool the atlas is square (`capacity == row * row`),
/// resident tiles and free slots together fill the capacity, so at most
/// `capacity` tiles are resident, and every resident slot lies inside the
/// atlas: its column `s % row` and row `s / row` are below the row length.
pub proof fn lemma_pool_bounds(pool: &TilePool)
    requires
        pool.wf(),
    ensures
        pool.capacity() == pool.row_len() * pool.row_len(),
        pool.resident_view().dom().finite(),
        pool.resident_view().dom().len() + pool.free_view().len() == pool.capacity(),
        pool.resident_view().dom().len() <= pool.capacity(),
        forall|t: VirtualTileId| #[trigger] pool.resident_view().dom().contains(t) ==> {
            let s = pool.resident_view()[t].0.0;
            &&& s < pool.capacity()
            &&& s % pool.row_len() < pool.row_len()
            &&& s / pool.row_len() < pool.row_len()
            &&& (s / pool.row_len()) * pool.row_len() + s % pool.row_len() == s
        },
{
    let r = pool.resident@;
    let keys = r.map_values(|x: ResidentTile| x.tile);
    assert(keys.no_duplicates()) by {
        assert forall|a: int, b: int| 0 <= a < keys.len() && 0 <= b < keys.len() && a != b implies keys[a] != keys[b] by {
            if a < b {
                assert(r[a].tile != r[b].tile);
            } else {
                assert(r[b].tile != r[a].tile);
            }
        }
    }
    keys.unique_seq_to_set();
    assert(pool.resident_view().dom() =~= keys.to_set()) by {
        assert forall|t: VirtualTileId| #[trigger] pool.resident_view().dom().contains(t) == keys.to_set().contains(t) by {
            if pool.resident_view().dom().contains(t) {
                let a = pool.lemma_dom_recorded(t);
                assert(keys[a] == t);
            }
            if keys.to_set().contains(t) {
                assert(keys.contains(t));
                let a = choose|a: int| 0 <= a < keys.len() && keys[a] == t;
                pool.lemma_record(a);
            }
        }
    }
    let row = pool.row_len() as int;
    assert forall|t: VirtualTileId| #[trigger] pool.resident_view().dom().contains(t) implies {
        let s = pool.resident_view()[t].0.0;
        &&& s < pool.capacity()
        &&& s % pool.row_len() < pool.row_len()
        &&& s / pool.row_len() < pool.row_len()
        &&& (s / pool.row_len()) * pool.row_len() + s % pool.row_len() == s
    } by {
        let a = pool.lemma_dom_recorded(t);
        pool.lemma_record(a);
        let s = r[a].slot.0 as int;
        assert(s < row * row);
        assert(row > 0) by (nonlinear_arith)
            requires
                0 <= s < row * row,
                row >= 0,
        ;
        assert(s / row < row) by (nonlinear_arith)
            requires
                0 <= s < row * row,
                row > 0,
        {
            vstd::arithmetic::div_mod::lemma_fundamental_div_mod(s, row);
            assert(s % row >= 0);
        }
        vstd::arithmetic::div_mod::lemma_fundamental_div_mod(s, row);
        assert((s / row) * row == row * (s / row)) by (nonlinear_arith);
    }
}

/// In a consistent pool that has no free slot, some resident tile is the
/// least recently used one, so eviction always has a victim.
pub proof fn lemma_full_pool_has_victim(pool: &TilePool)
    requires
        pool.wf(),
        pool.capacity() > 0,
        pool.free_view().len() == 0,
    ensures
        exists|v: VirtualTileId| is_lru_victim(pool.resident_view(), v),
{
    assert(pool.resident@.len() > 0);
    let best = lemma_min_record(pool, pool.resident@.len() as int);
    pool.lemma_victim(best);
}

proof fn lemma_min_record(pool: &TilePool, k: int) -> (best: int)
    requires
        1 <= k <= pool.resident@.len(),
    ensures
        0 <= best < k,
        forall|j: int| 0 <= j < k ==> lru_le(
            (pool.resident@[best].slot, pool.resident@[best].last_used),
            (#[trigger] pool.resident@[j].slot, pool.resident@[j].last_used),
        ),
    decreases k,
{
    if k == 1 {
        0
    } else {
        let b = lemma_min_record(pool, k - 1);
        let c = pool.resident@[k - 1];
        let cur = pool.resident@[b];
        if c.last_used < cur.last_used || (c.last_used == cur.last_used && c.slot.0 < cur.slot.0) {
            k - 1
        } else {
            b
        }
    }
}

// ---------------------------------------------------------------------------
// Background tile loads
// ---------------------------------------------------------------------------

/// Bookkeeping of background tile loads: which tiles are being loaded and
/// which loads have finished.  The loads themselves run outside.
pub struct TileStreamer {
    /// Tiles that have been requested but not yet loaded (no duplicates).
    pending: Vec<VirtualTileId>,
    /// Completed loads ready to be uploaded, oldest first.
    completed: Vec<(VirtualTileId, Vec<u8>)>,
    /// Base directory containing the virtual texture tile files.
    base_path: PathBuf,
}

/// File name of a tile: `tile_<x>_<y>_m<mip>.raw`.
pub open spec fn spec_tile_file_name(tile: VirtualTileId) -> Seq<char> {
    seq!['t', 'i', 'l', 'e', '_'] + spec_decimal(tile.x as nat) + seq!['_'] + spec_decimal(tile.y as nat)
        + seq!['_', 'm'] + spec_decimal(tile.mip as nat) + seq!['.', 'r', 'a', 'w']
}

/// Bytes of one RGBA8 tile.
pub open spec fn tile_byte_len() -> nat {
    (SVT_TILE_SIZE * SVT_TILE_SIZE * 4) as nat
}

impl TileStreamer {
    /// Tiles whose load was requested and has not finished.
    pub closed spec fn pending_view(&self) -> Set<VirtualTileId> {
        Set::new(|t: VirtualTileId| self.pending@.contains(t))
    }

    /// Finished loads, oldest first.
    pub closed spec fn completed_view(&self) -> Seq<(VirtualTileId, Vec<u8>)> {
        self.completed@
    }

    /// The directory the tile files are read from.
    pub closed spec fn base_path_view(&self) -> PathBuf {
        self.base_path
    }

    pub fn new(base_path: PathBuf) -> (s: Self)
        ensures
            s.pending_view() == Set::<VirtualTileId>::empty(),
            s.completed_view() == Seq::<(VirtualTileId, Vec<u8>)>::empty(),
            s.base_path_view() == base_path,
    {
        let s = TileStreamer { pending: Vec::new(), completed: Vec::new(), base_path };
        assert(s.pending_view() =~= Set::<VirtualTileId>::empty());
        s
    }

    /// The directory the tile files are read from.
    pub fn base_path(&self) -> (p: &PathBuf)
        ensures
            *p == self.base_path_view(),
    {
        &self.base_path
    }

    /// Record a request for `tile`.  Returns `true` when a background load
    /// must be started, that is when the tile was not already pending.
    pub fn request(&mut self, tile: VirtualTileId) -> (start: bool)
        ensures
            start == !old(self).pending_view().contains(tile),
            final(self).pending_view() == old(self).pending_view().insert(tile),
            final(self).completed_view() == old(self).completed_view(),
            final(self).base_path_view() == old(self).base_path_view(),
    {
        let n = self.pending.len();
        let mut i: usize = 0;
        while i < n
            invariant
                *self == *old(self),
                n == self.pending@.len(),
                i <= n,
                forall|k: int| 0 <= k < i ==> self.pending@[k] != tile,
            decreases n - i,
        {
            if self.pending[i] == tile {
                proof {
                    assert(self.pending@.contains(tile));
                    assert(self.pending_view() =~= old(self).pending_view().insert(tile));
                }
                return false;
            }
            i = i + 1;
        }
        self.pending.push(tile);
        proof {
            assert(!old(self).pending@.contains(tile));
            assert forall|t: VirtualTileId| #[trigger] self.pending@.contains(t) == (old(self).pending@.contains(t) || t == tile) by {
                if self.pending@.contains(t) {
                    let k = choose|k: int| 0 <= k < self.pending@.len() && self.pending@[k] == t;
                    if k < old(self).pending@.len() {
                        assert(old(self).pending@[k] == t);
                    }
                }
                if old(self).pending@.contains(t) {
                    let k = choose|k: int| 0 <= k < old(self).pending@.len() && old(self).pending@[k] == t;
                    assert(self.pending@[k] == t);
                }
                if t == tile {
                    assert(self.pending@[n as int] == t);
                }
            }
            assert(self.pending_view() =~= old(self).pending_view().insert(tile));
        }
        true
    }

    /// Record that the load of `tile` finished with `data`: the result is
    /// queued for upload and the tile is no longer pending.
    pub fn complete(&mut self, tile: VirtualTileId, data: Vec<u8>)
        ensures
            final(self).pending_view() == old(self).pending_view().remove(tile),
            final(self).completed_view() == old(self).completed_view().push((tile, data)),
            final(self).base_path_view() == old(self).base_path_view(),
    {
        self.completed.push((tile, data));
        let mut kept: Vec<VirtualTileId> = Vec::new();
        let n = self.pending.len();
        let mut i: usize = 0;
        while i < n
            invariant
                n == self.pending@.len(),
                self.pending@ == old(self).pending@,
                i <= n,
                forall|x: VirtualTileId| #[trigger] kept@.contains(x) ==> x != tile && self.pending@.subrange(0, i as int).contains(x),
                forall|x: VirtualTileId| #[trigger] self.pending@.subrange(0, i as int).contains(x) && x != tile ==> kept@.contains(x),
            decreases n - i,
        {
            let t = self.pending[i];
            let ghost before = kept@;
            let ghost pre = self.pending@.subrange(0, i as int);
            let ghost post = self.pending@.subrange(0, i as int + 1);
            if t != tile {
                kept.push(t);
            }
            proof {
                assert(post =~= pre.push(t));
                assert forall|x: VirtualTileId| #[trigger] kept@.contains(x) implies x != tile && post.contains(x) by {
                    let j = choose|j: int| 0 <= j < kept@.len() && kept@[j] == x;
                    if j < before.len() {
                        assert(before[j] == x);
                        assert(before.contains(x));
                        let k = choose|k: int| 0 <= k < pre.len() && pre[k] == x;
                        assert(post[k] == x);
                    } else {
                        assert(post[i as int] == x);
                    }
                }
                assert forall|x: VirtualTileId| #[trigger] post.contains(x) && x != tile implies kept@.contains(x) by {
                    let k = choose|k: int| 0 <= k < post.len() && post[k] == x;
                    if k < i {
                        assert(pre[k] == x);
                        assert(pre.contains(x));
                        let j = choose|j: int| 0 <= j < before.len() && before[j] == x;
                        assert(kept@[j] == x);
                    } else {
                        assert(kept@[kept@.len() - 1] == x);
                    }
                }
            }
            i = i + 1;
        }
        proof {
            assert(self.pending@.subrange(0, n as int) =~= self.pending@);
        }
        self.pending = kept;
        proof {
            assert forall|u: VirtualTileId| #[trigger] self.pending_view().contains(u) == old(self).pending_view().remove(tile).contains(u) by {
                if old(self).pending@.contains(u) && u != tile {
                    let k = choose|k: int| 0 <= k < old(self).pending@.len() && old(self).pending@[k] == u;
                    assert(old(self).pending@[k] == u);
                }
            }
            assert(self.pending_view() =~= old(self).pending_view().remove(tile));
        }
    }

    /// Take all completed loads, oldest first.
    pub fn drain_completed(&mut self) -> (done: Vec<(VirtualTileId, Vec<u8>)>)
        ensures
            done@ == old(self).completed_view(),
            final(self).completed_view() == Seq::<(VirtualTileId, Vec<u8>)>::empty(),
            final(self).pending_view() == old(self).pending_view(),
            final(self).base_path_view() == old(self).base_path_view(),
    {
        let mut done: Vec<(VirtualTileId, Vec<u8>)> = Vec::new();
        std::mem::swap(&mut done, &mut self.completed);
        done
    }

    /// File name of the tile within the base directory.
    pub fn tile_file_name(tile: VirtualTileId) -> (name: String)
        ensures
            name@ == spec_tile_file_name(tile),
    {
        let mut s = String::new();
        s.append("tile_");
        push_u32(&mut s, tile.x);
        s.append("_");
        push_u32(&mut s, tile.y);
        s.append("_m");
        push_u32(&mut s, tile.mip);
        s.append(".raw");
        proof {
            reveal_strlit("tile_");
            reveal_strlit("_");
            reveal_strlit("_m");
            reveal_strlit(".raw");
            assert(s@ =~= spec_tile_file_name(tile));
        }
        s
    }

    /// Solid mid-grey RGBA tile used when a tile file cannot be read.
    pub fn placeholder_tile() -> (data: Vec<u8>)
        ensures
            data@.len() == tile_byte_len(),
            forall|i: int| 0 <= i < data@.len() ==> data@[i] == 128u8,
    {
        let n: usize = (SVT_TILE_SIZE * SVT_TILE_SIZE * 4) as usize;
        let mut v: Vec<u8> = Vec::with_capacity(n);
        let mut i: usize = 0;
        while i < n
            invariant
                i <= n,
                n == tile_byte_len(),
                v@.len() == i,
                forall|k: int| 0 <= k < i ==> v@[k] == 128u8,
            decreases n - i,
        {
            v.push(128u8);
            i = i + 1;
        }
        v
    }
}

// ---------------------------------------------------------------------------
// SVT system
// ---------------------------------------------------------------------------

/// Central sparse virtual texture manager.
///
/// Each frame: `process_feedback` with the visible tiles (the caller starts
/// the loads it returns), `upload_ready_tiles` once loads have completed,
/// then `build_page_table`.
pub struct SvtSystem {
    pub pool: TilePool,
    pub streamer: TileStreamer,
    /// Current frame number (for LRU tracking).
    pub frame: u64,
    /// Virtual texture dimensions in tiles per axis at mip 0.
    pub virtual_tiles_x: u32,
    pub virtual_tiles_y: u32,
}

/// `ceil(a / b)`.
pub open spec fn div_ceil(a: int, b: int) -> int {
    (a + b - 1) / b
}

fn div_ceil_u32(a: u32, b: u32) -> (r: u32)
    requires
        b > 0,
    ensures
        r == div_ceil(a as int, b as int),
{
    let q = a / b;
    proof {
        assert(q * b <= a) by (nonlinear_arith)
            requires b > 0, q == a / b;
        if a % b != 0 {
            assert(b >= 2);
            assert(q < u32::MAX) by (nonlinear_arith)
                requires q * b <= a, b >= 2, a <= u32::MAX;
        }
    }
    let r = if a % b != 0 { q + 1 } else { q };
    proof {
        assert((a as int) == (a as int / b as int) * (b as int) + (a as int % b as int)) by (nonlinear_arith)
            requires b > 0;
        assert(div_ceil(a as int, b as int) == r) by (nonlinear_arith)
            requires
                b > 0,
                (a as int) == q * (b as int) + (a as int % b as int),
                0 <= (a as int % b as int) < b,
                r == (if a as int % b as int != 0 { q + 1 } else { q as int }),
        {
            let m = a as int % b as int;
            if m != 0 {
                assert((a + b - 1) == (q + 1) * b + (m - 1));
                assert(0 <= m - 1 < b);
            } else {
                assert((a + b - 1) == q * b + (b - 1));
            }
        }
    }
    r
}

/// State of the feedback processing: residency map, pending set and the
/// tiles whose load was started, in order.
pub open spec fn feedback_outcome(
    m: Map<VirtualTileId, Residency>,
    pending: Set<VirtualTileId>,
    frame: u64,
    fb: Seq<FeedbackEntry>,
) -> (Map<VirtualTileId, Residency>, Set<VirtualTileId>, Seq<VirtualTileId>)
    decreases fb.len(),
{
    if fb.len() == 0 {
        (m, pending, Seq::empty())
    } else {
        let (m1, p1, r1) = feedback_outcome(m, pending, frame, fb.drop_last());
        let t = fb.last().tile;
        if m1.dom().contains(t) {
            (m1.insert(t, (m1[t].0, frame)), p1, r1)
        } else if p1.contains(t) {
            (m1, p1, r1)
        } else {
            (m1, p1.insert(t), r1.push(t))
        }
    }
}

/// Some entry of the feedback names tile `t`.
pub open spec fn names_tile(fb: Seq<FeedbackEntry>, t: VirtualTileId) -> bool {
    exists|i: int| 0 <= i < fb.len() && fb[i].tile == t
}

proof fn lemma_names_tile_last(fb: Seq<FeedbackEntry>, t: VirtualTileId)
    requires
        fb.len() > 0,
    ensures
        names_tile(fb, t) <==> (names_tile(fb.drop_last(), t) || fb.last().tile == t),
{
    if names_tile(fb, t) && fb.last().tile != t {
        let i = choose|i: int| 0 <= i < fb.len() && fb[i].tile == t;
        assert(fb.drop_last()[i].tile == t);
    }
    if names_tile(fb.drop_last(), t) {
        let i = choose|i: int| 0 <= i < fb.len() - 1 && fb.drop_last()[i].tile == t;
        assert(fb[i].tile == t);
    }
    if fb.last().tile == t {
        assert(fb[fb.len() - 1].tile == t);
    }
}

/// Feedback never makes a tile resident nor evicts one, and no slot moves:
/// a resident tile that the feedback names is marked used in `frame`, any
/// other keeps its frame.  A named tile that is not resident becomes
/// pending, and the loads that start are those of the named tiles that
/// were neither resident nor pending, each once.
pub proof fn lemma_feedback_outcome(
    m: Map<VirtualTileId, Residency>,
    pending: Set<VirtualTileId>,
    frame: u64,
    fb: Seq<FeedbackEntry>,
)
    ensures
        feedback_outcome(m, pending, frame, fb).0.dom() == m.dom(),
        forall|t: VirtualTileId| #[trigger] m.dom().contains(t) ==> feedback_outcome(m, pending, frame, fb).0[t] == (
        m[t].0, if names_tile(fb, t) {
            frame
        } else {
            m[t].1
        }),
        forall|t: VirtualTileId| #[trigger] feedback_outcome(m, pending, frame, fb).1.contains(t) <==> (pending.contains(t) || (
        names_tile(fb, t) && !m.dom().contains(t))),
        forall|t: VirtualTileId| #[trigger] feedback_outcome(m, pending, frame, fb).2.contains(t) <==> (names_tile(fb, t)
            && !m.dom().contains(t) && !pending.contains(t)),
        feedback_outcome(m, pending, frame, fb).2.no_duplicates(),
    decreases fb.len(),
{
    if fb.len() > 0 {
        let fb1 = fb.drop_last();
        lemma_feedback_outcome(m, pending, frame, fb1);
        let (m1, p1, r1) = feedback_outcome(m, pending, frame, fb1);
        let l = fb.last().tile;
        let out = feedback_outcome(m, pending, frame, fb);
        assert forall|t: VirtualTileId| true implies (names_tile(fb, t) <==> (names_tile(fb1, t) || l == t)) by {
            lemma_names_tile_last(fb, t);
        }
        if m1.dom().contains(l) {
            assert(out.0.dom() =~= m.dom());
        } else if p1.contains(l) {
        } else {
            assert(!r1.contains(l));
            assert forall|t: VirtualTileId| #[trigger] out.2.contains(t) <==> (r1.contains(t) || t == l) by {
                if out.2.contains(t) && t != l {
                    let k = choose|k: int| 0 <= k < out.2.len() && out.2[k] == t;
                    assert(r1[k] == t);
                }
                if r1.contains(t) {
                    let k = choose|k: int| 0 <= k < r1.len() && r1[k] == t;
                    assert(out.2[k] == t);
                }
                if t == l {
                    assert(out.2[r1.len() as int] == l);
                }
            }
            assert forall|i: int, j: int| 0 <= i < j < out.2.len() implies out.2[i] != out.2[j] by {
                if j == r1.len() {
                    assert(r1[i] == out.2[i]);
                    assert(r1.contains(out.2[i]));
                }
            }
        }
    }
}

/// Pool state after allocating the tiles of `tiles` in order, and the slots
/// they were given.
pub open spec fn upload_outcome(
    m: Map<VirtualTileId, Residency>,
    free: Seq<u32>,
    frame: u64,
    tiles: Seq<VirtualTileId>,
) -> (Map<VirtualTileId, Residency>, Seq<u32>, Seq<PhysicalSlot>)
    decreases tiles.len(),
{
    if tiles.len() == 0 {
        (m, free, Seq::empty())
    } else {
        let (m1, f1, s1) = upload_outcome(m, free, frame, tiles.drop_last());
        let (m2, f2, slot) = allocate_outcome(m1, f1, tiles.last(), frame);
        (m2, f2, s1.push(slot))
    }
}

/// Page-table entry of a resident slot in a pool `row` tiles wide.
pub open spec fn resident_entry(slot: PhysicalSlot, row: u32) -> (u32, u32, u32, u32) {
    ((slot.0 % row) as u32, (slot.0 / row) as u32, 1u32, 0u32)
}

/// The virtual tile that page-table index `k` stands for: the mip-0 tile
/// at column `k % tiles_x` and row `k / tiles_x`.
pub open spec fn page_tile(k: int, tiles_x: u32) -> VirtualTileId {
    VirtualTileId { mip: 0, x: (k % tiles_x as int) as u32, y: (k / tiles_x as int) as u32 }
}

/// A tile that has an entry in the page table: mip 0, inside the
/// `tiles_x x tiles_y` virtual extent.
pub open spec fn on_page(t: VirtualTileId, tiles_x: u32, tiles_y: u32) -> bool {
    t.mip == 0 && t.x < tiles_x && t.y < tiles_y
}

/// What the page-table entry at index `k` holds for residency map `m`:
/// the slot of its virtual tile if that tile is resident, otherwise an
/// empty entry.
pub open spec fn page_entry_ok(
    e: PageTableEntry,
    k: int,
    m: Map<VirtualTileId, Residency>,
    tiles_x: u32,
    row: u32,
) -> bool {
    if m.dom().contains(page_tile(k, tiles_x)) {
        (e.phys_x, e.phys_y, e.resident, e._pad) == resident_entry(m[page_tile(k, tiles_x)].0, row)
    } else {
        e.phys_x == 0 && e.phys_y == 0 && e.resident == 0 && e._pad == 0
    }
}

proof fn lemma_page_index_inverse(t: VirtualTileId, tiles_x: u32, tiles_y: u32, k: int)
    requires
        on_page(t, tiles_x, tiles_y),
        page_index(t, tiles_x) == k,
    ensures
        page_tile(k, tiles_x) == t,
        0 <= k < tiles_x * tiles_y,
{
    vstd::arithmetic::div_mod::lemma_fundamental_div_mod_converse(k, tiles_x as int, t.y as int, t.x as int);
    let (x, y, vx, vy) = (t.x as int, t.y as int, tiles_x as int, tiles_y as int);
    assert(0 <= y * vx + x < vx * vy) by (nonlinear_arith)
        requires
            0 <= x < vx,
            0 <= y < vy,
    ;
}

proof fn lemma_page_tile_on_page(k: int, tiles_x: u32, tiles_y: u32)
    requires
        0 <= k < tiles_x * tiles_y,
    ensures
        on_page(page_tile(k, tiles_x), tiles_x, tiles_y),
        page_index(page_tile(k, tiles_x), tiles_x) == k,
{
    let vx = tiles_x as int;
    let vy = tiles_y as int;
    assert(vx > 0) by (nonlinear_arith)
        requires
            0 <= k < vx * vy,
            vy >= 0,
    ;
    vstd::arithmetic::div_mod::lemma_fundamental_div_mod(k, vx);
    let q = k / vx;
    let r = k % vx;
    assert(0 <= r < vx);
    assert(0 <= q < vy) by (nonlinear_arith)
        requires
            k == vx * q + r,
            0 <= r < vx,
            0 <= k < vx * vy,
            vx > 0,
    ;
    assert(q * vx == vx * q) by (nonlinear_arith);
}

/// Index of a mip-0 tile in the page table.
pub open spec fn page_index(t: VirtualTileId, tiles_x: u32) -> int {
    t.y * tiles_x + t.x
}

/// Number of mip levels of a `w x h` texture: `floor(log2(max(w, h))) + 1`,
/// and 1 for an empty texture.
pub open spec fn spec_mip_levels(w: u32, h: u32) -> u32 {
    let m = if w >= h { w } else { h };
    (ilog2(m as nat) + 1) as u32
}

/// `floor(log2(n))`, and 0 for `n <= 1`.
pub open spec fn ilog2(n: nat) -> nat
    decreases n,
{
    if n <= 1 {
        0
    } else {
        ilog2(n / 2) + 1
    }
}

impl SvtSystem {
    /// Consistency of the pool.
    pub open spec fn wf(&self) -> bool {
        &&& self.pool.wf()
        &&& self.pool.capacity() > 0
    }

    pub fn new(
        virtual_width: u32,
        virtual_height: u32,
        tile_base_path: PathBuf,
        max_physical_tiles: Option<u32>,
    ) -> (s: Self)
        requires
            match max_physical_tiles {
                Some(n) => n <= 65535 * 65535,
                None => true,
            },
        ensures
            s.pool.wf(),
            is_ceil_sqrt(
                (match max_physical_tiles {
                    Some(n) => n,
                    None => DEFAULT_MAX_PHYSICAL_TILES,
                }) as int,
                s.pool.row_len() as int,
            ),
            s.pool.capacity() == s.pool.row_len() * s.pool.row_len(),
            s.pool.resident_view() == Map::<VirtualTileId, Residency>::empty(),
            s.pool.free_view() == Seq::new(s.pool.capacity() as nat, |i: int| i as u32),
            s.streamer.pending_view() == Set::<VirtualTileId>::empty(),
            s.streamer.completed_view() == Seq::<(VirtualTileId, Vec<u8>)>::empty(),
            s.streamer.base_path_view() == tile_base_path,
            s.frame == 0,
            s.virtual_tiles_x == div_ceil(virtual_width as int, SVT_TILE_SIZE as int),
            s.virtual_tiles_y == div_ceil(virtual_height as int, SVT_TILE_SIZE as int),
    {
        let max_tiles = match max_physical_tiles {
            Some(n) => n,
            None => DEFAULT_MAX_PHYSICAL_TILES,
        };
        SvtSystem {
            pool: TilePool::new(max_tiles),
            streamer: TileStreamer::new(tile_base_path),
            frame: 0,
            virtual_tiles_x: div_ceil_u32(virtual_width, SVT_TILE_SIZE),
            virtual_tiles_y: div_ceil_u32(virtual_height, SVT_TILE_SIZE),
        }
    }

    /// Process GPU feedback: every resident visible tile is marked used in
    /// the current frame, every other visible tile is requested.  Returns
    /// the tiles whose background load the caller must start (each tile at
    /// most once, and none that was already pending).
    pub fn process_feedback(&mut self, feedback: &[FeedbackEntry]) -> (to_load: Vec<VirtualTileId>)
        requires
            old(self).wf(),
        ensures
            final(self).wf(),
            final(self).frame == old(self).frame,
            final(self).virtual_tiles_x == old(self).virtual_tiles_x,
            final(self).virtual_tiles_y == old(self).virtual_tiles_y,
            final(self).pool.row_len() == old(self).pool.row_len(),
            final(self).pool.free_view() == old(self).pool.free_view(),
            final(self).streamer.completed_view() == old(self).streamer.completed_view(),
            final(self).streamer.base_path_view() == old(self).streamer.base_path_view(),
            (final(self).pool.resident_view(), final(self).streamer.pending_view(), to_load@)
                == feedback_outcome(
                old(self).pool.resident_view(),
                old(self).streamer.pending_view(),
                old(self).frame,
                feedback@,
            ),
    {
        let mut to_load: Vec<VirtualTileId> = Vec::new();
        let n = feedback.len();
        let mut i: usize = 0;
        while i < n
            invariant
                self.wf(),
                n == feedback@.len(),
                i <= n,
                self.frame == old(self).frame,
                self.virtual_tiles_x == old(self).virtual_tiles_x,
                self.virtual_tiles_y == old(self).virtual_tiles_y,
                self.pool.row_len() == old(self).pool.row_len(),
                self.pool.capacity() == old(self).pool.capacity(),
                self.pool.free_view() == old(self).pool.free_view(),
                self.streamer.completed_view() == old(self).streamer.completed_view(),
                self.streamer.base_path_view() == old(self).streamer.base_path_view(),
                (self.pool.resident_view(), self.streamer.pending_view(), to_load@) == feedback_outcome(
                    old(self).pool.resident_view(),
                    old(self).streamer.pending_view(),
                    old(self).frame,
                    feedback@.subrange(0, i as int),
                ),
            decreases n - i,
        {
            let tile = feedback[i].tile;
            proof {
                assert(feedback@.subrange(0, i as int + 1).drop_last() =~= feedback@.subrange(0, i as int));
            }
            if self.pool.lookup(&tile).is_none() {
                if self.streamer.request(tile) {
                    to_load.push(tile);
                }
            } else {
                self.pool.allocate(tile, self.frame);
            }
            i = i + 1;
        }
        proof {
            assert(feedback@.subrange(0, n as int) =~= feedback@);
        }
        to_load
    }

    /// Take the completed loads and give each a physical slot (evicting as
    /// needed).  Returns (virtual tile, slot, RGBA data) for each, in order,
    /// for the caller to write into the pool atlas.
    pub fn upload_ready_tiles(&mut self) -> (uploads: Vec<(VirtualTileId, PhysicalSlot, Vec<u8>)>)
        requires
            old(self).wf(),
        ensures
            final(self).wf(),
            final(self).frame == old(self).frame,
            final(self).virtual_tiles_x == old(self).virtual_tiles_x,
            final(self).virtual_tiles_y == old(self).virtual_tiles_y,
            final(self).pool.row_len() == old(self).pool.row_len(),
            final(self).streamer.completed_view() == Seq::<(VirtualTileId, Vec<u8>)>::empty(),
            final(self).streamer.pending_view() == old(self).streamer.pending_view(),
            final(self).streamer.base_path_view() == old(self).streamer.base_path_view(),
            uploads@.len() == old(self).streamer.completed_view().len(),
            forall|k: int| 0 <= k < uploads@.len() ==> (#[trigger] uploads@[k]).0 == old(self).streamer.completed_view()[k].0
                && uploads@[k].2 == old(self).streamer.completed_view()[k].1,
            ({
                let tiles = old(self).streamer.completed_view().map_values(|c: (VirtualTileId, Vec<u8>)| c.0);
                let out = upload_outcome(old(self).pool.resident_view(), old(self).pool.free_view(), old(self).frame, tiles);
                &&& final(self).pool.resident_view() == out.0
                &&& final(self).pool.free_view() == out.1
                &&& uploads@.map_values(|u: (VirtualTileId, PhysicalSlot, Vec<u8>)| u.1) == out.2
            }),
            uploads@.len() > 0 ==> {
                let last = uploads@[uploads@.len() - 1];
                &&& final(self).pool.resident_view().dom().contains(last.0)
                &&& final(self).pool.resident_view()[last.0] == (last.1, old(self).frame)
            },
    {
        let completed = self.streamer.drain_completed();
        let ghost tiles = completed@.map_values(|c: (VirtualTileId, Vec<u8>)| c.0);
        let n = completed.len();
        let mut uploads: Vec<(VirtualTileId, PhysicalSlot, Vec<u8>)> = Vec::with_capacity(n);
        let mut source = completed;
        let mut rest: Vec<(VirtualTileId, Vec<u8>)> = Vec::with_capacity(n);
        while source.len() > 0
            invariant
                n == old(self).streamer.completed_view().len(),
                source@.len() + rest@.len() == n,
                forall|k: int| 0 <= k < source@.len() ==> #[trigger] source@[k] == old(self).streamer.completed_view()[k],
                forall|k: int| 0 <= k < rest@.len() ==> #[trigger] rest@[k] == old(self).streamer.completed_view()[n - 1 - k],
            decreases source@.len(),
        {
            let item = source.pop();
            match item {
                Some(x) => rest.push(x),
                None => {},
            }
        }
        let mut i: usize = 0;
        while i < n
            invariant
                self.wf(),
                n == tiles.len(),
                i <= n,
                rest@.len() == n - i,
                forall|k: int| 0 <= k < rest@.len() ==> #[trigger] rest@[k] == old(self).streamer.completed_view()[n - 1 - k],
                tiles == old(self).streamer.completed_view().map_values(|c: (VirtualTileId, Vec<u8>)| c.0),
                n == old(self).streamer.completed_view().len(),
                self.frame == old(self).frame,
                self.virtual_tiles_x == old(self).virtual_tiles_x,
                self.virtual_tiles_y == old(self).virtual_tiles_y,
                self.pool.row_len() == old(self).pool.row_len(),
                self.pool.capacity() == old(self).pool.capacity(),
                self.streamer.completed_view() == Seq::<(VirtualTileId, Vec<u8>)>::empty(),
                self.streamer.pending_view() == old(self).streamer.pending_view(),
                self.streamer.base_path_view() == old(self).streamer.base_path_view(),
                uploads@.len() == i,
                forall|k: int| 0 <= k < i ==> (#[trigger] uploads@[k]).0 == old(self).streamer.completed_view()[k].0
                    && uploads@[k].2 == old(self).streamer.completed_view()[k].1,
                ({
                    let out = upload_outcome(
                        old(self).pool.resident_view(),
                        old(self).pool.free_view(),
                        old(self).frame,
                        tiles.subrange(0, i as int),
                    );
                    &&& self.pool.resident_view() == out.0
                    &&& self.pool.free_view() == out.1
                    &&& uploads@.map_values(|u: (VirtualTileId, PhysicalSlot, Vec<u8>)| u.1) == out.2
                }),
                i > 0 ==> {
                    let last = uploads@[i - 1];
                    &&& self.pool.resident_view().dom().contains(last.0)
                    &&& self.pool.resident_view()[last.0] == (last.1, old(self).frame)
                },
            decreases n - i,
        {
            let item = rest.pop();
            match item {
                Some((tile, data)) => {
                    proof {
                        assert(tiles.subrange(0, i as int + 1).drop_last() =~= tiles.subrange(0, i as int));
                        assert(tiles.subrange(0, i as int + 1).last() == tile);
                    }
                    let ghost before = uploads@;
                    proof {
                        if self.pool.free_view().len() == 0 {
                            lemma_full_pool_has_victim(&self.pool);
                        }
                        lemma_allocate_then_lookup(self.pool.resident_view(), self.pool.free_view(), tile, self.frame);
                    }
                    let slot = self.pool.allocate(tile, self.frame);
                    uploads.push((tile, slot, data));
                    proof {
                        assert(uploads@.map_values(|u: (VirtualTileId, PhysicalSlot, Vec<u8>)| u.1)
                            =~= before.map_values(|u: (VirtualTileId, PhysicalSlot, Vec<u8>)| u.1).push(slot));
                    }
                },
                None => {
                    assert(false);
                },
            }
            i = i + 1;
        }
        proof {
            assert(tiles.subrange(0, n as int) =~= tiles);
        }
        uploads
    }

    /// Build the page table: one entry per mip-0 virtual tile, resident
    /// ones pointing at their slot in the pool atlas (tiles outside the
    /// virtual extent have no entry).
    pub fn build_page_table(&self) -> (table: Vec<PageTableEntry>)
        requires
            self.wf(),
            self.virtual_tiles_x * self.virtual_tiles_y <= u32::MAX,
        ensures
            table@.len() == self.virtual_tiles_x * self.virtual_tiles_y,
            forall|k: int| 0 <= k < table@.len() ==> page_entry_ok(
                #[trigger] table@[k],
                k,
                self.pool.resident_view(),
                self.virtual_tiles_x,
                self.pool.row_len(),
            ),
    {
        let count: usize = (self.virtual_tiles_x * self.virtual_tiles_y) as usize;
        let ghost vx = self.virtual_tiles_x;
        let ghost vy = self.virtual_tiles_y;
        let mut table: Vec<PageTableEntry> = Vec::with_capacity(count);
        let mut i: usize = 0;
        while i < count
            invariant
                i <= count,
                table@.len() == i,
                forall|k: int| 0 <= k < i ==> #[trigger] table@[k].resident == 0 && table@[k].phys_x == 0
                    && table@[k].phys_y == 0 && table@[k]._pad == 0,
            decreases count - i,
        {
            table.push(PageTableEntry::default());
            i = i + 1;
        }
        assert forall|k: int| 0 <= k < table@.len() implies {
            let e = #[trigger] table@[k];
            e.phys_x == 0 && e.phys_y == 0 && e.resident == 0 && e._pad == 0
        } by {
            assert(table@[k].resident == 0);
        }
        let ghost m = self.pool.resident_view();
        let n = self.pool.resident.len();
        let mut j: usize = 0;
        while j < n
            invariant
                self.wf(),
                vx * vy <= u32::MAX,
                m == self.pool.resident_view(),
                n == self.pool.resident@.len(),
                j <= n,
                table@.len() == count,
                vx == self.virtual_tiles_x,
                vy == self.virtual_tiles_y,
                count == vx * vy,
                forall|k: int| 0 <= k < table@.len() ==> {
                    let e = #[trigger] table@[k];
                    if exists|a: int| 0 <= a < j && on_page(self.pool.resident@[a].tile, vx, vy)
                        && page_index(self.pool.resident@[a].tile, vx) == k {
                        exists|a: int| 0 <= a < j && #[trigger] on_page(self.pool.resident@[a].tile, vx, vy)
                            && page_index(self.pool.resident@[a].tile, vx) == k
                            && (e.phys_x, e.phys_y, e.resident, e._pad) == resident_entry(
                                self.pool.resident@[a].slot,
                                self.pool.row_len(),
                            )
                    } else {
                        e.phys_x == 0 && e.phys_y == 0 && e.resident == 0 && e._pad == 0
                    }
                },
            decreases n - j,
        {
            let r = self.pool.resident[j];
            let ghost before = table@;
            proof {
                self.pool.lemma_record(j as int);
            }
            if r.tile.mip == 0 && r.tile.x < self.virtual_tiles_x && r.tile.y < self.virtual_tiles_y {
                proof {
                    lemma_page_index_inverse(r.tile, vx, vy, page_index(r.tile, vx));
                    assert(r.tile.y * vx <= page_index(r.tile, vx));
                }
                let idx: u32 = r.tile.y * self.virtual_tiles_x + r.tile.x;
                let (px, py) = self.pool.slot_to_xy(r.slot);
                table.set(idx as usize, PageTableEntry { phys_x: px, phys_y: py, resident: 1, _pad: 0 });
            }
            proof {
                assert forall|k: int| 0 <= k < table@.len() implies {
                    let e = #[trigger] table@[k];
                    if exists|a: int| 0 <= a < j + 1 && on_page(self.pool.resident@[a].tile, vx, vy)
                        && page_index(self.pool.resident@[a].tile, vx) == k {
                        exists|a: int| 0 <= a < j + 1 && #[trigger] on_page(self.pool.resident@[a].tile, vx, vy)
                            && page_index(self.pool.resident@[a].tile, vx) == k
                            && (e.phys_x, e.phys_y, e.resident, e._pad) == resident_entry(
                                self.pool.resident@[a].slot,
                                self.pool.row_len(),
                            )
                    } else {
                        e.phys_x == 0 && e.phys_y == 0 && e.resident == 0 && e._pad == 0
                    }
                } by {
                    let hit = on_page(r.tile, vx, vy) && page_index(r.tile, vx) == k;
                    if hit {
                        assert(on_page(self.pool.resident@[j as int].tile, vx, vy));
                    } else {
                        assert(table@[k] == before[k]);
                        if exists|a: int| 0 <= a < j + 1 && on_page(self.pool.resident@[a].tile, vx, vy)
                            && page_index(self.pool.resident@[a].tile, vx) == k {
                            let a = choose|a: int| 0 <= a < j + 1 && on_page(self.pool.resident@[a].tile, vx, vy)
                                && page_index(self.pool.resident@[a].tile, vx) == k;
                            assert(a != j);
                        }
                    }
                }
            }
            j = j + 1;
        }
        proof {
            assert forall|k: int| 0 <= k < table@.len() implies page_entry_ok(
                #[trigger] table@[k],
                k,
                m,
                vx,
                self.pool.row_len(),
            ) by {
                let tk = page_tile(k, vx);
                lemma_page_tile_on_page(k, vx, vy);
                if m.dom().contains(tk) {
                    let a0 = self.pool.lemma_dom_recorded(tk);
                    assert(on_page(self.pool.resident@[a0].tile, vx, vy));
                    let a = choose|a: int| 0 <= a < n && #[trigger] on_page(self.pool.resident@[a].tile, vx, vy)
                        && page_index(self.pool.resident@[a].tile, vx) == k
                        && (table@[k].phys_x, table@[k].phys_y, table@[k].resident, table@[k]._pad) == resident_entry(
                            self.pool.resident@[a].slot,
                            self.pool.row_len(),
                        );
                    self.pool.lemma_record(a);
                    let t2 = self.pool.resident@[a].tile;
                    lemma_page_index_inverse(t2, vx, vy, k);
                    assert(m[t2].0 == self.pool.resident@[a].slot);
                } else {
                    if exists|a: int| 0 <= a < n && on_page(self.pool.resident@[a].tile, vx, vy)
                        && page_index(self.pool.resident@[a].tile, vx) == k {
                        let a = choose|a: int| 0 <= a < n && on_page(self.pool.resident@[a].tile, vx, vy)
                            && page_index(self.pool.resident@[a].tile, vx) == k;
                        self.pool.lemma_record(a);
                        let t2 = self.pool.resident@[a].tile;
                        lemma_page_index_inverse(t2, vx, vy, k);
                    }
                }
            }
        }
        table
    }

    /// Advance the frame counter (call once per frame).
    pub fn advance_frame(&mut self)
        requires
            old(self).frame < u64::MAX,
        ensures
            final(self).frame == old(self).frame + 1,
            final(self).pool == old(self).pool,
            final(self).streamer == old(self).streamer,
            final(self).virtual_tiles_x == old(self).virtual_tiles_x,
            final(self).virtual_tiles_y == old(self).virtual_tiles_y,
    {
        self.frame = self.frame + 1;
    }
}

/// Unique visible tiles of a feedback read-back, in first-seen order,
/// skipping empty (all-zero) texels.
pub open spec fn feedback_tiles(texels: Seq<GpuFeedbackTexel>) -> Seq<VirtualTileId>
    decreases texels.len(),
{
    if texels.len() == 0 {
        Seq::empty()
    } else {
        let prev = feedback_tiles(texels.drop_last());
        let t = texels.last();
        let tile = VirtualTileId { mip: t.mip, x: t.tile_x, y: t.tile_y };
        if (t.tile_x == 0 && t.tile_y == 0 && t.mip == 0) || prev.contains(tile) {
            prev
        } else {
            prev.push(tile)
        }
    }
}

/// Turn read-back feedback texels into unique feedback entries.
pub fn parse_feedback(texels: &[GpuFeedbackTexel]) -> (entries: Vec<FeedbackEntry>)
    ensures
        entries@.map_values(|e: FeedbackEntry| e.tile) == feedback_tiles(texels@),
{
    let mut entries: Vec<FeedbackEntry> = Vec::new();
    let n = texels.len();
    let mut i: usize = 0;
    while i < n
        invariant
            n == texels@.len(),
            i <= n,
            entries@.map_values(|e: FeedbackEntry| e.tile) == feedback_tiles(texels@.subrange(0, i as int)),
        decreases n - i,
    {
        let texel = texels[i];
        proof {
            assert(texels@.subrange(0, i as int + 1).drop_last() =~= texels@.subrange(0, i as int));
        }
        let ghost seen = entries@.map_values(|e: FeedbackEntry| e.tile);
        if !(texel.tile_x == 0 && texel.tile_y == 0 && texel.mip == 0) {
            let tile = VirtualTileId { mip: texel.mip, x: texel.tile_x, y: texel.tile_y };
            let mut found = false;
            let m = entries.len();
            let mut k: usize = 0;
            while k < m
                invariant
                    m == entries@.len(),
                    k <= m,
                    seen == entries@.map_values(|e: FeedbackEntry| e.tile),
                    found == exists|j: int| 0 <= j < k && entries@[j].tile == tile,
                decreases m - k,
            {
                if entries[k].tile == tile {
                    found = true;
                }
                k = k + 1;
            }
            proof {
                if found {
                    let j = choose|j: int| 0 <= j < m && entries@[j].tile == tile;
                    assert(seen[j] == tile);
                } else {
                    if seen.contains(tile) {
                        let j = choose|j: int| 0 <= j < seen.len() && seen[j] == tile;
                        assert(entries@[j].tile == tile);
                    }
                }
            }
            if !found {
                entries.push(FeedbackEntry { tile });
                proof {
                    assert(entries@.map_values(|e: FeedbackEntry| e.tile) =~= seen.push(tile));
                }
            }
        }
        i = i + 1;
    }
    proof {
        assert(texels@.subrange(0, n as int) =~= texels@);
    }
    entries
}

// ---------------------------------------------------------------------------
// Virtual texture asset
// ---------------------------------------------------------------------------

/// A virtual texture asset: tile metadata; tile data lives in the pool.
pub struct VirtualTexture2D {
    /// Unique asset id.
    pub id: u64,
    /// Full dimensions of the texture (mip 0) in texels.
    pub width: u32,
    pub height: u32,
    /// Number of mip levels covered.
    pub mip_levels: u32,
    /// Base directory containing the pre-split tile files.
    pub tile_base_path: PathBuf,
}

impl VirtualTexture2D {
    pub fn new(id: u64, width: u32, height: u32, tile_base_path: PathBuf) -> (v: Self)
        ensures
            v.id == id,
            v.width == width,
            v.height == height,
            v.mip_levels == spec_mip_levels(width, height),
            v.tile_base_path == tile_base_path,
    {
        let m = if width >= height { width } else { height };
        let mut levels: u32 = 1;
        let mut rest: u32 = m;
        proof {
            lemma_ilog2_bound(m as nat);
        }
        while rest > 1
            invariant
                1 <= levels <= 33,
                ilog2(m as nat) + 1 == ilog2(rest as nat) + levels,
                levels + ilog2(rest as nat) <= 33,
            decreases rest,
        {
            proof {
                lemma_ilog2_bound(rest as nat);
            }
            rest = rest / 2;
            levels = levels + 1;
        }
        proof {
            lemma_ilog2_bound(m as nat);
        }
        VirtualTexture2D { id, width, height, mip_levels: levels, tile_base_path }
    }

    /// Virtual tile grid dimensions at mip level `mip`.
    pub fn tiles_at_mip(&self, mip: u32) -> (dims: (u32, u32))
        requires
            mip < 32,
        ensures
            ({
                let w = self.width as nat / pow2(mip as nat);
                let h = self.height as nat / pow2(mip as nat);
                let w1 = if w >= 1 { w } else { 1 };
                let h1 = if h >= 1 { h } else { 1 };
                dims == (div_ceil(w1 as int, SVT_TILE_SIZE as int) as u32, div_ceil(h1 as int, SVT_TILE_SIZE as int) as u32)
            }),
    {
        proof {
            vstd::bits::lemma_u32_shr_is_div(self.width, mip);
            vstd::bits::lemma_u32_shr_is_div(self.height, mip);
        }
        let w0 = self.width >> mip;
        let h0 = self.height >> mip;
        let w = if w0 >= 1 { w0 } else { 1 };
        let h = if h0 >= 1 { h0 } else { 1 };
        (div_ceil_u32(w, SVT_TILE_SIZE), div_ceil_u32(h, SVT_TILE_SIZE))
    }
}

proof fn lemma_ilog2_lt(n: nat, k: nat)
    requires
        n < pow2(k + 1),
    ensures
        ilog2(n) <= k,
    decreases n,
{
    if n > 1 {
        vstd::arithmetic::power2::lemma_pow2_unfold(k + 1);
        if k == 0 {
            vstd::arithmetic::power2::lemma2_to64();
        } else {
            assert(n / 2 < pow2(k)) by (nonlinear_arith)
                requires n < pow2(k + 1), pow2(k + 1) == 2 * pow2(k);
            assert((k - 1 + 1) as nat == k);
            lemma_ilog2_lt(n / 2, (k - 1) as nat);
        }
    }
}

proof fn lemma_ilog2_bound(n: nat)
    requires
        n <= u32::MAX,
    ensures
        ilog2(n) <= 31,
{
    vstd::arithmetic::power2::lemma2_to64();
    lemma_ilog2_lt(n, 31);
}

} // verus!
