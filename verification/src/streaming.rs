//! GPU streaming pool: memory budgets per asset kind, the residency state of
//! each streamed asset, throttling of in-flight loads and least-recently-used
//! eviction.  The loads themselves run outside; assets are named by the
//! bytes of their (normalized) path.
use vstd::prelude::*;

use crate::assoc::{assoc_map, keys_distinct, lemma_assoc_dom, lemma_assoc_index, lemma_assoc_push, lemma_assoc_set};

verus! {

/// Default texture memory budget (512 MiB).
pub const DEFAULT_TEXTURE_BUDGET: u64 = 536870912;

/// Default mesh memory budget (256 MiB).
pub const DEFAULT_MESH_BUDGET: u64 = 268435456;

/// Maximum number of loads in flight at once.
pub const MAX_IN_FLIGHT: usize = 8;

#[derive(Debug, Clone, Copy, PartialEq, Eq, Structural)]
pub enum StreamingAssetKind {
    Texture,
    Mesh,
}

/// State of an asset in the streaming pool.
#[derive(Debug, Clone, Copy, PartialEq, Eq, Structural)]
pub enum ResidencyState {
    /// Not loaded: using a fallback placeholder.
    NotResident,
    /// Background thread is loading data from disk.
    Loading,
    /// Fully uploaded to GPU memory.
    Resident,
    /// Scheduled for eviction at end of frame.
    PendingEviction,
}

/// What the pool records of a streamed asset.
#[derive(Debug, Clone, Copy, PartialEq, Eq, Structural)]
pub struct EntryInfo {
    pub kind: StreamingAssetKind,
    pub state: ResidencyState,
    /// Approximate GPU memory consumed (bytes).
    pub gpu_bytes: u64,
    /// Frame counter at which this asset was last accessed.
    pub last_used_frame: u64,
}

/// Bookkeeping entry for a single streaming asset.
struct StreamingEntry {
    path: Vec<u8>,
    info: EntryInfo,
}

/// Result of a completed background load (bytes ready for GPU upload).
pub struct LoadedAssetData {
    pub path: Vec<u8>,
    pub kind: StreamingAssetKind,
    pub data: Vec<u8>,
    pub gpu_bytes: u64,
}

/// Manages GPU memory budgets, load throttling and LRU eviction.
pub struct StreamingPool {
    texture_budget: u64,
    mesh_budget: u64,
    texture_used: u64,
    mesh_used: u64,
    entries: Vec<StreamingEntry>,
    /// Current frame counter (bumped each `begin_frame`).
    frame: u64,
    /// Maximum number of in-flight loads to prevent thread-pool saturation.
    max_in_flight: usize,
    in_flight: usize,
}

/// Memory charged to `kind` after releasing `bytes` (never below zero).
pub open spec fn released(used: u64, bytes: u64) -> u64 {
    if used >= bytes {
        (used - bytes) as u64
    } else {
        0
    }
}

/// `v` is a resident asset of `kind` used no later than any other.
pub open spec fn is_lru_asset(m: Map<Seq<u8>, EntryInfo>, kind: StreamingAssetKind, v: Seq<u8>) -> bool {
    &&& m.dom().contains(v)
    &&& m[v].kind == kind
    &&& m[v].state == ResidencyState::Resident
    &&& forall|u: Seq<u8>| #[trigger] m.dom().contains(u) && m[u].kind == kind && m[u].state == ResidencyState::Resident
        ==> m[v].last_used_frame <= m[u].last_used_frame
}

/// Has `m` a resident asset of `kind`?
pub open spec fn has_resident(m: Map<Seq<u8>, EntryInfo>, kind: StreamingAssetKind) -> bool {
    exists|u: Seq<u8>| #[trigger] m.dom().contains(u) && m[u].kind == kind && m[u].state == ResidencyState::Resident
}

/// Evicting the least recently used resident asset of `kind` turns
/// `(m, tex, mesh)` into `(m2, tex2, mesh2)`: its bytes are released and it
/// becomes `PendingEviction`.  Nothing changes if no asset of `kind` is
/// resident.
pub open spec fn evict_rel(
    m: Map<Seq<u8>, EntryInfo>,
    tex: u64,
    mesh: u64,
    kind: StreamingAssetKind,
    m2: Map<Seq<u8>, EntryInfo>,
    tex2: u64,
    mesh2: u64,
) -> bool {
    if has_resident(m, kind) {
        exists|v: Seq<u8>| #[trigger] is_lru_asset(m, kind, v) && {
            let e = m[v];
            &&& m2 == m.insert(v, EntryInfo { kind: e.kind, state: ResidencyState::PendingEviction, gpu_bytes: 0, last_used_frame: e.last_used_frame })
            &&& tex2 == if kind == StreamingAssetKind::Texture { released(tex, e.gpu_bytes) } else { tex }
            &&& mesh2 == if kind == StreamingAssetKind::Mesh { released(mesh, e.gpu_bytes) } else { mesh }
        }
    } else {
        m2 == m && tex2 == tex && mesh2 == mesh
    }
}

/// Entries after a finished load of `item`: a tracked asset becomes
/// resident with the loaded size (an untracked one is ignored).
pub open spec fn complete_entries(m: Map<Seq<u8>, EntryInfo>, path: Seq<u8>, bytes: u64) -> Map<Seq<u8>, EntryInfo> {
    if m.dom().contains(path) {
        m.insert(path, EntryInfo { kind: m[path].kind, state: ResidencyState::Resident, gpu_bytes: bytes, last_used_frame: m[path].last_used_frame })
    } else {
        m
    }
}

/// Pool state (entries, texture bytes, mesh bytes, in-flight loads) after
/// applying the finished loads `items` in order.
pub open spec fn drain_outcome(
    m: Map<Seq<u8>, EntryInfo>,
    tex: int,
    mesh: int,
    in_flight: int,
    items: Seq<(Seq<u8>, u64)>,
) -> (Map<Seq<u8>, EntryInfo>, int, int, int)
    decreases items.len(),
{
    if items.len() == 0 {
        (m, tex, mesh, in_flight)
    } else {
        let (m1, t1, me1, f1) = drain_outcome(m, tex, mesh, in_flight, items.drop_last());
        let (path, bytes) = items.last();
        let f2 = if f1 > 0 { f1 - 1 } else { 0 };
        if m1.dom().contains(path) {
            let kind = m1[path].kind;
            (
                complete_entries(m1, path, bytes),
                if kind == StreamingAssetKind::Texture { t1 + bytes } else { t1 },
                if kind == StreamingAssetKind::Mesh { me1 + bytes } else { me1 },
                f2,
            )
        } else {
            (m1, t1, me1, f2)
        }
    }
}

/// The part of `request` after the budget check: `(m1, t1, me1)` is the
/// state once the eviction (if any) is done, and the load is recorded when
/// the in-flight limit allows it.
pub open spec fn request_tail(
    o: StreamingPool,
    f_entries: Map<Seq<u8>, EntryInfo>,
    f_tex: u64,
    f_mesh: u64,
    f_in_flight: usize,
    path: Seq<u8>,
    kind: StreamingAssetKind,
    touched: Map<Seq<u8>, EntryInfo>,
    start: bool,
    m1: Map<Seq<u8>, EntryInfo>,
    t1: u64,
    me1: u64,
) -> bool {
    &&& (if o.used(kind) >= o.budget(kind) {
        evict_rel(touched, o.used(StreamingAssetKind::Texture), o.used(StreamingAssetKind::Mesh), kind, m1, t1, me1)
    } else {
        m1 == touched && t1 == o.used(StreamingAssetKind::Texture) && me1 == o.used(StreamingAssetKind::Mesh)
    })
    &&& f_tex == t1
    &&& f_mesh == me1
    &&& start == (o.in_flight_view() < MAX_IN_FLIGHT)
    &&& if start {
        &&& f_entries == m1.insert(path, EntryInfo { kind, state: ResidencyState::Loading, gpu_bytes: 0, last_used_frame: o.frame_view() })
        &&& f_in_flight == o.in_flight_view() + 1
    } else {
        &&& f_entries == m1
        &&& f_in_flight == o.in_flight_view()
    }
}

/// Entries after marking `path` (if tracked) as used in frame `f`.
pub open spec fn touched_entries(m0: Map<Seq<u8>, EntryInfo>, path: Seq<u8>, f: u64) -> Map<Seq<u8>, EntryInfo> {
    if m0.dom().contains(path) {
        m0.insert(
            path,
            EntryInfo { kind: m0[path].kind, state: m0[path].state, gpu_bytes: m0[path].gpu_bytes, last_used_frame: f },
        )
    } else {
        m0
    }
}

/// What `request(path, kind)` returns and leaves behind, from pool `o`.
pub open spec fn request_ok(
    o: StreamingPool,
    f_entries: Map<Seq<u8>, EntryInfo>,
    f_tex: u64,
    f_mesh: u64,
    f_in_flight: usize,
    path: Seq<u8>,
    kind: StreamingAssetKind,
    start: bool,
) -> bool {
    let m0 = o.entries_view();
    let touched = touched_entries(m0, path, o.frame_view());
    if m0.dom().contains(path) && (m0[path].state == ResidencyState::Resident || m0[path].state == ResidencyState::Loading) {
        &&& !start
        &&& f_entries == touched
        &&& f_tex == o.used(StreamingAssetKind::Texture)
        &&& f_mesh == o.used(StreamingAssetKind::Mesh)
        &&& f_in_flight == o.in_flight_view()
    } else {
        exists|m1: Map<Seq<u8>, EntryInfo>, t1: u64, me1: u64| #[trigger] request_tail(
            o,
            f_entries,
            f_tex,
            f_mesh,
            f_in_flight,
            path,
            kind,
            touched,
            start,
            m1,
            t1,
            me1,
        )
    }
}

/// A request counts as a use: whatever its outcome, an asset requested
/// while already tracked stays tracked, with the pool's current frame as
/// its last use, and keeps its kind; an untracked asset whose load starts
/// is tracked from then on as loading, used in the current frame.
pub proof fn lemma_request_marks_use(
    o: StreamingPool,
    f_entries: Map<Seq<u8>, EntryInfo>,
    f_tex: u64,
    f_mesh: u64,
    f_in_flight: usize,
    path: Seq<u8>,
    kind: StreamingAssetKind,
    start: bool,
)
    requires
        request_ok(o, f_entries, f_tex, f_mesh, f_in_flight, path, kind, start),
    ensures
        o.entries_view().dom().contains(path) ==> {
            &&& f_entries.dom().contains(path)
            &&& f_entries[path].last_used_frame == o.frame_view()
            &&& (!start ==> f_entries[path].kind == o.entries_view()[path].kind)
        },
        start ==> f_entries.dom().contains(path) && f_entries[path] == (EntryInfo {
            kind,
            state: ResidencyState::Loading,
            gpu_bytes: 0,
            last_used_frame: o.frame_view(),
        }),
{
    let m0 = o.entries_view();
    let touched = touched_entries(m0, path, o.frame_view());
    if m0.dom().contains(path) && (m0[path].state == ResidencyState::Resident || m0[path].state
        == ResidencyState::Loading) {
    } else {
        let (m1, t1, me1) = choose|m1: Map<Seq<u8>, EntryInfo>, t1: u64, me1: u64| #[trigger] request_tail(
            o,
            f_entries,
            f_tex,
            f_mesh,
            f_in_flight,
            path,
            kind,
            touched,
            start,
            m1,
            t1,
            me1,
        );
        if o.used(kind) >= o.budget(kind) && has_resident(touched, kind) {
            let v = choose|v: Seq<u8>| #[trigger] is_lru_asset(touched, kind, v) && {
                let e = touched[v];
                &&& m1 == touched.insert(v, EntryInfo { kind: e.kind, state: ResidencyState::PendingEviction, gpu_bytes: 0, last_used_frame: e.last_used_frame })
                &&& t1 == if kind == StreamingAssetKind::Texture { released(o.used(StreamingAssetKind::Texture), e.gpu_bytes) } else { o.used(StreamingAssetKind::Texture) }
                &&& me1 == if kind == StreamingAssetKind::Mesh { released(o.used(StreamingAssetKind::Mesh), e.gpu_bytes) } else { o.used(StreamingAssetKind::Mesh) }
            };
            if m0.dom().contains(path) {
                assert(touched[v].state == ResidencyState::Resident);
                assert(v != path);
            }
        }
    }
}

impl StreamingPool {
    spec fn entry_seq(&self) -> Seq<(Seq<u8>, EntryInfo)> {
        self.entries@.map_values(|e: StreamingEntry| (e.path@, e.info))
    }

    /// Tracked assets by path.
    pub closed spec fn entries_view(&self) -> Map<Seq<u8>, EntryInfo> {
        assoc_map(self.entry_seq())
    }

    /// Bytes charged to `kind`.
    pub closed spec fn used(&self, kind: StreamingAssetKind) -> u64 {
        match kind {
            StreamingAssetKind::Texture => self.texture_used,
            StreamingAssetKind::Mesh => self.mesh_used,
        }
    }

    /// Budget of `kind`.
    pub closed spec fn budget(&self, kind: StreamingAssetKind) -> u64 {
        match kind {
            StreamingAssetKind::Texture => self.texture_budget,
            StreamingAssetKind::Mesh => self.mesh_budget,
        }
    }

    /// Current frame counter.
    pub closed spec fn frame_view(&self) -> u64 {
        self.frame
    }

    /// Loads started and not yet completed.
    pub closed spec fn in_flight_view(&self) -> usize {
        self.in_flight
    }

    /// Consistency: one entry per path, at most `MAX_IN_FLIGHT` loads.
    pub closed spec fn wf(&self) -> bool {
        &&& keys_distinct(self.entry_seq())
        &&& self.max_in_flight == MAX_IN_FLIGHT
        &&& self.in_flight <= self.max_in_flight
    }

    pub fn new() -> (p: Self)
        ensures
            p.wf(),
            p.entries_view() == Map::<Seq<u8>, EntryInfo>::empty(),
            p.budget(StreamingAssetKind::Texture) == DEFAULT_TEXTURE_BUDGET,
            p.budget(StreamingAssetKind::Mesh) == DEFAULT_MESH_BUDGET,
            p.used(StreamingAssetKind::Texture) == 0,
            p.used(StreamingAssetKind::Mesh) == 0,
            p.frame_view() == 0,
            p.in_flight_view() == 0,
    {
        Self::with_budgets(DEFAULT_TEXTURE_BUDGET, DEFAULT_MESH_BUDGET)
    }

    pub fn with_budgets(texture_budget: u64, mesh_budget: u64) -> (p: Self)
        ensures
            p.wf(),
            p.entries_view() == Map::<Seq<u8>, EntryInfo>::empty(),
            p.budget(StreamingAssetKind::Texture) == texture_budget,
            p.budget(StreamingAssetKind::Mesh) == mesh_budget,
            p.used(StreamingAssetKind::Texture) == 0,
            p.used(StreamingAssetKind::Mesh) == 0,
            p.frame_view() == 0,
            p.in_flight_view() == 0,
    {
        let p = StreamingPool {
            texture_budget,
            mesh_budget,
            texture_used: 0,
            mesh_used: 0,
            entries: Vec::new(),
            frame: 0,
            max_in_flight: MAX_IN_FLIGHT,
            in_flight: 0,
        };
        proof {
            assert(p.entries_view() =~= Map::<Seq<u8>, EntryInfo>::empty());
        }
        p
    }

    /// Call at the start of each frame to bump the internal clock.
    pub fn begin_frame(&mut self)
        requires
            old(self).frame_view() < u64::MAX,
        ensures
            final(self).frame_view() == old(self).frame_view() + 1,
            final(self).entries_view() == old(self).entries_view(),
            final(self).wf() == old(self).wf(),
            forall|k: StreamingAssetKind| final(self).used(k) == old(self).used(k) && final(self).budget(k) == old(self).budget(k),
            final(self).in_flight_view() == old(self).in_flight_view(),
    {
        self.frame = self.frame + 1;
    }

    fn find(&self, path: &[u8]) -> (r: Option<usize>)
        requires
            self.wf(),
        ensures
            match r {
                Some(i) => i < self.entries@.len() && self.entries@[i as int].path@ == path@
                    && self.entries_view().dom().contains(path@) && self.entries_view()[path@] == self.entries@[i as int].info,
                None => !self.entries_view().dom().contains(path@),
            },
    {
        let n = self.entries.len();
        let mut i: usize = 0;
        while i < n
            invariant
                self.wf(),
                n == self.entries@.len(),
                i <= n,
                forall|j: int| 0 <= j < i ==> self.entries@[j].path@ != path@,
            decreases n - i,
        {
            if bytes_eq(self.entries[i].path.as_slice(), path) {
                proof {
                    lemma_assoc_index(self.entry_seq(), i as int);
                }
                return Some(i);
            }
            i = i + 1;
        }
        proof {
            if self.entries_view().dom().contains(path@) {
                let j = lemma_assoc_dom(self.entry_seq(), path@);
                assert(self.entries@[j].path@ == path@);
            }
        }
        None
    }

    /// Query the residency state of an asset.
    pub fn state(&self, path: &[u8]) -> (s: ResidencyState)
        requires
            self.wf(),
        ensures
            s == if self.entries_view().dom().contains(path@) {
                self.entries_view()[path@].state
            } else {
                ResidencyState::NotResident
            },
    {
        match self.find(path) {
            Some(i) => self.entries[i].info.state,
            None => ResidencyState::NotResident,
        }
    }

    /// The kind under which `path` is tracked, if it is.
    pub fn tracked_kind(&self, path: &[u8]) -> (k: Option<StreamingAssetKind>)
        requires
            self.wf(),
        ensures
            k == if self.entries_view().dom().contains(path@) {
                Some(self.entries_view()[path@].kind)
            } else {
                None::<StreamingAssetKind>
            },
    {
        match self.find(path) {
            Some(i) => Some(self.entries[i].info.kind),
            None => None,
        }
    }

    /// Memory used / budget for textures (bytes).
    pub fn texture_usage(&self) -> (u: (u64, u64))
        ensures
            u == (self.used(StreamingAssetKind::Texture), self.budget(StreamingAssetKind::Texture)),
    {
        (self.texture_used, self.texture_budget)
    }

    /// Memory used / budget for meshes (bytes).
    pub fn mesh_usage(&self) -> (u: (u64, u64))
        ensures
            u == (self.used(StreamingAssetKind::Mesh), self.budget(StreamingAssetKind::Mesh)),
    {
        (self.mesh_used, self.mesh_budget)
    }

    fn set_info(&mut self, i: usize, info: EntryInfo)
        requires
            old(self).wf(),
            i < old(self).entries@.len(),
        ensures
            final(self).wf(),
            final(self).entries_view() == old(self).entries_view().insert(old(self).entries@[i as int].path@, info),
            final(self).entries@.len() == old(self).entries@.len(),
            forall|j: int| 0 <= j < final(self).entries@.len() ==> #[trigger] final(self).entries@[j].path@ == old(self).entries@[j].path@,
            final(self).texture_used == old(self).texture_used,
            final(self).mesh_used == old(self).mesh_used,
            final(self).texture_budget == old(self).texture_budget,
            final(self).mesh_budget == old(self).mesh_budget,
            final(self).frame == old(self).frame,
            final(self).in_flight == old(self).in_flight,
    {
        let ghost s0 = self.entry_seq();
        let mut e = self.entries.remove(i);
        e.info = info;
        self.entries.insert(i, e);
        proof {
            assert(self.entry_seq() =~= s0.update(i as int, (s0[i as int].0, info)));
            lemma_assoc_set(s0, i as int, info);
        }
    }

    // -----------------------------------------------------------------------
    // LRU eviction
    // -----------------------------------------------------------------------

    /// Evict the least recently used resident asset of `kind`: its bytes are
    /// released and it is marked `PendingEviction`.
    fn evict_lru(&mut self, kind: StreamingAssetKind)
        requires
            old(self).wf(),
        ensures
            final(self).wf(),
            evict_rel(
                old(self).entries_view(),
                old(self).texture_used,
                old(self).mesh_used,
                kind,
                final(self).entries_view(),
                final(self).texture_used,
                final(self).mesh_used,
            ),
            final(self).texture_budget == old(self).texture_budget,
            final(self).mesh_budget == old(self).mesh_budget,
            final(self).frame == old(self).frame,
            final(self).in_flight == old(self).in_flight,
    {
        let ghost m = self.entries_view();
        let ghost es = self.entry_seq();
        let n = self.entries.len();
        let mut victim: Option<usize> = None;
        let mut i: usize = 0;
        while i < n
            invariant
                self.wf(),
                *self == *old(self),
                es == self.entry_seq(),
                m == self.entries_view(),
                n == self.entries@.len(),
                i <= n,
                match victim {
                    Some(v) => v < i && es[v as int].1.kind == kind && es[v as int].1.state == ResidencyState::Resident
                        && forall|j: int| 0 <= j < i && #[trigger] es[j].1.kind == kind && es[j].1.state == ResidencyState::Resident
                            ==> es[v as int].1.last_used_frame <= es[j].1.last_used_frame,
                    None => forall|j: int| 0 <= j < i ==> !(#[trigger] es[j].1.kind == kind && es[j].1.state == ResidencyState::Resident),
                },
            decreases n - i,
        {
            let e = self.entries[i].info;
            if e.kind == kind && e.state == ResidencyState::Resident {
                match victim {
                    Some(v) => {
                        if e.last_used_frame < self.entries[v].info.last_used_frame {
                            victim = Some(i);
                        }
                    },
                    None => {
                        victim = Some(i);
                    },
                }
            }
            i = i + 1;
        }
        match victim {
            Some(v) => {
                let e = self.entries[v].info;
                proof {
                    lemma_assoc_index(es, v as int);
                    let p = es[v as int].0;
                    assert forall|u: Seq<u8>| #[trigger] m.dom().contains(u) && m[u].kind == kind && m[u].state == ResidencyState::Resident
                        implies m[p].last_used_frame <= m[u].last_used_frame by {
                        let j = lemma_assoc_dom(es, u);
                        lemma_assoc_index(es, j);
                    }
                    assert(is_lru_asset(m, kind, p));
                    assert(has_resident(m, kind));
                }
                match kind {
                    StreamingAssetKind::Texture => {
                        self.texture_used = self.texture_used.saturating_sub(e.gpu_bytes);
                    },
                    StreamingAssetKind::Mesh => {
                        self.mesh_used = self.mesh_used.saturating_sub(e.gpu_bytes);
                    },
                }
                self.set_info(v, EntryInfo { kind: e.kind, state: ResidencyState::PendingEviction, gpu_bytes: 0, last_used_frame: e.last_used_frame });
            },
            None => {
                proof {
                    if has_resident(m, kind) {
                        let u = choose|u: Seq<u8>| #[trigger] m.dom().contains(u) && m[u].kind == kind && m[u].state == ResidencyState::Resident;
                        let j = lemma_assoc_dom(es, u);
                        lemma_assoc_index(es, j);
                    }
                }
            },
        }
    }

    /// Request that `path` be streamed in.  A tracked asset is marked used in
    /// the current frame, and nothing more happens if it is resident or
    /// loading.  Otherwise, when `kind` is at or over budget the least
    /// recently used resident asset of `kind` is evicted; then, unless too
    /// many loads are in flight, the asset is recorded as loading and `true`
    /// is returned: the caller must start the background load.
    pub fn request(&mut self, path: &[u8], kind: StreamingAssetKind) -> (start: bool)
        requires
            old(self).wf(),
        ensures
            final(self).wf(),
            final(self).frame_view() == old(self).frame_view(),
            forall|k: StreamingAssetKind| final(self).budget(k) == old(self).budget(k),
            request_ok(
                *old(self),
                final(self).entries_view(),
                final(self).used(StreamingAssetKind::Texture),
                final(self).used(StreamingAssetKind::Mesh),
                final(self).in_flight_view(),
                path@,
                kind,
                start,
            ),
    {
        let ghost m0 = self.entries_view();
        match self.find(path) {
            Some(i) => {
                let e = self.entries[i].info;
                self.set_info(i, EntryInfo { last_used_frame: self.frame, ..e });
                if e.state == ResidencyState::Resident || e.state == ResidencyState::Loading {
                    return false;
                }
            },
            None => {},
        }
        let ghost touched = self.entries_view();
        proof {
            assert(touched == touched_entries(m0, path@, old(self).frame_view()));
            assert(!(m0.dom().contains(path@) && (m0[path@].state == ResidencyState::Resident || m0[path@].state
                == ResidencyState::Loading)));
        }
        let budget = match kind {
            StreamingAssetKind::Texture => self.texture_budget,
            StreamingAssetKind::Mesh => self.mesh_budget,
        };
        let used = match kind {
            StreamingAssetKind::Texture => self.texture_used,
            StreamingAssetKind::Mesh => self.mesh_used,
        };
        if used >= budget {
            self.evict_lru(kind);
        }
        let ghost m1 = self.entries_view();
        let ghost t1 = self.texture_used;
        let ghost me1 = self.mesh_used;
        if self.in_flight >= self.max_in_flight {
            proof {
                assert(request_tail(*old(self), self.entries_view(), self.used(StreamingAssetKind::Texture), self.used(StreamingAssetKind::Mesh), self.in_flight_view(), path@, kind, touched, false, m1, t1, me1));
                assert(request_ok(*old(self), self.entries_view(), self.used(StreamingAssetKind::Texture), self.used(StreamingAssetKind::Mesh), self.in_flight_view(), path@, kind, false));
            }
            return false;
        }
        self.in_flight = self.in_flight + 1;
        let info = EntryInfo { kind, state: ResidencyState::Loading, gpu_bytes: 0, last_used_frame: self.frame };
        match self.find(path) {
            Some(i) => {
                self.set_info(i, info);
                proof {
                    assert(self.entries_view() == m1.insert(path@, info));
                }
            },
            None => {
                let ghost s0 = self.entry_seq();
                self.entries.push(StreamingEntry { path: copy_bytes(path), info });
                proof {
                    assert(self.entry_seq() =~= s0.push((path@, info)));
                    lemma_assoc_push(s0, path@, info);
                }
            },
        }
        proof {
            assert(request_tail(*old(self), self.entries_view(), self.used(StreamingAssetKind::Texture), self.used(StreamingAssetKind::Mesh), self.in_flight_view(), path@, kind, touched, true, m1, t1, me1));
        }
        true
    }

    /// Apply the finished loads `loaded`, in order: each tracked asset
    /// becomes resident and its bytes are charged to its kind; every item
    /// ends one in-flight load.  Returns (path, kind, data) of every item for
    /// the caller to upload.
    pub fn drain_completed(&mut self, loaded: Vec<LoadedAssetData>) -> (results: Vec<(Vec<u8>, StreamingAssetKind, Vec<u8>)>)
        requires
            old(self).wf(),
            drain_outcome(
                old(self).entries_view(),
                old(self).used(StreamingAssetKind::Texture) as int,
                old(self).used(StreamingAssetKind::Mesh) as int,
                old(self).in_flight_view() as int,
                loaded@.map_values(|l: LoadedAssetData| (l.path@, l.gpu_bytes)),
            ).1 <= u64::MAX,
            drain_outcome(
                old(self).entries_view(),
                old(self).used(StreamingAssetKind::Texture) as int,
                old(self).used(StreamingAssetKind::Mesh) as int,
                old(self).in_flight_view() as int,
                loaded@.map_values(|l: LoadedAssetData| (l.path@, l.gpu_bytes)),
            ).2 <= u64::MAX,
        ensures
            final(self).wf(),
            final(self).frame_view() == old(self).frame_view(),
            forall|k: StreamingAssetKind| final(self).budget(k) == old(self).budget(k),
            results@.len() == loaded@.len(),
            forall|i: int| 0 <= i < loaded@.len() ==> {
                &&& (#[trigger] results@[i]).0@ == loaded@[i].path@
                &&& results@[i].1 == loaded@[i].kind
                &&& results@[i].2@ == loaded@[i].data@
            },
            ({
                let out = drain_outcome(
                    old(self).entries_view(),
                    old(self).used(StreamingAssetKind::Texture) as int,
                    old(self).used(StreamingAssetKind::Mesh) as int,
                    old(self).in_flight_view() as int,
                    loaded@.map_values(|l: LoadedAssetData| (l.path@, l.gpu_bytes)),
                );
                &&& final(self).entries_view() == out.0
                &&& final(self).used(StreamingAssetKind::Texture) == out.1
                &&& final(self).used(StreamingAssetKind::Mesh) == out.2
                &&& final(self).in_flight_view() == out.3
            }),
    {
        let ghost items = loaded@.map_values(|l: LoadedAssetData| (l.path@, l.gpu_bytes));
        let ghost orig = loaded@;
        let n = loaded.len();
        let mut source = loaded;
        let mut rest: Vec<LoadedAssetData> = Vec::with_capacity(n);
        while source.len() > 0
            invariant
                n == orig.len(),
                source@.len() + rest@.len() == n,
                forall|k: int| 0 <= k < source@.len() ==> #[trigger] source@[k] == orig[k],
                forall|k: int| 0 <= k < rest@.len() ==> #[trigger] rest@[k] == orig[n - 1 - k],
            decreases source@.len(),
        {
            match source.pop() {
                Some(x) => rest.push(x),
                None => {},
            }
        }
        let mut results: Vec<(Vec<u8>, StreamingAssetKind, Vec<u8>)> = Vec::with_capacity(n);
        let mut i: usize = 0;
        while i < n
            invariant
                self.wf(),
                n == orig.len(),
                items == orig.map_values(|l: LoadedAssetData| (l.path@, l.gpu_bytes)),
                i <= n,
                rest@.len() == n - i,
                forall|k: int| 0 <= k < rest@.len() ==> #[trigger] rest@[k] == orig[n - 1 - k],
                self.frame == old(self).frame,
                self.texture_budget == old(self).texture_budget,
                self.mesh_budget == old(self).mesh_budget,
                results@.len() == i,
                forall|k: int| 0 <= k < i ==> {
                    &&& (#[trigger] results@[k]).0@ == orig[k].path@
                    &&& results@[k].1 == orig[k].kind
                    &&& results@[k].2@ == orig[k].data@
                },
                drain_outcome(old(self).entries_view(), old(self).texture_used as int, old(self).mesh_used as int, old(self).in_flight as int, items).1 <= u64::MAX,
                drain_outcome(old(self).entries_view(), old(self).texture_used as int, old(self).mesh_used as int, old(self).in_flight as int, items).2 <= u64::MAX,
                ({
                    let out = drain_outcome(
                        old(self).entries_view(),
                        old(self).texture_used as int,
                        old(self).mesh_used as int,
                        old(self).in_flight as int,
                        items.subrange(0, i as int),
                    );
                    &&& self.entries_view() == out.0
                    &&& self.texture_used == out.1
                    &&& self.mesh_used == out.2
                    &&& self.in_flight == out.3
                }),
            decreases n - i,
        {
            let item = match rest.pop() {
                Some(x) => x,
                None => {
                    proof {
                        assert(false);
                    }
                    return results;
                },
            };
            proof {
                assert(items.subrange(0, i as int + 1).drop_last() =~= items.subrange(0, i as int));
                assert(items[i as int] == (item.path@, item.gpu_bytes));
                lemma_drain_counters_grow(old(self).entries_view(), old(self).texture_used as int, old(self).mesh_used as int, old(self).in_flight as int, items, i as int + 1);
            }
            match self.find(item.path.as_slice()) {
                Some(k) => {
                    let e = self.entries[k].info;
                    self.set_info(k, EntryInfo { kind: e.kind, state: ResidencyState::Resident, gpu_bytes: item.gpu_bytes, last_used_frame: e.last_used_frame });
                    match e.kind {
                        StreamingAssetKind::Texture => {
                            self.texture_used = self.texture_used + item.gpu_bytes;
                        },
                        StreamingAssetKind::Mesh => {
                            self.mesh_used = self.mesh_used + item.gpu_bytes;
                        },
                    }
                },
                None => {},
            }
            self.in_flight = self.in_flight.saturating_sub(1);
            results.push((item.path, item.kind, item.data));
            i = i + 1;
        }
        proof {
            assert(items.subrange(0, n as int) =~= items);
        }
        results
    }
}

/// Bytes of the finished loads in `items` that are charged to `kind`:
/// those of assets tracked in `m` with that kind.
pub open spec fn charged(m: Map<Seq<u8>, EntryInfo>, items: Seq<(Seq<u8>, u64)>, kind: StreamingAssetKind) -> int
    decreases items.len(),
{
    if items.len() == 0 {
        0
    } else {
        let (path, bytes) = items.last();
        charged(m, items.drop_last(), kind) + if m.dom().contains(path) && m[path].kind == kind {
            bytes as int
        } else {
            0
        }
    }
}

/// Finishing loads tracks no new asset and forgets none, changes no kind
/// or last-used frame, makes every tracked asset among them resident and
/// leaves the others untouched; each kind's usage grows by exactly the
/// bytes charged to it.  With no finished load nothing changes.
pub proof fn lemma_drain_outcome(
    m: Map<Seq<u8>, EntryInfo>,
    tex: int,
    mesh: int,
    in_flight: int,
    items: Seq<(Seq<u8>, u64)>,
)
    ensures
        drain_outcome(m, tex, mesh, in_flight, items).0.dom() == m.dom(),
        forall|p: Seq<u8>| #[trigger] m.dom().contains(p) ==> {
            &&& drain_outcome(m, tex, mesh, in_flight, items).0[p].kind == m[p].kind
            &&& drain_outcome(m, tex, mesh, in_flight, items).0[p].last_used_frame == m[p].last_used_frame
        },
        forall|i: int|
            0 <= i < items.len() && m.dom().contains(#[trigger] items[i].0) ==> drain_outcome(
                m,
                tex,
                mesh,
                in_flight,
                items,
            ).0[items[i].0].state == ResidencyState::Resident,
        forall|p: Seq<u8>|
            #[trigger] m.dom().contains(p) && (forall|i: int| 0 <= i < items.len() ==> items[i].0 != p) ==> drain_outcome(
                m,
                tex,
                mesh,
                in_flight,
                items,
            ).0[p] == m[p],
        drain_outcome(m, tex, mesh, in_flight, items).1 == tex + charged(m, items, StreamingAssetKind::Texture),
        drain_outcome(m, tex, mesh, in_flight, items).2 == mesh + charged(m, items, StreamingAssetKind::Mesh),
        items.len() == 0 ==> drain_outcome(m, tex, mesh, in_flight, items) == (m, tex, mesh, in_flight),
    decreases items.len(),
{
    if items.len() > 0 {
        let items1 = items.drop_last();
        lemma_drain_outcome(m, tex, mesh, in_flight, items1);
        let (m1, t1, me1, f1) = drain_outcome(m, tex, mesh, in_flight, items1);
        let (path, bytes) = items.last();
        let out = drain_outcome(m, tex, mesh, in_flight, items);
        if m1.dom().contains(path) {
            assert(out.0.dom() =~= m.dom());
        }
        assert forall|i: int| 0 <= i < items.len() && m.dom().contains(#[trigger] items[i].0) implies out.0[items[i].0].state
            == ResidencyState::Resident by {
            if i < items.len() - 1 {
                assert(items1[i] == items[i]);
            }
        }
        assert forall|p: Seq<u8>|
            #[trigger] m.dom().contains(p) && (forall|i: int| 0 <= i < items.len() ==> items[i].0 != p) implies out.0[p]
            == m[p] by {
            assert(items[items.len() - 1].0 != p);
            assert forall|i: int| 0 <= i < items1.len() implies items1[i].0 != p by {
                assert(items1[i] == items[i]);
            }
        }
    }
}

proof fn lemma_drain_counters_grow(
    m: Map<Seq<u8>, EntryInfo>,
    tex: int,
    mesh: int,
    in_flight: int,
    items: Seq<(Seq<u8>, u64)>,
    k: int,
)
    requires
        0 <= k <= items.len(),
    ensures
        drain_outcome(m, tex, mesh, in_flight, items.subrange(0, k)).1 <= drain_outcome(m, tex, mesh, in_flight, items).1,
        drain_outcome(m, tex, mesh, in_flight, items.subrange(0, k)).2 <= drain_outcome(m, tex, mesh, in_flight, items).2,
    decreases items.len(),
{
    if k < items.len() {
        lemma_drain_counters_grow(m, tex, mesh, in_flight, items.drop_last(), k);
        assert(items.drop_last().subrange(0, k) =~= items.subrange(0, k));
    } else {
        assert(items.subrange(0, k) =~= items);
    }
}

pub(crate) fn bytes_eq(a: &[u8], b: &[u8]) -> (r: bool)
    ensures
        r == (a@ == b@),
{
    if a.len() != b.len() {
        return false;
    }
    let n = a.len();
    let mut i: usize = 0;
    while i < n
        invariant
            n == a@.len(),
            n == b@.len(),
            i <= n,
            forall|j: int| 0 <= j < i ==> a@[j] == b@[j],
        decreases n - i,
    {
        if a[i] != b[i] {
            return false;
        }
        i = i + 1;
    }
    proof {
        assert(a@ =~= b@);
    }
    true
}

pub(crate) fn copy_bytes(a: &[u8]) -> (v: Vec<u8>)
    ensures
        v@ == a@,
{
    let n = a.len();
    let mut v: Vec<u8> = Vec::with_capacity(n);
    let mut i: usize = 0;
    while i < n
        invariant
            n == a@.len(),
            i <= n,
            v@ == a@.subrange(0, i as int),
        decreases n - i,
    {
        v.push(a[i]);
        i = i + 1;
        assert(v@ =~= a@.subrange(0, i as int));
    }
    assert(a@.subrange(0, n as int) =~= a@);
    v
}

impl Default for StreamingPool {
    fn default() -> (p: Self)
        ensures
            p.wf(),
            p.entries_view() == Map::<Seq<u8>, EntryInfo>::empty(),
            p.budget(StreamingAssetKind::Texture) == DEFAULT_TEXTURE_BUDGET,
            p.budget(StreamingAssetKind::Mesh) == DEFAULT_MESH_BUDGET,
            p.used(StreamingAssetKind::Texture) == 0,
            p.used(StreamingAssetKind::Mesh) == 0,
    {
        Self::new()
    }
}

} // verus!
