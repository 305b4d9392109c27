//! Meshlet clustering: splitting an indexed triangle list into small
//! clusters of at most `MAX_MESHLET_VERTICES` vertices and
//! `MAX_MESHLET_TRIANGLES` triangles, and the triangle decimation used for
//! level-of-detail chains.  Bounding volumes are computed outside, from the
//! vertex positions of each cluster.
use vstd::prelude::*;

verus! {

/// Maximum number of vertices per meshlet (must be <= 256 so indices fit in `u8`).
pub const MAX_MESHLET_VERTICES: usize = 64;

/// Maximum number of triangles per meshlet.
pub const MAX_MESHLET_TRIANGLES: usize = 126;

/// Maximum meshlets processed at once by the culling compute shader.
pub const MAX_MESHLETS: u32 = 65536;

/// Maximum number of LOD levels per mesh.
pub const MAX_LOD_LEVELS: usize = 8;

/// Workgroup size for task shader dispatch.
pub const TASK_WORKGROUP_SIZE: u32 = 32;

/// Workgroup size for mesh shader dispatch.
pub const MESH_WORKGROUP_SIZE: u32 = 32;

/// A single meshlet descriptor, stored in a GPU storage buffer.
#[derive(Debug, Clone, Copy, PartialEq, Eq, Structural)]
pub struct MeshletData {
    /// Offset into the packed vertex-index list.
    pub vertex_offset: u32,
    /// Offset into the packed micro-triangle index list.
    pub triangle_offset: u32,
    /// Number of unique vertices in this meshlet (<= 64).
    pub vertex_count: u32,
    /// Number of triangles (<= 126).
    pub triangle_count: u32,
}

/// Visibility buffer entry for GPU meshlet compaction.
#[derive(Debug, Clone, Copy, PartialEq, Eq, Structural)]
pub struct VisibilityEntry {
    /// 1 = visible, 0 = culled.
    pub visible: u32,
    /// Compacted index after culling (only valid if visible).
    pub compacted_index: u32,
    /// LOD level selected for this meshlet.
    pub lod_level: u32,
    /// Padding for alignment.
    pub _pad: u32,
}

/// Meshlet clusters of an index buffer: descriptors, the packed global
/// vertex indices, and the packed local (per-meshlet) triangle indices.
pub struct MeshletClusters {
    pub meshlets: Vec<MeshletData>,
    pub vertex_indices: Vec<u32>,
    pub triangle_indices: Vec<u8>,
}

/// Clustering state: finished meshlets, packed vertex and triangle indices,
/// and the vertices and local triangle indices of the open meshlet.
pub struct ClusterState {
    pub meshlets: Seq<MeshletData>,
    pub vertex_indices: Seq<u32>,
    pub triangle_indices: Seq<u8>,
    pub local_verts: Seq<u32>,
    pub local_tris: Seq<u8>,
}

/// Position of `v` in `s` (its first occurrence).
pub open spec fn index_of(s: Seq<u32>, v: u32) -> int {
    choose|i: int| 0 <= i < s.len() && s[i] == v
}

/// Number of corners of a triangle whose vertex is not yet in the open
/// meshlet (each corner counted separately).
pub open spec fn new_vertex_count(lv: Seq<u32>, a: u32, b: u32, c: u32) -> int {
    (if lv.contains(a) { 0int } else { 1int }) + (if lv.contains(b) { 0int } else { 1int }) + (if lv.contains(c) {
        0int
    } else {
        1int
    })
}

/// Close the open meshlet (if it has vertices).
pub open spec fn flush(st: ClusterState) -> ClusterState {
    if st.local_verts.len() == 0 {
        st
    } else {
        ClusterState {
            meshlets: st.meshlets.push(
                MeshletData {
                    vertex_offset: st.vertex_indices.len() as u32,
                    triangle_offset: st.triangle_indices.len() as u32,
                    vertex_count: st.local_verts.len() as u32,
                    triangle_count: (st.local_tris.len() / 3) as u32,
                },
            ),
            vertex_indices: st.vertex_indices + st.local_verts,
            triangle_indices: st.triangle_indices + st.local_tris,
            local_verts: Seq::empty(),
            local_tris: Seq::empty(),
        }
    }
}

/// Vertices of the open meshlet after adding a corner with vertex `v`.
pub open spec fn corner_verts(lv: Seq<u32>, v: u32) -> Seq<u32> {
    if lv.contains(v) {
        lv
    } else {
        lv.push(v)
    }
}

/// Local triangle indices of the open meshlet after adding a corner with
/// vertex `v`: the local index of `v`, new or found.
pub open spec fn corner_tris(lv: Seq<u32>, lt: Seq<u8>, v: u32) -> Seq<u8> {
    if lv.contains(v) {
        lt.push(index_of(lv, v) as u8)
    } else {
        lt.push(lv.len() as u8)
    }
}

/// Add one corner to the open meshlet.
pub open spec fn add_corner(st: ClusterState, v: u32) -> ClusterState {
    ClusterState {
        meshlets: st.meshlets,
        vertex_indices: st.vertex_indices,
        triangle_indices: st.triangle_indices,
        local_verts: corner_verts(st.local_verts, v),
        local_tris: corner_tris(st.local_verts, st.local_tris, v),
    }
}

proof fn lemma_corner_verts_distinct(lv: Seq<u32>, v: u32)
    requires
        lv.no_duplicates(),
    ensures
        corner_verts(lv, v).no_duplicates(),
        corner_verts(lv, v).len() <= lv.len() + 1,
{
    if !lv.contains(v) {
        let a = lv.push(v);
        assert forall|p: int, q: int| 0 <= p < a.len() && 0 <= q < a.len() && p != q implies a[p] != a[q] by {
            if p == lv.len() {
                if a[q] == v {
                    assert(lv[q] == v);
                }
            } else if q == lv.len() {
                if a[p] == v {
                    assert(lv[p] == v);
                }
            }
        }
    }
}

/// The open meshlet cannot take the triangle `(a, b, c)`.
pub open spec fn must_flush(st: ClusterState, a: u32, b: u32, c: u32) -> bool {
    st.local_verts.len() + new_vertex_count(st.local_verts, a, b, c) > MAX_MESHLET_VERTICES
        || st.local_tris.len() / 3 >= MAX_MESHLET_TRIANGLES
}

/// State after the first `t` triangles of `indices`.
pub open spec fn cluster_prefix(indices: Seq<u32>, t: nat) -> ClusterState
    decreases t,
{
    if t == 0 {
        ClusterState {
            meshlets: Seq::empty(),
            vertex_indices: Seq::empty(),
            triangle_indices: Seq::empty(),
            local_verts: Seq::empty(),
            local_tris: Seq::empty(),
        }
    } else {
        let prev = cluster_prefix(indices, (t - 1) as nat);
        let k = 3 * (t - 1);
        let (a, b, c) = (indices[k], indices[k + 1], indices[k + 2]);
        let st = if must_flush(prev, a, b, c) { flush(prev) } else { prev };
        add_corner(add_corner(add_corner(st, a), b), c)
    }
}

/// The clusters of a whole index buffer.
pub open spec fn clusters_of(indices: Seq<u32>) -> ClusterState {
    flush(cluster_prefix(indices, indices.len() / 3))
}

/// Descriptor `d` lies within packed lists of the given lengths and stays
/// within the meshlet limits.
pub open spec fn meshlet_ok(d: MeshletData, vi_len: int, ti_len: int) -> bool {
    &&& 1 <= d.vertex_count <= MAX_MESHLET_VERTICES
    &&& 1 <= d.triangle_count <= MAX_MESHLET_TRIANGLES
    &&& d.vertex_offset + d.vertex_count <= vi_len
    &&& d.triangle_offset + 3 * d.triangle_count <= ti_len
}

/// Packed corner `k` belongs to meshlet `d`, and read through `d`'s vertex
/// list it is the input index `indices[k]`.
pub open spec fn in_meshlet(indices: Seq<u32>, d: MeshletData, vi: Seq<u32>, ti: Seq<u8>, k: int) -> bool {
    &&& d.triangle_offset <= k < d.triangle_offset + 3 * d.triangle_count
    &&& (ti[k] as int) < d.vertex_count
    &&& vi[d.vertex_offset + ti[k]] == indices[k]
}

/// Packed corner `k` lies in some meshlet of `ms` and reads back as
/// `indices[k]`.
pub open spec fn corner_covered(indices: Seq<u32>, ms: Seq<MeshletData>, vi: Seq<u32>, ti: Seq<u8>, k: int) -> bool {
    exists|m: int| 0 <= m < ms.len() && #[trigger] in_meshlet(indices, ms[m], vi, ti, k)
}

/// The open meshlet's local triangle indices point into its vertex list
/// and read back as the next input indices after the packed ones.
pub open spec fn open_ok(indices: Seq<u32>, st: ClusterState) -> bool {
    &&& forall|k: int| 0 <= k < st.local_tris.len() ==> (#[trigger] st.local_tris[k]) < st.local_verts.len()
    &&& forall|k: int|
        0 <= k < st.local_tris.len() ==> st.local_verts[#[trigger] st.local_tris[k] as int]
            == indices[st.triangle_indices.len() + k]
}

/// Facts that hold of every clustering state of `indices` after `t`
/// triangles.
pub open spec fn cluster_inv(indices: Seq<u32>, st: ClusterState, t: int) -> bool {
    let ti = st.triangle_indices;
    let vi = st.vertex_indices;
    let ms = st.meshlets;
    &&& ti.len() + st.local_tris.len() == 3 * t
    &&& st.local_tris.len() % 3 == 0
    &&& ti.len() % 3 == 0
    &&& st.local_verts.len() <= MAX_MESHLET_VERTICES
    &&& st.local_tris.len() <= 3 * MAX_MESHLET_TRIANGLES
    &&& st.local_verts.no_duplicates()
    &&& (st.local_tris.len() == 0 <==> st.local_verts.len() == 0)
    &&& open_ok(indices, st)
    &&& forall|m: int| 0 <= m < ms.len() ==> #[trigger] meshlet_ok(ms[m], vi.len() as int, ti.len() as int)
    &&& forall|k: int| 0 <= k < ti.len() ==> #[trigger] corner_covered(indices, ms, vi, ti, k)
}

proof fn lemma_flush_inv(indices: Seq<u32>, st: ClusterState, t: int)
    requires
        cluster_inv(indices, st, t),
        3 * t <= indices.len() <= u32::MAX,
        st.vertex_indices.len() + st.local_verts.len() <= 3 * t,
        st.local_verts.len() <= st.local_tris.len(),
    ensures
        cluster_inv(indices, flush(st), t),
        flush(st).local_verts.len() == 0,
        flush(st).vertex_indices.len() <= 3 * t,
{
    if st.local_verts.len() > 0 {
        let f = flush(st);
        let ti = st.triangle_indices;
        let vi = st.vertex_indices;
        let ms = st.meshlets;
        let lv = st.local_verts;
        let lt = st.local_tris;
        let d = f.meshlets.last();
        assert(3 * (lt.len() / 3) == lt.len());
        assert(d.vertex_offset == vi.len());
        assert(d.triangle_offset == ti.len());
        assert(d.vertex_count == lv.len());
        assert(d.triangle_count == lt.len() / 3);
        assert forall|m: int| 0 <= m < f.meshlets.len() implies #[trigger] meshlet_ok(
            f.meshlets[m],
            f.vertex_indices.len() as int,
            f.triangle_indices.len() as int,
        ) by {
            if m < ms.len() {
                assert(f.meshlets[m] == ms[m]);
                assert(meshlet_ok(ms[m], vi.len() as int, ti.len() as int));
            }
        }
        assert forall|k: int| 0 <= k < f.triangle_indices.len() implies #[trigger] corner_covered(
            indices,
            f.meshlets,
            f.vertex_indices,
            f.triangle_indices,
            k,
        ) by {
            if k < ti.len() {
                assert(corner_covered(indices, ms, vi, ti, k));
                let m = choose|m: int| 0 <= m < ms.len() && #[trigger] in_meshlet(indices, ms[m], vi, ti, k);
                assert(meshlet_ok(ms[m], vi.len() as int, ti.len() as int));
                assert(f.meshlets[m] == ms[m]);
                assert(f.triangle_indices[k] == ti[k]);
                assert(f.vertex_indices[ms[m].vertex_offset + ti[k]] == vi[ms[m].vertex_offset + ti[k]]);
                assert(in_meshlet(indices, f.meshlets[m], f.vertex_indices, f.triangle_indices, k));
            } else {
                let j = k - ti.len();
                let m = f.meshlets.len() - 1;
                assert(f.triangle_indices[k] == lt[j]);
                assert(lt[j] < lv.len());
                assert(lv[lt[j] as int] == indices[ti.len() + j]);
                assert(f.vertex_indices[vi.len() + lt[j]] == lv[lt[j] as int]);
                assert(f.meshlets[m] == d);
                assert(in_meshlet(indices, f.meshlets[m], f.vertex_indices, f.triangle_indices, k));
            }
        }
        assert(f.local_verts.no_duplicates());
    } else {
        assert(flush(st) == st);
    }
}

proof fn lemma_add_corner_inv(indices: Seq<u32>, st: ClusterState, t: int, v: u32, c: int)
    requires
        0 <= c < 3,
        3 * t + 3 <= indices.len(),
        indices[3 * t + c] == v,
        st.triangle_indices.len() + st.local_tris.len() == 3 * t + c,
        st.local_verts.len() + (if st.local_verts.contains(v) { 0int } else { 1int }) <= MAX_MESHLET_VERTICES,
        st.local_verts.no_duplicates(),
        open_ok(indices, st),
    ensures
        ({
            let a = add_corner(st, v);
            &&& a.meshlets == st.meshlets
            &&& a.vertex_indices == st.vertex_indices
            &&& a.triangle_indices == st.triangle_indices
            &&& a.local_tris.len() == st.local_tris.len() + 1
            &&& a.local_verts.len() == st.local_verts.len() + (if st.local_verts.contains(v) { 0int } else { 1int })
            &&& a.local_verts.len() > 0
            &&& a.local_verts.no_duplicates()
            &&& open_ok(indices, a)
            &&& forall|x: u32| #[trigger] st.local_verts.contains(x) ==> a.local_verts.contains(x)
        }),
{
    let a = add_corner(st, v);
    let lv = st.local_verts;
    let lt = st.local_tris;
    lemma_corner_verts_distinct(lv, v);
    if lv.contains(v) {
        let i = index_of(lv, v);
        assert(0 <= i < lv.len() && lv[i] == v);
        assert(a.local_tris[lt.len() as int] == i as u8);
        assert forall|k: int| 0 <= k < a.local_tris.len() implies a.local_verts[#[trigger] a.local_tris[k] as int]
            == indices[a.triangle_indices.len() + k] by {
            if k < lt.len() {
                assert(a.local_tris[k] == lt[k]);
            }
        }
        assert forall|k: int| 0 <= k < a.local_tris.len() implies (#[trigger] a.local_tris[k]) < a.local_verts.len() by {
            if k < lt.len() {
                assert(a.local_tris[k] == lt[k]);
            }
        }
    } else {
        assert forall|x: u32| #[trigger] lv.contains(x) implies a.local_verts.contains(x) by {
            let i = choose|i: int| 0 <= i < lv.len() && lv[i] == x;
            assert(a.local_verts[i] == x);
        }
        assert forall|k: int| 0 <= k < a.local_tris.len() implies a.local_verts[#[trigger] a.local_tris[k] as int]
            == indices[a.triangle_indices.len() + k] by {
            if k < lt.len() {
                assert(a.local_tris[k] == lt[k]);
                assert(lt[k] < lv.len());
                assert(a.local_verts[lt[k] as int] == lv[lt[k] as int]);
            } else {
                assert(a.local_tris[k] == lv.len() as u8);
            }
        }
        assert forall|k: int| 0 <= k < a.local_tris.len() implies (#[trigger] a.local_tris[k]) < a.local_verts.len() by {
            if k < lt.len() {
                assert(a.local_tris[k] == lt[k]);
            }
        }
        assert(a.local_verts[lv.len() as int] == v);
    }
}

proof fn lemma_step_inv(indices: Seq<u32>, t: nat)
    requires
        3 * t <= indices.len() <= u32::MAX,
        indices.len() % 3 == 0,
    ensures
        cluster_inv(indices, cluster_prefix(indices, t), t as int),
        cluster_prefix(indices, t).vertex_indices.len() + cluster_prefix(indices, t).local_verts.len() <= 3 * t,
        cluster_prefix(indices, t).local_verts.len() <= cluster_prefix(indices, t).local_tris.len(),
    decreases t,
{
    if t == 0 {
        assert(cluster_prefix(indices, t).local_verts.no_duplicates());
    } else {
        lemma_step_inv(indices, (t - 1) as nat);
        let prev = cluster_prefix(indices, (t - 1) as nat);
        let k = 3 * (t - 1);
        let (a, b, c) = (indices[k], indices[k + 1], indices[k + 2]);
        let tt = (t - 1) as int;
        let st = if must_flush(prev, a, b, c) {
            lemma_flush_inv(indices, prev, tt);
            flush(prev)
        } else {
            prev
        };
        assert(cluster_inv(indices, st, tt));
        assert(st.local_verts.len() + new_vertex_count(st.local_verts, a, b, c) <= MAX_MESHLET_VERTICES);
        assert(st.local_tris.len() / 3 < MAX_MESHLET_TRIANGLES);
        lemma_add_corner_inv(indices, st, tt, a, 0);
        let s1 = add_corner(st, a);
        lemma_add_corner_inv(indices, s1, tt, b, 1);
        let s2 = add_corner(s1, b);
        lemma_add_corner_inv(indices, s2, tt, c, 2);
        let s3 = add_corner(s2, c);
        assert(s3 == cluster_prefix(indices, t));
        assert(s3.meshlets == st.meshlets);
        assert(s3.vertex_indices == st.vertex_indices);
        assert(s3.triangle_indices == st.triangle_indices);
        assert(s3.local_tris.len() % 3 == 0);
        assert(s3.local_tris.len() <= 3 * MAX_MESHLET_TRIANGLES);
    }
}

/// Every cluster of `indices` has between 1 and `MAX_MESHLET_VERTICES`
/// vertices and between 1 and `MAX_MESHLET_TRIANGLES` triangles and lies
/// within the packed lists; the packed triangle list has one corner per
/// input index, and each packed corner, read through its cluster's
/// vertex list, is the input index.
pub proof fn lemma_clusters_correct(indices: Seq<u32>)
    requires
        indices.len() % 3 == 0,
        indices.len() <= u32::MAX,
    ensures
        ({
            let c = clusters_of(indices);
            &&& c.triangle_indices.len() == indices.len()
            &&& c.vertex_indices.len() <= indices.len()
            &&& forall|m: int|
                0 <= m < c.meshlets.len() ==> #[trigger] meshlet_ok(
                    c.meshlets[m],
                    c.vertex_indices.len() as int,
                    c.triangle_indices.len() as int,
                )
            &&& forall|k: int|
                0 <= k < indices.len() ==> #[trigger] corner_covered(
                    indices,
                    c.meshlets,
                    c.vertex_indices,
                    c.triangle_indices,
                    k,
                )
        }),
{
    let t = indices.len() / 3;
    lemma_step_inv(indices, t);
    lemma_flush_inv(indices, cluster_prefix(indices, t), t as int);
}

fn find_local(lv: &Vec<u32>, v: u32) -> (r: Option<usize>)
    ensures
        match r {
            Some(i) => i < lv@.len() && lv@[i as int] == v && lv@.contains(v) && (lv@.no_duplicates() ==> index_of(lv@, v) == i),
            None => !lv@.contains(v),
        },
{
    let n = lv.len();
    let mut i: usize = 0;
    while i < n
        invariant
            n == lv@.len(),
            i <= n,
            forall|j: int| 0 <= j < i ==> lv@[j] != v,
        decreases n - i,
    {
        if lv[i] == v {
            proof {
                assert(lv@.contains(v));
                if lv@.no_duplicates() {
                    let c = index_of(lv@, v);
                    if c != i {
                        assert(lv@[c] == lv@[i as int]);
                    }
                }
            }
            return Some(i);
        }
        i = i + 1;
    }
    None
}

pub(crate) fn append_u32(dst: &mut Vec<u32>, src: &Vec<u32>)
    ensures
        final(dst)@ == old(dst)@ + src@,
{
    let n = src.len();
    let mut i: usize = 0;
    while i < n
        invariant
            n == src@.len(),
            i <= n,
            dst@ == old(dst)@ + src@.subrange(0, i as int),
        decreases n - i,
    {
        dst.push(src[i]);
        i = i + 1;
        assert(dst@ =~= old(dst)@ + src@.subrange(0, i as int));
    }
    assert(src@.subrange(0, n as int) =~= src@);
}

pub(crate) fn append_u8(dst: &mut Vec<u8>, src: &Vec<u8>)
    ensures
        final(dst)@ == old(dst)@ + src@,
{
    let n = src.len();
    let mut i: usize = 0;
    while i < n
        invariant
            n == src@.len(),
            i <= n,
            dst@ == old(dst)@ + src@.subrange(0, i as int),
        decreases n - i,
    {
        dst.push(src[i]);
        i = i + 1;
        assert(dst@ =~= old(dst)@ + src@.subrange(0, i as int));
    }
    assert(src@.subrange(0, n as int) =~= src@);
}

/// Split an indexed triangle list into meshlets: triangles are taken in
/// order, and the open meshlet is closed before a triangle that would bring
/// it over `MAX_MESHLET_VERTICES` vertices or when it already holds
/// `MAX_MESHLET_TRIANGLES` triangles.
pub fn cluster_meshlets(indices: &[u32]) -> (c: MeshletClusters)
    requires
        indices@.len() % 3 == 0,
        indices@.len() <= u32::MAX,
    ensures
        c.meshlets@ == clusters_of(indices@).meshlets,
        c.vertex_indices@ == clusters_of(indices@).vertex_indices,
        c.triangle_indices@ == clusters_of(indices@).triangle_indices,
{
    let ghost ind = indices@;
    let mut meshlets: Vec<MeshletData> = Vec::new();
    let mut vertex_indices: Vec<u32> = Vec::new();
    let mut triangle_indices: Vec<u8> = Vec::new();
    let mut local_verts: Vec<u32> = Vec::with_capacity(MAX_MESHLET_VERTICES);
    let mut local_tris: Vec<u8> = Vec::new();
    let tri_count = indices.len() / 3;
    let mut t: usize = 0;
    while t < tri_count
        invariant
            ind == indices@,
            ind.len() % 3 == 0,
            ind.len() <= u32::MAX,
            tri_count == ind.len() / 3,
            t <= tri_count,
            ({
                let st = cluster_prefix(ind, t as nat);
                &&& meshlets@ == st.meshlets
                &&& vertex_indices@ == st.vertex_indices
                &&& triangle_indices@ == st.triangle_indices
                &&& local_verts@ == st.local_verts
                &&& local_tris@ == st.local_tris
            }),
        decreases tri_count - t,
    {
        proof {
            lemma_step_inv(ind, t as nat);
        }
        let i0 = indices[t * 3];
        let i1 = indices[t * 3 + 1];
        let i2 = indices[t * 3 + 2];
        let f0 = find_local(&local_verts, i0).is_none();
        let f1 = find_local(&local_verts, i1).is_none();
        let f2 = find_local(&local_verts, i2).is_none();
        let new_verts: usize = (if f0 { 1usize } else { 0usize }) + (if f1 { 1usize } else { 0usize }) + (if f2 {
            1usize
        } else {
            0usize
        });
        let ghost prev = cluster_prefix(ind, t as nat);
        if local_verts.len() + new_verts > MAX_MESHLET_VERTICES || local_tris.len() / 3 >= MAX_MESHLET_TRIANGLES {
            if local_verts.len() > 0 {
                let v_off = vertex_indices.len() as u32;
                let t_off = triangle_indices.len() as u32;
                let v_count = local_verts.len() as u32;
                let t_count = (local_tris.len() / 3) as u32;
                append_u32(&mut vertex_indices, &local_verts);
                append_u8(&mut triangle_indices, &local_tris);
                meshlets.push(MeshletData { vertex_offset: v_off, triangle_offset: t_off, vertex_count: v_count, triangle_count: t_count });
                local_verts.clear();
                local_tris.clear();
            }
        }
        let ghost st = if must_flush(prev, i0, i1, i2) { flush(prev) } else { prev };
        proof {
            assert(meshlets@ == st.meshlets);
            assert(local_verts@ =~= st.local_verts);
            assert(local_tris@ =~= st.local_tris);
        }
        proof {
            if must_flush(prev, i0, i1, i2) {
                lemma_flush_inv(ind, prev, t as int);
            }
            lemma_corner_verts_distinct(st.local_verts, i0);
            lemma_corner_verts_distinct(corner_verts(st.local_verts, i0), i1);
        }
        add_to_open(&mut local_verts, &mut local_tris, i0);
        add_to_open(&mut local_verts, &mut local_tris, i1);
        add_to_open(&mut local_verts, &mut local_tris, i2);
        t = t + 1;
    }
    proof {
        lemma_step_inv(ind, t as nat);
        assert(tri_count == ind.len() / 3);
    }
    if local_verts.len() > 0 {
        let v_off = vertex_indices.len() as u32;
        let t_off = triangle_indices.len() as u32;
        let v_count = local_verts.len() as u32;
        let t_count = (local_tris.len() / 3) as u32;
        append_u32(&mut vertex_indices, &local_verts);
        append_u8(&mut triangle_indices, &local_tris);
        meshlets.push(MeshletData { vertex_offset: v_off, triangle_offset: t_off, vertex_count: v_count, triangle_count: t_count });
    }
    MeshletClusters { meshlets, vertex_indices, triangle_indices }
}

fn add_to_open(local_verts: &mut Vec<u32>, local_tris: &mut Vec<u8>, v: u32)
    requires
        old(local_verts)@.len() < 256,
        old(local_verts)@.no_duplicates(),
    ensures
        final(local_verts)@ == corner_verts(old(local_verts)@, v),
        final(local_tris)@ == corner_tris(old(local_verts)@, old(local_tris)@, v),
{
    match find_local(local_verts, v) {
        Some(i) => {
            local_tris.push(i as u8);
        },
        None => {
            let next = local_verts.len() as u8;
            local_verts.push(v);
            local_tris.push(next);
        },
    }
}

/// Decimation stride: every `step`-th triangle is kept, `step` being
/// `total / target` rounded up.
pub open spec fn decimation_step(total: int, target: int) -> int {
    (total + target - 1) / target
}

/// Number of triangles kept when every `step`-th of `total` is taken.
pub open spec fn kept_count(total: int, step: int) -> int {
    (total + step - 1) / step
}

/// The triangles `0, step, 2 * step, ...` of `indices`, in order.
pub open spec fn every_nth_triangle(indices: Seq<u32>, step: int) -> Seq<u32> {
    Seq::new(
        (3 * kept_count((indices.len() / 3) as int, step)) as nat,
        |j: int| indices[3 * ((j / 3) * step) + j % 3],
    )
}

/// What `simplify_mesh` returns: the index list itself when it has at most
/// `target` triangles, else every `step`-th triangle.
pub open spec fn simplified(indices: Seq<u32>, target: int) -> Seq<u32> {
    let total = indices.len() / 3;
    if total <= target {
        indices
    } else {
        every_nth_triangle(indices, decimation_step(total as int, target))
    }
}

proof fn lemma_decimation_bound(total: int, target: int)
    requires
        0 < target < total,
    ensures
        1 <= decimation_step(total, target) <= total,
        1 <= kept_count(total, decimation_step(total, target)) <= target,
{
    let step = decimation_step(total, target);
    assert(step * target >= total && step >= 1 && step <= total) by (nonlinear_arith)
        requires
            step == (total + target - 1) / target,
            0 < target < total,
    ;
    let count = kept_count(total, step);
    assert(1 <= count <= target) by (nonlinear_arith)
        requires
            count == (total + step - 1) / step,
            step * target >= total,
            1 <= step <= total,
            0 < target < total,
    {
        assert(count * step <= total + step - 1);
        assert(count * step > total - 1);
        if count > target {
            assert((count - 1) * step >= target * step);
        }
    }
}

/// A decimated index list never has more than `target` triangles, and it
/// is empty only when the input has no triangle.
pub proof fn lemma_simplify_bound(indices: Seq<u32>, target: int)
    requires
        target > 0,
        indices.len() % 3 == 0,
    ensures
        simplified(indices, target).len() / 3 <= target,
        simplified(indices, target).len() % 3 == 0,
        indices.len() > 0 ==> simplified(indices, target).len() > 0,
{
    let total = indices.len() / 3;
    if total > target {
        lemma_decimation_bound(total as int, target);
    }
}

/// Reduce a triangle list towards `target_triangles` by keeping every
/// `step`-th triangle, `step` being the triangle count divided by the
/// target and rounded up; a list already within the target is returned
/// whole.
pub fn simplify_mesh(indices: &[u32], target_triangles: usize) -> (out: Vec<u32>)
    requires
        indices@.len() / 3 > target_triangles ==> target_triangles > 0,
    ensures
        out@ == simplified(indices@, target_triangles as int),
{
    let total = indices.len() / 3;
    if total <= target_triangles {
        let mut copy: Vec<u32> = Vec::new();
        let mut i: usize = 0;
        while i < indices.len()
            invariant
                i <= indices@.len(),
                copy@ == indices@.subrange(0, i as int),
            decreases indices@.len() - i,
        {
            copy.push(indices[i]);
            i = i + 1;
            assert(copy@ =~= indices@.subrange(0, i as int));
        }
        assert(copy@ =~= indices@);
        return copy;
    }
    let step = (total + target_triangles - 1) / target_triangles;
    proof {
        lemma_decimation_bound(total as int, target_triangles as int);
    }
    let ghost want = every_nth_triangle(indices@, step as int);
    let mut out: Vec<u32> = Vec::new();
    let mut i: usize = 0;
    let mut kept: usize = 0;
    while i < total
        invariant
            total == indices@.len() / 3,
            1 <= step <= total,
            want == every_nth_triangle(indices@, step as int),
            i == kept * step,
            kept <= kept_count(total as int, step as int),
            i < total ==> kept < kept_count(total as int, step as int),
            i >= total ==> kept == kept_count(total as int, step as int),
            out@.len() == 3 * kept,
            forall|j: int| 0 <= j < out@.len() ==> out@[j] == want[j],
            kept_count(total as int, step as int) <= total,
            indices@.len() == indices.len(),
        decreases total - kept,
    {
        assert(3 * i + 2 < indices.len()) by (nonlinear_arith)
            requires
                i < total,
                total == indices@.len() / 3,
                indices@.len() == indices.len(),
        ;
        let ghost n0 = out@.len();
        out.push(indices[3 * i]);
        out.push(indices[3 * i + 1]);
        out.push(indices[3 * i + 2]);
        proof {
            assert forall|j: int| n0 <= j < out@.len() implies out@[j] == want[j] by {
                assert(j / 3 == kept) by (nonlinear_arith)
                    requires
                        n0 == 3 * kept,
                        n0 <= j < n0 + 3,
                ;
                assert(j % 3 == j - n0) by (nonlinear_arith)
                    requires
                        n0 == 3 * kept,
                        n0 <= j < n0 + 3,
                ;
                assert(3 * ((j / 3) * step) + j % 3 == 3 * i + (j - n0));
            }
        }
        let ghost i0 = i;
        let ghost k0 = kept;
        i = i + step;
        kept = kept + 1;
        proof {
            let kc = kept_count(total as int, step as int);
            assert(i == kept * step && (i < total ==> kept < kc) && (i >= total ==> kept >= kc)) by (nonlinear_arith)
                requires
                    i0 == k0 * step,
                    i0 < total,
                    i == i0 + step,
                    kept == k0 + 1,
                    kc == (total + step - 1) as int / (step as int),
                    step >= 1,
            {
                assert(kept * step == k0 * step + step);
            }
        }
    }
    assert(out@ =~= want);
    out
}

/// A level's descriptor moved behind packed lists that already hold
/// `v_off` vertex indices and `t_off` micro-indices (both offsets are
/// positions in their packed lists).
pub open spec fn shifted_meshlet(d: MeshletData, v_off: int, t_off: int) -> MeshletData {
    MeshletData {
        vertex_offset: (d.vertex_offset + v_off) as u32,
        triangle_offset: (d.triangle_offset + t_off) as u32,
        vertex_count: d.vertex_count,
        triangle_count: d.triangle_count,
    }
}

/// Append one level of detail to the packed lists of a LOD chain: its
/// vertex and triangle indices go behind those already there, and its
/// descriptors come back with the vertex offset moved by the number of
/// vertex indices before it and the triangle offset moved by the number of
/// micro-indices before it.
pub fn append_lod_level(
    vertex_indices: &mut Vec<u32>,
    triangle_indices: &mut Vec<u8>,
    level: &MeshletClusters,
) -> (shifted: Vec<MeshletData>)
    requires
        old(vertex_indices)@.len() <= u32::MAX,
        old(triangle_indices)@.len() <= u32::MAX,
        forall|m: int|
            0 <= m < level.meshlets@.len() ==> {
                &&& (#[trigger] level.meshlets@[m]).vertex_offset + old(vertex_indices)@.len() <= u32::MAX
                &&& level.meshlets@[m].triangle_offset + old(triangle_indices)@.len() <= u32::MAX
            },
    ensures
        final(vertex_indices)@ == old(vertex_indices)@ + level.vertex_indices@,
        final(triangle_indices)@ == old(triangle_indices)@ + level.triangle_indices@,
        shifted@.len() == level.meshlets@.len(),
        forall|m: int|
            0 <= m < shifted@.len() ==> #[trigger] shifted@[m] == shifted_meshlet(
                level.meshlets@[m],
                old(vertex_indices)@.len() as int,
                old(triangle_indices)@.len() as int,
            ),
{
    let v_off = vertex_indices.len() as u32;
    let t_off = triangle_indices.len() as u32;
    let mut shifted: Vec<MeshletData> = Vec::new();
    let n = level.meshlets.len();
    let mut i: usize = 0;
    while i < n
        invariant
            n == level.meshlets@.len(),
            i <= n,
            v_off == old(vertex_indices)@.len(),
            t_off == old(triangle_indices)@.len(),
            forall|m: int|
                0 <= m < level.meshlets@.len() ==> {
                    &&& (#[trigger] level.meshlets@[m]).vertex_offset + v_off <= u32::MAX
                    &&& level.meshlets@[m].triangle_offset + t_off <= u32::MAX
                },
            shifted@.len() == i,
            forall|m: int|
                0 <= m < i ==> #[trigger] shifted@[m] == shifted_meshlet(
                    level.meshlets@[m],
                    v_off as int,
                    t_off as int,
                ),
        decreases n - i,
    {
        let d = level.meshlets[i];
        shifted.push(
            MeshletData {
                vertex_offset: d.vertex_offset + v_off,
                triangle_offset: d.triangle_offset + t_off,
                vertex_count: d.vertex_count,
                triangle_count: d.triangle_count,
            },
        );
        i = i + 1;
    }
    append_u32(vertex_indices, &level.vertex_indices);
    append_u8(triangle_indices, &level.triangle_indices);
    shifted
}

} // verus!
