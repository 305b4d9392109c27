//! Buffer sizes of the ray-tracing acceleration structures.
use vstd::prelude::*;

verus! {

/// Triangles of a mesh segment: from its indices when it has any, else
/// from its vertices.
pub open spec fn blas_triangles(vertex_count: u32, index_count: u32) -> int {
    if index_count > 0 {
        index_count as int / 3
    } else {
        vertex_count as int / 3
    }
}

/// Conservative byte size of a bottom-level structure: 64 bytes per
/// triangle, at least 1024, plus a 256-byte header.
pub open spec fn blas_size(vertex_count: u32, index_count: u32) -> int {
    let body = 64 * blas_triangles(vertex_count, index_count);
    (if body < 1024 { 1024 } else { body }) + 256
}

/// Byte size estimate of the buffer that holds a mesh's bottom-level
/// acceleration structure.
pub fn blas_size_estimate(vertex_count: u32, index_count: u32) -> (size: u64)
    ensures
        size == blas_size(vertex_count, index_count),
{
    let tri_count = if index_count > 0 {
        index_count / 3
    } else {
        vertex_count / 3
    };
    let body = tri_count as u64 * 64;
    let body = if body < 1024 {
        1024
    } else {
        body
    };
    body + 256
}

/// Byte size of the top-level structure's buffer: 128 bytes per instance
/// plus a 512-byte header.
pub fn tlas_buffer_size(max_instances: u32) -> (size: u64)
    ensures
        size == 128 * max_instances + 512,
{
    max_instances as u64 * 128 + 512
}

} // verus!
