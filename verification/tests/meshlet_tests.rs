use quasar_render::meshlet::{
    append_lod_level, cluster_meshlets, simplify_mesh, MeshletData, MAX_MESHLET_TRIANGLES, MAX_MESHLET_VERTICES,
};

fn grid(n: u32) -> Vec<u32> {
    let mut indices = Vec::new();
    for y in 0..(n - 1) {
        for x in 0..(n - 1) {
            let tl = y * n + x;
            let tr = tl + 1;
            let bl = tl + n;
            let br = bl + 1;
            indices.extend_from_slice(&[tl, bl, tr]);
            indices.extend_from_slice(&[tr, bl, br]);
        }
    }
    indices
}

#[test]
fn build_single_triangle() {
    let indices = [0u32, 1, 2];
    let mesh = cluster_meshlets(&indices);
    assert_eq!(mesh.meshlets.len(), 1);
    assert_eq!(mesh.meshlets[0].vertex_count, 3);
    assert_eq!(mesh.meshlets[0].triangle_count, 1);
}

#[test]
fn splits_when_full() {
    let indices = grid(20);
    let mesh = cluster_meshlets(&indices);
    assert!(mesh.meshlets.len() > 1, "expected multiple meshlets");
    for m in &mesh.meshlets {
        assert!(m.vertex_count as usize <= MAX_MESHLET_VERTICES);
        assert!(m.triangle_count as usize <= MAX_MESHLET_TRIANGLES);
    }
}

#[test]
fn simplify_reduces_triangles() {
    let indices: Vec<u32> = (0..300).collect();
    let simplified = simplify_mesh(&indices, 25);
    assert!(simplified.len() / 3 <= 25);
    assert!(simplified.len() > 0);
}

#[test]
fn clusters_read_back_the_input_indices() {
    let indices = grid(12);
    let mesh = cluster_meshlets(&indices);
    assert_eq!(mesh.triangle_indices.len(), indices.len());
    let mut k = 0;
    for m in &mesh.meshlets {
        for c in 0..(3 * m.triangle_count) as usize {
            let local = mesh.triangle_indices[m.triangle_offset as usize + c] as usize;
            assert!(local < m.vertex_count as usize);
            assert_eq!(mesh.vertex_indices[m.vertex_offset as usize + local], indices[k]);
            k += 1;
        }
    }
    assert_eq!(k, indices.len());
}

#[test]
fn shared_vertices_are_stored_once() {
    let mesh = cluster_meshlets(&[0, 1, 2, 2, 1, 3]);
    assert_eq!(mesh.meshlets.len(), 1);
    assert_eq!(mesh.vertex_indices, vec![0, 1, 2, 3]);
    assert_eq!(mesh.triangle_indices, vec![0, 1, 2, 2, 1, 3]);
}

#[test]
fn a_full_meshlet_is_closed_before_the_next_triangle() {
    // 127 disjoint-free triangles on 3 vertices: the 127th starts a new meshlet.
    let mut indices = Vec::new();
    for _ in 0..127 {
        indices.extend_from_slice(&[0u32, 1, 2]);
    }
    let mesh = cluster_meshlets(&indices);
    assert_eq!(mesh.meshlets.len(), 2);
    assert_eq!(mesh.meshlets[0].triangle_count, 126);
    assert_eq!(mesh.meshlets[1].triangle_count, 1);
    assert_eq!(mesh.meshlets[1].triangle_offset, 378);
}

#[test]
fn simplify_keeps_small_meshes_whole_and_takes_every_nth() {
    let indices: Vec<u32> = (0..12).collect();
    assert_eq!(simplify_mesh(&indices, 4), indices);
    assert_eq!(simplify_mesh(&indices, 2), vec![0, 1, 2, 6, 7, 8]);
    assert_eq!(simplify_mesh(&indices, 3), vec![0, 1, 2, 6, 7, 8]);
    assert_eq!(simplify_mesh(&indices, 1), vec![0, 1, 2]);
    let ten: Vec<u32> = (0..30).collect();
    assert_eq!(simplify_mesh(&ten, 4), vec![0, 1, 2, 9, 10, 11, 18, 19, 20, 27, 28, 29]);
}

#[test]
fn lod_levels_are_appended_with_shifted_offsets() {
    let level0 = cluster_meshlets(&[0, 1, 2]);
    let level1 = cluster_meshlets(&[3, 4, 5, 5, 4, 6]);
    let mut vi = Vec::new();
    let mut ti = Vec::new();
    let a = append_lod_level(&mut vi, &mut ti, &level0);
    let b = append_lod_level(&mut vi, &mut ti, &level1);
    assert_eq!(a, vec![MeshletData { vertex_offset: 0, triangle_offset: 0, vertex_count: 3, triangle_count: 1 }]);
    assert_eq!(b, vec![MeshletData { vertex_offset: 3, triangle_offset: 3, vertex_count: 4, triangle_count: 2 }]);
    assert_eq!(vi, vec![0, 1, 2, 3, 4, 5, 6]);
    assert_eq!(ti.len(), 9);
}
