use jackdaw_api::mesh::{brush_mesh_from_cache, fan_triangulate, BrushMeshCache};

#[test]
fn quad_becomes_two_triangles() {
    let polys = vec![vec![0usize, 1, 2, 3]];
    assert_eq!(fan_triangulate(&polys), vec![0u32, 1, 2, 0, 2, 3]);
}

#[test]
fn pentagon_fans_from_first_corner() {
    let polys = vec![vec![4usize, 5, 6, 7, 8]];
    assert_eq!(fan_triangulate(&polys), vec![4u32, 5, 6, 4, 6, 7, 4, 7, 8]);
}

#[test]
fn triangle_is_kept_as_is() {
    let polys = vec![vec![2usize, 0, 1]];
    assert_eq!(fan_triangulate(&polys), vec![2u32, 0, 1]);
}

#[test]
fn degenerate_polygons_contribute_nothing() {
    let polys = vec![vec![], vec![1usize], vec![1usize, 2], vec![3usize, 4, 5]];
    assert_eq!(fan_triangulate(&polys), vec![3u32, 4, 5]);
}

#[test]
fn faces_are_triangulated_in_order() {
    let polys = vec![vec![0usize, 1, 2, 3], vec![4usize, 5, 6]];
    assert_eq!(fan_triangulate(&polys), vec![0u32, 1, 2, 0, 2, 3, 4, 5, 6]);
}

#[test]
fn no_faces_no_indices() {
    let polys: Vec<Vec<usize>> = Vec::new();
    assert!(fan_triangulate(&polys).is_empty());
}

#[test]
fn indices_are_converted_to_u32_by_truncation() {
    let big = (u32::MAX as u64 + 2) as usize;
    let polys = vec![vec![big, 0, 7]];
    assert_eq!(fan_triangulate(&polys), vec![1u32, 0, 7]);
}

#[test]
fn brush_without_vertices_has_no_mesh() {
    let cache = BrushMeshCache { vertex_count: 0, face_polygons: vec![vec![0, 1, 2]] };
    assert!(brush_mesh_from_cache(&cache).is_none());
}

#[test]
fn brush_mesh_is_built_over_its_vertices() {
    let cache = BrushMeshCache {
        vertex_count: 8,
        face_polygons: vec![vec![0, 1, 2, 3], vec![4, 5, 6, 7]],
    };
    let mesh = brush_mesh_from_cache(&cache).expect("a brush with vertices has a mesh");
    assert_eq!(mesh.vertex_count, 8);
    assert_eq!(mesh.indices, vec![0u32, 1, 2, 0, 2, 3, 4, 5, 6, 4, 6, 7]);
    assert_eq!(mesh.indices.len(), 3 * (2 + 2));
    assert!(mesh.indices.iter().all(|&i| (i as usize) < mesh.vertex_count));
}

#[test]
fn brush_with_vertices_and_no_faces_has_an_empty_mesh() {
    let cache = BrushMeshCache { vertex_count: 3, face_polygons: Vec::new() };
    let mesh = brush_mesh_from_cache(&cache).expect("vertices make a mesh");
    assert_eq!(mesh.vertex_count, 3);
    assert!(mesh.indices.is_empty());
}
