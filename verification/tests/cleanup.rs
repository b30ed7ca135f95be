use asteroids::cleanup::{
    copy_vertices, create_mesh_2d, merge_vertices, recenter_mesh, remove_unused_vertices,
    vertices_center,
};
use asteroids::vec2::{Vec2, MERGE_TOLERANCE};

#[test]
fn test_remove_unused_vertices_renumbers() {
    let mut vertices = vec![
        Vec2::new(0, 0),
        Vec2::new(1, 1),
        Vec2::new(2, 2),
        Vec2::new(3, 3),
        Vec2::new(4, 4),
    ];
    let mut triangles = vec![[4, 1, 3], [3, 1, 4]];
    remove_unused_vertices(&mut vertices, &mut triangles);
    assert_eq!(vertices, vec![Vec2::new(1, 1), Vec2::new(3, 3), Vec2::new(4, 4)]);
    assert_eq!(triangles, vec![[2, 0, 1], [1, 0, 2]]);
}

#[test]
fn test_remove_unused_vertices_leaves_no_orphan() {
    let mut vertices: Vec<Vec2> = (0..20).map(|i| Vec2::new(i, 2 * i)).collect();
    let mut triangles = vec![[19, 0, 7], [7, 3, 19], [11, 12, 13]];
    remove_unused_vertices(&mut vertices, &mut triangles);
    assert_eq!(vertices.len(), 7);
    for v in 0..vertices.len() {
        assert!(triangles.iter().any(|t| t.contains(&v)));
    }
    assert_eq!(vertices[triangles[2][0]], Vec2::new(11, 22));
}

#[test]
fn test_remove_unused_vertices_without_triangles() {
    let mut vertices = vec![Vec2::new(0, 0), Vec2::new(1, 1)];
    let mut triangles: Vec<[usize; 3]> = vec![];
    remove_unused_vertices(&mut vertices, &mut triangles);
    assert!(vertices.is_empty());
    assert!(triangles.is_empty());
}

#[test]
fn test_merge_vertices_welds_to_the_first_close_vertex() {
    let t = MERGE_TOLERANCE;
    let mut vertices = vec![
        Vec2::new(0, 0),
        Vec2::new(10 * t, 0),
        Vec2::new(t, -t),
        Vec2::new(0, 10 * t),
        Vec2::new(t + 1, 0),
        Vec2::new(2 * t, 0),
    ];
    let mut triangles = vec![[0, 1, 3], [2, 1, 3], [4, 1, 3], [5, 4, 3], [0, 2, 1]];
    merge_vertices(&mut vertices, &mut triangles);
    // Vertex 2 lies within the tolerance of vertex 0 on both axes and is
    // welded to it; vertex 4 lies one step too far from vertex 0; vertex 5
    // lies within the tolerance of vertex 4.
    assert_eq!(
        vertices,
        vec![Vec2::new(0, 0), Vec2::new(10 * t, 0), Vec2::new(0, 10 * t), Vec2::new(t + 1, 0)]
    );
    // The triangle (5, 4, 3) is left with two corners, the triangle
    // (0, 2, 1) too: both are dropped.
    assert_eq!(triangles, vec![[0, 1, 2], [0, 1, 2], [3, 1, 2]]);
}

#[test]
fn test_merge_vertices_drops_a_triangle_with_two_corners_left() {
    let mut vertices = vec![Vec2::new(0, 0), Vec2::new(1, 1), Vec2::new(1 << 20, 0)];
    let mut triangles = vec![[0, 1, 2]];
    merge_vertices(&mut vertices, &mut triangles);
    assert_eq!(vertices, vec![Vec2::new(0, 0), Vec2::new(1 << 20, 0)]);
    assert!(triangles.is_empty());
}

#[test]
fn test_vertices_center_is_the_middle_of_the_bounding_box() {
    // Not the centroid: three of the four points lie to the left.
    let vertices = [Vec2::new(0, 0), Vec2::new(1, 5), Vec2::new(2, -3), Vec2::new(100, 1)];
    assert_eq!(vertices_center(&vertices), Vec2::new(50, 1));
    assert_eq!(vertices_center(&[]), Vec2::new(0, 0));
    assert_eq!(vertices_center(&[Vec2::new(-7, 9)]), Vec2::new(-7, 9));
    // Halves are rounded down.
    assert_eq!(vertices_center(&[Vec2::new(0, 0), Vec2::new(1, -1)]), Vec2::new(0, -1));
    assert_eq!(vertices_center(&[Vec2::new(-3, 3), Vec2::new(0, 0)]), Vec2::new(-2, 1));
}

#[test]
fn test_recenter_mesh_returns_the_offset() {
    let mut vertices = vec![Vec2::new(10, 10), Vec2::new(20, 10), Vec2::new(20, 40)];
    let offset = recenter_mesh(&mut vertices);
    assert_eq!(offset, Vec2::new(15, 25));
    assert_eq!(vertices, vec![Vec2::new(-5, -15), Vec2::new(5, -15), Vec2::new(5, 15)]);
}

#[test]
fn test_recentering_twice_changes_nothing() {
    let shapes = [
        vec![Vec2::new(10, 10), Vec2::new(21, 10), Vec2::new(20, 43)],
        vec![Vec2::new(-1, 0), Vec2::new(0, 0)],
        vec![Vec2::new(-(1 << 30), -(1 << 30)), Vec2::new(1 << 30, (1 << 30) - 1)],
        vec![Vec2::new(5, 5)],
    ];
    for shape in shapes {
        let mut vertices = shape.clone();
        recenter_mesh(&mut vertices);
        let once = vertices.clone();
        let second = recenter_mesh(&mut vertices);
        assert_eq!(second, Vec2::new(0, 0));
        assert_eq!(vertices, once);
    }
}

#[test]
fn test_create_mesh_2d_flattens_the_triangles() {
    let vertices = [Vec2::new(0, 0), Vec2::new(1, 0), Vec2::new(0, 1), Vec2::new(1, 1)];
    let mesh = create_mesh_2d(&vertices, &[[0, 1, 2], [1, 3, 2]]);
    assert_eq!(mesh.vertices, vertices.to_vec());
    assert_eq!(mesh.indices, vec![0, 1, 2, 1, 3, 2]);
    assert_eq!(copy_vertices(&vertices), vertices.to_vec());
}
