use asteroids::mesh::Mesh;
use asteroids::mesh_utils::{calculate_mesh_area, distance_to_plane, is_ccw_winded};
use asteroids::split_mesh::{clean_side, split_mesh, split_pair, split_triangle};
use asteroids::mesh_utils::intersection_point;
use asteroids::vec2::{Plane2d, Vec2, MERGE_TOLERANCE, STEPS_PER_UNIT};

const SCALE: f64 = STEPS_PER_UNIT as f64;

fn point(x: f64, y: f64) -> Vec2 {
    Vec2::new((x * SCALE).round() as i64, (y * SCALE).round() as i64)
}

fn in_units(v: i64) -> f64 {
    v as f64 / SCALE
}

fn area_in_units(mesh: &Mesh) -> f64 {
    calculate_mesh_area(mesh) as f64 / (2.0 * SCALE * SCALE)
}

fn distance_in_units(a: Vec2, b: Vec2) -> f64 {
    let dx = in_units(a.x - b.x);
    let dy = in_units(a.y - b.y);
    (dx * dx + dy * dy).sqrt()
}

fn square(half_side: f64) -> Mesh {
    Mesh::new(
        vec![
            point(-half_side, -half_side),
            point(half_side, -half_side),
            point(half_side, half_side),
            point(-half_side, half_side),
        ],
        vec![
            0, 1, 2, // First triangle
            2, 3, 0, // Second triangle
        ],
    )
}

fn all_triangles_ccw(mesh: &Mesh) -> bool {
    mesh.indices
        .chunks(3)
        .all(|t| is_ccw_winded(&mesh.vertices, &[t[0], t[1], t[2]]))
}

fn no_orphans(mesh: &Mesh) -> bool {
    (0..mesh.vertices.len()).all(|v| mesh.indices.contains(&v))
}

#[test]
fn test_split_triangle() {
    let plane = Plane2d::new(Vec2::new(1, 0));
    let plane_point = point(0.0, 0.0);

    let vertices = vec![
        point(-1.0, 2.0),  // Left of plane
        point(-1.0, -2.0), // Right of plane
        point(1.0, 0.0),   // Left of plane
    ];

    let side_a = [2];
    let side_b = [0, 1];

    let mut indices_a = vec![];
    let mut indices_b = vec![];
    let mut side_a_vertex = vertices.clone();
    let mut side_b_vertex = side_a_vertex.clone();

    split_triangle(
        plane,
        plane_point,
        &vertices,
        side_a[0],
        &side_b,
        &mut indices_a,
        &mut side_a_vertex,
        &mut indices_b,
        &mut side_b_vertex,
    );

    assert_eq!(indices_a.len(), 1);
    assert_eq!(indices_b.len(), 2);

    let intersection1 = point(0.0, 1.0);
    let intersection2 = point(0.0, -1.0);

    assert!((distance_in_units(side_a_vertex[3], intersection1) - 0.0).abs() < 1e-6);
    assert!((distance_in_units(side_a_vertex[4], intersection2) - 0.0).abs() < 1e-6);
    assert!((distance_in_units(side_b_vertex[3], intersection1) - 0.0).abs() < 1e-6);
    assert!((distance_in_units(side_b_vertex[4], intersection2) - 0.0).abs() < 1e-6);

    assert!(is_ccw_winded(&side_a_vertex, &indices_a[0]));
    assert!(is_ccw_winded(&side_b_vertex, &indices_b[0]));
    assert!(is_ccw_winded(&side_b_vertex, &indices_b[1]));
}

#[test]
fn test_split_triangle_pieces() {
    let plane = Plane2d::new(Vec2::new(1, 0));
    let vertices = vec![Vec2::new(-10, 20), Vec2::new(-10, -20), Vec2::new(10, 0)];
    let mut indices_a = vec![];
    let mut indices_b = vec![];
    let mut side_a_vertex = vertices.clone();
    let mut side_b_vertex = vertices.clone();
    split_triangle(
        plane,
        Vec2::new(0, 0),
        &vertices,
        2,
        &[0, 1],
        &mut indices_a,
        &mut side_a_vertex,
        &mut indices_b,
        &mut side_b_vertex,
    );
    assert_eq!(side_a_vertex[3..], [Vec2::new(0, 10), Vec2::new(0, -10)]);
    assert_eq!(side_b_vertex, side_a_vertex);
    assert_eq!(indices_a, vec![[2, 3, 4]]);
    assert_eq!(indices_b, vec![[0, 4, 3], [1, 4, 0]]);
}

#[test]
fn test_split_mesh_vertically() {
    // Create a 2x2 rectangle mesh centered around (0, 0)
    let mesh = square(1.0);

    // Define the splitting direction
    let split_direction = Vec2::new(0, 1);

    // Split the mesh
    let [Some((mesh_a, offset_a)), Some((_mesh_b, _offset_b))] =
        split_mesh(&mesh, split_direction, Vec2::zero())
    else {
        unreachable!("Mesh should be valid");
    };

    // Validate the results
    // mesh_a should be the right half of the rectangle
    let expected_vertices_a = [
        [-0.5, -1.0, 0.0],
        [-0.5, 1.0, 0.0],
        [0.5, -1.0, 0.0],
        [0.5, 0.0, 0.0],
        [0.5, 1.0, 0.0],
    ];

    let expected_indices_a = [[0, 2, 3], [1, 3, 4], [0, 3, 1]];

    let expected_offset_a = [-0.5, 0.0];

    let mesh_a_vertices: Vec<[f64; 3]> = mesh_a
        .vertices
        .iter()
        .map(|v| [in_units(v.x), in_units(v.y), 0.0])
        .collect();

    let mesh_a_indices = mesh_a.indices.clone();

    assert_eq!(mesh_a_vertices.len(), expected_vertices_a.len());
    for (expected, actual) in expected_vertices_a.iter().zip(mesh_a_vertices.iter()) {
        for (expected, actual) in expected.iter().zip(actual) {
            assert!((*expected - *actual).abs() < 0.0001);
        }
    }

    assert_eq!(mesh_a_indices.len(), 9);
    for (expected, actual) in expected_indices_a.iter().zip(mesh_a_indices.chunks(3)) {
        for (expected, actual) in expected.iter().zip(actual) {
            assert_eq!(*expected, *actual);
        }
    }

    assert!((in_units(offset_a.x) - expected_offset_a[0]).abs() < 0.0001);
}

#[test]
fn test_square_split_gives_two_halves() {
    let mesh = square(1.0);
    let [Some((mesh_a, offset_a)), Some((mesh_b, offset_b))] =
        split_mesh(&mesh, Vec2::new(0, 1), Vec2::zero())
    else {
        unreachable!("both sides are there");
    };
    assert_eq!(area_in_units(&mesh_a), 2.0);
    assert_eq!(area_in_units(&mesh_b), 2.0);
    assert_eq!(in_units(offset_a.x), -0.5);
    assert_eq!(in_units(offset_a.y), 0.0);
    assert_eq!(in_units(offset_b.x), 0.5);
    assert_eq!(in_units(offset_b.y), 0.0);
    // The areas of the two sides add up to the area of the square.
    assert_eq!(area_in_units(&mesh_a) + area_in_units(&mesh_b), area_in_units(&mesh));
    assert!(all_triangles_ccw(&mesh_a) && all_triangles_ccw(&mesh_b));
    assert!(no_orphans(&mesh_a) && no_orphans(&mesh_b));
    assert!(mesh_a.is_well_formed() && mesh_b.is_well_formed());
}

#[test]
fn test_cut_beside_the_square() {
    let mesh = square(1.0);
    let [side_a, side_b] = split_mesh(&mesh, Vec2::new(0, 1), point(5.0, 5.0));
    // The normal points to the left, and the whole square lies to the left
    // of the line x = 5.
    let (whole, offset) = side_a.expect("side A holds the square");
    assert!(side_b.is_none());
    assert_eq!(area_in_units(&whole), 4.0);
    assert_eq!(offset, Vec2::zero());
    assert_eq!(whole.vertices, mesh.vertices);
    assert_eq!(whole.indices, mesh.indices);

    let [side_a, side_b] = split_mesh(&mesh, Vec2::new(0, 1), point(-5.0, 5.0));
    assert!(side_a.is_none());
    let (whole, _) = side_b.expect("side B holds the square");
    assert_eq!(area_in_units(&whole), 4.0);
}

#[test]
fn test_cut_keeps_the_sides_apart() {
    let mesh = Mesh::new(
        vec![
            point(-30.0, -20.0),
            point(40.0, -15.0),
            point(52.5, 30.0),
            point(-10.0, 45.0),
            point(5.0, 2.5),
        ],
        vec![0, 1, 4, 1, 2, 4, 2, 3, 4, 3, 0, 4],
    );
    let direction = Vec2::new(3, 7);
    let cut_point = point(-7.0, -2.0);
    let normal = Vec2::new(-direction.y, direction.x);
    let plane = Plane2d::new(normal);
    let slack = ((normal.x.abs() + normal.y.abs()) / 2) as i128 + 1;
    let [Some((mesh_a, offset_a)), Some((mesh_b, offset_b))] =
        split_mesh(&mesh, direction, cut_point)
    else {
        unreachable!("the line passes through the mesh");
    };
    for v in &mesh_a.vertices {
        let back = Vec2::new(v.x + offset_a.x, v.y + offset_a.y);
        assert!(distance_to_plane(back, plane, cut_point) >= -slack);
    }
    for v in &mesh_b.vertices {
        let back = Vec2::new(v.x + offset_b.x, v.y + offset_b.y);
        assert!(distance_to_plane(back, plane, cut_point) <= slack);
    }
    // No vertex lies within the merge tolerance of another, so that welding
    // moves nothing: the areas add up, but for the rounding of four crossing
    // points.
    let total = area_in_units(&mesh_a) + area_in_units(&mesh_b);
    assert!((total - area_in_units(&mesh)).abs() < 0.01);
    assert!(all_triangles_ccw(&mesh_a) && all_triangles_ccw(&mesh_b));
    assert!(no_orphans(&mesh_a) && no_orphans(&mesh_b));
}

#[test]
fn test_split_pair_agrees_with_split_mesh() {
    let mesh = square(3.0);
    let (first, second) = split_pair(&mesh, Vec2::new(1, 1), point(0.5, 0.0));
    let [a, b] = split_mesh(&mesh, Vec2::new(1, 1), point(0.5, 0.0));
    let (first, a) = (first.unwrap(), a.unwrap());
    let (second, b) = (second.unwrap(), b.unwrap());
    assert_eq!(first.0.vertices, a.0.vertices);
    assert_eq!(first.0.indices, a.0.indices);
    assert_eq!(first.1, a.1);
    assert_eq!(second.0.vertices, b.0.vertices);
    assert_eq!(second.0.indices, b.0.indices);
    assert_eq!(second.1, b.1);
}

#[test]
fn test_split_without_direction_puts_all_on_side_b() {
    let mesh = square(1.0);
    let [side_a, side_b] = split_mesh(&mesh, Vec2::zero(), Vec2::zero());
    assert!(side_a.is_none());
    assert_eq!(area_in_units(&side_b.unwrap().0), 4.0);
}

#[test]
fn test_split_of_an_empty_mesh() {
    let mesh = Mesh::new(vec![], vec![]);
    let [side_a, side_b] = split_mesh(&mesh, Vec2::new(0, 1), Vec2::zero());
    assert!(side_a.is_none());
    assert!(side_b.is_none());
    let unused = Mesh::new(vec![Vec2::new(1, 1)], vec![]);
    let [side_a, side_b] = split_mesh(&unused, Vec2::new(0, 1), Vec2::zero());
    assert!(side_a.is_none());
    assert!(side_b.is_none());
}

#[test]
fn test_vertex_on_the_line_counts_for_side_b() {
    // The line x = 0 passes through the corner (0, 0) of the triangle: its
    // distance is zero, so it lies on side B with the corners to the right.
    let mesh = Mesh::new(vec![point(0.0, 0.0), point(4.0, 0.0), point(4.0, 4.0)], vec![0, 1, 2]);
    let [side_a, side_b] = split_mesh(&mesh, Vec2::new(0, 1), Vec2::zero());
    assert!(side_a.is_none());
    assert_eq!(area_in_units(&side_b.unwrap().0), 8.0);
}

#[test]
fn test_sliver_thinner_than_the_tolerance_is_dropped() {
    // Side A of the cut at x = -0.9 is a strip 0.1 units wide: welding folds
    // its vertices onto each other, and no triangle is left.
    let mesh = square(1.0);
    let [side_a, side_b] = split_mesh(&mesh, Vec2::new(0, 1), point(-0.9, 0.0));
    assert!(side_a.is_none());
    assert!(side_b.is_some());
}

#[test]
fn test_clean_side() {
    let mut vertices = vec![
        Vec2::new(999, 999),
        point(0.0, 0.0),
        point(4.0, 0.0),
        point(4.0, 2.0),
        point(4.0, 2.25),
    ];
    let mut triangles = vec![[1, 2, 3], [1, 3, 4]];
    let (mesh, offset) = clean_side(&mut vertices, &mut triangles).expect("a triangle is left");
    assert_eq!(offset, point(2.0, 1.0));
    assert_eq!(mesh.vertices, vec![point(-2.0, -1.0), point(2.0, -1.0), point(2.0, 1.0)]);
    assert_eq!(mesh.indices, vec![0, 1, 2]);

    let mut nothing: Vec<[usize; 3]> = vec![];
    assert!(clean_side(&mut vec![Vec2::new(0, 0)], &mut nothing).is_none());
    // A side of which only triangles with one vertex are left is no mesh.
    let mut close = vec![Vec2::new(0, 0), Vec2::new(1, 0), Vec2::new(0, 1)];
    assert!(clean_side(&mut close, &mut vec![[0, 1, 2]]).is_none());
}

#[test]
fn test_welding_can_leave_an_orphan() {
    // The second vertex is welded to the first. That leaves the first
    // triangle with two corners, and it is dropped: the third vertex, which
    // no other triangle uses, stays behind without a triangle.
    let t = MERGE_TOLERANCE;
    let mut vertices = vec![
        Vec2::new(0, 0),
        Vec2::new(t / 2, 0),
        Vec2::new(5 * t, 5 * t),
        Vec2::new(20 * t, 0),
        Vec2::new(0, 20 * t),
    ];
    let mut triangles = vec![[0, 1, 2], [0, 3, 4]];
    let (mesh, _) = clean_side(&mut vertices, &mut triangles).expect("one triangle is left");
    assert_eq!(mesh.vertices.len(), 4);
    assert_eq!(mesh.indices, vec![0, 2, 3]);
    assert!(!no_orphans(&mesh));
}

#[test]
fn test_welding_can_turn_a_triangle_over() {
    // The last vertex, the tip of a flat triangle that winds
    // counter-clockwise, lies within the tolerance of the first vertex, on
    // the other side of the base: welded to it, the triangle winds clockwise.
    let t = MERGE_TOLERANCE;
    let mut vertices = vec![
        Vec2::new(10 * t, -t / 4),
        Vec2::new(0, -10 * t),
        Vec2::new(20 * t, -10 * t),
        Vec2::new(0, 0),
        Vec2::new(20 * t, 0),
        Vec2::new(10 * t, t / 4),
    ];
    let mut triangles = vec![[0, 1, 2], [3, 4, 5]];
    assert!(is_ccw_winded(&vertices, &triangles[0]));
    assert!(is_ccw_winded(&vertices, &triangles[1]));
    let (mesh, _) = clean_side(&mut vertices, &mut triangles).expect("both triangles are left");
    assert_eq!(mesh.indices, vec![0, 1, 2, 3, 4, 0]);
    assert!(is_ccw_winded(&mesh.vertices, &[0, 1, 2]));
    assert!(!is_ccw_winded(&mesh.vertices, &[3, 4, 0]));
}

#[test]
fn test_rounding_can_take_a_crossing_point_off_the_line() {
    // The line x + 2 y = 0 crosses the edge from (1, 0) to (0, -1) at
    // (2/3, -1/3), which is rounded to (1, 0): a point at distance 1 on the
    // side of positive distance, though it is a vertex of both sides.
    let plane = Plane2d::new(Vec2::new(1, 2));
    let origin = Vec2::zero();
    let crossing = intersection_point(&plane, origin, Vec2::new(1, 0), Vec2::new(0, -1));
    assert_eq!(crossing, Vec2::new(1, 0));
    assert_eq!(distance_to_plane(crossing, plane, origin), 1);
    // No rounded crossing point lies farther off than half the sum of the
    // magnitudes of the normal's coordinates.
    assert!(2 * distance_to_plane(crossing, plane, origin).abs() <= 1 + 2);
}

#[test]
fn test_rounding_changes_the_area_a_little() {
    // The line x = 1 crosses the edge from (0, 0) to (3, 2) at (1, 2/3),
    // which is rounded to (1, 1). The three pieces of the triangle then have
    // the areas 1, 2 and 4 half square steps: one more than the 6 of the
    // triangle.
    let plane = Plane2d::new(Vec2::new(1, 0));
    let vertices = vec![Vec2::new(0, 0), Vec2::new(3, 0), Vec2::new(3, 2)];
    let mut indices_a = vec![];
    let mut indices_b = vec![];
    let mut side_a_vertex = vertices.clone();
    let mut side_b_vertex = vertices.clone();
    split_triangle(
        plane,
        Vec2::new(1, 0),
        &vertices,
        0,
        &[1, 2],
        &mut indices_a,
        &mut side_a_vertex,
        &mut indices_b,
        &mut side_b_vertex,
    );
    assert_eq!(side_a_vertex[3..], [Vec2::new(1, 0), Vec2::new(1, 1)]);
    let flat = |triangles: &Vec<[usize; 3]>| -> Vec<usize> {
        triangles.iter().flat_map(|t| t.iter().copied()).collect()
    };
    let lone = asteroids::mesh_utils::calculate_area(&side_a_vertex, &flat(&indices_a));
    let pair = asteroids::mesh_utils::calculate_area(&side_b_vertex, &flat(&indices_b));
    let whole = asteroids::mesh_utils::calculate_area(&vertices, &[0, 1, 2]);
    assert_eq!(whole, 6);
    assert_eq!(lone, 1);
    assert_eq!(pair, 2 + 4);
}

#[test]
fn test_exact_cut_conserves_the_area() {
    // The line x = 1 crosses the edges of this triangle at the lattice
    // points (1, 0) and (1, 1): the pieces have the area of the triangle.
    let plane = Plane2d::new(Vec2::new(1, 0));
    let vertices = vec![Vec2::new(0, 0), Vec2::new(3, 0), Vec2::new(3, 3)];
    let mut indices_a = vec![];
    let mut indices_b = vec![];
    let mut side_a_vertex = vertices.clone();
    let mut side_b_vertex = vertices.clone();
    split_triangle(
        plane,
        Vec2::new(1, 0),
        &vertices,
        0,
        &[1, 2],
        &mut indices_a,
        &mut side_a_vertex,
        &mut indices_b,
        &mut side_b_vertex,
    );
    let flat = |triangles: &Vec<[usize; 3]>| -> Vec<usize> {
        triangles.iter().flat_map(|t| t.iter().copied()).collect()
    };
    let lone = asteroids::mesh_utils::calculate_area(&side_a_vertex, &flat(&indices_a));
    let pair = asteroids::mesh_utils::calculate_area(&side_b_vertex, &flat(&indices_b));
    assert_eq!(lone + pair, 9);
}
