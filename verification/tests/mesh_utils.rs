use asteroids::mesh::Mesh;
use asteroids::mesh_utils::{
    calculate_area, calculate_mesh_area, distance_to_plane, ensure_ccw,
    get_intersection_points_2d, intersection_point, is_ccw_winded, mesh_longest_axis,
    mesh_longest_span, valid_mesh, vector_with_length,
    vertices_have_extent,
};
use asteroids::vec2::{Plane2d, Vec2, STEPS_PER_UNIT};

const S: f64 = STEPS_PER_UNIT as f64;

fn at(x: f64, y: f64) -> Vec2 {
    Vec2::new((x * S).round() as i64, (y * S).round() as i64)
}

fn units(steps: i128) -> f64 {
    steps as f64 / S
}

fn square_units(half_square_steps: u128) -> f64 {
    half_square_steps as f64 / (2.0 * S * S)
}

fn length_between(a: Vec2, b: Vec2) -> f64 {
    let dx = (a.x - b.x) as f64 / S;
    let dy = (a.y - b.y) as f64 / S;
    (dx * dx + dy * dy).sqrt()
}

#[test]
fn test_is_ccw_winded_ccw() {
    let vertices = [at(0.0, 0.0), at(1.0, 0.0), at(0.0, 1.0)];
    let indices = [0, 1, 2];
    assert!(is_ccw_winded(&vertices, &indices));
}

#[test]
fn test_is_ccw_winded_cw() {
    let vertices = [at(0.0, 0.0), at(0.0, 1.0), at(1.0, 0.0)];
    let indices = [0, 1, 2];
    assert!(!is_ccw_winded(&vertices, &indices));
}

#[test]
fn test_is_ccw_winded_collinear() {
    let vertices = [at(0.0, 0.0), at(1.0, 1.0), at(2.0, 2.0)];
    let indices = [0, 1, 2];
    assert!(is_ccw_winded(&vertices, &indices));
}

#[test]
fn test_ensure_ccw_swaps_clockwise() {
    let vertices = [at(0.0, 0.0), at(0.0, 1.0), at(1.0, 0.0)];
    let mut indices = [0, 1, 2];
    ensure_ccw(&vertices, &mut indices);
    assert_eq!(indices, [0, 2, 1]);
    assert!(is_ccw_winded(&vertices, &indices));
}

#[test]
fn test_ensure_ccw_keeps_counter_clockwise() {
    let vertices = [at(0.0, 0.0), at(1.0, 0.0), at(0.0, 1.0)];
    let mut indices = [2, 0, 1];
    ensure_ccw(&vertices, &mut indices);
    assert_eq!(indices, [2, 0, 1]);
}

#[test]
fn test_ensure_ccw_is_idempotent_on_a_grid() {
    let coordinates = [-1000.0, -3.5, 0.0, 0.25, 999.0];
    for &x1 in &coordinates {
        for &y1 in &coordinates {
            for &x2 in &coordinates {
                for &y2 in &coordinates {
                    let vertices = [at(x1, y1), at(x2, y2), at(17.0, -4.0)];
                    let mut indices = [0, 1, 2];
                    ensure_ccw(&vertices, &mut indices);
                    assert!(is_ccw_winded(&vertices, &indices), "Triangle should be CCW");
                    let once = indices;
                    ensure_ccw(&vertices, &mut indices);
                    assert_eq!(indices, once);
                }
            }
        }
    }
}

#[test]
fn test_distance_to_plane() {
    let plane = Plane2d::new(Vec2::new(0, 1));
    let plane_point = at(0.0, 0.0);
    let point_above = at(0.0, 1.0);
    let point_below = at(0.0, -1.0);
    let point_on_plane = at(0.0, 0.0);

    assert!((units(distance_to_plane(point_above, plane, plane_point)) - 1.0).abs() < 1e-6);
    assert!((units(distance_to_plane(point_below, plane, plane_point)) - -1.0).abs() < 1e-6);
    assert!((units(distance_to_plane(point_on_plane, plane, plane_point)) - 0.0).abs() < 1e-6);

    let point_above_left = at(-1.0, 1.0);
    let point_left = at(-1.0, 0.0);
    let point_below_left = at(-1.0, -1.0);

    assert!((units(distance_to_plane(point_above_left, plane, plane_point)) - 1.0).abs() < 1e-6);
    assert!((units(distance_to_plane(point_left, plane, plane_point)) - 0.0).abs() < 1e-6);
    assert!((units(distance_to_plane(point_below_left, plane, plane_point)) - -1.0).abs() < 1e-6);
}

#[test]
fn test_distance_to_plane_scales_with_the_normal() {
    let plane = Plane2d::new(Vec2::new(3, -4));
    let d = distance_to_plane(Vec2::new(10, 20), plane, Vec2::new(1, 2));
    assert_eq!(d, 3 * 9 - 4 * 18);
}

#[test]
fn test_intersections() {
    let plane = Plane2d::new(Vec2::new(1, 0));

    let vertices = [at(0.0, 0.0), at(2.0, 2.0), at(4.0, 0.0)];

    let vertex_index = 1;
    let opposite_vertices = [0, 2];
    let plane_point = at(1.0, 0.0);

    let intersections = get_intersection_points_2d(
        &plane,
        &vertices,
        vertex_index,
        &opposite_vertices,
        plane_point,
    );

    // Check if we have the correct number of intersections
    assert_eq!(intersections.len(), 2);

    // Check specific intersection points
    assert!((length_between(intersections[0], at(1.0, 1.0)) - 0.).abs() < 1e-6);
    assert!((length_between(intersections[1], at(1.0, 3.0)) - 0.).abs() < 1e-6);
}

#[test]
fn test_intersection_rounds_to_the_nearest_step() {
    // The line x = 1 cuts the segment from (0, 0) to (3, 1) at (1, 1/3) and
    // the segment from (0, 0) to (3, 2) at (1, 2/3).
    let plane = Plane2d::new(Vec2::new(1, 0));
    let point = Vec2::new(1, 0);
    assert_eq!(
        intersection_point(&plane, point, Vec2::new(0, 0), Vec2::new(3, 1)),
        Vec2::new(1, 0)
    );
    assert_eq!(
        intersection_point(&plane, point, Vec2::new(0, 0), Vec2::new(3, 2)),
        Vec2::new(1, 1)
    );
    // Halves go away from zero: (1, 1/2) and (1, -1/2).
    assert_eq!(
        intersection_point(&plane, Vec2::new(1, 0), Vec2::new(0, 0), Vec2::new(2, 1)),
        Vec2::new(1, 1)
    );
    assert_eq!(
        intersection_point(&plane, Vec2::new(1, 0), Vec2::new(0, 0), Vec2::new(2, -1)),
        Vec2::new(1, -1)
    );
}

#[test]
fn test_intersection_is_the_same_from_either_end_when_exact() {
    let plane = Plane2d::new(Vec2::new(1, 1));
    let point = Vec2::new(0, 0);
    let a = Vec2::new(-6, 2);
    let b = Vec2::new(10, 2);
    assert_eq!(intersection_point(&plane, point, a, b), Vec2::new(-2, 2));
    assert_eq!(intersection_point(&plane, point, b, a), Vec2::new(-2, 2));
}

#[test]
fn test_calculate_area_whole_numbers() {
    let vertices = vec![at(0.0, 0.0), at(4.0, 0.0), at(0.0, 3.0), at(4.0, 3.0)];

    let indices = [0usize, 1, 2, 1, 3, 2];

    let area = square_units(calculate_area(&vertices, &indices));
    assert_eq!(area, 12.0);
}

#[test]
fn test_calculate_area_counts_half_square_steps() {
    let vertices = vec![Vec2::new(0, 0), Vec2::new(1, 0), Vec2::new(0, 1)];
    assert_eq!(calculate_area(&vertices, &[0, 1, 2]), 1);
    // Clockwise triangles count as much.
    assert_eq!(calculate_area(&vertices, &[0, 2, 1]), 1);
    // Indices left over after the last whole triple are ignored.
    assert_eq!(calculate_area(&vertices, &[0, 1, 2, 0, 1]), 1);
    assert_eq!(calculate_area(&vertices, &[]), 0);
}

#[test]
fn test_calculate_mesh_area_of_a_square() {
    let mesh = Mesh::new(
        vec![at(-1.0, -1.0), at(1.0, -1.0), at(1.0, 1.0), at(-1.0, 1.0)],
        vec![0, 1, 2, 2, 3, 0],
    );
    assert_eq!(square_units(calculate_mesh_area(&mesh)), 4.0);
}

#[test]
fn test_mesh_longest_axis() {
    let vertices = vec![at(0.0, 0.0), at(1.0, 0.0), at(0.0, 1.0)];

    let mesh = Mesh::new(vertices, vec![]);

    let _longest_axis = mesh_longest_axis(&mesh);
}

#[test]
fn test_mesh_longest_axis_is_a_unit_vector() {
    // The farthest pair is (1, 0) and (0, 1): the axis is the unit vector
    // along their difference, (0.70711, -0.70711).
    let mesh = Mesh::new(vec![at(0.0, 0.0), at(1.0, 0.0), at(0.0, 1.0)], vec![]);
    let axis = mesh_longest_axis(&mesh);
    assert_eq!(axis, Vec2::new(46340, -46340));
    let x = axis.x as f64 / S;
    let y = axis.y as f64 / S;
    assert!((x - 0.70711).abs() < 0.0001);
    assert!((y - -0.70711).abs() < 0.0001);
    assert!(((x * x + y * y).sqrt() - 1.0).abs() < 0.0001);
    // The length of the axis does not grow with the mesh.
    let large = Mesh::new(vec![at(0.0, 0.0), at(500.0, 0.0), at(0.0, 500.0)], vec![]);
    assert_eq!(mesh_longest_axis(&large), axis);
    let tiny = Mesh::new(vec![Vec2::new(0, 0), Vec2::new(1, 0), Vec2::new(0, 1)], vec![]);
    assert_eq!(mesh_longest_axis(&tiny), axis);
}

#[test]
fn test_mesh_longest_axis_takes_the_first_farthest_pair() {
    // The pairs (1, 2) and (0, 3) are both diagonals of the square; the
    // pair (0, 2) is listed first among the farthest.
    let mesh = Mesh::new(
        vec![Vec2::new(0, 0), Vec2::new(4, 0), Vec2::new(4, 4), Vec2::new(0, 4)],
        vec![0, 1, 2, 2, 3, 0],
    );
    assert_eq!(mesh_longest_span(&mesh), Vec2::new(-4, -4));
    assert_eq!(mesh_longest_axis(&mesh), Vec2::new(-46340, -46340));
    let wide = Mesh::new(
        vec![Vec2::new(0, 0), Vec2::new(10, 1), Vec2::new(3, 2)],
        vec![0, 1, 2],
    );
    assert_eq!(mesh_longest_span(&wide), Vec2::new(-10, -1));
    assert_eq!(mesh_longest_axis(&wide), Vec2::new(-65210, -6521));
    // Along an axis of the lattice the unit vector is exact.
    let flat = Mesh::new(vec![Vec2::new(7, 3), Vec2::new(-20, 3)], vec![]);
    assert_eq!(mesh_longest_axis(&flat), Vec2::new(STEPS_PER_UNIT, 0));
}

#[test]
fn test_unit_vectors_have_unit_length_and_point_along_their_vector() {
    let coordinates = [-(1i64 << 31), -70000, -3, -1, 0, 1, 2, 12345, 1 << 30];
    for &x in &coordinates {
        for &y in &coordinates {
            if x == 0 && y == 0 {
                continue;
            }
            let unit = vector_with_length(Vec2::new(x, y), STEPS_PER_UNIT);
            let square = (unit.x as i128) * (unit.x as i128) + (unit.y as i128) * (unit.y as i128);
            let one = STEPS_PER_UNIT as i128;
            assert!((one - 3) * (one - 3) <= square && square <= one * one);
            assert!(unit.x.signum() * x.signum() >= 0 && unit.y.signum() * y.signum() >= 0);
            let cross = (unit.x as i128) * (y as i128) - (unit.y as i128) * (x as i128);
            assert!(cross.abs() <= (x as i128).abs() + (y as i128).abs());
        }
    }
}

#[test]
fn test_vector_with_length() {
    assert_eq!(vector_with_length(Vec2::new(3, 4), 10), Vec2::new(6, 8));
    assert_eq!(vector_with_length(Vec2::new(-3, -4), 5), Vec2::new(-3, -4));
    assert_eq!(vector_with_length(Vec2::new(0, 0), 10), Vec2::new(0, 0));
    assert_eq!(vector_with_length(Vec2::new(9, -9), 0), Vec2::new(0, 0));
    // Each coordinate is rounded towards zero: 10 / sqrt(2) = 7.07.
    assert_eq!(vector_with_length(Vec2::new(1, -1), 10), Vec2::new(7, -7));
    // The largest vector and the largest length that are admitted.
    let far = 1 << 31;
    assert_eq!(vector_with_length(Vec2::new(far, 0), far), Vec2::new(far, 0));
    assert_eq!(vector_with_length(Vec2::new(-far, far), far), Vec2::new(-1518500249, 1518500249));
}

#[test]
fn test_vertices_have_extent() {
    assert!(!vertices_have_extent(&[]));
    assert!(!vertices_have_extent(&[Vec2::new(3, 3)]));
    assert!(!vertices_have_extent(&[Vec2::new(3, 3), Vec2::new(3, 3)]));
    assert!(vertices_have_extent(&[Vec2::new(3, 3), Vec2::new(3, 3), Vec2::new(3, 4)]));
}

#[test]
fn test_valid_mesh() {
    let points = vec![Vec2::new(0, 0), Vec2::new(1, 0), Vec2::new(0, 1)];
    assert!(valid_mesh(&Mesh::new(points.clone(), vec![0, 1, 2])));
    // No vertex, no index.
    assert!(!valid_mesh(&Mesh::new(vec![], vec![0, 1, 2])));
    assert!(!valid_mesh(&Mesh::new(points.clone(), vec![])));
    // Indices that do not come in triples.
    assert!(!valid_mesh(&Mesh::new(points.clone(), vec![0, 1, 2, 0])));
    // All indices the same.
    assert!(!valid_mesh(&Mesh::new(points.clone(), vec![1, 1, 1])));
    assert!(valid_mesh(&Mesh::new(points, vec![1, 1, 2])));
}

#[test]
fn test_mesh_is_well_formed() {
    let points = vec![Vec2::new(0, 0), Vec2::new(1, 0), Vec2::new(0, 1)];
    assert!(Mesh::new(points.clone(), vec![0, 1, 2]).is_well_formed());
    assert!(Mesh::new(vec![], vec![]).is_well_formed());
    assert!(!Mesh::new(points.clone(), vec![0, 1]).is_well_formed());
    assert!(!Mesh::new(points.clone(), vec![0, 1, 3]).is_well_formed());
    let far = vec![Vec2::new(0, 0), Vec2::new(1 << 30, 0), Vec2::new(0, (1 << 30) + 1)];
    assert!(!Mesh::new(far, vec![0, 1, 2]).is_well_formed());
    let copy = Mesh::new(points.clone(), vec![0, 1, 2]).duplicate();
    assert_eq!(copy.vertices, points);
    assert_eq!(copy.indices, vec![0, 1, 2]);
    let clone = copy.clone();
    assert_eq!(clone.vertices, points);
    assert_eq!(clone.indices, vec![0, 1, 2]);
}
