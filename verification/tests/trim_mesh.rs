use asteroids::mesh::Mesh;
use asteroids::mesh_utils::{calculate_mesh_area, is_ccw_winded};
use asteroids::split_mesh::split_mesh;
use asteroids::trim_mesh::{chord, radius_of, trim_mesh, trim_mesh_at, TRIM_CANDIDATES};
use asteroids::vec2::{Vec2, LINE_LIMIT, STEPS_PER_UNIT};

const STEP: f64 = STEPS_PER_UNIT as f64;

fn place(x: f64, y: f64) -> Vec2 {
    Vec2::new((x * STEP).round() as i64, (y * STEP).round() as i64)
}

fn area_units(mesh: &Mesh) -> f64 {
    calculate_mesh_area(mesh) as f64 / (2.0 * STEP * STEP)
}

fn rectangle() -> Mesh {
    Mesh::new(
        vec![place(-1.0, -1.0), place(1.0, -1.0), place(1.0, 1.0), place(-1.0, 1.0)],
        vec![
            0, 1, 2, // First triangle
            2, 3, 0, // Second triangle
        ],
    )
}

fn polygon(corners: usize, radius: f64) -> Mesh {
    let mut vertices = vec![place(0.0, 0.0)];
    let mut indices = vec![];
    for i in 0..corners {
        let angle = std::f64::consts::TAU * i as f64 / corners as f64;
        vertices.push(place(radius * angle.cos(), radius * angle.sin()));
        indices.extend([0, 1 + i, 1 + (i + 1) % corners]);
    }
    Mesh::new(vertices, indices)
}

fn wound_ccw(mesh: &Mesh) -> bool {
    mesh.indices
        .chunks(3)
        .all(|t| is_ccw_winded(&mesh.vertices, &[t[0], t[1], t[2]]))
}

#[test]
fn test_trim_radius() {
    // The root of the area in half square steps, times 418889 millionths.
    assert_eq!(radius_of(0), 0);
    assert_eq!(radius_of(1_000_000), 418);
    assert_eq!(radius_of(1_000_000_000_000), 418_889);
    assert_eq!(radius_of(2_000_000_000_000), 592_398);
    // A square of 200 by 200 units: 1.05 * sqrt(40000 / pi) = 118.48 units.
    let area = 2 * (200 * STEPS_PER_UNIT as u128) * (200 * STEPS_PER_UNIT as u128);
    let radius = radius_of(area) as f64 / STEP;
    assert!((radius - 118.48).abs() < 0.01);
    // No radius exceeds the line limit.
    assert_eq!(radius_of(u128::MAX), LINE_LIMIT);
}

#[test]
fn test_chord_point() {
    assert_eq!(chord(Vec2::new(3, 4), 10), Vec2::new(6, 8));
    assert_eq!(chord(Vec2::new(-3, 4), 10), Vec2::new(-6, 8));
    assert_eq!(chord(Vec2::new(0, -7), 10), Vec2::new(0, -10));
    // Coordinates are rounded towards zero: 10 / sqrt(2) = 7.07,
    // 20 / sqrt(13) = 5.55 and 30 / sqrt(13) = 8.32.
    assert_eq!(chord(Vec2::new(1, 1), 10), Vec2::new(7, 7));
    assert_eq!(chord(Vec2::new(2, -2), 10), Vec2::new(7, -7));
    assert_eq!(chord(Vec2::new(2, 3), 10), Vec2::new(5, 8));
    assert_eq!(chord(Vec2::new(0, 0), 10), Vec2::new(0, 0));
    assert_eq!(chord(Vec2::new(5, 12), 0), Vec2::new(0, 0));
}

#[test]
fn test_trim_mesh() {
    // Create a 2x2 rectangle mesh centered around (0, 0)
    let mesh = rectangle();

    // Trim the mesh
    let ((_main_mesh, _offset), _shards) = trim_mesh(mesh);
}

/// A star with `points` tips at `outer` units from the centre and as many
/// notches at `inner` units.
fn star(points: usize, outer: f64, inner: f64) -> Mesh {
    let corners = 2 * points;
    let mut vertices = vec![place(0.0, 0.0)];
    let mut indices = vec![];
    for i in 0..corners {
        let angle = std::f64::consts::TAU * i as f64 / corners as f64;
        let radius = if i % 2 == 0 { outer } else { inner };
        vertices.push(place(radius * angle.cos(), radius * angle.sin()));
        indices.extend([0, 1 + i, 1 + (i + 1) % corners]);
    }
    Mesh::new(vertices, indices)
}

#[test]
fn test_trim_at_every_corner_of_a_star_cuts_twelve_times() {
    // The star has an area of 5400 square units and so a trim radius of 43.5
    // units. A cut towards a tip, 60 units out, takes the tip off; a cut
    // towards a notch takes a piece off each of the two tips beside it,
    // which reach 52 units out in that direction.
    let mesh = star(6, 60.0, 30.0);
    let candidates: Vec<Vec2> = mesh.vertices[1..].to_vec();
    assert_eq!(candidates.len(), 12);
    let ((main_mesh, _offset), shards) = trim_mesh_at(mesh, &candidates);
    assert_eq!(shards.len(), 12);
    assert!(main_mesh.is_well_formed());
    assert!(wound_ccw(&main_mesh));
    assert!(shards.iter().all(|(shard, _)| wound_ccw(shard)));
}

#[test]
fn test_trim_mesh_takes_at_most_five_corners() {
    for _ in 0..20 {
        let mesh = star(6, 60.0, 30.0);
        let area = area_units(&mesh);
        let ((main_mesh, _offset), shards) = trim_mesh(mesh);
        // Chance picks five of the twelve corners, each of which would give
        // a shard if it were cut.
        assert!(shards.len() <= TRIM_CANDIDATES);
        assert!(!shards.is_empty());
        assert!(main_mesh.is_well_formed());
        let left: f64 = area_units(&main_mesh);
        let cut: f64 = shards.iter().map(|(shard, _)| area_units(shard)).sum();
        assert!(left <= area + 0.01);
        // Welding moves a vertex by up to half a unit: the areas add up to
        // that of the star within a twentieth.
        assert!((left + cut - area).abs() < area / 20.0);
        for (shard, _) in &shards {
            assert!(shard.is_well_formed());
            assert!(area_units(shard) > 0.0);
        }
    }
}

#[test]
fn test_trim_mesh_picks_differ_from_run_to_run() {
    // With five of twelve corners taken by chance, forty runs that all cut
    // the same number of tips off in the same places are out of the question.
    let mut seen = std::collections::BTreeSet::new();
    for _ in 0..40 {
        let ((main_mesh, _), _) = trim_mesh(star(6, 60.0, 30.0));
        seen.insert(main_mesh.vertices.iter().map(|v| (v.x, v.y)).collect::<Vec<_>>());
    }
    assert!(seen.len() > 1);
}

#[test]
fn test_trim_without_candidates_changes_nothing() {
    let mesh = rectangle();
    let ((main_mesh, offset), shards) = trim_mesh_at(mesh, &[]);
    assert_eq!(main_mesh.vertices, rectangle().vertices);
    assert_eq!(main_mesh.indices, rectangle().indices);
    assert_eq!(offset, Vec2::zero());
    assert!(shards.is_empty());
    // A mesh whose only vertices lie at the origin has no corner to trim.
    let dot = Mesh::new(vec![Vec2::zero(), Vec2::zero(), Vec2::zero()], vec![0, 1, 2]);
    let ((left, _), shards) = trim_mesh(dot);
    assert_eq!(left.indices, vec![0, 1, 2]);
    assert!(shards.is_empty());
}

#[test]
fn test_trim_cuts_a_corner_off_a_square() {
    // A square of 200 by 200 units has a trim radius of 1.05 * sqrt(40000 / pi)
    // = 118.48 units. The corner (100, 100) lies 141.42 units from the centre:
    // the cut across its diagonal, 118.48 units from the centre, takes a
    // triangle with legs of (141.42 - 118.48) * sqrt(2) = 32.44 units off.
    let mesh = Mesh::new(
        vec![place(-100.0, -100.0), place(100.0, -100.0), place(100.0, 100.0), place(-100.0, 100.0)],
        vec![0, 1, 2, 2, 3, 0],
    );
    let ((main_mesh, offset), shards) = trim_mesh_at(mesh, &[place(100.0, 100.0)]);
    assert_eq!(shards.len(), 1);
    let (shard, shard_offset) = &shards[0];
    let corner = area_units(shard);
    assert!((corner - 32.44 * 32.44 / 2.0).abs() < 1.0);
    assert!((area_units(&main_mesh) + corner - 40000.0).abs() < 0.01);
    // The main mesh still spans the whole square: its centre has not moved.
    assert_eq!(offset, Vec2::zero());
    // The shard lies in the corner.
    assert!((shard_offset.x as f64 / STEP - (100.0 - 32.44 / 2.0)).abs() < 0.1);
    assert!((shard_offset.y as f64 / STEP - (100.0 - 32.44 / 2.0)).abs() < 0.1);
}

#[test]
fn test_trim_skips_a_candidate_at_the_origin() {
    let mesh = rectangle();
    let ((main_mesh, offset), shards) = trim_mesh_at(mesh, &[Vec2::zero()]);
    assert_eq!(main_mesh.vertices, rectangle().vertices);
    assert_eq!(offset, Vec2::zero());
    assert!(shards.is_empty());
}

#[test]
fn test_trim_with_pinned_candidates_is_repeatable() {
    let candidates = [place(50.0, 0.0), place(0.0, 50.0), place(-35.0, 35.0)];
    let ((first, first_offset), first_shards) = trim_mesh_at(polygon(4, 50.0), &candidates);
    let ((second, second_offset), second_shards) = trim_mesh_at(polygon(4, 50.0), &candidates);
    assert_eq!(first.vertices, second.vertices);
    assert_eq!(first.indices, second.indices);
    assert_eq!(first_offset, second_offset);
    assert_eq!(first_shards.len(), second_shards.len());
    assert!(!first_shards.is_empty());
    for ((a, a_offset), (b, b_offset)) in first_shards.iter().zip(second_shards.iter()) {
        assert_eq!(a.vertices, b.vertices);
        assert_eq!(a.indices, b.indices);
        assert_eq!(a_offset, b_offset);
    }
}

#[test]
fn test_split_and_trimmed_halves_of_a_square_lie_side_by_side() {
    // A square of 100 by 100 units is cut in two along the y axis and each
    // half is trimmed. Trimming takes the corners off a half, which moves
    // the centre of its bounding box by less than a unit: the halves lie
    // near (-25, 0) and (25, 0).
    let mesh = Mesh::new(
        vec![place(-50.0, -50.0), place(50.0, -50.0), place(50.0, 50.0), place(-50.0, 50.0)],
        vec![0, 1, 2, 0, 2, 3],
    );
    let halves = split_mesh(&mesh, Vec2::new(0, 1), Vec2::zero());
    let mut count = 0;
    for (half_mesh, half_offset) in halves.into_iter().flatten() {
        let ((trimmed_mesh, trimmed_offset), _trimmings) = trim_mesh(half_mesh);
        let x = (half_offset.x + trimmed_offset.x) as f64 / STEP;
        let y = (half_offset.y + trimmed_offset.y) as f64 / STEP;
        assert!((x.abs() - 25.).abs() < 1.);
        assert!(y.abs() < 1.);
        assert!(half_offset.x.abs() == 25 * STEPS_PER_UNIT && half_offset.y == 0);
        assert!(area_units(&trimmed_mesh) > 0.);
        count += 1;
    }
    // Check that 2 splits were created
    assert_eq!(count, 2);
}
