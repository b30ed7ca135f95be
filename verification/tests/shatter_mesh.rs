use asteroids::mesh::Mesh;
use asteroids::mesh_utils::{calculate_mesh_area, is_ccw_winded};
use asteroids::shatter_mesh::{shatter_mesh, SHATTER_MAX_RECURSION_DEPTH};
use asteroids::vec2::{Vec2, STEPS_PER_UNIT};

const UNIT: f64 = STEPS_PER_UNIT as f64;

fn lattice(x: f64, y: f64) -> Vec2 {
    Vec2::new((x * UNIT).round() as i64, (y * UNIT).round() as i64)
}

fn square_mesh(side: f64) -> Mesh {
    let h = side / 2.0;
    Mesh::new(
        vec![lattice(-h, -h), lattice(h, -h), lattice(h, h), lattice(-h, h)],
        vec![0, 1, 2, 2, 3, 0],
    )
}

fn unit_area(mesh: &Mesh) -> f64 {
    calculate_mesh_area(mesh) as f64 / (2.0 * UNIT * UNIT)
}

fn half_square_steps(units: f64) -> u128 {
    (units * 2.0 * UNIT * UNIT) as u128
}

#[test]
fn test_small_mesh_is_not_cut() {
    let mesh = square_mesh(1.0);
    let shards = shatter_mesh(&mesh, half_square_steps(1.0));
    assert_eq!(shards.len(), 1);
    assert_eq!(shards[0].0.vertices, mesh.vertices);
    assert_eq!(shards[0].0.indices, mesh.indices);
    assert_eq!(shards[0].1, Vec2::zero());
}

#[test]
fn test_shatter_cuts_until_the_area_fits() {
    // A square of area 4 is cut across its diagonal into two triangles of
    // area 2, and these are final.
    let mesh = square_mesh(2.0);
    let shards = shatter_mesh(&mesh, half_square_steps(2.0));
    assert_eq!(shards.len(), 2);
    for (shard, _) in &shards {
        assert_eq!(unit_area(shard), 2.0);
    }
    // The longest axis runs from the corner (1, 1) to the corner (-1, -1),
    // the cut along the other diagonal. Side B, below it, comes first. The
    // bounding box of either half is that of the square: nothing moves.
    let (first, first_offset) = &shards[0];
    let (second, second_offset) = &shards[1];
    assert!(first.vertices.contains(&lattice(-1.0, -1.0)));
    assert!(!first.vertices.contains(&lattice(1.0, 1.0)));
    assert!(second.vertices.contains(&lattice(1.0, 1.0)));
    assert!(!second.vertices.contains(&lattice(-1.0, -1.0)));
    assert_eq!(*first_offset, Vec2::zero());
    assert_eq!(*second_offset, Vec2::zero());
}

#[test]
fn test_shatter_of_a_large_square_stops_at_the_ceiling() {
    let mesh = square_mesh(10.0);
    let shards = shatter_mesh(&mesh, half_square_steps(2.0));
    // No fragment is cut more than four times: at most sixteen fragments.
    assert!(shards.len() <= 1 << (SHATTER_MAX_RECURSION_DEPTH + 1));
    assert!(shards.len() > 1);
    let mut total = 0.0;
    let mut over = 0;
    for (shard, _) in &shards {
        let area = unit_area(shard);
        if area > 2.0 {
            over += 1;
        }
        total += area;
        assert!(shard.is_well_formed());
        for t in shard.indices.chunks(3) {
            assert!(is_ccw_winded(&shard.vertices, &[t[0], t[1], t[2]]));
        }
    }
    // Sixteen fragments of a square of area 100 cannot all have area 2.
    assert!(over > 0);
    assert!((total - 100.0).abs() < 0.01);
}

#[test]
fn test_shatter_with_no_room_stops_at_the_ceiling() {
    // With a bound of zero no fragment with area is ever final by its area.
    let mesh = square_mesh(64.0);
    let shards = shatter_mesh(&mesh, 0);
    assert!(shards.len() <= 16);
    let total: f64 = shards.iter().map(|(shard, _)| unit_area(shard)).sum();
    assert!((total - 64.0 * 64.0).abs() < 0.01);
}

#[test]
fn test_shatter_offsets_place_the_fragments() {
    let mesh = square_mesh(8.0);
    let shards = shatter_mesh(&mesh, half_square_steps(20.0));
    assert_eq!(shards.len(), 4);
    for (shard, offset) in &shards {
        for v in &shard.vertices {
            let x = (v.x + offset.x) as f64 / UNIT;
            let y = (v.y + offset.y) as f64 / UNIT;
            assert!(x.abs() <= 4.001 && y.abs() <= 4.001);
        }
    }
}

#[test]
fn test_shatter_of_a_mesh_without_area() {
    let mesh = Mesh::new(vec![Vec2::new(0, 0), Vec2::new(5, 5), Vec2::new(9, 9)], vec![0, 1, 2]);
    let shards = shatter_mesh(&mesh, 0);
    assert_eq!(shards.len(), 1);
    assert_eq!(shards[0].0.indices, vec![0, 1, 2]);
}
