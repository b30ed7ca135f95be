//! Trimming corners off a mesh.

use vstd::prelude::*;
use crate::arith::{isqrt, sqrt_floor};
use crate::mesh::{Mesh, MeshView};
use crate::mesh_utils::{calculate_mesh_area, vector_with_length, with_length};
use crate::shatter_mesh::pieces_view;
use crate::split_mesh::{split_pair, split_sides};
use crate::trusted::{choose_multiple, thread_rng};
use crate::vec2::{all_within, sum, Vec2, COORD_LIMIT, LINE_LIMIT};
use rand::rngs::ThreadRng;

verus! {

/// The most corners that one trimming cuts off.
pub const TRIM_CANDIDATES: usize = 5;

/// The most candidates that can be trimmed in one call: it keeps the summed
/// offsets within the range of a coordinate.
pub const TRIM_LIMIT: usize = 0xffff_ffff;

/// The radius at which corners are cut off a mesh of the given area, in
/// steps: 1.05 times the radius of the circle of that area, and no more than
/// the line limit. The area is in half square steps, so the factor on its
/// root is 1.05 / sqrt(2 pi), taken as 418889 millionths.
pub open spec fn trim_radius(area: int) -> int {
    let radius = sqrt_floor(area) * 418889 / 1000000;
    if radius > LINE_LIMIT {
        LINE_LIMIT as int
    } else {
        radius
    }
}

/// The point at distance `radius` from the origin in the direction of
/// `vertex`; the origin where `vertex` is the origin.
pub open spec fn chord_point(vertex: Vec2, radius: int) -> Vec2 {
    with_length(vertex, radius)
}

/// The cut that takes the corner at `vertex` off a mesh: across the direction
/// from the origin to `vertex`, at the trim radius of the mesh. Side A is
/// the side of the origin.
pub open spec fn trim_cut(mesh: MeshView, vertex: Vec2) -> (
    Option<(MeshView, Vec2)>,
    Option<(MeshView, Vec2)>,
) {
    split_sides(mesh, vertex.spec_perp(), chord_point(vertex, trim_radius(mesh.area())))
}

/// A mesh being trimmed: what is left of it, the offset of its centre from
/// where the centre was at first, and the shards cut off so far, each with
/// the offset of its centre.
pub struct Trimmed {
    pub main: MeshView,
    pub offset: Vec2,
    pub shards: Seq<(MeshView, Vec2)>,
}

/// The state after the corner at `vertex` was cut off: side A of the cut is
/// the mesh that is left, side B, if there is one, a new shard. Where the cut
/// leaves no side A, nothing changes.
pub open spec fn trimmed_once(state: Trimmed, vertex: Vec2) -> Trimmed {
    let halves = trim_cut(state.main, vertex);
    match halves.0 {
        Some((mesh_a, offset_a)) => Trimmed {
            main: mesh_a,
            offset: sum(state.offset, offset_a),
            shards: match halves.1 {
                Some((mesh_b, offset_b)) => state.shards.push((mesh_b, sum(state.offset, offset_b))),
                None => state.shards,
            },
        },
        None => state,
    }
}

/// The state after the corners at the first `count` candidates were cut off,
/// one after the other.
pub open spec fn trimmed(mesh: MeshView, candidates: Seq<Vec2>, count: nat) -> Trimmed
    decreases count,
{
    if count == 0 {
        Trimmed { main: mesh, offset: Vec2 { x: 0, y: 0 }, shards: Seq::empty() }
    } else {
        trimmed_once(trimmed(mesh, candidates, (count - 1) as nat), candidates[count - 1])
    }
}

/// The trim radius of a mesh of the given area: see [`trim_radius`].
pub fn radius_of(area: u128) -> (radius: i64)
    ensures
        radius == trim_radius(area as int),
        0 <= radius <= LINE_LIMIT,
{
    let root: u128 = isqrt(area) as u128;
    let radius: u128 = root * 418889 / 1000000;
    if radius > LINE_LIMIT as u128 {
        LINE_LIMIT
    } else {
        radius as i64
    }
}

/// The point at distance `radius` from the origin in the direction of
/// `vertex`: see [`chord_point`].
pub fn chord(vertex: Vec2, radius: i64) -> (point: Vec2)
    requires
        vertex.within(LINE_LIMIT as int),
        0 <= radius <= LINE_LIMIT,
    ensures
        point == chord_point(vertex, radius as int),
        point.within(LINE_LIMIT as int),
{
    vector_with_length(vertex, radius)
}

/// Cuts the corner at `vertex` off the mesh: see [`trimmed_once`].
fn trim_once(
    main_mesh: &mut Mesh,
    offset: &mut Vec2,
    shards: &mut Vec<(Mesh, Vec2)>,
    vertex: Vec2,
    Ghost(state): Ghost<Trimmed>,
    Ghost(steps): Ghost<nat>,
)
    requires
        old(main_mesh).wf(),
        vertex.within(COORD_LIMIT as int),
        steps < TRIM_LIMIT,
        old(offset).within(steps * COORD_LIMIT),
        state.main == old(main_mesh)@,
        state.offset == *old(offset),
        state.shards == pieces_view(old(shards)@),
        forall|i: int| 0 <= i < old(shards)@.len() ==> (#[trigger] old(shards)@[i]).0.wf(),
    ensures
        final(main_mesh).wf(),
        final(offset).within((steps + 1) * COORD_LIMIT),
        trimmed_once(state, vertex).main == final(main_mesh)@,
        trimmed_once(state, vertex).offset == *final(offset),
        trimmed_once(state, vertex).shards == pieces_view(final(shards)@),
        forall|i: int| 0 <= i < final(shards)@.len() ==> (#[trigger] final(shards)@[i]).0.wf(),
{
    let mesh_area: u128 = calculate_mesh_area(main_mesh);
    let radius: i64 = radius_of(mesh_area);
    let vertex_position: Vec2 = chord(vertex, radius);
    let normal: Vec2 = vertex.perp();
    let (first, trim) = split_pair(main_mesh, normal, vertex_position);
    match first {
        Some((mesh_a, offset_a)) => {
            match trim {
                Some((mesh_b, offset_b)) => {
                    let shard_offset: Vec2 = offset.plus(offset_b);
                    proof {
                        let grown = shards@.push((mesh_b, shard_offset));
                        assert(pieces_view(grown) =~= pieces_view(shards@).push(
                            (mesh_b@, shard_offset),
                        ));
                    }
                    shards.push((mesh_b, shard_offset));
                },
                None => {},
            }
            *main_mesh = mesh_a;
            *offset = offset.plus(offset_a);
        },
        None => {},
    }
}

/// Trims the corners at the given candidates off the mesh, one after the
/// other: see [`trimmed`]. Returns what is left of the mesh with the offset
/// of its centre from the centre of `mesh`, and the shards with theirs.
pub fn trim_mesh_at(mesh: Mesh, candidates: &[Vec2]) -> (result: ((Mesh, Vec2), Vec<(Mesh, Vec2)>))
    requires
        mesh.wf(),
        all_within(candidates@, COORD_LIMIT as int),
        candidates@.len() <= TRIM_LIMIT,
    ensures
        (result.0).0@ == trimmed(mesh@, candidates@, candidates@.len()).main,
        (result.0).1 == trimmed(mesh@, candidates@, candidates@.len()).offset,
        pieces_view(result.1@) == trimmed(mesh@, candidates@, candidates@.len()).shards,
        (result.0).0.wf(),
        forall|i: int| 0 <= i < result.1@.len() ==> (#[trigger] result.1@[i]).0.wf(),
{
    let ghost start = mesh@;
    let mut main_mesh: Mesh = mesh;
    let mut offset: Vec2 = Vec2::zero();
    let mut shards: Vec<(Mesh, Vec2)> = Vec::new();
    let mut k: usize = 0;
    assert(pieces_view(shards@) =~= Seq::<(MeshView, Vec2)>::empty());
    while k < candidates.len()
        invariant
            k <= candidates@.len(),
            candidates@.len() <= TRIM_LIMIT,
            all_within(candidates@, COORD_LIMIT as int),
            main_mesh.wf(),
            offset.within(k * COORD_LIMIT),
            trimmed(start, candidates@, k as nat).main == main_mesh@,
            trimmed(start, candidates@, k as nat).offset == offset,
            trimmed(start, candidates@, k as nat).shards == pieces_view(shards@),
            forall|i: int| 0 <= i < shards@.len() ==> (#[trigger] shards@[i]).0.wf(),
        decreases candidates@.len() - k,
    {
        let vertex: Vec2 = candidates[k];
        assert(candidates@[k as int].within(COORD_LIMIT as int));
        trim_once(
            &mut main_mesh,
            &mut offset,
            &mut shards,
            vertex,
            Ghost(trimmed(start, candidates@, k as nat)),
            Ghost(k as nat),
        );
        k += 1;
    }
    ((main_mesh, offset), shards)
}

/// The vertices among the first `n` that do not lie at the origin, in their
/// order: the corners that can be trimmed.
pub open spec fn away_from_origin(vertices: Seq<Vec2>, n: nat) -> Seq<Vec2>
    decreases n,
{
    if n == 0 {
        Seq::empty()
    } else {
        let before = away_from_origin(vertices, (n - 1) as nat);
        if vertices[n - 1] != (Vec2 { x: 0, y: 0 }) {
            before.push(vertices[n - 1])
        } else {
            before
        }
    }
}

/// `picks` is a sample of `amount` items of `pool`, or of all where there
/// are fewer: it holds no item more often than `pool` does.
pub open spec fn is_sample(picks: Seq<Vec2>, pool: Seq<Vec2>, amount: nat) -> bool {
    &&& picks.len() == if pool.len() < amount {
        pool.len()
    } else {
        amount
    }
    &&& picks.to_multiset().subset_of(pool.to_multiset())
}

/// The corners that can be trimmed lie within the limit that all vertices
/// lie within.
proof fn lemma_away_within(vertices: Seq<Vec2>, n: nat, limit: int)
    requires
        all_within(vertices, limit),
        n <= vertices.len(),
    ensures
        all_within(away_from_origin(vertices, n), limit),
        away_from_origin(vertices, n).len() <= n,
    decreases n,
{
    if n > 0 {
        lemma_away_within(vertices, (n - 1) as nat, limit);
    }
}

/// The items of a sample are items of the pool.
proof fn lemma_sample_within(picks: Seq<Vec2>, pool: Seq<Vec2>, amount: nat, limit: int)
    requires
        is_sample(picks, pool, amount),
        all_within(pool, limit),
    ensures
        all_within(picks, limit),
{
    assert forall|i: int| 0 <= i < picks.len() implies (#[trigger] picks[i]).within(limit) by {
        picks.to_multiset_ensures();
        pool.to_multiset_ensures();
        assert(picks.contains(picks[i]));
        assert(picks.to_multiset().count(picks[i]) > 0);
        assert(pool.to_multiset().count(picks[i]) > 0);
        assert(pool.contains(picks[i]));
        let j = choose|j: int| 0 <= j < pool.len() && pool[j] == picks[i];
        assert(pool[j].within(limit));
    }
}

/// Trims a mesh: cuts the corners at up to `TRIM_CANDIDATES` of its vertices
/// off it, taken by chance among the vertices that do not lie at the origin.
/// Returns what is left of the mesh with the offset of its centre from the
/// centre of `mesh`, and the shards with theirs. For the corners that chance
/// picked the result is that of [`trim_mesh_at`].
pub fn trim_mesh(mesh: Mesh) -> (result: ((Mesh, Vec2), Vec<(Mesh, Vec2)>))
    requires
        mesh.wf(),
    ensures
        exists|picks: Seq<Vec2>|
            {
                &&& #[trigger] is_sample(
                    picks,
                    away_from_origin(mesh@.vertices, mesh@.vertices.len()),
                    TRIM_CANDIDATES as nat,
                )
                &&& (result.0).0@ == trimmed(mesh@, picks, picks.len()).main
                &&& (result.0).1 == trimmed(mesh@, picks, picks.len()).offset
                &&& pieces_view(result.1@) == trimmed(mesh@, picks, picks.len()).shards
            },
        (result.0).0.wf(),
        forall|i: int| 0 <= i < result.1@.len() ==> (#[trigger] result.1@[i]).0.wf(),
{
    let mut candidates: Vec<Vec2> = Vec::new();
    let mut i: usize = 0;
    while i < mesh.vertices.len()
        invariant
            i <= mesh.vertices@.len(),
            candidates@ == away_from_origin(mesh@.vertices, i as nat),
        decreases mesh.vertices@.len() - i,
    {
        let vertex: Vec2 = mesh.vertices[i];
        if vertex.x != 0 || vertex.y != 0 {
            candidates.push(vertex);
        }
        i += 1;
    }
    let ghost pool = candidates@;
    let mut rng: ThreadRng = thread_rng();
    let picks: Vec<Vec2> = choose_multiple(candidates, &mut rng, TRIM_CANDIDATES);
    proof {
        lemma_away_within(mesh@.vertices, mesh@.vertices.len(), COORD_LIMIT as int);
        assert(is_sample(picks@, pool, TRIM_CANDIDATES as nat));
        lemma_sample_within(picks@, pool, TRIM_CANDIDATES as nat, COORD_LIMIT as int);
    }
    trim_mesh_at(mesh, picks.as_slice())
}

} // verus!
