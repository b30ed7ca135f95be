//! Cutting a mesh along a line.

use vstd::prelude::*;
use crate::cleanup::{
    bbox_center, copy_vertices, corners_below, create_mesh_2d, flattened, lemma_center_within,
    lemma_flattened, lemma_rank_bound, lemma_rank_is_length, lemma_renumbered_below, lemma_rewelded_below,
    lemma_shifted_within, lemma_used_within, lemma_welded_within, merge_vertices, proper_only,
    recenter_mesh, remove_unused_vertices, renumbered, rewelded, shifted, used_vertices, welded,
};
use crate::laws::{
    keeps_to_side_a, keeps_to_side_b, lemma_cleaned_vertices_hold, lemma_raw_split_apart,
    on_a_or_near, on_b_or_near,
};
use crate::mesh::{Mesh, MeshView};
use crate::mesh_utils::{
    distance_to_plane, ensure_ccw, get_intersection_points_2d, intersection,
    lemma_intersection_within, lemma_sides_in_reach, valid_mesh, wound_ccw,
};
use crate::trusted::{small_get, small_len, small_new, small_push, triples, SmallIndices};
use crate::vec2::{all_within, on_side_a, Plane2d, Vec2, COORD_LIMIT, LINE_LIMIT};

verus! {

/// A triangle that the line crosses: the corner that lies alone on its side,
/// and the two corners on the other side in the order in which the triangle
/// lists them.
pub struct Clip {
    pub lone: usize,
    pub first: usize,
    pub second: usize,
    pub lone_on_a: bool,
}

/// How the line crosses the triangle `t`, or `None` where all three corners
/// lie on one side.
pub open spec fn clip_of(
    vertices: Seq<Vec2>,
    normal: Vec2,
    plane_point: Vec2,
    t: (usize, usize, usize),
) -> Option<Clip> {
    let s0 = on_side_a(vertices[t.0 as int], normal, plane_point);
    let s1 = on_side_a(vertices[t.1 as int], normal, plane_point);
    let s2 = on_side_a(vertices[t.2 as int], normal, plane_point);
    if s0 == s1 && s1 == s2 {
        None
    } else if s1 == s2 {
        Some(Clip { lone: t.0, first: t.1, second: t.2, lone_on_a: s0 })
    } else if s0 == s2 {
        Some(Clip { lone: t.1, first: t.0, second: t.2, lone_on_a: s1 })
    } else {
        Some(Clip { lone: t.2, first: t.0, second: t.1, lone_on_a: s2 })
    }
}

/// The two sides of a cut before cleanup: the vertices, which both sides
/// share, and the triangles of each side.
pub struct RawSplit {
    pub vertices: Seq<Vec2>,
    pub side_a: Seq<[usize; 3]>,
    pub side_b: Seq<[usize; 3]>,
}

/// The vertex list after a triangle was clipped: the two points where the
/// edges from the lone corner cross the line are appended.
pub open spec fn grown(
    before: Seq<Vec2>,
    vertices: Seq<Vec2>,
    normal: Vec2,
    plane_point: Vec2,
    c: Clip,
) -> Seq<Vec2> {
    before.push(
        intersection(normal, plane_point, vertices[c.lone as int], vertices[c.first as int]),
    ).push(intersection(normal, plane_point, vertices[c.lone as int], vertices[c.second as int]))
}

/// The triangle cut off at the lone corner, over the grown vertex list.
pub open spec fn lone_piece(after: Seq<Vec2>, c: Clip) -> [usize; 3] {
    wound_ccw(after, [c.lone, (after.len() - 2) as usize, (after.len() - 1) as usize])
}

/// The first triangle of what is left on the side of the two corners.
pub open spec fn pair_piece_1(after: Seq<Vec2>, c: Clip) -> [usize; 3] {
    wound_ccw(after, [c.first, (after.len() - 1) as usize, (after.len() - 2) as usize])
}

/// The second triangle of what is left on the side of the two corners.
pub open spec fn pair_piece_2(after: Seq<Vec2>, c: Clip) -> [usize; 3] {
    wound_ccw(after, [c.second, (after.len() - 1) as usize, c.first])
}

/// The two sides after one more triangle was sorted: a triangle on one side
/// goes to that side whole, a triangle that the line crosses is clipped into
/// one triangle for the side of its lone corner and two for the other.
pub open spec fn sorted_one(
    prev: RawSplit,
    vertices: Seq<Vec2>,
    normal: Vec2,
    plane_point: Vec2,
    t: (usize, usize, usize),
) -> RawSplit {
    match clip_of(vertices, normal, plane_point, t) {
        None => {
            if on_side_a(vertices[t.0 as int], normal, plane_point) {
                RawSplit {
                    vertices: prev.vertices,
                    side_a: prev.side_a.push([t.0, t.1, t.2]),
                    side_b: prev.side_b,
                }
            } else {
                RawSplit {
                    vertices: prev.vertices,
                    side_a: prev.side_a,
                    side_b: prev.side_b.push([t.0, t.1, t.2]),
                }
            }
        },
        Some(c) => {
            let after = grown(prev.vertices, vertices, normal, plane_point, c);
            if c.lone_on_a {
                RawSplit {
                    vertices: after,
                    side_a: prev.side_a.push(lone_piece(after, c)),
                    side_b: prev.side_b.push(pair_piece_1(after, c)).push(pair_piece_2(after, c)),
                }
            } else {
                RawSplit {
                    vertices: after,
                    side_a: prev.side_a.push(pair_piece_1(after, c)).push(pair_piece_2(after, c)),
                    side_b: prev.side_b.push(lone_piece(after, c)),
                }
            }
        },
    }
}

/// Triangle `k` of a flat index list.
pub open spec fn triple_at(indices: Seq<usize>, k: int) -> (usize, usize, usize) {
    (indices[3 * k], indices[3 * k + 1], indices[3 * k + 2])
}

/// The two sides after the first `count` triangles of the mesh were sorted,
/// one after the other.
pub open spec fn raw_split(
    vertices: Seq<Vec2>,
    indices: Seq<usize>,
    normal: Vec2,
    plane_point: Vec2,
    count: nat,
) -> RawSplit
    decreases count,
{
    if count == 0 {
        RawSplit { vertices, side_a: Seq::empty(), side_b: Seq::empty() }
    } else {
        sorted_one(
            raw_split(vertices, indices, normal, plane_point, (count - 1) as nat),
            vertices,
            normal,
            plane_point,
            triple_at(indices, count - 1),
        )
    }
}

/// The sides of a cut are in bounds: the vertices of the mesh come first, all
/// vertices lie within the coordinate limit, every corner names a vertex.
pub open spec fn raw_in_bounds(raw: RawSplit, vertices: Seq<Vec2>) -> bool {
    &&& vertices.len() <= raw.vertices.len()
    &&& all_within(raw.vertices, COORD_LIMIT as int)
    &&& corners_below(raw.side_a, raw.vertices.len() as int)
    &&& corners_below(raw.side_b, raw.vertices.len() as int)
}

/// Sorting one more triangle keeps the sides in bounds.
pub proof fn lemma_sorted_one_in_bounds(
    prev: RawSplit,
    vertices: Seq<Vec2>,
    normal: Vec2,
    plane_point: Vec2,
    t: (usize, usize, usize),
)
    requires
        raw_in_bounds(prev, vertices),
        all_within(vertices, COORD_LIMIT as int),
        t.0 < vertices.len(),
        t.1 < vertices.len(),
        t.2 < vertices.len(),
        sorted_one(prev, vertices, normal, plane_point, t).vertices.len() <= usize::MAX,
    ensures
        raw_in_bounds(sorted_one(prev, vertices, normal, plane_point, t), vertices),
{
    let next = sorted_one(prev, vertices, normal, plane_point, t);
    match clip_of(vertices, normal, plane_point, t) {
        None => {
            let whole: [usize; 3] = [t.0, t.1, t.2];
            assert(whole[0] == t.0 && whole[1] == t.1 && whole[2] == t.2);
        },
        Some(c) => {
            assert(vertices[c.lone as int].within(COORD_LIMIT as int));
            assert(vertices[c.first as int].within(COORD_LIMIT as int));
            assert(vertices[c.second as int].within(COORD_LIMIT as int));
            lemma_intersection_within(
                normal,
                plane_point,
                vertices[c.lone as int],
                vertices[c.first as int],
                COORD_LIMIT as int,
            );
            lemma_intersection_within(
                normal,
                plane_point,
                vertices[c.lone as int],
                vertices[c.second as int],
                COORD_LIMIT as int,
            );
            let after = grown(prev.vertices, vertices, normal, plane_point, c);
            assert(after.len() == prev.vertices.len() + 2);
            assert(all_within(after, COORD_LIMIT as int));
            lemma_piece_corners(after, c);
        },
    }
}

/// The corners of the three pieces of a clipped triangle name vertices of
/// the grown list.
pub proof fn lemma_piece_corners(after: Seq<Vec2>, c: Clip)
    requires
        after.len() >= 2,
        after.len() <= usize::MAX,
        c.lone < after.len() - 2,
        c.first < after.len() - 2,
        c.second < after.len() - 2,
    ensures
        lone_piece(after, c)[0] < after.len(),
        lone_piece(after, c)[1] < after.len(),
        lone_piece(after, c)[2] < after.len(),
        pair_piece_1(after, c)[0] < after.len(),
        pair_piece_1(after, c)[1] < after.len(),
        pair_piece_1(after, c)[2] < after.len(),
        pair_piece_2(after, c)[0] < after.len(),
        pair_piece_2(after, c)[1] < after.len(),
        pair_piece_2(after, c)[2] < after.len(),
{
    let a: [usize; 3] = [c.lone, (after.len() - 2) as usize, (after.len() - 1) as usize];
    let b: [usize; 3] = [c.first, (after.len() - 1) as usize, (after.len() - 2) as usize];
    let d: [usize; 3] = [c.second, (after.len() - 1) as usize, c.first];
    lemma_wound_corners(after, a);
    lemma_wound_corners(after, b);
    lemma_wound_corners(after, d);
}

/// Winding a triangle counter-clockwise keeps its first corner and keeps or
/// exchanges the other two.
pub proof fn lemma_wound_corners(vertices: Seq<Vec2>, t: [usize; 3])
    ensures
        wound_ccw(vertices, t)[0] == t[0],
        (wound_ccw(vertices, t)[1] == t[1] && wound_ccw(vertices, t)[2] == t[2]) || (wound_ccw(
            vertices,
            t,
        )[1] == t[2] && wound_ccw(vertices, t)[2] == t[1]),
{
}

/// The vertices that cleanup keeps, before they are moved: the unused ones
/// are dropped, then close ones are welded.
pub open spec fn cleaned_vertices(vertices: Seq<Vec2>, triangles: Seq<[usize; 3]>) -> Seq<Vec2> {
    let used = used_vertices(vertices, triangles, vertices.len());
    welded(used, used.len())
}

/// The triangles that cleanup keeps: renumbered twice, and without those
/// that welding leaves with fewer than three corners.
pub open spec fn cleaned_triangles(vertices: Seq<Vec2>, triangles: Seq<[usize; 3]>) -> Seq<
    [usize; 3],
> {
    let used = used_vertices(vertices, triangles, vertices.len());
    let renamed = renumbered(triangles);
    proper_only(rewelded(used, renamed), renamed.len())
}

/// The offset by which cleanup moves a side: the centre of the bounding box
/// of the vertices it keeps.
pub open spec fn cleaned_offset(vertices: Seq<Vec2>, triangles: Seq<[usize; 3]>) -> Vec2 {
    bbox_center(cleaned_vertices(vertices, triangles))
}

/// The mesh that cleanup makes of a side.
pub open spec fn cleaned_mesh(vertices: Seq<Vec2>, triangles: Seq<[usize; 3]>) -> MeshView {
    MeshView {
        vertices: shifted(
            cleaned_vertices(vertices, triangles),
            cleaned_offset(vertices, triangles),
        ),
        indices: flattened(cleaned_triangles(vertices, triangles)),
    }
}

/// One side of a cut after cleanup: unused vertices dropped, close vertices
/// welded, the rest moved to the centre of its bounding box. `None` where
/// the side has no triangle, or where what is left of it is not a valid mesh.
/// The vector is the offset by which the side was moved.
pub open spec fn cleaned(vertices: Seq<Vec2>, triangles: Seq<[usize; 3]>) -> Option<(MeshView, Vec2)> {
    if vertices.len() == 0 || triangles.len() == 0 {
        None
    } else if cleaned_mesh(vertices, triangles).valid() {
        Some((cleaned_mesh(vertices, triangles), cleaned_offset(vertices, triangles)))
    } else {
        None
    }
}

/// What cleanup keeps is in bounds: the vertices lie within the coordinate
/// limit, and every corner names a vertex.
pub proof fn lemma_cleaned_in_bounds(vertices: Seq<Vec2>, triangles: Seq<[usize; 3]>)
    requires
        all_within(vertices, COORD_LIMIT as int),
        corners_below(triangles, vertices.len() as int),
        vertices.len() <= usize::MAX,
    ensures
        all_within(cleaned_vertices(vertices, triangles), COORD_LIMIT as int),
        corners_below(
            cleaned_triangles(vertices, triangles),
            cleaned_vertices(vertices, triangles).len() as int,
        ),
{
    let used = used_vertices(vertices, triangles, vertices.len());
    let renamed = renumbered(triangles);
    lemma_rank_is_length(vertices, triangles, vertices.len());
    lemma_rank_bound(triangles, vertices.len());
    lemma_renumbered_below(triangles, vertices.len());
    lemma_used_within(vertices, triangles, vertices.len(), COORD_LIMIT as int);
    lemma_rewelded_below(used, renamed);
    lemma_welded_within(used, used.len(), COORD_LIMIT as int);
}

/// The mesh that cleanup makes is well formed, and lies no farther from
/// where it lay than the coordinate limit.
pub proof fn lemma_cleaned_mesh_wf(vertices: Seq<Vec2>, triangles: Seq<[usize; 3]>)
    requires
        all_within(vertices, COORD_LIMIT as int),
        corners_below(triangles, vertices.len() as int),
        vertices.len() <= usize::MAX,
    ensures
        cleaned_mesh(vertices, triangles).wf(),
        cleaned_offset(vertices, triangles).within(COORD_LIMIT as int),
{
    let kept = cleaned_vertices(vertices, triangles);
    let proper = cleaned_triangles(vertices, triangles);
    let mesh = cleaned_mesh(vertices, triangles);
    lemma_cleaned_in_bounds(vertices, triangles);
    assert(all_within(mesh.vertices, COORD_LIMIT as int)) by {
        lemma_shifted_within(kept);
    }
    assert(cleaned_offset(vertices, triangles).within(COORD_LIMIT as int)) by {
        lemma_center_within(kept, COORD_LIMIT as int);
    }
    assert(mesh.vertices.len() == kept.len());
    assert(mesh.indices.len() % 3 == 0 && forall|i: int|
        0 <= i < mesh.indices.len() ==> (#[trigger] mesh.indices[i]) < kept.len()) by {
        lemma_flattened(proper, kept.len() as int);
    }
}

/// What cleanup gives is a valid and well-formed mesh.
pub proof fn lemma_cleaned_wf(vertices: Seq<Vec2>, triangles: Seq<[usize; 3]>)
    requires
        all_within(vertices, COORD_LIMIT as int),
        corners_below(triangles, vertices.len() as int),
        vertices.len() <= usize::MAX,
    ensures
        cleaned(vertices, triangles) matches Some((mesh, offset)) ==> mesh.wf() && mesh.valid()
            && offset.within(COORD_LIMIT as int),
{
    lemma_cleaned_mesh_wf(vertices, triangles);
}

/// The sides before cleanup are in bounds.
pub proof fn lemma_raw_split_in_bounds(
    vertices: Seq<Vec2>,
    indices: Seq<usize>,
    normal: Vec2,
    plane_point: Vec2,
    count: nat,
)
    requires
        all_within(vertices, COORD_LIMIT as int),
        forall|i: int| 0 <= i < indices.len() ==> (#[trigger] indices[i]) < vertices.len(),
        3 * count <= indices.len(),
        vertices.len() + 2 * count <= usize::MAX,
    ensures
        raw_in_bounds(raw_split(vertices, indices, normal, plane_point, count), vertices),
        raw_split(vertices, indices, normal, plane_point, count).vertices.len() <= vertices.len() + 2
            * count,
    decreases count,
{
    if count > 0 {
        lemma_raw_split_in_bounds(vertices, indices, normal, plane_point, (count - 1) as nat);
        let prev = raw_split(vertices, indices, normal, plane_point, (count - 1) as nat);
        let t = triple_at(indices, count - 1);
        assert(indices[3 * (count - 1)] < vertices.len());
        assert(indices[3 * (count - 1) + 1] < vertices.len());
        assert(indices[3 * (count - 1) + 2] < vertices.len());
        lemma_sorted_one_in_bounds(prev, vertices, normal, plane_point, t);
    }
}

/// The two sides of the cut of a mesh along the line through `plane_point`
/// whose normal is `direction` turned a quarter turn: first side A, the side
/// of positive distance, then side B.
pub open spec fn split_sides(mesh: MeshView, direction: Vec2, plane_point: Vec2) -> (
    Option<(MeshView, Vec2)>,
    Option<(MeshView, Vec2)>,
) {
    let raw = raw_split(
        mesh.vertices,
        mesh.indices,
        direction.spec_perp(),
        plane_point,
        (mesh.indices.len() / 3) as nat,
    );
    (cleaned(raw.vertices, raw.side_a), cleaned(raw.vertices, raw.side_b))
}

/// A piece of a cut with the view of its mesh in place of the mesh.
pub open spec fn piece_view(piece: Option<(Mesh, Vec2)>) -> Option<(MeshView, Vec2)> {
    match piece {
        Some((mesh, offset)) => Some((mesh@, offset)),
        None => None,
    }
}

/// Clips one triangle that the line crosses. `side_a` is the corner that lies
/// alone on its side, `side_b` the two corners on the other side. The two
/// crossing points are appended to the vertices of both sides; the side of
/// the lone corner gets one triangle, the other side two, each wound
/// counter-clockwise.
pub fn split_triangle(
    plane: Plane2d,
    plane_point: Vec2,
    vertices: &[Vec2],
    side_a: usize,
    side_b: &[usize; 2],
    indices_a: &mut Vec<[usize; 3]>,
    side_a_vertex: &mut Vec<Vec2>,
    indices_b: &mut Vec<[usize; 3]>,
    side_b_vertex: &mut Vec<Vec2>,
)
    requires
        plane.normal.within(LINE_LIMIT as int),
        plane_point.within(LINE_LIMIT as int),
        all_within(vertices@, LINE_LIMIT as int),
        all_within(old(side_a_vertex)@, LINE_LIMIT as int),
        all_within(old(side_b_vertex)@, LINE_LIMIT as int),
        side_a < vertices@.len(),
        side_b[0] < vertices@.len(),
        side_b[1] < vertices@.len(),
        vertices@.len() <= old(side_a_vertex)@.len(),
        vertices@.len() <= old(side_b_vertex)@.len(),
        on_side_a(vertices@[side_a as int], plane.normal, plane_point) != on_side_a(
            vertices@[side_b[0] as int],
            plane.normal,
            plane_point,
        ),
        on_side_a(vertices@[side_a as int], plane.normal, plane_point) != on_side_a(
            vertices@[side_b[1] as int],
            plane.normal,
            plane_point,
        ),
    ensures
        ({
            let c = Clip { lone: side_a, first: side_b[0], second: side_b[1], lone_on_a: true };
            let after_a = grown(old(side_a_vertex)@, vertices@, plane.normal, plane_point, c);
            let after_b = grown(old(side_b_vertex)@, vertices@, plane.normal, plane_point, c);
            &&& final(side_a_vertex)@ == after_a
            &&& final(side_b_vertex)@ == after_b
            &&& final(indices_a)@ == old(indices_a)@.push(lone_piece(after_a, c))
            &&& final(indices_b)@ == old(indices_b)@.push(pair_piece_1(after_b, c)).push(
                pair_piece_2(after_b, c),
            )
        }),
{
    proof {
        lemma_sides_in_reach(
            plane.normal,
            plane_point,
            vertices@[side_a as int],
            vertices@[side_b[0] as int],
        );
        lemma_sides_in_reach(
            plane.normal,
            plane_point,
            vertices@[side_a as int],
            vertices@[side_b[1] as int],
        );
    }
    let intersections: Vec<Vec2> = get_intersection_points_2d(
        &plane,
        vertices,
        side_a,
        side_b.as_slice(),
        plane_point,
    );
    proof {
        lemma_intersection_within(
            plane.normal,
            plane_point,
            vertices@[side_a as int],
            vertices@[side_b[0] as int],
            LINE_LIMIT as int,
        );
        lemma_intersection_within(
            plane.normal,
            plane_point,
            vertices@[side_a as int],
            vertices@[side_b[1] as int],
            LINE_LIMIT as int,
        );
    }
    let first: Vec2 = intersections[0];
    let second: Vec2 = intersections[1];

    side_a_vertex.push(first);
    side_a_vertex.push(second);
    let mut new_indices_a: [usize; 3] = [side_a, side_a_vertex.len() - 2, side_a_vertex.len() - 1];
    ensure_ccw(side_a_vertex.as_slice(), &mut new_indices_a);
    indices_a.push(new_indices_a);

    side_b_vertex.push(first);
    side_b_vertex.push(second);
    let intersect_1_vertex_index: usize = side_b_vertex.len() - 2;
    let intersect_2_vertex_index: usize = side_b_vertex.len() - 1;
    let mut new_indices_b1: [usize; 3] = [side_b[0], intersect_2_vertex_index, intersect_1_vertex_index];
    let mut new_indices_b2: [usize; 3] = [side_b[1], intersect_2_vertex_index, side_b[0]];
    ensure_ccw(side_b_vertex.as_slice(), &mut new_indices_b1);
    ensure_ccw(side_b_vertex.as_slice(), &mut new_indices_b2);
    indices_b.push(new_indices_b1);
    indices_b.push(new_indices_b2);
}

/// Cleans one side of a cut: see [`cleaned`].
pub fn clean_side(vertices: &mut Vec<Vec2>, indices: &mut Vec<[usize; 3]>) -> (piece: Option<
    (Mesh, Vec2),
>)
    requires
        all_within(old(vertices)@, COORD_LIMIT as int),
        corners_below(old(indices)@, old(vertices)@.len() as int),
    ensures
        piece_view(piece) == cleaned(old(vertices)@, old(indices)@),
        piece matches Some((mesh, offset)) ==> mesh.wf() && offset.within(COORD_LIMIT as int),
{
    proof {
        assert(vertices@.len() == vertices.len());
        lemma_cleaned_wf(vertices@, indices@);
    }
    if vertices.len() == 0 || indices.len() == 0 {
        return None;
    }
    proof {
        lemma_used_within(vertices@, indices@, vertices@.len(), COORD_LIMIT as int);
    }
    remove_unused_vertices(vertices, indices);
    proof {
        lemma_welded_within(vertices@, vertices@.len(), COORD_LIMIT as int);
    }
    merge_vertices(vertices, indices);
    let offset: Vec2 = recenter_mesh(vertices);
    let mesh: Mesh = create_mesh_2d(vertices.as_slice(), indices.as_slice());
    if valid_mesh(&mesh) {
        Some((mesh, offset))
    } else {
        None
    }
}

/// Which side of the line each vertex lies on: `true` for side A.
fn classify_vertices(vertices: &[Vec2], plane: Plane2d, plane_point: Vec2) -> (flags: Vec<bool>)
    requires
        all_within(vertices@, COORD_LIMIT as int),
        plane.normal.within(LINE_LIMIT as int),
        plane_point.within(LINE_LIMIT as int),
    ensures
        flags@.len() == vertices@.len(),
        forall|i: int|
            0 <= i < vertices@.len() ==> #[trigger] flags@[i] == on_side_a(
                vertices@[i],
                plane.normal,
                plane_point,
            ),
{
    let mut flags: Vec<bool> = Vec::new();
    let mut i: usize = 0;
    while i < vertices.len()
        invariant
            i <= vertices@.len(),
            all_within(vertices@, COORD_LIMIT as int),
            plane.normal.within(LINE_LIMIT as int),
            plane_point.within(LINE_LIMIT as int),
            flags@.len() == i,
            forall|j: int|
                0 <= j < i ==> #[trigger] flags@[j] == on_side_a(
                    vertices@[j],
                    plane.normal,
                    plane_point,
                ),
        decreases vertices@.len() - i,
    {
        let vertex: Vec2 = vertices[i];
        assert(vertices@[i as int].within(COORD_LIMIT as int));
        flags.push(distance_to_plane(vertex, plane, plane_point) > 0);
        i += 1;
    }
    flags
}

/// Sorts one triangle of the mesh to the sides of the line: see
/// [`sorted_one`].
fn sort_triangle(
    vertices: &[Vec2],
    vertex_classifications: &Vec<bool>,
    plane: Plane2d,
    plane_point: Vec2,
    t: (usize, usize, usize),
    side_a_indices: &mut Vec<[usize; 3]>,
    side_a_vertex: &mut Vec<Vec2>,
    side_b_indices: &mut Vec<[usize; 3]>,
    side_b_vertex: &mut Vec<Vec2>,
)
    requires
        plane.normal.within(LINE_LIMIT as int),
        plane_point.within(LINE_LIMIT as int),
        all_within(vertices@, COORD_LIMIT as int),
        old(side_a_vertex)@ == old(side_b_vertex)@,
        all_within(old(side_a_vertex)@, COORD_LIMIT as int),
        vertices@.len() <= old(side_a_vertex)@.len(),
        t.0 < vertices@.len(),
        t.1 < vertices@.len(),
        t.2 < vertices@.len(),
        vertex_classifications@.len() == vertices@.len(),
        forall|i: int|
            0 <= i < vertices@.len() ==> #[trigger] vertex_classifications@[i] == on_side_a(
                vertices@[i],
                plane.normal,
                plane_point,
            ),
    ensures
        ({
            let prev = RawSplit {
                vertices: old(side_a_vertex)@,
                side_a: old(side_a_indices)@,
                side_b: old(side_b_indices)@,
            };
            let next = sorted_one(prev, vertices@, plane.normal, plane_point, t);
            &&& final(side_a_vertex)@ == next.vertices
            &&& final(side_b_vertex)@ == next.vertices
            &&& final(side_a_indices)@ == next.side_a
            &&& final(side_b_indices)@ == next.side_b
        }),
{
    let (i0, i1, i2) = t;
    assert(vertices@[i0 as int].within(COORD_LIMIT as int));
    assert(vertices@[i1 as int].within(COORD_LIMIT as int));
    assert(vertices@[i2 as int].within(COORD_LIMIT as int));
    let mut side_a: SmallIndices = small_new();
    let mut side_b: SmallIndices = small_new();
    if vertex_classifications[i0] {
        small_push(&mut side_a, i0);
    } else {
        small_push(&mut side_b, i0);
    }
    if vertex_classifications[i1] {
        small_push(&mut side_a, i1);
    } else {
        small_push(&mut side_b, i1);
    }
    if vertex_classifications[i2] {
        small_push(&mut side_a, i2);
    } else {
        small_push(&mut side_b, i2);
    }
    let count_a: usize = small_len(&side_a);
    let count_b: usize = small_len(&side_b);
    if count_a == 3 {
        let whole: [usize; 3] = [small_get(&side_a, 0), small_get(&side_a, 1), small_get(&side_a, 2)];
        assert(whole =~= [i0, i1, i2]);
        side_a_indices.push(whole);
    } else if count_b == 3 {
        let whole: [usize; 3] = [small_get(&side_b, 0), small_get(&side_b, 1), small_get(&side_b, 2)];
        assert(whole =~= [i0, i1, i2]);
        side_b_indices.push(whole);
    } else if count_a == 1 {
        let lone: usize = small_get(&side_a, 0);
        let pair: [usize; 2] = [small_get(&side_b, 0), small_get(&side_b, 1)];
        split_triangle(
            plane,
            plane_point,
            vertices,
            lone,
            &pair,
            side_a_indices,
            side_a_vertex,
            side_b_indices,
            side_b_vertex,
        );
    } else {
        let lone: usize = small_get(&side_b, 0);
        let pair: [usize; 2] = [small_get(&side_a, 0), small_get(&side_a, 1)];
        split_triangle(
            plane,
            plane_point,
            vertices,
            lone,
            &pair,
            side_b_indices,
            side_b_vertex,
            side_a_indices,
            side_a_vertex,
        );
    }
}

/// The two sides of the cut of `mesh` along the line through `plane_point`
/// whose normal is `split_plane_direction` turned a quarter turn: side A, on
/// which the distance from the line is positive, and side B. A side that
/// gets no triangle, or of which cleanup leaves no valid mesh, is `None`.
/// Each mesh comes with the offset by which it was moved to the centre of its
/// bounding box.
pub fn split_pair(mesh: &Mesh, split_plane_direction: Vec2, plane_point: Vec2) -> (halves: (
    Option<(Mesh, Vec2)>,
    Option<(Mesh, Vec2)>,
))
    requires
        mesh.wf(),
        split_plane_direction.within(LINE_LIMIT as int),
        plane_point.within(LINE_LIMIT as int),
    ensures
        piece_view(halves.0) == split_sides(mesh@, split_plane_direction, plane_point).0,
        piece_view(halves.1) == split_sides(mesh@, split_plane_direction, plane_point).1,
        halves.0 matches Some((piece, offset)) ==> piece.wf() && offset.within(COORD_LIMIT as int),
        halves.1 matches Some((piece, offset)) ==> piece.wf() && offset.within(COORD_LIMIT as int),
        keeps_to_side_a(piece_view(halves.0), split_plane_direction.spec_perp(), plane_point),
        keeps_to_side_b(piece_view(halves.1), split_plane_direction.spec_perp(), plane_point),
{
    let impact_normal: Vec2 = split_plane_direction.perp();
    let plane: Plane2d = Plane2d::new(impact_normal);
    let ghost vs = mesh@.vertices;
    let ghost ix = mesh@.indices;
    let mut side_a_indices: Vec<[usize; 3]> = Vec::new();
    let mut side_b_indices: Vec<[usize; 3]> = Vec::new();
    let mut side_a_vertex: Vec<Vec2> = copy_vertices(mesh.vertices.as_slice());
    let mut side_b_vertex: Vec<Vec2> = copy_vertices(mesh.vertices.as_slice());
    let vertex_classifications: Vec<bool> = classify_vertices(
        mesh.vertices.as_slice(),
        plane,
        plane_point,
    );
    let corners: Vec<(usize, usize, usize)> = triples(mesh.indices.as_slice());
    let mut k: usize = 0;
    while k < corners.len()
        invariant
            k <= corners@.len(),
            mesh.wf(),
            vs == mesh@.vertices,
            ix == mesh@.indices,
            plane.normal == impact_normal,
            impact_normal.within(LINE_LIMIT as int),
            plane_point.within(LINE_LIMIT as int),
            corners@.len() == ix.len() / 3,
            forall|j: int| 0 <= j < corners@.len() ==> #[trigger] corners@[j] == triple_at(ix, j),
            vertex_classifications@.len() == vs.len(),
            forall|i: int|
                0 <= i < vs.len() ==> #[trigger] vertex_classifications@[i] == on_side_a(
                    vs[i],
                    impact_normal,
                    plane_point,
                ),
            side_a_vertex@ == raw_split(vs, ix, impact_normal, plane_point, k as nat).vertices,
            side_b_vertex@ == side_a_vertex@,
            side_a_indices@ == raw_split(vs, ix, impact_normal, plane_point, k as nat).side_a,
            side_b_indices@ == raw_split(vs, ix, impact_normal, plane_point, k as nat).side_b,
            raw_in_bounds(raw_split(vs, ix, impact_normal, plane_point, k as nat), vs),
        decreases corners@.len() - k,
    {
        let t: (usize, usize, usize) = corners[k];
        let ghost prev = raw_split(vs, ix, impact_normal, plane_point, k as nat);
        proof {
            assert(t == triple_at(ix, k as int));
            assert(ix[3 * k] < vs.len() && ix[3 * k + 1] < vs.len() && ix[3 * k + 2] < vs.len());
            assert(prev == RawSplit {
                vertices: side_a_vertex@,
                side_a: side_a_indices@,
                side_b: side_b_indices@,
            });
        }
        sort_triangle(
            mesh.vertices.as_slice(),
            &vertex_classifications,
            plane,
            plane_point,
            t,
            &mut side_a_indices,
            &mut side_a_vertex,
            &mut side_b_indices,
            &mut side_b_vertex,
        );
        proof {
            assert(side_a_vertex@ == sorted_one(prev, vs, impact_normal, plane_point, t).vertices);
            assert(side_a_vertex@.len() == side_a_vertex.len());
            lemma_sorted_one_in_bounds(prev, vs, impact_normal, plane_point, t);
        }
        k += 1;
    }
    proof {
        let raw = raw_split(vs, ix, impact_normal, plane_point, k as nat);
        assert(side_a_vertex@.len() == side_a_vertex.len());
        lemma_raw_split_apart(vs, ix, impact_normal, plane_point, k as nat);
        lemma_cleaned_vertices_hold(
            raw.vertices,
            raw.side_a,
            |p: Vec2| on_a_or_near(p, impact_normal, plane_point),
        );
        lemma_cleaned_vertices_hold(
            raw.vertices,
            raw.side_b,
            |p: Vec2| on_b_or_near(p, impact_normal, plane_point),
        );
    }
    let first: Option<(Mesh, Vec2)> = clean_side(&mut side_a_vertex, &mut side_a_indices);
    let second: Option<(Mesh, Vec2)> = clean_side(&mut side_b_vertex, &mut side_b_indices);
    (first, second)
}

/// Cuts `mesh` along the line through `plane_point` whose normal is
/// `split_plane_direction` turned a quarter turn. The first piece is side A,
/// on which the distance from the line is positive, the second side B. A side
/// that gets no triangle, or of which cleanup leaves no valid mesh, is `None`.
/// Each mesh comes with the offset by which it was moved to the centre of its
/// bounding box.
pub fn split_mesh(mesh: &Mesh, split_plane_direction: Vec2, plane_point: Vec2) -> (halves: [Option<
    (Mesh, Vec2),
>; 2])
    requires
        mesh.wf(),
        split_plane_direction.within(LINE_LIMIT as int),
        plane_point.within(LINE_LIMIT as int),
    ensures
        piece_view(halves[0]) == split_sides(mesh@, split_plane_direction, plane_point).0,
        piece_view(halves[1]) == split_sides(mesh@, split_plane_direction, plane_point).1,
        halves[0] matches Some((piece, offset)) ==> piece.wf() && offset.within(COORD_LIMIT as int),
        halves[1] matches Some((piece, offset)) ==> piece.wf() && offset.within(COORD_LIMIT as int),
        keeps_to_side_a(piece_view(halves[0]), split_plane_direction.spec_perp(), plane_point),
        keeps_to_side_b(piece_view(halves[1]), split_plane_direction.spec_perp(), plane_point),
{
    let (first, second) = split_pair(mesh, split_plane_direction, plane_point);
    [first, second]
}

} // verus!
