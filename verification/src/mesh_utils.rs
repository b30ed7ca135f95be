//! Geometry primitives: distances to a line, crossing points, winding, areas
//! and the longest axis of a mesh.

use vstd::prelude::*;
use crate::arith::{
    isqrt, lemma_round_div_bounds, lemma_sqrt_at_most, lemma_sqrt_exists, lerp, round_div,
    sqrt_floor,
};
use crate::mesh::{Mesh, MeshView};
use crate::trusted::triples;
use crate::vec2::{
    abs, cross, dist2, on_side_a, signed_distance, Plane2d, Vec2, COORD_LIMIT, LINE_LIMIT,
    STEPS_PER_UNIT,
};

verus! {

/// A product is bounded by the product of the bounds of its factors.
pub proof fn lemma_product_bound(a: int, b: int, la: int, lb: int)
    by (nonlinear_arith)
    requires
        -la <= a <= la,
        -lb <= b <= lb,
    ensures
        -(la * lb) <= a * b <= la * lb,
{
}

/// The signed distance of points within the line limit stays below 2^65.
pub proof fn lemma_distance_bound(point: Vec2, normal: Vec2, plane_point: Vec2)
    requires
        point.within(LINE_LIMIT as int),
        normal.within(LINE_LIMIT as int),
        plane_point.within(LINE_LIMIT as int),
    ensures
        -0x2_0000_0000_0000_0000 <= signed_distance(point, normal, plane_point)
            <= 0x2_0000_0000_0000_0000,
{
    lemma_product_bound(normal.x as int, point.x - plane_point.x, 0x8000_0000, 0x1_0000_0000);
    lemma_product_bound(normal.y as int, point.y - plane_point.y, 0x8000_0000, 0x1_0000_0000);
}

/// The distance of `point` from the line through `plane_point` with the
/// plane's normal, scaled by the normal's length.
pub fn distance_to_plane(point: Vec2, plane: Plane2d, plane_point: Vec2) -> (d: i128)
    requires
        point.within(LINE_LIMIT as int),
        plane.normal.within(LINE_LIMIT as int),
        plane_point.within(LINE_LIMIT as int),
    ensures
        d == signed_distance(point, plane.normal, plane_point),
{
    let dx: i128 = point.x as i128 - plane_point.x as i128;
    let dy: i128 = point.y as i128 - plane_point.y as i128;
    let nx: i128 = plane.normal.x as i128;
    let ny: i128 = plane.normal.y as i128;
    proof {
        lemma_product_bound(nx as int, dx as int, 0x8000_0000, 0x1_0000_0000);
        lemma_product_bound(ny as int, dy as int, 0x8000_0000, 0x1_0000_0000);
    }
    nx * dx + ny * dy
}

/// The weight of `to` in the crossing point: the distance of `from`, with
/// the sign that makes the difference of the two distances positive.
pub open spec fn crossing_weight(normal: Vec2, plane_point: Vec2, from: Vec2, to: Vec2) -> int {
    let d0 = signed_distance(from, normal, plane_point);
    let d1 = signed_distance(to, normal, plane_point);
    if d0 - d1 >= 0 {
        d0
    } else {
        -d0
    }
}

/// The magnitude of the difference of the distances of `from` and `to`.
pub open spec fn crossing_total(normal: Vec2, plane_point: Vec2, from: Vec2, to: Vec2) -> int {
    abs(signed_distance(from, normal, plane_point) - signed_distance(to, normal, plane_point))
}

/// The point where the line through `from` and `to` crosses the cutting
/// line, each coordinate rounded to the nearest lattice step: `from` moved
/// towards `to` by the share that its distance has in the difference of both
/// distances.
pub open spec fn intersection(normal: Vec2, plane_point: Vec2, from: Vec2, to: Vec2) -> Vec2 {
    let weight = crossing_weight(normal, plane_point, from, to);
    let total = crossing_total(normal, plane_point, from, to);
    Vec2 {
        x: (from.x + round_div((to.x - from.x) * weight, total)) as i64,
        y: (from.y + round_div((to.y - from.y) * weight, total)) as i64,
    }
}

/// The farthest that a crossing point may lie from `from` on either axis:
/// 2^32 steps.
pub const CROSSING_REACH: i64 = 0x1_0000_0000;

/// The line through `from` and `to` crosses the cutting line, no farther
/// from `from` than `CROSSING_REACH` on either axis.
pub open spec fn crossing_in_reach(normal: Vec2, plane_point: Vec2, from: Vec2, to: Vec2) -> bool {
    let weight = crossing_weight(normal, plane_point, from, to);
    let total = crossing_total(normal, plane_point, from, to);
    &&& total > 0
    &&& abs((to.x - from.x) * weight) <= CROSSING_REACH * total
    &&& abs((to.y - from.y) * weight) <= CROSSING_REACH * total
}

/// The product of a length and a share of a total is a share of the product.
proof fn lemma_weighted(d: int, weight: int, total: int)
    by (nonlinear_arith)
    requires
        0 <= weight <= total,
    ensures
        d >= 0 ==> 0 <= d * weight <= d * total,
        d <= 0 ==> d * total <= d * weight <= 0,
        -d * total == -(d * total),
{
}

/// Between two points on different sides, the weight is a share of the
/// total.
pub proof fn lemma_weight_is_share(normal: Vec2, plane_point: Vec2, from: Vec2, to: Vec2)
    requires
        on_side_a(from, normal, plane_point) != on_side_a(to, normal, plane_point),
    ensures
        0 <= crossing_weight(normal, plane_point, from, to) <= crossing_total(
            normal,
            plane_point,
            from,
            to,
        ),
        crossing_total(normal, plane_point, from, to) > 0,
{
}

/// The coordinates of a crossing point between two points on different
/// sides: those of `from` and the rounded shares of the way to `to`, each of
/// which lies between nothing and the whole way.
pub proof fn lemma_intersection_coordinates(normal: Vec2, plane_point: Vec2, from: Vec2, to: Vec2)
    requires
        on_side_a(from, normal, plane_point) != on_side_a(to, normal, plane_point),
    ensures
        ({
            let weight = crossing_weight(normal, plane_point, from, to);
            let total = crossing_total(normal, plane_point, from, to);
            let p = intersection(normal, plane_point, from, to);
            let rx = round_div((to.x - from.x) * weight, total);
            let ry = round_div((to.y - from.y) * weight, total);
            &&& p.x == from.x + rx
            &&& p.y == from.y + ry
            &&& 0 <= rx <= to.x - from.x || to.x - from.x <= rx <= 0
            &&& 0 <= ry <= to.y - from.y || to.y - from.y <= ry <= 0
        }),
{
    let weight = crossing_weight(normal, plane_point, from, to);
    let total = crossing_total(normal, plane_point, from, to);
    lemma_weight_is_share(normal, plane_point, from, to);
    let dx = to.x - from.x;
    let dy = to.y - from.y;
    lemma_weighted(dx, weight, total);
    lemma_weighted(dy, weight, total);
    lemma_round_div_bounds(dx * weight, total, abs(dx));
    lemma_round_div_bounds(dy * weight, total, abs(dy));
}

/// A crossing point between two points on different sides lies in the box
/// that the two points span.
pub proof fn lemma_intersection_between(normal: Vec2, plane_point: Vec2, from: Vec2, to: Vec2)
    requires
        on_side_a(from, normal, plane_point) != on_side_a(to, normal, plane_point),
    ensures
        ({
            let p = intersection(normal, plane_point, from, to);
            &&& from.x <= p.x <= to.x || to.x <= p.x <= from.x
            &&& from.y <= p.y <= to.y || to.y <= p.y <= from.y
        }),
{
    lemma_intersection_coordinates(normal, plane_point, from, to);
}

/// A crossing point between two points on different sides within a limit
/// lies within that limit.
pub proof fn lemma_intersection_within(
    normal: Vec2,
    plane_point: Vec2,
    from: Vec2,
    to: Vec2,
    limit: int,
)
    requires
        on_side_a(from, normal, plane_point) != on_side_a(to, normal, plane_point),
        from.within(limit),
        to.within(limit),
    ensures
        intersection(normal, plane_point, from, to).within(limit),
{
    lemma_intersection_between(normal, plane_point, from, to);
}

/// Between two points on different sides within the line limit, the line
/// is crossed in reach.
pub proof fn lemma_sides_in_reach(normal: Vec2, plane_point: Vec2, from: Vec2, to: Vec2)
    requires
        on_side_a(from, normal, plane_point) != on_side_a(to, normal, plane_point),
        from.within(LINE_LIMIT as int),
        to.within(LINE_LIMIT as int),
    ensures
        crossing_in_reach(normal, plane_point, from, to),
{
    let weight = crossing_weight(normal, plane_point, from, to);
    let total = crossing_total(normal, plane_point, from, to);
    lemma_weight_is_share(normal, plane_point, from, to);
    lemma_weighted(to.x - from.x, weight, total);
    lemma_weighted(to.y - from.y, weight, total);
    lemma_reach(to.x - from.x, total);
    lemma_reach(to.y - from.y, total);
}

/// A length of at most 2^32 times a total is at most 2^32 times the total.
proof fn lemma_reach(d: int, total: int)
    by (nonlinear_arith)
    requires
        -0x1_0000_0000 <= d <= 0x1_0000_0000,
        total >= 0,
    ensures
        -(0x1_0000_0000 * total) <= d * total <= 0x1_0000_0000 * total,
{
}

/// The crossing point of one edge.
pub fn intersection_point(plane: &Plane2d, plane_point: Vec2, from: Vec2, to: Vec2) -> (p: Vec2)
    requires
        plane.normal.within(LINE_LIMIT as int),
        plane_point.within(LINE_LIMIT as int),
        from.within(LINE_LIMIT as int),
        to.within(LINE_LIMIT as int),
        crossing_in_reach(plane.normal, plane_point, from, to),
    ensures
        p == intersection(plane.normal, plane_point, from, to),
{
    let d0: i128 = distance_to_plane(from, *plane, plane_point);
    let d1: i128 = distance_to_plane(to, *plane, plane_point);
    proof {
        lemma_distance_bound(from, plane.normal, plane_point);
        lemma_distance_bound(to, plane.normal, plane_point);
    }
    let difference: i128 = d0 - d1;
    let weight: i128 = if difference >= 0 { d0 } else { -d0 };
    let total: u128 = if difference >= 0 { difference as u128 } else { (-difference) as u128 };
    let sx: i64 = lerp(to.x - from.x, weight, total);
    let sy: i64 = lerp(to.y - from.y, weight, total);
    Vec2 { x: from.x + sx, y: from.y + sy }
}

/// The points where the lines from the vertex `vertex_index` to each of
/// `opposite_vertices` cross the cutting line, in the order of
/// `opposite_vertices`. Each must cross it in reach, as every edge does whose
/// ends lie on different sides.
pub fn get_intersection_points_2d(
    plane: &Plane2d,
    vertices: &[Vec2],
    vertex_index: usize,
    opposite_vertices: &[usize],
    plane_point: Vec2,
) -> (intersections: Vec<Vec2>)
    requires
        plane.normal.within(LINE_LIMIT as int),
        plane_point.within(LINE_LIMIT as int),
        vertex_index < vertices@.len(),
        vertices@[vertex_index as int].within(LINE_LIMIT as int),
        forall|k: int|
            0 <= k < opposite_vertices@.len() ==> {
                &&& (#[trigger] opposite_vertices@[k]) < vertices@.len()
                &&& vertices@[opposite_vertices@[k] as int].within(LINE_LIMIT as int)
                &&& crossing_in_reach(
                    plane.normal,
                    plane_point,
                    vertices@[vertex_index as int],
                    vertices@[opposite_vertices@[k] as int],
                )
            },
    ensures
        intersections@.len() == opposite_vertices@.len(),
        forall|k: int|
            0 <= k < opposite_vertices@.len() ==> #[trigger] intersections@[k] == intersection(
                plane.normal,
                plane_point,
                vertices@[vertex_index as int],
                vertices@[opposite_vertices@[k] as int],
            ),
{
    let mut intersections: Vec<Vec2> = Vec::new();
    let v0: Vec2 = vertices[vertex_index];
    let mut k: usize = 0;
    while k < opposite_vertices.len()
        invariant
            k <= opposite_vertices@.len(),
            plane.normal.within(LINE_LIMIT as int),
            plane_point.within(LINE_LIMIT as int),
            vertex_index < vertices@.len(),
            v0 == vertices@[vertex_index as int],
            v0.within(LINE_LIMIT as int),
            forall|j: int|
                0 <= j < opposite_vertices@.len() ==> {
                    &&& (#[trigger] opposite_vertices@[j]) < vertices@.len()
                    &&& vertices@[opposite_vertices@[j] as int].within(LINE_LIMIT as int)
                    &&& crossing_in_reach(
                        plane.normal,
                        plane_point,
                        v0,
                        vertices@[opposite_vertices@[j] as int],
                    )
                },
            intersections@.len() == k,
            forall|j: int|
                0 <= j < k ==> #[trigger] intersections@[j] == intersection(
                    plane.normal,
                    plane_point,
                    v0,
                    vertices@[opposite_vertices@[j] as int],
                ),
        decreases opposite_vertices@.len() - k,
    {
        let index: usize = opposite_vertices[k];
        let v1: Vec2 = vertices[index];
        let p: Vec2 = intersection_point(plane, plane_point, v0, v1);
        intersections.push(p);
        k += 1;
    }
    intersections
}

/// Whether the triangle winds counter-clockwise. A triangle without area
/// counts as counter-clockwise.
pub open spec fn ccw(vertices: Seq<Vec2>, t: [usize; 3]) -> bool {
    cross(vertices[t[0] as int], vertices[t[1] as int], vertices[t[2] as int]) >= 0
}

/// The triangle with its second and third corner exchanged if it winds
/// clockwise.
pub open spec fn wound_ccw(vertices: Seq<Vec2>, t: [usize; 3]) -> [usize; 3] {
    if ccw(vertices, t) {
        t
    } else {
        [t[0], t[2], t[1]]
    }
}

/// What holds of the three corners of a triangle holds of them when the
/// triangle is wound counter-clockwise.
pub proof fn lemma_wound_corners_hold(vertices: Seq<Vec2>, t: [usize; 3], good: spec_fn(Vec2) -> bool)
    requires
        good(vertices[t[0] as int]),
        good(vertices[t[1] as int]),
        good(vertices[t[2] as int]),
    ensures
        good(vertices[wound_ccw(vertices, t)[0] as int]),
        good(vertices[wound_ccw(vertices, t)[1] as int]),
        good(vertices[wound_ccw(vertices, t)[2] as int]),
{
}

/// The three corners name vertices, and these lie within `limit`.
pub open spec fn corners_within(vertices: Seq<Vec2>, t: [usize; 3], limit: int) -> bool {
    &&& t[0] < vertices.len() && vertices[t[0] as int].within(limit)
    &&& t[1] < vertices.len() && vertices[t[1] as int].within(limit)
    &&& t[2] < vertices.len() && vertices[t[2] as int].within(limit)
}

/// Exchanging two corners of a triangle negates its signed area.
pub proof fn lemma_cross_swap(a: Vec2, b: Vec2, c: Vec2)
    by (nonlinear_arith)
    ensures
        cross(a, c, b) == -cross(a, b, c),
{
}

/// Whether the triangle winds counter-clockwise.
pub fn is_ccw_winded(vertices: &[Vec2], indices: &[usize; 3]) -> (r: bool)
    requires
        corners_within(vertices@, *indices, LINE_LIMIT as int),
    ensures
        r == ccw(vertices@, *indices),
{
    let v1: Vec2 = vertices[indices[0]];
    let v2: Vec2 = vertices[indices[1]];
    let v3: Vec2 = vertices[indices[2]];
    let ax: i128 = v2.x as i128 - v1.x as i128;
    let ay: i128 = v2.y as i128 - v1.y as i128;
    let bx: i128 = v3.x as i128 - v1.x as i128;
    let by: i128 = v3.y as i128 - v1.y as i128;
    proof {
        lemma_product_bound(ax as int, by as int, 0x1_0000_0000, 0x1_0000_0000);
        lemma_product_bound(ay as int, bx as int, 0x1_0000_0000, 0x1_0000_0000);
    }
    let cross_product_z: i128 = ax * by - ay * bx;
    cross_product_z >= 0
}

/// Makes the triangle wind counter-clockwise.
pub fn ensure_ccw(vertices: &[Vec2], indices: &mut [usize; 3])
    requires
        corners_within(vertices@, *old(indices), LINE_LIMIT as int),
    ensures
        *final(indices) == wound_ccw(vertices@, *old(indices)),
        ccw(vertices@, *final(indices)),
{
    if !is_ccw_winded(vertices, indices) {
        proof {
            lemma_cross_swap(
                vertices@[indices[0] as int],
                vertices@[indices[1] as int],
                vertices@[indices[2] as int],
            );
        }
        let second: usize = indices[1];
        indices[1] = indices[2];
        indices[2] = second;
        assert(*indices =~= wound_ccw(vertices@, *old(indices)));
    }
}

/// The area of triangle `k` of a flat index list, in half square steps.
pub open spec fn triangle_area(vertices: Seq<Vec2>, indices: Seq<usize>, k: int) -> int {
    abs(
        cross(
            vertices[indices[3 * k] as int],
            vertices[indices[3 * k + 1] as int],
            vertices[indices[3 * k + 2] as int],
        ),
    )
}

/// The areas of the first `count` triangles, summed.
pub open spec fn area_upto(vertices: Seq<Vec2>, indices: Seq<usize>, count: nat) -> int
    decreases count,
{
    if count == 0 {
        0
    } else {
        area_upto(vertices, indices, (count - 1) as nat) + triangle_area(
            vertices,
            indices,
            count - 1,
        )
    }
}

/// The area that the triangles cover, each counted for itself, in half square
/// steps. Indices left over after the last whole triple are ignored.
pub open spec fn area(vertices: Seq<Vec2>, indices: Seq<usize>) -> int {
    area_upto(vertices, indices, (indices.len() / 3) as nat)
}

impl MeshView {
    /// The area of the mesh in half square steps.
    pub open spec fn area(self) -> int {
        area(self.vertices, self.indices)
    }
}

/// The area of the triangles in half square steps: the sum of the magnitudes
/// of their signed areas.
pub fn calculate_area(vertices: &[Vec2], indices: &[usize]) -> (total: u128)
    requires
        forall|i: int| 0 <= i < indices@.len() ==> (#[trigger] indices@[i]) < vertices@.len(),
        forall|i: int| 0 <= i < vertices@.len() ==> (#[trigger] vertices@[i]).within(COORD_LIMIT as int),
    ensures
        total == area(vertices@, indices@),
{
    let corners: Vec<(usize, usize, usize)> = triples(indices);
    let mut total: u128 = 0;
    let mut k: usize = 0;
    while k < corners.len()
        invariant
            k <= corners@.len(),
            corners@.len() == indices@.len() / 3,
            forall|j: int|
                0 <= j < corners@.len() ==> #[trigger] corners@[j] == (
                    indices@[3 * j],
                    indices@[3 * j + 1],
                    indices@[3 * j + 2],
                ),
            forall|i: int| 0 <= i < indices@.len() ==> (#[trigger] indices@[i]) < vertices@.len(),
            forall|i: int| 0 <= i < vertices@.len() ==> (#[trigger] vertices@[i]).within(COORD_LIMIT as int),
            total == area_upto(vertices@, indices@, k as nat),
            total <= k * 0x8000_0000_0000_0000,
        decreases corners@.len() - k,
    {
        let (i0, i1, i2) = corners[k];
        assert(indices@[3 * k] == i0 && indices@[3 * k + 1] == i1 && indices@[3 * k + 2] == i2);
        let v0: Vec2 = vertices[i0];
        let v1: Vec2 = vertices[i1];
        let v2: Vec2 = vertices[i2];
        let ax: i128 = v1.x as i128 - v0.x as i128;
        let ay: i128 = v1.y as i128 - v0.y as i128;
        let bx: i128 = v2.x as i128 - v0.x as i128;
        let by: i128 = v2.y as i128 - v0.y as i128;
        proof {
            lemma_product_bound(ax as int, by as int, 0x8000_0000, 0x8000_0000);
            lemma_product_bound(ay as int, bx as int, 0x8000_0000, 0x8000_0000);
        }
        let signed: i128 = ax * by - ay * bx;
        let piece: u128 = if signed >= 0 { signed as u128 } else { (-signed) as u128 };
        assert(piece == triangle_area(vertices@, indices@, k as int));
        assert((k + 1) * 0x8000_0000_0000_0000 <= 0x1_0000_0000_0000_0000 * 0x8000_0000_0000_0000)
            by (nonlinear_arith)
            requires
                k < 0x1_0000_0000_0000_0000,
        ;
        total = total + piece;
        k += 1;
    }
    total
}

/// The area of the mesh in half square steps.
pub fn calculate_mesh_area(mesh: &Mesh) -> (total: u128)
    requires
        mesh.wf(),
    ensures
        total == mesh@.area(),
{
    calculate_area(mesh.vertices.as_slice(), mesh.indices.as_slice())
}

/// Whether the mesh is valid: see [`MeshView::valid`].
pub fn valid_mesh(mesh: &Mesh) -> (r: bool)
    ensures
        r == mesh@.valid(),
{
    let vertex_count: usize = mesh.vertices.len();
    let index_count: usize = mesh.indices.len();
    if vertex_count == 0 || index_count == 0 {
        return false;
    }
    if index_count % 3 != 0 {
        return false;
    }
    let first_index: usize = mesh.indices[0];
    let mut i: usize = 0;
    while i < index_count
        invariant
            i <= index_count,
            index_count == mesh.indices@.len(),
            index_count > 0,
            index_count % 3 == 0,
            mesh.vertices@.len() > 0,
            first_index == mesh.indices@[0],
            forall|j: int| 0 <= j < i ==> #[trigger] mesh.indices@[j] == first_index,
        decreases index_count - i,
    {
        if mesh.indices[i] != first_index {
            assert(mesh.indices@[i as int] != mesh.indices@[0]);
            return true;
        }
        i += 1;
    }
    false
}

/// Pair `(i, j)` comes before pair `(k, l)` when the pairs are listed with
/// the first index rising and, under it, the second.
pub open spec fn pair_before(i: int, j: int, k: int, l: int) -> bool {
    i < k || (i == k && j < l)
}

/// `(i, j)` is the first pair of vertices, in the order of `pair_before`,
/// that lies as far apart as any pair does, and these two vertices differ.
pub open spec fn is_longest_pair(vertices: Seq<Vec2>, i: int, j: int) -> bool {
    &&& 0 <= i < j < vertices.len()
    &&& dist2(vertices[i], vertices[j]) > 0
    &&& forall|k: int, l: int|
        0 <= k < l < vertices.len() ==> #[trigger] dist2(vertices[k], vertices[l]) <= dist2(
            vertices[i],
            vertices[j],
        )
    &&& forall|k: int, l: int|
        0 <= k < l < vertices.len() && pair_before(k, l, i, j) ==> #[trigger] dist2(
            vertices[k],
            vertices[l],
        ) < dist2(vertices[i], vertices[j])
}

/// Some two vertices of the sequence differ.
pub open spec fn has_extent(vertices: Seq<Vec2>) -> bool {
    exists|k: int, l: int| 0 <= k < l < vertices.len() && #[trigger] dist2(vertices[k], vertices[l]) > 0
}

/// The first farthest pair of vertices is unique.
pub proof fn lemma_longest_pair_unique(vertices: Seq<Vec2>, i: int, j: int, k: int, l: int)
    requires
        is_longest_pair(vertices, i, j),
        is_longest_pair(vertices, k, l),
    ensures
        i == k,
        j == l,
{
    assert(dist2(vertices[i], vertices[j]) <= dist2(vertices[k], vertices[l]));
    assert(dist2(vertices[k], vertices[l]) <= dist2(vertices[i], vertices[j]));
    if pair_before(i, j, k, l) {
        assert(dist2(vertices[i], vertices[j]) < dist2(vertices[k], vertices[l]));
    }
    if pair_before(k, l, i, j) {
        assert(dist2(vertices[k], vertices[l]) < dist2(vertices[i], vertices[j]));
    }
}

/// The longest span of the vertices: the vector to the first from the second
/// vertex of the first pair that lies as far apart as any, as long as the
/// two lie apart.
pub open spec fn longest_span(vertices: Seq<Vec2>) -> Vec2 {
    let (i, j) = choose|i: int, j: int| is_longest_pair(vertices, i, j);
    Vec2 { x: (vertices[i].x - vertices[j].x) as i64, y: (vertices[i].y - vertices[j].y) as i64 }
}

/// The squared length of a vector.
pub open spec fn norm2(v: Vec2) -> int {
    v.x * v.x + v.y * v.y
}

/// One coordinate of a vector brought to a length: the coordinate times the
/// length, divided by the length that the vector has, rounded towards zero.
/// `square` is the squared length that the vector has.
pub open spec fn scaled_coordinate(component: int, length: int, square: int) -> int {
    let magnitude = sqrt_floor(component * component * (length * length) / square);
    if component >= 0 {
        magnitude
    } else {
        -magnitude
    }
}

/// The vector brought to the given length, each coordinate rounded towards
/// zero; the zero vector stays as it is.
pub open spec fn with_length(v: Vec2, length: int) -> Vec2 {
    if norm2(v) == 0 {
        Vec2 { x: 0, y: 0 }
    } else {
        Vec2 {
            x: scaled_coordinate(v.x as int, length, norm2(v)) as i64,
            y: scaled_coordinate(v.y as int, length, norm2(v)) as i64,
        }
    }
}

/// The longest axis of the vertices: their longest span brought to the
/// length of one world unit.
pub open spec fn longest_axis(vertices: Seq<Vec2>) -> Vec2 {
    with_length(longest_span(vertices), STEPS_PER_UNIT as int)
}

/// The square of a coordinate, scaled by the square of a length and divided
/// by the squared length of its vector, lies between zero and the square of
/// the length; times the squared length of the vector it falls short of the
/// scaled square by less than that squared length.
proof fn lemma_scaled_square(component: int, other: int, length: int)
    by (nonlinear_arith)
    requires
        component * component + other * other > 0,
        length >= 0,
    ensures
        ({
            let square = component * component + other * other;
            let q = component * component * (length * length) / square;
            &&& 0 <= q <= length * length
            &&& q * square <= component * component * (length * length) < (q + 1) * square
        }),
{
    let square = component * component + other * other;
    let top = component * component * (length * length);
    assert(component * component >= 0 && other * other >= 0);
    assert(0 <= top <= square * (length * length));
    assert(top == square * (top / square) + top % square && 0 <= top % square < square);
}

/// A coordinate of a vector brought to a length is at most the length in
/// magnitude, and has the sign of the coordinate it comes from.
pub proof fn lemma_scaled_coordinate_bound(component: int, other: int, length: int)
    requires
        component * component + other * other > 0,
        length >= 0,
    ensures
        ({
            let scaled = scaled_coordinate(
                component,
                length,
                component * component + other * other,
            );
            &&& -length <= scaled <= length
            &&& component >= 0 ==> scaled >= 0
            &&& component <= 0 ==> scaled <= 0
        }),
{
    let square = component * component + other * other;
    lemma_scaled_square(component, other, length);
    lemma_sqrt_at_most(component * component * (length * length) / square, length);
    if component == 0 {
        assert(component * component * (length * length) / square == 0) by (nonlinear_arith)
            requires
                component == 0,
                square > 0,
        ;
        lemma_sqrt_at_most(0, 0);
    }
}

/// A vector brought to a length has that length, but for the rounding of its
/// two coordinates: it is no longer, and shorter by less than three steps.
pub proof fn lemma_with_length_norm(v: Vec2, length: int)
    requires
        norm2(v) > 0,
        5 <= length <= i64::MAX,
    ensures
        (length - 3) * (length - 3) <= norm2(with_length(v, length)) <= length * length,
{
    let square = norm2(v);
    let x = v.x as int;
    let y = v.y as int;
    let qx = x * x * (length * length) / square;
    let qy = y * y * (length * length) / square;
    let a = sqrt_floor(qx);
    let b = sqrt_floor(qy);
    assert(y * y + x * x == square);
    lemma_scaled_square(x, y, length);
    lemma_scaled_square(y, x, length);
    lemma_scaled_coordinate_bound(x, y, length);
    lemma_scaled_coordinate_bound(y, x, length);
    lemma_sqrt_exists(qx);
    lemma_sqrt_exists(qy);
    let w = with_length(v, length);
    assert(w.x == a || w.x == -a);
    assert(w.y == b || w.y == -b);
    assert(norm2(w) == a * a + b * b) by (nonlinear_arith)
        requires
            w.x == a || w.x == -a,
            w.y == b || w.y == -b,
            norm2(w) == w.x * w.x + w.y * w.y,
    ;
    assert(qx + qy <= length * length && qx + qy + 2 > length * length) by (nonlinear_arith)
        requires
            square > 0,
            x * x + y * y == square,
            qx * square <= x * x * (length * length) < (qx + 1) * square,
            qy * square <= y * y * (length * length) < (qy + 1) * square,
    {
        assert((qx + qy) * square <= square * (length * length));
        assert((qx + qy + 2) * square > square * (length * length));
    }
    assert((a + 1) * (a + 1) + (b + 1) * (b + 1) == a * a + b * b + 2 * a + 2 * b + 2)
        by (nonlinear_arith);
    assert((length - 3) * (length - 3) == length * length - 6 * length + 9) by (nonlinear_arith);
}

/// Of two magnitudes that were scaled alike and rounded down, neither leads
/// the other by a whole step: `a * y < (b + 1) * x`, where `a` is at most
/// the scaled `x` and `b + 1` is more than the scaled `y`.
proof fn lemma_rounded_alike(a: int, y: int, b1: int, x: int, square: int, ll: int)
    requires
        a >= 0,
        y >= 0,
        b1 >= 0,
        x > 0,
        square > 0,
        a * a * square <= x * x * ll,
        b1 * b1 * square > y * y * ll,
    ensures
        a * y < b1 * x,
{
    let left = a * y;
    let right = b1 * x;
    assert(left * left * square == (a * a * square) * (y * y)) by (nonlinear_arith)
        requires
            left == a * y,
    ;
    assert(right * right * square == (b1 * b1 * square) * (x * x)) by (nonlinear_arith)
        requires
            right == b1 * x,
    ;
    assert((a * a * square) * (y * y) <= (x * x * ll) * (y * y)) by (nonlinear_arith)
        requires
            a * a * square <= x * x * ll,
    ;
    assert((b1 * b1 * square) * (x * x) > (y * y * ll) * (x * x)) by (nonlinear_arith)
        requires
            b1 * b1 * square > y * y * ll,
            x > 0,
    ;
    assert((x * x * ll) * (y * y) == (y * y * ll) * (x * x)) by (nonlinear_arith);
    assert(left * left < right * right) by (nonlinear_arith)
        requires
            left * left * square < right * right * square,
            square > 0,
    ;
    assert(left < right) by (nonlinear_arith)
        requires
            left * left < right * right,
            left >= 0,
            right >= 0,
    ;
}

/// A vector brought to a length points as the vector does, but for the
/// rounding of its two coordinates: each coordinate has the sign of the one
/// it comes from, and the cross product of the two vectors is no more than
/// the sum of the magnitudes of the vector's coordinates.
pub proof fn lemma_with_length_parallel(v: Vec2, length: int)
    requires
        norm2(v) > 0,
        0 <= length <= i64::MAX,
    ensures
        ({
            let w = with_length(v, length);
            &&& v.x >= 0 ==> w.x >= 0
            &&& v.x <= 0 ==> w.x <= 0
            &&& v.y >= 0 ==> w.y >= 0
            &&& v.y <= 0 ==> w.y <= 0
            &&& abs(w.x * v.y - w.y * v.x) <= abs(v.x as int) + abs(v.y as int)
        }),
{
    let square = norm2(v);
    let x = abs(v.x as int);
    let y = abs(v.y as int);
    let ll = length * length;
    let qx = v.x * v.x * ll / square;
    let qy = v.y * v.y * ll / square;
    let a = sqrt_floor(qx);
    let b = sqrt_floor(qy);
    let w = with_length(v, length);
    assert(v.y * v.y + v.x * v.x == square);
    lemma_scaled_square(v.x as int, v.y as int, length);
    lemma_scaled_square(v.y as int, v.x as int, length);
    lemma_scaled_coordinate_bound(v.x as int, v.y as int, length);
    lemma_scaled_coordinate_bound(v.y as int, v.x as int, length);
    lemma_sqrt_exists(qx);
    lemma_sqrt_exists(qy);
    assert(x * x == v.x * v.x && y * y == v.y * v.y) by (nonlinear_arith)
        requires
            x == v.x || x == -v.x,
            y == v.y || y == -v.y,
    ;
    assert(a * a * square <= x * x * ll && (a + 1) * (a + 1) * square > x * x * ll)
        by (nonlinear_arith)
        requires
            a * a <= qx < (a + 1) * (a + 1),
            qx * square <= x * x * ll < (qx + 1) * square,
            square > 0,
    ;
    assert(b * b * square <= y * y * ll && (b + 1) * (b + 1) * square > y * y * ll)
        by (nonlinear_arith)
        requires
            b * b <= qy < (b + 1) * (b + 1),
            qy * square <= y * y * ll < (qy + 1) * square,
            square > 0,
    ;
    if x > 0 {
        lemma_rounded_alike(a, y, b + 1, x, square, ll);
    } else {
        assert(a == 0);
    }
    if y > 0 {
        lemma_rounded_alike(b, x, a + 1, y, square, ll);
    } else {
        assert(b == 0);
    }
    assert(-y <= a * y - b * x <= x) by (nonlinear_arith)
        requires
            x > 0 ==> a * y < (b + 1) * x,
            y > 0 ==> b * x < (a + 1) * y,
            x == 0 ==> a == 0,
            y == 0 ==> b == 0,
            x >= 0,
            y >= 0,
            a >= 0,
            b >= 0,
    ;
    assert(w.x * v.y - w.y * v.x == a * y - b * x || w.x * v.y - w.y * v.x == b * x - a * y)
        by (nonlinear_arith)
        requires
            (v.x >= 0 && w.x == a && x == v.x) || (v.x < 0 && w.x == -a && x == -v.x),
            (v.y >= 0 && w.y == b && y == v.y) || (v.y < 0 && w.y == -b && y == -v.y),
    ;
}

/// The vector brought to the given length: see [`with_length`].
pub fn vector_with_length(v: Vec2, length: i64) -> (r: Vec2)
    requires
        v.within(LINE_LIMIT as int),
        0 <= length <= LINE_LIMIT,
    ensures
        r == with_length(v, length as int),
        r.within(length as int),
{
    let x: i128 = v.x as i128;
    let y: i128 = v.y as i128;
    proof {
        lemma_product_bound(x as int, x as int, LINE_LIMIT as int, LINE_LIMIT as int);
        lemma_product_bound(y as int, y as int, LINE_LIMIT as int, LINE_LIMIT as int);
        lemma_product_bound(length as int, length as int, LINE_LIMIT as int, LINE_LIMIT as int);
        assert(x * x >= 0 && y * y >= 0 && length * length >= 0) by (nonlinear_arith);
    }
    let xx: u128 = (x * x) as u128;
    let yy: u128 = (y * y) as u128;
    let square: u128 = xx + yy;
    if square == 0 {
        return Vec2 { x: 0, y: 0 };
    }
    let ll: u128 = ((length as i128) * (length as i128)) as u128;
    proof {
        lemma_product_bound(xx as int, ll as int, 0x4000_0000_0000_0000, 0x4000_0000_0000_0000);
        lemma_product_bound(yy as int, ll as int, 0x4000_0000_0000_0000, 0x4000_0000_0000_0000);
        lemma_scaled_coordinate_bound(x as int, y as int, length as int);
        lemma_scaled_coordinate_bound(y as int, x as int, length as int);
        assert(y * y + x * x == square);
        assert(x * x * (length * length) == xx * ll) by (nonlinear_arith)
            requires
                xx == x * x,
                ll == length * length,
        ;
        assert(y * y * (length * length) == yy * ll) by (nonlinear_arith)
            requires
                yy == y * y,
                ll == length * length,
        ;
    }
    let a: i64 = isqrt(xx * ll / square) as i64;
    let b: i64 = isqrt(yy * ll / square) as i64;
    Vec2 { x: if v.x >= 0 { a } else { -a }, y: if v.y >= 0 { b } else { -b } }
}

/// Two points differ exactly when their squared distance is positive.
pub proof fn lemma_dist2_positive(a: Vec2, b: Vec2)
    by (nonlinear_arith)
    ensures
        dist2(a, b) >= 0,
        dist2(a, b) == dist2(b, a),
        a != b <==> dist2(a, b) > 0,
{
    assert(a != b <==> (a.x - b.x != 0 || a.y - b.y != 0));
}

/// A triangle with two corners in one place has no area.
pub proof fn lemma_cross_degenerate(a: Vec2, b: Vec2, c: Vec2)
    by (nonlinear_arith)
    requires
        a == b || a == c,
    ensures
        cross(a, b, c) == 0,
{
}

/// Triangles with area have corners in different places.
pub proof fn lemma_area_extent(vertices: Seq<Vec2>, indices: Seq<usize>, count: nat)
    requires
        forall|i: int| 0 <= i < indices.len() ==> (#[trigger] indices[i]) < vertices.len(),
        3 * count <= indices.len(),
        area_upto(vertices, indices, count) > 0,
    ensures
        has_extent(vertices),
    decreases count,
{
    if count > 0 {
        if triangle_area(vertices, indices, count - 1) > 0 {
            let i0 = indices[3 * (count - 1)] as int;
            let i1 = indices[3 * (count - 1) + 1] as int;
            let i2 = indices[3 * (count - 1) + 2] as int;
            let a = vertices[i0];
            if a == vertices[i1] && a == vertices[i2] {
                lemma_cross_degenerate(a, vertices[i1], vertices[i2]);
            }
            let other = if a != vertices[i1] { i1 } else { i2 };
            lemma_dist2_positive(a, vertices[other]);
            if i0 < other {
                assert(dist2(vertices[i0], vertices[other]) > 0);
            } else {
                assert(dist2(vertices[other], vertices[i0]) > 0);
            }
        } else {
            lemma_area_extent(vertices, indices, (count - 1) as nat);
        }
    }
}

/// Whether some two vertices differ.
pub fn vertices_have_extent(vertices: &[Vec2]) -> (r: bool)
    ensures
        r == has_extent(vertices@),
{
    if vertices.len() == 0 {
        return false;
    }
    let first: Vec2 = vertices[0];
    let mut i: usize = 1;
    while i < vertices.len()
        invariant
            1 <= i <= vertices@.len(),
            first == vertices@[0],
            forall|j: int| 0 <= j < i ==> #[trigger] vertices@[j] == first,
        decreases vertices@.len() - i,
    {
        if vertices[i] != first {
            proof {
                lemma_dist2_positive(vertices@[0], vertices@[i as int]);
                assert(dist2(vertices@[0], vertices@[i as int]) > 0);
            }
            return true;
        }
        i += 1;
    }
    proof {
        if has_extent(vertices@) {
            let (k, l) = choose|k: int, l: int|
                0 <= k < l < vertices@.len() && #[trigger] dist2(vertices@[k], vertices@[l]) > 0;
            lemma_dist2_positive(vertices@[k], vertices@[l]);
        }
    }
    false
}

/// The squared distance of two points.
fn squared_distance(a: Vec2, b: Vec2) -> (r: u128)
    requires
        a.within(COORD_LIMIT as int),
        b.within(COORD_LIMIT as int),
    ensures
        r == dist2(a, b),
{
    let dx: i128 = a.x as i128 - b.x as i128;
    let dy: i128 = a.y as i128 - b.y as i128;
    proof {
        lemma_product_bound(dx as int, dx as int, 0x8000_0000, 0x8000_0000);
        lemma_product_bound(dy as int, dy as int, 0x8000_0000, 0x8000_0000);
        assert(dx * dx >= 0 && dy * dy >= 0) by (nonlinear_arith);
    }
    (dx * dx + dy * dy) as u128
}

/// The longest span of a mesh: the vector to the first from the second
/// vertex of the first pair of vertices that lies as far apart as any, in
/// its full length. The mesh must have two vertices that differ.
pub fn mesh_longest_span(mesh: &Mesh) -> (span: Vec2)
    requires
        mesh.wf(),
        has_extent(mesh@.vertices),
    ensures
        exists|i: int, j: int|
            {
                &&& #[trigger] is_longest_pair(mesh@.vertices, i, j)
                &&& span.x == mesh@.vertices[i].x - mesh@.vertices[j].x
                &&& span.y == mesh@.vertices[i].y - mesh@.vertices[j].y
            },
        span == longest_span(mesh@.vertices),
        span.within(LINE_LIMIT as int),
        norm2(span) > 0,
{
    let n: usize = mesh.vertices.len();
    let mut max_length: u128 = 0;
    let mut direction: Vec2 = Vec2 { x: 0, y: 0 };
    let ghost mut bi: int = 0;
    let ghost mut bj: int = 0;
    let ghost vs = mesh@.vertices;
    let mut i: usize = 0;
    while i < n
        invariant
            i <= n,
            n == vs.len(),
            vs == mesh.vertices@,
            mesh.wf(),
            forall|k: int, l: int| 0 <= k < l < n && k < i ==> #[trigger] dist2(vs[k], vs[l]) <= max_length,
            max_length > 0 ==> {
                &&& 0 <= bi < bj < n
                &&& bi < i
                &&& dist2(vs[bi], vs[bj]) == max_length
                &&& direction.x == vs[bi].x - vs[bj].x
                &&& direction.y == vs[bi].y - vs[bj].y
                &&& forall|k: int, l: int|
                    0 <= k < l < n && pair_before(k, l, bi, bj) ==> #[trigger] dist2(vs[k], vs[l])
                        < max_length
            },
        decreases n - i,
    {
        let va: Vec2 = mesh.vertices[i];
        let mut j: usize = i + 1;
        while j < n
            invariant
                i < j <= n,
                n == vs.len(),
                vs == mesh.vertices@,
                mesh.wf(),
                va == vs[i as int],
                forall|k: int, l: int|
                    0 <= k < l < n && (k < i || (k == i && l < j)) ==> #[trigger] dist2(vs[k], vs[l])
                        <= max_length,
                max_length > 0 ==> {
                    &&& 0 <= bi < bj < n
                    &&& bi <= i
                    &&& bi == i ==> bj < j
                    &&& dist2(vs[bi], vs[bj]) == max_length
                    &&& direction.x == vs[bi].x - vs[bj].x
                    &&& direction.y == vs[bi].y - vs[bj].y
                    &&& forall|k: int, l: int|
                        0 <= k < l < n && pair_before(k, l, bi, bj) ==> #[trigger] dist2(
                            vs[k],
                            vs[l],
                        ) < max_length
                },
            decreases n - j,
        {
            let vb: Vec2 = mesh.vertices[j];
            let length: u128 = squared_distance(va, vb);
            if length > max_length {
                max_length = length;
                direction = Vec2 { x: va.x - vb.x, y: va.y - vb.y };
                proof {
                    bi = i as int;
                    bj = j as int;
                }
            }
            j += 1;
        }
        i += 1;
    }
    proof {
        let (k, l) = choose|k: int, l: int| 0 <= k < l < vs.len() && #[trigger] dist2(vs[k], vs[l]) > 0;
        assert(dist2(vs[k], vs[l]) <= max_length);
        assert(is_longest_pair(vs, bi, bj));
        let (ci, cj) = choose|i: int, j: int| is_longest_pair(vs, i, j);
        lemma_longest_pair_unique(vs, bi, bj, ci, cj);
        assert(vs[bi].within(COORD_LIMIT as int) && vs[bj].within(COORD_LIMIT as int));
        assert(norm2(direction) == dist2(vs[bi], vs[bj]));
    }
    direction
}

/// The longest axis of a mesh: the unit vector that points to the first from
/// the second vertex of the first pair of vertices that lies as far apart as
/// any. Its length is one world unit, `STEPS_PER_UNIT` steps, but for the
/// rounding of its two coordinates. The mesh must have two vertices that
/// differ.
pub fn mesh_longest_axis(mesh: &Mesh) -> (axis: Vec2)
    requires
        mesh.wf(),
        has_extent(mesh@.vertices),
    ensures
        axis == longest_axis(mesh@.vertices),
        axis == with_length(longest_span(mesh@.vertices), STEPS_PER_UNIT as int),
        axis.within(STEPS_PER_UNIT as int),
        (STEPS_PER_UNIT - 3) * (STEPS_PER_UNIT - 3) <= norm2(axis) <= STEPS_PER_UNIT
            * STEPS_PER_UNIT,
        abs(
            axis.x * longest_span(mesh@.vertices).y - axis.y * longest_span(mesh@.vertices).x,
        ) <= abs(longest_span(mesh@.vertices).x as int) + abs(
            longest_span(mesh@.vertices).y as int,
        ),
        longest_span(mesh@.vertices).x >= 0 ==> axis.x >= 0,
        longest_span(mesh@.vertices).x <= 0 ==> axis.x <= 0,
        longest_span(mesh@.vertices).y >= 0 ==> axis.y >= 0,
        longest_span(mesh@.vertices).y <= 0 ==> axis.y <= 0,
{
    let span: Vec2 = mesh_longest_span(mesh);
    proof {
        lemma_with_length_norm(span, STEPS_PER_UNIT as int);
        lemma_with_length_parallel(span, STEPS_PER_UNIT as int);
    }
    vector_with_length(span, STEPS_PER_UNIT)
}

} // verus!
