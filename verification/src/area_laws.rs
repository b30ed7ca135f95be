//! The area that a cut conserves.

use vstd::prelude::*;
use crate::cleanup::{
    corners_below, flattened, lemma_flattened, lemma_flattened_corners, lemma_proper_only_members,
    lemma_shifted_within, proper, proper_only, renumbered, rewelded, used_vertices,
};
use crate::laws::{
    cut_welds_exactly, lemma_corners_in_place, lemma_cross_moved, side_welds_exactly, starts_with,
};
use crate::mesh::MeshView;
use crate::mesh_utils::{
    area, area_upto, crossing_total, crossing_weight, intersection, lemma_cross_swap,
    lemma_weight_is_share, triangle_area, wound_ccw,
};
use crate::split_mesh::{
    cleaned, cleaned_mesh, cleaned_offset, cleaned_triangles, cleaned_vertices, clip_of, grown,
    lemma_raw_split_in_bounds, lone_piece, pair_piece_1, pair_piece_2, raw_in_bounds, raw_split,
    sorted_one, split_sides, triple_at, Clip, RawSplit,
};
use crate::vec2::{abs, all_within, cross, on_side_a, Vec2, COORD_LIMIT};

verus! {

/// The cross product of two vectors.
pub open spec fn cross2(px: int, py: int, qx: int, qy: int) -> int {
    px * qy - py * qx
}

/// The triangle cut off at the lone corner, scaled: with `u` and `v` the
/// edges from the lone corner, `e0` and `e1` the parts of them up to the
/// crossing points, and `d0 * e0 == a0 * u`, `d1 * e1 == a1 * v`.
proof fn lemma_lone_piece(
    ux: int,
    uy: int,
    vx: int,
    vy: int,
    e0x: int,
    e0y: int,
    e1x: int,
    e1y: int,
    a0: int,
    d0: int,
    a1: int,
    d1: int,
)
    by (nonlinear_arith)
    requires
        d0 * e0x == a0 * ux,
        d0 * e0y == a0 * uy,
        d1 * e1x == a1 * vx,
        d1 * e1y == a1 * vy,
    ensures
        (d0 * d1) * cross2(e0x, e0y, e1x, e1y) == (a0 * a1) * cross2(ux, uy, vx, vy),
{
    assert((d0 * e0x) * (d1 * e1y) == (d0 * d1) * (e0x * e1y));
    assert((d0 * e0y) * (d1 * e1x) == (d0 * d1) * (e0y * e1x));
    assert((a0 * ux) * (a1 * vy) == (a0 * a1) * (ux * vy));
    assert((a0 * uy) * (a1 * vx) == (a0 * a1) * (uy * vx));
}

/// Where `k * p == c * v` for two vectors `p` and `v`, `k` times the cross
/// product of `p` with a vector is `c` times that of `v` with it.
proof fn lemma_scale_left(k: int, c: int, px: int, py: int, vx: int, vy: int, qx: int, qy: int)
    by (nonlinear_arith)
    requires
        k * px == c * vx,
        k * py == c * vy,
    ensures
        k * cross2(px, py, qx, qy) == c * cross2(vx, vy, qx, qy),
{
    assert(k * (px * qy) == (k * px) * qy);
    assert(k * (py * qx) == (k * py) * qx);
    assert(c * (vx * qy) == (c * vx) * qy);
    assert(c * (vy * qx) == (c * vy) * qx);
}

/// Where `k * q == c * w` for two vectors `q` and `w`, `k` times the cross
/// product of a vector with `q` is `c` times that of it with `w`.
proof fn lemma_scale_right(k: int, c: int, px: int, py: int, qx: int, qy: int, wx: int, wy: int)
    by (nonlinear_arith)
    requires
        k * qx == c * wx,
        k * qy == c * wy,
    ensures
        k * cross2(px, py, qx, qy) == c * cross2(px, py, wx, wy),
{
    assert(k * (px * qy) == px * (k * qy));
    assert(k * (py * qx) == py * (k * qx));
    assert(c * (px * wy) == px * (c * wy));
    assert(c * (py * wx) == py * (c * wx));
}

/// The product of two differences, expanded.
pub(crate) proof fn lemma_expand(a: int, b: int, c: int, d: int)
    by (nonlinear_arith)
    ensures
        (a - b) * (c - d) == a * c - a * d - b * c + b * d,
{
}

/// The cross product changes its sign when its vectors change places, and
/// that of a vector with itself is zero.
pub(crate) proof fn lemma_cross_antisymmetric(px: int, py: int, qx: int, qy: int)
    by (nonlinear_arith)
    ensures
        cross2(px, py, qx, qy) == -cross2(qx, qy, px, py),
        cross2(px, py, px, py) == 0,
{
}

/// The cross product of differences, expanded.
pub(crate) proof fn lemma_cross_of_differences(
    px: int,
    py: int,
    rx: int,
    ry: int,
    qx: int,
    qy: int,
    sx: int,
    sy: int,
)
    ensures
        cross2(px - rx, py - ry, qx - sx, qy - sy) == cross2(px, py, qx, qy) - cross2(
            px,
            py,
            sx,
            sy,
        ) - cross2(rx, ry, qx, qy) + cross2(rx, ry, sx, sy),
        cross2(px, py, qx, qy) == -cross2(qx, qy, px, py),
        cross2(px, py, px, py) == 0,
{
    lemma_expand(px, rx, qy, sy);
    lemma_expand(py, ry, qx, sx);
    lemma_cross_antisymmetric(px, py, qx, qy);
}

/// A factor distributes over a difference.
pub(crate) proof fn lemma_times_difference(k: int, a: int, b: int, c: int)
    by (nonlinear_arith)
    ensures
        k * (a - b) == k * a - k * b,
        k * (a - b - c) == k * a - k * b - k * c,
        k * (-a) == -(k * a),
        k * 0 == 0,
{
}

/// Products of three factors, rearranged.
pub(crate) proof fn lemma_three_factors(a: int, b: int, c: int)
    by (nonlinear_arith)
    ensures
        (a * b) * c == a * (b * c),
        (a * b) * c == b * (a * c),
        (a * b) * c == (b * a) * c,
{
}

/// The second triangle of the side of the two corners, scaled.
proof fn lemma_far_piece(ux: int, uy: int, vx: int, vy: int, e1x: int, e1y: int, a1: int, d1: int)
    requires
        d1 * e1x == a1 * vx,
        d1 * e1y == a1 * vy,
    ensures
        d1 * cross2(e1x - vx, e1y - vy, ux - vx, uy - vy) == (d1 - a1) * cross2(ux, uy, vx, vy),
{
    let s = cross2(ux, uy, vx, vy);
    let z = cross2(e1x - vx, e1y - vy, ux - vx, uy - vy);
    let first = cross2(e1x, e1y, ux, uy);
    let second = cross2(e1x, e1y, vx, vy);
    lemma_cross_of_differences(e1x, e1y, vx, vy, ux, uy, vx, vy);
    lemma_cross_of_differences(vx, vy, 0, 0, ux, uy, 0, 0);
    lemma_cross_of_differences(vx, vy, 0, 0, vx, vy, 0, 0);
    assert(cross2(vx, vy, ux, uy) == -s);
    assert(cross2(vx, vy, vx, vy) == 0);
    assert(z == first - second + s);
    lemma_scale_left(d1, a1, e1x, e1y, vx, vy, ux, uy);
    lemma_scale_left(d1, a1, e1x, e1y, vx, vy, vx, vy);
    lemma_times_difference(a1, s, 0, 0);
    assert(d1 * first == -(a1 * s));
    assert(d1 * second == 0);
    lemma_times_difference(d1, first, second, -s);
    lemma_times_difference(d1, s, 0, 0);
    assert(d1 * z == d1 * first - d1 * second - d1 * (-s));
    assert(d1 * z == d1 * s - a1 * s);
    assert((d1 - a1) * s == d1 * s - a1 * s) by (nonlinear_arith);
}

/// The first triangle of the side of the two corners, scaled.
proof fn lemma_near_piece(
    ux: int,
    uy: int,
    vx: int,
    vy: int,
    e0x: int,
    e0y: int,
    e1x: int,
    e1y: int,
    a0: int,
    d0: int,
    a1: int,
    d1: int,
)
    requires
        d0 * e0x == a0 * ux,
        d0 * e0y == a0 * uy,
        d1 * e1x == a1 * vx,
        d1 * e1y == a1 * vy,
    ensures
        (d0 * d1) * cross2(e1x - ux, e1y - uy, e0x - ux, e0y - uy) == (a1 * (d0 - a0)) * cross2(
            ux,
            uy,
            vx,
            vy,
        ),
{
    let s = cross2(ux, uy, vx, vy);
    let x = cross2(e0x, e0y, e1x, e1y);
    let y = cross2(e1x - ux, e1y - uy, e0x - ux, e0y - uy);
    let second = cross2(e1x, e1y, ux, uy);
    let third = cross2(ux, uy, e0x, e0y);
    let k = d0 * d1;
    lemma_cross_of_differences(e1x, e1y, ux, uy, e0x, e0y, ux, uy);
    lemma_cross_of_differences(e1x, e1y, 0, 0, e0x, e0y, 0, 0);
    lemma_cross_of_differences(ux, uy, 0, 0, ux, uy, 0, 0);
    lemma_cross_of_differences(vx, vy, 0, 0, ux, uy, 0, 0);
    assert(y == -x - second - third);
    lemma_lone_piece(ux, uy, vx, vy, e0x, e0y, e1x, e1y, a0, d0, a1, d1);
    lemma_scale_left(d1, a1, e1x, e1y, vx, vy, ux, uy);
    lemma_times_difference(a1, s, 0, 0);
    assert(d1 * second == -(a1 * s));
    lemma_scale_right(d0, a0, ux, uy, e0x, e0y, ux, uy);
    lemma_times_difference(a0, 0, 0, 0);
    assert(d0 * third == 0);
    lemma_three_factors(d0, d1, second);
    assert(k * second == d0 * (d1 * second));
    lemma_times_difference(d0, a1 * s, 0, 0);
    lemma_three_factors(d0, a1, s);
    assert(k * second == -((d0 * a1) * s));
    lemma_three_factors(d0, d1, third);
    lemma_times_difference(d1, 0, 0, 0);
    assert(k * third == 0);
    lemma_times_difference(k, -x, second, third);
    lemma_times_difference(k, x, 0, 0);
    assert(k * y == -(k * x) - k * second - k * third);
    assert(k * y == (d0 * a1) * s - (a0 * a1) * s);
    assert((a1 * (d0 - a0)) * s == (d0 * a1) * s - (a0 * a1) * s) by (nonlinear_arith);
}

/// A number that a positive factor takes to a non-negative multiple of `s`
/// has the sign of `s`, or is zero.
proof fn lemma_same_sign(k: int, x: int, c: int, s: int)
    by (nonlinear_arith)
    requires
        k > 0,
        c >= 0,
        k * x == c * s,
    ensures
        s >= 0 ==> x >= 0,
        s <= 0 ==> x <= 0,
{
}

/// A positive factor cancels.
proof fn lemma_cancel_factor(k: int, p: int, q: int)
    by (nonlinear_arith)
    requires
        k > 0,
        k * p == k * q,
    ensures
        p == q,
{
}

/// A factor distributes over a sum of three.
proof fn lemma_times_sum(k: int, a: int, b: int, c: int)
    by (nonlinear_arith)
    ensures
        k * (a + b + c) == k * a + k * b + k * c,
{
}

/// The shares of the three pieces of a clipped triangle add up to the whole.
proof fn lemma_shares_add_up(a0: int, d0: int, a1: int, d1: int, s: int)
    by (nonlinear_arith)
    ensures
        (a0 * a1) * s + (a1 * (d0 - a0)) * s + (d0 * (d1 - a1)) * s == (d0 * d1) * s,
{
    assert(a0 * a1 + a1 * (d0 - a0) + d0 * (d1 - a1) == d0 * d1);
}

/// Three pieces whose scaled cross products add up to the scaled cross
/// product of the whole add up to the whole.
proof fn lemma_pieces_add_up(
    x: int,
    y: int,
    z: int,
    s: int,
    a0: int,
    d0: int,
    a1: int,
    d1: int,
)
    requires
        d0 > 0,
        d1 > 0,
        (d0 * d1) * x == (a0 * a1) * s,
        (d0 * d1) * y == (a1 * (d0 - a0)) * s,
        d1 * z == (d1 - a1) * s,
    ensures
        x + y + z == s,
{
    let k = d0 * d1;
    assert(k > 0) by (nonlinear_arith)
        requires
            d0 > 0,
            d1 > 0,
            k == d0 * d1,
    ;
    lemma_three_factors(d0, d1, z);
    lemma_three_factors(d0, d1 - a1, s);
    assert(k * z == (d0 * (d1 - a1)) * s);
    lemma_times_sum(k, x, y, z);
    lemma_shares_add_up(a0, d0, a1, d1, s);
    assert(k * (x + y + z) == k * s);
    lemma_cancel_factor(k, x + y + z, s);
}

/// The area of a triangle in half square steps.
pub open spec fn tri_area(vertices: Seq<Vec2>, t: [usize; 3]) -> int {
    abs(cross(vertices[t[0] as int], vertices[t[1] as int], vertices[t[2] as int]))
}

/// The areas of the first `n` triangles, summed.
pub open spec fn tris_area(vertices: Seq<Vec2>, triangles: Seq<[usize; 3]>, n: nat) -> int
    decreases n,
{
    if n == 0 {
        0
    } else {
        tris_area(vertices, triangles, (n - 1) as nat) + tri_area(vertices, triangles[n - 1])
    }
}

/// The crossing point lies on the edge from `from` to `to`, at the exact
/// share of the way: nothing was rounded.
pub open spec fn crossing_is_exact(normal: Vec2, plane_point: Vec2, from: Vec2, to: Vec2) -> bool {
    let p = intersection(normal, plane_point, from, to);
    let weight = crossing_weight(normal, plane_point, from, to);
    let total = crossing_total(normal, plane_point, from, to);
    &&& total * (p.x - from.x) == weight * (to.x - from.x)
    &&& total * (p.y - from.y) == weight * (to.y - from.y)
}

/// The crossing points of a clipped triangle are exact.
pub open spec fn clip_is_exact(vertices: Seq<Vec2>, normal: Vec2, plane_point: Vec2, c: Clip) -> bool {
    &&& crossing_is_exact(normal, plane_point, vertices[c.lone as int], vertices[c.first as int])
    &&& crossing_is_exact(normal, plane_point, vertices[c.lone as int], vertices[c.second as int])
}

/// No crossing point of the cut was rounded.
pub open spec fn cut_is_exact(mesh: MeshView, direction: Vec2, plane_point: Vec2) -> bool {
    forall|k: int|
        0 <= k < mesh.indices.len() / 3 ==> (#[trigger] clip_of(
            mesh.vertices,
            direction.spec_perp(),
            plane_point,
            triple_at(mesh.indices, k),
        ) matches Some(c) ==> clip_is_exact(mesh.vertices, direction.spec_perp(), plane_point, c))
}

/// The three pieces of a triangle that is clipped at exact crossing points
/// cover the area of the triangle.
proof fn lemma_clip_conserves(normal: Vec2, plane_point: Vec2, m: Vec2, b0: Vec2, b1: Vec2)
    requires
        on_side_a(m, normal, plane_point) != on_side_a(b0, normal, plane_point),
        on_side_a(m, normal, plane_point) != on_side_a(b1, normal, plane_point),
        crossing_is_exact(normal, plane_point, m, b0),
        crossing_is_exact(normal, plane_point, m, b1),
    ensures
        ({
            let pa = intersection(normal, plane_point, m, b0);
            let pb = intersection(normal, plane_point, m, b1);
            abs(cross(m, pa, pb)) + abs(cross(b0, pb, pa)) + abs(cross(b1, pb, b0)) == abs(
                cross(m, b0, b1),
            )
        }),
{
    let pa = intersection(normal, plane_point, m, b0);
    let pb = intersection(normal, plane_point, m, b1);
    let a0 = crossing_weight(normal, plane_point, m, b0);
    let d0 = crossing_total(normal, plane_point, m, b0);
    let a1 = crossing_weight(normal, plane_point, m, b1);
    let d1 = crossing_total(normal, plane_point, m, b1);
    lemma_weight_is_share(normal, plane_point, m, b0);
    lemma_weight_is_share(normal, plane_point, m, b1);
    let ux = b0.x - m.x;
    let uy = b0.y - m.y;
    let vx = b1.x - m.x;
    let vy = b1.y - m.y;
    let e0x = pa.x - m.x;
    let e0y = pa.y - m.y;
    let e1x = pb.x - m.x;
    let e1y = pb.y - m.y;
    let s = cross2(ux, uy, vx, vy);
    let x = cross2(e0x, e0y, e1x, e1y);
    let y = cross2(e1x - ux, e1y - uy, e0x - ux, e0y - uy);
    let z = cross2(e1x - vx, e1y - vy, ux - vx, uy - vy);
    assert(cross(m, b0, b1) == s);
    assert(cross(m, pa, pb) == x);
    assert(cross(b0, pb, pa) == y);
    assert(cross(b1, pb, b0) == z);
    lemma_lone_piece(ux, uy, vx, vy, e0x, e0y, e1x, e1y, a0, d0, a1, d1);
    lemma_near_piece(ux, uy, vx, vy, e0x, e0y, e1x, e1y, a0, d0, a1, d1);
    lemma_far_piece(ux, uy, vx, vy, e1x, e1y, a1, d1);
    lemma_pieces_add_up(x, y, z, s, a0, d0, a1, d1);
    assert(d0 * d1 > 0 && a0 * a1 >= 0 && a1 * (d0 - a0) >= 0) by (nonlinear_arith)
        requires
            0 <= a0 <= d0,
            0 <= a1 <= d1,
            d0 > 0,
            d1 > 0,
    ;
    lemma_same_sign(d0 * d1, x, a0 * a1, s);
    lemma_same_sign(d0 * d1, y, a1 * (d0 - a0), s);
    lemma_same_sign(d1, z, d1 - a1, s);
}

/// The magnitude of the cross product of three points does not depend on
/// their order.
pub(crate) proof fn lemma_cross_orders(a: Vec2, b: Vec2, c: Vec2)
    by (nonlinear_arith)
    ensures
        cross(b, a, c) == -cross(a, b, c),
        cross(c, a, b) == cross(a, b, c),
        cross(a, c, b) == -cross(a, b, c),
{
}

/// Winding a triangle counter-clockwise does not change its area.
pub(crate) proof fn lemma_wound_area(vertices: Seq<Vec2>, t: [usize; 3])
    ensures
        tri_area(vertices, wound_ccw(vertices, t)) == tri_area(vertices, t),
{
    lemma_cross_swap(vertices[t[0] as int], vertices[t[1] as int], vertices[t[2] as int]);
}

/// The summed area of triangles depends on the triangles summed only.
proof fn lemma_tris_area_agrees(
    vertices: Seq<Vec2>,
    first: Seq<[usize; 3]>,
    second: Seq<[usize; 3]>,
    n: nat,
)
    requires
        n <= first.len(),
        n <= second.len(),
        forall|k: int| 0 <= k < n ==> #[trigger] first[k] == second[k],
    ensures
        tris_area(vertices, first, n) == tris_area(vertices, second, n),
    decreases n,
{
    if n > 0 {
        lemma_tris_area_agrees(vertices, first, second, (n - 1) as nat);
    }
}

/// One more triangle adds its area.
pub(crate) proof fn lemma_tris_area_push(vertices: Seq<Vec2>, triangles: Seq<[usize; 3]>, t: [usize; 3])
    ensures
        tris_area(vertices, triangles.push(t), triangles.len() + 1) == tris_area(
            vertices,
            triangles,
            triangles.len(),
        ) + tri_area(vertices, t),
{
    lemma_tris_area_agrees(vertices, triangles.push(t), triangles, triangles.len());
}

/// The summed area of triangles outlasts the growth of the vertex list.
pub(crate) proof fn lemma_tris_area_outlasts(
    before: Seq<Vec2>,
    after: Seq<Vec2>,
    triangles: Seq<[usize; 3]>,
    n: nat,
)
    requires
        starts_with(after, before),
        corners_below(triangles, before.len() as int),
        n <= triangles.len(),
    ensures
        tris_area(after, triangles, n) == tris_area(before, triangles, n),
    decreases n,
{
    if n > 0 {
        lemma_tris_area_outlasts(before, after, triangles, (n - 1) as nat);
        let t = triangles[n - 1];
        assert(after[t[0] as int] == before[t[0] as int]);
        assert(after[t[1] as int] == before[t[1] as int]);
        assert(after[t[2] as int] == before[t[2] as int]);
    }
}

/// The area of both sides of a cut before cleanup.
pub open spec fn raw_area(raw: RawSplit) -> int {
    tris_area(raw.vertices, raw.side_a, raw.side_a.len()) + tris_area(
        raw.vertices,
        raw.side_b,
        raw.side_b.len(),
    )
}

/// The area of a triangle of the mesh, given by its three corners.
pub open spec fn corner_area(vertices: Seq<Vec2>, t: (usize, usize, usize)) -> int {
    abs(cross(vertices[t.0 as int], vertices[t.1 as int], vertices[t.2 as int]))
}

/// The three pieces of a clipped triangle, over the grown vertex list, have
/// the area of the triangle.
proof fn lemma_pieces_area(
    before: Seq<Vec2>,
    vertices: Seq<Vec2>,
    normal: Vec2,
    plane_point: Vec2,
    t: (usize, usize, usize),
    c: Clip,
)
    requires
        starts_with(before, vertices),
        before.len() + 2 <= usize::MAX,
        t.0 < vertices.len(),
        t.1 < vertices.len(),
        t.2 < vertices.len(),
        clip_of(vertices, normal, plane_point, t) == Some(c),
        clip_is_exact(vertices, normal, plane_point, c),
    ensures
        ({
            let after = grown(before, vertices, normal, plane_point, c);
            tri_area(after, lone_piece(after, c)) + tri_area(after, pair_piece_1(after, c))
                + tri_area(after, pair_piece_2(after, c)) == corner_area(vertices, t)
        }),
{
    let after = grown(before, vertices, normal, plane_point, c);
    let m = vertices[c.lone as int];
    let b0 = vertices[c.first as int];
    let b1 = vertices[c.second as int];
    let pa = intersection(normal, plane_point, m, b0);
    let pb = intersection(normal, plane_point, m, b1);
    let n = before.len() as int;
    assert(after.len() == n + 2);
    assert(after[n] == pa && after[n + 1] == pb);
    assert(after[c.lone as int] == m) by {
        assert(before[c.lone as int] == vertices[c.lone as int]);
    }
    assert(after[c.first as int] == b0) by {
        assert(before[c.first as int] == vertices[c.first as int]);
    }
    assert(after[c.second as int] == b1) by {
        assert(before[c.second as int] == vertices[c.second as int]);
    }
    let a: [usize; 3] = [c.lone, (after.len() - 2) as usize, (after.len() - 1) as usize];
    let b: [usize; 3] = [c.first, (after.len() - 1) as usize, (after.len() - 2) as usize];
    let d: [usize; 3] = [c.second, (after.len() - 1) as usize, c.first];
    lemma_wound_area(after, a);
    lemma_wound_area(after, b);
    lemma_wound_area(after, d);
    assert(tri_area(after, a) == abs(cross(m, pa, pb)));
    assert(tri_area(after, b) == abs(cross(b0, pb, pa)));
    assert(tri_area(after, d) == abs(cross(b1, pb, b0)));
    lemma_clip_conserves(normal, plane_point, m, b0, b1);
    lemma_cross_orders(
        vertices[t.0 as int],
        vertices[t.1 as int],
        vertices[t.2 as int],
    );
}

/// Sorting one more triangle adds the area of the triangle to the area of
/// the sides, where the triangle is clipped at exact crossing points.
proof fn lemma_sorted_one_area(
    prev: RawSplit,
    vertices: Seq<Vec2>,
    normal: Vec2,
    plane_point: Vec2,
    t: (usize, usize, usize),
)
    requires
        raw_in_bounds(prev, vertices),
        starts_with(prev.vertices, vertices),
        prev.vertices.len() + 2 <= usize::MAX,
        t.0 < vertices.len(),
        t.1 < vertices.len(),
        t.2 < vertices.len(),
        clip_of(vertices, normal, plane_point, t) matches Some(c) ==> clip_is_exact(
            vertices,
            normal,
            plane_point,
            c,
        ),
    ensures
        raw_area(sorted_one(prev, vertices, normal, plane_point, t)) == raw_area(prev)
            + corner_area(vertices, t),
{
    let next = sorted_one(prev, vertices, normal, plane_point, t);
    match clip_of(vertices, normal, plane_point, t) {
        None => {
            let whole: [usize; 3] = [t.0, t.1, t.2];
            assert(whole[0] == t.0 && whole[1] == t.1 && whole[2] == t.2);
            assert(prev.vertices[t.0 as int] == vertices[t.0 as int]);
            assert(prev.vertices[t.1 as int] == vertices[t.1 as int]);
            assert(prev.vertices[t.2 as int] == vertices[t.2 as int]);
            assert(tri_area(prev.vertices, whole) == corner_area(vertices, t));
            if on_side_a(vertices[t.0 as int], normal, plane_point) {
                lemma_tris_area_push(prev.vertices, prev.side_a, whole);
            } else {
                lemma_tris_area_push(prev.vertices, prev.side_b, whole);
            }
        },
        Some(c) => {
            let after = grown(prev.vertices, vertices, normal, plane_point, c);
            assert(starts_with(after, prev.vertices));
            lemma_tris_area_outlasts(prev.vertices, after, prev.side_a, prev.side_a.len());
            lemma_tris_area_outlasts(prev.vertices, after, prev.side_b, prev.side_b.len());
            lemma_pieces_area(prev.vertices, vertices, normal, plane_point, t, c);
            let lone = lone_piece(after, c);
            let near = pair_piece_1(after, c);
            let far = pair_piece_2(after, c);
            if c.lone_on_a {
                lemma_tris_area_push(after, prev.side_a, lone);
                lemma_tris_area_push(after, prev.side_b, near);
                lemma_tris_area_push(after, prev.side_b.push(near), far);
            } else {
                lemma_tris_area_push(after, prev.side_b, lone);
                lemma_tris_area_push(after, prev.side_a, near);
                lemma_tris_area_push(after, prev.side_a.push(near), far);
            }
        },
    }
}

/// The crossing points of the first `count` triangles are exact.
pub open spec fn clips_are_exact(
    vertices: Seq<Vec2>,
    indices: Seq<usize>,
    normal: Vec2,
    plane_point: Vec2,
    count: nat,
) -> bool {
    forall|k: int|
        0 <= k < count ==> (#[trigger] clip_of(vertices, normal, plane_point, triple_at(indices, k))
            matches Some(c) ==> clip_is_exact(vertices, normal, plane_point, c))
}

/// Before cleanup, the two sides of an exact cut have the area of the
/// triangles that were sorted.
proof fn lemma_raw_split_area(
    vertices: Seq<Vec2>,
    indices: Seq<usize>,
    normal: Vec2,
    plane_point: Vec2,
    count: nat,
)
    requires
        all_within(vertices, COORD_LIMIT as int),
        forall|i: int| 0 <= i < indices.len() ==> (#[trigger] indices[i]) < vertices.len(),
        3 * count <= indices.len(),
        vertices.len() + 2 * count <= usize::MAX,
        clips_are_exact(vertices, indices, normal, plane_point, count),
    ensures
        raw_area(raw_split(vertices, indices, normal, plane_point, count)) == area_upto(
            vertices,
            indices,
            count,
        ),
        starts_with(raw_split(vertices, indices, normal, plane_point, count).vertices, vertices),
    decreases count,
{
    if count > 0 {
        lemma_raw_split_area(vertices, indices, normal, plane_point, (count - 1) as nat);
        lemma_raw_split_in_bounds(vertices, indices, normal, plane_point, (count - 1) as nat);
        let prev = raw_split(vertices, indices, normal, plane_point, (count - 1) as nat);
        let t = triple_at(indices, count - 1);
        assert(indices[3 * (count - 1)] < vertices.len());
        assert(indices[3 * (count - 1) + 1] < vertices.len());
        assert(indices[3 * (count - 1) + 2] < vertices.len());
        assert(clip_of(vertices, normal, plane_point, triple_at(indices, count - 1)) matches Some(
            c,
        ) ==> clip_is_exact(vertices, normal, plane_point, c));
        lemma_sorted_one_area(prev, vertices, normal, plane_point, t);
        assert(corner_area(vertices, t) == triangle_area(vertices, indices, count - 1));
    }
}

/// The area of a piece of a cut, zero where the piece is absent.
pub open spec fn piece_area(piece: Option<(MeshView, Vec2)>) -> int {
    match piece {
        Some((mesh, offset)) => mesh.area(),
        None => 0,
    }
}

/// Two lists of triangles whose corners lie in the same places have the
/// same area.
proof fn lemma_same_places(
    first_vertices: Seq<Vec2>,
    first: Seq<[usize; 3]>,
    second_vertices: Seq<Vec2>,
    second: Seq<[usize; 3]>,
    n: nat,
)
    requires
        n <= first.len(),
        n <= second.len(),
        forall|k: int|
            0 <= k < n ==> {
                &&& first_vertices[(#[trigger] first[k])[0] as int] == second_vertices[second[k][0] as int]
                &&& first_vertices[first[k][1] as int] == second_vertices[second[k][1] as int]
                &&& first_vertices[first[k][2] as int] == second_vertices[second[k][2] as int]
            },
    ensures
        tris_area(first_vertices, first, n) == tris_area(second_vertices, second, n),
    decreases n,
{
    if n > 0 {
        lemma_same_places(first_vertices, first, second_vertices, second, (n - 1) as nat);
        assert(first_vertices[first[n - 1][0] as int] == second_vertices[second[n - 1][0] as int]);
    }
}

/// A triangle with two corners at one vertex has no area.
proof fn lemma_improper_area(vertices: Seq<Vec2>, t: [usize; 3])
    requires
        !proper(t),
    ensures
        tri_area(vertices, t) == 0,
{
    let a = vertices[t[0] as int];
    let b = vertices[t[1] as int];
    let c = vertices[t[2] as int];
    assert(a == b || b == c || a == c);
    assert(a == b || b == c || a == c ==> cross(a, b, c) == 0) by (nonlinear_arith);
}

/// Dropping the triangles that are not proper drops no area.
proof fn lemma_proper_only_area(vertices: Seq<Vec2>, triangles: Seq<[usize; 3]>, n: nat)
    requires
        n <= triangles.len(),
    ensures
        tris_area(vertices, proper_only(triangles, n), proper_only(triangles, n).len())
            == tris_area(vertices, triangles, n),
    decreases n,
{
    if n > 0 {
        lemma_proper_only_area(vertices, triangles, (n - 1) as nat);
        let before = proper_only(triangles, (n - 1) as nat);
        if proper(triangles[n - 1]) {
            lemma_tris_area_push(vertices, before, triangles[n - 1]);
        } else {
            lemma_improper_area(vertices, triangles[n - 1]);
        }
    }
}

/// Moving all vertices alike does not change the area of the triangles.
proof fn lemma_shifted_area(
    vertices: Seq<Vec2>,
    moved: Seq<Vec2>,
    ox: int,
    oy: int,
    triangles: Seq<[usize; 3]>,
    n: nat,
)
    requires
        n <= triangles.len(),
        corners_below(triangles, vertices.len() as int),
        moved.len() == vertices.len(),
        forall|i: int|
            0 <= i < vertices.len() ==> (#[trigger] moved[i]).x == vertices[i].x - ox && moved[i].y
                == vertices[i].y - oy,
    ensures
        tris_area(moved, triangles, n) == tris_area(vertices, triangles, n),
    decreases n,
{
    if n > 0 {
        lemma_shifted_area(vertices, moved, ox, oy, triangles, (n - 1) as nat);
        let t = triangles[n - 1];
        lemma_cross_moved(
            vertices[t[0] as int],
            vertices[t[1] as int],
            vertices[t[2] as int],
            moved[t[0] as int],
            moved[t[1] as int],
            moved[t[2] as int],
            ox,
            oy,
        );
    }
}

/// The area of a flat index list is the summed area of its triangles.
proof fn lemma_flat_area(vertices: Seq<Vec2>, triangles: Seq<[usize; 3]>, n: nat)
    requires
        n <= triangles.len(),
    ensures
        area_upto(vertices, flattened(triangles), n) == tris_area(vertices, triangles, n),
    decreases n,
{
    if n > 0 {
        lemma_flat_area(vertices, triangles, (n - 1) as nat);
        lemma_flattened_corners(triangles);
        let flat = flattened(triangles);
        let k = n - 1;
        assert(flat[3 * k] == triangles[k][0]);
        assert(flat[3 * k + 1] == triangles[k][1]);
        assert(flat[3 * k + 2] == triangles[k][2]);
    }
}

/// Where cleanup moves no corner of a triangle but with the whole side, the
/// triangles that it keeps have the area of the triangles of the side.
proof fn lemma_cleaned_triangles_area(vertices: Seq<Vec2>, triangles: Seq<[usize; 3]>)
    requires
        corners_below(triangles, vertices.len() as int),
        vertices.len() <= usize::MAX,
        side_welds_exactly(vertices, triangles),
    ensures
        tris_area(
            cleaned_vertices(vertices, triangles),
            cleaned_triangles(vertices, triangles),
            cleaned_triangles(vertices, triangles).len(),
        ) == tris_area(vertices, triangles, triangles.len()),
{
    let used = used_vertices(vertices, triangles, vertices.len());
    let moved = rewelded(used, renumbered(triangles));
    let kept = cleaned_vertices(vertices, triangles);
    assert forall|k: int| 0 <= k < triangles.len() implies {
        &&& kept[(#[trigger] moved[k])[0] as int] == vertices[triangles[k][0] as int]
        &&& kept[moved[k][1] as int] == vertices[triangles[k][1] as int]
        &&& kept[moved[k][2] as int] == vertices[triangles[k][2] as int]
    } by {
        lemma_corners_in_place(vertices, triangles, k);
    }
    lemma_same_places(kept, moved, vertices, triangles, triangles.len());
    lemma_proper_only_area(kept, moved, triangles.len());
}

/// Where cleanup moves no corner of a triangle but with the whole side, the
/// mesh that it makes has the area of the triangles of the side.
proof fn lemma_cleaned_mesh_area(vertices: Seq<Vec2>, triangles: Seq<[usize; 3]>)
    requires
        all_within(vertices, COORD_LIMIT as int),
        corners_below(triangles, vertices.len() as int),
        vertices.len() <= usize::MAX,
        side_welds_exactly(vertices, triangles),
    ensures
        cleaned_mesh(vertices, triangles).area() == tris_area(vertices, triangles, triangles.len()),
{
    let kept = cleaned_vertices(vertices, triangles);
    let left = cleaned_triangles(vertices, triangles);
    let offset = cleaned_offset(vertices, triangles);
    let mesh = cleaned_mesh(vertices, triangles);
    let used = used_vertices(vertices, triangles, vertices.len());
    lemma_cleaned_triangles_area(vertices, triangles);
    crate::split_mesh::lemma_cleaned_in_bounds(vertices, triangles);
    lemma_shifted_within(kept);
    lemma_shifted_area(kept, mesh.vertices, offset.x as int, offset.y as int, left, left.len());
    lemma_flattened(left, kept.len() as int);
    lemma_flat_area(mesh.vertices, left, left.len());
}

/// Where cleanup leaves a triangle, the mesh that it makes is valid.
proof fn lemma_valid_with_a_triangle(vertices: Seq<Vec2>, triangles: Seq<[usize; 3]>)
    requires
        all_within(vertices, COORD_LIMIT as int),
        corners_below(triangles, vertices.len() as int),
        vertices.len() <= usize::MAX,
        cleaned_triangles(vertices, triangles).len() > 0,
    ensures
        cleaned_mesh(vertices, triangles).valid(),
{
    let kept = cleaned_vertices(vertices, triangles);
    let left = cleaned_triangles(vertices, triangles);
    let mesh = cleaned_mesh(vertices, triangles);
    crate::split_mesh::lemma_cleaned_in_bounds(vertices, triangles);
    lemma_flattened(left, kept.len() as int);
    let k = lemma_proper_only_members(
        rewelded(used_vertices(vertices, triangles, vertices.len()), renumbered(triangles)),
        renumbered(triangles).len(),
        0,
    );
    assert(proper(left[0]));
    assert(left[0][0] < kept.len());
    let first: int = 0;
    assert(mesh.indices[3 * first] == left[first][0]);
    assert(mesh.indices[3 * first + 1] == left[first][1]);
    assert(mesh.indices[1] != mesh.indices[0]);
}

/// Where cleanup moves no corner of a triangle but with the whole side, what
/// it gives has the area of the triangles of the side; where it gives
/// nothing, they have none.
pub(crate) proof fn lemma_cleaned_area(vertices: Seq<Vec2>, triangles: Seq<[usize; 3]>)
    requires
        all_within(vertices, COORD_LIMIT as int),
        corners_below(triangles, vertices.len() as int),
        vertices.len() <= usize::MAX,
        side_welds_exactly(vertices, triangles),
    ensures
        piece_area(cleaned(vertices, triangles)) == tris_area(vertices, triangles, triangles.len()),
{
    if triangles.len() > 0 {
        assert(triangles[0][0] < vertices.len());
        let left = cleaned_triangles(vertices, triangles);
        let mesh = cleaned_mesh(vertices, triangles);
        lemma_cleaned_mesh_area(vertices, triangles);
        if left.len() > 0 {
            lemma_valid_with_a_triangle(vertices, triangles);
        } else {
            lemma_cleaned_triangles_area(vertices, triangles);
        }
    }
}

/// A cut conserves area: where no crossing point had to be rounded and the
/// cleanup of neither side moves a corner of a triangle but with the whole
/// side, the areas of the two sides add up to the area of the mesh. A side
/// that is absent counts for nothing. (A crossing point that is rounded to the
/// lattice, and a vertex that is welded to another beside it, change the area
/// a little.)
pub proof fn law_cut_conserves_area(mesh: MeshView, direction: Vec2, plane_point: Vec2)
    requires
        mesh.wf(),
        cut_welds_exactly(mesh, direction, plane_point),
        cut_is_exact(mesh, direction, plane_point),
    ensures
        piece_area(split_sides(mesh, direction, plane_point).0) + piece_area(
            split_sides(mesh, direction, plane_point).1,
        ) == mesh.area(),
{
    let normal = direction.spec_perp();
    let count = (mesh.indices.len() / 3) as nat;
    let raw = raw_split(mesh.vertices, mesh.indices, normal, plane_point, count);
    lemma_raw_split_in_bounds(mesh.vertices, mesh.indices, normal, plane_point, count);
    assert(clips_are_exact(mesh.vertices, mesh.indices, normal, plane_point, count));
    lemma_raw_split_area(mesh.vertices, mesh.indices, normal, plane_point, count);
    lemma_cleaned_area(raw.vertices, raw.side_a);
    lemma_cleaned_area(raw.vertices, raw.side_b);
}

} // verus!
