//! What holds of every cut, every cleanup and every shattering.

use vstd::prelude::*;
use crate::arith::{lemma_round_div_error, round_div};
use crate::cleanup::{
    bbox_center, close, corners_below, flattened, has_corner, highest, is_used, lemma_center_within,
    lemma_extremes, lemma_first_close_exists, lemma_flattened, lemma_no_orphans,
    lemma_proper_only_members, lemma_rank_bound, lemma_rank_is_length, lemma_rank_onto, lemma_renumbered_below,
    lemma_rewelded_below, lemma_shifted_within, lemma_used_vertex_kept, lemma_used_within,
    lemma_welded_length, lemma_welded_within, lowest, mid, proper, proper_only, rank, renumbered,
    rewelded, shifted, used_vertices, weld_index, welded, xs, ys,
};
use crate::mesh::MeshView;
use crate::mesh_utils::{
    ccw, crossing_total, crossing_weight, intersection, lemma_cross_swap,
    lemma_intersection_coordinates, lemma_weight_is_share, lemma_wound_corners_hold, longest_span,
    wound_ccw,
};
use crate::shatter_mesh::{
    effort, is_final, shatter_cut, shatter_tree, Shard, SHATTER_MAX_RECURSION_DEPTH,
};
use crate::split_mesh::{
    cleaned_mesh, cleaned_offset, cleaned_triangles, cleaned_vertices, clip_of, grown,
    lemma_cleaned_in_bounds, lemma_cleaned_wf, lemma_sorted_one_in_bounds, lemma_raw_split_in_bounds, raw_in_bounds, raw_split, sorted_one, split_sides,
    triple_at, RawSplit,
};
use crate::trim_mesh::{chord_point, trim_radius, trimmed, trimmed_once};
use crate::vec2::{
    abs, all_within, cross, on_side_a, signed_distance, sum, Vec2, COORD_LIMIT, LINE_LIMIT,
};

verus! {

/// The coordinates of vertices that were moved back by `offset`.
proof fn lemma_shifted_coordinates(vertices: Seq<Vec2>, offset: Vec2)
    requires
        forall|i: int|
            0 <= i < vertices.len() ==> {
                &&& i64::MIN <= (#[trigger] vertices[i]).x - offset.x <= i64::MAX
                &&& i64::MIN <= vertices[i].y - offset.y <= i64::MAX
            },
    ensures
        xs(shifted(vertices, offset)) == Seq::new(vertices.len(), |i: int| xs(vertices)[i] - offset.x),
        ys(shifted(vertices, offset)) == Seq::new(vertices.len(), |i: int| ys(vertices)[i] - offset.y),
{
    assert(xs(shifted(vertices, offset)) =~= Seq::new(
        vertices.len(),
        |i: int| xs(vertices)[i] - offset.x,
    ));
    assert(ys(shifted(vertices, offset)) =~= Seq::new(
        vertices.len(),
        |i: int| ys(vertices)[i] - offset.y,
    ));
}

/// Moving all values back by `c` moves the smallest and the largest back by
/// `c`.
proof fn lemma_moved_extremes(values: Seq<int>, c: int, n: nat)
    requires
        1 <= n <= values.len(),
    ensures
        lowest(Seq::new(values.len(), |i: int| values[i] - c), n) == lowest(values, n) - c,
        highest(Seq::new(values.len(), |i: int| values[i] - c), n) == highest(values, n) - c,
    decreases n,
{
    if n > 1 {
        lemma_moved_extremes(values, c, (n - 1) as nat);
    }
}

/// Recentering is idempotent: once the vertices are moved back by the centre
/// of their bounding box, that centre is the origin, and moving them again
/// changes nothing.
pub proof fn law_recentering_is_idempotent(vertices: Seq<Vec2>)
    requires
        all_within(vertices, COORD_LIMIT as int),
    ensures
        bbox_center(shifted(vertices, bbox_center(vertices))) == (Vec2 { x: 0, y: 0 }),
        shifted(
            shifted(vertices, bbox_center(vertices)),
            bbox_center(shifted(vertices, bbox_center(vertices))),
        ) == shifted(vertices, bbox_center(vertices)),
{
    let center = bbox_center(vertices);
    let moved = shifted(vertices, center);
    lemma_shifted_within(vertices);
    if vertices.len() > 0 {
        lemma_shifted_coordinates(vertices, center);
        lemma_moved_extremes(xs(vertices), center.x as int, vertices.len());
        lemma_moved_extremes(ys(vertices), center.y as int, vertices.len());
        lemma_extremes(xs(vertices), vertices.len());
        lemma_extremes(ys(vertices), vertices.len());
        assert(mid(xs(vertices)) == center.x);
        assert(mid(ys(vertices)) == center.y);
        assert(mid(xs(moved)) == 0);
        assert(mid(ys(moved)) == 0);
    }
    assert(shifted(moved, Vec2 { x: 0, y: 0 }) =~= moved);
}

/// Every fragment of a mesh that was made by at most one cut more than the
/// ceiling allows was itself made by no more, and either is small enough or
/// was made by exactly that many cuts. Twice the number of fragments is at
/// most the effort and one.
proof fn lemma_shatter_bound(mesh: MeshView, offset: Vec2, depth: nat, max_shard_area: int)
    requires
        depth <= SHATTER_MAX_RECURSION_DEPTH + 1,
    ensures
        forall|i: int|
            0 <= i < shatter_tree(mesh, offset, depth, max_shard_area).len() ==> {
                let shard = #[trigger] shatter_tree(mesh, offset, depth, max_shard_area)[i];
                &&& depth <= shard.depth <= SHATTER_MAX_RECURSION_DEPTH + 1
                &&& shard.mesh.area() <= max_shard_area || shard.depth == SHATTER_MAX_RECURSION_DEPTH
                    + 1
            },
        2 * shatter_tree(mesh, offset, depth, max_shard_area).len() <= effort(depth) + 1,
    decreases SHATTER_MAX_RECURSION_DEPTH + 1 - depth,
{
    if !is_final(mesh, depth, max_shard_area) {
        let halves = shatter_cut(mesh);
        let of_b: Seq<Shard> = match halves.1 {
            Some((half, half_offset)) => {
                lemma_shatter_bound(half, sum(offset, half_offset), depth + 1, max_shard_area);
                shatter_tree(half, sum(offset, half_offset), depth + 1, max_shard_area)
            },
            None => Seq::empty(),
        };
        let of_a: Seq<Shard> = match halves.0 {
            Some((half, half_offset)) => {
                lemma_shatter_bound(half, sum(offset, half_offset), depth + 1, max_shard_area);
                shatter_tree(half, sum(offset, half_offset), depth + 1, max_shard_area)
            },
            None => Seq::empty(),
        };
        assert(shatter_tree(mesh, offset, depth, max_shard_area) == of_b + of_a);
        assert forall|i: int| 0 <= i < (of_b + of_a).len() implies {
            let shard = #[trigger] (of_b + of_a)[i];
            &&& depth <= shard.depth <= SHATTER_MAX_RECURSION_DEPTH + 1
            &&& shard.mesh.area() <= max_shard_area || shard.depth == SHATTER_MAX_RECURSION_DEPTH + 1
        } by {
            if i < of_b.len() {
                assert((of_b + of_a)[i] == of_b[i]);
            } else {
                assert((of_b + of_a)[i] == of_a[i - of_b.len()]);
            }
        }
    }
}

/// Shattering is bounded: it gives at most sixteen fragments, and every
/// fragment either has an area of at most the bound or was made by one cut
/// more than the depth ceiling, where shattering stops whatever the area.
pub proof fn law_shatter_is_bounded(mesh: MeshView, max_shard_area: int)
    ensures
        shatter_tree(mesh, Vec2 { x: 0, y: 0 }, 0, max_shard_area).len() <= 16,
        forall|i: int|
            0 <= i < shatter_tree(mesh, Vec2 { x: 0, y: 0 }, 0, max_shard_area).len() ==> {
                let shard = #[trigger] shatter_tree(mesh, Vec2 { x: 0, y: 0 }, 0, max_shard_area)[i];
                shard.mesh.area() <= max_shard_area || shard.depth == SHATTER_MAX_RECURSION_DEPTH + 1
            },
{
    lemma_shatter_bound(mesh, Vec2 { x: 0, y: 0 }, 0, max_shard_area);
    assert(effort(0) == 31) by {
        assert(effort(4) == 1);
        assert(effort(3) == 3);
        assert(effort(2) == 7);
        assert(effort(1) == 15);
    }
}

/// Every vertex that welding keeps is the new index of a vertex it was
/// given.
pub(crate) proof fn lemma_weld_onto(vertices: Seq<Vec2>, n: nat, j: int) -> (i: int)
    requires
        n <= vertices.len(),
        0 <= j < welded(vertices, n).len(),
    ensures
        0 <= i < n,
        weld_index(vertices, i) == j,
        welded(vertices, n)[j] == vertices[i],
    decreases n,
{
    let before = welded(vertices, (n - 1) as nat);
    if j < before.len() {
        let i = lemma_weld_onto(vertices, (n - 1) as nat, j);
        lemma_welded_prefix(vertices, (n - 1) as nat, n, j);
        i
    } else {
        crate::cleanup::lemma_first_close_exists(before, vertices[n - 1]);
        n - 1
    }
}

/// Welding more vertices leaves what was kept before where it was.
pub(crate) proof fn lemma_welded_prefix(vertices: Seq<Vec2>, m: nat, n: nat, j: int)
    requires
        m <= n <= vertices.len(),
        0 <= j < welded(vertices, m).len(),
    ensures
        j < welded(vertices, n).len(),
        welded(vertices, n)[j] == welded(vertices, m)[j],
    decreases n,
{
    if m < n {
        lemma_welded_prefix(vertices, m, (n - 1) as nat, j);
    }
}

/// Where every triangle is proper, none is dropped.
proof fn lemma_all_proper(triangles: Seq<[usize; 3]>, n: nat)
    requires
        n <= triangles.len(),
        forall|k: int| 0 <= k < triangles.len() ==> proper(#[trigger] triangles[k]),
    ensures
        proper_only(triangles, n) == triangles.take(n as int),
    decreases n,
{
    if n > 0 {
        lemma_all_proper(triangles, (n - 1) as nat);
        assert(triangles.take(n as int) =~= triangles.take(n - 1).push(triangles[n - 1]));
    } else {
        assert(triangles.take(0) =~= Seq::<[usize; 3]>::empty());
    }
}

/// Welding drops no triangle of this side: after it, every triangle still has
/// three different corners.
pub open spec fn keeps_every_triangle(vertices: Seq<Vec2>, triangles: Seq<[usize; 3]>) -> bool {
    let used = used_vertices(vertices, triangles, vertices.len());
    forall|k: int|
        0 <= k < triangles.len() ==> proper(#[trigger] rewelded(used, renumbered(triangles))[k])
}

/// Cleanup leaves no orphan vertex: where welding drops no triangle, every
/// vertex of the mesh that cleanup makes is a corner of one of its triangles.
/// (Where welding drops the only triangle at a vertex, that vertex stays
/// behind.)
pub proof fn law_cleanup_leaves_no_orphans(vertices: Seq<Vec2>, triangles: Seq<[usize; 3]>, v: int)
    requires
        corners_below(triangles, vertices.len() as int),
        vertices.len() <= usize::MAX,
        keeps_every_triangle(vertices, triangles),
        0 <= v < cleaned_mesh(vertices, triangles).vertices.len(),
    ensures
        is_used(cleaned_triangles(vertices, triangles), v),
        cleaned_mesh(vertices, triangles).indices.contains(v as usize),
{
    let n = vertices.len();
    let used = used_vertices(vertices, triangles, n);
    let renamed = renumbered(triangles);
    let moved = rewelded(used, renamed);
    let kept = cleaned_vertices(vertices, triangles);
    let left = cleaned_triangles(vertices, triangles);
    lemma_rank_is_length(vertices, triangles, n);
    lemma_rank_bound(triangles, n);
    lemma_renumbered_below(triangles, n);
    lemma_rewelded_below(used, renamed);
    let i = lemma_weld_onto(used, used.len(), v);
    lemma_no_orphans(triangles, n, i);
    let k = choose|k: int| 0 <= k < renamed.len() && #[trigger] crate::cleanup::has_corner(renamed[k], i);
    lemma_all_proper(moved, renamed.len());
    assert(left == moved.take(renamed.len() as int));
    assert(left[k] == moved[k]);
    assert(crate::cleanup::has_corner(left[k], v));
    lemma_flattened(left, kept.len() as int);
    let flat = flattened(left);
    if left[k][0] == v {
        assert(flat[3 * k] == v as usize);
    } else if left[k][1] == v {
        assert(flat[3 * k + 1] == v as usize);
    } else {
        assert(flat[3 * k + 2] == v as usize);
    }
}

/// The point lies no farther from the line than rounding can take it: its
/// distance from the line, as the normal scales it, is at most half the sum
/// of the magnitudes of the normal's coordinates. In steps that is at most
/// 0.71.
pub open spec fn near_line(point: Vec2, normal: Vec2, plane_point: Vec2) -> bool {
    2 * abs(signed_distance(point, normal, plane_point)) <= abs(normal.x as int) + abs(
        normal.y as int,
    )
}

/// The point lies on side A of the line, or as near to the line as rounding
/// can take a point of the line.
pub open spec fn on_a_or_near(point: Vec2, normal: Vec2, plane_point: Vec2) -> bool {
    on_side_a(point, normal, plane_point) || near_line(point, normal, plane_point)
}

/// The point lies on side B of the line, or as near to the line as rounding
/// can take a point of the line.
pub open spec fn on_b_or_near(point: Vec2, normal: Vec2, plane_point: Vec2) -> bool {
    !on_side_a(point, normal, plane_point) || near_line(point, normal, plane_point)
}

/// A product with a factor of bounded magnitude is bounded.
proof fn lemma_error_term(n: int, e: int, total: int)
    by (nonlinear_arith)
    requires
        -total <= e <= total,
    ensures
        -(abs(n) * total) <= n * e <= abs(n) * total,
{
}

/// A number whose product with a positive number is bounded by a multiple of
/// that number is bounded by the multiplier.
proof fn lemma_cancel(s: int, b: int, total: int)
    by (nonlinear_arith)
    requires
        total > 0,
        -(b * total) <= total * s <= b * total,
    ensures
        -b <= s <= b,
{
}

/// The exact crossing point lies on the line: the distance of `from` and
/// the weighted difference of the distances cancel.
proof fn lemma_exact_crossing(d0: int, d1: int, weight: int, total: int)
    by (nonlinear_arith)
    requires
        (total == d0 - d1 && weight == d0) || (total == d1 - d0 && weight == -d0),
    ensures
        total * d0 + weight * (d1 - d0) == 0,
{
}

/// A product of three factors, rearranged, and a factor taken into a sum.
proof fn lemma_rearranged(total: int, n: int, r: int, d: int, weight: int, e: int)
    by (nonlinear_arith)
    requires
        e == 2 * total * r - 2 * (d * weight),
    ensures
        total * (2 * (n * r)) == n * e + 2 * (weight * (n * d)),
{
    assert(total * (2 * (n * r)) == n * (2 * total * r));
    assert(n * (2 * total * r) == n * e + n * (2 * (d * weight)));
    assert(n * (2 * (d * weight)) == 2 * (weight * (n * d)));
}

/// A factor taken into a sum of three, twice over.
proof fn lemma_doubled_sum(total: int, a: int, b: int, c: int)
    by (nonlinear_arith)
    ensures
        total * (2 * (a + b + c)) == 2 * (total * a) + total * (2 * b) + total * (2 * c),
{
}

/// A factor taken out of a sum.
proof fn lemma_factored(weight: int, a: int, b: int)
    by (nonlinear_arith)
    ensures
        weight * a + weight * b == weight * (a + b),
{
}

/// The distance of a rounded crossing point, scaled by the total, in terms
/// of the rounding errors.
proof fn lemma_scaled_distance(
    nx: int,
    ny: int,
    dx: int,
    dy: int,
    d0: int,
    d1: int,
    weight: int,
    total: int,
    rx: int,
    ry: int,
    ex: int,
    ey: int,
)
    requires
        nx * dx + ny * dy == d1 - d0,
        total * d0 + weight * (d1 - d0) == 0,
        ex == 2 * total * rx - 2 * (dx * weight),
        ey == 2 * total * ry - 2 * (dy * weight),
    ensures
        total * (2 * (d0 + nx * rx + ny * ry)) == nx * ex + ny * ey,
{
    lemma_doubled_sum(total, d0, nx * rx, ny * ry);
    lemma_rearranged(total, nx, rx, dx, weight, ex);
    lemma_rearranged(total, ny, ry, dy, weight, ey);
    lemma_factored(weight, nx * dx, ny * dy);
}

/// The arithmetic of a rounded crossing point: where the two rounded shares
/// are each within a half of the exact ones, the distance of the point they
/// give is within half the weight of the normal.
proof fn lemma_rounded_distance(
    nx: int,
    ny: int,
    dx: int,
    dy: int,
    d0: int,
    d1: int,
    weight: int,
    total: int,
    rx: int,
    ry: int,
)
    requires
        total > 0,
        nx * dx + ny * dy == d1 - d0,
        (total == d0 - d1 && weight == d0) || (total == d1 - d0 && weight == -d0),
        -total <= 2 * total * rx - 2 * (dx * weight) <= total,
        -total <= 2 * total * ry - 2 * (dy * weight) <= total,
    ensures
        -(abs(nx) + abs(ny)) <= 2 * (d0 + nx * rx + ny * ry) <= abs(nx) + abs(ny),
{
    let ex = 2 * total * rx - 2 * (dx * weight);
    let ey = 2 * total * ry - 2 * (dy * weight);
    let s = 2 * (d0 + nx * rx + ny * ry);
    let b = abs(nx) + abs(ny);
    lemma_exact_crossing(d0, d1, weight, total);
    lemma_scaled_distance(nx, ny, dx, dy, d0, d1, weight, total, rx, ry, ex, ey);
    lemma_error_term(nx, ex, total);
    lemma_error_term(ny, ey, total);
    assert(b * total == abs(nx) * total + abs(ny) * total) by (nonlinear_arith)
        requires
            b == abs(nx) + abs(ny),
    ;
    lemma_cancel(s, b, total);
}

/// A crossing point lies near the line.
pub proof fn lemma_crossing_is_near(normal: Vec2, plane_point: Vec2, from: Vec2, to: Vec2)
    requires
        on_side_a(from, normal, plane_point) != on_side_a(to, normal, plane_point),
        from.within(COORD_LIMIT as int),
        to.within(COORD_LIMIT as int),
    ensures
        near_line(intersection(normal, plane_point, from, to), normal, plane_point),
{
    let weight = crossing_weight(normal, plane_point, from, to);
    let total = crossing_total(normal, plane_point, from, to);
    let d0 = signed_distance(from, normal, plane_point);
    let d1 = signed_distance(to, normal, plane_point);
    let dx = to.x - from.x;
    let dy = to.y - from.y;
    let rx = round_div(dx * weight, total);
    let ry = round_div(dy * weight, total);
    let p = intersection(normal, plane_point, from, to);
    lemma_weight_is_share(normal, plane_point, from, to);
    lemma_intersection_coordinates(normal, plane_point, from, to);
    lemma_round_div_error(dx * weight, total);
    lemma_round_div_error(dy * weight, total);
    assert(p.x == from.x + rx && p.y == from.y + ry);
    assert(normal.x * dx + normal.y * dy == d1 - d0) by (nonlinear_arith)
        requires
            d0 == normal.x * (from.x - plane_point.x) + normal.y * (from.y - plane_point.y),
            d1 == normal.x * (to.x - plane_point.x) + normal.y * (to.y - plane_point.y),
            dx == to.x - from.x,
            dy == to.y - from.y,
    ;
    lemma_rounded_distance(normal.x as int, normal.y as int, dx, dy, d0, d1, weight, total, rx, ry);
    assert(signed_distance(p, normal, plane_point) == d0 + normal.x * rx + normal.y * ry)
        by (nonlinear_arith)
        requires
            d0 == normal.x * (from.x - plane_point.x) + normal.y * (from.y - plane_point.y),
            p.x == from.x + rx,
            p.y == from.y + ry,
            signed_distance(p, normal, plane_point) == normal.x * (p.x - plane_point.x) + normal.y
                * (p.y - plane_point.y),
    ;
}

/// The piece keeps to side A of the line: every vertex of it, put back where
/// it lay before the piece was moved, lies on side A or as near to the line
/// as rounding can take a crossing point. An absent piece keeps to any side.
pub open spec fn keeps_to_side_a(
    piece: Option<(MeshView, Vec2)>,
    normal: Vec2,
    plane_point: Vec2,
) -> bool {
    piece matches Some((side, offset)) ==> forall|v: int|
        0 <= v < side.vertices.len() ==> on_a_or_near(
            sum(#[trigger] side.vertices[v], offset),
            normal,
            plane_point,
        )
}

/// The piece keeps to side B of the line: every vertex of it, put back where
/// it lay before the piece was moved, lies on side B or as near to the line
/// as rounding can take a crossing point. An absent piece keeps to any side.
pub open spec fn keeps_to_side_b(
    piece: Option<(MeshView, Vec2)>,
    normal: Vec2,
    plane_point: Vec2,
) -> bool {
    piece matches Some((side, offset)) ==> forall|v: int|
        0 <= v < side.vertices.len() ==> on_b_or_near(
            sum(#[trigger] side.vertices[v], offset),
            normal,
            plane_point,
        )
}

/// Every corner of the triangle is a vertex for which `good` holds.
pub open spec fn corners_hold(vertices: Seq<Vec2>, t: [usize; 3], good: spec_fn(Vec2) -> bool) -> bool {
    &&& good(vertices[t[0] as int])
    &&& good(vertices[t[1] as int])
    &&& good(vertices[t[2] as int])
}

/// Every corner of every triangle is a vertex for which `good` holds.
pub open spec fn all_corners_hold(
    vertices: Seq<Vec2>,
    triangles: Seq<[usize; 3]>,
    good: spec_fn(Vec2) -> bool,
) -> bool {
    forall|k: int| 0 <= k < triangles.len() ==> corners_hold(vertices, #[trigger] triangles[k], good)
}

/// The first list starts with the second.
pub open spec fn starts_with(longer: Seq<Vec2>, shorter: Seq<Vec2>) -> bool {
    &&& shorter.len() <= longer.len()
    &&& forall|i: int| 0 <= i < shorter.len() ==> #[trigger] longer[i] == shorter[i]
}

/// What holds of the corners of triangles outlasts the growth of the vertex
/// list.
proof fn lemma_corners_outlast(
    before: Seq<Vec2>,
    after: Seq<Vec2>,
    triangles: Seq<[usize; 3]>,
    good: spec_fn(Vec2) -> bool,
)
    requires
        starts_with(after, before),
        corners_below(triangles, before.len() as int),
        all_corners_hold(before, triangles, good),
    ensures
        all_corners_hold(after, triangles, good),
{
    assert forall|k: int| 0 <= k < triangles.len() implies corners_hold(
        after,
        #[trigger] triangles[k],
        good,
    ) by {
        assert(corners_hold(before, triangles[k], good));
    }
}

/// The sides of a cut keep to their sides: the vertex list starts with the
/// vertices of the mesh, the corners of the triangles of side A lie on side
/// A or near the line, those of side B on side B or near the line.
pub open spec fn sides_apart(raw: RawSplit, vertices: Seq<Vec2>, normal: Vec2, plane_point: Vec2) -> bool {
    &&& starts_with(raw.vertices, vertices)
    &&& all_corners_hold(raw.vertices, raw.side_a, |p: Vec2| on_a_or_near(p, normal, plane_point))
    &&& all_corners_hold(raw.vertices, raw.side_b, |p: Vec2| on_b_or_near(p, normal, plane_point))
}

/// Sorting one more triangle keeps the sides apart.
proof fn lemma_sorted_one_apart(
    prev: RawSplit,
    vertices: Seq<Vec2>,
    normal: Vec2,
    plane_point: Vec2,
    t: (usize, usize, usize),
)
    requires
        raw_in_bounds(prev, vertices),
        sides_apart(prev, vertices, normal, plane_point),
        all_within(vertices, COORD_LIMIT as int),
        t.0 < vertices.len(),
        t.1 < vertices.len(),
        t.2 < vertices.len(),
        sorted_one(prev, vertices, normal, plane_point, t).vertices.len() <= usize::MAX,
    ensures
        sides_apart(sorted_one(prev, vertices, normal, plane_point, t), vertices, normal, plane_point),
{
    let next = sorted_one(prev, vertices, normal, plane_point, t);
    let good_a = |p: Vec2| on_a_or_near(p, normal, plane_point);
    let good_b = |p: Vec2| on_b_or_near(p, normal, plane_point);
    assert(prev.vertices[t.0 as int] == vertices[t.0 as int]);
    assert(prev.vertices[t.1 as int] == vertices[t.1 as int]);
    assert(prev.vertices[t.2 as int] == vertices[t.2 as int]);
    match clip_of(vertices, normal, plane_point, t) {
        None => {
            let whole: [usize; 3] = [t.0, t.1, t.2];
            assert(whole[0] == t.0 && whole[1] == t.1 && whole[2] == t.2);
            if on_side_a(vertices[t.0 as int], normal, plane_point) {
                assert(corners_hold(prev.vertices, whole, good_a));
                assert forall|k: int| 0 <= k < next.side_a.len() implies corners_hold(
                    next.vertices,
                    #[trigger] next.side_a[k],
                    good_a,
                ) by {
                    if k < prev.side_a.len() {
                        assert(corners_hold(prev.vertices, prev.side_a[k], good_a));
                    }
                }
            } else {
                assert(corners_hold(prev.vertices, whole, good_b));
                assert forall|k: int| 0 <= k < next.side_b.len() implies corners_hold(
                    next.vertices,
                    #[trigger] next.side_b[k],
                    good_b,
                ) by {
                    if k < prev.side_b.len() {
                        assert(corners_hold(prev.vertices, prev.side_b[k], good_b));
                    }
                }
            }
        },
        Some(c) => {
            let after = grown(prev.vertices, vertices, normal, plane_point, c);
            let n = prev.vertices.len() as int;
            assert(vertices[c.lone as int].within(COORD_LIMIT as int));
            assert(vertices[c.first as int].within(COORD_LIMIT as int));
            assert(vertices[c.second as int].within(COORD_LIMIT as int));
            lemma_crossing_is_near(normal, plane_point, vertices[c.lone as int], vertices[c.first as int]);
            lemma_crossing_is_near(normal, plane_point, vertices[c.lone as int], vertices[c.second as int]);
            assert(starts_with(after, prev.vertices));
            assert(after[c.lone as int] == vertices[c.lone as int]);
            assert(after[c.first as int] == vertices[c.first as int]);
            assert(after[c.second as int] == vertices[c.second as int]);
            lemma_corners_outlast(prev.vertices, after, prev.side_a, good_a);
            lemma_corners_outlast(prev.vertices, after, prev.side_b, good_b);
            let a: [usize; 3] = [c.lone, (after.len() - 2) as usize, (after.len() - 1) as usize];
            let b: [usize; 3] = [c.first, (after.len() - 1) as usize, (after.len() - 2) as usize];
            let d: [usize; 3] = [c.second, (after.len() - 1) as usize, c.first];
            if c.lone_on_a {
                assert(corners_hold(after, a, good_a));
                assert(corners_hold(after, b, good_b));
                assert(corners_hold(after, d, good_b));
                lemma_wound_corners_hold(after, a, good_a);
                lemma_wound_corners_hold(after, b, good_b);
                lemma_wound_corners_hold(after, d, good_b);
            } else {
                assert(corners_hold(after, a, good_b));
                assert(corners_hold(after, b, good_a));
                assert(corners_hold(after, d, good_a));
                lemma_wound_corners_hold(after, a, good_b);
                lemma_wound_corners_hold(after, b, good_a);
                lemma_wound_corners_hold(after, d, good_a);
            }
            assert forall|k: int| 0 <= k < next.side_a.len() implies corners_hold(
                next.vertices,
                #[trigger] next.side_a[k],
                good_a,
            ) by {
                if k < prev.side_a.len() {
                    assert(corners_hold(after, prev.side_a[k], good_a));
                }
            }
            assert forall|k: int| 0 <= k < next.side_b.len() implies corners_hold(
                next.vertices,
                #[trigger] next.side_b[k],
                good_b,
            ) by {
                if k < prev.side_b.len() {
                    assert(corners_hold(after, prev.side_b[k], good_b));
                }
            }
        },
    }
}

/// The sides of a cut keep to their sides and are in bounds, where the
/// vertex list they end with is one that the machine can hold.
pub(crate) proof fn lemma_raw_split_apart(
    vertices: Seq<Vec2>,
    indices: Seq<usize>,
    normal: Vec2,
    plane_point: Vec2,
    count: nat,
)
    requires
        all_within(vertices, COORD_LIMIT as int),
        forall|i: int| 0 <= i < indices.len() ==> (#[trigger] indices[i]) < vertices.len(),
        3 * count <= indices.len(),
        raw_split(vertices, indices, normal, plane_point, count).vertices.len() <= usize::MAX,
    ensures
        raw_in_bounds(raw_split(vertices, indices, normal, plane_point, count), vertices),
        sides_apart(raw_split(vertices, indices, normal, plane_point, count), vertices, normal, plane_point),
    decreases count,
{
    if count > 0 {
        let prev = raw_split(vertices, indices, normal, plane_point, (count - 1) as nat);
        let t = triple_at(indices, count - 1);
        assert(prev.vertices.len() <= sorted_one(
            prev,
            vertices,
            normal,
            plane_point,
            t,
        ).vertices.len());
        lemma_raw_split_apart(vertices, indices, normal, plane_point, (count - 1) as nat);
        assert(indices[3 * (count - 1)] < vertices.len());
        assert(indices[3 * (count - 1) + 1] < vertices.len());
        assert(indices[3 * (count - 1) + 2] < vertices.len());
        lemma_sorted_one_in_bounds(prev, vertices, normal, plane_point, t);
        lemma_sorted_one_apart(prev, vertices, normal, plane_point, t);
    }
}

/// A vertex that cleanup keeps is a corner of a triangle of the side.
proof fn lemma_kept_vertex_is_corner(vertices: Seq<Vec2>, triangles: Seq<[usize; 3]>, v: int) -> (r: (
    int,
    int,
))
    requires
        corners_below(triangles, vertices.len() as int),
        vertices.len() <= usize::MAX,
        0 <= v < cleaned_vertices(vertices, triangles).len(),
    ensures
        0 <= r.0 < triangles.len(),
        0 <= r.1 < 3,
        cleaned_vertices(vertices, triangles)[v] == vertices[triangles[r.0][r.1] as int],
{
    let n = vertices.len();
    let used = used_vertices(vertices, triangles, n);
    lemma_rank_is_length(vertices, triangles, n);
    let i = lemma_weld_onto(used, used.len(), v);
    let old_index = lemma_rank_onto(triangles, n, i as nat);
    lemma_used_vertex_kept(vertices, triangles, old_index, n);
    let k = choose|k: int| 0 <= k < triangles.len() && #[trigger] has_corner(triangles[k], old_index as int);
    if triangles[k][0] == old_index {
        (k, 0)
    } else if triangles[k][1] == old_index {
        (k, 1)
    } else {
        (k, 2)
    }
}

/// What holds of every corner of a side holds of every vertex of the mesh
/// that cleanup makes of it, once the vertex is moved forth by the offset.
pub(crate) proof fn lemma_cleaned_vertices_hold(
    vertices: Seq<Vec2>,
    triangles: Seq<[usize; 3]>,
    good: spec_fn(Vec2) -> bool,
)
    requires
        all_within(vertices, COORD_LIMIT as int),
        corners_below(triangles, vertices.len() as int),
        vertices.len() <= usize::MAX,
        all_corners_hold(vertices, triangles, good),
    ensures
        forall|v: int|
            0 <= v < cleaned_mesh(vertices, triangles).vertices.len() ==> good(
                sum(
                    #[trigger] cleaned_mesh(vertices, triangles).vertices[v],
                    cleaned_offset(vertices, triangles),
                ),
            ),
{
    let kept = cleaned_vertices(vertices, triangles);
    let offset = cleaned_offset(vertices, triangles);
    let mesh = cleaned_mesh(vertices, triangles);
    lemma_used_within(vertices, triangles, vertices.len(), COORD_LIMIT as int);
    let used = used_vertices(vertices, triangles, vertices.len());
    lemma_welded_within(used, used.len(), COORD_LIMIT as int);
    lemma_shifted_within(kept);
    lemma_center_within(kept, COORD_LIMIT as int);
    assert forall|v: int| 0 <= v < mesh.vertices.len() implies good(
        sum(#[trigger] mesh.vertices[v], offset),
    ) by {
        let (k, c) = lemma_kept_vertex_is_corner(vertices, triangles, v);
        assert(corners_hold(vertices, triangles[k], good));
        assert(kept[v].within(COORD_LIMIT as int));
        assert(sum(mesh.vertices[v], offset) == kept[v]);
    }
}

/// A cut keeps its sides apart: every vertex of side A, put back where it
/// lay before the side was moved, lies on side A of the line or as near to
/// the line as rounding can take a crossing point; every vertex of side B
/// lies on side B or as near to the line.
pub proof fn law_cut_keeps_sides_apart(mesh: MeshView, direction: Vec2, plane_point: Vec2)
    requires
        mesh.wf(),
        mesh.vertices.len() + 2 * (mesh.indices.len() / 3) <= usize::MAX,
        direction.within(LINE_LIMIT as int),
        plane_point.within(LINE_LIMIT as int),
    ensures
        keeps_to_side_a(
            split_sides(mesh, direction, plane_point).0,
            direction.spec_perp(),
            plane_point,
        ),
        keeps_to_side_b(
            split_sides(mesh, direction, plane_point).1,
            direction.spec_perp(),
            plane_point,
        ),
{
    let normal = direction.spec_perp();
    let count = (mesh.indices.len() / 3) as nat;
    let raw = raw_split(mesh.vertices, mesh.indices, normal, plane_point, count);
    lemma_raw_split_in_bounds(mesh.vertices, mesh.indices, normal, plane_point, count);
    lemma_raw_split_apart(mesh.vertices, mesh.indices, normal, plane_point, count);
    let good_a = |p: Vec2| on_a_or_near(p, normal, plane_point);
    let good_b = |p: Vec2| on_b_or_near(p, normal, plane_point);
    lemma_cleaned_vertices_hold(raw.vertices, raw.side_a, good_a);
    lemma_cleaned_vertices_hold(raw.vertices, raw.side_b, good_b);
}

/// Every triangle winds counter-clockwise.
pub open spec fn all_ccw(vertices: Seq<Vec2>, triangles: Seq<[usize; 3]>) -> bool {
    forall|k: int| 0 <= k < triangles.len() ==> ccw(vertices, #[trigger] triangles[k])
}

/// Every triangle of the mesh winds counter-clockwise.
pub open spec fn mesh_ccw(mesh: MeshView) -> bool {
    forall|k: int|
        0 <= k < mesh.indices.len() / 3 ==> cross(
            mesh.vertices[#[trigger] mesh.indices[3 * k] as int],
            mesh.vertices[mesh.indices[3 * k + 1] as int],
            mesh.vertices[mesh.indices[3 * k + 2] as int],
        ) >= 0
}

/// Welding moves nothing: vertices that are close to each other lie in one
/// place.
pub open spec fn welds_exactly(vertices: Seq<Vec2>) -> bool {
    forall|i: int, j: int|
        0 <= i < vertices.len() && 0 <= j < vertices.len() && close(
            #[trigger] vertices[i],
            #[trigger] vertices[j],
        ) ==> vertices[i] == vertices[j]
}

/// Cleanup of this side moves no corner of a triangle but with the whole
/// side: among the vertices that its triangles use, those that are close to
/// each other lie in one place.
pub open spec fn side_welds_exactly(vertices: Seq<Vec2>, triangles: Seq<[usize; 3]>) -> bool {
    welds_exactly(used_vertices(vertices, triangles, vertices.len()))
}

/// The cut is made of a mesh that the machine can hold, and the cleanup of
/// neither side moves a corner of a triangle but with the whole side.
pub open spec fn cut_welds_exactly(mesh: MeshView, direction: Vec2, plane_point: Vec2) -> bool {
    let raw = raw_split(
        mesh.vertices,
        mesh.indices,
        direction.spec_perp(),
        plane_point,
        (mesh.indices.len() / 3) as nat,
    );
    &&& mesh.vertices.len() + 2 * (mesh.indices.len() / 3) <= usize::MAX
    &&& side_welds_exactly(raw.vertices, raw.side_a)
    &&& side_welds_exactly(raw.vertices, raw.side_b)
}

/// A triangle wound counter-clockwise winds counter-clockwise.
proof fn lemma_wound_is_ccw(vertices: Seq<Vec2>, t: [usize; 3])
    ensures
        ccw(vertices, wound_ccw(vertices, t)),
{
    lemma_cross_swap(vertices[t[0] as int], vertices[t[1] as int], vertices[t[2] as int]);
}

/// The winding of triangles outlasts the growth of the vertex list.
proof fn lemma_winding_outlasts(before: Seq<Vec2>, after: Seq<Vec2>, triangles: Seq<[usize; 3]>)
    requires
        starts_with(after, before),
        corners_below(triangles, before.len() as int),
        all_ccw(before, triangles),
    ensures
        all_ccw(after, triangles),
{
    assert forall|k: int| 0 <= k < triangles.len() implies ccw(after, #[trigger] triangles[k]) by {
        assert(ccw(before, triangles[k]));
    }
}

/// Sorting one more triangle that winds counter-clockwise keeps the
/// triangles of both sides wound counter-clockwise.
proof fn lemma_sorted_one_ccw(
    prev: RawSplit,
    vertices: Seq<Vec2>,
    normal: Vec2,
    plane_point: Vec2,
    t: (usize, usize, usize),
)
    requires
        raw_in_bounds(prev, vertices),
        starts_with(prev.vertices, vertices),
        all_ccw(prev.vertices, prev.side_a),
        all_ccw(prev.vertices, prev.side_b),
        t.0 < vertices.len(),
        t.1 < vertices.len(),
        t.2 < vertices.len(),
        cross(vertices[t.0 as int], vertices[t.1 as int], vertices[t.2 as int]) >= 0,
    ensures
        all_ccw(
            sorted_one(prev, vertices, normal, plane_point, t).vertices,
            sorted_one(prev, vertices, normal, plane_point, t).side_a,
        ),
        all_ccw(
            sorted_one(prev, vertices, normal, plane_point, t).vertices,
            sorted_one(prev, vertices, normal, plane_point, t).side_b,
        ),
{
    let next = sorted_one(prev, vertices, normal, plane_point, t);
    assert(prev.vertices[t.0 as int] == vertices[t.0 as int]);
    assert(prev.vertices[t.1 as int] == vertices[t.1 as int]);
    assert(prev.vertices[t.2 as int] == vertices[t.2 as int]);
    match clip_of(vertices, normal, plane_point, t) {
        None => {
            let whole: [usize; 3] = [t.0, t.1, t.2];
            assert(whole[0] == t.0 && whole[1] == t.1 && whole[2] == t.2);
            assert(ccw(prev.vertices, whole));
            assert forall|k: int| 0 <= k < next.side_a.len() implies ccw(
                next.vertices,
                #[trigger] next.side_a[k],
            ) by {
                if k < prev.side_a.len() {
                    assert(ccw(prev.vertices, prev.side_a[k]));
                }
            }
            assert forall|k: int| 0 <= k < next.side_b.len() implies ccw(
                next.vertices,
                #[trigger] next.side_b[k],
            ) by {
                if k < prev.side_b.len() {
                    assert(ccw(prev.vertices, prev.side_b[k]));
                }
            }
        },
        Some(c) => {
            let after = grown(prev.vertices, vertices, normal, plane_point, c);
            assert(starts_with(after, prev.vertices));
            lemma_winding_outlasts(prev.vertices, after, prev.side_a);
            lemma_winding_outlasts(prev.vertices, after, prev.side_b);
            let a: [usize; 3] = [c.lone, (after.len() - 2) as usize, (after.len() - 1) as usize];
            let b: [usize; 3] = [c.first, (after.len() - 1) as usize, (after.len() - 2) as usize];
            let d: [usize; 3] = [c.second, (after.len() - 1) as usize, c.first];
            lemma_wound_is_ccw(after, a);
            lemma_wound_is_ccw(after, b);
            lemma_wound_is_ccw(after, d);
            assert forall|k: int| 0 <= k < next.side_a.len() implies ccw(
                next.vertices,
                #[trigger] next.side_a[k],
            ) by {
                if k < prev.side_a.len() {
                    assert(ccw(after, prev.side_a[k]));
                }
            }
            assert forall|k: int| 0 <= k < next.side_b.len() implies ccw(
                next.vertices,
                #[trigger] next.side_b[k],
            ) by {
                if k < prev.side_b.len() {
                    assert(ccw(after, prev.side_b[k]));
                }
            }
        },
    }
}

/// Before cleanup, the triangles of both sides of a cut through a mesh whose
/// triangles wind counter-clockwise wind counter-clockwise.
proof fn lemma_raw_split_ccw(
    vertices: Seq<Vec2>,
    indices: Seq<usize>,
    normal: Vec2,
    plane_point: Vec2,
    count: nat,
)
    requires
        all_within(vertices, COORD_LIMIT as int),
        forall|i: int| 0 <= i < indices.len() ==> (#[trigger] indices[i]) < vertices.len(),
        3 * count <= indices.len(),
        vertices.len() + 2 * count <= usize::MAX,
        mesh_ccw(MeshView { vertices, indices }),
    ensures
        all_ccw(
            raw_split(vertices, indices, normal, plane_point, count).vertices,
            raw_split(vertices, indices, normal, plane_point, count).side_a,
        ),
        all_ccw(
            raw_split(vertices, indices, normal, plane_point, count).vertices,
            raw_split(vertices, indices, normal, plane_point, count).side_b,
        ),
    decreases count,
{
    if count > 0 {
        lemma_raw_split_ccw(vertices, indices, normal, plane_point, (count - 1) as nat);
        lemma_raw_split_in_bounds(vertices, indices, normal, plane_point, (count - 1) as nat);
        lemma_raw_split_apart(vertices, indices, normal, plane_point, (count - 1) as nat);
        let prev = raw_split(vertices, indices, normal, plane_point, (count - 1) as nat);
        let t = triple_at(indices, count - 1);
        let mesh = MeshView { vertices, indices };
        assert(indices[3 * (count - 1)] < vertices.len());
        assert(indices[3 * (count - 1) + 1] < vertices.len());
        assert(indices[3 * (count - 1) + 2] < vertices.len());
        assert(cross(
            mesh.vertices[mesh.indices[3 * (count - 1)] as int],
            mesh.vertices[mesh.indices[3 * (count - 1) + 1] as int],
            mesh.vertices[mesh.indices[3 * (count - 1) + 2] as int],
        ) >= 0);
        lemma_sorted_one_ccw(prev, vertices, normal, plane_point, t);
    }
}

/// Where welding moves nothing, every vertex lies where the kept vertex
/// lies that it is welded to.
pub(crate) proof fn lemma_welded_in_place(vertices: Seq<Vec2>, i: int, n: nat)
    requires
        welds_exactly(vertices),
        0 <= i < n <= vertices.len(),
    ensures
        0 <= weld_index(vertices, i) < welded(vertices, n).len(),
        welded(vertices, n)[weld_index(vertices, i)] == vertices[i],
{
    let before = welded(vertices, i as nat);
    let j = weld_index(vertices, i);
    lemma_first_close_exists(before, vertices[i]);
    lemma_welded_length(vertices, i as nat, n);
    if j < before.len() {
        let source = lemma_weld_onto(vertices, i as nat, j);
        assert(close(vertices[source], vertices[i]));
        lemma_welded_prefix(vertices, i as nat, n, j);
    } else {
        assert(welded(vertices, (i + 1) as nat)[j] == vertices[i]);
        lemma_welded_prefix(vertices, (i + 1) as nat, n, j);
    }
}

/// The cross product does not change when all three points are moved alike.
pub(crate) proof fn lemma_cross_moved(a: Vec2, b: Vec2, c: Vec2, a2: Vec2, b2: Vec2, c2: Vec2, ox: int, oy: int)
    by (nonlinear_arith)
    requires
        a2.x == a.x - ox && a2.y == a.y - oy,
        b2.x == b.x - ox && b2.y == b.y - oy,
        c2.x == c.x - ox && c2.y == c.y - oy,
    ensures
        cross(a2, b2, c2) == cross(a, b, c),
{
}

/// Where cleanup moves no corner of a triangle but with the whole side, a
/// vertex that a triangle uses lies after welding where it lay before.
proof fn lemma_vertex_in_place(vertices: Seq<Vec2>, triangles: Seq<[usize; 3]>, i: nat)
    requires
        i < vertices.len(),
        is_used(triangles, i as int),
        side_welds_exactly(vertices, triangles),
    ensures
        ({
            let used = used_vertices(vertices, triangles, vertices.len());
            let kept = cleaned_vertices(vertices, triangles);
            let at = weld_index(used, rank(triangles, i) as int);
            &&& 0 <= at < kept.len()
            &&& kept[at] == vertices[i as int]
        }),
{
    let used = used_vertices(vertices, triangles, vertices.len());
    lemma_used_vertex_kept(vertices, triangles, i, vertices.len());
    lemma_welded_in_place(used, rank(triangles, i) as int, used.len());
}

/// Where cleanup moves no corner of a triangle but with the whole side, the
/// corners of triangle `k` lie after welding where they lay before.
pub(crate) proof fn lemma_corners_in_place(vertices: Seq<Vec2>, triangles: Seq<[usize; 3]>, k: int)
    requires
        corners_below(triangles, vertices.len() as int),
        vertices.len() <= usize::MAX,
        side_welds_exactly(vertices, triangles),
        0 <= k < triangles.len(),
    ensures
        ({
            let used = used_vertices(vertices, triangles, vertices.len());
            let moved = rewelded(used, renumbered(triangles));
            let kept = cleaned_vertices(vertices, triangles);
            &&& kept[moved[k][0] as int] == vertices[triangles[k][0] as int]
            &&& kept[moved[k][1] as int] == vertices[triangles[k][1] as int]
            &&& kept[moved[k][2] as int] == vertices[triangles[k][2] as int]
        }),
{
    let n = vertices.len();
    let used = used_vertices(vertices, triangles, n);
    let renamed = renumbered(triangles);
    let moved = rewelded(used, renamed);
    let t = triangles[k];
    assert(has_corner(t, t[0] as int) && has_corner(t, t[1] as int) && has_corner(t, t[2] as int));
    lemma_vertex_in_place(vertices, triangles, t[0] as nat);
    lemma_vertex_in_place(vertices, triangles, t[1] as nat);
    lemma_vertex_in_place(vertices, triangles, t[2] as nat);
    assert(renamed[k][0] == rank(triangles, t[0] as nat) && renamed[k][1] == rank(
        triangles,
        t[1] as nat,
    ) && renamed[k][2] == rank(triangles, t[2] as nat)) by {
        lemma_renumbered_below(triangles, n);
    }
    assert(moved[k][0] == weld_index(used, renamed[k][0] as int) && moved[k][1] == weld_index(
        used,
        renamed[k][1] as int,
    ) && moved[k][2] == weld_index(used, renamed[k][2] as int)) by {
        lemma_rank_is_length(vertices, triangles, n);
        lemma_rank_bound(triangles, n);
        lemma_renumbered_below(triangles, n);
        lemma_rewelded_below(used, renamed);
    }
}

/// Where cleanup moves no corner of a triangle but with the whole side, the
/// triangles wind after welding as they did before.
proof fn lemma_welded_keeps_winding(vertices: Seq<Vec2>, triangles: Seq<[usize; 3]>)
    requires
        corners_below(triangles, vertices.len() as int),
        vertices.len() <= usize::MAX,
        all_ccw(vertices, triangles),
        side_welds_exactly(vertices, triangles),
    ensures
        all_ccw(cleaned_vertices(vertices, triangles), cleaned_triangles(vertices, triangles)),
{
    let used = used_vertices(vertices, triangles, vertices.len());
    let moved = rewelded(used, renumbered(triangles));
    let kept = cleaned_vertices(vertices, triangles);
    let left = cleaned_triangles(vertices, triangles);
    assert forall|j: int| 0 <= j < left.len() implies ccw(kept, #[trigger] left[j]) by {
        let k = lemma_proper_only_members(moved, triangles.len(), j);
        lemma_corners_in_place(vertices, triangles, k);
        assert(ccw(vertices, triangles[k]));
    }
}

/// Where cleanup moves no corner of a triangle but with the whole side, the
/// triangles of the mesh it makes wind as the triangles of the side did.
proof fn lemma_cleaned_keeps_winding(vertices: Seq<Vec2>, triangles: Seq<[usize; 3]>)
    requires
        all_within(vertices, COORD_LIMIT as int),
        corners_below(triangles, vertices.len() as int),
        vertices.len() <= usize::MAX,
        all_ccw(vertices, triangles),
        side_welds_exactly(vertices, triangles),
    ensures
        mesh_ccw(cleaned_mesh(vertices, triangles)),
{
    let kept = cleaned_vertices(vertices, triangles);
    let left = cleaned_triangles(vertices, triangles);
    let offset = cleaned_offset(vertices, triangles);
    let mesh = cleaned_mesh(vertices, triangles);
    lemma_welded_keeps_winding(vertices, triangles);
    lemma_cleaned_in_bounds(vertices, triangles);
    lemma_shifted_within(kept);
    lemma_flattened(left, kept.len() as int);
    assert forall|j: int| 0 <= j < mesh.indices.len() / 3 implies cross(
        mesh.vertices[#[trigger] mesh.indices[3 * j] as int],
        mesh.vertices[mesh.indices[3 * j + 1] as int],
        mesh.vertices[mesh.indices[3 * j + 2] as int],
    ) >= 0 by {
        let t = left[j];
        assert(ccw(kept, t));
        assert(mesh.indices[3 * j] == t[0] && mesh.indices[3 * j + 1] == t[1] && mesh.indices[3
            * j + 2] == t[2]);
        assert(kept[t[0] as int].within(COORD_LIMIT as int));
        assert(kept[t[1] as int].within(COORD_LIMIT as int));
        assert(kept[t[2] as int].within(COORD_LIMIT as int));
        lemma_cross_moved(
            kept[t[0] as int],
            kept[t[1] as int],
            kept[t[2] as int],
            mesh.vertices[t[0] as int],
            mesh.vertices[t[1] as int],
            mesh.vertices[t[2] as int],
            offset.x as int,
            offset.y as int,
        );
    }
}

/// A cut keeps the winding: where every triangle of the mesh winds
/// counter-clockwise and the cleanup of neither side moves a corner of a
/// triangle but with the whole side, every triangle of both sides winds
/// counter-clockwise. (Welding a corner of a thin triangle to a vertex beside
/// it can turn the triangle over, and a triangle that goes to its side whole
/// keeps the winding it had.)
pub proof fn law_cut_keeps_winding(mesh: MeshView, direction: Vec2, plane_point: Vec2)
    requires
        mesh.wf(),
        mesh_ccw(mesh),
        cut_welds_exactly(mesh, direction, plane_point),
    ensures
        split_sides(mesh, direction, plane_point).0 matches Some((side, offset)) ==> mesh_ccw(side),
        split_sides(mesh, direction, plane_point).1 matches Some((side, offset)) ==> mesh_ccw(side),
{
    let normal = direction.spec_perp();
    let count = (mesh.indices.len() / 3) as nat;
    let raw = raw_split(mesh.vertices, mesh.indices, normal, plane_point, count);
    lemma_raw_split_in_bounds(mesh.vertices, mesh.indices, normal, plane_point, count);
    assert(mesh == MeshView { vertices: mesh.vertices, indices: mesh.indices });
    lemma_raw_split_ccw(mesh.vertices, mesh.indices, normal, plane_point, count);
    lemma_cleaned_keeps_winding(raw.vertices, raw.side_a);
    lemma_cleaned_keeps_winding(raw.vertices, raw.side_b);
}

/// Both sides of a cut through a well-formed mesh are well formed.
pub proof fn lemma_split_sides_wf(mesh: MeshView, direction: Vec2, plane_point: Vec2)
    requires
        mesh.wf(),
        mesh.vertices.len() + 2 * (mesh.indices.len() / 3) <= usize::MAX,
    ensures
        split_sides(mesh, direction, plane_point).0 matches Some((side, offset)) ==> side.wf()
            && side.valid() && offset.within(COORD_LIMIT as int),
        split_sides(mesh, direction, plane_point).1 matches Some((side, offset)) ==> side.wf()
            && side.valid() && offset.within(COORD_LIMIT as int),
{
    let normal = direction.spec_perp();
    let count = (mesh.indices.len() / 3) as nat;
    let raw = raw_split(mesh.vertices, mesh.indices, normal, plane_point, count);
    lemma_raw_split_in_bounds(mesh.vertices, mesh.indices, normal, plane_point, count);
    lemma_cleaned_wf(raw.vertices, raw.side_a);
    lemma_cleaned_wf(raw.vertices, raw.side_b);
}

/// Every cut that shattering makes of the mesh and of the fragments that
/// come of it moves no corner of a triangle but with its whole side: see
/// [`cut_welds_exactly`].
pub open spec fn shatter_welds_exactly(mesh: MeshView, depth: nat, max_shard_area: int) -> bool
    decreases SHATTER_MAX_RECURSION_DEPTH + 1 - depth,
{
    is_final(mesh, depth, max_shard_area) || {
        let halves = shatter_cut(mesh);
        &&& cut_welds_exactly(
            mesh,
            longest_span(mesh.vertices).spec_perp(),
            Vec2 { x: 0, y: 0 },
        )
        &&& halves.0 matches Some((half, half_offset)) ==> shatter_welds_exactly(
            half,
            depth + 1,
            max_shard_area,
        )
        &&& halves.1 matches Some((half, half_offset)) ==> shatter_welds_exactly(
            half,
            depth + 1,
            max_shard_area,
        )
    }
}

/// Shattering keeps the winding: where every triangle of the mesh winds
/// counter-clockwise and no cut moves a corner of a triangle but with its
/// whole side, every triangle of every fragment winds counter-clockwise.
pub proof fn law_shatter_keeps_winding(mesh: MeshView, offset: Vec2, depth: nat, max_shard_area: int)
    requires
        mesh.wf(),
        mesh_ccw(mesh),
        shatter_welds_exactly(mesh, depth, max_shard_area),
    ensures
        forall|i: int|
            0 <= i < shatter_tree(mesh, offset, depth, max_shard_area).len() ==> mesh_ccw(
                (#[trigger] shatter_tree(mesh, offset, depth, max_shard_area)[i]).mesh,
            ),
    decreases SHATTER_MAX_RECURSION_DEPTH + 1 - depth,
{
    if !is_final(mesh, depth, max_shard_area) {
        let direction = longest_span(mesh.vertices).spec_perp();
        let origin = Vec2 { x: 0, y: 0 };
        let halves = shatter_cut(mesh);
        law_cut_keeps_winding(mesh, direction, origin);
        lemma_split_sides_wf(mesh, direction, origin);
        let of_b: Seq<Shard> = match halves.1 {
            Some((half, half_offset)) => {
                law_shatter_keeps_winding(half, sum(offset, half_offset), depth + 1, max_shard_area);
                shatter_tree(half, sum(offset, half_offset), depth + 1, max_shard_area)
            },
            None => Seq::empty(),
        };
        let of_a: Seq<Shard> = match halves.0 {
            Some((half, half_offset)) => {
                law_shatter_keeps_winding(half, sum(offset, half_offset), depth + 1, max_shard_area);
                shatter_tree(half, sum(offset, half_offset), depth + 1, max_shard_area)
            },
            None => Seq::empty(),
        };
        assert(shatter_tree(mesh, offset, depth, max_shard_area) == of_b + of_a);
        assert forall|i: int| 0 <= i < (of_b + of_a).len() implies mesh_ccw(
            (#[trigger] (of_b + of_a)[i]).mesh,
        ) by {
            if i < of_b.len() {
                assert((of_b + of_a)[i] == of_b[i]);
            } else {
                assert((of_b + of_a)[i] == of_a[i - of_b.len()]);
            }
        }
    }
}

/// Every cut that trimming makes at the first `count` candidates moves no
/// corner of a triangle but with its whole side: see [`cut_welds_exactly`].
pub open spec fn trim_welds_exactly(mesh: MeshView, candidates: Seq<Vec2>, count: nat) -> bool
    decreases count,
{
    count == 0 || {
        let state = trimmed(mesh, candidates, (count - 1) as nat);
        &&& trim_welds_exactly(mesh, candidates, (count - 1) as nat)
        &&& cut_welds_exactly(
            state.main,
            candidates[count - 1].spec_perp(),
            chord_point(candidates[count - 1], trim_radius(state.main.area())),
        )
    }
}

/// Trimming keeps the winding: where every triangle of the mesh winds
/// counter-clockwise and no cut moves a corner of a triangle but with its
/// whole side, every triangle of what is left and of every shard winds
/// counter-clockwise.
pub proof fn law_trim_keeps_winding(mesh: MeshView, candidates: Seq<Vec2>, count: nat)
    requires
        mesh.wf(),
        mesh_ccw(mesh),
        count <= candidates.len(),
        trim_welds_exactly(mesh, candidates, count),
    ensures
        trimmed(mesh, candidates, count).main.wf(),
        mesh_ccw(trimmed(mesh, candidates, count).main),
        forall|i: int|
            0 <= i < trimmed(mesh, candidates, count).shards.len() ==> mesh_ccw(
                (#[trigger] trimmed(mesh, candidates, count).shards[i]).0,
            ),
    decreases count,
{
    if count > 0 {
        law_trim_keeps_winding(mesh, candidates, (count - 1) as nat);
        let state = trimmed(mesh, candidates, (count - 1) as nat);
        let vertex = candidates[count - 1];
        let direction = vertex.spec_perp();
        let point = chord_point(vertex, trim_radius(state.main.area()));
        law_cut_keeps_winding(state.main, direction, point);
        lemma_split_sides_wf(state.main, direction, point);
        let next = trimmed_once(state, vertex);
        assert(next == trimmed(mesh, candidates, count));
        assert forall|i: int| 0 <= i < next.shards.len() implies mesh_ccw(
            (#[trigger] next.shards[i]).0,
        ) by {
            if i < state.shards.len() {
                assert(next.shards[i] == state.shards[i]);
            }
        }
    }
}

} // verus!
