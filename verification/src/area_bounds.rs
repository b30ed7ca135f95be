//! How nearly a cut conserves area when its crossing points are rounded.

use vstd::prelude::*;
use crate::area_laws::{
    corner_area, cross2, lemma_cleaned_area, lemma_cross_antisymmetric, lemma_cross_of_differences,
    lemma_cross_orders, lemma_expand, lemma_three_factors, lemma_times_difference,
    lemma_tris_area_outlasts, lemma_tris_area_push, lemma_wound_area, piece_area, raw_area,
    tri_area,
};
use crate::arith::lemma_round_div_error;
use crate::laws::{
    cut_welds_exactly, lemma_split_sides_wf, shatter_welds_exactly, starts_with,
    trim_welds_exactly,
};
use crate::mesh::MeshView;
use crate::mesh_utils::{
    area_upto, crossing_total, crossing_weight, intersection, lemma_intersection_coordinates,
    lemma_weight_is_share, longest_span, triangle_area,
};
use crate::shatter_mesh::{
    is_final, shatter_cut, shatter_tree, Shard, SHATTER_MAX_RECURSION_DEPTH,
};
use crate::split_mesh::{
    clip_of, grown, lemma_raw_split_in_bounds, lone_piece, pair_piece_1, pair_piece_2,
    raw_in_bounds, raw_split, sorted_one, split_sides, triple_at, Clip, RawSplit,
};
use crate::trim_mesh::{chord_point, trim_cut, trim_radius, trimmed, trimmed_once};
use crate::vec2::{abs, all_within, cross, on_side_a, sum, Vec2, COORD_LIMIT};

verus! {

/// The length of a vector along the axes: the sum of the magnitudes of its
/// coordinates.
pub open spec fn l1(x: int, y: int) -> int {
    abs(x) + abs(y)
}

/// The cross product of sums, expanded.
proof fn lemma_cross_of_sums(
    px: int,
    py: int,
    rx: int,
    ry: int,
    qx: int,
    qy: int,
    sx: int,
    sy: int,
)
    ensures
        cross2(px + rx, py + ry, qx + sx, qy + sy) == cross2(px, py, qx, qy) + cross2(
            px,
            py,
            sx,
            sy,
        ) + cross2(rx, ry, qx, qy) + cross2(rx, ry, sx, sy),
{
    lemma_expand(px, -rx, qy, -sy);
    lemma_expand(py, -ry, qx, -sx);
    lemma_negated(px, sy);
    lemma_negated(rx, qy);
    lemma_negated(py, sx);
    lemma_negated(ry, qx);
    lemma_negated_both(rx, sy);
    lemma_negated_both(ry, sx);
}

/// A product with a negated factor.
proof fn lemma_negated(a: int, b: int)
    by (nonlinear_arith)
    ensures
        a * (-b) == -(a * b),
        (-a) * b == -(a * b),
{
}

/// A product of two negated factors.
proof fn lemma_negated_both(a: int, b: int)
    by (nonlinear_arith)
    ensures
        (-a) * (-b) == a * b,
{
}

/// The cross product with a vector scaled on either side.
proof fn lemma_cross_scaled(k: int, px: int, py: int, qx: int, qy: int)
    by (nonlinear_arith)
    ensures
        cross2(k * px, k * py, qx, qy) == k * cross2(px, py, qx, qy),
        cross2(px, py, k * qx, k * qy) == k * cross2(px, py, qx, qy),
{
    assert((k * px) * qy == k * (px * qy));
    assert((k * py) * qx == k * (py * qx));
    assert(px * (k * qy) == k * (px * qy));
    assert(py * (k * qx) == k * (py * qx));
}

/// The product of two numbers of bounded magnitude.
proof fn lemma_bounded_product(p: int, f: int, d: int)
    by (nonlinear_arith)
    requires
        -d <= 2 * f <= d,
    ensures
        -(abs(p) * d) <= 2 * (p * f) <= abs(p) * d,
        -(abs(p) * d) <= 2 * (f * p) <= abs(p) * d,
{
}

/// The cross product of a vector with a small vector is small.
proof fn lemma_cross_with_error(px: int, py: int, fx: int, fy: int, d: int)
    requires
        -d <= 2 * fx <= d,
        -d <= 2 * fy <= d,
    ensures
        -(l1(px, py) * d) <= 2 * cross2(px, py, fx, fy) <= l1(px, py) * d,
        -(l1(px, py) * d) <= 2 * cross2(fx, fy, px, py) <= l1(px, py) * d,
{
    lemma_bounded_product(px, fy, d);
    lemma_bounded_product(py, fx, d);
    assert(l1(px, py) * d == abs(px) * d + abs(py) * d) by (nonlinear_arith)
        requires
            l1(px, py) == abs(px) + abs(py),
    ;
}

/// The product of two small numbers.
proof fn lemma_small_product(f: int, g: int, d: int, e: int)
    by (nonlinear_arith)
    requires
        -d <= 2 * f <= d,
        -e <= 2 * g <= e,
    ensures
        -(d * e) <= 4 * (f * g) <= d * e,
{
}

/// The cross product of two small vectors is small.
proof fn lemma_cross_of_errors(fx: int, fy: int, d: int, gx: int, gy: int, e: int)
    requires
        -d <= 2 * fx <= d,
        -d <= 2 * fy <= d,
        -e <= 2 * gx <= e,
        -e <= 2 * gy <= e,
    ensures
        -(d * e) <= 2 * cross2(fx, fy, gx, gy) <= d * e,
{
    lemma_small_product(fx, gy, d, e);
    lemma_small_product(fy, gx, d, e);
}

/// A bounded number times a share of `d0`.
proof fn lemma_share_of_bound(a: int, d0: int, x: int, c: int, d1: int)
    by (nonlinear_arith)
    requires
        0 <= a <= d0,
        c >= 0,
        d1 >= 0,
        -(c * d1) <= 2 * x <= c * d1,
    ensures
        -((d0 * d1) * c) <= 2 * (a * x) <= (d0 * d1) * c,
{
    assert(-(a * (c * d1)) <= a * (2 * x) <= a * (c * d1));
    assert(a * (c * d1) <= d0 * (c * d1));
    assert(d0 * (c * d1) == (d0 * d1) * c);
    assert(a * (2 * x) == 2 * (a * x));
}

/// The triangle cut off at the lone corner, with rounded crossing points:
/// its scaled cross product differs from its share of that of the whole by
/// what rounding allows.
proof fn lemma_lone_rounded(
    ux: int,
    uy: int,
    vx: int,
    vy: int,
    e0x: int,
    e0y: int,
    e1x: int,
    e1y: int,
    a0: int,
    d0: int,
    a1: int,
    d1: int,
)
    requires
        d0 > 0,
        d1 > 0,
        0 <= a0 <= d0,
        0 <= a1 <= d1,
        -d0 <= 2 * (d0 * e0x - a0 * ux) <= d0,
        -d0 <= 2 * (d0 * e0y - a0 * uy) <= d0,
        -d1 <= 2 * (d1 * e1x - a1 * vx) <= d1,
        -d1 <= 2 * (d1 * e1y - a1 * vy) <= d1,
    ensures
        ({
            let k = d0 * d1;
            let r = k * cross2(e0x, e0y, e1x, e1y) - (a0 * a1) * cross2(ux, uy, vx, vy);
            -(k * (l1(ux, uy) + l1(vx, vy) + 1)) <= 2 * r <= k * (l1(ux, uy) + l1(vx, vy) + 1)
        }),
{
    let k = d0 * d1;
    let s = cross2(ux, uy, vx, vy);
    let f0x = d0 * e0x - a0 * ux;
    let f0y = d0 * e0y - a0 * uy;
    let f1x = d1 * e1x - a1 * vx;
    let f1y = d1 * e1y - a1 * vy;
    // k * (e0 x e1) == (d0 e0) x (d1 e1)
    lemma_cross_scaled(d0, e0x, e0y, d1 * e1x, d1 * e1y);
    lemma_cross_scaled(d1, e0x, e0y, e1x, e1y);
    lemma_three_factors(d0, d1, cross2(e0x, e0y, e1x, e1y));
    let whole = cross2(d0 * e0x, d0 * e0y, d1 * e1x, d1 * e1y);
    assert(whole == k * cross2(e0x, e0y, e1x, e1y));
    // (a0 u + f0) x (a1 v + f1)
    lemma_cross_of_sums(a0 * ux, a0 * uy, f0x, f0y, a1 * vx, a1 * vy, f1x, f1y);
    lemma_cross_scaled(a0, ux, uy, a1 * vx, a1 * vy);
    lemma_cross_scaled(a1, ux, uy, vx, vy);
    lemma_three_factors(a0, a1, s);
    assert(cross2(a0 * ux, a0 * uy, a1 * vx, a1 * vy) == (a0 * a1) * s);
    lemma_cross_scaled(a0, ux, uy, f1x, f1y);
    lemma_cross_scaled(a1, f0x, f0y, vx, vy);
    let first = cross2(ux, uy, f1x, f1y);
    let second = cross2(f0x, f0y, vx, vy);
    let third = cross2(f0x, f0y, f1x, f1y);
    assert(whole == (a0 * a1) * s + a0 * first + a1 * second + third);
    lemma_cross_with_error(ux, uy, f1x, f1y, d1);
    lemma_cross_with_error(vx, vy, f0x, f0y, d0);
    lemma_cross_of_errors(f0x, f0y, d0, f1x, f1y, d1);
    lemma_share_of_bound(a0, d0, first, l1(ux, uy), d1);
    lemma_three_factors(d1, d0, l1(vx, vy));
    lemma_share_of_bound(a1, d1, second, l1(vx, vy), d0);
    assert((d1 * d0) * l1(vx, vy) == k * l1(vx, vy)) by (nonlinear_arith)
        requires
            k == d0 * d1,
    ;
    assert(k * (l1(ux, uy) + l1(vx, vy) + 1) == k * l1(ux, uy) + k * l1(vx, vy) + k)
        by (nonlinear_arith);
}

/// A scaled difference in terms of a rounding error.
proof fn lemma_scaled_difference(d: int, e: int, a: int, v: int, f: int, w: int)
    by (nonlinear_arith)
    requires
        f == d * e - a * v,
    ensures
        d * (e - w) == (a * v - d * w) + f,
        d * (e - v) == (a - d) * v + f,
{
}

/// The second triangle of the side of the two corners, with a rounded
/// crossing point.
proof fn lemma_far_rounded(ux: int, uy: int, vx: int, vy: int, e1x: int, e1y: int, a1: int, d1: int)
    requires
        d1 > 0,
        0 <= a1 <= d1,
        -d1 <= 2 * (d1 * e1x - a1 * vx) <= d1,
        -d1 <= 2 * (d1 * e1y - a1 * vy) <= d1,
    ensures
        ({
            let r = d1 * cross2(e1x - vx, e1y - vy, ux - vx, uy - vy) - (d1 - a1) * cross2(
                ux,
                uy,
                vx,
                vy,
            );
            -(d1 * (l1(ux, uy) + l1(vx, vy))) <= 2 * r <= d1 * (l1(ux, uy) + l1(vx, vy))
        }),
{
    let s = cross2(ux, uy, vx, vy);
    let f1x = d1 * e1x - a1 * vx;
    let f1y = d1 * e1y - a1 * vy;
    let wx = ux - vx;
    let wy = uy - vy;
    let z = cross2(e1x - vx, e1y - vy, wx, wy);
    lemma_cross_scaled(d1, e1x - vx, e1y - vy, wx, wy);
    lemma_scaled_difference(d1, e1x, a1, vx, f1x, vx);
    lemma_scaled_difference(d1, e1y, a1, vy, f1y, vy);
    lemma_cross_of_sums((a1 - d1) * vx, (a1 - d1) * vy, f1x, f1y, wx, wy, 0, 0);
    lemma_cross_scaled(a1 - d1, vx, vy, wx, wy);
    lemma_cross_of_differences(vx, vy, 0, 0, ux, uy, vx, vy);
    lemma_cross_antisymmetric(vx, vy, ux, uy);
    assert(cross2(vx, vy, wx, wy) == -s);
    lemma_negated(a1 - d1, s);
    let rest = cross2(f1x, f1y, wx, wy);
    assert(d1 * z == (a1 - d1) * (-s) + rest);
    assert((a1 - d1) * (-s) == (d1 - a1) * s) by (nonlinear_arith);
    lemma_cross_with_error(wx, wy, f1x, f1y, d1);
    assert(l1(wx, wy) * d1 <= d1 * (l1(ux, uy) + l1(vx, vy))) by (nonlinear_arith)
        requires
            d1 > 0,
            0 <= l1(wx, wy) <= l1(ux, uy) + l1(vx, vy),
    ;
}

/// The first triangle of the side of the two corners, with rounded crossing
/// points.
proof fn lemma_near_rounded(
    ux: int,
    uy: int,
    vx: int,
    vy: int,
    e0x: int,
    e0y: int,
    e1x: int,
    e1y: int,
    a0: int,
    d0: int,
    a1: int,
    d1: int,
)
    requires
        d0 > 0,
        d1 > 0,
        0 <= a0 <= d0,
        0 <= a1 <= d1,
        -d0 <= 2 * (d0 * e0x - a0 * ux) <= d0,
        -d0 <= 2 * (d0 * e0y - a0 * uy) <= d0,
        -d1 <= 2 * (d1 * e1x - a1 * vx) <= d1,
        -d1 <= 2 * (d1 * e1y - a1 * vy) <= d1,
    ensures
        ({
            let k = d0 * d1;
            let r = k * cross2(e1x - ux, e1y - uy, e0x - ux, e0y - uy) - (a1 * (d0 - a0)) * cross2(
                ux,
                uy,
                vx,
                vy,
            );
            -(k * (2 * l1(ux, uy) + l1(vx, vy) + 1)) <= 2 * r <= k * (2 * l1(ux, uy) + l1(
                vx,
                vy,
            ) + 1)
        }),
{
    let k = d0 * d1;
    let s = cross2(ux, uy, vx, vy);
    let f0x = d0 * e0x - a0 * ux;
    let f0y = d0 * e0y - a0 * uy;
    let f1x = d1 * e1x - a1 * vx;
    let f1y = d1 * e1y - a1 * vy;
    let y = cross2(e1x - ux, e1y - uy, e0x - ux, e0y - uy);
    // k * y == (d1 (e1 - u)) x (d0 (e0 - u))
    lemma_cross_scaled(d1, e1x - ux, e1y - uy, d0 * (e0x - ux), d0 * (e0y - uy));
    lemma_cross_scaled(d0, e1x - ux, e1y - uy, e0x - ux, e0y - uy);
    lemma_three_factors(d1, d0, y);
    let whole = cross2(d1 * (e1x - ux), d1 * (e1y - uy), d0 * (e0x - ux), d0 * (e0y - uy));
    assert(whole == (d1 * d0) * y);
    assert(d1 * d0 == k) by (nonlinear_arith)
        requires
            k == d0 * d1,
    ;
    // d1 (e1 - u) == p + f1 and d0 (e0 - u) == q + f0
    let px = a1 * vx - d1 * ux;
    let py = a1 * vy - d1 * uy;
    let qx = (a0 - d0) * ux;
    let qy = (a0 - d0) * uy;
    lemma_scaled_difference(d1, e1x, a1, vx, f1x, ux);
    lemma_scaled_difference(d1, e1y, a1, vy, f1y, uy);
    lemma_scaled_difference(d0, e0x, a0, ux, f0x, ux);
    lemma_scaled_difference(d0, e0y, a0, uy, f0y, uy);
    lemma_cross_of_sums(px, py, f1x, f1y, qx, qy, f0x, f0y);
    let main = cross2(px, py, qx, qy);
    let first = cross2(px, py, f0x, f0y);
    let second = cross2(f1x, f1y, qx, qy);
    let third = cross2(f1x, f1y, f0x, f0y);
    assert(whole == main + first + second + third);
    // p x q == a1 (d0 - a0) s
    lemma_cross_scaled(a0 - d0, px, py, ux, uy);
    lemma_cross_of_differences(a1 * vx, a1 * vy, d1 * ux, d1 * uy, ux, uy, 0, 0);
    lemma_cross_scaled(a1, vx, vy, ux, uy);
    lemma_cross_scaled(d1, ux, uy, ux, uy);
    lemma_cross_antisymmetric(vx, vy, ux, uy);
    lemma_cross_antisymmetric(ux, uy, ux, uy);
    lemma_negated(a1, s);
    assert(cross2(px, py, ux, uy) == -(a1 * s));
    lemma_negated(a0 - d0, a1 * s);
    lemma_three_factors(d0 - a0, a1, s);
    assert((a0 - d0) * (-(a1 * s)) == (d0 - a0) * (a1 * s)) by (nonlinear_arith);
    assert((d0 - a0) * (a1 * s) == (a1 * (d0 - a0)) * s) by (nonlinear_arith);
    assert(main == (a1 * (d0 - a0)) * s);
    // p x f0 == a1 (v x f0) - d1 (u x f0)
    lemma_cross_of_differences(a1 * vx, a1 * vy, d1 * ux, d1 * uy, f0x, f0y, 0, 0);
    lemma_cross_scaled(a1, vx, vy, f0x, f0y);
    lemma_cross_scaled(d1, ux, uy, f0x, f0y);
    let vf = cross2(vx, vy, f0x, f0y);
    let uf = cross2(ux, uy, f0x, f0y);
    assert(first == a1 * vf - d1 * uf);
    lemma_cross_with_error(vx, vy, f0x, f0y, d0);
    lemma_cross_with_error(ux, uy, f0x, f0y, d0);
    lemma_share_of_bound(a1, d1, vf, l1(vx, vy), d0);
    lemma_share_of_bound(d1, d1, uf, l1(ux, uy), d0);
    // f1 x q == (a0 - d0) (f1 x u)
    lemma_cross_scaled(a0 - d0, f1x, f1y, ux, uy);
    let fu = cross2(f1x, f1y, ux, uy);
    assert(second == (a0 - d0) * fu);
    lemma_cross_with_error(ux, uy, f1x, f1y, d1);
    lemma_share_of_bound(d0 - a0, d0, fu, l1(ux, uy), d1);
    lemma_negated(d0 - a0, fu);
    assert((a0 - d0) * fu == -((d0 - a0) * fu)) by (nonlinear_arith);
    lemma_cross_of_errors(f1x, f1y, d1, f0x, f0y, d0);
    assert((d1 * d0) * l1(vx, vy) == k * l1(vx, vy));
    assert((d1 * d0) * l1(ux, uy) == k * l1(ux, uy));
    assert(d1 * d0 == k);
    assert(k * (2 * l1(ux, uy) + l1(vx, vy) + 1) == 2 * (k * l1(ux, uy)) + k * l1(vx, vy) + k)
        by (nonlinear_arith);
}

/// The magnitude of a multiple by a non-negative factor.
proof fn lemma_abs_scaled(k: int, x: int)
    by (nonlinear_arith)
    requires
        k >= 0,
    ensures
        abs(k * x) == k * abs(x),
{
}

/// A number whose multiple by a positive number is bounded by a multiple
/// of that number is bounded by the multiplier.
proof fn lemma_cancel_bound(k: int, x: int, b: int)
    by (nonlinear_arith)
    requires
        k > 0,
        -(k * b) <= 2 * (k * x) <= k * b,
    ensures
        -b <= 2 * x <= b,
{
}

/// The shares of the pieces are shares.
proof fn lemma_shares(a0: int, d0: int, a1: int, d1: int)
    by (nonlinear_arith)
    requires
        0 <= a0 <= d0,
        0 <= a1 <= d1,
        d0 > 0,
        d1 > 0,
    ensures
        d0 * d1 > 0,
        a0 * a1 >= 0,
        a1 * (d0 - a0) >= 0,
        d0 * (d1 - a1) >= 0,
        a0 * a1 + a1 * (d0 - a0) + d0 * (d1 - a1) == d0 * d1,
{
}

/// A factor taken into a sum of four.
proof fn lemma_times_sum_of_four(k: int, a: int, b: int, c: int, d: int)
    by (nonlinear_arith)
    ensures
        k * (a + b + c - d) == k * a + k * b + k * c - k * d,
        (a + b + c) * d == a * d + b * d + c * d,
        k * (a + b + c + d) == k * a + k * b + k * c + k * d,
{
}

/// The three pieces of a triangle that is clipped at rounded crossing points
/// have the area of the triangle, but for what rounding allows.
proof fn lemma_rounded_pieces(
    ux: int,
    uy: int,
    vx: int,
    vy: int,
    e0x: int,
    e0y: int,
    e1x: int,
    e1y: int,
    a0: int,
    d0: int,
    a1: int,
    d1: int,
)
    requires
        d0 > 0,
        d1 > 0,
        0 <= a0 <= d0,
        0 <= a1 <= d1,
        -d0 <= 2 * (d0 * e0x - a0 * ux) <= d0,
        -d0 <= 2 * (d0 * e0y - a0 * uy) <= d0,
        -d1 <= 2 * (d1 * e1x - a1 * vx) <= d1,
        -d1 <= 2 * (d1 * e1y - a1 * vy) <= d1,
    ensures
        ({
            let pieces = abs(cross2(e0x, e0y, e1x, e1y)) + abs(
                cross2(e1x - ux, e1y - uy, e0x - ux, e0y - uy),
            ) + abs(cross2(e1x - vx, e1y - vy, ux - vx, uy - vy));
            let slack = 4 * l1(ux, uy) + 3 * l1(vx, vy) + 2;
            -slack <= 2 * (pieces - abs(cross2(ux, uy, vx, vy))) <= slack
        }),
{
    let k = d0 * d1;
    let s = cross2(ux, uy, vx, vy);
    let x = cross2(e0x, e0y, e1x, e1y);
    let y = cross2(e1x - ux, e1y - uy, e0x - ux, e0y - uy);
    let z = cross2(e1x - vx, e1y - vy, ux - vx, uy - vy);
    let lu = l1(ux, uy);
    let lv = l1(vx, vy);
    let cl = a0 * a1;
    let cn = a1 * (d0 - a0);
    let cf = d0 * (d1 - a1);
    lemma_shares(a0, d0, a1, d1);
    lemma_lone_rounded(ux, uy, vx, vy, e0x, e0y, e1x, e1y, a0, d0, a1, d1);
    lemma_near_rounded(ux, uy, vx, vy, e0x, e0y, e1x, e1y, a0, d0, a1, d1);
    lemma_far_rounded(ux, uy, vx, vy, e1x, e1y, a1, d1);
    let rl = k * x - cl * s;
    let rn = k * y - cn * s;
    let rf0 = d1 * z - (d1 - a1) * s;
    let rf = k * z - cf * s;
    lemma_three_factors(d0, d1, z);
    lemma_three_factors(d0, d1 - a1, s);
    lemma_times_difference(d0, d1 * z, (d1 - a1) * s, 0);
    assert(rf == d0 * rf0);
    lemma_share_of_bound(d0, d0, rf0, lu + lv, d1);
    assert(-(k * (lu + lv)) <= 2 * rf <= k * (lu + lv));
    lemma_abs_scaled(k, x);
    lemma_abs_scaled(k, y);
    lemma_abs_scaled(k, z);
    lemma_abs_scaled(cl, s);
    lemma_abs_scaled(cn, s);
    lemma_abs_scaled(cf, s);
    let total = k * abs(x) + k * abs(y) + k * abs(z) - (cl * abs(s) + cn * abs(s) + cf * abs(s));
    assert(-(abs(rl) + abs(rn) + abs(rf)) <= total <= abs(rl) + abs(rn) + abs(rf));
    lemma_times_sum_of_four(k, abs(x), abs(y), abs(z), abs(s));
    lemma_times_sum_of_four(0, cl, cn, cf, abs(s));
    assert(cl * abs(s) + cn * abs(s) + cf * abs(s) == k * abs(s));
    let change = abs(x) + abs(y) + abs(z) - abs(s);
    assert(total == k * change);
    lemma_times_sum_of_four(k, lu + lv + 1, 2 * lu + lv + 1, lu + lv, 0);
    let slack = 4 * lu + 3 * lv + 2;
    assert(k * slack == k * (lu + lv + 1) + k * (2 * lu + lv + 1) + k * (lu + lv));
    assert(-(k * slack) <= 2 * (k * change) <= k * slack);
    lemma_cancel_bound(k, change, slack);
}

/// The rounding error of a rounded share.
proof fn lemma_rounded_share(d: int, e: int, weight: int, u: int)
    by (nonlinear_arith)
    requires
        d > 0,
        -d <= 2 * d * e - 2 * (u * weight) <= d,
    ensures
        -d <= 2 * (d * e - weight * u) <= d,
{
}

/// The three pieces of a triangle that is clipped at its crossing points,
/// rounded as they are, have the area of the triangle, but for what
/// rounding allows: half a step for each step that the two clipped edges are
/// long along the axes.
proof fn lemma_clip_nearly_conserves(normal: Vec2, plane_point: Vec2, m: Vec2, b0: Vec2, b1: Vec2)
    requires
        on_side_a(m, normal, plane_point) != on_side_a(b0, normal, plane_point),
        on_side_a(m, normal, plane_point) != on_side_a(b1, normal, plane_point),
    ensures
        ({
            let pa = intersection(normal, plane_point, m, b0);
            let pb = intersection(normal, plane_point, m, b1);
            let pieces = abs(cross(m, pa, pb)) + abs(cross(b0, pb, pa)) + abs(cross(b1, pb, b0));
            let slack = 4 * l1(b0.x - m.x, b0.y - m.y) + 3 * l1(b1.x - m.x, b1.y - m.y) + 2;
            -slack <= 2 * (pieces - abs(cross(m, b0, b1))) <= slack
        }),
{
    let pa = intersection(normal, plane_point, m, b0);
    let pb = intersection(normal, plane_point, m, b1);
    let a0 = crossing_weight(normal, plane_point, m, b0);
    let d0 = crossing_total(normal, plane_point, m, b0);
    let a1 = crossing_weight(normal, plane_point, m, b1);
    let d1 = crossing_total(normal, plane_point, m, b1);
    lemma_weight_is_share(normal, plane_point, m, b0);
    lemma_weight_is_share(normal, plane_point, m, b1);
    lemma_intersection_coordinates(normal, plane_point, m, b0);
    lemma_intersection_coordinates(normal, plane_point, m, b1);
    let ux = b0.x - m.x;
    let uy = b0.y - m.y;
    let vx = b1.x - m.x;
    let vy = b1.y - m.y;
    let e0x = pa.x - m.x;
    let e0y = pa.y - m.y;
    let e1x = pb.x - m.x;
    let e1y = pb.y - m.y;
    lemma_round_div_error(ux * a0, d0);
    lemma_round_div_error(uy * a0, d0);
    lemma_round_div_error(vx * a1, d1);
    lemma_round_div_error(vy * a1, d1);
    lemma_rounded_share(d0, e0x, a0, ux);
    lemma_rounded_share(d0, e0y, a0, uy);
    lemma_rounded_share(d1, e1x, a1, vx);
    lemma_rounded_share(d1, e1y, a1, vy);
    assert(cross(m, b0, b1) == cross2(ux, uy, vx, vy));
    assert(cross(m, pa, pb) == cross2(e0x, e0y, e1x, e1y));
    assert(cross(b0, pb, pa) == cross2(e1x - ux, e1y - uy, e0x - ux, e0y - uy));
    assert(cross(b1, pb, b0) == cross2(e1x - vx, e1y - vy, ux - vx, uy - vy));
    lemma_rounded_pieces(ux, uy, vx, vy, e0x, e0y, e1x, e1y, a0, d0, a1, d1);
}

/// What rounding can change of the area of a clipped triangle, in quarter
/// square steps: four for each step that the edge from the lone corner to
/// the first of the other corners is long along the axes, three for each
/// step of the edge to the second, and two.
pub open spec fn clip_slack(vertices: Seq<Vec2>, c: Clip) -> int {
    let m = vertices[c.lone as int];
    let b0 = vertices[c.first as int];
    let b1 = vertices[c.second as int];
    4 * l1(b0.x - m.x, b0.y - m.y) + 3 * l1(b1.x - m.x, b1.y - m.y) + 2
}

/// What rounding can change of the area of a triangle of the mesh: nothing
/// where the line does not cross it.
pub open spec fn triangle_slack(
    vertices: Seq<Vec2>,
    normal: Vec2,
    plane_point: Vec2,
    t: (usize, usize, usize),
) -> int {
    match clip_of(vertices, normal, plane_point, t) {
        Some(c) => clip_slack(vertices, c),
        None => 0,
    }
}

/// What rounding can change of the area of the first `count` triangles, in
/// quarter square steps.
pub open spec fn cut_slack(
    vertices: Seq<Vec2>,
    indices: Seq<usize>,
    normal: Vec2,
    plane_point: Vec2,
    count: nat,
) -> int
    decreases count,
{
    if count == 0 {
        0
    } else {
        cut_slack(vertices, indices, normal, plane_point, (count - 1) as nat) + triangle_slack(
            vertices,
            normal,
            plane_point,
            triple_at(indices, count - 1),
        )
    }
}

/// The three pieces of a clipped triangle, over the grown vertex list, have
/// the area of the triangle but for what rounding allows.
proof fn lemma_pieces_nearly(
    before: Seq<Vec2>,
    vertices: Seq<Vec2>,
    normal: Vec2,
    plane_point: Vec2,
    t: (usize, usize, usize),
    c: Clip,
)
    requires
        starts_with(before, vertices),
        before.len() + 2 <= usize::MAX,
        t.0 < vertices.len(),
        t.1 < vertices.len(),
        t.2 < vertices.len(),
        clip_of(vertices, normal, plane_point, t) == Some(c),
    ensures
        ({
            let after = grown(before, vertices, normal, plane_point, c);
            let pieces = tri_area(after, lone_piece(after, c)) + tri_area(
                after,
                pair_piece_1(after, c),
            ) + tri_area(after, pair_piece_2(after, c));
            -clip_slack(vertices, c) <= 2 * (pieces - corner_area(vertices, t)) <= clip_slack(
                vertices,
                c,
            )
        }),
{
    let after = grown(before, vertices, normal, plane_point, c);
    let m = vertices[c.lone as int];
    let b0 = vertices[c.first as int];
    let b1 = vertices[c.second as int];
    let pa = intersection(normal, plane_point, m, b0);
    let pb = intersection(normal, plane_point, m, b1);
    let n = before.len() as int;
    assert(after.len() == n + 2);
    assert(after[n] == pa && after[n + 1] == pb);
    assert(after[c.lone as int] == m) by {
        assert(before[c.lone as int] == vertices[c.lone as int]);
    }
    assert(after[c.first as int] == b0) by {
        assert(before[c.first as int] == vertices[c.first as int]);
    }
    assert(after[c.second as int] == b1) by {
        assert(before[c.second as int] == vertices[c.second as int]);
    }
    let a: [usize; 3] = [c.lone, (after.len() - 2) as usize, (after.len() - 1) as usize];
    let b: [usize; 3] = [c.first, (after.len() - 1) as usize, (after.len() - 2) as usize];
    let d: [usize; 3] = [c.second, (after.len() - 1) as usize, c.first];
    lemma_wound_area(after, a);
    lemma_wound_area(after, b);
    lemma_wound_area(after, d);
    assert(tri_area(after, a) == abs(cross(m, pa, pb)));
    assert(tri_area(after, b) == abs(cross(b0, pb, pa)));
    assert(tri_area(after, d) == abs(cross(b1, pb, b0)));
    lemma_clip_nearly_conserves(normal, plane_point, m, b0, b1);
    lemma_cross_orders(
        vertices[t.0 as int],
        vertices[t.1 as int],
        vertices[t.2 as int],
    );
}

/// Sorting one more triangle adds the area of the triangle to the area of
/// the sides, but for what rounding allows.
proof fn lemma_sorted_one_nearly(
    prev: RawSplit,
    vertices: Seq<Vec2>,
    normal: Vec2,
    plane_point: Vec2,
    t: (usize, usize, usize),
)
    requires
        raw_in_bounds(prev, vertices),
        starts_with(prev.vertices, vertices),
        prev.vertices.len() + 2 <= usize::MAX,
        t.0 < vertices.len(),
        t.1 < vertices.len(),
        t.2 < vertices.len(),
    ensures
        ({
            let next = sorted_one(prev, vertices, normal, plane_point, t);
            let slack = triangle_slack(vertices, normal, plane_point, t);
            -slack <= 2 * (raw_area(next) - raw_area(prev) - corner_area(vertices, t)) <= slack
        }),
{
    let next = sorted_one(prev, vertices, normal, plane_point, t);
    match clip_of(vertices, normal, plane_point, t) {
        None => {
            let whole: [usize; 3] = [t.0, t.1, t.2];
            assert(whole[0] == t.0 && whole[1] == t.1 && whole[2] == t.2);
            assert(prev.vertices[t.0 as int] == vertices[t.0 as int]);
            assert(prev.vertices[t.1 as int] == vertices[t.1 as int]);
            assert(prev.vertices[t.2 as int] == vertices[t.2 as int]);
            assert(tri_area(prev.vertices, whole) == corner_area(vertices, t));
            if on_side_a(vertices[t.0 as int], normal, plane_point) {
                lemma_tris_area_push(prev.vertices, prev.side_a, whole);
            } else {
                lemma_tris_area_push(prev.vertices, prev.side_b, whole);
            }
        },
        Some(c) => {
            let after = grown(prev.vertices, vertices, normal, plane_point, c);
            assert(starts_with(after, prev.vertices));
            lemma_tris_area_outlasts(prev.vertices, after, prev.side_a, prev.side_a.len());
            lemma_tris_area_outlasts(prev.vertices, after, prev.side_b, prev.side_b.len());
            lemma_pieces_nearly(prev.vertices, vertices, normal, plane_point, t, c);
            let lone = lone_piece(after, c);
            let near = pair_piece_1(after, c);
            let far = pair_piece_2(after, c);
            if c.lone_on_a {
                lemma_tris_area_push(after, prev.side_a, lone);
                lemma_tris_area_push(after, prev.side_b, near);
                lemma_tris_area_push(after, prev.side_b.push(near), far);
            } else {
                lemma_tris_area_push(after, prev.side_b, lone);
                lemma_tris_area_push(after, prev.side_a, near);
                lemma_tris_area_push(after, prev.side_a.push(near), far);
            }
        },
    }
}

/// Before cleanup, the two sides of a cut have the area of the triangles
/// that were sorted, but for what rounding allows.
proof fn lemma_raw_split_nearly(
    vertices: Seq<Vec2>,
    indices: Seq<usize>,
    normal: Vec2,
    plane_point: Vec2,
    count: nat,
)
    requires
        all_within(vertices, COORD_LIMIT as int),
        forall|i: int| 0 <= i < indices.len() ==> (#[trigger] indices[i]) < vertices.len(),
        3 * count <= indices.len(),
        vertices.len() + 2 * count <= usize::MAX,
    ensures
        ({
            let raw = raw_split(vertices, indices, normal, plane_point, count);
            let slack = cut_slack(vertices, indices, normal, plane_point, count);
            &&& -slack <= 2 * (raw_area(raw) - area_upto(vertices, indices, count)) <= slack
            &&& starts_with(raw.vertices, vertices)
        }),
    decreases count,
{
    if count > 0 {
        lemma_raw_split_nearly(vertices, indices, normal, plane_point, (count - 1) as nat);
        lemma_raw_split_in_bounds(vertices, indices, normal, plane_point, (count - 1) as nat);
        let prev = raw_split(vertices, indices, normal, plane_point, (count - 1) as nat);
        let t = triple_at(indices, count - 1);
        assert(indices[3 * (count - 1)] < vertices.len());
        assert(indices[3 * (count - 1) + 1] < vertices.len());
        assert(indices[3 * (count - 1) + 2] < vertices.len());
        lemma_sorted_one_nearly(prev, vertices, normal, plane_point, t);
        assert(corner_area(vertices, t) == triangle_area(vertices, indices, count - 1));
    }
}

/// A cut nearly conserves area: where the cleanup of neither side moves a
/// corner of a triangle but with the whole side, the areas of the two sides
/// add up to the area of the mesh but for what the rounding of the crossing
/// points allows, which is a quarter of a square step for each unit of
/// [`cut_slack`]: about half a square step for each step that the clipped
/// edges are long. A side that is absent counts for nothing. (A vertex that
/// is welded to another beside it changes the area by more.)
pub proof fn law_cut_nearly_conserves_area(mesh: MeshView, direction: Vec2, plane_point: Vec2)
    requires
        mesh.wf(),
        cut_welds_exactly(mesh, direction, plane_point),
    ensures
        ({
            let halves = split_sides(mesh, direction, plane_point);
            let slack = cut_slack(
                mesh.vertices,
                mesh.indices,
                direction.spec_perp(),
                plane_point,
                (mesh.indices.len() / 3) as nat,
            );
            -slack <= 2 * (piece_area(halves.0) + piece_area(halves.1) - mesh.area()) <= slack
        }),
{
    let normal = direction.spec_perp();
    let count = (mesh.indices.len() / 3) as nat;
    let raw = raw_split(mesh.vertices, mesh.indices, normal, plane_point, count);
    lemma_raw_split_in_bounds(mesh.vertices, mesh.indices, normal, plane_point, count);
    lemma_raw_split_nearly(mesh.vertices, mesh.indices, normal, plane_point, count);
    lemma_cleaned_area(raw.vertices, raw.side_a);
    lemma_cleaned_area(raw.vertices, raw.side_b);
}

/// The areas of the shards, summed.
pub open spec fn shards_area(shards: Seq<Shard>) -> int
    decreases shards.len(),
{
    if shards.len() == 0 {
        0
    } else {
        shards_area(shards.drop_last()) + shards.last().mesh.area()
    }
}

/// The area of two lists of shards is the sum of their areas.
proof fn lemma_shards_area_of_both(first: Seq<Shard>, second: Seq<Shard>)
    ensures
        shards_area(first + second) == shards_area(first) + shards_area(second),
    decreases second.len(),
{
    if second.len() == 0 {
        assert(first + second == first);
    } else {
        lemma_shards_area_of_both(first, second.drop_last());
        assert((first + second).drop_last() == first + second.drop_last());
        assert((first + second).last() == second.last());
    }
}

/// What the rounding of crossing points can change of the area in the cut
/// that shattering makes of a mesh.
pub open spec fn shatter_cut_slack(mesh: MeshView) -> int {
    cut_slack(
        mesh.vertices,
        mesh.indices,
        longest_span(mesh.vertices).spec_perp().spec_perp(),
        Vec2 { x: 0, y: 0 },
        (mesh.indices.len() / 3) as nat,
    )
}

/// What the rounding of crossing points can change of the area in all the
/// cuts that shattering makes of a mesh and of what comes of it, in quarter
/// square steps.
pub open spec fn shatter_slack(mesh: MeshView, depth: nat, max_shard_area: int) -> int
    decreases SHATTER_MAX_RECURSION_DEPTH + 1 - depth,
{
    if is_final(mesh, depth, max_shard_area) {
        0
    } else {
        let halves = shatter_cut(mesh);
        shatter_cut_slack(mesh) + (match halves.0 {
            Some((half, half_offset)) => shatter_slack(half, depth + 1, max_shard_area),
            None => 0,
        }) + (match halves.1 {
            Some((half, half_offset)) => shatter_slack(half, depth + 1, max_shard_area),
            None => 0,
        })
    }
}

/// Shattering nearly conserves area: where no cut moves a corner of a
/// triangle but with its whole side, the areas of the fragments add up to
/// the area of the mesh but for what the rounding of the crossing points of
/// all cuts allows.
pub proof fn law_shatter_nearly_conserves_area(
    mesh: MeshView,
    offset: Vec2,
    depth: nat,
    max_shard_area: int,
)
    requires
        mesh.wf(),
        shatter_welds_exactly(mesh, depth, max_shard_area),
    ensures
        -shatter_slack(mesh, depth, max_shard_area) <= 2 * (shards_area(
            shatter_tree(mesh, offset, depth, max_shard_area),
        ) - mesh.area()) <= shatter_slack(mesh, depth, max_shard_area),
    decreases SHATTER_MAX_RECURSION_DEPTH + 1 - depth,
{
    if is_final(mesh, depth, max_shard_area) {
        let only = Shard { mesh, offset, depth };
        assert(shatter_tree(mesh, offset, depth, max_shard_area) == seq![only]);
        assert(seq![only].drop_last() == Seq::<Shard>::empty());
        assert(shards_area(seq![only]) == shards_area(Seq::<Shard>::empty()) + mesh.area());
    } else {
        let direction = longest_span(mesh.vertices).spec_perp();
        let origin = Vec2 { x: 0, y: 0 };
        let halves = shatter_cut(mesh);
        law_cut_nearly_conserves_area(mesh, direction, origin);
        lemma_split_sides_wf(mesh, direction, origin);
        let of_b: Seq<Shard> = match halves.1 {
            Some((half, half_offset)) => {
                law_shatter_nearly_conserves_area(
                    half,
                    sum(offset, half_offset),
                    depth + 1,
                    max_shard_area,
                );
                shatter_tree(half, sum(offset, half_offset), depth + 1, max_shard_area)
            },
            None => Seq::empty(),
        };
        let of_a: Seq<Shard> = match halves.0 {
            Some((half, half_offset)) => {
                law_shatter_nearly_conserves_area(
                    half,
                    sum(offset, half_offset),
                    depth + 1,
                    max_shard_area,
                );
                shatter_tree(half, sum(offset, half_offset), depth + 1, max_shard_area)
            },
            None => Seq::empty(),
        };
        assert(shatter_tree(mesh, offset, depth, max_shard_area) == of_b + of_a);
        lemma_shards_area_of_both(of_b, of_a);
    }
}

/// The areas of the pieces, summed.
pub open spec fn pieces_area(pieces: Seq<(MeshView, Vec2)>) -> int
    decreases pieces.len(),
{
    if pieces.len() == 0 {
        0
    } else {
        pieces_area(pieces.drop_last()) + pieces.last().0.area()
    }
}

/// What the rounding of crossing points can change of the area in the cut
/// that trimming makes of a mesh at a candidate; nothing where the cut
/// leaves no side A, and so changes nothing.
pub open spec fn trim_cut_slack(mesh: MeshView, vertex: Vec2) -> int {
    if trim_cut(mesh, vertex).0 is Some {
        cut_slack(
            mesh.vertices,
            mesh.indices,
            vertex.spec_perp().spec_perp(),
            chord_point(vertex, trim_radius(mesh.area())),
            (mesh.indices.len() / 3) as nat,
        )
    } else {
        0
    }
}

/// What the rounding of crossing points can change of the area in the cuts
/// that trimming makes at the first `count` candidates, in quarter square
/// steps.
pub open spec fn trim_slack(mesh: MeshView, candidates: Seq<Vec2>, count: nat) -> int
    decreases count,
{
    if count == 0 {
        0
    } else {
        trim_slack(mesh, candidates, (count - 1) as nat) + trim_cut_slack(
            trimmed(mesh, candidates, (count - 1) as nat).main,
            candidates[count - 1],
        )
    }
}

/// Trimming nearly conserves area: where no cut moves a corner of a
/// triangle but with its whole side, the areas of what is left of the mesh
/// and of the shards add up to the area of the mesh but for what the
/// rounding of the crossing points of all cuts allows.
pub proof fn law_trim_nearly_conserves_area(mesh: MeshView, candidates: Seq<Vec2>, count: nat)
    requires
        mesh.wf(),
        count <= candidates.len(),
        trim_welds_exactly(mesh, candidates, count),
    ensures
        trimmed(mesh, candidates, count).main.wf(),
        -trim_slack(mesh, candidates, count) <= 2 * (trimmed(mesh, candidates, count).main.area()
            + pieces_area(trimmed(mesh, candidates, count).shards) - mesh.area()) <= trim_slack(
            mesh,
            candidates,
            count,
        ),
    decreases count,
{
    if count == 0 {
        assert(pieces_area(Seq::<(MeshView, Vec2)>::empty()) == 0);
    } else {
        law_trim_nearly_conserves_area(mesh, candidates, (count - 1) as nat);
        let state = trimmed(mesh, candidates, (count - 1) as nat);
        let vertex = candidates[count - 1];
        let direction = vertex.spec_perp();
        let point = chord_point(vertex, trim_radius(state.main.area()));
        let halves = trim_cut(state.main, vertex);
        let next = trimmed_once(state, vertex);
        assert(next == trimmed(mesh, candidates, count));
        law_cut_nearly_conserves_area(state.main, direction, point);
        lemma_split_sides_wf(state.main, direction, point);
        match halves.0 {
            Some((mesh_a, offset_a)) => {
                match halves.1 {
                    Some((mesh_b, offset_b)) => {
                        let shard = (mesh_b, sum(state.offset, offset_b));
                        assert(next.shards == state.shards.push(shard));
                        assert(next.shards.drop_last() == state.shards);
                        assert(next.shards.last() == shard);
                    },
                    None => {},
                }
            },
            None => {},
        }
    }
}

} // verus!
