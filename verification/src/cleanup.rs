//! Mesh cleanup: dropping vertices that no triangle uses, welding vertices
//! that nearly coincide, and moving a mesh so that the centre of its bounding
//! box is the origin.

use vstd::prelude::*;
use crate::mesh::Mesh;
use crate::vec2::{abs, all_within, Vec2, COORD_LIMIT, MERGE_TOLERANCE};

verus! {

/// `v` is a corner of the triangle.
pub open spec fn has_corner(t: [usize; 3], v: int) -> bool {
    t[0] == v || t[1] == v || t[2] == v
}

/// `v` is a corner of some triangle.
pub open spec fn is_used(triangles: Seq<[usize; 3]>, v: int) -> bool {
    exists|k: int| 0 <= k < triangles.len() && #[trigger] has_corner(triangles[k], v)
}

/// Every corner of every triangle is below `bound`.
pub open spec fn corners_below(triangles: Seq<[usize; 3]>, bound: int) -> bool {
    forall|k: int|
        0 <= k < triangles.len() ==> {
            &&& (#[trigger] triangles[k])[0] < bound
            &&& triangles[k][1] < bound
            &&& triangles[k][2] < bound
        }
}

/// The number of used vertices among the first `i`: the index that vertex `i`
/// has once the unused ones are gone.
pub open spec fn rank(triangles: Seq<[usize; 3]>, i: nat) -> nat
    decreases i,
{
    if i == 0 {
        0
    } else {
        rank(triangles, (i - 1) as nat) + if is_used(triangles, i - 1) {
            1nat
        } else {
            0nat
        }
    }
}

/// The used vertices among the first `n`, in their order.
pub open spec fn used_vertices(vertices: Seq<Vec2>, triangles: Seq<[usize; 3]>, n: nat) -> Seq<Vec2>
    decreases n,
{
    if n == 0 {
        Seq::empty()
    } else {
        let before = used_vertices(vertices, triangles, (n - 1) as nat);
        if is_used(triangles, n - 1) {
            before.push(vertices[n - 1])
        } else {
            before
        }
    }
}

/// The triangles with each corner replaced by its rank.
pub open spec fn renumbered(triangles: Seq<[usize; 3]>) -> Seq<[usize; 3]> {
    Seq::new(
        triangles.len(),
        |k: int|
            [
                rank(triangles, triangles[k][0] as nat) as usize,
                rank(triangles, triangles[k][1] as nat) as usize,
                rank(triangles, triangles[k][2] as nat) as usize,
            ],
    )
}

/// There are as many used vertices among the first `n` as the rank of `n`
/// says.
pub proof fn lemma_rank_is_length(vertices: Seq<Vec2>, triangles: Seq<[usize; 3]>, n: nat)
    ensures
        used_vertices(vertices, triangles, n).len() == rank(triangles, n),
    decreases n,
{
    if n > 0 {
        lemma_rank_is_length(vertices, triangles, (n - 1) as nat);
    }
}

/// The rank does not fall, and rises past a used vertex.
pub proof fn lemma_rank_monotone(triangles: Seq<[usize; 3]>, i: nat, n: nat)
    requires
        i <= n,
    ensures
        rank(triangles, i) <= rank(triangles, n),
        i < n && is_used(triangles, i as int) ==> rank(triangles, i) < rank(triangles, n),
    decreases n,
{
    if i < n {
        lemma_rank_monotone(triangles, i, (n - 1) as nat);
    }
}

/// A used vertex is kept, at its rank.
pub proof fn lemma_used_vertex_kept(vertices: Seq<Vec2>, triangles: Seq<[usize; 3]>, i: nat, n: nat)
    requires
        i < n,
        is_used(triangles, i as int),
    ensures
        rank(triangles, i) < used_vertices(vertices, triangles, n).len(),
        used_vertices(vertices, triangles, n)[rank(triangles, i) as int] == vertices[i as int],
    decreases n,
{
    lemma_rank_is_length(vertices, triangles, (n - 1) as nat);
    lemma_rank_is_length(vertices, triangles, n);
    if i < n - 1 {
        lemma_used_vertex_kept(vertices, triangles, i, (n - 1) as nat);
    }
}

/// Every index below the rank of `n` is the rank of a used vertex below `n`.
pub proof fn lemma_rank_onto(triangles: Seq<[usize; 3]>, n: nat, v: nat) -> (i: nat)
    requires
        v < rank(triangles, n),
    ensures
        i < n,
        is_used(triangles, i as int),
        rank(triangles, i) == v,
    decreases n,
{
    if v < rank(triangles, (n - 1) as nat) {
        lemma_rank_onto(triangles, (n - 1) as nat, v)
    } else {
        (n - 1) as nat
    }
}

/// The used vertices lie within a limit that all vertices lie within.
pub proof fn lemma_used_within(
    vertices: Seq<Vec2>,
    triangles: Seq<[usize; 3]>,
    n: nat,
    limit: int,
)
    requires
        all_within(vertices, limit),
        n <= vertices.len(),
    ensures
        all_within(used_vertices(vertices, triangles, n), limit),
    decreases n,
{
    if n > 0 {
        lemma_used_within(vertices, triangles, (n - 1) as nat, limit);
    }
}

/// After renumbering, every corner names a used vertex.
pub proof fn lemma_renumbered_below(triangles: Seq<[usize; 3]>, n: nat)
    requires
        corners_below(triangles, n as int),
        n <= usize::MAX,
    ensures
        corners_below(renumbered(triangles), rank(triangles, n) as int),
        forall|k: int|
            0 <= k < triangles.len() ==> {
                &&& (#[trigger] renumbered(triangles)[k])[0] == rank(triangles, triangles[k][0] as nat)
                &&& renumbered(triangles)[k][1] == rank(triangles, triangles[k][1] as nat)
                &&& renumbered(triangles)[k][2] == rank(triangles, triangles[k][2] as nat)
            },
{
    assert forall|k: int| 0 <= k < triangles.len() implies {
        &&& (#[trigger] renumbered(triangles)[k])[0] == rank(triangles, triangles[k][0] as nat)
        &&& renumbered(triangles)[k][1] == rank(triangles, triangles[k][1] as nat)
        &&& renumbered(triangles)[k][2] == rank(triangles, triangles[k][2] as nat)
        &&& renumbered(triangles)[k][0] < rank(triangles, n)
        &&& renumbered(triangles)[k][1] < rank(triangles, n)
        &&& renumbered(triangles)[k][2] < rank(triangles, n)
    } by {
        assert(has_corner(triangles[k], triangles[k][0] as int));
        assert(has_corner(triangles[k], triangles[k][1] as int));
        assert(has_corner(triangles[k], triangles[k][2] as int));
        lemma_rank_monotone(triangles, triangles[k][0] as nat, n);
        lemma_rank_monotone(triangles, triangles[k][1] as nat, n);
        lemma_rank_monotone(triangles, triangles[k][2] as nat, n);
        lemma_rank_bound(triangles, n);
    }
}

/// The rank of `n` is at most `n`.
pub proof fn lemma_rank_bound(triangles: Seq<[usize; 3]>, n: nat)
    ensures
        rank(triangles, n) <= n,
    decreases n,
{
    if n > 0 {
        lemma_rank_bound(triangles, (n - 1) as nat);
    }
}

/// After renumbering, every vertex that is kept is a corner of a triangle.
pub proof fn lemma_no_orphans(triangles: Seq<[usize; 3]>, n: nat, v: int)
    requires
        corners_below(triangles, n as int),
        n <= usize::MAX,
        0 <= v < rank(triangles, n),
    ensures
        is_used(renumbered(triangles), v),
{
    lemma_renumbered_below(triangles, n);
    let i = lemma_rank_onto(triangles, n, v as nat);
    let w = choose|w: int| 0 <= w < triangles.len() && #[trigger] has_corner(triangles[w], i as int);
    assert(has_corner(renumbered(triangles)[w], v));
}

/// Drops the vertices that no triangle uses and renumbers the corners of the
/// triangles. Afterwards every vertex is a corner of some triangle.
pub fn remove_unused_vertices(vertices: &mut Vec<Vec2>, indices: &mut Vec<[usize; 3]>)
    requires
        corners_below(old(indices)@, old(vertices)@.len() as int),
    ensures
        final(vertices)@ == used_vertices(old(vertices)@, old(indices)@, old(vertices)@.len()),
        final(indices)@ == renumbered(old(indices)@),
        corners_below(final(indices)@, final(vertices)@.len() as int),
        forall|v: int| 0 <= v < final(vertices)@.len() ==> is_used(final(indices)@, v),
{
    let n: usize = vertices.len();
    let ghost vs = vertices@;
    let ghost ts = indices@;
    let mut used: Vec<bool> = Vec::new();
    let mut i: usize = 0;
    while i < n
        invariant
            i <= n,
            used@.len() == i,
            forall|j: int| 0 <= j < i ==> !(#[trigger] used@[j]),
        decreases n - i,
    {
        used.push(false);
        i += 1;
    }
    let mut k: usize = 0;
    while k < indices.len()
        invariant
            k <= indices@.len(),
            indices@ == ts,
            used@.len() == n,
            corners_below(ts, n as int),
            forall|j: int|
                0 <= j < n ==> (#[trigger] used@[j] <==> is_used(ts.take(k as int), j)),
        decreases indices@.len() - k,
    {
        let t: [usize; 3] = indices[k];
        let ghost before = used@;
        used[t[0]] = true;
        used[t[1]] = true;
        used[t[2]] = true;
        proof {
            let prev = ts.take(k as int);
            let next = ts.take(k + 1);
            assert forall|j: int| 0 <= j < n implies (#[trigger] used@[j] <==> is_used(next, j)) by {
                if is_used(next, j) {
                    let w = choose|w: int| 0 <= w < next.len() && #[trigger] has_corner(next[w], j);
                    if w < k {
                        assert(has_corner(prev[w], j));
                    }
                }
                if before[j] {
                    let w = choose|w: int| 0 <= w < prev.len() && #[trigger] has_corner(prev[w], j);
                    assert(has_corner(next[w], j));
                }
                if has_corner(t, j) {
                    assert(has_corner(next[k as int], j));
                }
            }
        }
        k += 1;
    }
    assert(ts.take(k as int) == ts);
    let mut old_to_new: Vec<usize> = Vec::new();
    let mut kept: Vec<Vec2> = Vec::new();
    let mut old_index: usize = 0;
    while old_index < n
        invariant
            old_index <= n,
            n == vs.len(),
            vertices@ == vs,
            used@.len() == n,
            forall|j: int| 0 <= j < n ==> (#[trigger] used@[j] <==> is_used(ts, j)),
            old_to_new@.len() == old_index,
            forall|j: int| 0 <= j < old_index ==> #[trigger] old_to_new@[j] == rank(ts, j as nat),
            kept@ == used_vertices(vs, ts, old_index as nat),
            kept@.len() == rank(ts, old_index as nat),
            kept@.len() <= old_index,
        decreases n - old_index,
    {
        old_to_new.push(kept.len());
        if used[old_index] {
            kept.push(vertices[old_index]);
        }
        old_index += 1;
    }
    let mut renamed: Vec<[usize; 3]> = Vec::new();
    let mut m: usize = 0;
    while m < indices.len()
        invariant
            m <= indices@.len(),
            indices@ == ts,
            n == vs.len(),
            corners_below(ts, n as int),
            old_to_new@.len() == n,
            forall|j: int| 0 <= j < n ==> #[trigger] old_to_new@[j] == rank(ts, j as nat),
            renamed@.len() == m,
            forall|j: int| 0 <= j < m ==> #[trigger] renamed@[j] == renumbered(ts)[j],
        decreases indices@.len() - m,
    {
        let t: [usize; 3] = indices[m];
        let r: [usize; 3] = [old_to_new[t[0]], old_to_new[t[1]], old_to_new[t[2]]];
        assert(r =~= renumbered(ts)[m as int]);
        renamed.push(r);
        m += 1;
    }
    assert(renamed@ =~= renumbered(ts));
    proof {
        lemma_renumbered_below(ts, n as nat);
        assert forall|v: int| 0 <= v < kept@.len() implies is_used(renamed@, v) by {
            lemma_no_orphans(ts, n as nat, v);
        }
    }
    *vertices = kept;
    *indices = renamed;
}

/// Two vertices are close when they lie within the merge tolerance of each
/// other on both axes.
pub open spec fn close(a: Vec2, b: Vec2) -> bool {
    abs(a.x - b.x) <= MERGE_TOLERANCE && abs(a.y - b.y) <= MERGE_TOLERANCE
}

/// `j` is the index of the first vertex of `kept` that is close to `v`, or
/// the length of `kept` if none is.
pub open spec fn is_first_close(kept: Seq<Vec2>, v: Vec2, j: int) -> bool {
    &&& 0 <= j <= kept.len()
    &&& j < kept.len() ==> close(kept[j], v)
    &&& forall|i: int| 0 <= i < j ==> !close(#[trigger] kept[i], v)
}

/// The index of the first vertex of `kept` that is close to `v`, or the
/// length of `kept` if none is.
pub open spec fn first_close(kept: Seq<Vec2>, v: Vec2) -> int {
    choose|j: int| is_first_close(kept, v, j)
}

/// The first close vertex exists and is unique.
pub proof fn lemma_first_close(kept: Seq<Vec2>, v: Vec2, j: int)
    requires
        is_first_close(kept, v, j),
    ensures
        first_close(kept, v) == j,
{
    let f = first_close(kept, v);
    assert(is_first_close(kept, v, f));
    if f < j {
        assert(!close(kept[f], v));
    } else if j < f {
        assert(!close(kept[j], v));
    }
}

/// What welding keeps of the first `n` vertices: each vertex that is not
/// close to one kept before it.
pub open spec fn welded(vertices: Seq<Vec2>, n: nat) -> Seq<Vec2>
    decreases n,
{
    if n == 0 {
        Seq::empty()
    } else {
        let kept = welded(vertices, (n - 1) as nat);
        if first_close(kept, vertices[n - 1]) < kept.len() {
            kept
        } else {
            kept.push(vertices[n - 1])
        }
    }
}

/// The index that vertex `i` has after welding: that of the first kept vertex
/// close to it, or its own new index where it is kept.
pub open spec fn weld_index(vertices: Seq<Vec2>, i: int) -> int {
    first_close(welded(vertices, i as nat), vertices[i])
}

/// The triangles with each corner replaced by its index after welding.
pub open spec fn rewelded(vertices: Seq<Vec2>, triangles: Seq<[usize; 3]>) -> Seq<[usize; 3]> {
    Seq::new(
        triangles.len(),
        |k: int|
            [
                weld_index(vertices, triangles[k][0] as int) as usize,
                weld_index(vertices, triangles[k][1] as int) as usize,
                weld_index(vertices, triangles[k][2] as int) as usize,
            ],
    )
}

/// The three corners of the triangle are three different vertices.
pub open spec fn proper(t: [usize; 3]) -> bool {
    t[0] != t[1] && t[1] != t[2] && t[0] != t[2]
}

/// The proper triangles among the first `n`, in their order.
pub open spec fn proper_only(triangles: Seq<[usize; 3]>, n: nat) -> Seq<[usize; 3]>
    decreases n,
{
    if n == 0 {
        Seq::empty()
    } else {
        let before = proper_only(triangles, (n - 1) as nat);
        if proper(triangles[n - 1]) {
            before.push(triangles[n - 1])
        } else {
            before
        }
    }
}

/// The kept vertices lie within a limit that all vertices lie within.
pub proof fn lemma_welded_within(vertices: Seq<Vec2>, n: nat, limit: int)
    requires
        all_within(vertices, limit),
        n <= vertices.len(),
    ensures
        all_within(welded(vertices, n), limit),
    decreases n,
{
    if n > 0 {
        lemma_welded_within(vertices, (n - 1) as nat, limit);
    }
}

/// The proper triangles among the first `n` are triangles of the list, and
/// proper.
pub proof fn lemma_proper_only_members(triangles: Seq<[usize; 3]>, n: nat, j: int) -> (k: int)
    requires
        n <= triangles.len(),
        0 <= j < proper_only(triangles, n).len(),
    ensures
        0 <= k < n,
        proper_only(triangles, n)[j] == triangles[k],
        proper(triangles[k]),
    decreases n,
{
    let before = proper_only(triangles, (n - 1) as nat);
    if j < before.len() {
        lemma_proper_only_members(triangles, (n - 1) as nat, j)
    } else {
        n - 1
    }
}

/// After welding, every corner of every triangle names a kept vertex.
pub proof fn lemma_rewelded_below(vertices: Seq<Vec2>, triangles: Seq<[usize; 3]>)
    requires
        corners_below(triangles, vertices.len() as int),
        vertices.len() <= usize::MAX,
    ensures
        corners_below(rewelded(vertices, triangles), welded(vertices, vertices.len()).len() as int),
        corners_below(
            proper_only(rewelded(vertices, triangles), triangles.len()),
            welded(vertices, vertices.len()).len() as int,
        ),
        forall|k: int|
            0 <= k < triangles.len() ==> {
                &&& (#[trigger] rewelded(vertices, triangles)[k])[0] == weld_index(vertices, triangles[k][0] as int)
                &&& rewelded(vertices, triangles)[k][1] == weld_index(vertices, triangles[k][1] as int)
                &&& rewelded(vertices, triangles)[k][2] == weld_index(vertices, triangles[k][2] as int)
            },
{
    let n = vertices.len();
    let moved = rewelded(vertices, triangles);
    lemma_welded_prefix_length(vertices, n);
    assert forall|k: int| 0 <= k < triangles.len() implies {
        &&& (#[trigger] moved[k])[0] == weld_index(vertices, triangles[k][0] as int)
        &&& moved[k][1] == weld_index(vertices, triangles[k][1] as int)
        &&& moved[k][2] == weld_index(vertices, triangles[k][2] as int)
        &&& moved[k][0] < welded(vertices, n).len()
        &&& moved[k][1] < welded(vertices, n).len()
        &&& moved[k][2] < welded(vertices, n).len()
    } by {
        lemma_welded_length(vertices, triangles[k][0] as nat, n);
        lemma_welded_length(vertices, triangles[k][1] as nat, n);
        lemma_welded_length(vertices, triangles[k][2] as nat, n);
    }
    let filtered = proper_only(moved, triangles.len());
    assert forall|j: int| 0 <= j < filtered.len() implies {
        &&& (#[trigger] filtered[j])[0] < welded(vertices, n).len()
        &&& filtered[j][1] < welded(vertices, n).len()
        &&& filtered[j][2] < welded(vertices, n).len()
    } by {
        let k = lemma_proper_only_members(moved, triangles.len(), j);
        assert(filtered[j] == moved[k]);
    }
}

/// The index that welding gives a vertex names a kept vertex, and welding
/// more vertices keeps no fewer.
pub proof fn lemma_welded_length(vertices: Seq<Vec2>, i: nat, n: nat)
    requires
        i < n <= vertices.len(),
    ensures
        0 <= weld_index(vertices, i as int) < welded(vertices, n).len(),
        welded(vertices, i).len() <= welded(vertices, n).len(),
    decreases n,
{
    if i < n - 1 {
        lemma_welded_length(vertices, i, (n - 1) as nat);
    } else {
        let kept = welded(vertices, i);
        lemma_first_close_exists(kept, vertices[i as int]);
    }
}

/// Welding keeps no more vertices than it was given.
pub proof fn lemma_welded_prefix_length(vertices: Seq<Vec2>, n: nat)
    ensures
        welded(vertices, n).len() <= n,
    decreases n,
{
    if n > 0 {
        lemma_welded_prefix_length(vertices, (n - 1) as nat);
    }
}

/// There is a first close vertex, or none.
pub proof fn lemma_first_close_exists(kept: Seq<Vec2>, v: Vec2)
    ensures
        is_first_close(kept, v, first_close(kept, v)),
    decreases kept.len(),
{
    if kept.len() == 0 {
        assert(is_first_close(kept, v, 0));
    } else {
        let shorter = kept.drop_last();
        lemma_first_close_exists(shorter, v);
        let f = first_close(shorter, v);
        assert forall|i: int| 0 <= i < f implies !close(#[trigger] kept[i], v) by {
            assert(shorter[i] == kept[i]);
        }
        if f < shorter.len() {
            assert(shorter[f] == kept[f]);
            assert(is_first_close(kept, v, f));
        } else if close(kept.last(), v) {
            assert(is_first_close(kept, v, kept.len() - 1));
        } else {
            assert(is_first_close(kept, v, kept.len() as int));
        }
    }
}

/// Whether two vertices are close.
fn is_close(a: Vec2, b: Vec2) -> (r: bool)
    ensures
        r == close(a, b),
{
    let dx: i128 = a.x as i128 - b.x as i128;
    let dy: i128 = a.y as i128 - b.y as i128;
    let tolerance: i128 = MERGE_TOLERANCE as i128;
    -tolerance <= dx && dx <= tolerance && -tolerance <= dy && dy <= tolerance
}

/// Welds vertices that are close to one kept before them, renumbers the
/// corners of the triangles, and drops the triangles that are left with fewer
/// than three different corners.
pub fn merge_vertices(vertices: &mut Vec<Vec2>, indices: &mut Vec<[usize; 3]>)
    requires
        corners_below(old(indices)@, old(vertices)@.len() as int),
    ensures
        final(vertices)@ == welded(old(vertices)@, old(vertices)@.len()),
        final(indices)@ == proper_only(
            rewelded(old(vertices)@, old(indices)@),
            old(indices)@.len(),
        ),
        corners_below(final(indices)@, final(vertices)@.len() as int),
{
    let n: usize = vertices.len();
    let ghost vs = vertices@;
    let ghost ts = indices@;
    let mut new_indices: Vec<usize> = Vec::new();
    let mut unique_vertices: Vec<Vec2> = Vec::new();
    let mut index: usize = 0;
    while index < n
        invariant
            index <= n,
            n == vs.len(),
            vertices@ == vs,
            unique_vertices@ == welded(vs, index as nat),
            unique_vertices@.len() <= index,
            new_indices@.len() == index,
            forall|j: int| 0 <= j < index ==> #[trigger] new_indices@[j] == weld_index(vs, j),
        decreases n - index,
    {
        let vertex: Vec2 = vertices[index];
        let mut position: usize = 0;
        while position < unique_vertices.len() && !is_close(unique_vertices[position], vertex)
            invariant
                position <= unique_vertices@.len(),
                forall|i: int| 0 <= i < position ==> !close(#[trigger] unique_vertices@[i], vertex),
            decreases unique_vertices@.len() - position,
        {
            position += 1;
        }
        proof {
            lemma_first_close(unique_vertices@, vertex, position as int);
        }
        new_indices.push(position);
        if position == unique_vertices.len() {
            unique_vertices.push(vertex);
        }
        index += 1;
    }
    let mut filtered_indices: Vec<[usize; 3]> = Vec::new();
    let mut k: usize = 0;
    while k < indices.len()
        invariant
            k <= indices@.len(),
            indices@ == ts,
            n == vs.len(),
            corners_below(ts, n as int),
            unique_vertices@ == welded(vs, n as nat),
            new_indices@.len() == n,
            forall|j: int| 0 <= j < n ==> #[trigger] new_indices@[j] == weld_index(vs, j),
            filtered_indices@ == proper_only(rewelded(vs, ts), k as nat),
            corners_below(filtered_indices@, unique_vertices@.len() as int),
        decreases indices@.len() - k,
    {
        let t: [usize; 3] = indices[k];
        let new_index: [usize; 3] = [new_indices[t[0]], new_indices[t[1]], new_indices[t[2]]];
        assert(new_index =~= rewelded(vs, ts)[k as int]);
        proof {
            lemma_welded_length(vs, t[0] as nat, n as nat);
            lemma_welded_length(vs, t[1] as nat, n as nat);
            lemma_welded_length(vs, t[2] as nat, n as nat);
        }
        let distinct: bool = new_index[0] != new_index[1] && new_index[1] != new_index[2]
            && new_index[0] != new_index[2];
        if distinct {
            filtered_indices.push(new_index);
        }
        k += 1;
    }
    *vertices = unique_vertices;
    *indices = filtered_indices;
}

/// The smallest of the first `n` values of a coordinate; `n` is at least one.
pub open spec fn lowest(values: Seq<int>, n: nat) -> int
    decreases n,
{
    if n <= 1 {
        values[0]
    } else {
        let before = lowest(values, (n - 1) as nat);
        if values[n - 1] < before {
            values[n - 1]
        } else {
            before
        }
    }
}

/// The largest of the first `n` values of a coordinate; `n` is at least one.
pub open spec fn highest(values: Seq<int>, n: nat) -> int
    decreases n,
{
    if n <= 1 {
        values[0]
    } else {
        let before = highest(values, (n - 1) as nat);
        if values[n - 1] > before {
            values[n - 1]
        } else {
            before
        }
    }
}

/// The x coordinates of the vertices.
pub open spec fn xs(vertices: Seq<Vec2>) -> Seq<int> {
    Seq::new(vertices.len(), |i: int| vertices[i].x as int)
}

/// The y coordinates of the vertices.
pub open spec fn ys(vertices: Seq<Vec2>) -> Seq<int> {
    Seq::new(vertices.len(), |i: int| vertices[i].y as int)
}

/// The midpoint of the smallest and the largest value, rounded down; zero for
/// no values.
pub open spec fn mid(values: Seq<int>) -> int {
    if values.len() == 0 {
        0
    } else {
        (lowest(values, values.len()) + highest(values, values.len())) / 2
    }
}

/// The centre of the bounding box of the vertices, each coordinate rounded
/// down to a whole step; the origin for no vertices.
pub open spec fn bbox_center(vertices: Seq<Vec2>) -> Vec2 {
    Vec2 { x: mid(xs(vertices)) as i64, y: mid(ys(vertices)) as i64 }
}

/// The vertices, each moved back by `offset`.
pub open spec fn shifted(vertices: Seq<Vec2>, offset: Vec2) -> Seq<Vec2> {
    Seq::new(
        vertices.len(),
        |i: int| Vec2 { x: (vertices[i].x - offset.x) as i64, y: (vertices[i].y - offset.y) as i64 },
    )
}

/// The smallest and the largest value bound every value, and are values.
pub proof fn lemma_extremes(values: Seq<int>, n: nat)
    requires
        1 <= n <= values.len(),
    ensures
        forall|i: int| 0 <= i < n ==> lowest(values, n) <= #[trigger] values[i] <= highest(values, n),
        exists|i: int| 0 <= i < n && #[trigger] values[i] == lowest(values, n),
        exists|i: int| 0 <= i < n && #[trigger] values[i] == highest(values, n),
    decreases n,
{
    if n > 1 {
        lemma_extremes(values, (n - 1) as nat);
        let lo = choose|i: int| 0 <= i < n - 1 && #[trigger] values[i] == lowest(values, (n - 1) as nat);
        let hi = choose|i: int| 0 <= i < n - 1 && #[trigger] values[i] == highest(values, (n - 1) as nat);
        if values[n - 1] < lowest(values, (n - 1) as nat) {
            assert(values[n - 1] == lowest(values, n));
        } else {
            assert(values[lo] == lowest(values, n));
        }
        if values[n - 1] > highest(values, (n - 1) as nat) {
            assert(values[n - 1] == highest(values, n));
        } else {
            assert(values[hi] == highest(values, n));
        }
    } else {
        assert(values[0] == lowest(values, n));
        assert(values[0] == highest(values, n));
    }
}

/// Half of a sum, rounded down.
fn midpoint(low: i64, high: i64) -> (r: i64)
    requires
        low <= high,
    ensures
        r == (low + high) / 2,
        low <= r <= high,
{
    let sum: i128 = low as i128 + high as i128;
    let half: i128 = if sum >= 0 {
        ((sum as u128) / 2) as i128
    } else {
        let magnitude: u128 = (-sum) as u128;
        -(((magnitude + 1) / 2) as i128)
    };
    half as i64
}

/// The centre of the bounding box of the vertices: see [`bbox_center`].
pub fn vertices_center(vertices: &[Vec2]) -> (center: Vec2)
    ensures
        center == bbox_center(vertices@),
{
    if vertices.len() == 0 {
        return Vec2 { x: 0, y: 0 };
    }
    let first: Vec2 = vertices[0];
    let mut min: Vec2 = first;
    let mut max: Vec2 = first;
    let mut i: usize = 1;
    while i < vertices.len()
        invariant
            1 <= i <= vertices@.len(),
            min.x == lowest(xs(vertices@), i as nat),
            min.y == lowest(ys(vertices@), i as nat),
            max.x == highest(xs(vertices@), i as nat),
            max.y == highest(ys(vertices@), i as nat),
        decreases vertices@.len() - i,
    {
        let vertex: Vec2 = vertices[i];
        if vertex.x < min.x {
            min.x = vertex.x;
        }
        if vertex.y < min.y {
            min.y = vertex.y;
        }
        if vertex.x > max.x {
            max.x = vertex.x;
        }
        if vertex.y > max.y {
            max.y = vertex.y;
        }
        i += 1;
    }
    proof {
        lemma_extremes(xs(vertices@), vertices@.len());
        lemma_extremes(ys(vertices@), vertices@.len());
    }
    Vec2 { x: midpoint(min.x, max.x), y: midpoint(min.y, max.y) }
}

/// The centre of the bounding box lies in the box.
pub proof fn lemma_center_within(vertices: Seq<Vec2>, limit: int)
    requires
        all_within(vertices, limit),
        0 <= limit <= i64::MAX,
    ensures
        bbox_center(vertices).within(limit),
        -limit <= mid(xs(vertices)) <= limit,
        -limit <= mid(ys(vertices)) <= limit,
{
    if vertices.len() > 0 {
        lemma_extremes(xs(vertices), vertices.len());
        lemma_extremes(ys(vertices), vertices.len());
        let lx = choose|i: int| 0 <= i < vertices.len() && #[trigger] xs(vertices)[i] == lowest(xs(vertices), vertices.len());
        let hx = choose|i: int| 0 <= i < vertices.len() && #[trigger] xs(vertices)[i] == highest(xs(vertices), vertices.len());
        let ly = choose|i: int| 0 <= i < vertices.len() && #[trigger] ys(vertices)[i] == lowest(ys(vertices), vertices.len());
        let hy = choose|i: int| 0 <= i < vertices.len() && #[trigger] ys(vertices)[i] == highest(ys(vertices), vertices.len());
        assert(vertices[lx].within(limit));
        assert(vertices[hx].within(limit));
        assert(vertices[ly].within(limit));
        assert(vertices[hy].within(limit));
    }
}

/// Vertices within the coordinate limit stay within it when they are moved
/// back by the centre of their bounding box.
pub proof fn lemma_shifted_within(vertices: Seq<Vec2>)
    requires
        all_within(vertices, COORD_LIMIT as int),
    ensures
        all_within(shifted(vertices, bbox_center(vertices)), COORD_LIMIT as int),
        forall|i: int|
            0 <= i < vertices.len() ==> {
                &&& -COORD_LIMIT <= (#[trigger] vertices[i]).x - bbox_center(vertices).x <= COORD_LIMIT
                &&& -COORD_LIMIT <= vertices[i].y - bbox_center(vertices).y <= COORD_LIMIT
            },
{
    if vertices.len() > 0 {
        lemma_center_within(vertices, COORD_LIMIT as int);
        lemma_extremes(xs(vertices), vertices.len());
        lemma_extremes(ys(vertices), vertices.len());
        let lx = choose|i: int| 0 <= i < vertices.len() && #[trigger] xs(vertices)[i] == lowest(xs(vertices), vertices.len());
        let hx = choose|i: int| 0 <= i < vertices.len() && #[trigger] xs(vertices)[i] == highest(xs(vertices), vertices.len());
        let ly = choose|i: int| 0 <= i < vertices.len() && #[trigger] ys(vertices)[i] == lowest(ys(vertices), vertices.len());
        let hy = choose|i: int| 0 <= i < vertices.len() && #[trigger] ys(vertices)[i] == highest(ys(vertices), vertices.len());
        assert(vertices[lx].within(COORD_LIMIT as int));
        assert(vertices[hx].within(COORD_LIMIT as int));
        assert(vertices[ly].within(COORD_LIMIT as int));
        assert(vertices[hy].within(COORD_LIMIT as int));
        assert forall|i: int| 0 <= i < vertices.len() implies {
            &&& -COORD_LIMIT <= (#[trigger] vertices[i]).x - bbox_center(vertices).x <= COORD_LIMIT
            &&& -COORD_LIMIT <= vertices[i].y - bbox_center(vertices).y <= COORD_LIMIT
        } by {
            assert(xs(vertices)[i] == vertices[i].x);
            assert(ys(vertices)[i] == vertices[i].y);
        }
    }
}

/// Moves the vertices so that the centre of their bounding box comes to lie
/// at the origin, and returns the centre: the offset by which they moved.
pub fn recenter_mesh(vertices: &mut Vec<Vec2>) -> (center: Vec2)
    requires
        all_within(old(vertices)@, COORD_LIMIT as int),
    ensures
        center == bbox_center(old(vertices)@),
        final(vertices)@ == shifted(old(vertices)@, center),
        all_within(final(vertices)@, COORD_LIMIT as int),
        center.within(COORD_LIMIT as int),
{
    let ghost vs = vertices@;
    let center: Vec2 = vertices_center(vertices.as_slice());
    proof {
        lemma_shifted_within(vs);
        lemma_center_within(vs, COORD_LIMIT as int);
    }
    let mut i: usize = 0;
    while i < vertices.len()
        invariant
            i <= vs.len(),
            vertices@.len() == vs.len(),
            center == bbox_center(vs),
            forall|j: int|
                0 <= j < vs.len() ==> {
                    &&& -COORD_LIMIT <= (#[trigger] vs[j]).x - center.x <= COORD_LIMIT
                    &&& -COORD_LIMIT <= vs[j].y - center.y <= COORD_LIMIT
                },
            forall|j: int| 0 <= j < i ==> #[trigger] vertices@[j] == shifted(vs, center)[j],
            forall|j: int| i <= j < vs.len() ==> #[trigger] vertices@[j] == vs[j],
        decreases vs.len() - i,
    {
        let vertex: Vec2 = vertices[i];
        vertices[i] = Vec2 { x: vertex.x - center.x, y: vertex.y - center.y };
        i += 1;
    }
    assert(vertices@ =~= shifted(vs, center));
    center
}

/// A copy of a list of vertices.
pub fn copy_vertices(vertices: &[Vec2]) -> (points: Vec<Vec2>)
    ensures
        points@ == vertices@,
{
    let mut points: Vec<Vec2> = Vec::new();
    let mut i: usize = 0;
    while i < vertices.len()
        invariant
            i <= vertices@.len(),
            points@ == vertices@.take(i as int),
        decreases vertices@.len() - i,
    {
        points.push(vertices[i]);
        i += 1;
    }
    assert(points@ == vertices@);
    points
}

/// The corners of the triangles in one flat list.
#[verifier::opaque]
pub open spec fn flattened(triangles: Seq<[usize; 3]>) -> Seq<usize> {
    Seq::new(3 * triangles.len(), |i: int| triangles[i / 3][i % 3])
}

/// The flat list holds the three corners of each triangle, one triangle
/// after the other.
pub proof fn lemma_flattened_corners(triangles: Seq<[usize; 3]>)
    ensures
        flattened(triangles).len() == 3 * triangles.len(),
        flattened(triangles).len() % 3 == 0,
        flattened(triangles).len() / 3 == triangles.len(),
        forall|k: int|
            0 <= k < triangles.len() ==> {
                &&& flattened(triangles)[3 * k] == (#[trigger] triangles[k])[0]
                &&& flattened(triangles)[3 * k + 1] == triangles[k][1]
                &&& flattened(triangles)[3 * k + 2] == triangles[k][2]
            },
{
    reveal(flattened);
}

/// The flat list holds the three corners of each triangle, and every index
/// in it is below a bound that every corner is below.
pub proof fn lemma_flattened(triangles: Seq<[usize; 3]>, bound: int)
    requires
        corners_below(triangles, bound),
    ensures
        flattened(triangles).len() == 3 * triangles.len(),
        flattened(triangles).len() % 3 == 0,
        flattened(triangles).len() / 3 == triangles.len(),
        forall|i: int| 0 <= i < flattened(triangles).len() ==> (#[trigger] flattened(triangles)[i]) < bound,
        forall|k: int|
            0 <= k < triangles.len() ==> {
                &&& flattened(triangles)[3 * k] == (#[trigger] triangles[k])[0]
                &&& flattened(triangles)[3 * k + 1] == triangles[k][1]
                &&& flattened(triangles)[3 * k + 2] == triangles[k][2]
            },
{
    lemma_flattened_corners(triangles);
    assert forall|i: int| 0 <= i < flattened(triangles).len() implies (#[trigger] flattened(
        triangles,
    )[i]) < bound by {
        let k = i / 3;
        assert(0 <= k < triangles.len());
        assert(triangles[k][0] < bound);
        assert(i == 3 * k || i == 3 * k + 1 || i == 3 * k + 2);
    }
}

/// The mesh of the vertices and the triangles.
pub fn create_mesh_2d(vertices: &[Vec2], indices: &[[usize; 3]]) -> (mesh: Mesh)
    ensures
        mesh@.vertices == vertices@,
        mesh@.indices == flattened(indices@),
{
    let points: Vec<Vec2> = copy_vertices(vertices);
    let mut flat: Vec<usize> = Vec::new();
    let mut k: usize = 0;
    while k < indices.len()
        invariant
            k <= indices@.len(),
            flat@.len() == 3 * k,
            forall|j: int| 0 <= j < 3 * k ==> #[trigger] flat@[j] == indices@[j / 3][j % 3],
        decreases indices@.len() - k,
    {
        let t: [usize; 3] = indices[k];
        flat.push(t[0]);
        flat.push(t[1]);
        flat.push(t[2]);
        k += 1;
    }
    assert(flat@ =~= flattened(indices@)) by {
        reveal(flattened);
    }
    Mesh { vertices: points, indices: flat }
}

} // verus!
