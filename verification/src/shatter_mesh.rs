//! Shattering a mesh into fragments of bounded area.

use vstd::prelude::*;
use crate::mesh::{Mesh, MeshView};
use crate::mesh_utils::{calculate_mesh_area, lemma_area_extent, longest_span, mesh_longest_span};
use crate::split_mesh::{piece_view, split_pair, split_sides};
use crate::vec2::{sum, Vec2, COORD_LIMIT};

verus! {

/// A fragment that was cut more often than this is not cut again.
pub const SHATTER_MAX_RECURSION_DEPTH: u32 = 3;

/// A fragment is final when its area does not exceed the bound, or when it
/// was cut more often than the depth ceiling allows.
pub open spec fn is_final(mesh: MeshView, depth: nat, max_shard_area: int) -> bool {
    depth > SHATTER_MAX_RECURSION_DEPTH || mesh.area() <= max_shard_area
}

/// The cut that shattering makes through a fragment: through the origin,
/// across the fragment's longest span, which has the exact direction of its
/// longest axis.
pub open spec fn shatter_cut(mesh: MeshView) -> (Option<(MeshView, Vec2)>, Option<(MeshView, Vec2)>) {
    split_sides(mesh, longest_span(mesh.vertices).spec_perp(), Vec2 { x: 0, y: 0 })
}

/// A fragment with the offset of its centre from the centre of the mesh that
/// was shattered, and the number of cuts that made it.
pub struct Shard {
    pub mesh: MeshView,
    pub offset: Vec2,
    pub depth: nat,
}

/// The fragments that a mesh at `offset`, made by `depth` cuts, is shattered
/// into, in the order in which they are found: a final fragment stays as it
/// is; another is cut in two, and the fragments of its side B come before
/// those of its side A.
pub open spec fn shatter_tree(mesh: MeshView, offset: Vec2, depth: nat, max_shard_area: int) -> Seq<
    Shard,
>
    decreases SHATTER_MAX_RECURSION_DEPTH + 1 - depth,
{
    if is_final(mesh, depth, max_shard_area) {
        seq![Shard { mesh, offset, depth }]
    } else {
        let halves = shatter_cut(mesh);
        let of_b = match halves.1 {
            Some((half, half_offset)) => shatter_tree(
                half,
                sum(offset, half_offset),
                depth + 1,
                max_shard_area,
            ),
            None => Seq::empty(),
        };
        let of_a = match halves.0 {
            Some((half, half_offset)) => shatter_tree(
                half,
                sum(offset, half_offset),
                depth + 1,
                max_shard_area,
            ),
            None => Seq::empty(),
        };
        of_b + of_a
    }
}

/// The meshes and offsets of the shards.
pub open spec fn without_depth(shards: Seq<Shard>) -> Seq<(MeshView, Vec2)> {
    Seq::new(shards.len(), |i: int| (shards[i].mesh, shards[i].offset))
}

/// The fragments with the view of each mesh in place of the mesh.
pub open spec fn pieces_view(pieces: Seq<(Mesh, Vec2)>) -> Seq<(MeshView, Vec2)> {
    Seq::new(pieces.len(), |i: int| (pieces[i].0@, pieces[i].1))
}

/// The fragments that the meshes still waiting on the stack will give, the
/// top of the stack first.
pub open spec fn pending(stack: Seq<(Mesh, Vec2, u32)>, max_shard_area: int) -> Seq<Shard>
    decreases stack.len(),
{
    if stack.len() == 0 {
        Seq::empty()
    } else {
        shatter_tree(
            stack.last().0@,
            stack.last().1,
            stack.last().2 as nat,
            max_shard_area,
        ) + pending(stack.drop_last(), max_shard_area)
    }
}

/// The most cuts that a mesh made by `depth` cuts and what comes of it can
/// still take part in, and one more.
pub open spec fn effort(depth: nat) -> nat
    decreases SHATTER_MAX_RECURSION_DEPTH + 1 - depth,
{
    if depth > SHATTER_MAX_RECURSION_DEPTH {
        1
    } else {
        2 * effort(depth + 1) + 1
    }
}

/// The effort that the whole stack can still take.
pub open spec fn stack_effort(stack: Seq<(Mesh, Vec2, u32)>) -> nat
    decreases stack.len(),
{
    if stack.len() == 0 {
        0
    } else {
        effort(stack.last().2 as nat) + stack_effort(stack.drop_last())
    }
}

/// Every mesh on the stack is well formed, was made by no more cuts than the
/// ceiling and one, and lies no farther from the start than its cuts allow.
pub open spec fn stack_ok(stack: Seq<(Mesh, Vec2, u32)>) -> bool {
    forall|i: int|
        0 <= i < stack.len() ==> {
            &&& (#[trigger] stack[i]).0.wf()
            &&& stack[i].2 <= SHATTER_MAX_RECURSION_DEPTH + 1
            &&& stack[i].1.within(stack[i].2 * COORD_LIMIT)
        }
}

/// The fragments that come of one side of a cut through a mesh at `offset`
/// that `depth` cuts made; none where the side is absent.
pub open spec fn half_tree(
    half: Option<(MeshView, Vec2)>,
    offset: Vec2,
    depth: nat,
    max_shard_area: int,
) -> Seq<Shard> {
    match half {
        Some((mesh, half_offset)) => shatter_tree(
            mesh,
            sum(offset, half_offset),
            depth + 1,
            max_shard_area,
        ),
        None => Seq::empty(),
    }
}

/// Pushing a mesh puts its fragments before the others and adds its effort.
proof fn lemma_push(stack: Seq<(Mesh, Vec2, u32)>, item: (Mesh, Vec2, u32), max_shard_area: int)
    ensures
        pending(stack.push(item), max_shard_area) == shatter_tree(
            item.0@,
            item.1,
            item.2 as nat,
            max_shard_area,
        ) + pending(stack, max_shard_area),
        stack_effort(stack.push(item)) == effort(item.2 as nat) + stack_effort(stack),
{
    assert(stack.push(item).drop_last() == stack);
    assert(stack.push(item).last() == item);
}

/// Taking the top mesh off the stack takes its fragments and its effort
/// away.
proof fn lemma_pop(stack: Seq<(Mesh, Vec2, u32)>, max_shard_area: int)
    requires
        stack.len() > 0,
    ensures
        pending(stack, max_shard_area) == shatter_tree(
            stack.last().0@,
            stack.last().1,
            stack.last().2 as nat,
            max_shard_area,
        ) + pending(stack.drop_last(), max_shard_area),
        stack_effort(stack) == effort(stack.last().2 as nat) + stack_effort(stack.drop_last()),
        effort(stack.last().2 as nat) >= 1,
        stack.last().2 <= SHATTER_MAX_RECURSION_DEPTH ==> effort(stack.last().2 as nat) == 2
            * effort((stack.last().2 + 1) as nat) + 1,
{
}

/// A fragment found is one more piece of the result.
proof fn lemma_found(result: Seq<(Mesh, Vec2)>, found: Seq<Shard>, piece: (Mesh, Vec2), shard: Shard)
    requires
        pieces_view(result) == without_depth(found),
        shard.mesh == piece.0@,
        shard.offset == piece.1,
    ensures
        pieces_view(result.push(piece)) == without_depth(found.push(shard)),
{
    assert(pieces_view(result).len() == result.len());
    assert(without_depth(found).len() == found.len());
    assert forall|i: int| 0 <= i < result.len() + 1 implies #[trigger] pieces_view(
        result.push(piece),
    )[i] == without_depth(found.push(shard))[i] by {
        if i < result.len() {
            assert(pieces_view(result)[i] == without_depth(found)[i]);
        }
    }
    assert(pieces_view(result.push(piece)) =~= without_depth(found.push(shard)));
}

/// Puts one side of a cut on the stack, if it is there.
fn push_half(
    queue: &mut Vec<(Mesh, Vec2, u32)>,
    half: Option<(Mesh, Vec2)>,
    current_offset: Vec2,
    depth: u32,
    Ghost(max_shard_area): Ghost<int>,
)
    requires
        stack_ok(old(queue)@),
        depth <= SHATTER_MAX_RECURSION_DEPTH,
        current_offset.within(depth * COORD_LIMIT),
        half matches Some((piece, offset)) ==> piece.wf() && offset.within(COORD_LIMIT as int),
    ensures
        stack_ok(final(queue)@),
        pending(final(queue)@, max_shard_area) == half_tree(
            piece_view(half),
            current_offset,
            depth as nat,
            max_shard_area,
        ) + pending(old(queue)@, max_shard_area),
        stack_effort(final(queue)@) == stack_effort(old(queue)@) + (if half is Some {
            effort((depth + 1) as nat)
        } else {
            0
        }),
{
    match half {
        Some((half_mesh, half_offset)) => {
            let global_offset: Vec2 = current_offset.plus(half_offset);
            proof {
                lemma_push(queue@, (half_mesh, global_offset, (depth + 1) as u32), max_shard_area);
            }
            queue.push((half_mesh, global_offset, depth + 1));
        },
        None => {
            assert(Seq::<Shard>::empty() + pending(queue@, max_shard_area) == pending(
                queue@,
                max_shard_area,
            ));
        },
    }
}

/// The fragments of a mesh that is not final are those of side B of its cut
/// and then those of side A.
proof fn lemma_tree_of_cut(mesh: MeshView, offset: Vec2, depth: nat, max_shard_area: int)
    requires
        !is_final(mesh, depth, max_shard_area),
    ensures
        shatter_tree(mesh, offset, depth, max_shard_area) == half_tree(
            shatter_cut(mesh).1,
            offset,
            depth,
            max_shard_area,
        ) + half_tree(shatter_cut(mesh).0, offset, depth, max_shard_area),
{
}

/// Cuts a mesh with area across its longest span, through the origin.
fn cut_across(mesh: &Mesh) -> (halves: (Option<(Mesh, Vec2)>, Option<(Mesh, Vec2)>))
    requires
        mesh.wf(),
        mesh@.area() > 0,
    ensures
        piece_view(halves.0) == shatter_cut(mesh@).0,
        piece_view(halves.1) == shatter_cut(mesh@).1,
        halves.0 matches Some((piece, offset)) ==> piece.wf() && offset.within(COORD_LIMIT as int),
        halves.1 matches Some((piece, offset)) ==> piece.wf() && offset.within(COORD_LIMIT as int),
{
    proof {
        lemma_area_extent(mesh@.vertices, mesh@.indices, (mesh@.indices.len() / 3) as nat);
    }
    let longest_span: Vec2 = mesh_longest_span(mesh);
    let direction: Vec2 = longest_span.perp();
    split_pair(mesh, direction, Vec2::zero())
}

/// Cuts a mesh that is not final and puts its sides on the stack.
fn cut_further(
    queue: &mut Vec<(Mesh, Vec2, u32)>,
    current_mesh: Mesh,
    current_offset: Vec2,
    depth: u32,
    Ghost(max_shard_area): Ghost<int>,
)
    requires
        stack_ok(old(queue)@),
        current_mesh.wf(),
        depth <= SHATTER_MAX_RECURSION_DEPTH,
        current_offset.within(depth * COORD_LIMIT),
        max_shard_area >= 0,
        current_mesh@.area() > max_shard_area,
    ensures
        stack_ok(final(queue)@),
        pending(final(queue)@, max_shard_area) == shatter_tree(
            current_mesh@,
            current_offset,
            depth as nat,
            max_shard_area,
        ) + pending(old(queue)@, max_shard_area),
        stack_effort(final(queue)@) <= stack_effort(old(queue)@) + 2 * effort((depth + 1) as nat),
{
    let ghost rest = pending(queue@, max_shard_area);
    let (first, second) = cut_across(&current_mesh);
    let ghost of_a = half_tree(piece_view(first), current_offset, depth as nat, max_shard_area);
    let ghost of_b = half_tree(piece_view(second), current_offset, depth as nat, max_shard_area);
    proof {
        lemma_tree_of_cut(current_mesh@, current_offset, depth as nat, max_shard_area);
    }
    push_half(queue, first, current_offset, depth, Ghost(max_shard_area));
    push_half(queue, second, current_offset, depth, Ghost(max_shard_area));
    proof {
        assert(of_b + (of_a + rest) == (of_b + of_a) + rest);
    }
}

/// Shatters a mesh: cuts it across its longest span, and each piece again,
/// until a piece has an area of at most `max_shard_area` half square steps
/// or was made by more cuts than `SHATTER_MAX_RECURSION_DEPTH`. Each fragment
/// comes with the offset of its centre from the centre of `mesh`.
pub fn shatter_mesh(mesh: &Mesh, max_shard_area: u128) -> (result: Vec<(Mesh, Vec2)>)
    requires
        mesh.wf(),
    ensures
        pieces_view(result@) == without_depth(
            shatter_tree(mesh@, Vec2 { x: 0, y: 0 }, 0, max_shard_area as int),
        ),
        forall|i: int| 0 <= i < result@.len() ==> (#[trigger] result@[i]).0.wf(),
{
    let mut result: Vec<(Mesh, Vec2)> = Vec::new();
    let mut queue: Vec<(Mesh, Vec2, u32)> = Vec::new();
    let ghost goal = shatter_tree(mesh@, Vec2 { x: 0, y: 0 }, 0, max_shard_area as int);
    let ghost mut found: Seq<Shard> = Seq::empty();
    let start: Mesh = mesh.duplicate();
    proof {
        lemma_push(queue@, (start, Vec2 { x: 0, y: 0 }, 0u32), max_shard_area as int);
        assert(pending(queue@, max_shard_area as int) == Seq::<Shard>::empty());
        assert(found + (goal + Seq::<Shard>::empty()) == goal);
    }
    queue.push((start, Vec2::zero(), 0));
    while queue.len() > 0
        invariant
            stack_ok(queue@),
            found + pending(queue@, max_shard_area as int) == goal,
            pieces_view(result@) == without_depth(found),
            forall|i: int| 0 <= i < result@.len() ==> (#[trigger] result@[i]).0.wf(),
        decreases stack_effort(queue@),
    {
        let ghost before = queue@;
        let (current_mesh, current_offset, depth) = queue.pop().unwrap();
        let ghost rest = pending(queue@, max_shard_area as int);
        let ghost here = shatter_tree(current_mesh@, current_offset, depth as nat, max_shard_area as int);
        proof {
            lemma_pop(before, max_shard_area as int);
            assert(queue@ == before.drop_last());
            assert(before[before.len() - 1].0.wf());
            assert(found + (here + rest) == goal);
        }
        if depth > SHATTER_MAX_RECURSION_DEPTH || calculate_mesh_area(&current_mesh) <= max_shard_area {
            proof {
                let shard = Shard { mesh: current_mesh@, offset: current_offset, depth: depth as nat };
                lemma_found(result@, found, (current_mesh, current_offset), shard);
                assert(here == seq![shard]);
                assert(found.push(shard) + rest == found + (here + rest));
                found = found.push(shard);
            }
            result.push((current_mesh, current_offset));
        } else {
            cut_further(
                &mut queue,
                current_mesh,
                current_offset,
                depth,
                Ghost(max_shard_area as int),
            );
        }
    }
    proof {
        assert(pending(queue@, max_shard_area as int) == Seq::<Shard>::empty());
        assert(found + Seq::<Shard>::empty() == found);
    }
    result
}

} // verus!
