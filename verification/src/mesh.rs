//! The mesh type and its mathematical view.

use vstd::prelude::*;
use crate::vec2::{all_within, Vec2, COORD_LIMIT};

verus! {

/// A triangulated polygon: lattice points, and triangles given as a flat list
/// of indices into the points, three to a triangle.
#[derive(Debug)]
pub struct Mesh {
    pub vertices: Vec<Vec2>,
    pub indices: Vec<usize>,
}

/// What a mesh holds, as sequences.
pub struct MeshView {
    pub vertices: Seq<Vec2>,
    pub indices: Seq<usize>,
}

impl View for Mesh {
    type V = MeshView;

    open spec fn view(&self) -> MeshView {
        MeshView { vertices: self.vertices@, indices: self.indices@ }
    }
}

impl MeshView {
    /// The indices come in triples and each names a vertex; the vertices lie
    /// within the coordinate limit.
    pub open spec fn wf(self) -> bool {
        &&& self.indices.len() % 3 == 0
        &&& forall|i: int| 0 <= i < self.indices.len() ==> (#[trigger] self.indices[i]) < self.vertices.len()
        &&& all_within(self.vertices, COORD_LIMIT as int)
    }

    /// A mesh is valid when it has a vertex, has an index, its indices come in
    /// triples, and they do not all name one vertex.
    pub open spec fn valid(self) -> bool {
        &&& self.vertices.len() > 0
        &&& self.indices.len() > 0
        &&& self.indices.len() % 3 == 0
        &&& exists|i: int| 0 <= i < self.indices.len() && #[trigger] self.indices[i] != self.indices[0]
    }
}

impl Mesh {
    pub fn new(vertices: Vec<Vec2>, indices: Vec<usize>) -> (r: Mesh)
        ensures
            r.vertices == vertices,
            r.indices == indices,
    {
        Mesh { vertices, indices }
    }

    /// See [`MeshView::wf`].
    pub open spec fn wf(&self) -> bool {
        self@.wf()
    }

    /// Whether the mesh is well formed: the test to make before handing a
    /// mesh to a function that requires `wf`.
    pub fn is_well_formed(&self) -> (r: bool)
        ensures
            r == self.wf(),
    {
        if self.indices.len() % 3 != 0 {
            return false;
        }
        let mut i: usize = 0;
        while i < self.indices.len()
            invariant
                i <= self.indices.len(),
                forall|j: int| 0 <= j < i ==> (#[trigger] self.indices@[j]) < self.vertices@.len(),
            decreases self.indices.len() - i,
        {
            if self.indices[i] >= self.vertices.len() {
                return false;
            }
            i += 1;
        }
        let mut k: usize = 0;
        while k < self.vertices.len()
            invariant
                k <= self.vertices.len(),
                forall|j: int| 0 <= j < k ==> (#[trigger] self.vertices@[j]).within(COORD_LIMIT as int),
            decreases self.vertices.len() - k,
        {
            if !self.vertices[k].is_within(COORD_LIMIT) {
                return false;
            }
            k += 1;
        }
        true
    }

    /// A copy of the mesh that shares nothing with it.
    pub fn duplicate(&self) -> (r: Mesh)
        ensures
            r@ == self@,
    {
        let mut vertices: Vec<Vec2> = Vec::new();
        let mut i: usize = 0;
        while i < self.vertices.len()
            invariant
                i <= self.vertices.len(),
                vertices@ == self.vertices@.take(i as int),
            decreases self.vertices.len() - i,
        {
            vertices.push(self.vertices[i]);
            i += 1;
        }
        let mut indices: Vec<usize> = Vec::new();
        let mut k: usize = 0;
        while k < self.indices.len()
            invariant
                k <= self.indices.len(),
                indices@ == self.indices@.take(k as int),
            decreases self.indices.len() - k,
        {
            indices.push(self.indices[k]);
            k += 1;
        }
        assert(vertices@ == self.vertices@);
        assert(indices@ == self.indices@);
        Mesh { vertices, indices }
    }
}

impl Clone for Mesh {
    fn clone(&self) -> (r: Mesh)
        ensures
            r@ == self@,
    {
        self.duplicate()
    }
}

} // verus!
