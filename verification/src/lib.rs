//! Cutting triangulated polygons on the integer lattice.
//!
//! A mesh is a list of lattice points and a list of triangles over them. The
//! crate cuts a mesh along a line into two closed meshes, shatters a mesh into
//! fragments of bounded area, and trims corners off a mesh. Every coordinate
//! is a whole number of lattice steps, `STEPS_PER_UNIT` of them to one world
//! unit, so that the side of a line a point lies on, the winding of a triangle
//! and the area of a mesh are computed without rounding. What has to be
//! rounded to the lattice are the points where a cut crosses an edge, the
//! centre of a bounding box, the unit vector along the longest axis, and the
//! radius and the chord point of a trim.
//!
//! Areas are counted in half square steps: the area of a lattice triangle is
//! then a whole number.

pub mod area_bounds;
pub mod area_laws;
pub mod arith;
pub mod cleanup;
pub mod game;
pub mod laws;
pub mod mesh;
pub mod mesh_utils;
pub mod shatter_mesh;
pub mod split_mesh;
pub mod trim_mesh;
pub mod trusted;
pub mod vec2;
