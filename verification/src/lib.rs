//! Procedural geometry for triangulated meshes.
//!
//! The heart of the crate is a geodesic icosphere generator: starting from a
//! regular icosahedron, every edge and face is subdivided recursively, with
//! each of the 30 original edges shared by its two adjacent faces so that no
//! subdivision vertex is ever computed twice.  All of the combinatorial
//! bookkeeping (buffer layout, edge sharing, triangle indices, vertex counts)
//! is computed and proved here; the resulting plan is evaluated over any
//! scalar kernel by the caller.

pub mod color;
pub mod icosphere;
pub mod laws;
pub mod mesh;
pub mod plan;
pub mod shapes;
