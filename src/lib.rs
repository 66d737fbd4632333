//! Topology and bookkeeping for sampling points on the surface of a triangle mesh.
//!
//! `mesh` holds a mesh with the map from each edge to the faces on it, kept exact while edges are
//! split; `surface` resolves face corners to vertices; `surface::poisson_disk` holds the search for
//! conflicting samples over the mesh's adjacency and the state of a Poisson-disk run.
use vstd::prelude::*;

pub mod errors;
pub mod mesh;
pub mod surface;
