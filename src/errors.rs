use vstd::prelude::*;

verus! {

/// Why a mesh could not be turned into a sampler.
#[derive(Debug, Clone, PartialEq, Eq)]
pub enum MeshRandError {
    /// A face refers to a vertex index that is not below the vertex count.
    IndexOutOfRange { face: usize, index: usize },
    /// A triangle has no usable area.
    DegenerateTriangle { face: usize },
    /// No triangle is left to sample from.
    EmptyInput,
    /// An edge is shared by more than two faces.
    NonManifoldEdge { face: usize },
}

/// The error of surface construction, under its older name.
pub type MError = MeshRandError;

} // verus!
