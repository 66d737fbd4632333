pub mod poisson_disk;

pub use crate::errors::MeshRandError;
use vstd::prelude::*;

verus! {

/// The first corner of `face` that is not a vertex index, if any.
pub open spec fn first_bad_corner(face: [usize; 3], n: int) -> Option<usize> {
    if face[0] >= n {
        Some(face[0])
    } else if face[1] >= n {
        Some(face[1])
    } else if face[2] >= n {
        Some(face[2])
    } else {
        None
    }
}

/// The three vertices of the face `face` (number `face_index`), or the first corner out of range.
pub fn vert_ids_to_pos<V: Copy>(face_index: usize, face: &[usize; 3], verts: &[V]) -> (r: Result<[V; 3], MeshRandError>)
    ensures
        match first_bad_corner(*face, verts@.len() as int) {
            None => r == Ok::<[V; 3], MeshRandError>([verts@[face[0] as int], verts@[face[1] as int], verts@[face[2] as int]]),
            Some(i) => r == Err::<[V; 3], MeshRandError>(MeshRandError::IndexOutOfRange { face: face_index, index: i }),
        },
{
    let n = verts.len();
    if face[0] >= n {
        return Err(MeshRandError::IndexOutOfRange { face: face_index, index: face[0] });
    }
    if face[1] >= n {
        return Err(MeshRandError::IndexOutOfRange { face: face_index, index: face[1] });
    }
    if face[2] >= n {
        return Err(MeshRandError::IndexOutOfRange { face: face_index, index: face[2] });
    }
    Ok([verts[face[0]], verts[face[1]], verts[face[2]]])
}

} // verus!
