//! Faces of an indexed mesh: every three entries of the index list name the
//! three corners of one triangle.

use vstd::prelude::*;

verus! {

/// The index list names whole triangles, and each entry names a vertex.
pub open spec fn indices_fit(indices: Seq<u16>, vertex_count: nat) -> bool {
    &&& indices.len() % 3 == 0
    &&& forall|i: int| 0 <= i < indices.len() ==> (#[trigger] indices[i]) < vertex_count
}

/// The corners of face `k`.
pub open spec fn face<V>(vertices: Seq<V>, indices: Seq<u16>, k: int) -> (V, V, V) {
    (
        vertices[indices[3 * k] as int],
        vertices[indices[3 * k + 1] as int],
        vertices[indices[3 * k + 2] as int],
    )
}

/// Tests whether an index list fits a vertex list of the given length.
pub fn check_indices(indices: &Vec<u16>, vertex_count: usize) -> (fit: bool)
    ensures
        fit == indices_fit(indices@, vertex_count as nat),
{
    if indices.len() % 3 != 0 {
        return false;
    }
    let mut i: usize = 0;
    while i < indices.len()
        invariant
            i <= indices.len(),
            forall|j: int| 0 <= j < i ==> (#[trigger] indices@[j]) < vertex_count,
        decreases indices.len() - i,
    {
        if indices[i] as usize >= vertex_count {
            return false;
        }
        i += 1;
    }
    true
}

/// Looks up the corners of every face, in the order of the index list.
pub fn gather_faces<V: Copy>(vertices: &Vec<V>, indices: &Vec<u16>) -> (faces: Vec<(V, V, V)>)
    requires
        indices_fit(indices@, vertices@.len()),
    ensures
        faces@.len() == indices@.len() / 3,
        forall|k: int| 0 <= k < faces@.len() ==> #[trigger] faces@[k] == face(vertices@, indices@, k),
{
    let mut faces: Vec<(V, V, V)> = Vec::new();
    let mut i: usize = 0;
    while i < indices.len()
        invariant
            indices_fit(indices@, vertices@.len()),
            i <= indices.len(),
            i % 3 == 0,
            faces@.len() == i / 3,
            forall|k: int|
                0 <= k < faces@.len() ==> #[trigger] faces@[k] == face(vertices@, indices@, k),
        decreases indices.len() - i,
    {
        let a: usize = indices[i] as usize;
        let b: usize = indices[i + 1] as usize;
        let c: usize = indices[i + 2] as usize;
        faces.push((vertices[a], vertices[b], vertices[c]));
        i += 3;
    }
    faces
}

} // verus!
