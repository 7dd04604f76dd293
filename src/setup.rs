//! Flattening indexed triangles into a plain list of corners.
use vstd::prelude::*;

use crate::obj::Face;

verus! {

/// Every index of every face is below `n`.
pub open spec fn faces_in_range(faces: Seq<Face>, n: int) -> bool {
    forall|k: int, j: int|
        0 <= k < faces.len() && 0 <= j < 3 ==> (#[trigger] faces[k].vertex_indices[j]) < n
}

/// The corners of the faces, three per face in order: corner `j` of face `k`
/// is vertex `faces[k].vertex_indices[j]`.
pub fn setup_vertex_array<V: Copy>(vertices: &[V], faces: &[Face]) -> (out: Vec<V>)
    requires
        faces_in_range(faces@, vertices@.len() as int),
    ensures
        out.len() == 3 * faces.len(),
        forall|k: int, j: int|
            0 <= k < faces.len() && 0 <= j < 3 ==> out[3 * k + j]
                == vertices@[#[trigger] faces@[k].vertex_indices[j] as int],
{
    let mut out: Vec<V> = Vec::new();
    let mut k: usize = 0;
    while k < faces.len()
        invariant
            0 <= k <= faces.len(),
            faces_in_range(faces@, vertices@.len() as int),
            out.len() == 3 * k,
            forall|k2: int, j: int|
                0 <= k2 < k && 0 <= j < 3 ==> out[3 * k2 + j]
                    == vertices@[#[trigger] faces@[k2].vertex_indices[j] as int],
        decreases faces.len() - k,
    {
        let f = faces[k];
        let a = vertices[f.vertex_indices[0]];
        let b = vertices[f.vertex_indices[1]];
        let c = vertices[f.vertex_indices[2]];
        out.push(a);
        out.push(b);
        out.push(c);
        k += 1;
    }
    out
}

} // verus!
