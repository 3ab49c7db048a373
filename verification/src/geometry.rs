//! Triangle meshes of tessellated strokes, as uploaded to the GPU.
use vstd::prelude::*;

verus! {

/// A mesh vertex: position and colour (bit patterns).
#[derive(Clone, Copy, Debug, PartialEq, Eq)]
pub struct GpuVertex {
    pub position: [u32; 2],
    pub color: [u32; 4],
}

/// A triangle mesh: vertices and, three by three, the indices of the
/// vertices of each triangle.
#[derive(Clone, Debug, PartialEq, Eq)]
pub struct GpuGeometry {
    pub vertices: Vec<GpuVertex>,
    pub indices: Vec<u32>,
}

/// `indices`, each raised by `offset`.
pub open spec fn offset_indices(indices: Seq<u32>, offset: u32) -> Seq<u32> {
    indices.map_values(|i: u32| (i + offset) as u32)
}

/// Every index names one of the first `vertex_count` vertices.
pub open spec fn indices_in_range(indices: Seq<u32>, vertex_count: int) -> bool {
    forall|k: int| 0 <= k < indices.len() ==> #[trigger] indices[k] < vertex_count
}

/// Appending a mesh whose indices name its own vertices to a mesh whose
/// indices name its own vertices gives a mesh whose indices name its
/// vertices, while the vertex count fits in 32 bits.
pub proof fn lemma_append_keeps_indices_in_range(
    vertices: Seq<GpuVertex>,
    indices: Seq<u32>,
    other_vertices: Seq<GpuVertex>,
    other_indices: Seq<u32>,
)
    requires
        vertices.len() + other_vertices.len() <= u32::MAX + 1,
        indices_in_range(indices, vertices.len() as int),
        indices_in_range(other_indices, other_vertices.len() as int),
    ensures
        indices_in_range(
            indices + offset_indices(other_indices, #[verifier::truncate] (vertices.len() as u32)),
            (vertices + other_vertices).len() as int,
        ),
{
    let offset = #[verifier::truncate] (vertices.len() as u32);
    let all = indices + offset_indices(other_indices, offset);
    assert forall|k: int| 0 <= k < all.len() implies #[trigger] all[k] < (vertices + other_vertices).len() by {
        if k >= indices.len() {
            let m = k - indices.len();
            assert(other_indices[m] < other_vertices.len());
            assert(vertices.len() <= u32::MAX);
            assert(offset == vertices.len());
        }
    }
}

impl GpuGeometry {
    /// An empty mesh.
    pub fn new() -> (geometry: GpuGeometry)
        ensures
            geometry.vertices@ == Seq::<GpuVertex>::empty(),
            geometry.indices@ == Seq::<u32>::empty(),
    {
        GpuGeometry { vertices: Vec::new(), indices: Vec::new() }
    }

    /// Appends the mesh `other`: its vertices follow the present ones, and its
    /// indices are raised by the number of present vertices (taken modulo
    /// 2^32, as a `u32`).
    pub fn append(&mut self, other: GpuGeometry)
        requires
            forall|k: int|
                0 <= k < other.indices@.len() ==> #[trigger] other.indices@[k] + (#[verifier::truncate] (old(self).vertices@.len() as u32))
                    <= u32::MAX,
        ensures
            final(self).vertices@ == old(self).vertices@ + other.vertices@,
            final(self).indices@ == old(self).indices@ + offset_indices(
                other.indices@,
                #[verifier::truncate] (old(self).vertices@.len() as u32),
            ),
    {
        let vertex_offset = #[verifier::truncate] (self.vertices.len() as u32);
        let ghost before = self.indices@;
        let ghost added = other.vertices@;
        let mut other = other;
        self.vertices.append(&mut other.vertices);
        let n = other.indices.len();
        let mut k: usize = 0;
        while k < n
            invariant
                n == other.indices@.len(),
                k <= n,
                vertex_offset == #[verifier::truncate] (old(self).vertices@.len() as u32),
                self.vertices@ == old(self).vertices@ + added,
                forall|m: int| 0 <= m < n ==> #[trigger] other.indices@[m] + vertex_offset <= u32::MAX,
                self.indices@ == before + offset_indices(other.indices@.take(k as int), vertex_offset),
            decreases n - k,
        {
            self.indices.push(other.indices[k] + vertex_offset);
            k += 1;
            proof {
                assert(offset_indices(other.indices@.take(k as int), vertex_offset) =~= offset_indices(
                    other.indices@.take(k - 1),
                    vertex_offset,
                ).push((other.indices@[k - 1] + vertex_offset) as u32));
            }
        }
        proof {
            assert(other.indices@.take(n as int) =~= other.indices@);
        }
    }
}

} // verus!
