//! Mesh simplification strategies.

use vstd::prelude::*;

verus! {

/// How a mesh is simplified.
#[derive(Debug, Clone, Copy, PartialEq, Eq)]
pub enum SimplificationStrategy {
    /// Fast vertex clustering, for real-time level of detail.
    VertexClustering,
    /// Edge collapse: slower, keeps features better.
    EdgeCollapse,
    /// Chosen from the mesh size and the target reduction.
    Auto,
}

} // verus!
