//! Dimensions of the index.

use vstd::prelude::*;

verus! {

/// Number of coordinates of an embedding.
pub const EMBEDDING_DIM: usize = 12;

/// Number of segments an embedding is cut into.
pub const EMBEDDING_M_SEGMENTS: usize = 4;

/// Number of coordinates of one segment.
pub const SEGMENT_DIM: usize = 3;

/// Number of sub-centroids a segment is quantized against.
pub const CENTROIDS_PER_SUBSPACE_CLUSTER: usize = 8;

/// Number of sub-centroids over all segments.
pub const K_MAX_CENTROIDS: usize = 32;

/// Number of neighbours a query retrieves.
pub const RETRIEVE_KNN: usize = 10;

/// Number of coarse clusters.
pub const CQ_K_CENTROIDS: usize = 8;

/// Bytes of one code cell.
pub const CODE_SIZE: usize = 1;

/// Embeddings that a training set holds for each coarse cluster.
pub const EMBEDDINGS_PER_CLUSTER: usize = 3;

/// Bit pattern of positive infinity. The patterns up to this one are the
/// non-negative doubles, and their numeric order is the order of the patterns.
pub const INFINITY_BITS: u64 = 0x7FF0_0000_0000_0000;

/// The segments tile the embedding.
pub proof fn lemma_dimensions()
    ensures
        EMBEDDING_DIM == EMBEDDING_M_SEGMENTS * SEGMENT_DIM,
        EMBEDDING_DIM % EMBEDDING_M_SEGMENTS == 0,
        K_MAX_CENTROIDS == EMBEDDING_M_SEGMENTS * CENTROIDS_PER_SUBSPACE_CLUSTER,
{
}

} // verus!
