//! Orchestration decisions between the embedder and the store.

use vstd::prelude::*;
use crate::error::RagError;

verus! {

/// The one vector embedded for a single input: the first row the embedder
/// returned, or `EmptyEmbedding` when it returned none.
pub fn first_vector(vectors: Vec<Vec<u32>>) -> (r: Result<Vec<u32>, RagError>)
    ensures
        match r {
            Ok(v) => vectors@.len() > 0 && v == vectors@[0],
            Err(e) => vectors@.len() == 0 && e is EmptyEmbedding,
        },
{
    let mut vectors = vectors;
    if vectors.len() == 0 {
        Err(RagError::EmptyEmbedding)
    } else {
        Ok(vectors.swap_remove(0))
    }
}

} // verus!
