//! The embedder's dimension, learned from a probe embedding made when the
//! model is loaded.

use vstd::prelude::*;
use crate::error::EmbedError;

verus! {

/// A loaded local embedding model, as far as the library needs to know it:
/// the dimension of every vector it produces.
#[derive(Debug)]
pub struct FastEmbedder {
    dim: usize,
}

impl FastEmbedder {
    /// Records the model's dimension from a one-input probe embedding:
    /// `probe` holds the length of every vector the model returned for it.
    /// A probe that produced no vector is a model error.
    pub fn new(probe: &[usize]) -> (r: Result<FastEmbedder, EmbedError>)
        ensures
            match r {
                Ok(e) => probe@.len() > 0 && e.dim_spec() == probe@[0],
                Err(e) => {
                    &&& probe@.len() == 0
                    &&& e matches EmbedError::Model(m) && m@ == "embedding probe produced no vector"@
                },
            },
    {
        if probe.len() == 0 {
            Err(EmbedError::Model("embedding probe produced no vector".to_owned()))
        } else {
            Ok(FastEmbedder { dim: probe[0] })
        }
    }

    /// The dimension of every produced vector.
    pub closed spec fn dim_spec(&self) -> nat {
        self.dim as nat
    }

    /// The dimensionality of every produced vector.
    pub fn dim(&self) -> (d: usize)
        ensures
            d == self.dim_spec(),
    {
        self.dim
    }
}

} // verus!
