//! Layered error types. Each layer has its own enum; higher layers wrap
//! lower ones.

use vstd::prelude::*;

verus! {

#[verifier::external_type_specification]
#[verifier::external_body]
pub struct ExIoError(std::io::Error);

#[verifier::external_type_specification]
#[verifier::external_body]
pub struct ExJsonError(serde_json::Error);

/// Failure while turning text into vectors.
#[derive(Debug)]
pub enum EmbedError {
    /// The underlying embedding model returned an error.
    Model(String),
    /// The model cache directory could not be determined or created.
    Cache(String),
}

/// Failure in the on-disk vector store.
#[derive(Debug)]
pub enum StoreError {
    /// Reading or writing a store file failed.
    Io(std::io::Error),
    /// A store file held malformed JSON.
    Json(serde_json::Error),
    /// A vector's length did not match the store's recorded dimension.
    DimMismatch { expected: usize, got: usize },
    /// The vectors file and the metadata disagree on row count, indicating
    /// a corrupt or partially-written store.
    Corrupt { floats: usize, rows: usize, dim: usize },
}

/// Failure in the RAG orchestration layer.
#[derive(Debug)]
pub enum RagError {
    Store(StoreError),
    Embed(EmbedError),
    Io(std::io::Error),
    /// The embedder returned no vector for a single input.
    EmptyEmbedding,
}

} // verus!
