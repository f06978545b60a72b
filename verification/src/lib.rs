//! ragamuffin: a local-first semantic memory backend.
//!
//! The verified core: text chunking, field-aware JSON flattening, the vector
//! store's in-memory model and on-disk encodings, ranking, file-selection
//! rules and the small formatting helpers the command line and the MCP
//! server rely on.

pub mod text;
pub mod chunk;
pub mod cli;
pub mod embedder;
pub mod error;
pub mod json;
pub mod mcp;
pub mod rag;
pub mod scan;
pub mod store;
