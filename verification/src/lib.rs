//! A namespaced, in-memory vector store for embeddings: chunk records are
//! keyed by document and chunk id, the first insertion latches the vector
//! width for the whole store, and nearest-neighbor search returns the best
//! scores under a deterministic tie-break. Embedding components and scores
//! are carried as the bit patterns of IEEE-754 single-precision values;
//! the floating-point arithmetic itself (normalization, dot products) and
//! all I/O stay with the caller, which hands results back as plain values.

pub mod api;
pub mod embed;
pub mod key;
pub mod meta;
pub mod order;
pub mod persist;
pub mod rank;
pub mod store;

pub use api::{App, DeleteRequest, default_k};
pub use embed::OllamaConfig;
pub use key::{KEY_SEPARATOR, make_chunk_key, split_chunk_key};
pub use persist::{Row, load_rows, to_rows};
pub use rank::{ScoredHit, rank_top_k};
pub use store::{SearchCandidate, StagedChunk, VectorStore, VectorStoreError};
