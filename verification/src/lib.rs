//! Local project vector store and similarity-retrieval engine.
//!
//! The crate keeps per-project text chunks together with their embedding
//! vectors and, given a query vector, returns the highest-ranked chunks;
//! the surrounding application persists the store and computes the vectors.
//! Embedding components and similarity scores are carried as the bit patterns
//! of 32-bit IEEE-754 values (`u32`), so that the store, the ranking and the
//! orchestration logic stay free of floating-point arithmetic; the one place
//! that arithmetic happens (cosine scoring) is supplied by the caller through
//! the [`search::SimilarityScorer`] trait.

pub mod chat;
pub mod context_builder;
pub mod error;
pub mod files;
pub mod indexer;
pub mod rag;
pub mod search;
pub mod settings;
pub mod store;
pub mod text;

pub use error::Error;

pub use store::EmbeddingDb;
pub use store::FileChunkInput;
