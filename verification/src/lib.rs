//! The core of a foreign-function boundary around a text-embedding and
//! document-reranking engine.
//!
//! The boundary itself (raw pointers, the engine, the backend library) lives
//! with the caller of this crate. What is decided at the boundary lives here:
//!
//! - [`text`]: how the strings that come in are copied and decoded;
//! - [`embedding`]: what the engine is asked for a text or a batch of texts,
//!   and how its answer becomes the vector records handed back;
//! - [`score`] and [`rerank`]: what the engine is asked for a query and its
//!   candidate documents, and how its answer becomes the ranked batch;
//! - [`reclaim`]: which allocations are released, in which order, when a
//!   result is handed back;
//! - [`backend`]: the once-only initialisation of the numeric backend;
//! - [`handle`]: the pairing of a loaded model with its execution context.

pub mod backend;
pub mod embedding;
pub mod handle;
pub mod reclaim;
pub mod rerank;
pub mod score;
pub mod text;
