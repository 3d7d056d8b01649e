//! Core logic of a small LLM serving engine: the paged KV-cache block
//! manager with prefix caching, the prefill scheduler, the shape
//! bookkeeping of a model forward pass, and the shared request types.
pub mod types;
pub mod block_manager;
pub mod scheduler;
pub mod model;
pub mod worker;
