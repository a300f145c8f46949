//! Streaming of mixture-of-experts weights from disk.

pub mod aligned_buffer;
pub mod backend;
pub mod buffer_pool;
pub mod config;
pub mod dequant;
pub mod expert_cache;
pub mod extract;
pub mod io_uring;
pub mod manifest;
pub mod predictors;
pub mod storage;
pub mod text;
