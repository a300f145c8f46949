//! Splitting a GGUF model into one file per expert.

pub mod fused;
pub mod ggml;
pub mod groups;
pub mod names;
pub mod plan;
