//! A verified core for running language models from `.hypno` files.

pub mod archive;
pub mod bytes;
pub mod cache;
pub mod commands;
pub mod config;
pub mod convert;
pub mod dtype;
pub mod exact;
pub mod float;
pub mod format;
pub mod generate;
pub mod ggml;
pub mod gguf;
pub mod json;
pub mod kernels;
pub mod layout;
pub mod loader;
pub mod lora;
pub mod order;
pub mod passes;
pub mod prompt;
pub mod quant;
pub mod quantize;
pub mod sampling;
pub mod serve;
pub mod steady;
pub mod text;
pub mod tokenizer;
pub mod transformer;
pub mod turbo;
pub mod whole;
pub mod writer;
