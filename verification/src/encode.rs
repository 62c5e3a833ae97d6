//! High-throughput streaming encoding of many lines with one tokenizer.
pub mod hashing;
pub mod tiktoken_radix;
