//! Pretokenization: splitting a document into the pieces that BPE encodes
//! independently, following the GPT-2 pattern
//! `'(?:[sdmt]|ll|ve|re)| ?\p{L}+| ?\p{N}+| ?[^\s\p{L}\p{N}]+|\s+(?!\S)|\s+`,
//! or the GPT-4 and Qwen2 patterns (`cl100k`).
pub mod pattern;
pub mod pretoken;

pub mod scalar;
pub mod cl100k;
pub mod state_machine;
pub mod counting;
pub mod options;
