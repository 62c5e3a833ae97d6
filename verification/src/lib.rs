//! Byte-level tokenization: GPT-2 style pretokenization, BPE, WordPiece and
//! SentencePiece-BPE encoding, with the Hub cache layout logic around them.
pub mod token;
pub mod bytemap;
pub mod bpe;
pub mod unicode;
pub mod pretokenize;
pub mod wordpiece;
pub mod tiktoken;
pub mod encode;
pub mod hub;
pub mod sentencepiece;
pub mod simd;
pub mod unicode_tables;
pub mod input;
