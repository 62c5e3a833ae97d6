//! Byte-level BPE tokenizer (tiktoken / GPT-2 style) with a memoizing
//! pretoken cache, added-token splitting and decoding.
pub mod key;
pub mod added;
pub mod tokenizer;
pub mod nfc;
pub mod roundtrip;
