//! The HuggingFace Hub cache layout and download decisions: repo ids, cache
//! directories, snapshot paths, redirects and HTTP status handling. The
//! file system and network work is done by the caller, step by step.
pub mod text;
pub mod repo;
pub mod fetch;
