//! Vector table lookups, written as plain loops with the instructions'
//! semantics.
pub mod table;
