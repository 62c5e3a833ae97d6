use vstd::prelude::*;

verus! {

/// A token id. Vocabularies hold at most 2^32 entries.
#[derive(Copy, Clone, Debug, Hash, PartialEq, Eq, Structural, PartialOrd, Ord)]
pub struct TokenId(pub u32);

impl From<u32> for TokenId {
    fn from(value: u32) -> (r: TokenId) {
        TokenId(value)
    }
}

impl vstd::std_specs::convert::FromSpecImpl<u32> for TokenId {
    open spec fn obeys_from_spec() -> bool {
        true
    }

    open spec fn from_spec(value: u32) -> TokenId {
        TokenId(value)
    }
}

impl From<usize> for TokenId {
    /// Truncates to the low 32 bits.
    fn from(value: usize) -> (r: TokenId) {
        TokenId(value as u32)
    }
}

impl vstd::std_specs::convert::FromSpecImpl<usize> for TokenId {
    open spec fn obeys_from_spec() -> bool {
        true
    }

    open spec fn from_spec(value: usize) -> TokenId {
        TokenId(value as u32)
    }
}

impl From<i32> for TokenId {
    /// Reinterprets the bits as unsigned.
    fn from(value: i32) -> (r: TokenId) {
        TokenId(value as u32)
    }
}

impl vstd::std_specs::convert::FromSpecImpl<i32> for TokenId {
    open spec fn obeys_from_spec() -> bool {
        true
    }

    open spec fn from_spec(value: i32) -> TokenId {
        TokenId(value as u32)
    }
}

impl Into<u32> for TokenId {
    fn into(self) -> (r: u32) {
        self.0
    }
}

impl vstd::std_specs::convert::IntoSpecImpl<u32> for TokenId {
    open spec fn obeys_into_spec() -> bool {
        true
    }

    open spec fn into_spec(self) -> u32 {
        self.0
    }
}

} // verus!
