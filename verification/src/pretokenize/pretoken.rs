use vstd::prelude::*;

verus! {

/// One pretoken: a sub-slice of the document being pretokenized.
#[derive(Debug, Clone, Copy, Hash, PartialEq, Eq)]
pub struct Pretoken<'a>(pub &'a [u8]);

impl<'a> Pretoken<'a> {
    /// The pretoken's bytes.
    pub fn as_bytes(&self) -> (r: &'a [u8])
        ensures
            r@ == self.0@,
    {
        self.0
    }
}

} // verus!
