use vstd::prelude::*;

verus! {

/// The bytes of a block being built.
#[derive(Debug, Default)]
pub struct BlockBuilder {
    bytes: Vec<u8>,
}

impl BlockBuilder {
    /// The bytes written so far.
    pub closed spec fn bytes_spec(&self) -> Seq<u8> {
        self.bytes@
    }

    /// A builder with no bytes.
    pub fn new() -> (b: Self)
        ensures
            b.bytes_spec() == Seq::<u8>::empty(),
    {
        BlockBuilder { bytes: Vec::new() }
    }

    /// The number of bytes written.
    pub fn len(&self) -> (r: usize)
        ensures
            r == self.bytes_spec().len(),
    {
        self.bytes.len()
    }

    /// Whether no byte was written.
    pub fn is_empty(&self) -> (r: bool)
        ensures
            r == (self.bytes_spec().len() == 0),
    {
        self.bytes.len() == 0
    }
}

} // verus!
