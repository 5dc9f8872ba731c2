//! The boundary through which hot index metadata is published; the engine
//! works without it.
use vstd::prelude::*;

verus! {

/// A hot key, by its hash, and the page that holds it.
#[derive(Debug, Clone, Copy, PartialEq, Eq, Structural)]
pub struct HotIndexEntry {
    pub key_hash: u64,
    pub page_id: u64,
}

/// The hot index entries published so far, in order.
#[derive(Debug, Default)]
pub struct HotIndexMap {
    entries: Vec<HotIndexEntry>,
}

impl View for HotIndexMap {
    type V = Seq<HotIndexEntry>;

    closed spec fn view(&self) -> Seq<HotIndexEntry> {
        self.entries@
    }
}

impl HotIndexMap {
    /// A map with nothing published.
    pub fn new() -> (m: Self)
        ensures
            m@ == Seq::<HotIndexEntry>::empty(),
    {
        HotIndexMap { entries: Vec::new() }
    }

    /// Publishes an entry after the others.
    pub fn publish(&mut self, entry: HotIndexEntry)
        ensures
            final(self)@ == old(self)@.push(entry),
    {
        self.entries.push(entry);
    }

    /// The entries published, in order.
    pub fn entries(&self) -> (r: &[HotIndexEntry])
        ensures
            r@ == self@,
    {
        self.entries.as_slice()
    }
}

} // verus!
