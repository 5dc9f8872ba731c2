pub mod block;
pub mod footer;
pub mod writer;

use vstd::prelude::*;

verus! {

/// An SSTable file known by its id and path.
#[derive(Debug, PartialEq, Eq)]
pub struct SsTable {
    id: u64,
    path: String,
}

impl SsTable {
    /// The table's id.
    pub closed spec fn id_spec(&self) -> u64 {
        self.id
    }

    /// The table's path.
    pub closed spec fn path_spec(&self) -> Seq<char> {
        self.path@
    }

    /// The table `id` at `path`.
    pub fn new(id: u64, path: &str) -> (t: Self)
        ensures
            t.id_spec() == id,
            t.path_spec() == path@,
    {
        SsTable { id, path: String::from_str(path) }
    }

    /// The table's id.
    pub fn id(&self) -> (r: u64)
        ensures
            r == self.id_spec(),
    {
        self.id
    }

    /// The table's path.
    pub fn path(&self) -> (r: &str)
        ensures
            r@ == self.path_spec(),
    {
        self.path.as_str()
    }
}

} // verus!
