use vstd::prelude::*;

verus! {

/// Names the file an SSTable is written to.
#[derive(Debug)]
pub struct SsTableWriter {
    path: String,
}

impl SsTableWriter {
    /// The path written to.
    pub closed spec fn path_spec(&self) -> Seq<char> {
        self.path@
    }

    /// A writer for the file at `path`.
    pub fn new(path: &str) -> (w: Self)
        ensures
            w.path_spec() == path@,
    {
        SsTableWriter { path: String::from_str(path) }
    }

    /// The path written to.
    pub fn path(&self) -> (r: &str)
        ensures
            r@ == self.path_spec(),
    {
        self.path.as_str()
    }
}

} // verus!
