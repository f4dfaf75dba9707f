//! The language server's handle to Lichen Home: the root of the persistent
//! package store (`$LICHEN_HOME`, else `~/.lichen`), resolved and created by
//! the server binary.

use vstd::prelude::*;

verus! {

/// The server's handle to the Lichen Home directory.
pub struct LichenHome {
    dir: String,
}

impl LichenHome {
    /// The home directory's path.
    pub closed spec fn dir(&self) -> Seq<char> {
        self.dir@
    }

    /// A handle to the home at `dir`.
    pub fn new(dir: String) -> (h: LichenHome)
        ensures
            h.dir() == dir@,
    {
        LichenHome { dir }
    }

    /// The cache root to hand each request's store — always the persistent
    /// root.
    pub fn cache_root(&self) -> (r: &str)
        ensures
            r@ == self.dir(),
    {
        self.dir.as_str()
    }
}

} // verus!
