//! Reporting the header a session holds, for display.

use vstd::prelude::*;

use crate::MicroFS;
use crate::SuperBlock;

verus! {

impl MicroFS {
    /// Returns a copy of the session's header.
    pub fn info(&self) -> (r: SuperBlock)
        ensures
            r == self.sb,
    {
        self.sb
    }
}

} // verus!
