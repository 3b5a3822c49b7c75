//! Listing the files a session holds: the persisted entries followed by
//! the staged ones, as copies for display.

use vstd::prelude::*;

use crate::Entry;
use crate::MicroFS;

verus! {

impl MicroFS {
    /// Returns copies of every record the session holds: the persisted
    /// entries in slot order, then the staged entries in the order added.
    pub fn list(&self) -> (r: Vec<Entry>)
        ensures
            r@ == self.entries@ + self.new_entries@,
    {
        let mut r: Vec<Entry> = Vec::new();
        let n = self.entries.len();
        let mut i: usize = 0;
        while i < n
            invariant
                n == self.entries@.len(),
                i <= n,
                r@ == self.entries@.take(i as int),
            decreases n - i,
        {
            r.push(self.entries[i]);
            proof {
                assert(r@ =~= self.entries@.take(i + 1));
            }
            i += 1;
        }
        let m = self.new_entries.len();
        let mut k: usize = 0;
        while k < m
            invariant
                n == self.entries@.len(),
                m == self.new_entries@.len(),
                k <= m,
                r@ == self.entries@ + self.new_entries@.take(k as int),
            decreases m - k,
        {
            r.push(self.new_entries[k]);
            proof {
                assert(r@ =~= self.entries@ + self.new_entries@.take(k + 1));
            }
            k += 1;
        }
        proof {
            assert(self.entries@.take(n as int) =~= self.entries@);
            assert(self.new_entries@.take(m as int) =~= self.new_entries@);
        }
        r
    }
}

} // verus!
