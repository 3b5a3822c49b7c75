//! Deleting a persisted file: finding its record by name, walking its
//! chain, freeing the chain in the allocation table, and removing the
//! record. Staged (unsaved) entries are never matched.

use vstd::prelude::*;

use crate::model::{find_name, in_seq, models, spec_walk, trunc_nul};
use crate::Entry;
use crate::FsError;
use crate::MicroFS;
use vstd::string::StringSliceAdditionalSpecFns;

verus! {

impl MicroFS {
    /// Deletes the persisted entry named `filename` (the first matching
    /// slot): frees every block of its chain and removes the record.
    /// Reports `NotFound` when no persisted entry matches, and
    /// `CorruptChain` when the entry's chain cannot be walked; in both
    /// cases the session is unchanged.
    pub fn del(&mut self, filename: &str) -> (r: Result<(), FsError>)
        ensures
            ({
                let idx = find_name(models(old(self).entries@), filename.spec_bytes(), 0);
                &&& (r == Result::<(), FsError>::Err(FsError::NotFound) <==> idx == -1)
                &&& (idx == -1 ==> *final(self) == *old(self))
                &&& (idx >= 0 ==> del_found(*old(self), *final(self), r, idx))
            }),
    {
        let nm = filename.as_bytes();
        match find_entry(&self.entries, nm) {
            None => Err(FsError::NotFound),
            Some(i) => {
                let e = self.entries[i];
                match self.get_blocks(&e) {
                    Err(err) => Err(err),
                    Ok(blocks) => {
                        proof {
                            crate::model::lemma_walk_props(
                                self.fat@,
                                e.start as int,
                                self.fat@.len() as nat,
                            );
                            let chain = spec_walk(
                                self.fat@,
                                e.start as int,
                                self.fat@.len() as nat,
                            )->Some_0;
                            assert forall|k: int|
                                0 <= k < blocks@.len() implies (blocks@[k] as int)
                                < self.fat@.len() by {
                                assert(blocks@.map_values(|x: usize| x as int)[k] == chain[k]);
                            }
                        }
                        self.update_fat(&blocks, false);
                        self.entries.remove(i);
                        proof {
                            let chain = spec_walk(
                                old(self).fat@,
                                old(self).entries@[i as int].start as int,
                                old(self).fat@.len() as nat,
                            )->Some_0;
                            assert forall|b: int| chain.contains(b) implies final(self).fat@[b]
                                == 0xffu8 by {
                                let k = choose|k: int|
                                    0 <= k < chain.len() && chain[k] == b;
                                assert(blocks@.map_values(|x: usize| x as int)[k] == b);
                                assert(blocks@[k] as int == b);
                            }
                            assert forall|j: int|
                                0 <= j < old(self).fat@.len() && !chain.contains(j)
                                implies final(self).fat@[j] == old(self).fat@[j] by {
                                if in_seq(blocks@, j) {
                                    let k = choose|k: int|
                                        0 <= k < blocks@.len() && blocks@[k] as int == j;
                                    assert(blocks@.map_values(|x: usize| x as int)[k] == j);
                                }
                            }
                        }
                        Ok(())
                    },
                }
            },
        }
    }
}

/// What `del` does when a record at index `idx` matches: on a walkable
/// chain, the record is removed and every chain block is free afterwards,
/// everything else untouched; on a corrupt chain, the session is unchanged.
pub open spec fn del_found(old_fs: MicroFS, new_fs: MicroFS, r: Result<(), crate::FsError>, idx: int) -> bool {
    let chain_opt = spec_walk(old_fs.fat@, old_fs.entries@[idx].start as int, old_fs.fat@.len() as nat);
    &&& (r == Result::<(), crate::FsError>::Err(crate::FsError::CorruptChain) <==> chain_opt is None)
    &&& (chain_opt is None ==> new_fs == old_fs)
    &&& (chain_opt matches Some(chain) ==> {
        &&& r is Ok
        &&& new_fs.entries@ == old_fs.entries@.remove(idx)
        &&& new_fs.fat@.len() == old_fs.fat@.len()
        &&& (forall|b: int| chain.contains(b) ==> new_fs.fat@[b] == 0xffu8)
        &&& (forall|j: int|
            0 <= j < old_fs.fat@.len() && !chain.contains(j) ==> new_fs.fat@[j] == old_fs.fat@[j])
        &&& new_fs.sb == old_fs.sb
        &&& new_fs.image == old_fs.image
        &&& new_fs.new_entries == old_fs.new_entries
        &&& new_fs.new_data == old_fs.new_data
        &&& new_fs.valid == old_fs.valid
    })
}

/// Scans the records for the first whose zero-terminated name equals `nm`.
pub(crate) fn find_entry(entries: &Vec<Entry>, nm: &[u8]) -> (r: Option<usize>)
    ensures
        ({
            let idx = find_name(models(entries@), nm@, 0);
            &&& (r is None <==> idx == -1)
            &&& (r matches Some(i) ==> i as int == idx && i < entries@.len())
        }),
{
    let n = entries.len();
    let mut i: usize = 0;
    while i < n
        invariant
            n == entries@.len(),
            i <= n,
            find_name(models(entries@), nm@, 0) == find_name(models(entries@), nm@, i as int),
        decreases n - i,
    {
        if name_eq(&entries[i].name, nm) {
            proof {
                assert(models(entries@)[i as int] == entries@[i as int]@);
            }
            return Some(i);
        }
        proof {
            assert(models(entries@)[i as int] == entries@[i as int]@);
        }
        i += 1;
    }
    None
}

/// Whether the zero-terminated prefix of a fixed name field equals `nm`.
fn name_eq(name: &[u8; 26], nm: &[u8]) -> (r: bool)
    ensures
        r == (trunc_nul(name@) == nm@),
{
    let mut nul_end: usize = 0;
    while nul_end < 26 && name[nul_end] != 0
        invariant
            nul_end <= 26,
            name@.len() == 26,
            forall|j: int| 0 <= j < nul_end ==> name@[j] != 0u8,
        decreases 26 - nul_end,
    {
        nul_end += 1;
    }
    proof {
        crate::model::lemma_trunc_nul_prefix(name@, nul_end as int);
    }
    if nul_end != nm.len() {
        proof {
            assert(trunc_nul(name@).len() == nul_end);
        }
        return false;
    }
    let mut j: usize = 0;
    while j < nul_end
        invariant
            j <= nul_end <= 26,
            name@.len() == 26,
            nul_end == nm@.len(),
            trunc_nul(name@) == name@.subrange(0, nul_end as int),
            forall|q: int| 0 <= q < j ==> name@[q] == nm@[q],
        decreases nul_end - j,
    {
        if name[j] != nm[j] {
            proof {
                assert(trunc_nul(name@)[j as int] == name@[j as int]);
            }
            return false;
        }
        j += 1;
    }
    proof {
        assert(trunc_nul(name@) =~= nm@);
    }
    true
}

} // verus!
