//! Staging a file for the next save: building its record, allocating and
//! linking a chain of free blocks, and buffering its contents in memory.

use vstd::prelude::*;

use crate::model::{
    fs_wf, in_seq, lemma_free_from_props, models, pad_bytes, spec_blocks_needed, spec_data_start,
    spec_first_free, spec_slot_count, EntryModel,
};
use crate::Entry;
use crate::FsError;
use crate::MicroFS;
use crate::SECTOR_SIZE;
use vstd::string::StringSliceAdditionalSpecFns;

verus! {

/// The allocation table `new_fat` equals `old_fat` with the blocks of
/// `taken` linked into a chain: each entry points to the next taken block
/// and the last is marked end-of-chain; everything else is untouched.
pub open spec fn link_written(old_fat: Seq<u8>, new_fat: Seq<u8>, taken: Seq<int>) -> bool {
    &&& new_fat.len() == old_fat.len()
    &&& (forall|k: int|
        0 <= k < taken.len() - 1 ==> new_fat[taken[k]] == taken[k + 1] as u8)
    &&& (taken.len() > 0 ==> new_fat[taken[taken.len() - 1]] == 0u8)
    &&& (forall|j: int|
        0 <= j < old_fat.len() && !taken.contains(j) ==> new_fat[j] == old_fat[j])
}

/// What a successful `add` does to the session: the record and its bytes
/// appended to the staged sets, the allocated chain linked in the table,
/// and everything else untouched.
pub open spec fn staged_push(
    old_fs: MicroFS,
    new_fs: MicroFS,
    nm: Seq<u8>,
    data: Vec<u8>,
    taken: Seq<int>,
) -> bool {
    &&& models(new_fs.new_entries@) == models(old_fs.new_entries@).push(
        (EntryModel { name: pad_bytes(nm, 26), start: taken[0] as u16, size: data@.len() as u32 }),
    )
    &&& new_fs.new_data@ == old_fs.new_data@.push(data)
    &&& new_fs.entries == old_fs.entries
    &&& new_fs.sb == old_fs.sb
    &&& new_fs.image == old_fs.image
    &&& new_fs.valid == old_fs.valid
    &&& link_written(old_fs.fat@, new_fs.fat@, taken)
}

impl MicroFS {
    /// Stages the file read from `path` for the next save: the record's
    /// name is the source path (truncated to the fixed width; the final
    /// path component is derived at save time), a chain of free blocks is
    /// allocated first-fit after the directory block and linked in the
    /// allocation table, and the bytes are buffered until the save.
    ///
    /// Reading the source file is the caller's task (a failed read is the
    /// caller's `SourceNotFound`); with no free directory slot the
    /// operation reports `DirectoryFull`, and with too few free blocks
    /// `ImageFull`, in both cases leaving the session unchanged. A name
    /// already present is permitted and simply coexists: which record a
    /// later lookup finds is decided by slot order.
    pub fn add(&mut self, path: &str, data: Vec<u8>) -> (r: Result<(), FsError>)
        requires
            fs_wf(*old(self)),
            data@.len() <= 0xffffffff,
        ensures
            fs_wf(*final(self)),
            ({
                let need = spec_blocks_needed(data@.len() as int, old(self).sb.block_size);
                let taken = spec_first_free(
                    old(self).fat@,
                    spec_data_start(old(self).sb),
                    need,
                );
                let dir_full = old(self).entries@.len() + old(self).new_entries@.len()
                    >= spec_slot_count(old(self).sb);
                &&& (r matches Err(e) ==> (e == FsError::DirectoryFull || e == FsError::ImageFull)
                    && *final(self) == *old(self))
                &&& (r == Result::<(), FsError>::Err(FsError::DirectoryFull) <==> dir_full)
                &&& (r == Result::<(), FsError>::Err(FsError::ImageFull) <==> (!dir_full
                    && taken.len() < need))
                &&& (r is Ok <==> (!dir_full && taken.len() >= need))
                &&& (r is Ok ==> staged_push(*old(self), *final(self), path.spec_bytes(), data, taken))
            }),
    {
        let slot_count = self.entries_size() / 32;
        if self.entries.len() >= slot_count || self.new_entries.len() >= slot_count
            - self.entries.len() {
            return Err(FsError::DirectoryFull);
        }
        let mut entry = Entry::new(path);
        entry.size = data.len() as u32;
        let bb = SECTOR_SIZE * self.sb.block_size as usize;
        proof {
            vstd::arithmetic::div_mod::lemma_div_is_ordered_by_denominator(
                data@.len() as int,
                512,
                bb as int,
            );
            vstd::arithmetic::div_mod::lemma_div_is_ordered(data@.len() as int, 0xffffffff, 512);
            assert(spec_slot_count(self.sb) == 512 * self.sb.block_size as int / 32);
        }
        let entry_block_size = data.len() / bb + 1;
        let blocks = self.empty_blocks(&mut entry);
        if blocks.len() < entry_block_size {
            return Err(FsError::ImageFull);
        }
        proof {
            lemma_free_from_props(self.fat@, spec_data_start(self.sb));
            let taken = blocks@.map_values(|x: usize| x as int);
            assert forall|k: int|
                0 <= k < blocks@.len() implies (blocks@[k] as int) < self.fat@.len()
                && blocks@[k] < 255 by {
                assert(taken[k] == blocks@[k] as int);
            }
            assert forall|k: int, l: int|
                0 <= k < l < blocks@.len() implies blocks@[k] != blocks@[l] by {
                assert(taken[k] < taken[l]);
            }
        }
        self.new_entries.push(entry);
        self.new_data.push(data);
        self.update_fat(&blocks, true);
        proof {
            let taken = blocks@.map_values(|x: usize| x as int);
            assert forall|j: int|
                0 <= j < old(self).fat@.len() && !taken.contains(j) implies !in_seq(
                blocks@,
                j,
            ) by {
                if in_seq(blocks@, j) {
                    let k = choose|k: int| 0 <= k < blocks@.len() && blocks@[k] as int == j;
                    assert(taken[k] == j);
                }
            }
            assert(models(self.new_entries@) =~= models(old(self).new_entries@).push(entry@));
        }
        Ok(())
    }
}

} // verus!
