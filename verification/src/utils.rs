//! Helpers on the session: region sizes and offsets, loading the allocation
//! table and the directory from container bytes, scanning for free blocks,
//! walking and rewriting chains, and writing buffered contents into blocks.

use vstd::prelude::*;

use crate::model::{
    base_name, free_from, in_seq, lemma_prefix_is_take, models, overlay, pad_bytes, sb_wf,
    spec_block_bytes, spec_blocks_needed, spec_chunk, spec_data_start, spec_entries_offset,
    spec_entries_size, spec_first_free, spec_parse_entries, spec_walk, spec_write_chunks,
    trunc_nul,
};
use crate::model::EntryModel;
use crate::Entry;
use crate::FsError;
use crate::MicroFS;
use crate::SECTOR_SIZE;
use vstd::slice::slice_subrange;
use vstd::string::StringSliceAdditionalSpecFns;
use vstd::utf8::valid_utf8;

verus! {

impl MicroFS {
    /// Size in bytes of the allocation-table region: one byte per block of
    /// capacity.
    pub fn fat_size(&self) -> (r: usize)
        ensures
            r == self.sb.fat_size as usize,
    {
        self.sb.fat_size as usize
    }

    /// Byte offset of the directory region: the root-directory block.
    pub fn root_entry(&self) -> (r: usize)
        requires
            sb_wf(self.sb),
        ensures
            r as int == spec_entries_offset(self.sb),
    {
        proof {
            assert(self.sb.root_entry as int * self.sb.block_size as int <= 252 * 255)
                by (nonlinear_arith)
                requires
                    0 <= self.sb.root_entry as int <= 252,
                    0 <= self.sb.block_size as int <= 255,
            ;
        }
        let blocks = self.sb.root_entry as usize * self.sb.block_size as usize;
        let r = blocks * SECTOR_SIZE;
        proof {
            assert(blocks as int * 512 == self.sb.root_entry as int * (512
                * self.sb.block_size as int)) by (nonlinear_arith)
                requires
                    blocks as int == self.sb.root_entry as int * self.sb.block_size as int,
            ;
        }
        r
    }

    /// Size in bytes of the directory region: the one root-directory block.
    pub fn entries_size(&self) -> (r: usize)
        requires
            self.sb.block_size >= 1,
        ensures
            r as int == spec_entries_size(self.sb),
    {
        self.sb.block_size as usize * SECTOR_SIZE
    }

    /// Loads the allocation table from the container bytes: the
    /// capacity-sized region following the header sector.
    pub fn set_fat(&mut self, raw: &[u8])
        requires
            512 + old(self).sb.fat_size as int <= raw@.len(),
        ensures
            final(self).fat@ == raw@.subrange(512, 512 + old(self).sb.fat_size as int),
            final(self).image == old(self).image,
            final(self).sb == old(self).sb,
            final(self).entries == old(self).entries,
            final(self).new_entries == old(self).new_entries,
            final(self).new_data == old(self).new_data,
            final(self).valid == old(self).valid,
    {
        self.fat = Vec::new();
        let n = self.fat_size();
        let total = raw.len();
        let mut i: usize = 0;
        while i < n
            invariant
                n == self.sb.fat_size,
                total == raw@.len(),
                512 + n as int <= raw@.len(),
                i <= n,
                self.fat@ == raw@.subrange(512, 512 + i as int),
                self.image == old(self).image,
                self.sb == old(self).sb,
                self.entries == old(self).entries,
                self.new_entries == old(self).new_entries,
                self.new_data == old(self).new_data,
                self.valid == old(self).valid,
            decreases n - i,
        {
            self.fat.push(raw[512 + i]);
            proof {
                assert(self.fat@ =~= raw@.subrange(512, 512 + i + 1));
            }
            i += 1;
        }
    }

    /// Follows the chain links from the record's start block until the
    /// end-of-chain mark, returning the ordered block list; reports
    /// `CorruptChain` on an out-of-range link or a chain that does not end
    /// within the table's capacity (as a cycle never does).
    pub fn get_blocks(&self, entry: &Entry) -> (r: Result<Vec<usize>, FsError>)
        ensures
            match spec_walk(self.fat@, entry.start as int, self.fat@.len() as nat) {
                Some(chain) => r matches Ok(v) && v@.map_values(|x: usize| x as int) == chain,
                None => r matches Err(e) && e == FsError::CorruptChain,
            },
    {
        walk_chain(&self.fat, entry.start as usize, self.fat.len())
    }


    /// First-fit scan for free blocks in the data-eligible range: collects
    /// ascending free indices starting right after the directory block,
    /// stopping once the record's block count is reached, and points the
    /// record's start at the first block found.
    pub fn empty_blocks(&self, entry: &mut Entry) -> (blocks: Vec<usize>)
        requires
            sb_wf(self.sb),
            self.fat@.len() <= 254,
        ensures
            ({
                let need = spec_blocks_needed(old(entry).size as int, self.sb.block_size);
                let taken = spec_first_free(self.fat@, spec_data_start(self.sb), need);
                &&& blocks@.map_values(|x: usize| x as int) == taken
                &&& final(entry).name == old(entry).name
                &&& final(entry).size == old(entry).size
                &&& (taken.len() > 0 ==> final(entry).start as int == taken[0])
                &&& (taken.len() == 0 ==> final(entry).start == old(entry).start)
            }),
    {
        let bb = SECTOR_SIZE * self.sb.block_size as usize;
        let entries_blocks_size = self.entries_size() / bb;
        proof {
            assert(spec_block_bytes(self.sb.block_size) / spec_block_bytes(self.sb.block_size)
                == 1) by (nonlinear_arith)
                requires
                    spec_block_bytes(self.sb.block_size) >= 512,
            ;
        }
        let data_start = entries_blocks_size + self.sb.root_entry as usize;
        proof {
            vstd::arithmetic::div_mod::lemma_div_is_ordered_by_denominator(
                entry.size as int,
                512,
                bb as int,
            );
            vstd::arithmetic::div_mod::lemma_div_is_ordered(entry.size as int, 0xffffffff, 512);
        }
        let need = entry.size as usize / bb + 1;

        let ghost ds = spec_data_start(self.sb);
        let cap = self.fat.len();
        let mut blocks: Vec<usize> = Vec::new();
        let mut i: usize = data_start;
        while i < cap
            invariant
                cap == self.fat@.len() <= 254,
                need == spec_blocks_needed(old(entry).size as int, self.sb.block_size),
                need >= 1,
                ds == spec_data_start(self.sb),
                ds <= i,
                free_from(self.fat@, ds) == blocks@.map_values(|x: usize| x as int)
                    + free_from(self.fat@, i as int),
                blocks@.len() < need,
                entry.name == old(entry).name,
                entry.size == old(entry).size,
                blocks@.len() > 0 ==> entry.start as int == blocks@.map_values(
                    |x: usize| x as int,
                )[0],
                blocks@.len() == 0 ==> entry.start == old(entry).start,
            decreases cap - i,
        {
            if self.fat[i] == 0xff {
                if blocks.len() == 0 {
                    entry.start = i as u16;
                }
                blocks.push(i);
                proof {
                    assert(free_from(self.fat@, i as int) == seq![i as int] + free_from(
                        self.fat@,
                        i + 1,
                    ));
                    assert(blocks@.map_values(|x: usize| x as int) =~= blocks@.map_values(
                        |x: usize| x as int,
                    ).drop_last() + seq![i as int]);
                    assert(free_from(self.fat@, ds) =~= blocks@.map_values(|x: usize| x as int)
                        + free_from(self.fat@, i + 1));
                }
                if blocks.len() >= need {
                    proof {
                        let mapped = blocks@.map_values(|x: usize| x as int);
                        let free = free_from(self.fat@, ds);
                        let rest = free_from(self.fat@, i + 1);
                        lemma_prefix_is_take(free, mapped, rest);
                        assert(mapped.len() == need as int);
                        assert(spec_first_free(self.fat@, ds, need as int) == free.take(
                            need as int,
                        ));
                        assert(entry.start as int == mapped[0]);
                        assert(mapped == free.take(need as int));
                        assert(mapped == spec_first_free(self.fat@, ds, need as int));
                    }
                    return blocks;
                }
            } else {
                proof {
                    assert(free_from(self.fat@, i as int) == free_from(self.fat@, i + 1));
                }
            }
            i += 1;
        }
        proof {
            assert(free_from(self.fat@, cap as int) == Seq::<int>::empty());
            assert(free_from(self.fat@, ds) =~= blocks@.map_values(|x: usize| x as int));
        }
        blocks
    }


    /// Loads the persisted directory entries from the container bytes:
    /// scans every fixed-width slot of the directory region, taking a slot
    /// as present exactly when the first byte of its name is non-zero.
    pub fn set_entries(&mut self, raw: &[u8])
        requires
            sb_wf(old(self).sb),
            spec_entries_offset(old(self).sb) + spec_entries_size(old(self).sb) <= raw@.len(),
        ensures
            models(final(self).entries@) == spec_parse_entries(
                raw@.subrange(
                    spec_entries_offset(old(self).sb),
                    spec_entries_offset(old(self).sb) + spec_entries_size(old(self).sb),
                ),
                (spec_entries_size(old(self).sb) / 32) as nat,
            ),
            final(self).image == old(self).image,
            final(self).sb == old(self).sb,
            final(self).fat == old(self).fat,
            final(self).new_entries == old(self).new_entries,
            final(self).new_data == old(self).new_data,
            final(self).valid == old(self).valid,
    {
        self.entries = Vec::new();
        let off = self.root_entry();
        let size = self.entries_size();
        let nslots = size / 32;
        let total = raw.len();
        let ghost region = raw@.subrange(off as int, off as int + size as int);
        proof {
            assert(nslots as int * 32 == size as int && nslots as int == spec_entries_size(
                self.sb,
            ) / 32) by (nonlinear_arith)
                requires
                    size as int == 512 * self.sb.block_size as int,
                    nslots as int == size as int / 32,
                    1 <= self.sb.block_size as int <= 255,
            ;
            assert(models(self.entries@) =~= Seq::<EntryModel>::empty());
            assert(region.skip(0) =~= region);
            assert(models(self.entries@) + spec_parse_entries(region.skip(0), nslots as nat)
                =~= spec_parse_entries(region, nslots as nat));
        }
        let mut k: usize = 0;
        while k < nslots
            invariant
                sb_wf(self.sb),
                off as int == spec_entries_offset(self.sb),
                size as int == spec_entries_size(self.sb),
                nslots as int * 32 == size as int,
                total == raw@.len(),
                off + size <= total,
                region == raw@.subrange(off as int, off as int + size as int),
                k <= nslots,
                models(self.entries@) + spec_parse_entries(
                    region.skip(32 * k as int),
                    (nslots - k) as nat,
                ) == spec_parse_entries(region, nslots as nat),
                self.image == old(self).image,
                self.sb == old(self).sb,
                self.fat == old(self).fat,
                self.new_entries == old(self).new_entries,
                self.new_data == old(self).new_data,
                self.valid == old(self).valid,
            decreases nslots - k,
        {
            let slot_off = off + 32 * k;
            let ghost rem = region.skip(32 * k as int);
            proof {
                assert(32 * k as int + 32 <= size as int) by (nonlinear_arith)
                    requires
                        (k as int) < (nslots as int),
                        nslots as int * 32 == size as int,
                        0 <= k as int,
                ;
                assert forall|q: int| 0 <= q < 32 implies rem[q] == raw@[slot_off + q] by {
                    assert(rem[q] == region[32 * k as int + q]);
                }
            }
            if raw[slot_off] != 0 {
                let mut name: [u8; 26] = [0; 26];
                let mut j: usize = 0;
                while j < 26
                    invariant
                        j <= 26,
                        total == raw@.len(),
                        slot_off + 32 <= total,
                        name@.len() == 26,
                        forall|q: int| 0 <= q < j ==> name@[q] == raw@[slot_off + q],
                    decreases 26 - j,
                {
                    name[j] = raw[slot_off + j];
                    j += 1;
                }
                let start: u16 = raw[slot_off + 26] as u16 + 256 * raw[slot_off + 27] as u16;
                let b2: u32 = 65536 * raw[slot_off + 30] as u32;
                let b3: u32 = 16777216 * raw[slot_off + 31] as u32;
                let size_v: u32 = raw[slot_off + 28] as u32 + 256 * raw[slot_off + 29] as u32
                    + b2 + b3;
                let e = Entry { name, start, size: size_v };
                self.entries.push(e);
                proof {
                    assert(rem[0] != 0u8);
                    assert(spec_parse_entries(rem, (nslots - k) as nat).len() >= 1);
                    let m = spec_parse_entries(rem, (nslots - k) as nat)[0];
                    assert(m.name =~= name@);
                    assert(m.start == start);
                    assert(m.size == size_v);
                    assert(e@ == m);
                    assert(rem.skip(32) =~= region.skip(32 * (k + 1)));
                    assert(spec_parse_entries(rem, (nslots - k) as nat) == seq![m]
                        + spec_parse_entries(region.skip(32 * (k + 1)), (nslots - k - 1) as nat));
                    assert(models(self.entries@) =~= models(self.entries@).drop_last()
                        + seq![e@]);
                    assert(models(self.entries@) + spec_parse_entries(
                        region.skip(32 * (k + 1)),
                        (nslots - k - 1) as nat,
                    ) =~= spec_parse_entries(region, nslots as nat));
                }
            } else {
                proof {
                    assert(rem[0] == 0u8);
                    assert(rem.skip(32) =~= region.skip(32 * (k + 1)));
                    assert(spec_parse_entries(rem, (nslots - k) as nat) == spec_parse_entries(
                        region.skip(32 * (k + 1)),
                        (nslots - k - 1) as nat,
                    ));
                }
            }
            k += 1;
        }
        proof {
            assert(region.skip(32 * nslots as int).len() == 0);
            assert(spec_parse_entries(region.skip(32 * nslots as int), 0) =~= Seq::<
                EntryModel,
            >::empty());
            assert(models(self.entries@) =~= models(self.entries@) + Seq::<
                EntryModel,
            >::empty());
        }
    }

    /// Rewrites the table entries of `blocks`: with `add`, each entry points
    /// to the next block and the last is marked end-of-chain; without, every
    /// entry is marked free.
    pub fn update_fat(&mut self, blocks: &Vec<usize>, add: bool)
        requires
            forall|k: int|
                0 <= k < blocks@.len() ==> (blocks@[k] as int) < old(self).fat@.len(),
            add ==> forall|k: int| 0 <= k < blocks@.len() ==> blocks@[k] < 255,
            add ==> forall|k: int, l: int|
                0 <= k < l < blocks@.len() ==> blocks@[k] != blocks@[l],
        ensures
            final(self).fat@.len() == old(self).fat@.len(),
            add ==> forall|k: int|
                0 <= k < blocks@.len() - 1 ==> final(self).fat@[blocks@[k] as int] == blocks@[k
                    + 1] as u8,
            add && blocks@.len() > 0 ==> final(self).fat@[blocks@[blocks@.len() - 1] as int]
                == 0u8,
            !add ==> forall|k: int|
                0 <= k < blocks@.len() ==> final(self).fat@[blocks@[k] as int] == 0xffu8,
            forall|j: int|
                0 <= j < old(self).fat@.len() && !in_seq(blocks@, j) ==> final(self).fat@[j]
                    == old(self).fat@[j],
            final(self).image == old(self).image,
            final(self).sb == old(self).sb,
            final(self).entries == old(self).entries,
            final(self).new_entries == old(self).new_entries,
            final(self).new_data == old(self).new_data,
            final(self).valid == old(self).valid,
    {
        let n = blocks.len();
        let mut i: usize = 0;
        while i < n
            invariant
                n == blocks@.len(),
                i <= n,
                self.fat@.len() == old(self).fat@.len(),
                forall|k: int|
                    0 <= k < blocks@.len() ==> (blocks@[k] as int) < self.fat@.len(),
                add ==> forall|k: int| 0 <= k < blocks@.len() ==> blocks@[k] < 255,
                add ==> forall|k: int, l: int|
                    0 <= k < l < blocks@.len() ==> blocks@[k] != blocks@[l],
                add ==> forall|k: int|
                    0 <= k < i && k < n - 1 ==> self.fat@[blocks@[k] as int] == blocks@[k
                        + 1] as u8,
                add ==> forall|k: int|
                    0 <= k < i && k == n - 1 ==> self.fat@[blocks@[k] as int] == 0u8,
                !add ==> forall|k: int|
                    0 <= k < i ==> self.fat@[blocks@[k] as int] == 0xffu8,
                forall|j: int|
                    0 <= j < self.fat@.len() && !in_seq(blocks@.take(i as int), j)
                        ==> self.fat@[j] == old(self).fat@[j],
                self.image == old(self).image,
                self.sb == old(self).sb,
                self.entries == old(self).entries,
                self.new_entries == old(self).new_entries,
                self.new_data == old(self).new_data,
                self.valid == old(self).valid,
            decreases n - i,
        {
            let b = blocks[i];
            if add {
                if i == n - 1 {
                    self.fat[b] = 0;
                } else {
                    self.fat[b] = blocks[i + 1] as u8;
                }
            } else {
                self.fat[b] = 0xff;
            }
            proof {
                assert forall|j: int|
                    0 <= j < self.fat@.len() && !in_seq(blocks@.take(i + 1), j) implies self.fat@[j]
                    == old(self).fat@[j] by {
                    assert(!in_seq(blocks@.take(i as int), j));
                    assert(blocks@.take(i + 1)[i as int] == blocks@[i as int]);
                    assert(forall|k: int|
                        0 <= k < i ==> blocks@.take(i + 1)[k] == blocks@.take(i as int)[k]);
                }
                assert forall|k: int| add && 0 <= k < i + 1 && k < n - 1 implies self.fat@[blocks@[k] as int]
                    == blocks@[k + 1] as u8 by {
                    if k < i {
                        assert(blocks@[k] != blocks@[i as int]);
                    }
                }
            }
            i += 1;
        }
        proof {
            assert(blocks@.take(n as int) =~= blocks@);
        }
    }

    /// Writes `data` into the given blocks of the container bytes, block by
    /// block: each block receives one block-sized chunk, the final chunk
    /// clipped to the data's length.
    pub fn write_data(&self, blocks: &Vec<usize>, data: &Vec<u8>, image: &mut Vec<u8>)
        requires
            self.sb.block_size >= 1,
            blocks@.len() <= 254,
            forall|k: int|
                0 <= k < blocks@.len() ==> (blocks@[k] as int + 1) * spec_block_bytes(
                    self.sb.block_size,
                ) <= old(image)@.len(),
        ensures
            final(image)@ == spec_write_chunks(
                old(image)@,
                blocks@.map_values(|x: usize| x as int),
                data@,
                spec_block_bytes(self.sb.block_size),
                0,
            ),
    {
        let bb = SECTOR_SIZE * self.sb.block_size as usize;
        let ghost bseq = blocks@.map_values(|x: usize| x as int);
        let mut cnt: usize = 0;
        while cnt < blocks.len()
            invariant
                bb as int == spec_block_bytes(self.sb.block_size),
                bb >= 512,
                bseq == blocks@.map_values(|x: usize| x as int),
                blocks@.len() <= 254,
                cnt <= blocks@.len(),
                forall|k: int|
                    0 <= k < blocks@.len() ==> (blocks@[k] as int + 1) * bb as int
                        <= old(image)@.len(),
                image@.len() == old(image)@.len(),
                spec_write_chunks(old(image)@, bseq, data@, bb as int, 0) == spec_write_chunks(
                    image@,
                    bseq,
                    data@,
                    bb as int,
                    cnt as nat,
                ),
            decreases blocks@.len() - cnt,
        {
            let b = blocks[cnt];
            let il = image.len();
            proof {
                assert((blocks@[cnt as int] as int + 1) * bb as int <= old(image)@.len());
                assert((b as int + 1) * bb as int == b as int * bb as int + bb as int)
                    by (nonlinear_arith);
                assert(cnt as int * bb as int <= 254 * 0x1fe00) by (nonlinear_arith)
                    requires
                        0 <= cnt as int <= 254,
                        0 <= bb as int <= 0x1fe00,
                ;
            }
            let offset = b * bb;
            let data_block_start = if cnt * bb < data.len() {
                cnt * bb
            } else {
                data.len()
            };
            let mut data_block_end = if data_block_start + bb < data.len() {
                data_block_start + bb
            } else {
                data.len()
            };
            let ghost chunk = spec_chunk(data@, bb as int, cnt as int);
            let ghost snap = image@;
            let m = data_block_end - data_block_start;
            proof {
                assert((cnt as int + 1) * bb as int == cnt as int * bb as int + bb as int)
                    by (nonlinear_arith);
                assert(chunk =~= data@.subrange(
                    data_block_start as int,
                    data_block_end as int,
                ));
            }
            let dl = data.len();
            let mut t: usize = 0;
            while t < m
                invariant
                    t <= m,
                    m == chunk.len(),
                    m <= bb,
                    il == image@.len(),
                    dl == data@.len(),
                    data_block_start + m <= data@.len(),
                    offset + bb <= image@.len(),
                    image@.len() == snap.len(),
                    chunk == data@.subrange(data_block_start as int, (data_block_start + m) as int),
                    forall|q: int|
                        0 <= q < image@.len() && !(offset <= q < offset + t) ==> image@[q]
                            == snap[q],
                    forall|q: int|
                        offset <= q < offset + t ==> image@[q] == chunk[q - offset],
                decreases m - t,
            {
                image[offset + t] = data[data_block_start + t];
                t += 1;
            }
            proof {
                assert(image@ =~= overlay(snap, offset as int, chunk));
                assert(spec_write_chunks(snap, bseq, data@, bb as int, cnt as nat)
                    == spec_write_chunks(image@, bseq, data@, bb as int, (cnt + 1) as nat));
            }
            cnt += 1;
        }
    }
}

/// Recursive walk of the allocation table from block `b`, spending one unit
/// of `fuel` per visited block.
fn walk_chain(fat: &Vec<u8>, b: usize, fuel: usize) -> (r: Result<Vec<usize>, FsError>)
    ensures
        match spec_walk(fat@, b as int, fuel as nat) {
            Some(chain) => r matches Ok(v) && v@.map_values(|x: usize| x as int) == chain,
            None => r matches Err(e) && e == FsError::CorruptChain,
        },
    decreases fuel,
{
    if b >= fat.len() {
        return Err(FsError::CorruptChain);
    }
    if fuel == 0 {
        return Err(FsError::CorruptChain);
    }
    let next = fat[b];
    if next == 0 {
        let mut v: Vec<usize> = Vec::new();
        v.push(b);
        proof {
            assert(v@.map_values(|x: usize| x as int) =~= seq![b as int]);
        }
        Ok(v)
    } else {
        match walk_chain(fat, next as usize, fuel - 1) {
            Ok(rest) => {
                let mut v = rest;
                v.insert(0, b);
                proof {
                    let chain = spec_walk(fat@, b as int, fuel as nat)->Some_0;
                    assert(v@.map_values(|x: usize| x as int) =~= chain);
                }
                Ok(v)
            },
            Err(e) => Err(e),
        }
    }
}

/// Reads the zero-terminated prefix of a fixed name field as text.
/// Returns `None` when that prefix is not valid UTF-8 (the stored bytes are
/// arbitrary on-disk data).
pub fn bytes_to_str(bytes: &[u8]) -> (r: Option<&str>)
    ensures
        r is Some <==> valid_utf8(trunc_nul(bytes@)),
        r matches Some(s) ==> s.spec_bytes() == trunc_nul(bytes@),
{
    let mut cnt: usize = 0;
    while cnt < bytes.len() && bytes[cnt] != 0
        invariant
            cnt <= bytes@.len(),
            forall|j: int| 0 <= j < cnt ==> bytes@[j] != 0u8,
        decreases bytes@.len() - cnt,
    {
        cnt += 1;
    }
    let prefix = slice_subrange(bytes, 0, cnt);
    proof {
        crate::model::lemma_trunc_nul_prefix(bytes@, cnt as int);
    }
    parse_utf8(prefix)
}

/// Relies on `core::str::from_utf8`: it returns `Ok` exactly when the bytes
/// are valid UTF-8, and the returned text views those same bytes.
#[verifier::external_body]
fn parse_utf8(bytes: &[u8]) -> (r: Option<&str>)
    ensures
        r is Some <==> valid_utf8(bytes@),
        r matches Some(s) ==> s.spec_bytes() == bytes@,
{
    core::str::from_utf8(bytes).ok()
}

/// Re-derives the on-disk name of a staged record from its stored source
/// path: the path up to its zero padding, reduced to its final path
/// component, zero-padded back to the fixed width.
pub fn rederive_name(name: &[u8; 26]) -> (r: [u8; 26])
    ensures
        r@ == pad_bytes(base_name(trunc_nul(name@)), 26),
{
    let mut nul_end: usize = 0;
    while nul_end < 26 && name[nul_end] != 0
        invariant
            nul_end <= 26,
            name@.len() == 26,
            forall|j: int| 0 <= j < nul_end ==> name@[j] != 0u8,
        decreases 26 - nul_end,
    {
        nul_end += 1;
    }
    proof {
        crate::model::lemma_trunc_nul_prefix(name@, nul_end as int);
    }
    let ghost t = trunc_nul(name@);
    let mut start: usize = 0;
    let mut j: usize = 0;
    while j < nul_end
        invariant
            j <= nul_end <= 26,
            name@.len() == 26,
            start <= j,
            start == 0 || name@[start - 1] == 47u8,
            forall|q: int| start <= q < j ==> name@[q] != 47u8,
        decreases nul_end - j,
    {
        if name[j] == 47 {
            start = j + 1;
        }
        j += 1;
    }
    proof {
        assert(t == name@.subrange(0, nul_end as int));
        if start == 0 {
            crate::model::lemma_base_name_no_slash(t);
            assert(t.subrange(start as int, nul_end as int) =~= t);
        } else {
            assert(t[start - 1] == 47u8);
            crate::model::lemma_base_name_last_slash(t, start - 1);
            assert(t.subrange(start as int, t.len() as int) =~= name@.subrange(
                start as int,
                nul_end as int,
            ));
        }
        assert(base_name(t) == name@.subrange(start as int, nul_end as int));
    }
    let mut r: [u8; 26] = [0; 26];
    let mut p: usize = 0;
    let count = nul_end - start;
    while p < count
        invariant
            p <= count,
            count == nul_end - start,
            start + count <= 26,
            name@.len() == 26,
            r@.len() == 26,
            forall|q: int| 0 <= q < p ==> r@[q] == name@[start + q],
            forall|q: int| p <= q < 26 ==> r@[q] == 0u8,
        decreases count - p,
    {
        r[p] = name[start + p];
        p += 1;
    }
    proof {
        assert(r@ =~= pad_bytes(base_name(trunc_nul(name@)), 26));
    }
    r
}

impl MicroFS {
    /// Looks a persisted entry up by name, returning a copy of the first
    /// matching record.
    pub fn find(&self, name: &str) -> (r: Option<Entry>)
        ensures
            ({
                let idx = crate::model::find_name(
                    models(self.entries@),
                    name.spec_bytes(),
                    0,
                );
                &&& (r is None <==> idx == -1)
                &&& (r matches Some(e) ==> idx >= 0 && e == self.entries@[idx])
            }),
    {
        match crate::del::find_entry(&self.entries, name.as_bytes()) {
            Some(i) => Some(self.entries[i]),
            None => None,
        }
    }

    /// Whether a persisted entry of that name exists.
    pub fn contains(&self, name: &str) -> (r: bool)
        ensures
            r == (crate::model::find_name(models(self.entries@), name.spec_bytes(), 0) >= 0),
    {
        self.find(name).is_some()
    }

    /// Returns the allocation table verbatim, as it would be written back.
    pub fn serialize(&self) -> (r: Vec<u8>)
        ensures
            r@ == self.fat@,
    {
        let mut r: Vec<u8> = Vec::new();
        let n = self.fat.len();
        let mut i: usize = 0;
        while i < n
            invariant
                n == self.fat@.len(),
                i <= n,
                r@ == self.fat@.take(i as int),
            decreases n - i,
        {
            r.push(self.fat[i]);
            proof {
                assert(r@ =~= self.fat@.take(i + 1));
            }
            i += 1;
        }
        proof {
            assert(self.fat@.take(n as int) =~= self.fat@);
        }
        r
    }
}

} // verus!
