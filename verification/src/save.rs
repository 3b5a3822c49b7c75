//! Saving a session into its container bytes: the allocation table written
//! back, the directory region rewritten from the persisted entries followed
//! by the staged entries under their re-derived names, the staged contents
//! written into their chains, and the staged entries merged into the
//! persisted set.

use vstd::prelude::*;

use crate::model::{
    fs_wf, models, overlay, renamed_model, spec_block_bytes, spec_dir_bytes, spec_entries_offset,
    spec_entries_size, spec_entry_record, spec_records, spec_saved_image, spec_walk,
    spec_write_chunks, spec_write_staged, EntryModel,
};
use crate::model::{lemma_records_len, lemma_records_slot, lemma_walk_props};
use crate::utils::rederive_name;
use crate::Entry;
use crate::FsError;
use crate::MicroFS;

verus! {

/// Whether every staged record's chain can be walked in `fat`.
pub open spec fn staged_walkable(fat: Seq<u8>, staged: Seq<EntryModel>) -> bool {
    forall|k: int|
        0 <= k < staged.len() ==> spec_walk(fat, staged[k].start as int, fat.len()) is Some
}

/// Whether `c` is exactly the chain that walking `fat` from the record's
/// start block yields.
pub open spec fn chain_matches(fat: Seq<u8>, e: Entry, c: Vec<usize>) -> bool {
    &&& spec_walk(fat, e.start as int, fat.len()) is Some
    &&& c@.map_values(|x: usize| x as int) == spec_walk(fat, e.start as int, fat.len())->Some_0
}

/// What a successful save leaves in the session: the staged entries merged
/// into the persisted set under their re-derived names, the staged sets
/// cleared, everything else untouched.
pub open spec fn merged_session(old_fs: MicroFS, new_fs: MicroFS) -> bool {
    &&& models(new_fs.entries@) == models(old_fs.entries@) + models(
        old_fs.new_entries@,
    ).map_values(|m: EntryModel| renamed_model(m))
    &&& new_fs.new_entries@.len() == 0
    &&& new_fs.new_data@.len() == 0
    &&& new_fs.fat == old_fs.fat
    &&& new_fs.sb == old_fs.sb
    &&& new_fs.image == old_fs.image
    &&& new_fs.valid == old_fs.valid
}

impl MicroFS {
    /// Writes the session into the container bytes: the allocation table at
    /// its region, the whole directory region rewritten (persisted entries
    /// in order, then staged entries under names re-derived from their
    /// source paths), and each staged entry's buffered content into its
    /// chain, block by block. After a successful save the staged entries
    /// are merged into the persisted set and the staged sets are cleared,
    /// so saving again writes identical bytes. When some staged chain
    /// cannot be walked, `CorruptChain` is reported before anything is
    /// touched.
    pub fn save(&mut self, image: &mut Vec<u8>) -> (r: Result<(), FsError>)
        requires
            fs_wf(*old(self)),
            32 * (old(self).entries@.len() + old(self).new_entries@.len()) <= spec_entries_size(
                old(self).sb,
            ),
            old(image)@.len() >= old(self).sb.fat_size as int * spec_block_bytes(
                old(self).sb.block_size,
            ),
        ensures
            r is Ok <==> staged_walkable(old(self).fat@, models(old(self).new_entries@)),
            r matches Err(e) ==> e == FsError::CorruptChain && *final(self) == *old(self)
                && *final(image) == *old(image),
            r is Ok ==> merged_session(*old(self), *final(self)),
            r is Ok ==> fs_wf(*final(self)),
            r is Ok ==> final(image)@ == spec_saved_image(
                old(image)@,
                old(self).sb,
                old(self).fat@,
                models(old(self).entries@),
                models(old(self).new_entries@),
                old(self).new_data.deep_view(),
            ),
    {
        let ghost staged_models = models(old(self).new_entries@);
        let staged_n = self.new_entries.len();

        // Walk every staged chain up front, so that a corrupt chain aborts
        // the save before any byte is written.
        let mut chains: Vec<Vec<usize>> = Vec::new();
        let mut k: usize = 0;
        while k < staged_n
            invariant
                *self == *old(self),
                staged_n == self.new_entries@.len(),
                staged_models == models(self.new_entries@),
                k <= staged_n,
                chains@.len() == k,
                forall|t: int|
                    0 <= t < k ==> #[trigger] chain_matches(
                        self.fat@,
                        self.new_entries@[t],
                        chains@[t],
                    ),
            decreases staged_n - k,
        {
            let e = self.new_entries[k];
            match self.get_blocks(&e) {
                Err(err) => {
                    proof {
                        assert(staged_models[k as int].start == self.new_entries@[k as int].start);
                        assert(!staged_walkable(old(self).fat@, staged_models));
                    }
                    return Err(err);
                },
                Ok(c) => {
                    let ghost chains0 = chains@;
                    proof {
                        assert(chain_matches(self.fat@, e, c));
                    }
                    chains.push(c);
                    proof {
                        assert forall|t: int|
                            0 <= t < k + 1 implies #[trigger] chain_matches(
                            self.fat@,
                            self.new_entries@[t],
                            chains@[t],
                        ) by {
                            if t < k {
                                assert(chains@[t] == chains0[t]);
                                assert(chain_matches(self.fat@, self.new_entries@[t], chains0[t]));
                            } else {
                                assert(chains@[t] == c);
                                assert(self.new_entries@[t] == e);
                            }
                        }
                    }
                },
            }
            k += 1;
        }
        proof {
            assert forall|t: int| 0 <= t < staged_n implies spec_walk(
                old(self).fat@,
                staged_models[t].start as int,
                old(self).fat@.len(),
            ) is Some by {
                assert(chain_matches(self.fat@, self.new_entries@[t], chains@[t]));
                assert(staged_models[t].start == self.new_entries@[t].start);
            }
        }

        let bb = self.entries_size();  // the directory block's bytes: one whole block
        let il = image.len();
        let ghost img0 = image@;
        let ghost cap = self.sb.fat_size as int;
        proof {
            vstd::arithmetic::mul::lemma_mul_inequality(
                self.sb.root_entry as int,
                cap,
                spec_block_bytes(self.sb.block_size),
            );
            vstd::arithmetic::mul::lemma_mul_inequality(
                self.sb.root_entry as int + 1,
                cap,
                spec_block_bytes(self.sb.block_size),
            );
            assert((self.sb.root_entry as int + 1) * spec_block_bytes(self.sb.block_size)
                == self.sb.root_entry as int * spec_block_bytes(self.sb.block_size)
                + spec_block_bytes(self.sb.block_size)) by (nonlinear_arith);
        }

        // The allocation table, written back at its fixed offset.
        let fat_len = self.fat.len();
        let mut i: usize = 0;
        while i < fat_len
            invariant
                *self == *old(self),
                fat_len == self.fat@.len(),
                512 + fat_len <= il,
                il == image@.len(),
                img0.len() == il,
                i <= fat_len,
                forall|q: int| 512 <= q < 512 + i ==> image@[q] == self.fat@[q - 512],
                forall|q: int|
                    0 <= q < il && !(512 <= q < 512 + i) ==> image@[q] == img0[q],
            decreases fat_len - i,
        {
            image[512 + i] = self.fat[i];
            i += 1;
        }
        proof {
            assert(image@ =~= overlay(img0, 512, self.fat@));
        }
        let ghost s1 = image@;

        // The directory region, zeroed and rewritten whole.
        let off = self.root_entry();
        let size = self.entries_size();
        let mut z: usize = 0;
        while z < size
            invariant
                *self == *old(self),
                il == image@.len(),
                s1.len() == il,
                off as int == spec_entries_offset(self.sb),
                size as int == spec_entries_size(self.sb),
                off + size <= il,
                z <= size,
                forall|q: int| off <= q < off + z ==> image@[q] == 0u8,
                forall|q: int|
                    0 <= q < il && !(off <= q < off + z) ==> image@[q] == s1[q],
            decreases size - z,
        {
            image[off + z] = 0;
            z += 1;
        }

        let ghost all = models(old(self).entries@) + staged_models.map_values(
            |m: EntryModel| renamed_model(m),
        );
        let n_p = self.entries.len();
        let mut t: usize = 0;
        while t < n_p
            invariant
                *self == *old(self),
                staged_models == models(self.new_entries@),
                staged_n == self.new_entries@.len(),
                n_p == self.entries@.len(),
                all == models(self.entries@) + staged_models.map_values(
                    |m: EntryModel| renamed_model(m),
                ),
                all.len() == n_p + staged_n,
                il == image@.len(),
                s1.len() == il,
                off as int == spec_entries_offset(self.sb),
                size as int == spec_entries_size(self.sb),
                off + size <= il,
                32 * (n_p + staged_n) <= size,
                t <= n_p,
                forall|u: int|
                    0 <= u < t ==> image@.subrange(off + 32 * u, off + 32 * u + 32)
                        == spec_entry_record(#[trigger] all[u]),
                forall|q: int| off + 32 * t <= q < off + size ==> image@[q] == 0u8,
                forall|q: int|
                    0 <= q < il && !(off <= q < off + size) ==> image@[q] == s1[q],
            decreases n_p - t,
        {
            let e = self.entries[t];
            let ghost before = image@;
            write_record(image, off + 32 * t, &e.name, e.start, e.size);
            proof {
                assert(all[t as int] == models(self.entries@)[t as int]);
                assert(all[t as int] == e@);
                assert(spec_entry_record(e@).len() == 32);
                assert(image@.subrange(off + 32 * t, off + 32 * t + 32) =~= spec_entry_record(
                    all[t as int],
                ));
                assert forall|u: int|
                    0 <= u < t implies image@.subrange(off + 32 * u, off + 32 * u + 32)
                    == spec_entry_record(#[trigger] all[u]) by {
                    assert(before.subrange(off + 32 * u, off + 32 * u + 32) == spec_entry_record(
                        all[u],
                    ));
                    assert(image@.subrange(off + 32 * u, off + 32 * u + 32) =~= before.subrange(
                        off + 32 * u,
                        off + 32 * u + 32,
                    ));
                }
            }
            t += 1;
        }
        let mut t2: usize = 0;
        while t2 < staged_n
            invariant
                *self == *old(self),
                staged_models == models(self.new_entries@),
                staged_n == self.new_entries@.len(),
                n_p == self.entries@.len(),
                all == models(self.entries@) + staged_models.map_values(
                    |m: EntryModel| renamed_model(m),
                ),
                all.len() == n_p + staged_n,
                il == image@.len(),
                s1.len() == il,
                off as int == spec_entries_offset(self.sb),
                size as int == spec_entries_size(self.sb),
                off + size <= il,
                32 * (n_p + staged_n) <= size,
                t2 <= staged_n,
                forall|u: int|
                    0 <= u < n_p + t2 ==> image@.subrange(off + 32 * u, off + 32 * u + 32)
                        == spec_entry_record(#[trigger] all[u]),
                forall|q: int|
                    off + 32 * (n_p + t2) <= q < off + size ==> image@[q] == 0u8,
                forall|q: int|
                    0 <= q < il && !(off <= q < off + size) ==> image@[q] == s1[q],
            decreases staged_n - t2,
        {
            let e = self.new_entries[t2];
            let nm = rederive_name(&e.name);
            let ghost before = image@;
            write_record(image, off + 32 * (n_p + t2), &nm, e.start, e.size);
            proof {
                let u0 = n_p + t2;
                assert(all[u0 as int] == renamed_model(staged_models[t2 as int]));
                assert(staged_models[t2 as int] == e@);
                assert(nm@ == renamed_model(e@).name);
                assert(spec_entry_record((EntryModel { name: nm@, start: e.start, size: e.size }))
                    == spec_entry_record(renamed_model(e@)));
                assert(image@.subrange(off + 32 * u0, off + 32 * u0 + 32) =~= spec_entry_record(
                    all[u0 as int],
                ));
                assert forall|u: int|
                    0 <= u < u0 implies image@.subrange(off + 32 * u, off + 32 * u + 32)
                    == spec_entry_record(#[trigger] all[u]) by {
                    assert(before.subrange(off + 32 * u, off + 32 * u + 32) == spec_entry_record(
                        all[u],
                    ));
                    assert(image@.subrange(off + 32 * u, off + 32 * u + 32) =~= before.subrange(
                        off + 32 * u,
                        off + 32 * u + 32,
                    ));
                }
            }
            t2 += 1;
        }
        proof {
            lemma_records_len(all);
            assert forall|q: int| 0 <= q < il implies image@[q] == overlay(
                s1,
                off as int,
                spec_dir_bytes(all, size as int),
            )[q] by {
                let d = q - off;
                if 0 <= d < size {
                    if d < 32 * all.len() {
                        vstd::arithmetic::div_mod::lemma_fundamental_div_mod(d, 32);
                        vstd::arithmetic::div_mod::lemma_mod_bound(d, 32);
                        vstd::arithmetic::div_mod::lemma_div_pos_is_pos(d, 32);
                        let u = d / 32;
                        let rr = d % 32;
                        assert(u < all.len()) by (nonlinear_arith)
                            requires
                                d < 32 * all.len(),
                                d == 32 * u + rr,
                                0 <= rr < 32,
                                0 <= u,
                        ;
                        lemma_records_slot(all, u);
                        assert(spec_entry_record(all[u]).len() == 32);
                        assert(image@[q] == image@.subrange(off + 32 * u, off + 32 * u + 32)[rr]);
                        assert(spec_records(all)[d] == spec_records(all).subrange(
                            32 * u,
                            32 * u + 32,
                        )[rr]);
                    }
                }
            }
            assert(image@ =~= overlay(s1, off as int, spec_dir_bytes(all, size as int)));
        }
        let ghost s2 = image@;

        // The staged contents, block by block into their chains.
        let ghost dseq = old(self).new_data.deep_view();
        let mut w: usize = 0;
        while w < staged_n
            invariant
                *self == *old(self),
                fs_wf(*self),
                staged_models == models(self.new_entries@),
                staged_n == self.new_entries@.len(),
                staged_n == self.new_data@.len(),
                dseq == self.new_data.deep_view(),
                chains@.len() == staged_n,
                forall|t: int|
                    0 <= t < staged_n ==> #[trigger] chain_matches(
                        self.fat@,
                        self.new_entries@[t],
                        chains@[t],
                    ),
                il == image@.len(),
                s2.len() == il,
                cap == self.sb.fat_size as int,
                il >= cap * spec_block_bytes(self.sb.block_size),
                bb as int == spec_block_bytes(self.sb.block_size),
                w <= staged_n,
                spec_write_staged(
                    s2,
                    self.fat@,
                    staged_models,
                    dseq,
                    spec_block_bytes(self.sb.block_size),
                    0,
                ) == spec_write_staged(
                    image@,
                    self.fat@,
                    staged_models,
                    dseq,
                    spec_block_bytes(self.sb.block_size),
                    w as nat,
                ),
            decreases staged_n - w,
        {
            proof {
                assert(chain_matches(self.fat@, self.new_entries@[w as int], chains@[w as int]));
                lemma_walk_props(
                    self.fat@,
                    self.new_entries@[w as int].start as int,
                    self.fat@.len(),
                );
                let chain = spec_walk(
                    self.fat@,
                    self.new_entries@[w as int].start as int,
                    self.fat@.len(),
                )->Some_0;
                assert(chains@[w as int]@.map_values(|x: usize| x as int) == chain);
                assert(chains@[w as int]@.len() == chain.len());
                assert forall|p: int|
                    0 <= p < chains@[w as int]@.len() implies (chains@[w as int]@[p] as int + 1)
                    * spec_block_bytes(self.sb.block_size) <= il by {
                    assert(chains@[w as int]@.map_values(|x: usize| x as int)[p] == chain[p]);
                    assert(chain[p] < cap);
                    vstd::arithmetic::mul::lemma_mul_inequality(
                        chain[p] + 1,
                        cap,
                        spec_block_bytes(self.sb.block_size),
                    );
                }
            }
            let ghost img_before = image@;
            self.write_data(&chains[w], &self.new_data[w], image);
            proof {
                crate::model::lemma_write_chunks_len(
                    img_before,
                    chains@[w as int]@.map_values(|x: usize| x as int),
                    self.new_data@[w as int]@,
                    spec_block_bytes(self.sb.block_size),
                    0,
                );
                let bbs = spec_block_bytes(self.sb.block_size);
                let chain = spec_walk(
                    self.fat@,
                    staged_models[w as int].start as int,
                    self.fat@.len(),
                )->Some_0;
                assert(staged_models[w as int].start == self.new_entries@[w as int].start);
                assert(dseq[w as int] == self.new_data@[w as int]@);
                assert(image@ == spec_write_chunks(img_before, chain, dseq[w as int], bbs, 0));
                assert(spec_write_staged(img_before, self.fat@, staged_models, dseq, bbs, w as nat)
                    == spec_write_staged(image@, self.fat@, staged_models, dseq, bbs, (w
                    + 1) as nat));
            }
            w += 1;
        }

        // Merge the staged entries, under their re-derived names, into the
        // persisted set.
        let ghost entries0 = models(old(self).entries@);
        let mut mg: usize = 0;
        while mg < staged_n
            invariant
                self.sb == old(self).sb,
                self.fat == old(self).fat,
                self.image == old(self).image,
                self.valid == old(self).valid,
                self.new_entries == old(self).new_entries,
                self.new_data == old(self).new_data,
                staged_models == models(self.new_entries@),
                staged_n == self.new_entries@.len(),
                mg <= staged_n,
                models(self.entries@) == entries0 + staged_models.map_values(
                    |m: EntryModel| renamed_model(m),
                ).take(mg as int),
            decreases staged_n - mg,
        {
            let e = self.new_entries[mg];
            let nm = rederive_name(&e.name);
            let ghost pre = self.entries@;
            self.entries.push(Entry { name: nm, start: e.start, size: e.size });
            proof {
                assert(staged_models[mg as int] == e@);
                let renamed = staged_models.map_values(|m: EntryModel| renamed_model(m));
                assert(renamed[mg as int] == renamed_model(e@));
                assert(self.entries@.last().name@ == renamed_model(e@).name);
                assert(self.entries@.last()@ == renamed[mg as int]);
                assert forall|q: int|
                    0 <= q < pre.len() implies models(self.entries@)[q] == models(pre)[q] by {
                    assert(self.entries@[q] == pre[q]);
                }
                assert(models(self.entries@).last() == self.entries@.last()@);
                assert(models(self.entries@) =~= models(pre).push(self.entries@.last()@));
                assert(entries0 + renamed.take(mg + 1) =~= (entries0 + renamed.take(
                    mg as int,
                )).push(renamed[mg as int]));
                assert(models(self.entries@) == entries0 + renamed.take(mg + 1));
            }
            mg += 1;
        }
        proof {
            let renamed = staged_models.map_values(|m: EntryModel| renamed_model(m));
            assert(renamed.take(staged_n as int) =~= renamed);
        }
        self.new_entries = Vec::new();
        self.new_data = Vec::new();
        Ok(())
    }
}

/// Writes one 32-byte directory record at `at`: the fixed name field, then
/// the start block and the byte size, little-endian.
fn write_record(image: &mut Vec<u8>, at: usize, name: &[u8; 26], start: u16, size: u32)
    requires
        at + 32 <= old(image)@.len(),
    ensures
        final(image)@.len() == old(image)@.len(),
        final(image)@ == overlay(
            old(image)@,
            at as int,
            spec_entry_record((EntryModel { name: name@, start, size })),
        ),
{
    let il = image.len();
    let mut j: usize = 0;
    while j < 26
        invariant
            j <= 26,
            il == image@.len(),
            at + 32 <= il,
            name@.len() == 26,
            forall|q: int| 0 <= q < j ==> image@[at + q] == name@[q],
            forall|q: int| 0 <= q < il && !(at <= q < at + j) ==> image@[q] == old(image)@[q],
        decreases 26 - j,
    {
        image[at + j] = name[j];
        j += 1;
    }
    image[at + 26] = (start % 256) as u8;
    image[at + 27] = (start / 256) as u8;
    image[at + 28] = (size % 256) as u8;
    image[at + 29] = (size / 256 % 256) as u8;
    image[at + 30] = (size / 65536 % 256) as u8;
    image[at + 31] = (size / 16777216) as u8;
    proof {
        assert(spec_entry_record((EntryModel { name: name@, start, size })).len() == 32);
        assert(crate::model::pad_bytes(name@, 26) =~= name@);
        assert(image@ =~= overlay(
            old(image)@,
            at as int,
            spec_entry_record((EntryModel { name: name@, start, size })),
        ));
    }
}

} // verus!
