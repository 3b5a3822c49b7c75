//! The library's laws: properties that relate the operations to each
//! other, stated over the same model the operations' contracts use and
//! proved once for all inputs.

use vstd::prelude::*;

use crate::add::link_written;
use crate::create::creatable;
use crate::model::{
    chain_in_data_region, le16_val, lemma_le16_round, lemma_le32_round, lemma_parse_zeros,
    lemma_records_len, lemma_root_entry_bound, lemma_total_covers_blocks, lemma_write_staged_frame,
    lemma_write_staged_len, overlay, pad_bytes, renamed_model, sb_wf, spec_block_bytes,
    spec_capacity, spec_create_image, spec_dir_bytes, spec_entries_offset, spec_entries_size,
    spec_entry_record, spec_parse_entries, spec_root_entry, spec_saved_image, spec_walk,
    spec_write_staged, u16_byte, u32_byte, EntryModel,
};
use crate::model::{find_name, lemma_chain_read_back, read_chain, spec_write_chunks, trunc_nul};
use crate::openable;
use crate::SuperBlock;

verus! {

/// Walking the table after a chain has been linked yields exactly the
/// linked blocks: starting from the first taken block, every hop follows
/// the written links and the walk ends at the end-of-chain mark after
/// exactly as many hops as blocks were taken.
///
/// The hypotheses are exactly what `add` ensures of a successful
/// allocation: the taken blocks are valid data indices and the table was
/// rewritten by `link_written`.
pub proof fn lemma_add_chain_walk(old_fat: Seq<u8>, new_fat: Seq<u8>, taken: Seq<int>)
    requires
        link_written(old_fat, new_fat, taken),
        taken.len() >= 1,
        taken.len() <= old_fat.len(),
        old_fat.len() <= 255,
        forall|k: int| 0 <= k < taken.len() ==> 1 <= #[trigger] taken[k] < old_fat.len(),
    ensures
        spec_walk(new_fat, taken[0], new_fat.len()) == Some(taken),
{
    lemma_linked_suffix_walk(old_fat, new_fat, taken, 0, new_fat.len());
    assert(taken.skip(0) =~= taken);
}

/// Walking from the `j`-th taken block yields the suffix of the taken
/// blocks from `j` on.
proof fn lemma_linked_suffix_walk(
    old_fat: Seq<u8>,
    new_fat: Seq<u8>,
    taken: Seq<int>,
    j: int,
    fuel: nat,
)
    requires
        link_written(old_fat, new_fat, taken),
        0 <= j < taken.len(),
        old_fat.len() <= 255,
        forall|k: int| 0 <= k < taken.len() ==> 1 <= #[trigger] taken[k] < old_fat.len(),
        fuel >= taken.len() - j,
    ensures
        spec_walk(new_fat, taken[j], fuel) == Some(taken.skip(j)),
    decreases taken.len() - j,
{
    if j == taken.len() - 1 {
        assert(new_fat[taken[j]] == 0u8);
        assert(taken.skip(j) =~= seq![taken[j]]);
    } else {
        assert(new_fat[taken[j]] == taken[j + 1] as u8);
        assert(new_fat[taken[j]] as int == taken[j + 1]);
        assert(new_fat[taken[j]] != 0u8);
        lemma_linked_suffix_walk(old_fat, new_fat, taken, j + 1, (fuel - 1) as nat);
        assert(taken.skip(j) =~= seq![taken[j]] + taken.skip(j + 1));
    }
}

/// Adding a file and then deleting it restores the allocation table to its
/// state before the add: the delete's walk from the new record's start
/// finds exactly the blocks the add took, and marking them free again
/// yields the old table byte for byte.
///
/// The hypotheses are exactly what `add` ensures of a successful
/// allocation (all taken blocks were free, and the table was rewritten by
/// `link_written`) together with what `del` ensures of the table it leaves
/// (the walked chain free, everything else untouched).
pub proof fn lemma_add_del_round_trip(
    old_fat: Seq<u8>,
    new_fat: Seq<u8>,
    freed_fat: Seq<u8>,
    taken: Seq<int>,
)
    requires
        link_written(old_fat, new_fat, taken),
        taken.len() >= 1,
        taken.len() <= old_fat.len(),
        old_fat.len() <= 255,
        forall|k: int|
            0 <= k < taken.len() ==> 1 <= #[trigger] taken[k] < old_fat.len()
                && old_fat[taken[k]] == 0xffu8,
        freed_fat.len() == new_fat.len(),
        forall|b: int| taken.contains(b) ==> freed_fat[b] == 0xffu8,
        forall|j: int|
            0 <= j < new_fat.len() && !taken.contains(j) ==> freed_fat[j] == new_fat[j],
    ensures
        spec_walk(new_fat, taken[0], new_fat.len()) == Some(taken),
        freed_fat == old_fat,
{
    lemma_add_chain_walk(old_fat, new_fat, taken);
    assert forall|j: int| 0 <= j < old_fat.len() implies freed_fat[j] == old_fat[j] by {
        if taken.contains(j) {
            let k = choose|k: int| 0 <= k < taken.len() && taken[k] == j;
            assert(old_fat[taken[k]] == 0xffu8);
        }
    }
    assert(freed_fat =~= old_fat);
}

/// Creating an image and opening it again yields the same header: the
/// freshly created bytes are accepted by `open`, the stored block size,
/// label and signature read back unchanged, the capacity and root block
/// re-derived from the created bytes equal the derived header's, the
/// allocation table reads back all free, and the directory reads back
/// empty.
///
/// The hypotheses on `sb` are exactly what `create` ensures of the header
/// it derives.
pub proof fn lemma_create_open_round_trip(sb: SuperBlock, bs: u8, size: usize)
    requires
        creatable(bs, size),
        sb.sector_size == 512,
        sb.block_size == bs,
        sb.fat_size == spec_capacity(bs, size),
        sb.root_entry == spec_root_entry(bs, size),
        sb.signature == 0x55aa,
    ensures
        ({
            let img = spec_create_image(sb, size);
            &&& openable(img)
            &&& img[13] == bs
            &&& spec_capacity(img[13], img.len() as usize) == sb.fat_size
            &&& spec_root_entry(img[13], img.len() as usize) == sb.root_entry
            &&& img.subrange(82, 90) == sb.label@
            &&& le16_val(img[510], img[511]) == 0x55aa
            &&& img.subrange(512, 512 + sb.fat_size as int) == Seq::new(
                sb.fat_size as nat,
                |i: int| 0xffu8,
            )
            &&& spec_parse_entries(
                img.subrange(
                    spec_entries_offset(sb),
                    spec_entries_offset(sb) + spec_entries_size(sb),
                ),
                (spec_entries_size(sb) / 32) as nat,
            ) == Seq::<EntryModel>::empty()
        }),
{
    let img = spec_create_image(sb, size);
    let cap = spec_capacity(bs, size);
    let bb = spec_block_bytes(bs);
    lemma_root_entry_bound(bs, size);
    lemma_total_covers_blocks(bs, size);
    vstd::arithmetic::mul::lemma_mul_inequality(sb.root_entry as int, cap, bb);
    vstd::arithmetic::mul::lemma_mul_inequality(sb.root_entry as int + 1, cap, bb);
    assert((sb.root_entry as int + 1) * bb == sb.root_entry as int * bb + bb)
        by (nonlinear_arith);
    assert(img.len() >= 512 + cap);

    // The signature bytes read back as the magic value.
    assert(img[510] == u16_byte(sb.signature, 0));
    assert(img[511] == u16_byte(sb.signature, 1));
    assert(le16_val(img[510], img[511]) == 0x55aa);

    // The capacity derived from the created length equals the derived
    // capacity: the created length is the whole sectors of `size`.
    let total = (size as int / 512) * 512;
    assert(img.len() == total);
    vstd::arithmetic::div_mod::lemma_div_denominator(size as int, 512, bs as int);
    vstd::arithmetic::div_mod::lemma_div_denominator(total, 512, bs as int);
    vstd::arithmetic::div_mod::lemma_div_by_multiple(size as int / 512, 512);
    assert((size as int / 512) * 512 == 512 * (size as int / 512)) by (nonlinear_arith);
    assert(total / 512 == size as int / 512);
    assert(spec_capacity(bs, total as usize) == cap);

    assert(img.subrange(82, 90) =~= sb.label@);
    assert(img.subrange(512, 512 + sb.fat_size as int) =~= Seq::new(
        sb.fat_size as nat,
        |i: int| 0xffu8,
    ));

    // The directory region of a fresh image is all zeros, so it parses to
    // no records.
    let off = spec_entries_offset(sb);
    let region = img.subrange(off, off + spec_entries_size(sb));
    assert forall|i: int| 0 <= i < region.len() implies region[i] == 0u8 by {
        assert(region[i] == img[off + i]);
        assert(off + i >= 512 + cap);
    }
    lemma_parse_zeros(region, (spec_entries_size(sb) / 32) as nat);
}

/// Saving is idempotent: saving once and then saving the merged,
/// unchanged session again writes a byte-identical container. The first
/// save writes the table, the directory (persisted entries, then staged
/// entries under their re-derived names) and the staged contents; the
/// second save, whose session holds the merged entries and nothing
/// staged, writes the very same table bytes and directory bytes over
/// themselves.
///
/// The hypotheses are the well-formedness `save` itself requires, plus
/// what holds of chains that `add` allocated: every staged chain walks and
/// lies wholly in the data region.
pub proof fn lemma_save_idempotent(
    im: Seq<u8>,
    sb: SuperBlock,
    fat: Seq<u8>,
    persisted: Seq<EntryModel>,
    staged: Seq<EntryModel>,
    data: Seq<Seq<u8>>,
)
    requires
        sb_wf(sb),
        fat.len() == sb.fat_size as int,
        32 * (persisted.len() + staged.len()) <= spec_entries_size(sb),
        im.len() >= sb.fat_size as int * spec_block_bytes(sb.block_size),
        forall|t: int|
            0 <= t < staged.len() ==> #[trigger] chain_in_data_region(
                fat,
                staged[t].start as int,
                sb,
            ),
    ensures
        spec_saved_image(
            spec_saved_image(im, sb, fat, persisted, staged, data),
            sb,
            fat,
            persisted + staged.map_values(|m: EntryModel| renamed_model(m)),
            Seq::<EntryModel>::empty(),
            Seq::<Seq<u8>>::empty(),
        ) == spec_saved_image(im, sb, fat, persisted, staged, data),
{
    let bb = spec_block_bytes(sb.block_size);
    let cap = sb.fat_size as int;
    let off = spec_entries_offset(sb);
    let size = spec_entries_size(sb);
    let all = persisted + staged.map_values(|m: EntryModel| renamed_model(m));
    let dir = spec_dir_bytes(all, size);
    let dirend = off + size;

    vstd::arithmetic::mul::lemma_mul_inequality(sb.root_entry as int, cap, bb);
    vstd::arithmetic::mul::lemma_mul_inequality(sb.root_entry as int + 1, cap, bb);
    assert((sb.root_entry as int + 1) * bb == sb.root_entry as int * bb + bb)
        by (nonlinear_arith);
    lemma_records_len(all);
    assert(dir.len() == size);

    let s1 = overlay(im, 512, fat);
    let s2 = overlay(s1, off, dir);
    let first = spec_write_staged(s2, fat, staged, data, bb, 0);
    assert(first == spec_saved_image(im, sb, fat, persisted, staged, data));
    lemma_write_staged_len(s2, fat, staged, data, bb, 0);
    lemma_write_staged_frame(s2, fat, staged, data, sb, 0);

    let t1 = overlay(first, 512, fat);
    let t2 = overlay(t1, off, dir);
    assert(all + Seq::<EntryModel>::empty().map_values(|m: EntryModel| renamed_model(m))
        =~= all);
    assert(spec_saved_image(
        first,
        sb,
        fat,
        all,
        Seq::<EntryModel>::empty(),
        Seq::<Seq<u8>>::empty(),
    ) == t2);

    assert forall|q: int| 0 <= q < first.len() implies t2[q] == first[q] by {
        if off <= q < dirend {
            assert(t2[q] == dir[q - off]);
            assert(first[q] == s2[q]);
            assert(s2[q] == dir[q - off]);
        } else if 512 <= q < 512 + cap {
            assert(t2[q] == t1[q]);
            assert(t1[q] == fat[q - 512]);
            assert(first[q] == s2[q]);
            assert(s2[q] == s1[q]);
            assert(s1[q] == fat[q - 512]);
        } else {
            assert(t2[q] == t1[q]);
            assert(t1[q] == first[q]);
        }
    }
    assert(t2 =~= first);
}

/// A directory region laid out from records whose names are full-width
/// and non-empty parses back to exactly those records: the round trip
/// through the on-disk directory layout is the identity.
pub proof fn lemma_dir_round_trip(es: Seq<EntryModel>, total: int)
    requires
        forall|k: int|
            0 <= k < es.len() ==> #[trigger] es[k].name.len() == 26 && es[k].name[0] != 0u8,
        32 * es.len() <= total,
        total % 32 == 0,
        total >= 0,
    ensures
        spec_parse_entries(spec_dir_bytes(es, total), (total / 32) as nat) == es,
    decreases es.len(),
{
    let dir = spec_dir_bytes(es, total);
    lemma_records_len(es);
    assert(dir.len() == total);
    if es.len() == 0 {
        lemma_parse_zeros(dir, (total / 32) as nat);
        assert(spec_parse_entries(dir, (total / 32) as nat) =~= es);
    } else {
        vstd::arithmetic::div_mod::lemma_fundamental_div_mod(total, 32);
        assert(total >= 32);
        assert(total / 32 >= 1) by (nonlinear_arith)
            requires
                total >= 32,
                total == 32 * (total / 32) + total % 32,
                total % 32 == 0,
        ;
        let e0 = es[0];
        let rec0 = spec_entry_record(e0);
        assert(dir[0] == rec0[0]);
        assert(rec0[0] == pad_bytes(e0.name, 26)[0]);
        assert(dir[0] != 0u8);

        assert(dir.subrange(0, 26) =~= e0.name);
        lemma_le16_round(e0.start);
        lemma_le32_round(e0.size);
        assert(dir[26] == u16_byte(e0.start, 0) && dir[27] == u16_byte(e0.start, 1));
        assert(dir[28] == u32_byte(e0.size, 0) && dir[29] == u32_byte(e0.size, 1) && dir[30]
            == u32_byte(e0.size, 2) && dir[31] == u32_byte(e0.size, 3));
        let parsed = spec_parse_entries(dir, (total / 32) as nat);
        let m0 = parsed[0];

        lemma_records_len(es.skip(1));
        assert(dir.skip(32) =~= spec_dir_bytes(es.skip(1), total - 32));
        assert((total - 32) % 32 == 0 && (total - 32) / 32 == total / 32 - 1) by (nonlinear_arith)
            requires
                total % 32 == 0,
                total >= 32,
                total == 32 * (total / 32) + total % 32,
                total - 32 == 32 * (total / 32 - 1) + (total - 32) % 32 + (total - 32) / 32 * 0,
        ;
        lemma_dir_round_trip(es.skip(1), total - 32);
        assert(parsed == seq![m0] + es.skip(1));
        assert(m0.name == e0.name);
        assert(m0.start == e0.start);
        assert(m0.size == e0.size);
        assert(m0 == e0);
        assert(seq![e0] + es.skip(1) =~= es);
    }
}

/// Saving one staged file and opening the container again yields the file
/// back: the allocation table reads back unchanged, the directory reads
/// back as the persisted records followed by the staged record (its name
/// re-derived, its start block and byte size intact), and the bytes stored
/// in the record's chain equal the staged contents exactly.
///
/// The hypotheses are what holds after `add` staged the file: its chain
/// walks, lies in the data region, consists of distinct blocks, and is
/// large enough for the contents; and every record name starts non-zero
/// (an empty name would read back as an empty slot).
pub proof fn lemma_save_open_round_trip(
    im: Seq<u8>,
    sb: SuperBlock,
    fat: Seq<u8>,
    persisted: Seq<EntryModel>,
    staged1: EntryModel,
    data1: Seq<u8>,
)
    requires
        sb_wf(sb),
        fat.len() == sb.fat_size as int,
        32 * (persisted.len() + 1) <= spec_entries_size(sb),
        im.len() >= sb.fat_size as int * spec_block_bytes(sb.block_size),
        spec_walk(fat, staged1.start as int, fat.len()) is Some,
        chain_in_data_region(fat, staged1.start as int, sb),
        ({
            let chain = spec_walk(fat, staged1.start as int, fat.len())->Some_0;
            &&& data1.len() <= chain.len() * spec_block_bytes(sb.block_size)
            &&& (forall|p: int, q: int| 0 <= p < q < chain.len() ==> chain[p] != chain[q])
        }),
        forall|k: int|
            0 <= k < persisted.len() ==> #[trigger] persisted[k].name.len() == 26
                && persisted[k].name[0] != 0u8,
        renamed_model(staged1).name[0] != 0u8,
    ensures
        ({
            let saved = spec_saved_image(im, sb, fat, persisted, seq![staged1], seq![data1]);
            let chain = spec_walk(fat, staged1.start as int, fat.len())->Some_0;
            &&& saved.len() == im.len()
            &&& saved.subrange(512, 512 + sb.fat_size as int) == fat
            &&& spec_parse_entries(
                saved.subrange(
                    spec_entries_offset(sb),
                    spec_entries_offset(sb) + spec_entries_size(sb),
                ),
                (spec_entries_size(sb) / 32) as nat,
            ) == persisted.push(renamed_model(staged1))
            &&& read_chain(saved, chain, data1.len() as int, spec_block_bytes(sb.block_size))
                == data1
        }),
{
    let bb = spec_block_bytes(sb.block_size);
    let cap = sb.fat_size as int;
    let off = spec_entries_offset(sb);
    let size = spec_entries_size(sb);
    let staged = seq![staged1];
    let data = seq![data1];
    let renamed = staged.map_values(|m: EntryModel| renamed_model(m));
    let all = persisted + renamed;
    let dir = spec_dir_bytes(all, size);
    let chain = spec_walk(fat, staged1.start as int, fat.len())->Some_0;

    vstd::arithmetic::mul::lemma_mul_inequality(sb.root_entry as int, cap, bb);
    vstd::arithmetic::mul::lemma_mul_inequality(sb.root_entry as int + 1, cap, bb);
    assert((sb.root_entry as int + 1) * bb == sb.root_entry as int * bb + bb)
        by (nonlinear_arith);
    lemma_records_len(all);
    assert(renamed.len() == 1 && renamed[0] == renamed_model(staged1));
    assert(dir.len() == size);

    let s1 = overlay(im, 512, fat);
    let s2 = overlay(s1, off, dir);
    let saved = spec_write_staged(s2, fat, staged, data, bb, 0);
    assert(saved == spec_saved_image(im, sb, fat, persisted, staged, data));
    assert(staged[0] == staged1);
    assert(data[0] == data1);
    let written = spec_write_chunks(s2, chain, data1, bb, 0);
    assert(saved == spec_write_staged(written, fat, staged, data, bb, 1));
    assert(spec_write_staged(written, fat, staged, data, bb, 1) == written);
    lemma_write_staged_len(s2, fat, staged, data, bb, 0);
    lemma_write_staged_frame(s2, fat, staged, data, sb, 0);
    assert forall|q: int|
        0 <= q < s2.len() && q < (sb.root_entry as int + 1) * bb implies saved[q] == s2[q] by {
        assert(spec_write_staged(s2, fat, staged, data, bb, 0)[q] == s2[q]);
    }

    // The table region reads back unchanged.
    assert forall|q: int| 512 <= q < 512 + cap implies saved[q] == fat[q - 512] by {
        assert(saved[q] == s2[q]);
        assert(s2[q] == s1[q]);
    }
    assert(saved.subrange(512, 512 + cap) =~= fat);

    // The directory region reads back as the laid-out records.
    assert forall|q: int| off <= q < off + size implies saved[q] == dir[q - off] by {
        assert(saved[q] == s2[q]);
    }
    assert(saved.subrange(off, off + size) =~= dir);
    assert(512 * sb.block_size as int % 32 == 0 && 512 * sb.block_size as int / 32 == 16
        * sb.block_size as int) by (nonlinear_arith);
    assert forall|k: int| 0 <= k < all.len() implies #[trigger] all[k].name.len() == 26
        && all[k].name[0] != 0u8 by {
        if k == persisted.len() {
            assert(all[k] == renamed_model(staged1));
        } else {
            assert(all[k] == persisted[k]);
        }
    }
    lemma_dir_round_trip(all, size);
    assert(all =~= persisted.push(renamed_model(staged1)));

    // The chain's bytes read back as the staged contents.
    crate::model::lemma_walk_props(fat, staged1.start as int, fat.len());
    assert forall|p: int| 0 <= p < chain.len() implies 0 <= #[trigger] chain[p] && (chain[p] + 1)
        * bb <= s2.len() by {
        vstd::arithmetic::mul::lemma_mul_inequality(chain[p] + 1, cap, bb);
    }
    lemma_chain_read_back(s2, chain, data1, bb);
}

/// When no record at or after `i` carries the name, the lookup finds
/// nothing.
proof fn lemma_find_name_none(es: Seq<EntryModel>, nm: Seq<u8>, i: int)
    requires
        forall|k: int| i <= k < es.len() ==> trunc_nul(#[trigger] es[k].name) != nm,
    ensures
        find_name(es, nm, i) == -1,
    decreases es.len() - i,
{
    if 0 <= i < es.len() {
        lemma_find_name_none(es, nm, i + 1);
    }
}

/// Deleting the only record of a name removes that name from the
/// directory: after the record is taken out, a lookup of the name finds
/// nothing, so the name no longer appears in the listing.
pub proof fn lemma_del_removes_name(es: Seq<EntryModel>, nm: Seq<u8>, idx: int)
    requires
        0 <= idx < es.len(),
        trunc_nul(es[idx].name) == nm,
        forall|k: int| 0 <= k < es.len() && k != idx ==> trunc_nul(#[trigger] es[k].name) != nm,
    ensures
        find_name(es.remove(idx), nm, 0) == -1,
{
    let removed = es.remove(idx);
    assert forall|k: int| 0 <= k < removed.len() implies trunc_nul(#[trigger] removed[k].name)
        != nm by {
        if k < idx {
            assert(removed[k] == es[k]);
        } else {
            assert(removed[k] == es[k + 1]);
        }
    }
    lemma_find_name_none(removed, nm, 0);
}

} // verus!
