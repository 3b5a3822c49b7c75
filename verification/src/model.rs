//! The mathematical model of the on-disk layout: how the header, the
//! allocation table, the directory region and the data region are laid out
//! as bytes, and how block chains are read from the allocation table.
//! Every contract of the library is stated over these functions.

use vstd::prelude::*;

use crate::Entry;
use crate::MicroFS;
use crate::SuperBlock;

verus! {

/// Whether `v` occurs in `s` (as an index value).
pub open spec fn in_seq(s: Seq<usize>, v: int) -> bool {
    exists|k: int| 0 <= k < s.len() && s[k] as int == v
}

/// The plain-value views of a sequence of records.
pub open spec fn models(es: Seq<Entry>) -> Seq<EntryModel> {
    es.map_values(|e: Entry| e@)
}

/// A session in its valid state: a well-formed header, an allocation table
/// of exactly the capacity, and the staged records parallel to their
/// buffered contents.
pub open spec fn fs_wf(fs: MicroFS) -> bool {
    &&& fs.valid
    &&& sb_wf(fs.sb)
    &&& fs.fat@.len() == fs.sb.fat_size as int
    &&& fs.new_entries@.len() == fs.new_data@.len()
}

/// `s` truncated to `n` bytes and zero-padded to exactly `n` bytes.
pub open spec fn pad_bytes(s: Seq<u8>, n: nat) -> Seq<u8> {
    Seq::new(n, |i: int| if i < s.len() { s[i] } else { 0u8 })
}

/// Bytes covered by one block: the sector size times the block size.
pub open spec fn spec_block_bytes(bs: u8) -> int {
    512 * bs as int
}

/// The table capacity derived from a block size and an image size: the
/// number of whole blocks the image holds.
pub open spec fn spec_capacity(bs: u8, size: usize) -> int {
    size as int / spec_block_bytes(bs)
}

/// The root-directory block index: the first block boundary at or after the
/// end of the allocation table (one header sector plus one table byte per
/// block of capacity).
pub open spec fn spec_root_entry(bs: u8, size: usize) -> int {
    let bb = spec_block_bytes(bs);
    let table_end = 512 + spec_capacity(bs, size);
    if table_end % bb == 0 {
        table_end / bb
    } else {
        table_end / bb + 1
    }
}

/// First block of the data-eligible range: the directory occupies the single
/// root-directory block, and everything below it is reserved metadata.
pub open spec fn spec_data_start(sb: SuperBlock) -> int {
    sb.root_entry as int + 1
}

/// Number of directory slots: the root-directory block holds 32-byte
/// records.
pub open spec fn spec_slot_count(sb: SuperBlock) -> int {
    spec_block_bytes(sb.block_size) / 32
}

/// Size in bytes of the directory region (the root-directory block).
pub open spec fn spec_entries_size(sb: SuperBlock) -> int {
    spec_block_bytes(sb.block_size)
}

/// Byte offset of the directory region.
pub open spec fn spec_entries_offset(sb: SuperBlock) -> int {
    sb.root_entry as int * spec_block_bytes(sb.block_size)
}

/// Number of blocks a file of `len` bytes occupies: one per whole block of
/// content, plus one extra always, so that even an exact multiple gets a
/// trailing block. This deliberately over-reserves by one block; the
/// format keeps it as a fixed rule.
pub open spec fn spec_blocks_needed(len: int, bs: u8) -> int {
    len / spec_block_bytes(bs) + 1
}

/// A header is well formed when its fields are mutually consistent and the
/// capacity leaves room for the directory block and fits the one-byte link
/// space of the allocation table.
pub open spec fn sb_wf(sb: SuperBlock) -> bool {
    &&& sb.sector_size == 512
    &&& sb.block_size >= 1
    &&& 1 <= sb.fat_size <= 254
    &&& sb.signature == 0x55aa
    &&& 512 + sb.fat_size as int <= sb.root_entry as int * spec_block_bytes(sb.block_size)
    &&& sb.root_entry as int + 1 < sb.fat_size as int
}

// ---------------------------------------------------------------------------
// Little-endian field encoding, written with division so that the proofs
// stay in linear arithmetic.

pub open spec fn u16_byte(v: u16, k: int) -> u8 {
    if k == 0 {
        (v as int % 256) as u8
    } else {
        (v as int / 256 % 256) as u8
    }
}

pub open spec fn u32_byte(v: u32, k: int) -> u8 {
    if k == 0 {
        (v as int % 256) as u8
    } else if k == 1 {
        (v as int / 256 % 256) as u8
    } else if k == 2 {
        (v as int / 65536 % 256) as u8
    } else {
        (v as int / 16777216 % 256) as u8
    }
}

/// The value read from two little-endian bytes.
pub open spec fn le16_val(lo: u8, hi: u8) -> int {
    lo as int + 256 * hi as int
}

/// The value read from four little-endian bytes.
pub open spec fn le32_val(b0: u8, b1: u8, b2: u8, b3: u8) -> int {
    b0 as int + 256 * b1 as int + 65536 * b2 as int + 16777216 * b3 as int
}

// ---------------------------------------------------------------------------
// The header sector.

/// Byte `i` of the encoded header sector: each field at its fixed offset,
/// little-endian, reserved ranges zero.
pub open spec fn spec_header_byte(sb: SuperBlock, i: int) -> u8 {
    if i == 11 {
        u16_byte(sb.sector_size, 0)
    } else if i == 12 {
        u16_byte(sb.sector_size, 1)
    } else if i == 13 {
        sb.block_size
    } else if 36 <= i < 40 {
        u32_byte(sb.fat_size, i - 36)
    } else if i == 42 {
        u16_byte(sb.version, 0)
    } else if i == 43 {
        u16_byte(sb.version, 1)
    } else if 44 <= i < 48 {
        u32_byte(sb.root_entry, i - 44)
    } else if 82 <= i < 90 {
        sb.label@[i - 82]
    } else if i == 510 {
        u16_byte(sb.signature, 0)
    } else if i == 511 {
        u16_byte(sb.signature, 1)
    } else {
        0u8
    }
}

/// The full encoded header sector.
pub open spec fn spec_header(sb: SuperBlock) -> Seq<u8> {
    Seq::new(512, |i: int| spec_header_byte(sb, i))
}

/// The bytes of a freshly created container: the header sector, an all-free
/// allocation table, and zeros up to the last whole sector of `size`.
pub open spec fn spec_create_image(sb: SuperBlock, size: usize) -> Seq<u8> {
    Seq::new(
        ((size as int / 512) * 512) as nat,
        |i: int|
            if i < 512 {
                spec_header_byte(sb, i)
            } else if i < 512 + sb.fat_size as int {
                0xffu8
            } else {
                0u8
            },
    )
}

// ---------------------------------------------------------------------------
// Names.

/// The prefix of `s` before its first zero byte (the whole of `s` when it
/// has none).
pub open spec fn trunc_nul(s: Seq<u8>) -> Seq<u8>
    decreases s.len(),
{
    if s.len() == 0 {
        s
    } else if s[0] == 0u8 {
        Seq::empty()
    } else {
        seq![s[0]] + trunc_nul(s.skip(1))
    }
}

/// The final path component of `s`: the suffix after the last `/` byte
/// (the whole of `s` when it has none).
pub open spec fn base_name(s: Seq<u8>) -> Seq<u8>
    decreases s.len(),
{
    if s.len() == 0 {
        s
    } else if s.last() == 47u8 {
        Seq::empty()
    } else {
        base_name(s.drop_last()).push(s.last())
    }
}

// ---------------------------------------------------------------------------
// The allocation table.

/// The ascending indices at or after `i` whose table entry is free.
pub open spec fn free_from(fat: Seq<u8>, i: int) -> Seq<int>
    decreases fat.len() - i,
{
    if i < 0 || i >= fat.len() {
        Seq::empty()
    } else if fat[i] == 0xffu8 {
        seq![i] + free_from(fat, i + 1)
    } else {
        free_from(fat, i + 1)
    }
}

/// The blocks a first-fit scan from `from` collects: the first `need` free
/// indices in ascending order, or every free index at or after `from` when
/// fewer than `need` are free.
pub open spec fn spec_first_free(fat: Seq<u8>, from: int, need: int) -> Seq<int> {
    let free = free_from(fat, from);
    if need <= free.len() {
        free.take(need)
    } else {
        free
    }
}

/// Follows chain links from `b` for at most `fuel` blocks: `None` on an
/// out-of-range link or when the chain does not end within `fuel` blocks
/// (which a cycle never does), else the ordered block list ending at the
/// end-of-chain mark.
pub open spec fn spec_walk(fat: Seq<u8>, b: int, fuel: nat) -> Option<Seq<int>>
    decreases fuel,
{
    if b < 0 || b >= fat.len() {
        None
    } else if fuel == 0 {
        None
    } else if fat[b] == 0u8 {
        Some(seq![b])
    } else {
        match spec_walk(fat, fat[b] as int, (fuel - 1) as nat) {
            Some(rest) => Some(seq![b] + rest),
            None => None,
        }
    }
}

// ---------------------------------------------------------------------------
// Directory records.

/// The plain-value view of a directory record.
pub struct EntryModel {
    pub name: Seq<u8>,
    pub start: u16,
    pub size: u32,
}

impl View for Entry {
    type V = EntryModel;

    open spec fn view(&self) -> EntryModel {
        EntryModel { name: self.name@, start: self.start, size: self.size }
    }
}

/// The staged entry as `save` persists it: the name re-derived as the final
/// path component of the stored source path, zero-padded back to the fixed
/// width.
pub open spec fn renamed_model(m: EntryModel) -> EntryModel {
    EntryModel { name: pad_bytes(base_name(trunc_nul(m.name)), 26), start: m.start, size: m.size }
}

/// The 32 bytes of one directory record: the name field, then the start
/// block and the byte size, little-endian.
pub open spec fn spec_entry_record(m: EntryModel) -> Seq<u8> {
    pad_bytes(m.name, 26) + seq![
        u16_byte(m.start, 0),
        u16_byte(m.start, 1),
        u32_byte(m.size, 0),
        u32_byte(m.size, 1),
        u32_byte(m.size, 2),
        u32_byte(m.size, 3),
    ]
}

/// The records of `es` laid out back to back.
pub open spec fn spec_records(es: Seq<EntryModel>) -> Seq<u8>
    decreases es.len(),
{
    if es.len() == 0 {
        Seq::empty()
    } else {
        spec_entry_record(es[0]) + spec_records(es.skip(1))
    }
}

/// The whole directory region: the records, then zeroed slots up to `total`
/// bytes.
pub open spec fn spec_dir_bytes(es: Seq<EntryModel>, total: int) -> Seq<u8> {
    spec_records(es) + Seq::new((total - 32 * es.len()) as nat, |i: int| 0u8)
}

/// The records read from a directory region of `nslots` slots: a slot is
/// present exactly when the first byte of its name is non-zero.
pub open spec fn spec_parse_entries(region: Seq<u8>, nslots: nat) -> Seq<EntryModel>
    decreases nslots,
{
    if nslots == 0 || region.len() < 32 {
        Seq::empty()
    } else {
        let rest = spec_parse_entries(region.skip(32), (nslots - 1) as nat);
        if region[0] != 0u8 {
            seq![
                EntryModel {
                    name: region.subrange(0, 26),
                    start: (region[26] as int + 256 * region[27] as int) as u16,
                    size: (region[28] as int + 256 * region[29] as int + 65536 * region[30] as int
                        + 16777216 * region[31] as int) as u32,
                },
            ] + rest
        } else {
            rest
        }
    }
}

// ---------------------------------------------------------------------------
// Writing regions of the image.

/// `base` with `content` written at byte offset `at` (clipped to the length
/// of `base`).
pub open spec fn overlay(base: Seq<u8>, at: int, content: Seq<u8>) -> Seq<u8> {
    Seq::new(
        base.len(),
        |i: int|
            if at <= i < at + content.len() {
                content[i - at]
            } else {
                base[i]
            },
    )
}

/// Chunk `j` of `data` when cut into block-sized pieces, clipped to the data
/// length.
pub open spec fn spec_chunk(data: Seq<u8>, bb: int, j: int) -> Seq<u8> {
    let lo = if j * bb < data.len() {
        j * bb
    } else {
        data.len() as int
    };
    let hi = if (j + 1) * bb < data.len() {
        (j + 1) * bb
    } else {
        data.len() as int
    };
    data.subrange(lo, hi)
}

/// `base` with the chunks of `data` from chunk `j` on written into the
/// blocks of `chain`, block by block.
pub open spec fn spec_write_chunks(
    base: Seq<u8>,
    chain: Seq<int>,
    data: Seq<u8>,
    bb: int,
    j: nat,
) -> Seq<u8>
    decreases chain.len() - j,
{
    if j >= chain.len() {
        base
    } else {
        spec_write_chunks(
            overlay(base, chain[j as int] * bb, spec_chunk(data, bb, j as int)),
            chain,
            data,
            bb,
            j + 1,
        )
    }
}

/// `base` with the buffered contents of the staged entries from `k` on
/// written into their chains, as read from `fat`.
pub open spec fn spec_write_staged(
    base: Seq<u8>,
    fat: Seq<u8>,
    staged: Seq<EntryModel>,
    data: Seq<Seq<u8>>,
    bb: int,
    k: nat,
) -> Seq<u8>
    decreases staged.len() - k,
{
    if k >= staged.len() {
        base
    } else {
        let written = match spec_walk(fat, staged[k as int].start as int, fat.len()) {
            Some(chain) => spec_write_chunks(base, chain, data[k as int], bb, 0),
            None => base,
        };
        spec_write_staged(written, fat, staged, data, bb, k + 1)
    }
}

/// The container bytes after a save: the allocation table written back, the
/// directory region rewritten from the persisted entries followed by the
/// staged entries under their re-derived names, and the staged contents
/// written into their chains.
pub open spec fn spec_saved_image(
    im: Seq<u8>,
    sb: SuperBlock,
    fat: Seq<u8>,
    persisted: Seq<EntryModel>,
    staged: Seq<EntryModel>,
    data: Seq<Seq<u8>>,
) -> Seq<u8> {
    let all = persisted + staged.map_values(|m: EntryModel| renamed_model(m));
    let s1 = overlay(im, 512, fat);
    let s2 = overlay(s1, spec_entries_offset(sb), spec_dir_bytes(all, spec_entries_size(sb)));
    spec_write_staged(s2, fat, staged, data, spec_block_bytes(sb.block_size), 0)
}

// ---------------------------------------------------------------------------
// Lemmas about the model.

/// The zero-terminated prefix is the subrange up to the first zero byte.
pub proof fn lemma_trunc_nul_prefix(s: Seq<u8>, k: int)
    requires
        0 <= k <= s.len(),
        forall|j: int| 0 <= j < k ==> s[j] != 0u8,
        k == s.len() || s[k] == 0u8,
    ensures
        trunc_nul(s) == s.subrange(0, k),
    decreases s.len(),
{
    if s.len() == 0 {
        assert(trunc_nul(s) =~= s.subrange(0, k));
    } else if k == 0 {
        assert(s[0] == 0u8);
        assert(trunc_nul(s) =~= s.subrange(0, 0));
    } else {
        assert(s[0] != 0u8);
        lemma_trunc_nul_prefix(s.skip(1), k - 1);
        assert(trunc_nul(s) == seq![s[0]] + trunc_nul(s.skip(1)));
        assert(seq![s[0]] + s.skip(1).subrange(0, k - 1) =~= s.subrange(0, k));
    }
}

/// A summand at the front of a concatenation is the `take` of its length.
pub proof fn lemma_prefix_is_take(whole: Seq<int>, a: Seq<int>, b: Seq<int>)
    requires
        whole == a + b,
    ensures
        a == whole.take(a.len() as int),
{
    assert(a =~= whole.take(a.len() as int));
}

/// A sequence without `/` bytes is its own final path component.
pub proof fn lemma_base_name_no_slash(s: Seq<u8>)
    requires
        forall|j: int| 0 <= j < s.len() ==> s[j] != 47u8,
    ensures
        base_name(s) == s,
    decreases s.len(),
{
    if s.len() > 0 {
        lemma_base_name_no_slash(s.drop_last());
        assert(s.drop_last().push(s.last()) =~= s);
    }
}

/// When `i` is the last `/` byte, the final path component is the suffix
/// after it.
pub proof fn lemma_base_name_last_slash(s: Seq<u8>, i: int)
    requires
        0 <= i < s.len(),
        s[i] == 47u8,
        forall|j: int| i < j < s.len() ==> s[j] != 47u8,
    ensures
        base_name(s) == s.subrange(i + 1, s.len() as int),
    decreases s.len(),
{
    if i == s.len() - 1 {
        assert(s.last() == 47u8);
        assert(s.subrange(i + 1, s.len() as int) =~= Seq::<u8>::empty());
    } else {
        assert(s.last() != 47u8);
        assert(s.drop_last()[i] == s[i]);
        lemma_base_name_last_slash(s.drop_last(), i);
        assert(s.drop_last().subrange(i + 1, s.len() - 1).push(s.last()) =~= s.subrange(
            i + 1,
            s.len() as int,
        ));
    }
}

/// The root-directory block sits at or after the end of the allocation
/// table: `root * block_bytes >= 512 + capacity`, and the root index is at
/// least one.
pub proof fn lemma_root_entry_bound(bs: u8, size: usize)
    requires
        bs >= 1,
    ensures
        spec_root_entry(bs, size) * spec_block_bytes(bs) >= 512 + spec_capacity(bs, size),
        spec_root_entry(bs, size) >= 1,
{
    let bb = spec_block_bytes(bs);
    let x = 512 + spec_capacity(bs, size);
    vstd::arithmetic::div_mod::lemma_div_pos_is_pos(size as int, bb);
    vstd::arithmetic::div_mod::lemma_fundamental_div_mod(x, bb);
    vstd::arithmetic::div_mod::lemma_mod_bound(x, bb);
    let q = x / bb;
    assert(x == bb * q + x % bb);
    vstd::arithmetic::div_mod::lemma_div_is_ordered(0, x, bb);
    if x % bb == 0 {
        assert(bb * q == q * bb) by (nonlinear_arith);
        assert(q >= 1) by (nonlinear_arith)
            requires
                bb * q == x,
                x >= 512,
                0 < bb,
                q >= 0,
        ;
    } else {
        assert((q + 1) * bb == q * bb + bb) by (nonlinear_arith);
        assert(bb * q == q * bb) by (nonlinear_arith);
    }
}

/// The whole sectors of `size` cover at least the image's blocks:
/// `(size / 512) * 512 >= capacity * block_bytes`.
pub proof fn lemma_total_covers_blocks(bs: u8, size: usize)
    requires
        bs >= 1,
    ensures
        (size as int / 512) * 512 >= spec_capacity(bs, size) * spec_block_bytes(bs),
{
    let q = size as int / 512;
    let cap = spec_capacity(bs, size);
    vstd::arithmetic::div_mod::lemma_div_denominator(size as int, 512, bs as int);
    assert(cap == q / bs as int);
    vstd::arithmetic::div_mod::lemma_fundamental_div_mod(q, bs as int);
    vstd::arithmetic::div_mod::lemma_mod_bound(q, bs as int);
    assert(q == bs as int * (q / bs as int) + q % bs as int);
    assert(cap * spec_block_bytes(bs) == (bs as int * cap) * 512) by (nonlinear_arith);
    assert(bs as int * cap <= q);
    assert((bs as int * cap) * 512 <= q * 512) by (nonlinear_arith)
        requires
            bs as int * cap <= q,
    ;
}

/// First index at or after `i` of a record whose zero-terminated name is
/// `nm`, or -1 when none matches.
pub open spec fn find_name(es: Seq<EntryModel>, nm: Seq<u8>, i: int) -> int
    decreases es.len() - i,
{
    if i < 0 || i >= es.len() {
        -1
    } else if trunc_nul(es[i].name) == nm {
        i
    } else {
        find_name(es, nm, i + 1)
    }
}

/// Every index a free scan collects lies in `[i, fat.len())`, is free, and
/// the collected indices are strictly ascending.
pub proof fn lemma_free_from_props(fat: Seq<u8>, i: int)
    ensures
        forall|k: int|
            0 <= k < free_from(fat, i).len() ==> i <= #[trigger] free_from(fat, i)[k]
                < fat.len() && fat[free_from(fat, i)[k]] == 0xffu8,
        forall|k: int, l: int|
            0 <= k < l < free_from(fat, i).len() ==> free_from(fat, i)[k] < free_from(fat, i)[l],
    decreases fat.len() - i,
{
    if i < 0 || i >= fat.len() {
    } else {
        lemma_free_from_props(fat, i + 1);
        if fat[i] == 0xffu8 {
            assert forall|k: int| 0 <= k < free_from(fat, i).len() implies i <= #[trigger] free_from(
                fat,
                i,
            )[k] < fat.len() && fat[free_from(fat, i)[k]] == 0xffu8 by {
                if k > 0 {
                    assert(free_from(fat, i)[k] == free_from(fat, i + 1)[k - 1]);
                }
            }
            assert forall|k: int, l: int|
                0 <= k < l < free_from(fat, i).len() implies free_from(fat, i)[k] < free_from(
                fat,
                i,
            )[l] by {
                if k > 0 {
                    assert(free_from(fat, i)[k] == free_from(fat, i + 1)[k - 1]);
                }
                assert(free_from(fat, i)[l] == free_from(fat, i + 1)[l - 1]);
            }
        }
    }
}

/// What a successful walk guarantees of its chain: it starts at `b`, every
/// block is in range, each link points to the next block, and the last
/// block carries the end-of-chain mark.
pub proof fn lemma_walk_props(fat: Seq<u8>, b: int, fuel: nat)
    requires
        spec_walk(fat, b, fuel) is Some,
    ensures
        ({
            let chain = spec_walk(fat, b, fuel)->Some_0;
            &&& chain.len() >= 1
            &&& chain[0] == b
            &&& (forall|k: int| 0 <= k < chain.len() ==> 0 <= #[trigger] chain[k] < fat.len())
            &&& fat[chain[chain.len() - 1]] == 0u8
            &&& (forall|k: int|
                0 <= k < chain.len() - 1 ==> fat[#[trigger] chain[k]] as int == chain[k + 1])
            &&& chain.len() <= fuel
        }),
    decreases fuel,
{
    let chain = spec_walk(fat, b, fuel)->Some_0;
    if fat[b] == 0u8 {
    } else {
        lemma_walk_props(fat, fat[b] as int, (fuel - 1) as nat);
        let rest = spec_walk(fat, fat[b] as int, (fuel - 1) as nat)->Some_0;
        assert(chain == seq![b] + rest);
        assert forall|k: int| 0 <= k < chain.len() implies 0 <= #[trigger] chain[k]
            < fat.len() by {
            if k > 0 {
                assert(chain[k] == rest[k - 1]);
            }
        }
        assert forall|k: int|
            0 <= k < chain.len() - 1 implies fat[#[trigger] chain[k]] as int == chain[k + 1] by {
            if k > 0 {
                assert(chain[k] == rest[k - 1]);
                assert(chain[k + 1] == rest[k]);
            } else {
                assert(chain[1] == rest[0]);
                assert(rest[0] == fat[b] as int);
            }
        }
        assert(chain[chain.len() - 1] == rest[rest.len() - 1]);
    }
}

/// The length of the laid-out records, and each slot of the layout.
pub proof fn lemma_records_slot(es: Seq<EntryModel>, t: int)
    requires
        0 <= t < es.len(),
    ensures
        spec_records(es).len() == 32 * es.len(),
        spec_records(es).subrange(32 * t, 32 * t + 32) == spec_entry_record(es[t]),
    decreases es.len(),
{
    lemma_records_len(es);
    if t == 0 {
        lemma_records_len(es.skip(1));
        assert(spec_records(es).subrange(0, 32) =~= spec_entry_record(es[0]));
    } else {
        lemma_records_slot(es.skip(1), t - 1);
        assert(es.skip(1)[t - 1] == es[t]);
        assert(spec_records(es).subrange(32 * t, 32 * t + 32) =~= spec_records(
            es.skip(1),
        ).subrange(32 * (t - 1), 32 * (t - 1) + 32));
    }
}

/// The laid-out records occupy exactly 32 bytes per record.
pub proof fn lemma_records_len(es: Seq<EntryModel>)
    ensures
        spec_records(es).len() == 32 * es.len(),
    decreases es.len(),
{
    if es.len() > 0 {
        lemma_records_len(es.skip(1));
    }
}

/// Writing chunks never changes the byte length.
pub proof fn lemma_write_chunks_len(base: Seq<u8>, chain: Seq<int>, data: Seq<u8>, bb: int, j: nat)
    ensures
        spec_write_chunks(base, chain, data, bb, j).len() == base.len(),
    decreases chain.len() - j,
{
    if j < chain.len() {
        lemma_write_chunks_len(
            overlay(base, chain[j as int] * bb, spec_chunk(data, bb, j as int)),
            chain,
            data,
            bb,
            j + 1,
        );
    }
}

/// A directory region of zero bytes parses to no records.
pub proof fn lemma_parse_zeros(region: Seq<u8>, nslots: nat)
    requires
        forall|i: int| 0 <= i < region.len() ==> region[i] == 0u8,
    ensures
        spec_parse_entries(region, nslots) == Seq::<EntryModel>::empty(),
    decreases nslots,
{
    if nslots == 0 || region.len() < 32 {
    } else {
        lemma_parse_zeros(region.skip(32), (nslots - 1) as nat);
    }
}

/// Writing staged contents never changes the byte length.
pub proof fn lemma_write_staged_len(
    base: Seq<u8>,
    fat: Seq<u8>,
    staged: Seq<EntryModel>,
    data: Seq<Seq<u8>>,
    bb: int,
    k: nat,
)
    ensures
        spec_write_staged(base, fat, staged, data, bb, k).len() == base.len(),
    decreases staged.len() - k,
{
    if k < staged.len() {
        match spec_walk(fat, staged[k as int].start as int, fat.len()) {
            Some(chain) => {
                lemma_write_chunks_len(base, chain, data[k as int], bb, 0);
                lemma_write_staged_len(
                    spec_write_chunks(base, chain, data[k as int], bb, 0),
                    fat,
                    staged,
                    data,
                    bb,
                    k + 1,
                );
            },
            None => {
                lemma_write_staged_len(base, fat, staged, data, bb, k + 1);
            },
        }
    }
}

/// Writing chunks into blocks at or above a bound leaves every byte below
/// the bound untouched.
pub proof fn lemma_write_chunks_frame(
    base: Seq<u8>,
    chain: Seq<int>,
    data: Seq<u8>,
    bb: int,
    j: nat,
    bound: int,
)
    requires
        bb >= 1,
        forall|p: int| 0 <= p < chain.len() ==> #[trigger] chain[p] * bb >= bound,
    ensures
        spec_write_chunks(base, chain, data, bb, j).len() == base.len(),
        forall|q: int|
            0 <= q < base.len() && q < bound ==> spec_write_chunks(base, chain, data, bb, j)[q]
                == base[q],
    decreases chain.len() - j,
{
    lemma_write_chunks_len(base, chain, data, bb, j);
    if j < chain.len() {
        let over = overlay(base, chain[j as int] * bb, spec_chunk(data, bb, j as int));
        assert(chain[j as int] * bb >= bound);
        assert(forall|q: int| 0 <= q < base.len() && q < bound ==> over[q] == base[q]);
        lemma_write_chunks_frame(over, chain, data, bb, j + 1, bound);
    }
}

/// Whether every block that a walk from `start` reaches sits in the data
/// region (at or after the block following the root-directory block).
pub open spec fn chain_in_data_region(fat: Seq<u8>, start: int, sb: SuperBlock) -> bool {
    match spec_walk(fat, start, fat.len()) {
        Some(chain) => forall|p: int|
            0 <= p < chain.len() ==> #[trigger] chain[p] >= sb.root_entry as int + 1,
        None => true,
    }
}

/// Writing staged contents whose chains all sit in the data region leaves
/// every byte below the end of the directory region untouched.
pub proof fn lemma_write_staged_frame(
    base: Seq<u8>,
    fat: Seq<u8>,
    staged: Seq<EntryModel>,
    data: Seq<Seq<u8>>,
    sb: SuperBlock,
    k: nat,
)
    requires
        sb.block_size >= 1,
        forall|t: int|
            0 <= t < staged.len() ==> #[trigger] chain_in_data_region(
                fat,
                staged[t].start as int,
                sb,
            ),
    ensures
        forall|q: int|
            0 <= q < base.len() && q < (sb.root_entry as int + 1) * spec_block_bytes(
                sb.block_size,
            ) ==> spec_write_staged(base, fat, staged, data, spec_block_bytes(sb.block_size), k)[q]
                == base[q],
    decreases staged.len() - k,
{
    let bb = spec_block_bytes(sb.block_size);
    let bound = (sb.root_entry as int + 1) * bb;
    lemma_write_staged_len(base, fat, staged, data, bb, k);
    if k < staged.len() {
        match spec_walk(fat, staged[k as int].start as int, fat.len()) {
            Some(chain) => {
                assert(chain_in_data_region(fat, staged[k as int].start as int, sb));
                assert forall|p: int| 0 <= p < chain.len() implies #[trigger] chain[p] * bb
                    >= bound by {
                    vstd::arithmetic::mul::lemma_mul_inequality(
                        sb.root_entry as int + 1,
                        chain[p],
                        bb,
                    );
                }
                lemma_write_chunks_frame(base, chain, data[k as int], bb, 0, bound);
                lemma_write_chunks_len(base, chain, data[k as int], bb, 0);
                lemma_write_staged_frame(
                    spec_write_chunks(base, chain, data[k as int], bb, 0),
                    fat,
                    staged,
                    data,
                    sb,
                    k + 1,
                );
            },
            None => {
                lemma_write_staged_frame(base, fat, staged, data, sb, k + 1);
            },
        }
    }
}

/// Two little-endian bytes of a 16-bit value read back as that value.
pub proof fn lemma_le16_round(v: u16)
    ensures
        le16_val(u16_byte(v, 0), u16_byte(v, 1)) == v,
{
    vstd::arithmetic::div_mod::lemma_fundamental_div_mod(v as int, 256);
    vstd::arithmetic::div_mod::lemma_small_mod((v as int / 256) as nat, 256);
}

/// Four little-endian bytes of a 32-bit value read back as that value.
pub proof fn lemma_le32_round(v: u32)
    ensures
        le32_val(u32_byte(v, 0), u32_byte(v, 1), u32_byte(v, 2), u32_byte(v, 3)) == v,
{
    vstd::arithmetic::div_mod::lemma_fundamental_div_mod(v as int, 256);
    vstd::arithmetic::div_mod::lemma_fundamental_div_mod(v as int / 256, 256);
    vstd::arithmetic::div_mod::lemma_fundamental_div_mod(v as int / 256 / 256, 256);
    vstd::arithmetic::div_mod::lemma_div_denominator(v as int, 256, 256);
    vstd::arithmetic::div_mod::lemma_div_denominator(v as int, 65536, 256);
    vstd::arithmetic::div_mod::lemma_div_denominator(v as int / 256, 256, 256);
    vstd::arithmetic::div_mod::lemma_small_mod((v as int / 16777216) as nat, 256);
}

/// The `len` bytes stored in a chain: byte `i` lives in block `chain[i /
/// block_bytes]` at offset `i % block_bytes`.
pub open spec fn read_chain(im: Seq<u8>, chain: Seq<int>, len: int, bb: int) -> Seq<u8> {
    Seq::new(len as nat, |i: int| im[chain[i / bb] * bb + i % bb])
}

/// Writing chunks into blocks other than `blk` leaves every byte of block
/// `blk` untouched.
pub proof fn lemma_write_chunks_avoid(
    base: Seq<u8>,
    chain: Seq<int>,
    data: Seq<u8>,
    bb: int,
    j: nat,
    pos: int,
    blk: int,
)
    requires
        bb >= 1,
        0 <= pos < base.len(),
        blk * bb <= pos < (blk + 1) * bb,
        forall|p: int| j <= p < chain.len() ==> #[trigger] chain[p] != blk,
    ensures
        spec_write_chunks(base, chain, data, bb, j)[pos] == base[pos],
    decreases chain.len() - j,
{
    lemma_write_chunks_len(base, chain, data, bb, j);
    if j < chain.len() {
        let c = chain[j as int];
        let over = overlay(base, c * bb, spec_chunk(data, bb, j as int));
        assert((j as int + 1) * bb == j as int * bb + bb) by (nonlinear_arith);
        assert(spec_chunk(data, bb, j as int).len() <= bb);
        if c > blk {
            assert(c * bb >= (blk + 1) * bb) by (nonlinear_arith)
                requires
                    c >= blk + 1,
                    bb >= 1,
            ;
            assert(over[pos] == base[pos]);
        } else {
            assert(c < blk);
            assert(c * bb + bb <= blk * bb) by (nonlinear_arith)
                requires
                    c + 1 <= blk,
                    bb >= 1,
            ;
            assert(over[pos] == base[pos]);
        }
        lemma_write_chunks_avoid(over, chain, data, bb, j + 1, pos, blk);
    }
}

/// After the chunks from `j0` on are written, every data byte from
/// `j0 * block_bytes` on reads back from its block.
pub proof fn lemma_write_chunks_reads(
    base: Seq<u8>,
    chain: Seq<int>,
    data: Seq<u8>,
    bb: int,
    j0: nat,
)
    requires
        bb >= 1,
        data.len() <= chain.len() * bb,
        forall|p: int|
            0 <= p < chain.len() ==> 0 <= #[trigger] chain[p] && (chain[p] + 1) * bb
                <= base.len(),
        forall|p: int, q: int| 0 <= p < q < chain.len() ==> chain[p] != chain[q],
    ensures
        forall|i: int|
            j0 * bb <= i < data.len() ==> spec_write_chunks(base, chain, data, bb, j0)[#[trigger] (
            chain[i / bb] * bb + i % bb)] == data[i],
    decreases chain.len() - j0,
{
    lemma_write_chunks_len(base, chain, data, bb, j0);
    if j0 >= chain.len() {
        assert(chain.len() as int * bb <= j0 as int * bb) by (nonlinear_arith)
            requires
                chain.len() <= j0,
                bb >= 1,
        ;
    } else {
        let c = chain[j0 as int];
        let chunk = spec_chunk(data, bb, j0 as int);
        let over = overlay(base, c * bb, chunk);
        lemma_write_chunks_reads(over, chain, data, bb, j0 + 1);
        assert((j0 + 1) as int * bb == j0 as int * bb + bb) by (nonlinear_arith);
        assert forall|i: int|
            j0 * bb <= i < data.len() implies spec_write_chunks(base, chain, data, bb, j0)[#[trigger] (
            chain[i / bb] * bb + i % bb)] == data[i] by {
            if i < j0 as int * bb + bb {
                vstd::arithmetic::div_mod::lemma_fundamental_div_mod_converse(
                    i,
                    bb,
                    j0 as int,
                    i - j0 as int * bb,
                );
                assert(i / bb == j0 as int);
                assert(i % bb == i - j0 as int * bb);
                let pos = c * bb + (i - j0 as int * bb);
                assert(chunk.len() > i - j0 as int * bb);
                assert(pos < (c + 1) * bb) by (nonlinear_arith)
                    requires
                        pos == c * bb + (i - j0 as int * bb),
                        i - j0 as int * bb < bb,
                ;
                assert(pos < base.len());
                assert(over[pos] == chunk[i - j0 as int * bb]);
                assert(chunk[i - j0 as int * bb] == data[i]);
                lemma_write_chunks_avoid(over, chain, data, bb, j0 + 1, pos, c);
                assert(spec_write_chunks(over, chain, data, bb, j0 + 1)[pos] == over[pos]);
            }
        }
    }
}

/// The bytes written into a chain read back exactly: storing a file's
/// contents chunk by chunk into distinct, in-range blocks and then reading
/// the chain back yields those same bytes.
pub proof fn lemma_chain_read_back(base: Seq<u8>, chain: Seq<int>, data: Seq<u8>, bb: int)
    requires
        bb >= 1,
        data.len() <= chain.len() * bb,
        forall|p: int|
            0 <= p < chain.len() ==> 0 <= #[trigger] chain[p] && (chain[p] + 1) * bb
                <= base.len(),
        forall|p: int, q: int| 0 <= p < q < chain.len() ==> chain[p] != chain[q],
    ensures
        read_chain(spec_write_chunks(base, chain, data, bb, 0), chain, data.len() as int, bb)
            == data,
{
    lemma_write_chunks_reads(base, chain, data, bb, 0);
    assert(read_chain(
        spec_write_chunks(base, chain, data, bb, 0),
        chain,
        data.len() as int,
        bb,
    ) =~= data);
}

} // verus!
