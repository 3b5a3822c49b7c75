//! A minimal flat-namespace file container ("image") in the style of FAT:
//! a fixed-layout header sector, a byte-per-block allocation table, a
//! fixed-capacity directory of file records, and a data region holding file
//! contents in singly-linked block chains.
//!
//! The library is purely in-memory: every operation computes over byte
//! vectors and plain values. Reading and writing the backing container file,
//! and reading a source file that is being added, are left to the caller.

use vstd::prelude::*;

pub mod add;
pub mod create;
pub mod del;
pub mod info;
pub mod laws;
pub mod list;
pub mod model;
pub mod save;
pub mod utils;

pub use crate::create::create;

use crate::model::{
    le16_val, models, pad_bytes, sb_wf, spec_capacity, spec_entries_offset, spec_entries_size,
    spec_parse_entries, spec_root_entry,
};
use vstd::string::StringSliceAdditionalSpecFns;

verus! {

/// Magic value held by the last two bytes of the header sector.
pub const MAGIC: u16 = 0x55aa;

/// Size in bytes of one sector, the atomic unit of the backing storage.
pub const SECTOR_SIZE: usize = 0x200;

/// Errors surfaced by the container operations.
#[derive(Debug, Clone, Copy, PartialEq, Eq, Structural)]
pub enum FsError {
    /// The bytes handed to `open` are not a recognized image.
    InvalidImage,
    /// The source file of an `add` could not be read (reported by callers
    /// that perform the read; the in-memory operations never produce it).
    SourceNotFound,
    /// Not enough free blocks in the data-eligible range for an `add`.
    ImageFull,
    /// The requested size and block size give a block count outside `1..=254`,
    /// or too small to hold the directory block.
    CapacityExceeded,
    /// `del` found no persisted entry of that name.
    NotFound,
    /// A chain walk met an out-of-range or cyclic link.
    CorruptChain,
    /// No directory slot is left for another entry.
    DirectoryFull,
}

/// The fixed-offset header record of an image, held in sector 0.
#[derive(Debug, Clone, Copy)]
pub struct SuperBlock {
    pub sector_size: u16,
    pub block_size: u8,
    pub fat_size: u32,
    pub version: u16,
    pub root_entry: u32,
    pub label: [u8; 8],
    pub signature: u16,
}

impl SuperBlock {
    /// Derives a header from a label, a block size in sectors, and a target
    /// image size in bytes. The table capacity is the number of whole blocks
    /// the image holds; the root-directory block is the first block boundary
    /// at or after the end of the allocation table.
    pub fn new(label: &str, bs: u8, size: usize) -> (sb: SuperBlock)
        requires
            bs >= 1,
            1 <= spec_capacity(bs, size) <= 254,
        ensures
            sb.sector_size == SECTOR_SIZE as u16,
            sb.block_size == bs,
            sb.fat_size == spec_capacity(bs, size),
            sb.version == 1,
            sb.root_entry == spec_root_entry(bs, size),
            sb.label@ == pad_bytes(label.spec_bytes(), 8),
            sb.signature == MAGIC,
    {
        let raw_label = pack_label(label);
        let block_bytes = SECTOR_SIZE * bs as usize;
        let fat_size = size / block_bytes;
        let mut root_entry = (SECTOR_SIZE + fat_size) / block_bytes;
        if (SECTOR_SIZE + fat_size) % block_bytes != 0 {
            root_entry += 1;
        }
        SuperBlock {
            sector_size: SECTOR_SIZE as u16,
            block_size: bs,
            fat_size: fat_size as u32,
            version: 1,
            root_entry: root_entry as u32,
            label: raw_label,
            signature: MAGIC,
        }
    }
}

/// Copies the first 8 bytes of a label into a zero-padded fixed field.
fn pack_label(label: &str) -> (r: [u8; 8])
    ensures
        r@ == pad_bytes(label.spec_bytes(), 8),
{
    let bytes = label.as_bytes();
    let mut raw: [u8; 8] = [0; 8];
    let mut i: usize = 0;
    while i < 8 && i < bytes.len()
        invariant
            i <= 8,
            i <= bytes@.len(),
            bytes@ == label.spec_bytes(),
            raw@.len() == 8,
            forall|j: int| 0 <= j < i ==> raw@[j] == bytes@[j],
            forall|j: int| i <= j < 8 ==> raw@[j] == 0u8,
        decreases 8 - i,
    {
        raw[i] = bytes[i];
        i += 1;
    }
    proof {
        assert(raw@ =~= pad_bytes(label.spec_bytes(), 8));
    }
    raw
}

/// One directory record: a zero-padded name, the first block of the file's
/// chain, and the file's byte size.
#[derive(Debug, Clone, Copy)]
pub struct Entry {
    pub name: [u8; 26],
    pub start: u16,
    pub size: u32,
}

impl Entry {
    /// Builds a record whose name is the first 26 bytes of `name`,
    /// zero-padded, with no chain assigned yet.
    pub fn new(name: &str) -> (e: Entry)
        ensures
            e.name@ == pad_bytes(name.spec_bytes(), 26),
            e.start == 0,
            e.size == 0,
    {
        let bytes = name.as_bytes();
        let mut raw: [u8; 26] = [0; 26];
        let mut i: usize = 0;
        while i < 26 && i < bytes.len()
            invariant
                i <= 26,
                i <= bytes@.len(),
                bytes@ == name.spec_bytes(),
                raw@.len() == 26,
                forall|j: int| 0 <= j < i ==> raw@[j] == bytes@[j],
                forall|j: int| i <= j < 26 ==> raw@[j] == 0u8,
            decreases 26 - i,
        {
            raw[i] = bytes[i];
            i += 1;
        }
        proof {
            assert(raw@ =~= pad_bytes(name.spec_bytes(), 26));
        }
        Entry { name: raw, start: 0, size: 0 }
    }
}

/// One session over a container image: the path name it backs, the decoded
/// header, the in-memory allocation table, the persisted directory entries,
/// and the staged (added but not yet saved) entries with their buffered
/// contents.
#[derive(Debug)]
pub struct MicroFS {
    /// Path name of the backing container, kept for the caller; the session
    /// itself never touches the file system.
    pub image: String,
    pub sb: SuperBlock,
    pub fat: Vec<u8>,
    pub entries: Vec<Entry>,
    /// Entries staged by `add` and not yet saved, in the order added.
    pub new_entries: Vec<Entry>,
    /// Buffered contents of the staged entries, parallel to `new_entries`.
    pub new_data: Vec<Vec<u8>>,
    /// Whether `sb` was established by a successful `create` or `open`.
    pub valid: bool,
}

impl MicroFS {
    /// Starts a session for the container at `image`. The session holds no
    /// header yet; `open` it from the container's bytes, or `create` it anew.
    pub fn new(image: &str) -> (fs: MicroFS)
        ensures
            fs.image@ == image@,
            !fs.valid,
            fs.fat@ == Seq::<u8>::empty(),
            fs.entries@ == Seq::<Entry>::empty(),
            fs.new_entries@ == Seq::<Entry>::empty(),
            fs.new_data@ == Seq::<Vec<u8>>::empty(),
    {
        MicroFS {
            image: image.to_owned(),
            sb: SuperBlock {
                sector_size: 0,
                block_size: 0,
                fat_size: 0,
                version: 0,
                root_entry: 0,
                label: [0; 8],
                signature: 0,
            },
            fat: Vec::new(),
            entries: Vec::new(),
            new_entries: Vec::new(),
            new_data: Vec::new(),
            valid: false,
        }
    }

    /// Opens the session from the container's bytes: validates the
    /// signature, re-derives the header from the stored block size and the
    /// container's length, and loads the allocation table and the persisted
    /// directory entries. On any failure the session is left unchanged and
    /// `InvalidImage` is reported.
    pub fn open(&mut self, raw: &[u8]) -> (r: Result<(), FsError>)
        ensures
            r is Ok <==> openable(raw@),
            r matches Err(e) ==> e == FsError::InvalidImage && *final(self) == *old(self),
            r is Ok ==> ({
                let bs = raw@[13];
                let cap = spec_capacity(bs, raw@.len() as usize);
                let sb = final(self).sb;
                &&& sb.sector_size == 512
                &&& sb.block_size == bs
                &&& sb.fat_size == cap
                &&& sb.version == 1
                &&& sb.root_entry == spec_root_entry(bs, raw@.len() as usize)
                &&& sb.label@ == raw@.subrange(82, 90)
                &&& sb.signature == MAGIC
                &&& sb_wf(sb)
                &&& final(self).fat@ == raw@.subrange(512, 512 + cap)
                &&& models(final(self).entries@) == spec_parse_entries(
                    raw@.subrange(
                        spec_entries_offset(sb),
                        spec_entries_offset(sb) + spec_entries_size(sb),
                    ),
                    (spec_entries_size(sb) / 32) as nat,
                )
                &&& final(self).new_entries@.len() == 0
                &&& final(self).new_data@.len() == 0
                &&& final(self).valid
                &&& final(self).image == old(self).image
            }),
    {
        let total = raw.len();
        if total < 512 {
            return Err(FsError::InvalidImage);
        }
        let sig = raw[510] as u16 + 256 * raw[511] as u16;
        if sig != MAGIC {
            return Err(FsError::InvalidImage);
        }
        let bs = raw[13];
        if bs < 1 {
            return Err(FsError::InvalidImage);
        }
        let bb = SECTOR_SIZE * bs as usize;
        let cap = total / bb;
        if cap < 1 || cap > 254 {
            return Err(FsError::InvalidImage);
        }
        let mut root = (SECTOR_SIZE + cap) / bb;
        if (SECTOR_SIZE + cap) % bb != 0 {
            root += 1;
        }
        if root + 1 >= cap {
            return Err(FsError::InvalidImage);
        }
        proof {
            crate::model::lemma_root_entry_bound(bs, total);
            crate::model::lemma_total_covers_blocks(bs, total);
            vstd::arithmetic::mul::lemma_mul_inequality(
                root as int + 1,
                cap as int,
                512 * bs as int,
            );
            vstd::arithmetic::mul::lemma_mul_inequality(root as int, cap as int, 512 * bs as int);
            assert((root as int + 1) * (512 * bs as int) == root as int * (512 * bs as int) + 512
                * bs as int) by (nonlinear_arith);
            vstd::arithmetic::div_mod::lemma_fundamental_div_mod(total as int, 512);
            vstd::arithmetic::div_mod::lemma_mod_bound(total as int, 512);
            assert((total as int / 512) * 512 == 512 * (total as int / 512)) by (nonlinear_arith);
        }
        let mut label: [u8; 8] = [0; 8];
        label[0] = raw[82];
        label[1] = raw[83];
        label[2] = raw[84];
        label[3] = raw[85];
        label[4] = raw[86];
        label[5] = raw[87];
        label[6] = raw[88];
        label[7] = raw[89];
        proof {
            assert(label@ =~= raw@.subrange(82, 90));
        }
        self.sb = SuperBlock {
            sector_size: SECTOR_SIZE as u16,
            block_size: bs,
            fat_size: cap as u32,
            version: 1,
            root_entry: root as u32,
            label,
            signature: MAGIC,
        };
        self.valid = true;
        self.new_entries = Vec::new();
        self.new_data = Vec::new();
        self.set_fat(raw);
        self.set_entries(raw);
        Ok(())
    }
}

/// Whether a byte sequence is accepted by `open`: long enough to hold the
/// header sector, carrying the signature, and with a stored block size
/// whose derived capacity fits the format and leaves room for a data block.
pub open spec fn openable(raw: Seq<u8>) -> bool {
    &&& raw.len() >= 512
    &&& le16_val(raw[510], raw[511]) == 0x55aa
    &&& raw[13] >= 1
    &&& 1 <= spec_capacity(raw[13], raw.len() as usize) <= 254
    &&& spec_root_entry(raw[13], raw.len() as usize) + 1 < spec_capacity(
        raw[13],
        raw.len() as usize,
    )
}

} // verus!
