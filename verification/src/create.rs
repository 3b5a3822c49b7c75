//! Creating a fresh container: deriving the header, encoding it at its
//! fixed offsets, and laying out the header sector, the all-free allocation
//! table, and the zeroed remainder as one byte image.

use vstd::prelude::*;

use crate::model::{
    lemma_root_entry_bound, lemma_total_covers_blocks, pad_bytes, sb_wf, spec_capacity,
    spec_create_image, spec_header, spec_header_byte, spec_root_entry,
};
use crate::FsError;
use crate::MicroFS;
use crate::SuperBlock;
use crate::SECTOR_SIZE;
use vstd::string::StringSliceAdditionalSpecFns;

verus! {

/// Starts a session for the container at `image` and creates a fresh image
/// in it, returning the session together with the container bytes to be
/// written to that path.
pub fn create(image: &str, label: &str, bs: u8, size: usize) -> (r: Result<
    (MicroFS, Vec<u8>),
    FsError,
>)
    ensures
        r is Ok <==> creatable(bs, size),
        r matches Err(e) ==> e == FsError::CapacityExceeded,
        r matches Ok(p) ==> {
            &&& created_session(p.0, label@, bs, size)
            &&& p.0.image@ == image@
            &&& p.1@ == spec_create_image(p.0.sb, size)
        },
{
    let mut fs = MicroFS::new(image);
    match fs.create(label, bs, size) {
        Ok(img) => Ok((fs, img)),
        Err(e) => Err(e),
    }
}

/// Whether a (block size, image size) pair can be created: the derived
/// capacity must fit the one-byte link space and leave room for the
/// metadata blocks and at least one data block.
pub open spec fn creatable(bs: u8, size: usize) -> bool {
    &&& bs >= 1
    &&& 1 <= spec_capacity(bs, size) <= 254
    &&& spec_root_entry(bs, size) + 1 < spec_capacity(bs, size)
}

/// What a session looks like right after a successful creation.
pub open spec fn created_session(fs: MicroFS, label: Seq<char>, bs: u8, size: usize) -> bool {
    &&& fs.sb.sector_size == 512
    &&& fs.sb.block_size == bs
    &&& fs.sb.fat_size == spec_capacity(bs, size)
    &&& fs.sb.version == 1
    &&& fs.sb.root_entry == spec_root_entry(bs, size)
    &&& fs.sb.label@ == pad_bytes(vstd::utf8::encode_utf8(label), 8)
    &&& fs.sb.signature == 0x55aa
    &&& sb_wf(fs.sb)
    &&& fs.fat@ == Seq::new(spec_capacity(bs, size) as nat, |i: int| 0xffu8)
    &&& fs.entries@ == Seq::<crate::Entry>::empty()
    &&& fs.new_entries@.len() == 0
    &&& fs.new_data@.len() == 0
    &&& fs.valid
}

impl MicroFS {
    /// Replaces the session's state with a freshly derived header, an
    /// all-free allocation table and an empty directory, and returns the
    /// full byte image of the new container (header sector, table bytes,
    /// zeros up to the last whole sector of `size`). Rejects a block size
    /// and size whose derived capacity is outside `1..=254` or leaves no
    /// data block after the directory.
    pub fn create(&mut self, label: &str, bs: u8, size: usize) -> (r: Result<Vec<u8>, FsError>)
        ensures
            r is Ok <==> creatable(bs, size),
            r matches Err(e) ==> e == FsError::CapacityExceeded && *final(self) == *old(self),
            r matches Ok(img) ==> {
                &&& created_session(*final(self), label@, bs, size)
                &&& final(self).image == old(self).image
                &&& img@ == spec_create_image(final(self).sb, size)
            },
    {
        if bs < 1 {
            return Err(FsError::CapacityExceeded);
        }
        let bb = SECTOR_SIZE * bs as usize;
        let cap = size / bb;
        if cap < 1 || cap > 254 {
            return Err(FsError::CapacityExceeded);
        }
        let mut root = (SECTOR_SIZE + cap) / bb;
        if (SECTOR_SIZE + cap) % bb != 0 {
            root += 1;
        }
        if root + 1 >= cap {
            return Err(FsError::CapacityExceeded);
        }
        proof {
            lemma_root_entry_bound(bs, size);
            lemma_total_covers_blocks(bs, size);
        }
        let sb = SuperBlock::new(label, bs, size);
        self.sb = sb;
        self.fat = vec![0xffu8; cap];
        proof {
            assert forall|q: int| 0 <= q < cap implies self.fat@[q] == 0xffu8 by {
                assert(vstd::pervasive::cloned(0xffu8, self.fat@[q]));
            }
            assert(self.fat@ =~= Seq::new(spec_capacity(bs, size) as nat, |i: int| 0xffu8));
        }
        self.entries = Vec::new();
        self.new_entries = Vec::new();
        self.new_data = Vec::new();
        self.valid = true;

        let mut img = encode_super_block(&sb);
        let total = (size / SECTOR_SIZE) * SECTOR_SIZE;
        proof {
            assert(total as int >= spec_capacity(bs, size) * (512 * bs as int));
            assert(spec_capacity(bs, size) * (512 * bs as int) >= spec_capacity(bs, size) + 512)
                by (nonlinear_arith)
                requires
                    512 * bs as int >= 512,
                    spec_capacity(bs, size) >= 2,
            ;
        }
        while img.len() < 512 + cap
            invariant
                512 <= img@.len() <= 512 + cap,
                1 <= cap <= 254,
                cap == spec_capacity(bs, size),
                forall|q: int| 0 <= q < 512 ==> img@[q] == spec_header_byte(sb, q),
                forall|q: int| 512 <= q < img@.len() ==> img@[q] == 0xffu8,
            decreases 512 + cap - img.len(),
        {
            img.push(0xff);
        }
        while img.len() < total
            invariant
                512 + cap <= img@.len() <= total,
                1 <= cap <= 254,
                total == (size as int / 512) * 512,
                cap == spec_capacity(bs, size),
                forall|q: int| 0 <= q < 512 ==> img@[q] == spec_header_byte(sb, q),
                forall|q: int| 512 <= q < 512 + cap ==> img@[q] == 0xffu8,
                forall|q: int| 512 + cap <= q < img@.len() ==> img@[q] == 0u8,
            decreases total - img.len(),
        {
            img.push(0);
        }
        proof {
            assert(img@ =~= spec_create_image(sb, size));
        }
        Ok(img)
    }
}

/// Encodes a header into its 512-byte sector: each field at its documented
/// offset, little-endian, reserved ranges zero-filled.
fn encode_super_block(sb: &SuperBlock) -> (r: Vec<u8>)
    ensures
        r@ == spec_header(*sb),
{
    let mut buf: Vec<u8> = vec![0u8; 512];
    buf[11] = (sb.sector_size % 256) as u8;
    buf[12] = (sb.sector_size / 256) as u8;
    buf[13] = sb.block_size;
    buf[36] = (sb.fat_size % 256) as u8;
    buf[37] = (sb.fat_size / 256 % 256) as u8;
    buf[38] = (sb.fat_size / 65536 % 256) as u8;
    buf[39] = (sb.fat_size / 16777216) as u8;
    buf[42] = (sb.version % 256) as u8;
    buf[43] = (sb.version / 256) as u8;
    buf[44] = (sb.root_entry % 256) as u8;
    buf[45] = (sb.root_entry / 256 % 256) as u8;
    buf[46] = (sb.root_entry / 65536 % 256) as u8;
    buf[47] = (sb.root_entry / 16777216) as u8;
    buf[82] = sb.label[0];
    buf[83] = sb.label[1];
    buf[84] = sb.label[2];
    buf[85] = sb.label[3];
    buf[86] = sb.label[4];
    buf[87] = sb.label[5];
    buf[88] = sb.label[6];
    buf[89] = sb.label[7];
    buf[510] = (sb.signature % 256) as u8;
    buf[511] = (sb.signature / 256) as u8;
    proof {
        assert(buf@ =~= spec_header(*sb));
    }
    buf
}

} // verus!
